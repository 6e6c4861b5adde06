//! Matching a pattern against a syntax tree: a placeholder binds whatever
//! node stands where it does, a sequence placeholder (`*$NAME`) absorbs zero
//! or more siblings, and every other node must be the same variant with
//! matching atoms and matching children. A metavariable used twice must
//! bind structurally equal nodes, never merely equal text.

use crate::compare::{node_eq, spec_node_eq, Node, Role};
use crate::matcher::Atom;
use crate::prepare::Binding;
use crate::text::{bytes_eq, owned, str_eq};
use vstd::prelude::*;
use vstd::string::StringSliceAdditionalSpecFns;

verus! {

/// What a metavariable captured: one node, a run of sibling nodes, or an
/// identifier in a name position.
#[derive(Debug)]
pub enum Capture<'a> {
    One(&'a Node),
    Many(Vec<&'a Node>),
    Name(Vec<u8>),
}

/// A capture as the specification speaks of it.
pub enum CapView {
    One(Node),
    Many(Seq<Node>),
    Name(Seq<u8>),
}

/// The nodes a run of references refers to.
pub open spec fn derefs(v: Seq<&Node>) -> Seq<Node> {
    Seq::new(v.len(), |i: int| *v[i])
}

pub open spec fn cap_view(c: Capture) -> CapView {
    match c {
        Capture::One(n) => CapView::One(*n),
        Capture::Many(v) => CapView::Many(derefs(v@)),
        Capture::Name(b) => CapView::Name(b@),
    }
}

pub open spec fn env_view(env: Seq<(String, Capture)>) -> Seq<(Seq<char>, CapView)> {
    env.map_values(|e: (String, Capture)| (e.0@, cap_view(e.1)))
}

/// The binding whose placeholder is spelled by `b`.
pub open spec fn binding_for(bs: Seq<(String, Binding)>, b: Seq<u8>) -> Option<Binding>
    decreases bs.len(),
{
    if bs.len() == 0 {
        None
    } else if vstd::utf8::encode_utf8(bs[0].0@) == b {
        Some(bs[0].1)
    } else {
        binding_for(bs.drop_first(), b)
    }
}

/// The binding a node stands for, when it is a placeholder reference.
pub open spec fn spec_placeholder(n: Node, bs: Seq<(String, Binding)>) -> Option<Binding> {
    match n.bare {
        Some(b) => binding_for(bs, b@),
        None => None,
    }
}

/// The binding a sequence placeholder `*$NAME` stands for: a splat
/// wrapping a placeholder.
pub open spec fn spec_splat(n: Node, bs: Seq<(String, Binding)>) -> Option<Binding> {
    if n.role is Splat && n.children@.len() == 1 {
        spec_placeholder(n.children@[0], bs)
    } else {
        None
    }
}

/// The metavariable of `def foo(*$P)`'s parameter list: one whose only
/// content is a rest parameter named after a placeholder.
pub open spec fn spec_lone_rest(n: Node, bs: Seq<(String, Binding)>) -> Option<Seq<char>> {
    match n.role {
        Role::Parameters { rest: Some(r) } => if n.children@.len() == 1 {
            match binding_for(bs, r@) {
                Some(b) => match b.name {
                    Some(name) => Some(name@),
                    None => None,
                },
                None => None,
            }
        } else {
            None
        },
        _ => None,
    }
}

/// The first capture under `key`.
pub open spec fn env_find(env: Seq<(Seq<char>, CapView)>, key: Seq<char>) -> Option<CapView>
    decreases env.len(),
{
    if env.len() == 0 {
        None
    } else if env[0].0 == key {
        Some(env[0].1)
    } else {
        env_find(env.drop_first(), key)
    }
}

/// Whether a capture met again agrees with the first: structurally equal
/// nodes, equal names, pairwise equal runs; a name and a node agree when the
/// node is a bare reference to that name.
pub open spec fn agree(a: CapView, b: CapView) -> bool {
    match (a, b) {
        (CapView::One(x), CapView::One(y)) => spec_node_eq(x, y),
        (CapView::Name(x), CapView::Name(y)) => x == y,
        (CapView::Many(x), CapView::Many(y)) => x.len() == y.len() && forall|i: int|
            0 <= i < x.len() ==> spec_node_eq(#[trigger] x[i], y[i]),
        (CapView::Name(x), CapView::One(n)) => n.bare matches Some(v) && v@ == x,
        (CapView::One(n), CapView::Name(y)) => n.bare matches Some(v) && v@ == y,
        _ => false,
    }
}

/// Binding `key` to `v`: a first binding is recorded; a repeated one must
/// agree with the first.
pub open spec fn spec_bind(env: Seq<(Seq<char>, CapView)>, key: Seq<char>, v: CapView) -> Option<
    Seq<(Seq<char>, CapView)>,
> {
    match env_find(env, key) {
        None => Some(env.push((key, v))),
        Some(o) => if agree(o, v) {
            Some(env)
        } else {
            None
        },
    }
}

/// A metavariable met for the first time is recorded with what it meets.
/// Met again, it binds nothing new: the match goes on only where what it
/// meets now is what it held -- the same node, the same name, or a run of
/// the same length whose nodes are equal position by position -- and the
/// environment keeps the first binding. A run never agrees with a single
/// node or a name.
pub proof fn law_a_repeated_metavariable_holds_what_it_held(
    env: Seq<(Seq<char>, CapView)>,
    key: Seq<char>,
    again: CapView,
)
    ensures
        env_find(env, key) is None ==> spec_bind(env, key, again) == Some(env.push((key, again))),
        env_find(env, key) is Some ==> (spec_bind(env, key, again) is None || spec_bind(env, key, again) == Some(env)),
        env_find(env, key) matches Some(CapView::Many(x)) ==> (spec_bind(env, key, again) is Some <==> (
        again matches CapView::Many(y) && x.len() == y.len() && forall|i: int|
            0 <= i < x.len() ==> spec_node_eq(#[trigger] x[i], y[i]))),
        env_find(env, key) matches Some(CapView::One(x)) ==> (again matches CapView::One(y) ==> (spec_bind(
            env,
            key,
            again,
        ) is Some <==> spec_node_eq(x, y))),
        env_find(env, key) matches Some(CapView::Name(x)) ==> (again matches CapView::Name(y) ==> (spec_bind(
            env,
            key,
            again,
        ) is Some <==> x == y)),
        env_find(env, key) matches Some(CapView::Name(x)) ==> (again matches CapView::One(n) ==> (spec_bind(
            env,
            key,
            again,
        ) is Some <==> (n.bare matches Some(v) && v@ == x))),
        env_find(env, key) matches Some(CapView::One(n)) ==> (again matches CapView::Name(y) ==> (spec_bind(
            env,
            key,
            again,
        ) is Some <==> (n.bare matches Some(v) && v@ == y))),
        env_find(env, key) is Some && !(env_find(env, key) matches Some(CapView::Many(_))) ==> (again is Many ==> spec_bind(
            env,
            key,
            again,
        ) is None),
{
}

/// Binding a placeholder's metavariable; an anonymous one binds nothing.
pub open spec fn bind_named(env: Seq<(Seq<char>, CapView)>, b: Binding, v: CapView) -> Option<
    Seq<(Seq<char>, CapView)>,
> {
    match b.name {
        None => Some(env),
        Some(n) => spec_bind(env, n@, v),
    }
}

/// Atoms from `k` on, pairwise: a name or value atom that is a placeholder
/// binds the target's; every other atom must be equal.
pub open spec fn spec_match_atoms(
    pa: Seq<Atom>,
    ta: Seq<Atom>,
    k: int,
    bs: Seq<(String, Binding)>,
    env: Seq<(Seq<char>, CapView)>,
) -> Option<Seq<(Seq<char>, CapView)>>
    decreases pa.len() - k,
{
    if k < 0 || k >= pa.len() || k >= ta.len() {
        Some(env)
    } else {
        let next = match (pa[k], ta[k]) {
            (Atom::Value(pn), Atom::Value(tn)) => match binding_for(bs, pn@) {
                Some(b) => bind_named(env, b, CapView::Name(tn@)),
                None => if pn@ == tn@ {
                    Some(env)
                } else {
                    None
                },
            },
            (Atom::Name(pn), Atom::Name(tn)) => match binding_for(bs, pn@) {
                Some(b) => bind_named(env, b, CapView::Name(tn@)),
                None => if pn@ == tn@ {
                    Some(env)
                } else {
                    None
                },
            },
            (p, t) => if crate::compare::atom_eq(p, t) {
                Some(env)
            } else {
                None
            },
        };
        match next {
            Some(e) => spec_match_atoms(pa, ta, k + 1, bs, e),
            None => None,
        }
    }
}

/// Whether a pattern subtree can match nothing at all, binding the sequence
/// placeholders in it to the empty run: a call without arguments has no
/// arguments node, where the pattern `foo(*$REST)` has one.
pub open spec fn spec_vanish(p: Node, bs: Seq<(String, Binding)>, env: Seq<(Seq<char>, CapView)>) -> Option<
    Seq<(Seq<char>, CapView)>,
>
    decreases p,
{
    match spec_splat(p, bs) {
        Some(b) => bind_named(env, b, CapView::Many(Seq::empty())),
        None => match spec_lone_rest(p, bs) {
            Some(n) => spec_bind(env, n, CapView::Many(Seq::empty())),
            None => if p.atoms@.len() == 0 && p.children@.len() > 0 {
                spec_vanish_all(p.children@, bs, env)
            } else {
                None
            },
        },
    }
}

pub open spec fn spec_vanish_all(ps: Seq<Node>, bs: Seq<(String, Binding)>, env: Seq<(Seq<char>, CapView)>) -> Option<
    Seq<(Seq<char>, CapView)>,
>
    decreases ps,
{
    if ps.len() == 0 {
        Some(env)
    } else {
        match spec_vanish(ps[0], bs, env) {
            Some(e) => spec_vanish_all(ps.subrange(1, ps.len() as int), bs, e),
            None => None,
        }
    }
}

/// One pattern node against one target node: the captures it adds to
/// `env`, or `None` where it does not match.
pub open spec fn spec_match_node(p: Node, t: Node, bs: Seq<(String, Binding)>, env: Seq<(Seq<char>, CapView)>) -> Option<
    Seq<(Seq<char>, CapView)>,
>
    decreases p, 0int,
{
    match spec_placeholder(p, bs) {
        Some(b) => bind_named(env, b, CapView::One(t)),
        None => if p.role is Parameters && t.role is Parameters && spec_lone_rest(p, bs) is Some {
            spec_bind(env, spec_lone_rest(p, bs)->0, CapView::One(t))
        } else if p.role is Statements && p.children@.len() == 1 && spec_placeholder(p.children@[0], bs) is Some {
            bind_named(env, spec_placeholder(p.children@[0], bs)->0, CapView::One(t))
        } else if p.kind != t.kind || p.atoms@.len() != t.atoms@.len() {
            None
        } else {
            match spec_match_atoms(p.atoms@, t.atoms@, 0, bs, env) {
                None => None,
                Some(e) => spec_match_children(p.children@, t.children@, bs, e),
            }
        },
    }
}

/// Pattern children against target children, a sequence placeholder
/// absorbing the fewest siblings that let the rest match.
pub open spec fn spec_match_children(
    ps: Seq<Node>,
    ts: Seq<Node>,
    bs: Seq<(String, Binding)>,
    env: Seq<(Seq<char>, CapView)>,
) -> Option<Seq<(Seq<char>, CapView)>>
    decreases ps, 1int,
{
    if ps.len() == 0 {
        if ts.len() == 0 {
            Some(env)
        } else {
            None
        }
    } else {
        let rest = ps.subrange(1, ps.len() as int);
        match spec_splat(ps[0], bs) {
            Some(b) => spec_splat_try(b, rest, ts, 0, bs, env),
            None => {
                let via_lone = if spec_lone_rest(ps[0], bs) is Some && !(ts.len() > 0 && ts[0].role is Parameters) {
                    match spec_bind(env, spec_lone_rest(ps[0], bs)->0, CapView::Many(Seq::empty())) {
                        Some(e) => spec_match_children(rest, ts, bs, e),
                        None => None,
                    }
                } else {
                    None
                };
                if via_lone is Some {
                    via_lone
                } else if ts.len() == 0 {
                    spec_vanish_all(ps, bs, env)
                } else {
                    match spec_match_node(ps[0], ts[0], bs, env) {
                        Some(e) => spec_match_children(rest, ts.subrange(1, ts.len() as int), bs, e),
                        None => None,
                    }
                }
            },
        }
    }
}

/// A sequence placeholder absorbing `take` siblings, then more until the
/// rest matches.
pub open spec fn spec_splat_try(
    b: Binding,
    rest: Seq<Node>,
    ts: Seq<Node>,
    take: int,
    bs: Seq<(String, Binding)>,
    env: Seq<(Seq<char>, CapView)>,
) -> Option<Seq<(Seq<char>, CapView)>>
    decreases rest, ts.len() - take + 2,
{
    if take < 0 || take > ts.len() {
        None
    } else {
        let r = match bind_named(env, b, CapView::Many(ts.subrange(0, take))) {
            Some(e) => spec_match_children(rest, ts.subrange(take, ts.len() as int), bs, e),
            None => None,
        };
        if r is Some {
            r
        } else {
            spec_splat_try(b, rest, ts, take + 1, bs, env)
        }
    }
}

/// `new` is `old` with captures added after it.
pub open spec fn extends<'a>(old: Seq<(String, Capture<'a>)>, new: Seq<(String, Capture<'a>)>) -> bool {
    new.len() >= old.len() && new.subrange(0, old.len() as int) == old
}

pub(crate) fn binding_of<'b>(bs: &'b Vec<(String, Binding)>, b: &[u8]) -> (r: Option<&'b Binding>)
    ensures
        match r {
            Some(x) => binding_for(bs@, b@) == Some(*x),
            None => binding_for(bs@, b@) is None,
        },
{
    let mut k: usize = 0;
    assert(bs@.skip(0) =~= bs@);
    while k < bs.len()
        invariant
            k <= bs@.len(),
            binding_for(bs@, b@) == binding_for(bs@.skip(k as int), b@),
        decreases bs@.len() - k,
    {
        proof {
            assert(bs@.skip(k as int).drop_first() =~= bs@.skip(k + 1));
            assert(bs@.skip(k as int)[0] == bs@[k as int]);
        }
        if bytes_eq(bs[k].0.as_str().as_bytes(), b) {
            return Some(&bs[k].1);
        }
        k += 1;
    }
    None
}

pub(crate) fn placeholder<'b>(n: &Node, bs: &'b Vec<(String, Binding)>) -> (r: Option<&'b Binding>)
    ensures
        match r {
            Some(x) => spec_placeholder(*n, bs@) == Some(*x),
            None => spec_placeholder(*n, bs@) is None,
        },
{
    match &n.bare {
        Some(b) => binding_of(bs, b.as_slice()),
        None => None,
    }
}

pub(crate) fn splat<'b>(n: &Node, bs: &'b Vec<(String, Binding)>) -> (r: Option<&'b Binding>)
    ensures
        match r {
            Some(x) => spec_splat(*n, bs@) == Some(*x),
            None => spec_splat(*n, bs@) is None,
        },
{
    match n.role {
        Role::Splat => {
            if n.children.len() == 1 {
                placeholder(&n.children[0], bs)
            } else {
                None
            }
        },
        _ => None,
    }
}

pub(crate) fn lone_rest(n: &Node, bs: &Vec<(String, Binding)>) -> (r: Option<String>)
    ensures
        crate::text::opt_view(r) == spec_lone_rest(*n, bs@),
{
    match &n.role {
        Role::Parameters { rest: Some(r) } => {
            if n.children.len() != 1 {
                return None;
            }
            match binding_of(bs, r.as_slice()) {
                Some(b) => match &b.name {
                    Some(name) => Some(owned(name.as_str())),
                    None => None,
                },
                None => None,
            }
        },
        _ => None,
    }
}

fn find_capture<'e, 'a>(env: &'e Vec<(String, Capture<'a>)>, key: &str) -> (r: Option<&'e Capture<'a>>)
    ensures
        match r {
            Some(c) => env_find(env_view(env@), key@) == Some(cap_view(*c)),
            None => env_find(env_view(env@), key@) is None,
        },
{
    let ghost ev = env_view(env@);
    let mut k: usize = 0;
    assert(ev.skip(0) =~= ev);
    while k < env.len()
        invariant
            k <= env@.len(),
            ev == env_view(env@),
            env_find(ev, key@) == env_find(ev.skip(k as int), key@),
        decreases env@.len() - k,
    {
        proof {
            assert(ev.skip(k as int).drop_first() =~= ev.skip(k + 1));
            assert(ev.skip(k as int)[0] == ev[k as int]);
        }
        if str_eq(env[k].0.as_str(), key) {
            return Some(&env[k].1);
        }
        k += 1;
    }
    None
}

fn agrees(a: &Capture, b: &Capture) -> (r: bool)
    ensures
        r == agree(cap_view(*a), cap_view(*b)),
{
    match (a, b) {
        (Capture::One(x), Capture::One(y)) => node_eq(x, y),
        (Capture::Name(x), Capture::Name(y)) => bytes_eq(x.as_slice(), y.as_slice()),
        (Capture::Many(x), Capture::Many(y)) => {
            let ghost xv = derefs(x@);
            let ghost yv = derefs(y@);
            if x.len() != y.len() {
                return false;
            }
            let mut k: usize = 0;
            while k < x.len()
                invariant
                    k <= x@.len() == y@.len(),
                    xv == derefs(x@),
                    yv == derefs(y@),
                    cap_view(*a) == CapView::Many(xv),
                    cap_view(*b) == CapView::Many(yv),
                    forall|i: int| 0 <= i < k ==> spec_node_eq(#[trigger] xv[i], yv[i]),
                decreases x@.len() - k,
            {
                if !node_eq(x[k], y[k]) {
                    assert(!spec_node_eq(xv[k as int], yv[k as int]));
                    return false;
                }
                k += 1;
            }
            true
        },
        (Capture::Name(x), Capture::One(n)) => match &n.bare {
            Some(v) => bytes_eq(v.as_slice(), x.as_slice()),
            None => false,
        },
        (Capture::One(n), Capture::Name(y)) => match &n.bare {
            Some(v) => bytes_eq(v.as_slice(), y.as_slice()),
            None => false,
        },
        _ => false,
    }
}

/// Bind `key` to `v`; a repeated metavariable must agree with its first
/// binding.
pub fn bind<'a>(env: &mut Vec<(String, Capture<'a>)>, key: &str, v: Capture<'a>) -> (r: bool)
    ensures
        r == spec_bind(env_view(old(env)@), key@, cap_view(v)) is Some,
        r ==> env_view(final(env)@) == spec_bind(env_view(old(env)@), key@, cap_view(v))->0,
        extends(old(env)@, final(env)@),
{
    let found = match find_capture(env, key) {
        Some(c) => Some(agrees(c, &v)),
        None => None,
    };
    match found {
        Some(ok) => {
            assert(old(env)@.subrange(0, old(env)@.len() as int) =~= old(env)@);
            ok
        },
        None => {
            let ghost before = env@;
            env.push((owned(key), v));
            proof {
                assert(env_view(env@) =~= env_view(before).push((key@, cap_view(v))));
                assert(env@.subrange(0, before.len() as int) =~= before);
            }
            true
        },
    }
}

fn bind_binding<'a>(env: &mut Vec<(String, Capture<'a>)>, b: &Binding, v: Capture<'a>) -> (r: bool)
    ensures
        r == bind_named(env_view(old(env)@), *b, cap_view(v)) is Some,
        r ==> env_view(final(env)@) == bind_named(env_view(old(env)@), *b, cap_view(v))->0,
        extends(old(env)@, final(env)@),
{
    match &b.name {
        None => {
            assert(old(env)@.subrange(0, old(env)@.len() as int) =~= old(env)@);
            true
        },
        Some(n) => bind(env, n.as_str(), v),
    }
}

proof fn lemma_extends_trans<'a>(a: Seq<(String, Capture<'a>)>, b: Seq<(String, Capture<'a>)>, c: Seq<(String, Capture<'a>)>)
    requires
        extends(a, b),
        extends(b, c),
    ensures
        extends(a, c),
{
    assert(c.subrange(0, a.len() as int) =~= b.subrange(0, a.len() as int));
}

fn match_atoms<'a>(pa: &Vec<Atom>, ta: &Vec<Atom>, bs: &Vec<(String, Binding)>, env: &mut Vec<(String, Capture<'a>)>) -> (r: bool)
    requires
        pa@.len() == ta@.len(),
    ensures
        r == spec_match_atoms(pa@, ta@, 0, bs@, env_view(old(env)@)) is Some,
        r ==> env_view(final(env)@) == spec_match_atoms(pa@, ta@, 0, bs@, env_view(old(env)@))->0,
        extends(old(env)@, final(env)@),
{
    let ghost start = env@;
    let mut k: usize = 0;
    assert(start.subrange(0, start.len() as int) =~= start);
    while k < pa.len()
        invariant
            k <= pa@.len() == ta@.len(),
            start == old(env)@,
            extends(start, env@),
            spec_match_atoms(pa@, ta@, 0, bs@, env_view(start)) == spec_match_atoms(pa@, ta@, k as int, bs@, env_view(env@)),
        decreases pa@.len() - k,
    {
        let ghost before = env@;
        let ok = match (&pa[k], &ta[k]) {
            (Atom::Value(pn), Atom::Value(tn)) => match binding_of(bs, pn.as_slice()) {
                Some(b) => bind_binding(env, b, Capture::Name(crate::matcher::bytes_vec(tn.as_slice()))),
                None => bytes_eq(pn.as_slice(), tn.as_slice()),
            },
            (Atom::Name(pn), Atom::Name(tn)) => match binding_of(bs, pn.as_slice()) {
                Some(b) => bind_binding(env, b, Capture::Name(crate::matcher::bytes_vec(tn.as_slice()))),
                None => bytes_eq(pn.as_slice(), tn.as_slice()),
            },
            (x, y) => crate::compare::atom_equal(x, y),
        };
        proof {
            assert(before.subrange(0, before.len() as int) =~= before);
            lemma_extends_trans(start, before, env@);
        }
        if !ok {
            assert(spec_match_atoms(pa@, ta@, k as int, bs@, env_view(before)) is None);
            return false;
        }
        k += 1;
    }
    true
}

fn empty_run<'a>() -> (c: Capture<'a>)
    ensures
        cap_view(c) == CapView::Many(Seq::empty()),
{
    let v: Vec<&'a Node> = Vec::new();
    let c = Capture::Many(v);
    assert(derefs(v@) =~= Seq::<Node>::empty());
    c
}

fn vanish<'a>(p: &Node, bs: &Vec<(String, Binding)>, env: &mut Vec<(String, Capture<'a>)>) -> (r: bool)
    ensures
        r == spec_vanish(*p, bs@, env_view(old(env)@)) is Some,
        r ==> env_view(final(env)@) == spec_vanish(*p, bs@, env_view(old(env)@))->0,
        extends(old(env)@, final(env)@),
    decreases *p,
{
    match splat(p, bs) {
        Some(b) => return bind_binding(env, b, empty_run()),
        None => {},
    }
    match lone_rest(p, bs) {
        Some(n) => return bind(env, n.as_str(), empty_run()),
        None => {},
    }
    if p.atoms.len() == 0 && p.children.len() > 0 {
        vanish_all(p.children.as_slice(), bs, env)
    } else {
        assert(old(env)@.subrange(0, old(env)@.len() as int) =~= old(env)@);
        false
    }
}

fn vanish_all<'a>(ps: &[Node], bs: &Vec<(String, Binding)>, env: &mut Vec<(String, Capture<'a>)>) -> (r: bool)
    ensures
        r == spec_vanish_all(ps@, bs@, env_view(old(env)@)) is Some,
        r ==> env_view(final(env)@) == spec_vanish_all(ps@, bs@, env_view(old(env)@))->0,
        extends(old(env)@, final(env)@),
    decreases ps@,
{
    if ps.len() == 0 {
        assert(old(env)@.subrange(0, old(env)@.len() as int) =~= old(env)@);
        return true;
    }
    let ghost start = env@;
    if !vanish(&ps[0], bs, env) {
        return false;
    }
    let ghost mid = env@;
    let rest = &ps[1..ps.len()];
    assert(rest@ == ps@.subrange(1, ps@.len() as int));
    let ok = vanish_all(rest, bs, env);
    proof {
        lemma_extends_trans(start, mid, env@);
    }
    ok
}

fn is_parameters(n: &Node) -> (r: bool)
    ensures
        r == n.role is Parameters,
{
    match n.role {
        Role::Parameters { .. } => true,
        _ => false,
    }
}

/// Match one pattern node against one target node, adding what it captures
/// to `env`. On a failed match `env` may hold captures of the attempt,
/// after what it held before.
pub fn match_node<'a>(p: &Node, t: &'a Node, bs: &Vec<(String, Binding)>, env: &mut Vec<(String, Capture<'a>)>) -> (r: bool)
    ensures
        r == spec_match_node(*p, *t, bs@, env_view(old(env)@)) is Some,
        r ==> env_view(final(env)@) == spec_match_node(*p, *t, bs@, env_view(old(env)@))->0,
        extends(old(env)@, final(env)@),
    decreases *p, 0int,
{
    match placeholder(p, bs) {
        Some(b) => return bind_binding(env, b, Capture::One(t)),
        None => {},
    }
    if is_parameters(p) && is_parameters(t) {
        match lone_rest(p, bs) {
            Some(name) => return bind(env, name.as_str(), Capture::One(t)),
            None => {},
        }
    }
    let statements = match p.role {
        Role::Statements => true,
        _ => false,
    };
    if statements && p.children.len() == 1 {
        match placeholder(&p.children[0], bs) {
            Some(b) => return bind_binding(env, b, Capture::One(t)),
            None => {},
        }
    }
    if p.kind != t.kind || p.atoms.len() != t.atoms.len() {
        assert(old(env)@.subrange(0, old(env)@.len() as int) =~= old(env)@);
        return false;
    }
    let ghost start = env@;
    if !match_atoms(&p.atoms, &t.atoms, bs, env) {
        return false;
    }
    let ghost mid = env@;
    let ok = match_children(p.children.as_slice(), t.children.as_slice(), bs, env);
    proof {
        lemma_extends_trans(start, mid, env@);
    }
    ok
}

/// Match a pattern's children against a target's, a sequence placeholder
/// absorbing the fewest siblings that let the rest match.
pub fn match_children<'a>(ps: &[Node], ts: &'a [Node], bs: &Vec<(String, Binding)>, env: &mut Vec<(String, Capture<'a>)>) -> (r: bool)
    ensures
        r == spec_match_children(ps@, ts@, bs@, env_view(old(env)@)) is Some,
        r ==> env_view(final(env)@) == spec_match_children(ps@, ts@, bs@, env_view(old(env)@))->0,
        extends(old(env)@, final(env)@),
    decreases ps@, 1int,
{
    let ghost start = env@;
    assert(start.subrange(0, start.len() as int) =~= start);
    if ps.len() == 0 {
        return ts.len() == 0;
    }
    let rest = &ps[1..ps.len()];
    assert(rest@ == ps@.subrange(1, ps@.len() as int));
    match splat(&ps[0], bs) {
        Some(b) => {
            let saved = env.len();
            let mut take: usize = 0;
            loop
                invariant
                    env@ == start,
                    start == old(env)@,
                    ps@.len() > 0,
                    saved == start.len(),
                    take <= ts@.len(),
                    rest@ == ps@.subrange(1, ps@.len() as int),
                    spec_splat(ps@[0], bs@) == Some(*b),
                    spec_match_children(ps@, ts@, bs@, env_view(start)) == spec_splat_try(
                        *b,
                        rest@,
                        ts@,
                        take as int,
                        bs@,
                        env_view(start),
                    ),
                decreases ts@.len() - take,
            {
                let mut absorbed: Vec<&'a Node> = Vec::new();
                let mut i: usize = 0;
                while i < take
                    invariant
                        i <= take <= ts@.len(),
                        absorbed@.len() == i,
                        derefs(absorbed@) == ts@.subrange(0, i as int),
                    decreases take - i,
                {
                    let node: &'a Node = &ts[i];
                    assert(*node == ts@[i as int]);
                    let ghost before = absorbed@;
                    absorbed.push(node);
                    proof {
                        assert(absorbed@ == before.push(node));
                        assert forall|j: int| 0 <= j < i + 1 implies derefs(absorbed@)[j] == ts@.subrange(0, i + 1)[j] by {
                            if j < i {
                                assert(derefs(before)[j] == ts@.subrange(0, i as int)[j]);
                                assert(absorbed@[j] == before[j]);
                            } else {
                                assert(absorbed@[j] == node);
                            }
                        }
                        assert(derefs(absorbed@) =~= ts@.subrange(0, i + 1));
                    }
                    i += 1;
                }
                let tail = &ts[take..ts.len()];
                assert(tail@ == ts@.subrange(take as int, ts@.len() as int));
                let ghost e0 = env@;
                let bound = bind_binding(env, b, Capture::Many(absorbed));
                if bound {
                    let ghost e1 = env@;
                    if match_children(rest, tail, bs, env) {
                        proof {
                            lemma_extends_trans(e0, e1, env@);
                        }
                        return true;
                    }
                    proof {
                        lemma_extends_trans(e0, e1, env@);
                    }
                }
                assert(extends(start, env@));
                env.truncate(saved);
                assert(env@ =~= start);
                if take == ts.len() {
                    assert(spec_splat_try(*b, rest@, ts@, take + 1, bs@, env_view(start)) is None);
                    assert(start.subrange(0, start.len() as int) =~= start);
                    return false;
                }
                take += 1;
            }
        },
        None => {},
    }
    match lone_rest(&ps[0], bs) {
        Some(name) => {
            let blocked = ts.len() > 0 && is_parameters(&ts[0]);
            if !blocked {
                let saved = env.len();
                let ghost e0 = env@;
                if bind(env, name.as_str(), empty_run()) {
                    let ghost e1 = env@;
                    if match_children(rest, ts, bs, env) {
                        proof {
                            lemma_extends_trans(e0, e1, env@);
                        }
                        return true;
                    }
                    proof {
                        lemma_extends_trans(e0, e1, env@);
                    }
                }
                env.truncate(saved);
            }
        },
        None => {},
    }
    if ts.len() == 0 {
        return vanish_all(ps, bs, env);
    }
    if !match_node(&ps[0], &ts[0], bs, env) {
        return false;
    }
    let ghost mid = env@;
    let tail = &ts[1..ts.len()];
    assert(tail@ == ts@.subrange(1, ts@.len() as int));
    let ok = match_children(rest, tail, bs, env);
    proof {
        lemma_extends_trans(start, mid, env@);
    }
    ok
}

/// A match: the node that matched and what the pattern's metavariables
/// captured there.
pub type Found<'a> = (&'a Node, Vec<(String, Capture<'a>)>);

pub open spec fn found_views(v: Seq<Found>) -> Seq<(Node, Seq<(Seq<char>, CapView)>)> {
    v.map_values(|f: Found| (*f.0, env_view(f.1@)))
}

/// Every node of `t` the pattern matches, in source order -- a node before
/// the nodes inside it -- each with what it captured.
pub open spec fn spec_search(p: Node, t: Node, bs: Seq<(String, Binding)>) -> Seq<(Node, Seq<(Seq<char>, CapView)>)>
    decreases t,
{
    let here = match spec_match_node(p, t, bs, Seq::empty()) {
        Some(e) => seq![(t, e)],
        None => Seq::empty(),
    };
    here + spec_search_all(p, t.children@, bs)
}

pub open spec fn spec_search_all(p: Node, ts: Seq<Node>, bs: Seq<(String, Binding)>) -> Seq<(Node, Seq<(Seq<char>, CapView)>)>
    decreases ts,
{
    if ts.len() == 0 {
        Seq::empty()
    } else {
        spec_search(p, ts[0], bs) + spec_search_all(p, ts.subrange(1, ts.len() as int), bs)
    }
}

/// Whether `n` is `t` or lies somewhere under it.
pub open spec fn subtree_of(n: Node, t: Node) -> bool
    decreases t,
{
    n == t || exists|k: int| 0 <= k < t.children@.len() && subtree_of(n, #[trigger] t.children@[k])
}

proof fn lemma_search_sound(p: Node, t: Node, bs: Seq<(String, Binding)>)
    ensures
        forall|i: int|
            0 <= i < spec_search(p, t, bs).len() ==> spec_match_node(p, (#[trigger] spec_search(p, t, bs)[i]).0, bs, Seq::empty())
                == Some(spec_search(p, t, bs)[i].1) && subtree_of(spec_search(p, t, bs)[i].0, t),
        spec_match_node(p, t, bs, Seq::empty()) is Some ==> spec_search(p, t, bs).len() > 0
            && spec_search(p, t, bs)[0].0 == t,
    decreases t, 1int,
{
    lemma_search_all_sound(p, t.children@, bs);
    let here = match spec_match_node(p, t, bs, Seq::empty()) {
        Some(e) => seq![(t, e)],
        None => Seq::empty(),
    };
    let rest = spec_search_all(p, t.children@, bs);
    assert(spec_search(p, t, bs) == here + rest);
    assert forall|i: int| 0 <= i < spec_search(p, t, bs).len() implies spec_match_node(
        p,
        (#[trigger] spec_search(p, t, bs)[i]).0,
        bs,
        Seq::empty(),
    ) == Some(spec_search(p, t, bs)[i].1) && subtree_of(spec_search(p, t, bs)[i].0, t) by {
        if i >= here.len() {
            let x = rest[i - here.len()];
            assert(spec_search(p, t, bs)[i] == x);
            let k = choose|k: int| 0 <= k < t.children@.len() && subtree_of(x.0, #[trigger] t.children@[k]);
            assert(subtree_of(x.0, t));
        }
    }
}

proof fn lemma_search_all_sound(p: Node, ts: Seq<Node>, bs: Seq<(String, Binding)>)
    ensures
        forall|i: int|
            0 <= i < spec_search_all(p, ts, bs).len() ==> spec_match_node(
                p,
                (#[trigger] spec_search_all(p, ts, bs)[i]).0,
                bs,
                Seq::empty(),
            ) == Some(spec_search_all(p, ts, bs)[i].1) && exists|k: int|
                0 <= k < ts.len() && subtree_of(spec_search_all(p, ts, bs)[i].0, #[trigger] ts[k]),
    decreases ts, 0int,
{
    if ts.len() > 0 {
        lemma_search_sound(p, ts[0], bs);
        let tail = ts.subrange(1, ts.len() as int);
        lemma_search_all_sound(p, tail, bs);
        let first = spec_search(p, ts[0], bs);
        let rest = spec_search_all(p, tail, bs);
        assert(spec_search_all(p, ts, bs) == first + rest);
        assert forall|i: int| 0 <= i < spec_search_all(p, ts, bs).len() implies spec_match_node(
            p,
            (#[trigger] spec_search_all(p, ts, bs)[i]).0,
            bs,
            Seq::empty(),
        ) == Some(spec_search_all(p, ts, bs)[i].1) && exists|k: int|
            0 <= k < ts.len() && subtree_of(spec_search_all(p, ts, bs)[i].0, #[trigger] ts[k]) by {
            if i < first.len() {
                assert(spec_search_all(p, ts, bs)[i] == first[i]);
                assert(subtree_of(first[i].0, ts[0]));
            } else {
                let x = rest[i - first.len()];
                assert(spec_search_all(p, ts, bs)[i] == x);
                let k = choose|k: int| 0 <= k < tail.len() && subtree_of(x.0, #[trigger] tail[k]);
                assert(tail[k] == ts[k + 1]);
            }
        }
    }
}

proof fn lemma_search_complete(p: Node, t: Node, bs: Seq<(String, Binding)>, n: Node)
    requires
        subtree_of(n, t),
        spec_match_node(p, n, bs, Seq::empty()) is Some,
    ensures
        spec_search(p, t, bs).contains((n, spec_match_node(p, n, bs, Seq::empty())->0)),
    decreases t, 1int,
{
    let here = match spec_match_node(p, t, bs, Seq::empty()) {
        Some(e) => seq![(t, e)],
        None => Seq::empty(),
    };
    let rest = spec_search_all(p, t.children@, bs);
    assert(spec_search(p, t, bs) == here + rest);
    if n == t {
        assert(spec_search(p, t, bs)[0] == (n, spec_match_node(p, n, bs, Seq::empty())->0));
    } else {
        let k = choose|k: int| 0 <= k < t.children@.len() && subtree_of(n, #[trigger] t.children@[k]);
        lemma_search_all_complete(p, t.children@, bs, n, k);
        let i = choose|i: int| 0 <= i < rest.len() && rest[i] == (n, spec_match_node(p, n, bs, Seq::empty())->0);
        assert(spec_search(p, t, bs)[here.len() + i] == rest[i]);
    }
}

proof fn lemma_search_all_complete(p: Node, ts: Seq<Node>, bs: Seq<(String, Binding)>, n: Node, k: int)
    requires
        0 <= k < ts.len(),
        subtree_of(n, ts[k]),
        spec_match_node(p, n, bs, Seq::empty()) is Some,
    ensures
        spec_search_all(p, ts, bs).contains((n, spec_match_node(p, n, bs, Seq::empty())->0)),
    decreases ts, 0int,
{
    let x = (n, spec_match_node(p, n, bs, Seq::empty())->0);
    let tail = ts.subrange(1, ts.len() as int);
    let first = spec_search(p, ts[0], bs);
    let rest = spec_search_all(p, tail, bs);
    assert(spec_search_all(p, ts, bs) == first + rest);
    if k == 0 {
        lemma_search_complete(p, ts[0], bs, n);
        let i = choose|i: int| 0 <= i < first.len() && first[i] == x;
        assert(spec_search_all(p, ts, bs)[i] == x);
    } else {
        assert(tail[k - 1] == ts[k]);
        lemma_search_all_complete(p, tail, bs, n, k - 1);
        let i = choose|i: int| 0 <= i < rest.len() && rest[i] == x;
        assert(spec_search_all(p, ts, bs)[first.len() + i] == x);
    }
}

/// Search reports only what matches: every reported node lies in the
/// target and matches the pattern with exactly the captures reported for
/// it; and where the target itself matches, it is reported first.
pub proof fn law_search_reports_only_matches(pattern: Node, target: Node, bindings: Seq<(String, Binding)>)
    ensures
        forall|i: int|
            0 <= i < spec_search(pattern, target, bindings).len() ==> {
                let (n, e) = #[trigger] spec_search(pattern, target, bindings)[i];
                spec_match_node(pattern, n, bindings, Seq::empty()) == Some(e) && subtree_of(n, target)
            },
        spec_match_node(pattern, target, bindings, Seq::empty()) is Some ==> spec_search(
            pattern,
            target,
            bindings,
        ).len() > 0 && spec_search(pattern, target, bindings)[0].0 == target,
{
    lemma_search_sound(pattern, target, bindings);
}

/// Search misses nothing: every node in the target that the pattern matches
/// is reported, with the captures the match makes there.
pub proof fn law_search_misses_no_match(pattern: Node, target: Node, bindings: Seq<(String, Binding)>, n: Node)
    requires
        subtree_of(n, target),
        spec_match_node(pattern, n, bindings, Seq::empty()) is Some,
    ensures
        spec_search(pattern, target, bindings).contains(
            (n, spec_match_node(pattern, n, bindings, Seq::empty())->0),
        ),
{
    lemma_search_complete(pattern, target, bindings, n);
}

fn search_into<'a>(p: &Node, t: &'a Node, bs: &Vec<(String, Binding)>, out: &mut Vec<Found<'a>>)
    ensures
        found_views(final(out)@) == found_views(old(out)@) + spec_search(*p, *t, bs@),
    decreases *t,
{
    let ghost before = found_views(out@);
    let mut env: Vec<(String, Capture<'a>)> = Vec::new();
    assert(env_view(env@) =~= Seq::<(Seq<char>, CapView)>::empty());
    if match_node(p, t, bs, &mut env) {
        let ghost e = env_view(env@);
        out.push((t, env));
        proof {
            assert(found_views(out@) =~= before.push((*t, e)));
        }
    }
    let ghost mid = found_views(out@);
    search_all_into(p, t.children.as_slice(), bs, out);
    proof {
        let here = match spec_match_node(*p, *t, bs@, Seq::empty()) {
            Some(e) => seq![(*t, e)],
            None => Seq::<(Node, Seq<(Seq<char>, CapView)>)>::empty(),
        };
        assert(mid =~= before + here);
        assert(before + here + spec_search_all(*p, t.children@, bs@) =~= before + (here + spec_search_all(
            *p,
            t.children@,
            bs@,
        )));
    }
}

fn search_all_into<'a>(p: &Node, ts: &'a [Node], bs: &Vec<(String, Binding)>, out: &mut Vec<Found<'a>>)
    ensures
        found_views(final(out)@) == found_views(old(out)@) + spec_search_all(*p, ts@, bs@),
    decreases ts@,
{
    if ts.len() == 0 {
        assert(found_views(out@) + Seq::<(Node, Seq<(Seq<char>, CapView)>)>::empty() =~= found_views(out@));
        return;
    }
    let ghost before = found_views(out@);
    search_into(p, &ts[0], bs, out);
    let ghost mid = found_views(out@);
    let rest = &ts[1..ts.len()];
    assert(rest@ == ts@.subrange(1, ts@.len() as int));
    search_all_into(p, rest, bs, out);
    proof {
        assert(before + spec_search(*p, ts@[0], bs@) + spec_search_all(*p, rest@, bs@) =~= before + (spec_search(
            *p,
            ts@[0],
            bs@,
        ) + spec_search_all(*p, rest@, bs@)));
    }
}

/// Every node of `target` the pattern matches, in source order -- a node
/// before the nodes inside it -- each with what the pattern's
/// metavariables captured there. `bindings` are the pattern's placeholders,
/// as preparing it named them.
pub fn search<'a>(pattern: &Node, target: &'a Node, bindings: &Vec<(String, Binding)>) -> (r: Vec<Found<'a>>)
    ensures
        found_views(r@) == spec_search(*pattern, *target, bindings@),
{
    let mut out: Vec<Found<'a>> = Vec::new();
    search_into(pattern, target, bindings, &mut out);
    assert(found_views(Seq::<Found<'a>>::empty()) + spec_search(*pattern, *target, bindings@) =~= spec_search(
        *pattern,
        *target,
        bindings@,
    ));
    out
}

/// The expression a prepared pattern stands for: the one statement of its
/// program, whose only child is its statement list. A program of no
/// statement, or of several, is no pattern.
pub open spec fn spec_pattern_root(program: Node) -> Option<Node> {
    if program.children@.len() == 1 && program.children@[0].role is Statements
        && program.children@[0].children@.len() == 1 {
        Some(program.children@[0].children@[0])
    } else {
        None
    }
}

/// The expression a prepared pattern's program holds, when it holds exactly
/// one.
pub fn pattern_root(program: &Node) -> (r: Option<&Node>)
    ensures
        match r {
            Some(n) => spec_pattern_root(*program) == Some(*n),
            None => spec_pattern_root(*program) is None,
        },
{
    if program.children.len() != 1 {
        return None;
    }
    let body = &program.children[0];
    if !matches!(body.role, Role::Statements) || body.children.len() != 1 {
        return None;
    }
    Some(&body.children[0])
}

} // verus!

