//! The minimal edits that turn a match into its template, where pattern and
//! template agree in shape: a metavariable carried across keeps its bytes, a
//! renamed call or definition has only its name rewritten, a child that
//! diverges is replaced on its own, and a template that aligns with one of
//! the pattern's subtrees unwraps it. Where nothing lines up, there are no
//! minimal edits and the whole match is rendered instead.

use crate::compare::{Node, Role};
use crate::matcher::Atom;
use crate::prepare::Binding;
use crate::rewrite::{env_fits, env_get, spec_render_template, template_renderable, Bound, Edit};
use crate::scan::{extent, extent_end};
use crate::structure::{binding_for, spec_lone_rest, spec_placeholder, spec_splat};
use crate::text::{bytes_eq, lossy_chars, lossy_string};
use vstd::prelude::*;
use vstd::string::StringSliceAdditionalSpecFns;

verus! {

/// An edit as plain values.
pub open spec fn edit_view(e: Edit) -> (usize, usize, Seq<char>) {
    (e.start, e.end, e.text@)
}

pub open spec fn edit_views(v: Seq<Edit>) -> Seq<(usize, usize, Seq<char>)> {
    v.map_values(|e: Edit| edit_view(e))
}

/// The name of the metavariable a node stands for, when it is a named
/// placeholder.
pub open spec fn meta(n: Node, bs: Seq<(String, Binding)>) -> Option<Seq<char>> {
    match spec_placeholder(n, bs) {
        Some(b) => match b.name {
            Some(x) => Some(x@),
            None => None,
        },
        None => None,
    }
}

/// The name of the sequence metavariable a splat stands for.
pub open spec fn splat_meta(n: Node, bs: Seq<(String, Binding)>) -> Option<Seq<char>> {
    match spec_splat(n, bs) {
        Some(b) => match b.name {
            Some(x) => Some(x@),
            None => None,
        },
        None => None,
    }
}

/// The metavariable a statement list is, when it holds only that.
pub open spec fn lone_meta(n: Node, bs: Seq<(String, Binding)>) -> Option<Seq<char>> {
    if n.role is Statements && n.children@.len() == 1 {
        meta(n.children@[0], bs)
    } else {
        None
    }
}

/// Where a call writes its name relative to its receiver: before it (`!x`)
/// or after it (`x.any?`); nothing for a node that is not a call on a
/// receiver.
pub open spec fn slot(n: Node) -> Option<bool> {
    match n.role {
        Role::Call { receiver, message, .. } => if receiver && message && n.children@.len() > 0 {
            match n.name_at {
                Some((s, _)) => Some(s < n.children@[0].start),
                None => None,
            }
        } else {
            None
        },
        _ => None,
    }
}

/// Where the name a call or a definition is written with lies.
pub open spec fn name_span(n: Node) -> Option<(usize, usize)> {
    match n.role {
        Role::Call { .. } => n.name_at,
        Role::Def { .. } => n.name_at,
        _ => None,
    }
}

/// The metavariable an identifier atom stands for.
pub open spec fn atom_meta(b: Seq<u8>, bs: Seq<(String, Binding)>) -> Option<Seq<char>> {
    match binding_for(bs, b) {
        Some(x) => match x.name {
            Some(n) => Some(n@),
            None => None,
        },
        None => None,
    }
}

/// Whether two atoms mean the same: placeholders by the metavariable they
/// stand for, anything else by its bytes.
pub open spec fn atom_pair(p: Atom, t: Atom, pbs: Seq<(String, Binding)>, tbs: Seq<(String, Binding)>) -> bool {
    match (p, t) {
        (Atom::Name(pn), Atom::Name(tn)) => match (atom_meta(pn@, pbs), atom_meta(tn@, tbs)) {
            (Some(a), Some(b)) => a == b,
            (None, None) => pn@ == tn@,
            _ => false,
        },
        _ => crate::compare::atom_eq(p, t),
    }
}

pub open spec fn atoms_correspond(
    pa: Seq<Atom>,
    ta: Seq<Atom>,
    pbs: Seq<(String, Binding)>,
    tbs: Seq<(String, Binding)>,
) -> bool {
    pa.len() == ta.len() && forall|i: int| 0 <= i < pa.len() ==> #[trigger] atom_pair(pa[i], ta[i], pbs, tbs)
}

/// How many target children a sequence metavariable accounts for.
pub open spec fn run_length(b: Option<Bound>, many_only: bool) -> Option<int> {
    match b {
        Some(Bound::Many(v)) => Some(v@.len() as int),
        Some(Bound::One(_)) => if many_only {
            None
        } else {
            Some(1)
        },
        _ => None,
    }
}

/// Pattern, template and target children paired from position `i` on, with
/// the target cursor at `c`: a sequence metavariable on both sides is
/// carried across and only moves the cursor; anything else is one triple.
/// Nothing when the two sides disagree or a target child is left over or
/// missing.
pub open spec fn align_from(
    pk: Seq<Node>,
    tk: Seq<Node>,
    xk: Seq<Node>,
    pbs: Seq<(String, Binding)>,
    tbs: Seq<(String, Binding)>,
    env: Seq<(String, Bound)>,
    i: int,
    c: int,
) -> Option<Seq<(int, int, int)>>
    decreases pk.len() - i,
{
    if i < 0 || i >= pk.len() || i >= tk.len() {
        if c == xk.len() {
            Some(Seq::empty())
        } else {
            None
        }
    } else {
        let step: Option<(Option<(int, int, int)>, int)> = match spec_lone_rest(pk[i], pbs) {
            Some(name) => if spec_lone_rest(tk[i], tbs) != Some(name) {
                None
            } else {
                match run_length(env_get(env, name), false) {
                    Some(n) => Some((None, c + n)),
                    None => None,
                }
            },
            None => match splat_meta(pk[i], pbs) {
                Some(name) => if splat_meta(tk[i], tbs) != Some(name) {
                    None
                } else {
                    match run_length(env_get(env, name), true) {
                        Some(n) => Some((None, c + n)),
                        None => None,
                    }
                },
                None => if 0 <= c < xk.len() {
                    Some((Some((i, i, c)), c + 1))
                } else {
                    None
                },
            },
        };
        match step {
            None => None,
            Some((triple, next)) => match align_from(pk, tk, xk, pbs, tbs, env, i + 1, next) {
                None => None,
                Some(rest) => match triple {
                    Some(tr) => Some(seq![tr] + rest),
                    None => Some(rest),
                },
            },
        }
    }
}

pub open spec fn spec_align(
    pk: Seq<Node>,
    tk: Seq<Node>,
    xk: Seq<Node>,
    pbs: Seq<(String, Binding)>,
    tbs: Seq<(String, Binding)>,
    env: Seq<(String, Bound)>,
) -> Option<Seq<(int, int, int)>> {
    if pk.len() != tk.len() {
        None
    } else {
        align_from(pk, tk, xk, pbs, tbs, env, 0, 0)
    }
}

pub open spec fn ident_start(b: u8) -> bool {
    (65 <= b <= 90) || (97 <= b <= 122) || b == 95
}

pub open spec fn ident_byte(b: u8) -> bool {
    ident_start(b) || (48 <= b <= 57)
}

/// Where the identifier starting at `i` ends.
pub open spec fn word_end(f: Seq<u8>, i: int) -> int
    decreases f.len() - i,
{
    if i < 0 || i >= f.len() || !ident_byte(f[i]) {
        i
    } else {
        word_end(f, i + 1)
    }
}

/// A template fragment in prepared form with each placeholder spelled as
/// its metavariable again, from byte `i` on; nothing when a placeholder is
/// anonymous and has no name to write.
pub open spec fn restore_from(f: Seq<u8>, i: int, bs: Seq<(String, Binding)>) -> Option<Seq<u8>>
    decreases f.len() - i,
{
    if i < 0 || i >= f.len() {
        Some(Seq::empty())
    } else if !ident_start(f[i]) {
        match restore_from(f, i + 1, bs) {
            Some(rest) => Some(seq![f[i]] + rest),
            None => None,
        }
    } else {
        let j = word_end(f, i + 1);
        let word = f.subrange(i, j);
        let here: Option<Seq<u8>> = match binding_for(bs, word) {
            None => Some(word),
            Some(b) => match b.name {
                Some(n) => Some(seq![36u8] + vstd::utf8::encode_utf8(n@)),
                None => None,
            },
        };
        match here {
            None => None,
            Some(h) => if i < j <= f.len() {
                match restore_from(f, j, bs) {
                    Some(rest) => Some(h + rest),
                    None => None,
                }
            } else {
                None
            },
        }
    }
}

/// One target node replaced by its template counterpart, rendered: the
/// template's text for it, restored to metavariable spelling and rendered
/// against the match, over the target's whole extent. Nothing for a node
/// with no text of its own, or when the text cannot be rendered.
pub open spec fn spec_localized(
    t: Node,
    x: Node,
    tbs: Seq<(String, Binding)>,
    tsrc: Seq<u8>,
    env: Seq<(String, Bound)>,
    source: Seq<u8>,
) -> Option<(usize, usize, Seq<char>)> {
    if t.role is Implicit || !(t.start <= t.end <= tsrc.len()) || t.start == t.end {
        None
    } else {
        match restore_from(tsrc.subrange(t.start as int, t.end as int), 0, tbs) {
            None => None,
            Some(rb) => if !vstd::utf8::valid_utf8(rb) {
                None
            } else {
                let tpl = vstd::utf8::encode_utf8(vstd::utf8::decode_utf8(rb));
                let inner = match x.delimited {
                    Some(d) => d,
                    None => (x.start, extent_end(x)),
                };
                if !template_renderable(tpl, env, source, inner) {
                    None
                } else {
                    match spec_render_template(tpl, env, source, inner) {
                        Ok(text) => Some((x.start, extent_end(x), text)),
                        Err(_) => None,
                    }
                }
            },
        }
    }
}

/// The name a template node is written with, as text.
pub open spec fn name_text(t: Node, tsrc: Seq<u8>) -> Option<Seq<char>> {
    match name_span(t) {
        Some((s, e)) => if s <= e <= tsrc.len() {
            Some(lossy_chars(tsrc.subrange(s as int, e as int)))
        } else {
            None
        },
        None => None,
    }
}

/// The minimal edits that turn target `x`, matched by pattern `p`, into
/// template `t`; nothing where they do not line up.
pub open spec fn spec_diff(
    p: Node,
    t: Node,
    x: Node,
    pbs: Seq<(String, Binding)>,
    tbs: Seq<(String, Binding)>,
    tsrc: Seq<u8>,
    env: Seq<(String, Bound)>,
    source: Seq<u8>,
) -> Option<Seq<(usize, usize, Seq<char>)>>
    decreases p, p.children@.len() + 2,
{
    let pm = meta(p, pbs);
    let tm = meta(t, tbs);
    if pm is Some && tm is Some {
        if pm == tm {
            Some(Seq::empty())
        } else {
            None
        }
    } else if pm is Some || tm is Some {
        None
    } else if p.kind != t.kind || p.children@.len() != t.children@.len() || slot(p) != slot(t) {
        spec_unwrap(p, t, x, pbs, tbs, tsrc, env, source, 0)
    } else if lone_meta(p, pbs) is Some && lone_meta(p, pbs) == lone_meta(t, tbs) {
        Some(Seq::empty())
    } else if p.kind != x.kind {
        None
    } else {
        match spec_align(p.children@, t.children@, x.children@, pbs, tbs, env) {
            None => None,
            Some(tr) => if tr.len() > p.children@.len() {
                None
            } else {
                let head: Option<Seq<(usize, usize, Seq<char>)>> = if !atoms_correspond(
                    p.atoms@,
                    t.atoms@,
                    pbs,
                    tbs,
                ) {
                    match (name_span(x), name_text(t, tsrc)) {
                        (Some((a, b)), Some(txt)) => Some(seq![(a, b, txt)]),
                        _ => None,
                    }
                } else {
                    Some(Seq::empty())
                };
                match head {
                    None => None,
                    Some(h) => match spec_pairs(p, t, x, pbs, tbs, tsrc, env, source, tr, 0) {
                        None => None,
                        Some(rest) => Some(h + rest),
                    },
                }
            },
        }
    }
}

proof fn lemma_align_past(
    pk: Seq<Node>,
    tk: Seq<Node>,
    xk: Seq<Node>,
    pbs: Seq<(String, Binding)>,
    tbs: Seq<(String, Binding)>,
    env: Seq<(String, Bound)>,
    i: int,
    c: int,
)
    requires
        c > xk.len(),
    ensures
        align_from(pk, tk, xk, pbs, tbs, env, i, c) is None,
    decreases pk.len() - i,
{
    if !(i < 0 || i >= pk.len() || i >= tk.len()) {
        match spec_lone_rest(pk[i], pbs) {
            Some(name) => match run_length(env_get(env, name), false) {
                Some(n) => lemma_align_past(pk, tk, xk, pbs, tbs, env, i + 1, c + n),
                None => {},
            },
            None => match splat_meta(pk[i], pbs) {
                Some(name) => match run_length(env_get(env, name), true) {
                    Some(n) => lemma_align_past(pk, tk, xk, pbs, tbs, env, i + 1, c + n),
                    None => {},
                },
                None => {},
            },
        }
    }
}

/// The template aligned with one of the pattern's children, from child `i`
/// on: that child's edits, and deleting what surrounded it in the target.
pub open spec fn spec_unwrap(
    p: Node,
    t: Node,
    x: Node,
    pbs: Seq<(String, Binding)>,
    tbs: Seq<(String, Binding)>,
    tsrc: Seq<u8>,
    env: Seq<(String, Bound)>,
    source: Seq<u8>,
    i: int,
) -> Option<Seq<(usize, usize, Seq<char>)>>
    decreases p, p.children@.len() - i,
{
    if p.children@.len() != x.children@.len() || i < 0 || i >= p.children@.len() {
        None
    } else {
        let xc = x.children@[i];
        match spec_diff(p.children@[i], t, xc, pbs, tbs, tsrc, env, source) {
            Some(edits) => {
                let (os, oe) = (x.start, extent_end(x));
                let (is, ie) = (xc.start, extent_end(xc));
                if os > is || ie > oe {
                    spec_unwrap(p, t, x, pbs, tbs, tsrc, env, source, i + 1)
                } else {
                    let before: Seq<(usize, usize, Seq<char>)> = if os < is {
                        seq![(os, is, Seq::<char>::empty())]
                    } else {
                        Seq::empty()
                    };
                    let after: Seq<(usize, usize, Seq<char>)> = if ie < oe {
                        seq![(ie, oe, Seq::<char>::empty())]
                    } else {
                        Seq::empty()
                    };
                    Some(edits + before + after)
                }
            },
            None => spec_unwrap(p, t, x, pbs, tbs, tsrc, env, source, i + 1),
        }
    }
}

/// The aligned children from triple `k` on: each one's own edits, or, where
/// it diverges, it alone replaced.
pub open spec fn spec_pairs(
    p: Node,
    t: Node,
    x: Node,
    pbs: Seq<(String, Binding)>,
    tbs: Seq<(String, Binding)>,
    tsrc: Seq<u8>,
    env: Seq<(String, Bound)>,
    source: Seq<u8>,
    tr: Seq<(int, int, int)>,
    k: int,
) -> Option<Seq<(usize, usize, Seq<char>)>>
    decreases p, tr.len() - k,
{
    if tr.len() > p.children@.len() || k < 0 || k >= tr.len() {
        if tr.len() > p.children@.len() {
            None
        } else {
            Some(Seq::empty())
        }
    } else {
        let (i, j, c) = tr[k];
        if !(0 <= i < p.children@.len() && 0 <= j < t.children@.len() && 0 <= c < x.children@.len()) {
            None
        } else {
            let here: Option<Seq<(usize, usize, Seq<char>)>> = match spec_diff(
                p.children@[i],
                t.children@[j],
                x.children@[c],
                pbs,
                tbs,
                tsrc,
                env,
                source,
            ) {
                Some(f) => Some(f),
                None => match spec_localized(t.children@[j], x.children@[c], tbs, tsrc, env, source) {
                    Some(e) => Some(seq![e]),
                    None => None,
                },
            };
            match here {
                None => None,
                Some(h) => match spec_pairs(p, t, x, pbs, tbs, tsrc, env, source, tr, k + 1) {
                    None => None,
                    Some(rest) => Some(h + rest),
                },
            }
        }
    }
}

fn named_meta(b: Option<&Binding>) -> (r: Option<&String>)
    ensures
        match b {
            Some(x) => match x.name {
                Some(n) => r == Some(&n),
                None => r is None,
            },
            None => r is None,
        },
{
    match b {
        Some(x) => x.name.as_ref(),
        None => None,
    }
}

fn same_opt(a: Option<&String>, b: Option<&String>) -> (r: bool)
    ensures
        r == (match (a, b) {
            (Some(x), Some(y)) => x@ == y@,
            (None, None) => true,
            _ => false,
        }),
{
    match (a, b) {
        (Some(x), Some(y)) => crate::text::str_eq(x.as_str(), y.as_str()),
        (None, None) => true,
        _ => false,
    }
}

fn meta_of<'b>(n: &Node, bs: &'b Vec<(String, Binding)>) -> (r: Option<&'b String>)
    ensures
        match r {
            Some(x) => meta(*n, bs@) == Some(x@),
            None => meta(*n, bs@) is None,
        },
{
    named_meta(crate::structure::placeholder(n, bs))
}

fn splat_meta_of<'b>(n: &Node, bs: &'b Vec<(String, Binding)>) -> (r: Option<&'b String>)
    ensures
        match r {
            Some(x) => splat_meta(*n, bs@) == Some(x@),
            None => splat_meta(*n, bs@) is None,
        },
{
    named_meta(crate::structure::splat(n, bs))
}

fn lone_meta_of<'b>(n: &Node, bs: &'b Vec<(String, Binding)>) -> (r: Option<&'b String>)
    ensures
        match r {
            Some(x) => lone_meta(*n, bs@) == Some(x@),
            None => lone_meta(*n, bs@) is None,
        },
{
    if matches!(n.role, Role::Statements) && n.children.len() == 1 {
        meta_of(&n.children[0], bs)
    } else {
        None
    }
}

fn slot_of(n: &Node) -> (r: Option<bool>)
    ensures
        r == slot(*n),
{
    match &n.role {
        Role::Call { receiver, message, .. } => {
            if *receiver && *message && n.children.len() > 0 {
                match n.name_at {
                    Some((s, _)) => Some(s < n.children[0].start),
                    None => None,
                }
            } else {
                None
            }
        },
        _ => None,
    }
}

fn name_span_of(n: &Node) -> (r: Option<(usize, usize)>)
    ensures
        r == name_span(*n),
{
    match &n.role {
        Role::Call { .. } => n.name_at,
        Role::Def { .. } => n.name_at,
        _ => None,
    }
}

fn atom_meta_of<'b>(b: &Vec<u8>, bs: &'b Vec<(String, Binding)>) -> (r: Option<&'b String>)
    ensures
        match r {
            Some(x) => atom_meta(b@, bs@) == Some(x@),
            None => atom_meta(b@, bs@) is None,
        },
{
    named_meta(crate::structure::binding_of(bs, b.as_slice()))
}

fn atoms_agree(pa: &Vec<Atom>, ta: &Vec<Atom>, pbs: &Vec<(String, Binding)>, tbs: &Vec<(String, Binding)>) -> (r: bool)
    ensures
        r == atoms_correspond(pa@, ta@, pbs@, tbs@),
{
    if pa.len() != ta.len() {
        return false;
    }
    let mut i: usize = 0;
    while i < pa.len()
        invariant
            i <= pa@.len() == ta@.len(),
            forall|j: int| 0 <= j < i ==> #[trigger] atom_pair(pa@[j], ta@[j], pbs@, tbs@),
        decreases pa@.len() - i,
    {
        let ok = match (&pa[i], &ta[i]) {
            (Atom::Name(pn), Atom::Name(tn)) => {
                let a = atom_meta_of(pn, pbs);
                let b = atom_meta_of(tn, tbs);
                match (a, b) {
                    (Some(x), Some(y)) => crate::text::str_eq(x.as_str(), y.as_str()),
                    (None, None) => bytes_eq(pn.as_slice(), tn.as_slice()),
                    _ => false,
                }
            },
            _ => crate::compare::atom_equal(&pa[i], &ta[i]),
        };
        if !ok {
            assert(!atom_pair(pa@[i as int], ta@[i as int], pbs@, tbs@));
            return false;
        }
        i += 1;
    }
    true
}

fn run_of(b: Option<&Bound>, many_only: bool) -> (r: Option<usize>)
    ensures
        match r {
            Some(n) => run_length(
                match b {
                    Some(x) => Some(*x),
                    None => None,
                },
                many_only,
            ) == Some(n as int),
            None => run_length(
                match b {
                    Some(x) => Some(*x),
                    None => None,
                },
                many_only,
            ) is None,
        },
{
    match b {
        Some(Bound::Many(v)) => Some(v.len()),
        Some(Bound::One(_)) => if many_only {
            None
        } else {
            Some(1)
        },
        _ => None,
    }
}

fn align(
    pk: &Vec<Node>,
    tk: &Vec<Node>,
    xk: &Vec<Node>,
    pbs: &Vec<(String, Binding)>,
    tbs: &Vec<(String, Binding)>,
    env: &Vec<(String, Bound)>,
) -> (r: Option<Vec<(usize, usize, usize)>>)
    ensures
        match r {
            Some(v) => spec_align(pk@, tk@, xk@, pbs@, tbs@, env@) == Some(
                v@.map_values(|q: (usize, usize, usize)| (q.0 as int, q.1 as int, q.2 as int)),
            ),
            None => spec_align(pk@, tk@, xk@, pbs@, tbs@, env@) is None,
        },
{
    if pk.len() != tk.len() {
        return None;
    }
    let mut out: Vec<(usize, usize, usize)> = Vec::new();
    let mut i: usize = 0;
    let mut c: usize = 0;
    let xlen = xk.len();
    assert(xk@.len() == xlen);
    while i < pk.len()
        invariant
            i <= pk@.len() == tk@.len(),
            xk@.len() <= usize::MAX,
            spec_align(pk@, tk@, xk@, pbs@, tbs@, env@) == match align_from(
                pk@,
                tk@,
                xk@,
                pbs@,
                tbs@,
                env@,
                i as int,
                c as int,
            ) {
                Some(rest) => Some(
                    out@.map_values(|q: (usize, usize, usize)| (q.0 as int, q.1 as int, q.2 as int)) + rest,
                ),
                None => None,
            },
        decreases pk@.len() - i,
    {
        let ghost before = out@.map_values(|q: (usize, usize, usize)| (q.0 as int, q.1 as int, q.2 as int));
        let rest_p = crate::structure::lone_rest(&pk[i], pbs);
        match rest_p {
            Some(name) => {
                let t_rest = crate::structure::lone_rest(&tk[i], tbs);
                let same = match &t_rest {
                    Some(tn) => crate::text::str_eq(tn.as_str(), name.as_str()),
                    None => false,
                };
                if !same {
                    return None;
                }
                match run_of(crate::rewrite::bound_of(env, name.as_str()), false) {
                    Some(n) => {
                        if c > usize::MAX - n {
                            proof {
                                lemma_align_past(pk@, tk@, xk@, pbs@, tbs@, env@, i + 1, c + n);
                            }
                            return None;
                        }
                        c = c + n;
                    },
                    None => {
                        return None;
                    },
                }
            },
            None => {
                match splat_meta_of(&pk[i], pbs) {
                    Some(name) => {
                        let same = match splat_meta_of(&tk[i], tbs) {
                            Some(tn) => crate::text::str_eq(tn.as_str(), name.as_str()),
                            None => false,
                        };
                        if !same {
                            return None;
                        }
                        match run_of(crate::rewrite::bound_of(env, name.as_str()), true) {
                            Some(n) => {
                                if c > usize::MAX - n {
                                    proof {
                                        lemma_align_past(pk@, tk@, xk@, pbs@, tbs@, env@, i + 1, c + n);
                                    }
                                    return None;
                                }
                                c = c + n;
                            },
                            None => {
                                return None;
                            },
                        }
                    },
                    None => {
                        if c >= xk.len() {
                            return None;
                        }
                        out.push((i, i, c));
                        assert(out@.map_values(|q: (usize, usize, usize)| (q.0 as int, q.1 as int, q.2 as int))
                            =~= before.push((i as int, i as int, c as int)));
                        c = c + 1;
                    },
                }
            },
        }
        i += 1;
    }
    if c != xk.len() {
        return None;
    }
    assert(out@.map_values(|q: (usize, usize, usize)| (q.0 as int, q.1 as int, q.2 as int)) + Seq::<
        (int, int, int),
    >::empty() =~= out@.map_values(|q: (usize, usize, usize)| (q.0 as int, q.1 as int, q.2 as int)));
    Some(out)
}

fn starts_word(b: u8) -> (r: bool)
    ensures
        r == ident_start(b),
{
    (65 <= b && b <= 90) || (97 <= b && b <= 122) || b == 95
}

fn in_word(b: u8) -> (r: bool)
    ensures
        r == ident_byte(b),
{
    starts_word(b) || (48 <= b && b <= 57)
}

fn push_all(out: &mut Vec<u8>, b: &[u8])
    ensures
        final(out)@ == old(out)@ + b@,
{
    let mut i: usize = 0;
    while i < b.len()
        invariant
            i <= b@.len(),
            out@ == old(out)@ + b@.take(i as int),
        decreases b@.len() - i,
    {
        out.push(b[i]);
        assert(b@.take(i + 1) =~= b@.take(i as int).push(b@[i as int]));
        i += 1;
    }
    assert(b@.take(i as int) =~= b@);
}

/// A prepared template fragment with its placeholders spelled as
/// metavariables again.
fn restore(f: &[u8], bs: &Vec<(String, Binding)>) -> (r: Option<Vec<u8>>)
    ensures
        match r {
            Some(v) => restore_from(f@, 0, bs@) == Some(v@),
            None => restore_from(f@, 0, bs@) is None,
        },
{
    let mut out: Vec<u8> = Vec::new();
    let mut i: usize = 0;
    assert(out@ + Seq::<u8>::empty() =~= out@);
    while i < f.len()
        invariant
            i <= f@.len(),
            restore_from(f@, 0, bs@) == match restore_from(f@, i as int, bs@) {
                Some(rest) => Some(out@ + rest),
                None => None,
            },
        decreases f@.len() - i,
    {
        let ghost before = out@;
        if !starts_word(f[i]) {
            out.push(f[i]);
            proof {
                match restore_from(f@, i + 1, bs@) {
                    Some(rest) => assert(before + (seq![f@[i as int]] + rest) =~= out@ + rest),
                    None => {},
                }
            }
            i += 1;
        } else {
            let mut j: usize = i + 1;
            while j < f.len() && in_word(f[j])
                invariant
                    i < j <= f@.len(),
                    word_end(f@, i + 1) == word_end(f@, j as int),
                decreases f@.len() - j,
            {
                j += 1;
            }
            assert(word_end(f@, j as int) == j);
            let word = &f[i..j];
            assert(word@ =~= f@.subrange(i as int, j as int));
            match crate::structure::binding_of(bs, word) {
                None => {
                    push_all(&mut out, word);
                },
                Some(b) => match &b.name {
                    Some(n) => {
                        out.push(36u8);
                        push_all(&mut out, n.as_str().as_bytes());
                        assert(out@ =~= before + (seq![36u8] + vstd::utf8::encode_utf8(n@)));
                    },
                    None => {
                        return None;
                    },
                },
            }
            proof {
                match restore_from(f@, j as int, bs@) {
                    Some(rest) => assert((before + (out@.subrange(before.len() as int, out@.len() as int)) + rest)
                        =~= out@ + rest),
                    None => {},
                }
            }
            i = j;
        }
    }
    assert(out@ + Seq::<u8>::empty() =~= out@);
    Some(out)
}

fn edit_of(start: usize, end: usize, text: String) -> (r: Edit)
    ensures
        edit_view(r) == (start, end, text@),
{
    Edit { start, end, text }
}

fn append_edits(a: &mut Vec<Edit>, mut b: Vec<Edit>)
    ensures
        edit_views(final(a)@) == edit_views(old(a)@) + edit_views(b@),
{
    let ghost bv = b@;
    a.append(&mut b);
    assert(edit_views(a@) =~= edit_views(old(a)@) + edit_views(bv));
}

fn name_text_of(t: &Node, tsrc: &[u8]) -> (r: Option<String>)
    ensures
        match r {
            Some(x) => name_text(*t, tsrc@) == Some(x@),
            None => name_text(*t, tsrc@) is None,
        },
{
    match name_span_of(t) {
        Some((s, e)) => {
            if s <= e && e <= tsrc.len() {
                let part = &tsrc[s..e];
                assert(part@ =~= tsrc@.subrange(s as int, e as int));
                Some(lossy_string(part))
            } else {
                None
            }
        },
        None => None,
    }
}

fn localized(
    t: &Node,
    x: &Node,
    tbs: &Vec<(String, Binding)>,
    tsrc: &[u8],
    env: &Vec<(String, Bound)>,
    source: &[u8],
) -> (r: Option<Edit>)
    requires
        env_fits(source@, env@),
    ensures
        match r {
            Some(e) => spec_localized(*t, *x, tbs@, tsrc@, env@, source@) == Some(edit_view(e)),
            None => spec_localized(*t, *x, tbs@, tsrc@, env@, source@) is None,
        },
{
    if matches!(t.role, Role::Implicit) || !(t.start <= t.end && t.end <= tsrc.len()) || t.start == t.end {
        return None;
    }
    let fragment = &tsrc[t.start..t.end];
    assert(fragment@ =~= tsrc@.subrange(t.start as int, t.end as int));
    let rb = match restore(fragment, tbs) {
        Some(v) => v,
        None => {
            return None;
        },
    };
    let text = match crate::verdict::utf8_text(rb.as_slice()) {
        Some(s) => s,
        None => {
            return None;
        },
    };
    let whole = extent(x);
    let inner = match x.delimited {
        Some(d) => d,
        None => (x.start, whole),
    };
    if !crate::rewrite::can_render_template(text, env, source, inner) {
        return None;
    }
    match crate::rewrite::render(text, env, source, inner) {
        Ok(out) => Some(edit_of(x.start, whole, out)),
        Err(_) => None,
    }
}

/// The minimal edits that turn target `x`, matched by pattern `p`, into
/// template `t`: `pbs` and `tbs` say which names are placeholders on each
/// side, and `tsrc` is the template's prepared source. Nothing where they do
/// not line up.
pub fn diff(
    p: &Node,
    t: &Node,
    x: &Node,
    pbs: &Vec<(String, Binding)>,
    tbs: &Vec<(String, Binding)>,
    tsrc: &[u8],
    env: &Vec<(String, Bound)>,
    source: &[u8],
) -> (r: Option<Vec<Edit>>)
    requires
        env_fits(source@, env@),
    ensures
        match r {
            Some(v) => spec_diff(*p, *t, *x, pbs@, tbs@, tsrc@, env@, source@) == Some(edit_views(v@)),
            None => spec_diff(*p, *t, *x, pbs@, tbs@, tsrc@, env@, source@) is None,
        },
    decreases *p, p.children@.len() + 2,
{
    let pm = meta_of(p, pbs);
    let tm = meta_of(t, tbs);
    if pm.is_some() && tm.is_some() {
        if same_opt(pm, tm) {
            let none: Vec<Edit> = Vec::new();
            assert(edit_views(none@) =~= Seq::<(usize, usize, Seq<char>)>::empty());
            return Some(none);
        }
        return None;
    }
    if pm.is_some() || tm.is_some() {
        return None;
    }
    if p.kind != t.kind || p.children.len() != t.children.len() || slot_of(p) != slot_of(t) {
        return unwrap(p, t, x, pbs, tbs, tsrc, env, source, 0);
    }
    let pl = lone_meta_of(p, pbs);
    if pl.is_some() && same_opt(pl, lone_meta_of(t, tbs)) {
        let none: Vec<Edit> = Vec::new();
        assert(edit_views(none@) =~= Seq::<(usize, usize, Seq<char>)>::empty());
        return Some(none);
    }
    if p.kind != x.kind {
        return None;
    }
    let tr = match align(&p.children, &t.children, &x.children, pbs, tbs, env) {
        Some(v) => v,
        None => {
            return None;
        },
    };
    if tr.len() > p.children.len() {
        return None;
    }
    let mut edits: Vec<Edit> = Vec::new();
    if !atoms_agree(&p.atoms, &t.atoms, pbs, tbs) {
        match (name_span_of(x), name_text_of(t, tsrc)) {
            (Some((a, b)), Some(txt)) => {
                edits.push(edit_of(a, b, txt));
            },
            _ => {
                return None;
            },
        }
    }
    let ghost head = edit_views(edits@);
    match pairs(p, t, x, pbs, tbs, tsrc, env, source, &tr, 0) {
        None => None,
        Some(rest) => {
            append_edits(&mut edits, rest);
            Some(edits)
        },
    }
}

fn unwrap(
    p: &Node,
    t: &Node,
    x: &Node,
    pbs: &Vec<(String, Binding)>,
    tbs: &Vec<(String, Binding)>,
    tsrc: &[u8],
    env: &Vec<(String, Bound)>,
    source: &[u8],
    i: usize,
) -> (r: Option<Vec<Edit>>)
    requires
        env_fits(source@, env@),
    ensures
        match r {
            Some(v) => spec_unwrap(*p, *t, *x, pbs@, tbs@, tsrc@, env@, source@, i as int) == Some(edit_views(v@)),
            None => spec_unwrap(*p, *t, *x, pbs@, tbs@, tsrc@, env@, source@, i as int) is None,
        },
    decreases *p, p.children@.len() - i,
{
    if p.children.len() != x.children.len() || i >= p.children.len() {
        return None;
    }
    let xc = &x.children[i];
    match diff(&p.children[i], t, xc, pbs, tbs, tsrc, env, source) {
        Some(mut edits) => {
            let os = x.start;
            let oe = extent(x);
            let is = xc.start;
            let ie = extent(xc);
            if os > is || ie > oe {
                return unwrap(p, t, x, pbs, tbs, tsrc, env, source, i + 1);
            }
            let ghost found = edit_views(edits@);
            if os < is {
                edits.push(edit_of(os, is, String::new()));
            }
            let ghost mid = edit_views(edits@);
            if ie < oe {
                edits.push(edit_of(ie, oe, String::new()));
            }
            proof {
                let before: Seq<(usize, usize, Seq<char>)> = if os < is {
                    seq![(os, is, Seq::<char>::empty())]
                } else {
                    Seq::empty()
                };
                let after: Seq<(usize, usize, Seq<char>)> = if ie < oe {
                    seq![(ie, oe, Seq::<char>::empty())]
                } else {
                    Seq::empty()
                };
                assert(mid =~= found + before);
                assert(edit_views(edits@) =~= found + before + after);
            }
            Some(edits)
        },
        None => unwrap(p, t, x, pbs, tbs, tsrc, env, source, i + 1),
    }
}

fn pairs(
    p: &Node,
    t: &Node,
    x: &Node,
    pbs: &Vec<(String, Binding)>,
    tbs: &Vec<(String, Binding)>,
    tsrc: &[u8],
    env: &Vec<(String, Bound)>,
    source: &[u8],
    tr: &Vec<(usize, usize, usize)>,
    k: usize,
) -> (r: Option<Vec<Edit>>)
    requires
        env_fits(source@, env@),
    ensures
        ({
            let tv = tr@.map_values(|q: (usize, usize, usize)| (q.0 as int, q.1 as int, q.2 as int));
            match r {
                Some(v) => spec_pairs(*p, *t, *x, pbs@, tbs@, tsrc@, env@, source@, tv, k as int) == Some(
                    edit_views(v@),
                ),
                None => spec_pairs(*p, *t, *x, pbs@, tbs@, tsrc@, env@, source@, tv, k as int) is None,
            }
        }),
    decreases *p, tr@.len() - k,
{
    let ghost tv = tr@.map_values(|q: (usize, usize, usize)| (q.0 as int, q.1 as int, q.2 as int));
    if tr.len() > p.children.len() {
        return None;
    }
    if k >= tr.len() {
        let none: Vec<Edit> = Vec::new();
        assert(edit_views(none@) =~= Seq::<(usize, usize, Seq<char>)>::empty());
        return Some(none);
    }
    let (i, j, c) = tr[k];
    assert(tv[k as int] == (i as int, j as int, c as int));
    if !(i < p.children.len() && j < t.children.len() && c < x.children.len()) {
        return None;
    }
    let mut here: Vec<Edit> = match diff(&p.children[i], &t.children[j], &x.children[c], pbs, tbs, tsrc, env, source) {
        Some(f) => f,
        None => match localized(&t.children[j], &x.children[c], tbs, tsrc, env, source) {
            Some(e) => {
                let mut one: Vec<Edit> = Vec::new();
                one.push(e);
                assert(edit_views(one@) =~= seq![edit_view(e)]);
                one
            },
            None => {
                return None;
            },
        },
    };
    match pairs(p, t, x, pbs, tbs, tsrc, env, source, tr, k + 1) {
        None => None,
        Some(rest) => {
            append_edits(&mut here, rest);
            Some(here)
        },
    }
}

} // verus!
