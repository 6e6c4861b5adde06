//! Whether a structural match counts. It must sit where the rule's scope
//! says, and each capture must meet its `where:` constraint, checked in
//! the order the rule lists them. Constraints are judged after matching, so
//! they never change what matched, only whether it counts; the first one a
//! binding fails names the capture and what it saw, which is what lets a
//! rule author see why a site was declined. A walk over a parsed source
//! places every match in its class and judges it there, and a rule set's
//! reporting rules flag what their walks admit.

use crate::compare::{Node, Role};
use crate::hierarchy::{spec_descends, Hierarchy, HierarchyView};
use crate::matcher::{enclosing_class, spec_enclosing_class, ConstraintMiss, Receiver, ScopeMiss, Verdict};
use crate::prepare::{strip_dollars, Binding};
use crate::rule::{Constraint, ConstraintView, Kind, NodeKind, Scope, ScopeView};
use crate::structure::{
    cap_view, env_find, env_view, found_views, pattern_root, search, spec_pattern_root, spec_search, CapView,
    Capture,
};
use crate::text::{bytes_eq, lossy_chars, lossy_string, owned, str_eq, string_views};
use vstd::prelude::*;

verus! {

/// `std::str::from_utf8`: the bytes as a string slice when they are UTF-8,
/// and nothing when they are not.
#[verifier::external_body]
fn utf8(b: &[u8]) -> (r: Option<&str>)
    ensures
        r is Some <==> vstd::utf8::valid_utf8(b@),
        r matches Some(s) ==> s@ == vstd::utf8::decode_utf8(b@),
{
    std::str::from_utf8(b).ok()
}

/// The bytes as a string slice when they are UTF-8.
pub(crate) fn utf8_text(b: &[u8]) -> (r: Option<&str>)
    ensures
        r is Some <==> vstd::utf8::valid_utf8(b@),
        r matches Some(s) ==> s@ == vstd::utf8::decode_utf8(b@),
{
    utf8(b)
}

/// A `contains:` sub-pattern, prepared: the capture it constrains (without
/// its `$`), its placeholder source, that source parsed, and its
/// placeholders.
pub struct Contained {
    pub key: String,
    pub source: String,
    pub program: Node,
    pub bindings: Vec<(String, Binding)>,
}

/// The first sub-pattern prepared for `key`.
pub open spec fn contained_find(cs: Seq<Contained>, key: Seq<char>) -> Option<Contained>
    decreases cs.len(),
{
    if cs.len() == 0 {
        None
    } else if cs[0].key@ == key {
        Some(cs[0])
    } else {
        contained_find(cs.drop_first(), key)
    }
}

/// A constraint miss, as plain values.
pub enum MissView {
    Name { actual: Option<Seq<char>>, allowed: Seq<Seq<char>> },
    NameNot { actual: Seq<char> },
    Type { resolved: Option<Seq<char>>, wanted: Seq<char>, wrong_kind: bool },
    Is { wanted: NodeKind },
    Contains { pattern: Seq<char> },
    Length { actual: Option<usize>, wanted: usize },
    SameNameAs { other: Seq<char> },
}

/// A verdict, as plain values.
pub enum VerdictView {
    Holds,
    Inside { wanted: Seq<char>, found: Seq<Seq<char>> },
    Singleton { wanted: bool },
    Bad { capture: Seq<char>, miss: MissView },
    Bug(Seq<char>),
}

pub open spec fn miss_view(m: ConstraintMiss) -> MissView {
    match m {
        ConstraintMiss::Name { actual, allowed } => MissView::Name {
            actual: crate::text::opt_view(actual),
            allowed: string_views(allowed@),
        },
        ConstraintMiss::NameNot { actual } => MissView::NameNot { actual: actual@ },
        ConstraintMiss::Type { resolved, wanted, wrong_kind } => MissView::Type {
            resolved: crate::text::opt_view(resolved),
            wanted: wanted@,
            wrong_kind,
        },
        ConstraintMiss::Is { wanted } => MissView::Is { wanted },
        ConstraintMiss::Contains { pattern } => MissView::Contains { pattern: pattern@ },
        ConstraintMiss::Length { actual, wanted } => MissView::Length { actual, wanted },
        ConstraintMiss::SameNameAs { other } => MissView::SameNameAs { other: other@ },
    }
}

pub open spec fn verdict_view(v: Verdict) -> VerdictView {
    match v {
        Verdict::Holds => VerdictView::Holds,
        Verdict::WrongScope(ScopeMiss::Inside { wanted, found }) => VerdictView::Inside {
            wanted: wanted@,
            found: string_views(found@),
        },
        Verdict::WrongScope(ScopeMiss::Singleton { wanted }) => VerdictView::Singleton { wanted },
        Verdict::BadBinding { capture, miss } => VerdictView::Bad { capture: capture@, miss: miss_view(miss) },
        Verdict::Bug(m) => VerdictView::Bug(m@),
    }
}

/// The identifier a capture names: a bare name, a symbol's value, or the
/// name a bare reference reads.
pub open spec fn identifier(c: CapView) -> Option<Seq<u8>> {
    match c {
        CapView::Name(b) => Some(b),
        CapView::One(n) => match n.role {
            Role::Symbol(v) => Some(v@),
            _ => match n.bare {
                Some(b) => Some(b@),
                None => None,
            },
        },
        CapView::Many(_) => None,
    }
}

/// Two captures of the very same source: equal names, the same node span,
/// or the same run of node spans.
pub open spec fn same_place(a: CapView, b: CapView) -> bool {
    match (a, b) {
        (CapView::Name(x), CapView::Name(y)) => x == y,
        (CapView::One(x), CapView::One(y)) => x.start == y.start && x.end == y.end,
        (CapView::Many(x), CapView::Many(y)) => x.len() == y.len() && forall|i: int|
            0 <= i < x.len() ==> (#[trigger] x[i]).start == y[i].start && x[i].end == y[i].end,
        _ => false,
    }
}

/// Whether two captures of one metavariable refer to the same thing: the
/// same identifier where both name one, else the same source.
pub open spec fn consistent(a: CapView, b: CapView) -> bool {
    match (identifier(a), identifier(b)) {
        (Some(x), Some(y)) => x == y,
        _ => same_place(a, b),
    }
}

/// Whether a sub-pattern's captures agree with the outer match on every
/// metavariable the two share.
pub open spec fn agrees_with(hit: Seq<(Seq<char>, CapView)>, outer: Seq<(Seq<char>, CapView)>) -> bool {
    forall|k: int|
        0 <= k < hit.len() ==> match env_find(outer, (#[trigger] hit[k]).0) {
            Some(t) => consistent(hit[k].1, t),
            None => true,
        }
}

/// Whether the sub-pattern matches somewhere inside `n`, agreeing with the
/// outer captures.
pub open spec fn spec_holds_within(
    n: Node,
    program: Node,
    bs: Seq<(String, Binding)>,
    outer: Seq<(Seq<char>, CapView)>,
) -> bool {
    match spec_pattern_root(program) {
        Some(root) => exists|i: int|
            0 <= i < spec_search(root, n, bs).len() && agrees_with((#[trigger] spec_search(root, n, bs)[i]).1, outer),
        None => false,
    }
}

/// Whether a capture is of the kind `is:` asks for. A name in a name
/// position is a constant when it starts with an uppercase letter.
pub open spec fn is_kind(c: CapView, k: NodeKind) -> bool {
    match c {
        CapView::Name(b) => k == NodeKind::Constant && b.len() > 0 && 65 <= b[0] <= 90,
        CapView::One(n) => match k {
            NodeKind::Constant => n.role is Constant,
            NodeKind::Symbol => n.role is Symbol,
            NodeKind::String => n.role is Str,
            NodeKind::Integer => n.role is Integer,
            NodeKind::Array => n.role is Array,
            NodeKind::Hash => n.role is Hash,
        },
        CapView::Many(_) => false,
    }
}

/// Bytes as text, when they are UTF-8.
pub open spec fn text_of(b: Seq<u8>) -> Option<Seq<char>> {
    if vstd::utf8::valid_utf8(b) {
        Some(vstd::utf8::decode_utf8(b))
    } else {
        None
    }
}

/// The text a literal capture carries: a name, a string's or a symbol's
/// content.
pub open spec fn literal(c: CapView) -> Option<Seq<char>> {
    match c {
        CapView::Name(b) => text_of(b),
        CapView::One(n) => match n.role {
            Role::Str(v, _) => text_of(v@),
            Role::Symbol(v) => text_of(v@),
            _ => None,
        },
        CapView::Many(_) => None,
    }
}

/// The identifier `name:` and `name_not:` judge: a name, or the name a bare
/// reference reads.
pub open spec fn plain_name(c: CapView) -> Option<Seq<u8>> {
    match c {
        CapView::Name(b) => Some(b),
        CapView::One(n) => match n.bare {
            Some(b) => Some(b@),
            None => None,
        },
        CapView::Many(_) => None,
    }
}

/// Whether one of `names` spells `b`.
pub open spec fn listed(names: Seq<Seq<char>>, b: Seq<u8>) -> bool {
    exists|k: int| 0 <= k < names.len() && vstd::utf8::encode_utf8(#[trigger] names[k]) == b
}

/// Whether `name:` admits the capture.
pub open spec fn name_admits(allowed: Seq<Seq<char>>, c: CapView) -> bool {
    match plain_name(c) {
        Some(a) => listed(allowed, a),
        None => false,
    }
}

/// Whether `name_not:` excludes the capture.
pub open spec fn name_excludes(excluded: Seq<Seq<char>>, c: CapView) -> bool {
    match plain_name(c) {
        Some(a) => listed(excluded, a),
        None => false,
    }
}

pub open spec fn receiver_class(r: Receiver) -> Seq<char> {
    match r {
        Receiver::Instance(n) => n@,
        Receiver::Class(n) => n@,
    }
}

/// A resolved receiver as plain values: whether it is an instance, and its
/// class.
pub open spec fn receiver_view(r: Receiver) -> (bool, Seq<char>) {
    (r is Instance, receiver_class(r))
}

pub open spec fn opt_receiver_view(r: Option<Receiver>) -> Option<(bool, Seq<char>)> {
    match r {
        Some(x) => Some(receiver_view(x)),
        None => None,
    }
}

pub open spec fn resolved_views(v: Seq<Option<Receiver>>) -> Seq<Option<(bool, Seq<char>)>> {
    v.map_values(|r: Option<Receiver>| opt_receiver_view(r))
}

/// What `type:` makes of a resolved receiver: nothing when it holds, else
/// the miss.
pub open spec fn type_miss(
    c: ConstraintView,
    wanted: Seq<char>,
    bound: CapView,
    resolved: Option<(bool, Seq<char>)>,
    h: HierarchyView,
) -> Option<MissView> {
    if !(bound is One) || resolved is None {
        Some(MissView::Type { resolved: None, wanted, wrong_kind: false })
    } else {
        let (instance, cls) = resolved->0;
        if !(cls == wanted || (c.subclasses == Some(true) && spec_descends(h, cls, wanted))) {
            Some(MissView::Type { resolved: Some(cls), wanted, wrong_kind: false })
        } else if instance != (c.kind != Some(Kind::Class)) {
            Some(MissView::Type { resolved: Some(cls), wanted, wrong_kind: true })
        } else {
            None
        }
    }
}

/// What one `where:` entry makes of a match: nothing when the capture
/// meets it, else the verdict. Its checks run in a fixed order: the other
/// capture of `same_name_as:`, then `name:`, `name_not:`, `is:`,
/// `contains:`, `length:`, and `type:` against the receiver resolved for
/// it.
pub open spec fn entry_verdict(
    key: Seq<char>,
    c: ConstraintView,
    env: Seq<(Seq<char>, CapView)>,
    contained: Seq<Contained>,
    resolved: Option<(bool, Seq<char>)>,
    h: HierarchyView,
) -> Option<VerdictView> {
    let short = strip_dollars(key);
    match env_find(env, short) {
        None => Some(VerdictView::Bug("a constraint names a capture the pattern never binds"@)),
        Some(bound) => {
            let other = match c.same_name_as {
                Some(o) => env_find(env, strip_dollars(o)),
                None => None,
            };
            if c.same_name_as is Some && other is None {
                Some(VerdictView::Bug("`same_name_as:` names a capture the pattern never binds"@))
            } else if c.same_name_as is Some && !(identifier(bound) is Some && identifier(bound) == identifier(
                other->0,
            )) {
                Some(VerdictView::Bad { capture: short, miss: MissView::SameNameAs { other: c.same_name_as->0 } })
            } else if c.name is Some && !name_admits(c.name->0, bound) {
                Some(
                    VerdictView::Bad {
                        capture: short,
                        miss: MissView::Name {
                            actual: match plain_name(bound) {
                                Some(a) => Some(lossy_chars(a)),
                                None => None,
                            },
                            allowed: c.name->0,
                        },
                    },
                )
            } else if c.name_not is Some && name_excludes(c.name_not->0, bound) {
                Some(
                    VerdictView::Bad {
                        capture: short,
                        miss: MissView::NameNot { actual: lossy_chars(plain_name(bound)->0) },
                    },
                )
            } else if c.is is Some && !is_kind(bound, c.is->0) {
                Some(VerdictView::Bad { capture: short, miss: MissView::Is { wanted: c.is->0 } })
            } else if c.contains is Some && contained_find(contained, short) is None {
                Some(VerdictView::Bug("a `contains:` sub-pattern failed to prepare"@))
            } else if c.contains is Some && !(match bound {
                CapView::One(n) => spec_holds_within(
                    n,
                    contained_find(contained, short)->0.program,
                    contained_find(contained, short)->0.bindings@,
                    env,
                ),
                _ => false,
            }) {
                Some(
                    VerdictView::Bad {
                        capture: short,
                        miss: MissView::Contains { pattern: contained_find(contained, short)->0.source@ },
                    },
                )
            } else if c.length is Some && literal(bound) is None {
                Some(
                    VerdictView::Bad {
                        capture: short,
                        miss: MissView::Length { actual: None, wanted: c.length->0 },
                    },
                )
            } else if c.length is Some && literal(bound)->0.len() != c.length->0 {
                Some(
                    VerdictView::Bad {
                        capture: short,
                        miss: MissView::Length {
                            actual: Some(literal(bound)->0.len() as usize),
                            wanted: c.length->0,
                        },
                    },
                )
            } else if c.receiver_type is Some && type_miss(c, c.receiver_type->0, bound, resolved, h) is Some {
                Some(
                    VerdictView::Bad {
                        capture: short,
                        miss: type_miss(c, c.receiver_type->0, bound, resolved, h)->0,
                    },
                )
            } else {
                None
            }
        },
    }
}

/// The verdict of the `where:` entries from `k` on: the first that declines.
pub open spec fn entries_verdict(
    cs: Seq<(Seq<char>, ConstraintView)>,
    env: Seq<(Seq<char>, CapView)>,
    contained: Seq<Contained>,
    resolved: Seq<Option<(bool, Seq<char>)>>,
    h: HierarchyView,
    k: int,
) -> VerdictView
    decreases cs.len() - k,
{
    if k < 0 || k >= cs.len() {
        VerdictView::Holds
    } else {
        match entry_verdict(cs[k].0, cs[k].1, env, contained, resolved[k], h) {
            Some(v) => v,
            None => entries_verdict(cs, env, contained, resolved, h, k + 1),
        }
    }
}

/// Whether a match's lexical scope reaches the class `inside:` names: that
/// class itself, or one descending from it where `subclasses:` admits them.
pub open spec fn reaches(rs: ScopeView, scope: Seq<Seq<char>>, h: HierarchyView) -> bool {
    match spec_enclosing_class(scope) {
        Some(s) => s == rs.inside->0 || (rs.subclasses == Some(true) && spec_descends(h, s, rs.inside->0)),
        None => false,
    }
}

/// The judgement on one match: the rule's scope first, then its `where:`
/// entries in order.
pub open spec fn spec_verdict(
    env: Seq<(Seq<char>, CapView)>,
    scope: Seq<Seq<char>>,
    singleton: bool,
    cs: Seq<(Seq<char>, ConstraintView)>,
    contained: Seq<Contained>,
    resolved: Seq<Option<(bool, Seq<char>)>>,
    rs: ScopeView,
    h: HierarchyView,
) -> VerdictView {
    if rs.inside is Some && !reaches(rs, scope, h) {
        VerdictView::Inside { wanted: rs.inside->0, found: scope }
    } else if rs.singleton is Some && singleton != rs.singleton->0 {
        VerdictView::Singleton { wanted: rs.singleton->0 }
    } else {
        entries_verdict(cs, env, contained, resolved, h, 0)
    }
}

fn find_capture<'b, 'a>(env: &'b [(String, Capture<'a>)], key: &str) -> (r: Option<&'b Capture<'a>>)
    ensures
        match r {
            Some(c) => env_find(env_view(env@), key@) == Some(cap_view(*c)),
            None => env_find(env_view(env@), key@) is None,
        },
    decreases env@.len(),
{
    if env.len() == 0 {
        return None;
    }
    if str_eq(env[0].0.as_str(), key) {
        return Some(&env[0].1);
    }
    let rest = &env[1..env.len()];
    assert(env_view(rest@) =~= env_view(env@).drop_first());
    find_capture(rest, key)
}

fn find_contained<'b>(cs: &'b [Contained], key: &str) -> (r: Option<&'b Contained>)
    ensures
        match r {
            Some(c) => contained_find(cs@, key@) == Some(*c),
            None => contained_find(cs@, key@) is None,
        },
    decreases cs@.len(),
{
    if cs.len() == 0 {
        return None;
    }
    if str_eq(cs[0].key.as_str(), key) {
        return Some(&cs[0]);
    }
    let rest = &cs[1..cs.len()];
    assert(rest@ =~= cs@.drop_first());
    find_contained(rest, key)
}

fn identifier_bytes<'b, 'a>(c: &'b Capture<'a>) -> (r: Option<&'b [u8]>)
    ensures
        match r {
            Some(b) => identifier(cap_view(*c)) == Some(b@),
            None => identifier(cap_view(*c)) is None,
        },
{
    match c {
        Capture::Name(b) => Some(b.as_slice()),
        Capture::One(n) => match &n.role {
            Role::Symbol(v) => Some(v.as_slice()),
            _ => match &n.bare {
                Some(b) => Some(b.as_slice()),
                None => None,
            },
        },
        Capture::Many(_) => None,
    }
}

fn plain_name_bytes<'b, 'a>(c: &'b Capture<'a>) -> (r: Option<&'b [u8]>)
    ensures
        match r {
            Some(b) => plain_name(cap_view(*c)) == Some(b@),
            None => plain_name(cap_view(*c)) is None,
        },
{
    match c {
        Capture::Name(b) => Some(b.as_slice()),
        Capture::One(n) => match &n.bare {
            Some(b) => Some(b.as_slice()),
            None => None,
        },
        Capture::Many(_) => None,
    }
}

fn same_spans(x: &Vec<&Node>, y: &Vec<&Node>) -> (r: bool)
    ensures
        r == same_place(CapView::Many(crate::structure::derefs(x@)), CapView::Many(crate::structure::derefs(y@))),
{
    let ghost xv = crate::structure::derefs(x@);
    let ghost yv = crate::structure::derefs(y@);
    assert(xv.len() == x@.len() && yv.len() == y@.len());
    if x.len() != y.len() {
        return false;
    }
    let mut i: usize = 0;
    while i < x.len()
        invariant
            i <= x@.len() == y@.len(),
            xv == crate::structure::derefs(x@),
            yv == crate::structure::derefs(y@),
            xv.len() == x@.len() && yv.len() == y@.len(),
            forall|j: int| 0 <= j < i ==> (#[trigger] xv[j]).start == yv[j].start && xv[j].end == yv[j].end,
        decreases x@.len() - i,
    {
        assert(xv[i as int] == *x@[i as int]);
        assert(yv[i as int] == *y@[i as int]);
        if x[i].start != y[i].start || x[i].end != y[i].end {
            return false;
        }
        i += 1;
    }
    true
}

fn same_source(a: &Capture, b: &Capture) -> (r: bool)
    ensures
        r == same_place(cap_view(*a), cap_view(*b)),
{
    match a {
        Capture::Name(x) => match b {
            Capture::Name(y) => bytes_eq(x.as_slice(), y.as_slice()),
            _ => false,
        },
        Capture::One(x) => match b {
            Capture::One(y) => x.start == y.start && x.end == y.end,
            _ => false,
        },
        Capture::Many(x) => match b {
            Capture::Many(y) => same_spans(x, y),
            _ => false,
        },
    }
}

fn consistent_with(a: &Capture, b: &Capture) -> (r: bool)
    ensures
        r == consistent(cap_view(*a), cap_view(*b)),
{
    match (identifier_bytes(a), identifier_bytes(b)) {
        (Some(x), Some(y)) => bytes_eq(x, y),
        _ => same_source(a, b),
    }
}

fn agrees(hit: &Vec<(String, Capture)>, outer: &Vec<(String, Capture)>) -> (r: bool)
    ensures
        r == agrees_with(env_view(hit@), env_view(outer@)),
{
    let ghost hv = env_view(hit@);
    let ghost ov = env_view(outer@);
    let mut k: usize = 0;
    while k < hit.len()
        invariant
            k <= hit@.len(),
            hv == env_view(hit@),
            ov == env_view(outer@),
            forall|j: int|
                0 <= j < k ==> match env_find(ov, (#[trigger] hv[j]).0) {
                    Some(t) => consistent(hv[j].1, t),
                    None => true,
                },
        decreases hit@.len() - k,
    {
        assert(hv[k as int] == (hit@[k as int].0@, cap_view(hit@[k as int].1)));
        match find_capture(outer.as_slice(), hit[k].0.as_str()) {
            Some(t) => {
                if !consistent_with(&hit[k].1, t) {
                    return false;
                }
            },
            None => {},
        }
        k += 1;
    }
    true
}

fn holds_within(n: &Node, sub: &Contained, outer: &Vec<(String, Capture)>) -> (r: bool)
    ensures
        r == spec_holds_within(*n, sub.program, sub.bindings@, env_view(outer@)),
{
    let found = pattern_root(&sub.program);
    if found.is_none() {
        return false;
    }
    let root = found.unwrap();
    assert(spec_pattern_root(sub.program) == Some(*root));
    let hits = search(root, n, &sub.bindings);
    let ghost all = spec_search(*root, *n, sub.bindings@);
    let mut i: usize = 0;
    while i < hits.len()
        invariant
            i <= hits@.len(),
            found_views(hits@) == all,
            all == spec_search(*root, *n, sub.bindings@),
            spec_pattern_root(sub.program) == Some(*root),
            forall|j: int| 0 <= j < i ==> !agrees_with((#[trigger] all[j]).1, env_view(outer@)),
        decreases hits@.len() - i,
    {
        assert(all[i as int].1 == env_view(hits@[i as int].1@));
        if agrees(&hits[i].1, outer) {
            assert(found_views(hits@).len() == hits@.len());
            assert(0 <= i < spec_search(*root, *n, sub.bindings@).len());
            assert(agrees_with(spec_search(*root, *n, sub.bindings@)[i as int].1, env_view(outer@)));
            return true;
        }
        i += 1;
    }
    false
}

fn listed_in(names: &Vec<String>, b: &[u8]) -> (r: bool)
    ensures
        r == listed(string_views(names@), b@),
{
    let ghost nv = string_views(names@);
    let mut k: usize = 0;
    while k < names.len()
        invariant
            k <= names@.len(),
            nv == string_views(names@),
            forall|j: int| 0 <= j < k ==> vstd::utf8::encode_utf8(#[trigger] nv[j]) != b@,
        decreases names@.len() - k,
    {
        assert(nv[k as int] == names@[k as int]@);
        if bytes_eq(names[k].as_str().as_bytes(), b) {
            return true;
        }
        k += 1;
    }
    false
}

fn kind_is(c: &Capture, k: NodeKind) -> (r: bool)
    ensures
        r == is_kind(cap_view(*c), k),
{
    match c {
        Capture::Name(b) => matches!(k, NodeKind::Constant) && b.len() > 0 && 65 <= b[0] && b[0] <= 90,
        Capture::One(n) => match k {
            NodeKind::Constant => matches!(n.role, Role::Constant),
            NodeKind::Symbol => matches!(n.role, Role::Symbol(_)),
            NodeKind::String => matches!(n.role, Role::Str(_, _)),
            NodeKind::Integer => matches!(n.role, Role::Integer),
            NodeKind::Array => matches!(n.role, Role::Array),
            NodeKind::Hash => matches!(n.role, Role::Hash),
        },
        Capture::Many(_) => false,
    }
}

fn literal_text<'b, 'a>(c: &'b Capture<'a>) -> (r: Option<&'b str>)
    ensures
        match r {
            Some(t) => literal(cap_view(*c)) == Some(t@),
            None => literal(cap_view(*c)) is None,
        },
{
    match c {
        Capture::Name(b) => utf8(b.as_slice()),
        Capture::One(n) => match &n.role {
            Role::Str(v, _) => utf8(v.as_slice()),
            Role::Symbol(v) => utf8(v.as_slice()),
            _ => None,
        },
        Capture::Many(_) => None,
    }
}

fn type_check(c: &Constraint, wanted: &String, bound: &Capture, resolved: &Option<Receiver>, h: &Hierarchy) -> (r:
    Option<ConstraintMiss>)
    ensures
        match r {
            Some(m) => type_miss(c.view(), wanted@, cap_view(*bound), opt_receiver_view(*resolved), h@) == Some(
                miss_view(m),
            ),
            None => type_miss(c.view(), wanted@, cap_view(*bound), opt_receiver_view(*resolved), h@) is None,
        },
{
    let is_one = matches!(bound, Capture::One(_));
    match resolved {
        Some(r) => {
            if !is_one {
                return Some(ConstraintMiss::Type { resolved: None, wanted: owned(wanted.as_str()), wrong_kind: false });
            }
            let cls = r.class_name();
            let sub = match c.subclasses {
                Some(b) => b,
                None => false,
            };
            if !(str_eq(cls, wanted.as_str()) || (sub && h.descends_from(cls, wanted.as_str()))) {
                return Some(
                    ConstraintMiss::Type { resolved: Some(owned(cls)), wanted: owned(wanted.as_str()), wrong_kind: false },
                );
            }
            if r.is_instance() != c.wants_instance() {
                return Some(
                    ConstraintMiss::Type { resolved: Some(owned(cls)), wanted: owned(wanted.as_str()), wrong_kind: true },
                );
            }
            None
        },
        None => Some(ConstraintMiss::Type { resolved: None, wanted: owned(wanted.as_str()), wrong_kind: false }),
    }
}

fn bad(capture: &str, miss: ConstraintMiss) -> (v: Verdict)
    ensures
        verdict_view(v) == (VerdictView::Bad { capture: capture@, miss: miss_view(miss) }),
{
    Verdict::BadBinding { capture: owned(capture), miss }
}

fn check_entry(
    key: &str,
    c: &Constraint,
    env: &Vec<(String, Capture)>,
    contained: &Vec<Contained>,
    resolved: &Option<Receiver>,
    h: &Hierarchy,
) -> (r: Option<Verdict>)
    ensures
        match r {
            Some(v) => entry_verdict(key@, c.view(), env_view(env@), contained@, opt_receiver_view(*resolved), h@)
                == Some(verdict_view(v)),
            None => entry_verdict(key@, c.view(), env_view(env@), contained@, opt_receiver_view(*resolved), h@) is None,
        },
{
    let short = crate::rule::strip_dollar_prefix(key);
    let bound = match find_capture(env.as_slice(), short) {
        Some(b) => b,
        None => {
            return Some(Verdict::Bug("a constraint names a capture the pattern never binds"));
        },
    };
    match &c.same_name_as {
        Some(o) => {
            let other = match find_capture(env.as_slice(), crate::rule::strip_dollar_prefix(o.as_str())) {
                Some(t) => t,
                None => {
                    return Some(Verdict::Bug("`same_name_as:` names a capture the pattern never binds"));
                },
            };
            let same = match (identifier_bytes(bound), identifier_bytes(other)) {
                (Some(x), Some(y)) => bytes_eq(x, y),
                _ => false,
            };
            if !same {
                return Some(bad(short, ConstraintMiss::SameNameAs { other: owned(o.as_str()) }));
            }
        },
        None => {},
    }
    match &c.name {
        Some(allowed) => {
            let actual = plain_name_bytes(bound);
            let ok = match actual {
                Some(a) => listed_in(allowed, a),
                None => false,
            };
            if !ok {
                let shown = match actual {
                    Some(a) => Some(lossy_string(a)),
                    None => None,
                };
                return Some(
                    bad(short, ConstraintMiss::Name { actual: shown, allowed: crate::text::clone_strings(allowed) }),
                );
            }
        },
        None => {},
    }
    match &c.name_not {
        Some(excluded) => {
            match plain_name_bytes(bound) {
                Some(a) => {
                    if listed_in(excluded, a) {
                        return Some(bad(short, ConstraintMiss::NameNot { actual: lossy_string(a) }));
                    }
                },
                None => {},
            }
        },
        None => {},
    }
    match c.is {
        Some(wanted) => {
            if !kind_is(bound, wanted) {
                return Some(bad(short, ConstraintMiss::Is { wanted }));
            }
        },
        None => {},
    }
    if c.contains.is_some() {
        let sub = match find_contained(contained.as_slice(), short) {
            Some(s) => s,
            None => {
                return Some(Verdict::Bug("a `contains:` sub-pattern failed to prepare"));
            },
        };
        let holds = match bound {
            Capture::One(n) => holds_within(n, sub, env),
            _ => false,
        };
        if !holds {
            return Some(bad(short, ConstraintMiss::Contains { pattern: owned(sub.source.as_str()) }));
        }
    }
    match c.length {
        Some(wanted) => {
            match literal_text(bound) {
                Some(t) => {
                    let n = t.unicode_len();
                    if n != wanted {
                        return Some(bad(short, ConstraintMiss::Length { actual: Some(n), wanted }));
                    }
                },
                None => {
                    return Some(bad(short, ConstraintMiss::Length { actual: None, wanted }));
                },
            }
        },
        None => {},
    }
    match &c.receiver_type {
        Some(wanted) => {
            match type_check(c, wanted, bound, resolved, h) {
                Some(m) => {
                    return Some(bad(short, m));
                },
                None => {},
            }
        },
        None => {},
    }
    None
}

/// Judge one match: where it sits (`scope` its enclosing class and module
/// names, outermost first; `singleton` whether it is in `def self.x` or
/// `class << self`) against the rule's scope, then each capture against
/// its `where:` entry, in the order the rule lists them. `contained` holds
/// the rule's `contains:` sub-patterns, prepared and parsed; `resolved[k]`
/// is the receiver the `k`th entry's capture resolved to, where that could
/// be known.
pub fn verdict(
    env: &Vec<(String, Capture)>,
    scope: &Vec<String>,
    singleton: bool,
    constraints: &Vec<(String, Constraint)>,
    contained: &Vec<Contained>,
    resolved: &Vec<Option<Receiver>>,
    rule_scope: &Scope,
    hierarchy: &Hierarchy,
) -> (v: Verdict)
    requires
        resolved@.len() == constraints@.len(),
    ensures
        verdict_view(v) == spec_verdict(
            env_view(env@),
            string_views(scope@),
            singleton,
            crate::rule::constraint_views(constraints@),
            contained@,
            resolved_views(resolved@),
            rule_scope.view(),
            hierarchy@,
        ),
{
    match &rule_scope.inside {
        Some(wanted) => {
            let here = enclosing_class(scope);
            let sub = match rule_scope.subclasses {
                Some(b) => b,
                None => false,
            };
            let reached = match &here {
                Some(s) => str_eq(s.as_str(), wanted.as_str()) || (sub && hierarchy.descends_from(
                    s.as_str(),
                    wanted.as_str(),
                )),
                None => false,
            };
            if !reached {
                return Verdict::WrongScope(
                    ScopeMiss::Inside { wanted: owned(wanted.as_str()), found: crate::text::clone_strings(scope) },
                );
            }
        },
        None => {},
    }
    match rule_scope.singleton {
        Some(wanted) => {
            if singleton != wanted {
                return Verdict::WrongScope(ScopeMiss::Singleton { wanted });
            }
        },
        None => {},
    }
    let ghost cs = crate::rule::constraint_views(constraints@);
    let ghost whole = spec_verdict(
        env_view(env@),
        string_views(scope@),
        singleton,
        cs,
        contained@,
        resolved_views(resolved@),
        rule_scope.view(),
        hierarchy@,
    );
    assert(whole == entries_verdict(cs, env_view(env@), contained@, resolved_views(resolved@), hierarchy@, 0));
    let mut k: usize = 0;
    while k < constraints.len()
        invariant
            k <= constraints@.len() == resolved@.len(),
            cs == crate::rule::constraint_views(constraints@),
            whole == spec_verdict(
                env_view(env@),
                string_views(scope@),
                singleton,
                cs,
                contained@,
                resolved_views(resolved@),
                rule_scope.view(),
                hierarchy@,
            ),
            whole == entries_verdict(cs, env_view(env@), contained@, resolved_views(resolved@), hierarchy@, 0),
            entries_verdict(cs, env_view(env@), contained@, resolved_views(resolved@), hierarchy@, 0) == entries_verdict(
                cs,
                env_view(env@),
                contained@,
                resolved_views(resolved@),
                hierarchy@,
                k as int,
            ),
        decreases constraints@.len() - k,
    {
        assert(cs[k as int] == (constraints@[k as int].0@, constraints@[k as int].1.view()));
        match check_entry(
            constraints[k].0.as_str(),
            &constraints[k].1,
            env,
            contained,
            &resolved[k],
            hierarchy,
        ) {
            Some(v) => {
                return v;
            },
            None => {},
        }
        k += 1;
    }
    Verdict::Holds
}

/// What a rule asks of a match beyond its shape: its `where:` entries, its
/// `contains:` sub-patterns prepared and parsed, and its scope.
pub struct Criteria {
    pub constraints: Vec<(String, Constraint)>,
    pub contained: Vec<Contained>,
    pub scope: Scope,
}

/// The name a constant reference is written with.
pub open spec fn constant_name(n: Node) -> Option<Seq<u8>> {
    if n.atoms@.len() > 0 {
        match n.atoms@[0] {
            crate::matcher::Atom::Name(b) => Some(b@),
            _ => None,
        }
    } else {
        None
    }
}

/// Methods that hand their receiver back: `freeze`, `dup`, `clone`,
/// `itself` and `tap`.
pub open spec fn passes_through(name: Seq<u8>) -> bool {
    ||| name == seq![102u8, 114, 101, 101, 122, 101]
    ||| name == seq![100u8, 117, 112]
    ||| name == seq![99u8, 108, 111, 110, 101]
    ||| name == seq![105u8, 116, 115, 101, 108, 102]
    ||| name == seq![116u8, 97, 112]
}

/// The class a receiver expression denotes, where the syntax alone tells
/// it: a constant names the class object; `self` is the class in singleton
/// context and an instance elsewhere; `Widget.new` is an instance of
/// Widget; a method that hands its receiver back passes its type through.
/// Anything else, a local variable or another call among them, stays
/// unresolved.
pub open spec fn spec_resolve_type(n: Node, scope: Seq<Seq<char>>, singleton: bool) -> Option<(bool, Seq<char>)>
    decreases n,
{
    match n.role {
        Role::Constant => match constant_name(n) {
            Some(b) => if vstd::utf8::valid_utf8(b) {
                Some((false, vstd::utf8::decode_utf8(b)))
            } else {
                None
            },
            None => None,
        },
        Role::SelfRef => if scope.len() > 0 {
            Some((!singleton, scope.last()))
        } else {
            None
        },
        Role::Call { name, receiver, .. } => if receiver && n.children@.len() > 0 {
            if name@ == seq![110u8, 101, 119] {
                if n.children@[0].role is Constant {
                    match spec_resolve_type(n.children@[0], scope, singleton) {
                        Some((_, c)) => Some((true, c)),
                        None => None,
                    }
                } else {
                    None
                }
            } else if passes_through(name@) {
                spec_resolve_type(n.children@[0], scope, singleton)
            } else {
                None
            }
        } else {
            None
        },
        _ => None,
    }
}

/// `self` denotes the innermost class or module it is written in -- the
/// last of the enclosing scopes, never an outer one -- as an instance in an
/// ordinary method and as the class object in singleton context; outside
/// every class it denotes nothing. A call that hands its receiver back
/// (`freeze`, `dup`, `clone`, `itself`, `tap`) denotes what its receiver
/// does, and `X.new` an instance of the class `X` names. A constant denotes
/// the class object it names; nothing else denotes a class.
pub proof fn law_self_is_the_innermost_enclosing_class(n: Node, scope: Seq<Seq<char>>, singleton: bool)
    ensures
        n.role is SelfRef && scope.len() > 0 ==> spec_resolve_type(n, scope, singleton) == Some(
            (!singleton, scope[scope.len() - 1]),
        ),
        n.role is SelfRef && scope.len() == 0 ==> spec_resolve_type(n, scope, singleton) is None,
        n.role is Constant && constant_name(n) is Some && vstd::utf8::valid_utf8(constant_name(n)->Some_0)
            ==> spec_resolve_type(n, scope, singleton) == Some(
            (false, vstd::utf8::decode_utf8(constant_name(n)->Some_0)),
        ),
        !(n.role is Constant || n.role is SelfRef || n.role is Call) ==> spec_resolve_type(n, scope, singleton) is None,
        n.role is SelfRef ==> forall|i: int|
            0 <= i < scope.len() - 1 && scope[i] != scope[scope.len() - 1] ==> spec_resolve_type(n, scope, singleton)
                != Some((!singleton, #[trigger] scope[i])),
        n.role matches Role::Call { name, receiver, .. } && receiver && n.children@.len() > 0 && passes_through(name@)
            ==> spec_resolve_type(n, scope, singleton) == spec_resolve_type(n.children@[0], scope, singleton),
        n.role matches Role::Call { name, receiver, .. } && receiver && n.children@.len() > 0 && name@ == seq![110u8, 101, 119]
            && n.children@[0].role is Constant ==> spec_resolve_type(n, scope, singleton) == match spec_resolve_type(
            n.children@[0],
            scope,
            singleton,
        ) {
            Some((_, c)) => Some((true, c)),
            None => None,
        },
{
}

fn is_bytes(b: &Vec<u8>, w: &[u8]) -> (r: bool)
    ensures
        r == (b@ == w@),
{
    let same = bytes_eq(b.as_slice(), w);
    same
}

/// The class a receiver expression denotes, where the syntax alone tells it.
pub fn resolve_type(n: &Node, scope: &Vec<String>, singleton: bool) -> (r: Option<Receiver>)
    ensures
        opt_receiver_view(r) == spec_resolve_type(*n, string_views(scope@), singleton),
    decreases *n,
{
    match &n.role {
        Role::Constant => {
            if n.atoms.len() == 0 {
                return None;
            }
            match &n.atoms[0] {
                crate::matcher::Atom::Name(b) => match utf8(b.as_slice()) {
                    Some(text) => Some(Receiver::Class(owned(text))),
                    None => None,
                },
                _ => None,
            }
        },
        Role::SelfRef => {
            if scope.len() == 0 {
                return None;
            }
            let last = owned(scope[scope.len() - 1].as_str());
            proof {
                assert(string_views(scope@).last() == scope@[scope@.len() - 1]@);
            }
            if singleton {
                Some(Receiver::Class(last))
            } else {
                Some(Receiver::Instance(last))
            }
        },
        Role::Call { name, receiver, .. } => {
            if !*receiver || n.children.len() == 0 {
                return None;
            }
            let r = &n.children[0];
            if is_bytes(name, &[110u8, 101, 119]) {
                assert(name@ == seq![110u8, 101, 119]);
                if !matches!(r.role, Role::Constant) {
                    return None;
                }
                match resolve_type(r, scope, singleton) {
                    Some(Receiver::Class(c)) => Some(Receiver::Instance(c)),
                    Some(Receiver::Instance(c)) => Some(Receiver::Instance(c)),
                    None => None,
                }
            } else {
                assert(name@ != seq![110u8, 101, 119]);
                let through = is_bytes(name, &[102u8, 114, 101, 101, 122, 101]) || is_bytes(name, &[100u8, 117, 112])
                    || is_bytes(name, &[99u8, 108, 111, 110, 101]) || is_bytes(name, &[105u8, 116, 115, 101, 108, 102])
                    || is_bytes(name, &[116u8, 97, 112]);
                if through {
                    resolve_type(r, scope, singleton)
                } else {
                    None
                }
            }
        },
        _ => None,
    }
}

/// The receiver each `where:` entry's capture resolves to: for an entry with
/// `type:`, the class its single captured node denotes; nothing otherwise.
pub open spec fn spec_resolutions(
    env: Seq<(Seq<char>, CapView)>,
    cs: Seq<(Seq<char>, ConstraintView)>,
    scope: Seq<Seq<char>>,
    singleton: bool,
) -> Seq<Option<(bool, Seq<char>)>> {
    Seq::new(
        cs.len(),
        |k: int|
            if cs[k].1.receiver_type is Some {
                match env_find(env, strip_dollars(cs[k].0)) {
                    Some(CapView::One(n)) => spec_resolve_type(n, scope, singleton),
                    _ => None,
                }
            } else {
                None
            },
    )
}

fn resolutions(env: &Vec<(String, Capture)>, constraints: &Vec<(String, Constraint)>, scope: &Vec<String>, singleton: bool) -> (r:
    Vec<Option<Receiver>>)
    ensures
        r@.len() == constraints@.len(),
        resolved_views(r@) == spec_resolutions(
            env_view(env@),
            crate::rule::constraint_views(constraints@),
            string_views(scope@),
            singleton,
        ),
{
    let ghost want = spec_resolutions(
        env_view(env@),
        crate::rule::constraint_views(constraints@),
        string_views(scope@),
        singleton,
    );
    let mut out: Vec<Option<Receiver>> = Vec::new();
    let mut k: usize = 0;
    while k < constraints.len()
        invariant
            k <= constraints@.len(),
            want.len() == constraints@.len(),
            want == spec_resolutions(
                env_view(env@),
                crate::rule::constraint_views(constraints@),
                string_views(scope@),
                singleton,
            ),
            resolved_views(out@) == want.take(k as int),
            out@.len() == k,
        decreases constraints@.len() - k,
    {
        let c = &constraints[k];
        assert(crate::rule::constraint_views(constraints@)[k as int] == (c.0@, c.1.view()));
        let r: Option<Receiver> = if c.1.receiver_type.is_some() {
            let short = crate::rule::strip_dollar_prefix(c.0.as_str());
            match find_capture(env.as_slice(), short) {
                Some(Capture::One(n)) => resolve_type(n, scope, singleton),
                _ => None,
            }
        } else {
            None
        };
        assert(opt_receiver_view(r) == want[k as int]);
        let ghost before = out@;
        out.push(r);
        assert(resolved_views(out@) =~= resolved_views(before).push(opt_receiver_view(r)));
        assert(want.take(k + 1) =~= want.take(k as int).push(want[k as int]));
        k += 1;
    }
    assert(want.take(k as int) =~= want);
    out
}

/// Every receiver left unresolved.
pub open spec fn unresolved(n: nat) -> Seq<Option<(bool, Seq<char>)>> {
    Seq::new(n, |i: int| None)
}

/// The scope entry a node's body adds: a class or module's qualified name,
/// or the marker of a `class << self` body.
pub open spec fn scope_entry(n: Node) -> Option<Seq<char>> {
    match n.role {
        Role::Body(Some(name)) => Some(name@),
        Role::SingletonBody => Some(crate::matcher::singleton_marker()),
        _ => None,
    }
}

/// Whether a node's body is in singleton context: `def self.x`, or any
/// `def` already in one, and `class << self`; a class or module body starts
/// afresh.
pub open spec fn body_singleton(n: Node, s: bool) -> bool {
    match n.role {
        Role::Def { receiver, .. } => receiver || s,
        Role::SingletonBody => true,
        Role::Body(_) => false,
        _ => s,
    }
}

/// The captures of a match at `t` that the rule admits there, each
/// `type:` entry judged against the receiver its capture resolves to.
pub open spec fn admitted(
    p: Node,
    t: Node,
    bs: Seq<(String, Binding)>,
    scope: Seq<Seq<char>>,
    singleton: bool,
    c: Criteria,
    h: HierarchyView,
) -> Option<Seq<(Seq<char>, CapView)>> {
    match crate::structure::spec_match_node(p, t, bs, Seq::empty()) {
        Some(e) => if spec_verdict(
            e,
            scope,
            singleton,
            crate::rule::constraint_views(c.constraints@),
            c.contained@,
            spec_resolutions(e, crate::rule::constraint_views(c.constraints@), scope, singleton),
            c.scope.view(),
            h,
        ) is Holds {
            Some(e)
        } else {
            None
        },
        None => None,
    }
}

/// Every node of `t` a rule admits, in source order, each with its
/// captures and where it sits: the enclosing class and module names and
/// whether it is in singleton context.
pub open spec fn spec_walk(
    p: Node,
    t: Node,
    bs: Seq<(String, Binding)>,
    scope: Seq<Seq<char>>,
    singleton: bool,
    c: Criteria,
    h: HierarchyView,
) -> Seq<(Node, Seq<(Seq<char>, CapView)>, Seq<Seq<char>>, bool)>
    decreases t,
{
    let here = match admitted(p, t, bs, scope, singleton, c, h) {
        Some(e) => seq![(t, e, scope, singleton)],
        None => Seq::empty(),
    };
    let inner = match scope_entry(t) {
        Some(n) => scope.push(n),
        None => scope,
    };
    here + spec_walk_all(p, t.children@, bs, inner, body_singleton(t, singleton), c, h)
}

pub open spec fn spec_walk_all(
    p: Node,
    ts: Seq<Node>,
    bs: Seq<(String, Binding)>,
    scope: Seq<Seq<char>>,
    singleton: bool,
    c: Criteria,
    h: HierarchyView,
) -> Seq<(Node, Seq<(Seq<char>, CapView)>, Seq<Seq<char>>, bool)>
    decreases ts,
{
    if ts.len() == 0 {
        Seq::empty()
    } else {
        spec_walk(p, ts[0], bs, scope, singleton, c, h) + spec_walk_all(
            p,
            ts.subrange(1, ts.len() as int),
            bs,
            scope,
            singleton,
            c,
            h,
        )
    }
}

/// A match a rule admits, and where it sits.
pub struct Placed<'a> {
    pub node: &'a Node,
    pub env: Vec<(String, Capture<'a>)>,
    pub scope: Vec<String>,
    pub singleton: bool,
}

pub open spec fn placed_views(v: Seq<Placed>) -> Seq<(Node, Seq<(Seq<char>, CapView)>, Seq<Seq<char>>, bool)> {
    v.map_values(|x: Placed| (*x.node, env_view(x.env@), string_views(x.scope@), x.singleton))
}

fn walk_into<'a>(
    p: &Node,
    t: &'a Node,
    bs: &Vec<(String, Binding)>,
    scope: &Vec<String>,
    singleton: bool,
    c: &Criteria,
    h: &Hierarchy,
    out: &mut Vec<Placed<'a>>,
)
    ensures
        placed_views(final(out)@) == placed_views(old(out)@) + spec_walk(
            *p,
            *t,
            bs@,
            string_views(scope@),
            singleton,
            *c,
            h@,
        ),
    decreases *t,
{
    let ghost before = placed_views(out@);
    let ghost sv = string_views(scope@);
    let mut env: Vec<(String, Capture<'a>)> = Vec::new();
    assert(env_view(env@) =~= Seq::<(Seq<char>, CapView)>::empty());
    if crate::structure::match_node(p, t, bs, &mut env) {
        let resolved = resolutions(&env, &c.constraints, scope, singleton);
        let v = verdict(&env, scope, singleton, &c.constraints, &c.contained, &resolved, &c.scope, h);
        if matches!(v, Verdict::Holds) {
            let ghost e = env_view(env@);
            out.push(Placed { node: t, env, scope: crate::text::clone_strings(scope), singleton });
            proof {
                assert(placed_views(out@) =~= before.push((*t, e, sv, singleton)));
            }
        }
    }
    let ghost mid = placed_views(out@);
    let entry: Option<String> = match &t.role {
        Role::Body(Some(name)) => Some(owned(name.as_str())),
        Role::SingletonBody => {
            let m = owned("<<self");
            proof {
                reveal_strlit("<<self");
            }
            Some(m)
        },
        _ => None,
    };
    let inner_singleton = match &t.role {
        Role::Def { receiver, .. } => *receiver || singleton,
        Role::SingletonBody => true,
        Role::Body(_) => false,
        _ => singleton,
    };
    match entry {
        Some(name) => {
            let mut inner = crate::text::clone_strings(scope);
            inner.push(name);
            proof {
                assert(string_views(inner@) =~= sv.push(scope_entry(*t)->0));
            }
            walk_all_into(p, t.children.as_slice(), bs, &inner, inner_singleton, c, h, out);
        },
        None => {
            walk_all_into(p, t.children.as_slice(), bs, scope, inner_singleton, c, h, out);
        },
    }
    proof {
        let here = match admitted(*p, *t, bs@, sv, singleton, *c, h@) {
            Some(e) => seq![(*t, e, sv, singleton)],
            None => Seq::<(Node, Seq<(Seq<char>, CapView)>, Seq<Seq<char>>, bool)>::empty(),
        };
        assert(mid =~= before + here);
        let inner = match scope_entry(*t) {
            Some(n) => sv.push(n),
            None => sv,
        };
        let rest = spec_walk_all(*p, t.children@, bs@, inner, body_singleton(*t, singleton), *c, h@);
        assert(before + here + rest =~= before + (here + rest));
    }
}

fn walk_all_into<'a>(
    p: &Node,
    ts: &'a [Node],
    bs: &Vec<(String, Binding)>,
    scope: &Vec<String>,
    singleton: bool,
    c: &Criteria,
    h: &Hierarchy,
    out: &mut Vec<Placed<'a>>,
)
    ensures
        placed_views(final(out)@) == placed_views(old(out)@) + spec_walk_all(
            *p,
            ts@,
            bs@,
            string_views(scope@),
            singleton,
            *c,
            h@,
        ),
    decreases ts@,
{
    if ts.len() == 0 {
        assert(placed_views(out@) + Seq::<(Node, Seq<(Seq<char>, CapView)>, Seq<Seq<char>>, bool)>::empty()
            =~= placed_views(out@));
        return;
    }
    let ghost before = placed_views(out@);
    let ghost sv = string_views(scope@);
    walk_into(p, &ts[0], bs, scope, singleton, c, h, out);
    let rest = &ts[1..ts.len()];
    assert(rest@ == ts@.subrange(1, ts@.len() as int));
    walk_all_into(p, rest, bs, scope, singleton, c, h, out);
    proof {
        assert(before + spec_walk(*p, ts@[0], bs@, sv, singleton, *c, h@) + spec_walk_all(
            *p,
            rest@,
            bs@,
            sv,
            singleton,
            *c,
            h@,
        ) =~= before + (spec_walk(*p, ts@[0], bs@, sv, singleton, *c, h@) + spec_walk_all(
            *p,
            rest@,
            bs@,
            sv,
            singleton,
            *c,
            h@,
        )));
    }
}

/// Every node of `target` that `pattern` matches and the rule admits, in
/// source order -- a node before the nodes inside it -- each with its
/// captures, the class and module names it sits in, outermost first, and
/// whether it is in singleton context. Each node is matched once, with the
/// captures matching makes there. A `type:` entry's capture resolves as far
/// as its syntax tells; one that does not resolve declines the match.
pub fn walk<'a>(pattern: &Node, target: &'a Node, bindings: &Vec<(String, Binding)>, criteria: &Criteria, hierarchy: &Hierarchy) -> (r: Vec<Placed<'a>>)
    ensures
        placed_views(r@) == spec_walk(*pattern, *target, bindings@, Seq::empty(), false, *criteria, hierarchy@),
{
    let mut out: Vec<Placed<'a>> = Vec::new();
    let top: Vec<String> = Vec::new();
    assert(string_views(top@) =~= Seq::<Seq<char>>::empty());
    walk_into(pattern, target, bindings, &top, false, criteria, hierarchy, &mut out);
    assert(placed_views(Seq::<Placed<'a>>::empty()) + spec_walk(
        *pattern,
        *target,
        bindings@,
        Seq::empty(),
        false,
        *criteria,
        hierarchy@,
    ) =~= spec_walk(*pattern, *target, bindings@, Seq::empty(), false, *criteria, hierarchy@));
    out
}

/// A rewrite template, prepared as a pattern is and parsed.
pub struct Template {
    pub prepared: crate::prepare::Prepared,
    pub program: Node,
}

/// A rule as a scan applies it: its pattern as parsed, the pattern's
/// placeholders, what it asks of a match, whether it rewrites rather than
/// reports, and its template prepared and parsed, where that could be done.
pub struct Applied {
    pub program: Node,
    pub bindings: Vec<(String, Binding)>,
    pub criteria: Criteria,
    pub rewrites: bool,
    pub template: Option<Template>,
}

/// A node a reporting rule flagged: the rule's index and where the node lies.
#[derive(Debug, Clone, Copy, PartialEq, Eq, Structural)]
pub struct Flag {
    pub rule: usize,
    pub start: usize,
    pub end: usize,
}

/// Whether a flag lies on the lines a run is restricted to: any flag when
/// there is no restriction; otherwise one whose lines, from where it starts
/// to where it ends, touch a changed line of the file.
pub open spec fn on_changed_lines(only: Option<(crate::diff::Grouped, Seq<char>)>, source: Seq<u8>, f: Flag) -> bool {
    match only {
        None => true,
        Some((changed, file)) => crate::diff::spec_touches(
            changed,
            file,
            crate::source::spec_line_col(source, f.start as int).0,
            crate::source::spec_line_col(source, f.end as int).0,
        ),
    }
}

/// The flags among `fs` on the lines a run is restricted to, in order.
pub open spec fn on_lines(fs: Seq<Flag>, only: Option<(crate::diff::Grouped, Seq<char>)>, source: Seq<u8>) -> Seq<Flag>
    decreases fs.len(),
{
    if fs.len() == 0 {
        Seq::empty()
    } else if on_changed_lines(only, source, fs.last()) {
        on_lines(fs.drop_last(), only, source).push(fs.last())
    } else {
        on_lines(fs.drop_last(), only, source)
    }
}

/// Every node the rule at index `i` matches and admits in a tree, in the
/// walk's order: nothing when it rewrites or its pattern has no single root.
pub open spec fn walked(i: int, a: Applied, t: Node, h: HierarchyView) -> Seq<Flag> {
    if a.rewrites {
        Seq::empty()
    } else {
        match spec_pattern_root(a.program) {
            Some(p) => spec_walk(p, t, a.bindings@, Seq::empty(), false, a.criteria, h).map_values(
                |x: (Node, Seq<(Seq<char>, CapView)>, Seq<Seq<char>>, bool)|
                    Flag { rule: i as usize, start: x.0.start, end: x.0.end },
            ),
            None => Seq::empty(),
        }
    }
}

/// What the rule at index `i` flags: what it walks to, on the lines a run
/// is restricted to.
pub open spec fn flags_of(
    i: int,
    a: Applied,
    t: Node,
    h: HierarchyView,
    only: Option<(crate::diff::Grouped, Seq<char>)>,
    source: Seq<u8>,
) -> Seq<Flag> {
    on_lines(walked(i, a, t, h), only, source)
}

/// What a rule set flags in a tree: each rule's flags, in rule order.
pub open spec fn spec_flags(
    rules: Seq<Applied>,
    t: Node,
    h: HierarchyView,
    only: Option<(crate::diff::Grouped, Seq<char>)>,
    source: Seq<u8>,
) -> Seq<Flag>
    decreases rules.len(),
{
    if rules.len() == 0 {
        Seq::empty()
    } else {
        spec_flags(rules.drop_last(), t, h, only, source) + flags_of(rules.len() - 1, rules.last(), t, h, only, source)
    }
}

/// The restriction a run names, as plain values.
pub open spec fn only_view(only: Option<(&crate::diff::Changed, &str)>) -> Option<(crate::diff::Grouped, Seq<char>)> {
    match only {
        Some((c, file)) => Some((c.view(), file@)),
        None => None,
    }
}

pub(crate) fn on_changed(only: Option<(&crate::diff::Changed, &str)>, source: &[u8], f: Flag) -> (r: bool)
    requires
        source@.len() < usize::MAX,
    ensures
        r == on_changed_lines(only_view(only), source@, f),
{
    match only {
        None => true,
        Some((changed, file)) => {
            let (first, _) = crate::source::line_col(source, f.start);
            let (last, _) = crate::source::line_col(source, f.end);
            changed.touches(file, first, last)
        },
    }
}

/// Apply a rule set's reporting rules to one source, given the library's
/// tree of it: nothing when the parser finds an error in the source, or when
/// no tree was made; otherwise every node each reporting rule flags, rule
/// by rule, kept to the changed lines of the file when the run names them.
/// A rule that rewrites proposes edits instead and flags nothing. That
/// `tree` is the parse of `source` is the caller's word.
pub fn flag(
    source: &[u8],
    tree: Option<&Node>,
    rules: &Vec<Applied>,
    hierarchy: &Hierarchy,
    only: Option<(&crate::diff::Changed, &str)>,
) -> (r: Option<Vec<Flag>>)
    requires
        source@.len() < usize::MAX,
    ensures
        r is None <==> (crate::prepare::prism_first_error(source@) is Some || tree is None),
        match (r, tree) {
            (Some(v), Some(t)) => v@ == spec_flags(rules@, *t, hierarchy@, only_view(only), source@),
            _ => true,
        },
{
    if crate::prepare::first_parse_error(source).is_some() {
        return None;
    }
    let t = match tree {
        Some(t) => t,
        None => return None,
    };
    let ghost o = only_view(only);
    let mut out: Vec<Flag> = Vec::new();
    let mut i: usize = 0;
    assert(rules@.take(0) =~= Seq::<Applied>::empty());
    while i < rules.len()
        invariant
            i <= rules@.len(),
            source@.len() < usize::MAX,
            o == only_view(only),
            out@ == spec_flags(rules@.take(i as int), *t, hierarchy@, o, source@),
        decreases rules@.len() - i,
    {
        let ghost before = out@;
        assert(rules@.take(i + 1).drop_last() =~= rules@.take(i as int));
        assert(rules@.take(i + 1).last() == rules@[i as int]);
        let a = &rules[i];
        if !a.rewrites {
            match pattern_root(&a.program) {
                Some(p) => {
                    let placed = walk(p, t, &a.bindings, &a.criteria, hierarchy);
                    let ghost all = walked(i as int, *a, *t, hierarchy@);
                    let mut j: usize = 0;
                    assert(all.take(0) =~= Seq::<Flag>::empty());
                    while j < placed.len()
                        invariant
                            j <= placed@.len(),
                            i < rules@.len(),
                            source@.len() < usize::MAX,
                            o == only_view(only),
                            placed_views(placed@) == spec_walk(*p, *t, a.bindings@, Seq::empty(), false, a.criteria, hierarchy@),
                            Some(*p) == spec_pattern_root(a.program),
                            !a.rewrites,
                            all == walked(i as int, *a, *t, hierarchy@),
                            all.len() == placed@.len(),
                            out@ == before + on_lines(all.take(j as int), o, source@),
                        decreases placed@.len() - j,
                    {
                        let f = Flag { rule: i, start: placed[j].node.start, end: placed[j].node.end };
                        assert(placed_views(placed@)[j as int].0 == *placed@[j as int].node);
                        assert(all[j as int] == f);
                        assert(all.take(j + 1).drop_last() =~= all.take(j as int));
                        assert(all.take(j + 1).last() == f);
                        if on_changed(only, source, f) {
                            out.push(f);
                            assert(out@ =~= before + on_lines(all.take(j + 1), o, source@));
                        }
                        j += 1;
                    }
                    assert(all.take(j as int) =~= all);
                },
                None => {
                    assert(on_lines(Seq::<Flag>::empty(), o, source@) =~= Seq::<Flag>::empty());
                    assert(out@ =~= before + flags_of(i as int, *a, *t, hierarchy@, o, source@));
                },
            }
        } else {
            assert(on_lines(Seq::<Flag>::empty(), o, source@) =~= Seq::<Flag>::empty());
            assert(out@ =~= before + flags_of(i as int, *a, *t, hierarchy@, o, source@));
        }
        i += 1;
    }
    assert(rules@.take(i as int) =~= rules@);
    Some(out)
}

proof fn lemma_on_lines_within(fs: Seq<Flag>, only: Option<(crate::diff::Grouped, Seq<char>)>, source: Seq<u8>)
    ensures
        forall|k: int| 0 <= k < on_lines(fs, only, source).len() ==> fs.contains(#[trigger] on_lines(fs, only, source)[k]),
        forall|k: int| 0 <= k < on_lines(fs, only, source).len() ==> on_changed_lines(only, source, #[trigger] on_lines(fs, only, source)[k]),
    decreases fs.len(),
{
    if fs.len() > 0 {
        let d = fs.drop_last();
        lemma_on_lines_within(d, only, source);
        let b = on_lines(d, only, source);
        assert forall|k: int| 0 <= k < b.len() implies fs.contains(#[trigger] b[k]) by {
            let m = choose|m: int| 0 <= m < d.len() && d[m] == b[k];
            assert(fs[m] == b[k]);
        }
        if on_changed_lines(only, source, fs.last()) {
            let r = b.push(fs.last());
            assert forall|k: int| 0 <= k < r.len() implies fs.contains(#[trigger] r[k]) by {
                if k < b.len() {
                    assert(r[k] == b[k]);
                } else {
                    assert(fs[fs.len() - 1] == r[k]);
                }
            }
        }
    }
}

proof fn lemma_flags_by_rule(
    rules: Seq<Applied>,
    t: Node,
    h: HierarchyView,
    only: Option<(crate::diff::Grouped, Seq<char>)>,
    source: Seq<u8>,
)
    requires
        rules.len() <= usize::MAX,
    ensures
        forall|i: int|
            0 <= i < spec_flags(rules, t, h, only, source).len() ==> {
                let f = #[trigger] spec_flags(rules, t, h, only, source)[i];
                f.rule < rules.len() && !rules[f.rule as int].rewrites && on_changed_lines(only, source, f)
            },
        forall|i: int, j: int|
            0 <= i < j < spec_flags(rules, t, h, only, source).len() ==> (#[trigger] spec_flags(rules, t, h, only, source)[i]).rule <= (
            #[trigger] spec_flags(rules, t, h, only, source)[j]).rule,
    decreases rules.len(),
{
    if rules.len() > 0 {
        let d = rules.drop_last();
        lemma_flags_by_rule(d, t, h, only, source);
        let a = spec_flags(d, t, h, only, source);
        let last = rules.len() - 1;
        let w = walked(last, rules.last(), t, h);
        let b = flags_of(last, rules.last(), t, h, only, source);
        lemma_on_lines_within(w, only, source);
        let all = a + b;
        assert(spec_flags(rules, t, h, only, source) == all);
        assert forall|k: int| 0 <= k < w.len() implies (#[trigger] w[k]).rule == last && !rules.last().rewrites by {
            let x = rules.last();
            if !x.rewrites {
                match spec_pattern_root(x.program) {
                    Some(p) => {
                        let pw = spec_walk(p, t, x.bindings@, Seq::empty(), false, x.criteria, h);
                        assert(w[k] == Flag { rule: last as usize, start: pw[k].0.start, end: pw[k].0.end });
                    },
                    None => {},
                }
            }
        }
        assert forall|k: int| 0 <= k < b.len() implies (#[trigger] b[k]).rule == last && !rules.last().rewrites by {
            let m = choose|m: int| 0 <= m < w.len() && w[m] == b[k];
            assert(w[m].rule == last);
        }
        assert forall|i: int| 0 <= i < all.len() implies {
            let f = #[trigger] all[i];
            f.rule < rules.len() && !rules[f.rule as int].rewrites && on_changed_lines(only, source, f)
        } by {
            if i < a.len() {
                assert(all[i] == a[i]);
                assert(rules[a[i].rule as int] == d[a[i].rule as int]);
            } else {
                assert(all[i] == b[i - a.len()]);
            }
        }
        assert forall|i: int, j: int| 0 <= i < j < all.len() implies (#[trigger] all[i]).rule <= (
        #[trigger] all[j]).rule by {
            if j < a.len() {
                assert(all[i] == a[i] && all[j] == a[j]);
            } else if i < a.len() {
                assert(all[i] == a[i] && all[j] == b[j - a.len()]);
            } else {
                assert(all[i] == b[i - a.len()] && all[j] == b[j - a.len()]);
            }
        }
    }
}

/// What a rule set flags comes rule by rule, in the order the rules stand;
/// only a rule that reports flags anything, a rule that rewrites proposing
/// edits instead; and every flag lies on the lines a run is restricted to.
pub proof fn law_flags_come_rule_by_rule_from_reporting_rules(
    rules: Seq<Applied>,
    t: Node,
    h: HierarchyView,
    only: Option<(crate::diff::Grouped, Seq<char>)>,
    source: Seq<u8>,
)
    requires
        rules.len() <= usize::MAX,
    ensures
        forall|i: int|
            0 <= i < spec_flags(rules, t, h, only, source).len() ==> {
                let f = #[trigger] spec_flags(rules, t, h, only, source)[i];
                f.rule < rules.len() && !rules[f.rule as int].rewrites && on_changed_lines(only, source, f)
            },
        forall|i: int, j: int|
            0 <= i < j < spec_flags(rules, t, h, only, source).len() ==> (#[trigger] spec_flags(rules, t, h, only, source)[i]).rule <= (
            #[trigger] spec_flags(rules, t, h, only, source)[j]).rule,
{
    lemma_flags_by_rule(rules, t, h, only, source);
}

/// A match the rule neither scopes nor constrains holds wherever it is; one
/// a rule scopes to a class, found outside any class, misses with where it
/// was found.
pub proof fn law_an_unscoped_unconstrained_match_holds_and_a_classless_one_misses_inside(
    env: Seq<(Seq<char>, CapView)>,
    scope: Seq<Seq<char>>,
    singleton: bool,
    contained: Seq<Contained>,
    rs: ScopeView,
    h: HierarchyView,
)
    ensures
        spec_verdict(
            env,
            scope,
            singleton,
            Seq::empty(),
            contained,
            Seq::empty(),
            (ScopeView { inside: None, singleton: None, subclasses: None }),
            h,
        ) == VerdictView::Holds,
        rs.inside is Some && spec_enclosing_class(scope) is None ==> spec_verdict(
            env,
            scope,
            singleton,
            Seq::empty(),
            contained,
            Seq::empty(),
            rs,
            h,
        ) == (VerdictView::Inside { wanted: rs.inside->0, found: scope }),
{
}

} // verus!
