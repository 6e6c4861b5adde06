//! Applying a rule set to one source. The rules are taken in order, from
//! where the last rewrite left off: a reporting rule flags what its walk
//! admits; a rewriting rule with admitted matches is refused where its
//! template brings in a name already local at a site, and otherwise plans
//! its edits, minimal where pattern and template line up, applies them and
//! refuses the result
//! unless it still parses, and the rules after it wait for the rewritten
//! source to be parsed again. Once parsed, each rewritten site must read as
//! the template it was written from. A source that does not parse is not
//! scanned at all. A set that moves names also gives an account of every
//! occurrence of them it left behind.

use crate::compare::{Node, Role};
use crate::engine::{shadowed, spec_shadowed, Engine};
use crate::hierarchy::{Hierarchy, HierarchyView};
use crate::rewrite::plan::{all_fit, match_fits, plan, plan_refusal, planned_from, Matched, Planned};
use crate::rewrite::{
    apply, bound_fits, can_render_template, env_fits, spec_apply, spec_verify, template_renderable, verify, Bound,
    Refusal, Span,
};
use crate::structure::{cap_view, env_view, pattern_root, spec_pattern_root, CapView, Capture};
use crate::rewrite::diff::{diff, edit_views, spec_diff};
use crate::verdict::{on_changed, on_changed_lines, only_view, placed_views, spec_walk, walk, Applied, Flag, Placed};
use vstd::prelude::*;
use crate::text::{lossy_string, string_views};
use vstd::string::StringSliceAdditionalSpecFns;

verus! {

pub open spec fn larger(a: usize, b: usize) -> usize {
    if a < b {
        b
    } else {
        a
    }
}

/// Where a node's content ends: the furthest end among the locations it
/// and everything under it carry. Past `end` only where a heredoc's body
/// follows its opening.
pub open spec fn extent_end(n: Node) -> usize
    decreases n,
{
    larger(larger(n.end, n.reach), extents_end(n.children@))
}

pub open spec fn extents_end(ks: Seq<Node>) -> usize
    decreases ks,
{
    if ks.len() == 0 {
        0
    } else {
        larger(extents_end(ks.drop_last()), extent_end(ks.last()))
    }
}

pub(crate) fn extent(n: &Node) -> (r: usize)
    ensures
        r == extent_end(*n),
    decreases *n,
{
    let own = if n.end < n.reach {
        n.reach
    } else {
        n.end
    };
    let under = extents(n.children.as_slice());
    if own < under {
        under
    } else {
        own
    }
}

fn extents(ks: &[Node]) -> (r: usize)
    ensures
        r == extents_end(ks@),
    decreases ks@,
{
    if ks.len() == 0 {
        return 0;
    }
    let last = extent(&ks[ks.len() - 1]);
    let rest = &ks[0..ks.len() - 1];
    assert(rest@ =~= ks@.drop_last());
    let before = extents(rest);
    if before < last {
        last
    } else {
        before
    }
}

/// A node's span: where it starts, where its own location ends, and where
/// its content ends.
pub open spec fn node_span(n: Node) -> Span {
    Span { start: n.start, own_end: n.end, end: extent_end(n) }
}

/// The inside of a node's delimiters, or the node itself where it has none.
pub open spec fn inner_of(n: Node) -> (usize, usize) {
    match n.delimited {
        Some(d) => d,
        None => (n.start, n.end),
    }
}

/// What a capture binds for rendering: a node's span, a run's spans, or the
/// name itself.
pub open spec fn bound_for(b: Bound, c: CapView) -> bool {
    match (b, c) {
        (Bound::One(sp), CapView::One(n)) => sp == node_span(n),
        (Bound::Many(v), CapView::Many(ns)) => v@ == ns.map_values(|n: Node| node_span(n)),
        (Bound::Name(x), CapView::Name(y)) => x@ == y,
        _ => false,
    }
}

pub open spec fn env_for(be: Seq<(String, Bound)>, ce: Seq<(Seq<char>, CapView)>) -> bool {
    &&& be.len() == ce.len()
    &&& forall|i: int| 0 <= i < be.len() ==> (#[trigger] be[i]).0@ == ce[i].0 && bound_for(be[i].1, ce[i].1)
}

/// A match as a walk placed it: its node, captures, scope and whether it is
/// in singleton context.
pub type PlacedView = (Node, Seq<(Seq<char>, CapView)>, Seq<Seq<char>>, bool);

/// The minimal edits that turn a match at `x` into the rule's template,
/// where its captures lie within the source and the pattern, template and
/// target line up.
pub open spec fn minimal_for(a: Applied, x: Node, env: Seq<(String, Bound)>, s: Seq<u8>) -> Option<
    Seq<(usize, usize, Seq<char>)>,
> {
    if !env_fits(s, env) {
        None
    } else {
        match (spec_pattern_root(a.program), a.template) {
            (Some(p), Some(tm)) => match spec_pattern_root(tm.program) {
                Some(t) => spec_diff(
                    p,
                    t,
                    x,
                    a.bindings@,
                    tm.prepared.bindings@,
                    vstd::utf8::encode_utf8(tm.prepared.source@),
                    env,
                    s,
                ),
                None => None,
            },
            _ => None,
        }
    }
}

/// A match as planning takes it: the node's span, what its captures bind,
/// the inside of its delimiters, and its minimal edits, where there are
/// some; without them the site is the template rendered over the node.
pub open spec fn matched_for(m: Matched, p: PlacedView, a: Applied, s: Seq<u8>) -> bool {
    &&& m.span == node_span(p.0)
    &&& env_for(m.env@, p.1)
    &&& m.inner == inner_of(p.0)
    &&& match m.minimal {
        Some(v) => minimal_for(a, p.0, m.env@, s) == Some(edit_views(v@)),
        None => minimal_for(a, p.0, m.env@, s) is None,
    }
}

pub open spec fn all_matched_for(ms: Seq<Matched>, ps: Seq<PlacedView>, a: Applied, s: Seq<u8>) -> bool {
    &&& ms.len() == ps.len()
    &&& forall|i: int| 0 <= i < ms.len() ==> matched_for(#[trigger] ms[i], ps[i], a, s)
}

/// Every match a rule's walk admits in a tree, in the walk's order.
pub open spec fn walk_of(a: Applied, t: Node, h: HierarchyView) -> Seq<PlacedView> {
    match spec_pattern_root(a.program) {
        Some(p) => spec_walk(p, t, a.bindings@, Seq::empty(), false, a.criteria, h),
        None => Seq::empty(),
    }
}

pub open spec fn placed_flag(k: int, p: PlacedView) -> Flag {
    Flag { rule: k as usize, start: p.0.start, end: p.0.end }
}

/// The matches among `ps` on the lines a run is restricted to, in order.
pub open spec fn kept_on_lines(
    ps: Seq<PlacedView>,
    only: Option<(crate::diff::Grouped, Seq<char>)>,
    source: Seq<u8>,
) -> Seq<PlacedView>
    decreases ps.len(),
{
    if ps.len() == 0 {
        Seq::empty()
    } else if on_changed_lines(only, source, placed_flag(0, ps.last())) {
        kept_on_lines(ps.drop_last(), only, source).push(ps.last())
    } else {
        kept_on_lines(ps.drop_last(), only, source)
    }
}

/// What rule `k` matches in a source: nothing when its literals keep the
/// source out; otherwise its walk's matches on the lines a run names.
pub open spec fn kept_at(
    e: Engine,
    k: int,
    a: Applied,
    t: Node,
    h: HierarchyView,
    only: Option<(crate::diff::Grouped, Seq<char>)>,
    source: Seq<u8>,
) -> Seq<PlacedView> {
    if e.admits_for(k, source) {
        kept_on_lines(walk_of(a, t, h), only, source)
    } else {
        Seq::empty()
    }
}

pub open spec fn reports(e: Engine, k: int) -> bool {
    e.spec_rules()[k].rewrite is None
}

/// Whether rule `k` leaves the source as it is: it reports, or it matches
/// nothing.
pub open spec fn leaves(
    e: Engine,
    k: int,
    a: Applied,
    t: Node,
    h: HierarchyView,
    only: Option<(crate::diff::Grouped, Seq<char>)>,
    source: Seq<u8>,
) -> bool {
    reports(e, k) || kept_at(e, k, a, t, h, only, source).len() == 0
}

/// What rule `k` flags: every match it keeps, when it reports.
pub open spec fn flags_at(
    e: Engine,
    k: int,
    a: Applied,
    t: Node,
    h: HierarchyView,
    only: Option<(crate::diff::Grouped, Seq<char>)>,
    source: Seq<u8>,
) -> Seq<Flag> {
    if reports(e, k) {
        kept_at(e, k, a, t, h, only, source).map_values(|p: PlacedView| placed_flag(k, p))
    } else {
        Seq::empty()
    }
}

/// What the rules from `from` up to `to` flag, rule by rule.
pub open spec fn flags_between(
    e: Engine,
    rs: Seq<Applied>,
    from: int,
    to: int,
    t: Node,
    h: HierarchyView,
    only: Option<(crate::diff::Grouped, Seq<char>)>,
    source: Seq<u8>,
) -> Seq<Flag>
    decreases to - from,
{
    if to <= from {
        Seq::empty()
    } else {
        flags_between(e, rs, from, to - 1, t, h, only, source) + flags_at(e, to - 1, rs[to - 1], t, h, only, source)
    }
}

/// Whether every rule from `from` up to `to` leaves the source as it is.
pub open spec fn all_leave(
    e: Engine,
    rs: Seq<Applied>,
    from: int,
    to: int,
    t: Node,
    h: HierarchyView,
    only: Option<(crate::diff::Grouped, Seq<char>)>,
    source: Seq<u8>,
) -> bool {
    forall|k: int| from <= k < to ==> #[trigger] leaves(e, k, rs[k], t, h, only, source)
}

/// Whether applying a plan leaves a source that does not parse, refused
/// with the parser's first message.
pub open spec fn unparseable_result(s: Seq<u8>, p: Planned, refusal: Refusal) -> bool {
    match spec_verify(vstd::utf8::encode_utf8(spec_apply(s, p.edits@))) {
        Err(m) => refusal matches Refusal::VerifyFailed { message } && message@ == m,
        Ok(()) => false,
    }
}

/// Why planning a template over matches, or what it produced, is refused:
/// the plan itself, or a result that no longer parses.
pub open spec fn refused_with(ms: Seq<Matched>, tm: &str, s: Seq<u8>, x: Refusal) -> bool {
    plan_refusal(ms, tm, s, x) || exists|p: Planned| planned_from(ms, tm, s, p) && unparseable_result(s, p, x)
}

/// Every rule from `from` on leaves the source as it is, and `flags` is
/// what they flag.
pub open spec fn settled(
    e: Engine,
    rs: Seq<Applied>,
    from: int,
    t: Node,
    h: HierarchyView,
    o: Option<(crate::diff::Grouped, Seq<char>)>,
    s: Seq<u8>,
    flags: Seq<Flag>,
) -> bool {
    all_leave(e, rs, from, rs.len() as int, t, h, o, s) && flags == flags_between(e, rs, from, rs.len() as int, t, h, o, s)
}

/// The rules from `from` up to `rule` leave the source as it is, and `rule`
/// rewrites something here.
pub open spec fn reached(
    e: Engine,
    rs: Seq<Applied>,
    from: int,
    t: Node,
    h: HierarchyView,
    o: Option<(crate::diff::Grouped, Seq<char>)>,
    s: Seq<u8>,
    rule: int,
) -> bool {
    &&& from <= rule < rs.len()
    &&& all_leave(e, rs, from, rule, t, h, o, s)
    &&& !leaves(e, rule, rs[rule], t, h, o, s)
}

/// Rule `rule` is reached, and its matches do not fit the source.
pub open spec fn misfit_at(
    e: Engine,
    rs: Seq<Applied>,
    from: int,
    t: Node,
    h: HierarchyView,
    o: Option<(crate::diff::Grouped, Seq<char>)>,
    s: Seq<u8>,
    rule: int,
) -> bool {
    &&& reached(e, rs, from, t, h, o, s, rule)
    &&& exists|ms: Seq<Matched>, tm: &str|
        {
            &&& tm@ == e.spec_rules()[rule].rewrite->Some_0@
            &&& all_matched_for(ms, kept_at(e, rule, rs[rule], t, h, o, s), rs[rule], s)
            &&& !all_fit(ms, tm.spec_bytes(), s)
        }
}

/// Rule `rule` is reached, and planning its template over its matches, or
/// what that produced, is refused.
pub open spec fn refused_at(
    e: Engine,
    rs: Seq<Applied>,
    from: int,
    t: Node,
    h: HierarchyView,
    o: Option<(crate::diff::Grouped, Seq<char>)>,
    s: Seq<u8>,
    rule: int,
    refusal: Refusal,
) -> bool {
    &&& reached(e, rs, from, t, h, o, s, rule)
    &&& exists|ms: Seq<Matched>, tm: &str|
        {
            &&& tm@ == e.spec_rules()[rule].rewrite->Some_0@
            &&& all_matched_for(ms, kept_at(e, rule, rs[rule], t, h, o, s), rs[rule], s)
            &&& all_fit(ms, tm.spec_bytes(), s)
            &&& refused_with(ms, tm, s, refusal)
        }
}

/// Rule `rule` is reached; `flags` is what the rules before it flag; its
/// template planned over its matches is `planned`, and `text` is the source
/// with those edits applied, which parses.
pub open spec fn rewrote_at(
    e: Engine,
    rs: Seq<Applied>,
    from: int,
    t: Node,
    h: HierarchyView,
    o: Option<(crate::diff::Grouped, Seq<char>)>,
    s: Seq<u8>,
    rule: int,
    flags: Seq<Flag>,
    planned: Planned,
    text: Seq<char>,
) -> bool {
    &&& reached(e, rs, from, t, h, o, s, rule)
    &&& flags == flags_between(e, rs, from, rule, t, h, o, s)
    &&& text == spec_apply(s, planned.edits@)
    &&& spec_verify(vstd::utf8::encode_utf8(text)) is Ok
    &&& exists|ms: Seq<Matched>, tm: &str|
        {
            &&& tm@ == e.spec_rules()[rule].rewrite->Some_0@
            &&& all_matched_for(ms, kept_at(e, rule, rs[rule], t, h, o, s), rs[rule], s)
            &&& all_fit(ms, tm.spec_bytes(), s)
            &&& planned_from(ms, tm, s, planned)
        }
}

/// The first of `names` that is already a local where `offset` sits.
pub open spec fn shadowing_name(
    names: Seq<Seq<char>>,
    scopes: Seq<(usize, usize, Vec<String>)>,
    offset: usize,
) -> Option<Seq<char>>
    decreases names.len(),
{
    if names.len() == 0 {
        None
    } else if spec_shadowed(scopes, offset, names[0]) {
        Some(names[0])
    } else {
        shadowing_name(names.drop_first(), scopes, offset)
    }
}

/// The first of the sites, taken in order, where one of `names` is already
/// a local, with that name.
pub open spec fn first_shadow(
    starts: Seq<usize>,
    names: Seq<Seq<char>>,
    scopes: Seq<(usize, usize, Vec<String>)>,
) -> Option<(usize, Seq<char>)>
    decreases starts.len(),
{
    if starts.len() == 0 {
        None
    } else {
        match shadowing_name(names, scopes, starts[0]) {
            Some(n) => Some((starts[0], n)),
            None => first_shadow(starts.drop_first(), names, scopes),
        }
    }
}

/// Where the matches rule `k` keeps begin, in order.
pub open spec fn kept_starts(
    e: Engine,
    k: int,
    a: Applied,
    t: Node,
    h: HierarchyView,
    o: Option<(crate::diff::Grouped, Seq<char>)>,
    s: Seq<u8>,
) -> Seq<usize> {
    kept_at(e, k, a, t, h, o, s).map_values(|p: PlacedView| p.0.start)
}

/// Where rule `k`'s template would bring in a name that is already a local
/// at one of its sites: the first such site and name.
pub open spec fn collision(
    e: Engine,
    k: int,
    a: Applied,
    t: Node,
    h: HierarchyView,
    o: Option<(crate::diff::Grouped, Seq<char>)>,
    s: Seq<u8>,
    scopes: Seq<(usize, usize, Vec<String>)>,
) -> Option<(usize, Seq<char>)> {
    first_shadow(kept_starts(e, k, a, t, h, o, s), e.spec_introduced()[k], scopes)
}

fn shadowing_name_of<'a>(names: &'a Vec<String>, scopes: &Vec<(usize, usize, Vec<String>)>, offset: usize) -> (r: Option<&'a String>)
    ensures
        opt_string_view(r) == shadowing_name(string_views(names@), scopes@, offset),
{
    let ghost nv = string_views(names@);
    let mut k: usize = 0;
    assert(nv.skip(0) =~= nv);
    while k < names.len()
        invariant
            k <= names@.len(),
            nv == string_views(names@),
            shadowing_name(nv, scopes@, offset) == shadowing_name(nv.skip(k as int), scopes@, offset),
        decreases names@.len() - k,
    {
        proof {
            assert(nv.skip(k as int).drop_first() =~= nv.skip(k + 1));
            assert(nv.skip(k as int)[0] == nv[k as int]);
        }
        if shadowed(scopes, offset, names[k].as_str()) {
            return Some(&names[k]);
        }
        k += 1;
    }
    proof {
        assert(nv.skip(k as int) =~= Seq::<Seq<char>>::empty());
    }
    None
}

pub open spec fn opt_string_view(r: Option<&String>) -> Option<Seq<char>> {
    match r {
        Some(x) => Some(x@),
        None => None,
    }
}

fn first_shadow_of(ms: &Vec<Matched>, names: &Vec<String>, scopes: &Vec<(usize, usize, Vec<String>)>) -> (r: Option<(usize, String)>)
    ensures
        match r {
            Some((at, name)) => first_shadow(ms@.map_values(|m: Matched| m.span.start), string_views(names@), scopes@) == Some((at, name@)),
            None => first_shadow(ms@.map_values(|m: Matched| m.span.start), string_views(names@), scopes@) is None,
        },
{
    let ghost st = ms@.map_values(|m: Matched| m.span.start);
    let ghost nv = string_views(names@);
    let mut i: usize = 0;
    assert(st.skip(0) =~= st);
    while i < ms.len()
        invariant
            i <= ms@.len(),
            st == ms@.map_values(|m: Matched| m.span.start),
            nv == string_views(names@),
            first_shadow(st, nv, scopes@) == first_shadow(st.skip(i as int), nv, scopes@),
        decreases ms@.len() - i,
    {
        proof {
            assert(st.skip(i as int).drop_first() =~= st.skip(i + 1));
            assert(st.skip(i as int)[0] == st[i as int]);
        }
        let at = ms[i].span.start;
        match shadowing_name_of(names, scopes, at) {
            Some(name) => {
                return Some((at, name.clone()));
            },
            None => {},
        }
        i += 1;
    }
    proof {
        assert(st.skip(i as int) =~= Seq::<usize>::empty());
    }
    None
}

/// What scanning a source from one rule on came to.
pub enum ScanOutcome {
    /// The source does not parse, or no tree of it was given.
    Unparseable,
    /// The matches of the rule at `rule` cannot be planned against this
    /// source: a span runs past its end, or a sequence the template
    /// reorders cannot be reordered there.
    Misfit { rule: usize },
    /// The rule at `rule` was refused here.
    Refused { rule: usize, refusal: Refusal },
    /// The template of the rule at `rule` brings in `name`, which is already
    /// a local variable at the site that begins at `at`: the rewrite would
    /// quietly mean something else, so it is refused.
    Shadowed { rule: usize, at: usize, name: String },
    /// Every remaining rule left the source as it is; what they flagged.
    Settled { flags: Vec<Flag> },
    /// The rule at `rule` rewrote the source to `text`, planned as `planned`;
    /// what the rules before it flagged. The rules after it see `text`.
    Rewrote { rule: usize, flags: Vec<Flag>, planned: Planned, text: String },
}

fn node_span_of(n: &Node) -> (r: Span)
    ensures
        r == node_span(*n),
{
    Span { start: n.start, own_end: n.end, end: extent(n) }
}

fn bound_from(c: &Capture) -> (r: Bound)
    ensures
        bound_for(r, cap_view(*c)),
{
    match c {
        Capture::One(n) => Bound::One(node_span_of(n)),
        Capture::Many(ns) => {
            let mut spans: Vec<Span> = Vec::new();
            let mut i: usize = 0;
            while i < ns.len()
                invariant
                    i <= ns@.len(),
                    spans@ == crate::structure::derefs(ns@).take(i as int).map_values(|n: Node| node_span(n)),
                decreases ns@.len() - i,
            {
                let sp = node_span_of(ns[i]);
                spans.push(sp);
                assert(crate::structure::derefs(ns@).take(i + 1) =~= crate::structure::derefs(ns@).take(
                    i as int,
                ).push(*ns@[i as int]));
                assert(spans@ =~= crate::structure::derefs(ns@).take(i + 1).map_values(|n: Node| node_span(n)));
                i += 1;
            }
            assert(crate::structure::derefs(ns@).take(i as int) =~= crate::structure::derefs(ns@));
            Bound::Many(spans)
        },
        Capture::Name(b) => {
            let copy = b.clone();
            assert(copy@ =~= b@);
            Bound::Name(copy)
        },
    }
}

fn matched_from(p: &Placed, a: &Applied, source: &[u8]) -> (r: Matched)
    ensures
        matched_for(
            r,
            (*p.node, env_view(p.env@), crate::text::string_views(p.scope@), p.singleton),
            *a,
            source@,
        ),
{
    let n = p.node;
    let mut env: Vec<(String, Bound)> = Vec::new();
    let mut i: usize = 0;
    while i < p.env.len()
        invariant
            i <= p.env@.len(),
            env@.len() == i,
            forall|j: int|
                0 <= j < i ==> (#[trigger] env@[j]).0@ == env_view(p.env@)[j].0 && bound_for(
                    env@[j].1,
                    env_view(p.env@)[j].1,
                ),
        decreases p.env@.len() - i,
    {
        let key = p.env[i].0.clone();
        let b = bound_from(&p.env[i].1);
        env.push((key, b));
        i += 1;
    }
    let inner = match n.delimited {
        Some(d) => d,
        None => (n.start, n.end),
    };
    let minimal = if !env_fits_here(&env, source) {
        None
    } else {
        match (pattern_root(&a.program), &a.template) {
            (Some(pr), Some(tm)) => match pattern_root(&tm.program) {
                Some(tr) => diff(pr, tr, n, &a.bindings, &tm.prepared.bindings, tm.prepared.source.as_str().as_bytes(), &env, source),
                None => None,
            },
            _ => None,
        }
    };
    Matched { span: node_span_of(n), env, inner, minimal }
}

fn env_fits_here(env: &Vec<(String, Bound)>, source: &[u8]) -> (r: bool)
    ensures
        r == env_fits(source@, env@),
{
    let mut i: usize = 0;
    while i < env.len()
        invariant
            i <= env@.len(),
            forall|j: int| #![trigger env@[j]] 0 <= j < i ==> bound_fits(source@, env@[j].1),
        decreases env@.len() - i,
    {
        if !bound_fits_here(&env[i].1, source) {
            return false;
        }
        i += 1;
    }
    true
}

fn bound_fits_here(b: &Bound, source: &[u8]) -> (r: bool)
    ensures
        r == bound_fits(source@, *b),
{
    match b {
        Bound::One(sp) => sp.start <= sp.end && sp.end <= source.len(),
        Bound::Many(v) => {
            let mut i: usize = 0;
            while i < v.len()
                invariant
                    i <= v@.len(),
                    *b == Bound::Many(*v),
                    forall|j: int| #![trigger v@[j]] 0 <= j < i ==> v@[j].start <= v@[j].end <= source@.len(),
                decreases v@.len() - i,
            {
                if !(v[i].start <= v[i].end && v[i].end <= source.len()) {
                    assert(!(v@[i as int].start <= v@[i as int].end <= source@.len()));
                    return false;
                }
                i += 1;
            }
            v.len() == 0 || v[0].start <= v[v.len() - 1].end
        },
        Bound::Name(_) => true,
    }
}

fn fits(m: &Matched, template: &str, source: &[u8]) -> (r: bool)
    ensures
        r == match_fits(*m, template.spec_bytes(), source@),
{
    if !(m.span.start <= m.span.end && m.span.end <= source.len()) {
        return false;
    }
    if !env_fits_here(&m.env, source) {
        return false;
    }
    if !can_render_template(template, &m.env, source, m.inner) {
        return false;
    }
    match &m.minimal {
        None => true,
        Some(found) => {
            let mut k: usize = 0;
            while k < found.len()
                invariant
                    k <= found@.len(),
                    m.minimal == Some(*found),
                    forall|q: int| 0 <= q < k ==> (#[trigger] found@[q]).start <= found@[q].end <= source@.len(),
                decreases found@.len() - k,
            {
                if !(found[k].start <= found[k].end && found[k].end <= source.len()) {
                    assert(!((found@[k as int]).start <= found@[k as int].end <= source@.len()));
                    assert(m.minimal matches Some(f) && !(f@[k as int].start <= f@[k as int].end <= source@.len()));
                    return false;
                }
                k += 1;
            }
            true
        },
    }
}

/// What trying a rewriting rule's matches came to.
enum Attempt {
    Misfit,
    Refused(Refusal),
    Rewrote(Planned, String),
}

/// Plan a template over the matches, apply the edits and check that the
/// result parses.
fn attempt(ms: Vec<Matched>, template: &str, source: &[u8]) -> (r: Attempt)
    ensures
        match r {
            Attempt::Misfit => !all_fit(ms@, template.spec_bytes(), source@),
            Attempt::Refused(x) => all_fit(ms@, template.spec_bytes(), source@) && refused_with(
                ms@,
                template,
                source@,
                x,
            ),
            Attempt::Rewrote(p, text) => all_fit(ms@, template.spec_bytes(), source@) && planned_from(
                ms@,
                template,
                source@,
                p,
            ) && text@ == spec_apply(source@, p.edits@) && spec_verify(vstd::utf8::encode_utf8(text@)) is Ok,
        },
{
    let mut i: usize = 0;
    while i < ms.len()
        invariant
            i <= ms@.len(),
            forall|q: int| 0 <= q < i ==> match_fits(#[trigger] ms@[q], template.spec_bytes(), source@),
        decreases ms@.len() - i,
    {
        if !fits(&ms[i], template, source) {
            return Attempt::Misfit;
        }
        i += 1;
    }
    let ghost mv = ms@;
    match plan(ms, template, source) {
        Err(x) => Attempt::Refused(x),
        Ok(planned) => {
            let text = apply(source, planned.edits.as_slice());
            let written = text.as_str();
            assert(written@ == text@);
            match verify(written) {
                Err(x) => {
                    assert(unparseable_result(source@, planned, x));
                    Attempt::Refused(x)
                },
                Ok(()) => Attempt::Rewrote(planned, text),
            }
        },
    }
}

impl Engine {
    /// The matches rule `k` keeps in a source: flagged onto `flags` when the
    /// rule reports; otherwise returned as planning takes them.
    fn matches_of(
        &self,
        k: usize,
        a: &Applied,
        t: &Node,
        source: &[u8],
        hierarchy: &Hierarchy,
        only: Option<(&crate::diff::Changed, &str)>,
        report: bool,
        flags: &mut Vec<Flag>,
    ) -> (ms: Vec<Matched>)
        requires
            k < self.filter_count(),
            source@.len() < usize::MAX,
        ensures
            report ==> final(flags)@ == old(flags)@ + kept_at(*self, k as int, *a, *t, hierarchy@, only_view(only), source@).map_values(
                |p: PlacedView| placed_flag(k as int, p),
            ) && ms@.len() == 0,
            !report ==> final(flags)@ == old(flags)@ && all_matched_for(
                ms@,
                kept_at(*self, k as int, *a, *t, hierarchy@, only_view(only), source@),
                *a,
                source@,
            ),
    {
        let ghost o = only_view(only);
        let ghost s = source@;
        let ghost before = flags@;
        let ghost kept = kept_at(*self, k as int, *a, *t, hierarchy@, o, s);
        let mut ms: Vec<Matched> = Vec::new();
        if !self.admits(k, source) {
            assert(kept =~= Seq::<PlacedView>::empty());
            assert(flags@ =~= before + kept.map_values(|p: PlacedView| placed_flag(k as int, p)));
            return ms;
        }
        let placed: Vec<Placed> = match pattern_root(&a.program) {
            Some(p) => walk(p, t, &a.bindings, &a.criteria, hierarchy),
            None => Vec::new(),
        };
        let ghost all = walk_of(*a, *t, hierarchy@);
        assert(placed_views(placed@) == all) by {
            if spec_pattern_root(a.program) is None {
                assert(placed_views(placed@) =~= Seq::<PlacedView>::empty());
            }
        };
        let mut j: usize = 0;
        assert(all.take(0) =~= Seq::<PlacedView>::empty());
        while j < placed.len()
            invariant
                j <= placed@.len(),
                placed_views(placed@) == all,
                source@.len() < usize::MAX,
                o == only_view(only),
                s == source@,
                report ==> flags@ == before + kept_on_lines(all.take(j as int), o, s).map_values(
                    |p: PlacedView| placed_flag(k as int, p),
                ),
                report ==> ms@.len() == 0,
                !report ==> flags@ == before,
                !report ==> all_matched_for(ms@, kept_on_lines(all.take(j as int), o, s), *a, s),
            decreases placed@.len() - j,
        {
            let node = placed[j].node;
            let f = Flag { rule: k, start: node.start, end: node.end };
            let ghost pv = all[j as int];
            assert(placed_views(placed@)[j as int] == pv);
            assert(placed_views(placed@)[j as int].0 == *placed@[j as int].node);
            assert(all.take(j + 1).drop_last() =~= all.take(j as int));
            assert(all.take(j + 1).last() == pv);
            let ghost prev = kept_on_lines(all.take(j as int), o, s);
            assert(on_changed_lines(o, s, placed_flag(0, pv)) == on_changed_lines(o, s, f));
            if on_changed(only, source, f) {
                if report {
                    flags.push(f);
                    assert(prev.push(pv).map_values(|p: PlacedView| placed_flag(k as int, p))
                        =~= prev.map_values(|p: PlacedView| placed_flag(k as int, p)).push(f));
                } else {
                    let m = matched_from(&placed[j], a, source);
                    let ghost ms_before = ms@;
                    ms.push(m);
                    assert(all_matched_for(ms@, prev.push(pv), *a, s)) by {
                        assert forall|i: int| 0 <= i < ms@.len() implies matched_for(
                            #[trigger] ms@[i],
                            prev.push(pv)[i],
                            *a,
                            s,
                        ) by {
                            if i < prev.len() {
                                assert(ms@[i] == ms_before[i]);
                            }
                        }
                    };
                }
            }
            j += 1;
        }
        assert(all.take(j as int) =~= all);
        ms
    }

    /// Scan a source with the rule set, from rule `from` on, given the
    /// library's tree of it and each rule as applied (its pattern parsed).
    /// A source with a parse error, or with no tree, is not scanned. Rule by
    /// rule: one whose literals keep the source out matches nothing; a
    /// reporting rule flags its matches on the lines a run names; a
    /// rewriting rule that matches there plans its template over each
    /// match, applies the edits, and the result must parse, or the rule is
    /// refused. The first rule that rewrites ends the scan. That `tree` is
    /// the parse of `source` is the caller's word.
    #[verifier::spinoff_prover]
    pub fn scan(
        &self,
        source: &[u8],
        tree: Option<&Node>,
        scopes: &Vec<(usize, usize, Vec<String>)>,
        from: usize,
        applied: &Vec<Applied>,
        hierarchy: &Hierarchy,
        only: Option<(&crate::diff::Changed, &str)>,
    ) -> (r: ScanOutcome)
        requires
            source@.len() < usize::MAX,
            applied@.len() == self.spec_rules().len(),
            self.filter_count() == self.spec_rules().len(),
            self.spec_introduced().len() == self.spec_rules().len(),
            from <= applied@.len(),
        ensures
            r is Unparseable <==> (crate::prepare::prism_first_error(source@) is Some || tree is None),
            tree matches Some(t) ==> match r {
                ScanOutcome::Unparseable => true,
                ScanOutcome::Settled { flags } => settled(
                    *self,
                    applied@,
                    from as int,
                    *t,
                    hierarchy@,
                    only_view(only),
                    source@,
                    flags@,
                ),
                ScanOutcome::Misfit { rule } => misfit_at(
                    *self,
                    applied@,
                    from as int,
                    *t,
                    hierarchy@,
                    only_view(only),
                    source@,
                    rule as int,
                ) && collision(*self, rule as int, applied@[rule as int], *t, hierarchy@, only_view(only), source@, scopes@) is None,
                ScanOutcome::Shadowed { rule, at, name } => reached(
                    *self,
                    applied@,
                    from as int,
                    *t,
                    hierarchy@,
                    only_view(only),
                    source@,
                    rule as int,
                ) && collision(*self, rule as int, applied@[rule as int], *t, hierarchy@, only_view(only), source@, scopes@)
                    == Some((at, name@)),
                ScanOutcome::Refused { rule, refusal } => refused_at(
                    *self,
                    applied@,
                    from as int,
                    *t,
                    hierarchy@,
                    only_view(only),
                    source@,
                    rule as int,
                    refusal,
                ) && collision(*self, rule as int, applied@[rule as int], *t, hierarchy@, only_view(only), source@, scopes@) is None,
                ScanOutcome::Rewrote { rule, flags, planned, text } => rewrote_at(
                    *self,
                    applied@,
                    from as int,
                    *t,
                    hierarchy@,
                    only_view(only),
                    source@,
                    rule as int,
                    flags@,
                    planned,
                    text@,
                ) && collision(*self, rule as int, applied@[rule as int], *t, hierarchy@, only_view(only), source@, scopes@) is None,
            },
    {
        if crate::prepare::first_parse_error(source).is_some() {
            return ScanOutcome::Unparseable;
        }
        let t = match tree {
            Some(t) => t,
            None => return ScanOutcome::Unparseable,
        };
        let ghost o = only_view(only);
        let ghost e = *self;
        let ghost h = hierarchy@;
        let ghost s = source@;
        let rules = self.rules();
        let mut flags: Vec<Flag> = Vec::new();
        let mut k: usize = from;
        while k < applied.len()
            invariant
                from <= k <= applied@.len(),
                applied@.len() == self.spec_rules().len() == rules@.len(),
                rules@ == self.spec_rules(),
                self.filter_count() == self.spec_rules().len(),
                self.spec_introduced().len() == self.spec_rules().len(),
                source@.len() < usize::MAX,
                o == only_view(only),
                e == *self,
                h == hierarchy@,
                s == source@,
                crate::prepare::prism_first_error(source@) is None,
                tree == Some(t),
                all_leave(e, applied@, from as int, k as int, *t, h, o, s),
                flags@ == flags_between(e, applied@, from as int, k as int, *t, h, o, s),
            decreases applied@.len() - k,
        {
            let ghost before = flags@;
            let a = &applied[k];
            let ghost kept = kept_at(e, k as int, *a, *t, h, o, s);
            let report = rules[k].rewrite.is_none();
            assert(applied@[k as int] == *a);
            assert(reports(e, k as int) == report);
            let ms = self.matches_of(k, a, t, source, hierarchy, only, report, &mut flags);
            if report || ms.len() == 0 {
                assert(leaves(e, k as int, *a, *t, h, o, s));
                assert(flags@ == before + flags_at(e, k as int, *a, *t, h, o, s));
                k += 1;
                assert(all_leave(e, applied@, from as int, k as int, *t, h, o, s)) by {
                    assert forall|i: int| from <= i < k implies #[trigger] leaves(e, i, applied@[i], *t, h, o, s) by {
                        if i < k - 1 {
                            assert(leaves(e, i, applied@[i], *t, h, o, s));
                        }
                    }
                };
                continue;
            }
            assert(!leaves(e, k as int, *a, *t, h, o, s));
            let template = match &rules[k].rewrite {
                Some(x) => x.as_str(),
                None => {
                    assert(false);
                    return ScanOutcome::Settled { flags };
                },
            };
            assert(template@ == self.spec_rules()[k as int].rewrite->Some_0@);
            proof {
                assert(ms@.map_values(|m: Matched| m.span.start) =~= kept_starts(e, k as int, *a, *t, h, o, s)) by {
                    assert forall|i: int| 0 <= i < ms@.len() implies ms@[i].span.start == kept[i].0.start by {
                        assert(matched_for(ms@[i], kept[i], *a, s));
                    }
                };
            }
            match first_shadow_of(&ms, self.introduced(k), scopes) {
                Some((at, name)) => {
                    return ScanOutcome::Shadowed { rule: k, at, name };
                },
                None => {},
            }
            let ghost mv = ms@;
            match attempt(ms, template, source) {
                Attempt::Misfit => {
                    assert(all_matched_for(mv, kept_at(e, k as int, applied@[k as int], *t, h, o, s), applied@[k as int], s));
                    assert(misfit_at(e, applied@, from as int, *t, h, o, s, k as int));
                    return ScanOutcome::Misfit { rule: k };
                },
                Attempt::Refused(x) => {
                    assert(all_matched_for(mv, kept_at(e, k as int, applied@[k as int], *t, h, o, s), applied@[k as int], s));
                    assert(refused_with(mv, template, s, x));
                    assert(refused_at(e, applied@, from as int, *t, h, o, s, k as int, x));
                    return ScanOutcome::Refused { rule: k, refusal: x };
                },
                Attempt::Rewrote(planned, text) => {
                    assert(all_matched_for(mv, kept_at(e, k as int, applied@[k as int], *t, h, o, s), applied@[k as int], s));
                    assert(exists|ms: Seq<Matched>, tm: &str|
                        {
                            &&& tm@ == e.spec_rules()[k as int].rewrite->Some_0@
                            &&& all_matched_for(ms, kept_at(e, k as int, applied@[k as int], *t, h, o, s), applied@[k as int], s)
                            &&& all_fit(ms, tm.spec_bytes(), s)
                            &&& planned_from(ms, tm, s, planned)
                        });
                    assert(rewrote_at(e, applied@, from as int, *t, h, o, s, k as int, flags@, planned, text@));
                    return ScanOutcome::Rewrote { rule: k, flags, planned, text };
                },
            }
        }
        assert(settled(e, applied@, from as int, *t, h, o, s, flags@));
        ScanOutcome::Settled { flags }
    }
}

/// Whatever a scan rewrites is the source with its planned edits applied,
/// those edits in order and apart within the source, and the result parses:
/// a rewrite that would not is refused instead.
pub proof fn law_a_rewrite_is_its_edits_applied_and_parses(
    e: Engine,
    rs: Seq<Applied>,
    from: int,
    t: Node,
    h: HierarchyView,
    o: Option<(crate::diff::Grouped, Seq<char>)>,
    s: Seq<u8>,
    rule: int,
    flags: Seq<Flag>,
    planned: Planned,
    text: Seq<char>,
)
    requires
        rewrote_at(e, rs, from, t, h, o, s, rule, flags, planned, text),
    ensures
        text == spec_apply(s, planned.edits@),
        crate::rewrite::ordered_edits(planned.edits@, s.len() as int),
        spec_verify(vstd::utf8::encode_utf8(text)) is Ok,
        !leaves(e, rule, rs[rule], t, h, o, s),
{
    let (ms, tm) = choose|ms: Seq<Matched>, tm: &str|
        {
            &&& tm@ == e.spec_rules()[rule].rewrite->Some_0@
            &&& all_matched_for(ms, kept_at(e, rule, rs[rule], t, h, o, s), rs[rule], s)
            &&& all_fit(ms, tm.spec_bytes(), s)
            &&& planned_from(ms, tm, s, planned)
        };
    assert(planned_from(ms, tm, s, planned));
}

/// Whether every anchor is short enough to search for.
pub open spec fn searchable(an: Seq<Seq<u8>>) -> bool {
    forall|k: int| 0 <= k < an.len() ==> (#[trigger] an[k]).len() < usize::MAX / 2
}

/// What rule `k` leaves unaccounted for in a source's tree: nothing when
/// its pattern is anchored on no name; otherwise every occurrence of its
/// anchors, kept to the class the rule names where it names one.
pub open spec fn residue_of(
    e: Engine,
    k: int,
    a: Applied,
    t: Node,
    h: HierarchyView,
    s: Seq<u8>,
) -> Seq<crate::residue::OccurrenceView> {
    match spec_pattern_root(a.program) {
        None => Seq::empty(),
        Some(p) => {
            let an = crate::residue::spec_anchors(p, e.spec_prepareds()[k].bindings@);
            if an.len() == 0 || !searchable(an) {
                Seq::empty()
            } else {
                let found = crate::residue::spec_find(t, an, Seq::empty(), s);
                match crate::rule::spec_class_anchor(e.spec_rules()[k].view()) {
                    Some(c) => crate::residue::spec_scoped_to(h, found, c),
                    None => found,
                }
            }
        },
    }
}

pub open spec fn residue_upto(
    e: Engine,
    rs: Seq<Applied>,
    t: Node,
    h: HierarchyView,
    s: Seq<u8>,
    n: int,
) -> Seq<crate::residue::OccurrenceView>
    decreases n,
{
    if n <= 0 {
        Seq::empty()
    } else {
        residue_upto(e, rs, t, h, s, n - 1) + residue_of(e, n - 1, rs[n - 1], t, h, s)
    }
}

impl Engine {
    /// What a rule set that moves names leaves unaccounted for in a source,
    /// given the library's tree of it: rule by rule, every occurrence of the
    /// names its pattern is anchored on, kept to the class it names. Nothing
    /// for a set that moves no name.
    pub fn residue(
        &self,
        source: &[u8],
        tree: &Node,
        applied: &Vec<Applied>,
        hierarchy: &Hierarchy,
    ) -> (r: Vec<crate::residue::Occurrence>)
        requires
            source@.len() < usize::MAX / 2,
            applied@.len() == self.spec_rules().len(),
            self.spec_prepareds().len() == self.spec_rules().len(),
        ensures
            crate::residue::occurrence_views(r@) == if self.spec_claims() {
                residue_upto(*self, applied@, *tree, hierarchy@, source@, applied@.len() as int)
            } else {
                Seq::empty()
            },
    {
        let mut out: Vec<crate::residue::Occurrence> = Vec::new();
        if !self.claims_completeness() {
            assert(crate::residue::occurrence_views(out@) =~= Seq::<crate::residue::OccurrenceView>::empty());
            return out;
        }
        let pairs = self.prepared();
        let mut k: usize = 0;
        assert(crate::residue::occurrence_views(out@) =~= Seq::<crate::residue::OccurrenceView>::empty());
        while k < applied.len()
            invariant
                k <= applied@.len() == self.spec_rules().len() == pairs@.len(),
                self.spec_prepareds().len() == self.spec_rules().len(),
                source@.len() < usize::MAX / 2,
                forall|j: int|
                    0 <= j < pairs@.len() ==> (#[trigger] pairs@[j]).0 == self.spec_rules()[j] && pairs@[j].1
                        == self.spec_prepareds()[j],
                crate::residue::occurrence_views(out@) == residue_upto(
                    *self,
                    applied@,
                    *tree,
                    hierarchy@,
                    source@,
                    k as int,
                ),
            decreases applied@.len() - k,
        {
            let ghost before = crate::residue::occurrence_views(out@);
            let a = &applied[k];
            let (rule, prepared) = pairs[k];
            let mut found: Vec<crate::residue::Occurrence> = Vec::new();
            match pattern_root(&a.program) {
                None => {},
                Some(p) => {
                    let an = crate::residue::anchors(p, prepared);
                    let mut fits = true;
                    let mut q: usize = 0;
                    while q < an.len()
                        invariant
                            q <= an@.len(),
                            fits == forall|j: int| 0 <= j < q ==> (#[trigger] an@[j])@.len() < usize::MAX / 2,
                        decreases an@.len() - q,
                    {
                        if an[q].len() >= usize::MAX / 2 {
                            fits = false;
                        }
                        q += 1;
                    }
                    proof {
                        let bv = crate::residue::byte_views(an@);
                        assert(bv.len() == an@.len());
                        if fits {
                            assert forall|j: int| 0 <= j < bv.len() implies (#[trigger] bv[j]).len() < usize::MAX / 2 by {
                                assert(bv[j] == an@[j]@);
                            }
                        } else {
                            let j = choose|j: int| 0 <= j < q && !((#[trigger] an@[j])@.len() < usize::MAX / 2);
                            assert(bv[j] == an@[j]@);
                        }
                    }
                    assert(fits == searchable(crate::residue::byte_views(an@)));
                    if an.len() > 0 && fits {
                        let all = crate::residue::find(tree, &an, &Vec::new(), source);
                        found = match rule.class_anchor() {
                            Some(class) => crate::residue::scoped_to(all, class.as_str(), hierarchy),
                            None => all,
                        };
                    }
                },
            }
            assert(crate::residue::occurrence_views(found@) == residue_of(*self, k as int, *a, *tree, hierarchy@, source@));
            let ghost fv = crate::residue::occurrence_views(found@);
            out.append(&mut found);
            assert(crate::residue::occurrence_views(out@) =~= before + fv);
            assert(applied@[k as int] == *a);
            k += 1;
        }
        out
    }
}

/// The node exactly covering `from..to` in a tree, the outermost first, in
/// the order a last-in-first-out walk meets them.
pub open spec fn node_at(n: Node, from: int, to: int) -> Option<Node>
    decreases n,
{
    if n.start == from && extent_end(n) == to {
        Some(n)
    } else {
        node_at_all(n.children@, from, to)
    }
}

pub open spec fn node_at_all(ks: Seq<Node>, from: int, to: int) -> Option<Node>
    decreases ks,
{
    if ks.len() == 0 {
        None
    } else {
        match node_at(ks.last(), from, to) {
            Some(x) => Some(x),
            None => node_at_all(ks.drop_last(), from, to),
        }
    }
}

/// Whether the template matches a node as a whole.
pub open spec fn whole_match(root: Node, node: Node, bs: Seq<(String, crate::prepare::Binding)>, from: int, to: int) -> bool {
    exists|i: int|
        0 <= i < crate::structure::spec_search(root, node, bs).len() && (
        #[trigger] crate::structure::spec_search(root, node, bs)[i]).0.start == from && extent_end(
            crate::structure::spec_search(root, node, bs)[i].0,
        ) == to
}

/// Whether the site at `span` in the source before the edits reads, in the
/// rewritten tree, as the template: its shifted span names no node, or the
/// template matches the node there as a whole.
pub open spec fn site_reads(
    span: (usize, usize),
    edits: Seq<crate::rewrite::Edit>,
    tree: Node,
    root: Node,
    bs: Seq<(String, crate::prepare::Binding)>,
) -> bool {
    let from = crate::rewrite::spec_shifted(edits, span.0 as int);
    let to = crate::rewrite::spec_shifted(edits, span.1 as int);
    from > usize::MAX || to > usize::MAX || match node_at(tree, from, to) {
        None => true,
        Some(nd) => whole_match(root, nd, bs, from, to),
    }
}

/// The first site among `matched` that does not read as the template.
pub open spec fn first_misread(
    matched: Seq<(usize, usize)>,
    edits: Seq<crate::rewrite::Edit>,
    tree: Node,
    root: Node,
    bs: Seq<(String, crate::prepare::Binding)>,
    k: int,
) -> Option<int>
    decreases matched.len() - k,
{
    if k < 0 || k >= matched.len() {
        None
    } else if !site_reads(matched[k], edits, tree, root, bs) {
        Some(k)
    } else {
        first_misread(matched, edits, tree, root, bs, k + 1)
    }
}

/// Whether the template is one whose output can be checked: it writes
/// something, and each of its metavariables stands for one node.
pub open spec fn checkable(template: Seq<char>) -> bool {
    &&& !crate::rewrite::plan::deletes(template)
    &&& forall|k: int|
        0 <= k < crate::metavar::spec_scan(vstd::utf8::encode_utf8(template)).len() ==> (#[trigger] crate::metavar::spec_scan(
            vstd::utf8::encode_utf8(template),
        )[k]).arity == crate::metavar::Arity::One
}

fn node_at_of(n: &Node, from: usize, to: usize) -> (r: Option<&Node>)
    ensures
        match r {
            Some(x) => node_at(*n, from as int, to as int) == Some(*x),
            None => node_at(*n, from as int, to as int) is None,
        },
    decreases *n,
{
    if n.start == from && extent(n) == to {
        return Some(n);
    }
    node_at_all_of(n.children.as_slice(), from, to)
}

fn node_at_all_of(ks: &[Node], from: usize, to: usize) -> (r: Option<&Node>)
    ensures
        match r {
            Some(x) => node_at_all(ks@, from as int, to as int) == Some(*x),
            None => node_at_all(ks@, from as int, to as int) is None,
        },
    decreases ks@,
{
    if ks.len() == 0 {
        return None;
    }
    match node_at_of(&ks[ks.len() - 1], from, to) {
        Some(x) => Some(x),
        None => {
            let rest = &ks[0..ks.len() - 1];
            assert(rest@ =~= ks@.drop_last());
            node_at_all_of(rest, from, to)
        },
    }
}

fn reads_as(root: &Node, nd: &Node, bs: &Vec<(String, crate::prepare::Binding)>, from: usize, to: usize) -> (r: bool)
    ensures
        r == whole_match(*root, *nd, bs@, from as int, to as int),
{
    let found = crate::structure::search(root, nd, bs);
    let ghost fs = crate::structure::spec_search(*root, *nd, bs@);
    let mut i: usize = 0;
    while i < found.len()
        invariant
            i <= found@.len(),
            crate::structure::found_views(found@) == fs,
            fs == crate::structure::spec_search(*root, *nd, bs@),
            forall|j: int| 0 <= j < i ==> !((#[trigger] fs[j]).0.start == from && extent_end(fs[j].0) == to),
        decreases found@.len() - i,
    {
        let m = found[i].0;
        assert(fs[i as int].0 == *m);
        if m.start == from && extent(m) == to {
            return true;
        }
        i += 1;
    }
    false
}

/// Check that each rewritten site reads as the template it was written
/// from: the node at its shifted span, in the tree of the rewritten source,
/// is matched by the template as a whole. A refusal names the first site
/// that does not, with the text found there and the template, both trimmed.
/// A deletion, a template with a sequence metavariable, and a template with
/// no single root are not checked. That `tree` is the parse of `rewritten`
/// is the caller's word.
pub fn check_template(
    rewritten: &[u8],
    tree: &Node,
    matched: &Vec<(usize, usize)>,
    edits: &Vec<crate::rewrite::Edit>,
    template: &str,
    parsed: &crate::verdict::Template,
) -> (r: Result<(), Refusal>)
    requires
        edits@.len() < 0x4000_0000_0000_0000,
        forall|k: int| 0 <= k < edits@.len() ==> (#[trigger] edits@[k]).start <= edits@[k].end,
    ensures
        match (checkable(template@), spec_pattern_root(parsed.program)) {
            (true, Some(root)) => match first_misread(matched@, edits@, *tree, root, parsed.prepared.bindings@, 0) {
                None => r is Ok,
                Some(k) => {
                    let from = crate::rewrite::spec_shifted(edits@, matched@[k].0 as int);
                    let to = crate::rewrite::spec_shifted(edits@, matched@[k].1 as int);
                    r matches Err(Refusal::TemplateMismatch { text, template: t }) && t@ == crate::text::spec_trim(
                        template@,
                    ) && text@ == crate::text::spec_trim(
                        if from <= to <= rewritten@.len() {
                            lossy_chars_of(rewritten@.subrange(from, to))
                        } else {
                            Seq::empty()
                        },
                    )
                },
            },
            _ => r is Ok,
        },
{
    let trimmed = crate::text::trim(template);
    if trimmed.unicode_len() == 0 {
        return Ok(());
    }
    let vars = crate::metavar::scan(template);
    let mut v: usize = 0;
    while v < vars.len()
        invariant
            v <= vars@.len() == crate::metavar::spec_scan(template.spec_bytes()).len(),
            forall|j: int| 0 <= j < vars@.len() ==> #[trigger] vars@[j].is(crate::metavar::spec_scan(template.spec_bytes())[j]),
            forall|j: int| 0 <= j < v ==> (#[trigger] crate::metavar::spec_scan(template.spec_bytes())[j]).arity == crate::metavar::Arity::One,
        decreases vars@.len() - v,
    {
        assert(vars@[v as int].is(crate::metavar::spec_scan(template.spec_bytes())[v as int]));
        if vars[v].arity != crate::metavar::Arity::One {
            return Ok(());
        }
        v += 1;
    }
    assert(checkable(template@));
    let root = match pattern_root(&parsed.program) {
        Some(r) => r,
        None => {
            return Ok(());
        },
    };
    let bs = &parsed.prepared.bindings;
    let mut k: usize = 0;
    while k < matched.len()
        invariant
            k <= matched@.len(),
            edits@.len() < 0x4000_0000_0000_0000,
            forall|q: int| 0 <= q < edits@.len() ==> (#[trigger] edits@[q]).start <= edits@[q].end,
            first_misread(matched@, edits@, *tree, *root, bs@, 0) == first_misread(matched@, edits@, *tree, *root, bs@, k as int),
            checkable(template@),
            spec_pattern_root(parsed.program) == Some(*root),
            bs == &parsed.prepared.bindings,
            trimmed@ == crate::text::spec_trim(template@),
        decreases matched@.len() - k,
    {
        let (start, end) = matched[k];
        let from = shifted_checked_of(edits, start);
        let to = shifted_checked_of(edits, end);
        match (from, to) {
            (Some(from), Some(to)) => match node_at_of(tree, from, to) {
                None => {},
                Some(nd) => {
                    if !reads_as(root, nd, bs, from, to) {
                        assert(matched@[k as int] == (start, end));
                        assert(!site_reads(matched@[k as int], edits@, *tree, *root, bs@));
                        assert(first_misread(matched@, edits@, *tree, *root, bs@, k as int) == Some(k as int));
                        let text: String = if from <= to && to <= rewritten.len() {
                            let part = &rewritten[from..to];
                            assert(part@ =~= rewritten@.subrange(from as int, to as int));
                            lossy_string(part)
                        } else {
                            String::new()
                        };
                        let text = crate::text::owned(crate::text::trim(text.as_str()));
                        return Err(Refusal::TemplateMismatch { text, template: crate::text::owned(trimmed) });
                    }
                },
            },
            _ => {},
        }
        k += 1;
    }
    Ok(())
}

pub open spec fn lossy_chars_of(b: Seq<u8>) -> Seq<char> {
    crate::text::lossy_chars(b)
}

fn shifted_checked_of(edits: &Vec<crate::rewrite::Edit>, offset: usize) -> (r: Option<usize>)
    requires
        edits@.len() < 0x4000_0000_0000_0000,
        forall|k: int| 0 <= k < edits@.len() ==> (#[trigger] edits@[k]).start <= edits@[k].end,
    ensures
        match r {
            Some(x) => x == crate::rewrite::spec_shifted(edits@, offset as int),
            None => crate::rewrite::spec_shifted(edits@, offset as int) > usize::MAX,
        },
{
    crate::rewrite::shifted_checked(edits.as_slice(), offset)
}

} // verus!
