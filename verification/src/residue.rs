//! The account of what a name-anchored rule could not see: every remaining
//! occurrence of the identifier the structural match did not account for,
//! classified by syntactic context.
//!
//! What a rule is anchored on is read off its pattern; the occurrences are
//! found by walking the parsed file; and what is decided here besides is how
//! mentions inside a literal are found, which class a scope stack names, and
//! which occurrences a class-anchored report keeps.

use crate::compare::{Node, Role};
use crate::matcher::{enclosing_class, named_scopes, singleton_marker, spec_enclosing_class};
use crate::source::{bounded_from, identifier_offsets, offsets_view};
use crate::hierarchy::{spec_contributes, spec_descends, Hierarchy, HierarchyView};
use crate::text::{clone_strings, lossy_chars, opt_view, owned, spec_join, str_eq, string_views};
use vstd::prelude::*;
use vstd::string::StringSliceAdditionalSpecFns;

verus! {

/// Where an unaccounted-for occurrence of the anchor turned up.
#[derive(Debug, Clone, Copy, PartialEq, Eq, Structural)]
pub enum Context {
    /// `:foo`, the commonest way a name reaches metaprogramming.
    Symbol,
    /// A string that is the name, which is how a name most often reaches
    /// `send`.
    String,
    /// The name inside a longer string: a message, a log line. Reported,
    /// never rewritten.
    Prose,
    /// A call by that name the rule did not match.
    Call,
    /// A definition of that name.
    Definition,
    /// The name in a comment. Reported, never rewritten.
    Comment,
    /// A dispatch whose method name is computed.
    Dynamic,
    /// Found by text search in a file that cannot be parsed.
    Text,
}

/// One occurrence the rule did not account for.
#[derive(Debug, Clone)]
pub struct Occurrence {
    pub context: Context,
    pub byte_start: usize,
    pub byte_end: usize,
    /// Enclosing class and module names, outermost first.
    pub scope: Vec<String>,
    /// Whether this is a call with no explicit receiver.
    pub implicit: bool,
    /// The call this occurrence is an argument to, if any.
    pub via: Option<String>,
}

/// An occurrence as plain values.
pub struct OccurrenceView {
    pub context: Context,
    pub byte_start: int,
    pub byte_end: int,
    pub scope: Seq<Seq<char>>,
    pub implicit: bool,
    pub via: Option<Seq<char>>,
}

impl Occurrence {
    pub open spec fn view(&self) -> OccurrenceView {
        OccurrenceView {
            context: self.context,
            byte_start: self.byte_start as int,
            byte_end: self.byte_end as int,
            scope: string_views(self.scope@),
            implicit: self.implicit,
            via: opt_view(self.via),
        }
    }

    /// A copy of this occurrence.
    pub fn duplicate(&self) -> (r: Occurrence)
        ensures
            r.view() == self.view(),
    {
        Occurrence {
            context: self.context,
            byte_start: self.byte_start,
            byte_end: self.byte_end,
            scope: clone_strings(&self.scope),
            implicit: self.implicit,
            via: crate::text::clone_opt(&self.via),
        }
    }
}

pub open spec fn occurrence_views(v: Seq<Occurrence>) -> Seq<OccurrenceView> {
    v.map_values(|o: Occurrence| o.view())
}

/// Every class a scope stack names, outermost first and fully qualified:
/// `[App, Helpers, Numeric]` names `App`, `App::Helpers` and
/// `App::Helpers::Numeric`.
pub open spec fn spec_enclosing_classes(scope: Seq<Seq<char>>) -> Seq<Seq<char>>
    decreases scope.len(),
{
    if scope.len() == 0 {
        Seq::empty()
    } else {
        match spec_enclosing_class(scope) {
            Some(c) => spec_enclosing_classes(scope.drop_last()).push(c),
            None => spec_enclosing_classes(scope.drop_last()),
        }
    }
}

/// Every class a scope stack names, outermost first and fully qualified.
pub fn enclosing_classes(scope: &Vec<String>) -> (r: Vec<String>)
    ensures
        string_views(r@) == spec_enclosing_classes(string_views(scope@)),
{
    let ghost sv = string_views(scope@);
    let mut out: Vec<String> = Vec::new();
    let mut prefix: Vec<String> = Vec::new();
    let mut k: usize = 0;
    while k < scope.len()
        invariant
            k <= scope@.len(),
            sv == string_views(scope@),
            string_views(prefix@) == sv.take(k as int),
            string_views(out@) == spec_enclosing_classes(sv.take(k as int)),
        decreases scope@.len() - k,
    {
        let ghost before = string_views(prefix@);
        prefix.push(owned(scope[k].as_str()));
        proof {
            assert(string_views(prefix@) =~= before.push(sv[k as int]));
            assert(sv.take(k + 1) =~= sv.take(k as int).push(sv[k as int]));
            assert(sv.take(k + 1).drop_last() =~= sv.take(k as int));
        }
        match enclosing_class(&prefix) {
            Some(c) => {
                let ghost was = string_views(out@);
                out.push(c);
                proof {
                    assert(string_views(out@) =~= was.push(out@[out@.len() - 1]@));
                }
            },
            None => {},
        }
        k += 1;
    }
    proof {
        assert(sv.take(scope@.len() as int) =~= sv);
    }
    out
}

/// The class an implicit-self call in this scope dispatches on: inside a
/// `class << self` body the marker itself, which names no class; elsewhere
/// the enclosing class.
pub open spec fn spec_implicit_receiver(scope: Seq<Seq<char>>) -> Option<Seq<char>> {
    if scope.len() > 0 && scope.last() == singleton_marker() {
        Some(scope.last())
    } else {
        spec_enclosing_class(scope)
    }
}

/// The class an implicit-self call in this scope dispatches on, qualified.
pub fn implicit_receiver(scope: &Vec<String>) -> (r: Option<String>)
    ensures
        opt_view(r) == spec_implicit_receiver(string_views(scope@)),
{
    let n = scope.len();
    if n > 0 && str_eq(scope[n - 1].as_str(), "<<self") {
        proof {
            assert(string_views(scope@).last() == scope@[n - 1]@);
        }
        return Some(owned(scope[n - 1].as_str()));
    }
    proof {
        if n > 0 {
            assert(string_views(scope@).last() == scope@[n - 1]@);
        }
    }
    enclosing_class(scope)
}

/// A byte that makes an identifier one segment of a qualified name: `.`,
/// `/` or `:`.
pub open spec fn qualifier(b: u8) -> bool {
    b == 46 || b == 47 || b == 58
}

/// Whether the identifier at `at` stands alone rather than as one segment of
/// a qualified name such as an i18n key or a path.
pub open spec fn spec_standalone(text: Seq<u8>, at: int, len: int) -> bool {
    !(at >= 1 && at - 1 < text.len() && qualifier(text[at - 1])) && !(0 <= at + len < text.len()
        && qualifier(text[at + len]))
}

/// Whether an identifier inside a string is a mention of a name, rather than
/// one segment of a qualified one: `t("accounts.display_name")` is a key and
/// `"admin/display_name"` a path, not prose naming the method.
pub fn standalone(text: &[u8], at: usize, len: usize) -> (r: bool)
    ensures
        r == spec_standalone(text@, at as int, len as int),
{
    let before = if at >= 1 && at - 1 < text.len() {
        let b = text[at - 1];
        b == 46 || b == 47 || b == 58
    } else {
        false
    };
    let after = if at < text.len() && len < text.len() - at {
        let b = text[at + len];
        b == 46 || b == 47 || b == 58
    } else {
        false
    };
    !before && !after
}

/// Whether `name` is one of a pattern's placeholders rather than a name.
pub open spec fn spec_is_placeholder_text(name: Seq<u8>, keys: Seq<Seq<char>>) -> bool {
    vstd::utf8::valid_utf8(name) && exists|i: int|
        0 <= i < keys.len() && #[trigger] keys[i] == vstd::utf8::decode_utf8(name)
}

/// Whether a name is one of the pattern's placeholders rather than a name.
pub fn is_placeholder_text(name: &[u8], prepared: &crate::prepare::Prepared) -> (r: bool)
    ensures
        r == spec_is_placeholder_text(name@, crate::prefilter::binding_keys(prepared.bindings@)),
{
    let ghost keys = crate::prefilter::binding_keys(prepared.bindings@);
    let mut k: usize = 0;
    while k < prepared.bindings.len()
        invariant
            k <= prepared.bindings@.len(),
            keys == crate::prefilter::binding_keys(prepared.bindings@),
            forall|j: int| 0 <= j < k ==> vstd::utf8::encode_utf8(#[trigger] keys[j]) != name@,
        decreases prepared.bindings@.len() - k,
    {
        let key = prepared.bindings[k].0.as_str();
        let same = crate::text::bytes_eq(key.as_bytes(), name);
        if same {
            proof {
                vstd::utf8::encode_utf8_valid_utf8(key@);
                vstd::utf8::encode_utf8_decode_utf8(key@);
                assert(keys[k as int] == key@);
            }
            return true;
        }
        proof {
            assert(keys[k as int] == key@);
            assert(key.spec_bytes() == vstd::utf8::encode_utf8(key@));
        }
        k += 1;
    }
    proof {
        if vstd::utf8::valid_utf8(name@) {
            assert forall|i: int| 0 <= i < keys.len() implies #[trigger] keys[i] != vstd::utf8::decode_utf8(name@) by {
                if keys[i] == vstd::utf8::decode_utf8(name@) {
                    vstd::utf8::decode_utf8_encode_utf8(name@);
                }
            }
        }
    }
    false
}

/// Whether `at` falls in one of the matched spans.
pub open spec fn in_matched(matched: Seq<(usize, usize)>, at: int) -> bool {
    exists|k: int| 0 <= k < matched.len() && (#[trigger] matched[k]).0 <= at < matched[k].1
}

/// The offsets among `offs` that are mentions: outside every matched span
/// once moved by `from`, and standing alone in `text`.
pub open spec fn kept_offsets(
    text: Seq<u8>,
    from: int,
    len: int,
    matched: Seq<(usize, usize)>,
    offs: Seq<int>,
) -> Seq<int>
    decreases offs.len(),
{
    if offs.len() == 0 {
        Seq::empty()
    } else {
        let at = offs.last();
        let rest = kept_offsets(text, from, len, matched, offs.drop_last());
        if !in_matched(matched, from + at) && spec_standalone(text, at, len) {
            rest.push(at)
        } else {
            rest
        }
    }
}

/// The prose mentions of one anchor in a literal's text, as occurrences.
pub open spec fn anchor_mentions(
    text: Seq<u8>,
    from: int,
    anchor: Seq<u8>,
    matched: Seq<(usize, usize)>,
    scope: Seq<Seq<char>>,
) -> Seq<OccurrenceView> {
    kept_offsets(text, from, anchor.len() as int, matched, bounded_from(text, anchor, 0)).map_values(
        |at: int|
            OccurrenceView {
                context: Context::Prose,
                byte_start: from + at,
                byte_end: from + at + anchor.len(),
                scope,
                implicit: false,
                via: None,
            },
    )
}

/// The prose mentions of the first `k` anchors, anchor by anchor.
pub open spec fn mentions_upto(
    text: Seq<u8>,
    from: int,
    anchors: Seq<Seq<u8>>,
    matched: Seq<(usize, usize)>,
    scope: Seq<Seq<char>>,
    k: int,
) -> Seq<OccurrenceView>
    decreases k,
{
    if k <= 0 {
        Seq::empty()
    } else {
        mentions_upto(text, from, anchors, matched, scope, k - 1) + anchor_mentions(
            text,
            from,
            anchors[k - 1],
            matched,
            scope,
        )
    }
}

proof fn lemma_kept_offsets(text: Seq<u8>, from: int, len: int, matched: Seq<(usize, usize)>, offs: Seq<int>)
    ensures
        forall|j: int|
            0 <= j < kept_offsets(text, from, len, matched, offs).len() ==> {
                let at = #[trigger] kept_offsets(text, from, len, matched, offs)[j];
                &&& offs.contains(at)
                &&& !in_matched(matched, from + at)
                &&& spec_standalone(text, at, len)
            },
    decreases offs.len(),
{
    if offs.len() > 0 {
        let rest = kept_offsets(text, from, len, matched, offs.drop_last());
        lemma_kept_offsets(text, from, len, matched, offs.drop_last());
        assert forall|j: int| 0 <= j < kept_offsets(text, from, len, matched, offs).len() implies {
            let at = #[trigger] kept_offsets(text, from, len, matched, offs)[j];
            &&& offs.contains(at)
            &&& !in_matched(matched, from + at)
            &&& spec_standalone(text, at, len)
        } by {
            if j < rest.len() {
                assert(kept_offsets(text, from, len, matched, offs)[j] == rest[j]);
                let m = choose|m: int| 0 <= m < offs.drop_last().len() && offs.drop_last()[m] == rest[j];
                assert(offs[m] == rest[j]);
            } else {
                assert(offs[offs.len() - 1] == offs.last());
            }
        }
    }
}

proof fn lemma_mentions_upto(
    text: Seq<u8>,
    from: int,
    anchors: Seq<Seq<u8>>,
    matched: Seq<(usize, usize)>,
    scope: Seq<Seq<char>>,
    k: int,
)
    requires
        0 <= k <= anchors.len(),
        0 <= from,
    ensures
        forall|i: int|
            0 <= i < mentions_upto(text, from, anchors, matched, scope, k).len() ==> {
                let o = #[trigger] mentions_upto(text, from, anchors, matched, scope, k)[i];
                &&& o.context == Context::Prose
                &&& !o.implicit
                &&& o.via is None
                &&& o.scope == scope
                &&& !in_matched(matched, o.byte_start)
                &&& from <= o.byte_start
                &&& o.byte_end <= from + text.len()
                &&& exists|a: int|
                    0 <= a < k && anchors[a] == text.subrange(o.byte_start - from, o.byte_end - from)
                        && o.byte_end == o.byte_start + anchors[a].len()
                        && #[trigger] spec_standalone(text, o.byte_start - from, anchors[a].len() as int)
            },
    decreases k,
{
    if k > 0 {
        lemma_mentions_upto(text, from, anchors, matched, scope, k - 1);
        let before = mentions_upto(text, from, anchors, matched, scope, k - 1);
        let anchor = anchors[k - 1];
        let offs = crate::source::bounded_from(text, anchor, 0);
        crate::source::lemma_bounded_from_occurs(text, anchor, 0);
        lemma_kept_offsets(text, from, anchor.len() as int, matched, offs);
        let kept = kept_offsets(text, from, anchor.len() as int, matched, offs);
        let here = anchor_mentions(text, from, anchor, matched, scope);
        assert forall|i: int| 0 <= i < mentions_upto(text, from, anchors, matched, scope, k).len() implies {
            let o = #[trigger] mentions_upto(text, from, anchors, matched, scope, k)[i];
            &&& o.context == Context::Prose
            &&& !o.implicit
            &&& o.via is None
            &&& o.scope == scope
            &&& !in_matched(matched, o.byte_start)
            &&& from <= o.byte_start
            &&& o.byte_end <= from + text.len()
            &&& exists|a: int|
                0 <= a < k && anchors[a] == text.subrange(o.byte_start - from, o.byte_end - from)
                    && o.byte_end == o.byte_start + anchors[a].len()
                    && #[trigger] spec_standalone(text, o.byte_start - from, anchors[a].len() as int)
        } by {
            let o = mentions_upto(text, from, anchors, matched, scope, k)[i];
            if i < before.len() {
                assert(o == before[i]);
            } else {
                let j = i - before.len();
                assert(o == here[j]);
                let at = kept[j];
                let m = choose|m: int| 0 <= m < offs.len() && offs[m] == at;
                assert(crate::text::occurs_at(text, anchor, offs[m]));
                assert(o.byte_start - from == at);
                assert(spec_standalone(text, o.byte_start - from, anchors[k - 1].len() as int));
            }
        }
    }
}

proof fn lemma_kept_offsets_complete(
    text: Seq<u8>,
    from: int,
    len: int,
    matched: Seq<(usize, usize)>,
    offs: Seq<int>,
    at: int,
)
    requires
        offs.contains(at),
        !in_matched(matched, from + at),
        spec_standalone(text, at, len),
    ensures
        kept_offsets(text, from, len, matched, offs).contains(at),
    decreases offs.len(),
{
    let rest = kept_offsets(text, from, len, matched, offs.drop_last());
    if offs.last() == at {
        let k = kept_offsets(text, from, len, matched, offs);
        assert(k[k.len() - 1] == at);
    } else {
        let m = choose|m: int| 0 <= m < offs.len() && offs[m] == at;
        assert(m < offs.len() - 1);
        assert(offs.drop_last()[m] == at);
        lemma_kept_offsets_complete(text, from, len, matched, offs.drop_last(), at);
        let i = choose|i: int| 0 <= i < rest.len() && rest[i] == at;
        assert(kept_offsets(text, from, len, matched, offs)[i] == at);
    }
}

/// The occurrence a prose mention of an anchor at `at` in a span's text is
/// reported as.
pub open spec fn prose_at(from: int, at: int, len: int, scope: Seq<Seq<char>>) -> OccurrenceView {
    OccurrenceView {
        context: Context::Prose,
        byte_start: from + at,
        byte_end: from + at + len,
        scope,
        implicit: false,
        via: None,
    }
}

/// Whether `anchor` occurs at `at` in `text` as a mention the scan reports:
/// a whole identifier standing alone, outside every matched site, that no
/// earlier occurrence of the same anchor overlaps.
pub open spec fn reportable(
    text: Seq<u8>,
    from: int,
    anchor: Seq<u8>,
    matched: Seq<(usize, usize)>,
    at: int,
) -> bool {
    &&& 0 <= at
    &&& crate::text::occurs_at(text, anchor, at)
    &&& crate::source::word_bounded(text, anchor.len() as int, at)
    &&& spec_standalone(text, at, anchor.len() as int)
    &&& !in_matched(matched, from + at)
    &&& forall|q: int|
        0 <= q < at && #[trigger] crate::text::occurs_at(text, anchor, q) ==> q + crate::source::step(anchor) <= at
}

proof fn lemma_mentions_upto_complete(
    text: Seq<u8>,
    from: int,
    anchors: Seq<Seq<u8>>,
    matched: Seq<(usize, usize)>,
    scope: Seq<Seq<char>>,
    k: int,
    a: int,
    at: int,
)
    requires
        0 <= a < k <= anchors.len(),
        reportable(text, from, anchors[a], matched, at),
    ensures
        mentions_upto(text, from, anchors, matched, scope, k).contains(
            prose_at(from, at, anchors[a].len() as int, scope),
        ),
    decreases k,
{
    let o = prose_at(from, at, anchors[a].len() as int, scope);
    let before = mentions_upto(text, from, anchors, matched, scope, k - 1);
    let here = anchor_mentions(text, from, anchors[k - 1], matched, scope);
    assert(mentions_upto(text, from, anchors, matched, scope, k) == before + here);
    if a == k - 1 {
        let anchor = anchors[a];
        let offs = crate::source::bounded_from(text, anchor, 0);
        crate::source::lemma_bounded_from_complete(text, anchor, 0, at);
        lemma_kept_offsets_complete(text, from, anchor.len() as int, matched, offs, at);
        let kept = kept_offsets(text, from, anchor.len() as int, matched, offs);
        let i = choose|i: int| 0 <= i < kept.len() && kept[i] == at;
        assert(here[i] == o);
        assert(mentions_upto(text, from, anchors, matched, scope, k)[before.len() + i] == o);
    } else {
        lemma_mentions_upto_complete(text, from, anchors, matched, scope, k - 1, a, at);
        let i = choose|i: int| 0 <= i < before.len() && before[i] == o;
        assert(mentions_upto(text, from, anchors, matched, scope, k)[i] == o);
    }
}

/// Every mention a literal's span holds is reported: an anchor occurring in
/// the span as a whole identifier, standing alone, outside every matched
/// site, and not overlapped by an earlier occurrence of the same anchor, is
/// reported as a prose occurrence at its place in the source.
pub proof fn law_every_standalone_mention_is_reported(
    source: Seq<u8>,
    span: (usize, usize),
    anchors: Seq<Seq<u8>>,
    matched: Seq<(usize, usize)>,
    scope: Seq<Seq<char>>,
    a: int,
    at: int,
)
    requires
        span.0 <= span.1 <= source.len(),
        0 <= a < anchors.len(),
        reportable(source.subrange(span.0 as int, span.1 as int), span.0 as int, anchors[a], matched, at),
    ensures
        spec_mentions(source, span, anchors, matched, scope).contains(
            prose_at(span.0 as int, at, anchors[a].len() as int, scope),
        ),
{
    lemma_mentions_upto_complete(
        source.subrange(span.0 as int, span.1 as int),
        span.0 as int,
        anchors,
        matched,
        scope,
        anchors.len() as int,
        a,
        at,
    );
}

/// Every mention found in a literal's span is prose naming an anchor: an
/// anchor's exact bytes, inside the span, standing alone, outside every
/// matched site, reported as a plain (not implicit, not handed to a call)
/// occurrence in the given scope; a span that is not inside the source has
/// none.
pub proof fn law_a_mention_is_a_standalone_anchor_outside_every_match(
    source: Seq<u8>,
    span: (usize, usize),
    anchors: Seq<Seq<u8>>,
    matched: Seq<(usize, usize)>,
    scope: Seq<Seq<char>>,
)
    ensures
        !(span.0 <= span.1 <= source.len()) ==> spec_mentions(source, span, anchors, matched, scope).len() == 0,
        forall|i: int|
            0 <= i < spec_mentions(source, span, anchors, matched, scope).len() ==> {
                let o = #[trigger] spec_mentions(source, span, anchors, matched, scope)[i];
                &&& o.context == Context::Prose
                &&& !o.implicit
                &&& o.via is None
                &&& o.scope == scope
                &&& !in_matched(matched, o.byte_start)
                &&& span.0 <= o.byte_start
                &&& o.byte_end <= span.1
                &&& exists|a: int|
                    0 <= a < anchors.len() && anchors[a] == source.subrange(o.byte_start, o.byte_end)
                        && o.byte_end == o.byte_start + anchors[a].len()
                        && #[trigger] spec_standalone(
                        source.subrange(span.0 as int, span.1 as int),
                        o.byte_start - span.0,
                        anchors[a].len() as int,
                    )
            },
{
    if span.0 <= span.1 <= source.len() {
        let text = source.subrange(span.0 as int, span.1 as int);
        let from = span.0 as int;
        lemma_mentions_upto(text, from, anchors, matched, scope, anchors.len() as int);
        assert forall|i: int| 0 <= i < spec_mentions(source, span, anchors, matched, scope).len() implies {
            let o = #[trigger] spec_mentions(source, span, anchors, matched, scope)[i];
            &&& o.context == Context::Prose
            &&& !o.implicit
            &&& o.via is None
            &&& o.scope == scope
            &&& !in_matched(matched, o.byte_start)
            &&& span.0 <= o.byte_start
            &&& o.byte_end <= span.1
            &&& exists|a: int|
                0 <= a < anchors.len() && anchors[a] == source.subrange(o.byte_start, o.byte_end)
                    && o.byte_end == o.byte_start + anchors[a].len()
                    && #[trigger] spec_standalone(text, o.byte_start - span.0, anchors[a].len() as int)
        } by {
            let o = spec_mentions(source, span, anchors, matched, scope)[i];
            let a = choose|a: int|
                0 <= a < anchors.len() && anchors[a] == text.subrange(o.byte_start - from, o.byte_end - from)
                    && o.byte_end == o.byte_start + anchors[a].len()
                    && #[trigger] spec_standalone(text, o.byte_start - from, anchors[a].len() as int);
            assert(text.subrange(o.byte_start - from, o.byte_end - from) =~= source.subrange(o.byte_start, o.byte_end));
        }
    }
}

/// A name stands alone exactly when no `.`, `/` or `:` touches it: neither
/// the byte just before it nor the byte just after it, where there are such
/// bytes, is one of them.
pub proof fn law_a_name_touched_by_a_qualifier_does_not_stand_alone(text: Seq<u8>, at: int, len: int)
    requires
        0 <= at,
        0 <= len,
        at + len <= text.len(),
    ensures
        spec_standalone(text, at, len) <==> {
            &&& !(at >= 1 && (text[at - 1] == 46u8 || text[at - 1] == 47u8 || text[at - 1] == 58u8))
            &&& !(at + len < text.len() && (text[at + len] == 46u8 || text[at + len] == 47u8 || text[at + len] == 58u8))
        },
{
}

/// No reported mention is one segment of a qualified name: within the
/// literal's span, the byte just before a mention and the byte just after it
/// are never `.`, `/` or `:`. So `display_name` in `"display_name.hint"` or
/// `"accounts.display_name"` is a key, not a mention.
pub proof fn law_no_mention_is_a_segment_of_a_qualified_name(
    source: Seq<u8>,
    span: (usize, usize),
    anchors: Seq<Seq<u8>>,
    matched: Seq<(usize, usize)>,
    scope: Seq<Seq<char>>,
)
    ensures
        forall|i: int|
            0 <= i < spec_mentions(source, span, anchors, matched, scope).len() ==> {
                let o = #[trigger] spec_mentions(source, span, anchors, matched, scope)[i];
                &&& o.byte_start > span.0 ==> !(source[o.byte_start - 1] == 46u8 || source[o.byte_start - 1] == 47u8
                    || source[o.byte_start - 1] == 58u8)
                &&& o.byte_end < span.1 ==> !(source[o.byte_end] == 46u8 || source[o.byte_end] == 47u8 || source[o.byte_end]
                    == 58u8)
            },
{
    law_a_mention_is_a_standalone_anchor_outside_every_match(source, span, anchors, matched, scope);
    assert forall|i: int| 0 <= i < spec_mentions(source, span, anchors, matched, scope).len() implies {
        let o = #[trigger] spec_mentions(source, span, anchors, matched, scope)[i];
        &&& o.byte_start > span.0 ==> !(source[o.byte_start - 1] == 46u8 || source[o.byte_start - 1] == 47u8
            || source[o.byte_start - 1] == 58u8)
        &&& o.byte_end < span.1 ==> !(source[o.byte_end] == 46u8 || source[o.byte_end] == 47u8 || source[o.byte_end]
            == 58u8)
    } by {
        let o = spec_mentions(source, span, anchors, matched, scope)[i];
        let text = source.subrange(span.0 as int, span.1 as int);
        let a = choose|a: int|
            0 <= a < anchors.len() && anchors[a] == source.subrange(o.byte_start, o.byte_end)
                && o.byte_end == o.byte_start + anchors[a].len() && #[trigger] spec_standalone(
                text,
                o.byte_start - span.0,
                anchors[a].len() as int,
            );
        if o.byte_start > span.0 {
            assert(text[o.byte_start - span.0 - 1] == source[o.byte_start - 1]);
        }
        if o.byte_end < span.1 {
            assert(text[o.byte_end - span.0] == source[o.byte_end]);
        }
    }
}

/// Mentions of the anchors inside one literal's content span: whole
/// identifiers, standing alone, outside every matched site. Nothing when the
/// span is not inside the source.
pub open spec fn spec_mentions(
    source: Seq<u8>,
    span: (usize, usize),
    anchors: Seq<Seq<u8>>,
    matched: Seq<(usize, usize)>,
    scope: Seq<Seq<char>>,
) -> Seq<OccurrenceView> {
    if span.0 <= span.1 <= source.len() {
        mentions_upto(
            source.subrange(span.0 as int, span.1 as int),
            span.0 as int,
            anchors,
            matched,
            scope,
            anchors.len() as int,
        )
    } else {
        Seq::empty()
    }
}

pub open spec fn byte_views(v: Seq<Vec<u8>>) -> Seq<Seq<u8>> {
    v.map_values(|b: Vec<u8>| b@)
}

/// Mentions of the anchors inside one literal's content span, scanned over
/// the raw source so each offset is an offset in the file.
pub fn mentions(
    source: &[u8],
    span: (usize, usize),
    anchors: &Vec<Vec<u8>>,
    matched: &Vec<(usize, usize)>,
    scope: &Vec<String>,
) -> (r: Vec<Occurrence>)
    requires
        source@.len() < usize::MAX / 2,
        forall|k: int| 0 <= k < anchors@.len() ==> (#[trigger] anchors@[k])@.len() < usize::MAX / 2,
    ensures
        occurrence_views(r@) == spec_mentions(
            source@,
            span,
            byte_views(anchors@),
            matched@,
            string_views(scope@),
        ),
{
    let (from, to) = span;
    let mut out: Vec<Occurrence> = Vec::new();
    if !(from <= to && to <= source.len()) {
        proof {
            assert(occurrence_views(out@) =~= Seq::<OccurrenceView>::empty());
        }
        return out;
    }
    let text = &source[from..to];
    let ghost av = byte_views(anchors@);
    let ghost sv = string_views(scope@);
    let mut a: usize = 0;
    while a < anchors.len()
        invariant
            a <= anchors@.len(),
            from <= to <= source@.len() < usize::MAX / 2,
            text@ == source@.subrange(from as int, to as int),
            av == byte_views(anchors@),
            sv == string_views(scope@),
            forall|k: int| 0 <= k < anchors@.len() ==> (#[trigger] anchors@[k])@.len() < usize::MAX / 2,
            occurrence_views(out@) == mentions_upto(text@, from as int, av, matched@, sv, a as int),
        decreases anchors@.len() - a,
    {
        let anchor = anchors[a].as_slice();
        let offsets = identifier_offsets(text, anchor);
        let ghost offs = bounded_from(text@, anchor@, 0);
        let ghost base = occurrence_views(out@);
        proof {
            assert(av[a as int] == anchor@);
            crate::source::lemma_bounded_from_in_range(text@, anchor@, 0);
        }
        let mut i: usize = 0;
        while i < offsets.len()
            invariant
                i <= offsets@.len(),
                offsets_view(offsets@) == offs,
                from <= to <= source@.len() < usize::MAX / 2,
                text@ == source@.subrange(from as int, to as int),
                anchor@.len() < usize::MAX / 2,
                forall|j: int| 0 <= j < offs.len() ==> 0 <= #[trigger] offs[j] <= text@.len(),
                sv == string_views(scope@),
                occurrence_views(out@) == base + kept_offsets(
                    text@,
                    from as int,
                    anchor@.len() as int,
                    matched@,
                    offs.take(i as int),
                ).map_values(
                    |at: int|
                        OccurrenceView {
                            context: Context::Prose,
                            byte_start: from + at,
                            byte_end: from + at + anchor@.len(),
                            scope: sv,
                            implicit: false,
                            via: None,
                        },
                ),
            decreases offsets@.len() - i,
        {
            let at = offsets[i];
            proof {
                assert(offs[i as int] == at as int);
                assert(offs.take(i + 1).drop_last() =~= offs.take(i as int));
                assert(offs.take(i + 1).last() == at as int);
            }
            let start = from + at;
            let mut hit = false;
            let mut m: usize = 0;
            while m < matched.len()
                invariant
                    m <= matched@.len(),
                    hit == exists|x: int| 0 <= x < m && (#[trigger] matched@[x]).0 <= start < matched@[x].1,
                decreases matched@.len() - m,
            {
                if start >= matched[m].0 && start < matched[m].1 {
                    hit = true;
                }
                m += 1;
            }
            let alone = standalone(text, at, anchor.len());
            let ghost prev = occurrence_views(out@);
            if !hit && alone {
                out.push(
                    Occurrence {
                        context: Context::Prose,
                        byte_start: start,
                        byte_end: start + anchor.len(),
                        scope: clone_strings(scope),
                        implicit: false,
                        via: None,
                    },
                );
            }
            proof {
                let f = |at: int|
                    OccurrenceView {
                        context: Context::Prose,
                        byte_start: from + at,
                        byte_end: from + at + anchor@.len(),
                        scope: sv,
                        implicit: false,
                        via: None,
                    };
                let k1 = kept_offsets(text@, from as int, anchor@.len() as int, matched@, offs.take(i + 1));
                let k0 = kept_offsets(text@, from as int, anchor@.len() as int, matched@, offs.take(i as int));
                if !hit && alone {
                    assert(k1 =~= k0.push(at as int));
                    assert(k1.map_values(f) =~= k0.map_values(f).push(f(at as int)));
                    assert(occurrence_views(out@) =~= prev.push(f(at as int)));
                } else {
                    assert(k1 =~= k0);
                    assert(occurrence_views(out@) =~= prev);
                }
            }
            i += 1;
        }
        proof {
            assert(offs.take(offsets@.len() as int) =~= offs);
        }
        a += 1;
    }
    out
}

/// Calls whose symbol arguments name the enclosing class's own methods rather
/// than reach another class's: `attr_reader :name` defines `name` here.
pub open spec fn definers() -> Seq<Seq<char>> {
    seq![
        "attr"@,
        "attr_reader"@,
        "attr_accessor"@,
        "attr_writer"@,
        "define_method"@,
        "alias_method"@,
        "class_attribute"@,
        "store_accessor"@,
        "alias_attribute"@,
        "enum"@,
    ]
}

fn is_definer(call: &str) -> (r: bool)
    ensures
        r == definers().contains(call@),
{
    let names = [
        "attr",
        "attr_reader",
        "attr_accessor",
        "attr_writer",
        "define_method",
        "alias_method",
        "class_attribute",
        "store_accessor",
        "alias_attribute",
        "enum",
    ];
    let mut k: usize = 0;
    while k < 10
        invariant
            k <= 10,
            names@.len() == 10,
            forall|j: int| 0 <= j < 10 ==> names@[j]@ == definers()[j],
            forall|j: int| 0 <= j < k ==> definers()[j] != call@,
        decreases 10 - k,
    {
        if str_eq(names[k], call) {
            assert(definers()[k as int] == call@);
            return true;
        }
        k += 1;
    }
    assert(forall|j: int| 0 <= j < definers().len() ==> definers()[j] != call@);
    false
}

/// An implicit-self call whose lexical receiver is a class that neither is the
/// target, descends from it, nor is a module mixed into it: scope has already
/// named a receiver, and it is not this class.
pub open spec fn elsewhere(h: HierarchyView, o: OccurrenceView, class: Seq<char>) -> bool {
    o.context == Context::Call && o.implicit && match spec_implicit_receiver(o.scope) {
        Some(e) => e != class && !spec_descends(h, e, class) && !spec_contributes(h, e, class),
        None => false,
    }
}

/// Whether an occurrence is the business of a rule about `class`: it sits in
/// the class, in a module mixed into it or in a descendant; or it is a call; or
/// it is a name handed to a call that does not define a method of its own --
/// unless it is an implicit call whose lexical receiver is another class.
pub open spec fn keeps(h: HierarchyView, o: OccurrenceView, class: Seq<char>) -> bool {
    !elsewhere(h, o, class) && {
        ||| spec_enclosing_class(o.scope) == Some(class)
        ||| exists|k: int|
            0 <= k < spec_enclosing_classes(o.scope).len() && spec_contributes(
                h,
                #[trigger] spec_enclosing_classes(o.scope)[k],
                class,
            )
        ||| (match spec_enclosing_class(o.scope) {
            Some(e) => spec_descends(h, e, class),
            None => false,
        })
        ||| o.context == Context::Call
        ||| (o.context != Context::Dynamic && match o.via {
            Some(call) => !definers().contains(call),
            None => false,
        })
    }
}

/// The occurrences kept, in order.
pub open spec fn spec_scoped_to(h: HierarchyView, os: Seq<OccurrenceView>, class: Seq<char>) -> Seq<OccurrenceView>
    decreases os.len(),
{
    if os.len() == 0 {
        Seq::empty()
    } else if keeps(h, os.last(), class) {
        spec_scoped_to(h, os.drop_last(), class).push(os.last())
    } else {
        spec_scoped_to(h, os.drop_last(), class)
    }
}

/// Narrowing a report to a class keeps exactly the occurrences `keeps`
/// admits, in their order, and drops every other: it is a filter.
pub proof fn law_scoping_is_a_filter(h: HierarchyView, os: Seq<OccurrenceView>, class: Seq<char>)
    ensures
        spec_scoped_to(h, os, class) == os.filter(|o: OccurrenceView| keeps(h, o, class)),
        forall|i: int|
            0 <= i < os.len() && keeps(h, os[i], class) ==> #[trigger] spec_scoped_to(h, os, class).contains(os[i]),
        forall|o: OccurrenceView| #[trigger] spec_scoped_to(h, os, class).contains(o) ==> keeps(h, o, class),
    decreases os.len(),
{
    broadcast use vstd::seq_lib::group_filter_ensures;

    reveal(Seq::filter);
    if os.len() > 0 {
        law_scoping_is_a_filter(h, os.drop_last(), class);
    }
    let pred = |o: OccurrenceView| keeps(h, o, class);
    assert forall|i: int| 0 <= i < os.len() && keeps(h, os[i], class) implies #[trigger] spec_scoped_to(
        h,
        os,
        class,
    ).contains(os[i]) by {
        os.lemma_filter_contains(pred, i);
    }
    assert forall|o: OccurrenceView| #[trigger] spec_scoped_to(h, os, class).contains(o) implies keeps(h, o, class) by {
        let k = choose|k: int| 0 <= k < os.filter(pred).len() && os.filter(pred)[k] == o;
        os.lemma_filter_pred(pred, k);
    }
}

fn kept(o: &Occurrence, class: &str, hierarchy: &Hierarchy) -> (r: bool)
    ensures
        r == keeps(hierarchy@, o.view(), class@),
{
    let ghost h = hierarchy@;
    let ghost ov = o.view();
    if matches!(o.context, Context::Call) && o.implicit {
        match implicit_receiver(&o.scope) {
            Some(e) => {
                if !str_eq(e.as_str(), class) && !hierarchy.descends_from(e.as_str(), class)
                    && !hierarchy.contributes_to(e.as_str(), class) {
                    return false;
                }
            },
            None => {},
        }
    }
    assert(!elsewhere(h, ov, class@));
    let enclosing = enclosing_class(&o.scope);
    match &enclosing {
        Some(e) => {
            if str_eq(e.as_str(), class) {
                return true;
            }
        },
        None => {},
    }
    let classes = enclosing_classes(&o.scope);
    let mut k: usize = 0;
    while k < classes.len()
        invariant
            k <= classes@.len(),
            h == hierarchy@,
            ov == o.view(),
            !elsewhere(h, ov, class@),
            string_views(classes@) == spec_enclosing_classes(ov.scope),
            forall|j: int| 0 <= j < k ==> !spec_contributes(h, #[trigger] spec_enclosing_classes(ov.scope)[j], class@),
        decreases classes@.len() - k,
    {
        if hierarchy.contributes_to(classes[k].as_str(), class) {
            assert(spec_enclosing_classes(ov.scope)[k as int] == classes@[k as int]@);
            assert(spec_contributes(h, spec_enclosing_classes(ov.scope)[k as int], class@));
            return true;
        }
        assert(spec_enclosing_classes(ov.scope)[k as int] == classes@[k as int]@);
        k += 1;
    }
    match &enclosing {
        Some(e) => {
            if hierarchy.descends_from(e.as_str(), class) {
                return true;
            }
        },
        None => {},
    }
    if matches!(o.context, Context::Call) {
        return true;
    }
    if matches!(o.context, Context::Dynamic) {
        return false;
    }
    match &o.via {
        Some(call) => !is_definer(call.as_str()),
        None => false,
    }
}

/// Narrow a report to the class a rule is about: what sits in the class, in a
/// module mixed into it or in a descendant, every call the rule did not
/// match, and every name handed to a call that does not define a method of
/// its own -- less the implicit calls whose lexical receiver is another class.
pub fn scoped_to(occurrences: Vec<Occurrence>, class: &str, hierarchy: &Hierarchy) -> (r: Vec<Occurrence>)
    ensures
        occurrence_views(r@) == spec_scoped_to(hierarchy@, occurrence_views(occurrences@), class@),
{
    let ghost all = occurrence_views(occurrences@);
    let mut out: Vec<Occurrence> = Vec::new();
    let mut k: usize = 0;
    while k < occurrences.len()
        invariant
            k <= occurrences@.len(),
            all == occurrence_views(occurrences@),
            occurrence_views(out@) == spec_scoped_to(hierarchy@, all.take(k as int), class@),
        decreases occurrences@.len() - k,
    {
        proof {
            assert(all.take(k + 1).drop_last() =~= all.take(k as int));
            assert(all.take(k + 1).last() == occurrences@[k as int].view());
        }
        if kept(&occurrences[k], class, hierarchy) {
            let ghost was = occurrence_views(out@);
            out.push(occurrences[k].duplicate());
            proof {
                assert(occurrence_views(out@) =~= was.push(occurrences@[k as int].view()));
            }
        }
        k += 1;
    }
    proof {
        assert(all.take(occurrences@.len() as int) =~= all);
    }
    out
}

/// Calls that dispatch on a method name they are handed.
pub open spec fn dispatchers() -> Seq<Seq<char>> {
    seq![
        "send"@,
        "public_send"@,
        "__send__"@,
        "try"@,
        "try!"@,
        "method"@,
        "define_method"@,
        "instance_method"@,
        "method_defined?"@,
        "respond_to?"@,
    ]
}

/// Whether a call name is a dispatcher's.
pub open spec fn dispatches(name: Seq<u8>) -> bool {
    exists|k: int| 0 <= k < dispatchers().len() && vstd::utf8::encode_utf8(#[trigger] dispatchers()[k]) == name
}

/// A symbol or a plain string: a name written out, not computed.
pub open spec fn literal_name(n: Node) -> bool {
    n.role is Symbol || n.role is Str
}

/// Whether a computed name could be one of the anchors at all: a string
/// with interpolation whose literal ends no anchor can have is ruled out;
/// anything else is kept, since unknown is not impossible.
pub open spec fn may_produce(n: Node, anchors: Seq<Seq<u8>>) -> bool {
    match n.role {
        Role::Interpolated { prefix, suffix } => if prefix@.len() == 0 && suffix@.len() == 0 {
            true
        } else {
            exists|k: int|
                0 <= k < anchors.len() && (#[trigger] anchors[k]).len() >= prefix@.len() + suffix@.len()
                    && anchors[k].take(prefix@.len() as int) == prefix@ && anchors[k].skip(
                    anchors[k].len() - suffix@.len(),
                ) == suffix@
        },
        _ => true,
    }
}

/// The first argument of a call: the first node of its argument list.
pub open spec fn first_argument(ks: Seq<Node>) -> Option<Node>
    decreases ks.len(),
{
    if ks.len() == 0 {
        None
    } else if ks[0].role is Arguments {
        if ks[0].children@.len() > 0 {
            Some(ks[0].children@[0])
        } else {
            None
        }
    } else {
        first_argument(ks.drop_first())
    }
}

/// The bytes ASCII treats as whitespace.
pub open spec fn ascii_space(b: u8) -> bool {
    b == 9 || b == 10 || b == 12 || b == 13 || b == 32
}

/// The first index from `k` that is not ASCII whitespace.
pub open spec fn lead_from(s: Seq<u8>, k: int) -> int
    decreases s.len() - k,
{
    if 0 <= k < s.len() && ascii_space(s[k]) {
        lead_from(s, k + 1)
    } else {
        k
    }
}

/// The end, moving down from `k` but not below `lo`, once trailing ASCII
/// whitespace is dropped.
pub open spec fn trail_from(s: Seq<u8>, lo: int, k: int) -> int
    decreases k - lo,
{
    if k > lo && 0 < k <= s.len() && ascii_space(s[k - 1]) {
        trail_from(s, lo, k - 1)
    } else {
        k
    }
}

/// Bytes with leading and trailing ASCII whitespace removed.
pub open spec fn trim_ascii(s: Seq<u8>) -> Seq<u8> {
    s.subrange(lead_from(s, 0), trail_from(s, lead_from(s, 0), s.len() as int))
}

/// A dispatcher handed a name it computes, which might be an anchor.
pub open spec fn dynamic_at(n: Node, here: Seq<Seq<char>>, anchors: Seq<Seq<u8>>) -> Seq<OccurrenceView> {
    match n.role {
        Role::Call { name, arguments: Some(_), .. } => if dispatches(name@) {
            match first_argument(n.children@) {
                Some(f) => if !literal_name(f) && may_produce(f, anchors) {
                    seq![
                        OccurrenceView {
                            context: Context::Dynamic,
                            byte_start: f.start as int,
                            byte_end: f.end as int,
                            scope: here,
                            implicit: false,
                            via: Some(lossy_chars(name@)),
                        },
                    ]
                } else {
                    Seq::empty()
                },
                None => Seq::empty(),
            }
        } else {
            Seq::empty()
        },
        _ => Seq::empty(),
    }
}

/// The anchors named inside a literal's text: a string that is not itself
/// one of them, or a regular expression.
pub open spec fn prose_in(
    n: Node,
    source: Seq<u8>,
    anchors: Seq<Seq<u8>>,
    matched: Seq<(usize, usize)>,
    here: Seq<Seq<char>>,
) -> Seq<OccurrenceView> {
    match n.role {
        Role::Str(v, content) => if !anchors.contains(trim_ascii(v@)) {
            spec_mentions(source, content, anchors, matched, here)
        } else {
            Seq::empty()
        },
        Role::Regexp(content) => spec_mentions(source, content, anchors, matched, here),
        _ => Seq::empty(),
    }
}

/// What a node is when it names an anchor itself: a symbol, a string, a
/// call written with its name (and whether it has no receiver), or a
/// definition.
pub open spec fn named_context(n: Node, anchors: Seq<Seq<u8>>) -> Option<(Context, bool)> {
    match n.role {
        Role::Symbol(v) => if anchors.contains(v@) {
            Some((Context::Symbol, false))
        } else {
            None
        },
        Role::Str(v, _) => if anchors.contains(v@) {
            Some((Context::String, false))
        } else {
            None
        },
        Role::Call { name, receiver, message, .. } => if message && anchors.contains(name@) {
            Some((Context::Call, !receiver))
        } else {
            None
        },
        Role::Def { name, .. } => if anchors.contains(name@) {
            Some((Context::Definition, false))
        } else {
            None
        },
        _ => None,
    }
}

/// The scope inside a node: a class or module body's name, or a singleton
/// body's marker, added.
pub open spec fn inside_of(n: Node, here: Seq<Seq<char>>) -> Seq<Seq<char>> {
    match crate::verdict::scope_entry(n) {
        Some(e) => here.push(e),
        None => here,
    }
}

/// The node's own occurrence, outside every matched site. A definition
/// belongs to the scope it defines in; every other reference to where it
/// is written.
pub open spec fn own_at(
    n: Node,
    here: Seq<Seq<char>>,
    via: Option<Seq<char>>,
    anchors: Seq<Seq<u8>>,
    matched: Seq<(usize, usize)>,
    len: int,
) -> Seq<OccurrenceView> {
    match named_context(n, anchors) {
        Some((context, implicit)) => if !in_matched(matched, n.start as int) {
            seq![
                OccurrenceView {
                    context,
                    byte_start: n.start as int,
                    byte_end: if n.end < len {
                        n.end as int
                    } else {
                        len
                    },
                    scope: if n.role is Def {
                        inside_of(n, here)
                    } else {
                        here
                    },
                    implicit,
                    via,
                },
            ]
        } else {
            Seq::empty()
        },
        None => Seq::empty(),
    }
}

/// The call a child is an argument to: a hash key is an argument to nothing;
/// a call labels what lies within its arguments with its name and clears
/// the label elsewhere; a constant assignment labels what it assigns; any
/// other node passes its label on.
pub open spec fn child_via(n: Node, c: Node, via: Option<Seq<char>>) -> Option<Seq<char>> {
    if n.role is Assoc && n.children@.len() > 0 && c.start == n.children@[0].start && c.end
        == n.children@[0].end {
        None
    } else {
        match n.role {
            Role::Call { name, arguments: Some((s, e)), .. } => if s <= c.start && c.end <= e {
                Some(lossy_chars(name@))
            } else {
                None
            },
            Role::ConstantWrite(name) => Some(lossy_chars(name@)),
            _ => via,
        }
    }
}

/// Everything a node and what lies under it say about the anchors, in the
/// order a last-in-first-out walk meets them: the node first, then its
/// children from the last to the first.
pub open spec fn collect(
    n: Node,
    here: Seq<Seq<char>>,
    via: Option<Seq<char>>,
    source: Seq<u8>,
    anchors: Seq<Seq<u8>>,
    matched: Seq<(usize, usize)>,
) -> Seq<OccurrenceView>
    decreases n,
{
    dynamic_at(n, here, anchors) + prose_in(n, source, anchors, matched, here) + own_at(
        n,
        here,
        via,
        anchors,
        matched,
        source.len() as int,
    ) + collect_rev(n, n.children@, inside_of(n, here), via, source, anchors, matched)
}

pub open spec fn collect_rev(
    n: Node,
    ks: Seq<Node>,
    here: Seq<Seq<char>>,
    via: Option<Seq<char>>,
    source: Seq<u8>,
    anchors: Seq<Seq<u8>>,
    matched: Seq<(usize, usize)>,
) -> Seq<OccurrenceView>
    decreases ks,
{
    if ks.len() == 0 {
        Seq::empty()
    } else {
        collect(ks.last(), here, child_via(n, ks.last(), via), source, anchors, matched) + collect_rev(
            n,
            ks.drop_last(),
            here,
            via,
            source,
            anchors,
            matched,
        )
    }
}

/// `x` inserted after every occurrence that does not start after it.
pub open spec fn insert_occurrence(s: Seq<OccurrenceView>, x: OccurrenceView) -> Seq<OccurrenceView>
    decreases s.len(),
{
    if s.len() == 0 {
        seq![x]
    } else if s.last().byte_start > x.byte_start {
        insert_occurrence(s.drop_last(), x).push(s.last())
    } else {
        s.push(x)
    }
}

/// Occurrences in order of where they start, stably.
pub open spec fn by_start(s: Seq<OccurrenceView>) -> Seq<OccurrenceView>
    decreases s.len(),
{
    if s.len() == 0 {
        s
    } else {
        insert_occurrence(by_start(s.drop_last()), s.last())
    }
}

/// Every occurrence of the anchors a tree holds outside the matched sites,
/// in order of where each starts; nothing when there are no anchors.
pub open spec fn spec_find(
    root: Node,
    anchors: Seq<Seq<u8>>,
    matched: Seq<(usize, usize)>,
    source: Seq<u8>,
) -> Seq<OccurrenceView> {
    if anchors.len() == 0 {
        Seq::empty()
    } else {
        by_start(collect(root, Seq::empty(), None, source, anchors, matched))
    }
}

fn is_dispatcher(name: &[u8]) -> (r: bool)
    ensures
        r == dispatches(name@),
{
    let names = [
        "send",
        "public_send",
        "__send__",
        "try",
        "try!",
        "method",
        "define_method",
        "instance_method",
        "method_defined?",
        "respond_to?",
    ];
    let mut k: usize = 0;
    while k < 10
        invariant
            k <= 10,
            names@.len() == 10,
            forall|j: int| 0 <= j < 10 ==> names@[j]@ == dispatchers()[j],
            forall|j: int| 0 <= j < k ==> vstd::utf8::encode_utf8(#[trigger] dispatchers()[j]) != name@,
        decreases 10 - k,
    {
        if crate::text::bytes_eq(names[k].as_bytes(), name) {
            assert(vstd::utf8::encode_utf8(dispatchers()[k as int]) == name@);
            return true;
        }
        k += 1;
    }
    false
}

fn holds_bytes(anchors: &Vec<Vec<u8>>, b: &[u8]) -> (r: bool)
    ensures
        r == byte_views(anchors@).contains(b@),
{
    let ghost av = byte_views(anchors@);
    let mut k: usize = 0;
    while k < anchors.len()
        invariant
            k <= anchors@.len(),
            av == byte_views(anchors@),
            forall|j: int| 0 <= j < k ==> av[j] != b@,
        decreases anchors@.len() - k,
    {
        assert(av[k as int] == anchors@[k as int]@);
        if crate::text::bytes_eq(anchors[k].as_slice(), b) {
            return true;
        }
        k += 1;
    }
    false
}

fn ends_fit(a: &[u8], p: &[u8], s: &[u8]) -> (r: bool)
    ensures
        r == (a@.len() >= p@.len() + s@.len() && a@.take(p@.len() as int) == p@ && a@.skip(a@.len() - s@.len())
            == s@),
{
    if a.len() < p.len() || a.len() - p.len() < s.len() {
        return false;
    }
    let head = &a[0..p.len()];
    let tail = &a[a.len() - s.len()..a.len()];
    assert(head@ =~= a@.take(p@.len() as int));
    assert(tail@ =~= a@.skip(a@.len() - s@.len()));
    crate::text::bytes_eq(head, p) && crate::text::bytes_eq(tail, s)
}

fn may_produce_exec(n: &Node, anchors: &Vec<Vec<u8>>) -> (r: bool)
    ensures
        r == may_produce(*n, byte_views(anchors@)),
{
    match &n.role {
        Role::Interpolated { prefix, suffix } => {
            if prefix.len() == 0 && suffix.len() == 0 {
                return true;
            }
            let ghost av = byte_views(anchors@);
            let mut k: usize = 0;
            while k < anchors.len()
                invariant
                    k <= anchors@.len(),
                    av == byte_views(anchors@),
                    n.role matches Role::Interpolated { prefix: p, suffix: q } && p@ == prefix@ && q@ == suffix@,
                    !(prefix@.len() == 0 && suffix@.len() == 0),
                    forall|j: int|
                        0 <= j < k ==> !((#[trigger] av[j]).len() >= prefix@.len() + suffix@.len() && av[j].take(
                            prefix@.len() as int,
                        ) == prefix@ && av[j].skip(av[j].len() - suffix@.len()) == suffix@),
                decreases anchors@.len() - k,
            {
                assert(av[k as int] == anchors@[k as int]@);
                if ends_fit(anchors[k].as_slice(), prefix.as_slice(), suffix.as_slice()) {
                    assert(av[k as int].len() >= prefix@.len() + suffix@.len() && av[k as int].take(
                        prefix@.len() as int,
                    ) == prefix@ && av[k as int].skip(av[k as int].len() - suffix@.len()) == suffix@);
                    return true;
                }
                k += 1;
            }
            false
        },
        _ => true,
    }
}

fn first_argument_of(ks: &[Node]) -> (r: Option<&Node>)
    ensures
        match r {
            Some(f) => first_argument(ks@) == Some(*f),
            None => first_argument(ks@) is None,
        },
    decreases ks@.len(),
{
    if ks.len() == 0 {
        return None;
    }
    if matches!(ks[0].role, Role::Arguments) {
        if ks[0].children.len() > 0 {
            return Some(&ks[0].children[0]);
        }
        return None;
    }
    let rest = &ks[1..ks.len()];
    assert(rest@ =~= ks@.drop_first());
    first_argument_of(rest)
}

fn trim_ascii_bytes(v: &[u8]) -> (r: &[u8])
    ensures
        r@ == trim_ascii(v@),
{
    let mut i: usize = 0;
    while i < v.len() && (v[i] == 9 || v[i] == 10 || v[i] == 12 || v[i] == 13 || v[i] == 32)
        invariant
            i <= v@.len(),
            lead_from(v@, 0) == lead_from(v@, i as int),
        decreases v@.len() - i,
    {
        i += 1;
    }
    let mut j: usize = v.len();
    while j > i && (v[j - 1] == 9 || v[j - 1] == 10 || v[j - 1] == 12 || v[j - 1] == 13 || v[j - 1] == 32)
        invariant
            i <= j <= v@.len(),
            lead_from(v@, 0) == i,
            trail_from(v@, i as int, v@.len() as int) == trail_from(v@, i as int, j as int),
        decreases j - i,
    {
        j -= 1;
    }
    let r = &v[i..j];
    assert(r@ =~= v@.subrange(i as int, j as int));
    r
}

fn covered_at(matched: &Vec<(usize, usize)>, at: usize) -> (r: bool)
    ensures
        r == in_matched(matched@, at as int),
{
    let mut m: usize = 0;
    while m < matched.len()
        invariant
            m <= matched@.len(),
            forall|x: int| 0 <= x < m ==> !((#[trigger] matched@[x]).0 <= at < matched@[x].1),
        decreases matched@.len() - m,
    {
        if matched[m].0 <= at && at < matched[m].1 {
            return true;
        }
        m += 1;
    }
    false
}

fn named_context_of(n: &Node, anchors: &Vec<Vec<u8>>) -> (r: Option<(Context, bool)>)
    ensures
        r == named_context(*n, byte_views(anchors@)),
{
    match &n.role {
        Role::Symbol(v) => if holds_bytes(anchors, v.as_slice()) {
            Some((Context::Symbol, false))
        } else {
            None
        },
        Role::Str(v, _) => if holds_bytes(anchors, v.as_slice()) {
            Some((Context::String, false))
        } else {
            None
        },
        Role::Call { name, receiver, message, .. } => if *message && holds_bytes(anchors, name.as_slice()) {
            Some((Context::Call, !*receiver))
        } else {
            None
        },
        Role::Def { name, .. } => if holds_bytes(anchors, name.as_slice()) {
            Some((Context::Definition, false))
        } else {
            None
        },
        _ => None,
    }
}

fn inside(n: &Node, here: &Vec<String>) -> (r: Vec<String>)
    ensures
        string_views(r@) == inside_of(*n, string_views(here@)),
{
    let mut out = clone_strings(here);
    match &n.role {
        Role::Body(Some(name)) => {
            out.push(owned(name.as_str()));
            proof {
                assert(string_views(out@) =~= string_views(here@).push(name@));
            }
        },
        Role::SingletonBody => {
            let m = owned("<<self");
            proof {
                reveal_strlit("<<self");
            }
            out.push(m);
            proof {
                assert(string_views(out@) =~= string_views(here@).push(singleton_marker()));
            }
        },
        _ => {},
    }
    out
}

fn via_for(n: &Node, c: &Node, via: &Option<String>) -> (r: Option<String>)
    ensures
        opt_view(r) == child_via(*n, *c, opt_view(*via)),
{
    if matches!(n.role, Role::Assoc) && n.children.len() > 0 && c.start == n.children[0].start && c.end
        == n.children[0].end {
        return None;
    }
    match &n.role {
        Role::Call { name, arguments: Some((s, e)), .. } => if *s <= c.start && c.end <= *e {
            Some(crate::text::lossy_string(name.as_slice()))
        } else {
            None
        },
        Role::ConstantWrite(name) => Some(crate::text::lossy_string(name.as_slice())),
        _ => crate::text::clone_opt(via),
    }
}

fn collect_into(
    n: &Node,
    here: &Vec<String>,
    via: &Option<String>,
    source: &[u8],
    anchors: &Vec<Vec<u8>>,
    matched: &Vec<(usize, usize)>,
    out: &mut Vec<Occurrence>,
)
    requires
        source@.len() < usize::MAX / 2,
        forall|k: int| 0 <= k < anchors@.len() ==> (#[trigger] anchors@[k])@.len() < usize::MAX / 2,
    ensures
        occurrence_views(final(out)@) == occurrence_views(old(out)@) + collect(
            *n,
            string_views(here@),
            opt_view(*via),
            source@,
            byte_views(anchors@),
            matched@,
        ),
    decreases *n,
{
    let ghost before = occurrence_views(out@);
    let ghost hv = string_views(here@);
    let ghost av = byte_views(anchors@);
    // A dispatcher handed a name it computes.
    match &n.role {
        Role::Call { name, arguments: Some(_), .. } => {
            if is_dispatcher(name.as_slice()) {
                match first_argument_of(n.children.as_slice()) {
                    Some(f) => {
                        let is_literal = matches!(f.role, Role::Symbol(_) | Role::Str(_, _));
                        if !is_literal && may_produce_exec(f, anchors) {
                            out.push(
                                Occurrence {
                                    context: Context::Dynamic,
                                    byte_start: f.start,
                                    byte_end: f.end,
                                    scope: clone_strings(here),
                                    implicit: false,
                                    via: Some(crate::text::lossy_string(name.as_slice())),
                                },
                            );
                        }
                    },
                    None => {},
                }
            }
        },
        _ => {},
    }
    let ghost d = occurrence_views(out@);
    assert(d =~= before + dynamic_at(*n, hv, av));
    // Names inside a literal's text.
    match &n.role {
        Role::Str(v, content) => {
            if !holds_bytes(anchors, trim_ascii_bytes(v.as_slice())) {
                let mut found = mentions(source, *content, anchors, matched, here);
                let ghost fv = occurrence_views(found@);
                out.append(&mut found);
                proof {
                    assert(occurrence_views(out@) =~= d + fv);
                }
            }
        },
        Role::Regexp(content) => {
            let mut found = mentions(source, *content, anchors, matched, here);
            let ghost fv = occurrence_views(found@);
            out.append(&mut found);
            proof {
                assert(occurrence_views(out@) =~= d + fv);
            }
        },
        _ => {},
    }
    let ghost p = occurrence_views(out@);
    assert(p =~= before + dynamic_at(*n, hv, av) + prose_in(*n, source@, av, matched@, hv));
    // The node's own occurrence.
    let inner = inside(n, here);
    match named_context_of(n, anchors) {
        Some((context, implicit)) => {
            if !covered_at(matched, n.start) {
                let end = if n.end < source.len() {
                    n.end
                } else {
                    source.len()
                };
                let scope = if matches!(n.role, Role::Def { .. }) {
                    clone_strings(&inner)
                } else {
                    clone_strings(here)
                };
                out.push(
                    Occurrence {
                        context,
                        byte_start: n.start,
                        byte_end: end,
                        scope,
                        implicit,
                        via: crate::text::clone_opt(via),
                    },
                );
            }
        },
        None => {},
    }
    let ghost q = occurrence_views(out@);
    assert(q =~= p + own_at(*n, hv, opt_view(*via), av, matched@, source@.len() as int));
    collect_rev_into(n, n.children.as_slice(), &inner, via, source, anchors, matched, out);
    proof {
        assert(occurrence_views(out@) =~= before + collect(*n, hv, opt_view(*via), source@, av, matched@));
    }
}

fn collect_rev_into(
    n: &Node,
    ks: &[Node],
    here: &Vec<String>,
    via: &Option<String>,
    source: &[u8],
    anchors: &Vec<Vec<u8>>,
    matched: &Vec<(usize, usize)>,
    out: &mut Vec<Occurrence>,
)
    requires
        source@.len() < usize::MAX / 2,
        forall|k: int| 0 <= k < anchors@.len() ==> (#[trigger] anchors@[k])@.len() < usize::MAX / 2,
    ensures
        occurrence_views(final(out)@) == occurrence_views(old(out)@) + collect_rev(
            *n,
            ks@,
            string_views(here@),
            opt_view(*via),
            source@,
            byte_views(anchors@),
            matched@,
        ),
    decreases ks@,
{
    let ghost before = occurrence_views(out@);
    let ghost hv = string_views(here@);
    let ghost av = byte_views(anchors@);
    if ks.len() == 0 {
        assert(occurrence_views(out@) =~= before + Seq::<OccurrenceView>::empty());
        return;
    }
    let last = &ks[ks.len() - 1];
    let cv = via_for(n, last, via);
    collect_into(last, here, &cv, source, anchors, matched, out);
    let ghost mid = occurrence_views(out@);
    let rest = &ks[0..ks.len() - 1];
    assert(rest@ =~= ks@.drop_last());
    collect_rev_into(n, rest, here, via, source, anchors, matched, out);
    proof {
        let one = collect(ks@.last(), hv, child_via(*n, ks@.last(), opt_view(*via)), source@, av, matched@);
        let more = collect_rev(*n, ks@.drop_last(), hv, opt_view(*via), source@, av, matched@);
        assert(before + one + more =~= before + (one + more));
    }
}

proof fn lemma_insert_occurrence(s: Seq<OccurrenceView>, x: OccurrenceView, p: int)
    requires
        0 <= p <= s.len(),
        forall|j: int| p <= j < s.len() ==> (#[trigger] s[j]).byte_start > x.byte_start,
        p == 0 || s[p - 1].byte_start <= x.byte_start,
    ensures
        insert_occurrence(s, x) == s.insert(p, x),
    decreases s.len(),
{
    if s.len() == 0 {
        assert(s.insert(p, x) =~= seq![x]);
    } else if p == s.len() {
        assert(s.insert(p, x) =~= s.push(x));
    } else {
        lemma_insert_occurrence(s.drop_last(), x, p);
        assert(s.drop_last().insert(p, x).push(s.last()) =~= s.insert(p, x));
    }
}

fn sort_by_start(v: Vec<Occurrence>) -> (r: Vec<Occurrence>)
    ensures
        occurrence_views(r@) == by_start(occurrence_views(v@)),
{
    let ghost all = occurrence_views(v@);
    let total = v.len();
    assert(all.len() == total);
    let mut input = v;
    let mut out: Vec<Occurrence> = Vec::new();
    let mut k: usize = 0;
    assert(occurrence_views(out@) =~= by_start(all.take(0)));
    while input.len() > 0
        invariant
            k + input@.len() == all.len(),
            all.len() <= usize::MAX,
            occurrence_views(input@) == all.skip(k as int),
            occurrence_views(out@) == by_start(all.take(k as int)),
        decreases input@.len(),
    {
        let ghost before_in = input@;
        let x = input.remove(0);
        let ghost xv = x.view();
        assert(occurrence_views(input@) =~= all.skip(k + 1)) by {
            assert forall|j: int| 0 <= j < input@.len() implies occurrence_views(input@)[j] == all.skip(k + 1)[j] by {
                assert(input@[j] == before_in[j + 1]);
                assert(occurrence_views(before_in)[j + 1] == all.skip(k as int)[j + 1]);
            }
        }
        assert(xv == all[k as int]) by {
            assert(all.skip(k as int)[0] == all[k as int]);
        }
        let mut p: usize = out.len();
        while p > 0 && out[p - 1].byte_start > x.byte_start
            invariant
                p <= out@.len(),
                forall|j: int| p <= j < out@.len() ==> (#[trigger] out@[j]).byte_start > x.byte_start,
            decreases p,
        {
            p -= 1;
        }
        let ghost was = occurrence_views(out@);
        proof {
            assert forall|j: int| p <= j < was.len() implies (#[trigger] was[j]).byte_start > xv.byte_start by {
                assert(was[j] == out@[j].view());
            }
            if p > 0 {
                assert(was[p - 1] == out@[p - 1].view());
            }
            lemma_insert_occurrence(was, xv, p as int);
        }
        out.insert(p, x);
        proof {
            assert(occurrence_views(out@) =~= was.insert(p as int, xv));
            assert(all.take(k + 1).drop_last() =~= all.take(k as int));
            assert(all.take(k + 1).last() == all[k as int]);
        }
        k += 1;
    }
    assert(all.take(k as int) =~= all);
    out
}

/// Every occurrence of the anchors in a parsed file that falls outside the
/// matched sites, in order of where each starts: the anchor as a symbol, a
/// string, a call or a definition; named inside a longer string or a
/// regular expression; and every dispatcher handed a computed name that
/// could be one of them. Each carries the class and module names it sits
/// in and the call it is an argument to. Nothing when there are no
/// anchors.
pub fn find(root: &Node, anchors: &Vec<Vec<u8>>, matched: &Vec<(usize, usize)>, source: &[u8]) -> (r: Vec<
    Occurrence,
>)
    requires
        source@.len() < usize::MAX / 2,
        forall|k: int| 0 <= k < anchors@.len() ==> (#[trigger] anchors@[k])@.len() < usize::MAX / 2,
    ensures
        occurrence_views(r@) == spec_find(*root, byte_views(anchors@), matched@, source@),
{
    if anchors.len() == 0 {
        let none: Vec<Occurrence> = Vec::new();
        assert(occurrence_views(none@) =~= Seq::<OccurrenceView>::empty());
        return none;
    }
    let mut out: Vec<Occurrence> = Vec::new();
    let top: Vec<String> = Vec::new();
    let no_call: Option<String> = None;
    assert(string_views(top@) =~= Seq::<Seq<char>>::empty());
    collect_into(root, &top, &no_call, source, anchors, matched, &mut out);
    assert(occurrence_views(Seq::<Occurrence>::empty()) =~= Seq::<OccurrenceView>::empty());
    assert(Seq::<OccurrenceView>::empty() + collect(
        *root,
        Seq::empty(),
        None,
        source@,
        byte_views(anchors@),
        matched@,
    ) =~= collect(*root, Seq::empty(), None, source@, byte_views(anchors@), matched@));
    sort_by_start(out)
}

/// Whether a placeholder lookup found a metavariable that has a name.
pub open spec fn named(b: Option<crate::prepare::Binding>) -> bool {
    match b {
        Some(x) => x.name is Some,
        None => false,
    }
}

/// Whether a node stands for whatever it matched, rather than for itself:
/// a named placeholder, or a splat of one.
pub open spec fn metavariable(n: Node, bs: Seq<(String, crate::prepare::Binding)>) -> bool {
    named(crate::structure::spec_placeholder(n, bs)) || named(crate::structure::spec_splat(n, bs))
}

/// The nodes of a call's argument list: the children of the first child that
/// is one; nothing when there is none.
pub open spec fn arguments_in(ks: Seq<Node>) -> Seq<Node>
    decreases ks.len(),
{
    if ks.len() == 0 {
        Seq::empty()
    } else if ks[0].role is Arguments {
        ks[0].children@
    } else {
        arguments_in(ks.drop_first())
    }
}

/// The method names that the literal arguments spell, in order: each symbol
/// or plain string that is not empty and is not a placeholder.
pub open spec fn literal_names(args: Seq<Node>, keys: Seq<Seq<char>>) -> Seq<Seq<u8>>
    decreases args.len(),
{
    if args.len() == 0 {
        Seq::empty()
    } else {
        let before = literal_names(args.drop_last(), keys);
        match args.last().role {
            Role::Symbol(v) => if v@.len() > 0 && !spec_is_placeholder_text(v@, keys) {
                before.push(v@)
            } else {
                before
            },
            Role::Str(v, _) => if v@.len() > 0 && !spec_is_placeholder_text(v@, keys) {
                before.push(v@)
            } else {
                before
            },
            _ => before,
        }
    }
}

/// The identifiers a rule is anchored on, read off its pattern's root. A
/// `def` is anchored on the name it defines, unless that name is a
/// placeholder. A call by a name (not an operator, not itself a
/// placeholder) is anchored on the names its literal arguments spell when
/// it is a definer such as `attr_reader`; otherwise on its own name, when
/// it has no block and its receiver and every argument stand for
/// metavariables. Anything else is a shape and is anchored on nothing.
pub open spec fn spec_anchors(p: Node, bs: Seq<(String, crate::prepare::Binding)>) -> Seq<Seq<u8>> {
    let keys = crate::prefilter::binding_keys(bs);
    match p.role {
        Role::Def { name, .. } => if spec_is_placeholder_text(name@, keys) {
            Seq::empty()
        } else {
            seq![name@]
        },
        Role::Call { name, receiver, message, arguments, block } => {
            let args = arguments_in(p.children@);
            if !message || named(crate::structure::spec_placeholder(p, bs)) {
                Seq::empty()
            } else if crate::engine::defining_call(name@) {
                literal_names(args, keys)
            } else if block {
                Seq::empty()
            } else if receiver && (p.children@.len() == 0 || !metavariable(p.children@[0], bs)) {
                Seq::empty()
            } else if !(forall|i: int| 0 <= i < args.len() ==> metavariable(#[trigger] args[i], bs)) {
                Seq::empty()
            } else {
                seq![name@]
            }
        },
        _ => Seq::empty(),
    }
}

fn is_named(b: Option<&crate::prepare::Binding>) -> (r: bool)
    ensures
        r == named(match b {
            Some(x) => Some(*x),
            None => None,
        }),
{
    match b {
        Some(x) => x.name.is_some(),
        None => false,
    }
}

fn is_metavariable(n: &Node, bs: &Vec<(String, crate::prepare::Binding)>) -> (r: bool)
    ensures
        r == metavariable(*n, bs@),
{
    is_named(crate::structure::placeholder(n, bs)) || is_named(crate::structure::splat(n, bs))
}

fn arguments_of(ks: &[Node]) -> (r: &[Node])
    ensures
        r@ == arguments_in(ks@),
{
    let mut k: usize = 0;
    assert(ks@.skip(0) =~= ks@);
    while k < ks.len()
        invariant
            k <= ks@.len(),
            arguments_in(ks@) == arguments_in(ks@.skip(k as int)),
        decreases ks@.len() - k,
    {
        assert(ks@.skip(k as int).drop_first() =~= ks@.skip(k + 1));
        if matches!(ks[k].role, Role::Arguments) {
            return ks[k].children.as_slice();
        }
        k += 1;
    }
    assert(ks@.skip(k as int) =~= Seq::<Node>::empty());
    &[]
}

fn literal_names_of(args: &[Node], prepared: &crate::prepare::Prepared) -> (r: Vec<Vec<u8>>)
    ensures
        byte_views(r@) == literal_names(args@, crate::prefilter::binding_keys(prepared.bindings@)),
{
    let ghost keys = crate::prefilter::binding_keys(prepared.bindings@);
    let mut out: Vec<Vec<u8>> = Vec::new();
    let mut i: usize = 0;
    while i < args.len()
        invariant
            i <= args@.len(),
            keys == crate::prefilter::binding_keys(prepared.bindings@),
            byte_views(out@) == literal_names(args@.take(i as int), keys),
        decreases args@.len() - i,
    {
        assert(args@.take(i + 1).drop_last() =~= args@.take(i as int));
        assert(args@.take(i + 1).last() == args@[i as int]);
        let v: Option<&Vec<u8>> = match &args[i].role {
            Role::Symbol(v) => Some(v),
            Role::Str(v, _) => Some(v),
            _ => None,
        };
        if let Some(v) = v {
            if v.len() > 0 && !is_placeholder_text(v.as_slice(), prepared) {
                let copy = v.clone();
                assert(copy@ =~= v@);
                out.push(copy);
                assert(byte_views(out@) =~= literal_names(args@.take(i as int), keys).push(v@));
            }
        }
        i += 1;
    }
    assert(args@.take(i as int) =~= args@);
    out
}

fn all_metavariables(args: &[Node], bs: &Vec<(String, crate::prepare::Binding)>) -> (r: bool)
    ensures
        r == (forall|i: int| 0 <= i < args@.len() ==> metavariable(#[trigger] args@[i], bs@)),
{
    let mut i: usize = 0;
    while i < args.len()
        invariant
            i <= args@.len(),
            forall|j: int| 0 <= j < i ==> metavariable(#[trigger] args@[j], bs@),
        decreases args@.len() - i,
    {
        if !is_metavariable(&args[i], bs) {
            return false;
        }
        i += 1;
    }
    true
}

/// The identifiers a rule is anchored on, read off its pattern's root node;
/// `prepared` tells which names are the pattern's placeholders.
pub fn anchors(pattern: &Node, prepared: &crate::prepare::Prepared) -> (r: Vec<Vec<u8>>)
    ensures
        byte_views(r@) == spec_anchors(*pattern, prepared.bindings@),
{
    let bs = &prepared.bindings;
    match &pattern.role {
        Role::Def { name, .. } => {
            let mut out: Vec<Vec<u8>> = Vec::new();
            if !is_placeholder_text(name.as_slice(), prepared) {
                let copy = name.clone();
                assert(copy@ =~= name@);
                out.push(copy);
            }
            assert(byte_views(out@) =~= spec_anchors(*pattern, prepared.bindings@));
            out
        },
        Role::Call { name, receiver, message, arguments: _, block } => {
            let none: Vec<Vec<u8>> = Vec::new();
            assert(byte_views(none@) =~= Seq::<Seq<u8>>::empty());
            if !*message || is_named(crate::structure::placeholder(pattern, bs)) {
                return none;
            }
            let args = arguments_of(pattern.children.as_slice());
            if crate::engine::is_defining_call(name) {
                return literal_names_of(args, prepared);
            }
            if *block {
                return none;
            }
            if *receiver && (pattern.children.len() == 0 || !is_metavariable(&pattern.children[0], bs)) {
                return none;
            }
            if !all_metavariables(args, bs) {
                return none;
            }
            let mut out: Vec<Vec<u8>> = Vec::new();
            let copy = name.clone();
            assert(copy@ =~= name@);
            out.push(copy);
            assert(byte_views(out@) =~= seq![name@]);
            out
        },
        _ => {
            let none: Vec<Vec<u8>> = Vec::new();
            assert(byte_views(none@) =~= Seq::<Seq<u8>>::empty());
            none
        },
    }
}

/// An occurrence the matches leave over: one that starts outside every
/// matched site, or a dispatcher handed a computed name, which is reported
/// wherever it stands.
pub open spec fn left_over(o: OccurrenceView, matched: Seq<(usize, usize)>) -> bool {
    o.context == Context::Dynamic || !in_matched(matched, o.byte_start)
}

pub open spec fn all_left_over(s: Seq<OccurrenceView>, matched: Seq<(usize, usize)>) -> bool {
    forall|i: int| 0 <= i < s.len() ==> left_over(#[trigger] s[i], matched)
}

/// Occurrences in order of where each starts.
pub open spec fn starts_ordered(s: Seq<OccurrenceView>) -> bool {
    forall|i: int, j: int| 0 <= i < j < s.len() ==> (#[trigger] s[i]).byte_start <= (#[trigger] s[j]).byte_start
}

proof fn lemma_insert_keeps(s: Seq<OccurrenceView>, x: OccurrenceView)
    ensures
        insert_occurrence(s, x).len() == s.len() + 1,
        forall|i: int|
            0 <= i < s.len() + 1 ==> #[trigger] insert_occurrence(s, x)[i] == x || s.contains(
                insert_occurrence(s, x)[i],
            ),
        starts_ordered(s) ==> starts_ordered(insert_occurrence(s, x)),
    decreases s.len(),
{
    if s.len() == 0 {
    } else if s.last().byte_start > x.byte_start {
        let d = s.drop_last();
        lemma_insert_keeps(d, x);
        let r0 = insert_occurrence(d, x);
        let r = r0.push(s.last());
        assert(insert_occurrence(s, x) == r);
        assert forall|i: int| 0 <= i < s.len() + 1 implies #[trigger] r[i] == x || s.contains(r[i]) by {
            if i < r0.len() {
                if r0[i] != x {
                    assert(d.contains(r0[i]));
                    let k = choose|k: int| 0 <= k < d.len() && d[k] == r0[i];
                    assert(s[k] == r0[i]);
                }
            } else {
                assert(r[i] == s[s.len() - 1]);
            }
        }
        if starts_ordered(s) {
            assert(starts_ordered(d));
            assert forall|i: int, j: int| 0 <= i < j < r.len() implies (#[trigger] r[i]).byte_start <= (
            #[trigger] r[j]).byte_start by {
                if j < r0.len() {
                    assert(r[i] == r0[i] && r[j] == r0[j]);
                } else {
                    assert(r[i] == r0[i]);
                    if r0[i] != x {
                        assert(d.contains(r0[i]));
                        let k = choose|k: int| 0 <= k < d.len() && d[k] == r0[i];
                        assert(s[k] == r0[i]);
                        assert(s[k].byte_start <= s[s.len() - 1].byte_start);
                    }
                }
            }
        }
    } else {
        let r = s.push(x);
        assert(insert_occurrence(s, x) == r);
        assert forall|i: int| 0 <= i < s.len() + 1 implies #[trigger] r[i] == x || s.contains(r[i]) by {
            if i < s.len() {
                assert(r[i] == s[i]);
            }
        }
        if starts_ordered(s) {
            assert forall|i: int, j: int| 0 <= i < j < r.len() implies (#[trigger] r[i]).byte_start <= (
            #[trigger] r[j]).byte_start by {
                if j < s.len() {
                    assert(r[i] == s[i] && r[j] == s[j]);
                } else {
                    assert(r[i] == s[i]);
                    if i < s.len() - 1 {
                        assert(s[i].byte_start <= s[s.len() - 1].byte_start);
                    }
                }
            }
        }
    }
}

proof fn lemma_by_start_keeps(s: Seq<OccurrenceView>)
    ensures
        by_start(s).len() == s.len(),
        forall|i: int| 0 <= i < s.len() ==> s.contains(#[trigger] by_start(s)[i]),
        starts_ordered(by_start(s)),
    decreases s.len(),
{
    if s.len() > 0 {
        let d = s.drop_last();
        lemma_by_start_keeps(d);
        let b = by_start(d);
        lemma_insert_keeps(b, s.last());
        let r = insert_occurrence(b, s.last());
        assert(by_start(s) == r);
        assert forall|i: int| 0 <= i < s.len() implies s.contains(#[trigger] r[i]) by {
            if r[i] == s.last() {
                assert(s[s.len() - 1] == r[i]);
            } else {
                assert(b.contains(r[i]));
                let k = choose|k: int| 0 <= k < b.len() && b[k] == r[i];
                assert(d.contains(b[k]));
                let m = choose|m: int| 0 <= m < d.len() && d[m] == b[k];
                assert(s[m] == r[i]);
            }
        }
    }
}

proof fn lemma_collect_left_over(
    n: Node,
    here: Seq<Seq<char>>,
    via: Option<Seq<char>>,
    source: Seq<u8>,
    anchors: Seq<Seq<u8>>,
    matched: Seq<(usize, usize)>,
)
    ensures
        all_left_over(collect(n, here, via, source, anchors, matched), matched),
    decreases n,
{
    let d = dynamic_at(n, here, anchors);
    let p = prose_in(n, source, anchors, matched, here);
    let o = own_at(n, here, via, anchors, matched, source.len() as int);
    let c = collect_rev(n, n.children@, inside_of(n, here), via, source, anchors, matched);
    lemma_collect_rev_left_over(n, n.children@, inside_of(n, here), via, source, anchors, matched);
    assert(all_left_over(d, matched));
    match n.role {
        Role::Str(v, content) => {
            law_a_mention_is_a_standalone_anchor_outside_every_match(source, content, anchors, matched, here);
        },
        Role::Regexp(content) => {
            law_a_mention_is_a_standalone_anchor_outside_every_match(source, content, anchors, matched, here);
        },
        _ => {},
    }
    assert(all_left_over(p, matched));
    assert(all_left_over(o, matched));
    let all = d + p + o + c;
    assert forall|i: int| 0 <= i < all.len() implies left_over(#[trigger] all[i], matched) by {
        if i < d.len() {
            assert(all[i] == d[i]);
        } else if i < d.len() + p.len() {
            assert(all[i] == p[i - d.len()]);
        } else if i < d.len() + p.len() + o.len() {
            assert(all[i] == o[i - d.len() - p.len()]);
        } else {
            assert(all[i] == c[i - d.len() - p.len() - o.len()]);
        }
    }
}

proof fn lemma_collect_rev_left_over(
    n: Node,
    ks: Seq<Node>,
    here: Seq<Seq<char>>,
    via: Option<Seq<char>>,
    source: Seq<u8>,
    anchors: Seq<Seq<u8>>,
    matched: Seq<(usize, usize)>,
)
    ensures
        all_left_over(collect_rev(n, ks, here, via, source, anchors, matched), matched),
    decreases ks,
{
    if ks.len() > 0 {
        let a = collect(ks.last(), here, child_via(n, ks.last(), via), source, anchors, matched);
        let b = collect_rev(n, ks.drop_last(), here, via, source, anchors, matched);
        lemma_collect_left_over(ks.last(), here, child_via(n, ks.last(), via), source, anchors, matched);
        lemma_collect_rev_left_over(n, ks.drop_last(), here, via, source, anchors, matched);
        let all = a + b;
        assert forall|i: int| 0 <= i < all.len() implies left_over(#[trigger] all[i], matched) by {
            if i < a.len() {
                assert(all[i] == a[i]);
            } else {
                assert(all[i] == b[i - a.len()]);
            }
        }
    }
}

/// What `find` reports comes in order of where each occurrence starts, and
/// every occurrence in it starts outside every matched site, but for a
/// dispatcher handed a computed name, which is reported wherever it stands.
pub proof fn law_find_reports_what_the_matches_leave_in_order(
    root: Node,
    anchors: Seq<Seq<u8>>,
    matched: Seq<(usize, usize)>,
    source: Seq<u8>,
)
    ensures
        starts_ordered(spec_find(root, anchors, matched, source)),
        all_left_over(spec_find(root, anchors, matched, source), matched),
{
    if anchors.len() > 0 {
        let all = collect(root, Seq::empty(), None, source, anchors, matched);
        lemma_collect_left_over(root, Seq::empty(), None, source, anchors, matched);
        lemma_by_start_keeps(all);
        let r = by_start(all);
        assert forall|i: int| 0 <= i < r.len() implies left_over(#[trigger] r[i], matched) by {
            assert(all.contains(r[i]));
            let k = choose|k: int| 0 <= k < all.len() && all[k] == r[i];
            assert(left_over(all[k], matched));
        }
    }
}

} // verus!
