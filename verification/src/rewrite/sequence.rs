//! Sequence transforms in rewrite templates, with comment attachment.
//!
//! `[*$ITEMS]` -> `[*$ITEMS.sort]` needs computation a substituting template
//! cannot express. The set is closed by definition: zero-argument,
//! deterministic, total, sequence-to-sequence. That admits `sort`, `uniq` and
//! `reverse` and excludes `sort_by`, since a block is user code.

use crate::text::{bytes_less, cat, join, less_bytes, lossy_chars, lossy_string, opt_view, spec_join, spec_space, str_eq, string_views};
use vstd::prelude::*;

verus! {

/// A transform a template may apply to a sequence capture.
#[derive(Debug, Clone, Copy, PartialEq, Eq, Structural)]
pub enum Transform {
    Sort,
    Uniq,
    Reverse,
}

/// The transform a suffix names, if it is one of the closed set.
pub open spec fn spec_transform(suffix: Seq<char>) -> Option<Transform> {
    if suffix == "sort"@ {
        Some(Transform::Sort)
    } else if suffix == "uniq"@ {
        Some(Transform::Uniq)
    } else if suffix == "reverse"@ {
        Some(Transform::Reverse)
    } else {
        None
    }
}

impl Transform {
    /// Recognise a transform suffix, such as the `sort` of `*$ITEMS.sort`. An
    /// unrecognised suffix is reported by the caller rather than emitted as
    /// literal output: a typo'd `srot` would be a silent wrong rewrite.
    pub fn parse(suffix: &str) -> (r: Option<Transform>)
        ensures
            r == spec_transform(suffix@),
    {
        if str_eq(suffix, "sort") {
            Some(Transform::Sort)
        } else if str_eq(suffix, "uniq") {
            Some(Transform::Uniq)
        } else if str_eq(suffix, "reverse") {
            Some(Transform::Reverse)
        } else {
            None
        }
    }
}

/// The first byte at or after `k` that is not ASCII whitespace.
pub open spec fn first_non_space(line: Seq<u8>, k: int) -> Option<int>
    decreases line.len() - k,
{
    if k < 0 || k >= line.len() {
        None
    } else if spec_space(line[k]) {
        first_non_space(line, k + 1)
    } else {
        Some(k)
    }
}

/// Whether every byte of a line is blank or part of a `#` comment: leading
/// whitespace skipped, nothing is left or a `#` begins what is.
pub open spec fn spec_comment_line(line: Seq<u8>) -> bool {
    match first_non_space(line, 0) {
        Some(k) => line[k] == 35,
        None => true,
    }
}

/// Whether every byte in `source[start..end]` is blank or part of a `#`
/// comment.
pub fn is_comment_line(source: &[u8], start: usize, end: usize) -> (r: bool)
    requires
        start <= end <= source@.len(),
    ensures
        r == spec_comment_line(source@.subrange(start as int, end as int)),
{
    let ghost line = source@.subrange(start as int, end as int);
    let mut k = start;
    while k < end && (source[k] == 32 || source[k] == 9 || source[k] == 10 || source[k] == 12
        || source[k] == 13)
        invariant
            start <= k <= end <= source@.len(),
            line == source@.subrange(start as int, end as int),
            first_non_space(line, 0) == first_non_space(line, k - start),
        decreases end - k,
    {
        assert(line[k - start] == source@[k as int]);
        k += 1;
    }
    if k == end {
        return true;
    }
    assert(line[k - start] == source@[k as int]);
    source[k] == 35
}

/// Where the line holding offset `at` begins: just past the last newline
/// before `at`, or 0.
pub open spec fn spec_line_start(s: Seq<u8>, at: int) -> int
    decreases at,
{
    if at <= 0 {
        0
    } else if s[at - 1] == 10 {
        at
    } else {
        spec_line_start(s, at - 1)
    }
}

/// Where the line holding offset `at` ends: the first newline at or after
/// `at`, or the end of the source.
pub open spec fn spec_line_end(s: Seq<u8>, at: int) -> int
    decreases s.len() - at,
{
    if at >= s.len() {
        s.len() as int
    } else if s[at] == 10 {
        at
    } else {
        spec_line_end(s, at + 1)
    }
}

pub fn line_start(source: &[u8], at: usize) -> (r: usize)
    requires
        at <= source@.len(),
    ensures
        r == spec_line_start(source@, at as int),
        r <= at,
{
    let mut k = at;
    while k > 0 && source[k - 1] != 10
        invariant
            k <= at <= source@.len(),
            spec_line_start(source@, at as int) == spec_line_start(source@, k as int),
        decreases k,
    {
        k -= 1;
    }
    k
}

pub fn line_end(source: &[u8], at: usize) -> (r: usize)
    requires
        at <= source@.len(),
    ensures
        r == spec_line_end(source@, at as int),
        at <= r <= source@.len(),
{
    let mut k = at;
    while k < source.len() && source[k] != 10
        invariant
            at <= k <= source@.len(),
            spec_line_end(source@, at as int) == spec_line_end(source@, k as int),
        decreases source@.len() - k,
    {
        k += 1;
    }
    k
}

/// Every byte of `s[from..to]` is ASCII whitespace.
pub open spec fn all_space(s: Seq<u8>, from: int, to: int) -> bool {
    forall|i: int| from <= i < to ==> #[trigger] spec_space(s[i])
}

pub proof fn lemma_line_start_bounds(s: Seq<u8>, at: int)
    requires
        at >= 0,
    ensures
        0 <= spec_line_start(s, at) <= at,
    decreases at,
{
    if at > 0 && s[at - 1] != 10 {
        lemma_line_start_bounds(s, at - 1);
    }
}

pub proof fn lemma_line_end_bounds(s: Seq<u8>, at: int)
    requires
        0 <= at <= s.len(),
    ensures
        at <= spec_line_end(s, at) <= s.len(),
        spec_line_end(s, at) < s.len() ==> s[spec_line_end(s, at)] == 10,
        forall|k: int| at <= k < spec_line_end(s, at) ==> s[k] != 10,
    decreases s.len() - at,
{
    if at < s.len() && s[at] != 10 {
        lemma_line_end_bounds(s, at + 1);
    }
}

/// A line cannot start at or before a newline that precedes the offset.
pub proof fn lemma_line_start_after_newline(s: Seq<u8>, a: int, k: int)
    requires
        0 <= k < a,
        s[k] == 10,
    ensures
        spec_line_start(s, a) >= k + 1,
    decreases a,
{
    if s[a - 1] != 10 {
        lemma_line_start_after_newline(s, a - 1, k);
    }
}

/// Two offsets on one line: the later one is no further than the line's end.
pub proof fn lemma_same_line(s: Seq<u8>, a: int, b: int)
    requires
        0 <= b <= a <= s.len(),
        spec_line_start(s, a) == spec_line_start(s, b),
    ensures
        a <= spec_line_end(s, b),
{
    lemma_line_end_bounds(s, b);
    lemma_line_start_bounds(s, b);
    let e = spec_line_end(s, b);
    if e < a {
        lemma_line_start_after_newline(s, a, e);
    }
}

/// Walking up from the line start `u` over contiguous whole-line comments,
/// never above `floor`: where the unit begins.
pub open spec fn climb(s: Seq<u8>, u: int, floor: int) -> int
    decreases u,
{
    if u <= floor || u <= 0 {
        u
    } else {
        let ps = spec_line_start(s, u - 1);
        if ps < floor || !spec_comment_line(s.subrange(ps, u - 1)) {
            u
        } else {
            proof {
                lemma_line_start_bounds(s, u - 1);
            }
            climb(s, ps, floor)
        }
    }
}

pub proof fn lemma_climb_bounds(s: Seq<u8>, u: int, floor: int)
    requires
        0 <= floor <= u,
    ensures
        floor <= climb(s, u, floor) <= u,
    decreases u,
{
    if u > floor && u > 0 {
        let ps = spec_line_start(s, u - 1);
        lemma_line_start_bounds(s, u - 1);
        if ps >= floor && spec_comment_line(s.subrange(ps, u - 1)) {
            lemma_climb_bounds(s, ps, floor);
        }
    }
}

/// The span of an element as a unit: the element, the whole-line comments
/// directly above it and the rest of its last line, provided it begins its
/// line at or after `floor`; otherwise the element alone.
pub open spec fn spec_unit(s: Seq<u8>, e: (int, int), floor: int) -> (int, int) {
    let ls = spec_line_start(s, e.0);
    if ls < floor || !all_space(s, ls, e.0) {
        e
    } else {
        (climb(s, ls, floor), spec_line_end(s, e.1))
    }
}

/// One element together with the comments that belong to it: its full span,
/// and the span of the element's own text, which is what ordering compares.
#[derive(Debug, Clone, Copy)]
pub struct Unit {
    pub start: usize,
    pub end: usize,
    pub key_start: usize,
    pub key_end: usize,
}

pub open spec fn unit_view(u: Unit) -> (int, int, int, int) {
    (u.start as int, u.end as int, u.key_start as int, u.key_end as int)
}

pub open spec fn unit_views(v: Seq<Unit>) -> Seq<(int, int, int, int)> {
    v.map_values(|u: Unit| unit_view(u))
}

pub open spec fn span_of(e: (usize, usize)) -> (int, int) {
    (e.0 as int, e.1 as int)
}

/// The unit of element `e`, with the element's own span as its key.
pub open spec fn spec_unit_of(s: Seq<u8>, e: (usize, usize), floor: int) -> (int, int, int, int) {
    let u = spec_unit(s, span_of(e), floor);
    (u.0, u.1, e.0 as int, e.1 as int)
}

pub open spec fn spec_units(s: Seq<u8>, els: Seq<(usize, usize)>, floor: int) -> Seq<(int, int, int, int)> {
    Seq::new(els.len(), |i: int| spec_unit_of(s, els[i], floor))
}

/// Each element lies within the source.
pub open spec fn within(s: Seq<u8>, els: Seq<(usize, usize)>) -> bool {
    forall|i: int| #![trigger els[i]] 0 <= i < els.len() ==> els[i].0 <= els[i].1 <= s.len()
}

proof fn lemma_unit_bounds(s: Seq<u8>, e: (usize, usize), floor: int)
    requires
        e.0 <= e.1 <= s.len(),
        0 <= floor,
    ensures
        ({
            let u = spec_unit(s, span_of(e), floor);
            &&& u.0 <= e.0 <= e.1 <= u.1 <= s.len()
            &&& (floor <= e.0 ==> floor <= u.0)
        }),
{
    let ls = spec_line_start(s, e.0 as int);
    lemma_line_start_bounds(s, e.0 as int);
    lemma_line_end_bounds(s, e.1 as int);
    if ls >= floor && all_space(s, ls, e.0 as int) {
        lemma_climb_bounds(s, ls, floor);
    }
}

fn unit_for(source: &[u8], element: (usize, usize), floor: usize) -> (u: Unit)
    requires
        element.0 <= element.1 <= source@.len(),
    ensures
        unit_view(u) == spec_unit_of(source@, element, floor as int),
        u.start <= u.end <= source@.len(),
        u.key_start <= u.key_end <= source@.len(),
{
    let (start, end) = element;
    proof {
        lemma_unit_bounds(source@, element, floor as int);
    }
    let mut unit_start = line_start(source, start);
    let mut k = unit_start;
    while k < start && (source[k] == 32 || source[k] == 9 || source[k] == 10 || source[k] == 12
        || source[k] == 13)
        invariant
            unit_start <= k <= start <= source@.len(),
            all_space(source@, unit_start as int, k as int),
        decreases start - k,
    {
        k += 1;
    }
    if unit_start < floor || k < start {
        proof {
            if k < start {
                assert(!spec_space(source@[k as int]));
            }
        }
        return Unit { start, end, key_start: start, key_end: end };
    }
    let ghost ls = unit_start as int;
    loop
        invariant
            floor <= unit_start <= start <= source@.len(),
            climb(source@, unit_start as int, floor as int) == climb(source@, ls, floor as int),
        ensures
            climb(source@, unit_start as int, floor as int) == unit_start,
        decreases unit_start,
    {
        if unit_start <= floor {
            break;
        }
        let previous_end = unit_start - 1;
        let previous_start = line_start(source, previous_end);
        if previous_start < floor || !is_comment_line(source, previous_start, previous_end) {
            break;
        }
        unit_start = previous_start;
    }
    Unit { start: unit_start, end: line_end(source, end), key_start: start, key_end: end }
}

/// Elements `i` and `i + 1` share a line, and a `#` sits on it after the
/// first of them.
pub open spec fn pair_at(s: Seq<u8>, els: Seq<(usize, usize)>, i: int) -> bool {
    let a = els[i].1 as int;
    let b = els[i + 1].0 as int;
    &&& spec_line_start(s, a) == spec_line_start(s, b)
    &&& exists|k: int| a <= k < spec_line_end(s, b) && s[k] == 35
}

/// Some comment sits on a line shared by two elements, so it has no
/// unambiguous owner.
pub open spec fn spec_ambiguous(s: Seq<u8>, els: Seq<(usize, usize)>) -> bool {
    exists|i: int| 0 <= i < els.len() - 1 && #[trigger] pair_at(s, els, i)
}

/// Whether any comment sits on a line shared by more than one element.
/// Silently reattaching such a comment to a neighbour would be a quiet wrong
/// rewrite.
pub fn has_ambiguous_comment(source: &[u8], elements: &[(usize, usize)]) -> (r: bool)
    requires
        within(source@, elements@),
    ensures
        r == spec_ambiguous(source@, elements@),
{
    let mut i: usize = 0;
    while i < elements.len() && i + 1 < elements.len()
        invariant
            within(source@, elements@),
            forall|j: int| 0 <= j < i ==> !#[trigger] pair_at(source@, elements@, j),
        decreases elements@.len() - i,
    {
        let first_end = elements[i].1;
        let second_start = elements[i + 1].0;
        assert(elements@[i as int].0 <= elements@[i as int].1 <= source@.len());
        assert(elements@[i + 1].0 <= elements@[i + 1].1 <= source@.len());
        if line_start(source, first_end) == line_start(source, second_start) {
            let end = line_end(source, second_start);
            proof {
                lemma_line_end_bounds(source@, second_start as int);
                if first_end > second_start {
                    lemma_same_line(source@, first_end as int, second_start as int);
                }
            }
            let mut k = first_end;
            while k < end
                invariant
                    first_end <= k <= end <= source@.len(),
                    forall|m: int| first_end <= m < k ==> source@[m] != 35,
                    i + 1 < elements@.len(),
                    first_end == elements@[i as int].1,
                    second_start == elements@[i + 1].0,
                    end == spec_line_end(source@, second_start as int),
                    spec_line_start(source@, first_end as int) == spec_line_start(source@, second_start as int),
                decreases end - k,
            {
                if source[k] == 35 {
                    assert(source@[k as int] == 35);
                    assert(pair_at(source@, elements@, i as int));
                    return true;
                }
                k += 1;
            }
            assert(!pair_at(source@, elements@, i as int));
        } else {
            assert(!pair_at(source@, elements@, i as int));
        }
        i += 1;
    }
    false
}

/// The first position from `k` whose unit's key sorts after `x`'s key, or
/// the end.
pub open spec fn first_after(s: Seq<u8>, v: Seq<(int, int, int, int)>, x: (int, int, int, int), k: int) -> int
    decreases v.len() - k,
{
    if k < 0 || k >= v.len() {
        v.len() as int
    } else if bytes_less(s.subrange(x.2, x.3), s.subrange(v[k].2, v[k].3)) {
        k
    } else {
        first_after(s, v, x, k + 1)
    }
}

proof fn lemma_first_after(s: Seq<u8>, v: Seq<(int, int, int, int)>, x: (int, int, int, int), k: int)
    requires
        0 <= k <= v.len(),
    ensures
        k <= first_after(s, v, x, k) <= v.len(),
    decreases v.len() - k,
{
    if k < v.len() && !bytes_less(s.subrange(x.2, x.3), s.subrange(v[k].2, v[k].3)) {
        lemma_first_after(s, v, x, k + 1);
    }
}

/// Units ordered by their keys, stably: each inserted after every unit whose
/// key does not sort after its own.
pub open spec fn sort_units(s: Seq<u8>, v: Seq<(int, int, int, int)>) -> Seq<(int, int, int, int)>
    decreases v.len(),
{
    if v.len() == 0 {
        v
    } else {
        let sorted = sort_units(s, v.drop_last());
        let p = first_after(s, sorted, v.last(), 0);
        sorted.take(p).push(v.last()) + sorted.skip(p)
    }
}

/// A unit's key: the element's own text.
pub open spec fn key_of(s: Seq<u8>, u: (int, int, int, int)) -> Seq<u8> {
    s.subrange(u.2, u.3)
}

/// No unit's key sorts before the key of a unit ahead of it.
pub open spec fn sorted_by_key(s: Seq<u8>, v: Seq<(int, int, int, int)>) -> bool {
    forall|i: int, j: int| 0 <= i < j < v.len() ==> !bytes_less(key_of(s, #[trigger] v[j]), key_of(s, #[trigger] v[i]))
}

proof fn lemma_first_after_props(s: Seq<u8>, v: Seq<(int, int, int, int)>, x: (int, int, int, int), k: int)
    requires
        0 <= k <= v.len(),
    ensures
        forall|i: int| k <= i < first_after(s, v, x, k) ==> !bytes_less(key_of(s, x), key_of(s, #[trigger] v[i])),
        first_after(s, v, x, k) < v.len() ==> bytes_less(key_of(s, x), key_of(s, v[first_after(s, v, x, k)])),
    decreases v.len() - k,
{
    if k < v.len() && !bytes_less(s.subrange(x.2, x.3), s.subrange(v[k].2, v[k].3)) {
        lemma_first_after_props(s, v, x, k + 1);
    }
}

/// Sorting a sequence capture orders its units by key -- no unit's key sorts
/// before that of a unit ahead of it -- and keeps every unit, each once.
pub proof fn law_sorting_orders_and_keeps_every_unit(s: Seq<u8>, v: Seq<(int, int, int, int)>)
    ensures
        sort_units(s, v).to_multiset() == v.to_multiset(),
        sorted_by_key(s, sort_units(s, v)),
    decreases v.len(),
{
    if v.len() > 0 {
        law_sorting_orders_and_keeps_every_unit(s, v.drop_last());
        let sorted = sort_units(s, v.drop_last());
        let x = v.last();
        lemma_first_after(s, sorted, x, 0);
        lemma_first_after_props(s, sorted, x, 0);
        let p = first_after(s, sorted, x, 0);
        let r = sorted.take(p).push(x) + sorted.skip(p);
        assert(r =~= sorted.insert(p, x));
        vstd::seq_lib::to_multiset_insert(sorted, p, x);
        assert(v =~= v.drop_last().push(x));
        vstd::seq_lib::to_multiset_build(v.drop_last(), x);
        assert forall|i: int, j: int| 0 <= i < j < r.len() implies !bytes_less(
            key_of(s, #[trigger] r[j]),
            key_of(s, #[trigger] r[i]),
        ) by {
            if j < p {
                assert(r[i] == sorted[i] && r[j] == sorted[j]);
            } else if j == p {
                assert(r[i] == sorted[i] && r[j] == x);
            } else if i < p {
                assert(r[i] == sorted[i] && r[j] == sorted[j - 1]);
            } else if i == p {
                assert(r[i] == x && r[j] == sorted[j - 1]);
                crate::text::lemma_bytes_less_total(key_of(s, x), key_of(s, sorted[p]));
                if j - 1 > p && bytes_less(key_of(s, sorted[j - 1]), key_of(s, x)) {
                    crate::text::lemma_bytes_less_transitive(
                        key_of(s, sorted[j - 1]),
                        key_of(s, x),
                        key_of(s, sorted[p]),
                    );
                    assert(!bytes_less(key_of(s, sorted[j - 1]), key_of(s, sorted[p])));
                }
            } else {
                assert(r[i] == sorted[i - 1] && r[j] == sorted[j - 1]);
            }
        }
    }
}

/// Dropping repeats keeps one unit per key: no two kept units share a key,
/// and every unit's key is kept.
pub proof fn law_uniq_keeps_one_unit_per_key(s: Seq<u8>, v: Seq<(int, int, int, int)>)
    ensures
        forall|i: int, j: int|
            0 <= i < j < uniq_units(s, v).len() ==> key_of(s, #[trigger] uniq_units(s, v)[i]) != key_of(
                s,
                #[trigger] uniq_units(s, v)[j],
            ),
        forall|i: int|
            #![trigger v[i]]
            0 <= i < v.len() ==> exists|j: int|
                0 <= j < uniq_units(s, v).len() && key_of(s, #[trigger] uniq_units(s, v)[j]) == key_of(s, v[i]),
    decreases v.len(),
{
    if v.len() > 0 {
        law_uniq_keeps_one_unit_per_key(s, v.drop_last());
        let kept = uniq_units(s, v.drop_last());
        let x = v.last();
        let r = uniq_units(s, v);
        if exists|j: int| 0 <= j < kept.len() && s.subrange(kept[j].2, kept[j].3) == s.subrange(x.2, x.3) {
            assert(r == kept);
            assert forall|i: int| #![trigger v[i]] 0 <= i < v.len() implies exists|j: int|
                0 <= j < r.len() && key_of(s, #[trigger] r[j]) == key_of(s, v[i]) by {
                if i < v.len() - 1 {
                    assert(v[i] == v.drop_last()[i]);
                } else {
                    let j = choose|j: int| 0 <= j < kept.len() && s.subrange(kept[j].2, kept[j].3) == s.subrange(x.2, x.3);
                    assert(key_of(s, r[j]) == key_of(s, v[i]));
                }
            }
        } else {
            assert(r == kept.push(x));
            assert forall|i: int| #![trigger v[i]] 0 <= i < v.len() implies exists|j: int|
                0 <= j < r.len() && key_of(s, #[trigger] r[j]) == key_of(s, v[i]) by {
                if i < v.len() - 1 {
                    assert(v[i] == v.drop_last()[i]);
                    let j = choose|j: int| 0 <= j < kept.len() && key_of(s, kept[j]) == key_of(s, v.drop_last()[i]);
                    assert(r[j] == kept[j]);
                } else {
                    assert(r[kept.len() as int] == x);
                }
            }
        }
    }
}

/// Units with a key already seen dropped, the first of each kept.
pub open spec fn uniq_units(s: Seq<u8>, v: Seq<(int, int, int, int)>) -> Seq<(int, int, int, int)>
    decreases v.len(),
{
    if v.len() == 0 {
        v
    } else {
        let kept = uniq_units(s, v.drop_last());
        let x = v.last();
        if exists|j: int| 0 <= j < kept.len() && s.subrange(kept[j].2, kept[j].3) == s.subrange(x.2, x.3) {
            kept
        } else {
            kept.push(x)
        }
    }
}

pub open spec fn transformed(s: Seq<u8>, v: Seq<(int, int, int, int)>, t: Transform) -> Seq<(int, int, int, int)> {
    match t {
        Transform::Sort => sort_units(s, v),
        Transform::Reverse => v.reverse(),
        Transform::Uniq => uniq_units(s, v),
    }
}

/// Every unit's span and key lie within the source.
pub open spec fn units_within(s: Seq<u8>, v: Seq<(int, int, int, int)>) -> bool {
    forall|i: int| #![trigger v[i]] 0 <= i < v.len() ==> 0 <= v[i].0 <= v[i].1 <= s.len() && 0 <= v[i].2 <= v[i].3 <= s.len()
}

proof fn lemma_uniq_within(s: Seq<u8>, v: Seq<(int, int, int, int)>)
    requires
        units_within(s, v),
    ensures
        units_within(s, uniq_units(s, v)),
    decreases v.len(),
{
    if v.len() > 0 {
        lemma_uniq_within(s, v.drop_last());
    }
}

proof fn lemma_sort_within(s: Seq<u8>, v: Seq<(int, int, int, int)>)
    requires
        units_within(s, v),
    ensures
        units_within(s, sort_units(s, v)),
        sort_units(s, v).len() == v.len(),
    decreases v.len(),
{
    if v.len() > 0 {
        lemma_sort_within(s, v.drop_last());
        let sorted = sort_units(s, v.drop_last());
        lemma_first_after(s, sorted, v.last(), 0);
        let p = first_after(s, sorted, v.last(), 0);
        let r = sorted.take(p).push(v.last()) + sorted.skip(p);
        assert forall|i: int| #![trigger r[i]] 0 <= i < r.len() implies 0 <= r[i].0 <= r[i].1 <= s.len() && 0 <= r[i].2 <= r[i].3 <= s.len() by {
            if i < p {
                assert(r[i] == sorted[i]);
            } else if i == p {
                assert(r[i] == v.last());
            } else {
                assert(r[i] == sorted[i - 1]);
            }
        }
    }
}

fn key_less(source: &[u8], a: Unit, b: Unit) -> (r: bool)
    requires
        a.key_start <= a.key_end <= source@.len(),
        b.key_start <= b.key_end <= source@.len(),
    ensures
        r == bytes_less(
            source@.subrange(a.key_start as int, a.key_end as int),
            source@.subrange(b.key_start as int, b.key_end as int),
        ),
{
    less_bytes(&source[a.key_start..a.key_end], &source[b.key_start..b.key_end])
}

fn key_eq(source: &[u8], a: Unit, b: Unit) -> (r: bool)
    requires
        a.key_start <= a.key_end <= source@.len(),
        b.key_start <= b.key_end <= source@.len(),
    ensures
        r == (source@.subrange(a.key_start as int, a.key_end as int) == source@.subrange(
            b.key_start as int,
            b.key_end as int,
        )),
{
    crate::text::bytes_eq(&source[a.key_start..a.key_end], &source[b.key_start..b.key_end])
}

pub open spec fn units_fit(s: Seq<u8>, v: Seq<Unit>) -> bool {
    forall|i: int| #![trigger v[i]] 0 <= i < v.len() ==> v[i].start <= v[i].end <= s.len() && v[i].key_start <= v[i].key_end <= s.len()
}

fn sort_by_key(source: &[u8], units: &Vec<Unit>) -> (r: Vec<Unit>)
    requires
        units_fit(source@, units@),
    ensures
        unit_views(r@) == sort_units(source@, unit_views(units@)),
        units_fit(source@, r@),
{
    let ghost uv = unit_views(units@);
    let mut out: Vec<Unit> = Vec::new();
    let mut k: usize = 0;
    while k < units.len()
        invariant
            k <= units@.len(),
            uv == unit_views(units@),
            units_fit(source@, units@),
            units_fit(source@, out@),
            unit_views(out@) == sort_units(source@, uv.take(k as int)),
        decreases units@.len() - k,
    {
        let x = units[k];
        let ghost ov = unit_views(out@);
        proof {
            assert(uv.take(k + 1).drop_last() =~= uv.take(k as int));
            assert(uv.take(k + 1).last() == unit_view(x));
        }
        let mut p: usize = 0;
        while p < out.len() && !key_less(source, x, out[p])
            invariant
                p <= out@.len(),
                ov == unit_views(out@),
                units_fit(source@, out@),
                x.key_start <= x.key_end <= source@.len(),
                first_after(source@, ov, unit_view(x), 0) == first_after(source@, ov, unit_view(x), p as int),
            decreases out@.len() - p,
        {
            p += 1;
        }
        proof {
            lemma_first_after(source@, ov, unit_view(x), 0);
        }
        let ghost before = out@;
        out.insert(p, x);
        proof {
            assert(unit_views(out@) =~= ov.take(p as int).push(unit_view(x)) + ov.skip(p as int));
            assert forall|i: int| #![trigger out@[i]] 0 <= i < out@.len() implies out@[i].start <= out@[i].end <= source@.len() && out@[i].key_start <= out@[i].key_end <= source@.len() by {
                if i < p {
                    assert(out@[i] == before[i]);
                } else if i > p {
                    assert(out@[i] == before[i - 1]);
                }
            }
        }
        k += 1;
    }
    proof {
        assert(uv.take(units@.len() as int) =~= uv);
    }
    out
}

fn unique_by_key(source: &[u8], units: &Vec<Unit>) -> (r: Vec<Unit>)
    requires
        units_fit(source@, units@),
    ensures
        unit_views(r@) == uniq_units(source@, unit_views(units@)),
        units_fit(source@, r@),
{
    let ghost uv = unit_views(units@);
    let mut out: Vec<Unit> = Vec::new();
    let mut k: usize = 0;
    while k < units.len()
        invariant
            k <= units@.len(),
            uv == unit_views(units@),
            units_fit(source@, units@),
            units_fit(source@, out@),
            unit_views(out@) == uniq_units(source@, uv.take(k as int)),
        decreases units@.len() - k,
    {
        let x = units[k];
        let ghost ov = unit_views(out@);
        proof {
            assert(uv.take(k + 1).drop_last() =~= uv.take(k as int));
            assert(uv.take(k + 1).last() == unit_view(x));
        }
        let mut j: usize = 0;
        let mut seen = false;
        while j < out.len()
            invariant
                j <= out@.len(),
                ov == unit_views(out@),
                units_fit(source@, out@),
                x.key_start <= x.key_end <= source@.len(),
                seen == exists|m: int| 0 <= m < j && source@.subrange(ov[m].2, ov[m].3) == source@.subrange(x.key_start as int, x.key_end as int),
            decreases out@.len() - j,
        {
            proof {
                assert(ov[j as int] == unit_view(out@[j as int]));
            }
            if key_eq(source, out[j], x) {
                seen = true;
            }
            j += 1;
        }
        if !seen {
            out.push(x);
            proof {
                assert(unit_views(out@) =~= ov.push(unit_view(x)));
            }
        }
        k += 1;
    }
    proof {
        assert(uv.take(units@.len() as int) =~= uv);
    }
    out
}

fn reversed(units: &Vec<Unit>) -> (r: Vec<Unit>)
    ensures
        unit_views(r@) == unit_views(units@).reverse(),
        r@.len() == units@.len(),
        forall|i: int| 0 <= i < r@.len() ==> #[trigger] r@[i] == units@[units@.len() - 1 - i],
{
    let mut out: Vec<Unit> = Vec::new();
    let mut k: usize = units.len();
    while k > 0
        invariant
            k <= units@.len(),
            out@.len() == units@.len() - k,
            forall|i: int| 0 <= i < out@.len() ==> #[trigger] out@[i] == units@[units@.len() - 1 - i],
        decreases k,
    {
        k -= 1;
        out.push(units[k]);
    }
    proof {
        assert(unit_views(out@) =~= unit_views(units@).reverse());
    }
    out
}

fn all_space_in(source: &[u8], from: usize, to: usize) -> (r: bool)
    requires
        from <= to <= source@.len(),
    ensures
        r == all_space(source@, from as int, to as int),
{
    let mut k = from;
    while k < to
        invariant
            from <= k <= to <= source@.len(),
            all_space(source@, from as int, k as int),
        decreases to - k,
    {
        let b = source[k];
        if !(b == 32 || b == 9 || b == 10 || b == 12 || b == 13) {
            assert(!spec_space(source@[k as int]));
            return false;
        }
        k += 1;
    }
    true
}

/// The line from `from` to its end holds only whitespace.
pub open spec fn blank_from(s: Seq<u8>, from: int) -> bool {
    all_space(s, from, spec_line_end(s, from))
}

fn blank(source: &[u8], from: usize) -> (r: bool)
    requires
        from <= source@.len(),
    ensures
        r == blank_from(source@, from as int),
{
    let stop = line_end(source, from);
    all_space_in(source, from, stop)
}

/// The span a node occupies as a unit, for deleting it: the node, the
/// comments written directly above it and the newline that ends its last
/// line; and, where blank lines stand on both sides of it, one of them, so
/// the survivors stay spaced as they were. `None` when the node does not
/// occupy whole lines of its own.
pub open spec fn spec_unit_range(s: Seq<u8>, node: (int, int)) -> Option<(int, int)> {
    if !all_space(s, spec_line_start(s, node.0), node.0) || !all_space(
        s,
        node.1,
        spec_line_end(s, node.1),
    ) {
        None
    } else {
        let u = spec_unit(s, node, 0);
        let end = if u.1 < s.len() && s[u.1] == 10 {
            u.1 + 1
        } else {
            u.1
        };
        let absorb = u.0 > 0 && blank_from(s, spec_line_start(s, u.0 - 1)) && end < s.len()
            && blank_from(s, end);
        let end = if absorb {
            spec_line_end(s, end) + 1
        } else {
            end
        };
        Some((u.0, if end < s.len() { end } else { s.len() as int }))
    }
}

/// The span a node occupies as a unit, for deletion. Deleting only part of a
/// line is refused: removing `a.display_name` from `x = a.display_name`
/// leaves `x = `, which joins the line below into valid and wholly wrong
/// Ruby.
pub fn unit_range(source: &[u8], node: (usize, usize)) -> (r: Option<(usize, usize)>)
    requires
        node.0 <= node.1 <= source@.len(),
    ensures
        match r {
            Some(x) => spec_unit_range(source@, span_of(node)) == Some((x.0 as int, x.1 as int)) && x.0 <= x.1
                <= source@.len(),
            None => spec_unit_range(source@, span_of(node)) is None,
        },
{
    let (node_start, node_end) = node;
    let ls = line_start(source, node_start);
    let le = line_end(source, node_end);
    if !all_space_in(source, ls, node_start) || !all_space_in(source, node_end, le) {
        return None;
    }
    let unit = unit_for(source, node, 0);
    let mut end = if unit.end < source.len() && source[unit.end] == 10 {
        unit.end + 1
    } else {
        unit.end
    };
    let preceded = unit.start > 0 && blank(source, line_start(source, unit.start - 1));
    if preceded && end < source.len() && blank(source, end) {
        let stop = line_end(source, end);
        end = if stop < source.len() {
            stop + 1
        } else {
            stop
        };
    }
    Some((unit.start, if end < source.len() { end } else { source.len() }))
}

pub open spec fn lossy_span(s: Seq<u8>, a: int, b: int) -> Seq<char> {
    lossy_chars(s.subrange(a, b))
}

pub open spec fn unit_texts(s: Seq<u8>, v: Seq<(int, int, int, int)>) -> Seq<Seq<char>> {
    v.map_values(|u: (int, int, int, int)| lossy_span(s, u.0, u.1))
}

/// A transformed sequence capture: the units reordered, joined by the
/// separator the author wrote between the first two, with the whitespace
/// between the delimiters and the elements at either end kept. `None` where
/// a comment has no unambiguous owner.
pub open spec fn spec_render(s: Seq<u8>, els: Seq<(usize, usize)>, t: Transform, inner: (usize, usize)) -> Option<Seq<char>> {
    let floor = inner.0 as int;
    let ceiling = inner.1 as int;
    if els.len() == 0 {
        Some(Seq::empty())
    } else if spec_ambiguous(s, els) {
        None
    } else {
        let units = spec_units(s, els, floor);
        let last_end = units.last().1;
        let sep = if units.len() > 1 {
            lossy_span(s, units[0].1, units[1].0)
        } else {
            Seq::empty()
        };
        let from = if last_end < ceiling {
            last_end
        } else {
            ceiling
        };
        Some(
            lossy_span(s, floor, units[0].0) + spec_join(unit_texts(s, transformed(s, units, t)), sep)
                + lossy_span(s, from, ceiling),
        )
    }
}

/// What `render` needs of its input: the elements lie within the source;
/// and where there are elements to reorder, the container's inside ends
/// within the source, the first element starts inside it, and the first two
/// units do not overlap.
pub open spec fn renderable(s: Seq<u8>, els: Seq<(usize, usize)>, inner: (usize, usize)) -> bool {
    &&& within(s, els)
    &&& els.len() > 0 && !spec_ambiguous(s, els) ==> inner.1 <= s.len() && inner.0 <= els[0].0
    &&& els.len() > 1 && !spec_ambiguous(s, els) ==> spec_units(s, els, inner.0 as int)[0].1
        <= spec_units(s, els, inner.0 as int)[1].0
}

fn units_of(source: &[u8], elements: &[(usize, usize)], floor: usize) -> (r: Vec<Unit>)
    requires
        within(source@, elements@),
    ensures
        unit_views(r@) == spec_units(source@, elements@, floor as int),
        units_fit(source@, r@),
{
    let ghost sv = spec_units(source@, elements@, floor as int);
    let mut units: Vec<Unit> = Vec::new();
    let mut k: usize = 0;
    while k < elements.len()
        invariant
            k <= elements@.len(),
            within(source@, elements@),
            sv == spec_units(source@, elements@, floor as int),
            unit_views(units@) == sv.take(k as int),
            units_fit(source@, units@),
        decreases elements@.len() - k,
    {
        assert(elements@[k as int].0 <= elements@[k as int].1 <= source@.len());
        let u = unit_for(source, elements[k], floor);
        let ghost before = units@;
        units.push(u);
        proof {
            assert(sv[k as int] == spec_unit_of(source@, elements@[k as int], floor as int));
            assert(unit_views(units@) =~= unit_views(before).push(unit_view(u)));
            assert(sv.take(k + 1) =~= sv.take(k as int).push(sv[k as int]));
            assert forall|i: int| #![trigger units@[i]] 0 <= i < units@.len() implies units@[i].start
                <= units@[i].end <= source@.len() && units@[i].key_start <= units@[i].key_end
                <= source@.len() by {
                if i < k {
                    assert(units@[i] == before[i]);
                }
            }
        }
        k += 1;
    }
    proof {
        assert(sv.take(elements@.len() as int) =~= sv);
    }
    units
}

fn texts_of(source: &[u8], units: &Vec<Unit>) -> (r: Vec<String>)
    requires
        units_fit(source@, units@),
    ensures
        string_views(r@) == unit_texts(source@, unit_views(units@)),
{
    let ghost ov = unit_views(units@);
    let mut rendered: Vec<String> = Vec::new();
    let mut j: usize = 0;
    while j < units.len()
        invariant
            j <= units@.len(),
            ov == unit_views(units@),
            units_fit(source@, units@),
            string_views(rendered@) == unit_texts(source@, ov.take(j as int)),
        decreases units@.len() - j,
    {
        let u = units[j];
        assert(u.start <= u.end <= source@.len());
        let t = lossy_string(&source[u.start..u.end]);
        let ghost before = rendered@;
        rendered.push(t);
        proof {
            assert(ov[j as int] == unit_view(u));
            assert(string_views(rendered@) =~= string_views(before).push(t@));
            assert(ov.take(j + 1) =~= ov.take(j as int).push(ov[j as int]));
            assert(unit_texts(source@, ov.take(j + 1)) =~= unit_texts(source@, ov.take(j as int)).push(
                lossy_span(source@, u.start as int, u.end as int),
            ));
        }
        j += 1;
    }
    proof {
        assert(ov.take(units@.len() as int) =~= ov);
    }
    rendered
}

fn ordered_by(source: &[u8], units: &Vec<Unit>, transform: Transform) -> (r: Vec<Unit>)
    requires
        units_fit(source@, units@),
    ensures
        unit_views(r@) == transformed(source@, unit_views(units@), transform),
        units_fit(source@, r@),
{
    match transform {
        Transform::Sort => sort_by_key(source, units),
        Transform::Uniq => unique_by_key(source, units),
        Transform::Reverse => {
            let r = reversed(units);
            assert forall|i: int| #![trigger r@[i]] 0 <= i < r@.len() implies r@[i].start <= r@[i].end
                <= source@.len() && r@[i].key_start <= r@[i].key_end <= source@.len() by {
                assert(units@[units@.len() - 1 - i] == r@[i]);
            }
            r
        },
    }
}

/// Apply `transform` to a captured sequence, giving the replacement text for
/// the inside of its container (`inner`, between the delimiters). A comment
/// travels with its element: one on the element's own line, and whole-line
/// comments directly above it.
pub fn render(source: &[u8], elements: &[(usize, usize)], transform: Transform, inner: (usize, usize)) -> (r: Option<String>)
    requires
        renderable(source@, elements@, inner),
    ensures
        opt_view(r) == spec_render(source@, elements@, transform, inner),
{
    let (floor, ceiling) = inner;
    if elements.len() == 0 {
        return Some(String::new());
    }
    if has_ambiguous_comment(source, elements) {
        return None;
    }
    let units = units_of(source, elements, floor);
    let ghost sv = unit_views(units@);
    proof {
        assert(sv[0] == unit_view(units@[0]));
        let n = units@.len() - 1;
        assert(sv[n] == unit_view(units@[n]));
        lemma_unit_bounds(source@, elements@[0], floor as int);
        if units@.len() > 1 {
            assert(sv[1] == unit_view(units@[1]));
        }
    }
    let first_start = units[0].start;
    let last_end = units[units.len() - 1].end;
    let separator = if units.len() > 1 {
        lossy_string(&source[units[0].end..units[1].start])
    } else {
        String::new()
    };
    let ordered = ordered_by(source, &units, transform);
    let rendered = texts_of(source, &ordered);
    let prefix = lossy_string(&source[floor..first_start]);
    let from = if last_end < ceiling {
        last_end
    } else {
        ceiling
    };
    let suffix = lossy_string(&source[from..ceiling]);
    let body = join(&rendered, separator.as_str());
    let head = cat(prefix.as_str(), body.as_str());
    Some(cat(head.as_str(), suffix.as_str()))
}

/// Whether reordering `elements` inside `inner` can be rendered: every
/// element within the source and, where no comment is ambiguous, the first
/// element inside the delimiters and the first two units apart. Checked
/// here rather than assumed of a match.
pub fn can_render(source: &[u8], elements: &[(usize, usize)], inner: (usize, usize)) -> (r: bool)
    ensures
        r == renderable(source@, elements@, inner),
{
    let mut i: usize = 0;
    while i < elements.len()
        invariant
            i <= elements@.len(),
            forall|j: int| #![trigger elements@[j]] 0 <= j < i ==> elements@[j].0 <= elements@[j].1 <= source@.len(),
        decreases elements@.len() - i,
    {
        if !(elements[i].0 <= elements[i].1 && elements[i].1 <= source.len()) {
            assert(!within(source@, elements@));
            return false;
        }
        i += 1;
    }
    assert(within(source@, elements@));
    if elements.len() == 0 {
        return true;
    }
    if has_ambiguous_comment(source, elements) {
        return true;
    }
    if !(inner.1 <= source.len() && inner.0 <= elements[0].0) {
        return false;
    }
    if elements.len() > 1 {
        let units = units_of(source, elements, inner.0);
        proof {
            assert(spec_units(source@, elements@, inner.0 as int).len() == elements@.len());
            assert(unit_views(units@).len() == units@.len());
            assert(unit_views(units@)[0] == unit_view(units@[0]));
            assert(unit_views(units@)[1] == unit_view(units@[1]));
        }
        if !(units[0].end <= units[1].start) {
            return false;
        }
    }
    true
}

} // verus!
