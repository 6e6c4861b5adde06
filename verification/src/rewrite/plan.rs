//! From the edits each match proposes to the edits that apply: outermost first,
//! a contained edit dropped and counted, a partial overlap refused.
//!
//! Each edit carries the index of the match that produced it, since a
//! shape-changing rewrite emits several edits for one site.

use super::sequence::{line_end, line_start, spec_line_end, spec_line_start, spec_unit_range, unit_range};
use super::{env_fits, refused_as, render, spec_render_template, template_renderable, Bound, Edit, Refusal, Span};
use crate::text::{lossy_chars, lossy_string, spec_trim, trim};
use vstd::string::StringSliceAdditionalSpecFns;
use vstd::prelude::*;

verus! {

/// `a` sorts after `b`: later start, or the same start and a narrower span, so
/// that of two edits at one place the wider comes first.
pub open spec fn after(a: (usize, Edit), b: (usize, Edit)) -> bool {
    a.1.start > b.1.start || (a.1.start == b.1.start && a.1.end < b.1.end)
}

/// `x` inserted into `s` after every element it does not sort before.
pub open spec fn insert_edit(s: Seq<(usize, Edit)>, x: (usize, Edit)) -> Seq<(usize, Edit)>
    decreases s.len(),
{
    if s.len() == 0 {
        seq![x]
    } else if after(s.last(), x) {
        insert_edit(s.drop_last(), x).push(s.last())
    } else {
        s.push(x)
    }
}

/// A stable sort by start, widest first among edits that start together.
pub open spec fn sort_edits(s: Seq<(usize, Edit)>) -> Seq<(usize, Edit)>
    decreases s.len(),
{
    if s.len() == 0 {
        Seq::empty()
    } else {
        insert_edit(sort_edits(s.drop_last()), s.last())
    }
}

/// Walk sorted edits keeping the outermost: an edit starting inside the last
/// kept one is dropped when it ends inside it too, and refused when it runs
/// past it. The kept edits, and how many were dropped; or the first pair that
/// overlaps partially.
pub open spec fn sweep(s: Seq<(usize, Edit)>) -> Result<(Seq<(usize, Edit)>, nat), (Edit, Edit)>
    decreases s.len(),
{
    if s.len() == 0 {
        Ok((Seq::empty(), 0))
    } else {
        match sweep(s.drop_last()) {
            Err(pair) => Err(pair),
            Ok((kept, dropped)) => if kept.len() > 0 && s.last().1.start < kept.last().1.end {
                if s.last().1.end <= kept.last().1.end {
                    Ok((kept, dropped + 1))
                } else {
                    Err((kept.last().1, s.last().1))
                }
            } else {
                Ok((kept.push(s.last()), dropped))
            },
        }
    }
}

/// The edits that apply, outermost first, and how many were dropped as
/// contained in a wider one.
pub open spec fn spec_outermost(edits: Seq<(usize, Edit)>) -> Result<(Seq<(usize, Edit)>, nat), (Edit, Edit)> {
    sweep(sort_edits(edits))
}

/// Inserting after the trailing run of elements `x` sorts before.
proof fn lemma_insert_edit(s: Seq<(usize, Edit)>, x: (usize, Edit), p: int)
    requires
        0 <= p <= s.len(),
        forall|j: int| p <= j < s.len() ==> after(#[trigger] s[j], x),
        p == 0 || !after(s[p - 1], x),
    ensures
        insert_edit(s, x) == s.insert(p, x),
    decreases s.len(),
{
    if s.len() == 0 {
        assert(s.insert(p, x) =~= seq![x]);
    } else if p == s.len() {
        assert(s.insert(p, x) =~= s.push(x));
    } else {
        lemma_insert_edit(s.drop_last(), x, p);
        assert(s.drop_last().insert(p, x).push(s.last()) =~= s.insert(p, x));
    }
}

fn sorts_after(a: &(usize, Edit), b: &(usize, Edit)) -> (r: bool)
    ensures
        r == after(*a, *b),
{
    a.1.start > b.1.start || (a.1.start == b.1.start && a.1.end < b.1.end)
}

/// The edits sorted by start, widest first among edits that start together,
/// keeping the given order among equal keys.
pub fn sorted_edits(edits: Vec<(usize, Edit)>) -> (r: Vec<(usize, Edit)>)
    ensures
        r@ == sort_edits(edits@),
{
    let ghost all = edits@;
    let mut rest = edits;
    assert(all.len() == rest.len());
    let mut out: Vec<(usize, Edit)> = Vec::new();
    let mut k: usize = 0;
    while rest.len() > 0
        invariant
            k <= all.len(),
            all.len() <= usize::MAX,
            rest@ == all.skip(k as int),
            rest@.len() == all.len() - k,
            out@ == sort_edits(all.take(k as int)),
        decreases rest@.len(),
    {
        proof {
            assert(all.take(k + 1).drop_last() =~= all.take(k as int));
            assert(all.take(k + 1).last() == all[k as int]);
        }
        let x = rest.remove(0);
        proof {
            assert(x == all[k as int]);
            assert(rest@ =~= all.skip(k + 1));
        }
        let mut p: usize = out.len();
        while p > 0 && sorts_after(&out[p - 1], &x)
            invariant
                p <= out@.len(),
                forall|j: int| p <= j < out@.len() ==> after(#[trigger] out@[j], x),
            decreases p,
        {
            p -= 1;
        }
        proof {
            lemma_insert_edit(out@, x, p as int);
        }
        out.insert(p, x);
        k += 1;
    }
    proof {
        assert(all.take(all.len() as int) =~= all);
    }
    out
}

/// Keep the outermost of sorted edits.
pub fn sweep_edits(sorted: Vec<(usize, Edit)>) -> (r: Result<(Vec<(usize, Edit)>, usize), Refusal>)
    ensures
        match sweep(sorted@) {
            Ok((kept, dropped)) => r matches Ok((k, d)) && k@ == kept && d == dropped,
            Err((first, second)) => r matches Err(Refusal::Overlap { first: f, second: s }) && f == first && s
                == second,
        },
{
    let ghost all = sorted@;
    let mut rest = sorted;
    assert(all.len() == rest.len());
    let mut kept: Vec<(usize, Edit)> = Vec::new();
    let mut dropped: usize = 0;
    let mut k: usize = 0;
    while rest.len() > 0
        invariant
            k <= all.len(),
            all == sorted@,
            all.len() <= usize::MAX,
            rest@ == all.skip(k as int),
            rest@.len() == all.len() - k,
            dropped <= k,
            sweep(all.take(k as int)) == Ok::<(Seq<(usize, Edit)>, nat), (Edit, Edit)>((kept@, dropped as nat)),
        decreases rest@.len(),
    {
        proof {
            assert(all.take(k + 1).drop_last() =~= all.take(k as int));
            assert(all.take(k + 1).last() == all[k as int]);
        }
        let x = rest.remove(0);
        proof {
            assert(x == all[k as int]);
            assert(rest@ =~= all.skip(k + 1));
        }
        let n = kept.len();
        if n > 0 && x.1.start < kept[n - 1].1.end {
            if x.1.end <= kept[n - 1].1.end {
                dropped += 1;
            } else {
                let ghost before = kept@;
                let last = kept.pop();
                match last {
                    Some(prev) => {
                        proof {
                            assert(prev == before.last());
                            lemma_sweep_err_stays(all, k + 1);
                        }
                        return Err(Refusal::Overlap { first: prev.1, second: x.1 });
                    },
                    None => {
                        return Ok((kept, dropped));
                    },
                }
            }
        } else {
            kept.push(x);
        }
        k += 1;
    }
    proof {
        assert(all.take(all.len() as int) =~= all);
    }
    Ok((kept, dropped))
}

/// A refusal part of the way through is the refusal of the whole.
proof fn lemma_sweep_err_stays(s: Seq<(usize, Edit)>, k: int)
    requires
        0 <= k <= s.len(),
        sweep(s.take(k)) is Err,
    ensures
        sweep(s) == sweep(s.take(k)),
    decreases s.len() - k,
{
    if k < s.len() {
        assert(s.take(k + 1).drop_last() =~= s.take(k));
        lemma_sweep_err_stays(s, k + 1);
    } else {
        assert(s.take(k) =~= s);
    }
}

/// Turn the edits each match proposed into the edits that apply: outermost
/// first, a contained edit dropped and counted, a partial overlap refused.
pub fn outermost(edits: Vec<(usize, Edit)>) -> (r: Result<(Vec<(usize, Edit)>, usize), Refusal>)
    ensures
        match spec_outermost(edits@) {
            Ok((kept, dropped)) => r matches Ok((k, d)) && k@ == kept && d == dropped,
            Err((first, second)) => r matches Err(Refusal::Overlap { first: f, second: s }) && f == first && s
                == second,
        },
{
    let sorted = sorted_edits(edits);
    sweep_edits(sorted)
}

/// The edits kept are disjoint and in order: each ends no later than the next
/// one starts.
pub proof fn law_kept_edits_are_disjoint_and_ordered(edits: Seq<(usize, Edit)>)
    requires
        spec_outermost(edits) is Ok,
    ensures
        forall|k: int|
            0 < k < spec_outermost(edits)->Ok_0.0.len() ==> spec_outermost(edits)->Ok_0.0[k - 1].1.end
                <= #[trigger] spec_outermost(edits)->Ok_0.0[k].1.start,
{
    lemma_sweep_disjoint(sort_edits(edits));
}

proof fn lemma_sweep_disjoint(s: Seq<(usize, Edit)>)
    ensures
        sweep(s) matches Ok((kept, _)) ==> forall|k: int|
            0 < k < kept.len() ==> kept[k - 1].1.end <= #[trigger] kept[k].1.start,
    decreases s.len(),
{
    if s.len() > 0 {
        lemma_sweep_disjoint(s.drop_last());
    }
}

/// Starts never decrease along `s`.
pub open spec fn starts_sorted(s: Seq<(usize, Edit)>) -> bool {
    forall|i: int, j: int| 0 <= i < j < s.len() ==> (#[trigger] s[i]).1.start <= (#[trigger] s[j]).1.start
}

proof fn lemma_insert_sorted(s: Seq<(usize, Edit)>, x: (usize, Edit))
    requires
        starts_sorted(s),
    ensures
        starts_sorted(insert_edit(s, x)),
    decreases s.len(),
{
    if s.len() > 0 && after(s.last(), x) {
        lemma_insert_sorted(s.drop_last(), x);
        lemma_insert_edit_from(s.drop_last(), x);
        let t = insert_edit(s.drop_last(), x);
        let r = t.push(s.last());
        assert forall|i: int, j: int| 0 <= i < j < r.len() implies (#[trigger] r[i]).1.start <= (
        #[trigger] r[j]).1.start by {
            if j < t.len() {
                assert(r[i] == t[i] && r[j] == t[j]);
            } else {
                assert(r[i] == t[i]);
                if t[i] != x {
                    let q = choose|q: int| 0 <= q < s.drop_last().len() && s.drop_last()[q] == t[i];
                    assert(s[q] == t[i]);
                }
            }
        }
    } else if s.len() > 0 {
        let r = s.push(x);
        assert forall|i: int, j: int| 0 <= i < j < r.len() implies (#[trigger] r[i]).1.start <= (
        #[trigger] r[j]).1.start by {
            if j < s.len() {
                assert(r[i] == s[i] && r[j] == s[j]);
            } else {
                assert(r[i] == s[i]);
                if i < s.len() - 1 {
                    assert(s[i].1.start <= s[s.len() - 1].1.start);
                }
            }
        }
    }
}

proof fn lemma_sort_sorted(s: Seq<(usize, Edit)>)
    ensures
        starts_sorted(sort_edits(s)),
    decreases s.len(),
{
    if s.len() > 0 {
        lemma_sort_sorted(s.drop_last());
        lemma_insert_sorted(sort_edits(s.drop_last()), s.last());
    }
}

proof fn lemma_sweep_overlap(s: Seq<(usize, Edit)>)
    requires
        starts_sorted(s),
    ensures
        sweep(s) matches Err((first, second)) ==> first.start <= second.start < first.end < second.end,
    decreases s.len(),
{
    if s.len() > 0 {
        let d = s.drop_last();
        assert(starts_sorted(d)) by {
            assert forall|i: int, j: int| 0 <= i < j < d.len() implies (#[trigger] d[i]).1.start <= (
            #[trigger] d[j]).1.start by {
                assert(d[i] == s[i] && d[j] == s[j]);
            }
        }
        lemma_sweep_overlap(d);
        lemma_sweep_from(d);
        if let Ok((kept, _)) = sweep(d) {
            if kept.len() > 0 {
                let q = choose|q: int| 0 <= q < d.len() && d[q] == kept.last();
                assert(kept[kept.len() - 1] == kept.last());
                assert(s[q] == kept.last());
                assert(s[q].1.start <= s[s.len() - 1].1.start);
            }
        }
    }
}

/// A partial overlap is refused with the two edits in order: the first
/// starts no later than the second, which starts inside it and ends past it.
pub proof fn law_an_overlap_is_partial(edits: Seq<(usize, Edit)>)
    ensures
        spec_outermost(edits) matches Err((first, second)) ==> first.start <= second.start < first.end
            < second.end,
{
    lemma_sort_sorted(edits);
    lemma_sweep_overlap(sort_edits(edits));
}

/// Every edit is either kept or counted as dropped.
pub proof fn law_every_edit_is_kept_or_dropped(edits: Seq<(usize, Edit)>)
    requires
        spec_outermost(edits) is Ok,
    ensures
        spec_outermost(edits)->Ok_0.0.len() + spec_outermost(edits)->Ok_0.1 == edits.len(),
{
    lemma_sort_len(edits);
    lemma_sweep_count(sort_edits(edits));
}

proof fn lemma_insert_len(s: Seq<(usize, Edit)>, x: (usize, Edit))
    ensures
        insert_edit(s, x).len() == s.len() + 1,
    decreases s.len(),
{
    if s.len() > 0 && after(s.last(), x) {
        lemma_insert_len(s.drop_last(), x);
    }
}

proof fn lemma_sort_len(s: Seq<(usize, Edit)>)
    ensures
        sort_edits(s).len() == s.len(),
    decreases s.len(),
{
    if s.len() > 0 {
        lemma_sort_len(s.drop_last());
        lemma_insert_len(sort_edits(s.drop_last()), s.last());
    }
}

proof fn lemma_sweep_count(s: Seq<(usize, Edit)>)
    ensures
        sweep(s) matches Ok((kept, dropped)) ==> kept.len() + dropped == s.len(),
    decreases s.len(),
{
    if s.len() > 0 {
        lemma_sweep_count(s.drop_last());
    }
}

/// One changed site, as whole lines and what they become.
pub struct Site {
    pub start: usize,
    pub end: usize,
    /// What `source[start..end]` becomes: the body of a suggestion that
    /// replaces those lines.
    pub replacement: String,
}

pub struct SiteView {
    pub start: int,
    pub end: int,
    pub replacement: Seq<char>,
}

impl Site {
    pub open spec fn view(&self) -> SiteView {
        SiteView { start: self.start as int, end: self.end as int, replacement: self.replacement@ }
    }
}

pub open spec fn site_views(v: Seq<Site>) -> Seq<SiteView> {
    v.map_values(|s: Site| s.view())
}

/// `x` added to ascending distinct indices.
pub open spec fn insert_index(s: Seq<usize>, x: usize) -> Seq<usize>
    decreases s.len(),
{
    if s.len() == 0 {
        seq![x]
    } else if s.last() > x {
        insert_index(s.drop_last(), x).push(s.last())
    } else {
        s.push(x)
    }
}

/// The matches that kept at least one edit, ascending, each once.
pub open spec fn site_indices(kept: Seq<(usize, Edit)>) -> Seq<usize>
    decreases kept.len(),
{
    if kept.len() == 0 {
        Seq::empty()
    } else if site_indices(kept.drop_last()).contains(kept.last().0) {
        site_indices(kept.drop_last())
    } else {
        insert_index(site_indices(kept.drop_last()), kept.last().0)
    }
}

/// The kept edits of one match, in order.
pub open spec fn edits_of(kept: Seq<(usize, Edit)>, index: usize) -> Seq<Edit>
    decreases kept.len(),
{
    if kept.len() == 0 {
        Seq::empty()
    } else if kept.last().0 == index {
        edits_of(kept.drop_last(), index).push(kept.last().1)
    } else {
        edits_of(kept.drop_last(), index)
    }
}

pub open spec fn min_start(es: Seq<Edit>) -> int
    decreases es.len(),
{
    if es.len() <= 1 {
        if es.len() == 1 {
            es[0].start as int
        } else {
            0
        }
    } else if es.last().start < min_start(es.drop_last()) {
        es.last().start as int
    } else {
        min_start(es.drop_last())
    }
}

pub open spec fn max_end(es: Seq<Edit>) -> int
    decreases es.len(),
{
    if es.len() <= 1 {
        if es.len() == 1 {
            es[0].end as int
        } else {
            0
        }
    } else if es.last().end > max_end(es.drop_last()) {
        es.last().end as int
    } else {
        max_end(es.drop_last())
    }
}

/// The bytes from `from` to the end of the last edit, with the edits applied.
pub open spec fn spliced(source: Seq<u8>, from: int, es: Seq<Edit>) -> Seq<u8>
    decreases es.len(),
{
    if es.len() == 0 {
        Seq::empty()
    } else {
        let before = if es.len() == 1 {
            from
        } else {
            es[es.len() - 2].end as int
        };
        spliced(source, from, es.drop_last()) + source.subrange(before, es.last().start as int)
            + vstd::utf8::encode_utf8(es.last().text@)
    }
}

/// One site: the whole lines its edits touch, and those lines with the edits
/// applied.
pub open spec fn spec_site(source: Seq<u8>, kept: Seq<(usize, Edit)>, index: usize) -> SiteView {
    let es = edits_of(kept, index);
    let from = spec_line_start(source, min_start(es));
    let to = spec_line_end(source, max_end(es));
    SiteView {
        start: from,
        end: to,
        replacement: lossy_chars(spliced(source, from, es) + source.subrange(es.last().end as int, to)),
    }
}

/// `x` inserted into `s` after every site that does not start later.
pub open spec fn insert_site(s: Seq<SiteView>, x: SiteView) -> Seq<SiteView>
    decreases s.len(),
{
    if s.len() == 0 {
        seq![x]
    } else if s.last().start > x.start {
        insert_site(s.drop_last(), x).push(s.last())
    } else {
        s.push(x)
    }
}

/// The sites of the given matches, stably sorted by where they start.
pub open spec fn sites_in_order(source: Seq<u8>, kept: Seq<(usize, Edit)>, indices: Seq<usize>) -> Seq<SiteView>
    decreases indices.len(),
{
    if indices.len() == 0 {
        Seq::empty()
    } else {
        insert_site(sites_in_order(source, kept, indices.drop_last()), spec_site(source, kept, indices.last()))
    }
}

/// Sites in order of where they start.
pub open spec fn sites_ordered(s: Seq<SiteView>) -> bool {
    forall|i: int, j: int| 0 <= i < j < s.len() ==> #[trigger] s[i].start <= #[trigger] s[j].start
}

proof fn lemma_insert_site_ordered(s: Seq<SiteView>, x: SiteView)
    requires
        sites_ordered(s),
    ensures
        sites_ordered(insert_site(s, x)),
        insert_site(s, x).len() == s.len() + 1,
        forall|i: int| 0 <= i < insert_site(s, x).len() ==> #[trigger] insert_site(s, x)[i] == x || s.contains(
            insert_site(s, x)[i],
        ),
    decreases s.len(),
{
    if s.len() > 0 && s.last().start > x.start {
        let d = s.drop_last();
        assert(sites_ordered(d)) by {
            assert forall|i: int, j: int| 0 <= i < j < d.len() implies #[trigger] d[i].start <= #[trigger] d[j].start by {
                assert(d[i] == s[i] && d[j] == s[j]);
            }
        }
        lemma_insert_site_ordered(d, x);
        let r = insert_site(d, x);
        assert forall|i: int| 0 <= i < r.len() implies #[trigger] r[i].start <= s.last().start by {
            if r[i] != x {
                let k = choose|k: int| 0 <= k < d.len() && d[k] == r[i];
                assert(s[k] == d[k]);
                assert(s[k].start <= s[s.len() - 1].start);
            }
        }
        assert forall|i: int| 0 <= i < insert_site(s, x).len() implies #[trigger] insert_site(s, x)[i] == x
            || s.contains(insert_site(s, x)[i]) by {
            if i < r.len() {
                if r[i] != x {
                    let k = choose|k: int| 0 <= k < d.len() && d[k] == r[i];
                    assert(s[k] == d[k]);
                }
            } else {
                assert(s[s.len() - 1] == s.last());
            }
        }
    } else if s.len() > 0 {
        assert forall|i: int| 0 <= i < insert_site(s, x).len() implies #[trigger] insert_site(s, x)[i] == x
            || s.contains(insert_site(s, x)[i]) by {
            if i < s.len() {
                assert(insert_site(s, x)[i] == s[i]);
            }
        }
    }
}

/// The changed sites a plan reports come in order of where they start.
pub proof fn law_sites_come_in_order_of_start(source: Seq<u8>, kept: Seq<(usize, Edit)>, indices: Seq<usize>)
    ensures
        sites_ordered(sites_in_order(source, kept, indices)),
        sites_in_order(source, kept, indices).len() == indices.len(),
    decreases indices.len(),
{
    if indices.len() > 0 {
        law_sites_come_in_order_of_start(source, kept, indices.drop_last());
        lemma_insert_site_ordered(
            sites_in_order(source, kept, indices.drop_last()),
            spec_site(source, kept, indices.last()),
        );
    }
}

/// Kept edits lie within the source and each ends no later than the next
/// one starts.
pub open spec fn well_placed(kept: Seq<(usize, Edit)>, len: int) -> bool {
    &&& forall|k: int| 0 <= k < kept.len() ==> (#[trigger] kept[k]).1.start <= kept[k].1.end <= len
    &&& forall|k: int| 0 < k < kept.len() ==> kept[k - 1].1.end <= #[trigger] kept[k].1.start
}

proof fn lemma_insert_index(s: Seq<usize>, x: usize, p: int)
    requires
        0 <= p <= s.len(),
        forall|j: int| p <= j < s.len() ==> #[trigger] s[j] > x,
        p == 0 || s[p - 1] <= x,
    ensures
        insert_index(s, x) == s.insert(p, x),
    decreases s.len(),
{
    if s.len() == 0 {
        assert(s.insert(p, x) =~= seq![x]);
    } else if p == s.len() {
        assert(s.insert(p, x) =~= s.push(x));
    } else {
        lemma_insert_index(s.drop_last(), x, p);
        assert(s.drop_last().insert(p, x).push(s.last()) =~= s.insert(p, x));
    }
}

fn contains_index(v: &Vec<usize>, x: usize) -> (r: bool)
    ensures
        r == v@.contains(x),
{
    let mut k: usize = 0;
    while k < v.len()
        invariant
            k <= v@.len(),
            forall|j: int| 0 <= j < k ==> v@[j] != x,
        decreases v@.len() - k,
    {
        if v[k] == x {
            assert(v@[k as int] == x);
            return true;
        }
        k += 1;
    }
    false
}

fn indices_of(kept: &Vec<(usize, Edit)>) -> (r: Vec<usize>)
    ensures
        r@ == site_indices(kept@),
{
    let mut out: Vec<usize> = Vec::new();
    let mut k: usize = 0;
    while k < kept.len()
        invariant
            k <= kept@.len(),
            out@ == site_indices(kept@.take(k as int)),
        decreases kept@.len() - k,
    {
        proof {
            assert(kept@.take(k + 1).drop_last() =~= kept@.take(k as int));
            assert(kept@.take(k + 1).last() == kept@[k as int]);
        }
        let x = kept[k].0;
        if !contains_index(&out, x) {
            let mut p: usize = out.len();
            while p > 0 && out[p - 1] > x
                invariant
                    p <= out@.len(),
                    forall|j: int| p <= j < out@.len() ==> #[trigger] out@[j] > x,
                decreases p,
            {
                p -= 1;
            }
            proof {
                lemma_insert_index(out@, x, p as int);
            }
            out.insert(p, x);
        }
        k += 1;
    }
    proof {
        assert(kept@.take(kept@.len() as int) =~= kept@);
    }
    out
}

proof fn lemma_edits_of_placed(kept: Seq<(usize, Edit)>, index: usize, len: int)
    requires
        well_placed(kept, len),
    ensures
        forall|k: int|
            0 <= k < edits_of(kept, index).len() ==> (#[trigger] edits_of(kept, index)[k]).start
                <= edits_of(kept, index)[k].end <= len,
        forall|k: int|
            0 < k < edits_of(kept, index).len() ==> edits_of(kept, index)[k - 1].end
                <= #[trigger] edits_of(kept, index)[k].start,
        edits_of(kept, index).len() > 0 ==> kept.len() > 0 && edits_of(kept, index).last().end
            <= kept.last().1.end,
    decreases kept.len(),
{
    if kept.len() > 0 {
        let rest = kept.drop_last();
        assert(well_placed(rest, len));
        lemma_edits_of_placed(rest, index, len);
        if rest.len() > 0 && edits_of(rest, index).len() > 0 {
            assert(rest.last().1.end <= kept.last().1.start);
        }
    }
}

proof fn lemma_bounds(es: Seq<Edit>, len: int)
    requires
        es.len() > 0,
        forall|k: int| 0 <= k < es.len() ==> (#[trigger] es[k]).start <= es[k].end <= len,
        forall|k: int| 0 < k < es.len() ==> es[k - 1].end <= #[trigger] es[k].start,
    ensures
        0 <= min_start(es) <= es[0].start,
        es.last().end <= max_end(es) <= len,
        min_start(es) <= max_end(es),
        forall|k: int| 0 <= k < es.len() ==> min_start(es) <= #[trigger] es[k].start,
    decreases es.len(),
{
    if es.len() > 1 {
        lemma_bounds(es.drop_last(), len);
        assert(es.drop_last()[0] == es[0]);
        assert forall|k: int| 0 <= k < es.len() implies min_start(es) <= #[trigger] es[k].start by {
            if k < es.len() - 1 {
                assert(es.drop_last()[k] == es[k]);
            }
        }
    }
}

/// One site's lines and their replacement.
fn site_of(source: &[u8], kept: &Vec<(usize, Edit)>, index: usize) -> (r: Site)
    requires
        well_placed(kept@, source@.len() as int),
        site_indices(kept@).contains(index),
    ensures
        r.view() == spec_site(source@, kept@, index),
{
    let ghost es = edits_of(kept@, index);
    let mut mine: Vec<usize> = Vec::new();
    let mut k: usize = 0;
    while k < kept.len()
        invariant
            k <= kept@.len(),
            mine@.len() == edits_of(kept@.take(k as int), index).len(),
            forall|j: int| 0 <= j < mine@.len() ==> #[trigger] mine@[j] < k && kept@[mine@[j] as int].1 == edits_of(
                kept@.take(k as int),
                index,
            )[j],
            forall|j: int| 0 < j < mine@.len() ==> mine@[j - 1] < #[trigger] mine@[j],
        decreases kept@.len() - k,
    {
        proof {
            assert(kept@.take(k + 1).drop_last() =~= kept@.take(k as int));
            assert(kept@.take(k + 1).last() == kept@[k as int]);
        }
        if kept[k].0 == index {
            mine.push(k);
        }
        k += 1;
    }
    proof {
        assert(kept@.take(kept@.len() as int) =~= kept@);
        lemma_edits_of_placed(kept@, index, source@.len() as int);
        lemma_site_nonempty(kept@, index);
    }
    let n = mine.len();
    let mut lo: usize = kept[mine[0]].1.start;
    let mut hi: usize = kept[mine[0]].1.end;
    let mut j: usize = 1;
    while j < n
        invariant
            1 <= j <= n,
            n == mine@.len(),
            n == es.len(),
            forall|i: int| 0 <= i < n ==> #[trigger] mine@[i] < kept@.len() && kept@[mine@[i] as int].1 == es[i],
            lo == min_start(es.take(j as int)),
            hi == max_end(es.take(j as int)),
        decreases n - j,
    {
        proof {
            assert(es.take(j + 1).drop_last() =~= es.take(j as int));
            assert(es.take(j + 1).last() == es[j as int]);
        }
        let e = &kept[mine[j]].1;
        if e.start < lo {
            lo = e.start;
        }
        if e.end > hi {
            hi = e.end;
        }
        j += 1;
    }
    proof {
        assert(es.take(n as int) =~= es);
        lemma_bounds(es, source@.len() as int);
    }
    let from = line_start(source, lo);
    let to = line_end(source, hi);
    let mut bytes: Vec<u8> = Vec::new();
    let mut cursor: usize = from;
    let mut i: usize = 0;
    while i < n
        invariant
            i <= n,
            n == mine@.len(),
            n == es.len(),
            forall|x: int| 0 <= x < n ==> #[trigger] mine@[x] < kept@.len() && kept@[mine@[x] as int].1 == es[x],
            forall|x: int| 0 <= x < n ==> (#[trigger] es[x]).start <= es[x].end <= source@.len(),
            forall|x: int| 0 < x < n ==> es[x - 1].end <= #[trigger] es[x].start,
            from <= es[0].start,
            bytes@ == spliced(source@, from as int, es.take(i as int)),
            cursor == if i == 0 {
                from as int
            } else {
                es[i - 1].end as int
            },
            from <= cursor <= source@.len(),
            i < n ==> cursor <= es[i as int].start,
        decreases n - i,
    {
        proof {
            assert(es.take(i + 1).drop_last() =~= es.take(i as int));
            assert(es.take(i + 1).last() == es[i as int]);
            if i > 0 {
                assert(es.take(i + 1)[i - 1] == es[i - 1]);
            }
        }
        let e = &kept[mine[i]].1;
        let mut c = cursor;
        let ghost was = bytes@;
        while c < e.start
            invariant
                cursor <= c <= e.start <= source@.len(),
                bytes@ == was + source@.subrange(cursor as int, c as int),
            decreases e.start - c,
        {
            bytes.push(source[c]);
            proof {
                assert(source@.subrange(cursor as int, c + 1) =~= source@.subrange(cursor as int, c as int).push(
                    source@[c as int],
                ));
            }
            c += 1;
        }
        let t = e.text.as_str().as_bytes();
        let ghost mid = bytes@;
        let mut q: usize = 0;
        while q < t.len()
            invariant
                q <= t@.len(),
                bytes@ == mid + t@.subrange(0, q as int),
            decreases t@.len() - q,
        {
            bytes.push(t[q]);
            proof {
                assert(t@.subrange(0, q + 1) =~= t@.subrange(0, q as int).push(t@[q as int]));
            }
            q += 1;
        }
        proof {
            assert(t@.subrange(0, t@.len() as int) =~= t@);
            assert(bytes@ =~= spliced(source@, from as int, es.take(i + 1)));
        }
        cursor = e.end;
        i += 1;
    }
    proof {
        assert(es.take(n as int) =~= es);
    }
    let ghost spliced_part = bytes@;
    let mut c = cursor;
    while c < to
        invariant
            cursor <= c <= to <= source@.len(),
            bytes@ == spliced_part + source@.subrange(cursor as int, c as int),
        decreases to - c,
    {
        bytes.push(source[c]);
        proof {
            assert(source@.subrange(cursor as int, c + 1) =~= source@.subrange(cursor as int, c as int).push(
                source@[c as int],
            ));
        }
        c += 1;
    }
    Site { start: from, end: to, replacement: lossy_string(bytes.as_slice()) }
}

proof fn lemma_site_nonempty(kept: Seq<(usize, Edit)>, index: usize)
    requires
        site_indices(kept).contains(index),
    ensures
        edits_of(kept, index).len() > 0,
    decreases kept.len(),
{
    if kept.len() > 0 {
        if kept.last().0 != index {
            if site_indices(kept.drop_last()).contains(kept.last().0) {
                lemma_site_nonempty(kept.drop_last(), index);
            } else {
                lemma_insert_index_contains(site_indices(kept.drop_last()), kept.last().0, index);
                lemma_site_nonempty(kept.drop_last(), index);
            }
        }
    }
}

proof fn lemma_insert_index_contains(s: Seq<usize>, x: usize, y: usize)
    requires
        insert_index(s, x).contains(y),
        y != x,
    ensures
        s.contains(y),
    decreases s.len(),
{
    if s.len() > 0 && s.last() > x {
        let t = insert_index(s.drop_last(), x);
        let j = choose|j: int| 0 <= j < t.push(s.last()).len() && t.push(s.last())[j] == y;
        if j < t.len() {
            assert(t[j] == y);
            lemma_insert_index_contains(s.drop_last(), x, y);
            let i = choose|i: int| 0 <= i < s.drop_last().len() && s.drop_last()[i] == y;
            assert(s[i] == y);
        } else {
            assert(s[s.len() - 1] == y);
        }
    } else if s.len() > 0 {
        let j = choose|j: int| 0 <= j < s.push(x).len() && s.push(x)[j] == y;
        assert(s[j] == y);
    }
}

proof fn lemma_insert_site(s: Seq<SiteView>, x: SiteView, p: int)
    requires
        0 <= p <= s.len(),
        forall|j: int| p <= j < s.len() ==> (#[trigger] s[j]).start > x.start,
        p == 0 || s[p - 1].start <= x.start,
    ensures
        insert_site(s, x) == s.insert(p, x),
    decreases s.len(),
{
    if s.len() == 0 {
        assert(s.insert(p, x) =~= seq![x]);
    } else if p == s.len() {
        assert(s.insert(p, x) =~= s.push(x));
    } else {
        lemma_insert_site(s.drop_last(), x, p);
        assert(s.drop_last().insert(p, x).push(s.last()) =~= s.insert(p, x));
    }
}

proof fn lemma_insert_edit_from(s: Seq<(usize, Edit)>, x: (usize, Edit))
    ensures
        forall|i: int|
            0 <= i < insert_edit(s, x).len() ==> (#[trigger] insert_edit(s, x)[i] == x || s.contains(
                insert_edit(s, x)[i],
            )),
    decreases s.len(),
{
    if s.len() > 0 && after(s.last(), x) {
        lemma_insert_edit_from(s.drop_last(), x);
        let t = insert_edit(s.drop_last(), x);
        assert forall|i: int| 0 <= i < insert_edit(s, x).len() implies (#[trigger] insert_edit(s, x)[i] == x
            || s.contains(insert_edit(s, x)[i])) by {
            if i < t.len() {
                if t[i] != x {
                    let j = choose|j: int| 0 <= j < s.drop_last().len() && s.drop_last()[j] == t[i];
                    assert(s[j] == t[i]);
                }
            } else {
                assert(s[s.len() - 1] == insert_edit(s, x)[i]);
            }
        }
    } else if s.len() > 0 {
        assert forall|i: int| 0 <= i < insert_edit(s, x).len() implies (#[trigger] insert_edit(s, x)[i] == x
            || s.contains(insert_edit(s, x)[i])) by {
            if i < s.len() {
                assert(s[i] == insert_edit(s, x)[i]);
            }
        }
    }
}

proof fn lemma_sort_from(s: Seq<(usize, Edit)>)
    ensures
        forall|i: int| 0 <= i < sort_edits(s).len() ==> s.contains(#[trigger] sort_edits(s)[i]),
    decreases s.len(),
{
    if s.len() > 0 {
        lemma_sort_from(s.drop_last());
        let t = sort_edits(s.drop_last());
        lemma_insert_edit_from(t, s.last());
        assert forall|i: int| 0 <= i < sort_edits(s).len() implies s.contains(#[trigger] sort_edits(s)[i]) by {
            let e = sort_edits(s)[i];
            if e == s.last() {
                assert(s[s.len() - 1] == e);
            } else {
                assert(t.contains(e));
                let j = choose|j: int| 0 <= j < t.len() && t[j] == e;
                assert(s.drop_last().contains(t[j]));
                let q = choose|q: int| 0 <= q < s.drop_last().len() && s.drop_last()[q] == e;
                assert(s[q] == e);
            }
        }
    }
}

proof fn lemma_sweep_from(s: Seq<(usize, Edit)>)
    ensures
        sweep(s) matches Ok((kept, _)) ==> forall|i: int| 0 <= i < kept.len() ==> s.contains(#[trigger] kept[i]),
    decreases s.len(),
{
    if s.len() > 0 {
        lemma_sweep_from(s.drop_last());
        if let Ok((kept, _)) = sweep(s) {
            assert forall|i: int| 0 <= i < kept.len() implies s.contains(#[trigger] kept[i]) by {
                if let Ok((before, _)) = sweep(s.drop_last()) {
                    if i < before.len() {
                        assert(kept[i] == before[i]);
                        let q = choose|q: int| 0 <= q < s.drop_last().len() && s.drop_last()[q] == before[i];
                        assert(s[q] == kept[i]);
                    } else {
                        assert(kept[i] == s.last());
                        assert(s[s.len() - 1] == kept[i]);
                    }
                }
            }
        }
    }
}

/// Edits that each lie within the source.
pub open spec fn within(edits: Seq<(usize, Edit)>, len: int) -> bool {
    forall|k: int| 0 <= k < edits.len() ==> (#[trigger] edits[k]).1.start <= edits[k].1.end <= len
}

/// The edits kept from edits within the source are well placed.
pub proof fn law_planned_edits_apply_cleanly(edits: Seq<(usize, Edit)>, len: int)
    requires
        within(edits, len),
        spec_outermost(edits) is Ok,
    ensures
        well_placed(spec_outermost(edits)->Ok_0.0, len),
{
    let kept = spec_outermost(edits)->Ok_0.0;
    lemma_sort_from(edits);
    lemma_sweep_from(sort_edits(edits));
    lemma_sweep_disjoint(sort_edits(edits));
    assert forall|k: int| 0 <= k < kept.len() implies (#[trigger] kept[k]).1.start <= kept[k].1.end <= len by {
        let e = kept[k];
        assert(sort_edits(edits).contains(e));
        let j = choose|j: int| 0 <= j < sort_edits(edits).len() && sort_edits(edits)[j] == e;
        assert(edits.contains(sort_edits(edits)[j]));
        let q = choose|q: int| 0 <= q < edits.len() && edits[q] == e;
    }
}

/// `a` comes before `b`: an earlier start, or the same start and an earlier
/// end.
pub open spec fn span_before(a: (usize, usize), b: (usize, usize)) -> bool {
    a.0 < b.0 || (a.0 == b.0 && a.1 < b.1)
}

/// `x` inserted after every span it does not come before.
pub open spec fn insert_span(s: Seq<(usize, usize)>, x: (usize, usize)) -> Seq<(usize, usize)>
    decreases s.len(),
{
    if s.len() == 0 {
        seq![x]
    } else if span_before(x, s.last()) {
        insert_span(s.drop_last(), x).push(s.last())
    } else {
        s.push(x)
    }
}

/// Spans in order, stably.
pub open spec fn sort_spans(s: Seq<(usize, usize)>) -> Seq<(usize, usize)>
    decreases s.len(),
{
    if s.len() == 0 {
        s
    } else {
        insert_span(sort_spans(s.drop_last()), s.last())
    }
}

/// The matched spans of the changed sites, in order of span.
pub open spec fn site_spans(indices: Seq<usize>, spans: Seq<(usize, usize)>) -> Seq<(usize, usize)> {
    sort_spans(indices.map_values(|i: usize| spans[i as int]))
}

proof fn lemma_insert_span(s: Seq<(usize, usize)>, x: (usize, usize), p: int)
    requires
        0 <= p <= s.len(),
        forall|j: int| p <= j < s.len() ==> span_before(x, #[trigger] s[j]),
        p == 0 || !span_before(x, s[p - 1]),
    ensures
        insert_span(s, x) == s.insert(p, x),
    decreases s.len(),
{
    if s.len() == 0 {
        assert(s.insert(p, x) =~= seq![x]);
    } else if p == s.len() {
        assert(s.insert(p, x) =~= s.push(x));
    } else {
        lemma_insert_span(s.drop_last(), x, p);
        assert(s.drop_last().insert(p, x).push(s.last()) =~= s.insert(p, x));
    }
}

proof fn lemma_sort_spans_len(s: Seq<(usize, usize)>)
    ensures
        sort_spans(s).len() == s.len(),
    decreases s.len(),
{
    if s.len() > 0 {
        lemma_sort_spans_len(s.drop_last());
        lemma_insert_span_len(sort_spans(s.drop_last()), s.last());
    }
}

proof fn lemma_insert_span_len(s: Seq<(usize, usize)>, x: (usize, usize))
    ensures
        insert_span(s, x).len() == s.len() + 1,
    decreases s.len(),
{
    if s.len() > 0 && span_before(x, s.last()) {
        lemma_insert_span_len(s.drop_last(), x);
    }
}

fn spans_of_sites(indices: &Vec<usize>, spans: &Vec<(usize, usize)>) -> (r: Vec<(usize, usize)>)
    requires
        forall|i: int| 0 <= i < indices@.len() ==> #[trigger] indices@[i] < spans@.len(),
    ensures
        r@ == site_spans(indices@, spans@),
{
    let ghost all = indices@.map_values(|i: usize| spans@[i as int]);
    let mut out: Vec<(usize, usize)> = Vec::new();
    let mut k: usize = 0;
    while k < indices.len()
        invariant
            k <= indices@.len(),
            all == indices@.map_values(|i: usize| spans@[i as int]),
            forall|i: int| 0 <= i < indices@.len() ==> #[trigger] indices@[i] < spans@.len(),
            out@ == sort_spans(all.take(k as int)),
        decreases indices@.len() - k,
    {
        let x = spans[indices[k]];
        proof {
            assert(all.take(k + 1).drop_last() =~= all.take(k as int));
            assert(all.take(k + 1).last() == x);
        }
        let mut p: usize = out.len();
        while p > 0 && (x.0 < out[p - 1].0 || (x.0 == out[p - 1].0 && x.1 < out[p - 1].1))
            invariant
                p <= out@.len(),
                forall|j: int| p <= j < out@.len() ==> span_before(x, #[trigger] out@[j]),
            decreases p,
        {
            p -= 1;
        }
        proof {
            lemma_insert_span(out@, x, p as int);
        }
        out.insert(p, x);
        k += 1;
    }
    proof {
        assert(all.take(indices@.len() as int) =~= all);
    }
    out
}

/// Edits to apply, what they change, and how many were dropped.
pub struct Planned {
    /// The edits that apply, in order.
    pub edits: Vec<Edit>,
    /// Matched sites that changed; a shape-changing rewrite emits several edits
    /// for one site.
    pub sites: usize,
    /// Each changed site: the lines it occupies and what they become, by
    /// where they start.
    pub at: Vec<Site>,
    /// Edits skipped because a wider one covered them. Non-zero means a rerun
    /// makes further progress.
    pub dropped: usize,
    /// Each changed site's matched span in the source before the edits, in
    /// order of span: shifted by the edits, where the rewritten node lands.
    pub matched: Vec<(usize, usize)>,
}

pub open spec fn only_edits(kept: Seq<(usize, Edit)>) -> Seq<Edit> {
    kept.map_values(|p: (usize, Edit)| p.1)
}

/// Turn the edits each match proposed into a plan: outermost first, a
/// contained edit dropped and counted, a partial overlap refused; and for
/// each changed site, its whole lines and what they become.
pub fn plan_edits(edits: Vec<(usize, Edit)>, spans: &Vec<(usize, usize)>, source: &[u8]) -> (r: Result<Planned, Refusal>)
    requires
        within(edits@, source@.len() as int),
        forall|i: int| 0 <= i < edits@.len() ==> (#[trigger] edits@[i]).0 < spans@.len(),
    ensures
        match spec_outermost(edits@) {
            Ok((kept, dropped)) => r matches Ok(p) && p.edits@ == only_edits(kept) && p.dropped == dropped
                && p.sites == site_indices(kept).len() && site_views(p.at@) == sites_in_order(
                source@,
                kept,
                site_indices(kept),
            ) && p.matched@ == site_spans(site_indices(kept), spans@) && p.matched@.len() == p.sites,
            Err((first, second)) => r matches Err(Refusal::Overlap { first: f, second: s }) && f == first && s
                == second && f.start <= s.start && s.start < f.end && f.end < s.end,
        },
{
    proof {
        law_an_overlap_is_partial(edits@);
        if spec_outermost(edits@) is Ok {
            law_planned_edits_apply_cleanly(edits@, source@.len() as int);
        }
    }
    let ghost given = edits@;
    let (kept, dropped) = match outermost(edits) {
        Ok(found) => found,
        Err(refusal) => {
            return Err(refusal);
        },
    };
    let indices = indices_of(&kept);
    proof {
        let sorted = sort_edits(given);
        lemma_sort_from(given);
        lemma_sweep_from(sorted);
        assert forall|i: int| 0 <= i < kept@.len() implies (#[trigger] kept@[i]).0 < spans@.len() by {
            let q = choose|q: int| 0 <= q < sorted.len() && sorted[q] == kept@[i];
            let p = choose|p: int| 0 <= p < given.len() && given[p] == sorted[q];
        }
        lemma_site_indices_bound(kept@, spans@.len() as int);
    }
    let matched = spans_of_sites(&indices, spans);
    proof {
        lemma_sort_spans_len(indices@.map_values(|i: usize| spans@[i as int]));
    }
    let mut at: Vec<Site> = Vec::new();
    let mut k: usize = 0;
    while k < indices.len()
        invariant
            k <= indices@.len(),
            indices@ == site_indices(kept@),
            well_placed(kept@, source@.len() as int),
            site_views(at@) == sites_in_order(source@, kept@, indices@.take(k as int)),
        decreases indices@.len() - k,
    {
        proof {
            assert(indices@.take(k + 1).drop_last() =~= indices@.take(k as int));
            assert(indices@.take(k + 1).last() == indices@[k as int]);
            assert(site_indices(kept@).contains(indices@[k as int]));
        }
        let site = site_of(source, &kept, indices[k]);
        let mut p: usize = at.len();
        while p > 0 && at[p - 1].start > site.start
            invariant
                p <= at@.len(),
                forall|j: int| p <= j < at@.len() ==> (#[trigger] at@[j]).start > site.start,
            decreases p,
        {
            p -= 1;
        }
        proof {
            lemma_insert_site(site_views(at@), site.view(), p as int);
        }
        let ghost was = site_views(at@);
        at.insert(p, site);
        proof {
            assert(site_views(at@) =~= was.insert(p as int, site.view()));
        }
        k += 1;
    }
    proof {
        assert(indices@.take(indices@.len() as int) =~= indices@);
    }
    let sites = indices.len();
    let ghost all = kept@;
    let mut rest = kept;
    let mut out: Vec<Edit> = Vec::new();
    let mut i: usize = 0;
    assert(all.len() == rest.len());
    while rest.len() > 0
        invariant
            i <= all.len(),
            all.len() <= usize::MAX,
            rest@ == all.skip(i as int),
            rest@.len() == all.len() - i,
            out@ == only_edits(all.take(i as int)),
        decreases rest@.len(),
    {
        let x = rest.remove(0);
        proof {
            assert(x == all[i as int]);
            assert(rest@ =~= all.skip(i + 1));
        }
        out.push(x.1);
        proof {
            assert(out@ =~= only_edits(all.take(i + 1)));
        }
        i += 1;
    }
    proof {
        assert(all.take(all.len() as int) =~= all);
    }
    Ok(Planned { edits: out, sites, at, dropped, matched })
}

} // verus!

verus! {

/// A match, as planning needs it: the matched node's extent, what its
/// metavariables bound, the inside of its delimiters (or the node itself
/// where it has none), and the minimal edits that turn it into the template,
/// where pattern and template agree in shape.
pub struct Matched {
    pub span: Span,
    pub env: Vec<(String, Bound)>,
    pub inner: (usize, usize),
    pub minimal: Option<Vec<Edit>>,
}

/// What planning needs of a match: its node within the source, its
/// bindings within the source, every sequence the template reorders
/// reorderable, and its minimal edits within the source.
pub open spec fn match_fits(m: Matched, t: Seq<u8>, s: Seq<u8>) -> bool {
    &&& m.span.start <= m.span.end <= s.len()
    &&& env_fits(s, m.env@)
    &&& template_renderable(t, m.env@, s, m.inner)
    &&& m.minimal matches Some(found) ==> forall|k: int|
        0 <= k < found@.len() ==> (#[trigger] found@[k]).start <= found@[k].end <= s.len()
}

/// Whether an empty template: one that deletes what it matches.
pub open spec fn deletes(t: Seq<char>) -> bool {
    spec_trim(t).len() == 0
}

/// The edits match `i` contributes, each tagged with `i`: its minimal edits
/// where there are some (none when the match already reads as the
/// template); otherwise, for a deletion, the match's unit; otherwise the
/// whole span replaced by the rendered template.
pub open spec fn edits_of_match(i: usize, m: Matched, t: &str, s: Seq<u8>, v: Seq<(usize, Edit)>) -> bool {
    match m.minimal {
        Some(found) => v == found@.map_values(|e: Edit| (i, e)),
        None => if deletes(t@) {
            spec_unit_range(s, (m.span.start as int, m.span.end as int)) matches Some((a, b)) && v.len() == 1
                && v[0].0 == i && v[0].1.start == a && v[0].1.end == b && v[0].1.text@.len() == 0
        } else {
            spec_render_template(t.spec_bytes(), m.env@, s, m.inner) matches Ok(text) && v.len() == 1 && v[0].0 == i
                && v[0].1.start == m.span.start && v[0].1.end == m.span.end && v[0].1.text@ == text
        },
    }
}

/// Whether a match can be turned into edits.
pub open spec fn match_plans(m: Matched, t: &str, s: Seq<u8>) -> bool {
    match m.minimal {
        Some(_) => true,
        None => if deletes(t@) {
            spec_unit_range(s, (m.span.start as int, m.span.end as int)) is Some
        } else {
            spec_render_template(t.spec_bytes(), m.env@, s, m.inner) is Ok
        },
    }
}

/// Why a match that cannot be turned into edits is refused: a deletion that
/// would leave a hole names the text it would delete.
pub open spec fn match_refusal(m: Matched, t: &str, s: Seq<u8>, x: Refusal) -> bool {
    if deletes(t@) {
        x matches Refusal::PartialDeletion { text } && text@ == lossy_chars(
            s.subrange(m.span.start as int, m.span.end as int),
        )
    } else {
        spec_render_template(t.spec_bytes(), m.env@, s, m.inner) matches Err(e) && refused_as(x, e)
    }
}

/// The edits of one match.
pub fn match_edits(i: usize, m: Matched, template: &str, source: &[u8]) -> (r: Result<Vec<(usize, Edit)>, Refusal>)
    requires
        match_fits(m, template.spec_bytes(), source@),
    ensures
        match r {
            Ok(v) => match_plans(m, template, source@) && edits_of_match(i, m, template, source@, v@) && within(
                v@,
                source@.len() as int,
            ),
            Err(x) => !match_plans(m, template, source@) && match_refusal(m, template, source@, x),
        },
{
    let Matched { span, env, inner, minimal } = m;
    match minimal {
        Some(found) => {
            let ghost all = found@;
            let mut rest = found;
            let mut out: Vec<(usize, Edit)> = Vec::new();
            let mut k: usize = 0;
            let total = rest.len();
            assert(all.len() == total);
            while rest.len() > 0
                invariant
                    k <= all.len(),
                    all.len() <= usize::MAX,
                    rest@.len() == all.len() - k,
                    rest@ == all.skip(k as int),
                    out@ == all.take(k as int).map_values(|e: Edit| (i, e)),
                    forall|j: int| 0 <= j < all.len() ==> (#[trigger] all[j]).start <= all[j].end <= source@.len(),
                decreases rest@.len(),
            {
                let e = rest.remove(0);
                proof {
                    assert(e == all[k as int]);
                    assert(rest@ =~= all.skip(k + 1));
                }
                out.push((i, e));
                proof {
                    assert(out@ =~= all.take(k + 1).map_values(|e: Edit| (i, e)));
                }
                k += 1;
            }
            proof {
                assert(all.take(all.len() as int) =~= all);
            }
            Ok(out)
        },
        None => {
            if trim(template).is_empty() {
                match unit_range(source, (span.start, span.end)) {
                    Some((start, end)) => {
                        let mut out: Vec<(usize, Edit)> = Vec::new();
                        out.push((i, Edit { start, end, text: String::new() }));
                        Ok(out)
                    },
                    None => Err(Refusal::PartialDeletion { text: lossy_string(&source[span.start..span.end]) }),
                }
            } else {
                match render(template, &env, source, inner) {
                    Ok(text) => {
                        let mut out: Vec<(usize, Edit)> = Vec::new();
                        out.push((i, Edit { start: span.start, end: span.end, text }));
                        Ok(out)
                    },
                    Err(x) => Err(x),
                }
            }
        },
    }
}

/// The edits of the first `k` matches, each match's in turn.
pub open spec fn edits_upto(ms: Seq<Matched>, t: &str, s: Seq<u8>, k: int, v: Seq<(usize, Edit)>) -> bool
    decreases k,
{
    if k <= 0 {
        v.len() == 0
    } else {
        exists|n: int|
            0 <= n <= v.len() && edits_upto(ms, t, s, k - 1, v.take(n)) && #[trigger] edits_of_match(
                (k - 1) as usize,
                ms[k - 1],
                t,
                s,
                v.skip(n),
            )
    }
}

proof fn lemma_edits_upto_step(
    ms: Seq<Matched>,
    t: &str,
    s: Seq<u8>,
    k: int,
    before: Seq<(usize, Edit)>,
    vs: Seq<(usize, Edit)>,
)
    requires
        0 <= k < ms.len(),
        edits_upto(ms, t, s, k, before),
        edits_of_match(k as usize, ms[k], t, s, vs),
    ensures
        edits_upto(ms, t, s, k + 1, before + vs),
{
    let v = before + vs;
    let n = before.len() as int;
    assert(v.take(n) =~= before);
    assert(v.skip(n) =~= vs);
    assert(((k + 1) - 1) as usize == k as usize);
    assert(edits_of_match(((k + 1) - 1) as usize, ms[(k + 1) - 1], t, s, v.skip(n)));
}

proof fn lemma_edits_upto_bound(ms: Seq<Matched>, t: &str, s: Seq<u8>, k: int, v: Seq<(usize, Edit)>)
    requires
        0 <= k <= ms.len(),
        edits_upto(ms, t, s, k, v),
    ensures
        forall|i: int| 0 <= i < v.len() ==> (#[trigger] v[i]).0 < k,
    decreases k,
{
    if k > 0 {
        let n = choose|n: int|
            0 <= n <= v.len() && edits_upto(ms, t, s, k - 1, v.take(n)) && #[trigger] edits_of_match(
                (k - 1) as usize,
                ms[k - 1],
                t,
                s,
                v.skip(n),
            );
        lemma_edits_upto_bound(ms, t, s, k - 1, v.take(n));
        let tail = v.skip(n);
        assert forall|i: int| 0 <= i < v.len() implies (#[trigger] v[i]).0 < k by {
            if i < n {
                assert(v[i] == v.take(n)[i]);
            } else {
                assert(v[i] == tail[i - n]);
                match ms[k - 1].minimal {
                    Some(found) => {
                        assert(tail == found@.map_values(|e: Edit| ((k - 1) as usize, e)));
                    },
                    None => {},
                }
            }
        }
    }
}

/// Ascending without repeats.
pub open spec fn ascending(s: Seq<usize>) -> bool {
    forall|i: int, j: int| 0 <= i < j < s.len() ==> (#[trigger] s[i]) < (#[trigger] s[j])
}

proof fn lemma_insert_index_ascending(t: Seq<usize>, x: usize)
    requires
        ascending(t),
        !t.contains(x),
    ensures
        ascending(insert_index(t, x)),
        forall|i: int| 0 <= i < insert_index(t, x).len() ==> #[trigger] insert_index(t, x)[i] == x || t.contains(
            insert_index(t, x)[i],
        ),
    decreases t.len(),
{
    let r = insert_index(t, x);
    if t.len() > 0 && t.last() > x {
        let d = t.drop_last();
        assert(ascending(d)) by {
            assert forall|i: int, j: int| 0 <= i < j < d.len() implies (#[trigger] d[i]) < (#[trigger] d[j]) by {
                assert(d[i] == t[i] && d[j] == t[j]);
            }
        }
        assert(!d.contains(x)) by {
            if d.contains(x) {
                let q = choose|q: int| 0 <= q < d.len() && d[q] == x;
                assert(t[q] == x);
            }
        }
        lemma_insert_index_ascending(d, x);
        let u = insert_index(d, x);
        assert forall|i: int| 0 <= i < r.len() implies #[trigger] r[i] == x || t.contains(r[i]) by {
            if i < u.len() {
                assert(r[i] == u[i]);
                if u[i] != x {
                    let q = choose|q: int| 0 <= q < d.len() && d[q] == u[i];
                    assert(t[q] == u[i]);
                }
            } else {
                assert(r[i] == t[t.len() - 1]);
            }
        }
        assert forall|i: int, j: int| 0 <= i < j < r.len() implies (#[trigger] r[i]) < (#[trigger] r[j]) by {
            if j < u.len() {
                assert(r[i] == u[i] && r[j] == u[j]);
            } else {
                assert(r[i] == u[i]);
                assert(r[j] == t.last());
                if u[i] != x {
                    let q = choose|q: int| 0 <= q < d.len() && d[q] == u[i];
                    assert(t[q] == u[i]);
                }
            }
        }
    } else if t.len() > 0 {
        assert(t[t.len() - 1] != x);
        assert forall|i: int| 0 <= i < r.len() implies #[trigger] r[i] == x || t.contains(r[i]) by {
            if i < t.len() {
                assert(r[i] == t[i]);
            }
        }
        assert forall|i: int, j: int| 0 <= i < j < r.len() implies (#[trigger] r[i]) < (#[trigger] r[j]) by {
            if j < t.len() {
                assert(r[i] == t[i] && r[j] == t[j]);
            } else {
                assert(r[i] == t[i]);
                if i < t.len() - 1 {
                    assert(t[i] < t[t.len() - 1]);
                }
            }
        }
    }
}

proof fn lemma_site_indices_bound(kept: Seq<(usize, Edit)>, n: int)
    requires
        forall|i: int| 0 <= i < kept.len() ==> (#[trigger] kept[i]).0 < n,
    ensures
        ascending(site_indices(kept)),
        forall|i: int| 0 <= i < site_indices(kept).len() ==> #[trigger] site_indices(kept)[i] < n,
    decreases kept.len(),
{
    if kept.len() > 0 {
        let d = kept.drop_last();
        assert forall|i: int| 0 <= i < d.len() implies (#[trigger] d[i]).0 < n by {
            assert(d[i] == kept[i]);
        }
        lemma_site_indices_bound(d, n);
        let t = site_indices(d);
        if !t.contains(kept.last().0) {
            lemma_insert_index_ascending(t, kept.last().0);
            let r = site_indices(kept);
            assert forall|i: int| 0 <= i < r.len() implies #[trigger] r[i] < n by {
                if r[i] != kept.last().0 {
                    let q = choose|q: int| 0 <= q < t.len() && t[q] == r[i];
                }
            }
        }
    }
}

proof fn lemma_ascending_len(s: Seq<usize>, n: int)
    requires
        0 <= n,
        ascending(s),
        forall|i: int| 0 <= i < s.len() ==> #[trigger] s[i] < n,
    ensures
        s.len() <= n,
    decreases s.len(),
{
    if s.len() > 0 {
        let d = s.drop_last();
        let m = s[s.len() - 1] as int;
        assert forall|i: int| 0 <= i < d.len() implies #[trigger] d[i] < m by {
            assert(d[i] == s[i]);
        }
        assert(ascending(d)) by {
            assert forall|i: int, j: int| 0 <= i < j < d.len() implies (#[trigger] d[i]) < (#[trigger] d[j]) by {
                assert(d[i] == s[i] && d[j] == s[j]);
            }
        }
        lemma_ascending_len(d, m);
        assert(s[s.len() - 1] < n);
    }
}

/// No more sites change than there are matches.
proof fn lemma_sites_within(ms: Seq<Matched>, t: &str, s: Seq<u8>, v: Seq<(usize, Edit)>)
    requires
        edits_upto(ms, t, s, ms.len() as int, v),
        spec_outermost(v) is Ok,
    ensures
        site_indices(spec_outermost(v)->Ok_0.0).len() <= ms.len(),
{
    lemma_edits_upto_bound(ms, t, s, ms.len() as int, v);
    let sorted = sort_edits(v);
    lemma_sort_from(v);
    lemma_sweep_from(sorted);
    let kept = spec_outermost(v)->Ok_0.0;
    assert forall|i: int| 0 <= i < kept.len() implies (#[trigger] kept[i]).0 < ms.len() by {
        let q = choose|q: int| 0 <= q < sorted.len() && sorted[q] == kept[i];
        let p = choose|p: int| 0 <= p < v.len() && v[p] == sorted[q];
    }
    lemma_site_indices_bound(kept, ms.len() as int);
    lemma_ascending_len(site_indices(kept), ms.len() as int);
}

/// Each match's node span.
pub open spec fn match_spans(ms: Seq<Matched>) -> Seq<(usize, usize)> {
    ms.map_values(|m: Matched| (m.span.start, m.span.end))
}

/// The first match that cannot be turned into edits is `k`, and `x` is why.
pub open spec fn first_refusal(ms: Seq<Matched>, t: &str, s: Seq<u8>, k: int, x: Refusal) -> bool {
    &&& 0 <= k < ms.len()
    &&& forall|j: int| 0 <= j < k ==> match_plans(#[trigger] ms[j], t, s)
    &&& !match_plans(ms[k], t, s)
    &&& match_refusal(ms[k], t, s, x)
}

pub open spec fn all_fit(ms: Seq<Matched>, t: Seq<u8>, s: Seq<u8>) -> bool {
    forall|i: int| 0 <= i < ms.len() ==> match_fits(#[trigger] ms[i], t, s)
}

/// The edits of every match, in match order; or the refusal of the first
/// match that cannot be turned into edits.
pub fn edits_for(matches: Vec<Matched>, template: &str, source: &[u8]) -> (r: Result<Vec<(usize, Edit)>, Refusal>)
    requires
        all_fit(matches@, template.spec_bytes(), source@),
    ensures
        match r {
            Ok(v) => (forall|i: int| 0 <= i < matches@.len() ==> match_plans(#[trigger] matches@[i], template, source@))
                && edits_upto(matches@, template, source@, matches@.len() as int, v@) && within(v@, source@.len() as int),
            Err(x) => exists|k: int| first_refusal(matches@, template, source@, k, x),
        },
{
    let ghost all = matches@;
    let mut rest = matches;
    let total = rest.len();
    let mut out: Vec<(usize, Edit)> = Vec::new();
    let mut k: usize = 0;
    while rest.len() > 0
        invariant
            k <= all.len() == total,
            all == matches@,
            rest@.len() == all.len() - k,
            rest@ == all.skip(k as int),
            all_fit(all, template.spec_bytes(), source@),
            forall|j: int| 0 <= j < k ==> match_plans(#[trigger] all[j], template, source@),
            edits_upto(all, template, source@, k as int, out@),
            within(out@, source@.len() as int),
        decreases rest@.len(),
    {
        let m = rest.remove(0);
        proof {
            assert(m == all[k as int]);
            assert(rest@ =~= all.skip(k + 1));
            assert(match_fits(all[k as int], template.spec_bytes(), source@));
        }
        match match_edits(k, m, template, source) {
            Ok(mut v) => {
                let ghost before = out@;
                let ghost vs = v@;
                out.append(&mut v);
                proof {
                    assert(out@ =~= before + vs);
                    lemma_edits_upto_step(all, template, source@, k as int, before, vs);
                    assert forall|j: int| 0 <= j < out@.len() implies (#[trigger] out@[j]).1.start <= out@[j].1.end
                        <= source@.len() by {
                        if j < before.len() {
                            assert(out@[j] == before[j]);
                        } else {
                            assert(out@[j] == vs[j - before.len()]);
                        }
                    }
                }
            },
            Err(x) => {
                assert(first_refusal(all, template, source@, k as int, x));
                return Err(x);
            },
        }
        k += 1;
    }
    Ok(out)
}

/// What planning `ms` against a template makes of a source: the edits of
/// every match, kept outermost first with contained ones dropped and
/// counted; the changed sites, each once, with their spans and whole lines;
/// and edits in order and apart, ready to apply.
pub open spec fn planned_from(ms: Seq<Matched>, template: &str, source: Seq<u8>, p: Planned) -> bool {
    exists|v: Seq<(usize, Edit)>|
        {
            &&& edits_upto(ms, template, source, ms.len() as int, v)
            &&& spec_outermost(v) matches Ok((kept, dropped))
            &&& p.edits@ == only_edits(kept)
            &&& p.dropped == dropped
            &&& p.sites == site_indices(kept).len()
            &&& p.sites <= ms.len()
            &&& p.matched@ == site_spans(site_indices(kept), match_spans(ms))
            &&& p.matched@.len() == p.sites
            &&& site_views(p.at@) == sites_in_order(source, kept, site_indices(kept))
            &&& crate::rewrite::ordered_edits(p.edits@, source.len() as int)
        }
}

/// Why planning `ms` is refused: the first match that cannot be turned into
/// edits, or two edits that partly overlap.
pub open spec fn plan_refusal(ms: Seq<Matched>, template: &str, source: Seq<u8>, x: Refusal) -> bool {
    (exists|k: int| first_refusal(ms, template, source, k, x)) || exists|v: Seq<(usize, Edit)>|
        {
            &&& edits_upto(ms, template, source, ms.len() as int, v)
            &&& spec_outermost(v) matches Err((first, second))
            &&& x matches Refusal::Overlap { first: f, second: s } && f == first && s == second && f.start
                <= s.start && s.start < f.end && f.end < s.end
        }
}

/// Turn matches into a plan: each match's edits, then outermost first, a
/// contained edit dropped and counted, a partial overlap refused; and for
/// each changed site, its whole lines and what they become.
pub fn plan(matches: Vec<Matched>, template: &str, source: &[u8]) -> (r: Result<Planned, Refusal>)
    requires
        all_fit(matches@, template.spec_bytes(), source@),
    ensures
        match r {
            Ok(p) => planned_from(matches@, template, source@, p),
            Err(x) => plan_refusal(matches@, template, source@, x),
        },
{
    let ghost all = matches@;
    let mut spans: Vec<(usize, usize)> = Vec::new();
    let mut k: usize = 0;
    while k < matches.len()
        invariant
            k <= matches@.len(),
            all == matches@,
            spans@ == match_spans(matches@.take(k as int)),
        decreases matches@.len() - k,
    {
        spans.push((matches[k].span.start, matches[k].span.end));
        proof {
            assert(match_spans(matches@.take(k + 1)) =~= match_spans(matches@.take(k as int)).push(
                (matches@[k as int].span.start, matches@[k as int].span.end),
            ));
        }
        k += 1;
    }
    proof {
        assert(matches@.take(matches@.len() as int) =~= matches@);
    }
    let edits = match edits_for(matches, template, source) {
        Ok(v) => v,
        Err(x) => {
            return Err(x);
        },
    };
    let ghost v = edits@;
    proof {
        if spec_outermost(v) is Ok {
            lemma_sites_within(all, template, source@, v);
        }
        lemma_edits_upto_bound(all, template, source@, all.len() as int, v);
    }
    let r = plan_edits(edits, &spans, source);
    proof {
        if spec_outermost(v) is Ok {
            law_planned_edits_apply_cleanly(v, source@.len() as int);
            let kept = spec_outermost(v)->Ok_0.0;
            let e = only_edits(kept);
            assert forall|k: int| 0 <= k < e.len() implies (#[trigger] e[k]).start <= e[k].end <= source@.len() by {
                assert(e[k] == kept[k].1);
            }
            assert forall|k: int| 0 < k < e.len() implies e[k - 1].end <= #[trigger] e[k].start by {
                assert(e[k] == kept[k].1);
                assert(e[k - 1] == kept[k - 1].1);
            }
        }
    }
    r
}

} // verus!
