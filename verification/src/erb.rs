//! ERB templates, translated to Ruby with a map back.
//!
//! The tag bodies are stitched into one Ruby program, matched structurally
//! like any other source, and each edit is mapped back to the template it came
//! from. A tag on its own often does not parse -- `<% @posts.each do |p| %>`
//! opens a block that `<% end %>` closes three tags later -- but joined in
//! document order they are one program.

use crate::rewrite::Edit;
use crate::text::{find, first_occ, spec_space};
use vstd::prelude::*;

verus! {

/// One tag body, and where it came from.
#[derive(Debug, Clone, Copy)]
pub struct Fragment {
    /// Byte offset of the body within the generated Ruby.
    pub ruby: usize,
    /// Byte offset of the body within the template.
    pub template: usize,
    pub len: usize,
}

/// A template as Ruby, with the map needed to write back to it.
#[derive(Debug)]
pub struct Translated {
    pub ruby: Vec<u8>,
    pub fragments: Vec<Fragment>,
}

/// Where `<%` and `%>` sit, as bytes.
pub open spec fn open_tag() -> Seq<u8> {
    seq![60u8, 37u8]
}

pub open spec fn close_tag() -> Seq<u8> {
    seq![37u8, 62u8]
}

/// Past the sigils `=`, `-` and `#` that introduce a tag body.
pub open spec fn sigil_end(t: Seq<u8>, i: int) -> int
    decreases t.len() - i,
{
    if 0 <= i < t.len() && (t[i] == 61 || t[i] == 45 || t[i] == 35) {
        sigil_end(t, i + 1)
    } else {
        i
    }
}

/// Past leading ASCII whitespace in `t[i..end]`.
pub open spec fn skip_space(t: Seq<u8>, i: int, end: int) -> int
    decreases end - i,
{
    if i < end && 0 <= i < t.len() && spec_space(t[i]) {
        skip_space(t, i + 1, end)
    } else {
        i
    }
}

/// Before trailing ASCII whitespace in `t[start..e]`.
pub open spec fn drop_space(t: Seq<u8>, start: int, e: int) -> int
    decreases e - start,
{
    if start < e && 0 <= e - 1 < t.len() && spec_space(t[e - 1]) {
        drop_space(t, start, e - 1)
    } else {
        e
    }
}

/// A fragment as plain values.
pub struct SpecFragment {
    pub ruby: int,
    pub template: int,
    pub len: int,
}

/// The Ruby extracted from `at` on, given the Ruby and fragments so far.
pub open spec fn translate_from(t: Seq<u8>, at: int, ruby: Seq<u8>, frags: Seq<SpecFragment>) -> (Seq<u8>, Seq<SpecFragment>)
    decreases t.len() + 1 - at,
{
    if at < 0 || at > t.len() {
        (ruby, frags)
    } else {
        match first_occ(t, open_tag(), at) {
            None => (ruby, frags),
            Some(open) => {
                let after = open + 2;
                if after < t.len() && t[after] == 37 {
                    if after + 1 > at {
                        translate_from(t, after + 1, ruby, frags)
                    } else {
                        (ruby, frags)
                    }
                } else {
                    match first_occ(t, close_tag(), after) {
                        None => (ruby, frags),
                        Some(close) => {
                            let comment = after < t.len() && t[after] == 35;
                            let body = sigil_end(t, after);
                            let end = if close > body && t[close - 1] == 45 {
                                close - 1
                            } else {
                                close
                            };
                            let ts = skip_space(t, body, end);
                            let te = drop_space(t, ts, end);
                            let (ruby2, frags2) = if !comment && end > body && te > ts {
                                (
                                    ruby + t.subrange(ts, te) + seq![10u8],
                                    frags.push(SpecFragment { ruby: ruby.len() as int, template: ts, len: te - ts }),
                                )
                            } else {
                                (ruby, frags)
                            };
                            if at < close + 2 <= t.len() {
                                translate_from(t, close + 2, ruby2, frags2)
                            } else {
                                (ruby, frags)
                            }
                        },
                    }
                }
            },
        }
    }
}

/// All the Ruby a template holds, with its fragments.
pub open spec fn spec_translate(t: Seq<u8>) -> (Seq<u8>, Seq<SpecFragment>) {
    translate_from(t, 0, Seq::empty(), Seq::empty())
}

impl Fragment {
    pub open spec fn view(self) -> SpecFragment {
        SpecFragment { ruby: self.ruby as int, template: self.template as int, len: self.len as int }
    }
}

pub open spec fn frag_views(f: Seq<Fragment>) -> Seq<SpecFragment> {
    f.map_values(|x: Fragment| x.view())
}

/// The first fragment whose Ruby span holds offset `at` (its end included).
pub open spec fn holding(f: Seq<SpecFragment>, at: int) -> Option<int>
    decreases f.len(),
{
    if f.len() == 0 {
        None
    } else if holding(f.drop_last(), at) is Some {
        holding(f.drop_last(), at)
    } else if f.last().ruby <= at <= f.last().ruby + f.last().len {
        Some(f.len() - 1)
    } else {
        None
    }
}

/// Where a Ruby byte range sits in the template, or `None` when it crosses
/// a fragment boundary.
pub open spec fn spec_to_template(f: Seq<SpecFragment>, start: int, end: int) -> Option<(int, int)> {
    let e = if end > start {
        end
    } else {
        start
    };
    match (holding(f, start), holding(f, e)) {
        (Some(a), Some(b)) => if f[a].ruby == f[b].ruby {
            Some((f[a].template + (start - f[a].ruby), f[a].template + (end - f[a].ruby)))
        } else {
            None
        },
        _ => None,
    }
}

pub proof fn lemma_holding(f: Seq<SpecFragment>, at: int)
    ensures
        holding(f, at) matches Some(k) ==> 0 <= k < f.len() && f[k].ruby <= at <= f[k].ruby + f[k].len,
        holding(f, at) is None ==> forall|k: int| 0 <= k < f.len() ==> !(#[trigger] f[k].ruby <= at <= f[k].ruby + f[k].len),
        forall|k: int| 0 <= k < f.len() && #[trigger] f[k].ruby <= at <= f[k].ruby + f[k].len ==> (holding(f, at) matches Some(h) && h <= k),
    decreases f.len(),
{
    if f.len() > 0 {
        lemma_holding(f.drop_last(), at);
        assert forall|k: int| 0 <= k < f.len() - 1 implies #[trigger] f[k] == f.drop_last()[k] by {}
    }
}

/// Fragments that fit in `usize` arithmetic and lie inside the Ruby text.
pub open spec fn fits(f: Seq<SpecFragment>, ruby_len: int) -> bool {
    forall|k: int|
        0 <= k < f.len() ==> 0 <= #[trigger] f[k].ruby && 0 <= f[k].len && f[k].ruby + f[k].len < ruby_len
            && f[k].ruby + f[k].len <= usize::MAX && 0 <= f[k].template && f[k].template + f[k].len
            <= usize::MAX
}

/// Fragments appear in Ruby order, separated.
pub open spec fn ordered(f: Seq<SpecFragment>) -> bool {
    forall|j: int, k: int| 0 <= j < k < f.len() ==> #[trigger] f[j].ruby + f[j].len < #[trigger] f[k].ruby
}

impl Translated {
    /// The fragments, as plain values.
    pub open spec fn frags(&self) -> Seq<SpecFragment> {
        frag_views(self.fragments@)
    }

    /// Every fragment lies inside the generated Ruby.
    pub open spec fn wf(&self) -> bool {
        fits(self.frags(), self.ruby@.len() as int) && ordered(self.frags())
    }

    /// Where a Ruby byte range sits in the template.
    ///
    /// `None` when the range crosses a fragment boundary: those bytes include
    /// template text that is not Ruby at all, and rewriting through them would
    /// splice HTML into a Ruby expression.
    pub fn to_template(&self, start: usize, end: usize) -> (r: Option<(usize, usize)>)
        requires
            self.wf(),
            start <= end,
        ensures
            match (r, spec_to_template(self.frags(), start as int, end as int)) {
                (None, None) => true,
                (Some((a, b)), Some((x, y))) => a == x && b == y,
                _ => false,
            },
    {
        proof {
            lemma_holding(self.frags(), start as int);
            lemma_holding(self.frags(), end as int);
        }
        let first = self.holding(start);
        let last = self.holding(if end > start { end } else { start });
        match (first, last) {
            (Some(a), Some(b)) => {
                let fa = self.fragments[a];
                let fb = self.fragments[b];
                proof {
                    assert(self.frags()[a as int] == fa.view());
                    assert(self.frags()[b as int] == fb.view());
                }
                if fa.ruby != fb.ruby {
                    return None;
                }
                proof {
                    if a != b {
                        if a < b {
                            assert(self.frags()[a as int].ruby + self.frags()[a as int].len < self.frags()[b as int].ruby);
                        } else {
                            assert(self.frags()[b as int].ruby + self.frags()[b as int].len < self.frags()[a as int].ruby);
                        }
                    }
                }
                Some((fa.template + (start - fa.ruby), fa.template + (end - fa.ruby)))
            },
            _ => None,
        }
    }

    fn holding(&self, at: usize) -> (r: Option<usize>)
        requires
            self.wf(),
        ensures
            match (r, holding(self.frags(), at as int)) {
                (None, None) => true,
                (Some(a), Some(b)) => a == b,
                _ => false,
            },
    {
        let mut k: usize = 0;
        proof {
            lemma_holding(self.frags(), at as int);
        }
        while k < self.fragments.len()
            invariant
                k <= self.fragments@.len(),
                self.wf(),
                forall|j: int| 0 <= j < k ==> !(#[trigger] self.frags()[j].ruby <= at <= self.frags()[j].ruby + self.frags()[j].len),
            decreases self.fragments@.len() - k,
        {
            let f = self.fragments[k];
            proof {
                assert(self.frags()[k as int] == f.view());
                assert(0 <= self.frags()[k as int].ruby);
            }
            if at >= f.ruby && at <= f.ruby + f.len {
                proof {
                    let fs = self.frags();
                    lemma_holding(fs, at as int);
                    assert(fs[k as int].ruby <= at <= fs[k as int].ruby + fs[k as int].len);
                    let h = holding(fs, at as int)->0;
                    assert(h <= k);
                    if h < k {
                        assert(!(fs[h].ruby <= at <= fs[h].ruby + fs[h].len));
                    }
                }
                return Some(k);
            }
            k += 1;
        }
        proof {
            lemma_holding(self.frags(), at as int);
        }
        None
    }
}

/// Each fragment's Ruby is the template text it was taken from.
pub open spec fn faithful(f: Seq<SpecFragment>, ruby: Seq<u8>, t: Seq<u8>) -> bool {
    forall|k: int|
        0 <= k < f.len() ==> #[trigger] f[k].template + f[k].len <= t.len() && ruby.subrange(
            f[k].ruby,
            f[k].ruby + f[k].len,
        ) == t.subrange(f[k].template, f[k].template + f[k].len)
}

impl Translated {
    /// Every fragment describes `template`: every fragment's Ruby is the
    /// template's own text.
    pub open spec fn faithful_to(&self, template: Seq<u8>) -> bool {
        faithful(self.frags(), self.ruby@, template)
    }

    /// What `spec_translate` says of the template.
    pub open spec fn is_ruby_of(&self, template: Seq<u8>) -> bool {
        self.ruby@ == spec_translate(template).0 && self.frags() == spec_translate(template).1
    }
}

/// A Ruby range maps back to the template exactly when one tag body's Ruby
/// span (its end included) holds both ends; and where it maps, it lands on
/// template text of the same length equal to the Ruby it came from.
pub proof fn law_a_mapped_span_carries_equal_text(tr: Translated, template: Seq<u8>, s: int, e: int)
    requires
        tr.wf(),
        tr.faithful_to(template),
        0 <= s <= e,
    ensures
        spec_to_template(tr.frags(), s, e) is Some <==> exists|k: int|
            0 <= k < tr.frags().len() && #[trigger] tr.frags()[k].ruby <= s && e <= tr.frags()[k].ruby
                + tr.frags()[k].len,
        spec_to_template(tr.frags(), s, e) matches Some((ts, te)) ==> te - ts == e - s && template.subrange(
            ts,
            te,
        ) == tr.ruby@.subrange(s, e),
{
    let f = tr.frags();
    lemma_holding(f, s);
    lemma_holding(f, e);
    if spec_to_template(f, s, e) is Some {
        let a = holding(f, s)->0;
        let b = holding(f, e)->0;
        if a != b {
            if a < b {
                assert(f[a].ruby + f[a].len < f[b].ruby);
            } else {
                assert(f[b].ruby + f[b].len < f[a].ruby);
            }
        }
        assert(f[a].ruby <= s && e <= f[a].ruby + f[a].len);
        let fa = f[a];
        let ts = fa.template + (s - fa.ruby);
        let te = fa.template + (e - fa.ruby);
        assert(tr.ruby@.subrange(fa.ruby, fa.ruby + fa.len) == template.subrange(fa.template, fa.template + fa.len));
        assert(template.subrange(ts, te) =~= template.subrange(fa.template, fa.template + fa.len).subrange(
            s - fa.ruby,
            e - fa.ruby,
        ));
        assert(tr.ruby@.subrange(s, e) =~= tr.ruby@.subrange(fa.ruby, fa.ruby + fa.len).subrange(
            s - fa.ruby,
            e - fa.ruby,
        ));
    }
    if exists|k: int|
        0 <= k < f.len() && #[trigger] f[k].ruby <= s && e <= f[k].ruby + f[k].len {
        let k = choose|k: int| 0 <= k < f.len() && #[trigger] f[k].ruby <= s && e <= f[k].ruby + f[k].len;
        assert(f[k].ruby <= s <= f[k].ruby + f[k].len);
        assert(f[k].ruby <= e <= f[k].ruby + f[k].len);
        let a = holding(f, s)->0;
        let b = holding(f, e)->0;
        if a != k {
            assert(f[a].ruby + f[a].len < f[k].ruby);
        }
        if b != k {
            assert(f[b].ruby + f[b].len < f[k].ruby);
        }
    }
}

pub proof fn lemma_first_occ_some(hay: Seq<u8>, needle: Seq<u8>, from: int)
    ensures
        first_occ(hay, needle, from) matches Some(i) ==> from <= i && i + needle.len() <= hay.len()
            && hay.subrange(i, i + needle.len()) == needle,
    decreases hay.len() + 1 - from,
{
    if from < 0 || from > hay.len() {
    } else if crate::text::occurs_at(hay, needle, from) {
    } else {
        lemma_first_occ_some(hay, needle, from + 1);
    }
}

/// Pull the Ruby out of an ERB template.
///
/// Returns `None` when the template holds no Ruby at all, so a page of static
/// HTML costs nothing beyond the scan.
pub fn translate(template: &[u8]) -> (r: Option<Translated>)
    ensures
        match r {
            None => spec_translate(template@).1.len() == 0,
            Some(tr) => tr.wf() && tr.is_ruby_of(template@) && tr.faithful_to(template@)
                && spec_translate(template@).1.len() > 0,
        },
{
    let ghost t = template@;
    let mut ruby: Vec<u8> = Vec::new();
    let mut fragments: Vec<Fragment> = Vec::new();
    let mut at: usize = 0;
    let open_pat: Vec<u8> = vec![60u8, 37u8];
    let close_pat: Vec<u8> = vec![37u8, 62u8];
    assert(open_pat@ =~= open_tag());
    assert(close_pat@ =~= close_tag());
    assert(frag_views(fragments@) =~= Seq::<SpecFragment>::empty());
    loop
        invariant
            t == template@,
            at <= t.len(),
            open_pat@ == open_tag(),
            close_pat@ == close_tag(),
            translate_from(t, at as int, ruby@, frag_views(fragments@)) == spec_translate(t),
            fits(frag_views(fragments@), ruby@.len() as int),
            ordered(frag_views(fragments@)),
            faithful(frag_views(fragments@), ruby@, t),
        ensures
            (ruby@, frag_views(fragments@)) == spec_translate(t),
            fits(frag_views(fragments@), ruby@.len() as int),
            ordered(frag_views(fragments@)),
            faithful(frag_views(fragments@), ruby@, t),
        decreases t.len() - at,
    {
        let ghost fv = frag_views(fragments@);
        proof {
            lemma_first_occ_some(t, open_tag(), at as int);
        }
        let open = match find(template, at, open_pat.as_slice()) {
            Some(open) => open,
            None => break,
        };
        proof {
            assert(first_occ(t, open_tag(), at as int) == Some(open as int));
            assert(open_tag().len() == 2);
            assert(template@.len() == template.len());
        }
        let after = open + 2;
        if after < template.len() && template[after] == 37 {
            at = after + 1;
            continue;
        }
        proof {
            lemma_first_occ_some(t, close_tag(), after as int);
        }
        let close = match find(template, after, close_pat.as_slice()) {
            Some(close) => close,
            None => break,
        };
        let comment = after < template.len() && template[after] == 35;
        let mut body = after;
        while body < template.len() && (template[body] == 61 || template[body] == 45 || template[body] == 35)
            invariant
                after <= body <= t.len(),
                t == template@,
                sigil_end(t, after as int) == sigil_end(t, body as int),
            decreases t.len() - body,
        {
            body += 1;
        }
        let end = if close > body && template[close - 1] == 45 {
            close - 1
        } else {
            close
        };
        let mut ts = body;
        while ts < end && crate::text::is_space(template[ts])
            invariant
                body <= ts,
                ts <= end || ts == body,
                end <= t.len(),
                t == template@,
                skip_space(t, body as int, end as int) == skip_space(t, ts as int, end as int),
            decreases end - ts,
        {
            ts += 1;
        }
        let mut te = end;
        if ts <= end {
            while te > ts && crate::text::is_space(template[te - 1])
                invariant
                    ts <= te <= end,
                    end <= t.len(),
                    t == template@,
                    drop_space(t, ts as int, end as int) == drop_space(t, ts as int, te as int),
                decreases te - ts,
            {
                te -= 1;
            }
        }
        if !comment && end > body && te > ts {
            let start_len = ruby.len();
            let ghost old_ruby = ruby@;
            fragments.push(Fragment { ruby: start_len, template: ts, len: te - ts });
            ruby.extend_from_slice(&template[ts..te]);
            ruby.push(10u8);
            let _ = ruby.len();
            proof {
                let nfv = frag_views(fragments@);
                assert(nfv =~= fv.push(SpecFragment { ruby: start_len as int, template: ts as int, len: (te - ts) as int }));
                assert(ruby@ =~= old_ruby + t.subrange(ts as int, te as int) + seq![10u8]);
                assert forall|k: int| 0 <= k < nfv.len() implies #[trigger] nfv[k].template + nfv[k].len <= t.len()
                    && ruby@.subrange(nfv[k].ruby, nfv[k].ruby + nfv[k].len) == t.subrange(nfv[k].template, nfv[k].template + nfv[k].len) by {
                    if k < fv.len() {
                        assert(nfv[k] == fv[k]);
                        assert(ruby@.subrange(nfv[k].ruby, nfv[k].ruby + nfv[k].len) =~= old_ruby.subrange(nfv[k].ruby, nfv[k].ruby + nfv[k].len));
                    } else {
                        assert(ruby@.subrange(nfv[k].ruby, nfv[k].ruby + nfv[k].len) =~= t.subrange(ts as int, te as int));
                    }
                }
                assert forall|j: int, k: int| 0 <= j < k < nfv.len() implies #[trigger] nfv[j].ruby + nfv[j].len < #[trigger] nfv[k].ruby by {
                    assert(nfv[j] == fv[j]);
                    if k < fv.len() {
                        assert(nfv[k] == fv[k]);
                    }
                }
                assert forall|k: int| 0 <= k < nfv.len() implies 0 <= #[trigger] nfv[k].ruby && 0 <= nfv[k].len && nfv[k].ruby + nfv[k].len < ruby@.len()
                    && nfv[k].ruby + nfv[k].len <= usize::MAX && 0 <= nfv[k].template && nfv[k].template + nfv[k].len <= usize::MAX by {
                    if k < fv.len() {
                        assert(nfv[k] == fv[k]);
                    }
                }
            }
        }
        at = close + 2;
    }
    if fragments.len() == 0 {
        return None;
    }
    Some(Translated { ruby, fragments })
}

/// What `to_template` promises of faithful fragments: the template text
/// it maps to is the Ruby text that was asked about.
pub proof fn lemma_maps_back(tr: &Translated, template: Seq<u8>, start: int, end: int)
    requires
        tr.wf(),
        tr.faithful_to(template),
        0 <= start <= end,
        spec_to_template(tr.frags(), start, end) is Some,
    ensures
        ({
            let (a, b) = spec_to_template(tr.frags(), start, end)->0;
            0 <= a <= b <= template.len() && template.subrange(a, b) == tr.ruby@.subrange(start, end)
        }),
{
    let f = tr.frags();
    lemma_holding(f, start);
    lemma_holding(f, end);
    let ka = holding(f, start)->0;
    let kb = holding(f, end)->0;
    if ka != kb {
        if ka < kb {
            assert(f[ka].ruby + f[ka].len < f[kb].ruby);
        } else {
            assert(f[kb].ruby + f[kb].len < f[ka].ruby);
        }
    }
    let fr = f[ka];
    let whole_r = tr.ruby@.subrange(fr.ruby, fr.ruby + fr.len);
    let whole_t = template.subrange(fr.template, fr.template + fr.len);
    assert(whole_r == whole_t);
    assert(tr.ruby@.subrange(start, end) =~= whole_r.subrange(start - fr.ruby, end - fr.ruby));
    assert(template.subrange(fr.template + (start - fr.ruby), fr.template + (end - fr.ruby))
        =~= whole_t.subrange(start - fr.ruby, end - fr.ruby));
}

/// An edit placed in the template: its span there, and its replacement bytes.
pub type Placed = (int, int, Seq<u8>);

/// The first index whose start lies past `key`, or the length.
pub open spec fn first_after(s: Seq<Placed>, key: int) -> int
    decreases s.len(),
{
    if s.len() == 0 {
        0
    } else if first_after(s.drop_last(), key) < s.len() - 1 {
        first_after(s.drop_last(), key)
    } else if s.last().0 > key {
        s.len() - 1
    } else {
        s.len() as int
    }
}

/// Insert after every element whose start is not past `x`'s.
pub open spec fn insert_stable(s: Seq<Placed>, x: Placed) -> Seq<Placed> {
    let p = first_after(s, x.0);
    s.take(p).push(x) + s.skip(p)
}

/// A stable sort by start.
pub open spec fn sort_by_start(s: Seq<Placed>) -> Seq<Placed>
    decreases s.len(),
{
    if s.len() == 0 {
        s
    } else {
        insert_stable(sort_by_start(s.drop_last()), s.last())
    }
}

/// Replace each placed span, in order, refusing a span that starts before the
/// previous one ended or lies past the template.
pub open spec fn splice_from(t: Seq<u8>, es: Seq<Placed>, cursor: int) -> Option<Seq<u8>>
    decreases es.len(),
{
    if es.len() == 0 {
        if 0 <= cursor <= t.len() {
            Some(t.subrange(cursor, t.len() as int))
        } else {
            None
        }
    } else {
        let (s, e, x) = es[0];
        if s < cursor || s > t.len() || cursor < 0 {
            None
        } else {
            match splice_from(t, es.drop_first(), e) {
                Some(rest) => Some(t.subrange(cursor, s) + x + rest),
                None => None,
            }
        }
    }
}

pub open spec fn edit_view(e: Edit) -> (int, int, Seq<u8>) {
    (e.start as int, e.end as int, vstd::utf8::encode_utf8(e.text@))
}

/// Each edit mapped into the template, when every one maps.
pub open spec fn placed(f: Seq<SpecFragment>, edits: Seq<Edit>) -> Option<Seq<Placed>> {
    if forall|k: int| 0 <= k < edits.len() ==> spec_to_template(f, #[trigger] edits[k].start as int, edits[k].end as int) is Some {
        Some(Seq::new(edits.len(), |k: int| {
            let (a, b) = spec_to_template(f, edits[k].start as int, edits[k].end as int)->0;
            (a, b, vstd::utf8::encode_utf8(edits[k].text@))
        }))
    } else {
        None
    }
}

/// The template with the edits applied, or `None` when one cannot be placed.
pub open spec fn spec_splice(f: Seq<SpecFragment>, t: Seq<u8>, edits: Seq<Edit>) -> Option<Seq<u8>> {
    match placed(f, edits) {
        Some(p) => splice_from(t, sort_by_start(p), 0),
        None => None,
    }
}

pub proof fn lemma_first_after(s: Seq<Placed>, key: int)
    ensures
        0 <= first_after(s, key) <= s.len(),
    decreases s.len(),
{
    if s.len() > 0 {
        lemma_first_after(s.drop_last(), key);
    }
}

fn first_after_exec(v: &Vec<(usize, usize, Vec<u8>)>, key: usize, Ghost(s): Ghost<Seq<Placed>>) -> (p: usize)
    requires
        s == v@.map_values(|e: (usize, usize, Vec<u8>)| (e.0 as int, e.1 as int, e.2@)),
    ensures
        p == first_after(s, key as int),
{
    let mut k: usize = 0;
    while k < v.len()
        invariant
            k <= v@.len(),
            s == v@.map_values(|e: (usize, usize, Vec<u8>)| (e.0 as int, e.1 as int, e.2@)),
            first_after(s.take(k as int), key as int) == k,
        decreases v@.len() - k,
    {
        proof {
            assert(s.take(k + 1).drop_last() =~= s.take(k as int));
        }
        if v[k].0 > key {
            proof {
                lemma_first_after_prefix(s, key as int, k as int);
            }
            return k;
        }
        k += 1;
    }
    proof {
        assert(s.take(k as int) =~= s);
    }
    k
}

/// Once a prefix has a start past `key`, the whole sequence agrees with it.
pub proof fn lemma_first_after_prefix(s: Seq<Placed>, key: int, k: int)
    requires
        0 <= k < s.len(),
        first_after(s.take(k), key) == k,
        s[k].0 > key,
    ensures
        first_after(s, key) == k,
    decreases s.len(),
{
    if s.len() == k + 1 {
        assert(s.drop_last() =~= s.take(k));
    } else {
        assert(s.drop_last().take(k) =~= s.take(k));
        lemma_first_after_prefix(s.drop_last(), key, k);
    }
}

/// Apply Ruby-coordinate edits to the template they came from.
///
/// Every edit must sit inside one fragment; one that spans two covers template
/// text that is not Ruby, and splicing through it would put HTML inside an
/// expression. Refusing is the only safe answer.
pub fn splice(translated: &Translated, template: &[u8], edits: &[Edit]) -> (r: Option<Vec<u8>>)
    requires
        translated.wf(),
        forall|k: int| 0 <= k < edits@.len() ==> (#[trigger] edits@[k]).start <= edits@[k].end,
    ensures
        match (r, spec_splice(translated.frags(), template@, edits@)) {
            (None, None) => true,
            (Some(out), Some(x)) => out@ == x,
            _ => false,
        },
{
    let mut mapped: Vec<(usize, usize, Vec<u8>)> = Vec::new();
    let mut k: usize = 0;
    while k < edits.len()
        invariant
            k <= edits@.len(),
            translated.wf(),
            forall|k: int| 0 <= k < edits@.len() ==> (#[trigger] edits@[k]).start <= edits@[k].end,
            mapped@.len() == k,
            forall|j: int| 0 <= j < k ==> spec_to_template(translated.frags(), #[trigger] edits@[j].start as int, edits@[j].end as int) is Some,
            forall|j: int| 0 <= j < k ==> {
                let (a, b) = spec_to_template(translated.frags(), #[trigger] edits@[j].start as int, edits@[j].end as int)->0;
                mapped@[j].0 == a && mapped@[j].1 == b && mapped@[j].2@ == vstd::utf8::encode_utf8(edits@[j].text@)
            },
        decreases edits@.len() - k,
    {
        let edit = &edits[k];
        match translated.to_template(edit.start, edit.end) {
            Some((start, end)) => {
                let bytes = edit.text.as_str().as_bytes();
                mapped.push((start, end, vstd::slice::slice_to_vec(bytes)));
            },
            None => {
                proof {
                    assert(spec_to_template(translated.frags(), edits@[k as int].start as int, edits@[k as int].end as int) is None);
                }
                return None;
            },
        }
        k += 1;
    }
    let ghost p = placed(translated.frags(), edits@)->0;
    let ghost mv = mapped@.map_values(|e: (usize, usize, Vec<u8>)| (e.0 as int, e.1 as int, e.2@));
    assert(mv =~= p);
    // Stable insertion sort by start.
    let mut sorted: Vec<(usize, usize, Vec<u8>)> = Vec::new();
    let mut i: usize = 0;
    while i < mapped.len()
        invariant
            i <= mapped@.len(),
            mv == mapped@.map_values(|e: (usize, usize, Vec<u8>)| (e.0 as int, e.1 as int, e.2@)),
            sorted@.map_values(|e: (usize, usize, Vec<u8>)| (e.0 as int, e.1 as int, e.2@)) == sort_by_start(mv.take(i as int)),
        decreases mapped@.len() - i,
    {
        let ghost sv = sorted@.map_values(|e: (usize, usize, Vec<u8>)| (e.0 as int, e.1 as int, e.2@));
        let x = (mapped[i].0, mapped[i].1, vstd::slice::slice_to_vec(mapped[i].2.as_slice()));
        let pos = first_after_exec(&sorted, x.0, Ghost(sv));
        proof {
            lemma_first_after(sv, x.0 as int);
        }
        sorted.insert(pos, x);
        proof {
            assert(mv.take(i + 1).drop_last() =~= mv.take(i as int));
            assert(mv.take(i + 1).last() == (x.0 as int, x.1 as int, x.2@));
            assert(sorted@.map_values(|e: (usize, usize, Vec<u8>)| (e.0 as int, e.1 as int, e.2@)) =~= insert_stable(sv, (x.0 as int, x.1 as int, x.2@)));
        }
        i += 1;
    }
    proof {
        assert(mv.take(mapped@.len() as int) =~= mv);
    }
    let ghost sv = sorted@.map_values(|e: (usize, usize, Vec<u8>)| (e.0 as int, e.1 as int, e.2@));
    let mut out: Vec<u8> = Vec::new();
    let mut cursor: usize = 0;
    let mut j: usize = 0;
    let _ = template.len();
    proof {
        assert(placed(translated.frags(), edits@) == Some(mv));
        assert(sv.skip(0) =~= sv);
        if let Some(rest) = splice_from(template@, sv, 0) {
            assert(out@ + rest =~= rest);
        }
    }
    while j < sorted.len()
        invariant
            j <= sorted@.len(),
            sv == sorted@.map_values(|e: (usize, usize, Vec<u8>)| (e.0 as int, e.1 as int, e.2@)),
            sv == sort_by_start(mv),
            cursor <= template@.len(),
            spec_splice(translated.frags(), template@, edits@) == (match splice_from(template@, sv.skip(j as int), cursor as int) {
                Some(rest) => Some(out@ + rest),
                None => None,
            }),
        decreases sorted@.len() - j,
    {
        let ghost before = out@;
        let start = sorted[j].0;
        let end = sorted[j].1;
        proof {
            assert(sv.skip(j as int)[0] == sv[j as int]);
            assert(sv.skip(j as int).drop_first() =~= sv.skip(j + 1));
        }
        if start < cursor || start > template.len() {
            return None;
        }
        out.extend_from_slice(&template[cursor..start]);
        out.extend_from_slice(sorted[j].2.as_slice());
        proof {
            assert(out@ =~= before + template@.subrange(cursor as int, start as int) + sv[j as int].2);
        }
        cursor = end;
        if cursor > template.len() {
            proof {
                lemma_splice_from_past_end(template@, sv.skip(j + 1), cursor as int);
            }
            return None;
        }
        j += 1;
    }
    let ghost before = out@;
    out.extend_from_slice(&template[cursor..template.len()]);
    proof {
        assert(sv.skip(j as int) =~= Seq::<Placed>::empty());
        assert(out@ =~= before + template@.subrange(cursor as int, template@.len() as int));
    }
    Some(out)
}

/// A cursor already past the template's end can never be spliced from.
pub proof fn lemma_splice_from_past_end(t: Seq<u8>, es: Seq<Placed>, cursor: int)
    requires
        cursor > t.len(),
    ensures
        splice_from(t, es, cursor) is None,
    decreases es.len(),
{
}

/// Where a Ruby offset sits in the template, for reporting a line number.
pub fn template_offset(translated: &Translated, ruby: usize) -> (r: Option<usize>)
    requires
        translated.wf(),
    ensures
        match (r, spec_to_template(translated.frags(), ruby as int, ruby as int)) {
            (None, None) => true,
            (Some(a), Some((x, _))) => a == x,
            _ => false,
        },
{
    match translated.to_template(ruby, ruby) {
        Some((start, _)) => Some(start),
        None => None,
    }
}

} // verus!
