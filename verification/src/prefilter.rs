//! Skipping files that cannot possibly match.
//!
//! A pattern naming `autoload_paths` cannot match a file whose bytes do not
//! contain that text, so the cost of a query tracks how many files mention the
//! identifier rather than how large the repository is. Conservative by
//! construction: a file is skipped only when it provably cannot contribute,
//! and a pattern with no literal text at all (`$A.$B`) filters nothing.

use crate::metavar::{scan, spec_scan, Metavar, SpecMetavar};
use crate::text::{ascii_chars, bytes_eq, is_ascii_bytes, is_alnum, is_alpha_byte, lossy_string, memmem_find, occurs_at, spec_alnum, spec_alpha};
use vstd::prelude::*;
use vstd::string::StringSliceAdditionalSpecFns;

verus! {

/// A byte that may begin a word: a letter or `_`.
pub open spec fn spec_is_start(b: u8) -> bool {
    spec_alpha(b) || b == 95
}

/// A byte that may continue a word: a letter, a digit or `_`.
pub open spec fn spec_is_body(b: u8) -> bool {
    spec_alnum(b) || b == 95
}

pub fn is_start(b: u8) -> (r: bool)
    ensures
        r == spec_is_start(b),
{
    is_alpha_byte(b) || b == 95
}

pub fn is_body(b: u8) -> (r: bool)
    ensures
        r == spec_is_body(b),
{
    is_alnum(b) || b == 95
}

/// Whether position `at` lies inside some metavariable's span.
pub open spec fn covered(ms: Seq<SpecMetavar>, at: int) -> bool {
    exists|k: int| 0 <= k < ms.len() && ms[k].start <= at < #[trigger] ms[k].end
}

/// Where a word starting at `i` ends, before any `?`/`!` suffix.
pub open spec fn body_end(b: Seq<u8>, i: int) -> int
    decreases b.len() - i,
{
    if 0 <= i < b.len() && spec_is_body(b[i]) {
        body_end(b, i + 1)
    } else {
        i
    }
}

/// Where a word starting at `i` ends, a trailing `?` or `!` included.
pub open spec fn word_stop(b: Seq<u8>, i: int) -> int {
    let e = body_end(b, i);
    if 0 <= e < b.len() && (b[e] == 63 || b[e] == 33) {
        e + 1
    } else {
        e
    }
}

pub proof fn lemma_body_end(b: Seq<u8>, i: int)
    requires
        0 <= i <= b.len(),
    ensures
        i <= body_end(b, i) <= b.len(),
        forall|k: int| i <= k < body_end(b, i) ==> #[trigger] spec_is_body(b[k]),
    decreases b.len() - i,
{
    if i < b.len() && spec_is_body(b[i]) {
        lemma_body_end(b, i + 1);
    }
}

/// The words from position `i` on, appended to `acc` unless already there.
pub open spec fn words_from(b: Seq<u8>, ms: Seq<SpecMetavar>, i: int, acc: Seq<Seq<u8>>) -> Seq<Seq<u8>>
    decreases b.len() - i,
{
    if i < 0 || i >= b.len() {
        acc
    } else if !spec_is_start(b[i]) || covered(ms, i) {
        words_from(b, ms, i + 1, acc)
    } else if word_stop(b, i) <= i || word_stop(b, i) > b.len() {
        acc
    } else {
        let w = b.subrange(i, word_stop(b, i));
        words_from(b, ms, word_stop(b, i), if acc.contains(w) { acc } else { acc.push(w) })
    }
}

/// The identifiers a pattern requires a source to contain, in first-seen order
/// and without repeats: every word outside a metavariable's span, with a
/// trailing `?` or `!` kept.
pub open spec fn spec_required(b: Seq<u8>) -> Seq<Seq<u8>> {
    words_from(b, spec_scan(b), 0, Seq::empty())
}

fn covered_at(metavars: &Vec<Metavar>, at: usize, ms: Ghost<Seq<SpecMetavar>>) -> (r: bool)
    requires
        metavars@.len() == ms@.len(),
        forall|k: int| 0 <= k < metavars@.len() ==> #[trigger] metavars@[k].is(ms@[k]),
    ensures
        r == covered(ms@, at as int),
{
    let mut k: usize = 0;
    while k < metavars.len()
        invariant
            k <= metavars@.len(),
            metavars@.len() == ms@.len(),
            forall|k: int| 0 <= k < metavars@.len() ==> #[trigger] metavars@[k].is(ms@[k]),
            forall|j: int| 0 <= j < k ==> !(ms@[j].start <= at < #[trigger] ms@[j].end),
        decreases metavars@.len() - k,
    {
        let m = &metavars[k];
        proof {
            assert(metavars@[k as int].is(ms@[k as int]));
        }
        if at >= m.start && at < m.end {
            return true;
        }
        k += 1;
    }
    false
}

/// Whether `list` holds `w`.
pub fn contains_bytes(list: &Vec<Vec<u8>>, w: &[u8]) -> (r: bool)
    ensures
        r == list@.map_values(|v: Vec<u8>| v@).contains(w@),
{
    let ghost views = list@.map_values(|v: Vec<u8>| v@);
    let mut k: usize = 0;
    while k < list.len()
        invariant
            k <= list@.len(),
            views == list@.map_values(|v: Vec<u8>| v@),
            forall|j: int| 0 <= j < k ==> views[j] != w@,
        decreases list@.len() - k,
    {
        if bytes_eq(list[k].as_slice(), w) {
            assert(views[k as int] == w@);
            return true;
        }
        k += 1;
    }
    false
}

/// Every word the scan collects is ASCII.
pub proof fn lemma_words_ascii(b: Seq<u8>, ms: Seq<SpecMetavar>, i: int, acc: Seq<Seq<u8>>)
    requires
        forall|k: int| 0 <= k < acc.len() ==> is_ascii_bytes(#[trigger] acc[k]),
    ensures
        forall|k: int| 0 <= k < words_from(b, ms, i, acc).len() ==> is_ascii_bytes(
            #[trigger] words_from(b, ms, i, acc)[k],
        ),
    decreases b.len() - i,
{
    if i < 0 || i >= b.len() {
    } else if !spec_is_start(b[i]) || covered(ms, i) {
        lemma_words_ascii(b, ms, i + 1, acc);
        assert(words_from(b, ms, i, acc) == words_from(b, ms, i + 1, acc));
    } else if word_stop(b, i) <= i || word_stop(b, i) > b.len() {
    } else {
        let w = b.subrange(i, word_stop(b, i));
        lemma_body_end(b, i);
        assert(is_ascii_bytes(w)) by {
            assert forall|k: int| 0 <= k < w.len() implies #[trigger] w[k] < 128 by {
                assert(w[k] == b[i + k]);
                if i + k < body_end(b, i) {
                    assert(spec_is_body(b[i + k]));
                } else {
                    assert(b[i + k] == 63 || b[i + k] == 33);
                }
            }
        }
        let next = if acc.contains(w) {
            acc
        } else {
            acc.push(w)
        };
        assert forall|k: int| 0 <= k < next.len() implies is_ascii_bytes(#[trigger] next[k]) by {
            if k < acc.len() {
                assert(next[k] == acc[k]);
            }
        }
        lemma_words_ascii(b, ms, word_stop(b, i), next);
        assert(words_from(b, ms, i, acc) == words_from(b, ms, word_stop(b, i), next));
    }
}

pub proof fn lemma_required_ascii(b: Seq<u8>, k: int)
    requires
        0 <= k < spec_required(b).len(),
    ensures
        is_ascii_bytes(spec_required(b)[k]),
{
    lemma_words_ascii(b, spec_scan(b), 0, Seq::empty());
}

/// Identifiers a pattern requires the source to contain.
///
/// Extracted from the pattern *before* substitution, so placeholders are
/// excluded -- they stand for whatever they matched and constrain nothing.
pub fn required_bytes(pattern: &str) -> (out: Vec<Vec<u8>>)
    ensures
        out@.map_values(|v: Vec<u8>| v@) == spec_required(pattern.spec_bytes()),
{
    let metavars = scan(pattern);
    let ghost ms = spec_scan(pattern.spec_bytes());
    let bytes = pattern.as_bytes();
    let mut out: Vec<Vec<u8>> = Vec::new();
    let mut i: usize = 0;
    assert(out@.map_values(|v: Vec<u8>| v@) =~= Seq::<Seq<u8>>::empty());
    while i < bytes.len()
        invariant
            i <= bytes@.len(),
            bytes@ == pattern.spec_bytes(),
            metavars@.len() == ms.len(),
            ms == spec_scan(bytes@),
            forall|k: int| 0 <= k < metavars@.len() ==> #[trigger] metavars@[k].is(ms[k]),
            words_from(bytes@, ms, i as int, out@.map_values(|v: Vec<u8>| v@)) == spec_required(
                bytes@,
            ),
        decreases bytes@.len() - i,
    {
        if !is_start(bytes[i]) || covered_at(&metavars, i, Ghost(ms)) {
            i += 1;
            continue;
        }
        let start = i;
        proof {
            lemma_body_end(bytes@, i as int);
        }
        while i < bytes.len() && is_body(bytes[i])
            invariant
                start <= i <= bytes@.len(),
                body_end(bytes@, start as int) == body_end(bytes@, i as int),
            decreases bytes@.len() - i,
        {
            i += 1;
        }
        if i < bytes.len() && (bytes[i] == 63 || bytes[i] == 33) {
            i += 1;
        }
        let word = vstd::slice::slice_to_vec(&bytes[start..i]);
        let ghost before = out@.map_values(|v: Vec<u8>| v@);
        if !contains_bytes(&out, word.as_slice()) {
            out.push(word);
            proof {
                assert(out@.map_values(|v: Vec<u8>| v@) =~= before.push(bytes@.subrange(start as int, i as int)));
            }
        }
    }
    out
}

/// The words of [`required_bytes`], as strings.
pub fn required(pattern: &str) -> (out: Vec<String>)
    ensures
        out@.len() == spec_required(pattern.spec_bytes()).len(),
        forall|k: int| 0 <= k < out@.len() ==> #[trigger] out@[k]@ == ascii_chars(spec_required(pattern.spec_bytes())[k]),
{
    let words = required_bytes(pattern);
    let mut out: Vec<String> = Vec::new();
    let mut k: usize = 0;
    while k < words.len()
        invariant
            k <= words@.len(),
            out@.len() == k,
            words@.map_values(|v: Vec<u8>| v@) == spec_required(pattern.spec_bytes()),
            forall|j: int| 0 <= j < k ==> #[trigger] out@[j]@ == ascii_chars(words@[j]@),
        decreases words@.len() - k,
    {
        proof {
            lemma_required_ascii(pattern.spec_bytes(), k as int);
            assert(words@[k as int]@ == spec_required(pattern.spec_bytes())[k as int]);
        }
        out.push(lossy_string(words[k].as_slice()));
        k += 1;
    }
    proof {
        assert forall|j: int| 0 <= j < out@.len() implies #[trigger] out@[j]@ == ascii_chars(spec_required(pattern.spec_bytes())[j]) by {
            assert(words@[j]@ == spec_required(pattern.spec_bytes())[j]);
        }
    }
    out
}

/// The words of a pattern, as text.
pub open spec fn required_words(b: Seq<u8>) -> Seq<Seq<char>> {
    spec_required(b).map_values(|w: Seq<u8>| ascii_chars(w))
}

/// Whether a word is one of the placeholder identifiers.
pub open spec fn is_placeholder_key(keys: Seq<Seq<char>>, w: Seq<char>) -> bool {
    exists|i: int| 0 <= i < keys.len() && keys[i] == w
}

/// The words that are not placeholders, in order.
pub open spec fn without_keys(words: Seq<Seq<char>>, keys: Seq<Seq<char>>) -> Seq<Seq<char>>
    decreases words.len(),
{
    if words.len() == 0 {
        Seq::empty()
    } else if is_placeholder_key(keys, words.last()) {
        without_keys(words.drop_last(), keys)
    } else {
        without_keys(words.drop_last(), keys).push(words.last())
    }
}

pub open spec fn binding_keys(b: Seq<(String, crate::prepare::Binding)>) -> Seq<Seq<char>> {
    b.map_values(|e: (String, crate::prepare::Binding)| e.0@)
}

/// The words a prepared pattern requires: those of its source that are not
/// placeholders, which is what the pattern itself requires.
pub fn required_of(prepared: &crate::prepare::Prepared) -> (out: Vec<String>)
    ensures
        crate::text::string_views(out@) == without_keys(
            required_words(vstd::utf8::encode_utf8(prepared.source@)),
            binding_keys(prepared.bindings@),
        ),
{
    let ghost keys = binding_keys(prepared.bindings@);
    let words = required(prepared.source.as_str());
    let ghost ws = required_words(vstd::utf8::encode_utf8(prepared.source@));
    proof {
        assert(crate::text::string_views(words@) =~= ws);
    }
    let mut out: Vec<String> = Vec::new();
    let mut k: usize = 0;
    while k < words.len()
        invariant
            k <= words@.len(),
            crate::text::string_views(words@) == ws,
            keys == binding_keys(prepared.bindings@),
            crate::text::string_views(out@) == without_keys(ws.take(k as int), keys),
        decreases words@.len() - k,
    {
        proof {
            assert(ws.take(k + 1).drop_last() =~= ws.take(k as int));
            assert(ws.take(k + 1).last() == words@[k as int]@);
        }
        let mut bound = false;
        let mut j: usize = 0;
        while j < prepared.bindings.len()
            invariant
                j <= prepared.bindings@.len(),
                k < words@.len(),
                keys == binding_keys(prepared.bindings@),
                bound == exists|x: int| 0 <= x < j && keys[x] == words@[k as int]@,
            decreases prepared.bindings@.len() - j,
        {
            assert(keys[j as int] == prepared.bindings@[j as int].0@);
            if crate::text::str_eq(prepared.bindings[j].0.as_str(), words[k].as_str()) {
                bound = true;
            }
            j += 1;
        }
        if !bound {
            let ghost before = crate::text::string_views(out@);
            out.push(crate::text::owned(words[k].as_str()));
            proof {
                assert(crate::text::string_views(out@) =~= before.push(words@[k as int]@));
            }
        }
        k += 1;
    }
    proof {
        assert(ws.take(words@.len() as int) =~= ws);
    }
    out
}

} // verus!

verus! {

/// Whether `lit` occurs anywhere in `src`.
pub open spec fn occurs_in(src: Seq<u8>, lit: Seq<u8>) -> bool {
    exists|i: int| occurs_at(src, lit, i)
}

/// A string's UTF-8 bytes.
pub open spec fn string_bytes(s: String) -> Seq<u8> {
    vstd::utf8::encode_utf8(s@)
}

/// The prefilter's answer, from the literal sets it was given.
///
/// A match needs **every** required literal present; residue needs any one of
/// its own literals. With no required literal at all nothing can be ruled out.
pub open spec fn admits(required: Seq<Seq<u8>>, residue: Seq<Seq<u8>>, src: Seq<u8>) -> bool {
    ||| required.len() == 0
    ||| forall|k: int| 0 <= k < required.len() ==> occurs_in(src, #[trigger] required[k])
    ||| exists|k: int| 0 <= k < residue.len() && occurs_in(src, #[trigger] residue[k])
}

/// Whether a residue literal is redundant beside a shorter one it contains.
pub open spec fn subsumed(residue: Seq<Seq<u8>>, a: Seq<u8>) -> bool {
    exists|k: int| 0 <= k < residue.len() && #[trigger] residue[k].len() < a.len() && occurs_in(a, residue[k])
}

/// Occurrence is transitive: what occurs in a literal that occurs in `src`
/// occurs in `src`.
pub proof fn lemma_occurs_transitive(src: Seq<u8>, a: Seq<u8>, b: Seq<u8>)
    requires
        occurs_in(src, a),
        occurs_in(a, b),
    ensures
        occurs_in(src, b),
{
    let i = choose|i: int| occurs_at(src, a, i);
    let j = choose|j: int| occurs_at(a, b, j);
    assert(src.subrange(i + j, i + j + b.len()) =~= a.subrange(j, j + b.len()));
    assert(occurs_at(src, b, i + j));
}

/// Dropping subsumed literals never changes whether some residue literal
/// occurs.
pub proof fn lemma_trimmed_residue_decides_alike(residue: Seq<Seq<u8>>, src: Seq<u8>, a: Seq<u8>, n: nat)
    requires
        residue.contains(a),
        a.len() <= n,
        occurs_in(src, a),
    ensures
        exists|k: int|
            0 <= k < residue.len() && !subsumed(residue, #[trigger] residue[k]) && occurs_in(
                src,
                residue[k],
            ),
    decreases n,
{
    let ka = choose|k: int| 0 <= k < residue.len() && residue[k] == a;
    if !subsumed(residue, a) {
        assert(!subsumed(residue, residue[ka]) && occurs_in(src, residue[ka]));
    } else {
        let kb = choose|k: int| 0 <= k < residue.len() && #[trigger] residue[k].len() < a.len() && occurs_in(a, residue[k]);
        let b = residue[kb];
        lemma_occurs_transitive(src, a, b);
        assert(residue.contains(b));
        lemma_trimmed_residue_decides_alike(residue, src, b, (n - 1) as nat);
    }
}

/// A compiled set of literals, built once per run rather than per file.
pub struct Filter {
    required: Vec<Vec<u8>>,
    residue: Vec<Vec<u8>>,
}

pub open spec fn byte_views(v: Seq<Vec<u8>>) -> Seq<Seq<u8>> {
    v.map_values(|x: Vec<u8>| x@)
}

impl Filter {
    /// Whether the filter lets `src` through.
    pub closed spec fn spec_admits(&self, src: Seq<u8>) -> bool {
        admits(byte_views(self.required@), byte_views(self.residue@), src)
    }

    /// Both literal sets, the residue side with every literal that contains a
    /// shorter one dropped: under an `any` test such a literal can never be the
    /// one that decides.
    pub fn new(required: &[String], residue: &[Vec<u8>]) -> (f: Filter)
        ensures
            forall|src: Seq<u8>| #[trigger] f.spec_admits(src) == admits(
                required@.map_values(|s: String| string_bytes(s)),
                byte_views(residue@),
                src,
            ),
    {
        let mut req: Vec<Vec<u8>> = Vec::new();
        let mut k: usize = 0;
        while k < required.len()
            invariant
                k <= required@.len(),
                byte_views(req@) =~= required@.map_values(|s: String| string_bytes(s)).take(k as int),
            decreases required@.len() - k,
        {
            let st = required[k].as_str();
            let bytes = st.as_bytes();
            let ghost before = req@;
            req.push(vstd::slice::slice_to_vec(bytes));
            proof {
                assert(bytes@ == vstd::utf8::encode_utf8(st@));
                assert(byte_views(req@) =~= byte_views(before).push(bytes@));
            }
            k += 1;
        }
        let ghost res = byte_views(residue@);
        let mut kept: Vec<Vec<u8>> = Vec::new();
        let mut i: usize = 0;
        while i < residue.len()
            invariant
                i <= residue@.len(),
                res == byte_views(residue@),
                forall|j: int| 0 <= j < kept@.len() ==> res.contains(#[trigger] kept@[j]@) && !subsumed(res, kept@[j]@),
                forall|j: int| 0 <= j < i && !subsumed(res, #[trigger] res[j]) ==> byte_views(kept@).contains(res[j]),
            decreases residue@.len() - i,
        {
            let a = residue[i].as_slice();
            let mut dropped = false;
            let mut j: usize = 0;
            while j < residue.len()
                invariant
                    j <= residue@.len(),
                    i < residue@.len(),
                    a@ == res[i as int],
                    res == byte_views(residue@),
                    dropped == exists|m: int| 0 <= m < j && #[trigger] res[m].len() < a@.len() && occurs_in(a@, res[m]),
                decreases residue@.len() - j,
            {
                let b = residue[j].as_slice();
                if b.len() < a.len() {
                    if memmem_find(a, b).is_some() {
                        dropped = true;
                    }
                }
                proof {
                    assert(res[j as int] == b@);
                }
                j += 1;
            }
            let ghost before = kept@;
            if !dropped {
                kept.push(vstd::slice::slice_to_vec(a));
            }
            proof {
                assert forall|m: int| 0 <= m < i + 1 && !subsumed(res, #[trigger] res[m]) implies byte_views(kept@).contains(res[m]) by {
                    if m < i {
                        let w = choose|w: int| 0 <= w < before.len() && byte_views(before)[w] == res[m];
                        assert(byte_views(kept@)[w] == res[m]);
                    } else {
                        assert(byte_views(kept@)[kept@.len() - 1] == res[m]);
                    }
                }
            }
            i += 1;
        }
        let f = Filter { required: req, residue: kept };
        proof {
            assert(byte_views(req@) =~= required@.map_values(|s: String| string_bytes(s)));
            assert forall|src: Seq<u8>| #[trigger] f.spec_admits(src) == admits(
                required@.map_values(|s: String| string_bytes(s)),
                byte_views(residue@),
                src,
            ) by {
                let kv = byte_views(kept@);
                if exists|k: int| 0 <= k < res.len() && occurs_in(src, #[trigger] res[k]) {
                    let k = choose|k: int| 0 <= k < res.len() && occurs_in(src, #[trigger] res[k]);
                    assert(res.contains(res[k]));
                    lemma_trimmed_residue_decides_alike(res, src, res[k], res[k].len());
                    let w = choose|w: int| 0 <= w < res.len() && !subsumed(res, #[trigger] res[w]) && occurs_in(src, res[w]);
                    let v = choose|v: int| 0 <= v < kv.len() && kv[v] == res[w];
                    assert(occurs_in(src, kv[v]));
                }
                if exists|k: int| 0 <= k < kv.len() && occurs_in(src, #[trigger] kv[k]) {
                    let k = choose|k: int| 0 <= k < kv.len() && occurs_in(src, #[trigger] kv[k]);
                    assert(kept@[k]@ == kv[k]);
                    let w = choose|w: int| 0 <= w < res.len() && res[w] == kv[k];
                    assert(occurs_in(src, res[w]));
                }
            }
        }
        f
    }

    /// Whether a file could contribute either a match or a residue occurrence.
    pub fn may_contribute(&self, source: &[u8]) -> (r: bool)
        ensures
            r == self.spec_admits(source@),
    {
        if self.required.len() == 0 {
            return true;
        }
        let mut all = true;
        let mut k: usize = 0;
        while k < self.required.len()
            invariant
                k <= self.required@.len(),
                all == forall|j: int| 0 <= j < k ==> occurs_in(source@, #[trigger] byte_views(self.required@)[j]),
            decreases self.required@.len() - k,
        {
            let found = memmem_find(source, self.required[k].as_slice()).is_some();
            proof {
                assert(byte_views(self.required@)[k as int] == self.required@[k as int]@);
            }
            if !found {
                all = false;
            }
            k += 1;
        }
        if all {
            return true;
        }
        let mut any = false;
        let mut k: usize = 0;
        while k < self.residue.len()
            invariant
                k <= self.residue@.len(),
                any == exists|j: int| 0 <= j < k && occurs_in(source@, #[trigger] byte_views(self.residue@)[j]),
            decreases self.residue@.len() - k,
        {
            let found = memmem_find(source, self.residue[k].as_slice()).is_some();
            proof {
                assert(byte_views(self.residue@)[k as int] == self.residue@[k as int]@);
            }
            if found {
                any = true;
            }
            k += 1;
        }
        any
    }
}

} // verus!
