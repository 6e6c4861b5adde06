//! Metavariable recognition in pattern source.
//!
//! Pure lexical scanning, ahead of any parsing: each metavariable is later
//! substituted with a syntactically valid placeholder before the parser sees
//! the pattern, so this scanner runs first and its output drives that rewrite.
//!
//! |            | one node  | zero or more |
//! |------------|-----------|--------------|
//! | anonymous  | `_`       | `*_`         |
//! | captured   | `$NAME`   | `*$NAME`     |

use crate::text::{
    ascii_chars, is_digit, is_upper, is_word, lossy_string, spec_digit, spec_upper, spec_word,
};
use vstd::prelude::*;
use vstd::string::StringSliceAdditionalSpecFns;

verus! {

/// How many nodes a metavariable stands for.
#[derive(Debug, Clone, Copy, PartialEq, Eq, Structural)]
pub enum Arity {
    /// `$NAME` / `_` -- exactly one node.
    One,
    /// `*$NAME` / `*_` -- zero or more nodes.
    Many,
}

/// One metavariable occurrence in a pattern.
#[derive(Debug)]
pub struct Metavar {
    /// `None` for the anonymous forms `_` and `*_`.
    pub name: Option<String>,
    pub arity: Arity,
    /// Byte range in the pattern source.
    pub start: usize,
    pub end: usize,
}

/// A metavariable as plain values: name bytes, arity, byte range.
pub struct SpecMetavar {
    pub name: Option<Seq<u8>>,
    pub arity: Arity,
    pub start: int,
    pub end: int,
}

pub open spec fn name_chars(name: Option<Seq<u8>>) -> Option<Seq<char>> {
    match name {
        Some(n) => Some(ascii_chars(n)),
        None => None,
    }
}

pub open spec fn string_opt_view(s: Option<String>) -> Option<Seq<char>> {
    match s {
        Some(s) => Some(s@),
        None => None,
    }
}

impl Metavar {
    /// Whether this occurrence is the one `m` describes.
    pub open spec fn is(&self, m: SpecMetavar) -> bool {
        &&& string_opt_view(self.name) == name_chars(m.name)
        &&& self.arity == m.arity
        &&& self.start == m.start
        &&& self.end == m.end
    }
}

/// Whether position `i` holds an identifier byte.
pub open spec fn word_at(b: Seq<u8>, i: int) -> bool {
    0 <= i < b.len() && spec_word(b[i])
}

/// A capture-name byte: `[A-Z0-9_]`.
pub open spec fn spec_name_byte(c: u8) -> bool {
    spec_upper(c) || spec_digit(c) || c == 95
}

/// Where a run of capture-name bytes starting at `k` ends.
pub open spec fn name_end(b: Seq<u8>, k: int) -> int
    decreases b.len() - k,
{
    if 0 <= k < b.len() && spec_name_byte(b[k]) {
        name_end(b, k + 1)
    } else {
        k
    }
}

/// Where a run of identifier bytes starting at `k` ends.
pub open spec fn word_end(b: Seq<u8>, k: int) -> int
    decreases b.len() - k,
{
    if 0 <= k < b.len() && spec_word(b[k]) {
        word_end(b, k + 1)
    } else {
        k
    }
}

/// `_` or `$NAME` at `j`: the capture name and where the binder ends.
pub open spec fn binder_at(b: Seq<u8>, j: int) -> Option<(Option<Seq<u8>>, int)> {
    if 0 <= j < b.len() && b[j] == 95 && !word_at(b, j + 1) && !word_at(b, j - 1) {
        Some((None, j + 1))
    } else if 0 <= j < b.len() && b[j] == 36 && j + 1 < b.len() && spec_upper(b[j + 1]) {
        Some((Some(b.subrange(j + 1, name_end(b, j + 1))), name_end(b, j + 1)))
    } else {
        None
    }
}

pub proof fn lemma_name_end(b: Seq<u8>, k: int)
    requires
        0 <= k <= b.len(),
    ensures
        k <= name_end(b, k) <= b.len(),
        forall|i: int| k <= i < name_end(b, k) ==> #[trigger] spec_name_byte(b[i]),
    decreases b.len() - k,
{
    if k < b.len() && spec_name_byte(b[k]) {
        lemma_name_end(b, k + 1);
    }
}

pub proof fn lemma_word_end(b: Seq<u8>, k: int)
    requires
        0 <= k <= b.len(),
    ensures
        k <= word_end(b, k) <= b.len(),
    decreases b.len() - k,
{
    if k < b.len() && spec_word(b[k]) {
        lemma_word_end(b, k + 1);
    }
}

/// Every metavariable occurrence from position `i` on, in source order.
pub open spec fn scan_from(b: Seq<u8>, i: int) -> Seq<SpecMetavar>
    decreases b.len() - i,
{
    if i < 0 || i >= b.len() {
        Seq::empty()
    } else if b[i] == 92 && i + 1 < b.len() && b[i + 1] == 36 {
        scan_from(b, i + 2)
    } else {
        let arity = if b[i] == 42 {
            Arity::Many
        } else {
            Arity::One
        };
        let j = if b[i] == 42 {
            i + 1
        } else {
            i
        };
        match binder_at(b, j) {
            Some((name, end)) => if i < end <= b.len() {
                seq![SpecMetavar { name, arity, start: i, end }] + scan_from(b, end)
            } else {
                Seq::empty()
            },
            None => if b[i] == 36 && i < word_end(b, i + 1) <= b.len() {
                scan_from(b, word_end(b, i + 1))
            } else {
                scan_from(b, i + 1)
            },
        }
    }
}

/// Every metavariable occurrence in a pattern's bytes, in source order.
pub open spec fn spec_scan(b: Seq<u8>) -> Seq<SpecMetavar> {
    scan_from(b, 0)
}

/// Occurrences lie inside the source, each non-empty, in order and disjoint.
pub open spec fn well_placed(ms: Seq<SpecMetavar>, lo: int, hi: int) -> bool {
    &&& forall|k: int| 0 <= k < ms.len() ==> lo <= #[trigger] ms[k].start < ms[k].end <= hi
    &&& forall|k: int, l: int| 0 <= k < l < ms.len() ==> #[trigger] ms[k].end <= #[trigger] ms[l].start
}

/// What the scanner reports is well placed: inside the pattern, ordered, and
/// never overlapping.
pub proof fn lemma_scan_well_placed(b: Seq<u8>, i: int)
    requires
        0 <= i,
    ensures
        well_placed(scan_from(b, i), i, b.len() as int),
    decreases b.len() - i,
{
    if i >= b.len() {
    } else if b[i] == 92 && i + 1 < b.len() && b[i + 1] == 36 {
        lemma_scan_well_placed(b, i + 2);
    } else {
        let j = if b[i] == 42 {
            i + 1
        } else {
            i
        };
        match binder_at(b, j) {
            Some((name, end)) => {
                if 0 <= j + 1 <= b.len() {
                    lemma_name_end(b, j + 1);
                }
                if i < end <= b.len() {
                    lemma_scan_well_placed(b, end);
                    let rest = scan_from(b, end);
                    let arity = if b[i] == 42 {
                        Arity::Many
                    } else {
                        Arity::One
                    };
                    let all = seq![SpecMetavar { name, arity, start: i, end }] + rest;
                    assert(all =~= scan_from(b, i));
                    assert forall|k: int, l: int| 0 <= k < l < all.len() implies #[trigger] all[k].end
                        <= #[trigger] all[l].start by {
                        if k == 0 {
                            assert(all[l] == rest[l - 1]);
                        } else {
                            assert(all[k] == rest[k - 1]);
                            assert(all[l] == rest[l - 1]);
                        }
                    }
                    assert forall|k: int| 0 <= k < all.len() implies i <= #[trigger] all[k].start
                        < all[k].end <= b.len() by {
                        if k > 0 {
                            assert(all[k] == rest[k - 1]);
                        }
                    }
                }
            },
            None => {
                lemma_word_end(b, i + 1);
                if b[i] == 36 && i < word_end(b, i + 1) <= b.len() {
                    lemma_scan_well_placed(b, word_end(b, i + 1));
                } else {
                    lemma_scan_well_placed(b, i + 1);
                }
            },
        }
    }
}

pub fn is_name_byte(c: Option<u8>) -> (r: bool)
    ensures
        r == (c matches Some(x) && spec_name_byte(x)),
{
    match c {
        Some(x) => is_upper(x) || is_digit(x) || x == 95,
        None => false,
    }
}

pub fn is_ident_byte(c: Option<u8>) -> (r: bool)
    ensures
        r == (c matches Some(x) && spec_word(x)),
{
    match c {
        Some(x) => is_word(x),
        None => false,
    }
}

fn byte_at(b: &[u8], i: usize) -> (r: Option<u8>)
    ensures
        i < b@.len() ==> r == Some(b@[i as int]),
        i >= b@.len() ==> r is None,
{
    if i < b.len() {
        Some(b[i])
    } else {
        None
    }
}

/// Parse `_` or `$NAME` at `j`, returning the capture name and end offset.
pub fn parse_binder(b: &[u8], j: usize) -> (r: Option<(Option<String>, usize)>)
    requires
        j <= b@.len(),
    ensures
        match (r, binder_at(b@, j as int)) {
            (None, None) => true,
            (Some((name, end)), Some((sname, send))) => end == send && string_opt_view(name)
                == name_chars(sname),
            _ => false,
        },
{
    if j < b.len() && b[j] == 95 {
        let before = if j > 0 {
            byte_at(b, j - 1)
        } else {
            None
        };
        if !is_ident_byte(byte_at(b, j + 1)) && !is_ident_byte(before) {
            return Some((None, j + 1));
        }
        return None;
    }
    if j < b.len() && b[j] == 36 {
        let name_start = j + 1;
        if !(name_start < b.len() && is_upper(b[name_start])) {
            return None;
        }
        let mut k = name_start;
        while k < b.len() && is_name_byte(Some(b[k]))
            invariant
                name_start <= k <= b@.len(),
                name_end(b@, name_start as int) == name_end(b@, k as int),
            decreases b@.len() - k,
        {
            k += 1;
        }
        let name = lossy_string(&b[name_start..k]);
        proof {
            lemma_name_end(b@, name_start as int);
            let sub = b@.subrange(name_start as int, k as int);
            assert(sub =~= b@.subrange(name_start as int, k as int));
            assert forall|i: int| 0 <= i < sub.len() implies #[trigger] sub[i] < 128 by {
                assert(spec_name_byte(b@[name_start + i]));
            }
        }
        return Some((Some(name), k));
    }
    None
}

/// Scan a pattern for metavariable occurrences, in source order.
///
/// A capture name is an uppercase letter followed by uppercase letters, digits
/// or underscores, which keeps ordinary Ruby globals (`$stdout`, `$_`, `$1`)
/// matchable as literals. Uppercase globals escape as `\$LOAD_PATH`.
pub fn scan(pattern: &str) -> (out: Vec<Metavar>)
    ensures
        out@.len() == spec_scan(pattern.spec_bytes()).len(),
        forall|k: int| 0 <= k < out@.len() ==> #[trigger] out@[k].is(spec_scan(pattern.spec_bytes())[k]),
        well_placed(spec_scan(pattern.spec_bytes()), 0, pattern.spec_bytes().len() as int),
{
    let b = pattern.as_bytes();
    let mut out: Vec<Metavar> = Vec::new();
    let mut i: usize = 0;
    proof {
        lemma_scan_well_placed(b@, 0);
    }
    while i < b.len()
        invariant
            i <= b@.len(),
            out@.len() + scan_from(b@, i as int).len() == spec_scan(b@).len(),
            forall|k: int| 0 <= k < out@.len() ==> #[trigger] out@[k].is(spec_scan(b@)[k]),
            forall|k: int|
                0 <= k < scan_from(b@, i as int).len() ==> #[trigger] scan_from(b@, i as int)[k]
                    == spec_scan(b@)[out@.len() + k],
        decreases b@.len() - i,
    {
        let ghost before = scan_from(b@, i as int);
        if b[i] == 92 && i + 1 < b.len() && b[i + 1] == 36 {
            i += 2;
            continue;
        }
        let start = i;
        let (arity, j) = if b[i] == 42 {
            (Arity::Many, i + 1)
        } else {
            (Arity::One, i)
        };
        match parse_binder(b, j) {
            Some((name, end)) => {
                proof {
                    lemma_name_end(b@, j + 1);
                    assert(before[0] == spec_scan(b@)[out@.len() as int]);
                }
                out.push(Metavar { name, arity, start, end });
                i = end;
                proof {
                    assert forall|k: int| 0 <= k < scan_from(b@, i as int).len() implies
                        #[trigger] scan_from(b@, i as int)[k] == spec_scan(b@)[out@.len() + k] by {
                        assert(scan_from(b@, i as int)[k] == before[k + 1]);
                    }
                }
            },
            None => {
                i += 1;
                if b[start] == 36 {
                    while i < b.len() && is_word(b[i])
                        invariant
                            start + 1 <= i <= b@.len(),
                            word_end(b@, start + 1) == word_end(b@, i as int),
                        decreases b@.len() - i,
                    {
                        i += 1;
                    }
                }
                proof {
                    lemma_word_end(b@, start + 1);
                }
            },
        }
    }
    out
}

/// Every occurrence starts on an ASCII byte and ends just after one, so its
/// ends are character boundaries of the pattern.
pub proof fn lemma_scan_ascii(b: Seq<u8>, i: int)
    requires
        0 <= i,
    ensures
        forall|k: int|
            0 <= k < scan_from(b, i).len() ==> b[(#[trigger] scan_from(b, i)[k]).start] < 128
                && b[scan_from(b, i)[k].end - 1] < 128,
    decreases b.len() - i,
{
    if i >= b.len() {
    } else if b[i] == 92 && i + 1 < b.len() && b[i + 1] == 36 {
        lemma_scan_ascii(b, i + 2);
    } else {
        let j = if b[i] == 42 {
            i + 1
        } else {
            i
        };
        match binder_at(b, j) {
            Some((name, end)) => {
                if 0 <= j + 1 <= b.len() {
                    lemma_name_end(b, j + 1);
                }
                if i < end <= b.len() {
                    lemma_scan_ascii(b, end);
                    lemma_scan_well_placed(b, end);
                    let rest = scan_from(b, end);
                    assert forall|k: int| 0 <= k < scan_from(b, i).len() implies b[(
                    #[trigger] scan_from(b, i)[k]).start] < 128 && b[scan_from(b, i)[k].end - 1]
                        < 128 by {
                        if k > 0 {
                            assert(scan_from(b, i)[k] == rest[k - 1]);
                        } else {
                            if end == j + 1 {
                            } else {
                                assert(spec_name_byte(b[end - 1]));
                            }
                        }
                    }
                }
            },
            None => {
                lemma_word_end(b, i + 1);
                if b[i] == 36 && i < word_end(b, i + 1) <= b.len() {
                    lemma_scan_ascii(b, word_end(b, i + 1));
                } else {
                    lemma_scan_ascii(b, i + 1);
                }
            },
        }
    }
}

} // verus!
