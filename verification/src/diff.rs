//! Restricting a run to the lines a change actually touched.
//!
//! A rule that would flag two thousand pre-existing sites must not fail CI on
//! a pull request that added three. Asking git happens outside the library;
//! what is decided here is which revision to ask about, what a `file:N-M`
//! argument names, what a diff's hunk headers say, and whether a site lies in
//! the changed lines.

use crate::ruby::digits_value;
use crate::text::{cat, first_occ, lemma_ascii_splits, opt_view, owned, slice_str, spec_digit, starts_char, str_eq};
use vstd::prelude::*;
use vstd::string::StringSliceAdditionalSpecFns;

verus! {

/// The last `:` before `k`.
pub open spec fn last_colon(b: Seq<u8>, k: int) -> Option<int>
    decreases k,
{
    if k <= 0 || k > b.len() {
        None
    } else if b[k - 1] == 58 {
        Some(k - 1)
    } else {
        last_colon(b, k - 1)
    }
}

proof fn lemma_last_colon(b: Seq<u8>, k: int)
    requires
        0 <= k <= b.len(),
    ensures
        last_colon(b, k) matches Some(c) ==> 0 <= c < k && b[c] == 58,
    decreases k,
{
    if k > 0 && b[k - 1] != 58 {
        lemma_last_colon(b, k - 1);
    }
}

/// Every byte a decimal digit.
pub open spec fn all_digits(d: Seq<u8>) -> bool {
    forall|i: int| 0 <= i < d.len() ==> spec_digit(#[trigger] d[i])
}

/// A line number as `u32::from_str` reads it, kept only when it is at least
/// 1: an optional `+`, then one or more digits whose value fits.
pub open spec fn line_number(s: Seq<u8>) -> Option<u32> {
    let d = if s.len() > 0 && s[0] == 43 {
        s.drop_first()
    } else {
        s
    };
    if d.len() == 0 || !all_digits(d) || digits_value(d) > u32::MAX || digits_value(d) == 0 {
        None
    } else {
        Some(digits_value(d) as u32)
    }
}

/// The error for a line number that is not one.
pub open spec fn not_a_line(arg: Seq<char>) -> Seq<char> {
    arg + ": line numbers start at 1"@
}

/// The error for a range that ends before it starts.
pub open spec fn backwards(arg: Seq<char>) -> Seq<char> {
    arg + ": line range ends before it starts"@
}

/// What a `PATH:N` or `PATH:N-M` argument names: no line suffix at all (the
/// last `:` is absent, or followed by something other than a digit), or the
/// path before the last `:` with its range, or an error for a suffix that is
/// malformed -- an empty one (`foo.rb:`) among them.
pub open spec fn spec_split_lines(arg: Seq<char>) -> Result<Option<(Seq<char>, (u32, u32))>, Seq<char>> {
    let b = vstd::utf8::encode_utf8(arg);
    match last_colon(b, b.len() as int) {
        None => Ok(None),
        Some(c) => {
            let suffix = b.subrange(c + 1, b.len() as int);
            if suffix.len() == 0 {
                Err(not_a_line(arg))
            } else if !spec_digit(suffix[0]) {
                Ok(None)
            } else {
                let (a, z) = match first_occ(suffix, seq![45u8], 0) {
                    Some(h) => (suffix.subrange(0, h), suffix.subrange(h + 1, suffix.len() as int)),
                    None => (suffix, suffix),
                };
                match (line_number(a), line_number(z)) {
                    (Some(s), Some(e)) => if e < s {
                        Err(backwards(arg))
                    } else {
                        Ok(Some((vstd::utf8::decode_utf8(b.subrange(0, c)), (s, e))))
                    },
                    _ => Err(not_a_line(arg)),
                }
            }
        },
    }
}

/// A path and the lines named after it, as `file.rb:3` or `file.rb:3-15`.
#[derive(Debug, PartialEq, Eq)]
pub struct Lines<'a> {
    pub path: &'a str,
    pub range: (u32, u32),
}

pub open spec fn lines_view(r: Result<Option<Lines>, String>) -> Result<
    Option<(Seq<char>, (u32, u32))>,
    Seq<char>,
> {
    match r {
        Ok(None) => Ok(None),
        Ok(Some(l)) => Ok(Some((l.path@, l.range))),
        Err(e) => Err(e@),
    }
}

/// `u32::from_str` on `b[from..to]`, kept only when it is at least 1.
fn parse_line_number(b: &[u8], from: usize, to: usize) -> (r: Option<u32>)
    requires
        from <= to <= b@.len(),
    ensures
        r == line_number(b@.subrange(from as int, to as int)),
{
    let ghost s = b@.subrange(from as int, to as int);
    let start = if from < to && b[from] == 43 {
        from + 1
    } else {
        from
    };
    let ghost d = b@.subrange(start as int, to as int);
    proof {
        if from < to && b@[from as int] == 43 {
            assert(s.drop_first() =~= d);
        } else {
            assert(s =~= d);
        }
    }
    if start == to {
        return None;
    }
    let mut value: u64 = 0;
    let mut over = false;
    let mut k = start;
    while k < to
        invariant
            from <= start <= k <= to <= b@.len(),
            d == b@.subrange(start as int, to as int),
            s == b@.subrange(from as int, to as int),
            s.len() > 0 && s[0] == 43 ==> s.drop_first() == d,
            !(s.len() > 0 && s[0] == 43) ==> s == d,
            forall|i: int| start <= i < k ==> spec_digit(#[trigger] b@[i]),
            over == (digits_value(b@.subrange(start as int, k as int)) > u32::MAX),
            !over ==> value == digits_value(b@.subrange(start as int, k as int)),
        decreases to - k,
    {
        if !(b[k] >= 48 && b[k] <= 57) {
            proof {
                assert(d[k - start] == b@[k as int]);
                assert(!spec_digit(d[k - start]));
                assert(0 <= k - start < d.len());
                assert(!(forall|i: int| 0 <= i < d.len() ==> spec_digit(#[trigger] d[i])));
                let dd = if s.len() > 0 && s[0] == 43 {
                    s.drop_first()
                } else {
                    s
                };
                assert(dd == d);
                assert(!all_digits(d));
            }
            return None;
        }
        proof {
            assert(b@.subrange(start as int, k + 1).drop_last() =~= b@.subrange(start as int, k as int));
        }
        if !over {
            value = value * 10 + (b[k] - 48) as u64;
            if value > 4294967295 {
                over = true;
            }
        }
        k += 1;
    }
    proof {
        assert(b@.subrange(start as int, k as int) =~= d);
        assert forall|i: int| 0 <= i < d.len() implies spec_digit(#[trigger] d[i]) by {
            assert(d[i] == b@[start + i]);
        }
    }
    if over || value == 0 {
        None
    } else {
        Some(value as u32)
    }
}

/// Split a `PATH:N` or `PATH:N-M` argument into its path and line range.
///
/// `None` when there is no line suffix, the ordinary case; the last colon is
/// the one that counts, so an earlier one is part of the name. A malformed
/// suffix (`foo.rb:`, `foo.rb:0`, `foo.rb:9-3`) is an error rather than a filename:
/// reading it as a path turns a scoped run into an unscoped one.
pub fn split_lines(arg: &str) -> (r: Result<Option<Lines<'_>>, String>)
    ensures
        lines_view(r) == spec_split_lines(arg@),
{
    let b = arg.as_bytes();
    let n = b.len();
    let mut k = n;
    while k > 0 && b[k - 1] != 58
        invariant
            k <= n == b@.len(),
            last_colon(b@, n as int) == last_colon(b@, k as int),
        decreases k,
    {
        k -= 1;
    }
    if k == 0 {
        return Ok(None);
    }
    let colon = k - 1;
    proof {
        lemma_last_colon(b@, n as int);
    }
    if colon + 1 == n {
        return Err(cat(arg, ": line numbers start at 1"));
    }
    if !(b[colon + 1] >= 48 && b[colon + 1] <= 57) {
        proof {
            if colon + 1 < n {
                assert(b@.subrange(colon + 1, n as int)[0] == b@[colon + 1]);
            }
        }
        return Ok(None);
    }
    let ghost suffix = b@.subrange(colon + 1, n as int);
    proof {
        assert(suffix[0] == b@[colon + 1]);
    }
    let dash: Vec<u8> = vec![45u8];
    let tail = &b[colon + 1..n];
    proof {
        assert(dash@ =~= seq![45u8]);
        assert(tail@ =~= suffix);
        crate::erb::lemma_first_occ_some(suffix, seq![45u8], 0);
    }
    let found = crate::text::find(tail, 0, dash.as_slice());
    let (first, last) = match found {
        Some(h) => {
            proof {
                assert(suffix.subrange(0, h as int) =~= b@.subrange(colon + 1, colon + 1 + h));
                assert(suffix.subrange(h + 1, suffix.len() as int) =~= b@.subrange(colon + 2 + h, n as int));
            }
            (parse_line_number(b, colon + 1, colon + 1 + h), parse_line_number(b, colon + 2 + h, n))
        },
        None => (parse_line_number(b, colon + 1, n), parse_line_number(b, colon + 1, n)),
    };
    match (first, last) {
        (Some(s), Some(e)) => {
            if e < s {
                return Err(cat(arg, ": line range ends before it starts"));
            }
            proof {
                assert(b@[colon as int] == 58);
                crate::text::lemma_ascii_splits(arg@, colon as int);
            }
            let path = slice_str(arg, 0, colon);
            Ok(Some(Lines { path, range: (s, e) }))
        },
        _ => Err(cat(arg, ": line numbers start at 1")),
    }
}

/// The revision a diff is taken against.
#[derive(Debug, PartialEq, Eq)]
pub enum Revision {
    /// A revision or range to hand to `git diff` as it is.
    Range(String),
    /// The merge base of this revision with `HEAD`, which only git can name,
    /// compared against the working tree.
    MergeBase(String),
}

/// Whether a revision is already a range: its text holds `..`.
pub open spec fn contains_dots(s: Seq<char>) -> bool {
    first_occ(vstd::utf8::encode_utf8(s), seq![46u8, 46u8], 0) is Some
}

pub open spec fn revision_view(r: Result<Revision, String>) -> Result<(bool, Seq<char>), Seq<char>> {
    match r {
        Ok(Revision::Range(s)) => Ok((false, s@)),
        Ok(Revision::MergeBase(s)) => Ok((true, s@)),
        Err(e) => Err(e@),
    }
}

/// What `--since` and `--diff` ask for, where `true` marks a merge base.
///
/// `--diff` alone is the uncommitted work, `HEAD`. `--since main` is three-dot,
/// `main...`: the change this branch introduces, not every way it differs from
/// main's tip. A range is passed through rather than doubled. Together they
/// are the merge base against the working tree -- except for a range, which
/// already names both ends.
pub open spec fn spec_revision(since: Option<Seq<char>>, uncommitted: bool) -> Result<
    (bool, Seq<char>),
    Seq<char>,
> {
    match since {
        None => Ok((false, "HEAD"@)),
        Some(rev) => if !uncommitted {
            if contains_dots(rev) {
                Ok((false, rev))
            } else {
                Ok((false, rev + "..."@))
            }
        } else if contains_dots(rev) {
            Err(
                "--since "@ + rev
                    + " is already a range; drop --diff, or name a single revision"@,
            )
        } else {
            Ok((true, rev))
        },
    }
}

fn has_dots(s: &str) -> (r: bool)
    ensures
        r == contains_dots(s@),
{
    let b = s.as_bytes();
    let dots: Vec<u8> = vec![46u8, 46u8];
    proof {
        assert(dots@ =~= seq![46u8, 46u8]);
    }
    let found = crate::text::find(b, 0, dots.as_slice());
    found.is_some()
}

/// What `--since` and `--diff` were given, as a revision for `git diff`.
pub fn spec(since: Option<&str>, uncommitted: bool) -> (r: Result<Revision, String>)
    ensures
        revision_view(r) == spec_revision(
            match since {
                Some(s) => Some(s@),
                None => None,
            },
            uncommitted,
        ),
{
    match since {
        None => Ok(Revision::Range(owned("HEAD"))),
        Some(rev) => {
            let ranged = has_dots(rev);
            if !uncommitted {
                if ranged {
                    Ok(Revision::Range(owned(rev)))
                } else {
                    Ok(Revision::Range(cat(rev, "...")))
                }
            } else if ranged {
                let mut e = cat("--since ", rev);
                e.append(" is already a range; drop --diff, or name a single revision");
                Err(e)
            } else {
                Ok(Revision::MergeBase(owned(rev)))
            }
        },
    }
}

/// Changed lines by file, as plain values: each file once, with its ranges
/// of lines in the order they were named.
pub type Grouped = Seq<(Seq<char>, Seq<(u32, u32)>)>;

/// Where a file's entry sits, if it has one.
pub open spec fn key_index(g: Grouped, file: Seq<char>) -> Option<int>
    decreases g.len(),
{
    if g.len() == 0 {
        None
    } else {
        match key_index(g.drop_last(), file) {
            Some(i) => Some(i),
            None => if g.last().0 == file {
                Some(g.len() - 1)
            } else {
                None
            },
        }
    }
}

proof fn lemma_key_index(g: Grouped, file: Seq<char>)
    ensures
        key_index(g, file) matches Some(i) ==> 0 <= i < g.len() && g[i].0 == file && forall|j: int|
            0 <= j < i ==> g[j].0 != file,
        key_index(g, file) is None ==> forall|j: int| 0 <= j < g.len() ==> g[j].0 != file,
    decreases g.len(),
{
    if g.len() > 0 {
        lemma_key_index(g.drop_last(), file);
        assert forall|j: int| 0 <= j < g.len() - 1 implies g.drop_last()[j] == g[j] by {}
    }
}

/// One more range for a file: appended to its entry, or a new entry after
/// the others.
pub open spec fn add_range(g: Grouped, file: Seq<char>, range: (u32, u32)) -> Grouped {
    match key_index(g, file) {
        Some(i) => g.update(i, (file, g[i].1.push(range))),
        None => g.push((file, seq![range])),
    }
}

/// Named ranges grouped by file, in the order the files were first named.
pub open spec fn grouped(named: Seq<(Seq<char>, (u32, u32))>) -> Grouped
    decreases named.len(),
{
    if named.len() == 0 {
        Seq::empty()
    } else {
        add_range(grouped(named.drop_last()), named.last().0, named.last().1)
    }
}

/// No file has two entries.
pub open spec fn distinct_files(g: Grouped) -> bool {
    forall|i: int, j: int| 0 <= i < j < g.len() ==> g[i].0 != g[j].0
}

/// Whether any changed line of `file` lies in `start..=end`: overlap rather
/// than containment, since a match spanning a changed line and unchanged
/// ones is still one this change is responsible for.
pub open spec fn spec_touches(g: Grouped, file: Seq<char>, start: int, end: int) -> bool {
    match key_index(g, file) {
        Some(i) => overlaps(g[i].1, start, end),
        None => false,
    }
}

/// Whether any range meets `start..=end`.
pub open spec fn overlaps(ranges: Seq<(u32, u32)>, start: int, end: int) -> bool {
    exists|k: int| 0 <= k < ranges.len() && start <= (#[trigger] ranges[k]).1 && end >= ranges[k].0
}

/// Lines added or changed, by file.
#[derive(Debug, Default)]
pub struct Changed {
    by_file: Vec<(String, Vec<(u32, u32)>)>,
}

impl Changed {
    pub closed spec fn view(&self) -> Grouped {
        self.by_file@.map_values(|e: (String, Vec<(u32, u32)>)| (e.0@, e.1@))
    }

    /// No changed lines at all.
    pub fn new() -> (c: Changed)
        ensures
            c.view() == Seq::<(Seq<char>, Seq<(u32, u32)>)>::empty(),
    {
        let c = Changed { by_file: Vec::new() };
        assert(c.view() =~= Seq::<(Seq<char>, Seq<(u32, u32)>)>::empty());
        c
    }

    fn index_of(&self, file: &str) -> (r: Option<usize>)
        ensures
            match r {
                Some(i) => key_index(self.view(), file@) == Some(i as int),
                None => key_index(self.view(), file@) is None,
            },
    {
        let ghost g = self.view();
        proof {
            lemma_key_index(g, file@);
        }
        let mut k: usize = 0;
        while k < self.by_file.len()
            invariant
                k <= self.by_file@.len() == g.len(),
                g == self.view(),
                forall|j: int| 0 <= j < k ==> g[j].0 != file@,
            decreases self.by_file@.len() - k,
        {
            assert(g[k as int].0 == self.by_file@[k as int].0@);
            if str_eq(self.by_file[k].0.as_str(), file) {
                proof {
                    lemma_key_index(g, file@);
                }
                return Some(k);
            }
            k += 1;
        }
        None
    }

    /// Record one more range of changed lines for a file.
    pub fn add(&mut self, file: String, range: (u32, u32))
        ensures
            final(self).view() == add_range(old(self).view(), file@, range),
    {
        let ghost g = self.view();
        match self.index_of(file.as_str()) {
            Some(i) => {
                proof {
                    lemma_key_index(g, file@);
                }
                let mut entry = self.by_file.remove(i);
                entry.1.push(range);
                self.by_file.insert(i, entry);
                proof {
                    assert(self.view() =~= g.update(i as int, (file@, g[i as int].1.push(range))));
                }
            },
            None => {
                let mut ranges: Vec<(u32, u32)> = Vec::new();
                ranges.push(range);
                let ghost fv = file@;
                self.by_file.push((file, ranges));
                proof {
                    assert(self.view() =~= g.push((fv, seq![range])));
                }
            },
        }
    }

    /// Restrict to lines named on the command line, as `file.rb:3` or
    /// `file.rb:3-15`: the scope git produces, supplied by hand.
    pub fn from_lines(named: Vec<(String, (u32, u32))>) -> (c: Changed)
        ensures
            c.view() == grouped(named@.map_values(|e: (String, (u32, u32))| (e.0@, e.1))),
    {
        let ghost nv = named@.map_values(|e: (String, (u32, u32))| (e.0@, e.1));
        let mut c = Changed::new();
        let mut k: usize = 0;
        while k < named.len()
            invariant
                k <= named@.len(),
                nv == named@.map_values(|e: (String, (u32, u32))| (e.0@, e.1)),
                c.view() == grouped(nv.take(k as int)),
            decreases named@.len() - k,
        {
            proof {
                assert(nv.take(k + 1).drop_last() =~= nv.take(k as int));
                assert(nv.take(k + 1).last() == nv[k as int]);
            }
            c.add(owned(named[k].0.as_str()), named[k].1);
            k += 1;
        }
        proof {
            assert(nv.take(named@.len() as int) =~= nv);
        }
        c
    }

    /// Whether any changed line of `file` lies in `start..=end`.
    pub fn touches(&self, file: &str, start: usize, end: usize) -> (r: bool)
        ensures
            r == spec_touches(self.view(), file@, start as int, end as int),
    {
        let ghost g = self.view();
        proof {
            lemma_key_index(g, file@);
        }
        match self.index_of(file) {
            None => false,
            Some(i) => {
                let ranges = &self.by_file[i].1;
                proof {
                    assert(g[i as int].1 == ranges@);
                }
                let mut k: usize = 0;
                while k < ranges.len()
                    invariant
                        k <= ranges@.len(),
                        0 <= i < g.len(),
                        g == self.view(),
                        key_index(g, file@) == Some(i as int),
                        g[i as int].1 == ranges@,
                        forall|j: int| 0 <= j < k ==> !(start <= (#[trigger] ranges@[j]).1 && end >= ranges@[j].0),
                    decreases ranges@.len() - k,
                {
                    let (a, b) = ranges[k];
                    if start <= b as usize && end >= a as usize {
                        assert(overlaps(ranges@, start as int, end as int));
                        return true;
                    }
                    k += 1;
                }
                false
            },
        }
    }

    /// Whether the file has any changed lines at all: the cheap test, before
    /// a file is read.
    pub fn covers(&self, file: &str) -> (r: bool)
        ensures
            r == key_index(self.view(), file@) is Some,
    {
        self.index_of(file).is_some()
    }

    /// How many files have changed lines.
    pub fn files(&self) -> (r: usize)
        ensures
            r == self.view().len(),
    {
        self.by_file.len()
    }
}


/// A decimal digit, as a character.
pub open spec fn digit_char(c: char) -> bool {
    '0' <= c <= '9'
}

/// The value of decimal digit characters.
pub open spec fn chars_value(s: Seq<char>) -> nat
    decreases s.len(),
{
    if s.len() == 0 {
        0
    } else {
        chars_value(s.drop_last()) * 10 + (s.last() as u32 - 48) as nat
    }
}

/// `u32::from_str`: an optional `+`, then one or more digits whose value
/// fits.
pub open spec fn spec_u32(s: Seq<char>) -> Option<u32> {
    digits_u32(
        if s.len() > 0 && s[0] == '+' {
            s.drop_first()
        } else {
            s
        },
    )
}

/// Every character a decimal digit.
pub open spec fn all_digit_chars(d: Seq<char>) -> bool {
    forall|i: int| 0 <= i < d.len() ==> digit_char(#[trigger] d[i])
}

/// One or more digits whose value fits in a `u32`.
pub open spec fn digits_u32(d: Seq<char>) -> Option<u32> {
    if d.len() == 0 || !all_digit_chars(d) || chars_value(d) > u32::MAX {
        None
    } else {
        Some(chars_value(d) as u32)
    }
}

proof fn lemma_chars_value_grows(s: Seq<char>, k: int)
    requires
        0 <= k <= s.len(),
        forall|i: int| 0 <= i < s.len() ==> digit_char(#[trigger] s[i]),
    ensures
        chars_value(s.take(k)) <= chars_value(s),
    decreases s.len() - k,
{
    if k < s.len() {
        lemma_chars_value_grows(s, k + 1);
        assert(s.take(k + 1).drop_last() =~= s.take(k));
    } else {
        assert(s.take(k) =~= s);
    }
}

/// `u32::from_str` on some characters of `s`.
fn u32_of(s: &str, from: usize, to: usize) -> (r: Option<u32>)
    requires
        from <= to <= s@.len(),
    ensures
        r == spec_u32(s@.subrange(from as int, to as int)),
{
    let ghost t = s@.subrange(from as int, to as int);
    let mut i = from;
    if i < to && s.get_char(i) == '+' {
        i += 1;
    }
    let ghost d = if t.len() > 0 && t[0] == '+' {
        t.drop_first()
    } else {
        t
    };
    assert(d =~= s@.subrange(i as int, to as int));
    if i == to {
        return None;
    }
    let mut acc: u64 = 0;
    let mut j = i;
    while j < to
        invariant
            i <= j <= to <= s@.len(),
            from <= i,
            t == s@.subrange(from as int, to as int),
            d == (if t.len() > 0 && t[0] == '+' {
                t.drop_first()
            } else {
                t
            }),
            d =~= s@.subrange(i as int, to as int),
            forall|q: int| 0 <= q < j - i ==> digit_char(#[trigger] d[q]),
            acc == chars_value(d.take(j - i)),
            acc <= u32::MAX,
        decreases to - j,
    {
        let c = s.get_char(j);
        if !('0' <= c && c <= '9') {
            assert(!digit_char(d[j - i]));
            assert(!all_digit_chars(d));
            return None;
        }
        proof {
            assert(d.take(j - i + 1).drop_last() =~= d.take(j - i));
            assert(d.take(j - i + 1).last() == c);
        }
        let next = acc * 10 + (c as u64 - 48);
        if next > 4294967295 {
            proof {
                assert(chars_value(d.take(j - i + 1)) == next);
                if all_digit_chars(d) {
                    lemma_chars_value_grows(d, j - i + 1);
                    assert(chars_value(d) > u32::MAX);
                }
            }
            return None;
        }
        acc = next;
        j += 1;
    }
    proof {
        assert(d.take(d.len() as int) =~= d);
    }
    Some(acc as u32)
}

fn is_white(c: char) -> (r: bool)
    ensures
        r == crate::text::unicode_space(c),
{
    let n = c as u32;
    (9 <= n && n <= 13) || n == 32 || n == 0x85 || n == 0xA0 || n == 0x1680 || (0x2000 <= n && n <= 0x200A)
        || n == 0x2028 || n == 0x2029 || n == 0x202F || n == 0x205F || n == 0x3000
}

/// The first whitespace-separated field from `k` on that starts with `+`.
pub open spec fn plus_field(s: Seq<char>, k: int) -> Option<int>
    decreases s.len() - k,
{
    if k < 0 || k >= s.len() {
        None
    } else if s[k] == '+' && (k == 0 || crate::text::unicode_space(s[k - 1])) {
        Some(k)
    } else {
        plus_field(s, k + 1)
    }
}

/// Where the field starting at `k` ends.
pub open spec fn field_end(s: Seq<char>, k: int) -> int
    decreases s.len() - k,
{
    if k < 0 || k >= s.len() {
        s.len() as int
    } else if crate::text::unicode_space(s[k]) {
        k
    } else {
        field_end(s, k + 1)
    }
}

/// The first `,` from `k` on, before `end`.
pub open spec fn comma(s: Seq<char>, k: int, end: int) -> int
    decreases end - k,
{
    if k < 0 || k >= end {
        end
    } else if s[k] == ',' {
        k
    } else {
        comma(s, k + 1, end)
    }
}

/// A hunk header after its `@@ `, as `-a,b +c,d @@`: the new side's first
/// line and how many lines it spans. A missing or unreadable count is one.
pub open spec fn spec_hunk(rest: Seq<char>) -> Option<(u32, u32)> {
    match plus_field(rest, 0) {
        None => None,
        Some(p) => {
            let end = field_end(rest, p);
            let c1 = comma(rest, p + 1, end);
            match spec_u32(rest.subrange(p + 1, c1)) {
                None => None,
                Some(start) => if c1 < end {
                    let c2 = comma(rest, c1 + 1, end);
                    Some(
                        (
                            start,
                            match spec_u32(rest.subrange(c1 + 1, c2)) {
                                Some(count) => count,
                                None => 1,
                            },
                        ),
                    )
                } else {
                    Some((start, 1))
                },
            }
        },
    }
}

proof fn lemma_field_end(s: Seq<char>, k: int)
    requires
        0 <= k <= s.len(),
    ensures
        k <= field_end(s, k) <= s.len(),
    decreases s.len() - k,
{
    if k < s.len() && !crate::text::unicode_space(s[k]) {
        lemma_field_end(s, k + 1);
    }
}

proof fn lemma_comma(s: Seq<char>, k: int, end: int)
    requires
        0 <= k,
        end <= s.len(),
    ensures
        k <= end ==> k <= comma(s, k, end) <= end,
    decreases end - k,
{
    if k < end && s[k] != ',' {
        lemma_comma(s, k + 1, end);
    }
}

proof fn lemma_plus_field(s: Seq<char>, k: int)
    requires
        0 <= k,
    ensures
        plus_field(s, k) matches Some(p) ==> k <= p < s.len(),
    decreases s.len() - k,
{
    if k < s.len() && !(s[k] == '+' && (k == 0 || crate::text::unicode_space(s[k - 1]))) {
        lemma_plus_field(s, k + 1);
    }
}

/// Read a hunk header after its `@@ `.
fn hunk(rest: &str) -> (r: Option<(u32, u32)>)
    ensures
        r == spec_hunk(rest@),
{
    let n = rest.unicode_len();
    let ghost s = rest@;
    let mut p: usize = 0;
    while p < n && !(rest.get_char(p) == '+' && (p == 0 || is_white(rest.get_char(p - 1))))
        invariant
            p <= n == s.len(),
            s == rest@,
            plus_field(s, 0) == plus_field(s, p as int),
        decreases n - p,
    {
        p += 1;
    }
    if p == n {
        return None;
    }
    let mut end = p;
    while end < n && !is_white(rest.get_char(end))
        invariant
            p <= end <= n == s.len(),
            s == rest@,
            field_end(s, p as int) == field_end(s, end as int),
        decreases n - end,
    {
        end += 1;
    }
    let mut c1 = p + 1;
    while c1 < end && rest.get_char(c1) != ','
        invariant
            p + 1 <= c1 <= end <= n == s.len(),
            s == rest@,
            comma(s, p + 1, end as int) == comma(s, c1 as int, end as int),
        decreases end - c1,
    {
        c1 += 1;
    }
    let start = match u32_of(rest, p + 1, c1) {
        Some(v) => v,
        None => {
            return None;
        },
    };
    if c1 < end {
        let mut c2 = c1 + 1;
        while c2 < end && rest.get_char(c2) != ','
            invariant
                c1 + 1 <= c2 <= end <= n == s.len(),
                s == rest@,
                comma(s, c1 + 1, end as int) == comma(s, c2 as int, end as int),
            decreases end - c2,
        {
            c2 += 1;
        }
        let count = match u32_of(rest, c1 + 1, c2) {
            Some(v) => v,
            None => 1,
        };
        Some((start, count))
    } else {
        Some((start, 1))
    }
}

/// `Path::join` of a relative path onto a root, as text. The result depends
/// on the two paths alone.
pub uninterp spec fn path_joined(root: Seq<char>, p: Seq<char>) -> Seq<char>;

/// `Path::join`, as text.
#[verifier::external_body]
fn joined(root: &str, p: &str) -> (r: String)
    ensures
        r@ == path_joined(root@, p@),
{
    std::path::Path::new(root).join(p).to_string_lossy().into_owned()
}

/// Where the line starting at `i` ends: its `\n`, or the end.
pub open spec fn nl_at(b: Seq<u8>, i: int) -> int
    decreases b.len() - i,
{
    if i < 0 || i >= b.len() {
        b.len() as int
    } else if b[i] == 10 {
        i
    } else {
        nl_at(b, i + 1)
    }
}

/// Where the text of the line starting at `i` ends: before a `\r\n`, before a
/// `\n`, or at the end.
pub open spec fn text_end(b: Seq<u8>, i: int) -> int {
    let j = nl_at(b, i);
    if j < b.len() && j > i && b[j - 1] == 13 {
        j - 1
    } else {
        j
    }
}

pub open spec fn starts_bytes(b: Seq<u8>, i: int, e: int, p: Seq<u8>) -> bool {
    e - i >= p.len() && b.subrange(i, i + p.len()) == p
}

/// `+++ `
pub open spec fn new_file_marker() -> Seq<u8> {
    seq![43u8, 43, 43, 32]
}

/// `@@ `
pub open spec fn hunk_marker() -> Seq<u8> {
    seq![64u8, 64, 32]
}

/// `b/`
pub open spec fn new_side() -> Seq<u8> {
    seq![98u8, 47]
}

/// `/dev/null`
pub open spec fn dev_null() -> Seq<u8> {
    seq![47u8, 100, 101, 118, 47, 110, 117, 108, 108]
}

/// The file a `+++ ` line names, joined onto the root; nothing for a deletion.
pub open spec fn named_file(b: Seq<u8>, i: int, e: int, root: Seq<char>) -> Option<Seq<char>> {
    if starts_bytes(b, i + 4, e, new_side()) && b.subrange(i + 6, e) != dev_null() {
        Some(path_joined(root, vstd::utf8::decode_utf8(b.subrange(i + 6, e))))
    } else {
        None
    }
}

/// What one line does: a `+++ ` line names the current file; a hunk header
/// under a named file adds its first line and length, when it adds lines.
pub open spec fn line_effect(b: Seq<u8>, i: int, e: int, current: Option<Seq<char>>, root: Seq<char>) -> (
    Option<Seq<char>>,
    Seq<(Seq<char>, (u32, u32))>,
) {
    if starts_bytes(b, i, e, new_file_marker()) {
        (named_file(b, i, e, root), Seq::empty())
    } else if starts_bytes(b, i, e, hunk_marker()) && current is Some {
        match spec_hunk(vstd::utf8::decode_utf8(b.subrange(i + 3, e))) {
            Some((start, count)) => if count != 0 {
                (current, seq![(current->0, (start, count))])
            } else {
                (current, Seq::empty())
            },
            None => (current, Seq::empty()),
        }
    } else {
        (current, Seq::empty())
    }
}

/// What the hunk headers of a unified diff say, from offset `i` on, with
/// `current` the file the last `+++ ` line named: each file and the first
/// line and length of each hunk that adds lines.
pub open spec fn hunks_from(b: Seq<u8>, i: int, current: Option<Seq<char>>, root: Seq<char>) -> Seq<
    (Seq<char>, (u32, u32)),
>
    decreases b.len() + 1 - i,
{
    if i < 0 || i >= b.len() || nl_at(b, i) < i || nl_at(b, i) > b.len() {
        Seq::empty()
    } else {
        line_effect(b, i, text_end(b, i), current, root).1 + hunks_from(
            b,
            nl_at(b, i) + 1,
            line_effect(b, i, text_end(b, i), current, root).0,
            root,
        )
    }
}

/// Every hunk's last line fits a `u32`.
pub open spec fn hunks_fit(h: Seq<(Seq<char>, (u32, u32))>) -> bool {
    forall|k: int| 0 <= k < h.len() ==> (#[trigger] h[k]).1.0 + h[k].1.1 - 1 <= u32::MAX
}

/// Each hunk as the range of lines it covers.
pub open spec fn hunk_ranges(h: Seq<(Seq<char>, (u32, u32))>) -> Seq<(Seq<char>, (u32, u32))> {
    h.map_values(|e: (Seq<char>, (u32, u32))| (e.0, (e.1.0, (e.1.0 + e.1.1 - 1) as u32)))
}

proof fn lemma_nl_at(b: Seq<u8>, i: int)
    requires
        0 <= i <= b.len(),
    ensures
        i <= nl_at(b, i) <= b.len(),
        nl_at(b, i) < b.len() ==> b[nl_at(b, i)] == 10,
    decreases b.len() - i,
{
    if i < b.len() && b[i] != 10 {
        lemma_nl_at(b, i + 1);
    }
}

proof fn lemma_hunks_concat(a: Seq<(Seq<char>, (u32, u32))>, b: Seq<(Seq<char>, (u32, u32))>)
    ensures
        hunks_fit(a + b) <==> hunks_fit(a) && hunks_fit(b),
        hunk_ranges(a + b) == hunk_ranges(a) + hunk_ranges(b),
{
    assert(hunk_ranges(a + b) =~= hunk_ranges(a) + hunk_ranges(b));
    if hunks_fit(a) && hunks_fit(b) {
        assert forall|k: int| 0 <= k < (a + b).len() implies (#[trigger] (a + b)[k]).1.0 + (a + b)[k].1.1 - 1
            <= u32::MAX by {
            if k >= a.len() {
                assert((a + b)[k] == b[k - a.len()]);
            }
        }
    }
    if hunks_fit(a + b) {
        assert forall|k: int| 0 <= k < a.len() implies (#[trigger] a[k]).1.0 + a[k].1.1 - 1 <= u32::MAX by {
            assert((a + b)[k] == a[k]);
        }
        assert forall|k: int| 0 <= k < b.len() implies (#[trigger] b[k]).1.0 + b[k].1.1 - 1 <= u32::MAX by {
            assert((a + b)[k + a.len()] == b[k]);
        }
    }
}

fn bytes_at(b: &[u8], i: usize, e: usize, p: &[u8]) -> (r: bool)
    requires
        i <= e <= b@.len(),
    ensures
        r == starts_bytes(b@, i as int, e as int, p@),
{
    if e - i < p.len() {
        return false;
    }
    let mut k: usize = 0;
    while k < p.len()
        invariant
            k <= p@.len(),
            i + p@.len() <= e <= b@.len(),
            forall|q: int| 0 <= q < k ==> b@[i + q] == p@[q],
        decreases p@.len() - k,
    {
        if b[i + k] != p[k] {
            assert(b@.subrange(i as int, i + p@.len())[k as int] != p@[k as int]);
            return false;
        }
        k += 1;
    }
    assert(b@.subrange(i as int, i + p@.len()) =~= p@);
    true
}

/// Take in one line `[i, e)` of a diff.
fn take_line(
    diff: &str,
    root: &str,
    i: usize,
    e: usize,
    current: &mut Option<String>,
    out: &mut Vec<(String, (u32, u32))>,
) -> (fits: bool)
    requires
        i <= e <= diff.spec_bytes().len(),
        i == 0 || diff.spec_bytes()[i - 1] == 10,
        e == diff.spec_bytes().len() || diff.spec_bytes()[e as int] == 10 || diff.spec_bytes()[e as int] == 13,
    ensures
        ({
            let (c, add) = line_effect(diff.spec_bytes(), i as int, e as int, opt_view(*old(current)), root@);
            let o = old(out)@.map_values(|x: (String, (u32, u32))| (x.0@, x.1));
            &&& opt_view(*final(current)) == c
            &&& fits ==> final(out)@.map_values(|x: (String, (u32, u32))| (x.0@, x.1)) == o + add && hunks_fit(add)
            &&& !fits ==> !hunks_fit(add)
        }),
{
    let b = diff.as_bytes();
    let ghost bs = b@;
    let plus3: [u8; 4] = [43, 43, 43, 32];
    let at2: [u8; 3] = [64, 64, 32];
    let bside: [u8; 2] = [98, 47];
    let null: [u8; 9] = [47, 100, 101, 118, 47, 110, 117, 108, 108];
    assert(plus3@ =~= new_file_marker());
    assert(at2@ =~= hunk_marker());
    assert(bside@ =~= new_side());
    assert(null@ =~= dev_null());
    proof {
        vstd::utf8::encode_utf8_valid_utf8(diff@);
        if i > 0 {
            lemma_ascii_splits(diff@, i - 1);
        }
        if e < bs.len() {
            lemma_ascii_splits(diff@, e as int);
        }
    }
    let ghost o = out@.map_values(|x: (String, (u32, u32))| (x.0@, x.1));
    if bytes_at(b, i, e, &plus3) {
        let named = if bytes_at(b, i + 4, e, &bside) && !(e - (i + 6) == 9 && bytes_at(b, i + 6, e, &null)) {
            proof {
                lemma_ascii_splits(diff@, i + 5);
            }
            let p = slice_str(diff, i + 6, e);
            Some(joined(root, p))
        } else {
            None
        };
        proof {
            if starts_bytes(bs, i + 4, e as int, new_side()) {
                if e - (i + 6) == 9 {
                    assert(bs.subrange(i + 6, i + 6 + 9) =~= bs.subrange(i + 6, e as int));
                } else {
                    assert(bs.subrange(i + 6, e as int).len() != dev_null().len());
                }
            }
        }
        *current = named;
        proof {
            assert(hunks_fit(Seq::<(Seq<char>, (u32, u32))>::empty()));
            assert(o + Seq::<(Seq<char>, (u32, u32))>::empty() =~= o);
        }
        return true;
    }
    if bytes_at(b, i, e, &at2) && current.is_some() {
        proof {
            lemma_ascii_splits(diff@, i + 2);
        }
        let rest = slice_str(diff, i + 3, e);
        match hunk(rest) {
            Some((start, count)) => {
                if count != 0 {
                    let file = match &*current {
                        Some(f) => owned(f.as_str()),
                        None => owned(""),
                    };
                    let ghost h = seq![(file@, (start, count))];
                    if start as u64 + count as u64 - 1 > 4294967295 {
                        assert(h[0].1.0 + h[0].1.1 - 1 > u32::MAX);
                        return false;
                    }
                    out.push((file, (start, count)));
                    proof {
                        assert(out@.map_values(|x: (String, (u32, u32))| (x.0@, x.1)) =~= o + h);
                    }
                    return true;
                }
            },
            None => {},
        }
    }
    proof {
        assert(hunks_fit(Seq::<(Seq<char>, (u32, u32))>::empty()));
        assert(o + Seq::<(Seq<char>, (u32, u32))>::empty() =~= o);
    }
    true
}

/// The hunk headers of a unified diff, checked: each file with the first line
/// and length of each hunk that adds lines, or `None` when a hunk's last line
/// does not fit a `u32`.
pub fn hunks(diff: &str, root: &str) -> (r: Option<Vec<(String, (u32, u32))>>)
    ensures
        ({
            let h = hunks_from(diff.spec_bytes(), 0, None, root@);
            match r {
                Some(v) => hunks_fit(h) && v@.map_values(|e: (String, (u32, u32))| (e.0@, e.1)) == h,
                None => !hunks_fit(h),
            }
        }),
{
    let b = diff.as_bytes();
    let ghost bs = b@;
    let mut out: Vec<(String, (u32, u32))> = Vec::new();
    let mut current: Option<String> = None;
    let mut i: usize = 0;
    let ghost whole = hunks_from(bs, 0, None, root@);
    proof {
        assert(out@.map_values(|e: (String, (u32, u32))| (e.0@, e.1)) =~= Seq::<(Seq<char>, (u32, u32))>::empty());
        assert(Seq::<(Seq<char>, (u32, u32))>::empty() + whole =~= whole);
    }
    while i < b.len()
        invariant
            i <= bs.len(),
            bs == b@,
            bs == diff.spec_bytes(),
            whole == hunks_from(bs, 0, None, root@),
            i == 0 || i == bs.len() || bs[i - 1] == 10,
            hunks_fit(out@.map_values(|e: (String, (u32, u32))| (e.0@, e.1))),
            out@.map_values(|e: (String, (u32, u32))| (e.0@, e.1)) + hunks_from(bs, i as int, opt_view(current), root@)
                == whole,
        decreases bs.len() - i,
    {
        let ghost before = out@.map_values(|e: (String, (u32, u32))| (e.0@, e.1));
        let ghost cur = opt_view(current);
        let mut j = i;
        while j < b.len() && b[j] != 10
            invariant
                i <= j <= bs.len(),
                bs == b@,
                nl_at(bs, i as int) == nl_at(bs, j as int),
            decreases bs.len() - j,
        {
            j += 1;
        }
        proof {
            lemma_nl_at(bs, i as int);
        }
        assert(j < bs.len() ==> bs[j as int] == 10);
        let e = if j < b.len() && j > i && b[j - 1] == 13 {
            j - 1
        } else {
            j
        };
        let ghost effect = line_effect(bs, i as int, e as int, cur, root@);
        let ghost rest = hunks_from(bs, (j + 1) as int, effect.0, root@);
        assert(hunks_from(bs, i as int, cur, root@) == effect.1 + rest);
        if !take_line(diff, root, i, e, &mut current, &mut out) {
            proof {
                lemma_hunks_concat(effect.1, rest);
                lemma_hunks_concat(before, effect.1 + rest);
            }
            return None;
        }
        proof {
            lemma_hunks_concat(before, effect.1);
            assert((before + effect.1) + rest =~= before + (effect.1 + rest));
        }
        if j < b.len() {
            i = j + 1;
        } else {
            proof {
                assert(rest =~= Seq::<(Seq<char>, (u32, u32))>::empty());
                assert(hunks_from(bs, j as int, opt_view(current), root@) =~= Seq::<(Seq<char>, (u32, u32))>::empty());
            }
            i = j;
        }
    }
    proof {
        assert(hunks_from(bs, i as int, opt_view(current), root@) =~= Seq::<(Seq<char>, (u32, u32))>::empty());
        assert(out@.map_values(|e: (String, (u32, u32))| (e.0@, e.1)) + Seq::<(Seq<char>, (u32, u32))>::empty()
            =~= out@.map_values(|e: (String, (u32, u32))| (e.0@, e.1)));
    }
    Some(out)
}

proof fn lemma_counts_nonzero(b: Seq<u8>, i: int, current: Option<Seq<char>>, root: Seq<char>)
    ensures
        forall|k: int|
            0 <= k < hunks_from(b, i, current, root).len() ==> (#[trigger] hunks_from(b, i, current, root)[k]).1.1
                != 0,
    decreases b.len() + 1 - i,
{
    if !(i < 0 || i >= b.len() || nl_at(b, i) < i || nl_at(b, i) > b.len()) {
        let eff = line_effect(b, i, text_end(b, i), current, root);
        lemma_counts_nonzero(b, nl_at(b, i) + 1, eff.0, root);
        let rest = hunks_from(b, nl_at(b, i) + 1, eff.0, root);
        assert forall|k: int| 0 <= k < (eff.1 + rest).len() implies (#[trigger] (eff.1 + rest)[k]).1.1 != 0 by {
            if k >= eff.1.len() {
                assert((eff.1 + rest)[k] == rest[k - eff.1.len()]);
            }
        }
    }
}

/// Read hunk headers out of a unified diff into the changed lines of each
/// file: a hunk adding `d` lines from line `c` covers `c..=c + d - 1`.
pub fn parse(diff: &str, root: &str) -> (c: Changed)
    requires
        hunks_fit(hunks_from(diff.spec_bytes(), 0, None, root@)),
    ensures
        c.view() == grouped(hunk_ranges(hunks_from(diff.spec_bytes(), 0, None, root@))),
{
    let ghost h = hunks_from(diff.spec_bytes(), 0, None, root@);
    match hunks(diff, root) {
        Some(found) => {
            let mut named: Vec<(String, (u32, u32))> = Vec::new();
            let mut k: usize = 0;
            while k < found.len()
                invariant
                    k <= found@.len(),
                    found@.map_values(|e: (String, (u32, u32))| (e.0@, e.1)) == h,
                    h == hunks_from(diff.spec_bytes(), 0, None, root@),
                    hunks_fit(h),
                    named@.map_values(|e: (String, (u32, u32))| (e.0@, e.1)) == hunk_ranges(h).take(k as int),
                decreases found@.len() - k,
            {
                assert(h[k as int] == (found@[k as int].0@, found@[k as int].1));
                let (start, count) = found[k].1;
                let ghost was = named@.map_values(|e: (String, (u32, u32))| (e.0@, e.1));
                proof {
                    lemma_counts_nonzero(diff.spec_bytes(), 0, None, root@);
                    assert(hunks_from(diff.spec_bytes(), 0, None, root@)[k as int].1.1 != 0);
                    assert(h[k as int].1.1 != 0);
                    assert(h[k as int].1.0 + h[k as int].1.1 - 1 <= u32::MAX);
                }
                named.push((owned(found[k].0.as_str()), (start, start + (count - 1))));
                proof {
                    assert(named@.map_values(|e: (String, (u32, u32))| (e.0@, e.1)) =~= was.push(hunk_ranges(h)[k as int]));
                    assert(hunk_ranges(h).take(k + 1) =~= hunk_ranges(h).take(k as int).push(hunk_ranges(h)[k as int]));
                }
                k += 1;
            }
            proof {
                assert(hunk_ranges(h).take(found@.len() as int) =~= hunk_ranges(h));
            }
            Changed::from_lines(named)
        },
        None => Changed::new(),
    }
}

/// Where the NUL-terminated piece starting at byte `i` ends.
pub open spec fn nul_at(b: Seq<u8>, i: int) -> int
    decreases b.len() - i,
{
    if i < 0 || i >= b.len() {
        b.len() as int
    } else if b[i] == 0 {
        i
    } else {
        nul_at(b, i + 1)
    }
}

/// The non-empty NUL-separated names from byte `i` on.
pub open spec fn nul_names(b: Seq<u8>, i: int) -> Seq<Seq<char>>
    decreases b.len() + 1 - i,
{
    if i < 0 || i >= b.len() || nul_at(b, i) < i || nul_at(b, i) > b.len() {
        Seq::empty()
    } else if nul_at(b, i) == i {
        nul_names(b, i + 1)
    } else {
        seq![vstd::utf8::decode_utf8(b.subrange(i, nul_at(b, i)))] + nul_names(b, nul_at(b, i) + 1)
    }
}

/// Every file in a list as changed throughout.
pub open spec fn all_lines(g: Grouped, names: Seq<Seq<char>>, root: Seq<char>) -> Grouped
    decreases names.len(),
{
    if names.len() == 0 {
        g
    } else {
        add_range(all_lines(g, names.drop_last(), root), path_joined(root, names.last()), (1, u32::MAX))
    }
}

proof fn lemma_nul_at(b: Seq<u8>, i: int)
    requires
        0 <= i <= b.len(),
    ensures
        i <= nul_at(b, i) <= b.len(),
        nul_at(b, i) < b.len() ==> b[nul_at(b, i)] == 0,
    decreases b.len() - i,
{
    if i < b.len() && b[i] != 0 {
        lemma_nul_at(b, i + 1);
    }
}

proof fn lemma_all_lines_concat(g: Grouped, a: Seq<Seq<char>>, b: Seq<Seq<char>>, root: Seq<char>)
    ensures
        all_lines(g, a + b, root) == all_lines(all_lines(g, a, root), b, root),
    decreases b.len(),
{
    if b.len() == 0 {
        assert(a + b =~= a);
    } else {
        lemma_all_lines_concat(g, a, b.drop_last(), root);
        assert((a + b).drop_last() =~= a + b.drop_last());
        assert((a + b).last() == b.last());
    }
}

impl Changed {
    /// Take in files git does not track yet, from the NUL-separated names
    /// `git ls-files -z` lists: every line of a new file is a new line.
    pub fn add_untracked(&mut self, listing: &str, root: &str)
        ensures
            final(self).view() == all_lines(old(self).view(), nul_names(listing.spec_bytes(), 0), root@),
    {
        let b = listing.as_bytes();
        let ghost bs = b@;
        let ghost start = self.view();
        let ghost whole = nul_names(bs, 0);
        let ghost mut done: Seq<Seq<char>> = Seq::empty();
        let mut i: usize = 0;
        proof {
            assert(done + whole =~= whole);
        }
        while i < b.len()
            invariant
                i <= bs.len(),
                bs == b@,
                bs == listing.spec_bytes(),
                whole == nul_names(bs, 0),
                i == 0 || i == bs.len() || bs[i - 1] == 0,
                done + nul_names(bs, i as int) == whole,
                self.view() == all_lines(start, done, root@),
            decreases bs.len() - i,
        {
            let mut j = i;
            while j < b.len() && b[j] != 0
                invariant
                    i <= j <= bs.len(),
                    bs == b@,
                    nul_at(bs, i as int) == nul_at(bs, j as int),
                decreases bs.len() - j,
            {
                j += 1;
            }
            proof {
                lemma_nul_at(bs, i as int);
            }
            if j > i {
                proof {
                    vstd::utf8::encode_utf8_valid_utf8(listing@);
                    if i > 0 {
                        lemma_ascii_splits(listing@, i - 1);
                    }
                    if j < bs.len() {
                        lemma_ascii_splits(listing@, j as int);
                    }
                }
                let name = slice_str(listing, i, j);
                let path = joined(root, name);
                self.add(path, (1, 4294967295));
                proof {
                    let piece = seq![name@];
                    assert(nul_names(bs, i as int) == piece + nul_names(bs, j + 1));
                    assert(done + (piece + nul_names(bs, j + 1)) =~= (done + piece) + nul_names(bs, j + 1));
                    lemma_all_lines_concat(start, done, piece, root@);
                    assert(all_lines(all_lines(start, done, root@), piece, root@) == add_range(
                        all_lines(start, done, root@),
                        path_joined(root@, name@),
                        (1, u32::MAX),
                    )) by {
                        assert(piece.drop_last() =~= Seq::<Seq<char>>::empty());
                        assert(piece.last() == name@);
                        assert(all_lines(all_lines(start, done, root@), piece.drop_last(), root@) == all_lines(
                            start,
                            done,
                            root@,
                        ));
                    }
                    done = done + piece;
                }
            } else {
                proof {
                    assert(nul_names(bs, i as int) == nul_names(bs, j + 1));
                }
            }
            if j < b.len() {
                i = j + 1;
            } else {
                proof {
                    assert(nul_names(bs, j + 1) =~= Seq::<Seq<char>>::empty());
                    assert(nul_names(bs, j as int) =~= Seq::<Seq<char>>::empty());
                }
                i = j;
            }
        }
        proof {
            assert(nul_names(bs, i as int) =~= Seq::<Seq<char>>::empty());
            assert(done + Seq::<Seq<char>>::empty() =~= done);
        }
    }
}

/// Whether a reading names lines, first to last, after `path`.
pub open spec fn names_lines(r: Result<Option<(Seq<char>, (u32, u32))>, Seq<char>>, path: Seq<char>) -> bool {
    match r {
        Ok(Some((p, (s, e)))) => p == path && s <= e,
        _ => false,
    }
}

/// How a `path:lines` argument reads: with no colon, or a colon followed by
/// something other than a digit, it is a path; a colon followed by nothing
/// is refused; a colon followed by a digit names lines, or is refused when
/// they are not lines.
pub proof fn law_a_line_suffix_is_read_or_refused(arg: Seq<char>)
    ensures
        ({
            let b = vstd::utf8::encode_utf8(arg);
            match last_colon(b, b.len() as int) {
                None => spec_split_lines(arg) == Ok::<Option<(Seq<char>, (u32, u32))>, Seq<char>>(None),
                Some(c) => {
                    &&& c + 1 == b.len() ==> spec_split_lines(arg) is Err
                    &&& c + 1 < b.len() && !crate::text::spec_digit(b[c + 1]) ==> spec_split_lines(arg)
                        == Ok::<Option<(Seq<char>, (u32, u32))>, Seq<char>>(None)
                    &&& c + 1 < b.len() && crate::text::spec_digit(b[c + 1]) ==> (spec_split_lines(arg) is Err
                        || names_lines(spec_split_lines(arg), vstd::utf8::decode_utf8(b.subrange(0, c))))
                },
            }
        }),
{
    let b = vstd::utf8::encode_utf8(arg);
    lemma_last_colon_range(b, b.len() as int);
}

proof fn lemma_last_colon_range(b: Seq<u8>, k: int)
    ensures
        last_colon(b, k) matches Some(c) ==> 0 <= c < k && c < b.len(),
    decreases k,
{
    if 0 < k <= b.len() && b[k - 1] != 58 {
        lemma_last_colon_range(b, k - 1);
    }
}

} // verus!
