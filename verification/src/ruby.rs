//! What Ruby version a codebase targets, and what a rule's output needs.
//!
//! Some rewrites emit syntax that older Rubies cannot parse: `{foo:}` is a
//! syntax error before 3.1. The version is a property of the codebase, so it
//! is read from the repository's declarations, and a rule only declares its
//! floor. Finding and reading those files happens outside the library; what
//! is decided here is what their text says.

use crate::text::{decimal, slice_str, spec_decimal, spec_digit, spec_trim, starts_char, trim};
use vstd::prelude::*;
use vstd::string::StringSliceAdditionalSpecFns;

verus! {

/// A Ruby version, to the precision that decides syntax. Patch releases never
/// add syntax, so major and minor are all there is.
#[derive(Debug, Clone, Copy, PartialEq, Eq, Structural, PartialOrd, Ord)]
pub struct Version {
    pub major: u32,
    pub minor: u32,
}

/// `a` is no later than `b`: major first, then minor.
pub open spec fn version_le(a: Version, b: Version) -> bool {
    a.major < b.major || (a.major == b.major && a.minor <= b.minor)
}

/// The earlier of two versions.
pub open spec fn version_min(a: Version, b: Version) -> Version {
    if version_le(a, b) {
        a
    } else {
        b
    }
}

/// The value of a run of decimal digit bytes.
pub open spec fn digits_value(s: Seq<u8>) -> nat
    decreases s.len(),
{
    if s.len() == 0 {
        0
    } else {
        digits_value(s.drop_last()) * 10 + (s.last() - 48) as nat
    }
}

/// The first digit at or after `k`.
pub open spec fn first_digit(b: Seq<u8>, k: int) -> Option<int>
    decreases b.len() - k,
{
    if k < 0 || k >= b.len() {
        None
    } else if spec_digit(b[k]) {
        Some(k)
    } else {
        first_digit(b, k + 1)
    }
}

/// Where a run of digits and dots that starts at `k` ends.
pub open spec fn run_end(b: Seq<u8>, k: int) -> int
    decreases b.len() - k,
{
    if k < 0 || k >= b.len() {
        b.len() as int
    } else if spec_digit(b[k]) || b[k] == 46 {
        run_end(b, k + 1)
    } else {
        k
    }
}

/// The first `.` in `[k, e)`, or `e`.
pub open spec fn dot_before(b: Seq<u8>, k: int, e: int) -> int
    decreases e - k,
{
    if k >= e {
        e
    } else if b[k] == 46 {
        k
    } else {
        dot_before(b, k + 1, e)
    }
}

/// A component of a version: its digits' value, if it is one `u32` can hold.
pub open spec fn component(s: Seq<u8>) -> Option<u32> {
    if s.len() == 0 || digits_value(s) > u32::MAX {
        None
    } else {
        Some(digits_value(s) as u32)
    }
}

/// The first `X.Y` in `b`: the first run of digits and dots, split at its
/// dots. No major that fits a `u32` means no version; a minor that is absent,
/// empty or too large reads as 0; anything after the second dot is ignored.
pub open spec fn spec_first_in(b: Seq<u8>) -> Option<Version> {
    match first_digit(b, 0) {
        None => None,
        Some(d) => {
            let e = run_end(b, d);
            let m = dot_before(b, d, e);
            let minor = if m == e {
                0u32
            } else {
                match component(b.subrange(m + 1, dot_before(b, m + 1, e))) {
                    Some(v) => v,
                    None => 0u32,
                }
            };
            match component(b.subrange(d, m)) {
                None => None,
                Some(major) => Some(Version { major, minor }),
            }
        },
    }
}

proof fn lemma_first_digit(b: Seq<u8>, k: int)
    requires
        0 <= k <= b.len(),
    ensures
        first_digit(b, k) matches Some(d) ==> k <= d < b.len() && spec_digit(b[d]),
    decreases b.len() - k,
{
    if k < b.len() && !spec_digit(b[k]) {
        lemma_first_digit(b, k + 1);
    }
}

proof fn lemma_run_end(b: Seq<u8>, k: int)
    requires
        0 <= k <= b.len(),
    ensures
        k <= run_end(b, k) <= b.len(),
        forall|j: int| k <= j < run_end(b, k) ==> spec_digit(#[trigger] b[j]) || b[j] == 46,
    decreases b.len() - k,
{
    if k < b.len() && (spec_digit(b[k]) || b[k] == 46) {
        lemma_run_end(b, k + 1);
    }
}

proof fn lemma_dot_before(b: Seq<u8>, k: int, e: int)
    requires
        0 <= k <= e <= b.len(),
    ensures
        k <= dot_before(b, k, e) <= e,
        dot_before(b, k, e) < e ==> b[dot_before(b, k, e)] == 46,
        forall|j: int| k <= j < dot_before(b, k, e) ==> #[trigger] b[j] != 46,
    decreases e - k,
{
    if k < e && b[k] != 46 {
        lemma_dot_before(b, k + 1, e);
    }
}

/// The value of the digits `b[from..to]`, if they are all digits, at least
/// one, and their value fits a `u32`.
fn parse_component(b: &[u8], from: usize, to: usize) -> (r: Option<u32>)
    requires
        from <= to <= b@.len(),
        forall|j: int| from <= j < to ==> spec_digit(#[trigger] b@[j]),
    ensures
        r == component(b@.subrange(from as int, to as int)),
{
    if from == to {
        return None;
    }
    let mut value: u64 = 0;
    let mut over = false;
    let mut k = from;
    while k < to
        invariant
            from <= k <= to <= b@.len(),
            forall|j: int| from <= j < to ==> spec_digit(#[trigger] b@[j]),
            over == (digits_value(b@.subrange(from as int, k as int)) > u32::MAX),
            !over ==> value == digits_value(b@.subrange(from as int, k as int)),
        decreases to - k,
    {
        proof {
            assert(b@.subrange(from as int, k + 1).drop_last() =~= b@.subrange(from as int, k as int));
            assert(spec_digit(b@[k as int]));
        }
        if !over {
            value = value * 10 + (b[k] - 48) as u64;
            if value > 4294967295 {
                over = true;
            }
        }
        k += 1;
    }
    if over {
        None
    } else {
        Some(value as u32)
    }
}

impl Version {
    /// The first `X.Y` in `text`, ignoring any trailing patch level.
    pub fn first_in(text: &str) -> (r: Option<Version>)
        ensures
            r == spec_first_in(text.spec_bytes()),
    {
        let b = text.as_bytes();
        let ghost bs = b@;
        let n = b.len();
        let mut d: usize = 0;
        while d < n && !(b[d] >= 48 && b[d] <= 57)
            invariant
                d <= n == bs.len(),
                bs == b@,
                first_digit(bs, 0) == first_digit(bs, d as int),
            decreases n - d,
        {
            d += 1;
        }
        if d == n {
            return None;
        }
        let mut e = d;
        while e < n && ((b[e] >= 48 && b[e] <= 57) || b[e] == 46)
            invariant
                d <= e <= n == bs.len(),
                bs == b@,
                run_end(bs, d as int) == run_end(bs, e as int),
                forall|j: int| d <= j < e ==> spec_digit(#[trigger] bs[j]) || bs[j] == 46,
            decreases n - e,
        {
            e += 1;
        }
        let m = dot_at_or(b, d, e);
        let minor = if m == e {
            0u32
        } else {
            let m2 = dot_at_or(b, m + 1, e);
            match parse_component(b, m + 1, m2) {
                Some(v) => v,
                None => 0u32,
            }
        };
        match parse_component(b, d, m) {
            None => None,
            Some(major) => Some(Version { major, minor }),
        }
    }

    /// A rule's declared floor, such as `3.1`.
    pub fn parse(text: &str) -> (r: Option<Version>)
        ensures
            r == spec_first_in(text.spec_bytes()),
    {
        Version::first_in(text)
    }

    /// `X.Y`, as the version is written.
    pub fn text(&self) -> (s: String)
        ensures
            s@ == spec_decimal(self.major as nat) + "."@ + spec_decimal(self.minor as nat),
    {
        let mut s = decimal(self.major as usize);
        s.append(".");
        let minor = decimal(self.minor as usize);
        s.append(minor.as_str());
        s
    }

    /// Whether this version is no later than `other`.
    pub fn no_later_than(&self, other: &Version) -> (r: bool)
        ensures
            r == version_le(*self, *other),
    {
        self.major < other.major || (self.major == other.major && self.minor <= other.minor)
    }
}

/// The first `.` in `b[k..e]`, or `e`; everything before it a digit when
/// everything in the run is a digit or a dot.
fn dot_at_or(b: &[u8], k: usize, e: usize) -> (r: usize)
    requires
        k <= e <= b@.len(),
        forall|j: int| k <= j < e ==> spec_digit(#[trigger] b@[j]) || b@[j] == 46,
    ensures
        r as int == dot_before(b@, k as int, e as int),
        k <= r <= e,
        forall|j: int| k <= j < r ==> spec_digit(#[trigger] b@[j]),
{
    let mut i = k;
    while i < e && b[i] != 46
        invariant
            k <= i <= e <= b@.len(),
            dot_before(b@, k as int, e as int) == dot_before(b@, i as int, e as int),
            forall|j: int| k <= j < i ==> #[trigger] b@[j] != 46,
        decreases e - i,
    {
        i += 1;
    }
    proof {
        assert forall|j: int| k <= j < i implies spec_digit(#[trigger] b@[j]) by {
            assert(b@[j] != 46);
        }
    }
    i
}

/// A byte `trim_matches` strips from a requirement: a quote of either kind,
/// or a space.
pub open spec fn quote_like(c: u8) -> bool {
    c == 34 || c == 39 || c == 32
}

/// The first byte at or after `k` that is not quote-like, or the end.
pub open spec fn lead(b: Seq<u8>, k: int) -> int
    decreases b.len() - k,
{
    if k < 0 || k >= b.len() {
        b.len() as int
    } else if quote_like(b[k]) {
        lead(b, k + 1)
    } else {
        k
    }
}

/// Just past the last byte before `k`, and not before `lo`, that is not
/// quote-like.
pub open spec fn trail(b: Seq<u8>, lo: int, k: int) -> int
    decreases k - lo,
{
    if k > lo && quote_like(b[k - 1]) {
        trail(b, lo, k - 1)
    } else {
        k
    }
}

/// `b` with quotes and spaces stripped from both ends.
pub open spec fn strip_quotes(b: Seq<u8>) -> Seq<u8> {
    b.subrange(lead(b, 0), trail(b, lead(b, 0), b.len() as int))
}

/// What one comma-separated clause of a requirement says of the floor: an
/// upper bound (`<`) or an exclusion (`!=`) says nothing, anything else is the
/// version it names.
pub open spec fn clause_floor(c: Seq<char>) -> Option<Version> {
    let b = strip_quotes(vstd::utf8::encode_utf8(spec_trim(c)));
    if (b.len() > 0 && b[0] == 60) || (b.len() >= 2 && b[0] == 33 && b[1] == 61) {
        None
    } else {
        spec_first_in(b)
    }
}

/// The floor so far, lowered by what one more clause says.
pub open spec fn lower_floor(acc: Option<Version>, v: Option<Version>) -> Option<Version> {
    match v {
        None => acc,
        Some(v) => match acc {
            None => Some(v),
            Some(f) => Some(version_min(f, v)),
        },
    }
}

pub open spec fn comma() -> Seq<u8> {
    seq![44u8]
}

/// The floor of the clauses in `b`, split at its commas, given the floor of
/// the clauses before them.
pub open spec fn floor_rest(b: Seq<u8>, acc: Option<Version>) -> Option<Version>
    decreases b.len(),
{
    match crate::text::first_occ(b, comma(), 0) {
        None => lower_floor(acc, clause_floor(vstd::utf8::decode_utf8(b))),
        Some(i) => if 0 <= i < b.len() {
            floor_rest(
                b.subrange(i + 1, b.len() as int),
                lower_floor(acc, clause_floor(vstd::utf8::decode_utf8(b.subrange(0, i)))),
            )
        } else {
            acc
        },
    }
}

/// The lowest version a gem-style requirement admits.
pub open spec fn spec_floor_of(s: Seq<char>) -> Option<Version> {
    floor_rest(vstd::utf8::encode_utf8(s), None)
}

fn lower(acc: Option<Version>, v: Option<Version>) -> (r: Option<Version>)
    ensures
        r == lower_floor(acc, v),
{
    match v {
        None => acc,
        Some(v) => match acc {
            None => Some(v),
            Some(f) => if f.no_later_than(&v) {
                Some(f)
            } else {
                Some(v)
            },
        },
    }
}

fn requirement_clause(clause: &str) -> (r: Option<Version>)
    ensures
        r == clause_floor(clause@),
{
    let t = trim(clause);
    let b = t.as_bytes();
    let ghost bs = b@;
    let n = b.len();
    let mut lo: usize = 0;
    while lo < n && (b[lo] == 34 || b[lo] == 39 || b[lo] == 32)
        invariant
            lo <= n == bs.len(),
            bs == b@,
            lead(bs, 0) == lead(bs, lo as int),
            forall|j: int| 0 <= j < lo ==> quote_like(#[trigger] bs[j]),
        decreases n - lo,
    {
        lo += 1;
    }
    let mut hi: usize = n;
    while hi > lo && (b[hi - 1] == 34 || b[hi - 1] == 39 || b[hi - 1] == 32)
        invariant
            lo <= hi <= n == bs.len(),
            bs == b@,
            lead(bs, 0) == lo,
            trail(bs, lo as int, n as int) == trail(bs, lo as int, hi as int),
            forall|j: int| hi <= j < n ==> quote_like(#[trigger] bs[j]),
        decreases hi - lo,
    {
        hi -= 1;
    }
    proof {
        if lo > 0 {
            assert(quote_like(bs[lo - 1]));
            crate::text::lemma_ascii_splits(t@, lo - 1);
        }
        if hi < n {
            assert(quote_like(bs[hi as int]));
            crate::text::lemma_ascii_splits(t@, hi as int);
        }
    }
    let s = slice_str(t, lo, hi);
    let sb = s.as_bytes();
    proof {
        assert(sb@ =~= strip_quotes(vstd::utf8::encode_utf8(spec_trim(clause@))));
    }
    if (sb.len() > 0 && sb[0] == 60) || (sb.len() >= 2 && sb[0] == 33 && sb[1] == 61) {
        return None;
    }
    Version::first_in(s)
}

/// The lowest version a gem-style requirement admits.
///
/// `'>= 3.3.0', '< 4.1.0'` is 3.3, not 4.1: an upper bound says nothing about
/// what the code may already use, so only lower bounds and `~>` count.
pub fn floor_of(constraint: &str) -> (r: Option<Version>)
    ensures
        r == spec_floor_of(constraint@),
{
    let sep: Vec<u8> = vec![44u8];
    proof {
        assert(sep@ =~= comma());
    }
    let mut rest: &str = constraint;
    let mut floor: Option<Version> = None;
    loop
        invariant
            sep@ == comma(),
            floor_rest(rest.spec_bytes(), floor) == spec_floor_of(constraint@),
        decreases rest.spec_bytes().len(),
    {
        let b = rest.as_bytes();
        let n = b.len();
        let found = crate::text::find(b, 0, sep.as_slice());
        proof {
            crate::erb::lemma_first_occ_some(b@, comma(), 0);
        }
        match found {
            None => {
                proof {
                    vstd::utf8::encode_utf8_decode_utf8(rest@);
                }
                let v = requirement_clause(rest);
                return lower(floor, v);
            },
            Some(i) => {
                proof {
                    assert(b@.subrange(i as int, i + 1)[0] == b@[i as int]);
                    crate::text::lemma_ascii_splits(rest@, i as int);
                }
                let clause = slice_str(rest, 0, i);
                let after = slice_str(rest, i + 1, n);
                let v = requirement_clause(clause);
                floor = lower(floor, v);
                rest = after;
            },
        }
    }
}

/// Where the leading whitespace of `s` ends, from `k`.
pub open spec fn space_end(s: Seq<char>, k: int) -> int
    decreases s.len() - k,
{
    if k < 0 || k >= s.len() {
        s.len() as int
    } else if crate::text::unicode_space(s[k]) {
        space_end(s, k + 1)
    } else {
        k
    }
}

/// `str::trim_start`.
pub open spec fn spec_trim_start(s: Seq<char>) -> Seq<char> {
    s.subrange(space_end(s, 0), s.len() as int)
}

pub open spec fn starts_chars(s: Seq<char>, p: Seq<char>) -> bool {
    s.len() >= p.len() && s.subrange(0, p.len() as int) == p
}

/// `str::trim_start_matches`: every leading copy of `p` removed.
pub open spec fn strip_all(s: Seq<char>, p: Seq<char>) -> Seq<char>
    decreases s.len(),
{
    if p.len() > 0 && starts_chars(s, p) {
        strip_all(s.subrange(p.len() as int, s.len() as int), p)
    } else {
        s
    }
}

/// The text of the line starting at byte `i`.
pub open spec fn line_text(b: Seq<u8>, i: int) -> Seq<char> {
    vstd::utf8::decode_utf8(b.subrange(i, crate::diff::text_end(b, i)))
}

/// Whether a byte offset starts no line: it is past the end.
pub open spec fn past_lines(b: Seq<u8>, i: int) -> bool {
    i < 0 || i >= b.len() || crate::diff::nl_at(b, i) < i || crate::diff::nl_at(b, i) > b.len()
}

/// The first line from byte `i` on whose text, without leading whitespace,
/// starts with `ruby `.
pub open spec fn ruby_line(b: Seq<u8>, i: int) -> Option<Seq<char>>
    decreases b.len() + 1 - i,
{
    if past_lines(b, i) {
        None
    } else if starts_chars(spec_trim_start(line_text(b, i)), "ruby "@) {
        Some(line_text(b, i))
    } else {
        ruby_line(b, crate::diff::nl_at(b, i) + 1)
    }
}

/// The first line from byte `i` on that mentions `required_ruby_version`.
pub open spec fn requirement_line(b: Seq<u8>, i: int) -> Option<Seq<char>>
    decreases b.len() + 1 - i,
{
    if past_lines(b, i) {
        None
    } else if crate::rule::has_piece(line_text(b, i), "required_ruby_version"@) {
        Some(line_text(b, i))
    } else {
        requirement_line(b, crate::diff::nl_at(b, i) + 1)
    }
}

/// The first `=` in `s`.
pub open spec fn first_eq(s: Seq<char>, k: int) -> Option<int>
    decreases s.len() - k,
{
    if k < 0 || k >= s.len() {
        None
    } else if s[k] == '=' {
        Some(k)
    } else {
        first_eq(s, k + 1)
    }
}

/// What a Gemfile's first `ruby` line declares.
pub open spec fn gemfile_floor(text: Seq<char>) -> Option<Version> {
    match ruby_line(vstd::utf8::encode_utf8(text), 0) {
        Some(l) => spec_floor_of(strip_all(spec_trim_start(l), "ruby "@)),
        None => None,
    }
}

/// What a gemspec's first `required_ruby_version` line declares, after its
/// first `=`.
pub open spec fn gemspec_floor(text: Seq<char>) -> Option<Version> {
    match requirement_line(vstd::utf8::encode_utf8(text), 0) {
        Some(l) => match first_eq(l, 0) {
            Some(q) => spec_floor_of(l.subrange(q + 1, l.len() as int)),
            None => None,
        },
        None => None,
    }
}

/// The Ruby version a directory declares, and where.
pub struct Detected {
    pub version: Version,
    /// `.ruby-version`, `Gemfile`, or the gemspec's file name.
    pub source: String,
}

/// The first gemspec from `k` on that declares a floor.
pub open spec fn gemspec_from(entries: Seq<(Seq<char>, Option<Seq<char>>)>, k: int) -> Option<(Version, Seq<char>)>
    decreases entries.len() - k,
{
    if k < 0 || k >= entries.len() {
        None
    } else if crate::source::path_extension(entries[k].0) == Some("gemspec"@) && entries[k].1 is Some
        && gemspec_floor(entries[k].1->0) is Some {
        Some(
            (
                gemspec_floor(entries[k].1->0)->0,
                match crate::source::path_file_name(entries[k].0) {
                    Some(n) => n,
                    None => "gemspec"@,
                },
            ),
        )
    } else {
        gemspec_from(entries, k + 1)
    }
}

/// The Ruby version one directory declares: `.ruby-version` first, then a
/// Gemfile `ruby` line, then the first gemspec with a `required_ruby_version`
/// floor, in the order the directory lists them.
pub open spec fn spec_in_dir(
    ruby_version: Option<Seq<char>>,
    gemfile: Option<Seq<char>>,
    entries: Seq<(Seq<char>, Option<Seq<char>>)>,
) -> Option<(Version, Seq<char>)> {
    match (match ruby_version {
        Some(t) => spec_first_in(vstd::utf8::encode_utf8(t)),
        None => None,
    }) {
        Some(v) => Some((v, ".ruby-version"@)),
        None => match (match gemfile {
            Some(t) => gemfile_floor(t),
            None => None,
        }) {
            Some(v) => Some((v, "Gemfile"@)),
            None => gemspec_from(entries, 0),
        },
    }
}

fn trim_start_of(s: &str) -> (r: &str)
    ensures
        r@ == spec_trim_start(s@),
{
    let n = s.unicode_len();
    let mut k: usize = 0;
    while k < n && is_unicode_space(s.get_char(k))
        invariant
            k <= n == s@.len(),
            space_end(s@, 0) == space_end(s@, k as int),
        decreases n - k,
    {
        k += 1;
    }
    s.substring_char(k, n)
}

fn is_unicode_space(c: char) -> (r: bool)
    ensures
        r == crate::text::unicode_space(c),
{
    let n = c as u32;
    (9 <= n && n <= 13) || n == 32 || n == 0x85 || n == 0xA0 || n == 0x1680 || (0x2000 <= n && n <= 0x200A)
        || n == 0x2028 || n == 0x2029 || n == 0x202F || n == 0x205F || n == 0x3000
}

fn begins(s: &str, p: &str) -> (r: bool)
    ensures
        r == starts_chars(s@, p@),
{
    let n = s.unicode_len();
    let m = p.unicode_len();
    if m > n {
        return false;
    }
    let mut k: usize = 0;
    while k < m
        invariant
            k <= m <= n,
            n == s@.len(),
            m == p@.len(),
            forall|j: int| 0 <= j < k ==> s@[j] == p@[j],
        decreases m - k,
    {
        if s.get_char(k) != p.get_char(k) {
            assert(s@.subrange(0, m as int)[k as int] != p@[k as int]);
            return false;
        }
        k += 1;
    }
    assert(s@.subrange(0, m as int) =~= p@);
    true
}

fn strip_all_of<'a>(s: &'a str, p: &str) -> (r: &'a str)
    requires
        p@.len() > 0,
    ensures
        r@ == strip_all(s@, p@),
{
    let mut rest = s;
    let m = p.unicode_len();
    while begins(rest, p)
        invariant
            strip_all(s@, p@) == strip_all(rest@, p@),
            m == p@.len(),
            m > 0,
        decreases rest@.len(),
    {
        let n = rest.unicode_len();
        rest = rest.substring_char(m, n);
    }
    rest
}

/// Where the line starting at byte `i` ends: the end of its text, and its
/// newline or the end of the bytes.
fn line_end_at(b: &[u8], i: usize) -> (r: (usize, usize))
    requires
        i < b@.len(),
    ensures
        r.0 == crate::diff::text_end(b@, i as int),
        r.1 == crate::diff::nl_at(b@, i as int),
        i <= r.0 <= r.1 <= b@.len(),
        r.1 < b@.len() ==> b@[r.1 as int] == 10,
        r.0 == b@.len() || b@[r.0 as int] == 10 || b@[r.0 as int] == 13,
{
    let mut j = i;
    while j < b.len() && b[j] != 10
        invariant
            i <= j <= b@.len(),
            crate::diff::nl_at(b@, i as int) == crate::diff::nl_at(b@, j as int),
        decreases b@.len() - j,
    {
        j += 1;
    }
    let e = if j < b.len() && j > i && b[j - 1] == 13 {
        j - 1
    } else {
        j
    };
    (e, j)
}

/// The first line of `text` that declares `ruby ...`, or, when `ruby` is
/// false, the first that mentions `required_ruby_version`.
fn find_line(text: &str, ruby: bool) -> (r: Option<&str>)
    ensures
        opt_str(r) == if ruby {
            ruby_line(text.spec_bytes(), 0)
        } else {
            requirement_line(text.spec_bytes(), 0)
        },
{
    let b = text.as_bytes();
    let ghost bs = b@;
    let mut i: usize = 0;
    while i < b.len()
        invariant
            i <= bs.len(),
            bs == b@,
            bs == text.spec_bytes(),
            i == 0 || bs[i - 1] == 10,
            (if ruby {
                ruby_line(bs, 0)
            } else {
                requirement_line(bs, 0)
            }) == (if ruby {
                ruby_line(bs, i as int)
            } else {
                requirement_line(bs, i as int)
            }),
        decreases bs.len() - i,
    {
        let (e, j) = line_end_at(b, i);
        proof {
            vstd::utf8::encode_utf8_valid_utf8(text@);
            if i > 0 {
                crate::text::lemma_ascii_splits(text@, i - 1);
            }
            if e < bs.len() {
                crate::text::lemma_ascii_splits(text@, e as int);
            }
        }
        let line = slice_str(text, i, e);
        let hit = if ruby {
            begins(trim_start_of(line), "ruby ")
        } else {
            crate::rule::contains_piece(line, "required_ruby_version")
        };
        assert(line@ == line_text(bs, i as int));
        if hit {
            return Some(line);
        }
        if j >= b.len() {
            assert(past_lines(bs, j + 1));
            assert(ruby_line(bs, j + 1) is None);
            assert(requirement_line(bs, j + 1) is None);
            return None;
        }
        i = j + 1;
    }
    None
}

pub open spec fn opt_str(r: Option<&str>) -> Option<Seq<char>> {
    match r {
        Some(s) => Some(s@),
        None => None,
    }
}

fn first_eq_of(s: &str) -> (r: Option<usize>)
    ensures
        match r {
            Some(q) => first_eq(s@, 0) == Some(q as int) && q < s@.len(),
            None => first_eq(s@, 0) is None,
        },
{
    let n = s.unicode_len();
    let mut k: usize = 0;
    while k < n
        invariant
            k <= n == s@.len(),
            first_eq(s@, 0) == first_eq(s@, k as int),
        decreases n - k,
    {
        if s.get_char(k) == '=' {
            return Some(k);
        }
        k += 1;
    }
    None
}

/// What a Gemfile's first `ruby` line declares.
pub fn gemfile_floor_of(text: &str) -> (r: Option<Version>)
    ensures
        r == gemfile_floor(text@),
{
    match find_line(text, true) {
        Some(line) => {
            let words = trim_start_of(line);
            proof {
                reveal_strlit("ruby ");
            }
            floor_of(strip_all_of(words, "ruby "))
        },
        None => None,
    }
}

/// What a gemspec's first `required_ruby_version` line declares.
pub fn gemspec_floor_of(text: &str) -> (r: Option<Version>)
    ensures
        r == gemspec_floor(text@),
{
    match find_line(text, false) {
        Some(line) => match first_eq_of(line) {
            Some(q) => {
                let n = line.unicode_len();
                floor_of(line.substring_char(q + 1, n))
            },
            None => None,
        },
        None => None,
    }
}

/// The Ruby version one directory declares, from what its files hold:
/// `.ruby-version` first, then a Gemfile `ruby` line, then the first gemspec
/// with a `required_ruby_version` floor among `entries` -- each a path in the
/// directory and its text, when it could be read -- in the order given.
pub fn in_dir(ruby_version: Option<&str>, gemfile: Option<&str>, entries: &Vec<(String, Option<String>)>) -> (r:
    Option<Detected>)
    ensures
        match spec_in_dir(
            opt_str(ruby_version),
            opt_str(gemfile),
            entries@.map_values(|e: (String, Option<String>)| (e.0@, crate::text::opt_view(e.1))),
        ) {
            Some((v, source)) => r matches Some(d) && d.version == v && d.source@ == source,
            None => r is None,
        },
{
    let ghost ev = entries@.map_values(|e: (String, Option<String>)| (e.0@, crate::text::opt_view(e.1)));
    match ruby_version {
        Some(t) => match Version::first_in(t) {
            Some(version) => {
                let source = crate::text::owned(".ruby-version");
                return Some(Detected { version, source });
            },
            None => {},
        },
        None => {},
    }
    match gemfile {
        Some(t) => match gemfile_floor_of(t) {
            Some(version) => {
                return Some(Detected { version, source: crate::text::owned("Gemfile") });
            },
            None => {},
        },
        None => {},
    }
    let mut k: usize = 0;
    while k < entries.len()
        invariant
            k <= entries@.len(),
            ev == entries@.map_values(|e: (String, Option<String>)| (e.0@, crate::text::opt_view(e.1))),
            spec_in_dir(opt_str(ruby_version), opt_str(gemfile), ev) == gemspec_from(ev, k as int),
        decreases entries@.len() - k,
    {
        let path = entries[k].0.as_str();
        let is_gemspec = match crate::source::extension(path) {
            Some(x) => crate::text::str_eq(x.as_str(), "gemspec"),
            None => false,
        };
        if is_gemspec {
            match &entries[k].1 {
                Some(text) => match gemspec_floor_of(text.as_str()) {
                    Some(version) => {
                        let source = match crate::source::file_name(path) {
                            Some(n) => n,
                            None => crate::text::owned("gemspec"),
                        };
                        return Some(Detected { version, source });
                    },
                    None => {},
                },
                None => {},
            }
        }
        k += 1;
    }
    None
}

} // verus!
