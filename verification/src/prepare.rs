//! Substituting metavariables so a pattern parses as ordinary Ruby.
//!
//! `$M` lexes only where a global variable is legal: `foo($A)` parses, but
//! `x.$M`, `def $M`, `:$M` and `Foo::$C` do not. So each metavariable is
//! replaced with a placeholder identifier before the parser sees the pattern.
//!
//! Which case a placeholder needs is not knowable before parsing: a constant
//! position demands `RwrMv0`, a block parameter demands `rwr_mv_0`. So on a
//! parse error the placeholder nearest the error has its case flipped, and the
//! parse is tried again.

use crate::metavar::{
    lemma_scan_ascii, lemma_scan_well_placed, name_chars, scan, spec_scan, string_opt_view,
    well_placed, Arity, Metavar, SpecMetavar,
};
use crate::text::{append_str, cat, decimal, owned, slice_str, spec_decimal, str_eq};
use vstd::prelude::*;
use vstd::string::{StrSliceExecFns, StringSliceAdditionalSpecFns};

verus! {

/// The case of a placeholder identifier.
#[derive(Debug, Clone, Copy, PartialEq, Eq, Structural)]
pub enum Case {
    Lower,
    Upper,
}

/// The placeholder standing for the metavariable at `index`.
pub open spec fn placeholder_chars(c: Case, index: nat) -> Seq<char> {
    match c {
        Case::Lower => "rwr_mv_"@ + spec_decimal(index),
        Case::Upper => "RwrMv"@ + spec_decimal(index),
    }
}

pub open spec fn flip(c: Case) -> Case {
    match c {
        Case::Lower => Case::Upper,
        Case::Upper => Case::Lower,
    }
}

impl Case {
    /// The placeholder identifier for the metavariable at `index`.
    pub fn placeholder(self, index: usize) -> (s: String)
        ensures
            s@ == placeholder_chars(self, index as nat),
    {
        let digits = decimal(index);
        match self {
            Case::Lower => cat("rwr_mv_", digits.as_str()),
            Case::Upper => cat("RwrMv", digits.as_str()),
        }
    }

    /// The other case.
    pub fn flipped(self) -> (c: Case)
        ensures
            c == flip(self),
    {
        match self {
            Case::Lower => Case::Upper,
            Case::Upper => Case::Lower,
        }
    }
}

/// What a placeholder identifier stands for.
#[derive(Debug, Clone, PartialEq, Eq)]
pub struct Binding {
    /// `None` for the anonymous forms `_` and `*_`.
    pub name: Option<String>,
    pub arity: Arity,
}

/// A pattern rewritten into parseable Ruby, with the mapping back.
#[derive(Debug, Clone)]
pub struct Prepared {
    /// Ruby source in which every metavariable is a placeholder identifier.
    pub source: String,
    /// Each placeholder identifier and what it stands for, in pattern order.
    pub bindings: Vec<(String, Binding)>,
}

#[derive(Debug, Clone, PartialEq, Eq)]
pub enum PrepareError {
    /// The pattern does not parse as Ruby under any placeholder casing.
    Unparseable { message: String },
}

impl PrepareError {
    /// The error as a sentence.
    pub fn text(&self) -> (s: String)
        ensures
            s@ == match self {
                PrepareError::Unparseable { message } => "pattern is not valid Ruby: "@ + message@,
            },
    {
        match self {
            PrepareError::Unparseable { message } => cat("pattern is not valid Ruby: ", message.as_str()),
        }
    }
}

/// Where the pattern text resumes after the first `k` metavariables.
pub open spec fn last_end(vars: Seq<SpecMetavar>, k: int) -> int {
    if k <= 0 {
        0
    } else {
        vars[k - 1].end
    }
}

/// The splat a sequence metavariable's span swallowed, re-emitted.
pub open spec fn splat(a: Arity) -> Seq<u8> {
    match a {
        Arity::Many => seq![42u8],
        Arity::One => Seq::empty(),
    }
}

/// The substituted source up to and including the `k`th placeholder, and
/// each placeholder's byte span within it.
pub open spec fn render_upto(p: Seq<u8>, vars: Seq<SpecMetavar>, cases: Seq<Case>, k: int) -> (
    Seq<u8>,
    Seq<(int, int)>,
)
    decreases k,
{
    if k <= 0 {
        (Seq::empty(), Seq::empty())
    } else {
        let prev = render_upto(p, vars, cases, k - 1);
        let v = vars[k - 1];
        let s1 = prev.0 + p.subrange(last_end(vars, k - 1), v.start) + splat(v.arity);
        let ph = vstd::utf8::encode_utf8(placeholder_chars(cases[k - 1], (k - 1) as nat));
        (s1 + ph, prev.1.push((s1.len() as int, (s1.len() + ph.len()) as int)))
    }
}

/// The pattern with every metavariable replaced by its placeholder in the
/// given case, and each placeholder's byte span.
pub open spec fn spec_render(p: Seq<u8>, vars: Seq<SpecMetavar>, cases: Seq<Case>) -> (
    Seq<u8>,
    Seq<(int, int)>,
) {
    let r = render_upto(p, vars, cases, vars.len() as int);
    (r.0 + p.subrange(last_end(vars, vars.len() as int), p.len() as int), r.1)
}

pub open spec fn spans_view(spans: Seq<(usize, usize)>) -> Seq<(int, int)> {
    spans.map_values(|s: (usize, usize)| (s.0 as int, s.1 as int))
}

pub open spec fn pow10(k: nat) -> nat
    decreases k,
{
    if k == 0 {
        1
    } else {
        10 * pow10((k - 1) as nat)
    }
}

proof fn lemma_decimal_len(n: nat, k: nat)
    requires
        k >= 1,
        n < pow10(k),
    ensures
        spec_decimal(n).len() <= k,
    decreases k,
{
    if n >= 10 {
        assert(k >= 2) by {
            if k == 1 {
                assert(pow10(1) == 10 * pow10(0));
            }
        }
        let m = pow10((k - 1) as nat);
        assert(pow10(k) == 10 * m);
        assert(n / 10 < m) by (nonlinear_arith)
            requires
                n < 10 * m,
        ;
        lemma_decimal_len(n / 10, (k - 1) as nat);
    }
}

proof fn lemma_pow10_20()
    ensures
        pow10(20) == 100000000000000000000nat,
{
    reveal_with_fuel(pow10, 21);
}

proof fn lemma_decimal_ascii(n: nat)
    ensures
        vstd::utf8::is_ascii_chars(spec_decimal(n)),
    decreases n,
{
    if n >= 10 {
        lemma_decimal_ascii(n / 10);
        assert forall|i: int| 0 <= i < spec_decimal(n).len() implies '\0' <= #[trigger] spec_decimal(
            n,
        )[i] <= '\u{7f}' by {
            if i < spec_decimal(n / 10).len() {
                assert(spec_decimal(n)[i] == spec_decimal(n / 10)[i]);
            }
        }
    }
}

/// A placeholder is ASCII, so its bytes are its characters, and it is short.
proof fn lemma_placeholder_len(c: Case, i: nat)
    requires
        i < pow10(20),
    ensures
        vstd::utf8::encode_utf8(placeholder_chars(c, i)).len() == placeholder_chars(c, i).len(),
        placeholder_chars(c, i).len() <= 27,
{
    reveal_strlit("rwr_mv_");
    reveal_strlit("RwrMv");
    lemma_decimal_len(i, 20);
    lemma_decimal_ascii(i);
    let pre = match c {
        Case::Lower => "rwr_mv_"@,
        Case::Upper => "RwrMv"@,
    };
    assert(vstd::utf8::is_ascii_chars(pre));
    vstd::utf8::is_ascii_chars_concat(placeholder_chars(c, i), pre, spec_decimal(i));
    vstd::utf8::is_ascii_chars_encode_utf8(placeholder_chars(c, i));
}

/// Every metavariable takes at least one byte, so there are no more of them
/// than bytes before the last one's end.
proof fn lemma_count_bound(vars: Seq<SpecMetavar>, n: int, k: int)
    requires
        well_placed(vars, 0, n),
        0 <= n,
        0 <= k <= vars.len(),
    ensures
        k <= last_end(vars, k) <= n,
    decreases k,
{
    if k > 0 {
        lemma_count_bound(vars, n, k - 1);
        let v = vars[k - 1];
        assert(0 <= v.start);
        assert(v.start < v.end);
        assert(v.end <= n);
        assert(last_end(vars, k) == v.end);
        if k >= 2 {
            assert(last_end(vars, k - 1) == vars[k - 2].end);
            assert(vars[k - 2].end <= vars[k - 1].start);
        }
    }
}

/// The rendering so far is no longer than the text consumed plus 28 bytes a
/// placeholder.
proof fn lemma_render_len(p: Seq<u8>, vars: Seq<SpecMetavar>, cases: Seq<Case>, k: int)
    requires
        well_placed(vars, 0, p.len() as int),
        0 <= k <= vars.len(),
        vars.len() < pow10(20),
    ensures
        render_upto(p, vars, cases, k).0.len() <= last_end(vars, k) + 28 * k,
        render_upto(p, vars, cases, k).1.len() == k,
    decreases k,
{
    if k > 0 {
        lemma_render_len(p, vars, cases, k - 1);
        lemma_placeholder_len(cases[k - 1], (k - 1) as nat);
        if k >= 2 {
            assert(vars[k - 2].end <= vars[k - 1].start);
        }
    }
}

/// The substituted source is at most 29 bytes for each byte of pattern.
proof fn lemma_render_total(p: Seq<u8>, vars: Seq<SpecMetavar>, cases: Seq<Case>)
    requires
        well_placed(vars, 0, p.len() as int),
        p.len() < pow10(20),
    ensures
        spec_render(p, vars, cases).0.len() <= 29 * p.len(),
        forall|k: int| 0 <= k <= vars.len() ==> render_upto(p, vars, cases, k).0.len() <= 29 * p.len(),
{
    lemma_count_bound(vars, p.len() as int, vars.len() as int);
    assert forall|k: int| 0 <= k <= vars.len() implies render_upto(p, vars, cases, k).0.len() <= 29
        * p.len() by {
        lemma_count_bound(vars, p.len() as int, k);
        lemma_render_len(p, vars, cases, k);
    }
    lemma_render_len(p, vars, cases, vars.len() as int);
}

/// Build the substituted source, returning each placeholder's byte span
/// within it. `vars` are the pattern's metavariables as the scanner reports
/// them; a sequence metavariable gets its `*` back around the placeholder.
pub fn render(pattern: &str, vars: &Vec<Metavar>, cases: &Vec<Case>) -> (r: (String, Vec<(usize, usize)>))
    requires
        vars@.len() == cases@.len() == spec_scan(pattern.spec_bytes()).len(),
        forall|k: int| 0 <= k < vars@.len() ==> #[trigger] vars@[k].is(spec_scan(pattern.spec_bytes())[k]),
        29 * pattern.spec_bytes().len() < usize::MAX,
    ensures
        vstd::utf8::encode_utf8(r.0@) == spec_render(pattern.spec_bytes(), spec_scan(pattern.spec_bytes()), cases@).0,
        spans_view(r.1@) == spec_render(pattern.spec_bytes(), spec_scan(pattern.spec_bytes()), cases@).1,
{
    let ghost pb = pattern.spec_bytes();
    let ghost ms = spec_scan(pb);
    proof {
        lemma_scan_ascii(pb, 0);
        lemma_scan_well_placed(pb, 0);
        assert(pow10(20) == 100000000000000000000nat) by {
            lemma_pow10_20();
        }
        lemma_render_total(pb, ms, cases@);
        lemma_count_bound(ms, pb.len() as int, ms.len() as int);
    }
    let n = pattern.len();
    let mut source = String::new();
    let mut len: usize = 0;
    let mut spans: Vec<(usize, usize)> = Vec::new();
    let mut cursor: usize = 0;
    let mut i: usize = 0;
    proof {
        assert(vstd::utf8::encode_utf8(source@) =~= Seq::<u8>::empty());
        assert(spans_view(spans@) =~= Seq::<(int, int)>::empty());
    }
    while i < vars.len()
        invariant
            i <= vars@.len() == cases@.len() == ms.len(),
            n == pb.len(),
            pb == pattern.spec_bytes(),
            ms == spec_scan(pb),
            29 * pb.len() < usize::MAX,
            forall|k: int| 0 <= k < vars@.len() ==> #[trigger] vars@[k].is(ms[k]),
            well_placed(ms, 0, pb.len() as int),
            ms.len() <= pb.len(),
            pow10(20) == 100000000000000000000nat,
            forall|k: int| 0 <= k < ms.len() ==> pb[(#[trigger] ms[k]).start] < 128 && pb[ms[k].end - 1] < 128,
            forall|k: int| 0 <= k <= ms.len() ==> render_upto(pb, ms, cases@, k).0.len() <= 29 * pb.len(),
            vstd::utf8::encode_utf8(source@) == render_upto(pb, ms, cases@, i as int).0,
            spans_view(spans@) == render_upto(pb, ms, cases@, i as int).1,
            len == render_upto(pb, ms, cases@, i as int).0.len(),
            cursor == last_end(ms, i as int),
            cursor <= n,
        decreases vars@.len() - i,
    {
        let ghost before = vstd::utf8::encode_utf8(source@);
        let ghost before_spans = spans_view(spans@);
        let start = vars[i].start;
        proof {
            assert(vars@[i as int].is(ms[i as int]));
            if i > 0 {
                assert(ms[i - 1].end <= ms[i as int].start);
                crate::text::lemma_ascii_splits(pattern@, ms[i - 1].end - 1);
            }
            crate::text::lemma_ascii_splits(pattern@, start as int);
            assert(render_upto(pb, ms, cases@, i + 1).0.len() <= 29 * pb.len());
            let ph_bytes = vstd::utf8::encode_utf8(placeholder_chars(cases@[i as int], i as nat));
            assert(render_upto(pb, ms, cases@, i + 1).0.len() == len + (start - cursor) + splat(
                ms[i as int].arity,
            ).len() + ph_bytes.len());
        }
        let piece = slice_str(pattern, cursor, start);
        append_str(&mut source, piece);
        len = len + (start - cursor);
        if vars[i].arity == Arity::Many {
            proof {
                reveal_strlit("*");
                assert("*"@ =~= seq!['*']);
                vstd::utf8::is_ascii_chars_encode_utf8("*"@);
                assert("*".spec_bytes() =~= seq![42u8]);
            }
            append_str(&mut source, "*");
            len = len + 1;
        }
        let at = len;
        let ph = cases[i].placeholder(i);
        proof {
            lemma_placeholder_len(cases@[i as int], i as nat);
        }
        append_str(&mut source, ph.as_str());
        let w = ph.as_str().len();
        proof {
            assert(render_upto(pb, ms, cases@, i + 1).0.len() <= 29 * pb.len());
            assert(vstd::utf8::encode_utf8(source@) =~= render_upto(pb, ms, cases@, i + 1).0);
        }
        len = len + w;
        spans.push((at, len));
        proof {
            assert(spans_view(spans@) =~= before_spans.push((at as int, len as int)));
        }
        cursor = vars[i].end;
        i += 1;
    }
    proof {
        if i > 0 {
            crate::text::lemma_ascii_splits(pattern@, ms[i - 1].end - 1);
        }
    }
    let tail = slice_str(pattern, cursor, n);
    append_str(&mut source, tail);
    (source, spans)
}

/// How far an offset lies from a span: 0 inside it.
pub open spec fn span_dist(span: (int, int), at: int) -> int {
    if at < span.0 {
        span.0 - at
    } else if at >= span.1 {
        at - span.1
    } else {
        0
    }
}

/// The first span at or after `k` that contains `at`.
pub open spec fn first_containing(spans: Seq<(int, int)>, at: int, k: int) -> Option<int>
    decreases spans.len() - k,
{
    if k < 0 || k >= spans.len() {
        None
    } else if spans[k].0 <= at < spans[k].1 {
        Some(k)
    } else {
        first_containing(spans, at, k + 1)
    }
}

/// The first of the spans before `k` that lies closest to `at`.
pub open spec fn closest(spans: Seq<(int, int)>, at: int, k: int) -> int
    decreases k,
{
    if k <= 1 {
        0
    } else {
        let m = closest(spans, at, k - 1);
        if span_dist(spans[k - 1], at) < span_dist(spans[m], at) {
            k - 1
        } else {
            m
        }
    }
}

/// The placeholder containing `at`, else the first one closest to it.
pub open spec fn spec_nearest(spans: Seq<(int, int)>, at: int) -> Option<int> {
    if spans.len() == 0 {
        None
    } else {
        match first_containing(spans, at, 0) {
            Some(i) => Some(i),
            None => Some(closest(spans, at, spans.len() as int)),
        }
    }
}

proof fn lemma_closest(spans: Seq<(int, int)>, at: int, k: int)
    requires
        1 <= k <= spans.len(),
    ensures
        0 <= closest(spans, at, k) < k,
    decreases k,
{
    if k > 1 {
        lemma_closest(spans, at, k - 1);
    }
}

/// The placeholder containing `at`, else the one closest to it.
pub fn nearest(spans: &Vec<(usize, usize)>, at: usize) -> (r: Option<usize>)
    ensures
        match r {
            Some(i) => spec_nearest(spans_view(spans@), at as int) == Some(i as int),
            None => spec_nearest(spans_view(spans@), at as int) is None,
        },
{
    let ghost sv = spans_view(spans@);
    if spans.len() == 0 {
        return None;
    }
    let mut k: usize = 0;
    while k < spans.len()
        invariant
            k <= spans@.len(),
            sv == spans_view(spans@),
            first_containing(sv, at as int, 0) == first_containing(sv, at as int, k as int),
        decreases spans@.len() - k,
    {
        let (s, e) = spans[k];
        if at >= s && at < e {
            return Some(k);
        }
        k += 1;
    }
    let mut best: usize = 0;
    let (s0, e0) = spans[0];
    let mut best_dist: usize = if at < s0 {
        s0 - at
    } else if at >= e0 {
        at - e0
    } else {
        0
    };
    let mut j: usize = 1;
    while j < spans.len()
        invariant
            1 <= j <= spans@.len(),
            sv == spans_view(spans@),
            best as int == closest(sv, at as int, j as int),
            best < j,
            best_dist as int == span_dist(sv[best as int], at as int),
        decreases spans@.len() - j,
    {
        let (s, e) = spans[j];
        let d: usize = if at < s {
            s - at
        } else if at >= e {
            at - e
        } else {
            0
        };
        if d < best_dist {
            best = j;
            best_dist = d;
        }
        j += 1;
    }
    Some(best)
}

/// How many `$` lead a constant's declared name.
pub open spec fn lead_dollars(c: Seq<char>, k: int) -> int
    decreases c.len() - k,
{
    if 0 <= k < c.len() && c[k] == '$' {
        lead_dollars(c, k + 1)
    } else {
        k
    }
}

/// A declared capture name with its `$` removed.
pub open spec fn strip_dollars(c: Seq<char>) -> Seq<char> {
    c.subrange(lead_dollars(c, 0), c.len() as int)
}

/// Whether a capture is declared a constant.
pub open spec fn declared_constant(constants: Seq<Seq<char>>, name: Seq<char>) -> bool {
    exists|i: int| 0 <= i < constants.len() && strip_dollars(#[trigger] constants[i]) == name
}

/// The case a placeholder starts in: capitalised for a capture declared to
/// be a constant, lowercase otherwise.
pub open spec fn initial_case(constants: Seq<Seq<char>>, m: SpecMetavar) -> Case {
    match name_chars(m.name) {
        Some(n) => if declared_constant(constants, n) {
            Case::Upper
        } else {
            Case::Lower
        },
        None => Case::Lower,
    }
}

/// What the parser says of a source: its first error's message and byte
/// offset, or nothing when it parses cleanly.
pub uninterp spec fn prism_first_error(source: Seq<u8>) -> Option<(Seq<char>, usize)>;

/// `ruby_prism::parse`, reduced to its first error: the message and where it
/// starts, or `None` when the source parses without error. The parse depends
/// on the source alone.
#[verifier::external_body]
pub(crate) fn first_parse_error(source: &[u8]) -> (r: Option<(String, usize)>)
    ensures
        match r {
            Some((m, at)) => prism_first_error(source@) == Some((m@, at)),
            None => prism_first_error(source@) is None,
        },
{
    let result = ruby_prism::parse(source);
    let first = result.errors().next();
    match first {
        Some(d) => Some(
            (String::from_utf8_lossy(d.message()).into_owned(), d.location().start() as usize),
        ),
        None => None,
    }
}

/// The repair loop: render with the current cases; a clean parse is the
/// answer; otherwise flip the placeholder nearest the error and go again,
/// at most `left` more times, failing with the last error seen.
pub open spec fn attempt(
    p: Seq<u8>,
    vars: Seq<SpecMetavar>,
    cases: Seq<Case>,
    left: nat,
    last: Seq<char>,
) -> Result<(Seq<u8>, Seq<Case>), Seq<char>>
    decreases left,
{
    if left == 0 {
        Err(last)
    } else {
        let (src, spans) = spec_render(p, vars, cases);
        match prism_first_error(src) {
            None => Ok((src, cases)),
            Some((message, at)) => match spec_nearest(spans, at as int) {
                Some(i) => if 0 <= i < cases.len() {
                    attempt(p, vars, cases.update(i, flip(cases[i])), (left - 1) as nat, message)
                } else {
                    Err(message)
                },
                None => Err(message),
            },
        }
    }
}

/// What a pattern prepares to: the placeholder source and final cases, or
/// the parser's last complaint. One flip per placeholder reaches any
/// reachable assignment, plus a final attempt to observe the result.
pub open spec fn spec_prepare_with(pattern: Seq<u8>, constants: Seq<Seq<char>>) -> Result<
    (Seq<u8>, Seq<Case>),
    Seq<char>,
> {
    let vars = spec_scan(pattern);
    attempt(
        pattern,
        vars,
        vars.map_values(|m: SpecMetavar| initial_case(constants, m)),
        (vars.len() + 1) as nat,
        "no metavariables and the source does not parse"@,
    )
}

proof fn lemma_attempt(p: Seq<u8>, vars: Seq<SpecMetavar>, cases: Seq<Case>, left: nat, last: Seq<char>)
    ensures
        attempt(p, vars, cases, left, last) matches Ok((src, cs)) ==> prism_first_error(src) is None && src
            == spec_render(p, vars, cs).0 && cs.len() == cases.len(),
    decreases left,
{
    if left > 0 {
        let (src, spans) = spec_render(p, vars, cases);
        match prism_first_error(src) {
            None => {},
            Some((message, at)) => match spec_nearest(spans, at as int) {
                Some(i) => if 0 <= i < cases.len() {
                    lemma_attempt(p, vars, cases.update(i, flip(cases[i])), (left - 1) as nat, message);
                },
                None => {},
            },
        }
    }
}

/// A prepared pattern is Ruby that parses without error, rendered from the
/// pattern with one placeholder per metavariable; its bindings list, in
/// pattern order, one entry per metavariable the pattern holds, keyed by
/// `rwr_mv_<i>` or `RwrMv<i>` and carrying that metavariable's name and
/// arity.
pub proof fn law_a_prepared_pattern_parses_and_binds_each_metavariable(pattern: Seq<u8>, constants: Seq<Seq<char>>)
    ensures
        spec_prepare_with(pattern, constants) matches Ok((src, cases)) ==> {
            let vars = spec_scan(pattern);
            let bs = spec_bindings(vars, cases);
            &&& prism_first_error(src) is None
            &&& src == spec_render(pattern, vars, cases).0
            &&& cases.len() == vars.len()
            &&& bs.len() == vars.len()
            &&& forall|i: int|
                0 <= i < vars.len() ==> (#[trigger] bs[i]).1 == (name_chars(vars[i].name), vars[i].arity) && (bs[i].0
                    == "rwr_mv_"@ + spec_decimal(i as nat) || bs[i].0 == "RwrMv"@ + spec_decimal(i as nat))
        },
{
    let vars = spec_scan(pattern);
    lemma_attempt(
        pattern,
        vars,
        vars.map_values(|m: SpecMetavar| initial_case(constants, m)),
        (vars.len() + 1) as nat,
        "no metavariables and the source does not parse"@,
    );
}

/// Each placeholder and what it stands for.
pub open spec fn spec_bindings(vars: Seq<SpecMetavar>, cases: Seq<Case>) -> Seq<
    (Seq<char>, (Option<Seq<char>>, Arity)),
> {
    Seq::new(
        vars.len(),
        |i: int| (placeholder_chars(cases[i], i as nat), (name_chars(vars[i].name), vars[i].arity)),
    )
}

pub open spec fn bindings_view(b: Seq<(String, Binding)>) -> Seq<(Seq<char>, (Option<Seq<char>>, Arity))> {
    b.map_values(|e: (String, Binding)| (e.0@, (string_opt_view(e.1.name), e.1.arity)))
}

/// Whether `constant`, leading `$` removed, is `name`.
fn names_constant(constant: &str, name: &str) -> (r: bool)
    ensures
        r == (strip_dollars(constant@) == name@),
{
    let n = constant.unicode_len();
    let mut k: usize = 0;
    while k < n && constant.get_char(k) == '$'
        invariant
            k <= n == constant@.len(),
            lead_dollars(constant@, 0) == lead_dollars(constant@, k as int),
        decreases n - k,
    {
        k += 1;
    }
    let rest = constant.substring_char(k, n);
    str_eq(rest, name)
}

fn first_case(constants: &Vec<String>, var: &Metavar, Ghost(m): Ghost<SpecMetavar>) -> (c: Case)
    requires
        var.is(m),
    ensures
        c == initial_case(crate::text::string_views(constants@), m),
{
    let ghost cs = crate::text::string_views(constants@);
    match &var.name {
        None => Case::Lower,
        Some(name) => {
            let mut k: usize = 0;
            while k < constants.len()
                invariant
                    k <= constants@.len(),
                    cs == crate::text::string_views(constants@),
                    name_chars(m.name) == Some(name@),
                    forall|j: int| 0 <= j < k ==> strip_dollars(#[trigger] cs[j]) != name@,
                decreases constants@.len() - k,
            {
                if names_constant(constants[k].as_str(), name.as_str()) {
                    assert(strip_dollars(cs[k as int]) == name@);
                    return Case::Upper;
                }
                k += 1;
            }
            Case::Lower
        },
    }
}

/// Rewrite `pattern` into parseable Ruby, replacing metavariables with
/// placeholder identifiers.
pub fn prepare(pattern: &str) -> (r: Result<Prepared, PrepareError>)
    requires
        29 * pattern.spec_bytes().len() < usize::MAX,
    ensures
        match spec_prepare_with(pattern.spec_bytes(), Seq::empty()) {
            Ok((src, cases)) => r matches Ok(p) && vstd::utf8::encode_utf8(p.source@) == src
                && bindings_view(p.bindings@) == spec_bindings(spec_scan(pattern.spec_bytes()), cases),
            Err(m) => r matches Err(PrepareError::Unparseable { message }) && message@ == m,
        },
{
    let none: Vec<String> = Vec::new();
    proof {
        assert(crate::text::string_views(none@) =~= Seq::<Seq<char>>::empty());
    }
    prepare_with(pattern, &none)
}

/// As [`prepare`], with the named captures starting as constants.
///
/// The repair loop flips a placeholder only when the parse fails, which
/// cannot help where both casings parse and mean different things:
/// `rwr_mv_1 = [1]` writes a local, `RwrMv1 = [1]` a constant. A rule that
/// says `is: constant` has already answered the question.
pub fn prepare_with(pattern: &str, constants: &Vec<String>) -> (r: Result<Prepared, PrepareError>)
    requires
        29 * pattern.spec_bytes().len() < usize::MAX,
    ensures
        match spec_prepare_with(pattern.spec_bytes(), crate::text::string_views(constants@)) {
            Ok((src, cases)) => r matches Ok(p) && vstd::utf8::encode_utf8(p.source@) == src
                && bindings_view(p.bindings@) == spec_bindings(spec_scan(pattern.spec_bytes()), cases),
            Err(m) => r matches Err(PrepareError::Unparseable { message }) && message@ == m,
        },
{
    let ghost pb = pattern.spec_bytes();
    let ghost cv = crate::text::string_views(constants@);
    let vars = scan(pattern);
    let ghost ms = spec_scan(pb);
    proof {
        lemma_scan_well_placed(pb, 0);
        lemma_count_bound(ms, pb.len() as int, ms.len() as int);
        lemma_pow10_20();
    }
    let mut cases: Vec<Case> = Vec::new();
    let mut k: usize = 0;
    while k < vars.len()
        invariant
            k <= vars@.len() == ms.len(),
            forall|j: int| 0 <= j < vars@.len() ==> #[trigger] vars@[j].is(ms[j]),
            cv == crate::text::string_views(constants@),
            cases@ == ms.map_values(|m: SpecMetavar| initial_case(cv, m)).take(k as int),
        decreases vars@.len() - k,
    {
        let c = first_case(constants, &vars[k], Ghost(ms[k as int]));
        cases.push(c);
        proof {
            assert(cases@ =~= ms.map_values(|m: SpecMetavar| initial_case(cv, m)).take(k + 1));
        }
        k += 1;
    }
    proof {
        assert(cases@ =~= ms.map_values(|m: SpecMetavar| initial_case(cv, m)));
    }
    let attempts = vars.len() + 1;
    let mut last_message = owned("no metavariables and the source does not parse");
    let mut tries: usize = 0;
    while tries < attempts
        invariant
            tries <= attempts == ms.len() + 1,
            vars@.len() == ms.len() == cases@.len(),
            pb == pattern.spec_bytes(),
            ms == spec_scan(pb),
            29 * pb.len() < usize::MAX,
            well_placed(ms, 0, pb.len() as int),
            ms.len() <= pb.len(),
            pow10(20) == 100000000000000000000nat,
            cv == crate::text::string_views(constants@),
            forall|j: int| 0 <= j < vars@.len() ==> #[trigger] vars@[j].is(ms[j]),
            attempt(pb, ms, cases@, (attempts - tries) as nat, last_message@) == spec_prepare_with(pb, cv),
        decreases attempts - tries,
    {
        let (source, spans) = render(pattern, &vars, &cases);
        let failure = first_parse_error(source.as_str().as_bytes());
        match failure {
            None => {
                proof {
                    assert(prism_first_error(vstd::utf8::encode_utf8(source@)) is None);
                    assert(spec_render(pb, ms, cases@).0 == vstd::utf8::encode_utf8(source@));
                    assert(attempts - tries >= 1);
                    assert(attempt(pb, ms, cases@, (attempts - tries) as nat, last_message@) == Ok::<(Seq<u8>, Seq<Case>), Seq<char>>((vstd::utf8::encode_utf8(source@), cases@)));
                }
                let mut bindings: Vec<(String, Binding)> = Vec::new();
                let mut i: usize = 0;
                while i < vars.len()
                    invariant
                        i <= vars@.len() == cases@.len() == ms.len(),
                        forall|j: int| 0 <= j < vars@.len() ==> #[trigger] vars@[j].is(ms[j]),
                        bindings_view(bindings@) == spec_bindings(ms, cases@).take(i as int),
                    decreases vars@.len() - i,
                {
                    let ph = cases[i].placeholder(i);
                    let name = match &vars[i].name {
                        Some(n) => Some(owned(n.as_str())),
                        None => None,
                    };
                    let ghost prev = bindings_view(bindings@);
                    let ghost entry = (ph@, (string_opt_view(name), vars@[i as int].arity));
                    bindings.push((ph, Binding { name, arity: vars[i].arity }));
                    proof {
                        assert(vars@[i as int].is(ms[i as int]));
                        let sb = spec_bindings(ms, cases@);
                        assert(sb[i as int] == (
                            placeholder_chars(cases@[i as int], i as nat),
                            (name_chars(ms[i as int].name), ms[i as int].arity),
                        ));
                        assert(entry == sb[i as int]);
                        assert(bindings_view(bindings@) =~= prev.push(entry));
                        assert(sb.take(i + 1) =~= sb.take(i as int).push(sb[i as int]));
                    }
                    i += 1;
                }
                proof {
                    assert(spec_bindings(ms, cases@).take(vars@.len() as int) =~= spec_bindings(ms, cases@));
                }
                return Ok(Prepared { source, bindings });
            },
            Some((message, at)) => {
                last_message = message;
                match nearest(&spans, at) {
                    Some(i) => {
                        proof {
                            lemma_closest(spans_view(spans@), at as int, spans@.len() as int);
                            lemma_first_containing(spans_view(spans@), at as int, 0);
                            lemma_render_len(pb, ms, cases@, ms.len() as int);
                        }
                        let flipped = cases[i].flipped();
                        cases.set(i, flipped);
                    },
                    None => {
                        return Err(PrepareError::Unparseable { message: last_message });
                    },
                }
            },
        }
        tries += 1;
    }
    Err(PrepareError::Unparseable { message: last_message })
}

proof fn lemma_first_containing(spans: Seq<(int, int)>, at: int, k: int)
    requires
        0 <= k,
    ensures
        first_containing(spans, at, k) matches Some(i) ==> k <= i < spans.len(),
    decreases spans.len() - k,
{
    if k < spans.len() && !(spans[k].0 <= at < spans[k].1) {
        lemma_first_containing(spans, at, k + 1);
    }
}

} // verus!
