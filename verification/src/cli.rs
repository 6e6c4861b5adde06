//! The command line's public contract: exit statuses and output formats.
//! Agents branch on the exit status before parsing any output, so these
//! numbers are as much a contract as the JSON field names.

use crate::diff::{grouped, Changed, Lines};
use crate::rewrite::sequence::{lemma_line_end_bounds, line_end, spec_line_end};
use crate::text::{cat, cat3, owned, slice_str, starts_char, str_eq, string_views};
use vstd::prelude::*;
use vstd::string::StringSliceAdditionalSpecFns;

verus! {

/// How a run ended.
#[derive(Debug, Clone, Copy, PartialEq, Eq, Structural)]
pub enum Exit {
    /// Verb-dependent success. `find`: matched. `check`: clean. `rewrite`:
    /// applied, or nothing to apply -- writing nothing is not a failure.
    Success,
    /// Verb-dependent negative result, not an error in either polarity.
    /// `find`: nothing matched. `check`: violations found.
    Negative,
    /// I/O, internal, or usage failure. `2` because grep, ripgrep, ruff,
    /// rubocop, biome, jq and semgrep all agree it means "something went
    /// wrong".
    Error,
    /// The pattern or rule failed to parse, as distinct from a source file
    /// failing to parse.
    PatternError,
    /// Matches were skipped because they sat inside a rewritten range.
    /// Rerunning the same command makes progress.
    Retryable,
    /// Ambiguity that needs judgement. Rerunning changes nothing.
    Refused,
}

/// The numeric status of each outcome.
pub open spec fn exit_code(e: Exit) -> u8 {
    match e {
        Exit::Success => 0,
        Exit::Negative => 1,
        Exit::Error => 2,
        Exit::PatternError => 3,
        Exit::Retryable => 4,
        Exit::Refused => 5,
    }
}

impl Exit {
    /// The numeric status.
    pub fn code(self) -> (r: u8)
        ensures
            r == exit_code(self),
    {
        match self {
            Exit::Success => 0,
            Exit::Negative => 1,
            Exit::Error => 2,
            Exit::PatternError => 3,
            Exit::Retryable => 4,
            Exit::Refused => 5,
        }
    }
}

/// Each outcome has a status of its own: collapsed, an agent would either
/// abandon recoverable work or spin on unrecoverable work.
pub proof fn law_each_outcome_has_its_own_status(a: Exit, b: Exit)
    ensures
        exit_code(a) == exit_code(b) <==> a == b,
{
}

/// How `check` or `rewrite` ends. A refusal wins: it needs judgement, and a
/// rerun changes nothing. Then matches deferred inside a rewritten range,
/// when writing: a rerun makes progress. Otherwise `rewrite` succeeds,
/// having done what there was to do, and `check` -- enforcement polarity --
/// succeeds only when there is nothing to change and nothing found.
pub open spec fn spec_apply_exit(refused: bool, deferred: nat, write: bool, changed: nat, findings: nat) -> Exit {
    if refused {
        Exit::Refused
    } else if deferred > 0 && write {
        Exit::Retryable
    } else if write || (changed == 0 && findings == 0) {
        Exit::Success
    } else {
        Exit::Negative
    }
}

/// How `check` or `rewrite` ends, from whether a site was refused, how many
/// matches were deferred, whether the run writes, and how many files
/// changed and findings were made.
pub fn apply_exit(refused: bool, deferred: usize, write: bool, changed: usize, findings: usize) -> (r: Exit)
    ensures
        r == spec_apply_exit(refused, deferred as nat, write, changed as nat, findings as nat),
{
    if refused {
        Exit::Refused
    } else if deferred > 0 && write {
        Exit::Retryable
    } else if write || (changed == 0 && findings == 0) {
        Exit::Success
    } else {
        Exit::Negative
    }
}

/// How `find` ends: success when something matched.
pub fn find_exit(found: usize) -> (r: Exit)
    ensures
        r == (if found == 0 {
            Exit::Negative
        } else {
            Exit::Success
        }),
{
    if found == 0 {
        Exit::Negative
    } else {
        Exit::Success
    }
}

/// How `test` ends: success when no fixture failed.
pub fn test_exit(failed: usize) -> (r: Exit)
    ensures
        r == (if failed > 0 {
            Exit::Negative
        } else {
            Exit::Success
        }),
{
    if failed > 0 {
        Exit::Negative
    } else {
        Exit::Success
    }
}

/// `rewrite` never reports a negative result: writing nothing is not a
/// failure.
pub proof fn law_rewrite_is_never_negative(refused: bool, deferred: nat, changed: nat, findings: nat)
    ensures
        spec_apply_exit(refused, deferred, true, changed, findings) != Exit::Negative,
{
}

/// How results are rendered.
#[derive(Debug, Clone, Copy, PartialEq, Eq, Structural)]
pub enum Output {
    Text,
    Json,
    Ndjson,
}

/// The format the flags ask for: `--ndjson` over `--json`, text otherwise.
pub open spec fn spec_output(json: bool, ndjson: bool) -> Output {
    if ndjson {
        Output::Ndjson
    } else if json {
        Output::Json
    } else {
        Output::Text
    }
}

/// The format the flags ask for; `--ndjson` wins over `--json`.
pub fn output_for(json: bool, ndjson: bool) -> (r: Output)
    ensures
        r == spec_output(json, ndjson),
{
    if ndjson {
        Output::Ndjson
    } else if json {
        Output::Json
    } else {
        Output::Text
    }
}

/// The replacement a run was given, with `--delete` spelled as the empty
/// one.
pub fn template(replace: Option<&str>, delete: bool) -> (r: Option<&str>)
    ensures
        delete ==> (r matches Some(t) && t@.len() == 0),
        !delete ==> r == replace,
{
    if delete {
        let empty = "";
        proof {
            reveal_strlit("");
        }
        Some(empty)
    } else {
        replace
    }
}

/// Where a run is pointed, for the questions that belong to the repository
/// rather than to a file: the first path given, else the first `--path`,
/// else the working directory.
pub fn scope_start(paths: &Vec<String>, more: &Vec<String>) -> (r: String)
    ensures
        r@ == (if paths@.len() > 0 {
            paths@[0]@
        } else if more@.len() > 0 {
            more@[0]@
        } else {
            "."@
        }),
{
    if paths.len() > 0 {
        owned(paths[0].as_str())
    } else if more.len() > 0 {
        owned(more[0].as_str())
    } else {
        owned(".")
    }
}

/// What a fixture failure kind means, in one line.
pub open spec fn spec_explain_kind(kind: Seq<char>) -> Seq<char> {
    if kind == "invalid_ruby"@ {
        "the snippet does not parse; a fixture that cannot be read cannot test anything"@
    } else if kind == "refused"@ {
        "the rule refused to edit this snippet"@
    } else if kind == "output_mismatch"@ {
        "the rewrite did not produce the expected source"@
    } else if kind == "unexpected_rewrite"@ {
        "expected no change, but the rule rewrote it"@
    } else if kind == "wrong_finds"@ {
        "wrong number of findings"@
    } else if kind == "wrong_residue"@ {
        "wrong number of occurrences left unaccounted for"@
    } else {
        "asserts nothing"@
    }
}

/// One line on what a failure kind means, so a diff is not the only clue.
pub fn explain_kind(kind: &str) -> (r: &'static str)
    ensures
        r@ == spec_explain_kind(kind@),
{
    if str_eq(kind, "invalid_ruby") {
        "the snippet does not parse; a fixture that cannot be read cannot test anything"
    } else if str_eq(kind, "refused") {
        "the rule refused to edit this snippet"
    } else if str_eq(kind, "output_mismatch") {
        "the rewrite did not produce the expected source"
    } else if str_eq(kind, "unexpected_rewrite") {
        "expected no change, but the rule rewrote it"
    } else if str_eq(kind, "wrong_finds") {
        "wrong number of findings"
    } else if str_eq(kind, "wrong_residue") {
        "wrong number of occurrences left unaccounted for"
    } else {
        "asserts nothing"
    }
}

/// The byte spans of the lines from `at` on, as `str::lines` splits them:
/// at each `\n`, a `\r` just before it dropped too, and no line after a
/// final `\n`.
pub open spec fn line_spans(b: Seq<u8>, at: int) -> Seq<(int, int)>
    decreases b.len() - at,
{
    if at < 0 || at >= b.len() {
        Seq::empty()
    } else {
        let e = spec_line_end(b, at);
        let end = if e < b.len() && e > at && b[e - 1] == 13 {
            e - 1
        } else {
            e
        };
        proof {
            lemma_line_end_bounds(b, at);
        }
        seq![(at, end)] + if e < b.len() {
            line_spans(b, e + 1)
        } else {
            Seq::empty()
        }
    }
}

/// The lines of a text.
pub open spec fn spec_lines(b: Seq<u8>) -> Seq<Seq<char>> {
    line_spans(b, 0).map_values(|sp: (int, int)| vstd::utf8::decode_utf8(b.subrange(sp.0, sp.1)))
}

pub open spec fn span_texts(b: Seq<u8>, spans: Seq<(int, int)>) -> Seq<Seq<char>> {
    spans.map_values(|sp: (int, int)| vstd::utf8::decode_utf8(b.subrange(sp.0, sp.1)))
}

/// The lines of a text, as slices of it.
fn lines_of(s: &str) -> (r: Vec<&str>)
    ensures
        r@.map_values(|x: &str| x@) == spec_lines(s.spec_bytes()),
{
    let b = s.as_bytes();
    let n = b.len();
    let mut out: Vec<&str> = Vec::new();
    let mut at: usize = 0;
    while at < n
        invariant
            at <= n == b@.len(),
            b@ == s.spec_bytes(),
            at == 0 || at == n || b@[at - 1] == 10,
            spec_lines(b@) == out@.map_values(|x: &str| x@) + span_texts(b@, line_spans(b@, at as int)),
        decreases n - at,
    {
        let e = line_end(b, at);
        proof {
            lemma_line_end_bounds(b@, at as int);
        }
        let end = if e < n && e > at && b[e - 1] == 13 {
            e - 1
        } else {
            e
        };
        proof {
            if at > 0 {
                crate::text::lemma_ascii_splits(s@, at - 1);
            }
            if end < n {
                crate::text::lemma_ascii_splits(s@, end as int);
            }
        }
        let line = slice_str(s, at, end);
        let ghost before = out@.map_values(|x: &str| x@);
        out.push(line);
        let next = if e < n {
            e + 1
        } else {
            n
        };
        proof {
            let rest = if e < n {
                line_spans(b@, e + 1)
            } else {
                Seq::<(int, int)>::empty()
            };
            assert(line_spans(b@, at as int) == seq![(at as int, end as int)] + rest);
            assert(line_spans(b@, next as int) == rest);
            assert(out@.map_values(|x: &str| x@) =~= before.push(line@));
            assert(span_texts(b@, line_spans(b@, at as int)) =~= seq![line@] + span_texts(b@, rest));
            assert(before + span_texts(b@, line_spans(b@, at as int)) =~= before.push(line@) + span_texts(b@, rest));
        }
        at = next;
    }
    proof {
        assert(span_texts(b@, line_spans(b@, at as int)) =~= Seq::<Seq<char>>::empty());
        assert(out@.map_values(|x: &str| x@) + Seq::<Seq<char>>::empty() =~= out@.map_values(|x: &str| x@));
    }
    out
}

pub open spec fn str_views(v: Seq<&str>) -> Seq<Seq<char>> {
    v.map_values(|x: &str| x@)
}

/// The lines of `xs` that `ys` lacks, in order, each behind `mark`.
pub open spec fn missing_from(xs: Seq<Seq<char>>, ys: Seq<Seq<char>>, mark: Seq<char>) -> Seq<Seq<char>>
    decreases xs.len(),
{
    if xs.len() == 0 {
        Seq::empty()
    } else {
        let rest = missing_from(xs.drop_last(), ys, mark);
        if ys.contains(xs.last()) {
            rest
        } else {
            rest.push(mark + xs.last())
        }
    }
}

pub open spec fn ends_in_newline(b: Seq<u8>) -> bool {
    b.len() > 0 && b.last() == 10
}

/// A minimal line diff: the lines expected and missing, the lines present
/// and unexpected, and a note where only the final newline differs.
pub open spec fn spec_diff_lines(want: Seq<u8>, got: Seq<u8>) -> Seq<Seq<char>> {
    let w = spec_lines(want);
    let g = spec_lines(got);
    let head = seq!["--- expected"@, "+++ actual"@];
    let note = if ends_in_newline(want) != ends_in_newline(got) {
        seq![
            "(expected "@ + (if ends_in_newline(want) {
                "a"@
            } else {
                "no"@
            }) + " trailing newline, actual "@ + (if ends_in_newline(got) {
                "has one"@
            } else {
                "has none"@
            }) + ")"@,
        ]
    } else {
        Seq::empty()
    };
    head + missing_from(w, g, "-"@) + missing_from(g, w, "+"@) + note
}

fn holds_line(ys: &Vec<&str>, x: &str) -> (r: bool)
    ensures
        r == str_views(ys@).contains(x@),
{
    let mut k: usize = 0;
    while k < ys.len()
        invariant
            k <= ys@.len(),
            forall|i: int| 0 <= i < k ==> (#[trigger] ys@[i])@ != x@,
        decreases ys@.len() - k,
    {
        if str_eq(ys[k], x) {
            assert(str_views(ys@)[k as int] == x@);
            return true;
        }
        k += 1;
    }
    proof {
        assert forall|i: int| 0 <= i < str_views(ys@).len() implies str_views(ys@)[i] != x@ by {
            assert(str_views(ys@)[i] == ys@[i]@);
        }
    }
    false
}

fn push_missing(out: &mut Vec<String>, xs: &Vec<&str>, ys: &Vec<&str>, mark: &str)
    ensures
        string_views(final(out)@) == string_views(old(out)@) + missing_from(str_views(xs@), str_views(ys@), mark@),
{
    let ghost start = string_views(out@);
    let ghost xv = str_views(xs@);
    let mut k: usize = 0;
    while k < xs.len()
        invariant
            k <= xs@.len(),
            xv == str_views(xs@),
            string_views(out@) == start + missing_from(xv.take(k as int), str_views(ys@), mark@),
        decreases xs@.len() - k,
    {
        proof {
            assert(xv.take(k + 1).drop_last() =~= xv.take(k as int));
            assert(xv.take(k + 1).last() == xs@[k as int]@);
        }
        if !holds_line(ys, xs[k]) {
            let ghost before = string_views(out@);
            out.push(cat(mark, xs[k]));
            proof {
                assert(string_views(out@) =~= before.push(mark@ + xs@[k as int]@));
            }
        }
        k += 1;
    }
    proof {
        assert(xv.take(xs@.len() as int) =~= xv);
    }
}

fn ends_with_newline(s: &str) -> (r: bool)
    ensures
        r == ends_in_newline(s.spec_bytes()),
{
    let b = s.as_bytes();
    b.len() > 0 && b[b.len() - 1] == 10
}

/// A minimal line diff, enough to see which line moved.
pub fn diff_lines(want: &str, got: &str) -> (r: Vec<String>)
    ensures
        string_views(r@) == spec_diff_lines(want.spec_bytes(), got.spec_bytes()),
{
    let mut out: Vec<String> = Vec::new();
    out.push(owned("--- expected"));
    out.push(owned("+++ actual"));
    let w = lines_of(want);
    let g = lines_of(got);
    proof {
        assert(string_views(out@) =~= seq!["--- expected"@, "+++ actual"@]);
    }
    push_missing(&mut out, &w, &g, "-");
    push_missing(&mut out, &g, &w, "+");
    let want_ends = ends_with_newline(want);
    let got_ends = ends_with_newline(got);
    let ghost before = string_views(out@);
    if want_ends != got_ends {
        let first = if want_ends {
            "a"
        } else {
            "no"
        };
        let second = if got_ends {
            "has one"
        } else {
            "has none"
        };
        let a = cat3("(expected ", first, " trailing newline, actual ");
        let b = cat3(a.as_str(), second, ")");
        out.push(b);
        proof {
            assert(string_views(out@) =~= before + seq![b@]);
        }
    } else {
        proof {
            assert(before + Seq::<Seq<char>>::empty() =~= before);
        }
    }
    out
}

pub open spec fn split_view(split: Option<Lines>) -> Option<(Seq<char>, (u32, u32))> {
    match split {
        Some(l) => Some((l.path@, l.range)),
        None => None,
    }
}

/// What one path argument of a run names: `Ok(Some(..))` a file and the
/// lines after it, `Ok(None)` a path to walk whole. A path that does not
/// exist is an error rather than an empty walk, which in CI would be a
/// green gate that checked nothing. A file literally named `foo.rb:3` is
/// legal, so the literal reading is the fallback; where neither reading
/// exists the error names both.
pub open spec fn spec_classify(
    arg: Seq<char>,
    split: Option<(Seq<char>, (u32, u32))>,
    path_exists: bool,
    arg_exists: bool,
    diff: bool,
) -> Result<Option<(Seq<char>, (u32, u32))>, Seq<char>> {
    if split is Some && path_exists {
        Ok(split)
    } else if split is Some && !arg_exists {
        Err("no such path: "@ + (split->0).0 + " (nor "@ + arg + ")"@)
    } else if !arg_exists && diff {
        Err("no such path: "@ + arg + " -- for a revision, --since "@ + arg)
    } else if !arg_exists {
        Err("no such path: "@ + arg)
    } else {
        Ok(None)
    }
}

/// Classify one path argument, given how `diff::split_lines` read it,
/// whether the path before its range exists, whether the argument itself
/// does, and whether `--diff` was given.
pub fn classify<'a>(arg: &str, split: Option<Lines<'a>>, path_exists: bool, arg_exists: bool, diff: bool) -> (r: Result<
    Option<Lines<'a>>,
    String,
>)
    ensures
        match (r, spec_classify(arg@, split_view(split), path_exists, arg_exists, diff)) {
            (Ok(x), Ok(y)) => split_view(x) == y,
            (Err(e), Err(m)) => e@ == m,
            _ => false,
        },
{
    match split {
        Some(l) => {
            if path_exists {
                return Ok(Some(l));
            }
            if !arg_exists {
                let a = cat3("no such path: ", l.path, " (nor ");
                return Err(cat3(a.as_str(), arg, ")"));
            }
        },
        None => {},
    }
    if !arg_exists && diff {
        let a = cat3("no such path: ", arg, " -- for a revision, --since ");
        return Err(cat(a.as_str(), arg));
    }
    if !arg_exists {
        return Err(cat("no such path: ", arg));
    }
    Ok(None)
}

pub open spec fn changed_view(c: Option<Changed>) -> Option<Seq<(Seq<char>, Seq<(u32, u32)>)>> {
    match c {
        Some(c) => Some(c.view()),
        None => None,
    }
}

/// The paths to walk, and the lines to restrict to where paths named lines.
/// Mixing the two forms is refused, since a set of lines covers only the
/// files it names and would call the unscoped paths clean; so is naming
/// lines together with `--diff` or `--since`, two answers to one question.
pub fn restrict(walk: Vec<String>, lines: Vec<(String, (u32, u32))>, unscoped: Option<&str>, diff_or_since: bool) -> (r:
    Result<(Vec<String>, Option<Changed>), String>)
    ensures
        lines@.len() == 0 ==> (r matches Ok((w, c)) && w@ == walk@ && c is None),
        lines@.len() > 0 && unscoped is Some ==> (r matches Err(e) && e@ == unscoped->0@
            + " names no lines, but another path does -- give every path a `:N` range, or none"@),
        lines@.len() > 0 && unscoped is None && diff_or_since ==> (r matches Err(e) && e@
            == "--diff/--since and a `:N` range are two answers to which lines to check; give one"@),
        lines@.len() > 0 && unscoped is None && !diff_or_since ==> (r matches Ok((w, c)) && w@ == walk@
            && changed_view(c) == Some(grouped(lines@.map_values(|e: (String, (u32, u32))| (e.0@, e.1))))),
{
    if lines.len() == 0 {
        return Ok((walk, None));
    }
    if let Some(u) = unscoped {
        return Err(cat(u, " names no lines, but another path does -- give every path a `:N` range, or none"));
    }
    if diff_or_since {
        return Err(owned("--diff/--since and a `:N` range are two answers to which lines to check; give one"));
    }
    Ok((walk, Some(Changed::from_lines(lines))))
}

/// What scanning one fixture's snippet came to: it did not parse, an edit
/// was refused with a reason, nothing matched and nothing was left over, or
/// it was scanned, with the rewritten source (where anything changed), the
/// number of findings, and the number of occurrences the rules could not
/// account for.
#[derive(Debug)]
pub enum FixtureScan {
    Unparseable,
    Refused(String),
    Quiet,
    Scanned { rewritten: Option<String>, findings: usize, residue: usize },
}

pub enum ScanView {
    Unparseable,
    Refused(Seq<char>),
    Quiet,
    Scanned { rewritten: Option<Seq<char>>, findings: usize, residue: usize },
}

impl FixtureScan {
    pub open spec fn view(&self) -> ScanView {
        match self {
            FixtureScan::Unparseable => ScanView::Unparseable,
            FixtureScan::Refused(r) => ScanView::Refused(r@),
            FixtureScan::Quiet => ScanView::Quiet,
            FixtureScan::Scanned { rewritten, findings, residue } => ScanView::Scanned {
                rewritten: crate::text::opt_view(*rewritten),
                findings: *findings,
                residue: *residue,
            },
        }
    }
}

/// How a fixture fared: whether it passed, what kind of result it was, and,
/// where they differ, what was expected and what came out.
#[derive(Debug)]
pub struct Judged {
    pub passed: bool,
    pub kind: &'static str,
    pub expected: Option<String>,
    pub actual: Option<String>,
}

/// The verdict of a case's first assertion about the source or findings:
/// the expected source, then `unchanged: true`, then the number of
/// findings; `None` when it makes none of these.
pub open spec fn spec_primary(c: crate::rule::CaseView, text: Seq<char>, findings: usize) -> Option<
    (bool, Seq<char>, Option<Seq<char>>, Option<Seq<char>>),
> {
    match c.output {
        Some(want) => if text == want {
            Some((true, "rewrote"@, None, None))
        } else {
            Some((false, "output_mismatch"@, Some(want), Some(text)))
        },
        None => if c.unchanged == Some(true) {
            if text == c.input {
                Some((true, "unchanged"@, None, None))
            } else {
                Some((false, "unexpected_rewrite"@, Some(c.input), Some(text)))
            }
        } else {
            match c.finds {
                Some(want) => if findings == want {
                    Some((true, "reported"@, None, None))
                } else {
                    Some(
                        (
                            false,
                            "wrong_finds"@,
                            Some(crate::text::spec_decimal(want as nat)),
                            Some(crate::text::spec_decimal(findings as nat)),
                        ),
                    )
                },
                None => None,
            }
        },
    }
}

/// A fixture's verdict. An unreadable snippet or a refused edit fails
/// outright. Otherwise its assertion about the source or findings decides
/// first, and a `residue:` count must then equal the occurrences left over;
/// a case asserting only `residue:` passes exactly when the counts are
/// equal, and a case asserting nothing fails.
pub open spec fn spec_judge(c: crate::rule::CaseView, scan: ScanView) -> (
    bool,
    Seq<char>,
    Option<Seq<char>>,
    Option<Seq<char>>,
) {
    match scan {
        ScanView::Unparseable => (false, "invalid_ruby"@, None, None),
        ScanView::Refused(reason) => (false, "refused"@, None, Some(reason)),
        _ => {
            let (text, findings, left) = match scan {
                ScanView::Scanned { rewritten, findings, residue } => (
                    match rewritten {
                        Some(t) => t,
                        None => c.input,
                    },
                    findings,
                    residue,
                ),
                _ => (c.input, 0usize, 0usize),
            };
            let wrong_residue = |n: usize|
                (
                    false,
                    "wrong_residue"@,
                    Some(crate::text::spec_decimal(n as nat)),
                    Some(crate::text::spec_decimal(left as nat)),
                );
            match spec_primary(c, text, findings) {
                Some(p) => if !p.0 {
                    p
                } else {
                    match c.residue {
                        Some(n) => if left == n {
                            p
                        } else {
                            wrong_residue(n)
                        },
                        None => p,
                    }
                },
                None => match c.residue {
                    Some(n) => if left == n {
                        (true, "residue"@, None, None)
                    } else {
                        wrong_residue(n)
                    },
                    None => (false, "asserts_nothing"@, None, None),
                },
            }
        },
    }
}

fn primary(case: &crate::rule::Case, text: &str, findings: usize) -> (r: Option<Judged>)
    ensures
        match (r, spec_primary(case.view(), text@, findings)) {
            (Some(j), Some(p)) => (j.passed, j.kind@, crate::text::opt_view(j.expected), crate::text::opt_view(
                j.actual,
            )) == p,
            (None, None) => true,
            _ => false,
        },
{
    match &case.output {
        Some(want) => {
            if str_eq(text, want.as_str()) {
                Some(Judged { passed: true, kind: "rewrote", expected: None, actual: None })
            } else {
                Some(
                    Judged {
                        passed: false,
                        kind: "output_mismatch",
                        expected: Some(owned(want.as_str())),
                        actual: Some(owned(text)),
                    },
                )
            }
        },
        None => {
            if case.unchanged == Some(true) {
                if str_eq(text, case.input.as_str()) {
                    Some(Judged { passed: true, kind: "unchanged", expected: None, actual: None })
                } else {
                    Some(
                        Judged {
                            passed: false,
                            kind: "unexpected_rewrite",
                            expected: Some(owned(case.input.as_str())),
                            actual: Some(owned(text)),
                        },
                    )
                }
            } else {
                match case.finds {
                    Some(want) => {
                        if findings == want {
                            Some(Judged { passed: true, kind: "reported", expected: None, actual: None })
                        } else {
                            Some(
                                Judged {
                                    passed: false,
                                    kind: "wrong_finds",
                                    expected: Some(crate::text::decimal(want)),
                                    actual: Some(crate::text::decimal(findings)),
                                },
                            )
                        }
                    },
                    None => None,
                }
            }
        },
    }
}

/// Judge one fixture by what scanning its snippet came to.
pub fn judge(case: &crate::rule::Case, scan: &FixtureScan) -> (r: Judged)
    ensures
        (r.passed, r.kind@, crate::text::opt_view(r.expected), crate::text::opt_view(r.actual)) == spec_judge(
            case.view(),
            scan.view(),
        ),
{
    let (text, findings, left): (&str, usize, usize) = match scan {
        FixtureScan::Unparseable => {
            return Judged { passed: false, kind: "invalid_ruby", expected: None, actual: None };
        },
        FixtureScan::Refused(reason) => {
            return Judged { passed: false, kind: "refused", expected: None, actual: Some(owned(reason.as_str())) };
        },
        FixtureScan::Quiet => (case.input.as_str(), 0, 0),
        FixtureScan::Scanned { rewritten, findings, residue } => (
            match rewritten {
                Some(t) => t.as_str(),
                None => case.input.as_str(),
            },
            *findings,
            *residue,
        ),
    };
    let p = primary(case, text, findings);
    match p {
        Some(j) => {
            if !j.passed {
                return j;
            }
            match case.residue {
                Some(n) => {
                    if left == n {
                        j
                    } else {
                        Judged {
                            passed: false,
                            kind: "wrong_residue",
                            expected: Some(crate::text::decimal(n)),
                            actual: Some(crate::text::decimal(left)),
                        }
                    }
                },
                None => j,
            }
        },
        None => match case.residue {
            Some(n) => {
                if left == n {
                    Judged { passed: true, kind: "residue", expected: None, actual: None }
                } else {
                    Judged {
                        passed: false,
                        kind: "wrong_residue",
                        expected: Some(crate::text::decimal(n)),
                        actual: Some(crate::text::decimal(left)),
                    }
                }
            },
            None => Judged { passed: false, kind: "asserts_nothing", expected: None, actual: None },
        },
    }
}

} // verus!

