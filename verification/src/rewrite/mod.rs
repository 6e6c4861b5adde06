//! Edits and splicing: what a rewrite changes in a file, and how a template's
//! placeholders are written back as metavariables.

pub mod diff;
pub mod plan;
pub mod sequence;

use crate::metavar::{lemma_scan_ascii, spec_scan, Arity, Metavar, SpecMetavar};
use crate::prepare::{first_parse_error, prism_first_error, Binding, Prepared};
use crate::rewrite::sequence::{renderable, spec_render, spec_transform, Transform};
use crate::text::{
    append_str, ascii_chars, cat, cat3, decimal, lossy_chars, lossy_string, owned, slice_str, spec_alnum, spec_alpha,
    spec_decimal, spec_trim_end, spec_trim_start, starts_char, str_eq, trim_end, trim_start,
};
use vstd::utf8::{decode_utf8, encode_utf8};
use vstd::prelude::*;
use vstd::string::StringSliceAdditionalSpecFns;

verus! {

/// One replacement of a source span.
#[derive(Debug, Clone, PartialEq, Eq)]
pub struct Edit {
    pub start: usize,
    pub end: usize,
    pub text: String,
}

/// Why a rewrite was refused. A refusal is a product, not a diagnostic:
/// refusing rather than guessing is the contract, so it has to say what
/// happened in a sentence the caller can act on.
#[derive(Debug, Clone, PartialEq, Eq)]
pub enum Refusal {
    /// A deletion whose match does not occupy whole lines of its own.
    PartialDeletion { text: String },
    /// Two edits overlap partially, so neither can apply without corrupting
    /// the other.
    Overlap { first: Edit, second: Edit },
    /// The rewritten source no longer parses.
    VerifyFailed { message: String },
    /// A template applies an unknown transform to a sequence, such as
    /// `*$ITEMS.srot`.
    UnknownTransform { name: String },
    /// A comment shares a line with several elements being reordered.
    AmbiguousComment,
    /// The rewritten site does not match the template it was written from.
    TemplateMismatch { text: String, template: String },
    /// A metavariable holds different source text after the rewrite.
    CaptureMoved { capture: String, was: String, now: String },
    /// A capture being spliced contains a heredoc, whose body lies outside
    /// the expression.
    DiscontiguousCapture { at: usize },
}

/// What a refusal says.
pub open spec fn refusal_text(r: Refusal) -> Seq<char> {
    match r {
        Refusal::PartialDeletion { text } => "deleting `"@ + text@
            + "` would leave a hole in the expression around it, and the result can still parse"@,
        Refusal::Overlap { first, second } =>
            "two edits overlap and neither can apply without corrupting the other ("@
            + spec_decimal(first.start as nat) + ".."@ + spec_decimal(first.end as nat) + " and "@
            + spec_decimal(second.start as nat) + ".."@ + spec_decimal(second.end as nat) + ")"@,
        Refusal::VerifyFailed { message } => "the rewritten source did not verify: "@ + message@,
        Refusal::UnknownTransform { name } => "`."@ + name@
            + "` is not a sequence transform -- expected `.sort`, `.uniq` or `.reverse`. Emitting it as literal text would write `."@
            + name@ + "` into your source"@,
        Refusal::AmbiguousComment =>
            "a comment shares a line with elements being reordered and could describe either neighbour, so there is no way to say which it belongs to"@,
        Refusal::TemplateMismatch { text, template } => "the rewrite produced `"@ + text@
            + "`, which is not what `"@ + template@
            + "` describes -- valid Ruby, and not the transformation the rule asked for"@,
        Refusal::CaptureMoved { capture, was, now } => "the rewrite moved $"@ + capture@
            + ": it captured `"@ + was@ + "` before and `"@ + now@
            + "` after, so the result has the right shape around the wrong code"@,
        Refusal::DiscontiguousCapture { at } => "a capture at byte "@ + spec_decimal(at as nat)
            + " contains a heredoc, whose body sits outside the expression -- splicing it by range would drag along surrounding text"@,
    }
}

fn push_all(s: &mut String, parts: &[&str])
    ensures
        final(s)@ == old(s)@ + parts@.fold_left(Seq::<char>::empty(), |acc: Seq<char>, p: &str| acc + p@),
{
    let ghost start = s@;
    let mut k: usize = 0;
    while k < parts.len()
        invariant
            k <= parts@.len(),
            s@ == start + parts@.take(k as int).fold_left(Seq::<char>::empty(), |acc: Seq<char>, p: &str| acc + p@),
        decreases parts@.len() - k,
    {
        proof {
            let f = |acc: Seq<char>, p: &str| acc + p@;
            assert(parts@.take(k + 1).drop_last() =~= parts@.take(k as int));
            assert(parts@.take(k + 1).fold_left(Seq::<char>::empty(), f) == f(
                parts@.take(k + 1).drop_last().fold_left(Seq::<char>::empty(), f),
                parts@.take(k + 1).last(),
            ));
        }
        s.append(parts[k]);
        k += 1;
    }
    proof {
        assert(parts@.take(parts@.len() as int) =~= parts@);
    }
}

impl Refusal {
    /// The refusal as a sentence.
    pub fn text(&self) -> (s: String)
        ensures
            s@ == refusal_text(*self),
    {
        match self {
            Refusal::PartialDeletion { text } => cat3(
                "deleting `",
                text.as_str(),
                "` would leave a hole in the expression around it, and the result can still parse",
            ),
            Refusal::Overlap { first, second } => {
                let a = decimal(first.start);
                let b = decimal(first.end);
                let c = decimal(second.start);
                let d = decimal(second.end);
                let mut s = owned(
                    "two edits overlap and neither can apply without corrupting the other (",
                );
                s.append(a.as_str());
                s.append("..");
                s.append(b.as_str());
                s.append(" and ");
                s.append(c.as_str());
                s.append("..");
                s.append(d.as_str());
                s.append(")");
                s
            },
            Refusal::VerifyFailed { message } => cat(
                "the rewritten source did not verify: ",
                message.as_str(),
            ),
            Refusal::UnknownTransform { name } => {
                let mut s = cat3(
                    "`.",
                    name.as_str(),
                    "` is not a sequence transform -- expected `.sort`, `.uniq` or `.reverse`. Emitting it as literal text would write `.",
                );
                s.append(name.as_str());
                s.append("` into your source");
                s
            },
            Refusal::AmbiguousComment => owned(
                "a comment shares a line with elements being reordered and could describe either neighbour, so there is no way to say which it belongs to",
            ),
            Refusal::TemplateMismatch { text, template } => {
                let mut s = cat3("the rewrite produced `", text.as_str(), "`, which is not what `");
                s.append(template.as_str());
                s.append(
                    "` describes -- valid Ruby, and not the transformation the rule asked for",
                );
                s
            },
            Refusal::CaptureMoved { capture, was, now } => {
                let mut s = cat3("the rewrite moved $", capture.as_str(), ": it captured `");
                s.append(was.as_str());
                s.append("` before and `");
                s.append(now.as_str());
                s.append("` after, so the result has the right shape around the wrong code");
                s
            },
            Refusal::DiscontiguousCapture { at } => {
                let n = decimal(*at);
                cat3(
                    "a capture at byte ",
                    n.as_str(),
                    " contains a heredoc, whose body sits outside the expression -- splicing it by range would drag along surrounding text",
                )
            },
        }
    }
}

/// Edits in order and disjoint, each inside the source.
pub open spec fn ordered_edits(edits: Seq<Edit>, len: int) -> bool {
    &&& forall|k: int| 0 <= k < edits.len() ==> (#[trigger] edits[k]).start <= edits[k].end <= len
    &&& forall|k: int| 0 < k < edits.len() ==> edits[k - 1].end <= #[trigger] edits[k].start
}

/// The source with the first `k` edits applied, up to the end of the `k`th.
pub open spec fn applied_upto(source: Seq<u8>, edits: Seq<Edit>, k: int) -> Seq<char>
    decreases k,
{
    if k <= 0 {
        Seq::empty()
    } else {
        let cursor = if k == 1 {
            0
        } else {
            edits[k - 2].end as int
        };
        applied_upto(source, edits, k - 1) + lossy_chars(
            source.subrange(cursor, edits[k - 1].start as int),
        ) + edits[k - 1].text@
    }
}

/// The source with every edit applied: the text between edits kept, each
/// edit's span replaced by its text.
pub open spec fn spec_apply(source: Seq<u8>, edits: Seq<Edit>) -> Seq<char> {
    let cursor = if edits.len() == 0 {
        0
    } else {
        edits.last().end as int
    };
    applied_upto(source, edits, edits.len() as int) + lossy_chars(
        source.subrange(cursor, source.len() as int),
    )
}

/// Apply edits to source. They must be disjoint and in order, as planning
/// leaves them.
pub fn apply(source: &[u8], edits: &[Edit]) -> (r: String)
    requires
        ordered_edits(edits@, source@.len() as int),
    ensures
        r@ == spec_apply(source@, edits@),
{
    let mut out = String::new();
    let mut cursor: usize = 0;
    let mut k: usize = 0;
    while k < edits.len()
        invariant
            k <= edits@.len(),
            ordered_edits(edits@, source@.len() as int),
            out@ == applied_upto(source@, edits@, k as int),
            cursor == (if k == 0 {
                0
            } else {
                edits@[k - 1].end as int
            }),
            cursor <= source@.len(),
        decreases edits@.len() - k,
    {
        let edit = &edits[k];
        let piece = lossy_string(&source[cursor..edit.start]);
        out.append(piece.as_str());
        out.append(edit.text.as_str());
        cursor = edit.end;
        k += 1;
    }
    let tail = lossy_string(&source[cursor..source.len()]);
    out.append(tail.as_str());
    out
}

/// How far an edit moves what follows it: its text's length less the length
/// of the span it replaces.
pub open spec fn edit_delta(e: Edit) -> int {
    vstd::utf8::encode_utf8(e.text@).len() - (e.end - e.start)
}

/// The displacement of `offset` by the first `k` edits that finish at or
/// before it.
pub open spec fn delta_upto(edits: Seq<Edit>, offset: int, k: int) -> int
    decreases k,
{
    if k <= 0 {
        0
    } else {
        delta_upto(edits, offset, k - 1) + if edits[k - 1].end <= offset {
            edit_delta(edits[k - 1])
        } else {
            0
        }
    }
}

/// Where an offset lands once the edits are applied, never below 0.
pub open spec fn spec_shifted(edits: Seq<Edit>, offset: int) -> int {
    let moved = offset + delta_upto(edits, offset, edits.len() as int);
    if moved < 0 {
        0
    } else {
        moved
    }
}

/// Where an offset lands once `edits` are applied: displaced by every edit
/// that finishes at or before it, the site's own edits included.
pub fn shifted(edits: &[Edit], offset: usize) -> (r: usize)
    requires
        edits@.len() < 0x4000_0000_0000_0000,
        forall|k: int| 0 <= k < edits@.len() ==> (#[trigger] edits@[k]).start <= edits@[k].end,
        spec_shifted(edits@, offset as int) <= usize::MAX,
    ensures
        r == spec_shifted(edits@, offset as int),
{
    let mut delta: i128 = 0;
    let mut k: usize = 0;
    while k < edits.len()
        invariant
            k <= edits@.len() < 0x4000_0000_0000_0000,
            forall|j: int| 0 <= j < edits@.len() ==> (#[trigger] edits@[j]).start <= edits@[j].end,
            delta == delta_upto(edits@, offset as int, k as int),
            -(k * 0x1_0000_0000_0000_0000) <= delta <= k * 0x1_0000_0000_0000_0000,
        decreases edits@.len() - k,
    {
        let e = &edits[k];
        if e.end <= offset {
            let added = e.text.as_str().as_bytes().len();
            let removed = e.end - e.start;
            assert(added == vstd::utf8::encode_utf8(e.text@).len());
            assert(edit_delta(edits@[k as int]) == added - removed);
            delta = delta + added as i128 - removed as i128;
        }
        k += 1;
    }
    let moved: i128 = offset as i128 + delta;
    if moved < 0 {
        0
    } else {
        moved as usize
    }
}

/// Where an offset lands once `edits` are applied, or nothing when that
/// lies past what a `usize` holds.
pub fn shifted_checked(edits: &[Edit], offset: usize) -> (r: Option<usize>)
    requires
        edits@.len() < 0x4000_0000_0000_0000,
        forall|k: int| 0 <= k < edits@.len() ==> (#[trigger] edits@[k]).start <= edits@[k].end,
    ensures
        match r {
            Some(x) => x == spec_shifted(edits@, offset as int),
            None => spec_shifted(edits@, offset as int) > usize::MAX,
        },
{
    let mut delta: i128 = 0;
    let mut k: usize = 0;
    while k < edits.len()
        invariant
            k <= edits@.len() < 0x4000_0000_0000_0000,
            forall|j: int| 0 <= j < edits@.len() ==> (#[trigger] edits@[j]).start <= edits@[j].end,
            delta == delta_upto(edits@, offset as int, k as int),
            -(k * 0x1_0000_0000_0000_0000) <= delta <= k * 0x1_0000_0000_0000_0000,
        decreases edits@.len() - k,
    {
        let e = &edits[k];
        if e.end <= offset {
            let added = e.text.as_str().as_bytes().len();
            let removed = e.end - e.start;
            assert(added == vstd::utf8::encode_utf8(e.text@).len());
            assert(edit_delta(edits@[k as int]) == added - removed);
            delta = delta + added as i128 - removed as i128;
        }
        k += 1;
    }
    let moved: i128 = offset as i128 + delta;
    if moved < 0 {
        Some(0)
    } else if moved > usize::MAX as i128 {
        None
    } else {
        Some(moved as usize)
    }
}

/// A byte that may start an identifier.
pub open spec fn spec_ident_start(b: u8) -> bool {
    spec_alpha(b) || b == 95
}

/// A byte that may continue an identifier.
pub open spec fn spec_ident_byte(b: u8) -> bool {
    spec_alnum(b) || b == 95
}

pub fn is_ident_start(b: u8) -> (r: bool)
    ensures
        r == spec_ident_start(b),
{
    crate::text::is_alpha_byte(b) || b == 95
}

pub fn is_ident_byte(b: u8) -> (r: bool)
    ensures
        r == spec_ident_byte(b),
{
    crate::text::is_alnum(b) || b == 95
}

/// The end of a run of identifier bytes from `k`.
pub open spec fn ident_end(b: Seq<u8>, k: int) -> int
    decreases b.len() - k,
{
    if 0 <= k < b.len() && spec_ident_byte(b[k]) {
        ident_end(b, k + 1)
    } else {
        k
    }
}

/// A `.name` suffix directly after position `at` of a template: the name,
/// and where it ends. The name is a run of letters, digits and `_`.
pub open spec fn spec_transform_suffix(t: Seq<u8>, at: int) -> Option<(Seq<u8>, int)> {
    if 0 <= at < t.len() && crate::text::starts_char(t, at) && t[at] == 46 && ident_end(t, at + 1) > at + 1 {
        Some((t.subrange(at + 1, ident_end(t, at + 1)), ident_end(t, at + 1)))
    } else {
        None
    }
}

pub proof fn lemma_ident_end(b: Seq<u8>, k: int)
    requires
        0 <= k <= b.len(),
    ensures
        k <= ident_end(b, k) <= b.len(),
        forall|i: int| k <= i < ident_end(b, k) ==> spec_ident_byte(#[trigger] b[i]),
        ident_end(b, k) < b.len() ==> !spec_ident_byte(b[ident_end(b, k)]),
    decreases b.len() - k,
{
    if k < b.len() && spec_ident_byte(b[k]) {
        lemma_ident_end(b, k + 1);
    }
}

/// A `.name` suffix directly after a metavariable in a template, such as the
/// `sort` of `*$ITEMS.sort`, and where it ends.
pub fn transform_suffix(template: &str, at: usize) -> (r: Option<(&str, usize)>)
    ensures
        match (r, spec_transform_suffix(template.spec_bytes(), at as int)) {
            (None, None) => true,
            (Some((name, end)), Some((sname, send))) => name.spec_bytes() == sname && end == send,
            _ => false,
        },
{
    let b = template.as_bytes();
    let n = b.len();
    if at >= n {
        return None;
    }
    if at > 0 && b[at] >= 128 && b[at] < 192 {
        return None;
    }
    if b[at] != 46 {
        return None;
    }
    let mut e = at + 1;
    while e < n && is_ident_byte(b[e])
        invariant
            at + 1 <= e <= n == b@.len(),
            ident_end(b@, at + 1) == ident_end(b@, e as int),
        decreases n - e,
    {
        e += 1;
    }
    if e == at + 1 {
        return None;
    }
    proof {
        lemma_ident_end(b@, at + 1);
        crate::text::lemma_ascii_splits(template@, at as int);
        crate::text::lemma_ascii_splits(template@, e - 1);
    }
    let name = slice_str(template, at + 1, e);
    Some((name, e))
}

/// Whether the rewritten source still parses.
pub open spec fn spec_verify(rewritten: Seq<u8>) -> Result<(), Seq<char>> {
    match prism_first_error(rewritten) {
        None => Ok(()),
        Some((message, _)) => Err(message),
    }
}

/// Reparse the rewritten source and refuse the whole transformation if it no
/// longer parses: the backstop for range arithmetic.
pub fn verify(rewritten: &str) -> (r: Result<(), Refusal>)
    ensures
        match spec_verify(rewritten.spec_bytes()) {
            Ok(()) => r is Ok,
            Err(m) => r matches Err(Refusal::VerifyFailed { message }) && message@ == m,
        },
{
    match first_parse_error(rewritten.as_bytes()) {
        None => Ok(()),
        Some((message, _)) => Err(Refusal::VerifyFailed { message }),
    }
}

/// A placeholder word's metavariable, if the word is a placeholder: `Some`
/// of its name, which is `None` for an anonymous one.
pub open spec fn binding_of(bindings: Seq<(String, Binding)>, word: Seq<char>) -> Option<Option<Seq<char>>>
    decreases bindings.len(),
{
    if bindings.len() == 0 {
        None
    } else if bindings[0].0@ == word {
        Some(crate::metavar::string_opt_view(bindings[0].1.name))
    } else {
        binding_of(bindings.drop_first(), word)
    }
}

/// A fragment with its placeholders written back as `$NAME` from `i` on,
/// appended to `out`; every other byte is kept, one character per byte.
pub open spec fn restore_from(b: Seq<u8>, i: int, bindings: Seq<(String, Binding)>, out: Seq<char>) -> Option<Seq<char>>
    decreases b.len() - i,
{
    if i < 0 || i >= b.len() {
        Some(out)
    } else if !spec_ident_start(b[i]) {
        restore_from(b, i + 1, bindings, out.push(b[i] as char))
    } else {
        let e = ident_end(b, i);
        let word = crate::text::ascii_chars(b.subrange(i, e));
        if e <= i {
            None
        } else {
            proof {
                lemma_ident_end(b, i);
            }
            match binding_of(bindings, word) {
                None => restore_from(b, e, bindings, out + word),
                Some(None) => None,
                Some(Some(name)) => restore_from(b, e, bindings, out + seq!['$'] + name),
            }
        }
    }
}

fn lookup<'a>(bindings: &'a Vec<(String, Binding)>, word: &str) -> (r: Option<&'a Binding>)
    ensures
        match r {
            None => binding_of(bindings@, word@) is None,
            Some(b) => binding_of(bindings@, word@) == Some(crate::metavar::string_opt_view(b.name)),
        },
{
    let mut k: usize = 0;
    assert(bindings@.skip(0) =~= bindings@);
    while k < bindings.len()
        invariant
            k <= bindings@.len(),
            binding_of(bindings@, word@) == binding_of(bindings@.skip(k as int), word@),
        decreases bindings@.len() - k,
    {
        proof {
            assert(bindings@.skip(k as int).drop_first() =~= bindings@.skip(k + 1));
        }
        if crate::text::str_eq(bindings[k].0.as_str(), word) {
            return Some(&bindings[k].1);
        }
        k += 1;
    }
    None
}

/// Turn placeholder identifiers back into `$NAME` spelling. `None` when a
/// placeholder is anonymous, since there is no name to write.
pub fn restore(fragment: &str, prepared: &Prepared) -> (r: Option<String>)
    ensures
        match r {
            Some(s) => restore_from(fragment.spec_bytes(), 0, prepared.bindings@, Seq::empty()) == Some(s@),
            None => restore_from(fragment.spec_bytes(), 0, prepared.bindings@, Seq::empty()) is None,
        },
{
    let b = fragment.as_bytes();
    let n = b.len();
    let mut out = String::new();
    let mut i: usize = 0;
    while i < n
        invariant
            i <= n == b@.len(),
            b@ == fragment.spec_bytes(),
            restore_from(b@, i as int, prepared.bindings@, out@) == restore_from(
                b@,
                0,
                prepared.bindings@,
                Seq::empty(),
            ),
        decreases n - i,
    {
        if !is_ident_start(b[i]) {
            let one = char_string(b[i] as char);
            let ghost before = out@;
            out.append(one.as_str());
            proof {
                assert(out@ =~= before.push(b@[i as int] as char));
            }
            i += 1;
        } else {
            let start = i;
            while i < n && is_ident_byte(b[i])
                invariant
                    start <= i <= n,
                    n == b@.len(),
                    ident_end(b@, start as int) == ident_end(b@, i as int),
                decreases n - i,
            {
                i += 1;
            }
            proof {
                lemma_ident_end(b@, start as int);
                crate::text::lemma_ascii_splits(fragment@, start as int);
                crate::text::lemma_ascii_splits(fragment@, i - 1);
            }
            let word = slice_str(fragment, start, i);
            proof {
                assert(crate::text::is_ascii_bytes(b@.subrange(start as int, i as int)));
                assert(word@ == crate::text::ascii_chars(b@.subrange(start as int, i as int))) by {
                    lemma_ascii_decode(b@.subrange(start as int, i as int));
                }
            }
            match lookup(&prepared.bindings, word) {
                None => {
                    out.append(word);
                },
                Some(binding) => match &binding.name {
                    None => {
                        return None;
                    },
                    Some(name) => {
                        proof {
                            reveal_strlit("$");
                        }
                        let ghost before = out@;
                        out.append("$");
                        out.append(name.as_str());
                        proof {
                            assert(out@ =~= before + seq!['$'] + name@);
                        }
                    },
                },
            }
        }
    }
    Some(out)
}

/// `char::to_string`: the one character as a string.
#[verifier::external_body]
fn char_string(c: char) -> (s: String)
    ensures
        s@ == seq![c],
{
    c.to_string()
}

/// ASCII bytes decode to one character each.
pub proof fn lemma_ascii_decode(b: Seq<u8>)
    requires
        crate::text::is_ascii_bytes(b),
    ensures
        vstd::utf8::decode_utf8(b) == crate::text::ascii_chars(b),
{
    let c = crate::text::ascii_chars(b);
    assert(vstd::utf8::is_ascii_chars(c));
    vstd::utf8::is_ascii_chars_encode_utf8(c);
    assert(vstd::utf8::encode_utf8(c) =~= b);
    vstd::utf8::encode_utf8_decode_utf8(c);
}

} // verus!

verus! {

/// A matched node's extent: where it starts, where its own location ends,
/// and where its content truly ends. A heredoc's body sits past the node's
/// own location, so the two ends differ exactly when the node holds one.
#[derive(Debug, Clone, Copy, PartialEq, Eq)]
pub struct Span {
    pub start: usize,
    pub own_end: usize,
    pub end: usize,
}

/// What a metavariable bound in a match: one node, a run of nodes, or a bare
/// name.
#[derive(Debug)]
pub enum Bound {
    One(Span),
    Many(Vec<Span>),
    Name(Vec<u8>),
}

/// The binding of `name`, the first where there are several.
pub open spec fn env_get(env: Seq<(String, Bound)>, name: Seq<char>) -> Option<Bound>
    decreases env.len(),
{
    if env.len() == 0 {
        None
    } else if env[0].0@ == name {
        Some(env[0].1)
    } else {
        env_get(env.drop_first(), name)
    }
}

/// A bound node lies within the source; a run's first node starts no later
/// than its last ends.
pub open spec fn bound_fits(s: Seq<u8>, b: Bound) -> bool {
    match b {
        Bound::One(sp) => sp.start <= sp.end <= s.len(),
        Bound::Many(v) => {
            &&& forall|i: int| #![trigger v@[i]] 0 <= i < v@.len() ==> v@[i].start <= v@[i].end <= s.len()
            &&& v@.len() > 0 ==> v@[0].start <= v@.last().end
        },
        Bound::Name(_) => true,
    }
}

pub open spec fn env_fits(s: Seq<u8>, env: Seq<(String, Bound)>) -> bool {
    forall|i: int| #![trigger env[i]] 0 <= i < env.len() ==> bound_fits(s, env[i].1)
}

proof fn lemma_env_get_fits(s: Seq<u8>, env: Seq<(String, Bound)>, name: Seq<char>)
    requires
        env_fits(s, env),
    ensures
        env_get(env, name) matches Some(b) ==> bound_fits(s, b),
    decreases env.len(),
{
    if env.len() > 0 {
        assert(bound_fits(s, env[0].1));
        assert forall|i: int| #![trigger env.drop_first()[i]] 0 <= i < env.drop_first().len() implies bound_fits(
            s,
            env.drop_first()[i].1,
        ) by {
            assert(env.drop_first()[i] == env[i + 1]);
        }
        lemma_env_get_fits(s, env.drop_first(), name);
    }
}

pub(crate) fn bound_of<'a>(env: &'a Vec<(String, Bound)>, name: &str) -> (r: Option<&'a Bound>)
    ensures
        match r {
            None => env_get(env@, name@) is None,
            Some(b) => env_get(env@, name@) == Some(*b),
        },
{
    let mut k: usize = 0;
    assert(env@.skip(0) =~= env@);
    while k < env.len()
        invariant
            k <= env@.len(),
            env_get(env@, name@) == env_get(env@.skip(k as int), name@),
        decreases env@.len() - k,
    {
        proof {
            assert(env@.skip(k as int).drop_first() =~= env@.skip(k + 1));
        }
        if str_eq(env[k].0.as_str(), name) {
            return Some(&env[k].1);
        }
        k += 1;
    }
    None
}

/// Where the first node from `k` on that holds a heredoc starts.
pub open spec fn first_discontiguous(v: Seq<Span>, k: int) -> Option<int>
    decreases v.len() - k,
{
    if k < 0 || k >= v.len() {
        None
    } else if v[k].end > v[k].own_end {
        Some(v[k].start as int)
    } else {
        first_discontiguous(v, k + 1)
    }
}

/// The source span a capture stands for, or where a heredoc makes it
/// impossible to splice by range. A run spans from its first node to its
/// last, so the separators and layout the author wrote survive.
pub open spec fn spec_captured(b: Bound) -> Result<Option<(int, int)>, int> {
    match b {
        Bound::One(sp) => if sp.end > sp.own_end {
            Err(sp.start as int)
        } else {
            Ok(Some((sp.start as int, sp.end as int)))
        },
        Bound::Many(v) => match first_discontiguous(v@, 0) {
            Some(at) => Err(at),
            None => if v@.len() == 0 {
                Ok(None)
            } else {
                Ok(Some((v@[0].start as int, v@.last().end as int)))
            },
        },
        Bound::Name(_) => Ok(None),
    }
}

/// The source text a capture stands for, with its original formatting. A
/// capture holding a heredoc is refused: its body lies outside the
/// expression, and splicing by range would drag surrounding text along.
pub fn captured_text<'a>(bound: &Bound, source: &'a [u8]) -> (r: Result<Option<&'a [u8]>, Refusal>)
    requires
        bound_fits(source@, *bound),
    ensures
        match spec_captured(*bound) {
            Err(at) => r matches Err(Refusal::DiscontiguousCapture { at: a }) && a == at,
            Ok(None) => r matches Ok(None),
            Ok(Some((a, e))) => r matches Ok(Some(text)) && text@ == source@.subrange(a, e),
        },
{
    match bound {
        Bound::One(sp) => {
            if sp.end > sp.own_end {
                return Err(Refusal::DiscontiguousCapture { at: sp.start });
            }
            Ok(Some(&source[sp.start..sp.end]))
        },
        Bound::Many(nodes) => {
            assert(spec_captured(*bound) == spec_captured(Bound::Many(*nodes)));
            let mut k: usize = 0;
            while k < nodes.len()
                invariant
                    k <= nodes@.len(),
                    spec_captured(*bound) == spec_captured(Bound::Many(*nodes)),
                    first_discontiguous(nodes@, 0) == first_discontiguous(nodes@, k as int),
                decreases nodes@.len() - k,
            {
                if nodes[k].end > nodes[k].own_end {
                    assert(first_discontiguous(nodes@, k as int) == Some(nodes@[k as int].start as int));
                    return Err(Refusal::DiscontiguousCapture { at: nodes[k].start });
                }
                k += 1;
            }
            if nodes.len() == 0 {
                return Ok(None);
            }
            let first = nodes[0].start;
            let last = nodes[nodes.len() - 1].end;
            assert(nodes@[nodes@.len() - 1] == nodes@.last());
            Ok(Some(&source[first..last]))
        },
        Bound::Name(_) => Ok(None),
    }
}

/// The element spans of a run, for reordering; none for anything else.
pub open spec fn many_spans(b: Option<Bound>) -> Seq<(usize, usize)> {
    match b {
        Some(Bound::Many(v)) => v@.map_values(|sp: Span| (sp.start, sp.end)),
        _ => Seq::empty(),
    }
}

fn spans_of(bound: Option<&Bound>) -> (r: Vec<(usize, usize)>)
    ensures
        r@ == many_spans(match bound {
            Some(b) => Some(*b),
            None => None,
        }),
{
    let mut out: Vec<(usize, usize)> = Vec::new();
    match bound {
        Some(Bound::Many(nodes)) => {
            let mut k: usize = 0;
            while k < nodes.len()
                invariant
                    k <= nodes@.len(),
                    out@ == nodes@.take(k as int).map_values(|sp: Span| (sp.start, sp.end)),
                decreases nodes@.len() - k,
            {
                out.push((nodes[k].start, nodes[k].end));
                proof {
                    assert(nodes@.take(k + 1).map_values(|sp: Span| (sp.start, sp.end)) =~= nodes@.take(
                        k as int,
                    ).map_values(|sp: Span| (sp.start, sp.end)).push((nodes@[k as int].start, nodes@[k as int].end)));
                }
                k += 1;
            }
            proof {
                assert(nodes@.take(nodes@.len() as int) =~= nodes@);
            }
        },
        _ => {},
    }
    out
}

/// What a metavariable's own binding renders as: a bare name as its text, a
/// capture as its source text.
pub open spec fn spec_replacement(b: Option<Bound>, s: Seq<u8>) -> Result<Option<Seq<char>>, int> {
    match b {
        None => Ok(None),
        Some(Bound::Name(bytes)) => Ok(Some(lossy_chars(bytes@))),
        Some(bound) => match spec_captured(bound) {
            Err(at) => Err(at),
            Ok(None) => Ok(None),
            Ok(Some((a, e))) => Ok(Some(lossy_chars(s.subrange(a, e)))),
        },
    }
}

/// The span to replace for an empty sequence at `start..end`, widened over
/// the separator that would otherwise dangle: a comma before it (whitespace
/// between allowed), or else a comma after it and the whitespace following.
pub open spec fn spec_drop_separator(t: Seq<u8>, start: int, end: int) -> (int, int) {
    let trimmed = encode_utf8(spec_trim_end(decode_utf8(t.subrange(0, start))));
    if trimmed.len() > 0 && trimmed.last() == 44 {
        (trimmed.len() - 1, end)
    } else {
        let stripped = encode_utf8(spec_trim_start(decode_utf8(t.subrange(end, t.len() as int))));
        if stripped.len() > 0 && stripped[0] == 44 {
            (start, t.len() - encode_utf8(spec_trim_start(decode_utf8(stripped.drop_first()))).len())
        } else {
            (start, end)
        }
    }
}

fn drop_separator(template: &str, start: usize, end: usize) -> (r: (usize, usize))
    requires
        start <= end <= template.spec_bytes().len(),
        starts_char(template.spec_bytes(), start as int),
        starts_char(template.spec_bytes(), end as int),
    ensures
        (r.0 as int, r.1 as int) == spec_drop_separator(template.spec_bytes(), start as int, end as int),
        r.0 <= template.spec_bytes().len(),
        r.1 <= template.spec_bytes().len(),
        starts_char(template.spec_bytes(), r.0 as int),
        starts_char(template.spec_bytes(), r.1 as int),
{
    let ghost t = template.spec_bytes();
    let head = slice_str(template, 0, start);
    let trimmed = trim_end(head);
    proof {
        crate::text::lemma_trim_end_prefix(head@);
        crate::text::lemma_encode_take(head@, trimmed@.len() as int);
        vstd::utf8::encode_utf8_decode_utf8(head@);
        assert(head.spec_bytes() == t.subrange(0, start as int));
    }
    let tb = trimmed.as_bytes();
    if tb.len() > 0 && tb[tb.len() - 1] == 44 {
        proof {
            assert(t[tb@.len() - 1] == tb@[tb@.len() - 1]);
            crate::text::lemma_ascii_splits(template@, tb@.len() - 1);
        }
        return (tb.len() - 1, end);
    }
    let n = template.as_bytes().len();
    let tail = slice_str(template, end, n);
    let stripped = trim_start(tail);
    proof {
        crate::text::lemma_trim_start_suffix(tail@);
        crate::text::lemma_encode_skip(tail@, tail@.len() - stripped@.len());
        vstd::utf8::encode_utf8_decode_utf8(tail@);
        let tb2 = tail.spec_bytes();
        assert(tb2 == t.subrange(end as int, n as int));
        assert(stripped.spec_bytes() == tb2.subrange(tb2.len() - stripped.spec_bytes().len(), tb2.len() as int));
    }
    let sb = stripped.as_bytes();
    if sb.len() > 0 && sb[0] == 44 {
        proof {
            crate::text::lemma_ascii_splits(stripped@, 0);
        }
        let rest = slice_str(stripped, 1, sb.len());
        let rest_trimmed = trim_start(rest);
        proof {
            assert(sb@.subrange(1, sb@.len() as int) =~= sb@.drop_first());
            crate::text::lemma_trim_start_suffix(rest@);
            crate::text::lemma_encode_skip(rest@, rest@.len() - rest_trimmed@.len());
            vstd::utf8::encode_utf8_decode_utf8(rest@);
            let rb = rest_trimmed.spec_bytes();
            let restb = rest.spec_bytes();
            assert(restb == sb@.subrange(1, sb@.len() as int));
            assert(rb == restb.subrange(restb.len() - rb.len(), restb.len() as int));
            assert forall|i: int| 0 <= i < rb.len() implies rb[i] == t[n - rb.len() + i] by {
                assert(rb[i] == restb[restb.len() - rb.len() + i]);
                assert(restb[restb.len() - rb.len() + i] == sb@[restb.len() - rb.len() + i + 1]);
            }
            assert(rb =~= t.subrange(n - rb.len(), n as int));
            if rb.len() > 0 {
                vstd::utf8::encode_utf8_valid_utf8(rest_trimmed@);
                crate::text::lemma_valid_first(rb);
                assert(t[n - rb.len()] == rb[0]);
            }
        }
        return (start, n - rest_trimmed.as_bytes().len());
    }
    (start, end)
}

/// A refusal, as the specification speaks of it.
pub enum Refused {
    Unknown(Seq<char>),
    Ambiguous,
    Discontiguous(int),
}

pub open spec fn refused_as(r: Refusal, f: Refused) -> bool {
    match f {
        Refused::Unknown(name) => r matches Refusal::UnknownTransform { name: n } && n@ == name,
        Refused::Ambiguous => r is AmbiguousComment,
        Refused::Discontiguous(at) => r matches Refusal::DiscontiguousCapture { at: a } && a == at,
    }
}

/// What a metavariable of the template is bound to.
pub open spec fn var_bound(env: Seq<(String, Bound)>, v: SpecMetavar) -> Option<Bound> {
    match v.name {
        Some(n) => env_get(env, ascii_chars(n)),
        None => None,
    }
}

/// The transform a sequence metavariable's `.name` suffix asks for, with the
/// suffix, if the metavariable has one.
pub open spec fn var_suffix(t: Seq<u8>, v: SpecMetavar) -> Option<(Seq<u8>, int)> {
    if v.arity == Arity::Many {
        spec_transform_suffix(t, v.end)
    } else {
        None
    }
}

/// One metavariable's part of a rendered template: the template text before
/// it and what it becomes, appended to `out`, and where the template
/// resumes. A transform is recognised only on a sequence: on a single
/// capture `$X.sort` is ordinary output. An empty sequence takes a separator
/// that would dangle with it.
pub open spec fn spec_var_step(
    t: Seq<u8>,
    v: SpecMetavar,
    env: Seq<(String, Bound)>,
    s: Seq<u8>,
    inner: (usize, usize),
    out: Seq<char>,
    cursor: int,
) -> Result<(Seq<char>, int), Refused> {
    let bound = var_bound(env, v);
    let transformed: Result<Option<(Seq<char>, int)>, Refused> = match var_suffix(t, v) {
        None => Ok(None),
        Some((name, after)) => match spec_transform(decode_utf8(name)) {
            None => Err(Refused::Unknown(decode_utf8(name))),
            Some(tr) => match spec_render(s, many_spans(bound), tr, inner) {
                None => Err(Refused::Ambiguous),
                Some(text) => Ok(Some((text, after))),
            },
        },
    };
    match transformed {
        Err(e) => Err(e),
        Ok(tx) => match spec_replacement(bound, s) {
            Err(at) => Err(Refused::Discontiguous(at)),
            Ok(repl) => {
                let (text, start, end) = match tx {
                    Some((text, after)) => (text, v.start, after),
                    None => match repl {
                        Some(text) => (text, v.start, v.end),
                        None => if v.arity == Arity::Many {
                            let (a, b) = spec_drop_separator(t, v.start, v.end);
                            (Seq::<char>::empty(), a, b)
                        } else {
                            (Seq::<char>::empty(), v.start, v.end)
                        },
                    },
                };
                let upto = if start > cursor {
                    start
                } else {
                    cursor
                };
                Ok((out + decode_utf8(t.subrange(cursor, upto)) + text, end))
            },
        },
    }
}

/// The template rendered from the `k`th metavariable on.
pub open spec fn render_from(
    t: Seq<u8>,
    vars: Seq<SpecMetavar>,
    k: int,
    env: Seq<(String, Bound)>,
    s: Seq<u8>,
    inner: (usize, usize),
    out: Seq<char>,
    cursor: int,
) -> Result<Seq<char>, Refused>
    decreases vars.len() - k,
{
    if k < 0 || k >= vars.len() {
        Ok(out + decode_utf8(t.subrange(cursor, t.len() as int)))
    } else {
        match spec_var_step(t, vars[k], env, s, inner, out, cursor) {
            Err(e) => Err(e),
            Ok((o, c)) => render_from(t, vars, k + 1, env, s, inner, o, c),
        }
    }
}

/// A rewrite template rendered against one match: each metavariable
/// replaced by what it captured, as the source spelled it, and the template
/// everywhere else.
pub open spec fn spec_render_template(t: Seq<u8>, env: Seq<(String, Bound)>, s: Seq<u8>, inner: (usize, usize)) -> Result<Seq<char>, Refused> {
    render_from(t, spec_scan(t), 0, env, s, inner, Seq::empty(), 0)
}

/// A template with no metavariables renders as itself, whatever the match
/// bound.
pub proof fn law_a_template_without_metavariables_renders_as_itself(
    t: Seq<char>,
    env: Seq<(String, Bound)>,
    s: Seq<u8>,
    inner: (usize, usize),
)
    requires
        spec_scan(encode_utf8(t)).len() == 0,
    ensures
        spec_render_template(encode_utf8(t), env, s, inner) == Ok::<Seq<char>, Refused>(t),
{
    let b = encode_utf8(t);
    assert(b.subrange(0, b.len() as int) =~= b);
    vstd::utf8::encode_utf8_decode_utf8(t);
    assert(Seq::<char>::empty() + t =~= t);
}

/// Every sequence the template reorders can be reordered.
pub open spec fn template_renderable(t: Seq<u8>, env: Seq<(String, Bound)>, s: Seq<u8>, inner: (usize, usize)) -> bool {
    forall|k: int|
        #![trigger spec_scan(t)[k]]
        0 <= k < spec_scan(t).len() ==> (var_suffix(t, spec_scan(t)[k]) matches Some((name, _))
            && spec_transform(decode_utf8(name)) is Some ==> renderable(
            s,
            many_spans(var_bound(env, spec_scan(t)[k])),
            inner,
        ))
}

fn render_var(
    template: &str,
    var: &Metavar,
    env: &Vec<(String, Bound)>,
    source: &[u8],
    inner: (usize, usize),
    out: &mut String,
    cursor: usize,
    Ghost(v): Ghost<SpecMetavar>,
) -> (r: Result<usize, Refusal>)
    requires
        var.is(v),
        0 <= v.start < v.end <= template.spec_bytes().len(),
        template.spec_bytes()[v.start] < 128,
        template.spec_bytes()[v.end - 1] < 128,
        cursor <= template.spec_bytes().len(),
        starts_char(template.spec_bytes(), cursor as int),
        env_fits(source@, env@),
        var_suffix(template.spec_bytes(), v) matches Some((name, _)) && spec_transform(decode_utf8(name)) is Some
            ==> renderable(source@, many_spans(var_bound(env@, v)), inner),
    ensures
        match spec_var_step(template.spec_bytes(), v, env@, source@, inner, old(out)@, cursor as int) {
            Ok((o, c)) => r matches Ok(c2) && c2 == c && final(out)@ == o && c <= template.spec_bytes().len()
                && starts_char(template.spec_bytes(), c),
            Err(e) => r matches Err(x) && refused_as(x, e),
        },
{
    let ghost t = template.spec_bytes();
    proof {
        crate::text::lemma_ascii_splits(template@, v.start);
        crate::text::lemma_ascii_splits(template@, v.end - 1);
    }
    let bound: Option<&Bound> = match &var.name {
        Some(n) => bound_of(env, n.as_str()),
        None => None,
    };
    proof {
        lemma_env_get_fits(source@, env@, match v.name { Some(n) => ascii_chars(n), None => Seq::empty() });
    }
    let mut start = var.start;
    let mut end = var.end;
    let mut transformed: Option<String> = None;
    if var.arity == Arity::Many {
        match transform_suffix(template, var.end) {
            Some((name, after)) => {
                proof {
                    vstd::utf8::encode_utf8_decode_utf8(name@);
                    lemma_ident_end(t, v.end + 1);
                    crate::text::lemma_ascii_splits(template@, after - 1);
                }
                match Transform::parse(name) {
                    None => {
                        return Err(Refusal::UnknownTransform { name: owned(name) });
                    },
                    Some(tr) => {
                        let spans = spans_of(bound);
                        match crate::rewrite::sequence::render(source, spans.as_slice(), tr, inner) {
                            None => {
                                return Err(Refusal::AmbiguousComment);
                            },
                            Some(text) => {
                                transformed = Some(text);
                                end = after;
                            },
                        }
                    },
                }
            },
            None => {},
        }
    }
    let replacement: Option<String> = match bound {
        None => None,
        Some(Bound::Name(bytes)) => Some(lossy_string(bytes.as_slice())),
        Some(b) => match captured_text(b, source) {
            Err(e) => {
                return Err(e);
            },
            Ok(None) => None,
            Ok(Some(text)) => Some(lossy_string(text)),
        },
    };
    let text = match transformed {
        Some(x) => x,
        None => match replacement {
            Some(x) => x,
            None => {
                if var.arity == Arity::Many {
                    let (a, b) = drop_separator(template, var.start, end);
                    start = a;
                    end = b;
                }
                String::new()
            },
        },
    };
    let upto = if start > cursor {
        start
    } else {
        cursor
    };
    append_str(out, slice_str(template, cursor, upto));
    append_str(out, text.as_str());
    Ok(end)
}

/// Render a rewrite template against a match: each metavariable replaced by
/// the source text it captured, which keeps its exact formatting, and the
/// template everywhere else. `inner` is the inside of the matched node's
/// delimiters, for reordering a sequence.
pub fn render(template: &str, env: &Vec<(String, Bound)>, source: &[u8], inner: (usize, usize)) -> (r: Result<String, Refusal>)
    requires
        env_fits(source@, env@),
        template_renderable(template.spec_bytes(), env@, source@, inner),
    ensures
        match spec_render_template(template.spec_bytes(), env@, source@, inner) {
            Ok(text) => r matches Ok(x) && x@ == text,
            Err(e) => r matches Err(x) && refused_as(x, e),
        },
{
    let ghost t = template.spec_bytes();
    let ghost ms = spec_scan(t);
    let vars = crate::metavar::scan(template);
    proof {
        lemma_scan_ascii(t, 0);
    }
    let mut out = String::new();
    let mut cursor: usize = 0;
    let mut k: usize = 0;
    while k < vars.len()
        invariant
            k <= vars@.len() == ms.len(),
            ms == spec_scan(t),
            t == template.spec_bytes(),
            forall|j: int| 0 <= j < vars@.len() ==> #[trigger] vars@[j].is(ms[j]),
            crate::metavar::well_placed(ms, 0, t.len() as int),
            forall|j: int| 0 <= j < ms.len() ==> t[(#[trigger] ms[j]).start] < 128 && t[ms[j].end - 1] < 128,
            env_fits(source@, env@),
            template_renderable(t, env@, source@, inner),
            cursor <= t.len(),
            starts_char(t, cursor as int),
            spec_render_template(t, env@, source@, inner) == render_from(t, ms, k as int, env@, source@, inner, out@, cursor as int),
        decreases vars@.len() - k,
    {
        let ghost v = ms[k as int];
        assert(vars@[k as int].is(v));
        assert(0 <= v.start < v.end <= t.len());
        match render_var(template, &vars[k], env, source, inner, &mut out, cursor, Ghost(v)) {
            Err(e) => {
                return Err(e);
            },
            Ok(c) => {
                cursor = c;
            },
        }
        k += 1;
    }
    let n = template.as_bytes().len();
    append_str(&mut out, slice_str(template, cursor, n));
    Ok(out)
}

/// Whether every sequence the template reorders can be reordered against
/// this match: checked, not assumed.
pub fn can_render_template(template: &str, env: &Vec<(String, Bound)>, source: &[u8], inner: (usize, usize)) -> (r: bool)
    ensures
        r == template_renderable(template.spec_bytes(), env@, source@, inner),
{
    let ghost t = template.spec_bytes();
    let ghost ms = spec_scan(t);
    let vars = crate::metavar::scan(template);
    let mut k: usize = 0;
    while k < vars.len()
        invariant
            k <= vars@.len() == ms.len(),
            ms == spec_scan(t),
            t == template.spec_bytes(),
            forall|j: int| 0 <= j < vars@.len() ==> #[trigger] vars@[j].is(ms[j]),
            forall|j: int|
                0 <= j < k ==> (var_suffix(t, #[trigger] ms[j]) matches Some((name, _)) && spec_transform(
                    decode_utf8(name),
                ) is Some ==> renderable(source@, many_spans(var_bound(env@, ms[j])), inner)),
        decreases vars@.len() - k,
    {
        let ghost v = ms[k as int];
        assert(vars@[k as int].is(v));
        let var = &vars[k];
        if var.arity == Arity::Many {
            match transform_suffix(template, var.end) {
                Some((name, _)) => {
                    proof {
                        vstd::utf8::encode_utf8_decode_utf8(name@);
                    }
                    if Transform::parse(name).is_some() {
                        let bound: Option<&Bound> = match &var.name {
                            Some(n) => bound_of(env, n.as_str()),
                            None => None,
                        };
                        let spans = spans_of(bound);
                        if !crate::rewrite::sequence::can_render(source, spans.as_slice(), inner) {
                            assert(var_suffix(t, ms[k as int]) matches Some((name, _)) && spec_transform(decode_utf8(name)) is Some);
                            assert(!template_renderable(t, env@, source@, inner));
                            return false;
                        }
                    }
                },
                None => {},
            }
        }
        k += 1;
    }
    true
}

} // verus!
