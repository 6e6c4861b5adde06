//! Which files hold Ruby, which are skipped, and how a site in one is shown.
//!
//! Walking the repository and reading files happens outside the library; what
//! is decided here is what a path is and what a byte offset means.

use crate::rewrite::sequence::{line_end, line_start, spec_line_end, spec_line_start};
use crate::text::{
    cat, lossy_chars, lossy_string, opt_view, owned, spec_space, spec_trim, spec_trim_end, str_eq,
    trim, trim_end,
};
use vstd::prelude::*;
use vstd::string::StrSliceExecFns;

verus! {

/// What `Path::extension` gives for a path: the part of its file name after
/// the last `.`, if there is one that does not start the name.
pub uninterp spec fn path_extension(p: Seq<char>) -> Option<Seq<char>>;

/// What `Path::file_name` gives for a path: its last component, unless that
/// is `..`.
pub uninterp spec fn path_file_name(p: Seq<char>) -> Option<Seq<char>>;

/// What `Path::components` gives for a path, each component as text.
pub uninterp spec fn path_components(p: Seq<char>) -> Seq<Seq<char>>;

/// What `Path::strip_prefix` leaves of a path once a base is removed from its
/// front, compared component by component; `None` when the base is not one.
pub uninterp spec fn path_strip_prefix(p: Seq<char>, base: Seq<char>) -> Option<Seq<char>>;

/// `Path::extension`, as text. The result depends on the path alone.
#[verifier::external_body]
pub(crate) fn extension(p: &str) -> (r: Option<String>)
    ensures
        opt_view(r) == path_extension(p@),
{
    match std::path::Path::new(p).extension() {
        Some(e) => Some(e.to_string_lossy().into_owned()),
        None => None,
    }
}

/// `Path::file_name`, as text. The result depends on the path alone.
#[verifier::external_body]
pub(crate) fn file_name(p: &str) -> (r: Option<String>)
    ensures
        opt_view(r) == path_file_name(p@),
{
    match std::path::Path::new(p).file_name() {
        Some(n) => Some(n.to_string_lossy().into_owned()),
        None => None,
    }
}

/// `Path::components`, each as text. The result depends on the path alone.
#[verifier::external_body]
pub(crate) fn components(p: &str) -> (r: Vec<String>)
    ensures
        crate::text::string_views(r@) == path_components(p@),
{
    std::path::Path::new(p).components().map(|c| c.as_os_str().to_string_lossy().into_owned()).collect()
}

/// `Path::strip_prefix`, as text. The result depends on the two paths alone.
#[verifier::external_body]
pub(crate) fn strip_prefix(p: &str, base: &str) -> (r: Option<String>)
    ensures
        opt_view(r) == path_strip_prefix(p@, base@),
{
    match std::path::Path::new(p).strip_prefix(base) {
        Ok(rest) => Some(rest.to_string_lossy().into_owned()),
        Err(_) => None,
    }
}

/// Directory names skipped unless vendored code is asked for, matched as whole
/// path components: a substring match on `tmp` once excluded every file under
/// the system temp directory.
pub open spec fn excluded_dir(c: Seq<char>) -> bool {
    c == "vendor"@ || c == "node_modules"@ || c == "tmp"@ || c == "log"@
}

/// Extensions that hold Ruby source.
pub open spec fn ruby_extension(e: Seq<char>) -> bool {
    ||| e == "rb"@
    ||| e == "rake"@
    ||| e == "ru"@
    ||| e == "gemspec"@
    ||| e == "jbuilder"@
    ||| e == "jb"@
    ||| e == "thor"@
    ||| e == "podspec"@
    ||| e == "rbw"@
    ||| e == "arb"@
    ||| e == "builder"@
    ||| e == "rabl"@
    ||| e == "opal"@
}

/// Files that hold Ruby but are named rather than suffixed.
pub open spec fn ruby_file_name(n: Seq<char>) -> bool {
    ||| n == "Rakefile"@
    ||| n == "rakefile"@
    ||| n == "Gemfile"@
    ||| n == "Guardfile"@
    ||| n == "Capfile"@
    ||| n == "Appraisals"@
    ||| n == "Berksfile"@
    ||| n == "Brewfile"@
    ||| n == "Buildfile"@
    ||| n == "Cheffile"@
    ||| n == "Dangerfile"@
    ||| n == "Fastfile"@
    ||| n == "Jarfile"@
    ||| n == "Mavenfile"@
    ||| n == "Podfile"@
    ||| n == "Puppetfile"@
    ||| n == "Schemafile"@
    ||| n == "Snapfile"@
    ||| n == "Steepfile"@
    ||| n == "Thorfile"@
    ||| n == "Vagrantfile"@
    ||| n == ".irbrc"@
    ||| n == ".pryrc"@
    ||| n == ".simplecov"@
}

/// Template extensions that embed Ruby the library does not read.
pub open spec fn template_extension(e: Seq<char>) -> bool {
    e == "erb"@ || e == "haml"@ || e == "slim"@ || e == "rhtml"@ || e == "erubi"@ || e == "liquid"@
}

fn is_excluded_dir(c: &str) -> (r: bool)
    ensures
        r == excluded_dir(c@),
{
    str_eq(c, "vendor") || str_eq(c, "node_modules") || str_eq(c, "tmp") || str_eq(c, "log")
}

fn is_ruby_extension(e: &str) -> (r: bool)
    ensures
        r == ruby_extension(e@),
{
    str_eq(e, "rb") || str_eq(e, "rake") || str_eq(e, "ru") || str_eq(e, "gemspec") || str_eq(
        e,
        "jbuilder",
    ) || str_eq(e, "jb") || str_eq(e, "thor") || str_eq(e, "podspec") || str_eq(e, "rbw")
        || str_eq(e, "arb") || str_eq(e, "builder") || str_eq(e, "rabl") || str_eq(e, "opal")
}

fn is_ruby_file_name(n: &str) -> (r: bool)
    ensures
        r == ruby_file_name(n@),
{
    str_eq(n, "Rakefile") || str_eq(n, "rakefile") || str_eq(n, "Gemfile") || str_eq(n, "Guardfile")
        || str_eq(n, "Capfile") || str_eq(n, "Appraisals") || str_eq(n, "Berksfile") || str_eq(
        n,
        "Brewfile",
    ) || str_eq(n, "Buildfile") || str_eq(n, "Cheffile") || str_eq(n, "Dangerfile") || str_eq(
        n,
        "Fastfile",
    ) || str_eq(n, "Jarfile") || str_eq(n, "Mavenfile") || str_eq(n, "Podfile") || str_eq(
        n,
        "Puppetfile",
    ) || str_eq(n, "Schemafile") || str_eq(n, "Snapfile") || str_eq(n, "Steepfile") || str_eq(
        n,
        "Thorfile",
    ) || str_eq(n, "Vagrantfile") || str_eq(n, ".irbrc") || str_eq(n, ".pryrc") || str_eq(
        n,
        ".simplecov",
    )
}

/// Whether a path is a template embedding Ruby the library cannot read.
pub open spec fn spec_is_template(p: Seq<char>) -> bool {
    match path_extension(p) {
        Some(e) => template_extension(e),
        None => false,
    }
}

/// Whether a path holds Ruby source: a Ruby extension, or a name that is.
pub open spec fn spec_is_ruby(p: Seq<char>) -> bool {
    (match path_extension(p) {
        Some(e) => ruby_extension(e),
        None => false,
    }) || (match path_file_name(p) {
        Some(n) => ruby_file_name(n),
        None => false,
    })
}

/// Whether a path is a template embedding Ruby the library cannot read.
pub fn is_template(path: &str) -> (r: bool)
    ensures
        r == spec_is_template(path@),
{
    match extension(path) {
        Some(e) => {
            let r = is_template_extension(e.as_str());
            r
        },
        None => false,
    }
}

fn is_template_extension(e: &str) -> (r: bool)
    ensures
        r == template_extension(e@),
{
    str_eq(e, "erb") || str_eq(e, "haml") || str_eq(e, "slim") || str_eq(e, "rhtml") || str_eq(
        e,
        "erubi",
    ) || str_eq(e, "liquid")
}

/// Whether a path holds Ruby source. Deliberately no wider than what is
/// unambiguous: a wrong guess here is quiet.
pub fn is_ruby(path: &str) -> (r: bool)
    ensures
        r == spec_is_ruby(path@),
{
    let by_extension = match extension(path) {
        Some(e) => is_ruby_extension(e.as_str()),
        None => false,
    };
    if by_extension {
        return true;
    }
    match file_name(path) {
        Some(n) => is_ruby_file_name(n.as_str()),
        None => false,
    }
}

/// `s` with every backslash written as a slash.
pub open spec fn forward_slashes(s: Seq<char>) -> Seq<char> {
    s.map_values(|c: char| if c == '\\' { '/' } else { c })
}

/// Generated files skipped unless vendored code is asked for, matched by
/// their trailing path.
pub open spec fn excluded_file(shown: Seq<char>) -> bool {
    shown.len() >= "db/schema.rb"@.len() && shown.subrange(
        shown.len() - "db/schema.rb"@.len(),
        shown.len() as int,
    ) == "db/schema.rb"@ || shown.len() >= "db/structure.sql"@.len() && shown.subrange(
        shown.len() - "db/structure.sql"@.len(),
        shown.len() as int,
    ) == "db/structure.sql"@
}

/// A path with its root removed from the front, or the path itself when it
/// is not under the root.
pub open spec fn relative_to(path: Seq<char>, root: Seq<char>) -> Seq<char> {
    match path_strip_prefix(path, root) {
        Some(r) => r,
        None => path,
    }
}

/// Whether a path under `root` is vendored or generated: a component of it,
/// relative to the root, is a skipped directory, or it ends in a skipped file.
pub open spec fn spec_is_excluded(path: Seq<char>, root: Seq<char>) -> bool {
    let relative = relative_to(path, root);
    (exists|i: int|
        0 <= i < path_components(relative).len() && excluded_dir(
            #[trigger] path_components(relative)[i],
        )) || excluded_file(forward_slashes(relative))
}

fn ends_with(s: &Vec<char>, tail: &str) -> (r: bool)
    ensures
        r == (s@.len() >= tail@.len() && s@.subrange(s@.len() - tail@.len(), s@.len() as int)
            == tail@),
{
    let n = tail.unicode_len();
    if s.len() < n {
        return false;
    }
    let total = s.len();
    let off = total - n;
    let mut k: usize = 0;
    while k < n
        invariant
            k <= n == tail@.len(),
            off + n == total,
            total == s@.len(),
            forall|j: int| 0 <= j < k ==> s@[off + j] == tail@[j],
        decreases n - k,
    {
        if s[off + k] != tail.get_char(k) {
            assert(s@.subrange(off as int, s@.len() as int)[k as int] == s@[off + k]);
            return false;
        }
        k += 1;
    }
    assert(s@.subrange(off as int, s@.len() as int) =~= tail@);
    true
}

/// Whether a path under `root` is vendored or generated.
pub fn is_excluded(path: &str, root: &str) -> (r: bool)
    ensures
        r == spec_is_excluded(path@, root@),
{
    let relative = match strip_prefix(path, root) {
        Some(r) => r,
        None => owned(path),
    };
    assert(relative@ == relative_to(path@, root@));
    let comps = components(relative.as_str());
    let mut k: usize = 0;
    while k < comps.len()
        invariant
            k <= comps@.len(),
            crate::text::string_views(comps@) == path_components(relative@),
            relative@ == relative_to(path@, root@),
            forall|j: int| 0 <= j < k ==> !excluded_dir(#[trigger] path_components(relative@)[j]),
        decreases comps@.len() - k,
    {
        assert(crate::text::string_views(comps@)[k as int] == comps@[k as int]@);
        if is_excluded_dir(comps[k].as_str()) {
            assert(crate::text::string_views(comps@)[k as int] == comps@[k as int]@);
            assert(excluded_dir(path_components(relative@)[k as int]));
            assert(0 <= k < path_components(relative@).len());
            assert(excluded_dir(path_components(relative_to(path@, root@))[k as int]));
            return true;
        }
        k += 1;
    }
    let n = relative.unicode_len();
    let mut shown: Vec<char> = Vec::new();
    let mut i: usize = 0;
    while i < n
        invariant
            i <= n == relative@.len(),
            shown@ == forward_slashes(relative@).take(i as int),
        decreases n - i,
    {
        let c = relative.as_str().get_char(i);
        shown.push(if c == '\\' { '/' } else { c });
        proof {
            assert(forward_slashes(relative@).take(i + 1) =~= forward_slashes(relative@).take(i as int).push(if c == '\\' { '/' } else { c }));
        }
        i += 1;
    }
    assert(forward_slashes(relative@).take(n as int) =~= forward_slashes(relative@));
    ends_with(&shown, "db/schema.rb") || ends_with(&shown, "db/structure.sql")
}

/// How many newlines `s` holds.
pub open spec fn count_newlines(s: Seq<u8>) -> nat
    decreases s.len(),
{
    if s.len() == 0 {
        0
    } else {
        count_newlines(s.drop_last()) + if s.last() == 10 {
            1nat
        } else {
            0nat
        }
    }
}

/// Whether a byte begins a character: anything but a UTF-8 continuation byte
/// (`0b10xxxxxx`).
pub open spec fn char_start(b: u8) -> bool {
    b < 128 || b >= 192
}

/// How many bytes of `s` begin a character.
pub open spec fn count_char_starts(s: Seq<u8>) -> nat
    decreases s.len(),
{
    if s.len() == 0 {
        0
    } else {
        count_char_starts(s.drop_last()) + if char_start(s.last()) {
            1nat
        } else {
            0nat
        }
    }
}

/// An offset pinned into the source.
pub open spec fn clamp_offset(source: Seq<u8>, offset: int) -> int {
    if offset < source.len() {
        offset
    } else {
        source.len() as int
    }
}

/// One-based line and column of a byte offset; the column counts characters.
pub open spec fn spec_line_col(source: Seq<u8>, offset: int) -> (int, int) {
    let o = clamp_offset(source, offset);
    (
        count_newlines(source.take(o)) + 1int,
        count_char_starts(source.subrange(spec_line_start(source, o), o)) + 1int,
    )
}

/// One-based line and column for a byte offset.
///
/// The column counts characters, counted as bytes that are not UTF-8
/// continuation bytes: one pass over the line, and nothing to fail on in a
/// file that is not valid UTF-8.
pub fn line_col(source: &[u8], offset: usize) -> (r: (usize, usize))
    requires
        source@.len() < usize::MAX,
    ensures
        r.0 as int == spec_line_col(source@, offset as int).0,
        r.1 as int == spec_line_col(source@, offset as int).1,
{
    let o = if offset < source.len() {
        offset
    } else {
        source.len()
    };
    let mut lines: usize = 0;
    let mut k: usize = 0;
    while k < o
        invariant
            k <= o <= source@.len() < usize::MAX,
            lines == count_newlines(source@.take(k as int)),
            lines <= k,
        decreases o - k,
    {
        proof {
            assert(source@.take(k + 1).drop_last() =~= source@.take(k as int));
        }
        if source[k] == 10 {
            lines += 1;
        }
        k += 1;
    }
    let start = line_start(source, o);
    let mut cols: usize = 0;
    let mut k: usize = start;
    while k < o
        invariant
            start <= k <= o <= source@.len() < usize::MAX,
            cols == count_char_starts(source@.subrange(start as int, k as int)),
            cols <= k - start,
        decreases o - k,
    {
        proof {
            assert(source@.subrange(start as int, k + 1).drop_last() =~= source@.subrange(start as int, k as int));
        }
        if source[k] < 128 || source[k] >= 192 {
            cols += 1;
        }
        k += 1;
    }
    (lines + 1, cols + 1)
}

/// The line holding an offset, read as text, with trailing whitespace
/// dropped.
pub open spec fn spec_line_at(source: Seq<u8>, offset: int) -> Seq<char> {
    let start = spec_line_start(source, clamp_offset(source, offset));
    spec_trim_end(lossy_chars(source.subrange(start, spec_line_end(source, start))))
}

/// The source line containing `offset`, without its newline or trailing
/// whitespace.
pub fn line_at(source: &[u8], offset: usize) -> (r: String)
    ensures
        r@ == spec_line_at(source@, offset as int),
{
    let o = if offset < source.len() {
        offset
    } else {
        source.len()
    };
    let start = line_start(source, o);
    let end = line_end(source, start);
    let text = lossy_string(&source[start..end]);
    owned(trim_end(text.as_str()))
}

/// The first byte at or after `k` that is not ASCII whitespace.
pub open spec fn skip_space(span: Seq<u8>, k: int) -> int
    decreases span.len() - k,
{
    if 0 <= k < span.len() && spec_space(span[k]) {
        skip_space(span, k + 1)
    } else {
        k
    }
}

pub proof fn lemma_skip_space(span: Seq<u8>, k: int)
    requires
        0 <= k <= span.len(),
    ensures
        k <= skip_space(span, k) <= span.len(),
        k < span.len() && spec_space(span[k]) ==> skip_space(span, k) > k,
    decreases span.len() - k,
{
    if k < span.len() && spec_space(span[k]) {
        lemma_skip_space(span, k + 1);
    }
}

/// `out` without the spaces and tabs at its end.
pub open spec fn drop_blanks(out: Seq<u8>) -> Seq<u8>
    decreases out.len(),
{
    if out.len() > 0 && (out.last() == 32 || out.last() == 9) {
        drop_blanks(out.drop_last())
    } else {
        out
    }
}

/// A byte that reads wrong after a joining space: `.`, `,`, `)`, `]`, `}`.
pub open spec fn closer(b: u8) -> bool {
    b == 46 || b == 44 || b == 41 || b == 93 || b == 125
}

/// A multi-line span joined onto one line from `i` on, given what has been
/// joined so far: each line break, with the indentation after it and the
/// blanks before it, becomes one space, or nothing where a space would read
/// as a typo -- before a closer, or after `(` or `[`.
pub open spec fn join_from(span: Seq<u8>, i: int, out: Seq<u8>) -> Seq<u8>
    decreases span.len() - i,
{
    if i < 0 || i >= span.len() {
        out
    } else if span[i] != 10 {
        join_from(span, i + 1, out.push(span[i]))
    } else {
        let j = skip_space(span, i);
        let o = drop_blanks(out);
        let tight = (j < span.len() && closer(span[j])) || (o.len() > 0 && (o.last() == 40
            || o.last() == 91));
        proof {
            lemma_skip_space(span, i);
        }
        join_from(
            span,
            j,
            if tight {
                o
            } else {
                o.push(32)
            },
        )
    }
}

/// How much of a collapsed multi-line site is shown before it is cut.
pub open spec fn span_chars() -> nat {
    120
}

/// The source a site occupies, rendered as one line. A site within one line
/// is that whole line, uncut; a site spanning lines is joined at its breaks,
/// trimmed, and cut after 120 characters with an ellipsis.
pub open spec fn spec_span_text(source: Seq<u8>, start: int, end: int) -> Seq<char> {
    let s = clamp_offset(source, start);
    let e = if end < s {
        s
    } else {
        clamp_offset(source, end)
    };
    let span = source.subrange(s, e);
    if !span.contains(10) {
        spec_line_at(source, s)
    } else {
        let out = spec_trim(lossy_chars(join_from(span, 0, Seq::empty())));
        if out.len() > span_chars() {
            out.take(span_chars() as int) + seq!['\u{2026}']
        } else {
            out
        }
    }
}

/// A site within one line renders as that whole line, uncut; a site that
/// spans lines renders in at most 120 characters and an ellipsis.
pub proof fn law_a_site_renders_as_one_line(source: Seq<u8>, start: int, end: int)
    ensures
        ({
            let s = clamp_offset(source, start);
            let e = if end < s {
                s
            } else {
                clamp_offset(source, end)
            };
            let span = source.subrange(s, e);
            &&& !span.contains(10) ==> spec_span_text(source, start, end) == spec_line_at(source, s)
            &&& span.contains(10) ==> spec_span_text(source, start, end).len() <= span_chars() + 1
        }),
{
}

/// The source a site occupies, rendered as one line.
///
/// One line, because the text sits in a `file:line:col: text` column that a
/// pipe splits on newlines. A site that starts on its own line reduces to
/// its first line's worth of text otherwise -- for a leading-dot chain, the
/// bare receiver.
pub fn span_text(source: &[u8], start: usize, end: usize) -> (r: String)
    ensures
        r@ == spec_span_text(source@, start as int, end as int),
{
    let n = source.len();
    let s = if start < n {
        start
    } else {
        n
    };
    let e = if end < s {
        s
    } else if end < n {
        end
    } else {
        n
    };
    let span = &source[s..e];
    let ghost sp = span@;
    let mut k: usize = 0;
    while k < span.len() && span[k] != 10
        invariant
            k <= span@.len(),
            forall|j: int| 0 <= j < k ==> span@[j] != 10,
        decreases span@.len() - k,
    {
        k += 1;
    }
    if k == span.len() {
        proof {
            assert(!span@.contains(10));
        }
        return line_at(source, s);
    }
    proof {
        assert(span@[k as int] == 10);
        assert(span@.contains(10));
    }
    let mut out: Vec<u8> = Vec::new();
    let mut i: usize = 0;
    while i < span.len()
        invariant
            i <= span@.len(),
            sp == span@,
            join_from(sp, i as int, out@) == join_from(sp, 0, Seq::empty()),
        decreases span@.len() - i,
    {
        if span[i] != 10 {
            out.push(span[i]);
            i += 1;
        } else {
            let ghost at = i as int;
            let ghost before = out@;
            while i < span.len() && (span[i] == 32 || span[i] == 9 || span[i] == 10 || span[i] == 12
                || span[i] == 13)
                invariant
                    at <= i <= span@.len(),
                    sp == span@,
                    skip_space(sp, at) == skip_space(sp, i as int),
                decreases span@.len() - i,
            {
                i += 1;
            }
            while out.len() > 0 && (out[out.len() - 1] == 32 || out[out.len() - 1] == 9)
                invariant
                    drop_blanks(out@) == drop_blanks(before),
                decreases out@.len(),
            {
                let ghost was = out@;
                out.pop();
                proof {
                    assert(out@ =~= was.drop_last());
                }
            }
            let tight = (i < span.len() && (span[i] == 46 || span[i] == 44 || span[i] == 41
                || span[i] == 93 || span[i] == 125)) || (out.len() > 0 && (out[out.len() - 1] == 40
                || out[out.len() - 1] == 91));
            if !tight {
                out.push(32);
            }
            proof {
                lemma_skip_space(sp, at);
            }
        }
    }
    let joined = lossy_string(out.as_slice());
    let t = trim(joined.as_str());
    let count = t.unicode_len();
    if count > 120 {
        let head = t.substring_char(0, 120);
        proof {
            reveal_strlit("\u{2026}");
        }
        cat(head, "\u{2026}")
    } else {
        owned(t)
    }
}

/// How far a search moves past a match: the needle's length, and at least
/// one byte, so an empty needle still advances.
pub open spec fn step(needle: Seq<u8>) -> int {
    if needle.len() == 0 {
        1
    } else {
        needle.len() as int
    }
}

/// Whether an occurrence at `at` stands as a whole identifier: no identifier
/// byte just before it or just after it.
pub open spec fn word_bounded(hay: Seq<u8>, len: int, at: int) -> bool {
    (at == 0 || !crate::text::spec_word(hay[at - 1])) && (at + len >= hay.len()
        || !crate::text::spec_word(hay[at + len]))
}

/// The non-overlapping occurrences of `needle` from `pos` on, leftmost first,
/// that stand as whole identifiers.
pub open spec fn bounded_from(hay: Seq<u8>, needle: Seq<u8>, pos: int) -> Seq<int>
    decreases hay.len() + 1 - pos,
{
    if pos < 0 || pos > hay.len() {
        Seq::empty()
    } else {
        match crate::text::first_occ(hay, needle, pos) {
            None => Seq::empty(),
            Some(i) => {
                proof {
                    crate::erb::lemma_first_occ_some(hay, needle, pos);
                }
                (if word_bounded(hay, needle.len() as int, i) {
                    seq![i]
                } else {
                    Seq::empty()
                }) + bounded_from(hay, needle, i + step(needle))
            },
        }
    }
}

pub open spec fn offsets_view(v: Seq<usize>) -> Seq<int> {
    v.map_values(|x: usize| x as int)
}

/// Whole-identifier occurrences of `needle` in `haystack`, as byte offsets.
///
/// The lexical fallback for files that cannot be parsed. A substring match
/// would report `display_names` for `display_name`.
pub fn identifier_offsets(haystack: &[u8], needle: &[u8]) -> (r: Vec<usize>)
    ensures
        offsets_view(r@) == bounded_from(haystack@, needle@, 0),
{
    let mut out: Vec<usize> = Vec::new();
    let n = haystack.len();
    let width: usize = if needle.len() == 0 {
        1
    } else {
        needle.len()
    };
    let mut pos: usize = 0;
    while pos <= n
        invariant
            n == haystack@.len(),
            width == step(needle@),
            offsets_view(out@) + bounded_from(haystack@, needle@, pos as int) == bounded_from(
                haystack@,
                needle@,
                0,
            ),
        decreases n + 1 - pos,
    {
        let found = crate::text::find(haystack, pos, needle);
        proof {
            crate::erb::lemma_first_occ_some(haystack@, needle@, pos as int);
        }
        match found {
            None => {
                proof {
                    assert(bounded_from(haystack@, needle@, pos as int) =~= Seq::<int>::empty());
                    assert(offsets_view(out@) + Seq::<int>::empty() =~= offsets_view(out@));
                }
                return out;
            },
            Some(at) => {
                let before = at == 0 || !crate::text::is_word(haystack[at - 1]);
                let after = at + needle.len() >= n || !crate::text::is_word(haystack[at + needle.len()]);
                let ghost prev = out@;
                if before && after {
                    out.push(at);
                }
                proof {
                    let rest = bounded_from(haystack@, needle@, at + step(needle@));
                    if before && after {
                        assert(offsets_view(out@) =~= offsets_view(prev) + seq![at as int]);
                        assert(offsets_view(out@) + rest =~= offsets_view(prev) + (seq![at as int] + rest));
                    } else {
                        assert(out@ == prev);
                        assert(Seq::<int>::empty() + rest =~= rest);
                    }
                }
                if at >= n {
                    proof {
                        assert(bounded_from(haystack@, needle@, at + width) =~= Seq::<int>::empty());
                        assert(offsets_view(out@) + Seq::<int>::empty() =~= offsets_view(out@));
                    }
                    return out;
                }
                pos = at + width;
            },
        }
    }
    proof {
        assert(bounded_from(haystack@, needle@, pos as int) =~= Seq::<int>::empty());
        assert(offsets_view(out@) + Seq::<int>::empty() =~= offsets_view(out@));
    }
    out
}

/// Whether the components `a` begin the components `b`: `Path::starts_with`,
/// which matches whole components only.
pub open spec fn components_prefix(a: Seq<Seq<char>>, b: Seq<Seq<char>>) -> bool {
    a.len() <= b.len() && b.take(a.len() as int) == a
}

/// Whether root `i` is covered by another: a strict ancestor, or the same
/// place written earlier in the list.
pub open spec fn covered(paths: Seq<Seq<char>>, i: int) -> bool {
    exists|j: int|
        0 <= j < paths.len() && j != i && components_prefix(
            path_components(#[trigger] paths[j]),
            path_components(paths[i]),
        ) && (path_components(paths[i]) != path_components(paths[j]) || j < i)
}

/// The roots among the first `k` that no other root covers, in order.
pub open spec fn uncovered(roots: Seq<Seq<char>>, paths: Seq<Seq<char>>, k: int) -> Seq<Seq<char>>
    decreases k,
{
    if k <= 0 {
        Seq::empty()
    } else if covered(paths, k - 1) {
        uncovered(roots, paths, k - 1)
    } else {
        uncovered(roots, paths, k - 1).push(roots[k - 1])
    }
}

/// Every root another root already covers, dropped; the first spelling of a
/// duplicated root kept. Nothing can drop every root, but if nothing is left
/// all of them are kept, so a walk never silently covers nothing.
pub open spec fn spec_prune(roots: Seq<Seq<char>>, paths: Seq<Seq<char>>) -> Seq<Seq<char>> {
    if roots.len() < 2 {
        roots
    } else if uncovered(roots, paths, roots.len() as int).len() == 0 {
        roots
    } else {
        uncovered(roots, paths, roots.len() as int)
    }
}

proof fn lemma_uncovered(roots: Seq<Seq<char>>, paths: Seq<Seq<char>>, k: int)
    requires
        0 <= k <= roots.len(),
    ensures
        forall|i: int|
            0 <= i < uncovered(roots, paths, k).len() ==> exists|j: int|
                0 <= j < k && !covered(paths, j) && #[trigger] uncovered(roots, paths, k)[i] == roots[j],
        forall|j: int| 0 <= j < k && !covered(paths, j) ==> #[trigger] uncovered(roots, paths, k).contains(roots[j]),
    decreases k,
{
    if k > 0 {
        lemma_uncovered(roots, paths, k - 1);
        let before = uncovered(roots, paths, k - 1);
        assert forall|i: int| 0 <= i < uncovered(roots, paths, k).len() implies exists|j: int|
            0 <= j < k && !covered(paths, j) && #[trigger] uncovered(roots, paths, k)[i] == roots[j] by {
            if i < before.len() {
                assert(uncovered(roots, paths, k)[i] == before[i]);
            }
        }
        assert forall|j: int| 0 <= j < k && !covered(paths, j) implies #[trigger] uncovered(roots, paths, k).contains(
            roots[j],
        ) by {
            if j < k - 1 {
                assert(before.contains(roots[j]));
                let i = choose|i: int| 0 <= i < before.len() && before[i] == roots[j];
                assert(uncovered(roots, paths, k)[i] == roots[j]);
            } else {
                assert(uncovered(roots, paths, k)[before.len() as int] == roots[j]);
            }
        }
    }
}

/// Pruning keeps only roots, and at least one of them when there are any;
/// among two or more roots of which some root is covered by no other, it
/// keeps exactly the roots no other root covers.
pub proof fn law_pruning_keeps_the_uncovered_roots(roots: Seq<Seq<char>>, paths: Seq<Seq<char>>)
    ensures
        roots.len() > 0 ==> spec_prune(roots, paths).len() > 0,
        forall|i: int|
            0 <= i < spec_prune(roots, paths).len() ==> roots.contains(#[trigger] spec_prune(roots, paths)[i]),
        roots.len() >= 2 && (exists|j: int| 0 <= j < roots.len() && !covered(paths, j)) ==> {
            &&& forall|i: int|
                0 <= i < spec_prune(roots, paths).len() ==> exists|j: int|
                    0 <= j < roots.len() && !covered(paths, j) && #[trigger] spec_prune(roots, paths)[i] == roots[j]
            &&& forall|j: int|
                0 <= j < roots.len() && !covered(paths, j) ==> #[trigger] spec_prune(roots, paths).contains(roots[j])
        },
{
    lemma_uncovered(roots, paths, roots.len() as int);
    if exists|j: int| 0 <= j < roots.len() && !covered(paths, j) {
        let j = choose|j: int| 0 <= j < roots.len() && !covered(paths, j);
        assert(uncovered(roots, paths, roots.len() as int).contains(roots[j]));
    }
    assert forall|i: int| 0 <= i < spec_prune(roots, paths).len() implies roots.contains(
        #[trigger] spec_prune(roots, paths)[i],
    ) by {
        if roots.len() >= 2 && uncovered(roots, paths, roots.len() as int).len() > 0 {
            let j = choose|j: int|
                0 <= j < roots.len() && !covered(paths, j) && #[trigger] uncovered(roots, paths, roots.len() as int)[i]
                    == roots[j];
        } else {
            assert(spec_prune(roots, paths)[i] == roots[i]);
        }
    }
}

/// Where the roots among the first `k` that no other root covers stand, in order.
pub open spec fn uncovered_indices(paths: Seq<Seq<char>>, k: int) -> Seq<int>
    decreases k,
{
    if k <= 0 {
        Seq::empty()
    } else if covered(paths, k - 1) {
        uncovered_indices(paths, k - 1)
    } else {
        uncovered_indices(paths, k - 1).push(k - 1)
    }
}

/// Whether `ix` picks `kept` out of `roots`, from front to back.
pub open spec fn picked_in_order(kept: Seq<Seq<char>>, roots: Seq<Seq<char>>, ix: Seq<int>) -> bool {
    &&& ix.len() == kept.len()
    &&& forall|i: int| 0 <= i < ix.len() ==> 0 <= #[trigger] ix[i] < roots.len() && kept[i] == roots[ix[i]]
    &&& forall|i: int, j: int| 0 <= i < j < ix.len() ==> #[trigger] ix[i] < #[trigger] ix[j]
}

proof fn lemma_uncovered_indices(roots: Seq<Seq<char>>, paths: Seq<Seq<char>>, k: int)
    requires
        0 <= k <= roots.len(),
    ensures
        picked_in_order(uncovered(roots, paths, k), roots, uncovered_indices(paths, k)),
        forall|i: int| 0 <= i < uncovered_indices(paths, k).len() ==> #[trigger] uncovered_indices(paths, k)[i] < k,
    decreases k,
{
    if k > 0 {
        lemma_uncovered_indices(roots, paths, k - 1);
    }
}

/// Pruning keeps the roots it keeps in the order they were given.
pub proof fn law_pruning_keeps_the_order_of_the_roots(roots: Seq<Seq<char>>, paths: Seq<Seq<char>>)
    ensures
        exists|ix: Seq<int>| picked_in_order(spec_prune(roots, paths), roots, ix),
{
    lemma_uncovered_indices(roots, paths, roots.len() as int);
    if roots.len() < 2 || uncovered(roots, paths, roots.len() as int).len() == 0 {
        let ix = Seq::new(roots.len(), |i: int| i);
        assert(picked_in_order(spec_prune(roots, paths), roots, ix));
    } else {
        assert(picked_in_order(spec_prune(roots, paths), roots, uncovered_indices(paths, roots.len() as int)));
    }
}

fn starts_with_components(a: &Vec<String>, b: &Vec<String>) -> (r: bool)
    ensures
        r == components_prefix(crate::text::string_views(a@), crate::text::string_views(b@)),
{
    if a.len() > b.len() {
        return false;
    }
    let mut k: usize = 0;
    while k < a.len()
        invariant
            k <= a@.len() <= b@.len(),
            forall|j: int| 0 <= j < k ==> a@[j]@ == b@[j]@,
        decreases a@.len() - k,
    {
        if !str_eq(a[k].as_str(), b[k].as_str()) {
            assert(crate::text::string_views(b@).take(a@.len() as int)[k as int] == b@[k as int]@);
            return false;
        }
        k += 1;
    }
    assert(crate::text::string_views(b@).take(a@.len() as int) =~= crate::text::string_views(a@));
    true
}

/// Drop every root another root already covers.
///
/// `roots` are the paths as the caller wrote them and `resolved` the same
/// paths resolved on disk where they exist, since `z.rb` and `./z.rb` are one
/// file spelled two ways. Compared as paths rather than as strings, so
/// `/a/bc` is not inside `/a/b`. Duplicates keep the first spelling.
pub fn prune_contained(roots: &Vec<String>, resolved: &Vec<String>) -> (r: Vec<String>)
    requires
        roots@.len() == resolved@.len(),
    ensures
        crate::text::string_views(r@) == spec_prune(
            crate::text::string_views(roots@),
            crate::text::string_views(resolved@),
        ),
{
    let ghost rs = crate::text::string_views(roots@);
    let ghost paths = crate::text::string_views(resolved@);
    if roots.len() < 2 {
        return crate::text::clone_strings(roots);
    }
    let mut comps: Vec<Vec<String>> = Vec::new();
    let mut k: usize = 0;
    while k < resolved.len()
        invariant
            k <= resolved@.len(),
            comps@.len() == k,
            paths == crate::text::string_views(resolved@),
            forall|j: int| 0 <= j < k ==> crate::text::string_views(#[trigger] comps@[j]@) == path_components(paths[j]),
        decreases resolved@.len() - k,
    {
        comps.push(components(resolved[k].as_str()));
        k += 1;
    }
    let mut kept: Vec<String> = Vec::new();
    let mut i: usize = 0;
    while i < roots.len()
        invariant
            i <= roots@.len() == resolved@.len() == comps@.len(),
            rs == crate::text::string_views(roots@),
            paths == crate::text::string_views(resolved@),
            forall|j: int| 0 <= j < comps@.len() ==> crate::text::string_views(#[trigger] comps@[j]@) == path_components(paths[j]),
            crate::text::string_views(kept@) == uncovered(rs, paths, i as int),
        decreases roots@.len() - i,
    {
        let mut dropped = false;
        let mut j: usize = 0;
        while j < comps.len()
            invariant
                i < comps@.len() == paths.len(),
                j <= comps@.len(),
                forall|x: int| 0 <= x < comps@.len() ==> crate::text::string_views(#[trigger] comps@[x]@) == path_components(paths[x]),
                dropped == exists|x: int|
                    0 <= x < j && x != i && components_prefix(
                        path_components(#[trigger] paths[x]),
                        path_components(paths[i as int]),
                    ) && (path_components(paths[i as int]) != path_components(paths[x]) || x < i),
            decreases comps@.len() - j,
        {
            if j != i {
                let prefix = starts_with_components(&comps[j], &comps[i]);
                let same = starts_with_components(&comps[i], &comps[j]) && comps[i].len() == comps[j].len();
                proof {
                    let a = crate::text::string_views(comps@[i as int]@);
                    let b = crate::text::string_views(comps@[j as int]@);
                    if same {
                        assert(a =~= b.take(a.len() as int));
                        assert(a =~= b);
                    }
                    if a == b {
                        assert(b.take(a.len() as int) =~= a);
                    }
                }
                if prefix && (!same || j < i) {
                    dropped = true;
                }
            }
            j += 1;
        }
        let ghost before = crate::text::string_views(kept@);
        if !dropped {
            kept.push(owned(roots[i].as_str()));
            proof {
                assert(crate::text::string_views(kept@) =~= before.push(rs[i as int]));
            }
        }
        i += 1;
    }
    if kept.len() == 0 {
        return crate::text::clone_strings(roots);
    }
    kept
}

proof fn lemma_first_occ_least(hay: Seq<u8>, needle: Seq<u8>, from: int, at: int)
    requires
        0 <= from <= at,
        crate::text::occurs_at(hay, needle, at),
    ensures
        crate::text::first_occ(hay, needle, from) matches Some(i) && from <= i <= at && crate::text::occurs_at(
            hay,
            needle,
            i,
        ),
    decreases at - from,
{
    if !crate::text::occurs_at(hay, needle, from) {
        lemma_first_occ_least(hay, needle, from + 1, at);
    }
}

/// Every whole-identifier occurrence from `pos` on that no earlier
/// occurrence overlaps is found.
pub proof fn lemma_bounded_from_complete(hay: Seq<u8>, needle: Seq<u8>, pos: int, at: int)
    requires
        0 <= pos <= at,
        crate::text::occurs_at(hay, needle, at),
        word_bounded(hay, needle.len() as int, at),
        forall|q: int| pos <= q < at && #[trigger] crate::text::occurs_at(hay, needle, q) ==> q + step(needle) <= at,
    ensures
        bounded_from(hay, needle, pos).contains(at),
    decreases at - pos,
{
    lemma_first_occ_least(hay, needle, pos, at);
    let i = crate::text::first_occ(hay, needle, pos)->0;
    crate::erb::lemma_first_occ_some(hay, needle, pos);
    let head: Seq<int> = if word_bounded(hay, needle.len() as int, i) {
        seq![i]
    } else {
        Seq::empty()
    };
    let rest = bounded_from(hay, needle, i + step(needle));
    assert(bounded_from(hay, needle, pos) == head + rest);
    if i == at {
        assert(bounded_from(hay, needle, pos)[0] == at);
    } else {
        assert(i + step(needle) <= at);
        lemma_bounded_from_complete(hay, needle, i + step(needle), at);
        let k = choose|k: int| 0 <= k < rest.len() && rest[k] == at;
        assert(bounded_from(hay, needle, pos)[head.len() + k] == at);
    }
}

/// Every offset found from `pos` on is an occurrence of the needle.
pub proof fn lemma_bounded_from_occurs(hay: Seq<u8>, needle: Seq<u8>, pos: int)
    ensures
        forall|j: int|
            0 <= j < bounded_from(hay, needle, pos).len() ==> crate::text::occurs_at(
                hay,
                needle,
                #[trigger] bounded_from(hay, needle, pos)[j],
            ),
    decreases hay.len() + 1 - pos,
{
    if 0 <= pos <= hay.len() {
        crate::erb::lemma_first_occ_some(hay, needle, pos);
        match crate::text::first_occ(hay, needle, pos) {
            None => {},
            Some(i) => {
                lemma_bounded_from_occurs(hay, needle, i + step(needle));
                let head: Seq<int> = if word_bounded(hay, needle.len() as int, i) {
                    seq![i]
                } else {
                    Seq::empty()
                };
                let rest = bounded_from(hay, needle, i + step(needle));
                assert(bounded_from(hay, needle, pos) == head + rest);
                assert forall|j: int| 0 <= j < bounded_from(hay, needle, pos).len() implies crate::text::occurs_at(
                    hay,
                    needle,
                    #[trigger] bounded_from(hay, needle, pos)[j],
                ) by {
                    if j < head.len() {
                        assert(bounded_from(hay, needle, pos)[j] == i);
                    } else {
                        assert(bounded_from(hay, needle, pos)[j] == rest[j - head.len()]);
                    }
                }
            },
        }
    }
}

/// Every occurrence found from `pos` on lies in `[pos, hay.len()]`.
pub proof fn lemma_bounded_from_in_range(hay: Seq<u8>, needle: Seq<u8>, pos: int)
    requires
        0 <= pos,
    ensures
        forall|j: int|
            0 <= j < bounded_from(hay, needle, pos).len() ==> pos <= #[trigger] bounded_from(hay, needle, pos)[j]
                <= hay.len(),
    decreases hay.len() + 1 - pos,
{
    if pos <= hay.len() {
        crate::erb::lemma_first_occ_some(hay, needle, pos);
        match crate::text::first_occ(hay, needle, pos) {
            None => {},
            Some(i) => {
                lemma_bounded_from_in_range(hay, needle, i + step(needle));
                let head: Seq<int> = if word_bounded(hay, needle.len() as int, i) {
                    seq![i]
                } else {
                    Seq::empty()
                };
                let rest = bounded_from(hay, needle, i + step(needle));
                assert(bounded_from(hay, needle, pos) == head + rest);
                assert forall|j: int| 0 <= j < bounded_from(hay, needle, pos).len() implies pos
                    <= #[trigger] bounded_from(hay, needle, pos)[j] <= hay.len() by {
                    if j < head.len() {
                        assert(bounded_from(hay, needle, pos)[j] == head[j]);
                    } else {
                        assert(bounded_from(hay, needle, pos)[j] == rest[j - head.len()]);
                    }
                }
            },
        }
    }
}

} // verus!
