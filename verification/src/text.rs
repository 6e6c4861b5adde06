//! Byte-level helpers shared by the scanners, and the few std and `memchr`
//! calls they lean on.

use vstd::prelude::*;
use vstd::string::StringSliceAdditionalSpecFns;

verus! {

/// `A-Z`.
pub open spec fn spec_upper(c: u8) -> bool {
    65 <= c <= 90
}

/// `a-z`.
pub open spec fn spec_lower(c: u8) -> bool {
    97 <= c <= 122
}

/// `0-9`.
pub open spec fn spec_digit(c: u8) -> bool {
    48 <= c <= 57
}

pub open spec fn spec_alpha(c: u8) -> bool {
    spec_upper(c) || spec_lower(c)
}

pub open spec fn spec_alnum(c: u8) -> bool {
    spec_alpha(c) || spec_digit(c)
}

/// A byte that may continue an identifier: `[A-Za-z0-9_]`.
pub open spec fn spec_word(c: u8) -> bool {
    spec_alnum(c) || c == 95
}

/// ASCII whitespace as `u8::is_ascii_whitespace` defines it.
pub open spec fn spec_space(c: u8) -> bool {
    c == 32 || c == 9 || c == 10 || c == 12 || c == 13
}

/// Every byte below 128.
pub open spec fn is_ascii_bytes(b: Seq<u8>) -> bool {
    forall|i: int| 0 <= i < b.len() ==> #[trigger] b[i] < 128
}

/// ASCII bytes read as the characters they encode.
pub open spec fn ascii_chars(b: Seq<u8>) -> Seq<char> {
    b.map_values(|c: u8| c as char)
}

pub fn is_upper(c: u8) -> (r: bool)
    ensures
        r == spec_upper(c),
{
    c >= 65 && c <= 90
}

pub fn is_lower(c: u8) -> (r: bool)
    ensures
        r == spec_lower(c),
{
    c >= 97 && c <= 122
}

pub fn is_digit(c: u8) -> (r: bool)
    ensures
        r == spec_digit(c),
{
    c >= 48 && c <= 57
}

pub fn is_alnum(c: u8) -> (r: bool)
    ensures
        r == spec_alnum(c),
{
    is_upper(c) || is_lower(c) || is_digit(c)
}

pub fn is_alpha_byte(c: u8) -> (r: bool)
    ensures
        r == spec_alpha(c),
{
    is_upper(c) || is_lower(c)
}

pub fn is_word(c: u8) -> (r: bool)
    ensures
        r == spec_word(c),
{
    is_alnum(c) || c == 95
}

pub fn is_space(c: u8) -> (r: bool)
    ensures
        r == spec_space(c),
{
    c == 32 || c == 9 || c == 10 || c == 12 || c == 13
}

/// Whether two byte strings are equal.
pub fn bytes_eq(a: &[u8], b: &[u8]) -> (r: bool)
    ensures
        r == (a@ == b@),
{
    if a.len() != b.len() {
        return false;
    }
    let mut i: usize = 0;
    while i < a.len()
        invariant
            a@.len() == b@.len(),
            i <= a@.len(),
            forall|j: int| 0 <= j < i ==> a@[j] == b@[j],
        decreases a@.len() - i,
    {
        if a[i] != b[i] {
            return false;
        }
        i += 1;
    }
    assert(a@ =~= b@);
    true
}

/// Whether two strings hold the same characters.
pub fn str_eq(a: &str, b: &str) -> (r: bool)
    ensures
        r == (a@ == b@),
{
    let r = bytes_eq(a.as_bytes(), b.as_bytes());
    proof {
        vstd::utf8::encode_utf8_decode_utf8(a@);
        vstd::utf8::encode_utf8_decode_utf8(b@);
    }
    r
}

/// What `String::from_utf8_lossy` makes of a byte string.
pub uninterp spec fn lossy_chars(b: Seq<u8>) -> Seq<char>;

/// `String::from_utf8_lossy`, owned. Its result is a function of the bytes
/// alone; valid UTF-8 decodes to exactly the characters it encodes, and ASCII
/// in particular to one character per byte. What invalid input becomes (each
/// bad sequence replaced by U+FFFD) is left to the name.
#[verifier::external_body]
pub fn lossy_string(b: &[u8]) -> (s: String)
    ensures
        s@ == lossy_chars(b@),
        is_ascii_bytes(b@) ==> s@ == ascii_chars(b@),
        vstd::utf8::valid_utf8(b@) ==> s@ == vstd::utf8::decode_utf8(b@),
{
    String::from_utf8_lossy(b).into_owned()
}

/// Whether `needle` sits in `hay` at `at`.
pub open spec fn occurs_at(hay: Seq<u8>, needle: Seq<u8>, at: int) -> bool {
    0 <= at && at + needle.len() <= hay.len() && hay.subrange(at, at + needle.len()) == needle
}

/// `memchr::memmem::find`: the first position at which `needle` occurs in
/// `hay`, or `None` when it occurs nowhere.
#[verifier::external_body]
pub fn memmem_find(hay: &[u8], needle: &[u8]) -> (r: Option<usize>)
    ensures
        r matches Some(i) ==> occurs_at(hay@, needle@, i as int) && forall|j: int|
            0 <= j < i ==> !occurs_at(hay@, needle@, j),
        r is None ==> forall|j: int| !occurs_at(hay@, needle@, j),
{
    memchr::memmem::find(hay, needle)
}

/// The first occurrence of `needle` at or after `from`.
pub open spec fn first_from(hay: Seq<u8>, needle: Seq<u8>, from: int, r: Option<usize>) -> bool {
    &&& r matches Some(i) ==> from <= i && occurs_at(hay, needle, i as int) && forall|j: int|
        from <= j < i ==> !occurs_at(hay, needle, j)
    &&& r is None ==> forall|j: int| from <= j ==> !occurs_at(hay, needle, j)
}

/// The first occurrence of `needle` at or after `from`; `None` past the end.
pub fn find_from(hay: &[u8], from: usize, needle: &[u8]) -> (r: Option<usize>)
    ensures
        from <= hay@.len() ==> first_from(hay@, needle@, from as int, r),
        from > hay@.len() ==> r is None,
{
    if from > hay.len() {
        return None;
    }
    let tail = &hay[from..hay.len()];
    match memmem_find(tail, needle) {
        None => {
            assert forall|j: int| from <= j implies !occurs_at(hay@, needle@, j) by {
                if occurs_at(hay@, needle@, j) {
                    assert(tail@.subrange(j - from, j - from + needle@.len()) =~= hay@.subrange(
                        j,
                        j + needle@.len(),
                    ));
                    assert(occurs_at(tail@, needle@, j - from));
                }
            }
            None
        },
        Some(i) => {
            assert(tail@.subrange(i as int, i + needle@.len()) =~= hay@.subrange(
                from + i,
                from + i + needle@.len(),
            ));
            assert forall|j: int| from <= j < from + i implies !occurs_at(hay@, needle@, j) by {
                if occurs_at(hay@, needle@, j) {
                    assert(tail@.subrange(j - from, j - from + needle@.len()) =~= hay@.subrange(
                        j,
                        j + needle@.len(),
                    ));
                    assert(occurs_at(tail@, needle@, j - from));
                }
            }
            Some(from + i)
        },
    }
}

} // verus!

verus! {

/// The first position at or after `from` where `needle` occurs.
pub open spec fn first_occ(hay: Seq<u8>, needle: Seq<u8>, from: int) -> Option<int>
    decreases hay.len() + 1 - from,
{
    if from < 0 || from > hay.len() {
        None
    } else if occurs_at(hay, needle, from) {
        Some(from)
    } else {
        first_occ(hay, needle, from + 1)
    }
}

pub proof fn lemma_first_occ(hay: Seq<u8>, needle: Seq<u8>, from: int, r: Option<usize>)
    requires
        0 <= from <= hay.len(),
        first_from(hay, needle, from, r),
    ensures
        first_occ(hay, needle, from) == (match r {
            Some(i) => Some(i as int),
            None => None,
        }),
    decreases hay.len() + 1 - from,
{
    if occurs_at(hay, needle, from) {
    } else if from + 1 <= hay.len() {
        lemma_first_occ(hay, needle, from + 1, r);
    } else {
        assert(!occurs_at(hay, needle, from + 1));
    }
}

/// The first occurrence of `needle` at or after `from`, as [`first_occ`] says.
pub fn find(hay: &[u8], from: usize, needle: &[u8]) -> (r: Option<usize>)
    ensures
        first_occ(hay@, needle@, from as int) == (match r {
            Some(i) => Some(i as int),
            None => None,
        }),
{
    let r = find_from(hay, from, needle);
    proof {
        if from <= hay@.len() {
            lemma_first_occ(hay@, needle@, from as int, r);
        }
    }
    r
}

} // verus!

verus! {

/// The decimal digits of `n`, most significant first.
pub open spec fn spec_decimal(n: nat) -> Seq<char>
    decreases n,
{
    if n < 10 {
        seq![(48 + n) as char]
    } else {
        spec_decimal(n / 10).push((48 + n % 10) as char)
    }
}

/// The decimal digits of `n` as bytes.
pub open spec fn decimal_bytes(n: nat) -> Seq<u8>
    decreases n,
{
    if n < 10 {
        seq![(48 + n) as u8]
    } else {
        decimal_bytes(n / 10).push((48 + n % 10) as u8)
    }
}

pub proof fn lemma_decimal_bytes(n: nat)
    ensures
        is_ascii_bytes(decimal_bytes(n)),
        ascii_chars(decimal_bytes(n)) == spec_decimal(n),
    decreases n,
{
    if n >= 10 {
        lemma_decimal_bytes(n / 10);
        assert(ascii_chars(decimal_bytes(n)) =~= ascii_chars(decimal_bytes(n / 10)).push((48 + n % 10) as char));
    } else {
        assert(ascii_chars(decimal_bytes(n)) =~= seq![(48 + n) as char]);
    }
}

/// `n` written in decimal.
pub fn decimal(n: usize) -> (s: String)
    ensures
        s@ == spec_decimal(n as nat),
{
    let mut digits: Vec<u8> = Vec::new();
    let mut m = n;
    // Least significant first, then reversed.
    let ghost mut rest: nat = n as nat;
    loop
        invariant_except_break
            m as nat == rest,
            decimal_bytes(n as nat) == decimal_bytes(rest) + digits@.reverse(),
        ensures
            decimal_bytes(n as nat) == digits@.reverse(),
        decreases m,
    {
        if m < 10 {
            let ghost old_digits = digits@;
            proof {
                assert(decimal_bytes(rest) =~= seq![(48 + m) as u8]);
            }
            digits.push((48 + m) as u8);
            proof {
                assert(digits@.reverse() =~= seq![(48 + m) as u8] + old_digits.reverse());
            }
            break;
        }
        let ghost old_digits = digits@;
        digits.push((48 + m % 10) as u8);
        proof {
            assert(decimal_bytes(rest) == decimal_bytes(rest / 10).push((48 + rest % 10) as u8));
            assert(digits@.reverse() =~= seq![(48 + rest % 10) as u8] + old_digits.reverse());
            assert(decimal_bytes(rest / 10) + digits@.reverse() =~= decimal_bytes(rest / 10).push((48 + rest % 10) as u8) + old_digits.reverse());
        }
        m = m / 10;
        proof {
            rest = rest / 10;
        }
    }
    let mut out: Vec<u8> = Vec::new();
    let mut k = digits.len();
    while k > 0
        invariant
            k <= digits@.len(),
            out@ == digits@.subrange(k as int, digits@.len() as int).reverse(),
        decreases k,
    {
        k -= 1;
        let ghost before = out@;
        out.push(digits[k]);
        proof {
            assert(digits@.subrange(k as int, digits@.len() as int).reverse() =~= before.push(digits@[k as int]));
        }
    }
    proof {
        assert(digits@.subrange(0, digits@.len() as int) =~= digits@);
        assert(digits@.reverse() =~= decimal_bytes(n as nat));
        assert(out@ =~= decimal_bytes(n as nat));
        lemma_decimal_bytes(n as nat);
    }
    lossy_string(out.as_slice())
}

/// Parts joined by a separator.
pub open spec fn spec_join(parts: Seq<Seq<char>>, sep: Seq<char>) -> Seq<char>
    decreases parts.len(),
{
    if parts.len() == 0 {
        Seq::empty()
    } else if parts.len() == 1 {
        parts[0]
    } else {
        spec_join(parts.drop_last(), sep) + sep + parts.last()
    }
}

pub open spec fn string_views(v: Seq<String>) -> Seq<Seq<char>> {
    v.map_values(|s: String| s@)
}

/// `parts.join(sep)`.
pub fn join(parts: &Vec<String>, sep: &str) -> (s: String)
    ensures
        s@ == spec_join(string_views(parts@), sep@),
{
    let mut out = String::new();
    let mut k: usize = 0;
    while k < parts.len()
        invariant
            k <= parts@.len(),
            out@ == spec_join(string_views(parts@).take(k as int), sep@),
        decreases parts@.len() - k,
    {
        proof {
            assert(string_views(parts@).take(k + 1).drop_last() =~= string_views(parts@).take(k as int));
        }
        if k > 0 {
            out.append(sep);
        }
        out.append(parts[k].as_str());
        proof {
            if k == 0 {
                assert(out@ =~= string_views(parts@).take(1)[0]);
            }
        }
        k += 1;
    }
    proof {
        assert(string_views(parts@).take(parts@.len() as int) =~= string_views(parts@));
    }
    out
}

/// An optional string's characters.
pub open spec fn opt_view(s: Option<String>) -> Option<Seq<char>> {
    match s {
        Some(s) => Some(s@),
        None => None,
    }
}

/// A clone of an optional string.
pub fn clone_opt(s: &Option<String>) -> (r: Option<String>)
    ensures
        opt_view(r) == opt_view(*s),
{
    match s {
        Some(x) => Some(owned(x.as_str())),
        None => None,
    }
}

/// A clone of a list of strings.
pub fn clone_strings(v: &Vec<String>) -> (r: Vec<String>)
    ensures
        string_views(r@) == string_views(v@),
{
    let mut out: Vec<String> = Vec::new();
    let mut k: usize = 0;
    while k < v.len()
        invariant
            k <= v@.len(),
            string_views(out@) =~= string_views(v@).take(k as int),
        decreases v@.len() - k,
    {
        let ghost before = out@;
        out.push(owned(v[k].as_str()));
        proof {
            assert(string_views(out@) =~= string_views(before).push(v@[k as int]@));
            assert(string_views(v@).take(k + 1) =~= string_views(v@).take(k as int).push(v@[k as int]@));
        }
        k += 1;
    }
    assert(string_views(v@).take(v@.len() as int) =~= string_views(v@));
    out
}

/// `a`, `b` and `c` in turn.
pub fn cat3(a: &str, b: &str, c: &str) -> (s: String)
    ensures
        s@ == a@ + b@ + c@,
{
    let mut out = String::from_str(a);
    out.append(b);
    out.append(c);
    out
}

/// `a` followed by `b`.
pub fn cat(a: &str, b: &str) -> (s: String)
    ensures
        s@ == a@ + b@,
{
    let mut out = String::from_str(a);
    out.append(b);
    out
}

} // verus!

verus! {

/// Whether offset `i` of `b` starts a character: an end of the bytes, or a
/// byte that is not a UTF-8 continuation byte.
pub open spec fn starts_char(b: Seq<u8>, i: int) -> bool {
    i == 0 || i == b.len() || (0 < i < b.len() && !vstd::utf8::is_continuation_byte(b[i]))
}

pub proof fn lemma_starts_char(b: Seq<u8>, i: int)
    requires
        vstd::utf8::valid_utf8(b),
        0 <= i <= b.len(),
        starts_char(b, i),
    ensures
        vstd::utf8::is_char_boundary(b, i),
{
    vstd::utf8::is_char_boundary_start_end_of_seq(b);
    if 0 < i < b.len() {
        vstd::utf8::is_char_boundary_iff_not_is_continuation_byte(b, i);
    }
}

/// `&s[i..j]`, where both ends start a character.
pub fn slice_str(s: &str, i: usize, j: usize) -> (r: &str)
    requires
        i <= j <= s.spec_bytes().len(),
        starts_char(s.spec_bytes(), i as int),
        starts_char(s.spec_bytes(), j as int),
    ensures
        r.spec_bytes() == s.spec_bytes().subrange(i as int, j as int),
        r@ == vstd::utf8::decode_utf8(s.spec_bytes().subrange(i as int, j as int)),
{
    let ghost b = s.spec_bytes();
    proof {
        vstd::utf8::encode_utf8_valid_utf8(s@);
        lemma_starts_char(b, i as int);
        vstd::utf8::valid_utf8_split(b, i as int);
    }
    let (_, rest) = s.split_at(i);
    let ghost rb = rest.spec_bytes();
    proof {
        assert(rb =~= b.subrange(i as int, b.len() as int));
        assert(starts_char(rb, j - i)) by {
            if 0 < j - i < rb.len() {
                assert(rb[j - i] == b[j as int]);
            }
        }
        lemma_starts_char(rb, j - i);
    }
    let (mid, _) = rest.split_at(j - i);
    proof {
        assert(mid.spec_bytes() =~= b.subrange(i as int, j as int));
        vstd::utf8::encode_utf8_decode_utf8(mid@);
    }
    mid
}

/// Unicode `White_Space`, which `str::trim` removes.
pub open spec fn unicode_space(c: char) -> bool {
    ||| 9 <= c as u32 <= 13
    ||| c as u32 == 32
    ||| c as u32 == 0x85
    ||| c as u32 == 0xA0
    ||| c as u32 == 0x1680
    ||| 0x2000 <= c as u32 <= 0x200A
    ||| c as u32 == 0x2028
    ||| c as u32 == 0x2029
    ||| c as u32 == 0x202F
    ||| c as u32 == 0x205F
    ||| c as u32 == 0x3000
}

/// `s` with leading and trailing whitespace removed.
pub open spec fn spec_trim(s: Seq<char>) -> Seq<char>
    decreases s.len(),
{
    if s.len() > 0 && unicode_space(s[0]) {
        spec_trim(s.drop_first())
    } else if s.len() > 0 && unicode_space(s.last()) {
        spec_trim(s.drop_last())
    } else {
        s
    }
}

/// `str::trim`: the string with leading and trailing Unicode `White_Space`
/// removed.
#[verifier::external_body]
pub fn trim(s: &str) -> (r: &str)
    ensures
        r@ == spec_trim(s@),
{
    s.trim()
}

/// `s` with trailing whitespace removed.
pub open spec fn spec_trim_end(s: Seq<char>) -> Seq<char>
    decreases s.len(),
{
    if s.len() > 0 && unicode_space(s.last()) {
        spec_trim_end(s.drop_last())
    } else {
        s
    }
}

/// `str::trim_end`: the string with trailing Unicode `White_Space` removed.
#[verifier::external_body]
pub fn trim_end(s: &str) -> (r: &str)
    ensures
        r@ == spec_trim_end(s@),
{
    s.trim_end()
}

/// `s` with leading whitespace removed.
pub open spec fn spec_trim_start(s: Seq<char>) -> Seq<char>
    decreases s.len(),
{
    if s.len() > 0 && unicode_space(s[0]) {
        spec_trim_start(s.drop_first())
    } else {
        s
    }
}

/// `str::trim_start`: the string with leading Unicode `White_Space` removed.
#[verifier::external_body]
pub fn trim_start(s: &str) -> (r: &str)
    ensures
        r@ == spec_trim_start(s@),
{
    s.trim_start()
}

/// Trimming the end leaves a prefix.
pub proof fn lemma_trim_end_prefix(s: Seq<char>)
    ensures
        spec_trim_end(s).len() <= s.len(),
        spec_trim_end(s) == s.take(spec_trim_end(s).len() as int),
    decreases s.len(),
{
    if s.len() > 0 && unicode_space(s.last()) {
        lemma_trim_end_prefix(s.drop_last());
        assert(s.drop_last().take(spec_trim_end(s).len() as int) =~= s.take(spec_trim_end(s).len() as int));
    } else {
        assert(s.take(s.len() as int) =~= s);
    }
}

/// Trimming the start leaves a suffix.
pub proof fn lemma_trim_start_suffix(s: Seq<char>)
    ensures
        spec_trim_start(s).len() <= s.len(),
        spec_trim_start(s) == s.skip(s.len() - spec_trim_start(s).len()),
    decreases s.len(),
{
    if s.len() > 0 && unicode_space(s[0]) {
        lemma_trim_start_suffix(s.drop_first());
        assert(s.drop_first().skip(s.drop_first().len() - spec_trim_start(s).len()) =~= s.skip(
            s.len() - spec_trim_start(s).len(),
        ));
    } else {
        assert(s.skip(0) =~= s);
    }
}

/// The bytes of the first `k` characters begin the bytes of all of them.
pub proof fn lemma_encode_take(s: Seq<char>, k: int)
    requires
        0 <= k <= s.len(),
    ensures
        vstd::utf8::encode_utf8(s.take(k)).len() <= vstd::utf8::encode_utf8(s).len(),
        vstd::utf8::encode_utf8(s.take(k)) == vstd::utf8::encode_utf8(s).subrange(
            0,
            vstd::utf8::encode_utf8(s.take(k)).len() as int,
        ),
{
    lemma_encode_concat(s.take(k), s.skip(k));
    assert(s.take(k) + s.skip(k) =~= s);
}

/// The bytes of the characters from `k` on end the bytes of all of them.
pub proof fn lemma_encode_skip(s: Seq<char>, k: int)
    requires
        0 <= k <= s.len(),
    ensures
        vstd::utf8::encode_utf8(s.skip(k)).len() <= vstd::utf8::encode_utf8(s).len(),
        vstd::utf8::encode_utf8(s.skip(k)) == vstd::utf8::encode_utf8(s).subrange(
            vstd::utf8::encode_utf8(s).len() - vstd::utf8::encode_utf8(s.skip(k)).len(),
            vstd::utf8::encode_utf8(s).len() as int,
        ),
{
    lemma_encode_concat(s.take(k), s.skip(k));
    assert(s.take(k) + s.skip(k) =~= s);
}

/// Valid UTF-8 does not begin with a continuation byte.
pub proof fn lemma_valid_first(x: Seq<u8>)
    requires
        vstd::utf8::valid_utf8(x),
        x.len() > 0,
    ensures
        !vstd::utf8::is_continuation_byte(x[0]),
{
}

/// `str::to_string`.
pub fn owned(s: &str) -> (r: String)
    ensures
        r@ == s@,
{
    s.to_owned()
}

} // verus!

verus! {

/// In valid UTF-8 the byte after an ASCII byte begins a character.
pub proof fn lemma_after_ascii(b: Seq<u8>, i: int)
    requires
        vstd::utf8::valid_utf8(b),
        0 <= i,
        i + 1 < b.len(),
        b[i] < 128,
    ensures
        !vstd::utf8::is_continuation_byte(b[i + 1]),
    decreases b.len(),
{
    let n = vstd::utf8::length_of_first_scalar(b);
    let rest = vstd::utf8::pop_first_scalar(b);
    if i + 1 < n {
    } else if i + 1 == n {
        assert(rest[0] == b[i + 1]);
    } else {
        assert(rest[i - n] == b[i]);
        assert(rest[i - n + 1] == b[i + 1]);
        lemma_after_ascii(rest, i - n);
    }
}

/// An ASCII byte and the byte after it both begin characters.
pub proof fn lemma_ascii_splits(s: Seq<char>, i: int)
    requires
        0 <= i < vstd::utf8::encode_utf8(s).len(),
        vstd::utf8::encode_utf8(s)[i] < 128,
    ensures
        starts_char(vstd::utf8::encode_utf8(s), i),
        starts_char(vstd::utf8::encode_utf8(s), i + 1),
{
    vstd::utf8::encode_utf8_valid_utf8(s);
    if i + 1 < vstd::utf8::encode_utf8(s).len() {
        lemma_after_ascii(vstd::utf8::encode_utf8(s), i);
    }
}

/// Encoding distributes over concatenation.
pub proof fn lemma_encode_concat(a: Seq<char>, b: Seq<char>)
    ensures
        vstd::utf8::encode_utf8(a + b) == vstd::utf8::encode_utf8(a) + vstd::utf8::encode_utf8(b),
    decreases a.len(),
{
    if a.len() == 0 {
        assert(a + b =~= b);
        assert(vstd::utf8::encode_utf8(a) =~= Seq::<u8>::empty());
        assert(Seq::<u8>::empty() + vstd::utf8::encode_utf8(b) =~= vstd::utf8::encode_utf8(b));
    } else {
        lemma_encode_concat(a.drop_first(), b);
        assert((a + b).drop_first() =~= a.drop_first() + b);
        assert((a + b)[0] == a[0]);
        let e0 = vstd::utf8::encode_scalar(a[0] as u32);
        assert(vstd::utf8::encode_utf8(a + b) == e0 + vstd::utf8::encode_utf8((a + b).drop_first()));
        assert(e0 + (vstd::utf8::encode_utf8(a.drop_first()) + vstd::utf8::encode_utf8(b)) =~= (e0
            + vstd::utf8::encode_utf8(a.drop_first())) + vstd::utf8::encode_utf8(b));
    }
}

/// `s` followed by `t`, with the bytes of the result being the bytes of the
/// two.
pub fn append_str(s: &mut String, t: &str)
    ensures
        final(s)@ == old(s)@ + t@,
        vstd::utf8::encode_utf8(final(s)@) == vstd::utf8::encode_utf8(old(s)@) + t.spec_bytes(),
{
    proof {
        lemma_encode_concat(s@, t@);
    }
    s.append(t);
}

} // verus!

verus! {

/// `a` sorts before `b`: compared byte by byte, a proper prefix first, as
/// std orders strings.
pub open spec fn bytes_less(a: Seq<u8>, b: Seq<u8>) -> bool
    decreases a.len(),
{
    if b.len() == 0 {
        false
    } else if a.len() == 0 {
        true
    } else if a[0] != b[0] {
        a[0] < b[0]
    } else {
        bytes_less(a.drop_first(), b.drop_first())
    }
}

pub proof fn lemma_bytes_less_irreflexive(a: Seq<u8>)
    ensures
        !bytes_less(a, a),
    decreases a.len(),
{
    if a.len() > 0 {
        lemma_bytes_less_irreflexive(a.drop_first());
    }
}

pub proof fn lemma_bytes_less_total(a: Seq<u8>, b: Seq<u8>)
    ensures
        a != b ==> (bytes_less(a, b) || bytes_less(b, a)),
        !(bytes_less(a, b) && bytes_less(b, a)),
    decreases a.len(),
{
    if a.len() > 0 && b.len() > 0 && a[0] == b[0] {
        lemma_bytes_less_total(a.drop_first(), b.drop_first());
        if a.drop_first() == b.drop_first() {
            assert(a =~= seq![a[0]] + a.drop_first());
            assert(b =~= seq![b[0]] + b.drop_first());
        }
    } else if a.len() == 0 && b.len() == 0 {
        assert(a =~= b);
    }
}

pub proof fn lemma_bytes_less_transitive(a: Seq<u8>, b: Seq<u8>, c: Seq<u8>)
    requires
        bytes_less(a, b),
        bytes_less(b, c),
    ensures
        bytes_less(a, c),
    decreases a.len(),
{
    if a.len() > 0 && b.len() > 0 && c.len() > 0 && a[0] == b[0] && b[0] == c[0] {
        lemma_bytes_less_transitive(a.drop_first(), b.drop_first(), c.drop_first());
    }
}

/// Whether `a` sorts before `b`, byte by byte.
pub fn less_bytes(a: &[u8], b: &[u8]) -> (r: bool)
    ensures
        r == bytes_less(a@, b@),
{
    let mut k: usize = 0;
    assert(a@.skip(0) =~= a@);
    assert(b@.skip(0) =~= b@);
    while k < a.len() && k < b.len() && a[k] == b[k]
        invariant
            k <= a@.len(),
            k <= b@.len(),
            bytes_less(a@, b@) == bytes_less(a@.skip(k as int), b@.skip(k as int)),
        decreases a@.len() - k,
    {
        proof {
            assert(a@.skip(k as int).drop_first() =~= a@.skip(k + 1));
            assert(b@.skip(k as int).drop_first() =~= b@.skip(k + 1));
        }
        k += 1;
    }
    if k == b.len() {
        false
    } else if k == a.len() {
        true
    } else {
        a[k] < b[k]
    }
}

} // verus!
