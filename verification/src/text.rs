//! Character-level view of text: decoding a string into its characters and
//! the UTF-8 byte offset at which each one starts.
use vstd::prelude::*;
use vstd::utf8::*;
use vstd::std_specs::iter::IteratorSpec;

verus! {

broadcast use vstd::string::group_string_axioms;

/// Number of bytes in the UTF-8 encoding of `c`.
pub open spec fn char_width(c: char) -> nat {
    let v = c as u32;
    if v < 0x80 {
        1
    } else if v < 0x800 {
        2
    } else if v < 0x10000 {
        3
    } else {
        4
    }
}

/// Number of bytes in the UTF-8 encoding of `s`.
pub open spec fn byte_len(s: Seq<char>) -> nat
    decreases s.len(),
{
    if s.len() == 0 {
        0
    } else {
        char_width(s[0]) + byte_len(s.drop_first())
    }
}

/// Byte offset at which the character with index `i` starts.
pub open spec fn byte_offset(s: Seq<char>, i: int) -> nat {
    byte_len(s.take(i))
}

pub proof fn lemma_byte_len_concat(a: Seq<char>, b: Seq<char>)
    ensures
        byte_len(a + b) == byte_len(a) + byte_len(b),
    decreases a.len(),
{
    if a.len() == 0 {
        assert(a + b =~= b);
    } else {
        assert((a + b).drop_first() =~= a.drop_first() + b);
        lemma_byte_len_concat(a.drop_first(), b);
    }
}

pub proof fn lemma_byte_offset_step(s: Seq<char>, i: int)
    requires
        0 <= i < s.len(),
    ensures
        byte_offset(s, i + 1) == byte_offset(s, i) + char_width(s[i]),
{
    assert(s.take(i + 1) =~= s.take(i) + seq![s[i]]);
    lemma_byte_len_concat(s.take(i), seq![s[i]]);
    assert(seq![s[i]].drop_first() =~= Seq::<char>::empty());
    assert(byte_len(seq![s[i]]) == char_width(s[i]) + byte_len(Seq::<char>::empty()));
}

pub proof fn lemma_char_width_encoding(c: char)
    ensures
        encode_scalar(c as u32).len() == char_width(c),
{
    char_is_scalar(c);
}

pub proof fn lemma_byte_len_is_encoding_len(s: Seq<char>)
    ensures
        byte_len(s) == encode_utf8(s).len(),
    decreases s.len(),
{
    if s.len() > 0 {
        lemma_char_width_encoding(s[0]);
        lemma_byte_len_is_encoding_len(s.drop_first());
    }
}

pub proof fn lemma_byte_offset_monotonic(s: Seq<char>, i: int, j: int)
    requires
        0 <= i <= j <= s.len(),
    ensures
        byte_offset(s, i) <= byte_offset(s, j),
    decreases j - i,
{
    if i < j {
        lemma_byte_offset_step(s, j - 1);
        lemma_byte_offset_monotonic(s, i, j - 1);
    }
}

/// `offsets` holds, for every character index of `chars` and for its end,
/// the UTF-8 byte offset at which that position starts.
pub open spec fn offsets_ok(chars: Seq<char>, offsets: Seq<usize>) -> bool {
    &&& offsets.len() == chars.len() + 1
    &&& forall|i: int| 0 <= i <= chars.len() ==> offsets[i] == byte_offset(chars, i)
}

pub proof fn lemma_offsets_step(chars: Seq<char>, offsets: Seq<usize>, i: int)
    requires
        offsets_ok(chars, offsets),
        0 <= i < chars.len(),
    ensures
        offsets[i + 1] == offsets[i] + char_width(chars[i]),
        offsets[i] < offsets[i + 1],
{
    lemma_byte_offset_step(chars, i);
}

pub proof fn lemma_offsets_increase(chars: Seq<char>, offsets: Seq<usize>, i: int, j: int)
    requires
        offsets_ok(chars, offsets),
        0 <= i <= j <= chars.len(),
    ensures
        offsets[i] <= offsets[j],
        i < j ==> offsets[i] < offsets[j],
    decreases j - i,
{
    if i < j {
        lemma_byte_offset_step(chars, j - 1);
        lemma_offsets_increase(chars, offsets, i, j - 1);
    }
}

/// The byte offset of every character index of `s`, and of its end.
pub open spec fn byte_offsets(s: Seq<char>) -> Seq<usize> {
    Seq::new((s.len() + 1) as nat, |i: int| byte_offset(s, i) as usize)
}

/// Width of `c` in UTF-8, computed from its scalar value.
pub fn utf8_width(c: char) -> (w: usize)
    ensures
        w == char_width(c),
{
    let v = c as u32;
    if v < 0x80 {
        1
    } else if v < 0x800 {
        2
    } else if v < 0x10000 {
        3
    } else {
        4
    }
}

/// The characters of `text`, and for each index `i` up to and including the
/// character count, the byte offset at which character `i` starts.
pub fn decode(text: &str) -> (r: (Vec<char>, Vec<usize>))
    ensures
        r.0@ == text@,
        offsets_ok(text@, r.1@),
        r.1@ == byte_offsets(text@),
        r.1@[text@.len() as int] == text.len(),
{
    let mut chars: Vec<char> = Vec::new();
    let mut offsets: Vec<usize> = Vec::new();
    offsets.push(0);
    let mut it = text.chars();
    let ghost s = text@;
    let mut total: usize = 0;
    let byte_count = text.as_bytes().len();
    proof {
        lemma_byte_len_is_encoding_len(s);
        assert(s.take(0) =~= Seq::<char>::empty());
    }
    loop
        invariant
            s == text@,
            it.remaining() == s.skip(chars@.len() as int),
            chars@ == s.take(chars@.len() as int),
            chars@.len() <= s.len(),
            offsets@.len() == chars@.len() + 1,
            forall|i: int| 0 <= i <= chars@.len() ==> offsets@[i] == byte_offset(s, i),
            total == byte_offset(s, chars@.len() as int),
            byte_len(s) == byte_count,
            byte_count == text.len(),
        decreases s.len() - chars@.len(),
    {
        let ghost n = chars@.len() as int;
        match it.next() {
            Some(c) => {
                proof {
                    assert(s.skip(n).len() > 0);
                    assert(c == s[n]);
                    lemma_byte_offset_step(s, n);
                    lemma_byte_offset_monotonic(s, n + 1, s.len() as int);
                    assert(s.take(s.len() as int) =~= s);
                }
                total = total + utf8_width(c);
                chars.push(c);
                offsets.push(total);
                proof {
                    assert(s.skip(n).drop_first() =~= s.skip(n + 1));
                    assert(chars@ =~= s.take(n + 1));
                }
            },
            None => {
                proof {
                    assert(s.skip(n).len() == 0);
                    assert(chars@ =~= s);
                    assert(s.take(s.len() as int) =~= s);
                }
                assert(offsets@[s.len() as int] == byte_offset(s, s.len() as int));
                assert(offsets@ =~= byte_offsets(s));
                return (chars, offsets);
            },
        }
    }
}

} // verus!

verus! {

/// Whether `c` has the Unicode `Alphabetic` property.
pub uninterp spec fn alphabetic(c: char) -> bool;

/// Whether `c` has a Unicode numeric general category (`Nd`, `Nl` or `No`).
pub uninterp spec fn numeric(c: char) -> bool;

/// Whether `c` has the Unicode `White_Space` property: the 25 code points
/// U+0009..U+000D, U+0020, U+0085, U+00A0, U+1680, U+2000..U+200A, U+2028,
/// U+2029, U+202F, U+205F and U+3000.
pub closed spec fn whitespace(c: char) -> bool {
    ('\u{9}' <= c <= '\u{d}') || c == ' ' || c == '\u{85}' || c == '\u{a0}' || c == '\u{1680}'
        || ('\u{2000}' <= c <= '\u{200a}') || c == '\u{2028}' || c == '\u{2029}' || c == '\u{202f}'
        || c == '\u{205f}' || c == '\u{3000}'
}

/// The members of the `White_Space` property, spelled out.
pub proof fn lemma_whitespace(c: char)
    ensures
        whitespace(c) == (('\u{9}' <= c <= '\u{d}') || c == ' ' || c == '\u{85}' || c == '\u{a0}' || c
            == '\u{1680}' || ('\u{2000}' <= c <= '\u{200a}') || c == '\u{2028}' || c == '\u{2029}' || c
            == '\u{202f}' || c == '\u{205f}' || c == '\u{3000}'),
{
}

/// Whether `c` has the Unicode `Uppercase` property.
pub uninterp spec fn uppercase(c: char) -> bool;

/// Whether `c` has the Unicode `Lowercase` property.
pub uninterp spec fn lowercase(c: char) -> bool;

/// The full Unicode lowercase mapping of a whole string.
pub uninterp spec fn lowercased(s: Seq<char>) -> Seq<char>;

/// The full Unicode uppercase mapping of a whole string.
pub uninterp spec fn uppercased(s: Seq<char>) -> Seq<char>;

/// `char::is_alphabetic`: the documentation defines it as the `Alphabetic`
/// property; the table itself is not written out here.
#[verifier::external_body]
pub(crate) fn is_alphabetic(c: char) -> (b: bool)
    ensures
        b == alphabetic(c),
{
    c.is_alphabetic()
}

/// `char::is_alphanumeric`: documented as `is_alphabetic() || is_numeric()`.
#[verifier::external_body]
pub(crate) fn is_alphanumeric(c: char) -> (b: bool)
    ensures
        b == (alphabetic(c) || numeric(c)),
{
    c.is_alphanumeric()
}

/// Whether `c` is white space, as `char::is_whitespace` documents it: the
/// `White_Space` property.
pub fn is_whitespace(c: char) -> (b: bool)
    ensures
        b == whitespace(c),
{
    ('\u{9}' <= c && c <= '\u{d}') || c == ' ' || c == '\u{85}' || c == '\u{a0}' || c == '\u{1680}'
        || ('\u{2000}' <= c && c <= '\u{200a}') || c == '\u{2028}' || c == '\u{2029}' || c == '\u{202f}'
        || c == '\u{205f}' || c == '\u{3000}'
}

/// `char::is_uppercase`: the `Uppercase` property.
#[verifier::external_body]
pub(crate) fn is_uppercase(c: char) -> (b: bool)
    ensures
        b == uppercase(c),
{
    c.is_uppercase()
}

/// `char::is_lowercase`: the `Lowercase` property.
#[verifier::external_body]
pub(crate) fn is_lowercase(c: char) -> (b: bool)
    ensures
        b == lowercase(c),
{
    c.is_lowercase()
}

/// `str::to_lowercase` applied to the string made of `chars`; the result is
/// named, the Unicode case tables are not written out.
#[verifier::external_body]
pub(crate) fn to_lowercase(chars: &[char]) -> (r: Vec<char>)
    ensures
        r@ == lowercased(chars@),
{
    chars.iter().collect::<String>().to_lowercase().chars().collect()
}

/// `str::to_uppercase` applied to the string made of `chars`; the result is
/// named, the Unicode case tables are not written out.
#[verifier::external_body]
pub(crate) fn to_uppercase(chars: &[char]) -> (r: Vec<char>)
    ensures
        r@ == uppercased(chars@),
{
    chars.iter().collect::<String>().to_uppercase().chars().collect()
}

/// ASCII decimal digit.
pub open spec fn ascii_digit(c: char) -> bool {
    '0' <= c <= '9'
}

pub fn is_ascii_digit(c: char) -> (b: bool)
    ensures
        b == ascii_digit(c),
{
    '0' <= c && c <= '9'
}

/// ASCII lowercase mapping; every other character is unchanged.
pub open spec fn ascii_lower(c: char) -> char {
    if 'A' <= c <= 'Z' {
        (((c as u32) + 32) as u8) as char
    } else {
        c
    }
}

pub fn to_ascii_lower(c: char) -> (r: char)
    ensures
        r == ascii_lower(c),
{
    if 'A' <= c && c <= 'Z' {
        (((c as u32) + 32) as u8) as char
    } else {
        c
    }
}

} // verus!

verus! {

/// Whether the characters `a` spell exactly the string `b`.
pub fn chars_equal_str(a: &[char], b: &str) -> (r: bool)
    ensures
        r == (a@ == b@),
{
    let (bc, _) = decode(b);
    if a.len() != bc.len() {
        return false;
    }
    let mut i: usize = 0;
    while i < a.len()
        invariant
            a@.len() == bc@.len(),
            bc@ == b@,
            0 <= i <= a@.len(),
            forall|j: int| 0 <= j < i ==> a@[j] == bc@[j],
        decreases a@.len() - i,
    {
        if a[i] != bc[i] {
            return false;
        }
        i = i + 1;
    }
    assert(a@ =~= bc@);
    true
}

/// The characters of `s` with indices `start..end`, as a vector.
pub fn sub_chars(s: &[char], start: usize, end: usize) -> (r: Vec<char>)
    requires
        start <= end <= s@.len(),
    ensures
        r@ == s@.subrange(start as int, end as int),
{
    let mut r: Vec<char> = Vec::new();
    let mut i = start;
    while i < end
        invariant
            start <= i <= end <= s@.len(),
            r@ == s@.subrange(start as int, i as int),
        decreases end - i,
    {
        r.push(s[i]);
        i = i + 1;
        assert(r@ =~= s@.subrange(start as int, i as int));
    }
    r
}

} // verus!

verus! {

/// The first index in `a..b` whose character is not whitespace, or `b`.
pub open spec fn trim_start_index(s: Seq<char>, a: int, b: int) -> int
    decreases b - a,
{
    if a < b && whitespace(s[a]) {
        trim_start_index(s, a + 1, b)
    } else {
        a
    }
}

/// One past the last index in `a..b` whose character is not whitespace, or `a`.
pub open spec fn trim_end_index(s: Seq<char>, a: int, b: int) -> int
    decreases b - a,
{
    if a < b && whitespace(s[b - 1]) {
        trim_end_index(s, a, b - 1)
    } else {
        b
    }
}

pub proof fn lemma_trim_start(s: Seq<char>, a: int, b: int)
    requires
        a <= b,
    ensures
        a <= trim_start_index(s, a, b) <= b,
        forall|j: int| a <= j < trim_start_index(s, a, b) ==> whitespace(#[trigger] s[j]),
        trim_start_index(s, a, b) < b ==> !whitespace(s[trim_start_index(s, a, b)]),
    decreases b - a,
{
    if a < b && whitespace(s[a]) {
        lemma_trim_start(s, a + 1, b);
    }
}

pub proof fn lemma_trim_end(s: Seq<char>, a: int, b: int)
    requires
        a <= b,
    ensures
        a <= trim_end_index(s, a, b) <= b,
        forall|j: int| trim_end_index(s, a, b) <= j < b ==> whitespace(#[trigger] s[j]),
        a < trim_end_index(s, a, b) ==> !whitespace(s[trim_end_index(s, a, b) - 1]),
    decreases b - a,
{
    if a < b && whitespace(s[b - 1]) {
        lemma_trim_end(s, a, b - 1);
    }
}

/// Index form of `str::trim` on the characters `a..b`: the bounds of the
/// trimmed part.
pub fn trim_bounds(s: &[char], a: usize, b: usize) -> (r: (usize, usize))
    requires
        a <= b <= s@.len(),
    ensures
        r.0 == trim_start_index(s@, a as int, b as int),
        r.1 == trim_end_index(s@, r.0 as int, b as int),
        a <= r.0 <= r.1 <= b,
{
    let mut lo = a;
    while lo < b && is_whitespace(s[lo])
        invariant
            a <= lo <= b <= s@.len(),
            trim_start_index(s@, a as int, b as int) == trim_start_index(s@, lo as int, b as int),
        decreases b - lo,
    {
        lo = lo + 1;
    }
    let mut hi = b;
    while lo < hi && is_whitespace(s[hi - 1])
        invariant
            a <= lo <= hi <= b <= s@.len(),
            trim_end_index(s@, lo as int, b as int) == trim_end_index(s@, lo as int, hi as int),
        decreases hi - lo,
    {
        hi = hi - 1;
    }
    (lo, hi)
}

} // verus!

verus! {

/// The character index whose byte offset is `byte`, when there is one.
pub open spec fn char_index_at(s: Seq<char>, byte: int) -> int {
    choose|j: int| 0 <= j <= s.len() && byte_offset(s, j) == byte
}

/// `byte` is the offset of a character boundary of `s`.
pub open spec fn is_boundary(s: Seq<char>, byte: int) -> bool {
    exists|j: int| 0 <= j <= s.len() && byte_offset(s, j) == byte
}

pub proof fn lemma_char_index_at(s: Seq<char>, j: int)
    requires
        0 <= j <= s.len(),
    ensures
        is_boundary(s, byte_offset(s, j) as int),
        char_index_at(s, byte_offset(s, j) as int) == j,
{
    let b = byte_offset(s, j) as int;
    assert(0 <= j <= s.len() && byte_offset(s, j) == b);
    let k = char_index_at(s, b);
    if k < j {
        lemma_byte_offset_monotonic(s, k + 1, j);
        lemma_byte_offset_step(s, k);
    } else if k > j {
        lemma_byte_offset_monotonic(s, j + 1, k);
        lemma_byte_offset_step(s, j);
    }
}

/// Finds the character index at or after `from` whose byte offset is `byte`.
pub fn find_char_index(s: &[char], offsets: &[usize], from: usize, byte: usize) -> (r: Option<usize>)
    requires
        offsets_ok(s@, offsets@),
        from <= s@.len(),
    ensures
        match r {
            Some(j) => from <= j <= s@.len() && offsets@[j as int] == byte && j == char_index_at(
                s@,
                byte as int,
            ),
            None => forall|j: int| from <= j <= s@.len() ==> offsets@[j] != byte,
        },
{
    let mut j = from;
    while j <= s.len()
        invariant
            offsets_ok(s@, offsets@),
            from <= j <= s@.len() + 1,
            forall|k: int| from <= k < j ==> offsets@[k] != byte,
        decreases s@.len() + 1 - j,
    {
        if offsets[j] == byte {
            proof {
                lemma_char_index_at(s@, j as int);
            }
            return Some(j);
        }
        j = j + 1;
    }
    None
}

} // verus!

verus! {

/// Whether two character sequences are equal.
pub fn chars_equal(a: &[char], b: &[char]) -> (r: bool)
    ensures
        r == (a@ == b@),
{
    if a.len() != b.len() {
        return false;
    }
    let mut i: usize = 0;
    while i < a.len()
        invariant
            a@.len() == b@.len(),
            0 <= i <= a@.len(),
            forall|j: int| 0 <= j < i ==> a@[j] == b@[j],
        decreases a@.len() - i,
    {
        if a[i] != b[i] {
            return false;
        }
        i = i + 1;
    }
    assert(a@ =~= b@);
    true
}

} // verus!

verus! {

/// Whether two strings are equal.
pub fn str_equal(a: &str, b: &str) -> (r: bool)
    ensures
        r == (a@ == b@),
{
    let (ac, _) = decode(a);
    chars_equal_str(ac.as_slice(), b)
}

/// Appends the characters of `t` to `out`.
pub fn push_text(out: &mut String, t: &str)
    ensures
        final(out)@ == old(out)@ + t@,
{
    let (tc, _) = decode(t);
    let mut i: usize = 0;
    while i < tc.len()
        invariant
            0 <= i <= tc@.len(),
            tc@ == t@,
            out@ == old(out)@ + tc@.subrange(0, i as int),
        decreases tc@.len() - i,
    {
        out.push(tc[i]);
        proof {
            assert(tc@.subrange(0, i + 1) =~= tc@.subrange(0, i as int).push(tc@[i as int]));
        }
        i = i + 1;
    }
    assert(tc@.subrange(0, tc@.len() as int) =~= tc@);
}

} // verus!

verus! {

/// `String::push`: documented as appending the given character to the end of
/// the string.
pub assume_specification[ String::push ](s: &mut String, ch: char)
    ensures
        final(s)@ == old(s)@.push(ch),
;

/// The ASCII character of decimal digit `d`.
pub open spec fn digit_char(d: int) -> char {
    (48 + d) as char
}

/// The decimal digits of `n`, most significant first, without leading zeros.
pub open spec fn decimal(n: nat) -> Seq<char>
    decreases n,
{
    if n < 10 {
        seq![digit_char(n as int)]
    } else {
        decimal(n / 10).push(digit_char((n % 10) as int))
    }
}

/// Appends the decimal digits of `n` to `out`.
pub fn push_decimal(out: &mut String, n: u64)
    ensures
        final(out)@ == old(out)@ + decimal(n as nat),
    decreases n,
{
    if n >= 10 {
        push_decimal(out, n / 10);
    }
    let d: u8 = (n % 10) as u8;
    out.push((48u8 + d) as char);
    proof {
        assert(old(out)@ + decimal(n as nat) =~= (old(out)@ + if n >= 10 { decimal((n / 10) as nat) } else { seq![] }).push(digit_char((n % 10) as int)));
    }
}

/// The lowercase hexadecimal character of `n`, for `n < 16`.
pub open spec fn hex_digit(n: int) -> char {
    if n < 10 {
        (48 + n) as char
    } else {
        (87 + n) as char
    }
}

/// Two lowercase hexadecimal characters per byte, high half first.
pub open spec fn hex_of(b: Seq<u8>) -> Seq<char>
    decreases b.len(),
{
    if b.len() == 0 {
        seq![]
    } else {
        hex_of(b.drop_last()) + seq![hex_digit((b.last() / 16) as int), hex_digit((b.last() % 16) as int)]
    }
}

fn hex_char(n: u8) -> (c: char)
    requires
        n < 16,
    ensures
        c == hex_digit(n as int),
{
    if n < 10 {
        (48u8 + n) as char
    } else {
        (87u8 + n) as char
    }
}

/// Appends the lowercase hexadecimal form of `bytes` to `out`.
pub fn push_hex(out: &mut String, bytes: &[u8])
    ensures
        final(out)@ == old(out)@ + hex_of(bytes@),
{
    let mut i: usize = 0;
    while i < bytes.len()
        invariant
            0 <= i <= bytes@.len(),
            out@ == old(out)@ + hex_of(bytes@.subrange(0, i as int)),
        decreases bytes@.len() - i,
    {
        let b = bytes[i];
        out.push(hex_char(b / 16));
        out.push(hex_char(b % 16));
        proof {
            let next = bytes@.subrange(0, i + 1);
            assert(next.drop_last() =~= bytes@.subrange(0, i as int));
            assert(next.last() == b);
        }
        i = i + 1;
    }
    assert(bytes@.subrange(0, bytes@.len() as int) =~= bytes@);
}

} // verus!

verus! {

/// `char::is_ascii_alphanumeric`: an ASCII letter or digit.
pub open spec fn alphanumeric_ascii(c: char) -> bool {
    ('0' <= c <= '9') || ('a' <= c <= 'z') || ('A' <= c <= 'Z')
}

pub fn is_alphanumeric_ascii(c: char) -> (b: bool)
    ensures
        b == alphanumeric_ascii(c),
{
    ('0' <= c && c <= '9') || ('a' <= c && c <= 'z') || ('A' <= c && c <= 'Z')
}

} // verus!
