//! Byte and text helpers shared by the lexer, the parser and the entity
//! expander: UTF-8 views of byte ranges, byte comparisons, and the pieces
//! that error messages are built from.
use vstd::prelude::*;
use vstd::string::*;
use vstd::utf8::*;

verus! {

broadcast use vstd::utf8::group_utf8_lib;

// ---------------------------------------------------------------------------
// Calls into std
// ---------------------------------------------------------------------------

/// `std::str::from_utf8`: the bytes as a string slice when they are valid
/// UTF-8 (no overlong forms, no surrogates, nothing above U+10FFFF), and
/// `None` (std's `Err`) otherwise.
#[verifier::external_body]
pub fn str_from_utf8<'a>(v: &'a [u8]) -> (res: Option<&'a str>)
    ensures
        res is Some <==> valid_utf8(v@),
        res matches Some(s) ==> s.spec_bytes() == v@,
{
    match std::str::from_utf8(v) {
        Ok(s) => Some(s),
        Err(_) => None,
    }
}

/// The characters of Unicode's `White_Space` property, which `str::trim`
/// removes.
pub open spec fn is_unicode_white_space(c: char) -> bool {
    let u = c as u32;
    ||| 0x09 <= u <= 0x0D
    ||| u == 0x20
    ||| u == 0x85
    ||| u == 0xA0
    ||| u == 0x1680
    ||| 0x2000 <= u <= 0x200A
    ||| u == 0x2028
    ||| u == 0x2029
    ||| u == 0x202F
    ||| u == 0x205F
    ||| u == 0x3000
}

/// The characters with leading white space removed.
pub open spec fn trim_start_chars(s: Seq<char>) -> Seq<char>
    decreases s.len(),
{
    if s.len() > 0 && is_unicode_white_space(s[0]) {
        trim_start_chars(s.drop_first())
    } else {
        s
    }
}

/// The characters with trailing white space removed.
pub open spec fn trim_end_chars(s: Seq<char>) -> Seq<char>
    decreases s.len(),
{
    if s.len() > 0 && is_unicode_white_space(s.last()) {
        trim_end_chars(s.drop_last())
    } else {
        s
    }
}

/// The characters with leading and trailing white space removed.
pub open spec fn trim_chars(s: Seq<char>) -> Seq<char> {
    trim_end_chars(trim_start_chars(s))
}

/// `str::trim`: the slice without leading and trailing characters of
/// Unicode's `White_Space` property.
#[verifier::external_body]
pub fn str_trim<'a>(s: &'a str) -> (res: &'a str)
    ensures
        res@ == trim_chars(s@),
{
    s.trim()
}

/// True when `b` is an ASCII hexadecimal digit.
pub open spec fn is_hex_digit(b: u8) -> bool {
    (0x30 <= b <= 0x39) || (0x41 <= b <= 0x46) || (0x61 <= b <= 0x66)
}

/// The value of an ASCII hexadecimal digit.
pub open spec fn hex_digit_value(b: u8) -> int {
    if 0x30 <= b <= 0x39 {
        b - 0x30
    } else if 0x41 <= b <= 0x46 {
        b - 0x41 + 10
    } else {
        b - 0x61 + 10
    }
}

/// The number that the digits spell in the given radix (no bound).
pub open spec fn digits_value(digits: Seq<u8>, radix: int) -> int
    decreases digits.len(),
{
    if digits.len() == 0 {
        0
    } else {
        digits_value(digits.drop_last(), radix) * radix + hex_digit_value(digits.last())
    }
}

/// What `u32::from_str_radix` returns on a string of ASCII hexadecimal
/// digits: `None` for the empty string, for a digit that the radix does not
/// have, or for a value above `u32::MAX`.
pub open spec fn parse_radix(digits: Seq<u8>, radix: int) -> Option<u32> {
    if digits.len() == 0 {
        None
    } else if exists|i: int| 0 <= i < digits.len() && hex_digit_value(#[trigger] digits[i]) >= radix {
        None
    } else if digits_value(digits, radix) > u32::MAX {
        None
    } else {
        Some(digits_value(digits, radix) as u32)
    }
}

/// `u32::from_str_radix`, on a string of ASCII hexadecimal digits and radix
/// 10 or 16: the number the digits spell, or `None` (std's `Err`) when the
/// string is empty, holds a digit the radix lacks, or overflows `u32`.
#[verifier::external_body]
pub fn u32_from_str_radix(s: &str, radix: u32) -> (res: Option<u32>)
    requires
        radix == 10 || radix == 16,
        forall|i: int| 0 <= i < s.spec_bytes().len() ==> is_hex_digit(#[trigger] s.spec_bytes()[i]),
    ensures
        res == parse_radix(s.spec_bytes(), radix as int),
{
    u32::from_str_radix(s, radix).ok()
}

/// `char::from_u32`: the character when `n` is a Unicode scalar value.
#[verifier::external_body]
pub fn char_from_u32(n: u32) -> (res: Option<char>)
    ensures
        res == (if is_scalar(n) { Some(n as char) } else { None::<char> }),
{
    char::from_u32(n)
}

/// `String::push`: the character is added at the end.
#[verifier::external_body]
pub fn string_push(s: &mut String, c: char)
    ensures
        final(s)@ == old(s)@.push(c),
{
    s.push(c)
}

/// What `{:?}` writes for a character.
pub uninterp spec fn char_debug_text(c: char) -> Seq<char>;

/// `<char as Debug>::fmt`, through `format!("{:?}")`.
#[verifier::external_body]
pub fn debug_char(c: char) -> (s: String)
    ensures
        s@ == char_debug_text(c),
{
    format!("{:?}", c)
}

/// What `{:?}` writes for a string slice.
pub uninterp spec fn str_debug_text(s: Seq<char>) -> Seq<char>;

/// `<str as Debug>::fmt`, through `format!("{:?}")`.
#[verifier::external_body]
pub fn debug_str(s: &str) -> (res: String)
    ensures
        res@ == str_debug_text(s@),
{
    format!("{:?}", s)
}

// ---------------------------------------------------------------------------
// Verified helpers
// ---------------------------------------------------------------------------

/// Byte-wise equality of two slices.
pub fn bytes_eq(a: &[u8], b: &[u8]) -> (r: bool)
    ensures
        r == (a@ == b@),
{
    if a.len() != b.len() {
        return false;
    }
    let mut i: usize = 0;
    while i < a.len()
        invariant
            a@.len() == b@.len(),
            0 <= i <= a@.len(),
            forall|k: int| 0 <= k < i ==> a@[k] == b@[k],
        decreases a@.len() - i,
    {
        if a[i] != b[i] {
            return false;
        }
        i = i + 1;
    }
    proof {
        assert(a@ =~= b@);
    }
    true
}

/// Equality of two string slices, by their UTF-8 bytes.
pub fn str_eq(a: &str, b: &str) -> (r: bool)
    ensures
        r == (a.spec_bytes() == b.spec_bytes()),
        r == (a@ == b@),
{
    let r = bytes_eq(a.as_bytes(), b.as_bytes());
    proof {
        encode_utf8_decode_utf8(a@);
        encode_utf8_decode_utf8(b@);
    }
    r
}

/// True when `s` starts with `prefix`.
pub open spec fn seq_starts_with(s: Seq<u8>, prefix: Seq<u8>) -> bool {
    prefix.len() <= s.len() && s.subrange(0, prefix.len() as int) == prefix
}

/// True when the bytes of `src` from `at` on start with `prefix`
/// (`src[at..].starts_with(prefix)`).
pub fn starts_with_at(src: &[u8], at: usize, prefix: &[u8]) -> (r: bool)
    requires
        at <= src@.len(),
    ensures
        r == seq_starts_with(src@.subrange(at as int, src@.len() as int), prefix@),
{
    let ghost rest = src@.subrange(at as int, src@.len() as int);
    let n = src.len();
    if prefix.len() > n - at {
        return false;
    }
    let mut i: usize = 0;
    while i < prefix.len()
        invariant
            at + prefix@.len() <= src@.len(),
            n == src@.len(),
            rest == src@.subrange(at as int, src@.len() as int),
            0 <= i <= prefix@.len(),
            forall|k: int| 0 <= k < i ==> src@[at + k] == prefix@[k],
        decreases prefix@.len() - i,
    {
        if src[at + i] != prefix[i] {
            assert(rest.subrange(0, prefix@.len() as int)[i as int] != prefix@[i as int]);
            return false;
        }
        i = i + 1;
    }
    assert(rest.subrange(0, prefix@.len() as int) =~= prefix@);
    true
}

// ---------------------------------------------------------------------------
// Decimal and hexadecimal text
// ---------------------------------------------------------------------------

/// The character of a digit value below 16 (lower-case letters above 9).
pub open spec fn digit_char(d: nat) -> char {
    if d < 10 {
        ((d + 0x30) as u32) as char
    } else {
        ((d - 10 + 0x61) as u32) as char
    }
}

/// The digits of `n` in the given base, most significant first, without
/// leading zeros (`0` is written as one digit).
pub open spec fn digits_text(n: nat, base: nat) -> Seq<char>
    decreases n,
{
    if base < 2 || n < base {
        seq![digit_char(n % 16)]
    } else {
        proof {
            assert(n / base < n) by (nonlinear_arith)
                requires
                    base >= 2,
                    n >= base,
            ;
        }
        digits_text(n / base, base).push(digit_char(n % base))
    }
}

fn digit_str(d: u64) -> (s: &'static str)
    requires
        d < 16,
    ensures
        s@ == seq![digit_char(d as nat)],
{
    proof {
        reveal_strlit("0");
        reveal_strlit("1");
        reveal_strlit("2");
        reveal_strlit("3");
        reveal_strlit("4");
        reveal_strlit("5");
        reveal_strlit("6");
        reveal_strlit("7");
        reveal_strlit("8");
        reveal_strlit("9");
        reveal_strlit("a");
        reveal_strlit("b");
        reveal_strlit("c");
        reveal_strlit("d");
        reveal_strlit("e");
        reveal_strlit("f");
    }
    match d {
        0 => "0",
        1 => "1",
        2 => "2",
        3 => "3",
        4 => "4",
        5 => "5",
        6 => "6",
        7 => "7",
        8 => "8",
        9 => "9",
        10 => "a",
        11 => "b",
        12 => "c",
        13 => "d",
        14 => "e",
        _ => "f",
    }
}

/// `n` written in base 10 or 16, as `{}` and `{:x}` write it.
pub fn number_text(n: u64, base: u64) -> (s: String)
    requires
        base == 10 || base == 16,
    ensures
        s@ == digits_text(n as nat, base as nat),
    decreases n,
{
    if n < base {
        String::from_str(digit_str(n))
    } else {
        let mut s = number_text(n / base, base);
        s.append(digit_str(n % base));
        s
    }
}

} // verus!
