//! The field codec: scalar values and the bytes that stand for them in a
//! field.
//!
//! | leaf | bytes |
//! |---|---|
//! | boolean | `true` or `false` |
//! | integer | minimal decimal, `-` before a negative one |
//! | character | its UTF-8 encoding |
//! | string | its UTF-8 encoding |
//! | bytes | themselves |
//! | unit, none | nothing |

use vstd::prelude::*;
use vstd::utf8::{decode_utf8, encode_utf8, valid_utf8};
use vstd::string::StringSliceAdditionalSpecFns;
use vstd::string::StrSliceExecFns;

verus! {

broadcast use vstd::utf8::group_utf8_lib;

/// `itoa::Buffer`: scratch space that holds the text of one integer.
#[verifier::external_type_specification]
#[verifier::external_body]
pub struct ExBuffer(itoa::Buffer);

/// The bytes of `true` and of `false`.
pub open spec fn bool_text(v: bool) -> Seq<u8> {
    if v {
        seq![0x74u8, 0x72u8, 0x75u8, 0x65u8]
    } else {
        seq![0x66u8, 0x61u8, 0x6cu8, 0x73u8, 0x65u8]
    }
}

/// The boolean that a field stands for, if it is one of the two literals.
pub open spec fn bool_value(text: Seq<u8>) -> Option<bool> {
    if text == bool_text(true) {
        Some(true)
    } else if text == bool_text(false) {
        Some(false)
    } else {
        None
    }
}

/// Whether `b` is an ASCII digit.
pub open spec fn is_digit(b: u8) -> bool {
    0x30 <= b <= 0x39
}

/// The decimal digits of `n`, most significant first, without leading zeros.
pub open spec fn digits(n: nat) -> Seq<u8>
    decreases n,
{
    if n < 10 {
        seq![(0x30 + n) as u8]
    } else {
        digits(n / 10).push((0x30 + n % 10) as u8)
    }
}

/// The minimal decimal text of `v`: its digits, behind `-` if it is negative.
pub open spec fn int_text(v: int) -> Seq<u8> {
    if v < 0 {
        seq![0x2du8] + digits((-v) as nat)
    } else {
        digits(v as nat)
    }
}

/// The number that a run of ASCII digits denotes, 0 for the empty run.
pub open spec fn digits_value(s: Seq<u8>) -> nat
    decreases s.len(),
{
    if s.len() == 0 {
        0
    } else {
        (10 * digits_value(s.drop_last()) + (s.last() - 0x30)) as nat
    }
}

/// The number of ASCII digits that `s` begins with.
pub open spec fn digit_run(s: Seq<u8>) -> nat
    decreases s.len(),
{
    if s.len() > 0 && is_digit(s[0]) {
        1 + digit_run(s.drop_first())
    } else {
        0
    }
}

/// Whether `text` begins with a sign.
pub open spec fn has_sign(text: Seq<u8>) -> bool {
    text.len() > 0 && (text[0] == 0x2b || text[0] == 0x2d)
}

/// `text` without its sign.
pub open spec fn magnitude(text: Seq<u8>) -> Seq<u8> {
    if has_sign(text) {
        text.drop_first()
    } else {
        text
    }
}

/// The number of the given digits with the sign of `text`.
pub open spec fn signed_value(text: Seq<u8>, run: Seq<u8>) -> int {
    if text.len() > 0 && text[0] == 0x2d {
        -(digits_value(run) as int)
    } else {
        digits_value(run) as int
    }
}

/// The integer that a field stands for: an optional sign and then digits,
/// at least one, up to the end of the field. Leading zeros are accepted.
pub open spec fn decimal_value(text: Seq<u8>) -> Option<int> {
    let body = magnitude(text);
    if body.len() > 0 && digit_run(body) == body.len() {
        Some(signed_value(text, body))
    } else {
        None
    }
}

/// The integer at the front of `text`: an optional sign and the digits that
/// follow it, whatever comes behind them. A sign alone counts as 0; a text
/// that begins with neither a sign nor a digit has no number.
pub open spec fn leading_number(text: Seq<u8>) -> Option<int> {
    let body = magnitude(text);
    if !has_sign(text) && digit_run(body) == 0 {
        None
    } else {
        Some(signed_value(text, body.take(digit_run(body) as int)))
    }
}

/// `v`, if it lies between `min` and `max`.
pub open spec fn within(v: Option<int>, min: int, max: int) -> Option<int> {
    match v {
        Some(n) if min <= n <= max => Some(n),
        _ => None,
    }
}

/// `itoa::Buffer::new`: scratch space for one formatted integer.
#[verifier::external_body]
pub(crate) fn new_buffer() -> itoa::Buffer {
    itoa::Buffer::new()
}

/// `itoa::Buffer::format`: the minimal decimal text of `v`.
#[verifier::external_body]
pub(crate) fn format_integer<'a>(buffer: &'a mut itoa::Buffer, v: i128) -> (text: &'a [u8])
    ensures
        text@ == int_text(v as int),
{
    buffer.format(v).as_bytes()
}

/// `atoi::atoi`: the integer at the front of `text`, unless there is none
/// or it does not fit.
#[verifier::external_body]
pub(crate) fn leading_integer(text: &[u8]) -> (r: Option<i128>)
    ensures
        match within(leading_number(text@), i128::MIN as int, i128::MAX as int) {
            Some(v) => r == Some(v as i128),
            None => r is None,
        },
{
    atoi::atoi::<i128>(text)
}

/// `core::str::from_utf8`: the string that `bytes` encode, if they are
/// well-formed UTF-8.
#[verifier::external_body]
pub(crate) fn utf8_str<'a>(bytes: &'a [u8]) -> (r: Option<&'a str>)
    ensures
        r is Some <==> valid_utf8(bytes@),
        r matches Some(s) ==> s.spec_bytes() == bytes@,
{
    core::str::from_utf8(bytes).ok()
}

/// `char::encode_utf8`: the UTF-8 encoding of `c`, written into `buffer`.
#[verifier::external_body]
pub(crate) fn char_utf8<'a>(c: char, buffer: &'a mut [u8; 4]) -> (bytes: &'a [u8])
    ensures
        bytes@ == encode_utf8(seq![c]),
{
    c.encode_utf8(buffer).as_bytes()
}

/// The integer that a field stands for, if it lies between `min` and `max`.
pub open spec fn int_value(text: Seq<u8>, min: int, max: int) -> Option<int> {
    within(decimal_value(text), min, max)
}

/// The character that a field stands for: the field is the UTF-8 encoding of
/// exactly one code point.
pub open spec fn char_value(text: Seq<u8>) -> Option<char> {
    if valid_utf8(text) && decode_utf8(text).len() == 1 {
        Some(decode_utf8(text)[0])
    } else {
        None
    }
}

/// The string that a field stands for: the field is well-formed UTF-8.
pub open spec fn str_value(text: Seq<u8>) -> Option<Seq<char>> {
    if valid_utf8(text) {
        Some(decode_utf8(text))
    } else {
        None
    }
}

/// A run is all digits exactly when each of its bytes is one.
pub proof fn lemma_digit_run(s: Seq<u8>)
    ensures
        digit_run(s) <= s.len(),
        digit_run(s) == s.len() <==> forall|i: int| 0 <= i < s.len() ==> is_digit(#[trigger] s[i]),
    decreases s.len(),
{
    if s.len() > 0 {
        let rest = s.drop_first();
        lemma_digit_run(rest);
        if is_digit(s[0]) {
            if digit_run(rest) == rest.len() {
                assert forall|i: int| 0 <= i < s.len() implies is_digit(#[trigger] s[i]) by {
                    if i > 0 {
                        assert(s[i] == rest[i - 1]);
                    }
                }
            } else {
                let j = choose|j: int| 0 <= j < rest.len() && !is_digit(#[trigger] rest[j]);
                assert(!is_digit(s[j + 1]));
            }
        }
    }
}

/// The digits of a number are digits, and they denote that number.
pub proof fn lemma_digits(n: nat)
    ensures
        digits(n).len() > 0,
        digit_run(digits(n)) == digits(n).len(),
        digits_value(digits(n)) == n,
    decreases n,
{
    let d = digits(n);
    if n >= 10 {
        let head = digits(n / 10);
        lemma_digits(n / 10);
        lemma_digit_run(head);
        assert(d.drop_last() == head);
        assert(d.last() == 0x30 + n % 10);
        assert forall|i: int| 0 <= i < d.len() implies is_digit(#[trigger] d[i]) by {
            if i < head.len() {
                assert(d[i] == head[i]);
            }
        }
    } else {
        assert(d.drop_last() == Seq::<u8>::empty());
        assert(digits_value(d.drop_last()) == 0);
        assert(d.last() == 0x30 + n);
    }
    lemma_digit_run(d);
}

/// Reading back the minimal decimal text of an integer gives that integer.
pub proof fn lemma_int_text_round_trip(v: int)
    ensures
        decimal_value(int_text(v)) == Some(v),
{
    let text = int_text(v);
    if v < 0 {
        let d = digits((-v) as nat);
        lemma_digits((-v) as nat);
        assert(text.drop_first() == d);
    } else {
        let d = digits(v as nat);
        lemma_digits(v as nat);
        lemma_digit_run(d);
        assert(is_digit(d[0]));
    }
}

/// Reading back the text of a boolean gives that boolean.
pub proof fn lemma_bool_text_round_trip(v: bool)
    ensures
        bool_value(bool_text(v)) == Some(v),
{
    assert(bool_text(true).len() != bool_text(false).len());
}

/// Reading back the encoding of a character gives that character.
pub proof fn lemma_char_round_trip(c: char)
    ensures
        char_value(encode_utf8(seq![c])) == Some(c),
{
}

/// Reading back the encoding of a string gives that string.
pub proof fn lemma_str_round_trip(s: Seq<char>)
    ensures
        str_value(encode_utf8(s)) == Some(s),
{
}

/// Reads a boolean field.
pub fn parse_bool(text: &[u8]) -> (r: Option<bool>)
    ensures
        r == bool_value(text@),
{
    if text.len() == 4 && text[0] == 0x74 && text[1] == 0x72 && text[2] == 0x75 && text[3] == 0x65 {
        assert(text@ =~= bool_text(true));
        Some(true)
    } else if text.len() == 5 && text[0] == 0x66 && text[1] == 0x61 && text[2] == 0x6c && text[3]
        == 0x73 && text[4] == 0x65 {
        assert(text@ =~= bool_text(false));
        Some(false)
    } else {
        None
    }
}

/// Whether a field is a decimal integer: an optional sign, then digits and
/// nothing else.
pub fn is_decimal(text: &[u8]) -> (r: bool)
    ensures
        r == decimal_value(text@) is Some,
{
    let len = text.len();
    let start: usize = if len > 0 && (text[0] == 0x2b || text[0] == 0x2d) {
        1
    } else {
        0
    };
    let ghost body = magnitude(text@);
    proof {
        lemma_digit_run(body);
    }
    if start == len {
        return false;
    }
    let mut i: usize = start;
    while i < len
        invariant
            start <= i <= len,
            len == text@.len(),
            body == magnitude(text@),
            body == text@.skip(start as int),
            forall|j: int| 0 <= j < i - start ==> is_digit(#[trigger] body[j]),
            digit_run(body) == body.len() <==> forall|j: int|
                0 <= j < body.len() ==> is_digit(#[trigger] body[j]),
        decreases len - i,
    {
        let b = text[i];
        if b < 0x30 || b > 0x39 {
            assert(!is_digit(body[i - start]));
            return false;
        }
        i = i + 1;
    }
    true
}

/// Reads an integer field, as far as 128 bits hold it.
fn parse_integer(text: &[u8]) -> (r: Option<i128>)
    ensures
        match int_value(text@, i128::MIN as int, i128::MAX as int) {
            Some(v) => r == Some(v as i128),
            None => r is None,
        },
{
    if !is_decimal(text) {
        return None;
    }
    proof {
        let body = magnitude(text@);
        assert(body.take(body.len() as int) == body);
    }
    leading_integer(text)
}

/// Reads an integer field that must fit an `i64`.
pub fn parse_i64(text: &[u8]) -> (r: Option<i64>)
    ensures
        match int_value(text@, i64::MIN as int, i64::MAX as int) {
            Some(v) => r == Some(v as i64),
            None => r is None,
        },
{
    match parse_integer(text) {
        Some(v) if i64::MIN as i128 <= v && v <= i64::MAX as i128 => Some(v as i64),
        _ => None,
    }
}

/// Reads an integer field that must fit a `u64`.
pub fn parse_u64(text: &[u8]) -> (r: Option<u64>)
    ensures
        match int_value(text@, 0, u64::MAX as int) {
            Some(v) => r == Some(v as u64),
            None => r is None,
        },
{
    match parse_integer(text) {
        Some(v) if 0 <= v && v <= u64::MAX as i128 => Some(v as u64),
        _ => None,
    }
}

/// Reads an integer field that must fit an `i8`.
pub fn parse_i8(text: &[u8]) -> (r: Option<i8>)
    ensures
        match int_value(text@, i8::MIN as int, i8::MAX as int) {
            Some(v) => r == Some(v as i8),
            None => r is None,
        },
{
    match parse_i64(text) {
        Some(v) if i8::MIN as i64 <= v && v <= i8::MAX as i64 => Some(v as i8),
        _ => None,
    }
}

/// Reads an integer field that must fit an `i16`.
pub fn parse_i16(text: &[u8]) -> (r: Option<i16>)
    ensures
        match int_value(text@, i16::MIN as int, i16::MAX as int) {
            Some(v) => r == Some(v as i16),
            None => r is None,
        },
{
    match parse_i64(text) {
        Some(v) if i16::MIN as i64 <= v && v <= i16::MAX as i64 => Some(v as i16),
        _ => None,
    }
}

/// Reads an integer field that must fit an `i32`.
pub fn parse_i32(text: &[u8]) -> (r: Option<i32>)
    ensures
        match int_value(text@, i32::MIN as int, i32::MAX as int) {
            Some(v) => r == Some(v as i32),
            None => r is None,
        },
{
    match parse_i64(text) {
        Some(v) if i32::MIN as i64 <= v && v <= i32::MAX as i64 => Some(v as i32),
        _ => None,
    }
}

/// Reads an integer field that must fit a `u8`.
pub fn parse_u8(text: &[u8]) -> (r: Option<u8>)
    ensures
        match int_value(text@, 0, u8::MAX as int) {
            Some(v) => r == Some(v as u8),
            None => r is None,
        },
{
    match parse_u64(text) {
        Some(v) if v <= u8::MAX as u64 => Some(v as u8),
        _ => None,
    }
}

/// Reads an integer field that must fit a `u16`.
pub fn parse_u16(text: &[u8]) -> (r: Option<u16>)
    ensures
        match int_value(text@, 0, u16::MAX as int) {
            Some(v) => r == Some(v as u16),
            None => r is None,
        },
{
    match parse_u64(text) {
        Some(v) if v <= u16::MAX as u64 => Some(v as u16),
        _ => None,
    }
}

/// Reads an integer field that must fit a `u32`.
pub fn parse_u32(text: &[u8]) -> (r: Option<u32>)
    ensures
        match int_value(text@, 0, u32::MAX as int) {
            Some(v) => r == Some(v as u32),
            None => r is None,
        },
{
    match parse_u64(text) {
        Some(v) if v <= u32::MAX as u64 => Some(v as u32),
        _ => None,
    }
}

/// Reads a string field.
pub fn parse_str<'a>(text: &'a [u8]) -> (r: Option<&'a str>)
    ensures
        match str_value(text@) {
            Some(s) => r is Some && r->0@ == s,
            None => r is None,
        },
{
    utf8_str(text)
}

/// Reads a character field.
pub fn parse_char(text: &[u8]) -> (r: Option<char>)
    ensures
        r == char_value(text@),
{
    match utf8_str(text) {
        Some(s) => {
            if s.unicode_len() == 1 {
                Some(s.get_char(0))
            } else {
                None
            }
        },
        None => None,
    }
}

} // verus!
