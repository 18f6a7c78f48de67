//! Unsigned decimal numbers as text: what the device files hold.
//!
//! A device file holds one number as UTF-8 text: ASCII digits, possibly
//! after a plus sign, possibly surrounded by white space (a trailing line
//! feed is usual). A number is written back as its digits alone.

use crate::scan::{
    all_digit_bytes, bytes_value, drop_space, is_digit_byte, lemma_scanned_is_number_in, scan,
};
use vstd::prelude::*;
use vstd::utf8::{decode_utf8, valid_utf8};

verus! {

/// `c` is white space, as Unicode defines it: one of the 25 characters with
/// the property `White_Space`.
pub open spec fn is_white_space(c: char) -> bool {
    let v = c as u32;
    ||| 0x09 <= v <= 0x0d
    ||| v == 0x20
    ||| v == 0x85
    ||| v == 0xa0
    ||| v == 0x1680
    ||| 0x2000 <= v <= 0x200a
    ||| v == 0x2028
    ||| v == 0x2029
    ||| v == 0x202f
    ||| v == 0x205f
    ||| v == 0x3000
}

/// `c` is one of the ASCII digits `0` to `9`.
pub open spec fn is_digit(c: char) -> bool {
    '0' <= c <= '9'
}

/// `text` without the white space it starts with.
pub open spec fn trim_start(text: Seq<char>) -> Seq<char>
    decreases text.len(),
{
    if text.len() > 0 && is_white_space(text[0]) {
        trim_start(text.drop_first())
    } else {
        text
    }
}

/// `text` without the white space it ends with.
pub open spec fn trim_end(text: Seq<char>) -> Seq<char>
    decreases text.len(),
{
    if text.len() > 0 && is_white_space(text.last()) {
        trim_end(text.drop_last())
    } else {
        text
    }
}

/// `text` without the white space around it.
pub open spec fn trim(text: Seq<char>) -> Seq<char> {
    trim_end(trim_start(text))
}

/// `text` without the plus sign it may start with.
pub open spec fn unsigned_part(text: Seq<char>) -> Seq<char> {
    if text.len() > 0 && text[0] == '+' {
        text.drop_first()
    } else {
        text
    }
}

/// Every character of `text` is a digit.
pub open spec fn all_digits(text: Seq<char>) -> bool {
    forall|i: int| 0 <= i < text.len() ==> is_digit(#[trigger] text[i])
}

/// The number that the digits `digits` write in base ten, most significant
/// digit first.
pub open spec fn digits_value(digits: Seq<char>) -> nat
    decreases digits.len(),
{
    if digits.len() == 0 {
        0
    } else {
        digits_value(digits.drop_last()) * 10 + (digits.last() as u32 - 0x30) as nat
    }
}

/// The number that `text` holds, if it holds one: after trimming white
/// space and one optional plus sign, at least one digit and nothing but
/// digits must remain, and their value must fit in 64 bits.
pub open spec fn number_of_text(text: Seq<char>) -> Option<u64> {
    let digits = unsigned_part(trim(text));
    if digits.len() > 0 && all_digits(digits) && digits_value(digits) <= u64::MAX {
        Some(digits_value(digits) as u64)
    } else {
        None
    }
}

/// The number that `bytes` hold, if they hold one: they must be valid
/// UTF-8, and the text that they encode must hold a number.
pub open spec fn number_in(bytes: Seq<u8>) -> Option<u64> {
    if valid_utf8(bytes) {
        number_of_text(decode_utf8(bytes))
    } else {
        None
    }
}

/// `n` written in base ten as ASCII digits, without sign and without
/// leading zeros.
pub open spec fn decimal_text(n: nat) -> Seq<u8>
    decreases n,
{
    if n < 10 {
        seq![(0x30 + n) as u8]
    } else {
        decimal_text(n / 10).push((0x30 + n % 10) as u8)
    }
}

/// The text of a number is made of digits, at least one, and writes it.
proof fn lemma_decimal_text_is_digits(n: nat)
    ensures
        decimal_text(n).len() >= 1,
        all_digit_bytes(decimal_text(n)),
        bytes_value(decimal_text(n)) == n,
    decreases n,
{
    if n < 10 {
        assert(bytes_value(decimal_text(n).drop_last()) == 0);
    } else {
        lemma_decimal_text_is_digits(n / 10);
        assert(decimal_text(n).drop_last() =~= decimal_text(n / 10));
    }
}

/// The text of a number is made of digits alone, at least one, and starts
/// with a zero only where the number is zero.
pub proof fn lemma_decimal_text_shape(n: nat)
    ensures
        decimal_text(n).len() >= 1,
        forall|i: int|
            0 <= i < decimal_text(n).len() ==> 0x30 <= #[trigger] decimal_text(n)[i] <= 0x39,
        decimal_text(n)[0] == 0x30 <==> n == 0,
    decreases n,
{
    if n >= 10 {
        lemma_decimal_text_shape(n / 10);
    }
}

/// What is written for a device can be read back: the text of a number
/// holds that number.
pub proof fn lemma_text_round_trip(n: u64)
    ensures
        number_in(decimal_text(n as nat)) == Some(n),
{
    let s = decimal_text(n as nat);
    lemma_decimal_text_is_digits(n as nat);
    assert(is_digit_byte(s[0]));
    assert(is_digit_byte(s[s.len() - 1]));
    lemma_scanned_is_number_in(s);
}

/// A line feed after the text of a number, as the system ends its device
/// files, does not change what is read.
pub proof fn lemma_line_feed_is_trimmed(n: u64)
    ensures
        number_in(decimal_text(n as nat).push(0x0a)) == Some(n),
{
    let s = decimal_text(n as nat);
    let line = s.push(0x0a);
    lemma_decimal_text_is_digits(n as nat);
    assert(is_digit_byte(s[0]));
    assert(is_digit_byte(s[s.len() - 1]));
    assert(line.take(line.len() - 1) =~= s);
    assert(drop_space(s) == s);
    lemma_scanned_is_number_in(line);
}

/// Reads the number that a device file holds.
///
/// The bytes must be UTF-8 text. The text is trimmed of surrounding white
/// space; what remains must be digits, after at most one plus sign, and
/// must not exceed `u64::MAX`. Anything else, the empty file included, is
/// `None`.
pub fn read_u64(bytes: &[u8]) -> (number: Option<u64>)
    ensures
        number == number_in(bytes@),
{
    proof {
        lemma_scanned_is_number_in(bytes@);
    }
    scan(bytes)
}

/// Appends the decimal text of `n` to `out`.
fn push_decimal(n: u64, out: &mut Vec<u8>)
    ensures
        final(out)@ == old(out)@ + decimal_text(n as nat),
    decreases n,
{
    if n >= 10 {
        push_decimal(n / 10, out);
    }
    let digit: u8 = (n % 10) as u8;
    out.push(0x30 + digit);
}

/// Writes `n` as a device file takes it: decimal ASCII digits, no sign, no
/// leading zeros, no line feed.
pub fn format_u64(n: u64) -> (text: Vec<u8>)
    ensures
        text@ == decimal_text(n as nat),
{
    let mut text: Vec<u8> = Vec::new();
    push_decimal(n, &mut text);
    text
}

} // verus!
