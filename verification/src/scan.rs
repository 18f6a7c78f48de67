//! The grammar of a number in bytes, and why it is the grammar in text.
//!
//! A number is read without decoding: white space is recognised by its
//! UTF-8 encoding, digits and the plus sign by their ASCII code. This
//! module states that reading on bytes, and proves that it finds exactly
//! the number that the decoded text holds.

use crate::decimal::{
    all_digits, digits_value, is_digit, is_white_space, number_in, number_of_text, trim_end,
    trim_start, unsigned_part,
};
use vstd::prelude::*;
use vstd::utf8::{
    char_is_scalar, char_u32_cast, decode_utf8, decode_utf8_encode_utf8, encode_scalar,
    encode_utf8, has_width_1_encoding, has_width_2_encoding, has_width_3_encoding,
    has_width_4_encoding, is_leading_byte_width_1, is_scalar, last_continuation_byte,
    leading_byte_width_1, leading_byte_width_2, leading_byte_width_3, leading_byte_width_4,
    length_of_first_scalar, partial_valid_utf8_extend_ascii_block, pop_first_scalar,
    second_last_continuation_byte, third_last_continuation_byte, valid_first_scalar, valid_utf8,
    valid_utf8_concat,
};

verus! {

/// `b` is one of the ASCII digits `0` to `9`.
pub open spec fn is_digit_byte(b: u8) -> bool {
    0x30 <= b <= 0x39
}

/// `b` encodes a white-space character in a single byte: tab, line feed,
/// vertical tab, form feed, carriage return or space.
pub open spec fn is_narrow_space(b: u8) -> bool {
    0x09 <= b <= 0x0d || b == 0x20
}

/// `a b` is the two-byte encoding of a white-space character: U+0085 or
/// U+00A0.
pub open spec fn is_medium_space(a: u8, b: u8) -> bool {
    a == 0xc2 && (b == 0x85 || b == 0xa0)
}

/// `a b c` is the three-byte encoding of a white-space character: U+1680,
/// U+2000 to U+200A, U+2028, U+2029, U+202F, U+205F or U+3000.
pub open spec fn is_wide_space(a: u8, b: u8, c: u8) -> bool {
    ||| a == 0xe1 && b == 0x9a && c == 0x80
    ||| a == 0xe2 && b == 0x80 && (0x80 <= c <= 0x8a || c == 0xa8 || c == 0xa9 || c == 0xaf)
    ||| a == 0xe2 && b == 0x81 && c == 0x9f
    ||| a == 0xe3 && b == 0x80 && c == 0x80
}

/// The number of bytes that the white-space character at the start of `s`
/// takes, or 0 where `s` does not start with one.
pub open spec fn leading_space(s: Seq<u8>) -> int {
    if s.len() >= 1 && is_narrow_space(s[0]) {
        1
    } else if s.len() >= 2 && is_medium_space(s[0], s[1]) {
        2
    } else if s.len() >= 3 && is_wide_space(s[0], s[1], s[2]) {
        3
    } else {
        0
    }
}

/// The number of bytes that the white-space character at the end of `s`
/// takes, or 0 where `s` does not end with one.
pub open spec fn trailing_space(s: Seq<u8>) -> int {
    if s.len() >= 1 && is_narrow_space(s[s.len() - 1]) {
        1
    } else if s.len() >= 2 && is_medium_space(s[s.len() - 2], s[s.len() - 1]) {
        2
    } else if s.len() >= 3 && is_wide_space(s[s.len() - 3], s[s.len() - 2], s[s.len() - 1]) {
        3
    } else {
        0
    }
}

/// `s` without the white space it starts with.
pub open spec fn skip_space(s: Seq<u8>) -> Seq<u8>
    decreases s.len(),
{
    if leading_space(s) > 0 {
        skip_space(s.skip(leading_space(s)))
    } else {
        s
    }
}

/// `s` without the white space it ends with.
pub open spec fn drop_space(s: Seq<u8>) -> Seq<u8>
    decreases s.len(),
{
    if trailing_space(s) > 0 {
        drop_space(s.take(s.len() - trailing_space(s)))
    } else {
        s
    }
}

/// `s` without the white space around it.
pub open spec fn strip(s: Seq<u8>) -> Seq<u8> {
    drop_space(skip_space(s))
}

/// `s` without the plus sign it may start with.
pub open spec fn skip_plus(s: Seq<u8>) -> Seq<u8> {
    if s.len() > 0 && s[0] == 0x2b {
        s.skip(1)
    } else {
        s
    }
}

/// Every byte of `s` is a digit.
pub open spec fn all_digit_bytes(s: Seq<u8>) -> bool {
    forall|i: int| 0 <= i < s.len() ==> is_digit_byte(#[trigger] s[i])
}

/// The number that the digits `s` write in base ten, most significant digit
/// first.
pub open spec fn bytes_value(s: Seq<u8>) -> nat
    decreases s.len(),
{
    if s.len() == 0 {
        0
    } else {
        bytes_value(s.drop_last()) * 10 + (s.last() - 0x30) as nat
    }
}

/// The number that `bytes` hold, read without decoding.
pub open spec fn scanned(bytes: Seq<u8>) -> Option<u64> {
    let digits = skip_plus(strip(bytes));
    if digits.len() > 0 && all_digit_bytes(digits) && bytes_value(digits) <= u64::MAX {
        Some(bytes_value(digits) as u64)
    } else {
        None
    }
}

/// The width of the encoding of the scalar `v` where it is white space,
/// and 0 where it is not.
pub open spec fn space_width(v: u32) -> int {
    if 0x09 <= v <= 0x0d || v == 0x20 {
        1
    } else if v == 0x85 || v == 0xa0 {
        2
    } else if v == 0x1680 || 0x2000 <= v <= 0x200a || v == 0x2028 || v == 0x2029 || v == 0x202f
        || v == 0x205f || v == 0x3000 {
        3
    } else {
        0
    }
}

/// A number never gets smaller when more digits follow.
proof fn lemma_value_of_prefix(s: Seq<u8>, k: int)
    requires
        0 <= k <= s.len(),
    ensures
        bytes_value(s.take(k)) <= bytes_value(s),
    decreases s.len() - k,
{
    if k == s.len() {
        assert(s.take(k) =~= s);
    } else {
        assert(s.drop_last().take(k) =~= s.take(k));
        lemma_value_of_prefix(s.drop_last(), k);
    }
}

/// The width of the white-space character at the start of
/// `bytes[from..to]`, or 0.
fn space_at_start(bytes: &[u8], from: usize, to: usize) -> (width: usize)
    requires
        from <= to <= bytes.len(),
    ensures
        width == leading_space(bytes@.subrange(from as int, to as int)),
        width <= to - from,
{
    let left: usize = to - from;
    if left >= 1 && (bytes[from] >= 0x09 && bytes[from] <= 0x0d || bytes[from] == 0x20) {
        1
    } else if left >= 2 && bytes[from] == 0xc2 && (bytes[from + 1] == 0x85 || bytes[from + 1]
        == 0xa0) {
        2
    } else if left >= 3 && wide_space(bytes[from], bytes[from + 1], bytes[from + 2]) {
        3
    } else {
        0
    }
}

/// The width of the white-space character at the end of `bytes[from..to]`,
/// or 0.
fn space_at_end(bytes: &[u8], from: usize, to: usize) -> (width: usize)
    requires
        from <= to <= bytes.len(),
    ensures
        width == trailing_space(bytes@.subrange(from as int, to as int)),
        width <= to - from,
{
    let left: usize = to - from;
    if left >= 1 && (bytes[to - 1] >= 0x09 && bytes[to - 1] <= 0x0d || bytes[to - 1] == 0x20) {
        1
    } else if left >= 2 && bytes[to - 2] == 0xc2 && (bytes[to - 1] == 0x85 || bytes[to - 1]
        == 0xa0) {
        2
    } else if left >= 3 && wide_space(bytes[to - 3], bytes[to - 2], bytes[to - 1]) {
        3
    } else {
        0
    }
}

/// Whether three bytes encode a white-space character.
fn wide_space(a: u8, b: u8, c: u8) -> (wide: bool)
    ensures
        wide == is_wide_space(a, b, c),
{
    if a == 0xe1 {
        b == 0x9a && c == 0x80
    } else if a == 0xe2 {
        if b == 0x80 {
            (c >= 0x80 && c <= 0x8a) || c == 0xa8 || c == 0xa9 || c == 0xaf
        } else {
            b == 0x81 && c == 0x9f
        }
    } else {
        a == 0xe3 && b == 0x80 && c == 0x80
    }
}

/// Reads a number from bytes without decoding them.
pub fn scan(bytes: &[u8]) -> (number: Option<u64>)
    ensures
        number == scanned(bytes@),
{
    let len: usize = bytes.len();
    let mut start: usize = 0;
    assert(bytes@.subrange(0, len as int) =~= bytes@);
    loop
        invariant
            len == bytes.len(),
            start <= len,
            skip_space(bytes@) == skip_space(bytes@.subrange(start as int, len as int)),
        ensures
            start <= len,
            skip_space(bytes@) == bytes@.subrange(start as int, len as int),
        decreases len - start,
    {
        let width: usize = space_at_start(bytes, start, len);
        if width == 0 {
            break ;
        }
        assert(bytes@.subrange(start as int, len as int).skip(width as int) =~= bytes@.subrange(
            start + width,
            len as int,
        ));
        start = start + width;
    }
    let mut end: usize = len;
    loop
        invariant
            len == bytes.len(),
            start <= end <= len,
            strip(bytes@) == drop_space(bytes@.subrange(start as int, end as int)),
        ensures
            start <= end <= len,
            strip(bytes@) == bytes@.subrange(start as int, end as int),
        decreases end - start,
    {
        let width: usize = space_at_end(bytes, start, end);
        if width == 0 {
            break ;
        }
        assert(bytes@.subrange(start as int, end as int).take(end - start - width)
            =~= bytes@.subrange(start as int, end - width));
        end = end - width;
    }
    if start < end && bytes[start] == 0x2b {
        assert(bytes@.subrange(start as int, end as int).skip(1) =~= bytes@.subrange(
            start + 1,
            end as int,
        ));
        start = start + 1;
    }
    let ghost digits = bytes@.subrange(start as int, end as int);
    assert(digits == skip_plus(strip(bytes@)));
    if start == end {
        return None;
    }
    let mut value: u64 = 0;
    let mut at: usize = start;
    while at < end
        invariant
            len == bytes.len(),
            start <= at <= end <= len,
            digits == bytes@.subrange(start as int, end as int),
            digits == skip_plus(strip(bytes@)),
            all_digit_bytes(digits.take(at - start)),
            value == bytes_value(digits.take(at - start)),
        decreases end - at,
    {
        let byte: u8 = bytes[at];
        let ghost seen = digits.take(at - start + 1);
        assert(seen.drop_last() =~= digits.take(at - start));
        assert(seen.last() == byte);
        if byte < 0x30 || byte > 0x39 {
            assert(!is_digit_byte(digits[at - start]));
            return None;
        }
        let digit: u64 = (byte - 0x30) as u64;
        if value > (u64::MAX - digit) / 10 {
            proof {
                lemma_value_of_prefix(digits, at - start + 1);
            }
            return None;
        }
        value = value * 10 + digit;
        at = at + 1;
    }
    assert(digits.take(end - start) =~= digits);
    Some(value)
}

/// A sequence that starts with a white-space character starts with a
/// well-formed UTF-8 scalar of the same width.
proof fn lemma_space_is_a_scalar(s: Seq<u8>)
    requires
        leading_space(s) > 0,
    ensures
        valid_first_scalar(s),
        length_of_first_scalar(s) == leading_space(s),
{
    let a = s[0];
    if is_narrow_space(a) {
        assert((a & 0x7f) as u32 <= 0x7f) by (bit_vector);
    } else if s.len() >= 2 && is_medium_space(a, s[1]) {
        let b = s[1];
        assert(a == 0xc2 && (b == 0x85 || b == 0xa0) ==> 0x80 <= (((a & 0x1f) as u32) << 6) | ((b
            & 0x3f) as u32) <= 0xa0) by (bit_vector);
    } else {
        let b = s[1];
        let c = s[2];
        assert(0xe1 <= a <= 0xe3 && 0x80 <= b <= 0x9a && 0x80 <= c <= 0xaf ==> 0x1000 <= (((a
            & 0x0f) as u32) << 12) | (((b & 0x3f) as u32) << 6) | ((c & 0x3f) as u32) <= 0x3fff)
            by (bit_vector);
    }
}

/// Putting white space in front of valid UTF-8 keeps it valid.
proof fn lemma_skip_space_keeps_utf8(s: Seq<u8>)
    requires
        valid_utf8(skip_space(s)),
    ensures
        valid_utf8(s),
    decreases s.len(),
{
    if leading_space(s) > 0 {
        lemma_space_is_a_scalar(s);
        lemma_skip_space_keeps_utf8(s.skip(leading_space(s)));
    }
}

/// Putting white space behind valid UTF-8 keeps it valid.
proof fn lemma_drop_space_keeps_utf8(s: Seq<u8>)
    requires
        valid_utf8(drop_space(s)),
    ensures
        valid_utf8(s),
    decreases s.len(),
{
    let width = trailing_space(s);
    if width > 0 {
        let head = s.take(s.len() - width);
        let space = s.skip(s.len() - width);
        lemma_drop_space_keeps_utf8(head);
        lemma_space_is_a_scalar(space);
        assert(valid_utf8(pop_first_scalar(space)));
        valid_utf8_concat(head, space);
        assert(head + space =~= s);
    }
}

/// Bytes in which a number is found are valid UTF-8.
proof fn lemma_scanned_is_utf8(bytes: Seq<u8>)
    requires
        scanned(bytes) is Some,
    ensures
        valid_utf8(bytes),
{
    let text = strip(bytes);
    let digits = skip_plus(text);
    assert forall|i: int| 0 <= i < text.len() implies #[trigger] is_leading_byte_width_1(
        text[i],
    ) by {
        if text[0] == 0x2b {
            if i > 0 {
                assert(is_digit_byte(digits[i - 1]));
            }
        } else {
            assert(is_digit_byte(digits[i]));
        }
    }
    partial_valid_utf8_extend_ascii_block(text, 0, text.len() as int);
    assert(text.subrange(0, text.len() as int) =~= text);
    lemma_drop_space_keeps_utf8(skip_space(bytes));
    lemma_skip_space_keeps_utf8(bytes);
}

/// The one byte of a scalar below U+0080 is the scalar itself.
proof fn lemma_shape_of_width_1(v: u32)
    by (bit_vector)
    requires
        has_width_1_encoding(v),
    ensures
        leading_byte_width_1(v) as u32 == v,
{
}

/// The two bytes of a scalar from U+0080 to U+07FF are those of white space
/// exactly for U+0085 and U+00A0.
proof fn lemma_shape_of_width_2(v: u32)
    by (bit_vector)
    requires
        has_width_2_encoding(v),
    ensures
        0xc0 <= leading_byte_width_2(v) <= 0xdf,
        0x80 <= last_continuation_byte(v) <= 0xbf,
        is_medium_space(leading_byte_width_2(v), last_continuation_byte(v)) <==> (v == 0x85 || v
            == 0xa0),
{
}

/// The three bytes of a scalar from U+0800 to U+FFFF are those of white
/// space exactly for the white-space characters in that range.
proof fn lemma_shape_of_width_3(v: u32)
    by (bit_vector)
    requires
        has_width_3_encoding(v),
    ensures
        0xe0 <= leading_byte_width_3(v) <= 0xef,
        0x80 <= second_last_continuation_byte(v) <= 0xbf,
        0x80 <= last_continuation_byte(v) <= 0xbf,
        is_wide_space(
            leading_byte_width_3(v),
            second_last_continuation_byte(v),
            last_continuation_byte(v),
        ) <==> (v == 0x1680 || 0x2000 <= v <= 0x200a || v == 0x2028 || v == 0x2029 || v == 0x202f
            || v == 0x205f || v == 0x3000),
{
}

/// The four bytes of a scalar from U+10000 on are a leading byte and three
/// continuation bytes.
proof fn lemma_shape_of_width_4(v: u32)
    by (bit_vector)
    requires
        has_width_4_encoding(v),
    ensures
        0xf0 <= leading_byte_width_4(v) <= 0xf7,
        0x80 <= third_last_continuation_byte(v) <= 0xbf,
        0x80 <= second_last_continuation_byte(v) <= 0xbf,
        0x80 <= last_continuation_byte(v) <= 0xbf,
{
}

/// What the encoding of one scalar looks like from the front, whatever
/// follows it.
proof fn lemma_scalar_at_start(v: u32, rest: Seq<u8>)
    requires
        is_scalar(v),
    ensures
        encode_scalar(v).len() >= 1,
        leading_space(encode_scalar(v) + rest) == space_width(v),
        space_width(v) > 0 ==> space_width(v) == encode_scalar(v).len(),
        (encode_scalar(v) + rest)[0] < 0x80 <==> v < 0x80,
        v < 0x80 ==> (encode_scalar(v) + rest)[0] == v && encode_scalar(v).len() == 1,
{
    let s = encode_scalar(v) + rest;
    if has_width_1_encoding(v) {
        lemma_shape_of_width_1(v);
        assert(s[0] == leading_byte_width_1(v));
    } else if has_width_2_encoding(v) {
        lemma_shape_of_width_2(v);
        assert(s[0] == leading_byte_width_2(v));
        assert(s[1] == last_continuation_byte(v));
    } else if has_width_3_encoding(v) {
        lemma_shape_of_width_3(v);
        assert(s[0] == leading_byte_width_3(v));
        assert(s[1] == second_last_continuation_byte(v));
        assert(s[2] == last_continuation_byte(v));
    } else {
        lemma_shape_of_width_4(v);
        assert(s[0] == leading_byte_width_4(v));
    }
}

/// What the encoding of one scalar looks like from the back, whatever
/// stands before it.
proof fn lemma_scalar_at_end(head: Seq<u8>, v: u32)
    requires
        is_scalar(v),
    ensures
        trailing_space(head + encode_scalar(v)) == space_width(v),
{
    let s = head + encode_scalar(v);
    let n = s.len() as int;
    if has_width_1_encoding(v) {
        lemma_shape_of_width_1(v);
        assert(s[n - 1] == leading_byte_width_1(v));
    } else if has_width_2_encoding(v) {
        lemma_shape_of_width_2(v);
        assert(s[n - 2] == leading_byte_width_2(v));
        assert(s[n - 1] == last_continuation_byte(v));
    } else if has_width_3_encoding(v) {
        lemma_shape_of_width_3(v);
        assert(s[n - 3] == leading_byte_width_3(v));
        assert(s[n - 2] == second_last_continuation_byte(v));
        assert(s[n - 1] == last_continuation_byte(v));
    } else {
        lemma_shape_of_width_4(v);
        assert(s[n - 4] == leading_byte_width_4(v));
        assert(s[n - 3] == third_last_continuation_byte(v));
        assert(s[n - 2] == second_last_continuation_byte(v));
        assert(s[n - 1] == last_continuation_byte(v));
    }
}

/// The encoding of a text is the encoding of all but its last character,
/// followed by the encoding of that character.
proof fn lemma_encoding_ends_with_last(text: Seq<char>)
    requires
        text.len() > 0,
    ensures
        encode_utf8(text) == encode_utf8(text.drop_last()) + encode_scalar(text.last() as u32),
    decreases text.len(),
{
    if text.len() == 1 {
        assert(text.drop_first() =~= Seq::<char>::empty());
        assert(text.drop_last() =~= Seq::<char>::empty());
        assert(encode_utf8(text) =~= encode_utf8(text.drop_last()) + encode_scalar(
            text.last() as u32,
        ));
    } else {
        let tail = text.drop_first();
        lemma_encoding_ends_with_last(tail);
        assert(tail.drop_last() =~= text.drop_last().drop_first());
        assert(encode_utf8(text) =~= encode_utf8(text.drop_last()) + encode_scalar(
            text.last() as u32,
        ));
    }
}

/// White space is skipped in the encoding as it is trimmed in the text.
proof fn lemma_skip_space_is_trim_start(text: Seq<char>)
    ensures
        skip_space(encode_utf8(text)) == encode_utf8(trim_start(text)),
    decreases text.len(),
{
    if text.len() > 0 {
        let v = text[0] as u32;
        let rest = encode_utf8(text.drop_first());
        char_is_scalar(text[0]);
        lemma_scalar_at_start(v, rest);
        if is_white_space(text[0]) {
            assert(encode_utf8(text).skip(space_width(v)) =~= rest);
            lemma_skip_space_is_trim_start(text.drop_first());
        }
    }
}

/// White space is dropped in the encoding as it is trimmed in the text.
proof fn lemma_drop_space_is_trim_end(text: Seq<char>)
    ensures
        drop_space(encode_utf8(text)) == encode_utf8(trim_end(text)),
    decreases text.len(),
{
    if text.len() > 0 {
        let v = text.last() as u32;
        let head = encode_utf8(text.drop_last());
        char_is_scalar(text.last());
        lemma_encoding_ends_with_last(text);
        lemma_scalar_at_end(head, v);
        lemma_scalar_at_start(v, Seq::<u8>::empty());
        if is_white_space(text.last()) {
            assert(encode_utf8(text).take(encode_utf8(text).len() - space_width(v)) =~= head);
            lemma_drop_space_is_trim_end(text.drop_last());
        }
    }
}

/// A plus sign is skipped in the encoding as in the text.
proof fn lemma_skip_plus_is_unsigned_part(text: Seq<char>)
    ensures
        skip_plus(encode_utf8(text)) == encode_utf8(unsigned_part(text)),
{
    if text.len() > 0 {
        let v = text[0] as u32;
        let rest = encode_utf8(text.drop_first());
        char_is_scalar(text[0]);
        char_u32_cast(text[0], v);
        lemma_scalar_at_start(v, rest);
        if text[0] == '+' {
            assert(encode_utf8(text).skip(1) =~= rest);
        }
    }
}

/// The encoding of a text is made of digits exactly when the text is, and
/// then both write the same number.
proof fn lemma_digit_bytes_are_digits(text: Seq<char>)
    ensures
        encode_utf8(text).len() > 0 <==> text.len() > 0,
        all_digit_bytes(encode_utf8(text)) <==> all_digits(text),
        all_digit_bytes(encode_utf8(text)) ==> encode_utf8(text).len() == text.len()
            && bytes_value(encode_utf8(text)) == digits_value(text),
    decreases text.len(),
{
    let bytes = encode_utf8(text);
    if text.len() > 0 {
        let first = text[0] as u32;
        let last = text.last() as u32;
        let tail = text.drop_first();
        let front = text.drop_last();
        char_is_scalar(text[0]);
        char_is_scalar(text.last());
        char_u32_cast(text[0], first);
        char_u32_cast(text.last(), last);
        lemma_scalar_at_start(first, encode_utf8(tail));
        lemma_scalar_at_start(last, Seq::<u8>::empty());
        lemma_encoding_ends_with_last(text);
        lemma_digit_bytes_are_digits(tail);
        lemma_digit_bytes_are_digits(front);
        assert(bytes == encode_scalar(first) + encode_utf8(tail));
        if all_digit_bytes(bytes) {
            assert(is_digit_byte(bytes[0]));
            assert(bytes.skip(1) =~= encode_utf8(tail));
            assert forall|i: int| 0 <= i < encode_utf8(tail).len() implies is_digit_byte(
                #[trigger] encode_utf8(tail)[i],
            ) by {
                assert(encode_utf8(tail)[i] == bytes[i + 1]);
            }
            assert forall|i: int| 0 <= i < text.len() implies is_digit(#[trigger] text[i]) by {
                if i > 0 {
                    assert(text[i] == tail[i - 1]);
                }
            }
            assert(bytes.drop_last() =~= encode_utf8(front));
            assert(bytes.last() == (encode_scalar(last) + Seq::<u8>::empty())[0]);
            assert forall|i: int| 0 <= i < encode_utf8(front).len() implies is_digit_byte(
                #[trigger] encode_utf8(front)[i],
            ) by {
                assert(encode_utf8(front)[i] == bytes[i]);
            }
        }
        if all_digits(text) {
            assert(bytes.skip(1) =~= encode_utf8(tail));
            assert forall|i: int| 0 <= i < bytes.len() implies is_digit_byte(
                #[trigger] bytes[i],
            ) by {
                if i > 0 {
                    assert(bytes[i] == encode_utf8(tail)[i - 1]);
                }
            }
        }
    }
}

/// Reading the encoding of a text without decoding it finds the number that
/// the text holds.
proof fn lemma_scanned_encoding_is_number_of_text(text: Seq<char>)
    ensures
        scanned(encode_utf8(text)) == number_of_text(text),
{
    lemma_skip_space_is_trim_start(text);
    lemma_drop_space_is_trim_end(trim_start(text));
    lemma_skip_plus_is_unsigned_part(trim_end(trim_start(text)));
    lemma_digit_bytes_are_digits(unsigned_part(trim_end(trim_start(text))));
}

/// Reading bytes without decoding them finds the number that they hold as
/// text, and none where they are no text.
pub proof fn lemma_scanned_is_number_in(bytes: Seq<u8>)
    ensures
        scanned(bytes) == number_in(bytes),
{
    if valid_utf8(bytes) {
        decode_utf8_encode_utf8(bytes);
        lemma_scanned_encoding_is_number_of_text(decode_utf8(bytes));
    } else if scanned(bytes) is Some {
        lemma_scanned_is_utf8(bytes);
    }
}

} // verus!
