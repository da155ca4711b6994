//! Cursors: offsets into a list, in a form that can stand in an address.
use crate::text::{
    decimal, is_digit, parse_i32, signed_decimal, signed_decimal_reads_back, signed_decimal_text,
    signed_value,
};
use base64::Engine;
use vstd::prelude::*;
use vstd::utf8::{
    decode_utf8, encode_utf8, encode_utf8_decode_utf8, encode_utf8_valid_utf8, is_ascii_chars,
    is_ascii_chars_encode_utf8, valid_utf8,
};

verus! {

/// The text that base64's engine `URL_SAFE_NO_PAD` encodes bytes to.
pub uninterp spec fn base64_text(bytes: Seq<u8>) -> Seq<char>;

/// The bytes that base64's engine `URL_SAFE_NO_PAD` decodes a text to; nothing
/// where it refuses the text.
pub uninterp spec fn base64_bytes(text: Seq<char>) -> Option<Seq<u8>>;

/// Calls `encode` of base64's engine `URL_SAFE_NO_PAD`. The result depends on
/// the bytes alone, and the same engine's `decode` gives the bytes back. The
/// bound on the number of bytes keeps the call from the lengths at which it
/// panics.
#[verifier::external_body]
pub(crate) fn encode_base64(bytes: &[u8]) -> (r: String)
    requires
        bytes@.len() < 0x1000_0000,
    ensures
        r@ == base64_text(bytes@),
        base64_bytes(r@) == Some(bytes@),
{
    base64::engine::general_purpose::URL_SAFE_NO_PAD.encode(bytes)
}

/// Calls `decode` of base64's engine `URL_SAFE_NO_PAD`. The result depends on
/// the text alone.
#[verifier::external_body]
pub(crate) fn decode_base64(text: &str) -> (r: Option<Vec<u8>>)
    ensures
        base64_bytes(text@) == match r {
            Some(bytes) => Some(bytes@),
            None => None,
        },
{
    base64::engine::general_purpose::URL_SAFE_NO_PAD.decode(text).ok()
}

/// Calls `String::from_utf8`: the string that the bytes are the UTF-8 encoding
/// of, and none where they are not valid UTF-8.
#[verifier::external_body]
fn string_from_utf8(bytes: Vec<u8>) -> (r: Option<String>)
    ensures
        match r {
            Some(s) => valid_utf8(bytes@) && s@ == decode_utf8(bytes@),
            None => !valid_utf8(bytes@),
        },
{
    String::from_utf8(bytes).ok()
}

/// The cursor for an offset.
pub open spec fn cursor_for(offset: int) -> Seq<char> {
    base64_text(encode_utf8(signed_decimal(offset)))
}

/// The offset that decoded bytes stand for: a number from zero on.
pub open spec fn offset_of_bytes(bytes: Seq<u8>) -> Option<int> {
    if valid_utf8(bytes) {
        match signed_value(decode_utf8(bytes)) {
            Some(n) => if 0 <= n <= i32::MAX {
                Some(n)
            } else {
                None
            },
            None => None,
        }
    } else {
        None
    }
}

/// The offset that a cursor stands for.
pub open spec fn offset_for(cursor: Seq<char>) -> Option<int> {
    match base64_bytes(cursor) {
        Some(bytes) => offset_of_bytes(bytes),
        None => None,
    }
}

spec fn ten_to(k: nat) -> nat
    decreases k,
{
    if k == 0 {
        1
    } else {
        10 * ten_to((k - 1) as nat)
    }
}

proof fn decimal_is_short(n: nat, k: nat)
    requires
        k >= 1,
        n < ten_to(k),
    ensures
        decimal(n).len() <= k,
        forall|i: int| 0 <= i < decimal(n).len() ==> is_digit(#[trigger] decimal(n)[i]),
    decreases n,
{
    if n >= 10 {
        assert(k >= 2) by {
            if k == 1 {
                assert(ten_to(0) == 1);
                assert(ten_to(1) == 10 * ten_to(0));
            }
        }
        assert(ten_to(k) == 10 * ten_to((k - 1) as nat));
        decimal_is_short(n / 10, (k - 1) as nat);
    }
}

proof fn cursor_text_is_short(n: int)
    requires
        i32::MIN <= n <= i32::MAX,
    ensures
        encode_utf8(signed_decimal(n)).len() <= 11,
{
    let m: nat = if n < 0 {
        (-n) as nat
    } else {
        n as nat
    };
    reveal_with_fuel(ten_to, 11);
    assert(m < ten_to(10));
    decimal_is_short(m, 10);
    let t = signed_decimal(n);
    assert forall|i: int| 0 <= i < t.len() implies '\0' <= #[trigger] t[i] <= '\u{7f}' by {
        if n < 0 && i > 0 {
            assert(t[i] == decimal(m)[i - 1]);
        }
    }
    assert(is_ascii_chars(t));
    is_ascii_chars_encode_utf8(signed_decimal(n));
}

/// The cursor for an offset.
pub fn encode_cursor(offset: i32) -> (r: String)
    ensures
        r@ == cursor_for(offset as int),
        base64_bytes(r@) == Some(encode_utf8(signed_decimal(offset as int))),
{
    let text = signed_decimal_text(offset as i64);
    proof {
        cursor_text_is_short(offset as int);
    }
    encode_base64(text.as_str().as_bytes())
}

/// The offset that decoded bytes stand for.
pub fn offset_from_bytes(bytes: Vec<u8>) -> (r: Option<i32>)
    ensures
        match r {
            Some(n) => offset_of_bytes(bytes@) == Some(n as int),
            None => offset_of_bytes(bytes@) is None,
        },
{
    match string_from_utf8(bytes) {
        Some(text) => match parse_i32(text.as_str()) {
            Some(n) => if n >= 0 {
                Some(n)
            } else {
                None
            },
            None => None,
        },
        None => None,
    }
}

/// The offset that a cursor stands for. A broken cursor, and one for an offset
/// below zero, stand for none.
pub fn decode_cursor(cursor: &str) -> (r: Option<i32>)
    ensures
        match r {
            Some(n) => offset_for(cursor@) == Some(n as int) && 0 <= n,
            None => offset_for(cursor@) is None,
        },
{
    match decode_base64(cursor) {
        Some(bytes) => offset_from_bytes(bytes),
        None => None,
    }
}

/// A cursor that was made for an offset from zero on stands for that offset;
/// one that was made for an offset below zero stands for none.
pub proof fn cursors_read_back(cursor: Seq<char>, offset: int)
    requires
        i32::MIN <= offset <= i32::MAX,
        base64_bytes(cursor) == Some(encode_utf8(signed_decimal(offset))),
    ensures
        offset_for(cursor) == if offset >= 0 {
            Some(offset)
        } else {
            None
        },
{
    encode_utf8_valid_utf8(signed_decimal(offset));
    encode_utf8_decode_utf8(signed_decimal(offset));
    signed_decimal_reads_back(offset);
}

/// The bytes of a text are an offset just where the text is a whole number that is
/// not negative and fits.
pub proof fn offsets_are_numbers_in_text(text: Seq<char>, n: int)
    ensures
        signed_value(text) == Some(n) && 0 <= n <= i32::MAX ==> offset_of_bytes(encode_utf8(text))
            == Some(n),
        signed_value(text) == Some(n) && (n < 0 || n > i32::MAX) ==> offset_of_bytes(
            encode_utf8(text),
        ) is None,
        signed_value(text) is None ==> offset_of_bytes(encode_utf8(text)) is None,
{
    encode_utf8_valid_utf8(text);
    encode_utf8_decode_utf8(text);
}

/// What cannot be read as bytes, and bytes that are no text, are no offset.
pub proof fn unreadable_cursors_are_no_offset(cursor: Seq<char>)
    ensures
        base64_bytes(cursor) is None ==> offset_for(cursor) is None,
        base64_bytes(cursor) is Some && !valid_utf8(base64_bytes(cursor)->0) ==> offset_for(
            cursor,
        ) is None,
        base64_bytes(cursor) is Some ==> offset_for(cursor) == offset_of_bytes(
            base64_bytes(cursor)->0,
        ),
{
}

} // verus!
