//! Text out of raw bytes and out of numbers, as the standard library and the
//! `itoa` crate make it.

use crate::bytes::decimal;
use vstd::prelude::*;
use vstd::utf8::*;

verus! {

/// The text that `String::from_utf8_lossy` makes of `bytes`.
pub uninterp spec fn lossy_utf8(bytes: Seq<u8>) -> Seq<char>;

/// Calls `String::from_utf8_lossy`. The text depends on the bytes alone, and
/// bytes that are valid UTF-8 are decoded as they stand. How many replacement
/// characters stand for bytes that are not valid is left unsaid.
#[verifier::external_body]
pub(crate) fn decode_lossy(bytes: &[u8]) -> (r: String)
    ensures
        r@ == lossy_utf8(bytes@),
        valid_utf8(bytes@) ==> r@ == decode_utf8(bytes@),
{
    String::from_utf8_lossy(bytes).into_owned()
}

/// Calls `itoa::Buffer::format` on a fresh buffer: it prints the decimal digits
/// of the number, without leading zeros.
#[verifier::external_body]
pub(crate) fn format_number(n: usize) -> (r: Vec<u8>)
    ensures
        r@ == decimal(n as nat),
{
    itoa::Buffer::new().format(n).as_bytes().to_vec()
}

/// ASCII bytes are valid UTF-8, one character each.
pub proof fn lemma_ascii_is_utf8(bytes: Seq<u8>)
    requires
        forall|i: int| 0 <= i < bytes.len() ==> #[trigger] bytes[i] < 128,
    ensures
        valid_utf8(bytes),
        decode_utf8(bytes) == bytes.map_values(|b: u8| b as char),
        encode_utf8(decode_utf8(bytes)) == bytes,
{
    let chars = bytes.map_values(|b: u8| b as char);
    assert(is_ascii_chars(chars));
    is_ascii_chars_encode_utf8(chars);
    assert(encode_utf8(chars) =~= bytes) by {
        assert forall|i: int| 0 <= i < bytes.len() implies #[trigger] encode_utf8(chars)[i]
            == bytes[i] by {
            assert(chars[i] as u8 == bytes[i]);
        }
    }
    encode_utf8_valid_utf8(chars);
    encode_utf8_decode_utf8(chars);
}

} // verus!
