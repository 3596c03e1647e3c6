//! From bytes to text.

use vstd::prelude::*;
use vstd::utf8;

verus! {

/// The text that `bytes` encode in UTF-8, if they are valid UTF-8.
pub open spec fn text_of(bytes: Seq<u8>) -> Option<Seq<char>> {
    if utf8::valid_utf8(bytes) {
        Some(utf8::decode_utf8(bytes))
    } else {
        None
    }
}

/// The bytes of a text are read back as that text, and bytes that are read as a
/// text are the bytes of it.
pub proof fn text_is_read_back(text: Seq<char>, bytes: Seq<u8>)
    ensures
        text_of(utf8::encode_utf8(text)) == Some(text),
        text_of(bytes) == Some(text) ==> bytes == utf8::encode_utf8(text),
        text_of(bytes) is None <==> !utf8::valid_utf8(bytes),
{
    utf8::encode_utf8_valid_utf8(text);
    utf8::encode_utf8_decode_utf8(text);
    if utf8::valid_utf8(bytes) {
        utf8::decode_utf8_encode_utf8(bytes);
    }
}

/// Calls `std::str::from_utf8`, which gives the text that the bytes encode, and
/// an error where they are not valid UTF-8.
#[verifier::external_body]
pub(crate) fn decode_text(bytes: &[u8]) -> (text: Option<&str>)
    ensures
        text.deep_view() == text_of(bytes@),
{
    std::str::from_utf8(bytes).ok()
}

/// The text that `String::from_utf8_lossy` makes of `bytes`.
pub uninterp spec fn utf8_lossy(bytes: Seq<u8>) -> Seq<char>;

/// Calls `String::from_utf8_lossy`, which gives the text that the bytes encode,
/// with replacement characters where they are not valid UTF-8. How many of those
/// stand for a stretch of invalid bytes is left to the name of the result.
#[verifier::external_body]
pub(crate) fn decode_lossy(bytes: &[u8]) -> (text: String)
    ensures
        text@ == utf8_lossy(bytes@),
        utf8::valid_utf8(bytes@) ==> text@ == utf8::decode_utf8(bytes@),
{
    String::from_utf8_lossy(bytes).into_owned()
}

} // verus!
