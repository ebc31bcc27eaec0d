//! The encodings that the library takes from outside: base64 for byte
//! sequences, and the lossy reading of bytes as text. None of these is proved
//! here; each contract says what the function behind it is relied on for.

use vstd::prelude::*;
use vstd::utf8::{decode_utf8, valid_utf8};

verus! {

/// The error of `base64`'s decoder.
#[verifier::external_type_specification]
#[verifier::external_body]
pub struct ExDecodeError(base64::DecodeError);

/// The bytes that a text stands for in standard base64 with padding, or
/// `None` where the text is no such encoding.
pub uninterp spec fn standard_decoding(text: Seq<char>) -> Option<Seq<u8>>;

/// The standard base64 text, with padding, of a byte sequence.
pub uninterp spec fn standard_encoding(bytes: Seq<u8>) -> Seq<char>;

/// The text that the bytes of a frame are read as: their UTF-8 reading, with
/// the replacement character in the place of what is not valid UTF-8.
pub uninterp spec fn lossy_text(bytes: Seq<u8>) -> Seq<char>;

/// `base64::Engine::decode` on the engine `general_purpose::STANDARD`: the
/// decoder returns the bytes that the text encodes, or its error where the
/// text is not standard base64 with padding. Which bytes, and for which texts,
/// is `standard_decoding`.
#[verifier::external_body]
pub(crate) fn decode_standard(text: &str) -> (r: Result<Vec<u8>, base64::DecodeError>)
    ensures
        match r {
            Ok(bytes) => standard_decoding(text@) == Some(bytes@),
            Err(_) => standard_decoding(text@) is None,
        },
{
    base64::Engine::decode(&base64::engine::general_purpose::STANDARD, text)
}

/// `base64::Engine::encode` on the engine `general_purpose::STANDARD`: the
/// encoder returns the text of the bytes, which is `standard_encoding`. It
/// fails only where the length of the text would not fit in `usize`, which
/// no slice in memory is long enough for.
#[verifier::external_body]
pub(crate) fn encode_standard(bytes: &[u8]) -> (r: String)
    ensures
        r@ == standard_encoding(bytes@),
{
    base64::Engine::encode(&base64::engine::general_purpose::STANDARD, bytes)
}

/// `String::from_utf8_lossy`: the text of the bytes, with the replacement
/// character where they are not valid UTF-8, which is `lossy_text`. Bytes
/// that are valid UTF-8 are read as the text that they encode.
#[verifier::external_body]
pub(crate) fn text_of_bytes(bytes: &[u8]) -> (r: String)
    ensures
        r@ == lossy_text(bytes@),
        valid_utf8(bytes@) ==> r@ == decode_utf8(bytes@),
{
    String::from_utf8_lossy(bytes).into_owned()
}

} // verus!
