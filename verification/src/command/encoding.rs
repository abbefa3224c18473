//! URL-safe text of secrets and bundles, and bounded message frames.

use crate::bytes::{be, be_u32, extend};
use crate::text::len_bytes;
use vstd::prelude::*;
use vstd::string::*;
use vstd::utf8::encode_utf8;

verus! {

/// The URL-safe base64 text of bytes, without padding.
pub uninterp spec fn base64_text(bytes: Seq<u8>) -> Seq<char>;

/// The bytes of URL-safe base64 text without padding, or what is wrong with
/// it.
pub uninterp spec fn base64_bytes(text: Seq<char>) -> Result<Seq<u8>, Seq<char>>;

/// `base64::Engine::encode` with the engine `URL_SAFE_NO_PAD` writes four
/// characters for three bytes, two or three for the rest, and decoding the text
/// gives the bytes back.
#[verifier::external_body]
pub(crate) fn base64_encode(bytes: &[u8]) -> (text: String)
    requires
        bytes@.len() <= 1073741824,
    ensures
        text@ == base64_text(bytes@),
        base64_bytes(text@) is Ok,
        base64_bytes(text@)->Ok_0 == bytes@,
        encode_utf8(text@).len() == (4 * bytes@.len() + 2) / 3,
{
    base64::Engine::encode(&base64::engine::general_purpose::URL_SAFE_NO_PAD, bytes)
}

/// `base64::Engine::decode` with the engine `URL_SAFE_NO_PAD` decodes text or
/// says what is wrong with it.
#[verifier::external_body]
pub(crate) fn base64_decode(text: &str) -> (bytes: Result<Vec<u8>, String>)
    ensures
        match bytes {
            Ok(bytes) => base64_bytes(text@) matches Ok(decoded) && decoded == bytes@,
            Err(reason) => base64_bytes(text@) matches Err(failure) && failure == reason@,
        },
{
    base64::Engine::decode(&base64::engine::general_purpose::URL_SAFE_NO_PAD, text).map_err(
        |error| error.to_string(),
    )
}

/// Why text was not encoded or decoded.
#[derive(Debug, PartialEq, Eq)]
pub enum EncodingError {
    /// The text or its bytes are above the limit.
    TooLarge,
    /// The text is not URL-safe base64.
    NotBase64(String),
}

/// What an [`EncodingError`] says.
#[verifier::ext_equal]
pub enum EncodingFailure {
    /// The text or its bytes are above the limit.
    TooLarge,
    /// The text is not URL-safe base64.
    NotBase64(Seq<char>),
}

impl View for EncodingError {
    type V = EncodingFailure;

    open spec fn view(&self) -> EncodingFailure {
        match self {
            EncodingError::TooLarge => EncodingFailure::TooLarge,
            EncodingError::NotBase64(reason) => EncodingFailure::NotBase64(reason@),
        }
    }
}

/// The bytes that bounded text holds, or why there are none.
pub open spec fn bounded_bytes(text: Seq<char>, limit: nat) -> Result<Seq<u8>, EncodingFailure> {
    if encode_utf8(text).len() > limit * 2 {
        Err(EncodingFailure::TooLarge)
    } else {
        match base64_bytes(text) {
            Err(reason) => Err(EncodingFailure::NotBase64(reason)),
            Ok(bytes) => if bytes.len() > limit {
                Err(EncodingFailure::TooLarge)
            } else {
                Ok(bytes)
            },
        }
    }
}

/// Encodes at most `limit` bytes as URL-safe text.
pub fn encode_bounded(bytes: &[u8], limit: usize) -> (text: Result<String, EncodingError>)
    requires
        limit <= 1073741824,
    ensures
        match text {
            Ok(text) => {
                &&& bytes@.len() <= limit
                &&& text@ == base64_text(bytes@)
                &&& bounded_bytes(text@, limit as nat) == Ok::<Seq<u8>, EncodingFailure>(bytes@)
            },
            Err(error) => bytes@.len() > limit && error@ == EncodingFailure::TooLarge,
        },
{
    if bytes.len() > limit {
        return Err(EncodingError::TooLarge);
    }
    Ok(base64_encode(bytes))
}

/// Decodes URL-safe text of at most `limit` bytes.
pub fn decode_bounded(text: &str, limit: usize) -> (bytes: Result<Vec<u8>, EncodingError>)
    requires
        limit <= 1073741824,
    ensures
        match bytes {
            Ok(bytes) => bounded_bytes(text@, limit as nat) == Ok::<Seq<u8>, EncodingFailure>(
                bytes@,
            ),
            Err(error) => bounded_bytes(text@, limit as nat) == Err::<Seq<u8>, EncodingFailure>(
                error@,
            ),
        },
{
    if len_bytes(text) > limit * 2 {
        return Err(EncodingError::TooLarge);
    }
    match base64_decode(text) {
        Err(reason) => Err(EncodingError::NotBase64(reason)),
        Ok(bytes) => {
            if bytes.len() > limit {
                return Err(EncodingError::TooLarge);
            }
            Ok(bytes)
        },
    }
}

/// Frames an encoded message of at most `limit` bytes behind its length in four
/// big-endian bytes.
pub fn message_frame(encoded: &[u8], limit: u32) -> (frame: Option<Vec<u8>>)
    ensures
        match frame {
            Some(frame) => encoded@.len() <= limit && frame@ == be(encoded@.len(), 4) + encoded@,
            None => encoded@.len() > limit,
        },
{
    if encoded.len() > limit as usize {
        return None;
    }
    let mut frame = be_u32(encoded.len() as u32);
    extend(&mut frame, encoded);
    Some(frame)
}

/// Accepts the length that a message declares.
pub fn message_length(declared: u32, limit: u32) -> (length: Option<usize>)
    ensures
        match length {
            Some(length) => declared <= limit && length == declared,
            None => declared > limit,
        },
{
    if declared > limit {
        return None;
    }
    Some(declared as usize)
}

/// A frame declares the length of the message that follows it.
pub proof fn law_frame_declares_its_message(encoded: Seq<u8>, limit: u32)
    requires
        encoded.len() <= limit,
    ensures
        ({
            let frame = be(encoded.len(), 4) + encoded;
            &&& frame.len() == 4 + encoded.len()
            &&& crate::bytes::be_value(frame.take(4)) == encoded.len()
            &&& frame.skip(4) == encoded
        }),
{
    crate::bytes::lemma_be_u32(encoded.len() as u32);
    crate::bytes::lemma_be_len(encoded.len(), 4);
    let frame = be(encoded.len(), 4) + encoded;
    assert(frame.take(4) =~= be(encoded.len(), 4));
    assert(frame.skip(4) =~= encoded);
}

/// Text is decoded exactly where it is base64 of no more bytes than allowed and
/// has at most twice as many bytes itself.
pub proof fn law_bounded_text_is_exact(text: Seq<char>, limit: nat, bytes: Seq<u8>)
    ensures
        bounded_bytes(text, limit) == Ok::<Seq<u8>, EncodingFailure>(bytes) <==> encode_utf8(
            text,
        ).len() <= 2 * limit && base64_bytes(text) == Ok::<Seq<u8>, Seq<char>>(bytes)
            && bytes.len() <= limit,
        bounded_bytes(text, limit) is Ok ==> bounded_bytes(text, limit)->Ok_0.len() <= limit,
{
}

} // verus!
