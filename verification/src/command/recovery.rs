//! Recovery secrets as text, and wrapping keys kept in files.

use super::encoding::{base64_bytes, base64_decode, base64_encode, base64_text};
use crate::bytes::to_array;
use crate::trust::material::WrappingKey;
use crate::trust::recovery::RecoverySecret;
use vstd::prelude::*;
use vstd::string::*;

verus! {

/// Why text is not a recovery secret.
#[derive(Debug, PartialEq, Eq)]
pub enum SecretError {
    /// The text is not URL-safe base64.
    NotBase64(String),
    /// The text decodes to another number of bytes than 32.
    WrongLength(usize),
}

/// What a [`SecretError`] says.
#[verifier::ext_equal]
pub enum SecretFailure {
    /// The text is not URL-safe base64.
    NotBase64(Seq<char>),
    /// The text decodes to another number of bytes than 32.
    WrongLength(nat),
}

impl View for SecretError {
    type V = SecretFailure;

    open spec fn view(&self) -> SecretFailure {
        match self {
            SecretError::NotBase64(reason) => SecretFailure::NotBase64(reason@),
            SecretError::WrongLength(length) => SecretFailure::WrongLength(*length as nat),
        }
    }
}

/// The secret that text holds, or why there is none.
pub open spec fn secret_of(text: Seq<char>) -> Result<Seq<u8>, SecretFailure> {
    match base64_bytes(text) {
        Err(reason) => Err(SecretFailure::NotBase64(reason)),
        Ok(bytes) => exact_secret(bytes),
    }
}

/// Bytes that are a secret, or why they are not.
pub open spec fn exact_secret(bytes: Seq<u8>) -> Result<Seq<u8>, SecretFailure> {
    if bytes.len() != 32 {
        Err(SecretFailure::WrongLength(bytes.len()))
    } else {
        Ok(bytes)
    }
}

/// Renders a recovery secret as URL-safe text, which decodes to it again.
pub fn encode_secret(secret: &RecoverySecret) -> (text: String)
    ensures
        text@ == base64_text(secret@),
        secret_of(text@) == Ok::<Seq<u8>, SecretFailure>(secret@),
{
    base64_encode(secret.secret_bytes().as_slice())
}

/// Reads a recovery secret from URL-safe text.
pub fn decode_secret(encoded: &str) -> (secret: Result<RecoverySecret, SecretError>)
    ensures
        match secret {
            Ok(secret) => secret_of(encoded@) == Ok::<Seq<u8>, SecretFailure>(secret@),
            Err(error) => secret_of(encoded@) == Err::<Seq<u8>, SecretFailure>(error@),
        },
{
    match base64_decode(encoded) {
        Err(reason) => Err(SecretError::NotBase64(reason)),
        Ok(bytes) => secret_from(bytes.as_slice()),
    }
}

/// Accepts decoded bytes as a recovery secret.
pub fn secret_from(bytes: &[u8]) -> (secret: Result<RecoverySecret, SecretError>)
    ensures
        match secret {
            Ok(secret) => exact_secret(bytes@) == Ok::<Seq<u8>, SecretFailure>(secret@),
            Err(error) => exact_secret(bytes@) == Err::<Seq<u8>, SecretFailure>(error@),
        },
{
    if bytes.len() != 32 {
        return Err(SecretError::WrongLength(bytes.len()));
    }
    Ok(RecoverySecret::from_bytes(to_array(bytes)))
}

/// Accepts the content of a key file: exactly the 32 bytes of a wrapping key.
/// The length found is returned otherwise.
pub fn read_wrapping_key(content: &[u8]) -> (key: Result<WrappingKey, usize>)
    ensures
        match key {
            Ok(key) => content@.len() == 32 && key@ == content@,
            Err(length) => content@.len() != 32 && length == content@.len(),
        },
{
    if content.len() != 32 {
        return Err(content.len());
    }
    Ok(WrappingKey::from_bytes(to_array(content)))
}

/// A recovery secret is base64 of exactly 32 bytes.
pub proof fn law_secret_is_exact(text: Seq<char>, secret: Seq<u8>)
    ensures
        secret_of(text) == Ok::<Seq<u8>, SecretFailure>(secret) <==> base64_bytes(text) == Ok::<
            Seq<u8>,
            Seq<char>,
        >(secret) && secret.len() == 32,
{
}

} // verus!
