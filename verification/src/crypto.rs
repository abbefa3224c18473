//! The cryptographic functions that the library calls.
//!
//! Each function here hands its arguments to one outside function. What an
//! outside function computes is given a name where it depends on its arguments
//! alone; nothing is claimed of what is drawn at random.

use vstd::prelude::*;

verus! {

/// `getrandom::fill` fills an array from the operating system's random source,
/// or fails; nothing is claimed of the bytes.
#[verifier::external_body]
pub(crate) fn random<const N: usize>() -> (bytes: Option<[u8; N]>) {
    let mut bytes = [0u8; N];
    match getrandom::fill(&mut bytes) {
        Ok(()) => Some(bytes),
        Err(_) => None,
    }
}

/// The 32 bytes that `blake3::hash` returns.
pub uninterp spec fn blake3_hash(input: Seq<u8>) -> Seq<u8>;

/// `blake3::hash` returns the 32-byte hash of its input.
#[verifier::external_body]
pub(crate) fn hash(input: &[u8]) -> (digest: [u8; 32])
    ensures
        digest@ == blake3_hash(input@),
{
    *blake3::hash(input).as_bytes()
}

/// The 32 bytes that `blake3::keyed_hash` returns.
pub uninterp spec fn blake3_keyed(key: Seq<u8>, input: Seq<u8>) -> Seq<u8>;

/// `blake3::keyed_hash` returns the 32-byte keyed hash of its input.
#[verifier::external_body]
pub(crate) fn keyed_hash(key: &[u8; 32], input: &[u8]) -> (digest: [u8; 32])
    ensures
        digest@ == blake3_keyed(key@, input@),
{
    *blake3::keyed_hash(key, input).as_bytes()
}

/// The 32 bytes that `blake3::derive_key` returns.
pub uninterp spec fn blake3_derived(context: Seq<char>, material: Seq<u8>) -> Seq<u8>;

/// `blake3::derive_key` returns the 32-byte key derived from key material in
/// a context.
#[verifier::external_body]
pub(crate) fn derive_key(context: &str, material: &[u8]) -> (key: [u8; 32])
    ensures
        key@ == blake3_derived(context@, material@),
{
    blake3::derive_key(context, material)
}

/// The public key of an Ed25519 secret.
pub uninterp spec fn ed25519_public(secret: Seq<u8>) -> Seq<u8>;

/// Whether bytes are the encoding of an Ed25519 point.
pub uninterp spec fn ed25519_point(key: Seq<u8>) -> bool;

/// `ed25519_dalek::SigningKey::verifying_key` returns the public key of a
/// secret, which is the encoding of a point.
#[verifier::external_body]
pub(crate) fn public_key(secret: &[u8; 32]) -> (key: [u8; 32])
    ensures
        key@ == ed25519_public(secret@),
        ed25519_point(key@),
{
    ed25519_dalek::SigningKey::from_bytes(secret).verifying_key().to_bytes()
}

/// `ed25519_dalek::VerifyingKey::from_bytes` accepts exactly the encodings of
/// points.
#[verifier::external_body]
pub(crate) fn is_point(key: &[u8; 32]) -> (valid: bool)
    ensures
        valid == ed25519_point(key@),
{
    ed25519_dalek::VerifyingKey::from_bytes(key).is_ok()
}

/// The 64 bytes of the Ed25519 signature of a message.
pub uninterp spec fn ed25519_signature(secret: Seq<u8>, message: Seq<u8>) -> Seq<u8>;

/// Whether a signature verifies strictly.
pub uninterp spec fn ed25519_verifies(
    key: Seq<u8>,
    message: Seq<u8>,
    signature: Seq<u8>,
) -> bool;

/// The first half of a signature is the encoding of the neutral element, which
/// strict verification refuses.
pub open spec fn degenerate(signature: Seq<u8>) -> bool {
    signature.take(32) == Seq::new(32, |i: int| if i == 0 { 1u8 } else { 0u8 })
}

/// `ed25519_dalek::SigningKey::sign` returns the signature of a message, which
/// verifies under the secret's public key. The one exception is a signature
/// whose first half encodes the neutral element: strict verification refuses
/// points of small order, and that half is a multiple of the base point.
#[verifier::external_body]
pub(crate) fn sign(secret: &[u8; 32], message: &[u8]) -> (signature: [u8; 64])
    ensures
        signature@ == ed25519_signature(secret@, message@),
        !degenerate(signature@) ==> ed25519_verifies(
            ed25519_public(secret@),
            message@,
            signature@,
        ),
{
    ed25519_dalek::Signer::sign(&ed25519_dalek::SigningKey::from_bytes(secret), message).to_bytes()
}

/// `ed25519_dalek::VerifyingKey::verify_strict` decides whether a signature
/// verifies; none does under bytes that encode no point.
#[verifier::external_body]
pub(crate) fn verify_strict(key: &[u8; 32], message: &[u8], signature: &[u8; 64]) -> (valid: bool)
    ensures
        valid == ed25519_verifies(key@, message@, signature@),
        valid ==> ed25519_point(key@),
{
    match ed25519_dalek::VerifyingKey::from_bytes(key) {
        Ok(key) => {
            let signature = ed25519_dalek::Signature::from_bytes(signature);
            key.verify_strict(message, &signature).is_ok()
        },
        Err(_) => false,
    }
}

/// The greatest number of bytes that the cipher takes under one nonce.
pub const MAX_MESSAGE_BYTES: u64 = 274877906816;

/// The ciphertext and tag of a message under a key, a nonce and associated
/// data.
pub uninterp spec fn aead_sealed(
    key: Seq<u8>,
    nonce: Seq<u8>,
    data: Seq<u8>,
    message: Seq<u8>,
) -> Seq<u8>;

/// The message that a ciphertext and tag authenticate, if any.
pub uninterp spec fn aead_opened(
    key: Seq<u8>,
    nonce: Seq<u8>,
    data: Seq<u8>,
    sealed: Seq<u8>,
) -> Option<Seq<u8>>;

/// `chacha20poly1305::XChaCha20Poly1305` encrypts a message of up to
/// 64 * (2^32 - 2) bytes into as many bytes and a tag of 16, and gives the
/// message back for the same key, nonce and associated data.
#[verifier::external_body]
pub(crate) fn encrypt(key: &[u8; 32], nonce: &[u8; 24], data: &[u8], message: &[u8]) -> (sealed:
    Option<Vec<u8>>)
    requires
        message@.len() <= 274877906816,
    ensures
        sealed is Some,
        sealed->0@ == aead_sealed(key@, nonce@, data@, message@),
        sealed->0@.len() == message@.len() + 16,
        aead_opened(key@, nonce@, data@, sealed->0@) == Some(message@),
{
    let cipher: chacha20poly1305::XChaCha20Poly1305 = chacha20poly1305::KeyInit::new(key.into());
    let payload = chacha20poly1305::aead::Payload { msg: message, aad: data };
    chacha20poly1305::aead::Aead::encrypt(&cipher, nonce.into(), payload).ok()
}

/// `chacha20poly1305::XChaCha20Poly1305` decrypts a ciphertext and tag, or
/// refuses it; a message is 16 bytes shorter than what it was sealed into.
#[verifier::external_body]
pub(crate) fn decrypt(key: &[u8; 32], nonce: &[u8; 24], data: &[u8], sealed: &[u8]) -> (message:
    Option<Vec<u8>>)
    requires
        sealed@.len() <= 274877906832,
    ensures
        match message {
            Some(message) => {
                &&& aead_opened(key@, nonce@, data@, sealed@) == Some(message@)
                &&& message@.len() + 16 == sealed@.len()
            },
            None => aead_opened(key@, nonce@, data@, sealed@) is None,
        },
{
    let cipher: chacha20poly1305::XChaCha20Poly1305 = chacha20poly1305::KeyInit::new(key.into());
    let payload = chacha20poly1305::aead::Payload { msg: sealed, aad: data };
    chacha20poly1305::aead::Aead::decrypt(&cipher, nonce.into(), payload).ok()
}

/// `zeroize::Zeroize::zeroize` overwrites secret bytes with zeros.
#[verifier::external_body]
pub(crate) fn wipe(bytes: &mut [u8; 32])
    ensures
        forall|i: int| 0 <= i < 32 ==> final(bytes)@[i] == 0,
    opens_invariants none
    no_unwind
{
    zeroize::Zeroize::zeroize(bytes);
}

/// `zeroize::Zeroize::zeroize` overwrites the bytes of a vector with zeros and
/// clears it.
#[verifier::external_body]
pub(crate) fn wipe_all(bytes: &mut Vec<u8>)
    ensures
        final(bytes)@.len() == 0,
{
    zeroize::Zeroize::zeroize(bytes);
}

/// One side of a running password-authenticated exchange: a
/// `spake2::Spake2` over the Ed25519 group, whose bound by a trait of its own
/// crate keeps it from being declared.
#[verifier::external_body]
pub struct Exchange {
    pake: spake2::Spake2<spake2::Ed25519Group>,
}

/// The password of a running exchange.
pub uninterp spec fn exchange_password(exchange: Exchange) -> Seq<u8>;

/// The identity that both sides of a running exchange name.
pub uninterp spec fn exchange_side(exchange: Exchange) -> Seq<u8>;

/// The message that a running exchange has sent.
pub uninterp spec fn exchange_message(exchange: Exchange) -> Seq<u8>;

/// The secret that a running exchange shares with the sender of a message.
pub uninterp spec fn exchange_shared(exchange: Exchange, message: Seq<u8>) -> Option<Seq<u8>>;

/// Whether two exchanges run with the same password for the same identity.
pub open spec fn exchanges_agree(first: Exchange, second: Exchange) -> bool {
    &&& exchange_password(first) == exchange_password(second)
    &&& exchange_side(first) == exchange_side(second)
}

/// `spake2::Spake2::start_symmetric` draws a secret and returns the running
/// exchange for a password and an identity, and its message: the byte of the
/// symmetric side and an encoded point. Nothing more is claimed of the point,
/// which depends on the secret drawn.
#[verifier::external_body]
pub(crate) fn start_exchange(password: &[u8], identity: &[u8]) -> (started: (Exchange, Vec<u8>))
    ensures
        exchange_password(started.0) == password@,
        exchange_side(started.0) == identity@,
        exchange_message(started.0) == started.1@,
        started.1@.len() == 33,
        started.1@[0] == 0x53,
{
    let password = spake2::Password::new(password);
    let identity = spake2::Identity::new(identity);
    let (pake, message) = spake2::Spake2::start_symmetric(&password, &identity);
    (Exchange { pake }, message)
}

/// `spake2::Spake2::finish` returns the 32-byte secret shared with the sender
/// of a message, or fails; it fails on a message of another length or side.
/// Two exchanges with the same password and identity share one secret.
#[verifier::external_body]
pub(crate) fn finish_exchange(exchange: Exchange, message: &[u8]) -> (shared: Option<Vec<u8>>)
    ensures
        match shared {
            Some(shared) => exchange_shared(exchange, message@) == Some(shared@),
            None => exchange_shared(exchange, message@) is None,
        },
        shared is Some ==> message@.len() == 33 && message@[0] == 0x53,
        shared matches Some(shared) ==> shared@.len() == 32,
        forall|other: Exchange| #[trigger]
            exchanges_agree(exchange, other) && message@ == exchange_message(other) ==> {
                &&& shared matches Some(shared)
                &&& exchange_shared(other, exchange_message(exchange)) == Some(shared@)
            },
{
    exchange.pake.finish(message).ok()
}

/// The upper-case form of a character.
pub uninterp spec fn uppercased(character: char) -> Seq<char>;

/// `char::to_uppercase` yields the upper-case form of a character; a letter
/// from `a` to `z` has the letter from `A` to `Z`, and any other ASCII
/// character stands for itself.
#[verifier::external_body]
pub(crate) fn uppercase(character: char) -> (upper: Vec<char>)
    ensures
        upper@ == uppercased(character),
        'a' <= character <= 'z' ==> upper@ == seq![((character as int) - 32) as char],
        character <= '\u{7f}' && !('a' <= character <= 'z') ==> upper@ == seq![character],
{
    character.to_uppercase().collect()
}

} // verus!
