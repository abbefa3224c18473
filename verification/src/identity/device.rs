//! Device keys, identifiers and domain-separated signatures.

use crate::bytes::{extend, framed, hex, hex_text, law_framing_is_injective, push_part, to_array};
use crate::crypto;
use crate::crypto::{
    blake3_hash, degenerate, ed25519_point, ed25519_public, ed25519_signature, ed25519_verifies,
};
use crate::ordmap::{bytes_before, lemma_bytes_ordered, rank_bytes, Key, Rank, Value};
use crate::text::same_bytes;
use vstd::prelude::*;
use vstd::string::*;
use vstd::utf8::encode_utf8;

verus! {

/// The protocol identifier that every device signature and identifier holds.
pub open spec fn protocol() -> Seq<u8> {
    encode_utf8("cyrene/pairing/1"@)
}

/// An error while creating or completing a pairing.
#[derive(Clone, Copy, Debug, PartialEq, Eq, Structural)]
pub enum PairingError {
    /// The invitation's lifetime has elapsed.
    Expired,
    /// A message was malformed or belongs to another protocol version.
    InvalidMessage,
    /// A device signature did not match the advertised public key.
    InvalidSignature,
    /// The short codes or transcripts did not match.
    ConfirmationFailed,
    /// The operating system did not provide secure random bytes.
    Randomness,
}

impl PairingError {
    /// Returns the human-readable reason.
    pub fn message(self) -> (message: &'static str)
        ensures
            message@ == match self {
                PairingError::Expired => "this pairing invitation has expired"@,
                PairingError::InvalidMessage => "the pairing message is invalid"@,
                PairingError::InvalidSignature
                    => "the pairing message has an invalid device signature"@,
                PairingError::ConfirmationFailed
                    => "the pairing codes or transcripts do not match"@,
                PairingError::Randomness => "secure random generation failed"@,
            },
    {
        match self {
            PairingError::Expired => "this pairing invitation has expired",
            PairingError::InvalidMessage => "the pairing message is invalid",
            PairingError::InvalidSignature
                => "the pairing message has an invalid device signature",
            PairingError::ConfirmationFailed => "the pairing codes or transcripts do not match",
            PairingError::Randomness => "secure random generation failed",
        }
    }
}

/// A stable identifier derived from a device's public key.
#[derive(Clone, Copy, Debug, PartialEq, Eq, Hash)]
pub struct DeviceId(pub [u8; 32]);

impl View for DeviceId {
    type V = Seq<u8>;

    open spec fn view(&self) -> Seq<u8> {
        self.0@
    }
}

impl DeviceId {
    /// Restores an identifier from its public hash bytes.
    pub fn from_bytes(bytes: [u8; 32]) -> (id: Self)
        ensures
            id@ == bytes@,
    {
        DeviceId(bytes)
    }

    /// Returns the identifier bytes.
    pub fn as_bytes(&self) -> (bytes: &[u8; 32])
        ensures
            bytes@ == self@,
    {
        &self.0
    }

    /// Renders the first eight bytes in hexadecimal.
    pub fn to_string(&self) -> (text: String)
        ensures
            text@ == hex_text(self@.take(8)),
    {
        let bytes = self.0.as_slice();
        hex(vstd::slice::slice_subrange(bytes, 0, 8))
    }
}

/// A device's public identity.
#[derive(Clone, Copy, Debug, PartialEq, Eq, PartialOrd, Ord)]
pub struct DevicePublicKey(pub [u8; 32]);

impl View for DevicePublicKey {
    type V = Seq<u8>;

    open spec fn view(&self) -> Seq<u8> {
        self.0@
    }
}

impl Key for DevicePublicKey {
    open spec fn before(a: Seq<u8>, b: Seq<u8>) -> bool {
        bytes_before(a, b)
    }

    proof fn ordered(a: Seq<u8>, b: Seq<u8>, c: Seq<u8>) {
        lemma_bytes_ordered(a, b, c);
    }

    fn rank(&self, other: &Self) -> (rank: Rank) {
        rank_bytes(self.0.as_slice(), other.0.as_slice())
    }

    fn duplicate(&self) -> (copy: Self) {
        *self
    }
}

/// The identifier of a public key.
pub open spec fn device_id(key: Seq<u8>) -> Seq<u8> {
    blake3_hash(protocol() + encode_utf8("/device/"@) + key)
}

/// The bytes that are signed for a message in a domain.
pub open spec fn scoped_message(domain: Seq<u8>, message: Seq<u8>) -> Seq<u8> {
    framed(seq![protocol(), domain, message])
}

/// Whether bytes are a signature of exactly 64 bytes that verifies.
pub open spec fn signature_valid(key: Seq<u8>, message: Seq<u8>, signature: Seq<u8>) -> bool {
    signature.len() == 64 && ed25519_verifies(key, message, signature)
}

/// Whether a signature verifies for a message in a domain.
pub open spec fn scoped_valid(
    key: Seq<u8>,
    domain: Seq<u8>,
    message: Seq<u8>,
    signature: Seq<u8>,
) -> bool {
    signature_valid(key, scoped_message(domain, message), signature)
}

/// The signature that a secret makes of a message in a domain.
pub open spec fn scoped_signature(secret: Seq<u8>, domain: Seq<u8>, message: Seq<u8>) -> Seq<u8> {
    ed25519_signature(secret, scoped_message(domain, message))
}

fn signature_message(domain: &[u8], message: &[u8]) -> (encoded: Vec<u8>)
    ensures
        encoded@ == scoped_message(domain@, message@),
{
    let mut encoded: Vec<u8> = Vec::new();
    let ghost none = Seq::<Seq<u8>>::empty();
    assert(encoded@ =~= framed(none));
    push_part(&mut encoded, "cyrene/pairing/1".as_bytes());
    assert(encoded@ == framed(none.push(protocol())));
    push_part(&mut encoded, domain);
    assert(encoded@ == framed(none.push(protocol()).push(domain@)));
    push_part(&mut encoded, message);
    assert(encoded@ == framed(none.push(protocol()).push(domain@).push(message@)));
    assert(none.push(protocol()).push(domain@).push(message@) =~= seq![
        protocol(),
        domain@,
        message@,
    ]);
    encoded
}

/// Decides whether bytes are a signature of `message` that verifies.
pub(crate) fn check_signature(key: &DevicePublicKey, message: &[u8], signature: &[u8]) -> (valid: bool)
    ensures
        valid == signature_valid(key@, message@, signature@),
        valid ==> ed25519_point(key@),
{
    if signature.len() != 64 {
        return false;
    }
    let signature: [u8; 64] = to_array(signature);
    crypto::verify_strict(&key.0, message, &signature)
}

impl DevicePublicKey {
    /// Parses and validates an encoded Ed25519 public key.
    pub fn from_bytes(bytes: [u8; 32]) -> (key: Result<Self, PairingError>)
        ensures
            match key {
                Ok(key) => ed25519_point(bytes@) && key@ == bytes@,
                Err(error) => !ed25519_point(bytes@) && error == PairingError::InvalidMessage,
            },
    {
        if crypto::is_point(&bytes) {
            Ok(DevicePublicKey(bytes))
        } else {
            Err(PairingError::InvalidMessage)
        }
    }

    /// Returns whether two keys are the same.
    pub fn same(&self, other: &Self) -> (same: bool)
        ensures
            same == (self@ == other@),
            same == (*self == *other),
    {
        let same = same_bytes(self.0.as_slice(), other.0.as_slice());
        proof {
            if same {
                assert(self.0 =~= other.0) by {
                    assert forall|i: int| 0 <= i < 32 implies self.0[i] == other.0[i] by {
                        assert(self.0@[i] == other.0@[i]);
                    }
                }
            }
        }
        same
    }

    /// Returns this key's stable device identifier.
    pub fn id(self) -> (id: DeviceId)
        ensures
            id@ == device_id(self@),
    {
        let mut bytes: Vec<u8> = Vec::new();
        extend(&mut bytes, "cyrene/pairing/1".as_bytes());
        extend(&mut bytes, "/device/".as_bytes());
        extend(&mut bytes, self.0.as_slice());
        assert(bytes@ =~= protocol() + encode_utf8("/device/"@) + self@);
        DeviceId(crypto::hash(bytes.as_slice()))
    }

    /// Returns the encoded Ed25519 public key.
    pub fn to_bytes(self) -> (bytes: [u8; 32])
        ensures
            bytes@ == self@,
            bytes == self.0,
    {
        self.0
    }

    /// Verifies a signature in an application-specific domain.
    ///
    /// A domain must be a stable protocol identifier, not user-controlled
    /// input. Domain separation prevents a valid signature from one Cyrene
    /// protocol from being replayed in another.
    pub fn verify(self, domain: &[u8], message: &[u8], signature: &[u8]) -> (valid: bool)
        ensures
            valid == scoped_valid(self@, domain@, message@, signature@),
    {
        let encoded = signature_message(domain, message);
        check_signature(&self, encoded.as_slice(), signature)
    }
}

impl Value for DevicePublicKey {
    open spec fn alike(a: DevicePublicKey, b: DevicePublicKey) -> bool {
        a == b
    }

    fn copy_value(&self) -> (copy: Self) {
        *self
    }
}

/// A locally generated device identity.
///
/// The secret key is intentionally neither serializable nor printable. Use
/// [`DeviceIdentity::secret_bytes`] only at a protected persistence boundary.
pub struct DeviceIdentity {
    secret: [u8; 32],
}

impl View for DeviceIdentity {
    type V = Seq<u8>;

    /// The secret encoding.
    closed spec fn view(&self) -> Seq<u8> {
        self.secret@
    }
}

impl DeviceIdentity {
    /// The public key of the identity.
    pub open spec fn public(self) -> Seq<u8> {
        ed25519_public(self@)
    }

    /// Generates a fresh identity from operating-system randomness.
    pub fn generate() -> (identity: Result<Self, PairingError>)
        ensures
            identity matches Err(error) ==> error == PairingError::Randomness,
    {
        DeviceIdentity::from_draw(crypto::random::<32>())
    }

    /// Makes the identity of 32 random bytes, or says that none could be drawn.
    pub fn from_draw(drawn: Option<[u8; 32]>) -> (identity: Result<Self, PairingError>)
        ensures
            match drawn {
                Some(secret) => identity matches Ok(identity) && identity@ == secret@,
                None => identity matches Err(error) && error == PairingError::Randomness,
            },
    {
        match drawn {
            Some(secret) => Ok(DeviceIdentity { secret }),
            None => Err(PairingError::Randomness),
        }
    }

    /// Restores an identity from its secret encoding.
    pub fn from_secret_bytes(secret: &[u8; 32]) -> (identity: Self)
        ensures
            identity@ == secret@,
    {
        DeviceIdentity { secret: *secret }
    }

    /// Exposes the secret encoding for protected persistence.
    pub fn secret_bytes(&self) -> (secret: [u8; 32])
        ensures
            secret@ == self@,
    {
        self.secret
    }

    /// Returns the public half of this identity.
    pub fn public_key(&self) -> (key: DevicePublicKey)
        ensures
            key@ == self.public(),
            ed25519_point(key@),
    {
        DevicePublicKey(crypto::public_key(&self.secret))
    }

    /// Returns this identity's stable identifier.
    pub fn id(&self) -> (id: DeviceId)
        ensures
            id@ == device_id(self.public()),
    {
        self.public_key().id()
    }

    /// Signs a message in an application-specific domain.
    ///
    /// The signature verifies in the same domain, unless it is the degenerate
    /// one that strict verification refuses.
    pub fn sign(&self, domain: &[u8], message: &[u8]) -> (signature: [u8; 64])
        ensures
            signature@ == scoped_signature(self@, domain@, message@),
            !degenerate(signature@) ==> scoped_valid(
                self.public(),
                domain@,
                message@,
                signature@,
            ),
    {
        let encoded = signature_message(domain, message);
        crypto::sign(&self.secret, encoded.as_slice())
    }

    /// Signs bytes that already hold their own protocol identifier.
    pub(crate) fn sign_raw(&self, message: &[u8]) -> (signature: [u8; 64])
        ensures
            signature@ == ed25519_signature(self@, message@),
            !degenerate(signature@) ==> signature_valid(self.public(), message@, signature@),
    {
        crypto::sign(&self.secret, message)
    }

    /// Describes the identity without its secret.
    pub fn debug_text(&self) -> (text: String)
        ensures
            text@ == "DeviceIdentity { id: DeviceId("@ + hex_text(
                device_id(self.public()).take(8),
            ) + "), .. }"@,
    {
        let mut text = "DeviceIdentity { id: DeviceId(".to_owned();
        text.append(self.id().to_string().as_str());
        text.append("), .. }");
        text
    }
}

/// Domains separate signatures: what is signed for a message in a domain is
/// signed for no other message and in no other domain.
pub proof fn law_domains_separate_signatures(
    first_domain: Seq<u8>,
    first_message: Seq<u8>,
    second_domain: Seq<u8>,
    second_message: Seq<u8>,
)
    requires
        first_domain.len() <= u64::MAX,
        first_message.len() <= u64::MAX,
        second_domain.len() <= u64::MAX,
        second_message.len() <= u64::MAX,
        scoped_message(first_domain, first_message) == scoped_message(
            second_domain,
            second_message,
        ),
    ensures
        first_domain == second_domain,
        first_message == second_message,
{
    let first = seq![protocol(), first_domain, first_message];
    let second = seq![protocol(), second_domain, second_message];
    lemma_protocol_len();
    law_framing_is_injective(first, second);
    assert(first[1] == second[1]);
    assert(first[2] == second[2]);
}

pub(crate) proof fn lemma_protocol_len()
    ensures
        protocol().len() == 16,
{
    reveal_strlit("cyrene/pairing/1");
    assert(vstd::utf8::is_ascii_chars("cyrene/pairing/1"@));
    vstd::utf8::is_ascii_chars_encode_utf8("cyrene/pairing/1"@);
}

/// A signature is valid for a purpose exactly where it has 64 bytes and the key
/// verifies it over the message framed with that purpose.
pub proof fn law_signature_is_checked_exactly(
    key: Seq<u8>,
    domain: Seq<u8>,
    message: Seq<u8>,
    signature: Seq<u8>,
)
    ensures
        scoped_valid(key, domain, message, signature) <==> signature.len() == 64
            && ed25519_verifies(key, framed(seq![protocol(), domain, message]), signature),
        scoped_signature(key, domain, message) == ed25519_signature(
            key,
            framed(seq![protocol(), domain, message]),
        ),
{
}

} // verus!
