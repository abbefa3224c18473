//! Wrapping keys and the secrets that they seal.

use super::error::{trust_refused, TrustError, TrustFailure};
use crate::bytes::{be, be_u128, be_u64, be_value, extend, from_be, lemma_be_u64, to_array};
use crate::crypto;
use crate::crypto::{aead_opened, aead_sealed, blake3_hash, MAX_MESSAGE_BYTES};
use crate::id::SpaceId;
use crate::identity::device::DeviceIdentity;
use crate::net::certificate::QuicCertificate;
use crate::text::{copy_bytes, owned};
use vstd::prelude::*;
use vstd::slice::slice_subrange;
use vstd::string::*;
use vstd::utf8::encode_utf8;

verus! {

/// A 256-bit key supplied by an OS key store or an equivalent protected source.
pub struct WrappingKey {
    bytes: [u8; 32],
}

impl View for WrappingKey {
    type V = Seq<u8>;

    /// The secret bytes.
    closed spec fn view(&self) -> Seq<u8> {
        self.bytes@
    }
}

impl Drop for WrappingKey {
    fn drop(&mut self)
        opens_invariants none
        no_unwind
    {
        crypto::wipe(&mut self.bytes);
    }
}

impl WrappingKey {
    /// Generates a fresh key from operating-system randomness.
    pub fn generate() -> (key: Result<Self, TrustError>)
        ensures
            key matches Err(error) ==> error@ == TrustFailure::Randomness,
    {
        WrappingKey::from_draw(crypto::random::<32>())
    }

    /// Makes the wrapping key of 32 random bytes, or says that none could be
    /// drawn.
    pub fn from_draw(drawn: Option<[u8; 32]>) -> (key: Result<Self, TrustError>)
        ensures
            match drawn {
                Some(bytes) => key matches Ok(key) && key@ == bytes@,
                None => key matches Err(error) && error@ == TrustFailure::Randomness,
            },
    {
        match drawn {
            Some(bytes) => Ok(WrappingKey { bytes }),
            None => Err(TrustError::Randomness),
        }
    }

    /// Restores a key obtained from a protected source.
    pub fn from_bytes(bytes: [u8; 32]) -> (key: Self)
        ensures
            key@ == bytes@,
    {
        WrappingKey { bytes }
    }

    /// Exposes key bytes for transfer to an OS key store.
    pub fn secret_bytes(&self) -> (bytes: &[u8; 32])
        ensures
            bytes@ == self@,
    {
        &self.bytes
    }

    /// Reads the wrapping key from what a named credential-store slot holds.
    pub fn from_slot(name: &str, secret: Option<Vec<u8>>) -> (key: Result<Self, TrustError>)
        ensures
            match secret {
                None => key matches Err(error) && error@ == TrustFailure::MissingWrappingKey(
                    name@,
                ),
                Some(secret) => if secret@.len() == 32 {
                    key matches Ok(key) && key@ == secret@
                } else {
                    key matches Err(error) && error@ == (TrustFailure::MalformedWrappingKey {
                        name: name@,
                        length: secret@.len(),
                    })
                },
            },
    {
        match secret {
            None => Err(TrustError::MissingWrappingKey(owned(name))),
            Some(secret) => {
                let length: usize = secret.len();
                if length != 32 {
                    return Err(TrustError::MalformedWrappingKey { name: owned(name), length });
                }
                Ok(WrappingKey { bytes: to_array(secret.as_slice()) })
            },
        }
    }

    /// Refuses to replace the key of an occupied credential-store slot.
    pub fn refuse_replacement(name: &str, occupied: bool) -> (result: Result<(), TrustError>)
        ensures
            trust_refused(result) == if occupied {
                Some(TrustFailure::WrappingKeyExists(name@))
            } else {
                None
            },
    {
        if occupied {
            return Err(TrustError::WrappingKeyExists(owned(name)));
        }
        Ok(())
    }
}

/// Restored private credentials for the local device.
pub struct DeviceMaterial {
    /// Long-lived signing identity.
    pub identity: DeviceIdentity,
    /// Long-lived, pinned QUIC certificate and private key.
    pub certificate: QuicCertificate,
}

/// What a [`DeviceMaterial`] holds.
#[verifier::ext_equal]
pub struct MaterialView {
    /// Secret of the signing identity.
    pub secret: Seq<u8>,
    /// DER certificate.
    pub certificate: Seq<u8>,
    /// PKCS#8 key of the certificate.
    pub certificate_key: Seq<u8>,
}

impl View for DeviceMaterial {
    type V = MaterialView;

    open spec fn view(&self) -> MaterialView {
        MaterialView {
            secret: self.identity@,
            certificate: self.certificate.certificate(),
            certificate_key: self.certificate.private_key(),
        }
    }
}

/// What is authenticated with sealed device credentials: the public key and the
/// certificate's hash.
pub open spec fn device_data(public_key: Seq<u8>, certificate: Seq<u8>) -> Seq<u8> {
    encode_utf8("cyrene/trust-vault/device-material/1"@) + public_key + blake3_hash(certificate)
}

/// What is authenticated with a sealed content key: its space and epoch.
pub open spec fn space_key_data(space: SpaceId, epoch: u64) -> Seq<u8> {
    encode_utf8("cyrene/trust-vault/space-key/1"@) + be(space.0 as nat, 16) + be(epoch as nat, 8)
}

/// The encoding of device credentials: the signing secret, the length of the
/// certificate key in eight big-endian bytes, and the certificate key.
pub open spec fn private_material(secret: Seq<u8>, certificate_key: Seq<u8>) -> Seq<u8> {
    secret + be(certificate_key.len(), 8) + certificate_key
}

/// The device credentials that an encoding holds.
pub open spec fn decoded_material(plaintext: Seq<u8>) -> Option<(Seq<u8>, Seq<u8>)> {
    if plaintext.len() < 40 || plaintext.len() != 40 + be_value(plaintext.subrange(32, 40)) {
        None
    } else {
        Some((plaintext.take(32), plaintext.skip(40)))
    }
}

/// Whether bytes are a fresh nonce and what the cipher makes of a plaintext
/// under it.
pub open spec fn seals(key: Seq<u8>, data: Seq<u8>, plaintext: Seq<u8>, sealed: Seq<u8>) -> bool {
    &&& sealed.len() >= 24
    &&& sealed == sealed.take(24) + aead_sealed(key, sealed.take(24), data, plaintext)
    &&& unsealed(key, data, sealed) == Some(plaintext)
}

/// The plaintext that sealed bytes authenticate, if any.
pub open spec fn unsealed(key: Seq<u8>, data: Seq<u8>, sealed: Seq<u8>) -> Option<Seq<u8>> {
    if sealed.len() < 24 || sealed.len() > 274877906856 {
        None
    } else {
        aead_opened(key, sealed.take(24), data, sealed.skip(24))
    }
}

pub(crate) fn device_aad(public_key: &[u8; 32], certificate_der: &[u8]) -> (data: Vec<u8>)
    ensures
        data@ == device_data(public_key@, certificate_der@),
{
    let mut data: Vec<u8> = Vec::new();
    extend(&mut data, "cyrene/trust-vault/device-material/1".as_bytes());
    extend(&mut data, public_key.as_slice());
    let digest = crypto::hash(certificate_der);
    extend(&mut data, digest.as_slice());
    assert(data@ =~= device_data(public_key@, certificate_der@));
    data
}

pub(crate) fn space_key_aad(space: SpaceId, epoch: u64) -> (data: Vec<u8>)
    ensures
        data@ == space_key_data(space, epoch),
{
    let mut data: Vec<u8> = Vec::new();
    extend(&mut data, "cyrene/trust-vault/space-key/1".as_bytes());
    extend(&mut data, be_u128(space.0, 16).as_slice());
    extend(&mut data, be_u64(epoch).as_slice());
    assert(data@ =~= space_key_data(space, epoch));
    data
}

pub(crate) fn encode_private_material(identity: &[u8; 32], certificate_key: &[u8]) -> (encoded: Vec<
    u8,
>)
    ensures
        encoded@ == private_material(identity@, certificate_key@),
{
    let mut encoded: Vec<u8> = Vec::new();
    extend(&mut encoded, identity.as_slice());
    extend(&mut encoded, be_u64(certificate_key.len() as u64).as_slice());
    extend(&mut encoded, certificate_key);
    assert(encoded@ =~= private_material(identity@, certificate_key@));
    encoded
}

pub(crate) fn decode_private_material(plaintext: &[u8]) -> (decoded: Result<
    ([u8; 32], Vec<u8>),
    TrustError,
>)
    ensures
        match decoded {
            Ok((identity, certificate_key)) => decoded_material(plaintext@) == Some(
                (identity@, certificate_key@),
            ),
            Err(error) => decoded_material(plaintext@) is None && error@
                == TrustFailure::ProtectedMaterial,
        },
{
    if plaintext.len() < 40 {
        return Err(TrustError::ProtectedMaterial);
    }
    let length: u128 = from_be(slice_subrange(plaintext, 32, 40));
    if plaintext.len() as u128 != 40 + length {
        return Err(TrustError::ProtectedMaterial);
    }
    let identity: [u8; 32] = to_array(slice_subrange(plaintext, 0, 32));
    let certificate_key = copy_bytes(slice_subrange(plaintext, 40, plaintext.len()));
    assert(plaintext@.subrange(0, 32) =~= plaintext@.take(32));
    assert(plaintext@.subrange(40, plaintext@.len() as int) =~= plaintext@.skip(40));
    Ok((identity, certificate_key))
}

/// Seals a plaintext under a nonce that has been drawn: the nonce, the
/// ciphertext and its tag.
pub fn seal_with(key: &WrappingKey, data: &[u8], plaintext: &[u8], nonce: [u8; 24]) -> (sealed: Result<
    Vec<u8>,
    TrustError,
>)
    ensures
        match sealed {
            Ok(sealed) => {
                &&& plaintext@.len() <= 274877906816
                &&& sealed@ == nonce@ + aead_sealed(key@, nonce@, data@, plaintext@)
                &&& seals(key@, data@, plaintext@, sealed@)
            },
            Err(error) => plaintext@.len() > 274877906816 && error@
                == TrustFailure::ProtectedMaterial,
        },
{
    if plaintext.len() as u64 > MAX_MESSAGE_BYTES {
        return Err(TrustError::ProtectedMaterial);
    }
    match crypto::encrypt(key.secret_bytes(), &nonce, data, plaintext) {
        None => Err(TrustError::ProtectedMaterial),
        Some(ciphertext) => {
            let mut sealed: Vec<u8> = Vec::new();
            extend(&mut sealed, nonce.as_slice());
            extend(&mut sealed, ciphertext.as_slice());
            proof {
                assert(sealed@.take(24) =~= nonce@);
                assert(sealed@.skip(24) =~= ciphertext@);
                assert(sealed@ =~= nonce@ + ciphertext@);
            }
            Ok(sealed)
        },
    }
}

/// Opens sealed bytes.
pub fn unseal(key: &WrappingKey, data: &[u8], sealed: &[u8]) -> (plaintext: Result<
    Vec<u8>,
    TrustError,
>)
    ensures
        match plaintext {
            Ok(plaintext) => {
                &&& unsealed(key@, data@, sealed@) == Some(plaintext@)
                &&& plaintext@.len() + 40 == sealed@.len() <= 274877906856
            },
            Err(error) => unsealed(key@, data@, sealed@) is None && error@
                == TrustFailure::ProtectedMaterial,
        },
{
    if sealed.len() < 24 || sealed.len() as u64 > MAX_MESSAGE_BYTES + 40 {
        return Err(TrustError::ProtectedMaterial);
    }
    let nonce: [u8; 24] = to_array(slice_subrange(sealed, 0, 24));
    let ciphertext = slice_subrange(sealed, 24, sealed.len());
    assert(sealed@.subrange(0, 24) =~= sealed@.take(24));
    assert(sealed@.subrange(24, sealed@.len() as int) =~= sealed@.skip(24));
    match crypto::decrypt(key.secret_bytes(), &nonce, data, ciphertext) {
        Some(plaintext) => Ok(plaintext),
        None => Err(TrustError::ProtectedMaterial),
    }
}

/// Encoded device credentials decode to what was encoded.
pub proof fn law_private_material_round_trip(secret: Seq<u8>, certificate_key: Seq<u8>)
    requires
        secret.len() == 32,
        certificate_key.len() <= u64::MAX,
    ensures
        decoded_material(private_material(secret, certificate_key)) == Some(
            (secret, certificate_key),
        ),
{
    let encoded = private_material(secret, certificate_key);
    lemma_be_u64(certificate_key.len() as u64);
    assert(encoded.subrange(32, 40) =~= be(certificate_key.len(), 8));
    assert(encoded.take(32) =~= secret);
    assert(encoded.skip(40) =~= certificate_key);
}

/// What is authenticated with a sealed content key determines its space and
/// epoch.
pub proof fn law_space_key_data_is_injective(
    space: SpaceId,
    epoch: u64,
    other_space: SpaceId,
    other_epoch: u64,
)
    requires
        space_key_data(space, epoch) == space_key_data(other_space, other_epoch),
    ensures
        space == other_space,
        epoch == other_epoch,
{
    let domain = encode_utf8("cyrene/trust-vault/space-key/1"@);
    let first = space_key_data(space, epoch);
    let second = space_key_data(other_space, other_epoch);
    let start = domain.len() as int;
    crate::bytes::lemma_be_u128(space.0);
    crate::bytes::lemma_be_u128(other_space.0);
    lemma_be_u64(epoch);
    lemma_be_u64(other_epoch);
    assert(first.subrange(start, start + 16) =~= be(space.0 as nat, 16));
    assert(second.subrange(start, start + 16) =~= be(other_space.0 as nat, 16));
    assert(first.subrange(start + 16, start + 24) =~= be(epoch as nat, 8));
    assert(second.subrange(start + 16, start + 24) =~= be(other_epoch as nat, 8));
}

/// Every private material that decodes is the encoding of what it decodes to.
pub proof fn law_private_material_is_canonical(plaintext: Seq<u8>)
    ensures
        decoded_material(plaintext) matches Some((secret, certificate_key)) ==> private_material(
            secret,
            certificate_key,
        ) == plaintext && secret.len() == 32,
{
    if let Some((secret, certificate_key)) = decoded_material(plaintext) {
        let length = plaintext.subrange(32, 40);
        crate::bytes::law_big_endian_is_exact(length);
        assert(plaintext =~= plaintext.take(32) + length + plaintext.skip(40));
    }
}

/// Sealed bytes are a nonce of 24 bytes and what is encrypted under it with the
/// data they are bound to, and nothing else opens.
pub proof fn law_sealed_bytes_open(
    key: Seq<u8>,
    data: Seq<u8>,
    nonce: Seq<u8>,
    ciphertext: Seq<u8>,
)
    requires
        nonce.len() == 24,
        ciphertext.len() <= 274877906832,
    ensures
        unsealed(key, data, nonce + ciphertext) == aead_opened(key, nonce, data, ciphertext),
        forall|short: Seq<u8>| short.len() < 24 ==> #[trigger] unsealed(key, data, short) is None,
{
    let whole = nonce + ciphertext;
    assert(whole.take(24) =~= nonce);
    assert(whole.skip(24) =~= ciphertext);
}

/// What is sealed opens to what was sealed, under the same key and data.
pub proof fn law_sealed_secret_opens(
    key: Seq<u8>,
    data: Seq<u8>,
    plaintext: Seq<u8>,
    sealed: Seq<u8>,
)
    requires
        seals(key, data, plaintext, sealed),
    ensures
        unsealed(key, data, sealed) == Some(plaintext),
        sealed.len() >= 24,
        sealed.skip(24) == aead_sealed(key, sealed.take(24), data, plaintext),
{
    assert(sealed.skip(24) =~= aead_sealed(key, sealed.take(24), data, plaintext)) by {
        let nonce = sealed.take(24);
        let rest = aead_sealed(key, nonce, data, plaintext);
        assert((nonce + rest).skip(24) =~= rest);
    }
}

} // verus!
