//! Portable encrypted snapshots of a trust vault.

use super::error::{trust_refused, TrustError, TrustFailure};
use super::material::WrappingKey;
use crate::bytes::{be, be_u64, be_value, extend, from_be, lemma_be_u64, to_array};
use crate::crypto;
use crate::crypto::{aead_opened, aead_sealed, MAX_MESSAGE_BYTES};
use crate::text::{copy_bytes, same_bytes};
use vstd::prelude::*;
use vstd::slice::slice_subrange;
use vstd::string::*;
use vstd::utf8::encode_utf8;

verus! {

/// The version of recovery artifacts.
pub const RECOVERY_VERSION: u8 = 1;

/// The largest vault that a recovery artifact holds.
pub const MAX_RECOVERY_DATABASE_BYTES: usize = 256 * 1024 * 1024;

/// The first bytes of every recovery artifact.
pub open spec fn recovery_magic() -> Seq<u8> {
    encode_utf8("CYRREC01"@)
}

/// What is authenticated with a recovery artifact.
pub open spec fn recovery_domain() -> Seq<u8> {
    encode_utf8("cyrene/recovery-bundle/1"@)
}

/// A zeroizing 256-bit secret protecting one portable recovery artifact.
pub struct RecoverySecret {
    bytes: [u8; 32],
}

impl View for RecoverySecret {
    type V = Seq<u8>;

    /// The secret bytes.
    closed spec fn view(&self) -> Seq<u8> {
        self.bytes@
    }
}

impl Drop for RecoverySecret {
    fn drop(&mut self)
        opens_invariants none
        no_unwind
    {
        crypto::wipe(&mut self.bytes);
    }
}

impl RecoverySecret {
    /// Generates a new recovery secret from operating-system randomness.
    pub fn generate() -> (secret: Result<Self, TrustError>)
        ensures
            secret matches Err(error) ==> error@ == TrustFailure::Randomness,
    {
        RecoverySecret::from_draw(crypto::random::<32>())
    }

    /// Makes the recovery secret of 32 random bytes, or says that none could be
    /// drawn.
    pub fn from_draw(drawn: Option<[u8; 32]>) -> (secret: Result<Self, TrustError>)
        ensures
            match drawn {
                Some(bytes) => secret matches Ok(secret) && secret@ == bytes@,
                None => secret matches Err(error) && error@ == TrustFailure::Randomness,
            },
    {
        match drawn {
            Some(bytes) => Ok(RecoverySecret { bytes }),
            None => Err(TrustError::Randomness),
        }
    }

    /// Restores a secret from a protected phrase or token representation.
    pub fn from_bytes(bytes: [u8; 32]) -> (secret: Self)
        ensures
            secret@ == bytes@,
    {
        RecoverySecret { bytes }
    }

    /// Exposes bytes only at an explicit recovery-secret encoding boundary.
    pub fn secret_bytes(&self) -> (bytes: &[u8; 32])
        ensures
            bytes@ == self@,
    {
        &self.bytes
    }

    /// Describes the secret without revealing it.
    pub fn debug_text(&self) -> (text: String)
        ensures
            text@ == "RecoverySecret(\"[REDACTED]\")"@,
    {
        "RecoverySecret(\"[REDACTED]\")".to_owned()
    }
}

/// Versioned, authenticated ciphertext containing a consistent trust snapshot.
#[derive(Debug, PartialEq, Eq)]
pub struct RecoveryBundle {
    nonce: [u8; 24],
    ciphertext: Vec<u8>,
}

/// What a [`RecoveryBundle`] holds.
#[verifier::ext_equal]
pub struct BundleView {
    /// Random nonce.
    pub nonce: Seq<u8>,
    /// Ciphertext and tag.
    pub ciphertext: Seq<u8>,
}

impl View for RecoveryBundle {
    type V = BundleView;

    closed spec fn view(&self) -> BundleView {
        BundleView { nonce: self.nonce@, ciphertext: self.ciphertext@ }
    }
}

impl Clone for RecoveryBundle {
    fn clone(&self) -> (copy: Self)
        ensures
            copy@ == self@,
    {
        RecoveryBundle { nonce: self.nonce, ciphertext: copy_bytes(self.ciphertext.as_slice()) }
    }
}

/// The portable encoding of a recovery artifact.
pub open spec fn bundle_bytes(bundle: BundleView) -> Seq<u8> {
    recovery_magic() + seq![1u8] + bundle.nonce + be(bundle.ciphertext.len(), 8)
        + bundle.ciphertext
}

/// The recovery artifact that bytes encode, if any.
pub open spec fn decoded_bundle(bytes: Seq<u8>) -> Option<BundleView> {
    if bytes.len() < 41 || bytes.len() > 268436480 || bytes.take(8) != recovery_magic() || bytes[8]
        != 1 || bytes.len() != 41 + be_value(bytes.subrange(33, 41)) {
        None
    } else {
        Some(BundleView { nonce: bytes.subrange(9, 33), ciphertext: bytes.skip(41) })
    }
}

/// The snapshot that a recovery artifact seals: the version, the vault's
/// wrapping key, the length of the database in eight big-endian bytes, and the
/// database.
pub open spec fn recovery_plaintext(wrapping_key: Seq<u8>, database: Seq<u8>) -> Seq<u8> {
    seq![1u8] + wrapping_key + be(database.len(), 8) + database
}

/// The wrapping key and database that a snapshot holds, if any.
pub open spec fn decoded_recovery(plaintext: Seq<u8>) -> Option<(Seq<u8>, Seq<u8>)> {
    if plaintext.len() < 41 || plaintext[0] != 1 || be_value(plaintext.subrange(33, 41))
        > 268435456 || plaintext.len() != 41 + be_value(plaintext.subrange(33, 41)) {
        None
    } else {
        Some((plaintext.subrange(1, 33), plaintext.skip(41)))
    }
}

/// The snapshot that a secret opens, if any.
pub open spec fn opened_bundle(bundle: BundleView, secret: Seq<u8>) -> Option<Seq<u8>> {
    if bundle.ciphertext.len() > 274877906832 {
        None
    } else {
        aead_opened(secret, bundle.nonce, recovery_domain(), bundle.ciphertext)
    }
}

/// The wrapping key and database that a secret recovers, or why it does not.
pub open spec fn recovered(bundle: BundleView, secret: Seq<u8>) -> Result<
    (Seq<u8>, Seq<u8>),
    TrustFailure,
> {
    match opened_bundle(bundle, secret) {
        None => Err(TrustFailure::RecoveryAuthentication),
        Some(plaintext) => match decoded_recovery(plaintext) {
            Some(snapshot) => Ok(snapshot),
            None => Err(TrustFailure::InvalidRecoveryBundle),
        },
    }
}

impl RecoveryBundle {
    /// The nonce of an artifact has 24 bytes.
    pub proof fn lemma_nonce(self)
        ensures
            self@.nonce.len() == 24,
    {
    }

    /// Encodes this artifact into its stable portable binary representation.
    pub fn to_bytes(&self) -> (bytes: Vec<u8>)
        ensures
            bytes@ == bundle_bytes(self@),
    {
        let mut bytes: Vec<u8> = Vec::new();
        extend(&mut bytes, "CYRREC01".as_bytes());
        bytes.push(RECOVERY_VERSION);
        extend(&mut bytes, self.nonce.as_slice());
        extend(&mut bytes, be_u64(self.ciphertext.len() as u64).as_slice());
        extend(&mut bytes, self.ciphertext.as_slice());
        assert(bytes@ =~= bundle_bytes(self@));
        bytes
    }

    /// Decodes a bounded portable recovery artifact.
    pub fn from_bytes(bytes: &[u8]) -> (bundle: Result<Self, TrustError>)
        ensures
            match bundle {
                Ok(bundle) => decoded_bundle(bytes@) == Some(bundle@),
                Err(error) => decoded_bundle(bytes@) is None && error@
                    == TrustFailure::InvalidRecoveryBundle,
            },
    {
        let maximum: usize = MAX_RECOVERY_DATABASE_BYTES + 1_024;
        if bytes.len() < 41 || bytes.len() > maximum {
            return Err(TrustError::InvalidRecoveryBundle);
        }
        assert(bytes@.subrange(0, 8) =~= bytes@.take(8));
        if !same_bytes(slice_subrange(bytes, 0, 8), "CYRREC01".as_bytes()) {
            return Err(TrustError::InvalidRecoveryBundle);
        }
        if bytes[8] != RECOVERY_VERSION {
            return Err(TrustError::InvalidRecoveryBundle);
        }
        let nonce: [u8; 24] = to_array(slice_subrange(bytes, 9, 33));
        let length: u128 = from_be(slice_subrange(bytes, 33, 41));
        if bytes.len() as u128 != 41 + length {
            return Err(TrustError::InvalidRecoveryBundle);
        }
        let ciphertext = copy_bytes(slice_subrange(bytes, 41, bytes.len()));
        assert(bytes@.subrange(41, bytes@.len() as int) =~= bytes@.skip(41));
        Ok(RecoveryBundle { nonce, ciphertext })
    }

    /// Authenticates the secret and validates the bounded inner snapshot.
    ///
    /// This permits a caller to reject a mistyped secret before allocating a
    /// new host credential-store slot.
    pub fn verify(&self, secret: &RecoverySecret) -> (result: Result<(), TrustError>)
        ensures
            trust_refused(result) == match recovered(self@, secret@) {
                Ok(_) => None,
                Err(error) => Some(error),
            },
    {
        match self.recover(secret) {
            Ok(_) => Ok(()),
            Err(error) => Err(error),
        }
    }

    /// Authenticates the secret and returns the old wrapping key and the
    /// database.
    pub fn recover(&self, secret: &RecoverySecret) -> (snapshot: Result<
        (WrappingKey, Vec<u8>),
        TrustError,
    >)
        ensures
            match snapshot {
                Ok((key, database)) => recovered(self@, secret@) == Ok::<
                    (Seq<u8>, Seq<u8>),
                    TrustFailure,
                >((key@, database@)),
                Err(error) => recovered(self@, secret@) == Err::<
                    (Seq<u8>, Seq<u8>),
                    TrustFailure,
                >(error@),
            },
    {
        if self.ciphertext.len() as u64 > MAX_MESSAGE_BYTES + 16 {
            return Err(TrustError::RecoveryAuthentication);
        }
        match crypto::decrypt(
            secret.secret_bytes(),
            &self.nonce,
            "cyrene/recovery-bundle/1".as_bytes(),
            self.ciphertext.as_slice(),
        ) {
            None => Err(TrustError::RecoveryAuthentication),
            Some(plaintext) => {
                let mut plaintext = plaintext;
                let decoded = decode_recovery_plaintext(plaintext.as_slice());
                crypto::wipe_all(&mut plaintext);
                decoded
            },
        }
    }

    /// Seals a vault's wrapping key and database for a recovery secret.
    ///
    /// The artifact includes the wrapping key only inside the recovery
    /// ciphertext.
    pub fn create(wrapping_key: &WrappingKey, database: &[u8], secret: &RecoverySecret) -> (bundle:
        Result<Self, TrustError>)
        ensures
            match bundle {
                Ok(bundle) => {
                    &&& database@.len() <= 268435456
                    &&& bundle@.nonce.len() == 24
                    &&& bundle@.ciphertext == aead_sealed(
                        secret@,
                        bundle@.nonce,
                        recovery_domain(),
                        recovery_plaintext(wrapping_key@, database@),
                    )
                    &&& recovered(bundle@, secret@) == Ok::<(Seq<u8>, Seq<u8>), TrustFailure>(
                        (wrapping_key@, database@),
                    )
                },
                Err(error) => if database@.len() > 268435456 {
                    error@ == TrustFailure::InvalidRecoveryBundle
                } else {
                    error@ == TrustFailure::Randomness
                },
            },
    {
        if database.len() > MAX_RECOVERY_DATABASE_BYTES {
            return Err(TrustError::InvalidRecoveryBundle);
        }
        match crypto::random::<24>() {
            None => Err(TrustError::Randomness),
            Some(nonce) => RecoveryBundle::create_with(wrapping_key, database, secret, nonce),
        }
    }

    /// Seals a vault's wrapping key and database under a nonce that has been
    /// drawn.
    pub fn create_with(
        wrapping_key: &WrappingKey,
        database: &[u8],
        secret: &RecoverySecret,
        nonce: [u8; 24],
    ) -> (bundle: Result<Self, TrustError>)
        ensures
            match bundle {
                Ok(bundle) => {
                    &&& database@.len() <= 268435456
                    &&& bundle@ == (BundleView {
                        nonce: nonce@,
                        ciphertext: aead_sealed(
                            secret@,
                            nonce@,
                            recovery_domain(),
                            recovery_plaintext(wrapping_key@, database@),
                        ),
                    })
                    &&& recovered(bundle@, secret@) == Ok::<(Seq<u8>, Seq<u8>), TrustFailure>(
                        (wrapping_key@, database@),
                    )
                },
                Err(error) => {
                    &&& database@.len() > 268435456
                    &&& error@ == TrustFailure::InvalidRecoveryBundle
                },
            },
    {
        if database.len() > MAX_RECOVERY_DATABASE_BYTES {
            return Err(TrustError::InvalidRecoveryBundle);
        }
        let mut plaintext: Vec<u8> = Vec::new();
        plaintext.push(RECOVERY_VERSION);
        extend(&mut plaintext, wrapping_key.secret_bytes().as_slice());
        extend(&mut plaintext, be_u64(database.len() as u64).as_slice());
        extend(&mut plaintext, database);
        proof {
            assert(plaintext@ =~= recovery_plaintext(wrapping_key@, database@));
            law_recovery_plaintext_round_trip(wrapping_key@, database@);
            lemma_be_u64(database@.len() as u64);
        }
        let sealed = crypto::encrypt(
            secret.secret_bytes(),
            &nonce,
            "cyrene/recovery-bundle/1".as_bytes(),
            plaintext.as_slice(),
        );
        crypto::wipe_all(&mut plaintext);
        match sealed {
            Some(ciphertext) => Ok(RecoveryBundle { nonce, ciphertext }),
            None => Err(TrustError::RecoveryAuthentication),
        }
    }
}

fn decode_recovery_plaintext(bytes: &[u8]) -> (decoded: Result<(WrappingKey, Vec<u8>), TrustError>)
    ensures
        match decoded {
            Ok((key, database)) => decoded_recovery(bytes@) == Some((key@, database@)),
            Err(error) => decoded_recovery(bytes@) is None && error@
                == TrustFailure::InvalidRecoveryBundle,
        },
{
    if bytes.len() < 41 || bytes[0] != RECOVERY_VERSION {
        return Err(TrustError::InvalidRecoveryBundle);
    }
    let key: [u8; 32] = to_array(slice_subrange(bytes, 1, 33));
    let length: u128 = from_be(slice_subrange(bytes, 33, 41));
    if length > MAX_RECOVERY_DATABASE_BYTES as u128 || bytes.len() as u128 != 41 + length {
        return Err(TrustError::InvalidRecoveryBundle);
    }
    let database = copy_bytes(slice_subrange(bytes, 41, bytes.len()));
    assert(bytes@.subrange(41, bytes@.len() as int) =~= bytes@.skip(41));
    Ok((WrappingKey::from_bytes(key), database))
}

/// A snapshot decodes to the wrapping key and database that it was made of.
pub proof fn law_recovery_plaintext_round_trip(wrapping_key: Seq<u8>, database: Seq<u8>)
    requires
        wrapping_key.len() == 32,
        database.len() <= 268435456,
    ensures
        decoded_recovery(recovery_plaintext(wrapping_key, database)) == Some(
            (wrapping_key, database),
        ),
{
    let plaintext = recovery_plaintext(wrapping_key, database);
    lemma_be_u64(database.len() as u64);
    assert(plaintext.subrange(33, 41) =~= be(database.len(), 8));
    assert(plaintext.subrange(1, 33) =~= wrapping_key);
    assert(plaintext.skip(41) =~= database);
}

/// An artifact within the size bound decodes from its portable encoding.
pub proof fn law_bundle_round_trip(bundle: BundleView)
    requires
        bundle.nonce.len() == 24,
        bundle.ciphertext.len() <= 268436439,
    ensures
        decoded_bundle(bundle_bytes(bundle)) == Some(bundle),
{
    let bytes = bundle_bytes(bundle);
    reveal_strlit("CYRREC01");
    vstd::utf8::is_ascii_chars_encode_utf8("CYRREC01"@);
    lemma_be_u64(bundle.ciphertext.len() as u64);
    assert(bytes.take(8) =~= recovery_magic());
    assert(bytes.subrange(9, 33) =~= bundle.nonce);
    assert(bytes.subrange(33, 41) =~= be(bundle.ciphertext.len(), 8));
    assert(bytes.skip(41) =~= bundle.ciphertext);
    assert(bytes[8] == 1u8);
}

/// Every artifact of a vault within the size bound decodes from its portable
/// encoding and recovers that vault.
pub proof fn law_recovery_gives_back_the_vault(
    bundle: BundleView,
    secret: Seq<u8>,
    wrapping_key: Seq<u8>,
    database: Seq<u8>,
)
    requires
        bundle.nonce.len() == 24,
        bundle.ciphertext.len() == database.len() + 57,
        database.len() <= 268435456,
        recovered(bundle, secret) == Ok::<(Seq<u8>, Seq<u8>), TrustFailure>(
            (wrapping_key, database),
        ),
    ensures
        decoded_bundle(bundle_bytes(bundle)) == Some(bundle),
        recovered(decoded_bundle(bundle_bytes(bundle))->0, secret) == Ok::<
            (Seq<u8>, Seq<u8>),
            TrustFailure,
        >((wrapping_key, database)),
{
    law_bundle_round_trip(bundle);
}

/// Every portable artifact that decodes is the encoding of what it decodes to,
/// with a nonce of 24 bytes and no more than the size bound.
pub proof fn law_bundle_encoding_is_canonical(bytes: Seq<u8>)
    ensures
        decoded_bundle(bytes) matches Some(bundle) ==> bundle_bytes(bundle) == bytes
            && bundle.nonce.len() == 24 && bytes.len() <= 268435456 + 1024,
{
    if let Some(bundle) = decoded_bundle(bytes) {
        reveal_strlit("CYRREC01");
        vstd::utf8::is_ascii_chars_encode_utf8("CYRREC01"@);
        let length = bytes.subrange(33, 41);
        crate::bytes::law_big_endian_is_exact(length);
        assert(bytes =~= bytes.take(8) + seq![bytes[8]] + bytes.subrange(9, 33) + length
            + bytes.skip(41));
        assert(seq![bytes[8]] =~= seq![1u8]);
    }
}

/// Every recovered content that decodes is the encoding of what it decodes to:
/// a wrapping key of 32 bytes and a database of at most 256 mebibytes.
pub proof fn law_recovery_encoding_is_canonical(plaintext: Seq<u8>)
    ensures
        decoded_recovery(plaintext) matches Some((key, database)) ==> recovery_plaintext(
            key,
            database,
        ) == plaintext && key.len() == 32 && database.len() <= 256 * 1024 * 1024,
{
    if let Some((key, database)) = decoded_recovery(plaintext) {
        let length = plaintext.subrange(33, 41);
        crate::bytes::law_big_endian_is_exact(length);
        assert(seq![plaintext[0]] =~= seq![1u8]);
        assert(plaintext =~= seq![plaintext[0]] + plaintext.subrange(1, 33) + length
            + plaintext.skip(41));
    }
}

/// A vault is recovered exactly where the secret opens the artifact and what it
/// opens to is a vault; a secret that does not open it is told apart from
/// content that is none.
pub proof fn law_recovery_is_exact(bundle: BundleView, secret: Seq<u8>, content: Seq<u8>)
    requires
        bundle.ciphertext.len() <= 274877906832,
    ensures
        aead_opened(secret, bundle.nonce, recovery_domain(), bundle.ciphertext) is None
            ==> recovered(bundle, secret) == Err::<(Seq<u8>, Seq<u8>), TrustFailure>(
            TrustFailure::RecoveryAuthentication,
        ),
        aead_opened(secret, bundle.nonce, recovery_domain(), bundle.ciphertext) == Some(content)
            ==> (match decoded_recovery(content) {
            Some(vault) => recovered(bundle, secret) == Ok::<(Seq<u8>, Seq<u8>), TrustFailure>(
                vault,
            ),
            None => recovered(bundle, secret) == Err::<(Seq<u8>, Seq<u8>), TrustFailure>(
                TrustFailure::InvalidRecoveryBundle,
            ),
        }),
{
}

} // verus!
