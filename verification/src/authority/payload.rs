//! End-to-end encrypted payloads of one space epoch.

use crate::bytes::{be, be_u128, be_u64, extend, frame, push_part};
use crate::crypto;
use crate::crypto::{aead_opened, aead_sealed, MAX_MESSAGE_BYTES};
use crate::id::SpaceId;
use crate::text::{copy_bytes, decimal, decimal_text, owned};
use vstd::prelude::*;
use vstd::string::*;
use vstd::utf8::encode_utf8;

verus! {

/// The version of encrypted payloads.
pub const ENCRYPTION_VERSION: u8 = 1;

/// An end-to-end space encryption failure.
#[derive(Clone, Copy, Debug, PartialEq, Eq, Structural)]
pub enum EncryptionError {
    /// The encrypted payload format is unknown.
    UnsupportedVersion(u8),
    /// Secure randomness was unavailable.
    Randomness,
    /// The supplied content key was invalid.
    InvalidKey,
    /// The payload belongs to another space.
    WrongSpace,
    /// The payload belongs to another key epoch.
    WrongEpoch,
    /// Authentication failed because key, context, or ciphertext did not match.
    Authentication,
}

impl EncryptionError {
    /// The human-readable reason.
    pub open spec fn text(self) -> Seq<char> {
        match self {
            EncryptionError::UnsupportedVersion(version) => "encrypted payload version "@ + decimal_text(version as nat) + " is unsupported"@,
            EncryptionError::Randomness => "secure random generation failed"@,
            EncryptionError::InvalidKey => "the space content key is invalid"@,
            EncryptionError::WrongSpace => "the encrypted payload belongs to another space"@,
            EncryptionError::WrongEpoch => "the encrypted payload belongs to another key epoch"@,
            EncryptionError::Authentication => "the encrypted space payload could not be authenticated"@,
        }
    }

    /// Returns the human-readable reason.
    pub fn message(self) -> (message: String)
        ensures
            message@ == self.text(),
    {
        match self {
            EncryptionError::UnsupportedVersion(version) => {
                let mut text = owned("encrypted payload version ");
                text.append(decimal(version as u64).as_str());
                text.append(" is unsupported");
                text
            },
            EncryptionError::Randomness => owned("secure random generation failed"),
            EncryptionError::InvalidKey => owned("the space content key is invalid"),
            EncryptionError::WrongSpace => owned("the encrypted payload belongs to another space"),
            EncryptionError::WrongEpoch => owned("the encrypted payload belongs to another key epoch"),
            EncryptionError::Authentication => owned("the encrypted space payload could not be authenticated"),
        }
    }
}

/// A zeroizing 256-bit content key for exactly one space epoch.
pub struct SpaceKey {
    bytes: [u8; 32],
}

impl View for SpaceKey {
    type V = Seq<u8>;

    /// The secret bytes.
    closed spec fn view(&self) -> Seq<u8> {
        self.bytes@
    }
}

impl Drop for SpaceKey {
    fn drop(&mut self)
        opens_invariants none
        no_unwind
    {
        crypto::wipe(&mut self.bytes);
    }
}

/// End-to-end encrypted application bytes for one space epoch.
#[derive(Debug, PartialEq, Eq)]
pub struct EncryptedPayload {
    /// Payload version.
    pub version: u8,
    /// Space to which the content belongs.
    pub space: SpaceId,
    /// Key epoch under which it is encrypted.
    pub epoch: u64,
    /// Random nonce.
    pub nonce: [u8; 24],
    /// Ciphertext and tag.
    pub ciphertext: Vec<u8>,
}

/// What an [`EncryptedPayload`] says.
#[verifier::ext_equal]
pub struct PayloadView {
    /// Payload version.
    pub version: u8,
    /// Space to which the content belongs.
    pub space: SpaceId,
    /// Key epoch under which it is encrypted.
    pub epoch: u64,
    /// Random nonce.
    pub nonce: Seq<u8>,
    /// Ciphertext and tag.
    pub ciphertext: Seq<u8>,
}

impl View for EncryptedPayload {
    type V = PayloadView;

    open spec fn view(&self) -> PayloadView {
        PayloadView {
            version: self.version,
            space: self.space,
            epoch: self.epoch,
            nonce: self.nonce@,
            ciphertext: self.ciphertext@,
        }
    }
}

impl Clone for EncryptedPayload {
    fn clone(&self) -> (copy: Self)
        ensures
            copy@ == self@,
    {
        EncryptedPayload {
            version: self.version,
            space: self.space,
            epoch: self.epoch,
            nonce: self.nonce,
            ciphertext: copy_bytes(self.ciphertext.as_slice()),
        }
    }
}

/// Authenticated ciphertext that reveals no application routing metadata.
#[derive(Debug, PartialEq, Eq)]
pub struct OpaquePayload {
    /// Payload version.
    pub version: u8,
    /// Random nonce.
    pub nonce: [u8; 24],
    /// Ciphertext and tag.
    pub ciphertext: Vec<u8>,
}

/// What an [`OpaquePayload`] says.
#[verifier::ext_equal]
pub struct OpaqueView {
    /// Payload version.
    pub version: u8,
    /// Random nonce.
    pub nonce: Seq<u8>,
    /// Ciphertext and tag.
    pub ciphertext: Seq<u8>,
}

impl View for OpaquePayload {
    type V = OpaqueView;

    open spec fn view(&self) -> OpaqueView {
        OpaqueView {
            version: self.version,
            nonce: self.nonce@,
            ciphertext: self.ciphertext@,
        }
    }
}

impl Clone for OpaquePayload {
    fn clone(&self) -> (copy: Self)
        ensures
            copy@ == self@,
    {
        OpaquePayload {
            version: self.version,
            nonce: self.nonce,
            ciphertext: copy_bytes(self.ciphertext.as_slice()),
        }
    }
}

/// What is authenticated with a payload: its space, its epoch and the caller's
/// context.
pub open spec fn payload_data(space: SpaceId, epoch: u64, context: Seq<u8>) -> Seq<u8> {
    encode_utf8("cyrene/space-payload/1"@) + be(space.0 as nat, 16) + be(epoch as nat, 8) + frame(
        context,
    )
}

/// What is authenticated with an opaque payload: the caller's context.
pub open spec fn opaque_data(context: Seq<u8>) -> Seq<u8> {
    encode_utf8("cyrene/opaque-payload/1"@) + frame(context)
}

fn payload_aad(space: SpaceId, epoch: u64, context: &[u8]) -> (data: Vec<u8>)
    ensures
        data@ == payload_data(space, epoch, context@),
{
    let mut data: Vec<u8> = Vec::new();
    extend(&mut data, "cyrene/space-payload/1".as_bytes());
    extend(&mut data, be_u128(space.0, 16).as_slice());
    extend(&mut data, be_u64(epoch).as_slice());
    push_part(&mut data, context);
    assert(data@ =~= payload_data(space, epoch, context@));
    data
}

fn opaque_aad(context: &[u8]) -> (data: Vec<u8>)
    ensures
        data@ == opaque_data(context@),
{
    let mut data: Vec<u8> = Vec::new();
    extend(&mut data, "cyrene/opaque-payload/1".as_bytes());
    push_part(&mut data, context);
    assert(data@ =~= opaque_data(context@));
    data
}

/// The message of a ciphertext that can be authenticated.
pub open spec fn authenticated(
    key: Seq<u8>,
    nonce: Seq<u8>,
    data: Seq<u8>,
    ciphertext: Seq<u8>,
) -> Result<Seq<u8>, EncryptionError> {
    if ciphertext.len() > 274877906832 {
        Err(EncryptionError::Authentication)
    } else {
        match aead_opened(key, nonce, data, ciphertext) {
            Some(message) => Ok(message),
            None => Err(EncryptionError::Authentication),
        }
    }
}

/// What a payload opens to in an expected scope.
pub open spec fn opening(
    key: Seq<u8>,
    space: SpaceId,
    epoch: u64,
    context: Seq<u8>,
    payload: PayloadView,
) -> Result<Seq<u8>, EncryptionError> {
    if payload.version != 1 {
        Err(EncryptionError::UnsupportedVersion(payload.version))
    } else if payload.space != space {
        Err(EncryptionError::WrongSpace)
    } else if payload.epoch != epoch {
        Err(EncryptionError::WrongEpoch)
    } else {
        authenticated(
            key,
            payload.nonce,
            payload_data(payload.space, payload.epoch, context),
            payload.ciphertext,
        )
    }
}

/// What an opaque payload opens to in a context.
pub open spec fn opening_opaque(key: Seq<u8>, context: Seq<u8>, payload: OpaqueView) -> Result<
    Seq<u8>,
    EncryptionError,
> {
    if payload.version != 1 {
        Err(EncryptionError::UnsupportedVersion(payload.version))
    } else {
        authenticated(key, payload.nonce, opaque_data(context), payload.ciphertext)
    }
}

/// The payload that a key makes of a message.
pub open spec fn sealed(
    key: Seq<u8>,
    space: SpaceId,
    epoch: u64,
    context: Seq<u8>,
    nonce: Seq<u8>,
    plaintext: Seq<u8>,
) -> PayloadView {
    PayloadView {
        version: 1,
        space,
        epoch,
        nonce,
        ciphertext: aead_sealed(key, nonce, payload_data(space, epoch, context), plaintext),
    }
}

/// What a result of bytes says.
pub open spec fn bytes_seen(result: Result<Vec<u8>, EncryptionError>) -> Result<
    Seq<u8>,
    EncryptionError,
> {
    match result {
        Ok(bytes) => Ok(bytes@),
        Err(error) => Err(error),
    }
}

impl SpaceKey {
    /// Generates a fresh content key using operating-system randomness.
    pub fn generate() -> (key: Result<Self, EncryptionError>)
        ensures
            key matches Err(error) ==> error == EncryptionError::Randomness,
    {
        SpaceKey::from_draw(crypto::random::<32>())
    }

    /// Makes the content key of 32 random bytes, or says that none could be
    /// drawn.
    pub fn from_draw(drawn: Option<[u8; 32]>) -> (key: Result<Self, EncryptionError>)
        ensures
            match drawn {
                Some(bytes) => key matches Ok(key) && key@ == bytes@,
                None => key matches Err(error) && error == EncryptionError::Randomness,
            },
    {
        match drawn {
            Some(bytes) => Ok(SpaceKey { bytes }),
            None => Err(EncryptionError::Randomness),
        }
    }

    /// Restores a key obtained through a protected invitation or vault.
    pub fn from_bytes(bytes: [u8; 32]) -> (key: Self)
        ensures
            key@ == bytes@,
    {
        SpaceKey { bytes }
    }

    /// Exposes bytes only for a protected persistence or distribution boundary.
    pub fn secret_bytes(&self) -> (bytes: &[u8; 32])
        ensures
            bytes@ == self@,
    {
        &self.bytes
    }

    /// Describes the key without revealing it.
    pub fn debug_text(&self) -> (text: String)
        ensures
            text@ == "SpaceKey(\"[REDACTED]\")"@,
    {
        "SpaceKey(\"[REDACTED]\")".to_owned()
    }

    /// Encrypts content for one space and epoch with caller-supplied context.
    ///
    /// Context should identify the logical record (for example a change ID)
    /// and is authenticated without being encrypted. What is sealed opens
    /// again in the same scope and context.
    pub fn seal(&self, space: SpaceId, epoch: u64, context: &[u8], plaintext: &[u8]) -> (payload:
        Result<EncryptedPayload, EncryptionError>)
        ensures
            match payload {
                Ok(payload) => {
                    &&& plaintext@.len() <= 274877906816
                    &&& payload@ == sealed(
                        self@,
                        space,
                        epoch,
                        context@,
                        payload@.nonce,
                        plaintext@,
                    )
                    &&& opening(self@, space, epoch, context@, payload@) == Ok::<
                        Seq<u8>,
                        EncryptionError,
                    >(plaintext@)
                },
                Err(error) => {
                    ||| error == EncryptionError::Randomness
                    ||| error == EncryptionError::Authentication && plaintext@.len() > 274877906816
                },
            },
    {
        match crypto::random::<24>() {
            Some(nonce) => self.seal_with(space, epoch, context, plaintext, nonce),
            None => Err(EncryptionError::Randomness),
        }
    }

    /// Encrypts content for one space and epoch under a nonce.
    pub fn seal_with(
        &self,
        space: SpaceId,
        epoch: u64,
        context: &[u8],
        plaintext: &[u8],
        nonce: [u8; 24],
    ) -> (payload: Result<EncryptedPayload, EncryptionError>)
        ensures
            match payload {
                Ok(payload) => {
                    &&& plaintext@.len() <= 274877906816
                    &&& payload@ == sealed(self@, space, epoch, context@, nonce@, plaintext@)
                    &&& payload@.ciphertext.len() == plaintext@.len() + 16
                    &&& opening(self@, space, epoch, context@, payload@) == Ok::<
                        Seq<u8>,
                        EncryptionError,
                    >(plaintext@)
                },
                Err(error) => {
                    &&& error == EncryptionError::Authentication
                    &&& plaintext@.len() > 274877906816
                },
            },
    {
        if plaintext.len() as u64 > MAX_MESSAGE_BYTES {
            return Err(EncryptionError::Authentication);
        }
        let data = payload_aad(space, epoch, context);
        match crypto::encrypt(&self.bytes, &nonce, data.as_slice(), plaintext) {
            Some(ciphertext) => Ok(
                EncryptedPayload { version: ENCRYPTION_VERSION, space, epoch, nonce, ciphertext },
            ),
            None => Err(EncryptionError::Authentication),
        }
    }

    /// Authenticates and decrypts a payload in its expected scope.
    pub fn open(
        &self,
        expected_space: SpaceId,
        expected_epoch: u64,
        context: &[u8],
        payload: &EncryptedPayload,
    ) -> (plaintext: Result<Vec<u8>, EncryptionError>)
        ensures
            bytes_seen(plaintext) == opening(
                self@,
                expected_space,
                expected_epoch,
                context@,
                payload@,
            ),
    {
        if payload.version != ENCRYPTION_VERSION {
            return Err(EncryptionError::UnsupportedVersion(payload.version));
        }
        if payload.space != expected_space {
            return Err(EncryptionError::WrongSpace);
        }
        if payload.epoch != expected_epoch {
            return Err(EncryptionError::WrongEpoch);
        }
        let data = payload_aad(payload.space, payload.epoch, context);
        self.authenticate(&payload.nonce, data.as_slice(), payload.ciphertext.as_slice())
    }

    fn authenticate(&self, nonce: &[u8; 24], data: &[u8], ciphertext: &[u8]) -> (plaintext: Result<
        Vec<u8>,
        EncryptionError,
    >)
        ensures
            bytes_seen(plaintext) == authenticated(self@, nonce@, data@, ciphertext@),
    {
        if ciphertext.len() as u64 > MAX_MESSAGE_BYTES + 16 {
            return Err(EncryptionError::Authentication);
        }
        match crypto::decrypt(&self.bytes, nonce, data, ciphertext) {
            Some(plaintext) => Ok(plaintext),
            None => Err(EncryptionError::Authentication),
        }
    }

    /// Encrypts bytes without exposing their space or epoch in the envelope.
    ///
    /// The caller-provided context must bind every routing-independent value
    /// needed to prevent cross-protocol or cross-record substitution. What is
    /// sealed opens again in the same context.
    pub fn seal_opaque(&self, context: &[u8], plaintext: &[u8]) -> (payload: Result<
        OpaquePayload,
        EncryptionError,
    >)
        ensures
            match payload {
                Ok(payload) => {
                    &&& plaintext@.len() <= 274877906816
                    &&& payload@.version == 1
                    &&& payload@.ciphertext == aead_sealed(
                        self@,
                        payload@.nonce,
                        opaque_data(context@),
                        plaintext@,
                    )
                    &&& opening_opaque(self@, context@, payload@) == Ok::<Seq<u8>, EncryptionError>(
                        plaintext@,
                    )
                },
                Err(error) => {
                    ||| error == EncryptionError::Randomness
                    ||| error == EncryptionError::Authentication && plaintext@.len() > 274877906816
                },
            },
    {
        match crypto::random::<24>() {
            Some(nonce) => self.seal_opaque_with(context, plaintext, nonce),
            None => Err(EncryptionError::Randomness),
        }
    }

    /// Encrypts bytes without their scope under a nonce.
    pub fn seal_opaque_with(&self, context: &[u8], plaintext: &[u8], nonce: [u8; 24]) -> (payload:
        Result<OpaquePayload, EncryptionError>)
        ensures
            match payload {
                Ok(payload) => {
                    &&& plaintext@.len() <= 274877906816
                    &&& payload@ == (OpaqueView {
                        version: 1,
                        nonce: nonce@,
                        ciphertext: aead_sealed(
                            self@,
                            nonce@,
                            opaque_data(context@),
                            plaintext@,
                        ),
                    })
                    &&& opening_opaque(self@, context@, payload@) == Ok::<Seq<u8>, EncryptionError>(
                        plaintext@,
                    )
                },
                Err(error) => {
                    &&& error == EncryptionError::Authentication
                    &&& plaintext@.len() > 274877906816
                },
            },
    {
        if plaintext.len() as u64 > MAX_MESSAGE_BYTES {
            return Err(EncryptionError::Authentication);
        }
        let data = opaque_aad(context);
        match crypto::encrypt(&self.bytes, &nonce, data.as_slice(), plaintext) {
            Some(ciphertext) => Ok(OpaquePayload { version: ENCRYPTION_VERSION, nonce, ciphertext }),
            None => Err(EncryptionError::Authentication),
        }
    }

    /// Authenticates and opens a metadata-minimized opaque envelope.
    pub fn open_opaque(&self, context: &[u8], payload: &OpaquePayload) -> (plaintext: Result<
        Vec<u8>,
        EncryptionError,
    >)
        ensures
            bytes_seen(plaintext) == opening_opaque(self@, context@, payload@),
    {
        if payload.version != ENCRYPTION_VERSION {
            return Err(EncryptionError::UnsupportedVersion(payload.version));
        }
        let data = opaque_aad(context);
        self.authenticate(&payload.nonce, data.as_slice(), payload.ciphertext.as_slice())
    }
}

impl EncryptedPayload {
    /// Returns the epoch needed to open this opaque payload.
    pub fn epoch(&self) -> (epoch: u64)
        ensures
            epoch == self@.epoch,
    {
        self.epoch
    }

    /// Appends what a signature covers of this payload.
    pub(crate) fn signing_bytes(&self, target: &mut Vec<u8>)
        ensures
            final(target)@ == old(target)@ + payload_bytes(self@),
    {
        let ghost before = target@;
        target.push(self.version);
        extend(target, be_u128(self.space.0, 16).as_slice());
        extend(target, be_u64(self.epoch).as_slice());
        extend(target, self.nonce.as_slice());
        push_part(target, self.ciphertext.as_slice());
        assert(target@ =~= before + payload_bytes(self@));
    }
}

/// What a signature covers of a payload.
pub open spec fn payload_bytes(payload: PayloadView) -> Seq<u8> {
    seq![payload.version] + be(payload.space.0 as nat, 16) + be(payload.epoch as nat, 8)
        + payload.nonce + frame(payload.ciphertext)
}

/// A payload opens in its own scope alone: another space, another epoch or
/// another version is refused, whatever the key and the context.
pub proof fn law_payload_is_scoped(
    key: Seq<u8>,
    space: SpaceId,
    epoch: u64,
    context: Seq<u8>,
    payload: PayloadView,
)
    ensures
        payload.version != 1 ==> opening(key, space, epoch, context, payload) == Err::<
            Seq<u8>,
            EncryptionError,
        >(EncryptionError::UnsupportedVersion(payload.version)),
        payload.version == 1 && payload.space != space ==> opening(
            key,
            space,
            epoch,
            context,
            payload,
        ) == Err::<Seq<u8>, EncryptionError>(EncryptionError::WrongSpace),
        payload.version == 1 && payload.space == space && payload.epoch != epoch ==> opening(
            key,
            space,
            epoch,
            context,
            payload,
        ) == Err::<Seq<u8>, EncryptionError>(EncryptionError::WrongEpoch),
{
}

/// What is authenticated with a payload tells spaces, epochs and contexts
/// apart.
pub proof fn law_payload_data_is_injective(
    first_space: SpaceId,
    first_epoch: u64,
    first_context: Seq<u8>,
    second_space: SpaceId,
    second_epoch: u64,
    second_context: Seq<u8>,
)
    requires
        payload_data(first_space, first_epoch, first_context) == payload_data(
            second_space,
            second_epoch,
            second_context,
        ),
    ensures
        first_space == second_space,
        first_epoch == second_epoch,
        first_context == second_context,
{
    let first = payload_data(first_space, first_epoch, first_context);
    let domain = encode_utf8("cyrene/space-payload/1"@);
    let n = domain.len() as int;
    crate::bytes::lemma_be_u128(first_space.0);
    crate::bytes::lemma_be_u128(second_space.0);
    crate::bytes::lemma_be_u64(first_epoch);
    crate::bytes::lemma_be_u64(second_epoch);
    crate::bytes::lemma_be_len(first_context.len(), 8);
    crate::bytes::lemma_be_len(second_context.len(), 8);
    assert(first.subrange(n, n + 16) =~= be(first_space.0 as nat, 16));
    assert(first.subrange(n, n + 16) =~= be(second_space.0 as nat, 16));
    assert(first.subrange(n + 16, n + 24) =~= be(first_epoch as nat, 8));
    assert(first.subrange(n + 16, n + 24) =~= be(second_epoch as nat, 8));
    assert(first.skip(n + 32) =~= first_context);
    assert(first.skip(n + 32) =~= second_context);
}

/// What is authenticated with an opaque payload tells contexts apart.
pub proof fn law_opaque_data_is_injective(first: Seq<u8>, second: Seq<u8>)
    requires
        opaque_data(first) == opaque_data(second),
    ensures
        first == second,
{
    let data = opaque_data(first);
    let n = encode_utf8("cyrene/opaque-payload/1"@).len() as int;
    crate::bytes::lemma_be_len(first.len(), 8);
    crate::bytes::lemma_be_len(second.len(), 8);
    assert(data.skip(n + 8) =~= first);
    assert(data.skip(n + 8) =~= second);
}

/// A payload opens exactly where it has the current version, belongs to the
/// space and the epoch, and its ciphertext is authentic under the key for that
/// space, epoch and context; it opens to what was encrypted.
pub proof fn law_payload_is_opened_exactly(
    key: Seq<u8>,
    space: SpaceId,
    epoch: u64,
    context: Seq<u8>,
    payload: PayloadView,
    plaintext: Seq<u8>,
)
    ensures
        opening(key, space, epoch, context, payload) == Ok::<Seq<u8>, EncryptionError>(plaintext)
            <==> {
            &&& payload.version == 1
            &&& payload.space == space
            &&& payload.epoch == epoch
            &&& payload.ciphertext.len() <= 274877906832
            &&& aead_opened(
                key,
                payload.nonce,
                payload_data(space, epoch, context),
                payload.ciphertext,
            ) == Some(plaintext)
        },
{
}

/// An opaque payload opens exactly where it has the current version and its
/// ciphertext is authentic under the key for the context.
pub proof fn law_opaque_payload_is_opened_exactly(
    key: Seq<u8>,
    context: Seq<u8>,
    payload: OpaqueView,
    plaintext: Seq<u8>,
)
    ensures
        opening_opaque(key, context, payload) == Ok::<Seq<u8>, EncryptionError>(plaintext) <==> {
            &&& payload.version == 1
            &&& payload.ciphertext.len() <= 274877906832
            &&& aead_opened(
                key,
                payload.nonce,
                opaque_data(context),
                payload.ciphertext,
            ) == Some(plaintext)
        },
        payload.version != 1 ==> opening_opaque(key, context, payload) == Err::<
            Seq<u8>,
            EncryptionError,
        >(EncryptionError::UnsupportedVersion(payload.version)),
{
}

/// What is sealed for a space, an epoch and a context opens there, wherever the
/// cipher opens what it encrypts.
pub proof fn law_sealed_payload_opens(
    key: Seq<u8>,
    space: SpaceId,
    epoch: u64,
    context: Seq<u8>,
    nonce: Seq<u8>,
    plaintext: Seq<u8>,
)
    requires
        ({
            let data = payload_data(space, epoch, context);
            let ciphertext = aead_sealed(key, nonce, data, plaintext);
            &&& ciphertext.len() <= 274877906832
            &&& aead_opened(key, nonce, data, ciphertext) == Some(plaintext)
        }),
    ensures
        ({
            let payload = sealed(key, space, epoch, context, nonce, plaintext);
            &&& payload.version == 1
            &&& payload.space == space
            &&& payload.epoch == epoch
            &&& payload.nonce == nonce
            &&& opening(key, space, epoch, context, payload) == Ok::<Seq<u8>, EncryptionError>(
                plaintext,
            )
        }),
{
}

} // verus!
