//! Narrow, signed share invitations with a separate bearer secret.

use crate::authority::capability::{
    issued, AuthorityError, AuthorityView, Capability, Permission, SpaceAuthority,
};
use crate::authority::payload::{
    opening, payload_bytes, sealed, EncryptedPayload, EncryptionError, PayloadView, SpaceKey,
};
use crate::bytes::{be, be_u128, be_u64, extend, to_array};
use crate::crypto;
use crate::crypto::degenerate;
use crate::id::SpaceId;
use crate::identity::device::{scoped_signature, scoped_valid, DeviceIdentity, DevicePublicKey};
use crate::text::{copy_bytes, decimal, decimal_text, owned};
use vstd::prelude::*;
use vstd::string::*;
use vstd::utf8::encode_utf8;

verus! {

/// The domain of invitation signatures.
pub open spec fn invitation_domain() -> Seq<u8> {
    encode_utf8("cyrene/share-invitation/1"@)
}

/// The version of invitations.
pub const INVITATION_VERSION: u8 = 1;

/// The context in which an invitation's key is sealed.
pub open spec fn invitation_context_of(id: Seq<u8>) -> Seq<u8> {
    encode_utf8("cyrene/share-invitation/key/1"@) + id
}

/// High-entropy bearer secret accompanying a share invitation.
///
/// Possession reveals the invited epoch's content key, so this value is
/// intentionally neither serializable nor printable. Transport it through an
/// explicitly secret channel or an application-specific protected encoding.
pub struct InvitationSecret {
    key: SpaceKey,
}

impl View for InvitationSecret {
    type V = Seq<u8>;

    /// The secret bytes.
    closed spec fn view(&self) -> Seq<u8> {
        self.key@
    }
}

impl InvitationSecret {
    /// Generates a fresh invitation secret.
    pub fn generate() -> (secret: Result<Self, EncryptionError>)
        ensures
            secret matches Err(error) ==> error == EncryptionError::Randomness,
    {
        InvitationSecret::from_key(SpaceKey::generate())
    }

    /// Makes the invitation secret of a content key, or says why there is none.
    pub fn from_key(generated: Result<SpaceKey, EncryptionError>) -> (secret: Result<
        Self,
        EncryptionError,
    >)
        ensures
            match generated {
                Ok(key) => secret matches Ok(secret) && secret@ == key@,
                Err(reason) => secret matches Err(error) && error == reason,
            },
    {
        match generated {
            Ok(key) => Ok(InvitationSecret { key }),
            Err(error) => Err(error),
        }
    }

    /// Restores a secret from a protected invitation-token encoding.
    pub fn from_bytes(bytes: [u8; 32]) -> (secret: Self)
        ensures
            secret@ == bytes@,
    {
        InvitationSecret { key: SpaceKey::from_bytes(bytes) }
    }

    /// Exposes bytes only at a protected invitation-token boundary.
    pub fn secret_bytes(&self) -> (bytes: &[u8; 32])
        ensures
            bytes@ == self@,
    {
        self.key.secret_bytes()
    }

    /// Describes the secret without revealing it.
    pub fn debug_text(&self) -> (text: String)
        ensures
            text@ == "InvitationSecret(\"[REDACTED]\")"@,
    {
        "InvitationSecret(\"[REDACTED]\")".to_owned()
    }
}

/// Public, signed portion of a narrow share invitation.
#[derive(Debug, PartialEq, Eq)]
pub struct ShareInvitation {
    /// Invitation version.
    pub version: u8,
    /// Random invitation identity.
    pub id: [u8; 16],
    /// Invited space.
    pub space: SpaceId,
    /// Invited authority epoch.
    pub epoch: u64,
    /// Device that signed the invitation.
    pub issuer: DevicePublicKey,
    /// Invited permission.
    pub permission: Permission,
    /// First second of validity.
    pub issued_at: u64,
    /// First second after validity.
    pub expires_at: u64,
    /// Content key of the epoch, sealed for the bearer.
    pub encrypted_key: EncryptedPayload,
    /// Signature of the issuer.
    pub signature: Vec<u8>,
}

/// What a [`ShareInvitation`] says.
#[verifier::ext_equal]
pub struct InvitationView {
    /// Invitation version.
    pub version: u8,
    /// Random invitation identity.
    pub id: Seq<u8>,
    /// Invited space.
    pub space: SpaceId,
    /// Invited authority epoch.
    pub epoch: u64,
    /// Device that signed the invitation.
    pub issuer: Seq<u8>,
    /// Invited permission.
    pub permission: Permission,
    /// First second of validity.
    pub issued_at: u64,
    /// First second after validity.
    pub expires_at: u64,
    /// Content key of the epoch, sealed for the bearer.
    pub encrypted_key: PayloadView,
    /// Signature of the issuer.
    pub signature: Seq<u8>,
}

impl View for ShareInvitation {
    type V = InvitationView;

    open spec fn view(&self) -> InvitationView {
        InvitationView {
            version: self.version,
            id: self.id@,
            space: self.space,
            epoch: self.epoch,
            issuer: self.issuer@,
            permission: self.permission,
            issued_at: self.issued_at,
            expires_at: self.expires_at,
            encrypted_key: self.encrypted_key@,
            signature: self.signature@,
        }
    }
}

impl Clone for ShareInvitation {
    fn clone(&self) -> (copy: Self)
        ensures
            copy@ == self@,
    {
        ShareInvitation {
            version: self.version,
            id: self.id,
            space: self.space,
            epoch: self.epoch,
            issuer: self.issuer,
            permission: self.permission,
            issued_at: self.issued_at,
            expires_at: self.expires_at,
            encrypted_key: self.encrypted_key.clone(),
            signature: copy_bytes(self.signature.as_slice()),
        }
    }
}

/// A share invitation issuance, verification, or opening failure.
#[derive(Clone, Copy, Debug, PartialEq, Eq, Structural)]
pub enum InvitationError {
    /// The invitation format is unknown.
    UnsupportedVersion(u8),
    /// The validity interval is empty or reversed.
    InvalidValidity,
    /// Secure randomness was unavailable.
    Randomness,
    /// The invitation names another space, epoch, or issuer.
    WrongAuthority,
    /// The invitation's validity interval has not begun.
    NotYetValid,
    /// The invitation has expired.
    Expired,
    /// The issuer signature is invalid.
    InvalidSignature,
    /// The decrypted content key was malformed.
    MalformedKey,
    /// End-to-end decryption or random generation failed.
    Encryption(EncryptionError),
    /// Device-bound capability issuance failed.
    Capability(AuthorityError),
}

impl InvitationError {
    /// The human-readable reason.
    pub open spec fn text(self) -> Seq<char> {
        match self {
            InvitationError::UnsupportedVersion(version) => "share invitation version "@ + decimal_text(version as nat) + " is unsupported"@,
            InvitationError::InvalidValidity => "invitation expiry must be later than issuance"@,
            InvitationError::Randomness => "secure random generation failed"@,
            InvitationError::WrongAuthority => "the invitation belongs to another space authority"@,
            InvitationError::NotYetValid => "the invitation is not valid yet"@,
            InvitationError::Expired => "the invitation has expired"@,
            InvitationError::InvalidSignature => "the invitation signature is invalid"@,
            InvitationError::MalformedKey => "the invitation contained a malformed space key"@,
            InvitationError::Encryption(error) => error.text(),
            InvitationError::Capability(error) => error.text(),
        }
    }

    /// Returns the human-readable reason.
    pub fn message(self) -> (message: String)
        ensures
            message@ == self.text(),
    {
        match self {
            InvitationError::UnsupportedVersion(version) => {
                let mut text = owned("share invitation version ");
                text.append(decimal(version as u64).as_str());
                text.append(" is unsupported");
                text
            },
            InvitationError::InvalidValidity => owned("invitation expiry must be later than issuance"),
            InvitationError::Randomness => owned("secure random generation failed"),
            InvitationError::WrongAuthority => owned("the invitation belongs to another space authority"),
            InvitationError::NotYetValid => owned("the invitation is not valid yet"),
            InvitationError::Expired => owned("the invitation has expired"),
            InvitationError::InvalidSignature => owned("the invitation signature is invalid"),
            InvitationError::MalformedKey => owned("the invitation contained a malformed space key"),
            InvitationError::Encryption(error) => error.message(),
            InvitationError::Capability(error) => error.message(),
        }
    }
}

/// What an invitation's signature covers.
pub open spec fn invitation_bytes(invitation: InvitationView) -> Seq<u8> {
    seq![invitation.version] + invitation.id + be(invitation.space.0 as nat, 16) + be(
        invitation.epoch as nat,
        8,
    ) + invitation.issuer + seq![invitation.permission.byte()] + be(
        invitation.issued_at as nat,
        8,
    ) + be(invitation.expires_at as nat, 8) + payload_bytes(invitation.encrypted_key)
}

impl InvitationView {
    /// Whether the invitation carries its issuer's signature.
    pub open spec fn signed(self) -> bool {
        scoped_valid(self.issuer, invitation_domain(), invitation_bytes(self), self.signature)
    }

    /// Why the invitation is refused.
    pub open spec fn verify_refusal(self, authority: AuthorityView, now: u64) -> Option<
        InvitationError,
    > {
        if self.version != 1 {
            Some(InvitationError::UnsupportedVersion(self.version))
        } else if self.space != authority.space || self.epoch != authority.epoch || self.issuer
            != authority.issuer {
            Some(InvitationError::WrongAuthority)
        } else if now < self.issued_at {
            Some(InvitationError::NotYetValid)
        } else if now >= self.expires_at {
            Some(InvitationError::Expired)
        } else if !self.signed() {
            Some(InvitationError::InvalidSignature)
        } else {
            None
        }
    }

    /// The content key that the invitation opens to for a bearer.
    pub open spec fn opened(self, authority: AuthorityView, secret: Seq<u8>, now: u64) -> Result<
        Seq<u8>,
        InvitationError,
    > {
        if let Some(error) = self.verify_refusal(authority, now) {
            Err(error)
        } else {
            match opening(
                secret,
                self.space,
                self.epoch,
                invitation_context_of(self.id),
                self.encrypted_key,
            ) {
                Err(error) => Err(InvitationError::Encryption(error)),
                Ok(key) => if key.len() != 32 {
                    Err(InvitationError::MalformedKey)
                } else {
                    Ok(key)
                },
            }
        }
    }

    /// The authority under which the invitation was issued.
    pub open spec fn authority(self) -> AuthorityView {
        AuthorityView { space: self.space, issuer: self.issuer, epoch: self.epoch }
    }
}

/// The invitation that an issuer signs.
pub open spec fn invited(
    secret: Seq<u8>,
    public: Seq<u8>,
    id: Seq<u8>,
    space: SpaceId,
    epoch: u64,
    permission: Permission,
    issued_at: u64,
    expires_at: u64,
    encrypted_key: PayloadView,
) -> InvitationView {
    let unsigned = InvitationView {
        version: 1,
        id,
        space,
        epoch,
        issuer: public,
        permission,
        issued_at,
        expires_at,
        encrypted_key,
        signature: Seq::empty(),
    };
    InvitationView {
        signature: scoped_signature(secret, invitation_domain(), invitation_bytes(unsigned)),
        ..unsigned
    }
}

/// What a result without a value says.
pub open spec fn invitation_refused<T>(result: Result<T, InvitationError>) -> Option<
    InvitationError,
> {
    match result {
        Ok(_) => None,
        Err(error) => Some(error),
    }
}

fn invitation_context(id: &[u8; 16]) -> (context: Vec<u8>)
    ensures
        context@ == invitation_context_of(id@),
{
    let mut context: Vec<u8> = Vec::new();
    extend(&mut context, "cyrene/share-invitation/key/1".as_bytes());
    extend(&mut context, id.as_slice());
    assert(context@ =~= invitation_context_of(id@));
    context
}

impl ShareInvitation {
    /// Creates a signed invitation and a separate high-entropy bearer secret.
    ///
    /// The bearer opens the invitation to the content key within its time,
    /// unless its signature is the degenerate one that strict verification
    /// refuses.
    pub fn issue(
        issuer: &DeviceIdentity,
        space: SpaceId,
        epoch: u64,
        key: &SpaceKey,
        permission: Permission,
        issued_at: u64,
        expires_at: u64,
    ) -> (invited: Result<(Self, InvitationSecret), InvitationError>)
        ensures
            match invited {
                Ok((invitation, secret)) => {
                    &&& issued_at < expires_at
                    &&& invitation@.id.len() == 16
                    &&& invitation@ == self::invited(
                        issuer@,
                        issuer.public(),
                        invitation@.id,
                        space,
                        epoch,
                        permission,
                        issued_at,
                        expires_at,
                        sealed(
                            secret@,
                            space,
                            epoch,
                            invitation_context_of(invitation@.id),
                            invitation@.encrypted_key.nonce,
                            key@,
                        ),
                    )
                    &&& !degenerate(invitation@.signature) ==> forall|now: u64|
                        issued_at <= now < expires_at ==> #[trigger] invitation@.opened(
                            invitation@.authority(),
                            secret@,
                            now,
                        ) == Ok::<Seq<u8>, InvitationError>(key@)
                },
                Err(error) => if expires_at <= issued_at {
                    error == InvitationError::InvalidValidity
                } else {
                    ||| error == InvitationError::Randomness
                    ||| error == InvitationError::Encryption(EncryptionError::Randomness)
                },
            },
    {
        if expires_at <= issued_at {
            return Err(InvitationError::InvalidValidity);
        }
        let id = match crypto::random::<16>() {
            Some(id) => id,
            None => return Err(InvitationError::Randomness),
        };
        let secret = match InvitationSecret::generate() {
            Ok(secret) => secret,
            Err(error) => return Err(InvitationError::Encryption(error)),
        };
        let nonce = match crypto::random::<24>() {
            Some(nonce) => nonce,
            None => return Err(InvitationError::Encryption(EncryptionError::Randomness)),
        };
        let invitation = ShareInvitation::sign(
            issuer,
            space,
            epoch,
            key,
            permission,
            issued_at,
            expires_at,
            id,
            &secret,
            nonce,
        );
        Ok((invitation, secret))
    }

    /// Signs the invitation for an identity, a bearer secret and a nonce that
    /// have been drawn.
    pub fn sign(
        issuer: &DeviceIdentity,
        space: SpaceId,
        epoch: u64,
        key: &SpaceKey,
        permission: Permission,
        issued_at: u64,
        expires_at: u64,
        id: [u8; 16],
        secret: &InvitationSecret,
        nonce: [u8; 24],
    ) -> (invitation: Self)
        ensures
            invitation@ == invited(
                issuer@,
                issuer.public(),
                id@,
                space,
                epoch,
                permission,
                issued_at,
                expires_at,
                sealed(secret@, space, epoch, invitation_context_of(id@), nonce@, key@),
            ),
            !degenerate(invitation@.signature) ==> forall|now: u64|
                issued_at <= now < expires_at ==> #[trigger] invitation@.opened(
                    invitation@.authority(),
                    secret@,
                    now,
                ) == Ok::<Seq<u8>, InvitationError>(key@),
    {
        let context = invitation_context(&id);
        let plaintext = key.secret_bytes();
        let encrypted_key = match secret.key.seal_with(
            space,
            epoch,
            context.as_slice(),
            plaintext.as_slice(),
            nonce,
        ) {
            Ok(payload) => payload,
            Err(_) => vstd::pervasive::unreached(),
        };
        let mut invitation = ShareInvitation {
            version: INVITATION_VERSION,
            id,
            space,
            epoch,
            issuer: issuer.public_key(),
            permission,
            issued_at,
            expires_at,
            encrypted_key,
            signature: Vec::new(),
        };
        let ghost unsigned = invitation@;
        let bytes = invitation.signing_bytes();
        let signature = issuer.sign("cyrene/share-invitation/1".as_bytes(), bytes.as_slice());
        invitation.signature = copy_bytes(signature.as_slice());
        proof {
            assert(invitation_bytes(invitation@) == invitation_bytes(unsigned));
            assert(invitation@ =~= invited(
                issuer@,
                issuer.public(),
                id@,
                space,
                epoch,
                permission,
                issued_at,
                expires_at,
                sealed(secret@, space, epoch, invitation_context_of(id@), nonce@, key@),
            ));
        }
        invitation
    }

    /// Verifies the invitation and opens its epoch key for the bearer.
    pub fn open(&self, authority: SpaceAuthority, secret: &InvitationSecret, now: u64) -> (key: Result<
        SpaceKey,
        InvitationError,
    >)
        ensures
            match key {
                Ok(key) => self@.opened(authority@, secret@, now) == Ok::<Seq<u8>, InvitationError>(
                    key@,
                ),
                Err(error) => self@.opened(authority@, secret@, now) == Err::<
                    Seq<u8>,
                    InvitationError,
                >(error),
            },
    {
        self.verify(&authority, now)?;
        let context = invitation_context(&self.id);
        match secret.key.open(self.space, self.epoch, context.as_slice(), &self.encrypted_key) {
            Err(error) => Err(InvitationError::Encryption(error)),
            Ok(key) => {
                if key.len() != 32 {
                    return Err(InvitationError::MalformedKey);
                }
                Ok(SpaceKey::from_bytes(to_array(key.as_slice())))
            },
        }
    }

    /// Issues the device-bound capability after the owner accepts a claimant.
    ///
    /// Invitation redemption must be committed exactly once by durable host
    /// state before this grant is released. The capability begins now and does
    /// not expire.
    pub fn grant(&self, issuer: &DeviceIdentity, subject: DevicePublicKey, now: u64) -> (granted:
        Result<Capability, InvitationError>)
        ensures
            ({
                let authority = AuthorityView {
                    space: self@.space,
                    issuer: issuer.public(),
                    epoch: self@.epoch,
                };
                match granted {
                    Ok(capability) => {
                        &&& self@.verify_refusal(authority, now) is None
                        &&& capability@ == issued(
                            issuer@,
                            issuer.public(),
                            self@.space,
                            self@.epoch,
                            subject@,
                            self@.permission,
                            now,
                            u64::MAX,
                            capability@.nonce,
                        )
                        &&& !degenerate(capability@.signature) ==> capability@.signed()
                    },
                    Err(error) => if self@.verify_refusal(authority, now) is Some {
                        self@.verify_refusal(authority, now) == Some(error)
                    } else {
                        error == InvitationError::Capability(AuthorityError::Randomness)
                    },
                }
            }),
    {
        let authority = SpaceAuthority {
            space: self.space,
            issuer: issuer.public_key(),
            epoch: self.epoch,
        };
        self.verify(&authority, now)?;
        match Capability::issue(
            issuer,
            self.space,
            self.epoch,
            subject,
            self.permission,
            now,
            u64::MAX,
        ) {
            Ok(capability) => Ok(capability),
            Err(error) => Err(InvitationError::Capability(error)),
        }
    }

    /// Returns the random invitation identity used for single-use redemption.
    pub fn id(&self) -> (id: [u8; 16])
        ensures
            id@ == self@.id,
    {
        self.id
    }

    /// Returns the invitation expiry as Unix seconds.
    pub fn expires_at(&self) -> (expires_at: u64)
        ensures
            expires_at == self@.expires_at,
    {
        self.expires_at
    }

    /// Returns the invited permission.
    pub fn permission(&self) -> (permission: Permission)
        ensures
            permission == self@.permission,
    {
        self.permission
    }

    /// Returns the invited space.
    pub fn space(&self) -> (space: SpaceId)
        ensures
            space == self@.space,
    {
        self.space
    }

    /// Returns the invited authority epoch.
    pub fn epoch(&self) -> (epoch: u64)
        ensures
            epoch == self@.epoch,
    {
        self.epoch
    }

    /// Returns the device that signed this invitation.
    pub fn issuer(&self) -> (issuer: DevicePublicKey)
        ensures
            issuer@ == self@.issuer,
    {
        self.issuer
    }

    fn verify(&self, authority: &SpaceAuthority, now: u64) -> (result: Result<(), InvitationError>)
        ensures
            invitation_refused(result) == self@.verify_refusal(authority@, now),
    {
        if self.version != INVITATION_VERSION {
            return Err(InvitationError::UnsupportedVersion(self.version));
        }
        if self.space != authority.space || self.epoch != authority.epoch || !self.issuer.same(
            &authority.issuer,
        ) {
            return Err(InvitationError::WrongAuthority);
        }
        if now < self.issued_at {
            return Err(InvitationError::NotYetValid);
        }
        if now >= self.expires_at {
            return Err(InvitationError::Expired);
        }
        let bytes = self.signing_bytes();
        if !self.issuer.verify(
            "cyrene/share-invitation/1".as_bytes(),
            bytes.as_slice(),
            self.signature.as_slice(),
        ) {
            return Err(InvitationError::InvalidSignature);
        }
        Ok(())
    }

    fn signing_bytes(&self) -> (bytes: Vec<u8>)
        ensures
            bytes@ == invitation_bytes(self@),
    {
        let mut bytes: Vec<u8> = Vec::new();
        bytes.push(self.version);
        extend(&mut bytes, self.id.as_slice());
        extend(&mut bytes, be_u128(self.space.0, 16).as_slice());
        extend(&mut bytes, be_u64(self.epoch).as_slice());
        extend(&mut bytes, self.issuer.0.as_slice());
        bytes.push(self.permission.tag());
        extend(&mut bytes, be_u64(self.issued_at).as_slice());
        extend(&mut bytes, be_u64(self.expires_at).as_slice());
        self.encrypted_key.signing_bytes(&mut bytes);
        assert(bytes@ =~= invitation_bytes(self@));
        bytes
    }
}

/// Invitations expire: none is accepted outside its time, under another
/// authority or without its issuer's signature.
pub proof fn law_invitation_fails_closed(
    invitation: InvitationView,
    authority: AuthorityView,
    now: u64,
)
    requires
        invitation.verify_refusal(authority, now) is None,
    ensures
        invitation.issued_at <= now < invitation.expires_at,
        invitation.authority() == authority,
        invitation.signed(),
{
}

/// An invitation is valid exactly where it has the current version, names the
/// space, the epoch and the issuer of the authority, the time is within its
/// interval, and the issuer signed it.
pub proof fn law_invitation_is_verified_exactly(
    invitation: InvitationView,
    authority: AuthorityView,
    now: u64,
)
    ensures
        ({
            let refusal = invitation.verify_refusal(authority, now);
            let scoped = invitation.version == 1 && invitation.space == authority.space
                && invitation.epoch == authority.epoch && invitation.issuer == authority.issuer;
            &&& refusal is None <==> scoped && invitation.issued_at <= now && now
                < invitation.expires_at && invitation.signed()
            &&& refusal == Some(InvitationError::UnsupportedVersion(invitation.version))
                <==> invitation.version != 1
            &&& refusal == Some(InvitationError::WrongAuthority) <==> invitation.version == 1
                && !scoped
            &&& refusal == Some(InvitationError::NotYetValid) <==> scoped && now
                < invitation.issued_at
            &&& refusal == Some(InvitationError::Expired) <==> scoped && invitation.issued_at
                <= now && invitation.expires_at <= now
            &&& refusal == Some(InvitationError::InvalidSignature) <==> scoped
                && invitation.issued_at <= now && now < invitation.expires_at
                && !invitation.signed()
        }),
{
}

/// An invitation gives the content key exactly where it is valid and its
/// secret opens the key that it carries, which has 32 bytes.
pub proof fn law_invitation_gives_its_key(
    invitation: InvitationView,
    authority: AuthorityView,
    secret: Seq<u8>,
    now: u64,
    key: Seq<u8>,
)
    ensures
        invitation.opened(authority, secret, now) == Ok::<Seq<u8>, InvitationError>(key) <==> {
            &&& invitation.verify_refusal(authority, now) is None
            &&& opening(
                secret,
                invitation.space,
                invitation.epoch,
                invitation_context_of(invitation.id),
                invitation.encrypted_key,
            ) == Ok::<Seq<u8>, EncryptionError>(key)
            &&& key.len() == 32
        },
{
}

/// An issued invitation says what was offered.
pub proof fn law_issued_invitation_says_what_was_offered(
    secret: Seq<u8>,
    public: Seq<u8>,
    id: Seq<u8>,
    space: SpaceId,
    epoch: u64,
    permission: Permission,
    issued_at: u64,
    expires_at: u64,
    encrypted_key: PayloadView,
)
    ensures
        ({
            let invitation = invited(
                secret,
                public,
                id,
                space,
                epoch,
                permission,
                issued_at,
                expires_at,
                encrypted_key,
            );
            &&& invitation.version == 1
            &&& invitation.id == id
            &&& invitation.space == space
            &&& invitation.epoch == epoch
            &&& invitation.issuer == public
            &&& invitation.permission == permission
            &&& invitation.issued_at == issued_at
            &&& invitation.expires_at == expires_at
            &&& invitation.encrypted_key == encrypted_key
        }),
{
}

/// An invitation's signed bytes tell every field apart.
pub proof fn law_invitation_bytes_are_injective(first: InvitationView, second: InvitationView)
    requires
        invitation_bytes(first) == invitation_bytes(second),
        first.id.len() == second.id.len() == 16,
        first.issuer.len() == second.issuer.len() == 32,
        first.encrypted_key.nonce.len() == second.encrypted_key.nonce.len() == 24,
    ensures
        first == (InvitationView { signature: first.signature, ..second }),
{
    let bytes = invitation_bytes(first);
    crate::bytes::lemma_be_u128(first.space.0);
    crate::bytes::lemma_be_u128(second.space.0);
    crate::bytes::lemma_be_u64(first.epoch);
    crate::bytes::lemma_be_u64(second.epoch);
    crate::bytes::lemma_be_u64(first.issued_at);
    crate::bytes::lemma_be_u64(second.issued_at);
    crate::bytes::lemma_be_u64(first.expires_at);
    crate::bytes::lemma_be_u64(second.expires_at);
    assert(bytes[0] == first.version);
    assert(bytes[0] == second.version);
    assert(bytes.subrange(1, 17) =~= first.id);
    assert(bytes.subrange(1, 17) =~= second.id);
    assert(bytes.subrange(17, 33) =~= be(first.space.0 as nat, 16));
    assert(bytes.subrange(17, 33) =~= be(second.space.0 as nat, 16));
    assert(bytes.subrange(33, 41) =~= be(first.epoch as nat, 8));
    assert(bytes.subrange(33, 41) =~= be(second.epoch as nat, 8));
    assert(bytes.subrange(41, 73) =~= first.issuer);
    assert(bytes.subrange(41, 73) =~= second.issuer);
    assert(bytes[73] == first.permission.byte());
    assert(bytes[73] == second.permission.byte());
    assert(bytes.subrange(74, 82) =~= be(first.issued_at as nat, 8));
    assert(bytes.subrange(74, 82) =~= be(second.issued_at as nat, 8));
    assert(bytes.subrange(82, 90) =~= be(first.expires_at as nat, 8));
    assert(bytes.subrange(82, 90) =~= be(second.expires_at as nat, 8));
    assert(bytes.skip(90) =~= payload_bytes(first.encrypted_key));
    assert(bytes.skip(90) =~= payload_bytes(second.encrypted_key));
    let one = first.encrypted_key;
    let two = second.encrypted_key;
    let payload = payload_bytes(one);
    crate::bytes::lemma_be_u128(one.space.0);
    crate::bytes::lemma_be_u128(two.space.0);
    crate::bytes::lemma_be_u64(one.epoch);
    crate::bytes::lemma_be_u64(two.epoch);
    crate::bytes::lemma_be_len(one.ciphertext.len(), 8);
    crate::bytes::lemma_be_len(two.ciphertext.len(), 8);
    assert(payload[0] == one.version);
    assert(payload[0] == two.version);
    assert(payload.subrange(1, 17) =~= be(one.space.0 as nat, 16));
    assert(payload.subrange(1, 17) =~= be(two.space.0 as nat, 16));
    assert(payload.subrange(17, 25) =~= be(one.epoch as nat, 8));
    assert(payload.subrange(17, 25) =~= be(two.epoch as nat, 8));
    assert(payload.subrange(25, 49) =~= one.nonce);
    assert(payload.subrange(25, 49) =~= two.nonce);
    assert(payload.skip(57) =~= one.ciphertext);
    assert(payload.skip(57) =~= two.ciphertext);
}

} // verus!
