//! Sharing a space with another person: secret invitation tokens, claims that
//! redeem them and the grants that answer claims.

use super::encoding::{
    base64_text, bounded_bytes, decode_bounded, encode_bounded, message_frame, message_length,
    EncodingError, EncodingFailure,
};
use crate::authority::capability::{
    AuthorityError, AuthorityView, Capability, CapabilityView, Operation, Permission,
    SpaceAuthority,
};
use crate::authority::invitation::{
    invited, InvitationError, InvitationSecret, InvitationView, ShareInvitation,
};
use crate::authority::payload::{EncryptionError, SpaceKey};
use crate::bytes::{be, extend, framed, law_framing_is_injective, push_part};
use crate::crypto;
use crate::crypto::{blake3_hash, blake3_keyed, degenerate, ed25519_point, ed25519_public};
use crate::id::SpaceId;
use crate::identity::device::{
    device_id, scoped_signature, scoped_valid, DeviceId, DeviceIdentity, DevicePublicKey,
};
use crate::net::certificate::CertificatePin;
use crate::text::{copy_bytes, owned, same_bytes};
use crate::trust::error::{TrustError, TrustFailure};
use crate::trust::laws::law_accepted_space_is_read_back;
use crate::trust::material::{DeviceMaterial, MaterialView};
use crate::trust::rows::{
    number_refusal, AccessView, PeerRecord, PeerView, ShareRowView, SpaceAccess, TrustView,
};
use crate::trust::vault::shares::offer_hash_of;
use crate::trust::vault::spaces::capability_views;
use crate::trust::vault::TrustStore;
use vstd::prelude::*;
use vstd::string::*;
use vstd::utf8::{encode_utf8, encode_utf8_decode_utf8};

verus! {

/// The version of tokens, claims and grants.
pub const SHARE_VERSION: u8 = 1;

/// The greatest size of a sharing message.
pub const SHARE_FRAME_LIMIT: u32 = 65_536;

/// The greatest size of an encoded token.
pub const TOKEN_LIMIT: usize = 131_072;

/// The domain in which owners sign tokens.
pub open spec fn token_domain() -> Seq<u8> {
    encode_utf8("cyrene/share-token/1"@)
}

/// The domain in which recipients sign claims.
pub open spec fn claim_domain() -> Seq<u8> {
    encode_utf8("cyrene/share-claim/1"@)
}

/// Why a sharing step is refused.
#[derive(Clone, Copy, Debug, PartialEq, Eq, Structural)]
pub enum ShareRefusal {
    /// The retention of an epoch update is not between 1 and 30 days.
    Retention,
    /// The lifetime of an invitation is not between a second and a day.
    Lifetime,
    /// The vault has no device identity.
    NoDevice,
    /// The space has no authority yet.
    NotInitialized,
    /// Only the issuing device can invite.
    NotIssuer,
    /// The expiry of an invitation cannot be represented.
    ExpiryOverflow,
    /// The invitation expired before it was accepted.
    ExpiredUnaccepted,
    /// The invitation has expired.
    Expired,
    /// The device has already accepted authority for the space.
    AlreadyAccepted,
    /// The grant does not answer the claim.
    IncompatibleGrant,
    /// The token has an unknown version.
    UnsupportedToken,
    /// The token does not carry its owner's signature.
    InvalidBinding,
    /// The claim targets another invitation.
    OtherInvitation,
    /// The claim does not prove possession of the secret.
    NoSecretProof,
    /// The claim does not prove the recipient's identity.
    NoDeviceProof,
    /// A message is above its size limit.
    MessageTooLarge,
}

impl ShareRefusal {
    /// The human-readable reason.
    pub open spec fn text(self) -> Seq<char> {
        match self {
            ShareRefusal::Retention => "epoch-update retention must be between 1 and 30 days"@,
            ShareRefusal::Lifetime => "invitation lifetime must be between 1 second and 24 hours"@,
            ShareRefusal::NoDevice => "the trust vault has no device identity; run `cyrene device init` first"@,
            ShareRefusal::NotInitialized => "space authority is not initialized; run `cyrene space init`"@,
            ShareRefusal::NotIssuer => "only this space's issuing device can create invitations"@,
            ShareRefusal::ExpiryOverflow => "invitation expiry overflow"@,
            ShareRefusal::ExpiredUnaccepted => "invitation expired before it was accepted"@,
            ShareRefusal::Expired => "invitation has expired"@,
            ShareRefusal::AlreadyAccepted => "this device has already accepted authority for the invited space"@,
            ShareRefusal::IncompatibleGrant => "inviter returned an incompatible grant"@,
            ShareRefusal::UnsupportedToken => "unsupported invitation token version"@,
            ShareRefusal::InvalidBinding => "invitation transport binding is invalid"@,
            ShareRefusal::OtherInvitation => "claim targets another invitation"@,
            ShareRefusal::NoSecretProof => "claim does not prove possession of the invitation secret"@,
            ShareRefusal::NoDeviceProof => "claim does not prove the recipient device identity"@,
            ShareRefusal::MessageTooLarge => "sharing message exceeds its hard size limit"@,
        }
    }

    /// Returns the human-readable reason.
    pub fn message(self) -> (message: String)
        ensures
            message@ == self.text(),
    {
        match self {
            ShareRefusal::Retention => owned(
                "epoch-update retention must be between 1 and 30 days",
            ),
            ShareRefusal::Lifetime => owned(
                "invitation lifetime must be between 1 second and 24 hours",
            ),
            ShareRefusal::NoDevice => owned(
                "the trust vault has no device identity; run `cyrene device init` first",
            ),
            ShareRefusal::NotInitialized => owned(
                "space authority is not initialized; run `cyrene space init`",
            ),
            ShareRefusal::NotIssuer => owned(
                "only this space's issuing device can create invitations",
            ),
            ShareRefusal::ExpiryOverflow => owned("invitation expiry overflow"),
            ShareRefusal::ExpiredUnaccepted => owned("invitation expired before it was accepted"),
            ShareRefusal::Expired => owned("invitation has expired"),
            ShareRefusal::AlreadyAccepted => owned(
                "this device has already accepted authority for the invited space",
            ),
            ShareRefusal::IncompatibleGrant => owned("inviter returned an incompatible grant"),
            ShareRefusal::UnsupportedToken => owned("unsupported invitation token version"),
            ShareRefusal::InvalidBinding => owned("invitation transport binding is invalid"),
            ShareRefusal::OtherInvitation => owned("claim targets another invitation"),
            ShareRefusal::NoSecretProof => owned(
                "claim does not prove possession of the invitation secret",
            ),
            ShareRefusal::NoDeviceProof => owned(
                "claim does not prove the recipient device identity",
            ),
            ShareRefusal::MessageTooLarge => owned("sharing message exceeds its hard size limit"),
        }
    }
}

/// A failure of a sharing command.
#[derive(Debug, PartialEq, Eq)]
pub enum ShareError {
    /// The step is refused.
    Refused(ShareRefusal),
    /// A device to revoke is not a member of the space.
    NotAMember(DeviceId),
    /// The invitation is refused.
    Invitation(InvitationError),
    /// The granted capability is refused.
    Authority(AuthorityError),
    /// The vault refused the operation.
    Trust(TrustError),
}

/// What a [`ShareError`] says.
#[verifier::ext_equal]
pub enum ShareFailure {
    /// The step is refused.
    Refused(ShareRefusal),
    /// A device to revoke is not a member of the space.
    NotAMember(Seq<u8>),
    /// The invitation is refused.
    Invitation(InvitationError),
    /// The granted capability is refused.
    Authority(AuthorityError),
    /// The vault refused the operation.
    Trust(TrustFailure),
}

impl View for ShareError {
    type V = ShareFailure;

    open spec fn view(&self) -> ShareFailure {
        match self {
            ShareError::Refused(reason) => ShareFailure::Refused(*reason),
            ShareError::NotAMember(device) => ShareFailure::NotAMember(device@),
            ShareError::Invitation(error) => ShareFailure::Invitation(*error),
            ShareError::Authority(error) => ShareFailure::Authority(*error),
            ShareError::Trust(error) => ShareFailure::Trust(error@),
        }
    }
}

/// The secret token that an owner prints for a recipient.
#[derive(Debug, PartialEq, Eq)]
pub struct ShareToken {
    /// Token version.
    pub version: u8,
    /// Socket address of the invitation listener.
    pub address: String,
    /// Signed invitation.
    pub invitation: ShareInvitation,
    /// Bearer secret of the invitation.
    pub secret: [u8; 32],
    /// Certificate of the owner's endpoint.
    pub owner_certificate: Vec<u8>,
    /// Owner's signature of the address, the invitation and the certificate.
    pub transport_signature: Vec<u8>,
}

/// What a [`ShareToken`] says.
#[verifier::ext_equal]
pub struct TokenView {
    /// Token version.
    pub version: u8,
    /// Socket address of the invitation listener.
    pub address: Seq<char>,
    /// Signed invitation.
    pub invitation: InvitationView,
    /// Bearer secret of the invitation.
    pub secret: Seq<u8>,
    /// Certificate of the owner's endpoint.
    pub owner_certificate: Seq<u8>,
    /// Owner's signature.
    pub transport_signature: Seq<u8>,
}

impl View for ShareToken {
    type V = TokenView;

    open spec fn view(&self) -> TokenView {
        TokenView {
            version: self.version,
            address: self.address@,
            invitation: self.invitation@,
            secret: self.secret@,
            owner_certificate: self.owner_certificate@,
            transport_signature: self.transport_signature@,
        }
    }
}

/// What an owner signs in a token.
pub open spec fn token_parts(address: Seq<char>, id: Seq<u8>, certificate: Seq<u8>) -> Seq<Seq<u8>> {
    seq![seq![1u8], encode_utf8(address), id, blake3_hash(certificate)]
}

/// Writes what an owner signs in a token.
pub fn token_transcript(address: &str, invitation: &ShareInvitation, certificate_der: &[u8]) -> (bytes:
    Vec<u8>)
    ensures
        bytes@ == framed(token_parts(address@, invitation@.id, certificate_der@)),
{
    let mut bytes: Vec<u8> = Vec::new();
    let version: [u8; 1] = [SHARE_VERSION];
    let pin = CertificatePin::from_certificate_der(certificate_der);
    push_part(&mut bytes, version.as_slice());
    push_part(&mut bytes, address.as_bytes());
    push_part(&mut bytes, invitation.id.as_slice());
    push_part(&mut bytes, pin.0.as_slice());
    proof {
        let parts = token_parts(address@, invitation@.id, certificate_der@);
        reveal_with_fuel(framed, 5);
        assert(version@ =~= seq![1u8]);
        assert(parts.drop_last().drop_last().drop_last().drop_last() =~= Seq::<
            Seq<u8>,
        >::empty());
        assert(bytes@ =~= framed(parts));
    }
    bytes
}

impl TokenView {
    /// Whether the token carries its owner's signature.
    pub open spec fn signed(self) -> bool {
        scoped_valid(
            self.invitation.issuer,
            token_domain(),
            framed(token_parts(self.address, self.invitation.id, self.owner_certificate)),
            self.transport_signature,
        )
    }

    /// Why the token is refused.
    pub open spec fn refusal(self) -> Option<ShareRefusal> {
        if self.version != 1 {
            Some(ShareRefusal::UnsupportedToken)
        } else if !self.signed() {
            Some(ShareRefusal::InvalidBinding)
        } else {
            None
        }
    }
}

/// Signs the token of an invitation for a listener.
///
/// The token validates for the invitation's issuer, unless its signature is the
/// degenerate one that strict verification refuses.
pub fn sign_token(
    device: &DeviceIdentity,
    address: &str,
    invitation: &ShareInvitation,
    secret: &InvitationSecret,
    certificate_der: &[u8],
) -> (token: ShareToken)
    ensures
        token@ == (TokenView {
            version: 1,
            address: address@,
            invitation: invitation@,
            secret: secret@,
            owner_certificate: certificate_der@,
            transport_signature: scoped_signature(
                device@,
                token_domain(),
                framed(token_parts(address@, invitation@.id, certificate_der@)),
            ),
        }),
        device.public() == invitation@.issuer && !degenerate(token@.transport_signature)
            ==> token@.refusal() is None,
{
    let transcript = token_transcript(address, invitation, certificate_der);
    let signature = device.sign("cyrene/share-token/1".as_bytes(), transcript.as_slice());
    ShareToken {
        version: SHARE_VERSION,
        address: owned(address),
        invitation: invitation.clone(),
        secret: *secret.secret_bytes(),
        owner_certificate: copy_bytes(certificate_der),
        transport_signature: copy_bytes(signature.as_slice()),
    }
}

/// Verifies a token's version and its owner's signature.
pub fn validate_token(token: &ShareToken) -> (result: Result<(), ShareError>)
    ensures
        match result {
            Ok(_) => token@.refusal() is None,
            Err(error) => token@.refusal() matches Some(reason) && error@
                == ShareFailure::Refused(reason),
        },
{
    if token.version != SHARE_VERSION {
        return Err(ShareError::Refused(ShareRefusal::UnsupportedToken));
    }
    let transcript = token_transcript(
        token.address.as_str(),
        &token.invitation,
        token.owner_certificate.as_slice(),
    );
    if !token.invitation.issuer().verify(
        "cyrene/share-token/1".as_bytes(),
        transcript.as_slice(),
        token.transport_signature.as_slice(),
    ) {
        return Err(ShareError::Refused(ShareRefusal::InvalidBinding));
    }
    Ok(())
}

/// A recipient's claim of an invitation.
#[derive(Debug, PartialEq, Eq)]
pub struct ShareClaim {
    /// Claim version.
    pub version: u8,
    /// Claimed invitation.
    pub invitation_id: [u8; 16],
    /// Recipient's public key.
    pub public_key: DevicePublicKey,
    /// Certificate of the recipient's endpoint.
    pub certificate_der: Vec<u8>,
    /// Proof of possession of the invitation secret.
    pub secret_proof: [u8; 32],
    /// Recipient's signature.
    pub signature: Vec<u8>,
}

/// What a [`ShareClaim`] says.
#[verifier::ext_equal]
pub struct ClaimView {
    /// Claim version.
    pub version: u8,
    /// Claimed invitation.
    pub invitation_id: Seq<u8>,
    /// Recipient's public key.
    pub public_key: Seq<u8>,
    /// Certificate of the recipient's endpoint.
    pub certificate: Seq<u8>,
    /// Proof of possession of the invitation secret.
    pub secret_proof: Seq<u8>,
    /// Recipient's signature.
    pub signature: Seq<u8>,
}

impl View for ShareClaim {
    type V = ClaimView;

    open spec fn view(&self) -> ClaimView {
        ClaimView {
            version: self.version,
            invitation_id: self.invitation_id@,
            public_key: self.public_key@,
            certificate: self.certificate_der@,
            secret_proof: self.secret_proof@,
            signature: self.signature@,
        }
    }
}

/// What a claim is about.
pub open spec fn claim_parts(id: Seq<u8>, public_key: Seq<u8>, certificate: Seq<u8>) -> Seq<Seq<u8>> {
    seq![id, public_key, blake3_hash(certificate)]
}

/// Writes what a claim is about.
pub fn claim_base(id: [u8; 16], public_key: DevicePublicKey, certificate_der: &[u8]) -> (bytes: Vec<
    u8,
>)
    ensures
        bytes@ == framed(claim_parts(id@, public_key@, certificate_der@)),
{
    let mut bytes: Vec<u8> = Vec::new();
    let pin = CertificatePin::from_certificate_der(certificate_der);
    push_part(&mut bytes, id.as_slice());
    push_part(&mut bytes, public_key.0.as_slice());
    push_part(&mut bytes, pin.0.as_slice());
    proof {
        let parts = claim_parts(id@, public_key@, certificate_der@);
        reveal_with_fuel(framed, 4);
        assert(parts.drop_last().drop_last().drop_last() =~= Seq::<Seq<u8>>::empty());
        assert(bytes@ =~= framed(parts));
    }
    bytes
}

impl ClaimView {
    /// What the claim is about, in bytes.
    pub open spec fn base(self) -> Seq<u8> {
        framed(claim_parts(self.invitation_id, self.public_key, self.certificate))
    }

    /// Why the claim is refused for an invitation and its secret.
    pub open spec fn refusal(self, id: Seq<u8>, secret: Seq<u8>) -> Option<ShareRefusal> {
        if self.version != 1 || self.invitation_id != id {
            Some(ShareRefusal::OtherInvitation)
        } else if blake3_keyed(secret, self.base()) != self.secret_proof {
            Some(ShareRefusal::NoSecretProof)
        } else if !scoped_valid(
            self.public_key,
            claim_domain(),
            self.base() + self.secret_proof,
            self.signature,
        ) {
            Some(ShareRefusal::NoDeviceProof)
        } else {
            None
        }
    }
}

/// The claim that a device makes.
pub open spec fn claimed(
    secret: Seq<u8>,
    public: Seq<u8>,
    id: Seq<u8>,
    invitation_secret: Seq<u8>,
    certificate: Seq<u8>,
) -> ClaimView {
    let base = framed(claim_parts(id, public, certificate));
    let proof_bytes = blake3_keyed(invitation_secret, base);
    ClaimView {
        version: 1,
        invitation_id: id,
        public_key: public,
        certificate,
        secret_proof: proof_bytes,
        signature: scoped_signature(secret, claim_domain(), base + proof_bytes),
    }
}

/// Claims an invitation for a device that holds its secret.
///
/// The claim is valid for the invitation, unless its signature is the
/// degenerate one that strict verification refuses.
pub fn make_claim(
    device: &DeviceIdentity,
    id: [u8; 16],
    secret: &InvitationSecret,
    certificate_der: &[u8],
) -> (claim: ShareClaim)
    ensures
        claim@ == claimed(device@, device.public(), id@, secret@, certificate_der@),
        !degenerate(claim@.signature) ==> claim@.refusal(id@, secret@) is None,
{
    let public_key = device.public_key();
    let base = claim_base(id, public_key, certificate_der);
    let secret_proof = crypto::keyed_hash(secret.secret_bytes(), base.as_slice());
    let mut signed = copy_bytes(base.as_slice());
    extend(&mut signed, secret_proof.as_slice());
    let signature = device.sign("cyrene/share-claim/1".as_bytes(), signed.as_slice());
    ShareClaim {
        version: SHARE_VERSION,
        invitation_id: id,
        public_key,
        certificate_der: copy_bytes(certificate_der),
        secret_proof,
        signature: copy_bytes(signature.as_slice()),
    }
}

/// Verifies that a claim proves both the bearer secret and the recipient's
/// identity, and returns the recipient.
pub fn validate_claim(
    claim: &ShareClaim,
    invitation: &ShareInvitation,
    secret: &InvitationSecret,
    now: u64,
) -> (peer: Result<PeerRecord, ShareError>)
    ensures
        match peer {
            Ok(peer) => {
                &&& claim@.refusal(invitation@.id, secret@) is None
                &&& peer@ == (PeerView {
                    public_key: claim@.public_key,
                    certificate: claim@.certificate,
                    paired_at: now,
                })
            },
            Err(error) => claim@.refusal(invitation@.id, secret@) matches Some(reason) && error@
                == ShareFailure::Refused(reason),
        },
{
    if claim.version != SHARE_VERSION || !same_bytes(
        claim.invitation_id.as_slice(),
        invitation.id.as_slice(),
    ) {
        return Err(ShareError::Refused(ShareRefusal::OtherInvitation));
    }
    let base = claim_base(
        claim.invitation_id,
        claim.public_key,
        claim.certificate_der.as_slice(),
    );
    let expected = crypto::keyed_hash(secret.secret_bytes(), base.as_slice());
    if !same_bytes(expected.as_slice(), claim.secret_proof.as_slice()) {
        return Err(ShareError::Refused(ShareRefusal::NoSecretProof));
    }
    let mut signed = copy_bytes(base.as_slice());
    extend(&mut signed, claim.secret_proof.as_slice());
    if !claim.public_key.verify(
        "cyrene/share-claim/1".as_bytes(),
        signed.as_slice(),
        claim.signature.as_slice(),
    ) {
        return Err(ShareError::Refused(ShareRefusal::NoDeviceProof));
    }
    Ok(
        PeerRecord {
            public_key: claim.public_key,
            certificate_der: copy_bytes(claim.certificate_der.as_slice()),
            paired_at: now,
        },
    )
}

/// The answer to a valid claim.
#[derive(Debug, PartialEq, Eq)]
pub struct ShareGrant {
    /// Grant version.
    pub version: u8,
    /// Capability of the recipient.
    pub capability: Capability,
}

/// Accepts the days that an epoch update is kept, in seconds.
pub fn retention_seconds(days: u64) -> (seconds: Result<u64, ShareError>)
    ensures
        match seconds {
            Ok(seconds) => 1 <= days <= 30 && seconds == days * 86400,
            Err(error) => (days == 0 || days > 30) && error@ == ShareFailure::Refused(
                ShareRefusal::Retention,
            ),
        },
{
    if days == 0 || days > 30 {
        return Err(ShareError::Refused(ShareRefusal::Retention));
    }
    Ok(days * 24 * 60 * 60)
}

/// Whether a device is the subject of one of the capabilities.
pub open spec fn is_member(current: Seq<CapabilityView>, device: Seq<u8>) -> bool {
    exists|i: int| 0 <= i < current.len() && (#[trigger] current[i]).subject == device
}

/// Checks that every device to revoke is a current member.
pub fn check_revoked(current: &[Capability], revoked: &[DevicePublicKey]) -> (result: Result<
    (),
    ShareError,
>)
    ensures
        match result {
            Ok(_) => forall|i: int|
                0 <= i < revoked@.len() ==> is_member(
                    capability_views(current@),
                    (#[trigger] revoked@[i])@,
                ),
            Err(error) => exists|i: int|
                {
                    &&& 0 <= i < revoked@.len()
                    &&& !is_member(capability_views(current@), (#[trigger] revoked@[i])@)
                    &&& error@ == ShareFailure::NotAMember(device_id(revoked@[i]@))
                    &&& forall|j: int|
                        0 <= j < i ==> is_member(
                            capability_views(current@),
                            (#[trigger] revoked@[j])@,
                        )
                },
        },
{
    let ghost views = capability_views(current@);
    let mut index: usize = 0;
    while index < revoked.len()
        invariant
            index <= revoked@.len(),
            views == capability_views(current@),
            forall|i: int| 0 <= i < index ==> is_member(views, (#[trigger] revoked@[i])@),
        decreases revoked@.len() - index,
    {
        let device = revoked[index];
        let mut found: bool = false;
        let mut at: usize = 0;
        while at < current.len()
            invariant
                at <= current@.len(),
                views == capability_views(current@),
                found == exists|i: int|
                    0 <= i < at && (#[trigger] views[i]).subject == device@,
            decreases current@.len() - at,
        {
            assert(views[at as int] == current@[at as int]@);
            if current[at].subject().same(&device) {
                found = true;
            }
            at += 1;
        }
        if !found {
            assert(!is_member(views, revoked@[index as int]@));
            return Err(ShareError::NotAMember(device.id()));
        }
        index += 1;
    }
    Ok(())
}

/// The number of members that stay when devices are revoked.
pub fn retained_members(current: usize, revoked: usize) -> (retained: usize)
    ensures
        retained == if current >= revoked {
            current - revoked
        } else {
            0
        },
{
    if current >= revoked {
        current - revoked
    } else {
        0
    }
}

/// The seconds until an expiry, unless it has passed.
pub fn remaining_seconds(expires_at: u64, now: u64) -> (remaining: Option<u64>)
    ensures
        match remaining {
            Some(remaining) => now < expires_at && remaining == expires_at - now,
            None => now >= expires_at,
        },
{
    if now >= expires_at {
        None
    } else {
        Some(expires_at - now)
    }
}

/// Why an owner cannot issue an invitation.
pub open spec fn invite_refusal(state: TrustView, space: SpaceId, now: u64, ttl: u64) -> Option<
    ShareFailure,
> {
    if ttl == 0 || ttl > 86400 {
        Some(ShareFailure::Refused(ShareRefusal::Lifetime))
    } else {
        match state.loaded_device() {
            Err(error) => Some(ShareFailure::Trust(error)),
            Ok(None) => Some(ShareFailure::Refused(ShareRefusal::NoDevice)),
            Ok(Some(device)) => match state.loaded_credentials(space) {
                Err(error) => Some(ShareFailure::Trust(error)),
                Ok(None) => Some(ShareFailure::Refused(ShareRefusal::NotInitialized)),
                Ok(Some((access, _))) => if access.authority.issuer != ed25519_public(
                    device.secret,
                ) {
                    Some(ShareFailure::Refused(ShareRefusal::NotIssuer))
                } else if now + ttl > u64::MAX {
                    Some(ShareFailure::Refused(ShareRefusal::ExpiryOverflow))
                } else {
                    None
                },
            },
        }
    }
}

/// Whether an invitation is one that the owner of a space signs.
pub open spec fn invites(
    state: TrustView,
    space: SpaceId,
    permission: Permission,
    now: u64,
    ttl: u64,
    invitation: InvitationView,
) -> bool {
    let secret = state.loaded_device()->Ok_0->0.secret;
    &&& invitation.id.len() == 16
    &&& invitation == invited(
        secret,
        ed25519_public(secret),
        invitation.id,
        space,
        state.current_access(space).authority.epoch,
        permission,
        now,
        (now + ttl) as u64,
        invitation.encrypted_key,
    )
}

/// An invitation that was issued and recorded.
pub struct IssuedInvitation {
    /// Signed invitation.
    pub invitation: ShareInvitation,
    /// Bearer secret of the invitation.
    pub secret: InvitationSecret,
    /// Credentials of the issuing device.
    pub device: DeviceMaterial,
}

/// Issues an invitation to a space and records it before its secret is
/// published.
pub fn issue_invitation(
    vault: &mut TrustStore,
    space: SpaceId,
    permission: Permission,
    now: u64,
    ttl: u64,
) -> (issued: Result<IssuedInvitation, ShareError>)
    requires
        old(vault).wf(),
    ensures
        final(vault).wf(),
        match issued {
            Ok(issued) => {
                let invitation = issued.invitation@;
                let access = old(vault)@.current_access(space);
                &&& invite_refusal(old(vault)@, space, now, ttl) is None
                &&& invites(old(vault)@, space, permission, now, ttl, invitation)
                &&& old(vault)@.record_refusal(invitation) is None
                &&& old(vault)@.loaded_device() == Ok::<Option<MaterialView>, TrustFailure>(
                    Some(issued.device@),
                )
                &&& invitation.version == 1
                &&& invitation.authority() == access.authority
                &&& invitation.permission == permission
                &&& invitation.issued_at == now
                &&& invitation.expires_at == now + ttl
                &&& !degenerate(invitation.signature) ==> forall|at: u64|
                    now <= at < now + ttl ==> #[trigger] invitation.opened(
                        invitation.authority(),
                        issued.secret@,
                        at,
                    ) == old(vault)@.invited_key(space)
                &&& final(vault)@ == (TrustView {
                    shares: old(vault)@.shares.insert(
                        invitation.id,
                        (ShareRowView {
                            offer_hash: offer_hash_of(invitation),
                            expires_at: invitation.expires_at,
                            redeemed_at: None,
                            subject: None,
                            capability: None,
                        }),
                    ),
                    ..old(vault)@
                })
            },
            Err(error) => {
                &&& final(vault)@ == old(vault)@
                &&& match invite_refusal(old(vault)@, space, now, ttl) {
                    Some(refused) => error@ == refused,
                    None => {
                        ||| error@ == ShareFailure::Invitation(InvitationError::Randomness)
                        ||| error@ == ShareFailure::Invitation(
                            InvitationError::Encryption(EncryptionError::Randomness),
                        )
                        ||| exists|invitation: InvitationView| #[trigger]
                            invites(old(vault)@, space, permission, now, ttl, invitation)
                                && match old(vault)@.record_refusal(invitation) {
                                Some(refused) => error@ == ShareFailure::Trust(refused),
                                None => false,
                            }
                    },
                }
            },
        },
{
    if ttl == 0 || ttl > 86_400 {
        return Err(ShareError::Refused(ShareRefusal::Lifetime));
    }
    let device = match vault.load_device() {
        Err(error) => {
            return Err(ShareError::Trust(error));
        },
        Ok(None) => {
            return Err(ShareError::Refused(ShareRefusal::NoDevice));
        },
        Ok(Some(device)) => device,
    };
    let credentials = match vault.space_credentials(space) {
        Err(error) => {
            return Err(ShareError::Trust(error));
        },
        Ok(None) => {
            return Err(ShareError::Refused(ShareRefusal::NotInitialized));
        },
        Ok(Some(credentials)) => credentials,
    };
    let authority = credentials.authority();
    if !authority.issuer.same(&device.identity.public_key()) {
        return Err(ShareError::Refused(ShareRefusal::NotIssuer));
    }
    let expires_at: u64 = match now.checked_add(ttl) {
        Some(expires_at) => expires_at,
        None => {
            return Err(ShareError::Refused(ShareRefusal::ExpiryOverflow));
        },
    };
    let (invitation, secret) = match ShareInvitation::issue(
        &device.identity,
        space,
        authority.epoch,
        credentials.key(),
        permission,
        now,
        expires_at,
    ) {
        Ok(invited) => invited,
        Err(error) => {
            return Err(ShareError::Invitation(error));
        },
    };
    assert(invites(vault@, space, permission, now, ttl, invitation@));
    match vault.record_share_invitation(&invitation) {
        Ok(_) => Ok(IssuedInvitation { invitation, secret, device }),
        Err(error) => Err(ShareError::Trust(error)),
    }
}

impl TrustView {
    /// The content key that an invitation of a space opens to.
    pub open spec fn invited_key(self, space: SpaceId) -> Result<Seq<u8>, InvitationError> {
        let (_, key) = self.loaded_credentials(space)->Ok_0->0;
        Ok(key)
    }
}

/// What becomes of a claim.
#[derive(Debug, PartialEq, Eq)]
pub enum ClaimStep {
    /// The claim is rejected; the owner keeps waiting for another one.
    Reject(ShareError),
    /// The claim is granted to a recipient.
    Grant {
        /// Answer for the recipient.
        grant: ShareGrant,
        /// The recipient.
        peer: PeerRecord,
    },
}

/// Decides a claim of a recorded invitation: an invalid claim is rejected, a
/// valid one is redeemed.
pub fn decide_claim(
    vault: &mut TrustStore,
    issuer: &DeviceIdentity,
    invitation: &ShareInvitation,
    secret: &InvitationSecret,
    claim: &ShareClaim,
    now: u64,
) -> (step: Result<ClaimStep, ShareError>)
    requires
        old(vault).wf(),
    ensures
        final(vault).wf(),
        ({
            let recipient = PeerView {
                public_key: claim@.public_key,
                certificate: claim@.certificate,
                paired_at: now,
            };
            match claim@.refusal(invitation@.id, secret@) {
                Some(reason) => {
                    &&& step matches Ok(ClaimStep::Reject(error))
                    &&& error@ == ShareFailure::Refused(reason)
                    &&& final(vault)@ == old(vault)@
                },
                None => match step {
                    Ok(ClaimStep::Reject(_)) => false,
                    Ok(ClaimStep::Grant { grant, peer }) => {
                        &&& grant.version == 1
                        &&& peer@ == recipient
                        &&& old(vault)@.redeems(
                            invitation@,
                            issuer@,
                            issuer.public(),
                            claim@.public_key,
                            Some(recipient),
                            now,
                            Ok(grant.capability@),
                            final(vault)@,
                        )
                    },
                    Err(error) => {
                        &&& error@ matches ShareFailure::Trust(refused)
                        &&& old(vault)@.redeems(
                            invitation@,
                            issuer@,
                            issuer.public(),
                            claim@.public_key,
                            Some(recipient),
                            now,
                            Err(refused),
                            final(vault)@,
                        )
                    },
                },
            }
        }),
{
    let peer = match validate_claim(claim, invitation, secret, now) {
        Ok(peer) => peer,
        Err(error) => {
            return Ok(ClaimStep::Reject(error));
        },
    };
    match vault.redeem_share_invitation_with_peer(invitation, issuer, &peer, now) {
        Ok(capability) => Ok(
            ClaimStep::Grant { grant: ShareGrant { version: SHARE_VERSION, capability }, peer },
        ),
        Err(error) => Err(ShareError::Trust(error)),
    }
}

/// What a recipient needs to claim an invitation and to accept its grant.
pub struct JoinStart {
    /// Authority of the invited space.
    pub authority: SpaceAuthority,
    /// Content key of the invited epoch.
    pub key: SpaceKey,
    /// Claim to send to the owner.
    pub claim: ShareClaim,
}

/// Why a token cannot be joined.
pub open spec fn join_refusal(state: TrustView, token: TokenView, now: u64) -> Option<ShareFailure> {
    match token.refusal() {
        Some(reason) => Some(ShareFailure::Refused(reason)),
        None => match state.loaded_device() {
            Err(error) => Some(ShareFailure::Trust(error)),
            Ok(None) => Some(ShareFailure::Refused(ShareRefusal::NoDevice)),
            Ok(Some(_)) => match token.invitation.opened(
                token.invitation.authority(),
                token.secret,
                now,
            ) {
                Err(error) => Some(ShareFailure::Invitation(error)),
                Ok(_) => match state.loaded_access(token.invitation.space) {
                    Err(error) => Some(ShareFailure::Trust(error)),
                    Ok(Some(_)) => Some(ShareFailure::Refused(ShareRefusal::AlreadyAccepted)),
                    Ok(None) => None,
                },
            },
        },
    }
}

/// Opens a token for this vault's device and prepares its claim.
pub fn start_join(vault: &TrustStore, token: &ShareToken, now: u64) -> (start: Result<
    JoinStart,
    ShareError,
>)
    requires
        vault.wf(),
    ensures
        match start {
            Ok(start) => {
                let device = vault@.loaded_device()->Ok_0->0;
                &&& join_refusal(vault@, token@, now) is None
                &&& start.authority@ == token@.invitation.authority()
                &&& token@.invitation.opened(start.authority@, token@.secret, now) == Ok::<
                    Seq<u8>,
                    InvitationError,
                >(start.key@)
                &&& start.claim@ == claimed(
                    device.secret,
                    ed25519_public(device.secret),
                    token@.invitation.id,
                    token@.secret,
                    device.certificate,
                )
            },
            Err(error) => join_refusal(vault@, token@, now) == Some(error@),
        },
{
    match validate_token(token) {
        Ok(_) => {},
        Err(error) => {
            return Err(error);
        },
    }
    let device = match vault.load_device() {
        Err(error) => {
            return Err(ShareError::Trust(error));
        },
        Ok(None) => {
            return Err(ShareError::Refused(ShareRefusal::NoDevice));
        },
        Ok(Some(device)) => device,
    };
    let authority = SpaceAuthority {
        space: token.invitation.space(),
        issuer: token.invitation.issuer(),
        epoch: token.invitation.epoch(),
    };
    let secret = InvitationSecret::from_bytes(token.secret);
    let key = match token.invitation.open(authority, &secret, now) {
        Ok(key) => key,
        Err(error) => {
            return Err(ShareError::Invitation(error));
        },
    };
    match vault.space_access(token.invitation.space()) {
        Err(error) => {
            return Err(ShareError::Trust(error));
        },
        Ok(Some(_)) => {
            return Err(ShareError::Refused(ShareRefusal::AlreadyAccepted));
        },
        Ok(None) => {},
    }
    let claim = make_claim(
        &device.identity,
        token.invitation.id(),
        &secret,
        device.certificate.certificate_der(),
    );
    Ok(JoinStart { authority, key, claim })
}

/// Why a grant is refused before the vault decides.
pub open spec fn grant_refusal(
    state: TrustView,
    token: TokenView,
    version: u8,
    capability: CapabilityView,
    now: u64,
) -> Option<ShareFailure> {
    if version != 1 || capability.permission != token.invitation.permission {
        Some(ShareFailure::Refused(ShareRefusal::IncompatibleGrant))
    } else {
        match state.loaded_device() {
            Err(error) => Some(ShareFailure::Trust(error)),
            Ok(None) => Some(ShareFailure::Refused(ShareRefusal::NoDevice)),
            Ok(Some(device)) => match capability.authorize_refusal(
                token.invitation.authority(),
                ed25519_public(device.secret),
                Operation::Read,
                now,
            ) {
                Some(error) => Some(ShareFailure::Authority(error)),
                None => None,
            },
        }
    }
}

/// The owner that a recipient records with an accepted space.
pub open spec fn owner_of(token: TokenView, now: u64) -> PeerView {
    PeerView {
        public_key: token.invitation.issuer,
        certificate: token.owner_certificate,
        paired_at: now,
    }
}

/// Verifies the owner's grant and atomically accepts the shared space.
pub fn finish_join(
    vault: &mut TrustStore,
    token: &ShareToken,
    key: &SpaceKey,
    grant: &ShareGrant,
    now: u64,
) -> (result: Result<(), ShareError>)
    requires
        old(vault).wf(),
    ensures
        final(vault).wf(),
        ({
            let state = old(vault)@;
            let peer = owner_of(token@, now);
            let access = AccessView {
                authority: token@.invitation.authority(),
                capability: grant.capability@,
            };
            let refused = grant_refusal(state, token@, grant.version, grant.capability@, now);
            let early = state.share_refusal(peer, access, now);
            let late = state.share_write_refusal(peer, access);
            match result {
                Ok(_) => {
                    &&& refused is None
                    &&& early is None
                    &&& late is None
                    &&& state.shares_space(final(vault)@, peer, access, key@)
                },
                Err(error) => {
                    &&& final(vault)@ == state
                    &&& if refused is Some {
                        refused == Some(error@)
                    } else {
                        &&& error@ matches ShareFailure::Trust(failure)
                        &&& if early is Some {
                            early == Some(failure)
                        } else {
                            failure == TrustFailure::Randomness || late == Some(failure)
                        }
                    }
                },
            }
        }),
{
    finish_drawn_join(vault, token, key, grant, crypto::random::<24>(), now)
}

/// Verifies the owner's grant and atomically accepts the shared space, with the
/// nonce that seals the key, unless none could be drawn.
pub fn finish_drawn_join(
    vault: &mut TrustStore,
    token: &ShareToken,
    key: &SpaceKey,
    grant: &ShareGrant,
    drawn: Option<[u8; 24]>,
    now: u64,
) -> (result: Result<(), ShareError>)
    requires
        old(vault).wf(),
    ensures
        final(vault).wf(),
        ({
            let state = old(vault)@;
            let peer = owner_of(token@, now);
            let access = AccessView {
                authority: token@.invitation.authority(),
                capability: grant.capability@,
            };
            let refused = grant_refusal(state, token@, grant.version, grant.capability@, now);
            let early = state.share_refusal(peer, access, now);
            let late = state.share_write_refusal(peer, access);
            let expected = if refused is Some {
                refused
            } else if early is Some {
                Some(ShareFailure::Trust(early->0))
            } else if drawn is None {
                Some(ShareFailure::Trust(TrustFailure::Randomness))
            } else if late is Some {
                Some(ShareFailure::Trust(late->0))
            } else {
                None
            };
            match result {
                Ok(_) => {
                    &&& expected is None
                    &&& final(vault)@ == state.shared(
                        peer,
                        access,
                        state.sealed_key(
                            access.authority.space,
                            access.authority.epoch,
                            key@,
                            drawn->0@,
                        ),
                    )
                    &&& state.shares_space(final(vault)@, peer, access, key@)
                },
                Err(error) => {
                    &&& expected == Some(error@)
                    &&& final(vault)@ == state
                },
            }
        }),
{
    if grant.version != SHARE_VERSION || grant.capability.permission()
        != token.invitation.permission() {
        return Err(ShareError::Refused(ShareRefusal::IncompatibleGrant));
    }
    let device = match vault.load_device() {
        Err(error) => {
            return Err(ShareError::Trust(error));
        },
        Ok(None) => {
            return Err(ShareError::Refused(ShareRefusal::NoDevice));
        },
        Ok(Some(device)) => device,
    };
    let authority = SpaceAuthority {
        space: token.invitation.space(),
        issuer: token.invitation.issuer(),
        epoch: token.invitation.epoch(),
    };
    match grant.capability.authorize(
        authority,
        device.identity.public_key(),
        Operation::Read,
        now,
    ) {
        Ok(_) => {},
        Err(error) => {
            return Err(ShareError::Authority(error));
        },
    }
    let peer = PeerRecord {
        public_key: token.invitation.issuer(),
        certificate_der: copy_bytes(token.owner_certificate.as_slice()),
        paired_at: now,
    };
    let access = SpaceAccess { authority, capability: grant.capability.clone() };
    match vault.accept_drawn_space(&peer, &access, key, drawn, now) {
        Ok(_) => Ok(()),
        Err(error) => Err(ShareError::Trust(error)),
    }
}

/// Renders an encoded token as URL-safe text, which decodes to it again.
pub fn encode_token(encoded: &[u8]) -> (text: Result<String, EncodingError>)
    ensures
        match text {
            Ok(text) => {
                &&& encoded@.len() <= 131072
                &&& text@ == base64_text(encoded@)
                &&& bounded_bytes(text@, 131072) == Ok::<Seq<u8>, EncodingFailure>(encoded@)
            },
            Err(error) => encoded@.len() > 131072 && error@ == EncodingFailure::TooLarge,
        },
{
    encode_bounded(encoded, TOKEN_LIMIT)
}

/// Reads an encoded token from URL-safe text.
pub fn decode_token(text: &str) -> (encoded: Result<Vec<u8>, EncodingError>)
    ensures
        match encoded {
            Ok(encoded) => bounded_bytes(text@, 131072) == Ok::<Seq<u8>, EncodingFailure>(
                encoded@,
            ),
            Err(error) => bounded_bytes(text@, 131072) == Err::<Seq<u8>, EncodingFailure>(error@),
        },
{
    decode_bounded(text, TOKEN_LIMIT)
}

/// Frames an encoded sharing message.
pub fn sharing_frame(encoded: &[u8]) -> (frame: Result<Vec<u8>, ShareError>)
    ensures
        match frame {
            Ok(frame) => encoded@.len() <= 65536 && frame@ == be(encoded@.len(), 4) + encoded@,
            Err(error) => encoded@.len() > 65536 && error@ == ShareFailure::Refused(
                ShareRefusal::MessageTooLarge,
            ),
        },
{
    match message_frame(encoded, SHARE_FRAME_LIMIT) {
        Some(frame) => Ok(frame),
        None => Err(ShareError::Refused(ShareRefusal::MessageTooLarge)),
    }
}

/// Accepts the length that a sharing message declares.
pub fn sharing_length(declared: u32) -> (length: Result<usize, ShareError>)
    ensures
        match length {
            Ok(length) => declared <= 65536 && length == declared,
            Err(error) => declared > 65536 && error@ == ShareFailure::Refused(
                ShareRefusal::MessageTooLarge,
            ),
        },
{
    match message_length(declared, SHARE_FRAME_LIMIT) {
        Some(length) => Ok(length),
        None => Err(ShareError::Refused(ShareRefusal::MessageTooLarge)),
    }
}

/// What an owner signs in a token determines the listener's address, the
/// invitation and the certificate's pin.
pub proof fn law_token_binds_the_listener(
    address: Seq<char>,
    id: Seq<u8>,
    certificate: Seq<u8>,
    other_address: Seq<char>,
    other_id: Seq<u8>,
    other_certificate: Seq<u8>,
)
    requires
        encode_utf8(address).len() <= u64::MAX,
        encode_utf8(other_address).len() <= u64::MAX,
        id.len() == 16,
        other_id.len() == 16,
        blake3_hash(certificate).len() == 32,
        blake3_hash(other_certificate).len() == 32,
        framed(token_parts(address, id, certificate)) == framed(
            token_parts(other_address, other_id, other_certificate),
        ),
    ensures
        address == other_address,
        id == other_id,
        blake3_hash(certificate) == blake3_hash(other_certificate),
{
    let first = token_parts(address, id, certificate);
    let second = token_parts(other_address, other_id, other_certificate);
    law_framing_is_injective(first, second);
    assert(first[1] == second[1]);
    assert(first[2] == second[2]);
    assert(first[3] == second[3]);
    encode_utf8_decode_utf8(address);
    encode_utf8_decode_utf8(other_address);
}

/// A claim with a proof made from another secret's hash, another invitation or
/// another recipient is refused.
pub proof fn law_claim_needs_secret_and_device(
    claim: ClaimView,
    id: Seq<u8>,
    secret: Seq<u8>,
)
    requires
        claim.refusal(id, secret) is None,
    ensures
        claim.invitation_id == id,
        claim.secret_proof == blake3_keyed(secret, claim.base()),
        scoped_valid(
            claim.public_key,
            claim_domain(),
            claim.base() + claim.secret_proof,
            claim.signature,
        ),
{
}

/// A device that an owner invited joins: it opens its token, the owner accepts
/// its claim, it accepts the owner's grant, and its vault then holds the
/// capability and the content key of the invited epoch.
pub proof fn law_invited_device_joins(
    state: TrustView,
    device: MaterialView,
    token: TokenView,
    key: Seq<u8>,
    capability: CapabilityView,
    now: u64,
)
    requires
        token.refusal() is None,
        token.invitation.opened(token.invitation.authority(), token.secret, now) == Ok::<
            Seq<u8>,
            InvitationError,
        >(key),
        state.loaded_device() == Ok::<Option<MaterialView>, TrustFailure>(Some(device)),
        state.loaded_access(token.invitation.space) == Ok::<Option<AccessView>, TrustFailure>(None),
        !state.keys.contains_key((token.invitation.space, token.invitation.epoch)),
        number_refusal(now) is None,
        number_refusal(token.invitation.epoch) is None,
        capability.permission == token.invitation.permission,
        capability.authorize_refusal(
            token.invitation.authority(),
            ed25519_public(device.secret),
            Operation::Read,
            now,
        ) is None,
        ed25519_point(token.invitation.issuer),
    ensures
        join_refusal(state, token, now) is None,
        ({
            let claim = claimed(
                device.secret,
                ed25519_public(device.secret),
                token.invitation.id,
                token.secret,
                device.certificate,
            );
            scoped_valid(
                claim.public_key,
                claim_domain(),
                claim.base() + claim.secret_proof,
                claim.signature,
            ) ==> claim.refusal(token.invitation.id, token.secret) is None
        }),
        grant_refusal(state, token, 1, capability, now) is None,
        ({
            let access = AccessView { authority: token.invitation.authority(), capability };
            let owner = owner_of(token, now);
            &&& state.share_refusal(owner, access, now) is None
            &&& state.share_write_refusal(owner, access) is None
            &&& forall|after: TrustView| #[trigger]
                state.shares_space(after, owner, access, key) ==> after.loaded_credentials(
                    token.invitation.space,
                ) == Ok::<Option<(AccessView, Seq<u8>)>, TrustFailure>(Some((access, key)))
        }),
{
    let access = AccessView { authority: token.invitation.authority(), capability };
    let owner = owner_of(token, now);
    assert forall|after: TrustView| #[trigger]
        state.shares_space(after, owner, access, key) implies after.loaded_credentials(
        token.invitation.space,
    ) == Ok::<Option<(AccessView, Seq<u8>)>, TrustFailure>(Some((access, key))) by {
        law_accepted_space_is_read_back(state, after, owner, access, key);
    }
}

/// A token is accepted exactly where it has the first version and the issuer of
/// its invitation signed its address, invitation and certificate.
pub proof fn law_token_is_accepted_exactly(token: TokenView)
    ensures
        token.refusal() is None <==> token.version == 1 && scoped_valid(
            token.invitation.issuer,
            token_domain(),
            framed(
                token_parts(token.address, token.invitation.id, token.owner_certificate),
            ),
            token.transport_signature,
        ),
        token.refusal() == Some(ShareRefusal::UnsupportedToken) <==> token.version != 1,
{
}

/// A claim is accepted exactly where it has the first version, is for the
/// invitation, proves its secret and is signed by the device that it names.
pub proof fn law_claim_is_accepted_exactly(claim: ClaimView, id: Seq<u8>, secret: Seq<u8>)
    ensures
        ({
            let base = framed(
                claim_parts(claim.invitation_id, claim.public_key, claim.certificate),
            );
            let proved = claim.secret_proof == blake3_keyed(secret, base);
            let signed = scoped_valid(
                claim.public_key,
                claim_domain(),
                base + claim.secret_proof,
                claim.signature,
            );
            let own = claim.version == 1 && claim.invitation_id == id;
            &&& claim.refusal(id, secret) is None <==> own && proved && signed
            &&& claim.refusal(id, secret) == Some(ShareRefusal::OtherInvitation) <==> !own
            &&& claim.refusal(id, secret) == Some(ShareRefusal::NoSecretProof) <==> own && !proved
            &&& claim.refusal(id, secret) == Some(ShareRefusal::NoDeviceProof) <==> own && proved
                && !signed
        }),
{
}

/// A claim's signed parts tell the invitation, the device and the certificate
/// apart.
pub proof fn law_claim_binds_the_device(
    id: Seq<u8>,
    key: Seq<u8>,
    certificate: Seq<u8>,
    other_id: Seq<u8>,
    other_key: Seq<u8>,
    other_certificate: Seq<u8>,
)
    requires
        id.len() <= u64::MAX,
        other_id.len() <= u64::MAX,
        key.len() <= u64::MAX,
        other_key.len() <= u64::MAX,
        blake3_hash(certificate).len() == 32,
        blake3_hash(other_certificate).len() == 32,
        framed(claim_parts(id, key, certificate)) == framed(
            claim_parts(other_id, other_key, other_certificate),
        ),
    ensures
        id == other_id,
        key == other_key,
        blake3_hash(certificate) == blake3_hash(other_certificate),
{
    let first = claim_parts(id, key, certificate);
    let second = claim_parts(other_id, other_key, other_certificate);
    crate::bytes::law_framing_is_injective(first, second);
    assert(first[0] == second[0]);
    assert(first[1] == second[1]);
    assert(first[2] == second[2]);
}

/// An invitation is issued exactly for 1 second to 24 hours, by the device that
/// issues the space, as long as its end is a time. It then offers the permission
/// asked for, in the space's current epoch, from now until its lifetime ends.
pub proof fn law_invitation_is_issued_exactly(
    state: TrustView,
    space: SpaceId,
    permission: Permission,
    now: u64,
    ttl: u64,
    invitation: InvitationView,
    device: MaterialView,
    access: AccessView,
    key: Seq<u8>,
)
    requires
        state.loaded_device() == Ok::<Option<MaterialView>, TrustFailure>(Some(device)),
        state.loaded_credentials(space) == Ok::<Option<(AccessView, Seq<u8>)>, TrustFailure>(
            Some((access, key)),
        ),
    ensures
        invite_refusal(state, space, now, ttl) is None <==> 1 <= ttl <= 24 * 60 * 60
            && access.authority.issuer == ed25519_public(device.secret) && now + ttl <= u64::MAX,
        invite_refusal(state, space, now, ttl) is None && invites(
            state,
            space,
            permission,
            now,
            ttl,
            invitation,
        ) ==> {
            &&& invitation.version == 1
            &&& invitation.space == space
            &&& invitation.epoch == access.authority.epoch
            &&& invitation.issuer == ed25519_public(device.secret)
            &&& invitation.permission == permission
            &&& invitation.issued_at == now
            &&& invitation.expires_at == now + ttl
        },
{
}

/// A token is joined exactly where it is accepted, the vault has a device, the
/// invitation is valid now and opens to its key, and the vault has no authority
/// over the space yet.
pub proof fn law_token_is_joined_exactly(state: TrustView, token: TokenView, now: u64)
    ensures
        join_refusal(state, token, now) is None <==> {
            &&& token.refusal() is None
            &&& state.loaded_device() is Ok
            &&& state.loaded_device()->Ok_0 is Some
            &&& token.invitation.opened(
                (AuthorityView {
                    space: token.invitation.space,
                    issuer: token.invitation.issuer,
                    epoch: token.invitation.epoch,
                }),
                token.secret,
                now,
            ) is Ok
            &&& !state.access.contains_key(token.invitation.space)
        },
{
}

/// A grant is accepted exactly where it has the first version, gives the
/// permission that was offered, and authorizes the local device under the
/// authority of the invitation.
pub proof fn law_grant_is_accepted_exactly(
    state: TrustView,
    token: TokenView,
    version: u8,
    capability: CapabilityView,
    now: u64,
    device: MaterialView,
)
    requires
        state.loaded_device() == Ok::<Option<MaterialView>, TrustFailure>(Some(device)),
    ensures
        grant_refusal(state, token, version, capability, now) is None <==> {
            &&& version == 1
            &&& capability.permission == token.invitation.permission
            &&& capability.authorize_refusal(
                (AuthorityView {
                    space: token.invitation.space,
                    issuer: token.invitation.issuer,
                    epoch: token.invitation.epoch,
                }),
                ed25519_public(device.secret),
                Operation::Read,
                now,
            ) is None
        },
{
}

/// The owner of a shared space is recorded under the invitation's issuer with
/// the certificate of the token.
pub proof fn law_owner_is_the_issuer(token: TokenView, now: u64)
    ensures
        owner_of(token, now).public_key == token.invitation.issuer,
        owner_of(token, now).certificate == token.owner_certificate,
        owner_of(token, now).paired_at == now,
{
}

/// A device is a member exactly where a grant names it.
pub proof fn law_members_have_grants(current: Seq<CapabilityView>, device: Seq<u8>)
    ensures
        is_member(current, device) <==> exists|i: int|
            0 <= i < current.len() && (#[trigger] current[i]).subject == device,
{
}

} // verus!
