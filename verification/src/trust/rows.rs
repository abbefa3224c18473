//! The rows of a trust vault and what they say.

use super::error::{TrustError, TrustFailure};
use crate::authority::capability::{
    AuthorityView, Capability, CapabilityView, SpaceAuthority,
};
use crate::authority::payload::SpaceKey;
use crate::crypto::blake3_hash;
use crate::id::SpaceId;
use crate::identity::device::{device_id, DevicePublicKey};
use crate::identity::pairing::PairedPeer;
use crate::identity::user::{EventView, UserEvent};
use crate::net::certificate::{CertificatePin, PeerCertificate};
use crate::text::copy_bytes;
use vstd::prelude::*;

verus! {

/// The sealed credentials of the local device.
#[derive(Debug, PartialEq, Eq)]
pub struct DeviceRow {
    /// Public signing key.
    pub public_key: [u8; 32],
    /// DER certificate.
    pub certificate_der: Vec<u8>,
    /// Sealed signing secret and certificate key.
    pub sealed: Vec<u8>,
}

/// What a [`DeviceRow`] says.
#[verifier::ext_equal]
pub struct DeviceRowView {
    /// Public signing key.
    pub public_key: Seq<u8>,
    /// DER certificate.
    pub certificate: Seq<u8>,
    /// Sealed signing secret and certificate key.
    pub sealed: Seq<u8>,
}

impl View for DeviceRow {
    type V = DeviceRowView;

    open spec fn view(&self) -> DeviceRowView {
        DeviceRowView {
            public_key: self.public_key@,
            certificate: self.certificate_der@,
            sealed: self.sealed@,
        }
    }
}

/// An issued pairing invitation.
#[derive(Clone, Copy, Debug, PartialEq, Eq, Structural)]
pub struct InvitationRow {
    /// Last second of validity.
    pub expires_at: u64,
    /// When the invitation was redeemed.
    pub redeemed_at: Option<u64>,
}

/// Public trust information retained for a paired device.
#[derive(Debug, PartialEq, Eq)]
pub struct PeerRecord {
    /// Authenticated Ed25519 public identity.
    pub public_key: DevicePublicKey,
    /// Exact DER certificate pinned during pairing.
    pub certificate_der: Vec<u8>,
    /// Unix timestamp at which this record was admitted.
    pub paired_at: u64,
}

/// What a [`PeerRecord`] says.
#[verifier::ext_equal]
pub struct PeerView {
    /// Authenticated public identity.
    pub public_key: Seq<u8>,
    /// Exact DER certificate.
    pub certificate: Seq<u8>,
    /// Unix timestamp of admission.
    pub paired_at: u64,
}

impl View for PeerRecord {
    type V = PeerView;

    open spec fn view(&self) -> PeerView {
        PeerView {
            public_key: self.public_key@,
            certificate: self.certificate_der@,
            paired_at: self.paired_at,
        }
    }
}

impl Clone for PeerRecord {
    fn clone(&self) -> (copy: Self)
        ensures
            copy@ == self@,
    {
        PeerRecord {
            public_key: self.public_key,
            certificate_der: copy_bytes(self.certificate_der.as_slice()),
            paired_at: self.paired_at,
        }
    }
}

impl PeerRecord {
    /// Creates a durable record from a cryptographically confirmed pairing.
    pub fn from_pairing(peer: &PairedPeer, paired_at: u64) -> (record: Self)
        ensures
            record@ == (PeerView {
                public_key: peer@.public_key,
                certificate: peer@.transport_binding,
                paired_at,
            }),
    {
        PeerRecord {
            public_key: peer.public_key(),
            certificate_der: copy_bytes(peer.transport_binding()),
            paired_at,
        }
    }

    /// Returns the certificate pin used by authenticated QUIC.
    pub fn certificate_pin(&self) -> (pin: CertificatePin)
        ensures
            pin@ == blake3_hash(self@.certificate),
    {
        CertificatePin::from_certificate_der(self.certificate_der.as_slice())
    }

    /// Returns the public certificate accepted when connecting.
    pub fn peer_certificate(&self) -> (certificate: PeerCertificate)
        ensures
            certificate@ == self@.certificate,
    {
        PeerCertificate::from_der(copy_bytes(self.certificate_der.as_slice()))
    }
}

/// The authority record of a space.
#[derive(Debug, PartialEq, Eq)]
pub struct AccessRow {
    /// Trusted issuer.
    pub issuer: DevicePublicKey,
    /// Current epoch.
    pub epoch: u64,
    /// Capability of the local device.
    pub capability: Capability,
}

/// What an [`AccessRow`] says.
#[verifier::ext_equal]
pub struct AccessRowView {
    /// Trusted issuer.
    pub issuer: Seq<u8>,
    /// Current epoch.
    pub epoch: u64,
    /// Capability of the local device.
    pub capability: CapabilityView,
}

impl View for AccessRow {
    type V = AccessRowView;

    open spec fn view(&self) -> AccessRowView {
        AccessRowView {
            issuer: self.issuer@,
            epoch: self.epoch,
            capability: self.capability@,
        }
    }
}

/// A recorded share invitation.
#[derive(Debug, PartialEq, Eq)]
pub struct ShareRow {
    /// Hash of the encoded invitation.
    pub offer_hash: [u8; 32],
    /// Last second of validity.
    pub expires_at: u64,
    /// When the invitation was redeemed.
    pub redeemed_at: Option<u64>,
    /// Device that redeemed the invitation.
    pub subject: Option<DevicePublicKey>,
    /// Capability that the redemption granted.
    pub capability: Option<Capability>,
}

/// What a [`ShareRow`] says.
#[verifier::ext_equal]
pub struct ShareRowView {
    /// Hash of the encoded invitation.
    pub offer_hash: Seq<u8>,
    /// Last second of validity.
    pub expires_at: u64,
    /// When the invitation was redeemed.
    pub redeemed_at: Option<u64>,
    /// Device that redeemed the invitation.
    pub subject: Option<Seq<u8>>,
    /// Capability that the redemption granted.
    pub capability: Option<CapabilityView>,
}

impl View for ShareRow {
    type V = ShareRowView;

    open spec fn view(&self) -> ShareRowView {
        ShareRowView {
            offer_hash: self.offer_hash@,
            expires_at: self.expires_at,
            redeemed_at: self.redeemed_at,
            subject: match self.subject {
                Some(subject) => Some(subject@),
                None => None,
            },
            capability: match self.capability {
                Some(capability) => Some(capability@),
                None => None,
            },
        }
    }
}

/// One member of a space's forward roster.
#[derive(Debug, PartialEq, Eq)]
pub struct MemberRow {
    /// Epoch of the grant.
    pub epoch: u64,
    /// Current grant.
    pub capability: Capability,
}

/// What a [`MemberRow`] says.
#[verifier::ext_equal]
pub struct MemberRowView {
    /// Epoch of the grant.
    pub epoch: u64,
    /// Current grant.
    pub capability: CapabilityView,
}

impl View for MemberRow {
    type V = MemberRowView;

    open spec fn view(&self) -> MemberRowView {
        MemberRowView { epoch: self.epoch, capability: self.capability@ }
    }
}

/// One event of the local user's history.
#[derive(Debug, PartialEq, Eq)]
pub struct EventRow {
    /// Digest of the event.
    pub digest: [u8; 32],
    /// Signed event.
    pub event: UserEvent,
}

/// What an [`EventRow`] says.
#[verifier::ext_equal]
pub struct EventRowView {
    /// Digest of the event.
    pub digest: Seq<u8>,
    /// Signed event.
    pub event: EventView,
}

impl View for EventRow {
    type V = EventRowView;

    open spec fn view(&self) -> EventRowView {
        EventRowView { digest: self.digest@, event: self.event@ }
    }
}

/// What a sequence of event rows says.
pub open spec fn event_row_views(rows: Seq<EventRow>) -> Seq<EventRowView> {
    rows.map_values(|row: EventRow| row@)
}

/// Durable local authority material for one shared space.
#[derive(Debug, PartialEq, Eq)]
pub struct SpaceAccess {
    /// Trusted issuer and current forward-looking epoch.
    pub authority: SpaceAuthority,
    /// Capability presented by this device during synchronization.
    pub capability: Capability,
}

/// What a [`SpaceAccess`] says.
#[verifier::ext_equal]
pub struct AccessView {
    /// Trusted issuer and current epoch.
    pub authority: AuthorityView,
    /// Capability presented by this device.
    pub capability: CapabilityView,
}

impl View for SpaceAccess {
    type V = AccessView;

    open spec fn view(&self) -> AccessView {
        AccessView { authority: self.authority@, capability: self.capability@ }
    }
}

impl Clone for SpaceAccess {
    fn clone(&self) -> (copy: Self)
        ensures
            copy@ == self@,
    {
        SpaceAccess { authority: self.authority, capability: self.capability.clone() }
    }
}

impl AccessView {
    /// Whether the capability names exactly the authority's space, issuer and
    /// epoch.
    pub open spec fn coherent(self) -> bool {
        &&& self.capability.space == self.authority.space
        &&& self.capability.issuer == self.authority.issuer
        &&& self.capability.epoch == self.authority.epoch
    }

    /// The authority record that the access leaves.
    pub open spec fn row(self) -> AccessRowView {
        AccessRowView {
            issuer: self.authority.issuer,
            epoch: self.authority.epoch,
            capability: self.capability,
        }
    }
}

impl SpaceAccess {
    /// Returns whether the capability names exactly the authority.
    pub(crate) fn is_coherent(&self) -> (coherent: bool)
        ensures
            coherent == self@.coherent(),
    {
        self.capability.space == self.authority.space && self.capability.issuer.same(
            &self.authority.issuer,
        ) && self.capability.epoch == self.authority.epoch
    }

    /// Copies the authority record that the access leaves.
    pub(crate) fn to_row(&self) -> (row: AccessRow)
        ensures
            row@ == self@.row(),
    {
        AccessRow {
            issuer: self.authority.issuer,
            epoch: self.authority.epoch,
            capability: self.capability.clone(),
        }
    }
}

/// Complete local credentials needed to synchronize one shared space.
pub struct SpaceCredentials {
    access: SpaceAccess,
    key: SpaceKey,
}

impl SpaceCredentials {
    /// The authority and the capability.
    pub closed spec fn granted(self) -> AccessView {
        self.access@
    }

    /// The content key of the current epoch.
    pub closed spec fn content_key(self) -> Seq<u8> {
        self.key@
    }

    /// Combines structurally matching authority and epoch key material.
    pub fn new(access: SpaceAccess, key: SpaceKey) -> (credentials: Result<Self, TrustError>)
        ensures
            match credentials {
                Ok(credentials) => {
                    &&& access@.coherent()
                    &&& credentials.granted() == access@
                    &&& credentials.content_key() == key@
                },
                Err(error) => !access@.coherent() && error@
                    == TrustFailure::InconsistentCapability,
            },
    {
        if !access.is_coherent() {
            return Err(TrustError::InconsistentCapability);
        }
        Ok(SpaceCredentials { access, key })
    }

    /// Returns the trusted authority record.
    pub fn authority(&self) -> (authority: SpaceAuthority)
        ensures
            authority@ == self.granted().authority,
    {
        self.access.authority
    }

    /// Returns the capability presented for this local device.
    pub fn capability(&self) -> (capability: &Capability)
        ensures
            capability@ == self.granted().capability,
    {
        &self.access.capability
    }

    /// Returns the content key for the current authority epoch.
    pub fn key(&self) -> (key: &SpaceKey)
        ensures
            key@ == self.content_key(),
    {
        &self.key
    }
}

/// The content of a trust vault's tables and its wrapping key.
#[verifier::ext_equal]
pub struct TrustView {
    /// Wrapping key.
    pub key: Seq<u8>,
    /// Credentials of the local device.
    pub device: Option<DeviceRowView>,
    /// Issued pairing invitations.
    pub invitations: Map<Seq<u8>, InvitationRow>,
    /// Paired devices by device identity.
    pub peers: Map<Seq<u8>, PeerView>,
    /// Spaces authenticated while linking with a device.
    pub peer_spaces: Set<(Seq<u8>, SpaceId)>,
    /// Authority records of spaces.
    pub access: Map<SpaceId, AccessRowView>,
    /// Sealed content keys of space epochs.
    pub keys: Map<(SpaceId, u64), Seq<u8>>,
    /// Recorded share invitations.
    pub shares: Map<Seq<u8>, ShareRowView>,
    /// Forward rosters of spaces.
    pub members: Map<(SpaceId, Seq<u8>), MemberRowView>,
    /// Local user.
    pub user: Option<Seq<u8>>,
    /// History of the local user.
    pub events: Seq<EventRowView>,
}

/// The greatest number that a durable vault keeps.
pub const MAX_STORED: u64 = 9_223_372_036_854_775_807;

/// Why a number cannot be kept durably.
pub open spec fn number_refusal(value: u64) -> Option<TrustFailure> {
    if value > 9223372036854775807 {
        Some(TrustFailure::ProtectedMaterial)
    } else {
        None
    }
}

/// Refuses a number that cannot be kept durably.
pub(crate) fn check_number(value: u64) -> (result: Result<(), TrustError>)
    ensures
        super::error::trust_refused(result) == number_refusal(value),
{
    if value > MAX_STORED {
        return Err(TrustError::ProtectedMaterial);
    }
    Ok(())
}

impl TrustView {
    /// The vault with a peer admitted and spaces linked to it.
    pub open spec fn with_peer(self, peer: PeerView, spaces: Seq<SpaceId>) -> TrustView {
        let id = device_id(peer.public_key);
        TrustView {
            peers: self.peers.insert(id, peer),
            peer_spaces: self.peer_spaces.union(
                Set::new(|link: (Seq<u8>, SpaceId)| link.0 == id && spaces.contains(link.1)),
            ),
            ..self
        }
    }
}

} // verus!
