//! The trust vault: device credentials, peers and pairing invitations.

pub mod shares;
pub mod spaces;
pub mod users;

use super::error::{trust_refused, TrustError, TrustFailure};
use super::material::{
    decode_private_material, decoded_material, device_aad, device_data, encode_private_material,
    private_material, seal_with, seals, unseal, unsealed, DeviceMaterial, MaterialView, WrappingKey,
};
use super::recovery::{recovered, RecoveryBundle, RecoverySecret};
use super::rows::{
    check_number, event_row_views, number_refusal, AccessRow, AccessRowView, DeviceRow,
    DeviceRowView, EventRow, InvitationRow, MemberRow, MemberRowView, PeerRecord, PeerView,
    ShareRow, ShareRowView, TrustView,
};
use crate::crypto;
use crate::crypto::{ed25519_point, ed25519_public};
use crate::id::SpaceId;
use crate::identity::device::{device_id, DeviceIdentity, DevicePublicKey, PairingError};
use crate::net::certificate::QuicCertificate;
use crate::ordmap::{ascending, Key, OrdMap};
use crate::text::{copy_bytes, owned, same_bytes, same_text};
use vstd::prelude::*;
use vstd::string::*;

verus! {

/// The version of the vault's tables.
pub const VAULT_VERSION: u32 = 6;

/// What is done with the version that a vault records.
#[derive(Clone, Copy, Debug, PartialEq, Eq, Structural)]
pub enum VersionStep {
    /// Record the current version in a new vault.
    Record,
    /// Keep the recorded version.
    Keep,
    /// Replace an older version that the current tables extend.
    Upgrade,
}

/// Accepts the version that a vault records.
pub fn check_vault_version(found: Option<u32>) -> (step: Result<VersionStep, TrustError>)
    ensures
        match found {
            None => step == Ok::<VersionStep, TrustError>(VersionStep::Record),
            Some(version) => if version == 6 {
                step == Ok::<VersionStep, TrustError>(VersionStep::Keep)
            } else if 1 <= version <= 5 {
                step == Ok::<VersionStep, TrustError>(VersionStep::Upgrade)
            } else {
                step matches Err(error) && error@ == (TrustFailure::UnsupportedVersion {
                    found: version,
                    expected: 6,
                })
            },
        },
{
    match found {
        None => Ok(VersionStep::Record),
        Some(version) => {
            if version == VAULT_VERSION {
                Ok(VersionStep::Keep)
            } else if version >= 1 && version <= 5 {
                Ok(VersionStep::Upgrade)
            } else {
                Err(TrustError::UnsupportedVersion { found: version, expected: VAULT_VERSION })
            }
        },
    }
}

/// The tables of a trust vault.
#[derive(Debug)]
pub struct TrustRows {
    /// Credentials of the local device.
    pub device: Option<DeviceRow>,
    /// Issued pairing invitations.
    pub invitations: OrdMap<[u8; 16], InvitationRow>,
    /// Paired devices by device identity.
    pub peers: OrdMap<[u8; 32], PeerRecord>,
    /// Spaces authenticated while linking with a device.
    pub peer_spaces: OrdMap<([u8; 32], SpaceId), ()>,
    /// Authority records of spaces.
    pub access: OrdMap<SpaceId, AccessRow>,
    /// Sealed content keys of space epochs.
    pub keys: OrdMap<(SpaceId, u64), Vec<u8>>,
    /// Recorded share invitations.
    pub shares: OrdMap<[u8; 16], ShareRow>,
    /// Forward rosters of spaces.
    pub members: OrdMap<(SpaceId, DevicePublicKey), MemberRow>,
    /// Local user.
    pub user: Option<[u8; 32]>,
    /// History of the local user.
    pub events: Vec<EventRow>,
}

/// An encrypted trust vault.
pub struct TrustStore {
    pub(crate) rows: TrustRows,
    pub(crate) wrapping_key: WrappingKey,
}

/// What a table of peers says.
pub open spec fn peer_map(peers: Map<Seq<u8>, PeerRecord>) -> Map<Seq<u8>, PeerView> {
    peers.map_values(|peer: PeerRecord| peer@)
}

/// What a table of authority records says.
pub open spec fn access_map(access: Map<SpaceId, AccessRow>) -> Map<SpaceId, AccessRowView> {
    access.map_values(|row: AccessRow| row@)
}

/// What a table of sealed keys says.
pub open spec fn key_map(keys: Map<(SpaceId, u64), Vec<u8>>) -> Map<(SpaceId, u64), Seq<u8>> {
    keys.map_values(|sealed: Vec<u8>| sealed@)
}

/// What a table of share invitations says.
pub open spec fn share_map(shares: Map<Seq<u8>, ShareRow>) -> Map<Seq<u8>, ShareRowView> {
    shares.map_values(|row: ShareRow| row@)
}

/// What a table of members says.
pub open spec fn member_map(members: Map<(SpaceId, Seq<u8>), MemberRow>) -> Map<
    (SpaceId, Seq<u8>),
    MemberRowView,
> {
    members.map_values(|row: MemberRow| row@)
}

impl TrustRows {
    /// The tables are in key order.
    pub open spec fn wf(self) -> bool {
        &&& self.invitations.wf()
        &&& self.peers.wf()
        &&& self.peer_spaces.wf()
        &&& self.access.wf()
        &&& self.keys.wf()
        &&& self.shares.wf()
        &&& self.members.wf()
    }

    /// What the tables say, with a wrapping key.
    pub open spec fn shown(self, key: Seq<u8>) -> TrustView {
        TrustView {
            key,
            device: match self.device {
                Some(row) => Some(row@),
                None => None,
            },
            invitations: self.invitations@,
            peers: peer_map(self.peers@),
            peer_spaces: self.peer_spaces@.dom(),
            access: access_map(self.access@),
            keys: key_map(self.keys@),
            shares: share_map(self.shares@),
            members: member_map(self.members@),
            user: match self.user {
                Some(user) => Some(user@),
                None => None,
            },
            events: event_row_views(self.events@),
        }
    }
}

/// A vault without any row.
pub open spec fn empty_vault(key: Seq<u8>) -> TrustView {
    TrustView {
        key,
        device: None,
        invitations: Map::empty(),
        peers: Map::empty(),
        peer_spaces: Set::empty(),
        access: Map::empty(),
        keys: Map::empty(),
        shares: Map::empty(),
        members: Map::empty(),
        user: None,
        events: Seq::empty(),
    }
}

impl View for TrustStore {
    type V = TrustView;

    closed spec fn view(&self) -> TrustView {
        self.rows.shown(self.wrapping_key@)
    }
}

/// The credentials that a device row opens to, or why it does not.
pub open spec fn loaded(key: Seq<u8>, row: DeviceRowView) -> Result<MaterialView, TrustFailure> {
    match unsealed(key, device_data(row.public_key, row.certificate), row.sealed) {
        None => Err(TrustFailure::ProtectedMaterial),
        Some(plaintext) => match decoded_material(plaintext) {
            None => Err(TrustFailure::ProtectedMaterial),
            Some((secret, certificate_key)) => if ed25519_public(secret) != row.public_key {
                Err(TrustFailure::ProtectedMaterial)
            } else {
                Ok(MaterialView { secret, certificate: row.certificate, certificate_key })
            },
        },
    }
}

impl TrustView {
    /// The local credentials, if initialized, or why they do not open.
    pub open spec fn loaded_device(self) -> Result<Option<MaterialView>, TrustFailure> {
        match self.device {
            None => Ok(None),
            Some(row) => match loaded(self.key, row) {
                Ok(material) => Ok(Some(material)),
                Err(error) => Err(error),
            },
        }
    }

    /// The credentials that an operation needs, or why it cannot have them.
    pub open spec fn needed_device(self) -> Result<MaterialView, TrustFailure> {
        match self.loaded_device() {
            Err(error) => Err(error),
            Ok(None) => Err(TrustFailure::DeviceNotInitialized),
            Ok(Some(material)) => Ok(material),
        }
    }

    /// Why an invitation cannot be redeemed by a peer at a time.
    pub open spec fn redeem_refusal(self, id: Seq<u8>, now: u64, peer: PeerView) -> Option<
        TrustFailure,
    > {
        if number_refusal(now) is Some {
            number_refusal(now)
        } else if !self.invitations.contains_key(id) || self.invitations[id].redeemed_at is Some
            || self.invitations[id].expires_at < now {
            Some(TrustFailure::InvitationUnavailable)
        } else {
            number_refusal(peer.paired_at)
        }
    }

    /// The vault in which an invitation was redeemed by a peer.
    pub open spec fn redeemed(
        self,
        id: Seq<u8>,
        now: u64,
        peer: PeerView,
        spaces: Seq<SpaceId>,
    ) -> TrustView {
        let redeemed = TrustView {
            invitations: self.invitations.insert(
                id,
                InvitationRow {
                    expires_at: self.invitations[id].expires_at,
                    redeemed_at: Some(now),
                },
            ),
            ..self
        };
        redeemed.with_peer(peer, spaces)
    }
}

/// What a retained peer record gives back, or why it is refused.
pub open spec fn decoded_peer(peer: PeerView) -> Result<PeerView, TrustFailure> {
    if ed25519_point(peer.public_key) {
        Ok(peer)
    } else {
        Err(TrustFailure::Identity(PairingError::InvalidMessage))
    }
}

/// Copies a retained peer record whose key is well-formed.
pub(crate) fn decode_peer(peer: &PeerRecord) -> (decoded: Result<PeerRecord, TrustError>)
    ensures
        match decoded {
            Ok(decoded) => decoded_peer(peer@) == Ok::<PeerView, TrustFailure>(decoded@),
            Err(error) => decoded_peer(peer@) == Err::<PeerView, TrustFailure>(error@),
        },
{
    match DevicePublicKey::from_bytes(peer.public_key.0) {
        Ok(_) => Ok(peer.clone()),
        Err(error) => Err(TrustError::Identity(error)),
    }
}

impl TrustStore {
    /// The tables are in key order.
    pub closed spec fn wf(self) -> bool {
        self.rows.wf()
    }

    /// Opens an isolated empty vault.
    pub fn open_in_memory(wrapping_key: WrappingKey) -> (store: Self)
        ensures
            store.wf(),
            store@ == empty_vault(wrapping_key@),
    {
        let store = TrustStore {
            rows: TrustRows {
                device: None,
                invitations: OrdMap::new(),
                peers: OrdMap::new(),
                peer_spaces: OrdMap::new(),
                access: OrdMap::new(),
                keys: OrdMap::new(),
                shares: OrdMap::new(),
                members: OrdMap::new(),
                user: None,
                events: Vec::new(),
            },
            wrapping_key,
        };
        assert(store@ =~= empty_vault(wrapping_key@));
        store
    }

    /// Opens a vault on restored tables.
    pub fn restore(rows: TrustRows, wrapping_key: WrappingKey) -> (store: Self)
        requires
            rows.wf(),
        ensures
            store.wf(),
            store@ == rows.shown(wrapping_key@),
    {
        TrustStore { rows, wrapping_key }
    }

    /// Closes the vault and returns its tables.
    pub fn into_rows(self) -> (rows: TrustRows)
        requires
            self.wf(),
        ensures
            rows.wf(),
            rows.shown(self@.key) == self@,
    {
        self.rows
    }

    /// Returns the vault's tables.
    pub fn rows(&self) -> (rows: &TrustRows)
        requires
            self.wf(),
        ensures
            rows.wf(),
            self@ == rows.shown(self@.key),
    {
        &self.rows
    }

    /// Seals and durably stores the local credentials exactly once.
    pub fn initialize_device(&mut self, material: &DeviceMaterial) -> (result: Result<(), TrustError>)
        requires
            old(self).wf(),
        ensures
            final(self).wf(),
            match result {
                Ok(_) => {
                    &&& old(self)@.device is None
                    &&& final(self)@.device matches Some(row)
                    &&& row.public_key == material.identity.public()
                    &&& row.certificate == material@.certificate
                    &&& seals(
                        old(self)@.key,
                        device_data(row.public_key, row.certificate),
                        private_material(material@.secret, material@.certificate_key),
                        row.sealed,
                    )
                    &&& final(self)@ == (TrustView { device: Some(row), ..old(self)@ })
                    &&& final(self)@.loaded_device() == Ok::<Option<MaterialView>, TrustFailure>(
                        Some(material@),
                    )
                },
                Err(error) => {
                    &&& final(self)@ == old(self)@
                    &&& if old(self)@.device is Some {
                        error@ == TrustFailure::AlreadyInitialized
                    } else {
                        ||| error@ == TrustFailure::Randomness
                        ||| error@ == TrustFailure::ProtectedMaterial
                            && material@.certificate_key.len() + 40 > 274877906816
                    }
                },
            },
    {
        self.initialize_drawn_device(material, crypto::random::<24>())
    }

    /// Seals and durably stores the local credentials exactly once, with the
    /// nonce that seals them, unless none could be drawn.
    pub fn initialize_drawn_device(&mut self, material: &DeviceMaterial, drawn: Option<[u8; 24]>) -> (result:
        Result<(), TrustError>)
        requires
            old(self).wf(),
        ensures
            final(self).wf(),
            trust_refused(result) == if old(self)@.device is Some {
                Some(TrustFailure::AlreadyInitialized)
            } else if drawn is None {
                Some(TrustFailure::Randomness)
            } else if material@.certificate_key.len() + 40 > 274877906816 {
                Some(TrustFailure::ProtectedMaterial)
            } else {
                None
            },
            result is Err ==> final(self)@ == old(self)@,
            result is Ok ==> final(self)@ == (TrustView {
                device: Some(
                    DeviceRowView {
                        public_key: material.identity.public(),
                        certificate: material@.certificate,
                        sealed: drawn->0@ + crypto::aead_sealed(
                            old(self)@.key,
                            drawn->0@,
                            device_data(material.identity.public(), material@.certificate),
                            private_material(material@.secret, material@.certificate_key),
                        ),
                    },
                ),
                ..old(self)@
            }),
            result is Ok ==> seals(
                old(self)@.key,
                device_data(material.identity.public(), material@.certificate),
                private_material(material@.secret, material@.certificate_key),
                final(self)@.device->0.sealed,
            ),
            result is Ok ==> final(self)@.loaded_device() == Ok::<
                Option<MaterialView>,
                TrustFailure,
            >(Some(material@)),
    {
        if self.rows.device.is_some() {
            return Err(TrustError::AlreadyInitialized);
        }
        let nonce = match drawn {
            None => {
                return Err(TrustError::Randomness);
            },
            Some(nonce) => nonce,
        };
        let public_key = material.identity.public_key().to_bytes();
        let certificate_der = material.certificate.certificate_der();
        let secret = material.identity.secret_bytes();
        let plaintext = encode_private_material(&secret, material.certificate.private_key_der());
        let data = device_aad(&public_key, certificate_der);
        proof {
            crate::bytes::lemma_be_len(material@.certificate_key.len(), 8);
        }
        let sealed = seal_with(&self.wrapping_key, data.as_slice(), plaintext.as_slice(), nonce)?;
        proof {
            super::material::law_private_material_round_trip(
                material@.secret,
                material@.certificate_key,
            );
        }
        self.rows.device = Some(
            DeviceRow { public_key, certificate_der: copy_bytes(certificate_der), sealed },
        );
        Ok(())
    }

    /// Opens and validates the local credentials, if initialized.
    pub fn load_device(&self) -> (material: Result<Option<DeviceMaterial>, TrustError>)
        ensures
            match material {
                Ok(Some(material)) => self@.loaded_device() == Ok::<
                    Option<MaterialView>,
                    TrustFailure,
                >(Some(material@)),
                Ok(None) => self@.loaded_device() == Ok::<Option<MaterialView>, TrustFailure>(
                    None,
                ),
                Err(error) => self@.loaded_device() == Err::<Option<MaterialView>, TrustFailure>(
                    error@,
                ),
            },
    {
        let row = match &self.rows.device {
            None => {
                return Ok(None);
            },
            Some(row) => row,
        };
        let data = device_aad(&row.public_key, row.certificate_der.as_slice());
        let plaintext = match unseal(&self.wrapping_key, data.as_slice(), row.sealed.as_slice()) {
            Ok(plaintext) => plaintext,
            Err(error) => {
                return Err(error);
            },
        };
        let (secret, certificate_key) = match decode_private_material(plaintext.as_slice()) {
            Ok(decoded) => decoded,
            Err(error) => {
                return Err(error);
            },
        };
        let identity = DeviceIdentity::from_secret_bytes(&secret);
        let public = identity.public_key();
        if !same_bytes(public.0.as_slice(), row.public_key.as_slice()) {
            return Err(TrustError::ProtectedMaterial);
        }
        let certificate = QuicCertificate::from_der(
            copy_bytes(row.certificate_der.as_slice()),
            certificate_key,
        );
        Ok(Some(DeviceMaterial { identity, certificate }))
    }

    /// Opens the local credentials that an operation needs.
    pub(crate) fn need_device(&self) -> (material: Result<DeviceMaterial, TrustError>)
        ensures
            match material {
                Ok(material) => self@.needed_device() == Ok::<MaterialView, TrustFailure>(
                    material@,
                ),
                Err(error) => self@.needed_device() == Err::<MaterialView, TrustFailure>(error@),
            },
    {
        match self.load_device() {
            Err(error) => Err(error),
            Ok(None) => Err(TrustError::DeviceNotInitialized),
            Ok(Some(material)) => Ok(material),
        }
    }

    /// Records a newly issued invitation before it becomes externally visible.
    pub fn record_invitation(&mut self, invitation_id: [u8; 16], expires_at: u64) -> (result: Result<
        (),
        TrustError,
    >)
        requires
            old(self).wf(),
        ensures
            final(self).wf(),
            trust_refused(result) == if number_refusal(expires_at) is Some {
                number_refusal(expires_at)
            } else if old(self)@.invitations.contains_key(invitation_id@) {
                Some(
                    TrustFailure::Storage(
                        "UNIQUE constraint failed: invitations.invitation_id"@,
                    ),
                )
            } else {
                None
            },
            final(self)@ == if result is Ok {
                TrustView {
                    invitations: old(self)@.invitations.insert(
                        invitation_id@,
                        InvitationRow { expires_at, redeemed_at: None },
                    ),
                    ..old(self)@
                }
            } else {
                old(self)@
            },
    {
        check_number(expires_at)?;
        if self.rows.invitations.contains(&invitation_id) {
            return Err(
                TrustError::Storage(
                    owned("UNIQUE constraint failed: invitations.invitation_id"),
                ),
            );
        }
        let former = self.rows.invitations.insert(
            invitation_id,
            InvitationRow { expires_at, redeemed_at: None },
        );
        Ok(())
    }

    /// Atomically redeems an invitation and admits its authenticated peer.
    pub fn redeem_invitation(&mut self, invitation_id: [u8; 16], now: u64, peer: &PeerRecord) -> (result:
        Result<(), TrustError>)
        requires
            old(self).wf(),
        ensures
            final(self).wf(),
            trust_refused(result) == old(self)@.redeem_refusal(invitation_id@, now, peer@),
            final(self)@ == if result is Ok {
                old(self)@.redeemed(invitation_id@, now, peer@, Seq::empty())
            } else {
                old(self)@
            },
    {
        let spaces: Vec<SpaceId> = Vec::new();
        assert(spaces@ =~= Seq::<SpaceId>::empty());
        self.redeem_invitation_with_spaces(invitation_id, now, peer, spaces.as_slice())
    }

    /// Atomically redeems an invitation and admits its peer and linked spaces.
    pub fn redeem_invitation_with_spaces(
        &mut self,
        invitation_id: [u8; 16],
        now: u64,
        peer: &PeerRecord,
        spaces: &[SpaceId],
    ) -> (result: Result<(), TrustError>)
        requires
            old(self).wf(),
        ensures
            final(self).wf(),
            trust_refused(result) == old(self)@.redeem_refusal(invitation_id@, now, peer@),
            final(self)@ == if result is Ok {
                old(self)@.redeemed(invitation_id@, now, peer@, spaces@)
            } else {
                old(self)@
            },
    {
        check_number(now)?;
        let expires_at: u64 = match self.rows.invitations.get(&invitation_id) {
            None => {
                return Err(TrustError::InvitationUnavailable);
            },
            Some(row) => {
                if row.redeemed_at.is_some() || row.expires_at < now {
                    return Err(TrustError::InvitationUnavailable);
                }
                row.expires_at
            },
        };
        check_number(peer.paired_at)?;
        let former = self.rows.invitations.insert(
            invitation_id,
            InvitationRow { expires_at, redeemed_at: Some(now) },
        );
        self.link_peer(peer, spaces);
        Ok(())
    }

    /// Admits the inviter after the joining side confirms the pairing.
    ///
    /// The joining side has no locally issued invitation to redeem. It calls
    /// this only after verifying the inviter's final key confirmation.
    pub fn admit_peer(&mut self, peer: &PeerRecord) -> (result: Result<(), TrustError>)
        requires
            old(self).wf(),
        ensures
            final(self).wf(),
            trust_refused(result) == number_refusal(peer@.paired_at),
            final(self)@ == if result is Ok {
                old(self)@.with_peer(peer@, Seq::empty())
            } else {
                old(self)@
            },
    {
        let spaces: Vec<SpaceId> = Vec::new();
        assert(spaces@ =~= Seq::<SpaceId>::empty());
        self.admit_peer_with_spaces(peer, spaces.as_slice())
    }

    /// Admits a confirmed peer and its authenticated linked-space context.
    pub fn admit_peer_with_spaces(&mut self, peer: &PeerRecord, spaces: &[SpaceId]) -> (result: Result<
        (),
        TrustError,
    >)
        requires
            old(self).wf(),
        ensures
            final(self).wf(),
            trust_refused(result) == number_refusal(peer@.paired_at),
            final(self)@ == if result is Ok {
                old(self)@.with_peer(peer@, spaces@)
            } else {
                old(self)@
            },
    {
        check_number(peer.paired_at)?;
        self.link_peer(peer, spaces);
        Ok(())
    }

    /// Inserts or replaces a peer and links spaces to it.
    pub(crate) fn link_peer(&mut self, peer: &PeerRecord, spaces: &[SpaceId])
        requires
            old(self).wf(),
        ensures
            final(self).wf(),
            final(self)@ == old(self)@.with_peer(peer@, spaces@),
    {
        let ghost start = self@;
        let id = peer.public_key.id();
        let former = self.rows.peers.insert(id.0, peer.clone());
        proof {
            assert(self@.peers =~= start.peers.insert(id@, peer@));
        }
        let ghost admitted = TrustView { peers: start.peers.insert(id@, peer@), ..start };
        let mut index: usize = 0;
        proof {
            assert(spaces@.take(0) =~= Seq::<SpaceId>::empty());
            assert(linked(start.peer_spaces, id@, spaces@.take(0)) =~= start.peer_spaces);
        }
        while index < spaces.len()
            invariant
                index <= spaces@.len(),
                self.wf(),
                admitted == (TrustView { peers: start.peers.insert(id@, peer@), ..start }),
                self@ == (TrustView {
                    peer_spaces: linked(start.peer_spaces, id@, spaces@.take(index as int)),
                    ..admitted
                }),
            decreases spaces@.len() - index,
        {
            let ghost before = self@.peer_spaces;
            let linked_before = self.rows.peer_spaces.insert((id.0, spaces[index]), ());
            proof {
                let shorter = spaces@.take(index as int);
                let longer = spaces@.take(index + 1);
                assert(longer =~= shorter.push(spaces@[index as int]));
                assert(self@.peer_spaces =~= before.insert((id@, spaces@[index as int])));
                assert forall|link: (Seq<u8>, SpaceId)|
                    linked(start.peer_spaces, id@, longer).contains(link)
                        <==> before.insert((id@, spaces@[index as int])).contains(link) by {
                    assert(longer[index as int] == spaces@[index as int]);
                    if shorter.contains(link.1) {
                        let i = choose|i: int| 0 <= i < shorter.len() && shorter[i] == link.1;
                        assert(longer[i] == link.1);
                    }
                    if longer.contains(link.1) && link.1 != spaces@[index as int] {
                        let i = choose|i: int| 0 <= i < longer.len() && longer[i] == link.1;
                        assert(shorter[i] == link.1);
                    }
                }
                assert(self@.peer_spaces =~= linked(start.peer_spaces, id@, longer));
            }
            index += 1;
        }
        assert(spaces@.take(spaces@.len() as int) =~= spaces@);
        assert(self@ =~= start.with_peer(peer@, spaces@));
    }

    /// Returns a paired device's public trust record.
    pub fn peer(&self, public_key: DevicePublicKey) -> (peer: Result<
        Option<PeerRecord>,
        TrustError,
    >)
        requires
            self.wf(),
        ensures
            ({
                let id = device_id(public_key@);
                match peer {
                    Ok(None) => !self@.peers.contains_key(id),
                    Ok(Some(peer)) => self@.peers.contains_key(id) && decoded_peer(
                        self@.peers[id],
                    ) == Ok::<PeerView, TrustFailure>(peer@),
                    Err(error) => self@.peers.contains_key(id) && decoded_peer(self@.peers[id])
                        == Err::<PeerView, TrustFailure>(error@),
                }
            }),
    {
        let id = public_key.id();
        match self.rows.peers.get(&id.0) {
            None => Ok(None),
            Some(row) => match decode_peer(row) {
                Ok(peer) => Ok(Some(peer)),
                Err(error) => Err(error),
            },
        }
    }

    /// Lists paired devices in stable device-ID order.
    pub fn peers(&self) -> (peers: Result<Vec<PeerRecord>, TrustError>)
        requires
            self.wf(),
        ensures
            match peers {
                Ok(peers) => lists_peers(
                    self@.peers,
                    peers@.map_values(|peer: PeerRecord| peer@),
                ),
                Err(error) => {
                    &&& error@ == TrustFailure::Identity(PairingError::InvalidMessage)
                    &&& exists|id: Seq<u8>|
                        self@.peers.contains_key(id) && !ed25519_point(
                            (#[trigger] self@.peers[id]).public_key,
                        )
                },
            },
    {
        let ghost keys = self.rows.peers.keys();
        let mut peers: Vec<PeerRecord> = Vec::new();
        let mut index: usize = 0;
        proof {
            self.rows.peers.lemma_keys();
        }
        while index < self.rows.peers.len()
            invariant
                self.wf(),
                keys == self.rows.peers.keys(),
                index <= keys.len(),
                peers_keyed(
                    self@.peers,
                    keys.take(index as int),
                    peers@.map_values(|peer: PeerRecord| peer@),
                ),
            decreases keys.len() - index,
        {
            let row = self.rows.peers.value_at(index);
            assert(self@.peers[keys[index as int]] == row@);
            let peer = match decode_peer(row) {
                Ok(peer) => peer,
                Err(error) => {
                    return Err(error);
                },
            };
            let ghost before = peers@.map_values(|peer: PeerRecord| peer@);
            proof {
                assert(self@.peers.contains_key(keys[index as int]));
                assert(peer@ == self@.peers[keys[index as int]]);
            }
            peers.push(peer);
            proof {
                let after = peers@.map_values(|peer: PeerRecord| peer@);
                let shorter = keys.take(index as int);
                let longer = keys.take(index + 1);
                assert(after =~= before.push(peer@));
                assert forall|i: int| 0 <= i < longer.len() implies self@.peers.contains_key(
                    #[trigger] longer[i],
                ) && self@.peers[longer[i]] == after[i] && ed25519_point(
                    after[i].public_key,
                ) by {
                    if i < index {
                        assert(shorter[i] == longer[i]);
                        assert(after[i] == before[i]);
                    }
                }
            }
            index += 1;
        }
        proof {
            let shown = peers@.map_values(|peer: PeerRecord| peer@);
            assert(lists_peers(self@.peers, shown)) by {
                assert(ascending::<[u8; 32]>(keys));
                assert forall|id: Seq<u8>| #[trigger] self@.peers.contains_key(id) implies (
                exists|i: int| 0 <= i < keys.len() && #[trigger] keys[i] == id) by {
                    assert(self.rows.peers@.contains_key(id));
                    assert(keys.contains(id));
                }
                assert(keys.take(keys.len() as int) =~= keys);
                assert(peers_keyed(self@.peers, keys, shown));
            }
        }
        Ok(peers)
    }

    /// Lists spaces authenticated while linking with `peer`.
    pub fn peer_spaces(&self, peer: DevicePublicKey) -> (spaces: Vec<SpaceId>)
        requires
            self.wf(),
        ensures
            ascending::<SpaceId>(spaces@),
            forall|space: SpaceId| #[trigger]
                spaces@.contains(space) <==> self@.peer_spaces.contains(
                    (device_id(peer@), space),
                ),
    {
        let id = peer.id();
        let ghost keys = self.rows.peer_spaces.keys();
        let mut spaces: Vec<SpaceId> = Vec::new();
        let mut index: usize = 0;
        proof {
            self.rows.peer_spaces.lemma_keys();
        }
        while index < self.rows.peer_spaces.len()
            invariant
                self.wf(),
                keys == self.rows.peer_spaces.keys(),
                index <= keys.len(),
                ascending::<([u8; 32], SpaceId)>(keys),
                ascending::<SpaceId>(spaces@),
                forall|i: int|
                    0 <= i < spaces@.len() ==> exists|k: int|
                        0 <= k < index && #[trigger] keys[k] == (id@, #[trigger] spaces@[i]),
                forall|k: int|
                    0 <= k < index && (#[trigger] keys[k]).0 == id@ ==> spaces@.contains(
                        keys[k].1,
                    ),
            decreases keys.len() - index,
        {
            let key = self.rows.peer_spaces.key_at(index);
            assert(key@ == keys[index as int]);
            let ghost before = spaces@;
            if same_bytes(key.0.as_slice(), id.0.as_slice()) {
                spaces.push(key.1);
                proof {
                    let last = before.len() as int;
                    assert(keys[index as int] == (id@, spaces@[last]));
                    assert forall|i: int, j: int| 0 <= i < j < spaces@.len() implies <SpaceId as Key>::before(
                        #[trigger] spaces@[i],
                        #[trigger] spaces@[j],
                    ) by {
                        assert(spaces@[i] == before[i]);
                        if j == last {
                            let k = choose|k: int|
                                0 <= k < index && #[trigger] keys[k] == (id@, before[i]);
                            assert(<([u8; 32], SpaceId) as Key>::before(
                                keys[k],
                                keys[index as int],
                            ));
                            <[u8; 32] as Key>::ordered(id@, id@, id@);
                        } else {
                            assert(spaces@[j] == before[j]);
                        }
                    }
                }
            }
            proof {
                assert forall|k: int|
                    0 <= k < index + 1 && (#[trigger] keys[k]).0 == id@ implies spaces@.contains(
                    keys[k].1,
                ) by {
                    if k < index {
                        let i = choose|i: int| 0 <= i < before.len() && before[i] == keys[k].1;
                        assert(spaces@[i] == keys[k].1);
                    } else {
                        assert(spaces@[before.len() as int] == keys[k].1);
                    }
                }
            }
            index += 1;
        }
        proof {
            assert forall|space: SpaceId| #[trigger]
                spaces@.contains(space) <==> self@.peer_spaces.contains((id@, space)) by {
                if spaces@.contains(space) {
                    let i = choose|i: int| 0 <= i < spaces@.len() && spaces@[i] == space;
                    let k = choose|k: int|
                        0 <= k < keys.len() && #[trigger] keys[k] == (id@, spaces@[i]);
                    assert(self.rows.peer_spaces@.contains_key(keys[k]));
                }
                if self@.peer_spaces.contains((id@, space)) {
                    assert(self.rows.peer_spaces@.contains_key((id@, space)));
                    assert(keys.contains((id@, space)));
                    let k = choose|k: int| 0 <= k < keys.len() && keys[k] == (id@, space);
                    assert(keys[k].0 == id@);
                }
            }
        }
        spaces
    }

    /// Creates a consistent encrypted snapshot of the complete trust vault from
    /// its serialized database.
    ///
    /// The artifact includes this vault's current wrapping key only inside the
    /// recovery ciphertext. Application databases are intentionally separate;
    /// this artifact recovers identity, trust, authority, and content keys.
    pub fn export_recovery(&self, serialized: &[u8], secret: &RecoverySecret) -> (bundle: Result<
        RecoveryBundle,
        TrustError,
    >)
        ensures
            match bundle {
                Ok(bundle) => {
                    &&& serialized@.len() <= 268435456
                    &&& recovered(bundle@, secret@) == Ok::<(Seq<u8>, Seq<u8>), TrustFailure>(
                        (self@.key, serialized@),
                    )
                },
                Err(error) => if serialized@.len() > 268435456 {
                    error@ == TrustFailure::InvalidRecoveryBundle
                } else {
                    error@ == TrustFailure::Randomness
                },
            },
    {
        RecoveryBundle::create(&self.wrapping_key, serialized, secret)
    }

    /// Accepts a vault opened from a recovered database: its credentials open
    /// and its database passed the integrity check.
    pub fn accept_restored(&self, integrity: &str) -> (result: Result<(), TrustError>)
        ensures
            trust_refused(result) == match self@.loaded_device() {
                Err(error) => Some(error),
                Ok(None) => Some(TrustFailure::InvalidRecoveryBundle),
                Ok(Some(_)) => if integrity@ != "ok"@ {
                    Some(TrustFailure::InvalidRecoveryBundle)
                } else {
                    None
                },
            },
    {
        match self.load_device() {
            Err(error) => Err(error),
            Ok(None) => Err(TrustError::InvalidRecoveryBundle),
            Ok(Some(_)) => {
                if !same_text(integrity, "ok") {
                    return Err(TrustError::InvalidRecoveryBundle);
                }
                Ok(())
            },
        }
    }
}

/// Links with the spaces of a device added.
pub open spec fn linked(
    links: Set<(Seq<u8>, SpaceId)>,
    id: Seq<u8>,
    spaces: Seq<SpaceId>,
) -> Set<(Seq<u8>, SpaceId)> {
    links.union(Set::new(|link: (Seq<u8>, SpaceId)| link.0 == id && spaces.contains(link.1)))
}

/// Whether peers are those of a table, one for each key.
pub open spec fn peers_keyed(
    table: Map<Seq<u8>, PeerView>,
    keys: Seq<Seq<u8>>,
    peers: Seq<PeerView>,
) -> bool {
    &&& peers.len() == keys.len()
    &&& forall|i: int|
        0 <= i < keys.len() ==> table.contains_key(#[trigger] keys[i]) && table[keys[i]]
            == peers[i] && ed25519_point(peers[i].public_key)
}

/// Whether peers are all those of a table, in ascending device-identity order,
/// and their keys are well-formed.
pub open spec fn lists_peers(table: Map<Seq<u8>, PeerView>, peers: Seq<PeerView>) -> bool {
    exists|keys: Seq<Seq<u8>>|
        {
            &&& ascending::<[u8; 32]>(keys)
            &&& #[trigger] peers_keyed(table, keys, peers)
            &&& forall|id: Seq<u8>| #[trigger]
                table.contains_key(id) ==> exists|i: int|
                    0 <= i < keys.len() && #[trigger] keys[i] == id
        }
}

} // verus!
