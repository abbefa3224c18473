//! Space authority, content keys, rosters and epochs in a trust vault.

use crate::trust::error::{trust_refused, TrustError, TrustFailure};
use crate::trust::material::{
    device_aad, device_data, seal_with, seals, space_key_aad, space_key_data, unseal,
    unsealed, WrappingKey,
};
use crate::trust::rows::{
    check_number, number_refusal, AccessView, DeviceRow, MemberRow, MemberRowView, PeerRecord,
    PeerView, SpaceAccess, SpaceCredentials, TrustView,
};
use super::{member_map, TrustStore};
use crate::authority::capability::{
    issued, AuthorityError, AuthorityView, Capability, CapabilityView, Operation, Permission, SpaceAuthority,
};
use crate::authority::payload::SpaceKey;
use crate::bytes::to_array;
use crate::crypto;
use crate::crypto::ed25519_point;
use crate::id::SpaceId;
use crate::identity::device::{DeviceIdentity, DevicePublicKey, PairingError};
use crate::ordmap::{ascending, lemma_ascending_unique, Key, OrdMap};
use crate::rows::lemma_kept_step;
use crate::text::{copy_bytes, owned};
use vstd::prelude::*;
use vstd::string::*;

verus! {

/// Whether subjects are those of a space's roster, in ascending order.
pub open spec fn is_roster(
    members: Map<(SpaceId, Seq<u8>), MemberRowView>,
    space: SpaceId,
    subjects: Seq<Seq<u8>>,
) -> bool {
    &&& ascending::<DevicePublicKey>(subjects)
    &&& forall|subject: Seq<u8>| #[trigger]
        subjects.contains(subject) <==> members.contains_key((space, subject))
}

/// The subjects of a space's roster in ascending order.
pub open spec fn subjects(
    members: Map<(SpaceId, Seq<u8>), MemberRowView>,
    space: SpaceId,
) -> Seq<Seq<u8>> {
    choose|subjects: Seq<Seq<u8>>| is_roster(members, space, subjects)
}

/// The grants of a space's roster in ascending subject order.
pub open spec fn roster(
    members: Map<(SpaceId, Seq<u8>), MemberRowView>,
    space: SpaceId,
) -> Seq<CapabilityView> {
    subjects(members, space).map_values(
        |subject: Seq<u8>| members[(space, subject)].capability,
    )
}

/// A space has one roster.
pub proof fn lemma_roster(
    members: Map<(SpaceId, Seq<u8>), MemberRowView>,
    space: SpaceId,
    listed: Seq<Seq<u8>>,
)
    requires
        is_roster(members, space, listed),
    ensures
        subjects(members, space) == listed,
{
    let other = subjects(members, space);
    assert forall|subject: Seq<u8>| #[trigger]
        other.contains(subject) <==> listed.contains(subject) by {
        assert(other.contains(subject) <==> members.contains_key((space, subject)));
        assert(listed.contains(subject) <==> members.contains_key((space, subject)));
    }
    lemma_ascending_unique::<DevicePublicKey>(other, listed);
}

/// The members of another space.
pub open spec fn of_space(space: SpaceId) -> Set<(SpaceId, Seq<u8>)> {
    Set::new(|key: (SpaceId, Seq<u8>)| key.0 == space)
}

/// A roster with grants of an epoch inserted.
pub open spec fn granting(
    members: Map<(SpaceId, Seq<u8>), MemberRowView>,
    space: SpaceId,
    epoch: u64,
    granted: Seq<CapabilityView>,
) -> Map<(SpaceId, Seq<u8>), MemberRowView>
    decreases granted.len(),
{
    if granted.len() == 0 {
        members
    } else {
        let capability = granted.last();
        granting(members, space, epoch, granted.drop_last()).insert(
            (space, capability.subject),
            MemberRowView { epoch, capability },
        )
    }
}

/// Why a capability is not valid under an authority at a time.
pub open spec fn capability_refusal(
    capability: CapabilityView,
    authority: AuthorityView,
    now: u64,
) -> Option<TrustFailure> {
    match capability.authorize_refusal(authority, capability.subject, Operation::Read, now) {
        Some(error) => Some(TrustFailure::Authority(error.text())),
        None => None,
    }
}

/// Why local authority is not valid at a time.
pub open spec fn access_refusal(access: AccessView, now: u64) -> Option<TrustFailure> {
    if !access.coherent() {
        Some(TrustFailure::InconsistentCapability)
    } else {
        capability_refusal(access.capability, access.authority, now)
    }
}

/// Why the first invalid grant is refused.
pub open spec fn grants_refusal(
    granted: Seq<CapabilityView>,
    authority: AuthorityView,
    now: u64,
) -> Option<TrustFailure>
    decreases granted.len(),
{
    if granted.len() == 0 {
        None
    } else {
        match grants_refusal(granted.drop_last(), authority, now) {
            Some(error) => Some(error),
            None => capability_refusal(granted.last(), authority, now),
        }
    }
}

/// Whether two grants have the same subject.
pub open spec fn repeats(granted: Seq<CapabilityView>) -> bool {
    exists|i: int, j: int|
        0 <= i < j < granted.len() && (#[trigger] granted[i]).subject == (
        #[trigger] granted[j]).subject
}

/// The grants whose subject is not revoked.
pub open spec fn unrevoked(revoked: Seq<Seq<u8>>) -> spec_fn(CapabilityView) -> bool {
    |capability: CapabilityView| !revoked.contains(capability.subject)
}

/// What public keys say.
pub open spec fn key_views(keys: Seq<DevicePublicKey>) -> Seq<Seq<u8>> {
    keys.map_values(|key: DevicePublicKey| key@)
}

/// What capabilities say.
pub open spec fn capability_views(capabilities: Seq<Capability>) -> Seq<CapabilityView> {
    capabilities.map_values(|capability: Capability| capability@)
}

/// Whether grants renew others for a new epoch with the same subjects and
/// permissions.
pub open spec fn renews(
    granted: Seq<CapabilityView>,
    former: Seq<CapabilityView>,
    secret: Seq<u8>,
    public: Seq<u8>,
    space: SpaceId,
    epoch: u64,
    now: u64,
) -> bool {
    &&& granted.len() == former.len()
    &&& forall|i: int|
        0 <= i < granted.len() ==> #[trigger] granted[i] == issued(
            secret,
            public,
            space,
            epoch,
            former[i].subject,
            former[i].permission,
            now,
            u64::MAX,
            granted[i].nonce,
        )
}

/// The local authority over a space that a device issues to itself.
pub open spec fn own_access(
    secret: Seq<u8>,
    space: SpaceId,
    epoch: u64,
    permission: Permission,
    now: u64,
    nonce: Seq<u8>,
) -> AccessView {
    let owner = crypto::ed25519_public(secret);
    AccessView {
        authority: AuthorityView { space, issuer: owner, epoch },
        capability: issued(
            secret,
            owner,
            space,
            epoch,
            owner,
            permission,
            now,
            u64::MAX,
            nonce,
        ),
    }
}

/// Whether a failure says that random bytes could not be drawn.
pub open spec fn nothing_drawn(error: TrustFailure) -> bool {
    ||| error == TrustFailure::Authority(AuthorityError::Randomness.text())
    ||| error == TrustFailure::Randomness
}

impl TrustView {
    /// Why an epoch whose grants and key were drawn is not adopted.
    pub open spec fn adoption_refusal(
        self,
        local: AccessView,
        granted: Seq<CapabilityView>,
        now: u64,
    ) -> Option<TrustFailure> {
        if self.epoch_refusal(local, granted, now) is Some {
            self.epoch_refusal(local, granted, now)
        } else {
            self.write_refusal(local, granted)
        }
    }

    /// The local authority of a space, or why its record is refused.
    pub open spec fn loaded_access(self, space: SpaceId) -> Result<
        Option<AccessView>,
        TrustFailure,
    > {
        if !self.access.contains_key(space) {
            Ok(None)
        } else {
            let row = self.access[space];
            let access = AccessView {
                authority: AuthorityView { space, issuer: row.issuer, epoch: row.epoch },
                capability: row.capability,
            };
            if !ed25519_point(row.issuer) {
                Err(TrustFailure::Identity(PairingError::InvalidMessage))
            } else if !access.coherent() {
                Err(TrustFailure::InconsistentCapability)
            } else {
                Ok(Some(access))
            }
        }
    }

    /// Why local authority cannot replace what is recorded.
    pub open spec fn store_refusal(self, access: AccessView) -> Option<TrustFailure> {
        let space = access.authority.space;
        if !access.coherent() {
            Some(TrustFailure::InconsistentCapability)
        } else if self.access.contains_key(space) && access.authority.epoch
            < self.access[space].epoch {
            Some(
                TrustFailure::AuthorityRollback {
                    current: self.access[space].epoch,
                    proposed: access.authority.epoch,
                },
            )
        } else {
            number_refusal(access.authority.epoch)
        }
    }

    /// The content key of a space epoch, or why it does not open.
    pub open spec fn loaded_key(self, space: SpaceId, epoch: u64) -> Result<
        Option<Seq<u8>>,
        TrustFailure,
    > {
        if number_refusal(epoch) is Some {
            Err(TrustFailure::ProtectedMaterial)
        } else if !self.keys.contains_key((space, epoch)) {
            Ok(None)
        } else {
            match unsealed(self.key, space_key_data(space, epoch), self.keys[(space, epoch)]) {
                None => Err(TrustFailure::ProtectedMaterial),
                Some(bytes) => if bytes.len() != 32 {
                    Err(TrustFailure::ProtectedMaterial)
                } else {
                    Ok(Some(bytes))
                },
            }
        }
    }

    /// The complete credentials of a space, or why they are refused.
    pub open spec fn loaded_credentials(self, space: SpaceId) -> Result<
        Option<(AccessView, Seq<u8>)>,
        TrustFailure,
    > {
        match self.loaded_access(space) {
            Err(error) => Err(error),
            Ok(None) => Ok(None),
            Ok(Some(access)) => match self.loaded_key(space, access.authority.epoch) {
                Err(error) => Err(error),
                Ok(None) => Err(TrustFailure::ProtectedMaterial),
                Ok(Some(key)) => Ok(Some((access, key))),
            },
        }
    }

    /// The authority of complete credentials.
    pub open spec fn current_access(self, space: SpaceId) -> AccessView {
        let (access, _) = self.loaded_credentials(space)->Ok_0->0;
        access
    }

    /// Why an epoch is refused before its key is sealed.
    pub open spec fn epoch_refusal(
        self,
        local: AccessView,
        granted: Seq<CapabilityView>,
        now: u64,
    ) -> Option<TrustFailure> {
        let space = local.authority.space;
        if access_refusal(local, now) is Some {
            access_refusal(local, now)
        } else if grants_refusal(granted, local.authority, now) is Some {
            grants_refusal(granted, local.authority, now)
        } else if self.access.contains_key(space) && local.authority.epoch
            <= self.access[space].epoch {
            Some(
                TrustFailure::AuthorityRollback {
                    current: self.access[space].epoch,
                    proposed: local.authority.epoch,
                },
            )
        } else {
            None
        }
    }

    /// Why an epoch whose key is sealed cannot be written.
    pub open spec fn write_refusal(
        self,
        local: AccessView,
        granted: Seq<CapabilityView>,
    ) -> Option<TrustFailure> {
        if number_refusal(local.authority.epoch) is Some {
            number_refusal(local.authority.epoch)
        } else if self.keys.contains_key((local.authority.space, local.authority.epoch)) {
            Some(TrustFailure::SpaceKeyExists)
        } else if repeats(granted) {
            Some(
                TrustFailure::Storage(
                    "UNIQUE constraint failed: space_members.space_id, space_members.subject"@,
                ),
            )
        } else {
            None
        }
    }

    /// What the vault keeps of a content key that is sealed under a nonce.
    pub open spec fn sealed_key(
        self,
        space: SpaceId,
        epoch: u64,
        key: Seq<u8>,
        nonce: Seq<u8>,
    ) -> Seq<u8> {
        nonce + crypto::aead_sealed(self.key, nonce, space_key_data(space, epoch), key)
    }

    /// The vault with a space advanced to a new key and membership epoch.
    pub open spec fn advanced(
        self,
        local: AccessView,
        sealed: Seq<u8>,
        granted: Seq<CapabilityView>,
    ) -> TrustView {
        let space = local.authority.space;
        let epoch = local.authority.epoch;
        TrustView {
            keys: self.keys.insert((space, epoch), sealed),
            access: self.access.insert(space, local.row()),
            members: granting(
                self.members.remove_keys(of_space(space)),
                space,
                epoch,
                granted,
            ),
            ..self
        }
    }

    /// Whether a vault is this one with a space advanced to a key.
    pub open spec fn advances(
        self,
        after: TrustView,
        local: AccessView,
        key: Seq<u8>,
        granted: Seq<CapabilityView>,
    ) -> bool {
        let place = (local.authority.space, local.authority.epoch);
        &&& after == self.advanced(local, after.keys[place], granted)
        &&& seals(self.key, space_key_data(place.0, place.1), key, after.keys[place])
        &&& after.loaded_key(place.0, place.1) == Ok::<Option<Seq<u8>>, TrustFailure>(Some(key))
    }

    /// Why a shared space is refused before its key is sealed.
    pub open spec fn share_refusal(self, peer: PeerView, access: AccessView, now: u64) -> Option<
        TrustFailure,
    > {
        if access_refusal(access, now) is Some {
            access_refusal(access, now)
        } else {
            match self.needed_device() {
                Err(error) => Some(error),
                Ok(device) => if access.capability.subject != crypto::ed25519_public(device.secret)
                    || access.authority.issuer != peer.public_key {
                    Some(TrustFailure::SharePrincipalMismatch)
                } else {
                    match self.loaded_access(access.authority.space) {
                        Err(error) => Some(error),
                        Ok(Some(_)) => Some(TrustFailure::SpaceAlreadyInitialized),
                        Ok(None) => None,
                    }
                },
            }
        }
    }

    /// Why a shared space whose key is sealed cannot be written.
    pub open spec fn share_write_refusal(self, peer: PeerView, access: AccessView) -> Option<
        TrustFailure,
    > {
        if number_refusal(peer.paired_at) is Some {
            number_refusal(peer.paired_at)
        } else if number_refusal(access.authority.epoch) is Some {
            number_refusal(access.authority.epoch)
        } else if self.keys.contains_key((access.authority.space, access.authority.epoch)) {
            Some(
                TrustFailure::Storage(
                    "UNIQUE constraint failed: space_keys.space_id, space_keys.epoch"@,
                ),
            )
        } else {
            None
        }
    }

    /// The vault with a space of a peer, its key and its authority.
    pub open spec fn shared(self, peer: PeerView, access: AccessView, sealed: Seq<u8>) -> TrustView {
        let space = access.authority.space;
        let admitted = self.with_peer(peer, seq![space]);
        TrustView {
            keys: self.keys.insert((space, access.authority.epoch), sealed),
            access: self.access.insert(space, access.row()),
            ..admitted
        }
    }

    /// Whether a vault is this one with a space of a peer and its key.
    pub open spec fn shares_space(
        self,
        after: TrustView,
        peer: PeerView,
        access: AccessView,
        key: Seq<u8>,
    ) -> bool {
        let place = (access.authority.space, access.authority.epoch);
        &&& after == self.shared(peer, access, after.keys[place])
        &&& seals(self.key, space_key_data(place.0, place.1), key, after.keys[place])
        &&& after.loaded_key(place.0, place.1) == Ok::<Option<Seq<u8>>, TrustFailure>(Some(key))
    }

    /// Why a delivered epoch is refused before its key is sealed.
    pub open spec fn delivery_refusal(self, peer: PeerView, access: AccessView, now: u64) -> Option<
        TrustFailure,
    > {
        if access_refusal(access, now) is Some {
            access_refusal(access, now)
        } else {
            match self.needed_device() {
                Err(error) => Some(error),
                Ok(device) => match self.loaded_access(access.authority.space) {
                    Err(error) => Some(error),
                    Ok(None) => Some(TrustFailure::InconsistentCapability),
                    Ok(Some(current)) => if access.authority.issuer != peer.public_key
                        || access.authority.issuer != current.authority.issuer
                        || access.capability.subject != crypto::ed25519_public(device.secret)
                        || access.authority.epoch <= current.authority.epoch {
                        Some(TrustFailure::SharePrincipalMismatch)
                    } else {
                        None
                    },
                },
            }
        }
    }

    /// Why a delivered epoch whose key is sealed cannot be written.
    pub open spec fn delivery_write_refusal(self, peer: PeerView, access: AccessView) -> Option<
        TrustFailure,
    > {
        if number_refusal(access.authority.epoch) is Some {
            number_refusal(access.authority.epoch)
        } else if self.keys.contains_key((access.authority.space, access.authority.epoch)) {
            Some(TrustFailure::SpaceKeyExists)
        } else {
            number_refusal(peer.paired_at)
        }
    }
}

pub(crate) fn validate_capability(
    capability: &Capability,
    authority: SpaceAuthority,
    now: u64,
) -> (result: Result<(), TrustError>)
    ensures
        trust_refused(result) == capability_refusal(capability@, authority@, now),
{
    match capability.authorize(authority, capability.subject(), Operation::Read, now) {
        Ok(_) => Ok(()),
        Err(error) => Err(TrustError::Authority(error.message())),
    }
}

pub(crate) fn validate_access(access: &SpaceAccess, now: u64) -> (result: Result<(), TrustError>)
    ensures
        trust_refused(result) == access_refusal(access@, now),
{
    if !access.is_coherent() {
        return Err(TrustError::InconsistentCapability);
    }
    validate_capability(&access.capability, access.authority, now)
}

proof fn lemma_first_grant_refusal(
    granted: Seq<CapabilityView>,
    authority: AuthorityView,
    now: u64,
    len: int,
)
    requires
        0 <= len <= granted.len(),
        grants_refusal(granted.take(len), authority, now) is Some,
    ensures
        grants_refusal(granted, authority, now) == grants_refusal(
            granted.take(len),
            authority,
            now,
        ),
    decreases granted.len() - len,
{
    if len < granted.len() {
        assert(granted.take(len + 1).drop_last() =~= granted.take(len));
        lemma_first_grant_refusal(granted, authority, now, len + 1);
    } else {
        assert(granted.take(len) =~= granted);
    }
}

fn validate_grants(members: &[Capability], authority: SpaceAuthority, now: u64) -> (result: Result<
    (),
    TrustError,
>)
    ensures
        trust_refused(result) == grants_refusal(capability_views(members@), authority@, now),
{
    let ghost views = capability_views(members@);
    let mut index: usize = 0;
    assert(views.take(0) =~= Seq::<CapabilityView>::empty());
    while index < members.len()
        invariant
            index <= members@.len(),
            views == capability_views(members@),
            grants_refusal(views.take(index as int), authority@, now) is None,
        decreases members@.len() - index,
    {
        proof {
            assert(views.take(index + 1).drop_last() =~= views.take(index as int));
            assert(views.take(index + 1).last() == members@[index as int]@);
        }
        match validate_capability(&members[index], authority, now) {
            Ok(_) => {},
            Err(error) => {
                proof {
                    lemma_first_grant_refusal(views, authority@, now, index + 1);
                }
                return Err(error);
            },
        }
        index += 1;
    }
    assert(views.take(views.len() as int) =~= views);
    Ok(())
}

fn has_repeats(members: &[Capability]) -> (found: bool)
    ensures
        found == repeats(capability_views(members@)),
{
    let ghost views = capability_views(members@);
    let mut second: usize = 0;
    while second < members.len()
        invariant
            second <= members@.len(),
            views == capability_views(members@),
            forall|i: int, j: int|
                0 <= i < j < second ==> (#[trigger] views[i]).subject != (
                #[trigger] views[j]).subject,
        decreases members@.len() - second,
    {
        let mut first: usize = 0;
        while first < second
            invariant
                first <= second < members@.len(),
                views == capability_views(members@),
                forall|i: int|
                    0 <= i < first ==> (#[trigger] views[i]).subject
                        != views[second as int].subject,
            decreases second - first,
        {
            assert(views[first as int] == members@[first as int]@);
            assert(views[second as int] == members@[second as int]@);
            if members[first].subject.same(&members[second].subject) {
                return true;
            }
            first += 1;
        }
        second += 1;
    }
    false
}

/// The grants of a roster whose subjects are not revoked.
pub fn retained_grants(former: &[Capability], revoked: &[DevicePublicKey]) -> (retained: Vec<
    Capability,
>)
    ensures
        capability_views(retained@) == capability_views(former@).filter(
            unrevoked(key_views(revoked@)),
        ),
{
    let ghost all = capability_views(former@);
    let ghost keep = unrevoked(key_views(revoked@));
    let mut retained: Vec<Capability> = Vec::new();
    let mut index: usize = 0;
    proof {
        reveal(Seq::filter);
        assert(all.take(0) =~= Seq::<CapabilityView>::empty());
        assert(capability_views(retained@) =~= Seq::<CapabilityView>::empty());
    }
    while index < former.len()
        invariant
            index <= former@.len(),
            all == capability_views(former@),
            keep == unrevoked(key_views(revoked@)),
            capability_views(retained@) == all.take(index as int).filter(keep),
        decreases former@.len() - index,
    {
        let member = &former[index];
        let ghost before = capability_views(retained@);
        proof {
            assert(all[index as int] == member@);
            lemma_kept_step(all, index as int, keep);
        }
        if !contains_key(revoked, &member.subject) {
            retained.push(member.clone());
            assert(capability_views(retained@) =~= before.push(member@));
        }
        index += 1;
    }
    assert(all.take(all.len() as int) =~= all);
    retained
}

/// Grants the subjects of a roster their permissions for another epoch, each
/// with its nonce.
pub fn renewed_grants(
    issuer: &DeviceIdentity,
    space: SpaceId,
    epoch: u64,
    former: &[Capability],
    nonces: &[[u8; 16]],
    now: u64,
) -> (granted: Vec<Capability>)
    requires
        nonces@.len() == former@.len(),
    ensures
        renews(
            capability_views(granted@),
            capability_views(former@),
            issuer@,
            issuer.public(),
            space,
            epoch,
            now,
        ),
        forall|i: int|
            0 <= i < nonces@.len() ==> (#[trigger] capability_views(granted@)[i]).nonce
                == nonces@[i]@,
        granted@.len() == former@.len(),
        forall|i: int|
            0 <= i < former@.len() ==> {
                let renewed = (#[trigger] granted@[i])@;
                &&& renewed.space == space
                &&& renewed.epoch == epoch
                &&& renewed.issuer == issuer.public()
                &&& renewed.subject == former@[i]@.subject
                &&& renewed.permission == former@[i]@.permission
                &&& renewed.not_before == now
                &&& renewed.expires_at == u64::MAX
            },
{
    let ghost all = capability_views(former@);
    let mut granted: Vec<Capability> = Vec::new();
    while granted.len() < former.len()
        invariant
            granted@.len() <= former@.len() == nonces@.len(),
            all == capability_views(former@),
            forall|i: int|
                0 <= i < granted@.len() ==> (#[trigger] granted@[i])@ == issued(
                    issuer@,
                    issuer.public(),
                    space,
                    epoch,
                    all[i].subject,
                    all[i].permission,
                    now,
                    u64::MAX,
                    nonces@[i]@,
                ),
        decreases former@.len() - granted@.len(),
    {
        let index: usize = granted.len();
        let member = &former[index];
        assert(all[index as int] == member@);
        granted.push(
            Capability::sign(
                issuer,
                space,
                epoch,
                member.subject(),
                member.permission(),
                now,
                u64::MAX,
                nonces[index],
            ),
        );
    }
    proof {
        let views = capability_views(granted@);
        assert forall|i: int| 0 <= i < views.len() implies #[trigger] views[i] == issued(
            issuer@,
            issuer.public(),
            space,
            epoch,
            all[i].subject,
            all[i].permission,
            now,
            u64::MAX,
            views[i].nonce,
        ) && views[i].nonce == nonces@[i]@ by {
            assert(views[i] == granted@[i]@);
        }
    }
    granted
}

fn contains_key(keys: &[DevicePublicKey], key: &DevicePublicKey) -> (found: bool)
    ensures
        found == key_views(keys@).contains(key@),
{
    let ghost views = key_views(keys@);
    let mut index: usize = 0;
    while index < keys.len()
        invariant
            index <= keys@.len(),
            views == key_views(keys@),
            forall|i: int| 0 <= i < index ==> views[i] != key@,
        decreases keys@.len() - index,
    {
        assert(views[index as int] == keys@[index as int]@);
        if keys[index].same(key) {
            return true;
        }
        index += 1;
    }
    false
}

impl TrustStore {
    /// Atomically stores this device's capability and trusted space epoch.
    ///
    /// Equal epochs may replace a renewed grant. A higher epoch advances
    /// authority. Lower epochs are rejected so restored or replayed state
    /// cannot silently undo forward-looking revocation.
    pub fn store_space_access(&mut self, access: &SpaceAccess) -> (result: Result<(), TrustError>)
        requires
            old(self).wf(),
        ensures
            final(self).wf(),
            trust_refused(result) == old(self)@.store_refusal(access@),
            final(self)@ == if result is Ok {
                TrustView {
                    access: old(self)@.access.insert(access@.authority.space, access@.row()),
                    ..old(self)@
                }
            } else {
                old(self)@
            },
    {
        if !access.is_coherent() {
            return Err(TrustError::InconsistentCapability);
        }
        match self.rows.access.get(&access.authority.space) {
            Some(row) => {
                if access.authority.epoch < row.epoch {
                    return Err(
                        TrustError::AuthorityRollback {
                            current: row.epoch,
                            proposed: access.authority.epoch,
                        },
                    );
                }
            },
            None => {},
        }
        check_number(access.authority.epoch)?;
        self.put_access(access);
        Ok(())
    }

    fn put_access(&mut self, access: &SpaceAccess)
        requires
            old(self).wf(),
        ensures
            final(self).wf(),
            final(self)@ == (TrustView {
                access: old(self)@.access.insert(access@.authority.space, access@.row()),
                ..old(self)@
            }),
    {
        let ghost before = self@.access;
        let row = access.to_row();
        let ghost shown = row@;
        let former = self.rows.access.insert(access.authority.space, row);
        assert(self@.access =~= before.insert(access@.authority.space, shown));
    }

    fn put_key(&mut self, space: SpaceId, epoch: u64, sealed: Vec<u8>)
        requires
            old(self).wf(),
        ensures
            final(self).wf(),
            final(self)@ == (TrustView {
                keys: old(self)@.keys.insert((space, epoch), sealed@),
                ..old(self)@
            }),
    {
        let ghost before = self@.keys;
        let former = self.rows.keys.insert((space, epoch), sealed);
        assert(self@.keys =~= before.insert((space, epoch), sealed@));
    }

    /// Loads this device's durable authority material for a space.
    pub fn space_access(&self, space: SpaceId) -> (access: Result<Option<SpaceAccess>, TrustError>)
        requires
            self.wf(),
        ensures
            match access {
                Ok(Some(access)) => self@.loaded_access(space) == Ok::<
                    Option<AccessView>,
                    TrustFailure,
                >(Some(access@)),
                Ok(None) => self@.loaded_access(space) == Ok::<Option<AccessView>, TrustFailure>(
                    None,
                ),
                Err(error) => self@.loaded_access(space) == Err::<
                    Option<AccessView>,
                    TrustFailure,
                >(error@),
            },
    {
        let row = match self.rows.access.get(&space) {
            None => {
                return Ok(None);
            },
            Some(row) => row,
        };
        assert(self@.access[space] == row@);
        let issuer = match DevicePublicKey::from_bytes(row.issuer.0) {
            Ok(issuer) => issuer,
            Err(error) => {
                return Err(TrustError::Identity(error));
            },
        };
        let access = SpaceAccess {
            authority: SpaceAuthority { space, issuer, epoch: row.epoch },
            capability: row.capability.clone(),
        };
        if !access.is_coherent() {
            return Err(TrustError::InconsistentCapability);
        }
        Ok(Some(access))
    }

    /// Loads complete current credentials for a shared space.
    ///
    /// A partially persisted authority record fails closed rather than
    /// returning credentials with a missing or wrong-epoch key.
    pub fn space_credentials(&self, space: SpaceId) -> (credentials: Result<
        Option<SpaceCredentials>,
        TrustError,
    >)
        requires
            self.wf(),
        ensures
            match credentials {
                Ok(Some(credentials)) => self@.loaded_credentials(space) == Ok::<
                    Option<(AccessView, Seq<u8>)>,
                    TrustFailure,
                >(Some((credentials.granted(), credentials.content_key()))),
                Ok(None) => self@.loaded_credentials(space) == Ok::<
                    Option<(AccessView, Seq<u8>)>,
                    TrustFailure,
                >(None),
                Err(error) => self@.loaded_credentials(space) == Err::<
                    Option<(AccessView, Seq<u8>)>,
                    TrustFailure,
                >(error@),
            },
    {
        let access = match self.space_access(space) {
            Err(error) => {
                return Err(error);
            },
            Ok(None) => {
                return Ok(None);
            },
            Ok(Some(access)) => access,
        };
        let key = match self.space_key(space, access.authority.epoch) {
            Err(error) => {
                return Err(error);
            },
            Ok(None) => {
                return Err(TrustError::ProtectedMaterial);
            },
            Ok(Some(key)) => key,
        };
        match SpaceCredentials::new(access, key) {
            Ok(credentials) => Ok(Some(credentials)),
            Err(error) => Err(error),
        }
    }

    /// Seals and retains a content key for one space epoch exactly once.
    ///
    /// Old epoch keys remain available for already-authorized history. A new
    /// epoch uses a distinct row, while replacement at the same epoch is
    /// refused to prevent split-brain ciphertext.
    pub fn store_space_key(&mut self, space: SpaceId, epoch: u64, key: &SpaceKey) -> (result: Result<
        (),
        TrustError,
    >)
        requires
            old(self).wf(),
        ensures
            final(self).wf(),
            match result {
                Ok(_) => {
                    let sealed = final(self)@.keys[(space, epoch)];
                    &&& number_refusal(epoch) is None
                    &&& !old(self)@.keys.contains_key((space, epoch))
                    &&& final(self)@ == (TrustView {
                        keys: old(self)@.keys.insert((space, epoch), sealed),
                        ..old(self)@
                    })
                    &&& seals(old(self)@.key, space_key_data(space, epoch), key@, sealed)
                    &&& final(self)@.loaded_key(space, epoch) == Ok::<
                        Option<Seq<u8>>,
                        TrustFailure,
                    >(Some(key@))
                },
                Err(error) => {
                    &&& final(self)@ == old(self)@
                    &&& {
                        ||| error@ == TrustFailure::Randomness
                        ||| Some(error@) == number_refusal(epoch)
                        ||| error@ == TrustFailure::SpaceKeyExists && old(self)@.keys.contains_key(
                            (space, epoch),
                        ) && number_refusal(epoch) is None
                    }
                },
            },
    {
        self.store_drawn_key(space, epoch, key, crypto::random::<24>())
    }

    /// Seals and retains a content key for one space epoch exactly once, with
    /// the nonce that seals it, unless none could be drawn.
    pub fn store_drawn_key(
        &mut self,
        space: SpaceId,
        epoch: u64,
        key: &SpaceKey,
        drawn: Option<[u8; 24]>,
    ) -> (result: Result<(), TrustError>)
        requires
            old(self).wf(),
        ensures
            final(self).wf(),
            trust_refused(result) == if drawn is None {
                Some(TrustFailure::Randomness)
            } else if number_refusal(epoch) is Some {
                number_refusal(epoch)
            } else if old(self)@.keys.contains_key((space, epoch)) {
                Some(TrustFailure::SpaceKeyExists)
            } else {
                None
            },
            result is Err ==> final(self)@ == old(self)@,
            result is Ok ==> final(self)@ == (TrustView {
                keys: old(self)@.keys.insert(
                    (space, epoch),
                    old(self)@.sealed_key(space, epoch, key@, drawn->0@),
                ),
                ..old(self)@
            }),
            result is Ok ==> seals(
                old(self)@.key,
                space_key_data(space, epoch),
                key@,
                final(self)@.keys[(space, epoch)],
            ),
            result is Ok ==> final(self)@.loaded_key(space, epoch) == Ok::<
                Option<Seq<u8>>,
                TrustFailure,
            >(Some(key@)),
    {
        let data = space_key_aad(space, epoch);
        let sealed = match drawn {
            None => {
                return Err(TrustError::Randomness);
            },
            Some(nonce) => seal_with(
                &self.wrapping_key,
                data.as_slice(),
                key.secret_bytes().as_slice(),
                nonce,
            )?,
        };
        check_number(epoch)?;
        if self.rows.keys.contains(&(space, epoch)) {
            return Err(TrustError::SpaceKeyExists);
        }
        self.put_key(space, epoch, sealed);
        Ok(())
    }

    /// Opens a retained content key for one space epoch.
    pub fn space_key(&self, space: SpaceId, epoch: u64) -> (key: Result<Option<SpaceKey>, TrustError>)
        requires
            self.wf(),
        ensures
            match key {
                Ok(Some(key)) => self@.loaded_key(space, epoch) == Ok::<
                    Option<Seq<u8>>,
                    TrustFailure,
                >(Some(key@)),
                Ok(None) => self@.loaded_key(space, epoch) == Ok::<Option<Seq<u8>>, TrustFailure>(
                    None,
                ),
                Err(error) => self@.loaded_key(space, epoch) == Err::<
                    Option<Seq<u8>>,
                    TrustFailure,
                >(error@),
            },
    {
        match check_number(epoch) {
            Ok(_) => {},
            Err(error) => {
                return Err(error);
            },
        }
        let sealed = match self.rows.keys.get(&(space, epoch)) {
            None => {
                return Ok(None);
            },
            Some(sealed) => sealed,
        };
        assert(self@.keys[(space, epoch)] == sealed@);
        let data = space_key_aad(space, epoch);
        match unseal(&self.wrapping_key, data.as_slice(), sealed.as_slice()) {
            Err(error) => Err(error),
            Ok(plaintext) => {
                if plaintext.len() != 32 {
                    return Err(TrustError::ProtectedMaterial);
                }
                Ok(Some(SpaceKey::from_bytes(to_array(plaintext.as_slice()))))
            },
        }
    }

    /// Lists current device capabilities for a space in stable subject order.
    pub fn space_members(&self, space: SpaceId) -> (members: Vec<Capability>)
        requires
            self.wf(),
        ensures
            capability_views(members@) == roster(self@.members, space),
            is_roster(self@.members, space, subjects(self@.members, space)),
    {
        let ghost keys = self.rows.members.keys();
        let ghost mut listed: Seq<Seq<u8>> = Seq::empty();
        let mut members: Vec<Capability> = Vec::new();
        let mut index: usize = 0;
        proof {
            self.rows.members.lemma_keys();
        }
        while index < self.rows.members.len()
            invariant
                self.wf(),
                keys == self.rows.members.keys(),
                index <= keys.len(),
                ascending::<(SpaceId, DevicePublicKey)>(keys),
                ascending::<DevicePublicKey>(listed),
                members@.len() == listed.len(),
                forall|i: int|
                    0 <= i < listed.len() ==> (#[trigger] members@[i])@
                        == self@.members[(space, listed[i])].capability,
                forall|i: int|
                    0 <= i < listed.len() ==> exists|k: int|
                        0 <= k < index && #[trigger] keys[k] == (space, #[trigger] listed[i]),
                forall|k: int|
                    0 <= k < index && (#[trigger] keys[k]).0 == space ==> listed.contains(
                        keys[k].1,
                    ),
            decreases keys.len() - index,
        {
            let key = self.rows.members.key_at(index);
            assert(key@ == keys[index as int]);
            let ghost before = listed;
            let ghost shown = members@;
            if key.0 == space {
                let row = self.rows.members.value_at(index);
                assert(self@.members[keys[index as int]] == row@);
                members.push(row.capability.clone());
                proof {
                    listed = listed.push(keys[index as int].1);
                    let last = before.len() as int;
                    assert(keys[index as int] == (space, listed[last]));
                    assert forall|i: int, j: int| 0 <= i < j < listed.len() implies <DevicePublicKey as Key>::before(
                        #[trigger] listed[i],
                        #[trigger] listed[j],
                    ) by {
                        assert(listed[i] == before[i]);
                        if j == last {
                            let k = choose|k: int|
                                0 <= k < index && #[trigger] keys[k] == (space, before[i]);
                            assert(<(SpaceId, DevicePublicKey) as Key>::before(
                                keys[k],
                                keys[index as int],
                            ));
                        } else {
                            assert(listed[j] == before[j]);
                        }
                    }
                    assert forall|i: int| 0 <= i < listed.len() implies (#[trigger] members@[i])@
                        == self@.members[(space, listed[i])].capability by {
                        if i < last {
                            assert(members@[i] == shown[i]);
                            assert(listed[i] == before[i]);
                        }
                    }
                    assert forall|i: int| 0 <= i < listed.len() implies exists|k: int|
                        0 <= k < index + 1 && #[trigger] keys[k] == (
                            space,
                            #[trigger] listed[i],
                        ) by {
                        if i < last {
                            assert(listed[i] == before[i]);
                            let k = choose|k: int|
                                0 <= k < index && #[trigger] keys[k] == (space, before[i]);
                            assert(keys[k] == (space, listed[i]));
                        } else {
                            assert(keys[index as int] == (space, listed[i]));
                        }
                    }
                }
            }
            proof {
                assert forall|k: int|
                    0 <= k < index + 1 && (#[trigger] keys[k]).0 == space implies listed.contains(
                    keys[k].1,
                ) by {
                    if k < index {
                        let i = choose|i: int| 0 <= i < before.len() && before[i] == keys[k].1;
                        assert(listed[i] == keys[k].1);
                    } else {
                        assert(listed[before.len() as int] == keys[k].1);
                    }
                }
            }
            index += 1;
        }
        proof {
            assert forall|subject: Seq<u8>| #[trigger]
                listed.contains(subject) <==> self@.members.contains_key((space, subject)) by {
                if listed.contains(subject) {
                    let i = choose|i: int| 0 <= i < listed.len() && listed[i] == subject;
                    let k = choose|k: int|
                        0 <= k < keys.len() && #[trigger] keys[k] == (space, listed[i]);
                    assert(self.rows.members@.contains_key(keys[k]));
                }
                if self@.members.contains_key((space, subject)) {
                    assert(self.rows.members@.contains_key((space, subject)));
                    assert(keys.contains((space, subject)));
                    let k = choose|k: int| 0 <= k < keys.len() && keys[k] == (space, subject);
                    assert(keys[k].0 == space);
                }
            }
            lemma_roster(self@.members, space, listed);
            assert(capability_views(members@) =~= roster(self@.members, space));
        }
        members
    }

    /// Loads the current forward grant for one member device.
    pub fn space_member(&self, space: SpaceId, subject: DevicePublicKey) -> (member: Option<Capability>)
        requires
            self.wf(),
        ensures
            match member {
                Some(capability) => {
                    &&& self@.members.contains_key((space, subject@))
                    &&& capability@ == self@.members[(space, subject@)].capability
                },
                None => !self@.members.contains_key((space, subject@)),
            },
    {
        match self.rows.members.get(&(space, subject)) {
            Some(row) => Some(row.capability.clone()),
            None => None,
        }
    }

    /// Removes every member of a space.
    fn clear_members(&mut self, space: SpaceId)
        requires
            old(self).wf(),
        ensures
            final(self).wf(),
            final(self)@ == (TrustView {
                members: old(self)@.members.remove_keys(of_space(space)),
                ..old(self)@
            }),
    {
        let ghost start = self@;
        let ghost table = self.rows.members@;
        let mut index: usize = 0;
        proof {
            self.rows.members.lemma_keys();
        }
        while index < self.rows.members.len()
            invariant
                self.wf(),
                index <= self.rows.members.keys().len(),
                self@ == (TrustView { members: member_map(self.rows.members@), ..start }),
                forall|key: (SpaceId, Seq<u8>)| #[trigger]
                    self.rows.members@.contains_key(key) ==> table.contains_key(key)
                        && self.rows.members@[key] == table[key],
                forall|key: (SpaceId, Seq<u8>)| #[trigger]
                    table.contains_key(key) && key.0 != space ==> self.rows.members@.contains_key(
                        key,
                    ),
                forall|i: int|
                    0 <= i < index ==> (#[trigger] self.rows.members.keys()[i]).0 != space,
            decreases self.rows.members.keys().len() - index,
        {
            let key = self.rows.members.key_at(index);
            if key.0 == space {
                let found = (key.0, key.1);
                let ghost before = self.rows.members;
                let former = self.rows.members.remove(&found);
                proof {
                    lemma_key_removed(before, self.rows.members, index as int);
                }
            } else {
                index += 1;
            }
        }
        proof {
            self.rows.members.lemma_keys();
            let left = self.rows.members@;
            assert forall|key: (SpaceId, Seq<u8>)| left.contains_key(key) implies key.0 != space by {
                let keys = self.rows.members.keys();
                assert(keys.contains(key));
                let i = choose|i: int| 0 <= i < keys.len() && keys[i] == key;
                assert(keys[i].0 != space);
            }
            assert(self@.members =~= start.members.remove_keys(of_space(space))) by {
                assert(start.members == member_map(table));
            }
        }
    }

    /// Inserts grants of an epoch into a space's roster.
    fn put_members(&mut self, space: SpaceId, epoch: u64, members: &[Capability])
        requires
            old(self).wf(),
        ensures
            final(self).wf(),
            final(self)@ == (TrustView {
                members: granting(
                    old(self)@.members,
                    space,
                    epoch,
                    capability_views(members@),
                ),
                ..old(self)@
            }),
    {
        let ghost start = self@;
        let ghost views = capability_views(members@);
        let mut index: usize = 0;
        assert(views.take(0) =~= Seq::<CapabilityView>::empty());
        while index < members.len()
            invariant
                index <= members@.len(),
                views == capability_views(members@),
                self.wf(),
                self@ == (TrustView {
                    members: granting(start.members, space, epoch, views.take(index as int)),
                    ..start
                }),
            decreases members@.len() - index,
        {
            let ghost before = self@.members;
            proof {
                assert(views.take(index + 1).drop_last() =~= views.take(index as int));
                assert(views.take(index + 1).last() == members@[index as int]@);
            }
            let capability = &members[index];
            let row = MemberRow { epoch, capability: capability.clone() };
            let ghost shown = row@;
            let former = self.rows.members.insert((space, capability.subject), row);
            assert(self@.members =~= before.insert((space, capability@.subject), shown));
            index += 1;
        }
        assert(views.take(views.len() as int) =~= views);
    }

    /// Atomically advances a space to a new key and membership epoch.
    ///
    /// `local` becomes this device's grant. `members` replaces the forward
    /// roster; omitted devices are revoked for the new epoch. Older content
    /// keys remain retained because revocation cannot erase history previously
    /// disclosed to an authorized device.
    pub fn commit_space_epoch(
        &mut self,
        local: &SpaceAccess,
        key: &SpaceKey,
        members: &[Capability],
        now: u64,
    ) -> (result: Result<(), TrustError>)
        requires
            old(self).wf(),
        ensures
            final(self).wf(),
            ({
                let granted = capability_views(members@);
                let early = old(self)@.epoch_refusal(local@, granted, now);
                let late = old(self)@.write_refusal(local@, granted);
                match result {
                    Ok(_) => {
                        &&& early is None
                        &&& late is None
                        &&& old(self)@.advances(final(self)@, local@, key@, granted)
                    },
                    Err(error) => {
                        &&& final(self)@ == old(self)@
                        &&& if early is Some {
                            early == Some(error@)
                        } else {
                            error@ == TrustFailure::Randomness || late == Some(error@)
                        }
                    },
                }
            }),
    {
        self.commit_drawn_epoch(local, key, members, crypto::random::<24>(), now)
    }

    /// Atomically advances a space to a new key and membership epoch, with the
    /// nonce that seals the key, unless none could be drawn.
    pub fn commit_drawn_epoch(
        &mut self,
        local: &SpaceAccess,
        key: &SpaceKey,
        members: &[Capability],
        drawn: Option<[u8; 24]>,
        now: u64,
    ) -> (result: Result<(), TrustError>)
        requires
            old(self).wf(),
        ensures
            final(self).wf(),
            ({
                let granted = capability_views(members@);
                let early = old(self)@.epoch_refusal(local@, granted, now);
                let late = old(self)@.write_refusal(local@, granted);
                trust_refused(result) == if early is Some {
                    early
                } else if drawn is None {
                    Some(TrustFailure::Randomness)
                } else {
                    late
                }
            }),
            result is Err ==> final(self)@ == old(self)@,
            result is Ok ==> final(self)@ == old(self)@.advanced(
                local@,
                old(self)@.sealed_key(
                    local@.authority.space,
                    local@.authority.epoch,
                    key@,
                    drawn->0@,
                ),
                capability_views(members@),
            ),
            result is Ok ==> old(self)@.advances(
                final(self)@,
                local@,
                key@,
                capability_views(members@),
            ),
    {
        validate_access(local, now)?;
        validate_grants(members, local.authority, now)?;
        let space = local.authority.space;
        let epoch = local.authority.epoch;
        match self.rows.access.get(&space) {
            Some(row) => {
                if epoch <= row.epoch {
                    return Err(
                        TrustError::AuthorityRollback { current: row.epoch, proposed: epoch },
                    );
                }
            },
            None => {},
        }
        let data = space_key_aad(space, epoch);
        let sealed = match drawn {
            None => {
                return Err(TrustError::Randomness);
            },
            Some(nonce) => seal_with(
                &self.wrapping_key,
                data.as_slice(),
                key.secret_bytes().as_slice(),
                nonce,
            )?,
        };
        check_number(epoch)?;
        if self.rows.keys.contains(&(space, epoch)) {
            return Err(TrustError::SpaceKeyExists);
        }
        if has_repeats(members) {
            return Err(
                TrustError::Storage(
                    owned(
                        "UNIQUE constraint failed: space_members.space_id, space_members.subject",
                    ),
                ),
            );
        }
        self.put_key(space, epoch, sealed);
        self.put_access(local);
        self.clear_members(space);
        self.put_members(space, epoch, members);
        Ok(())
    }

    /// Creates this device's initial owner authority and content key for a space.
    pub fn initialize_owned_space(&mut self, space: SpaceId, now: u64) -> (credentials: Result<
        SpaceCredentials,
        TrustError,
    >)
        requires
            old(self).wf(),
        ensures
            final(self).wf(),
            match credentials {
                Ok(credentials) => {
                    let device = old(self)@.needed_device()->Ok_0;
                    let owner = crypto::ed25519_public(device.secret);
                    let access = credentials.granted();
                    &&& old(self)@.loaded_access(space) == Ok::<
                        Option<AccessView>,
                        TrustFailure,
                    >(None)
                    &&& old(self)@.needed_device() is Ok
                    &&& access.authority == (AuthorityView { space, issuer: owner, epoch: 1 })
                    &&& access.capability == issued(
                        device.secret,
                        owner,
                        space,
                        1,
                        owner,
                        Permission::ReadWrite,
                        now,
                        u64::MAX,
                        access.capability.nonce,
                    )
                    &&& old(self)@.advances(
                        final(self)@,
                        access,
                        credentials.content_key(),
                        Seq::empty(),
                    )
                },
                Err(error) => {
                    &&& final(self)@ == old(self)@
                    &&& old(self)@.loaded_access(space) matches Ok(Some(_)) ==> error@
                        == TrustFailure::SpaceAlreadyInitialized
                    &&& old(self)@.loaded_access(space) matches Err(refused) ==> error@ == refused
                    &&& old(self)@.loaded_access(space) matches Ok(None) ==> match old(
                        self,
                    )@.needed_device() {
                        Err(refused) => error@ == refused,
                        Ok(device) => {
                            ||| nothing_drawn(error@)
                            ||| now == u64::MAX && error@ == TrustFailure::Authority(
                                AuthorityError::InvalidValidity.text(),
                            )
                            ||| exists|nonce: Seq<u8>|
                                nonce.len() == 16 && old(self)@.adoption_refusal(
                                    #[trigger] own_access(
                                        device.secret,
                                        space,
                                        1,
                                        Permission::ReadWrite,
                                        now,
                                        nonce,
                                    ),
                                    Seq::empty(),
                                    now,
                                ) == Some(error@)
                        },
                    }
                },
            },
    {
        match self.space_access(space) {
            Err(error) => {
                return Err(error);
            },
            Ok(Some(_)) => {
                return Err(TrustError::SpaceAlreadyInitialized);
            },
            Ok(None) => {},
        }
        let device = match self.need_device() {
            Ok(device) => device,
            Err(error) => {
                return Err(error);
            },
        };
        let key = match SpaceKey::generate() {
            Ok(key) => key,
            Err(error) => {
                return Err(TrustError::Authority(error.message()));
            },
        };
        let owner = device.identity.public_key();
        let capability = match Capability::issue(
            &device.identity,
            space,
            1,
            owner,
            Permission::ReadWrite,
            now,
            u64::MAX,
        ) {
            Ok(capability) => capability,
            Err(error) => {
                return Err(TrustError::Authority(error.message()));
            },
        };
        let access = SpaceAccess {
            authority: SpaceAuthority { space, issuer: owner, epoch: 1 },
            capability,
        };
        let none: Vec<Capability> = Vec::new();
        assert(capability_views(none@) =~= Seq::<CapabilityView>::empty());
        assert(access@ == own_access(
            device@.secret,
            space,
            1,
            Permission::ReadWrite,
            now,
            access@.capability.nonce,
        ));
        self.commit_space_epoch(&access, &key, none.as_slice(), now)?;
        SpaceCredentials::new(access, key)
    }

    /// Atomically accepts one shared space from its inviting owner device.
    ///
    /// The peer certificate pin, linked-space record, local capability,
    /// authority epoch, and sealed content key become durable together.
    pub fn accept_shared_space(
        &mut self,
        peer: &PeerRecord,
        access: &SpaceAccess,
        key: &SpaceKey,
        now: u64,
    ) -> (result: Result<(), TrustError>)
        requires
            old(self).wf(),
        ensures
            final(self).wf(),
            ({
                let early = old(self)@.share_refusal(peer@, access@, now);
                let late = old(self)@.share_write_refusal(peer@, access@);
                match result {
                    Ok(_) => {
                        &&& early is None
                        &&& late is None
                        &&& old(self)@.shares_space(final(self)@, peer@, access@, key@)
                    },
                    Err(error) => {
                        &&& final(self)@ == old(self)@
                        &&& if early is Some {
                            early == Some(error@)
                        } else {
                            error@ == TrustFailure::Randomness || late == Some(error@)
                        }
                    },
                }
            }),
    {
        self.accept_drawn_space(peer, access, key, crypto::random::<24>(), now)
    }

    /// Atomically accepts one shared space from its inviting owner device, with
    /// the nonce that seals the key, unless none could be drawn.
    pub fn accept_drawn_space(
        &mut self,
        peer: &PeerRecord,
        access: &SpaceAccess,
        key: &SpaceKey,
        drawn: Option<[u8; 24]>,
        now: u64,
    ) -> (result: Result<(), TrustError>)
        requires
            old(self).wf(),
        ensures
            final(self).wf(),
            ({
                let early = old(self)@.share_refusal(peer@, access@, now);
                let late = old(self)@.share_write_refusal(peer@, access@);
                trust_refused(result) == if early is Some {
                    early
                } else if drawn is None {
                    Some(TrustFailure::Randomness)
                } else {
                    late
                }
            }),
            result is Err ==> final(self)@ == old(self)@,
            result is Ok ==> final(self)@ == old(self)@.shared(
                peer@,
                access@,
                old(self)@.sealed_key(
                    access@.authority.space,
                    access@.authority.epoch,
                    key@,
                    drawn->0@,
                ),
            ),
            result is Ok ==> old(self)@.shares_space(final(self)@, peer@, access@, key@),
    {
        validate_access(access, now)?;
        let device = match self.need_device() {
            Ok(device) => device,
            Err(error) => {
                return Err(error);
            },
        };
        let space = access.authority.space;
        let epoch = access.authority.epoch;
        let local = device.identity.public_key();
        if !access.capability.subject.same(&local) || !access.authority.issuer.same(
            &peer.public_key,
        ) {
            return Err(TrustError::SharePrincipalMismatch);
        }
        match self.space_access(space) {
            Err(error) => {
                return Err(error);
            },
            Ok(Some(_)) => {
                return Err(TrustError::SpaceAlreadyInitialized);
            },
            Ok(None) => {},
        }
        let data = space_key_aad(space, epoch);
        let sealed = match drawn {
            None => {
                return Err(TrustError::Randomness);
            },
            Some(nonce) => seal_with(
                &self.wrapping_key,
                data.as_slice(),
                key.secret_bytes().as_slice(),
                nonce,
            )?,
        };
        check_number(peer.paired_at)?;
        check_number(epoch)?;
        if self.rows.keys.contains(&(space, epoch)) {
            return Err(
                TrustError::Storage(
                    owned("UNIQUE constraint failed: space_keys.space_id, space_keys.epoch"),
                ),
            );
        }
        let linked: [SpaceId; 1] = [space];
        assert(linked@ =~= seq![space]);
        self.link_peer(peer, linked.as_slice());
        self.put_key(space, epoch, sealed);
        self.put_access(access);
        Ok(())
    }

    /// Atomically installs a newer epoch delivered by the authenticated issuer.
    pub fn accept_space_epoch(
        &mut self,
        peer: &PeerRecord,
        access: &SpaceAccess,
        key: &SpaceKey,
        now: u64,
    ) -> (result: Result<(), TrustError>)
        requires
            old(self).wf(),
        ensures
            final(self).wf(),
            ({
                let early = old(self)@.delivery_refusal(peer@, access@, now);
                let late = old(self)@.delivery_write_refusal(peer@, access@);
                match result {
                    Ok(_) => {
                        &&& early is None
                        &&& late is None
                        &&& old(self)@.shares_space(final(self)@, peer@, access@, key@)
                    },
                    Err(error) => {
                        &&& final(self)@ == old(self)@
                        &&& if early is Some {
                            early == Some(error@)
                        } else {
                            error@ == TrustFailure::Randomness || late == Some(error@)
                        }
                    },
                }
            }),
    {
        self.accept_drawn_delivery(peer, access, key, crypto::random::<24>(), now)
    }

    /// Atomically installs a newer epoch delivered by the authenticated issuer,
    /// with the nonce that seals the key, unless none could be drawn.
    pub fn accept_drawn_delivery(
        &mut self,
        peer: &PeerRecord,
        access: &SpaceAccess,
        key: &SpaceKey,
        drawn: Option<[u8; 24]>,
        now: u64,
    ) -> (result: Result<(), TrustError>)
        requires
            old(self).wf(),
        ensures
            final(self).wf(),
            ({
                let early = old(self)@.delivery_refusal(peer@, access@, now);
                let late = old(self)@.delivery_write_refusal(peer@, access@);
                trust_refused(result) == if early is Some {
                    early
                } else if drawn is None {
                    Some(TrustFailure::Randomness)
                } else {
                    late
                }
            }),
            result is Err ==> final(self)@ == old(self)@,
            result is Ok ==> final(self)@ == old(self)@.shared(
                peer@,
                access@,
                old(self)@.sealed_key(
                    access@.authority.space,
                    access@.authority.epoch,
                    key@,
                    drawn->0@,
                ),
            ),
            result is Ok ==> old(self)@.shares_space(final(self)@, peer@, access@, key@),
    {
        validate_access(access, now)?;
        let device = match self.need_device() {
            Ok(device) => device,
            Err(error) => {
                return Err(error);
            },
        };
        let space = access.authority.space;
        let epoch = access.authority.epoch;
        let current = match self.space_access(space) {
            Err(error) => {
                return Err(error);
            },
            Ok(None) => {
                return Err(TrustError::InconsistentCapability);
            },
            Ok(Some(current)) => current,
        };
        let local = device.identity.public_key();
        if !access.authority.issuer.same(&peer.public_key) || !access.authority.issuer.same(
            &current.authority.issuer,
        ) || !access.capability.subject.same(&local) || epoch <= current.authority.epoch {
            return Err(TrustError::SharePrincipalMismatch);
        }
        let data = space_key_aad(space, epoch);
        let sealed = match drawn {
            None => {
                return Err(TrustError::Randomness);
            },
            Some(nonce) => seal_with(
                &self.wrapping_key,
                data.as_slice(),
                key.secret_bytes().as_slice(),
                nonce,
            )?,
        };
        check_number(epoch)?;
        if self.rows.keys.contains(&(space, epoch)) {
            return Err(TrustError::SpaceKeyExists);
        }
        check_number(peer.paired_at)?;
        self.put_key(space, epoch, sealed);
        self.put_access(access);
        let linked: [SpaceId; 1] = [space];
        assert(linked@ =~= seq![space]);
        self.link_peer(peer, linked.as_slice());
        Ok(())
    }

    /// Rotates an owned space while preserving every member not explicitly revoked.
    ///
    /// Retained devices receive fresh grants with their existing permissions.
    /// The returned credentials are immediately active locally; callers then
    /// distribute the new epoch through authenticated peer sessions.
    pub fn rotate_owned_space(&mut self, space: SpaceId, revoked: &[DevicePublicKey], now: u64) -> (credentials:
        Result<SpaceCredentials, TrustError>)
        requires
            old(self).wf(),
        ensures
            final(self).wf(),
            match credentials {
                Ok(credentials) => {
                    let device = old(self)@.needed_device()->Ok_0;
                    let owner = crypto::ed25519_public(device.secret);
                    let current = old(self)@.current_access(space);
                    let access = credentials.granted();
                    let epoch = access.authority.epoch;
                    &&& rotation_refusal(old(self)@, space) is None
                    &&& access.authority == (AuthorityView {
                        space,
                        issuer: owner,
                        epoch: (current.authority.epoch + 1) as u64,
                    })
                    &&& access.capability == issued(
                        device.secret,
                        owner,
                        space,
                        epoch,
                        owner,
                        current.capability.permission,
                        now,
                        u64::MAX,
                        access.capability.nonce,
                    )
                    &&& exists|granted: Seq<CapabilityView>| #[trigger]
                        renews(
                            granted,
                            roster(old(self)@.members, space).filter(
                                unrevoked(key_views(revoked@)),
                            ),
                            device.secret,
                            owner,
                            space,
                            epoch,
                            now,
                        ) && old(self)@.advances(
                            final(self)@,
                            access,
                            credentials.content_key(),
                            granted,
                        )
                },
                Err(error) => {
                    &&& final(self)@ == old(self)@
                    &&& match rotation_refusal(old(self)@, space) {
                        Some(refused) => error@ == refused,
                        None => if now == u64::MAX {
                            error@ == TrustFailure::Authority(
                                AuthorityError::InvalidValidity.text(),
                            )
                        } else {
                            let device = old(self)@.needed_device()->Ok_0;
                            let current = old(self)@.current_access(space);
                            let epoch = (current.authority.epoch + 1) as u64;
                            ||| nothing_drawn(error@)
                            ||| exists|nonce: Seq<u8>, granted: Seq<CapabilityView>|
                                {
                                    &&& nonce.len() == 16
                                    &&& #[trigger] renews(
                                        granted,
                                        roster(old(self)@.members, space).filter(
                                            unrevoked(key_views(revoked@)),
                                        ),
                                        device.secret,
                                        crypto::ed25519_public(device.secret),
                                        space,
                                        epoch,
                                        now,
                                    )
                                    &&& old(self)@.adoption_refusal(
                                        #[trigger] own_access(
                                            device.secret,
                                            space,
                                            epoch,
                                            current.capability.permission,
                                            now,
                                            nonce,
                                        ),
                                        granted,
                                        now,
                                    ) == Some(error@)
                                }
                        },
                    }
                },
            },
    {
        let ghost start = self@;
        let device = match self.need_device() {
            Ok(device) => device,
            Err(error) => {
                return Err(error);
            },
        };
        let current = match self.space_credentials(space) {
            Err(error) => {
                return Err(error);
            },
            Ok(None) => {
                return Err(TrustError::InconsistentCapability);
            },
            Ok(Some(current)) => current,
        };
        let owner = device.identity.public_key();
        let authority = current.authority();
        if !authority.issuer.same(&owner) || !current.capability().subject().same(&owner) {
            return Err(TrustError::SharePrincipalMismatch);
        }
        let epoch: u64 = match authority.epoch.checked_add(1) {
            Some(epoch) => epoch,
            None => {
                return Err(TrustError::ProtectedMaterial);
            },
        };
        let capability = match Capability::issue(
            &device.identity,
            space,
            epoch,
            owner,
            current.capability().permission(),
            now,
            u64::MAX,
        ) {
            Ok(capability) => capability,
            Err(error) => {
                return Err(TrustError::Authority(error.message()));
            },
        };
        let local = SpaceAccess {
            authority: SpaceAuthority { space, issuer: owner, epoch },
            capability,
        };
        let retained = retained_grants(self.space_members(space).as_slice(), revoked);
        let mut nonces: Vec<[u8; 16]> = Vec::new();
        while nonces.len() < retained.len()
            invariant
                nonces@.len() <= retained@.len(),
                *self == *old(self),
                self.wf(),
                now < u64::MAX,
                rotation_refusal(old(self)@, space) is None,
            decreases retained@.len() - nonces@.len(),
        {
            match crypto::random::<16>() {
                Some(nonce) => {
                    nonces.push(nonce);
                },
                None => {
                    return Err(TrustError::Authority(AuthorityError::Randomness.message()));
                },
            }
        }
        let granted = renewed_grants(
            &device.identity,
            space,
            epoch,
            retained.as_slice(),
            nonces.as_slice(),
            now,
        );
        assert(local@ == own_access(
            device@.secret,
            space,
            epoch,
            current.granted().capability.permission,
            now,
            local@.capability.nonce,
        ));
        let key = match SpaceKey::generate() {
            Ok(key) => key,
            Err(error) => {
                return Err(TrustError::Authority(error.message()));
            },
        };
        self.commit_space_epoch(&local, &key, granted.as_slice(), now)?;
        SpaceCredentials::new(local, key)
    }

    /// Re-encrypts every protected vault secret under a new host wrapping key.
    ///
    /// An error leaves the active key and every row as they were.
    pub fn rotate_wrapping_key(&mut self, new_key: WrappingKey) -> (result: Result<(), TrustError>)
        requires
            old(self).wf(),
        ensures
            final(self).wf(),
            match result {
                Ok(_) => {
                    &&& all_authenticate(old(self)@)
                    &&& resealed(old(self)@, final(self)@, new_key@)
                },
                Err(error) => {
                    &&& final(self)@ == old(self)@
                    &&& if all_authenticate(old(self)@) {
                        error@ == TrustFailure::Randomness
                    } else {
                        error@ == TrustFailure::ProtectedMaterial || error@
                            == TrustFailure::Randomness
                    }
                },
            },
            old(self)@.device is None && old(self)@.keys.dom() == Set::<(SpaceId, u64)>::empty()
                ==> result is Ok,
            !device_authenticates(old(self)@) ==> trust_refused(result) == Some(
                TrustFailure::ProtectedMaterial,
            ),
    {
        let device_nonce: Option<[u8; 24]> = match &self.rows.device {
            None => None,
            Some(_) => crypto::random::<24>(),
        };
        let mut nonces: Vec<Option<[u8; 24]>> = Vec::new();
        while nonces.len() < self.rows.keys.len()
            invariant
                *self == *old(self),
                self.wf(),
                nonces@.len() <= self.rows.keys@.len(),
            decreases self.rows.keys@.len() - nonces@.len(),
        {
            nonces.push(crypto::random::<24>());
        }
        let ghost places = self.rows.keys.keys();
        proof {
            self.rows.keys.lemma_keys();
            assert(self@.keys.dom() =~= self.rows.keys@.dom());
            assert(orders_keys(self@.keys, places));
            lemma_key_places(self@.keys, places);
            lemma_resealing_refusal(
                self@,
                places,
                device_nonce,
                nonces@,
                nonces@.len(),
            );
        }
        self.reseal_all(new_key, device_nonce, nonces.as_slice())
    }

    /// Re-encrypts every protected vault secret under a new host wrapping key,
    /// with a nonce for the device's credentials and one for each content key in
    /// ascending order of space and epoch, as far as they could be drawn.
    pub fn reseal_all(
        &mut self,
        new_key: WrappingKey,
        device_nonce: Option<[u8; 24]>,
        nonces: &[Option<[u8; 24]>],
    ) -> (result: Result<(), TrustError>)
        requires
            old(self).wf(),
            nonces@.len() == old(self)@.keys.dom().len(),
        ensures
            final(self).wf(),
            trust_refused(result) == resealing_refusal(
                old(self)@,
                key_places(old(self)@.keys),
                device_nonce,
                nonces@,
                nonces@.len(),
            ),
            (old(self)@.device is Some ==> device_nonce is Some) && (forall|i: int|
                0 <= i < nonces@.len() ==> #[trigger] nonces@[i] is Some) ==> trust_refused(result)
                == if all_authenticate(old(self)@) {
                None
            } else {
                Some(TrustFailure::ProtectedMaterial)
            },
            result is Err ==> final(self)@ == old(self)@,
            result is Ok ==> all_authenticate(old(self)@),
            result is Ok ==> resealed(old(self)@, final(self)@, new_key@),
            result is Ok ==> (old(self)@.device matches Some(row)
                ==> final(self)@.device->0.sealed == resealed_bytes(
                old(self)@.key,
                new_key@,
                device_data(row.public_key, row.certificate),
                row.sealed,
                device_nonce->0@,
            )),
            result is Ok ==> forall|i: int|
                0 <= i < nonces@.len() ==> {
                    let place = #[trigger] key_places(old(self)@.keys)[i];
                    final(self)@.keys[place] == resealed_bytes(
                        old(self)@.key,
                        new_key@,
                        space_key_data(place.0, place.1),
                        old(self)@.keys[place],
                        nonces@[i]->0@,
                    )
                },
    {
        let ghost start = self@;
        let ghost keys = self.rows.keys.keys();
        proof {
            self.rows.keys.lemma_keys();
            assert(start.keys.dom() =~= self.rows.keys@.dom());
            assert(orders_keys(start.keys, keys));
            lemma_key_places(start.keys, keys);
            lemma_resealing_refusal(start, keys, device_nonce, nonces@, nonces@.len());
        }
        let device: Option<DeviceRow> = match &self.rows.device {
            None => None,
            Some(row) => {
                let data = device_aad(&row.public_key, row.certificate_der.as_slice());
                match self.reseal(&new_key, data.as_slice(), row.sealed.as_slice(), device_nonce) {
                    Err(error) => {
                        proof {
                            lemma_first_resealing_refusal(
                                start,
                                keys,
                                device_nonce,
                                nonces@,
                                0,
                                nonces@.len(),
                            );
                        }
                        return Err(error);
                    },
                    Ok(sealed) => Some(
                        DeviceRow {
                            public_key: row.public_key,
                            certificate_der: copy_bytes(row.certificate_der.as_slice()),
                            sealed,
                        },
                    ),
                }
            },
        };
        let mut resealed_keys: OrdMap<(SpaceId, u64), Vec<u8>> = OrdMap::new();
        let mut index: usize = 0;
        while index < self.rows.keys.len()
            invariant
                *self == *old(self),
                start == self@,
                self.wf(),
                keys == self.rows.keys.keys(),
                keys == key_places(start.keys),
                keys.no_duplicates(),
                index <= keys.len() == nonces@.len(),
                resealed_keys.wf(),
                resealing_refusal(start, keys, device_nonce, nonces@, index as nat) is None,
                resealing_refusal(start, keys, device_nonce, nonces@, nonces@.len()) is None
                    ==> all_authenticate(start),
                (start.device is Some ==> device_nonce is Some) && (forall|i: int|
                    0 <= i < nonces@.len() ==> #[trigger] nonces@[i] is Some) ==> resealing_refusal(
                    start,
                    keys,
                    device_nonce,
                    nonces@,
                    nonces@.len(),
                ) == if all_authenticate(start) {
                    None
                } else {
                    Some(TrustFailure::ProtectedMaterial)
                },
                forall|i: int|
                    0 <= i < index ==> resealed_keys@.contains_key(#[trigger] keys[i])
                        && resealed_keys@[keys[i]]@ == resealed_bytes(
                        start.key,
                        new_key@,
                        space_key_data(keys[i].0, keys[i].1),
                        start.keys[keys[i]],
                        nonces@[i]->0@,
                    ) && resealed_one(
                        start.key,
                        new_key@,
                        keys[i],
                        start.keys[keys[i]],
                        resealed_keys@[keys[i]]@,
                    ),
                forall|key: (SpaceId, u64)| #[trigger]
                    resealed_keys@.contains_key(key) ==> start.keys.contains_key(key),
            decreases keys.len() - index,
        {
            let key = self.rows.keys.key_at(index);
            let sealed = self.rows.keys.value_at(index);
            assert(key@ == keys[index as int]);
            assert(start.keys[keys[index as int]] == sealed@);
            let data = space_key_aad(key.0, key.1);
            let fresh = match self.reseal(
                &new_key,
                data.as_slice(),
                sealed.as_slice(),
                nonces[index],
            ) {
                Err(error) => {
                    proof {
                        lemma_first_resealing_refusal(
                            start,
                            keys,
                            device_nonce,
                            nonces@,
                            (index + 1) as nat,
                            nonces@.len(),
                        );
                    }
                    return Err(error);
                },
                Ok(fresh) => fresh,
            };
            let former = resealed_keys.insert((key.0, key.1), fresh);
            index += 1;
        }
        proof {
            self.rows.keys.lemma_keys();
            assert forall|key: (SpaceId, u64)| #[trigger]
                start.keys.contains_key(key) implies resealed_keys@.contains_key(key)
                && resealed_one(
                start.key,
                new_key@,
                key,
                start.keys[key],
                resealed_keys@[key]@,
            ) by {
                assert(self.rows.keys@.contains_key(key));
                assert(keys.contains(key));
                let i = choose|i: int| 0 <= i < keys.len() && keys[i] == key;
                assert(resealed_keys@.contains_key(keys[i]));
            }
        }
        self.rows.device = device;
        self.rows.keys = resealed_keys;
        self.wrapping_key = new_key;
        assert(self@.keys.dom() =~= start.keys.dom());
        Ok(())
    }

    /// Opens sealed bytes and seals them under a new key, with a nonce, unless
    /// none could be drawn.
    fn reseal(
        &self,
        new_key: &WrappingKey,
        data: &[u8],
        sealed: &[u8],
        drawn: Option<[u8; 24]>,
    ) -> (resealed: Result<Vec<u8>, TrustError>)
        ensures
            trust_refused(resealed) == if unsealed(self@.key, data@, sealed@) is None {
                Some(TrustFailure::ProtectedMaterial)
            } else if drawn is None {
                Some(TrustFailure::Randomness)
            } else {
                None
            },
            resealed matches Ok(resealed) ==> {
                &&& resealed@ == resealed_bytes(
                    self@.key,
                    new_key@,
                    data@,
                    sealed@,
                    drawn->0@,
                )
                &&& seals(
                    new_key@,
                    data@,
                    unsealed(self@.key, data@, sealed@)->0,
                    resealed@,
                )
            },
    {
        let mut plaintext = match unseal(&self.wrapping_key, data, sealed) {
            Ok(plaintext) => plaintext,
            Err(error) => {
                return Err(error);
            },
        };
        let resealed = match drawn {
            None => Err(TrustError::Randomness),
            Some(nonce) => seal_with(new_key, data, plaintext.as_slice(), nonce),
        };
        crypto::wipe_all(&mut plaintext);
        resealed
    }
}

/// What sealed bytes become when they are sealed under another key and a nonce.
pub open spec fn resealed_bytes(
    old_key: Seq<u8>,
    new_key: Seq<u8>,
    data: Seq<u8>,
    sealed: Seq<u8>,
    nonce: Seq<u8>,
) -> Seq<u8> {
    nonce + crypto::aead_sealed(new_key, nonce, data, unsealed(old_key, data, sealed)->0)
}

/// Whether places are those of the sealed content keys, in ascending order.
pub open spec fn orders_keys(
    keys: Map<(SpaceId, u64), Seq<u8>>,
    places: Seq<(SpaceId, u64)>,
) -> bool {
    &&& ascending::<(SpaceId, u64)>(places)
    &&& forall|place: (SpaceId, u64)| #[trigger]
        keys.contains_key(place) <==> places.contains(place)
}

/// The places of the sealed content keys, in ascending order.
pub open spec fn key_places(keys: Map<(SpaceId, u64), Seq<u8>>) -> Seq<(SpaceId, u64)> {
    choose|places: Seq<(SpaceId, u64)>| orders_keys(keys, places)
}

/// The places in ascending order are unique.
pub proof fn lemma_key_places(
    keys: Map<(SpaceId, u64), Seq<u8>>,
    places: Seq<(SpaceId, u64)>,
)
    requires
        orders_keys(keys, places),
    ensures
        key_places(keys) == places,
{
    let other = key_places(keys);
    assert forall|place: (SpaceId, u64)| #[trigger]
        other.contains(place) <==> places.contains(place) by {
        assert(keys.contains_key(place) <==> places.contains(place));
        assert(keys.contains_key(place) <==> other.contains(place));
    }
    lemma_ascending_unique::<(SpaceId, u64)>(other, places);
}

/// Whether the device's credentials open under the vault's wrapping key, where
/// it has any.
pub open spec fn device_authenticates(state: TrustView) -> bool {
    state.device matches Some(row) ==> unsealed(
        state.key,
        device_data(row.public_key, row.certificate),
        row.sealed,
    ) is Some
}

/// Why sealing the device's credentials and the first content keys again is
/// refused: the first of them does not open, or has no nonce.
pub open spec fn resealing_refusal(
    state: TrustView,
    places: Seq<(SpaceId, u64)>,
    device_nonce: Option<[u8; 24]>,
    nonces: Seq<Option<[u8; 24]>>,
    len: nat,
) -> Option<TrustFailure>
    decreases len,
{
    if len == 0 {
        if !device_authenticates(state) {
            Some(TrustFailure::ProtectedMaterial)
        } else if state.device is Some && device_nonce is None {
            Some(TrustFailure::Randomness)
        } else {
            None
        }
    } else {
        match resealing_refusal(state, places, device_nonce, nonces, (len - 1) as nat) {
            Some(error) => Some(error),
            None => {
                let place = places[len - 1];
                if unsealed(state.key, space_key_data(place.0, place.1), state.keys[place]) is None {
                    Some(TrustFailure::ProtectedMaterial)
                } else if nonces[len - 1] is None {
                    Some(TrustFailure::Randomness)
                } else {
                    None
                }
            },
        }
    }
}

proof fn lemma_first_resealing_refusal(
    state: TrustView,
    places: Seq<(SpaceId, u64)>,
    device_nonce: Option<[u8; 24]>,
    nonces: Seq<Option<[u8; 24]>>,
    len: nat,
    more: nat,
)
    requires
        len <= more,
        resealing_refusal(state, places, device_nonce, nonces, len) is Some,
    ensures
        resealing_refusal(state, places, device_nonce, nonces, more) == resealing_refusal(
            state,
            places,
            device_nonce,
            nonces,
            len,
        ),
    decreases more,
{
    if len < more {
        lemma_first_resealing_refusal(
            state,
            places,
            device_nonce,
            nonces,
            len,
            (more - 1) as nat,
        );
    }
}

/// What the refusal of the first rows says of them.
proof fn lemma_resealed_prefix(
    state: TrustView,
    places: Seq<(SpaceId, u64)>,
    device_nonce: Option<[u8; 24]>,
    nonces: Seq<Option<[u8; 24]>>,
    len: nat,
)
    requires
        len <= places.len() == nonces.len(),
    ensures
        ({
            let refused = resealing_refusal(state, places, device_nonce, nonces, len);
            let open = device_authenticates(state) && forall|i: int|
                0 <= i < len ==> unsealed(
                    state.key,
                    space_key_data((#[trigger] places[i]).0, places[i].1),
                    state.keys[places[i]],
                ) is Some;
            let drawn = (state.device is Some ==> device_nonce is Some) && forall|i: int|
                0 <= i < len ==> #[trigger] nonces[i] is Some;
            &&& refused is None <==> open && drawn
            &&& refused matches Some(error) ==> error == TrustFailure::ProtectedMaterial || error
                == TrustFailure::Randomness
            &&& refused == Some(TrustFailure::ProtectedMaterial) ==> !open
            &&& refused == Some(TrustFailure::Randomness) ==> !drawn
        }),
    decreases len,
{
    if len > 0 {
        lemma_resealed_prefix(state, places, device_nonce, nonces, (len - 1) as nat);
        let place = places[len - 1];
        let nonce = nonces[len - 1];
    }
}

/// What the refusal of all rows says of the vault.
proof fn lemma_resealing_refusal(
    state: TrustView,
    places: Seq<(SpaceId, u64)>,
    device_nonce: Option<[u8; 24]>,
    nonces: Seq<Option<[u8; 24]>>,
    len: nat,
)
    requires
        orders_keys(state.keys, places),
        len == nonces.len() == places.len(),
    ensures
        ({
            let refused = resealing_refusal(state, places, device_nonce, nonces, len);
            let drawn = (state.device is Some ==> device_nonce is Some) && forall|i: int|
                0 <= i < len ==> #[trigger] nonces[i] is Some;
            &&& refused is None <==> all_authenticate(state) && drawn
            &&& refused matches Some(error) ==> error == TrustFailure::ProtectedMaterial || error
                == TrustFailure::Randomness
            &&& refused == Some(TrustFailure::ProtectedMaterial) ==> !all_authenticate(state)
            &&& refused == Some(TrustFailure::Randomness) ==> !drawn
            &&& !device_authenticates(state) ==> refused == Some(TrustFailure::ProtectedMaterial)
        }),
{
    lemma_resealed_prefix(state, places, device_nonce, nonces, len);
    assert forall|i: int| 0 <= i < len implies state.keys.contains_key(#[trigger] places[i]) by {
        assert(places.contains(places[i]));
    }
    if forall|i: int|
        0 <= i < len ==> unsealed(
            state.key,
            space_key_data((#[trigger] places[i]).0, places[i].1),
            state.keys[places[i]],
        ) is Some {
        assert forall|key: (SpaceId, u64)| #[trigger] state.keys.contains_key(key) implies unsealed(
            state.key,
            space_key_data(key.0, key.1),
            state.keys[key],
        ) is Some by {
            assert(places.contains(key));
            let i = choose|i: int| 0 <= i < places.len() && places[i] == key;
            assert(unsealed(
                state.key,
                space_key_data(places[i].0, places[i].1),
                state.keys[places[i]],
            ) is Some);
        }
    }
    if !device_authenticates(state) {
        lemma_first_resealing_refusal(state, places, device_nonce, nonces, 0, len);
    }
}

/// Why an owned space cannot be rotated, before anything is drawn.
pub open spec fn rotation_refusal(state: TrustView, space: SpaceId) -> Option<TrustFailure> {
    match state.needed_device() {
        Err(error) => Some(error),
        Ok(device) => {
            let owner = crypto::ed25519_public(device.secret);
            match state.loaded_credentials(space) {
                Err(error) => Some(error),
                Ok(None) => Some(TrustFailure::InconsistentCapability),
                Ok(Some((access, _))) => if access.authority.issuer != owner
                    || access.capability.subject != owner {
                    Some(TrustFailure::SharePrincipalMismatch)
                } else if access.authority.epoch == u64::MAX {
                    Some(TrustFailure::ProtectedMaterial)
                } else {
                    None
                },
            }
        },
    }
}

/// Whether every sealed row opens under the vault's wrapping key.
pub open spec fn all_authenticate(state: TrustView) -> bool {
    &&& device_authenticates(state)
    &&& forall|key: (SpaceId, u64)| #[trigger]
        state.keys.contains_key(key) ==> unsealed(
            state.key,
            space_key_data(key.0, key.1),
            state.keys[key],
        ) is Some
}

/// Whether sealed bytes hold under a new key what others held under the old
/// one.
pub open spec fn resealed_one(
    old_key: Seq<u8>,
    new_key: Seq<u8>,
    place: (SpaceId, u64),
    before: Seq<u8>,
    after: Seq<u8>,
) -> bool {
    let data = space_key_data(place.0, place.1);
    &&& unsealed(old_key, data, before) matches Some(plaintext)
    &&& seals(new_key, data, plaintext, after)
}

/// Whether a vault is another one with every secret sealed under a new key.
pub open spec fn resealed(before: TrustView, after: TrustView, new_key: Seq<u8>) -> bool {
    &&& after == (TrustView {
        key: new_key,
        device: after.device,
        keys: after.keys,
        ..before
    })
    &&& match before.device {
        None => after.device is None,
        Some(row) => {
            let data = device_data(row.public_key, row.certificate);
            &&& after.device matches Some(fresh)
            &&& fresh.public_key == row.public_key
            &&& fresh.certificate == row.certificate
            &&& unsealed(before.key, data, row.sealed) matches Some(plaintext)
            &&& seals(new_key, data, plaintext, fresh.sealed)
        },
    }
    &&& after.keys.dom() == before.keys.dom()
    &&& forall|key: (SpaceId, u64)| #[trigger]
        before.keys.contains_key(key) ==> resealed_one(
            before.key,
            new_key,
            key,
            before.keys[key],
            after.keys[key],
        )
}

proof fn lemma_key_removed(
    before: OrdMap<(SpaceId, DevicePublicKey), MemberRow>,
    after: OrdMap<(SpaceId, DevicePublicKey), MemberRow>,
    at: int,
)
    requires
        before.wf(),
        after.wf(),
        0 <= at < before.keys().len(),
        after@ == before@.remove(before.keys()[at]),
    ensures
        after.keys() == before.keys().remove(at),
{
    before.lemma_keys();
    after.lemma_keys();
    let keys = before.keys();
    let left = keys.remove(at);
    assert forall|i: int, j: int| 0 <= i < j < left.len() implies <(
        SpaceId,
        DevicePublicKey,
    ) as Key>::before(#[trigger] left[i], #[trigger] left[j]) by {
        let a = if i < at {
            i
        } else {
            i + 1
        };
        let b = if j < at {
            j
        } else {
            j + 1
        };
        assert(left[i] == keys[a] && left[j] == keys[b]);
    }
    assert forall|key: (SpaceId, Seq<u8>)| #[trigger]
        after.keys().contains(key) <==> left.contains(key) by {
        if after.keys().contains(key) {
            let i = choose|i: int| 0 <= i < after.keys().len() && after.keys()[i] == key;
            assert(after@.contains_key(after.keys()[i]));
            assert(before@.contains_key(key));
            assert(keys.contains(key));
            let k = choose|k: int| 0 <= k < keys.len() && keys[k] == key;
            assert(k != at);
            if k < at {
                assert(left[k] == key);
            } else {
                assert(left[k - 1] == key);
            }
        }
        if left.contains(key) {
            let i = choose|i: int| 0 <= i < left.len() && left[i] == key;
            let k = if i < at {
                i
            } else {
                i + 1
            };
            assert(keys[k] == key);
            assert(before@.contains_key(keys[k]));
            assert(keys[k] != keys[at]);
            assert(after@.contains_key(key));
        }
    }
    lemma_ascending_unique::<(SpaceId, DevicePublicKey)>(after.keys(), left);
}

} // verus!
