//! What holds of a trust vault across its operations.

use super::error::TrustFailure;
use super::material::{
    decoded_material, device_data, space_key_data, unsealed, MaterialView,
};
use super::rows::{
    number_refusal, AccessView, DeviceRowView, MemberRowView, PeerView, TrustView,
};
use super::vault::{decoded_peer, empty_vault, lists_peers, peers_keyed};
use super::vault::shares::{granted, offer_hash_of};
use super::vault::spaces::{
    access_refusal, all_authenticate, grants_refusal, granting, is_roster, of_space, own_access,
    renews, repeats, resealed, roster, rotation_refusal, subjects, unrevoked,
};
use super::vault::users::{extends, lemma_rows_read_back, row_events};
use crate::authority::capability::{
    law_authorization_is_exact, AuthorityView, CapabilityView, Operation, Permission,
};
use crate::authority::invitation::InvitationView;
use crate::crypto::{ed25519_point, ed25519_public};
use crate::id::SpaceId;
use crate::identity::device::{device_id, DevicePublicKey};
use crate::identity::user::{chain, event_digest, EventView, UserIdentityError, UserView};
use crate::ordmap::{ascending, bytes_before, Key};
use crate::rows::lemma_kept;
use vstd::prelude::*;

verus! {

/// A redeemed pairing invitation cannot be redeemed again, by any device at
/// any time.
pub proof fn law_pairing_invitation_is_single_use(
    state: TrustView,
    id: Seq<u8>,
    now: u64,
    peer: PeerView,
    spaces: Seq<SpaceId>,
    later: u64,
    other: PeerView,
)
    requires
        state.redeem_refusal(id, now, peer) is None,
    ensures
        state.redeemed(id, now, peer, spaces).redeem_refusal(id, later, other) is Some,
        number_refusal(later) is None ==> state.redeemed(id, now, peer, spaces).redeem_refusal(
            id,
            later,
            other,
        ) == Some(TrustFailure::InvitationUnavailable),
{
}

/// An expired pairing invitation admits no peer.
pub proof fn law_expired_invitation_is_refused(
    state: TrustView,
    id: Seq<u8>,
    now: u64,
    peer: PeerView,
)
    requires
        state.invitations.contains_key(id),
        state.invitations[id].expires_at < now,
    ensures
        state.redeem_refusal(id, now, peer) is Some,
{
}

/// A redemption admits the subject's capability to the space's roster.
pub proof fn law_redemption_admits_the_subject(
    state: TrustView,
    invitation: InvitationView,
    subject: Seq<u8>,
    peer: Option<PeerView>,
    capability: CapabilityView,
    now: u64,
)
    requires
        state.redeemable(invitation, now),
        state.redeeming(invitation, subject, peer, capability, now).0 is Ok,
    ensures
        ({
            let after = state.redeeming(invitation, subject, peer, capability, now).1;
            &&& after.members.contains_key((invitation.space, subject))
            &&& after.members[(invitation.space, subject)] == (MemberRowView {
                epoch: invitation.epoch,
                capability,
            })
            &&& peer matches Some(peer) ==> after.peers.contains_key(device_id(peer.public_key))
                && after.peers[device_id(peer.public_key)] == peer && after.peer_spaces.contains(
                (device_id(peer.public_key), invitation.space),
            )
        }),
{
    if let Some(peer) = peer {
        assert(seq![invitation.space].contains(invitation.space)) by {
            assert(seq![invitation.space][0] == invitation.space);
        }
    }
}

/// Redeeming a share invitation admits nobody to another space: the rosters,
/// the authority and the keys of every other space stay, as do the links of
/// other peers.
pub proof fn law_redemption_is_scoped(
    state: TrustView,
    invitation: InvitationView,
    subject: Seq<u8>,
    peer: Option<PeerView>,
    capability: CapabilityView,
    now: u64,
)
    ensures
        ({
            let after = state.redeeming(invitation, subject, peer, capability, now).1;
            &&& forall|space: SpaceId, other: Seq<u8>|
                space != invitation.space || other != subject ==> #[trigger] after.members.contains_key(
                    (space, other),
                ) == state.members.contains_key((space, other)) && (state.members.contains_key(
                    (space, other),
                ) ==> after.members[(space, other)] == state.members[(space, other)])
            &&& forall|id: Seq<u8>, space: SpaceId|
                space != invitation.space ==> #[trigger] after.peer_spaces.contains((id, space))
                    == state.peer_spaces.contains((id, space))
            &&& after.access == state.access
            &&& after.keys == state.keys
            &&& after.loaded_device() == state.loaded_device()
            &&& after.loaded_user() == state.loaded_user()
        }),
{
}

/// A redeemed share invitation serves no other subject, and a retry by the
/// same subject returns the committed capability and changes nothing.
pub proof fn law_share_is_single_use_and_retry_safe(
    state: TrustView,
    invitation: InvitationView,
    subject: Seq<u8>,
    peer: Option<PeerView>,
    capability: CapabilityView,
    now: u64,
    other: Seq<u8>,
    other_peer: Option<PeerView>,
    other_capability: CapabilityView,
    later: u64,
)
    requires
        state.redeemable(invitation, now),
        state.redeeming(invitation, subject, peer, capability, now).0 is Ok,
        number_refusal(later) is None,
    ensures
        ({
            let after = state.redeeming(invitation, subject, peer, capability, now).1;
            after.redeeming(invitation, other, other_peer, other_capability, later) == if other
                == subject {
                (Ok::<CapabilityView, TrustFailure>(capability), after)
            } else {
                (
                    Err::<CapabilityView, TrustFailure>(TrustFailure::InvitationUnavailable),
                    after,
                )
            }
        }),
{
}

/// A refused redemption changes nothing.
pub proof fn law_refused_redemption_changes_nothing(
    state: TrustView,
    invitation: InvitationView,
    subject: Seq<u8>,
    peer: Option<PeerView>,
    capability: CapabilityView,
    now: u64,
)
    requires
        state.redeeming(invitation, subject, peer, capability, now).0 is Err,
    ensures
        state.redeeming(invitation, subject, peer, capability, now).1 == state,
{
}

/// An invitation whose recorded bytes differ from those presented is refused.
pub proof fn law_changed_offer_is_refused(
    state: TrustView,
    invitation: InvitationView,
    subject: Seq<u8>,
    peer: Option<PeerView>,
    capability: CapabilityView,
    now: u64,
)
    requires
        state.shares.contains_key(invitation.id),
        state.shares[invitation.id].offer_hash != offer_hash_of(invitation),
    ensures
        state.redeeming(invitation, subject, peer, capability, now).0 is Err,
{
}

/// Stored authority never goes back to an earlier epoch.
pub proof fn law_epochs_never_roll_back(state: TrustView, access: AccessView)
    requires
        state.store_refusal(access) is None,
        state.access.contains_key(access.authority.space),
    ensures
        access.authority.epoch >= state.access[access.authority.space].epoch,
{
}

/// A committed or delivered epoch is later than the one it replaces.
pub proof fn law_epochs_advance(
    state: TrustView,
    local: AccessView,
    granted: Seq<CapabilityView>,
    peer: PeerView,
    now: u64,
)
    requires
        state.access.contains_key(local.authority.space),
    ensures
        state.epoch_refusal(local, granted, now) is None ==> local.authority.epoch
            > state.access[local.authority.space].epoch,
        state.delivery_refusal(peer, local, now) is None ==> local.authority.epoch
            > state.access[local.authority.space].epoch,
{
}

/// Advancing a space keeps every key that was retained, the authority of other
/// spaces, the peers, the invitations and the user.
pub proof fn law_history_keys_are_retained(
    state: TrustView,
    local: AccessView,
    granted: Seq<CapabilityView>,
    sealed: Seq<u8>,
)
    requires
        state.write_refusal(local, granted) is None,
    ensures
        ({
            let after = state.advanced(local, sealed, granted);
            &&& forall|space: SpaceId, epoch: u64| #[trigger]
                state.keys.contains_key((space, epoch)) ==> after.keys.contains_key((space, epoch))
                    && after.loaded_key(space, epoch) == state.loaded_key(space, epoch)
            &&& forall|space: SpaceId|
                space != local.authority.space ==> #[trigger] after.loaded_access(space)
                    == state.loaded_access(space)
            &&& after.peers == state.peers
            &&& after.shares == state.shares
            &&& after.loaded_device() == state.loaded_device()
            &&& after.loaded_user() == state.loaded_user()
        }),
{
}

/// The credentials of a committed epoch are those that were committed.
pub proof fn law_committed_epoch_is_read_back(
    before: TrustView,
    after: TrustView,
    local: AccessView,
    key: Seq<u8>,
    granted: Seq<CapabilityView>,
)
    requires
        before.advances(after, local, key, granted),
        local.coherent(),
        ed25519_point(local.authority.issuer),
    ensures
        after.loaded_credentials(local.authority.space) == Ok::<
            Option<(AccessView, Seq<u8>)>,
            TrustFailure,
        >(Some((local, key))),
{
    let access = after.loaded_access(local.authority.space);
    assert(access == Ok::<Option<AccessView>, TrustFailure>(Some(local)));
}

/// The credentials of an accepted shared space, or of a delivered epoch of it,
/// are those that were accepted; its owner is recorded as a peer of that space,
/// and the authority and the keys of other spaces stay.
pub proof fn law_accepted_space_is_read_back(
    before: TrustView,
    after: TrustView,
    peer: PeerView,
    access: AccessView,
    key: Seq<u8>,
)
    requires
        before.shares_space(after, peer, access, key),
        access.coherent(),
        ed25519_point(access.authority.issuer),
    ensures
        after.loaded_credentials(access.authority.space) == Ok::<
            Option<(AccessView, Seq<u8>)>,
            TrustFailure,
        >(Some((access, key))),
        after.peers.contains_key(device_id(peer.public_key)),
        after.peers[device_id(peer.public_key)] == peer,
        after.peer_spaces.contains((device_id(peer.public_key), access.authority.space)),
        forall|space: SpaceId|
            space != access.authority.space ==> #[trigger] after.loaded_access(space)
                == before.loaded_access(space),
        forall|space: SpaceId, epoch: u64|
            space != access.authority.space ==> #[trigger] after.loaded_key(space, epoch)
                == before.loaded_key(space, epoch),
        after.members == before.members,
        after.loaded_device() == before.loaded_device(),
        after.loaded_user() == before.loaded_user(),
{
    let space = access.authority.space;
    assert(seq![space].contains(space)) by {
        assert(seq![space][0] == space);
    }
    assert(after.loaded_access(space) == Ok::<Option<AccessView>, TrustFailure>(Some(access)));
}

/// What a roster holds after grants without repeated subjects.
proof fn lemma_granting(
    members: Map<(SpaceId, Seq<u8>), MemberRowView>,
    space: SpaceId,
    epoch: u64,
    granted: Seq<CapabilityView>,
)
    requires
        !repeats(granted),
    ensures
        forall|i: int|
            0 <= i < granted.len() ==> {
                let key = (space, (#[trigger] granted[i]).subject);
                &&& granting(members, space, epoch, granted).contains_key(key)
                &&& granting(members, space, epoch, granted)[key] == (MemberRowView {
                    epoch,
                    capability: granted[i],
                })
            },
        forall|key: (SpaceId, Seq<u8>)|
            (key.0 != space || forall|i: int|
                0 <= i < granted.len() ==> (#[trigger] granted[i]).subject != key.1) ==> (
            #[trigger] granting(members, space, epoch, granted).contains_key(key)
                == members.contains_key(key) && (members.contains_key(key) ==> granting(
                members,
                space,
                epoch,
                granted,
            )[key] == members[key])),
    decreases granted.len(),
{
    if granted.len() > 0 {
        let shorter = granted.drop_last();
        let last = granted.len() - 1;
        assert(!repeats(shorter)) by {
            if repeats(shorter) {
                let (i, j) = choose|i: int, j: int|
                    0 <= i < j < shorter.len() && (#[trigger] shorter[i]).subject == (
                    #[trigger] shorter[j]).subject;
                assert(granted[i] == shorter[i] && granted[j] == shorter[j]);
            }
        }
        lemma_granting(members, space, epoch, shorter);
        let so_far = granting(members, space, epoch, shorter);
        let all = granting(members, space, epoch, granted);
        assert forall|i: int| 0 <= i < granted.len() implies {
            let key = (space, (#[trigger] granted[i]).subject);
            &&& all.contains_key(key)
            &&& all[key] == (MemberRowView { epoch, capability: granted[i] })
        } by {
            if i < last {
                assert(shorter[i] == granted[i]);
                assert(granted[i].subject != granted[last].subject);
            }
        }
        assert forall|key: (SpaceId, Seq<u8>)|
            (key.0 != space || forall|i: int|
                0 <= i < granted.len() ==> (#[trigger] granted[i]).subject != key.1) implies (
        #[trigger] all.contains_key(key) == members.contains_key(key) && (members.contains_key(key)
            ==> all[key] == members[key])) by {
            if key.0 == space {
                assert(granted[last].subject != key.1);
                assert forall|i: int| 0 <= i < shorter.len() implies (#[trigger] shorter[i]).subject
                    != key.1 by {
                    assert(shorter[i] == granted[i]);
                }
            }
            assert(so_far.contains_key(key) == members.contains_key(key));
        }
    }
}

/// The roster of an advanced space is exactly what was granted: omitted
/// devices are revoked, and the rosters of other spaces stay.
pub proof fn law_omitted_members_are_revoked(
    state: TrustView,
    local: AccessView,
    granted: Seq<CapabilityView>,
    sealed: Seq<u8>,
)
    requires
        state.write_refusal(local, granted) is None,
    ensures
        ({
            let after = state.advanced(local, sealed, granted);
            let space = local.authority.space;
            &&& forall|i: int|
                0 <= i < granted.len() ==> after.members.contains_key(
                    (space, (#[trigger] granted[i]).subject),
                ) && after.members[(space, granted[i].subject)].capability == granted[i]
            &&& forall|subject: Seq<u8>| #[trigger]
                after.members.contains_key((space, subject)) ==> exists|i: int|
                    0 <= i < granted.len() && (#[trigger] granted[i]).subject == subject
            &&& forall|other: SpaceId, subject: Seq<u8>|
                other != space ==> #[trigger] after.members.contains_key((other, subject))
                    == state.members.contains_key((other, subject)) && (
                state.members.contains_key((other, subject)) ==> after.members[(other, subject)]
                    == state.members[(other, subject)])
        }),
{
    let space = local.authority.space;
    let cleared = state.members.remove_keys(of_space(space));
    lemma_granting(cleared, space, local.authority.epoch, granted);
    let after = state.advanced(local, sealed, granted);
    assert forall|subject: Seq<u8>| #[trigger]
        after.members.contains_key((space, subject)) implies exists|i: int|
        0 <= i < granted.len() && (#[trigger] granted[i]).subject == subject by {
        if forall|i: int| 0 <= i < granted.len() ==> (#[trigger] granted[i]).subject != subject {
            assert(after.members.contains_key((space, subject)) == cleared.contains_key(
                (space, subject),
            ));
            assert(of_space(space).contains((space, subject)));
        }
    }
    assert forall|other: SpaceId, subject: Seq<u8>| other != space implies #[trigger]
        after.members.contains_key((other, subject)) == state.members.contains_key(
        (other, subject),
    ) && (state.members.contains_key((other, subject)) ==> after.members[(other, subject)]
        == state.members[(other, subject)]) by {
        assert(!of_space(space).contains((other, subject)));
        assert(cleared.contains_key((other, subject)) == state.members.contains_key(
            (other, subject),
        ));
    }
}

/// Rotating an owned space keeps every member that is not revoked, with the
/// same permission, and drops every revoked one.
pub proof fn law_rotation_keeps_unrevoked_members(
    state: TrustView,
    local: AccessView,
    granted: Seq<CapabilityView>,
    sealed: Seq<u8>,
    revoked: Seq<Seq<u8>>,
    secret: Seq<u8>,
    public: Seq<u8>,
    now: u64,
    subject: Seq<u8>,
)
    requires
        state.write_refusal(local, granted) is None,
        is_roster(
            state.members,
            local.authority.space,
            subjects(state.members, local.authority.space),
        ),
        renews(
            granted,
            roster(state.members, local.authority.space).filter(unrevoked(revoked)),
            secret,
            public,
            local.authority.space,
            local.authority.epoch,
            now,
        ),
        state.members.contains_key((local.authority.space, subject)),
        state.members[(local.authority.space, subject)].capability.subject == subject,
    ensures
        ({
            let after = state.advanced(local, sealed, granted);
            let place = (local.authority.space, subject);
            if revoked.contains(subject) {
                !after.members.contains_key(place)
            } else {
                &&& after.members.contains_key(place)
                &&& after.members[place].capability.permission
                    == state.members[place].capability.permission
                &&& after.members[place].capability.epoch == local.authority.epoch
            }
        }),
{
    let space = local.authority.space;
    let keys = subjects(state.members, space);
    let all = roster(state.members, space);
    let keep = unrevoked(revoked);
    let kept = all.filter(keep);
    let member = state.members[(space, subject)].capability;
    law_omitted_members_are_revoked(state, local, granted, sealed);
    let after = state.advanced(local, sealed, granted);
    if revoked.contains(subject) {
        if after.members.contains_key((space, subject)) {
            let i = choose|i: int| 0 <= i < granted.len() && (#[trigger] granted[i]).subject
                == subject;
            assert(granted[i].subject == kept[i].subject);
            all.lemma_filter_pred(keep, i);
        }
    } else {
        assert(keys.contains(subject));
        let k = choose|k: int| 0 <= k < keys.len() && keys[k] == subject;
        assert(all[k] == member);
        all.lemma_filter_contains(keep, k);
        let i = choose|i: int| 0 <= i < kept.len() && kept[i] == member;
        assert(granted[i].subject == subject);
        assert(granted[i].permission == member.permission);
    }
}

/// Invitations of an earlier epoch cannot be recorded or redeemed once the
/// space has advanced.
pub proof fn law_rotation_invalidates_old_invitations(
    state: TrustView,
    local: AccessView,
    granted: Seq<CapabilityView>,
    sealed: Seq<u8>,
    invitation: InvitationView,
)
    requires
        invitation.space == local.authority.space,
        invitation.epoch != local.authority.epoch,
    ensures
        state.advanced(local, sealed, granted).offer_refusal(invitation) is Some,
        state.advanced(local, sealed, granted).record_refusal(invitation) is Some,
        local.coherent() && ed25519_point(local.authority.issuer) ==> state.advanced(
            local,
            sealed,
            granted,
        ).offer_refusal(invitation) == Some(TrustFailure::InvitationUnavailable),
{
}

/// Every device secret and content key opens to the same bytes after the
/// wrapping key is rotated, and nothing else changes.
pub proof fn law_wrapping_key_rotation_keeps_secrets(
    before: TrustView,
    after: TrustView,
    new_key: Seq<u8>,
)
    requires
        resealed(before, after, new_key),
    ensures
        after.loaded_device() == before.loaded_device(),
        forall|space: SpaceId, epoch: u64| #[trigger]
            after.loaded_key(space, epoch) == before.loaded_key(space, epoch),
        forall|space: SpaceId| #[trigger]
            after.loaded_credentials(space) == before.loaded_credentials(space),
        after.loaded_user() == before.loaded_user(),
        after.members == before.members,
        after.peers == before.peers,
        after.shares == before.shares,
{
    assert forall|space: SpaceId, epoch: u64| #[trigger] after.loaded_key(space, epoch)
        == before.loaded_key(space, epoch) by {
        assert(after.keys.contains_key((space, epoch)) == before.keys.contains_key(
            (space, epoch),
        )) by {
            assert(after.keys.dom().contains((space, epoch)) == before.keys.dom().contains(
                (space, epoch),
            ));
        }
    }
}

/// Linking the same spaces with a peer again changes nothing, and the links of
/// other peers stay.
pub proof fn law_linked_spaces_are_deduplicated_and_scoped(
    state: TrustView,
    peer: PeerView,
    spaces: Seq<SpaceId>,
)
    ensures
        state.with_peer(peer, spaces).with_peer(peer, spaces) == state.with_peer(peer, spaces),
        forall|space: SpaceId| #[trigger]
            spaces.contains(space) ==> state.with_peer(peer, spaces).peer_spaces.contains(
                (device_id(peer.public_key), space),
            ),
        forall|id: Seq<u8>, space: SpaceId|
            id != device_id(peer.public_key) ==> #[trigger] state.with_peer(
                peer,
                spaces,
            ).peer_spaces.contains((id, space)) == state.peer_spaces.contains((id, space)),
{
    assert(state.with_peer(peer, spaces).with_peer(peer, spaces) =~= state.with_peer(
        peer,
        spaces,
    ));
}

/// A history that does not extend the local one is refused as a fork.
pub proof fn law_forked_user_history_is_refused(
    state: TrustView,
    current: UserView,
    incoming: UserView,
)
    requires
        state.loaded_user() == Ok::<Option<UserView>, TrustFailure>(Some(current)),
        current.id != incoming.id || !extends(incoming.events, current.events),
    ensures
        state.import_refusal(incoming) == Some(
            TrustFailure::UserIdentity(UserIdentityError::Fork),
        ),
{
}

/// Importing a history again is accepted and changes nothing.
pub proof fn law_import_is_idempotent(state: TrustView, identity: UserView)
    requires
        chain(identity.events) == Ok::<UserView, UserIdentityError>(identity),
    ensures
        state.installed(identity).import_refusal(identity) is None,
        state.installed(identity).installed(identity) == state.installed(identity),
{
    lemma_rows_read_back(state.installed(identity), identity);
    assert(identity.events.take(identity.events.len() as int) =~= identity.events);
}

/// What a valid roster of grants says of each of them.
proof fn lemma_grants_valid(granted: Seq<CapabilityView>, authority: AuthorityView, now: u64)
    requires
        grants_refusal(granted, authority, now) is None,
    ensures
        forall|i: int|
            0 <= i < granted.len() ==> (#[trigger] granted[i]).authorize_refusal(
                authority,
                granted[i].subject,
                Operation::Read,
                now,
            ) is None,
    decreases granted.len(),
{
    if granted.len() > 0 {
        let shorter = granted.drop_last();
        lemma_grants_valid(shorter, authority, now);
        assert forall|i: int| 0 <= i < granted.len() implies (
        #[trigger] granted[i]).authorize_refusal(
            authority,
            granted[i].subject,
            Operation::Read,
            now,
        ) is None by {
            if i < shorter.len() {
                assert(granted[i] == shorter[i]);
            }
        }
    }
}

/// Rotation keeps the access of every member that is not revoked: under the new
/// authority the renewed grant begins at once and never runs out, and it
/// authorizes the member for every operation that the former grant allowed, at
/// every later time.
pub proof fn law_unrevoked_member_keeps_access(
    state: TrustView,
    local: AccessView,
    granted: Seq<CapabilityView>,
    sealed: Seq<u8>,
    revoked: Seq<Seq<u8>>,
    secret: Seq<u8>,
    public: Seq<u8>,
    now: u64,
    subject: Seq<u8>,
    operation: Operation,
    later: u64,
)
    requires
        state.epoch_refusal(local, granted, now) is None,
        state.write_refusal(local, granted) is None,
        is_roster(
            state.members,
            local.authority.space,
            subjects(state.members, local.authority.space),
        ),
        renews(
            granted,
            roster(state.members, local.authority.space).filter(unrevoked(revoked)),
            secret,
            public,
            local.authority.space,
            local.authority.epoch,
            now,
        ),
        state.members.contains_key((local.authority.space, subject)),
        state.members[(local.authority.space, subject)].capability.subject == subject,
        !revoked.contains(subject),
        operation == Operation::Read || state.members[(
            local.authority.space,
            subject,
        )].capability.permission == Permission::ReadWrite,
        now <= later < u64::MAX,
    ensures
        ({
            let after = state.advanced(local, sealed, granted);
            let place = (local.authority.space, subject);
            let capability = after.members[place].capability;
            &&& after.members.contains_key(place)
            &&& capability.subject == subject
            &&& capability.space == local.authority.space
            &&& capability.epoch == local.authority.epoch
            &&& capability.permission == state.members[place].capability.permission
            &&& capability.not_before == now
            &&& capability.expires_at == u64::MAX
            &&& capability.authorize_refusal(local.authority, subject, operation, later) is None
        }),
{
    law_rotation_keeps_unrevoked_members(
        state,
        local,
        granted,
        sealed,
        revoked,
        secret,
        public,
        now,
        subject,
    );
    law_omitted_members_are_revoked(state, local, granted, sealed);
    lemma_grants_valid(granted, local.authority, now);
    let after = state.advanced(local, sealed, granted);
    let place = (local.authority.space, subject);
    assert(after.members.contains_key(place));
    let i = choose|i: int| 0 <= i < granted.len() && (#[trigger] granted[i]).subject == subject;
    assert(after.members[(local.authority.space, granted[i].subject)].capability == granted[i]);
    law_authorization_is_exact(
        granted[i],
        local.authority,
        subject,
        Operation::Read,
        now,
    );
    law_authorization_is_exact(granted[i], local.authority, subject, operation, later);
}

/// Rotation admits nobody: whoever is a member afterwards was one before and
/// was not revoked.
pub proof fn law_rotation_admits_nobody(
    state: TrustView,
    local: AccessView,
    granted: Seq<CapabilityView>,
    sealed: Seq<u8>,
    revoked: Seq<Seq<u8>>,
    secret: Seq<u8>,
    public: Seq<u8>,
    now: u64,
    subject: Seq<u8>,
)
    requires
        state.write_refusal(local, granted) is None,
        is_roster(
            state.members,
            local.authority.space,
            subjects(state.members, local.authority.space),
        ),
        renews(
            granted,
            roster(state.members, local.authority.space).filter(unrevoked(revoked)),
            secret,
            public,
            local.authority.space,
            local.authority.epoch,
            now,
        ),
        forall|subject: Seq<u8>| #[trigger]
            state.members.contains_key((local.authority.space, subject)) ==> state.members[(
                local.authority.space,
                subject,
            )].capability.subject == subject,
        state.advanced(local, sealed, granted).members.contains_key(
            (local.authority.space, subject),
        ),
    ensures
        state.members.contains_key((local.authority.space, subject)),
        !revoked.contains(subject),
{
    let space = local.authority.space;
    law_omitted_members_are_revoked(state, local, granted, sealed);
    let i = choose|i: int| 0 <= i < granted.len() && (#[trigger] granted[i]).subject == subject;
    let keys = subjects(state.members, space);
    let all = roster(state.members, space);
    let keep = unrevoked(revoked);
    let kept = all.filter(keep);
    assert(granted[i].subject == kept[i].subject);
    lemma_kept(all, keep);
    assert(all.contains(kept[i]));
    let k = choose|k: int| 0 <= k < all.len() && all[k] == kept[i];
    assert(keys.contains(keys[k]));
    assert(state.members.contains_key((space, keys[k])));
    assert(all[k] == state.members[(space, keys[k])].capability);
}

/// A pairing invitation is redeemed exactly where it was issued, was not
/// redeemed before and has not run out, and both times can be kept.
pub proof fn law_pairing_redemption_is_exact(
    state: TrustView,
    id: Seq<u8>,
    now: u64,
    peer: PeerView,
)
    ensures
        state.redeem_refusal(id, now, peer) is None <==> {
            &&& state.invitations.contains_key(id)
            &&& state.invitations[id].redeemed_at is None
            &&& now <= state.invitations[id].expires_at
            &&& now <= i64::MAX
            &&& peer.paired_at <= i64::MAX
        },
{
}

/// Redeeming a pairing invitation marks that invitation and no other, records
/// the peer as it is, and links it with exactly the spaces given; everything
/// else in the vault stays.
pub proof fn law_pairing_redemption_admits_the_peer(
    state: TrustView,
    id: Seq<u8>,
    now: u64,
    peer: PeerView,
    spaces: Seq<SpaceId>,
)
    requires
        state.invitations.contains_key(id),
    ensures
        ({
            let after = state.redeemed(id, now, peer, spaces);
            let device = device_id(peer.public_key);
            &&& after.invitations.contains_key(id)
            &&& after.invitations[id].redeemed_at == Some(now)
            &&& after.invitations[id].expires_at == state.invitations[id].expires_at
            &&& after.invitations.remove(id) == state.invitations.remove(id)
            &&& after.peers.contains_key(device)
            &&& after.peers[device] == peer
            &&& after.peers.remove(device) == state.peers.remove(device)
            &&& forall|other: Seq<u8>, space: SpaceId| #[trigger]
                after.peer_spaces.contains((other, space)) <==> state.peer_spaces.contains(
                    (other, space),
                ) || (other == device && spaces.contains(space))
            &&& after.key == state.key
            &&& after.device == state.device
            &&& after.access == state.access
            &&& after.keys == state.keys
            &&& after.shares == state.shares
            &&& after.members == state.members
            &&& after.user == state.user
            &&& after.events == state.events
        }),
{
    let after = state.redeemed(id, now, peer, spaces);
    let device = device_id(peer.public_key);
    assert(after.invitations.remove(id) =~= state.invitations.remove(id));
    assert(after.peers.remove(device) =~= state.peers.remove(device));
}

/// Admitting a peer records it as it is and links it with exactly the spaces
/// given; everything else in the vault stays.
pub proof fn law_admitted_peer_is_recorded(
    state: TrustView,
    peer: PeerView,
    spaces: Seq<SpaceId>,
)
    ensures
        ({
            let after = state.with_peer(peer, spaces);
            let device = device_id(peer.public_key);
            &&& after.peers.contains_key(device)
            &&& after.peers[device] == peer
            &&& after.peers.remove(device) == state.peers.remove(device)
            &&& forall|other: Seq<u8>, space: SpaceId| #[trigger]
                after.peer_spaces.contains((other, space)) <==> state.peer_spaces.contains(
                    (other, space),
                ) || (other == device && spaces.contains(space))
            &&& after == (TrustView {
                peers: after.peers,
                peer_spaces: after.peer_spaces,
                ..state
            })
        }),
{
    let after = state.with_peer(peer, spaces);
    let device = device_id(peer.public_key);
    assert(after.peers.remove(device) =~= state.peers.remove(device));
}

/// A share invitation belongs to a space's authority exactly where the vault
/// holds sound authority over the space, with the same issuer and epoch.
pub proof fn law_offer_needs_current_authority(state: TrustView, invitation: InvitationView)
    ensures
        state.offer_refusal(invitation) is None <==> {
            let row = state.access[invitation.space];
            &&& state.access.contains_key(invitation.space)
            &&& ed25519_point(row.issuer)
            &&& row.capability.space == invitation.space
            &&& row.capability.issuer == row.issuer
            &&& row.capability.epoch == row.epoch
            &&& row.issuer == invitation.issuer
            &&& row.epoch == invitation.epoch
        },
        state.record_refusal(invitation) is None <==> {
            &&& state.offer_refusal(invitation) is None
            &&& invitation.expires_at <= i64::MAX
            &&& !state.shares.contains_key(invitation.id)
        },
{
}

/// A share invitation is redeemed by whoever comes first before it runs out:
/// exactly a recorded, unchanged and unredeemed one, in time. The subject then
/// holds the capability given, under the invitation's space and epoch, and the
/// invitation is spent; other invitations and members stay.
pub proof fn law_first_redemption_is_exact(
    state: TrustView,
    invitation: InvitationView,
    subject: Seq<u8>,
    peer: Option<PeerView>,
    capability: CapabilityView,
    now: u64,
)
    requires
        now <= i64::MAX,
        invitation.epoch <= i64::MAX,
        peer matches Some(peer) ==> peer.paired_at <= i64::MAX,
        state.shares.contains_key(invitation.id),
        state.shares[invitation.id].offer_hash == offer_hash_of(invitation),
        state.shares[invitation.id].redeemed_at is None,
        now <= state.shares[invitation.id].expires_at,
    ensures
        ({
            let (result, after) = state.redeeming(invitation, subject, peer, capability, now);
            let place = (invitation.space, subject);
            &&& result == Ok::<CapabilityView, TrustFailure>(capability)
            &&& after.shares[invitation.id].redeemed_at == Some(now)
            &&& after.shares[invitation.id].subject == Some(subject)
            &&& after.shares[invitation.id].capability == Some(capability)
            &&& after.shares[invitation.id].offer_hash == state.shares[invitation.id].offer_hash
            &&& after.shares[invitation.id].expires_at == state.shares[invitation.id].expires_at
            &&& after.shares.remove(invitation.id) == state.shares.remove(invitation.id)
            &&& after.members.contains_key(place)
            &&& after.members[place].capability == capability
            &&& after.members[place].epoch == invitation.epoch
            &&& after.members.remove(place) == state.members.remove(place)
            &&& peer is None ==> after.peers == state.peers && after.peer_spaces
                == state.peer_spaces
        }),
{
    let after = state.redeeming(invitation, subject, peer, capability, now).1;
    let place = (invitation.space, subject);
    assert(after.shares.remove(invitation.id) =~= state.shares.remove(invitation.id));
    assert(after.members.remove(place) =~= state.members.remove(place));
}

/// A spent share invitation gives the device that redeemed it the same
/// capability again, at any time, and gives every other device nothing; neither
/// changes the vault. One that is unknown, changed or run out gives nothing.
pub proof fn law_later_redemption_is_exact(
    state: TrustView,
    invitation: InvitationView,
    subject: Seq<u8>,
    peer: Option<PeerView>,
    capability: CapabilityView,
    now: u64,
)
    requires
        now <= i64::MAX,
        !state.shares.contains_key(invitation.id) || state.shares[invitation.id].offer_hash
            != offer_hash_of(invitation) || state.shares[invitation.id].redeemed_at is Some || now
            > state.shares[invitation.id].expires_at,
    ensures
        ({
            let (result, after) = state.redeeming(invitation, subject, peer, capability, now);
            let row = state.shares[invitation.id];
            &&& after == state
            &&& result is Ok <==> state.shares.contains_key(invitation.id) && row.offer_hash
                == offer_hash_of(invitation) && row.subject == Some(subject)
                && row.capability is Some
            &&& result matches Ok(again) ==> row.capability == Some(again)
        }),
{
}

/// The capability granted for an invitation gives its subject what the
/// invitation offers, in the invitation's space and epoch, from now on without
/// end.
pub proof fn law_grant_gives_what_was_offered(
    invitation: InvitationView,
    secret: Seq<u8>,
    public: Seq<u8>,
    subject: Seq<u8>,
    now: u64,
    nonce: Seq<u8>,
)
    ensures
        ({
            let capability = granted(invitation, secret, public, subject, now, nonce);
            &&& capability.space == invitation.space
            &&& capability.epoch == invitation.epoch
            &&& capability.permission == invitation.permission
            &&& capability.issuer == public
            &&& capability.subject == subject
            &&& capability.not_before == now
            &&& capability.expires_at == u64::MAX
        }),
{
}

/// Local authority is accepted exactly where its capability names the same
/// space, issuer and epoch and authorizes its subject to read at the time.
pub proof fn law_access_is_valid(access: AccessView, now: u64)
    ensures
        access_refusal(access, now) is None <==> {
            &&& access.capability.space == access.authority.space
            &&& access.capability.issuer == access.authority.issuer
            &&& access.capability.epoch == access.authority.epoch
            &&& access.capability.authorize_refusal(
                access.authority,
                access.capability.subject,
                Operation::Read,
                now,
            ) is None
        },
{
}

/// An epoch is committed exactly where the local authority and every grant are
/// valid at the time, the epoch is later than the one held, can be kept and has
/// no key yet, and no device is granted twice.
pub proof fn law_epoch_is_committed_exactly(
    state: TrustView,
    local: AccessView,
    granted: Seq<CapabilityView>,
    now: u64,
)
    ensures
        state.epoch_refusal(local, granted, now) is None && state.write_refusal(local, granted)
            is None <==> {
            &&& access_refusal(local, now) is None
            &&& forall|i: int|
                0 <= i < granted.len() ==> (#[trigger] granted[i]).authorize_refusal(
                    local.authority,
                    granted[i].subject,
                    Operation::Read,
                    now,
                ) is None
            &&& state.access.contains_key(local.authority.space)
                ==> state.access[local.authority.space].epoch < local.authority.epoch
            &&& local.authority.epoch <= i64::MAX
            &&& !state.keys.contains_key((local.authority.space, local.authority.epoch))
            &&& forall|i: int, j: int|
                0 <= i < j < granted.len() ==> (#[trigger] granted[i]).subject != (
                #[trigger] granted[j]).subject
        },
{
    if grants_refusal(granted, local.authority, now) is None {
        lemma_grants_valid(granted, local.authority, now);
    }
    if forall|i: int|
        0 <= i < granted.len() ==> (#[trigger] granted[i]).authorize_refusal(
            local.authority,
            granted[i].subject,
            Operation::Read,
            now,
        ) is None {
        lemma_valid_grants(granted, local.authority, now);
    }
}

proof fn lemma_valid_grants(granted: Seq<CapabilityView>, authority: AuthorityView, now: u64)
    requires
        forall|i: int|
            0 <= i < granted.len() ==> (#[trigger] granted[i]).authorize_refusal(
                authority,
                granted[i].subject,
                Operation::Read,
                now,
            ) is None,
    ensures
        grants_refusal(granted, authority, now) is None,
    decreases granted.len(),
{
    if granted.len() > 0 {
        let shorter = granted.drop_last();
        assert forall|i: int| 0 <= i < shorter.len() implies (
        #[trigger] shorter[i]).authorize_refusal(
            authority,
            shorter[i].subject,
            Operation::Read,
            now,
        ) is None by {
            assert(shorter[i] == granted[i]);
        }
        lemma_valid_grants(shorter, authority, now);
        assert(granted[granted.len() - 1] == granted.last());
    }
}

/// Committing an epoch keeps its key under its space and epoch, makes the local
/// authority that of the space, and leaves the keys and the authority of every
/// other place alone.
pub proof fn law_committed_epoch_replaces_nothing_else(
    state: TrustView,
    local: AccessView,
    sealed: Seq<u8>,
    granted: Seq<CapabilityView>,
)
    ensures
        ({
            let after = state.advanced(local, sealed, granted);
            let place = (local.authority.space, local.authority.epoch);
            let space = local.authority.space;
            &&& after.keys.contains_key(place)
            &&& after.keys[place] == sealed
            &&& after.keys.remove(place) == state.keys.remove(place)
            &&& after.access.contains_key(space)
            &&& after.access[space].issuer == local.authority.issuer
            &&& after.access[space].epoch == local.authority.epoch
            &&& after.access[space].capability == local.capability
            &&& after.access.remove(space) == state.access.remove(space)
            &&& after == (TrustView {
                keys: after.keys,
                access: after.access,
                members: after.members,
                ..state
            })
        }),
{
    let after = state.advanced(local, sealed, granted);
    let place = (local.authority.space, local.authority.epoch);
    let space = local.authority.space;
    assert(after.keys.remove(place) =~= state.keys.remove(place));
    assert(after.access.remove(space) =~= state.access.remove(space));
}

/// Accepting a space of a peer keeps its key under its space and epoch, makes
/// the authority that of the space, records the peer and links it with the
/// space, and leaves everything else alone.
pub proof fn law_accepted_space_replaces_nothing_else(
    state: TrustView,
    peer: PeerView,
    access: AccessView,
    sealed: Seq<u8>,
)
    ensures
        ({
            let after = state.shared(peer, access, sealed);
            let space = access.authority.space;
            let place = (space, access.authority.epoch);
            let device = device_id(peer.public_key);
            &&& after.keys.contains_key(place)
            &&& after.keys[place] == sealed
            &&& after.keys.remove(place) == state.keys.remove(place)
            &&& after.access.contains_key(space)
            &&& after.access[space].issuer == access.authority.issuer
            &&& after.access[space].epoch == access.authority.epoch
            &&& after.access[space].capability == access.capability
            &&& after.access.remove(space) == state.access.remove(space)
            &&& after.peers.contains_key(device)
            &&& after.peers[device] == peer
            &&& after.peers.remove(device) == state.peers.remove(device)
            &&& forall|other: Seq<u8>, linked: SpaceId| #[trigger]
                after.peer_spaces.contains((other, linked)) <==> state.peer_spaces.contains(
                    (other, linked),
                ) || (other == device && linked == space)
            &&& after == (TrustView {
                keys: after.keys,
                access: after.access,
                peers: after.peers,
                peer_spaces: after.peer_spaces,
                ..state
            })
        }),
{
    let after = state.shared(peer, access, sealed);
    let space = access.authority.space;
    let place = (space, access.authority.epoch);
    let device = device_id(peer.public_key);
    assert(after.keys.remove(place) =~= state.keys.remove(place));
    assert(after.access.remove(space) =~= state.access.remove(space));
    assert(after.peers.remove(device) =~= state.peers.remove(device));
    assert forall|other: Seq<u8>, linked: SpaceId| #[trigger]
        after.peer_spaces.contains((other, linked)) <==> state.peer_spaces.contains(
            (other, linked),
        ) || (other == device && linked == space) by {
        assert(seq![space].contains(linked) <==> linked == space) by {
            assert(seq![space][0] == space);
        }
    }
}

/// A shared space is accepted exactly where its authority is valid, was issued
/// by the inviting peer to this device, the space is new here, and all numbers
/// can be kept.
pub proof fn law_shared_space_is_accepted_exactly(
    state: TrustView,
    peer: PeerView,
    access: AccessView,
    now: u64,
)
    ensures
        state.share_refusal(peer, access, now) is None <==> {
            &&& access_refusal(access, now) is None
            &&& state.needed_device() matches Ok(device) && access.capability.subject
                == ed25519_public(device.secret)
            &&& access.authority.issuer == peer.public_key
            &&& !state.access.contains_key(access.authority.space)
        },
        state.share_write_refusal(peer, access) is None <==> {
            &&& peer.paired_at <= i64::MAX
            &&& access.authority.epoch <= i64::MAX
            &&& !state.keys.contains_key((access.authority.space, access.authority.epoch))
        },
{
}

/// A delivered epoch is accepted exactly where its authority is valid, was
/// issued to this device by the peer that issues the space here, is later than
/// the one held, has no key yet, and all numbers can be kept.
pub proof fn law_delivered_epoch_is_accepted_exactly(
    state: TrustView,
    peer: PeerView,
    access: AccessView,
    now: u64,
)
    ensures
        state.delivery_refusal(peer, access, now) is None <==> {
            let row = state.access[access.authority.space];
            &&& access_refusal(access, now) is None
            &&& state.needed_device() matches Ok(device) && access.capability.subject
                == ed25519_public(device.secret)
            &&& access.authority.issuer == peer.public_key
            &&& state.access.contains_key(access.authority.space)
            &&& ed25519_point(row.issuer)
            &&& row.capability.space == access.authority.space
            &&& row.capability.issuer == row.issuer
            &&& row.capability.epoch == row.epoch
            &&& access.authority.issuer == row.issuer
            &&& access.authority.epoch > row.epoch
        },
        state.delivery_write_refusal(peer, access) is None <==> {
            &&& peer.paired_at <= i64::MAX
            &&& access.authority.epoch <= i64::MAX
            &&& !state.keys.contains_key((access.authority.space, access.authority.epoch))
        },
{
}

/// The authority of a space is read as it is kept, where its record is sound.
pub proof fn law_kept_authority_is_read(state: TrustView, space: SpaceId)
    ensures
        !state.access.contains_key(space) ==> state.loaded_access(space) == Ok::<
            Option<AccessView>,
            TrustFailure,
        >(None),
        state.access.contains_key(space) ==> {
            let row = state.access[space];
            let sound = ed25519_point(row.issuer) && row.capability.space == space
                && row.capability.issuer == row.issuer && row.capability.epoch == row.epoch;
            if sound {
                state.loaded_access(space) matches Ok(Some(access)) && access.authority.space
                    == space && access.authority.issuer == row.issuer && access.authority.epoch
                    == row.epoch && access.capability == row.capability
            } else {
                state.loaded_access(space) is Err
            }
        },
{
}

/// A content key is read as what its sealed bytes open to under the vault's
/// key, bound to its own space and epoch, where that is a key.
pub proof fn law_kept_key_is_read(state: TrustView, space: SpaceId, epoch: u64, key: Seq<u8>)
    requires
        epoch <= i64::MAX,
    ensures
        state.loaded_key(space, epoch) == Ok::<Option<Seq<u8>>, TrustFailure>(Some(key)) <==> {
            &&& state.keys.contains_key((space, epoch))
            &&& unsealed(
                state.key,
                space_key_data(space, epoch),
                state.keys[(space, epoch)],
            ) == Some(key)
            &&& key.len() == 32
        },
        state.loaded_key(space, epoch) == Ok::<Option<Seq<u8>>, TrustFailure>(None)
            <==> !state.keys.contains_key((space, epoch)),
        state.loaded_credentials(space) matches Ok(Some((access, found))) ==> state.loaded_access(
            space,
        ) == Ok::<Option<AccessView>, TrustFailure>(Some(access)) && state.loaded_key(
            space,
            access.authority.epoch,
        ) == Ok::<Option<Seq<u8>>, TrustFailure>(Some(found)),
{
}

/// An owned space is rotated exactly by the device that issues it to itself,
/// with credentials that open, as long as a further epoch exists.
pub proof fn law_rotation_is_for_the_owner(state: TrustView, space: SpaceId)
    ensures
        rotation_refusal(state, space) is None <==> {
            &&& state.needed_device() matches Ok(device)
            &&& state.loaded_credentials(space) matches Ok(Some((access, _)))
            &&& access.authority.issuer == ed25519_public(device.secret)
            &&& access.capability.subject == ed25519_public(device.secret)
            &&& access.authority.epoch < u64::MAX
        },
{
}

/// A user is installed exactly in a vault that has a device and no user, where
/// the user's history links that device and can be kept.
pub proof fn law_user_is_installed_exactly(state: TrustView, identity: UserView)
    ensures
        state.install_refusal(identity) is None <==> {
            &&& state.loaded_user() == Ok::<Option<UserView>, TrustFailure>(None)
            &&& state.needed_device() matches Ok(device) && identity.devices.contains(
                ed25519_public(device.secret),
            )
            &&& identity.events.last().sequence <= i64::MAX
        },
        state.installed(identity).user == Some(identity.id),
        state.installed(identity).events.len() == identity.events.len(),
        forall|i: int|
            0 <= i < identity.events.len() ==> (#[trigger] state.installed(
                identity,
            ).events[i]).event == identity.events[i],
{
}

/// A history is imported exactly where it is installed anew, or belongs to the
/// local user and starts with all of the local history.
pub proof fn law_history_is_imported_exactly(
    state: TrustView,
    current: UserView,
    incoming: UserView,
)
    requires
        state.loaded_user() == Ok::<Option<UserView>, TrustFailure>(Some(current)),
        incoming.events.last().sequence <= i64::MAX,
    ensures
        state.import_refusal(incoming) is None <==> {
            &&& incoming.id == current.id
            &&& current.events.len() <= incoming.events.len()
            &&& forall|i: int|
                0 <= i < current.events.len() ==> #[trigger] incoming.events[i]
                    == current.events[i]
        },
{
    let prefix = incoming.events.take(current.events.len() as int);
    if current.events.len() <= incoming.events.len() {
        if forall|i: int|
            0 <= i < current.events.len() ==> #[trigger] incoming.events[i] == current.events[i] {
            assert(prefix =~= current.events);
        }
        if prefix == current.events {
            assert forall|i: int| 0 <= i < current.events.len() implies #[trigger] incoming.events[i]
                == current.events[i] by {
                assert(prefix[i] == incoming.events[i]);
            }
        }
    }
}

/// The authority that a device takes over its own space names it as the issuer
/// and the subject, from now on without end.
pub proof fn law_own_authority_is_for_the_owner(
    secret: Seq<u8>,
    space: SpaceId,
    epoch: u64,
    permission: Permission,
    now: u64,
    nonce: Seq<u8>,
)
    ensures
        ({
            let access = own_access(secret, space, epoch, permission, now, nonce);
            let owner = ed25519_public(secret);
            &&& access.authority.space == space
            &&& access.authority.issuer == owner
            &&& access.authority.epoch == epoch
            &&& access.capability.space == space
            &&& access.capability.epoch == epoch
            &&& access.capability.issuer == owner
            &&& access.capability.subject == owner
            &&& access.capability.permission == permission
            &&& access.capability.not_before == now
            &&& access.capability.expires_at == u64::MAX
        }),
{
}

/// Authority is stored exactly where its capability names the same space, issuer
/// and epoch, the epoch is not before the one held, and it can be kept.
pub proof fn law_authority_is_stored_exactly(state: TrustView, access: AccessView)
    ensures
        state.store_refusal(access) is None <==> {
            let space = access.authority.space;
            &&& access.capability.space == space
            &&& access.capability.issuer == access.authority.issuer
            &&& access.capability.epoch == access.authority.epoch
            &&& state.access.contains_key(space) ==> state.access[space].epoch
                <= access.authority.epoch
            &&& access.authority.epoch <= i64::MAX
        },
        access.row().issuer == access.authority.issuer,
        access.row().epoch == access.authority.epoch,
        access.row().capability == access.capability,
{
}

/// A number can be kept exactly where it fits in 63 bits.
pub proof fn law_numbers_have_63_bits(value: u64)
    ensures
        number_refusal(value) is None <==> value <= 9223372036854775807,
{
}

/// The device of a vault is read as what its sealed material opens to, where
/// that belongs to the recorded key.
pub proof fn law_kept_device_is_read(
    state: TrustView,
    row: DeviceRowView,
    plaintext: Seq<u8>,
    secret: Seq<u8>,
    certificate_key: Seq<u8>,
)
    requires
        state.device == Some(row),
        unsealed(state.key, device_data(row.public_key, row.certificate), row.sealed) == Some(
            plaintext,
        ),
        decoded_material(plaintext) == Some((secret, certificate_key)),
    ensures
        ed25519_public(secret) == row.public_key ==> {
            &&& state.needed_device() is Ok
            &&& state.needed_device()->Ok_0.secret == secret
            &&& state.needed_device()->Ok_0.certificate == row.certificate
            &&& state.needed_device()->Ok_0.certificate_key == certificate_key
            &&& state.loaded_device() == Ok::<Option<MaterialView>, TrustFailure>(
                Some(state.needed_device()->Ok_0),
            )
        },
        ed25519_public(secret) != row.public_key ==> state.loaded_device() is Err
            && state.needed_device() is Err,
{
}

/// A vault without a device has none, and one whose material does not open is
/// refused.
pub proof fn law_missing_device_is_told_apart(state: TrustView)
    ensures
        state.device is None <==> state.loaded_device() == Ok::<
            Option<MaterialView>,
            TrustFailure,
        >(None),
        state.device is None ==> state.needed_device() == Err::<MaterialView, TrustFailure>(
            TrustFailure::DeviceNotInitialized,
        ),
        state.device matches Some(row) && unsealed(
            state.key,
            device_data(row.public_key, row.certificate),
            row.sealed,
        ) is None ==> state.loaded_device() is Err && state.needed_device() is Err,
{
}

/// An event is appended exactly where the local user's history takes it and its
/// sequence can be kept; it is then the last row, under its own digest, and
/// nothing else changes.
pub proof fn law_event_is_appended_exactly(state: TrustView, event: EventView)
    ensures
        state.append_refusal(event) is None <==> {
            &&& state.loaded_user() matches Ok(Some(user))
            &&& user.apply_refusal(event) is None
            &&& event.sequence <= i64::MAX
        },
        ({
            let after = state.appended(event);
            &&& after.events.len() == state.events.len() + 1
            &&& after.events.drop_last() == state.events
            &&& after.events.last().event == event
            &&& after.events.last().digest == event_digest(event)
            &&& after == (TrustView { events: after.events, ..state })
        }),
{
    assert(state.appended(event).events.drop_last() =~= state.events);
}

/// The user of a vault is read from its rows exactly where every row has its own
/// digest and belongs to the user, and their events are a history.
pub proof fn law_kept_user_is_read(state: TrustView, user: Seq<u8>, events: Seq<EventView>)
    requires
        state.user == Some(user),
        events.len() == state.events.len(),
        forall|i: int| 0 <= i < events.len() ==> #[trigger] events[i] == state.events[i].event,
    ensures
        ({
            let intact = forall|i: int|
                0 <= i < state.events.len() ==> (#[trigger] state.events[i]).digest
                    == event_digest(state.events[i].event) && state.events[i].event.user == user;
            &&& !intact ==> state.loaded_user() is Err
            &&& intact ==> (match chain(events) {
                Ok(identity) => state.loaded_user() == Ok::<Option<UserView>, TrustFailure>(
                    Some(identity),
                ),
                Err(_) => state.loaded_user() is Err,
            })
        }),
{
    assert(row_events(state.events) =~= events);
}

proof fn lemma_peers_keyed(
    table: Map<Seq<u8>, PeerView>,
    keys: Seq<Seq<u8>>,
    peers: Seq<PeerView>,
    i: int,
)
    requires
        peers_keyed(table, keys, peers),
        0 <= i < peers.len(),
    ensures
        ed25519_point(peers[i].public_key),
        table.contains_key(keys[i]),
        table[keys[i]] == peers[i],
{
    assert(table.contains_key(keys[i]));
}

/// Every recorded peer is listed, and every listed peer is recorded with a key
/// that is one.
pub proof fn law_listed_peers_are_exact(
    table: Map<Seq<u8>, PeerView>,
    peers: Seq<PeerView>,
    id: Seq<u8>,
    i: int,
)
    requires
        lists_peers(table, peers),
    ensures
        table.contains_key(id) ==> peers.contains(table[id]),
        0 <= i < peers.len() ==> ed25519_point(peers[i].public_key) && exists|key: Seq<u8>|
            #[trigger]
            table.contains_key(key) && table[key] == peers[i],
{
    let keys = choose|keys: Seq<Seq<u8>>|
        {
            &&& ascending::<[u8; 32]>(keys)
            &&& #[trigger] peers_keyed(table, keys, peers)
            &&& forall|id: Seq<u8>| #[trigger]
                table.contains_key(id) ==> exists|i: int|
                    0 <= i < keys.len() && #[trigger] keys[i] == id
        };
    if table.contains_key(id) {
        let k = choose|k: int| 0 <= k < keys.len() && #[trigger] keys[k] == id;
        lemma_peers_keyed(table, keys, peers, k);
        assert(peers[k] == table[id]);
    }
    if 0 <= i < peers.len() {
        lemma_peers_keyed(table, keys, peers, i);
    }
}

/// The members of a space are listed exactly, each once in the order of their
/// keys.
pub proof fn law_roster_is_exact(
    members: Map<(SpaceId, Seq<u8>), MemberRowView>,
    space: SpaceId,
    listed: Seq<Seq<u8>>,
    subject: Seq<u8>,
)
    requires
        is_roster(members, space, listed),
    ensures
        listed.contains(subject) <==> members.contains_key((space, subject)),
        forall|i: int, j: int|
            0 <= i < j < listed.len() ==> bytes_before(
                #[trigger] listed[i],
                #[trigger] listed[j],
            ),
{
    assert forall|i: int, j: int| 0 <= i < j < listed.len() implies bytes_before(
        #[trigger] listed[i],
        #[trigger] listed[j],
    ) by {
        assert(<DevicePublicKey as Key>::before(listed[i], listed[j]));
    }
}

/// Every protected secret authenticates exactly where the device's material and
/// every content key open under the vault's key, each bound to its own place.
pub proof fn law_all_authenticate_is_exact(state: TrustView)
    ensures
        all_authenticate(state) <==> {
            &&& state.device matches Some(row) ==> unsealed(
                state.key,
                device_data(row.public_key, row.certificate),
                row.sealed,
            ) is Some
            &&& forall|space: SpaceId, epoch: u64| #[trigger]
                state.keys.contains_key((space, epoch)) ==> unsealed(
                    state.key,
                    space_key_data(space, epoch),
                    state.keys[(space, epoch)],
                ) is Some
        },
{
    if forall|space: SpaceId, epoch: u64| #[trigger]
        state.keys.contains_key((space, epoch)) ==> unsealed(
            state.key,
            space_key_data(space, epoch),
            state.keys[(space, epoch)],
        ) is Some {
        assert forall|key: (SpaceId, u64)| #[trigger] state.keys.contains_key(key) implies unsealed(
            state.key,
            space_key_data(key.0, key.1),
            state.keys[key],
        ) is Some by {
            assert(state.keys.contains_key((key.0, key.1)));
        }
    }
}

/// A peer is read as it is recorded, wherever its key is one.
pub proof fn law_recorded_peer_is_read(peer: PeerView)
    ensures
        ed25519_point(peer.public_key) ==> decoded_peer(peer) == Ok::<PeerView, TrustFailure>(peer),
        !ed25519_point(peer.public_key) ==> decoded_peer(peer) is Err,
{
}

/// A new vault has nothing but its key.
pub proof fn law_new_vault_is_empty(key: Seq<u8>)
    ensures
        ({
            let vault = empty_vault(key);
            &&& vault.key == key
            &&& vault.device is None
            &&& vault.user is None
            &&& vault.events.len() == 0
            &&& forall|id: Seq<u8>| !(#[trigger] vault.invitations.contains_key(id))
            &&& forall|id: Seq<u8>| !(#[trigger] vault.peers.contains_key(id))
            &&& forall|link: (Seq<u8>, SpaceId)| !(#[trigger] vault.peer_spaces.contains(link))
            &&& forall|space: SpaceId| !(#[trigger] vault.access.contains_key(space))
            &&& forall|place: (SpaceId, u64)| !(#[trigger] vault.keys.contains_key(place))
            &&& forall|id: Seq<u8>| !(#[trigger] vault.shares.contains_key(id))
            &&& forall|place: (SpaceId, Seq<u8>)| !(#[trigger] vault.members.contains_key(place))
        }),
{
}

/// A redeemed share invitation was valid at the time and offered by the current
/// authority. What it gives is either the grant committed before, and then
/// nothing changes, or a new one for the subject, with the permission offered in
/// the space and epoch offered, from now on without end, and then the subject is
/// a member with it.
pub proof fn law_redemption_grants_what_was_offered(
    state: TrustView,
    invitation: InvitationView,
    secret: Seq<u8>,
    public: Seq<u8>,
    subject: Seq<u8>,
    peer: Option<PeerView>,
    now: u64,
    capability: CapabilityView,
    after: TrustView,
)
    requires
        state.redeems(
            invitation,
            secret,
            public,
            subject,
            peer,
            now,
            Ok::<CapabilityView, TrustFailure>(capability),
            after,
        ),
    ensures
        state.offer_refusal(invitation) is None,
        invitation.issuer == public,
        invitation.issued_at <= now < invitation.expires_at,
        invitation.signed(),
        ({
            let row = state.shares[invitation.id];
            let place = (invitation.space, subject);
            &&& state.shares.contains_key(invitation.id)
            &&& row.offer_hash == offer_hash_of(invitation)
            &&& {
                ||| after == state && row.subject == Some(subject) && row.capability == Some(
                    capability,
                )
                ||| row.redeemed_at is None && now <= row.expires_at && capability.space
                    == invitation.space && capability.epoch == invitation.epoch
                    && capability.issuer == public && capability.subject == subject
                    && capability.permission == invitation.permission && capability.not_before
                    == now && capability.expires_at == u64::MAX && after.members.contains_key(place)
                    && after.members[place].capability == capability
                    && after.shares[invitation.id].redeemed_at == Some(now)
                    && after.shares[invitation.id].subject == Some(subject)
            }
        }),
{
}

/// The current authority over a space is the one that its credentials give.
pub proof fn law_current_authority_is_the_kept_one(
    state: TrustView,
    space: SpaceId,
    access: AccessView,
    key: Seq<u8>,
)
    requires
        state.loaded_credentials(space) == Ok::<Option<(AccessView, Seq<u8>)>, TrustFailure>(
            Some((access, key)),
        ),
    ensures
        state.current_access(space) == access,
        access.authority.space == space,
        state.access[space].epoch == access.authority.epoch,
        state.access[space].issuer == access.authority.issuer,
{
}

/// A space has credentials exactly where its authority is kept and read and the
/// content key of that authority's epoch opens; a space without authority has
/// none, and authority without its key is refused.
pub proof fn law_credentials_are_exact(state: TrustView, space: SpaceId)
    ensures
        state.loaded_credentials(space) == Ok::<Option<(AccessView, Seq<u8>)>, TrustFailure>(None)
            <==> !state.access.contains_key(space),
        state.loaded_access(space) is Err ==> state.loaded_credentials(space) is Err,
        state.loaded_access(space) matches Ok(Some(access)) ==> (match state.loaded_key(
            space,
            access.authority.epoch,
        ) {
            Ok(Some(key)) => state.loaded_credentials(space) == Ok::<
                Option<(AccessView, Seq<u8>)>,
                TrustFailure,
            >(Some((access, key))),
            _ => state.loaded_credentials(space) is Err,
        }),
{
}

/// A granted member is recorded with its grant under the epoch of the grant's
/// commit, and every member of another space stays as it was.
pub proof fn law_members_are_recorded_under_the_epoch(
    state: TrustView,
    local: AccessView,
    sealed: Seq<u8>,
    granted: Seq<CapabilityView>,
    subject: Seq<u8>,
    other: SpaceId,
)
    requires
        other != local.authority.space,
    ensures
        ({
            let after = state.advanced(local, sealed, granted);
            let place = (local.authority.space, subject);
            &&& after.members.contains_key(place) <==> exists|i: int|
                0 <= i < granted.len() && (#[trigger] granted[i]).subject == subject
            &&& after.members.contains_key(place) ==> after.members[place].epoch
                == local.authority.epoch && after.members[place].capability.subject == subject
            &&& after.members.contains_key((other, subject)) <==> state.members.contains_key(
                (other, subject),
            )
            &&& state.members.contains_key((other, subject)) ==> after.members[(other, subject)]
                == state.members[(other, subject)]
        }),
{
    let space = local.authority.space;
    let former = state.members.remove_keys(of_space(space));
    assert(!former.contains_key((space, subject)));
    lemma_granting_rows(former, space, local.authority.epoch, granted, subject, other);
}

proof fn lemma_granting_rows(
    members: Map<(SpaceId, Seq<u8>), MemberRowView>,
    space: SpaceId,
    epoch: u64,
    granted: Seq<CapabilityView>,
    subject: Seq<u8>,
    other: SpaceId,
)
    requires
        other != space,
        !members.contains_key((space, subject)),
    ensures
        ({
            let after = granting(members, space, epoch, granted);
            let place = (space, subject);
            &&& after.contains_key(place) <==> exists|i: int|
                0 <= i < granted.len() && (#[trigger] granted[i]).subject == subject
            &&& after.contains_key(place) ==> after[place].epoch == epoch
                && after[place].capability.subject == subject
            &&& after.contains_key((other, subject)) <==> members.contains_key((other, subject))
            &&& after[(other, subject)] == members[(other, subject)]
        }),
    decreases granted.len(),
{
    if granted.len() > 0 {
        let shorter = granted.drop_last();
        let last = granted.len() - 1;
        lemma_granting_rows(members, space, epoch, shorter, subject, other);
        let before = granting(members, space, epoch, shorter);
        if before.contains_key((space, subject)) {
            let i = choose|i: int|
                0 <= i < shorter.len() && (#[trigger] shorter[i]).subject == subject;
            assert(granted[i].subject == subject);
        }
        if granted[last].subject == subject {
            assert(granting(members, space, epoch, granted).contains_key((space, subject)));
        } else if exists|i: int|
            0 <= i < granted.len() && (#[trigger] granted[i]).subject == subject {
            let i = choose|i: int|
                0 <= i < granted.len() && (#[trigger] granted[i]).subject == subject;
            assert(shorter[i].subject == subject);
        }
    }
}

} // verus!
