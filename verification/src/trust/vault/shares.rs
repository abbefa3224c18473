//! Share invitations in a trust vault: recording and single-use redemption.

use super::TrustStore;
use crate::authority::capability::{issued, AuthorityView, Capability, CapabilityView};
use crate::authority::encoding::invitation_json;
use crate::authority::invitation::{InvitationView, ShareInvitation};
use crate::crypto;
use crate::crypto::blake3_hash;
use crate::id::SpaceId;
use crate::identity::device::{DeviceIdentity, DevicePublicKey};
use crate::text::{owned, same_bytes};
use crate::trust::error::{trust_refused, TrustError, TrustFailure};
use crate::trust::rows::{
    check_number, number_refusal, MemberRow, MemberRowView, PeerRecord, PeerView, ShareRow,
    ShareRowView, TrustView,
};
use vstd::prelude::*;
use vstd::string::*;
use vstd::utf8::encode_utf8;

verus! {

/// The hash by which a recorded invitation is recognized.
pub open spec fn offer_hash_of(invitation: InvitationView) -> Seq<u8> {
    blake3_hash(encode_utf8(invitation_json(invitation)))
}

fn offer_hash(invitation: &ShareInvitation) -> (hash: [u8; 32])
    ensures
        hash@ == offer_hash_of(invitation@),
{
    let text = invitation.to_json();
    crypto::hash(text.as_str().as_bytes())
}

/// What a granted capability says, or why there is none.
pub open spec fn granted_view(result: Result<Capability, TrustError>) -> Result<
    CapabilityView,
    TrustFailure,
> {
    match result {
        Ok(capability) => Ok(capability@),
        Err(error) => Err(error@),
    }
}

/// What an optional peer record says.
pub open spec fn peer_view(peer: Option<&PeerRecord>) -> Option<PeerView> {
    match peer {
        Some(peer) => Some(peer@),
        None => None,
    }
}

/// The capability that an owner grants to the subject of an invitation.
pub open spec fn granted(
    invitation: InvitationView,
    secret: Seq<u8>,
    public: Seq<u8>,
    subject: Seq<u8>,
    now: u64,
    nonce: Seq<u8>,
) -> CapabilityView {
    issued(
        secret,
        public,
        invitation.space,
        invitation.epoch,
        subject,
        invitation.permission,
        now,
        u64::MAX,
        nonce,
    )
}

impl TrustView {
    /// Why an invitation does not belong to the current authority of its space.
    pub open spec fn offer_refusal(self, invitation: InvitationView) -> Option<TrustFailure> {
        match self.loaded_access(invitation.space) {
            Err(error) => Some(error),
            Ok(None) => Some(TrustFailure::InvitationUnavailable),
            Ok(Some(access)) => if access.authority.issuer != invitation.issuer
                || access.authority.epoch != invitation.epoch {
                Some(TrustFailure::InvitationUnavailable)
            } else {
                None
            },
        }
    }

    /// Why an invitation cannot be recorded.
    pub open spec fn record_refusal(self, invitation: InvitationView) -> Option<TrustFailure> {
        if self.offer_refusal(invitation) is Some {
            self.offer_refusal(invitation)
        } else if number_refusal(invitation.expires_at) is Some {
            number_refusal(invitation.expires_at)
        } else if self.shares.contains_key(invitation.id) {
            Some(
                TrustFailure::Storage(
                    "UNIQUE constraint failed: share_invitations.invitation_id"@,
                ),
            )
        } else {
            None
        }
    }

    /// Whether an invitation is recorded as it is presented.
    pub open spec fn offered(self, invitation: InvitationView) -> bool {
        &&& self.shares.contains_key(invitation.id)
        &&& self.shares[invitation.id].offer_hash == offer_hash_of(invitation)
    }

    /// Whether an invitation can still be redeemed at a time.
    pub open spec fn redeemable(self, invitation: InvitationView, now: u64) -> bool {
        &&& self.offered(invitation)
        &&& self.shares[invitation.id].expires_at >= now
        &&& self.shares[invitation.id].redeemed_at is None
    }

    /// The vault in which a subject redeemed an invitation.
    pub open spec fn share_redeemed(
        self,
        invitation: InvitationView,
        subject: Seq<u8>,
        peer: Option<PeerView>,
        capability: CapabilityView,
        now: u64,
    ) -> TrustView {
        let row = self.shares[invitation.id];
        let redeemed = TrustView {
            shares: self.shares.insert(
                invitation.id,
                ShareRowView {
                    redeemed_at: Some(now),
                    subject: Some(subject),
                    capability: Some(capability),
                    ..row
                },
            ),
            members: self.members.insert(
                (invitation.space, subject),
                MemberRowView { epoch: invitation.epoch, capability },
            ),
            ..self
        };
        match peer {
            Some(peer) => redeemed.with_peer(peer, seq![invitation.space]),
            None => redeemed,
        }
    }

    /// What a redemption with a granted capability returns, and the vault after
    /// it.
    pub open spec fn redeeming(
        self,
        invitation: InvitationView,
        subject: Seq<u8>,
        peer: Option<PeerView>,
        capability: CapabilityView,
        now: u64,
    ) -> (Result<CapabilityView, TrustFailure>, TrustView) {
        if number_refusal(now) is Some {
            (Err(TrustFailure::ProtectedMaterial), self)
        } else if self.redeemable(invitation, now) {
            if number_refusal(invitation.epoch) is Some || (peer is Some && number_refusal(
                peer->0.paired_at,
            ) is Some) {
                (Err(TrustFailure::ProtectedMaterial), self)
            } else {
                (
                    Ok(capability),
                    self.share_redeemed(invitation, subject, peer, capability, now),
                )
            }
        } else if self.offered(invitation) && self.shares[invitation.id].subject == Some(subject) {
            match self.shares[invitation.id].capability {
                Some(committed) => (Ok(committed), self),
                None => (Err(TrustFailure::ProtectedMaterial), self),
            }
        } else {
            (Err(TrustFailure::InvitationUnavailable), self)
        }
    }

    /// Whether a vault and a result are what a redemption by an owner gives:
    /// the grant's nonce is random.
    pub open spec fn redeems(
        self,
        invitation: InvitationView,
        secret: Seq<u8>,
        public: Seq<u8>,
        subject: Seq<u8>,
        peer: Option<PeerView>,
        now: u64,
        result: Result<CapabilityView, TrustFailure>,
        after: TrustView,
    ) -> bool {
        let authority = AuthorityView {
            space: invitation.space,
            issuer: public,
            epoch: invitation.epoch,
        };
        if let Some(error) = self.offer_refusal(invitation) {
            result == Err::<CapabilityView, TrustFailure>(error) && after == self
        } else if invitation.verify_refusal(authority, now) is Some {
            result == Err::<CapabilityView, TrustFailure>(TrustFailure::InvitationUnavailable)
                && after == self
        } else {
            ||| result == Err::<CapabilityView, TrustFailure>(TrustFailure::InvitationUnavailable)
                && after == self
            ||| exists|nonce: Seq<u8>|
                (result, after) == self.redeeming(
                    invitation,
                    subject,
                    peer,
                    #[trigger] granted(invitation, secret, public, subject, now, nonce),
                    now,
                )
        }
    }
}

impl TrustStore {
    fn require_current_invitation(&self, invitation: &ShareInvitation) -> (result: Result<
        (),
        TrustError,
    >)
        requires
            self.wf(),
        ensures
            trust_refused(result) == self@.offer_refusal(invitation@),
    {
        match self.space_access(invitation.space()) {
            Err(error) => Err(error),
            Ok(None) => Err(TrustError::InvitationUnavailable),
            Ok(Some(access)) => {
                if !access.authority.issuer.same(&invitation.issuer) || access.authority.epoch
                    != invitation.epoch() {
                    return Err(TrustError::InvitationUnavailable);
                }
                Ok(())
            },
        }
    }

    /// Records a share invitation before its bearer secret is published.
    pub fn record_share_invitation(&mut self, invitation: &ShareInvitation) -> (result: Result<
        (),
        TrustError,
    >)
        requires
            old(self).wf(),
        ensures
            final(self).wf(),
            trust_refused(result) == old(self)@.record_refusal(invitation@),
            final(self)@ == if result is Ok {
                TrustView {
                    shares: old(self)@.shares.insert(
                        invitation@.id,
                        (ShareRowView {
                            offer_hash: offer_hash_of(invitation@),
                            expires_at: invitation@.expires_at,
                            redeemed_at: None,
                            subject: None,
                            capability: None,
                        }),
                    ),
                    ..old(self)@
                }
            } else {
                old(self)@
            },
    {
        match self.require_current_invitation(invitation) {
            Ok(_) => {},
            Err(error) => {
                return Err(error);
            },
        }
        check_number(invitation.expires_at())?;
        let id = invitation.id();
        if self.rows.shares.contains(&id) {
            return Err(
                TrustError::Storage(
                    owned("UNIQUE constraint failed: share_invitations.invitation_id"),
                ),
            );
        }
        let row = ShareRow {
            offer_hash: offer_hash(invitation),
            expires_at: invitation.expires_at(),
            redeemed_at: None,
            subject: None,
            capability: None,
        };
        self.put_share(id, row);
        Ok(())
    }

    fn put_share(&mut self, id: [u8; 16], row: ShareRow)
        requires
            old(self).wf(),
        ensures
            final(self).wf(),
            final(self)@ == (TrustView {
                shares: old(self)@.shares.insert(id@, row@),
                ..old(self)@
            }),
    {
        let ghost before = self@.shares;
        let former = self.rows.shares.insert(id, row);
        assert(self@.shares =~= before.insert(id@, row@));
    }

    fn put_member(&mut self, space: SpaceId, subject: DevicePublicKey, row: MemberRow)
        requires
            old(self).wf(),
        ensures
            final(self).wf(),
            final(self)@ == (TrustView {
                members: old(self)@.members.insert((space, subject@), row@),
                ..old(self)@
            }),
    {
        let ghost before = self@.members;
        let former = self.rows.members.insert((space, subject), row);
        assert(self@.members =~= before.insert((space, subject@), row@));
    }

    /// Atomically redeems an invitation and admits its device-bound capability.
    ///
    /// Retrying the identical invitation for the same subject returns the
    /// already committed capability. Another subject, changed offer bytes, or
    /// an expired or unknown invitation fails without changing membership.
    pub fn redeem_share_invitation(
        &mut self,
        invitation: &ShareInvitation,
        issuer: &DeviceIdentity,
        subject: DevicePublicKey,
        now: u64,
    ) -> (capability: Result<Capability, TrustError>)
        requires
            old(self).wf(),
        ensures
            final(self).wf(),
            old(self)@.redeems(
                invitation@,
                issuer@,
                issuer.public(),
                subject@,
                None,
                now,
                granted_view(capability),
                final(self)@,
            ),
    {
        self.redeem_share_invitation_inner(invitation, issuer, subject, None, now)
    }

    /// Atomically redeems a share and admits the recipient's transport pin.
    pub fn redeem_share_invitation_with_peer(
        &mut self,
        invitation: &ShareInvitation,
        issuer: &DeviceIdentity,
        peer: &PeerRecord,
        now: u64,
    ) -> (capability: Result<Capability, TrustError>)
        requires
            old(self).wf(),
        ensures
            final(self).wf(),
            old(self)@.redeems(
                invitation@,
                issuer@,
                issuer.public(),
                peer@.public_key,
                Some(peer@),
                now,
                granted_view(capability),
                final(self)@,
            ),
    {
        self.redeem_share_invitation_inner(invitation, issuer, peer.public_key, Some(peer), now)
    }

    fn redeem_share_invitation_inner(
        &mut self,
        invitation: &ShareInvitation,
        issuer: &DeviceIdentity,
        subject: DevicePublicKey,
        peer: Option<&PeerRecord>,
        now: u64,
    ) -> (capability: Result<Capability, TrustError>)
        requires
            old(self).wf(),
        ensures
            final(self).wf(),
            old(self)@.redeems(
                invitation@,
                issuer@,
                issuer.public(),
                subject@,
                peer_view(peer),
                now,
                granted_view(capability),
                final(self)@,
            ),
    {
        match self.require_current_invitation(invitation) {
            Ok(_) => {},
            Err(error) => {
                return Err(error);
            },
        }
        match invitation.grant(issuer, subject, now) {
            Err(_) => Err(TrustError::InvitationUnavailable),
            Ok(capability) => {
                assert(capability@ == granted(
                    invitation@,
                    issuer@,
                    issuer.public(),
                    subject@,
                    now,
                    capability@.nonce,
                ));
                self.commit_redemption(invitation, subject, peer, &capability, now)
            },
        }
    }

    /// Atomically commits the redemption of a current invitation with the
    /// capability that its owner granted.
    pub fn commit_redemption(
        &mut self,
        invitation: &ShareInvitation,
        subject: DevicePublicKey,
        peer: Option<&PeerRecord>,
        capability: &Capability,
        now: u64,
    ) -> (committed: Result<Capability, TrustError>)
        requires
            old(self).wf(),
        ensures
            final(self).wf(),
            (granted_view(committed), final(self)@) == old(self)@.redeeming(
                invitation@,
                subject@,
                peer_view(peer),
                capability@,
                now,
            ),
    {
        match check_number(now) {
            Ok(_) => {},
            Err(error) => {
                return Err(error);
            },
        }
        let id = invitation.id();
        let hash = offer_hash(invitation);
        let row = match self.rows.shares.get(&id) {
            None => {
                return Err(TrustError::InvitationUnavailable);
            },
            Some(row) => row,
        };
        assert(self@.shares[id@] == row@);
        if !same_bytes(row.offer_hash.as_slice(), hash.as_slice()) {
            return Err(TrustError::InvitationUnavailable);
        }
        if row.expires_at >= now && row.redeemed_at.is_none() {
            let redeemed = ShareRow {
                offer_hash: row.offer_hash,
                expires_at: row.expires_at,
                redeemed_at: Some(now),
                subject: Some(subject),
                capability: Some(capability.clone()),
            };
            match check_number(invitation.epoch()) {
                Ok(_) => {},
                Err(error) => {
                    return Err(error);
                },
            }
            match peer {
                Some(peer) => match check_number(peer.paired_at) {
                    Ok(_) => {},
                    Err(error) => {
                        return Err(error);
                    },
                },
                None => {},
            }
            let space = invitation.space();
            let ghost start = self@;
            self.put_share(id, redeemed);
            self.put_member(
                space,
                subject,
                MemberRow { epoch: invitation.epoch(), capability: capability.clone() },
            );
            match peer {
                Some(peer) => {
                    let linked: [SpaceId; 1] = [space];
                    assert(linked@ =~= seq![space]);
                    self.link_peer(peer, linked.as_slice());
                },
                None => {},
            }
            assert(self@ =~= start.share_redeemed(
                invitation@,
                subject@,
                peer_view(peer),
                capability@,
                now,
            ));
            return Ok(capability.clone());
        }
        match &row.subject {
            Some(former) => {
                if former.same(&subject) {
                    return match &row.capability {
                        Some(committed) => Ok(committed.clone()),
                        None => Err(TrustError::ProtectedMaterial),
                    };
                }
                Err(TrustError::InvitationUnavailable)
            },
            None => Err(TrustError::InvitationUnavailable),
        }
    }
}

} // verus!
