//! Pairing commands: bounds, admission of paired devices and LAN sightings.

use super::encoding::{message_frame, message_length};
use crate::bytes::be;
use crate::crypto::blake3_hash;
use crate::id::SpaceId;
use crate::identity::device::device_id;
use crate::identity::pairing::PairedPeer;
use crate::net::discovery::{DiscoveredPeer, PeerAddress};
use crate::ordmap::{ascending, OrdMap};
use crate::text::owned;
use crate::trust::error::{trust_refused, TrustError};
use crate::trust::rows::{number_refusal, PeerRecord, PeerView};
use crate::trust::vault::TrustStore;
use vstd::prelude::*;
use vstd::string::*;

verus! {

/// The greatest size of a pairing message.
pub const PAIRING_FRAME_LIMIT: u32 = 16_384;

/// Why a pairing command is refused.
#[derive(Clone, Copy, Debug, PartialEq, Eq, Structural)]
pub enum PairRefusal {
    /// The lifetime of an invitation is not between 1 and 3600 seconds.
    Lifetime,
    /// The discovery would last longer than 60 seconds.
    Discovery,
    /// A message to send is above the limit.
    MessageTooLarge,
    /// A peer's message is above the limit.
    PeerMessageTooLarge,
}

impl PairRefusal {
    /// The human-readable reason.
    pub open spec fn text(self) -> Seq<char> {
        match self {
            PairRefusal::Lifetime => "pairing lifetime must be between 1 and 3600 seconds"@,
            PairRefusal::Discovery => "peer discovery duration must not exceed 60 seconds"@,
            PairRefusal::MessageTooLarge => "pairing message exceeds the 16384 byte limit"@,
            PairRefusal::PeerMessageTooLarge => "peer sent a pairing message above the 16384 byte limit"@,
        }
    }

    /// Returns the human-readable reason.
    pub fn message(self) -> (message: String)
        ensures
            message@ == self.text(),
    {
        match self {
            PairRefusal::Lifetime => owned("pairing lifetime must be between 1 and 3600 seconds"),
            PairRefusal::Discovery => owned("peer discovery duration must not exceed 60 seconds"),
            PairRefusal::MessageTooLarge => owned("pairing message exceeds the 16384 byte limit"),
            PairRefusal::PeerMessageTooLarge => owned(
                "peer sent a pairing message above the 16384 byte limit",
            ),
        }
    }
}

/// Accepts the lifetime of a pairing invitation in seconds.
pub fn pairing_lifetime(ttl: u64) -> (lifetime: Result<u64, PairRefusal>)
    ensures
        match lifetime {
            Ok(lifetime) => 1 <= ttl <= 3600 && lifetime == ttl,
            Err(error) => (ttl == 0 || ttl > 3600) && error == PairRefusal::Lifetime,
        },
{
    if ttl == 0 || ttl > 3_600 {
        return Err(PairRefusal::Lifetime);
    }
    Ok(ttl)
}

/// The seconds to browse the LAN, if there is anything to look for.
pub fn discovery_seconds(seconds: u64, peers: usize) -> (browse: Result<Option<u64>, PairRefusal>)
    ensures
        browse == if seconds == 0 || peers == 0 {
            Ok::<Option<u64>, PairRefusal>(None)
        } else if seconds > 60 {
            Err::<Option<u64>, PairRefusal>(PairRefusal::Discovery)
        } else {
            Ok::<Option<u64>, PairRefusal>(Some(seconds))
        },
{
    if seconds == 0 || peers == 0 {
        return Ok(None);
    }
    if seconds > 60 {
        return Err(PairRefusal::Discovery);
    }
    Ok(Some(seconds))
}

/// Frames an encoded pairing message.
pub fn pairing_frame(encoded: &[u8]) -> (frame: Result<Vec<u8>, PairRefusal>)
    ensures
        match frame {
            Ok(frame) => encoded@.len() <= 16384 && frame@ == be(encoded@.len(), 4) + encoded@,
            Err(error) => encoded@.len() > 16384 && error == PairRefusal::MessageTooLarge,
        },
{
    match message_frame(encoded, PAIRING_FRAME_LIMIT) {
        Some(frame) => Ok(frame),
        None => Err(PairRefusal::MessageTooLarge),
    }
}

/// Accepts the length that a pairing message declares.
pub fn pairing_length(declared: u32) -> (length: Result<usize, PairRefusal>)
    ensures
        match length {
            Ok(length) => declared <= 16384 && length == declared,
            Err(error) => declared > 16384 && error == PairRefusal::PeerMessageTooLarge,
        },
{
    match message_length(declared, PAIRING_FRAME_LIMIT) {
        Some(length) => Ok(length),
        None => Err(PairRefusal::PeerMessageTooLarge),
    }
}

/// The record of a confirmed pairing.
pub open spec fn record_of(peer: PairedPeer, paired_at: u64) -> PeerView {
    PeerView { public_key: peer@.public_key, certificate: peer@.transport_binding, paired_at }
}

/// Redeems the inviter's invitation for the device that joined, with the spaces
/// that it linked.
pub fn admit_joiner(
    vault: &mut TrustStore,
    invitation_id: [u8; 16],
    peer: &PairedPeer,
    spaces: &[SpaceId],
    now: u64,
) -> (record: Result<PeerRecord, TrustError>)
    requires
        old(vault).wf(),
    ensures
        final(vault).wf(),
        trust_refused(record) == old(vault)@.redeem_refusal(
            invitation_id@,
            now,
            record_of(*peer, now),
        ),
        match record {
            Ok(record) => {
                &&& record@ == record_of(*peer, now)
                &&& final(vault)@ == old(vault)@.redeemed(invitation_id@, now, record@, spaces@)
            },
            Err(_) => final(vault)@ == old(vault)@,
        },
{
    let record = PeerRecord::from_pairing(peer, now);
    match vault.redeem_invitation_with_spaces(invitation_id, now, &record, spaces) {
        Ok(_) => Ok(record),
        Err(error) => Err(error),
    }
}

/// Admits the inviter to the vault of the device that joined, with the spaces
/// that it linked.
pub fn admit_inviter(vault: &mut TrustStore, peer: &PairedPeer, spaces: &[SpaceId], now: u64) -> (record: Result<
    PeerRecord,
    TrustError,
>)
    requires
        old(vault).wf(),
    ensures
        final(vault).wf(),
        trust_refused(record) == number_refusal(now),
        match record {
            Ok(record) => {
                &&& record@ == record_of(*peer, now)
                &&& final(vault)@ == old(vault)@.with_peer(record@, spaces@)
            },
            Err(_) => final(vault)@ == old(vault)@,
        },
{
    let record = PeerRecord::from_pairing(peer, now);
    match vault.admit_peer_with_spaces(&record, spaces) {
        Ok(_) => Ok(record),
        Err(error) => Err(error),
    }
}

/// Where trusted peers were seen on the LAN.
pub struct Sightings {
    found: OrdMap<[u8; 32], OrdMap<PeerAddress, ()>>,
}

impl View for Sightings {
    type V = Map<Seq<u8>, Set<PeerAddress>>;

    closed spec fn view(&self) -> Map<Seq<u8>, Set<PeerAddress>> {
        self.found@.map_values(|addresses: OrdMap<PeerAddress, ()>| addresses@.dom())
    }
}

/// Whether an advertisement is that of a peer.
pub open spec fn advertises(advertisement: DiscoveredPeer, peer: PeerView) -> bool {
    &&& advertisement.device_id@ == device_id(peer.public_key)
    &&& advertisement.certificate_pin@ == blake3_hash(peer.certificate)
}

/// What peer records say.
pub open spec fn peer_views(peers: Seq<PeerRecord>) -> Seq<PeerView> {
    peers.map_values(|peer: PeerRecord| peer@)
}

/// Whether an advertisement is that of one of the peers.
pub open spec fn advertises_any(advertisement: DiscoveredPeer, peers: Seq<PeerView>) -> bool {
    exists|i: int| 0 <= i < peers.len() && advertises(advertisement, #[trigger] peers[i])
}

/// The sightings after an advertisement: an advertisement that is exactly one
/// of the peers adds its addresses.
pub open spec fn noted(
    seen: Map<Seq<u8>, Set<PeerAddress>>,
    peers: Seq<PeerView>,
    advertisement: DiscoveredPeer,
) -> Map<Seq<u8>, Set<PeerAddress>> {
    let id = advertisement.device_id@;
    if !advertises_any(advertisement, peers) {
        seen
    } else {
        let former = if seen.contains_key(id) {
            seen[id]
        } else {
            Set::empty()
        };
        seen.insert(id, former.union(advertisement.addresses@.to_set()))
    }
}

impl Sightings {
    /// The tables are in key order.
    pub closed spec fn wf(self) -> bool {
        &&& self.found.wf()
        &&& forall|id: Seq<u8>| #[trigger]
            self.found@.contains_key(id) ==> self.found@[id].wf()
    }

    /// Starts without any sighting.
    pub fn new() -> (sightings: Self)
        ensures
            sightings.wf(),
            sightings@ == Map::<Seq<u8>, Set<PeerAddress>>::empty(),
    {
        let sightings = Sightings { found: OrdMap::new() };
        assert(sightings@ =~= Map::<Seq<u8>, Set<PeerAddress>>::empty());
        sightings
    }

    /// Notes an advertisement of a trusted peer; others are ignored.
    pub fn note(&mut self, peers: &[PeerRecord], advertisement: &DiscoveredPeer)
        requires
            old(self).wf(),
        ensures
            final(self).wf(),
            final(self)@ == noted(old(self)@, peer_views(peers@), *advertisement),
    {
        let ghost views = peer_views(peers@);
        let mut index: usize = 0;
        while index < peers.len()
            invariant
                *self == *old(self),
                self.wf(),
                index <= peers@.len(),
                views == peer_views(peers@),
                forall|i: int|
                    0 <= i < index ==> !advertises(*advertisement, #[trigger] views[i]),
            decreases peers@.len() - index,
        {
            let peer = &peers[index];
            assert(views[index as int] == peer@);
            if advertisement.matches(peer.public_key, peer.certificate_pin()) {
                assert(advertises_any(*advertisement, views));
                self.add(advertisement);
                return ;
            }
            index += 1;
        }
    }

    fn add(&mut self, advertisement: &DiscoveredPeer)
        requires
            old(self).wf(),
        ensures
            final(self).wf(),
            ({
                let id = advertisement.device_id@;
                let former = if old(self)@.contains_key(id) {
                    old(self)@[id]
                } else {
                    Set::empty()
                };
                final(self)@ == old(self)@.insert(
                    id,
                    former.union(advertisement.addresses@.to_set()),
                )
            }),
    {
        let id = advertisement.device_id.0;
        let ghost seen = self@;
        let ghost table = self.found@;
        let former = self.found.remove(&id);
        let mut addresses: OrdMap<PeerAddress, ()> = match former {
            Some(addresses) => addresses,
            None => OrdMap::new(),
        };
        let ghost known = addresses@.dom();
        let ghost listed = advertisement.addresses@;
        let mut index: usize = 0;
        assert(listed.take(0).to_set() =~= Set::<PeerAddress>::empty());
        assert(addresses@.dom() =~= known.union(listed.take(0).to_set()));
        while index < advertisement.addresses.len()
            invariant
                listed == advertisement.addresses@,
                index <= listed.len(),
                addresses.wf(),
                addresses@.dom() == known.union(listed.take(index as int).to_set()),
            decreases listed.len() - index,
        {
            let address = advertisement.addresses[index];
            let former = addresses.insert(address, ());
            proof {
                let shorter = listed.take(index as int);
                let longer = listed.take(index + 1);
                assert(longer =~= shorter.push(listed[index as int]));
                assert(longer.to_set() =~= shorter.to_set().insert(listed[index as int])) by {
                    assert forall|address: PeerAddress|
                        longer.contains(address) == (shorter.contains(address) || address
                            == listed[index as int]) by {
                        if shorter.contains(address) {
                            let i = choose|i: int| 0 <= i < shorter.len() && shorter[i] == address;
                            assert(longer[i] == address);
                        }
                        assert(longer[index as int] == listed[index as int]);
                        if longer.contains(address) {
                            let i = choose|i: int| 0 <= i < longer.len() && longer[i] == address;
                            if i < shorter.len() {
                                assert(shorter[i] == address);
                            }
                        }
                    }
                }
                assert(addresses@.dom() =~= known.union(longer.to_set()));
            }
            index += 1;
        }
        assert(listed.take(listed.len() as int) =~= listed);
        let former = self.found.insert(id, addresses);
        assert(self@ =~= seen.insert(id@, known.union(listed.to_set())));
    }

    /// Returns the addresses at which a device was seen, in order.
    pub fn addresses(&self, device: &[u8; 32]) -> (addresses: Vec<PeerAddress>)
        requires
            self.wf(),
        ensures
            ascending::<PeerAddress>(addresses@),
            addresses@.to_set() == if self@.contains_key(device@) {
                self@[device@]
            } else {
                Set::empty()
            },
    {
        let mut addresses: Vec<PeerAddress> = Vec::new();
        match self.found.get(device) {
            None => {
                assert(addresses@.to_set() =~= Set::<PeerAddress>::empty());
            },
            Some(known) => {
                let mut index: usize = 0;
                while index < known.len()
                    invariant
                        known.wf(),
                        index <= known.keys().len(),
                        addresses@ == known.keys().take(index as int),
                    decreases known.keys().len() - index,
                {
                    addresses.push(*known.key_at(index));
                    assert(addresses@ =~= known.keys().take(index + 1));
                    index += 1;
                }
                proof {
                    known.lemma_keys();
                    assert(addresses@ =~= known.keys());
                    assert(addresses@.to_set() =~= known@.dom());
                }
            },
        }
        addresses
    }
}

/// A paired device is recorded under its key with the certificate that it bound
/// to, at the time of pairing.
pub proof fn law_paired_device_is_recorded(peer: PairedPeer, paired_at: u64)
    ensures
        record_of(peer, paired_at).public_key == peer@.public_key,
        record_of(peer, paired_at).certificate == peer@.transport_binding,
        record_of(peer, paired_at).paired_at == paired_at,
{
}

/// An advertisement is noted exactly where a known device made it with its own
/// certificate: its addresses are then added to those seen of that device, and
/// nothing is noted of any other.
pub proof fn law_only_known_devices_are_noted(
    seen: Map<Seq<u8>, Set<PeerAddress>>,
    peers: Seq<PeerView>,
    advertisement: DiscoveredPeer,
    id: Seq<u8>,
    address: PeerAddress,
)
    ensures
        ({
            let after = noted(seen, peers, advertisement);
            let known = exists|i: int|
                0 <= i < peers.len() && advertisement.device_id@ == device_id(
                    (#[trigger] peers[i]).public_key,
                ) && advertisement.certificate_pin@ == blake3_hash(peers[i].certificate);
            let own = known && id == advertisement.device_id@;
            &&& after.contains_key(id) <==> seen.contains_key(id) || own
            &&& !own ==> after[id] == seen[id]
            &&& own ==> (after[id].contains(address) <==> (seen.contains_key(id)
                && seen[id].contains(address)) || advertisement.addresses@.contains(address))
        }),
{
    if advertises_any(advertisement, peers) {
        let i = choose|i: int|
            0 <= i < peers.len() && advertises(advertisement, #[trigger] peers[i]);
        assert(advertisement.device_id@ == device_id(peers[i].public_key));
    } else {
        assert forall|i: int| 0 <= i < peers.len() implies !(advertisement.device_id@ == device_id(
            (#[trigger] peers[i]).public_key,
        ) && advertisement.certificate_pin@ == blake3_hash(peers[i].certificate)) by {
            assert(!advertises(advertisement, peers[i]));
        }
    }
    assert(advertisement.addresses@.to_set().contains(address)
        <==> advertisement.addresses@.contains(address));
}

} // verus!
