//! A deterministic in-memory transport for partition and ordering tests.

use crate::error::{failure, seen, Error, ErrorCode, ErrorView, Result};
use crate::id::{id_text, ReplicaId};
use crate::ordmap::OrdMap;
use crate::sync::change::{change_views, Change, ChangeView};
use crate::sync::frontier::known;
use crate::sync::replica::{Apply, Replica};
use vstd::prelude::*;
use vstd::string::*;

verus! {

/// One queued change between simulated replicas.
#[derive(Debug, PartialEq, Eq)]
pub struct Envelope {
    /// Sending replica.
    pub from: ReplicaId,
    /// Intended recipient.
    pub to: ReplicaId,
    /// Replicated logical change.
    pub change: Change,
}

/// What an [`Envelope`] says.
#[verifier::ext_equal]
pub struct EnvelopeView {
    /// Sending replica.
    pub from: ReplicaId,
    /// Intended recipient.
    pub to: ReplicaId,
    /// Replicated logical change.
    pub change: ChangeView,
}

impl View for Envelope {
    type V = EnvelopeView;

    open spec fn view(&self) -> EnvelopeView {
        EnvelopeView { from: self.from, to: self.to, change: self.change@ }
    }
}

impl Clone for Envelope {
    fn clone(&self) -> (copy: Self)
        ensures
            copy@ == self@,
    {
        Envelope { from: self.from, to: self.to, change: self.change.clone() }
    }
}

/// Deterministic in-memory transport for partition and ordering tests.
#[derive(Debug)]
pub struct Simulator {
    replicas: OrdMap<ReplicaId, Replica>,
    queue: Vec<Envelope>,
    partitions: OrdMap<(ReplicaId, ReplicaId), ()>,
}

/// What a [`Simulator`] holds.
#[verifier::ext_equal]
pub struct SimulatorView {
    /// Replicas by identity.
    pub replicas: Map<ReplicaId, Replica>,
    /// Identities in ascending order.
    pub members: Seq<ReplicaId>,
    /// Queued envelopes in delivery order.
    pub queue: Seq<EnvelopeView>,
    /// Partitioned links, the smaller identity first.
    pub partitions: Set<(ReplicaId, ReplicaId)>,
}

/// What a sequence of envelopes says.
pub open spec fn envelope_views(queue: Seq<Envelope>) -> Seq<EnvelopeView> {
    queue.map_values(|envelope: Envelope| envelope@)
}

impl View for Simulator {
    type V = SimulatorView;

    closed spec fn view(&self) -> SimulatorView {
        SimulatorView {
            replicas: self.replicas@,
            members: self.replicas.keys(),
            queue: envelope_views(self.queue@),
            partitions: self.partitions@.dom(),
        }
    }
}

/// Two identities, the smaller one first.
pub open spec fn link(first: ReplicaId, second: ReplicaId) -> (ReplicaId, ReplicaId) {
    if first.0 <= second.0 {
        (first, second)
    } else {
        (second, first)
    }
}

fn pair(first: ReplicaId, second: ReplicaId) -> (link: (ReplicaId, ReplicaId))
    ensures
        link == self::link(first, second),
{
    if first.0 <= second.0 {
        (first, second)
    } else {
        (second, first)
    }
}

/// The error for an identity that the simulator does not hold.
pub open spec fn missing_error(id: ReplicaId) -> ErrorView {
    failure(ErrorCode::InvalidInput, "simulator has no replica "@ + id_text(id.0))
}

fn missing_replica(id: ReplicaId) -> (error: Error)
    ensures
        error@ == missing_error(id),
{
    let mut message = "simulator has no replica ".to_owned();
    message.append(id.to_string().as_str());
    Error::new(ErrorCode::InvalidInput, message.as_str())
}

/// The error for an index outside the queue.
pub open spec fn bounds_error() -> ErrorView {
    failure(ErrorCode::InvalidInput, "queue index is out of bounds"@)
}

/// The error for an order that is no permutation.
pub open spec fn permutation_error() -> ErrorView {
    failure(ErrorCode::InvalidInput, "queue order must be a complete index permutation"@)
}

fn invalid_permutation() -> (error: Error)
    ensures
        error@ == permutation_error(),
{
    Error::new(ErrorCode::InvalidInput, "queue order must be a complete index permutation")
}

/// Whether every index below `len` occurs exactly once.
pub open spec fn is_permutation(order: Seq<usize>, len: nat) -> bool {
    &&& order.len() == len
    &&& forall|i: int| 0 <= i < len ==> (#[trigger] order[i]) < len
    &&& forall|i: int, j: int| 0 <= i < j < len ==> #[trigger] order[i] != #[trigger] order[j]
}

/// One envelope to each recipient.
pub open spec fn addressed(
    from: ReplicaId,
    recipients: Seq<ReplicaId>,
    change: ChangeView,
) -> Seq<EnvelopeView> {
    recipients.map_values(|to: ReplicaId| EnvelopeView { from, to, change })
}

impl Simulator {
    /// The maps are in order and every replica is well formed.
    pub closed spec fn wf(self) -> bool {
        &&& self.replicas.wf()
        &&& self.partitions.wf()
        &&& forall|id: ReplicaId| #[trigger] self.replicas@.contains_key(id) ==> self.replicas@[id].wf()
    }

    /// The members are the replicas' identities, ascending, and every replica
    /// is well formed.
    pub proof fn lemma_members(self)
        requires
            self.wf(),
        ensures
            crate::ordmap::ascending::<ReplicaId>(self@.members),
            self@.replicas.dom() == self@.members.to_set(),
            forall|id: ReplicaId| #[trigger] self@.replicas.contains_key(id) ==> self@.replicas[id].wf(),
    {
        self.replicas.lemma_keys();
    }

    /// Creates an empty simulator.
    pub fn new() -> (simulator: Self)
        ensures
            simulator.wf(),
            simulator@ == (SimulatorView {
                replicas: Map::empty(),
                members: Seq::empty(),
                queue: Seq::empty(),
                partitions: Set::empty(),
            }),
    {
        let simulator = Simulator {
            replicas: OrdMap::new(),
            queue: Vec::new(),
            partitions: OrdMap::new(),
        };
        proof {
            simulator.replicas.lemma_keys();
            assert(simulator@.queue =~= Seq::empty());
            assert(simulator@.members =~= Seq::empty());
            assert(simulator@.partitions =~= Set::empty());
        }
        simulator
    }

    /// Adds a replica, replacing no existing identity.
    pub fn add(&mut self, replica: Replica) -> (result: Result<()>)
        requires
            old(self).wf(),
            replica.wf(),
        ensures
            final(self).wf(),
            final(self)@.queue == old(self)@.queue,
            final(self)@.partitions == old(self)@.partitions,
            match result {
                Ok(_) => {
                    &&& !old(self)@.replicas.contains_key(replica@.id)
                    &&& final(self)@.replicas == old(self)@.replicas.insert(replica@.id, replica)
                },
                Err(error) => {
                    &&& old(self)@.replicas.contains_key(replica@.id)
                    &&& error@ == failure(
                        ErrorCode::InvalidInput,
                        "simulator already contains replica "@ + id_text(replica@.id.0),
                    )
                    &&& final(self)@ == old(self)@
                },
            },
    {
        let id = replica.id();
        if self.replicas.contains(&id) {
            let mut message = "simulator already contains replica ".to_owned();
            message.append(id.to_string().as_str());
            return Err(Error::new(ErrorCode::InvalidInput, message.as_str()));
        }
        self.replicas.insert(id, replica);
        Ok(())
    }

    /// Returns an immutable replica by identity.
    pub fn replica(&self, id: ReplicaId) -> (replica: Option<&Replica>)
        requires
            self.wf(),
        ensures
            match replica {
                Some(replica) => {
                    &&& self@.replicas.contains_key(id)
                    &&& *replica == self@.replicas[id]
                    &&& replica.wf()
                },
                None => !self@.replicas.contains_key(id),
            },
    {
        self.replicas.get(&id)
    }

    /// Returns a mutable replica by identity.
    pub fn replica_mut(&mut self, id: ReplicaId) -> (replica: Option<&mut Replica>)
        requires
            old(self).wf(),
        ensures
            replica is Some == old(self)@.replicas.contains_key(id),
            replica matches Some(replica) ==> *replica == old(self)@.replicas[id] && replica.wf(),
            replica matches Some(replica) ==> (final(replica).wf() ==> final(self).wf()),
            replica matches Some(replica) ==> final(self)@.replicas == old(self)@.replicas.insert(
                id,
                *final(replica),
            ),
            replica is None ==> *final(self) == *old(self),
            final(self)@.members == old(self)@.members,
            final(self)@.queue == old(self)@.queue,
            final(self)@.partitions == old(self)@.partitions,
    {
        self.replicas.get_mut(&id)
    }

    /// Queues one change for every replica except its author.
    pub fn broadcast(&mut self, from: ReplicaId, change: &Change)
        requires
            old(self).wf(),
        ensures
            final(self).wf(),
            final(self)@ == (SimulatorView {
                queue: old(self)@.queue + addressed(
                    from,
                    old(self)@.members.filter(|to: ReplicaId| to != from),
                    change@,
                ),
                ..old(self)@
            }),
    {
        let mut index: usize = 0;
        let len: usize = self.replicas.len();
        let ghost before = *self;
        let ghost members = self.replicas.keys();
        let ghost others = |to: ReplicaId| to != from;
        proof {
            assert(members.take(0).filter(others) =~= Seq::<ReplicaId>::empty()) by {
                reveal(Seq::filter);
            }
            assert(envelope_views(self.queue@) =~= before@.queue + addressed(
                from,
                members.take(0).filter(others),
                change@,
            ));
        }
        while index < len
            invariant
                before.wf(),
                self.replicas == before.replicas,
                self.partitions == before.partitions,
                members == self.replicas.keys(),
                len == members.len(),
                index <= len,
                others == (|to: ReplicaId| to != from),
                envelope_views(self.queue@) == before@.queue + addressed(
                    from,
                    members.take(index as int).filter(others),
                    change@,
                ),
            decreases len - index,
        {
            let to = *self.replicas.key_at(index);
            let ghost queued = self.queue@;
            proof {
                assert(members.take(index + 1).drop_last() =~= members.take(index as int));
                assert(members.take(index + 1).last() == to);
                reveal(Seq::filter);
            }
            if to != from {
                self.queue.push(Envelope { from, to, change: change.clone() });
                proof {
                    let envelope = EnvelopeView { from, to, change: change@ };
                    assert(envelope_views(self.queue@) =~= envelope_views(queued).push(envelope));
                    let rest = members.take(index as int).filter(others);
                    assert(addressed(from, rest.push(to), change@) =~= addressed(
                        from,
                        rest,
                        change@,
                    ).push(envelope));
                    assert(envelope_views(self.queue@) =~= before@.queue + addressed(
                        from,
                        rest.push(to),
                        change@,
                    ));
                }
            }
            index += 1;
        }
        assert(members.take(members.len() as int) =~= members);
    }

    /// Queues all changes the recipient's frontier is known to lack.
    pub fn reconcile(&mut self, from: ReplicaId, to: ReplicaId) -> (result: Result<usize>)
        requires
            old(self).wf(),
        ensures
            final(self).wf(),
            match result {
                Ok(count) => {
                    &&& old(self)@.replicas.contains_key(from)
                    &&& old(self)@.replicas.contains_key(to)
                    &&& ({
                        let peer = old(self)@.replicas[to]@.frontier;
                        let missing = old(self)@.replicas[from].log().filter(
                            |change: ChangeView| change.id.counter > known(peer, change.id.replica),
                        );
                        &&& count == missing.len()
                        &&& final(self)@ == (SimulatorView {
                            queue: old(self)@.queue + missing.map_values(
                                |change: ChangeView| EnvelopeView { from, to, change },
                            ),
                            ..old(self)@
                        })
                    })
                },
                Err(error) => {
                    &&& final(self)@ == old(self)@
                    &&& if !old(self)@.replicas.contains_key(to) {
                        error@ == missing_error(to)
                    } else {
                        !old(self)@.replicas.contains_key(from) && error@ == missing_error(from)
                    }
                },
            },
    {
        let target = match self.replicas.get(&to) {
            Some(target) => target,
            None => return Err(missing_replica(to)),
        };
        let source = match self.replicas.get(&from) {
            Some(source) => source,
            None => return Err(missing_replica(from)),
        };
        let ghost before = *self;
        let changes = source.missing_for(target.frontier());
        let count: usize = changes.len();
        let ghost missing = change_views(changes@);
        let ghost wrap = |change: ChangeView| EnvelopeView { from, to, change };
        let mut index: usize = 0;
        proof {
            assert(missing.take(0).map_values(wrap) =~= Seq::<EnvelopeView>::empty());
            assert(envelope_views(self.queue@) =~= before@.queue + missing.take(0).map_values(wrap));
        }
        while index < count
            invariant
                before.wf(),
                self.replicas == before.replicas,
                self.partitions == before.partitions,
                count == changes@.len(),
                missing == change_views(changes@),
                wrap == (|change: ChangeView| EnvelopeView { from, to, change }),
                index <= count,
                envelope_views(self.queue@) == before@.queue + missing.take(
                    index as int,
                ).map_values(wrap),
            decreases count - index,
        {
            let ghost queued = self.queue@;
            self.queue.push(Envelope { from, to, change: changes[index].clone() });
            proof {
                let envelope = wrap(missing[index as int]);
                assert(envelope_views(self.queue@) =~= envelope_views(queued).push(envelope));
                assert(missing.take(index + 1).map_values(wrap) =~= missing.take(
                    index as int,
                ).map_values(wrap).push(envelope));
                assert(envelope_views(self.queue@) =~= before@.queue + missing.take(
                    index + 1,
                ).map_values(wrap));
            }
            index += 1;
        }
        proof {
            assert(missing.take(missing.len() as int) =~= missing);
            let peer = before@.replicas[to]@.frontier;
            assert(missing == before@.replicas[from].log().filter(
                |change: ChangeView| change.id.counter > known(peer, change.id.replica),
            ));
        }
        Ok(count)
    }

    /// Duplicates a queued envelope to exercise idempotence.
    pub fn duplicate(&mut self, index: usize) -> (result: Result<()>)
        requires
            old(self).wf(),
        ensures
            final(self).wf(),
            match result {
                Ok(_) => {
                    &&& index < old(self)@.queue.len()
                    &&& final(self)@ == (SimulatorView {
                        queue: old(self)@.queue.push(old(self)@.queue[index as int]),
                        ..old(self)@
                    })
                },
                Err(error) => {
                    &&& index >= old(self)@.queue.len()
                    &&& error@ == bounds_error()
                    &&& final(self)@ == old(self)@
                },
            },
    {
        if index >= self.queue.len() {
            return Err(Error::new(ErrorCode::InvalidInput, "queue index is out of bounds"));
        }
        let envelope = self.queue[index].clone();
        let ghost before = *self;
        self.queue.push(envelope);
        assert(self@.queue =~= before@.queue.push(before@.queue[index as int]));
        Ok(())
    }

    /// Prevents delivery in both directions between two replicas.
    pub fn partition(&mut self, first: ReplicaId, second: ReplicaId)
        requires
            old(self).wf(),
        ensures
            final(self).wf(),
            final(self)@ == (SimulatorView {
                partitions: old(self)@.partitions.insert(link(first, second)),
                ..old(self)@
            }),
    {
        let ghost before = *self;
        self.partitions.insert(pair(first, second), ());
        assert(self@.partitions =~= before@.partitions.insert(link(first, second)));
    }

    /// Restores delivery in both directions between two replicas.
    pub fn heal(&mut self, first: ReplicaId, second: ReplicaId)
        requires
            old(self).wf(),
        ensures
            final(self).wf(),
            final(self)@ == (SimulatorView {
                partitions: old(self)@.partitions.remove(link(first, second)),
                ..old(self)@
            }),
    {
        let ghost before = *self;
        self.partitions.remove(&pair(first, second));
        assert(self@.partitions =~= before@.partitions.remove(link(first, second)));
    }

    /// Delivers one queued envelope by index.
    ///
    /// A partitioned envelope stays queued; any other leaves the queue,
    /// whatever comes of its delivery.
    pub fn deliver(&mut self, index: usize, now_ms: u64) -> (result: Result<Apply>)
        requires
            old(self).wf(),
        ensures
            final(self).wf(),
            final(self)@.partitions == old(self)@.partitions,
            final(self)@.members == old(self)@.members,
            if index >= old(self)@.queue.len() {
                seen(result) == Err::<Apply, ErrorView>(bounds_error()) && final(self)@ == old(self)@
            } else {
                let envelope = old(self)@.queue[index as int];
                if old(self)@.partitions.contains(link(envelope.from, envelope.to)) {
                    &&& seen(result) == Err::<Apply, ErrorView>(
                        failure(ErrorCode::InvalidInput, "the simulated link is partitioned"@),
                    )
                    &&& final(self)@ == old(self)@
                } else {
                    &&& final(self)@.queue == old(self)@.queue.remove(index as int)
                    &&& if !old(self)@.replicas.contains_key(envelope.to) {
                        &&& seen(result) == Err::<Apply, ErrorView>(missing_error(envelope.to))
                        &&& final(self)@.replicas == old(self)@.replicas
                    } else {
                        let before = old(self)@.replicas[envelope.to];
                        let after = final(self)@.replicas[envelope.to];
                        &&& (seen(result), after@) == before@.applying(envelope.change, now_ms)
                        &&& final(self)@.replicas == old(self)@.replicas.insert(envelope.to, after)
                    }
                }
            },
    {
        if index >= self.queue.len() {
            return Err(Error::new(ErrorCode::InvalidInput, "queue index is out of bounds"));
        }
        let ghost before = *self;
        let link = pair(self.queue[index].from, self.queue[index].to);
        if self.partitions.contains(&link) {
            return Err(Error::new(ErrorCode::InvalidInput, "the simulated link is partitioned"));
        }
        let envelope = self.queue.remove(index);
        assert(envelope_views(self.queue@) =~= before@.queue.remove(index as int));
        let to = envelope.to;
        match self.replicas.get_mut(&to) {
            Some(replica) => replica.apply(envelope.change, now_ms),
            None => Err(missing_replica(to)),
        }
    }

    /// Returns queued envelopes in their current delivery order.
    pub fn queue(&self) -> (queue: &[Envelope])
        ensures
            envelope_views(queue@) == self@.queue,
    {
        self.queue.as_slice()
    }

    /// Reorders queued envelopes using a complete index permutation.
    pub fn reorder(&mut self, order: &[usize]) -> (result: Result<()>)
        requires
            old(self).wf(),
        ensures
            final(self).wf(),
            match result {
                Ok(_) => {
                    &&& is_permutation(order@, old(self)@.queue.len())
                    &&& final(self)@ == (SimulatorView {
                        queue: Seq::new(
                            old(self)@.queue.len(),
                            |i: int| old(self)@.queue[order@[i] as int],
                        ),
                        ..old(self)@
                    })
                },
                Err(error) => {
                    &&& !is_permutation(order@, old(self)@.queue.len())
                    &&& error@ == permutation_error()
                    &&& final(self)@ == old(self)@
                },
            },
    {
        if order.len() != self.queue.len() {
            return Err(invalid_permutation());
        }
        let len: usize = order.len();
        let mut used: Vec<bool> = Vec::new();
        while used.len() < len
            invariant
                used@.len() <= len,
                forall|i: int| 0 <= i < used@.len() ==> !(#[trigger] used@[i]),
            decreases len - used@.len(),
        {
            used.push(false);
        }
        let mut index: usize = 0;
        while index < len
            invariant
                self.wf(),
                *self == *old(self),
                self@.queue.len() == len,
                len == order@.len(),
                used@.len() == len,
                index <= len,
                forall|i: int| 0 <= i < index ==> (#[trigger] order@[i]) < len,
                forall|i: int| 0 <= i < index ==> used@[(#[trigger] order@[i]) as int],
                forall|place: int|
                    0 <= place < len && #[trigger] used@[place] ==> exists|i: int|
                        0 <= i < index && order@[i] == place,
                forall|i: int, j: int|
                    0 <= i < j < index ==> #[trigger] order@[i] != #[trigger] order@[j],
            decreases len - index,
        {
            let place: usize = order[index];
            if place >= len {
                assert(order@[index as int] >= len);
                return Err(invalid_permutation());
            }
            if used[place] {
                proof {
                    let i = choose|i: int| 0 <= i < index && order@[i] == place;
                    assert(order@[i] == order@[index as int]);
                }
                return Err(invalid_permutation());
            }
            let ghost marked = used@;
            used.set(place, true);
            assert forall|p: int| 0 <= p < len && #[trigger] used@[p] implies exists|i: int|
                0 <= i < index + 1 && order@[i] == p by {
                if p == place {
                    assert(order@[index as int] == p);
                } else {
                    assert(marked[p]);
                }
            }
            index += 1;
        }
        let ghost before = *self;
        let mut queue: Vec<Envelope> = Vec::new();
        let mut next: usize = 0;
        while next < len
            invariant
                before.wf(),
                *self == before,
                len == order@.len(),
                len == before.queue@.len(),
                forall|i: int| 0 <= i < len ==> (#[trigger] order@[i]) < len,
                next <= len,
                queue@.len() == next,
                forall|i: int|
                    0 <= i < next ==> (#[trigger] queue@[i])@ == before.queue@[order@[i] as int]@,
            decreases len - next,
        {
            queue.push(self.queue[order[next]].clone());
            next += 1;
        }
        self.queue = queue;
        assert(self@.queue =~= Seq::new(
            before@.queue.len(),
            |i: int| before@.queue[order@[i] as int],
        ));
        Ok(())
    }
}

/// A link is the same in both directions, and no other two replicas share it.
pub proof fn law_link_is_that_of_two_replicas(
    a: ReplicaId,
    b: ReplicaId,
    c: ReplicaId,
    d: ReplicaId,
)
    ensures
        link(a, b) == link(b, a),
        link(a, b) == link(c, d) ==> (a == c && b == d) || (a == d && b == c),
{
}

impl crate::ordmap::Value for Replica {
    open spec fn alike(a: Replica, b: Replica) -> bool {
        a.wf() ==> b.wf() && a@ == b@
    }

    fn copy_value(&self) -> (copy: Self) {
        self.clone()
    }
}

impl Default for Simulator {
    fn default() -> (simulator: Self)
        ensures
            simulator.wf(),
            simulator@.replicas == Map::<ReplicaId, Replica>::empty(),
            simulator@.queue == Seq::<EnvelopeView>::empty(),
            simulator@.partitions == Set::<(ReplicaId, ReplicaId)>::empty(),
    {
        Simulator::new()
    }
}

/// A broadcast sends the change itself, from its sender, once to each recipient.
pub proof fn law_broadcast_reaches_each_recipient(
    from: ReplicaId,
    recipients: Seq<ReplicaId>,
    change: ChangeView,
    i: int,
)
    requires
        0 <= i < recipients.len(),
    ensures
        addressed(from, recipients, change).len() == recipients.len(),
        addressed(from, recipients, change)[i].from == from,
        addressed(from, recipients, change)[i].to == recipients[i],
        addressed(from, recipients, change)[i].change == change,
{
}

/// A new order keeps every queued message: each old place comes exactly once.
pub proof fn law_new_order_keeps_every_message(order: Seq<usize>, len: nat, at: int)
    requires
        is_permutation(order, len),
        0 <= at < len,
    ensures
        order.len() == len,
        exists|i: int| 0 <= i < order.len() && #[trigger] order[i] == at,
        forall|i: int, j: int|
            0 <= i < order.len() && 0 <= j < order.len() && #[trigger] order[i] == at
                && #[trigger] order[j] == at ==> i == j,
{
    let places = Seq::new(len, |i: int| order[i] as int);
    let all = vstd::set_lib::set_int_range(0, len as int);
    assert(places.no_duplicates()) by {
        assert forall|i: int, j: int|
            0 <= i < places.len() && 0 <= j < places.len() && i != j implies places[i]
            != places[j] by {
            if i < j {
                assert(order[i] != order[j]);
            } else {
                assert(order[j] != order[i]);
            }
        }
    }
    places.unique_seq_to_set();
    vstd::set_lib::lemma_int_range(0, len as int);
    assert(places.to_set().subset_of(all)) by {
        assert forall|place: int| places.to_set().contains(place) implies all.contains(place) by {
            let i = choose|i: int| 0 <= i < places.len() && places[i] == place;
            assert(order[i] < len);
        }
    }
    vstd::set_lib::lemma_len_subset(places.to_set(), all);
    vstd::set_lib::lemma_subset_equality(places.to_set(), all);
    assert(places.to_set().contains(at));
    let i = choose|i: int| 0 <= i < places.len() && places[i] == at;
    assert(order[i] == at);
    assert forall|i: int, j: int|
        0 <= i < order.len() && 0 <= j < order.len() && #[trigger] order[i] == at
            && #[trigger] order[j] == at implies i == j by {
        if i < j {
            assert(order[i] != order[j]);
        } else if j < i {
            assert(order[j] != order[i]);
        }
    }
}

} // verus!
