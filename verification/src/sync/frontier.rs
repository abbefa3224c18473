//! Reconciliation frontiers.

use crate::id::ReplicaId;
use crate::ordmap::{ascending, OrdMap};
use vstd::prelude::*;

verus! {

/// Greatest contiguous change counter known for each replica.
///
/// A frontier never claims receipt beyond a gap. It is therefore safe for
/// reconciliation even when changes arrive out of order.
#[derive(Debug, PartialEq, Eq)]
pub struct Frontier {
    counters: OrdMap<ReplicaId, u64>,
}

/// The counter that a frontier has for a replica.
pub open spec fn known(frontier: Map<ReplicaId, u64>, replica: ReplicaId) -> u64 {
    if frontier.contains_key(replica) {
        frontier[replica]
    } else {
        0
    }
}

impl View for Frontier {
    type V = Map<ReplicaId, u64>;

    closed spec fn view(&self) -> Map<ReplicaId, u64> {
        self.counters@
    }
}

impl Frontier {
    /// The counters are kept in replica order.
    pub closed spec fn wf(self) -> bool {
        self.counters.wf()
    }

    /// Creates an empty frontier.
    pub fn new() -> (frontier: Self)
        ensures
            frontier.wf(),
            frontier@ == Map::<ReplicaId, u64>::empty(),
    {
        Frontier { counters: OrdMap::new() }
    }

    /// Builds a frontier from counters; of two for one replica the later one
    /// counts.
    pub fn from_entries(entries: &Vec<(ReplicaId, u64)>) -> (frontier: Self)
        ensures
            frontier.wf(),
            frontier@ == entries_map(entries@),
    {
        let mut counters: OrdMap<ReplicaId, u64> = OrdMap::new();
        let mut index: usize = 0;
        assert(entries@.take(0) =~= Seq::<(ReplicaId, u64)>::empty());
        while index < entries.len()
            invariant
                index <= entries.len(),
                counters.wf(),
                counters@ == entries_map(entries@.take(index as int)),
            decreases entries.len() - index,
        {
            let entry = entries[index];
            counters.insert(entry.0, entry.1);
            assert(entries@.take(index + 1).drop_last() =~= entries@.take(index as int));
            index += 1;
        }
        assert(entries@.take(entries@.len() as int) =~= entries@);
        Frontier { counters }
    }

    /// Returns the greatest contiguous counter known for `replica`.
    pub fn get(&self, replica: ReplicaId) -> (counter: u64)
        requires
            self.wf(),
        ensures
            counter == known(self@, replica),
            self@.contains_key(replica) ==> counter == self@[replica],
            !self@.contains_key(replica) ==> counter == 0,
    {
        match self.counters.get(&replica) {
            Some(counter) => *counter,
            None => 0,
        }
    }

    /// Returns the replicas with at least one contiguous change and their
    /// counters, in ascending replica order.
    pub fn iter(&self) -> (entries: Vec<(ReplicaId, u64)>)
        requires
            self.wf(),
        ensures
            ascending::<ReplicaId>(entries@.map_values(|entry: (ReplicaId, u64)| entry.0)),
            forall|i: int|
                0 <= i < entries@.len() ==> self@.contains_key((#[trigger] entries@[i]).0)
                    && self@[entries@[i].0] == entries@[i].1,
            forall|replica: ReplicaId| #[trigger]
                self@.contains_key(replica) ==> entries@.contains((replica, self@[replica])),
            entries@.len() == self@.len(),
    {
        let mut entries: Vec<(ReplicaId, u64)> = Vec::new();
        let mut index: usize = 0;
        let len: usize = self.counters.len();
        proof {
            self.counters.lemma_keys();
        }
        while index < len
            invariant
                self.wf(),
                len == self.counters.keys().len(),
                index <= len,
                entries@.len() == index,
                forall|i: int|
                    0 <= i < index ==> self.counters@.contains_key((#[trigger] entries@[i]).0)
                        && self.counters@[entries@[i].0] == entries@[i].1 && entries@[i].0
                        == self.counters.keys()[i],
            decreases len - index,
        {
            let entry = (*self.counters.key_at(index), *self.counters.value_at(index));
            entries.push(entry);
            index += 1;
        }
        proof {
            let replicas = entries@.map_values(|entry: (ReplicaId, u64)| entry.0);
            assert(replicas =~= self.counters.keys());
            assert forall|replica: ReplicaId| #[trigger] self@.contains_key(replica) implies entries@.contains(
                (replica, self@[replica]),
            ) by {
                assert(self.counters.keys().contains(replica));
                let i = choose|i: int|
                    0 <= i < self.counters.keys().len() && self.counters.keys()[i] == replica;
                assert(entries@[i] == (replica, self@[replica]));
            }
        }
        entries
    }

    /// Records the greatest contiguous counter of a replica; zero forgets the
    /// replica.
    pub(crate) fn set(&mut self, replica: ReplicaId, counter: u64)
        requires
            old(self).wf(),
        ensures
            final(self).wf(),
            final(self)@ == recorded(old(self)@, replica, counter),
    {
        if counter == 0 {
            self.counters.remove(&replica);
        } else {
            self.counters.insert(replica, counter);
        }
    }
}

/// A frontier in which the counter of one replica is recorded.
pub open spec fn recorded(
    frontier: Map<ReplicaId, u64>,
    replica: ReplicaId,
    counter: u64,
) -> Map<ReplicaId, u64> {
    if counter == 0 {
        frontier.remove(replica)
    } else {
        frontier.insert(replica, counter)
    }
}

/// The counters that a sequence of entries gives.
pub open spec fn entries_map(entries: Seq<(ReplicaId, u64)>) -> Map<ReplicaId, u64>
    decreases entries.len(),
{
    if entries.len() == 0 {
        Map::empty()
    } else {
        entries_map(entries.drop_last()).insert(entries.last().0, entries.last().1)
    }
}

impl Default for Frontier {
    fn default() -> (frontier: Self)
        ensures
            frontier.wf(),
            frontier@ == Map::<ReplicaId, u64>::empty(),
    {
        Frontier::new()
    }
}

impl Clone for Frontier {
    fn clone(&self) -> (copy: Self)
        ensures
            self.wf() ==> copy.wf() && copy@ == self@,
    {
        let copy = Frontier { counters: self.counters.clone() };
        proof {
            if self.wf() {
                assert(copy@ =~= self@);
            }
        }
        copy
    }
}

/// A frontier built from entries knows exactly the replicas that the entries
/// name, each with the counter of its last entry.
pub proof fn law_last_entry_counts(entries: Seq<(ReplicaId, u64)>, i: int)
    requires
        0 <= i < entries.len(),
    ensures
        entries_map(entries).contains_key(entries[i].0),
        (forall|j: int| i < j < entries.len() ==> (#[trigger] entries[j]).0 != entries[i].0)
            ==> entries_map(entries)[entries[i].0] == entries[i].1,
        forall|replica: ReplicaId| #[trigger]
            entries_map(entries).contains_key(replica) ==> exists|j: int|
                0 <= j < entries.len() && (#[trigger] entries[j]).0 == replica,
    decreases entries.len(),
{
    let shorter = entries.drop_last();
    let last = entries.len() - 1;
    if i < last {
        law_last_entry_counts(shorter, i);
        assert(shorter[i] == entries[i]);
        assert(entries[last] == entries.last());
    } else if shorter.len() > 0 {
        law_last_entry_counts(shorter, 0);
    }
    assert forall|replica: ReplicaId| #[trigger]
        entries_map(entries).contains_key(replica) implies exists|j: int|
        0 <= j < entries.len() && (#[trigger] entries[j]).0 == replica by {
        if entries_map(shorter).contains_key(replica) {
            let j = choose|j: int| 0 <= j < shorter.len() && (#[trigger] shorter[j]).0 == replica;
            assert(entries[j].0 == replica);
        } else {
            assert(entries[last].0 == replica);
        }
    }
}

/// A frontier knows the counter recorded for a replica, and zero for a replica
/// that it does not name; recording one counter leaves the others alone.
pub proof fn law_recorded_counter_is_known(
    frontier: Map<ReplicaId, u64>,
    replica: ReplicaId,
    counter: u64,
    other: ReplicaId,
)
    ensures
        known(recorded(frontier, replica, counter), replica) == counter,
        other != replica ==> known(recorded(frontier, replica, counter), other) == known(
            frontier,
            other,
        ),
        frontier.contains_key(other) ==> known(frontier, other) == frontier[other],
        !frontier.contains_key(other) ==> known(frontier, other) == 0,
{
}

} // verus!
