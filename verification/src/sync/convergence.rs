//! What replicas agree on, whatever the order in which changes reach them.

use crate::id::{DocumentId, ReplicaId};
use crate::ordmap::Key;
use crate::rows::{lemma_kept, lemma_kept_pairs};
use crate::sync::change::{ChangeId, ChangeView, OperationView};
use crate::sync::clock::observed;
use crate::sync::frontier::known;
use crate::sync::replica::{
    contiguous, is_contiguous, lemma_contiguous, lemma_retaining_consistent, lemma_supersedes,
    operation_refusal, state_of, supersedes, touches, Apply, Replica, ReplicaView,
};
use vstd::prelude::*;
use vstd::utf8::encode_utf8;

verus! {

/// One delivery of a change at a physical time.
pub struct Delivery {
    /// The change delivered.
    pub change: ChangeView,
    /// The physical time at delivery.
    pub now_ms: u64,
}

/// A replica after deliveries in order.
pub open spec fn delivered(state: ReplicaView, deliveries: Seq<Delivery>) -> ReplicaView
    decreases deliveries.len(),
{
    if deliveries.len() == 0 {
        state
    } else {
        let last = deliveries.last();
        delivered(state, deliveries.drop_last()).applying(last.change, last.now_ms).1
    }
}

/// Whether every delivery is one that the replica accepts: it is valid, and
/// no identity stands for two contents.
pub open spec fn acceptable(state: ReplicaView, deliveries: Seq<Delivery>) -> bool {
    &&& forall|i: int|
        0 <= i < deliveries.len() ==> state.change_refusal((#[trigger] deliveries[i]).change) is None
    &&& forall|i: int|
        0 <= i < deliveries.len() && state.changes.contains_key(
            (#[trigger] deliveries[i]).change.id,
        ) ==> state.changes[deliveries[i].change.id] == deliveries[i].change
    &&& forall|i: int, j: int|
        0 <= i < deliveries.len() && 0 <= j < deliveries.len() && (#[trigger] deliveries[i]).change.id
            == (#[trigger] deliveries[j]).change.id ==> deliveries[i].change == deliveries[j].change
}

/// Whether a change is among the deliveries.
pub open spec fn carries(deliveries: Seq<Delivery>, change: ChangeView) -> bool {
    exists|i: int| 0 <= i < deliveries.len() && (#[trigger] deliveries[i]).change == change
}

/// Whether the same changes are among two series of deliveries, in whatever
/// order and however often.
pub open spec fn same_deliveries(first: Seq<Delivery>, second: Seq<Delivery>) -> bool {
    forall|change: ChangeView| #[trigger] carries(first, change) == carries(second, change)
}

proof fn lemma_contiguous_exists(
    changes: Map<ChangeId, ChangeView>,
    replica: ReplicaId,
    counter: u64,
)
    requires
        forall|c: u64|
            1 <= c <= counter ==> #[trigger] changes.contains_key(ChangeId { replica, counter: c }),
    ensures
        is_contiguous(changes, replica, contiguous(changes, replica)),
    decreases u64::MAX - counter,
{
    if counter == u64::MAX || !changes.contains_key(
        ChangeId { replica, counter: (counter + 1) as u64 },
    ) {
        assert(is_contiguous(changes, replica, counter));
        lemma_contiguous(changes, replica, counter);
    } else {
        lemma_contiguous_exists(changes, replica, (counter + 1) as u64);
    }
}

/// Applying a change keeps a replica consistent, whatever comes of it.
pub proof fn law_applying_keeps_consistency(state: ReplicaView, change: ChangeView, now_ms: u64)
    requires
        state.consistent(),
    ensures
        state.applying(change, now_ms).1.consistent(),
{
    let (outcome, after) = state.applying(change, now_ms);
    if outcome matches Ok(Apply::Applied { visible }) {
        let clock = observed(state.clock, change.timestamp, now_ms);
        let seen = ReplicaView { clock, ..state };
        assert(seen.consistent()) by {
            assert forall|id: ChangeId| #[trigger] seen.changes.contains_key(id) implies seen.clock.reaches(
                seen.changes[id].timestamp,
            ) by {
                assert(state.changes.contains_key(id));
            }
            assert forall|replica: ReplicaId| is_contiguous(
                seen.changes,
                replica,
                #[trigger] known(seen.frontier, replica),
            ) by {
                assert(is_contiguous(state.changes, replica, known(state.frontier, replica)));
            }
        }
        let author = change.id.replica;
        assert(is_contiguous(state.changes, author, known(state.frontier, author)));
        lemma_contiguous_exists(
            state.changes.insert(change.id, change),
            author,
            known(state.frontier, author),
        );
        lemma_retaining_consistent(seen, change);
        assert(seen.retaining(change) =~= after);
    }
}

/// A replica counts on from the greatest counter that it retains of its own
/// changes: the identity of the next change is one more, and free.
pub proof fn law_counter_follows_own_changes(
    state: ReplicaView,
    operation: OperationView,
    now_ms: u64,
)
    requires
        state.consistent(),
        state.next_counter < u64::MAX,
    ensures
        ({
            let next = state.authored(operation, now_ms).id;
            &&& next.replica == state.id
            &&& !state.changes.contains_key(next)
            &&& forall|id: ChangeId| #[trigger]
                state.changes.contains_key(id) && id.replica == state.id ==> id.counter
                    < next.counter
            &&& next.counter > 1 ==> exists|id: ChangeId| #[trigger]
                state.changes.contains_key(id) && id.replica == state.id && id.counter + 1
                    == next.counter
        }),
{
    let last = ChangeId { replica: state.id, counter: state.next_counter };
    assert(state.next_counter > 0 ==> state.changes.contains_key(last));
}

/// A refused change leaves a replica as it was.
pub proof fn law_refused_change_changes_nothing(state: ReplicaView, change: ChangeView, now_ms: u64)
    ensures
        state.applying(change, now_ms).0 is Err ==> state.applying(change, now_ms).1 == state,
{
}

/// Applying a retained change again is a duplicate and changes nothing.
pub proof fn law_applying_is_idempotent(
    state: ReplicaView,
    change: ChangeView,
    now_ms: u64,
    later_ms: u64,
)
    requires
        state.applying(change, now_ms).0 is Ok,
    ensures
        ({
            let after = state.applying(change, now_ms).1;
            after.applying(change, later_ms) == (
                Ok::<Apply, crate::error::ErrorView>(Apply::Duplicate),
                after,
            )
        }),
{
}

proof fn lemma_delivered(state: ReplicaView, deliveries: Seq<Delivery>)
    requires
        state.consistent(),
        acceptable(state, deliveries),
    ensures
        ({
            let after = delivered(state, deliveries);
            &&& after.consistent()
            &&& after.space == state.space
            &&& after.schemas == state.schemas
            &&& forall|id: ChangeId| #[trigger]
                state.changes.contains_key(id) ==> after.changes.contains_key(id)
                    && after.changes[id] == state.changes[id]
            &&& forall|i: int|
                0 <= i < deliveries.len() ==> after.changes.contains_key(
                    (#[trigger] deliveries[i]).change.id,
                ) && after.changes[deliveries[i].change.id] == deliveries[i].change
            &&& forall|id: ChangeId| #[trigger]
                after.changes.contains_key(id) ==> state.changes.contains_key(id) || carries(
                    deliveries,
                    after.changes[id],
                )
        }),
    decreases deliveries.len(),
{
    if deliveries.len() > 0 {
        let rest = deliveries.drop_last();
        let last = deliveries.last();
        assert(acceptable(state, rest)) by {
            assert forall|i: int| 0 <= i < rest.len() implies rest[i] == deliveries[i] by {}
        }
        lemma_delivered(state, rest);
        let middle = delivered(state, rest);
        law_applying_keeps_consistency(middle, last.change, last.now_ms);
        let after = delivered(state, deliveries);
        assert(deliveries[deliveries.len() - 1] == last);
        assert(middle.change_refusal(last.change) is None);
        if middle.changes.contains_key(last.change.id) {
            assert(middle.changes[last.change.id] == last.change) by {
                if !state.changes.contains_key(last.change.id) {
                    let found = middle.changes[last.change.id];
                    let i = choose|i: int| 0 <= i < rest.len() && (#[trigger] rest[i]).change == found;
                    assert(deliveries[i].change == found);
                    assert(found.id == last.change.id);
                }
            }
        }
        assert forall|i: int| 0 <= i < deliveries.len() implies after.changes.contains_key(
            (#[trigger] deliveries[i]).change.id,
        ) && after.changes[deliveries[i].change.id] == deliveries[i].change by {
            if i < rest.len() {
                assert(rest[i] == deliveries[i]);
            }
        }
        assert forall|id: ChangeId| #[trigger] after.changes.contains_key(id) implies state.changes.contains_key(
            id,
        ) || carries(deliveries, after.changes[id]) by {
            if middle.changes.contains_key(id) {
                if !state.changes.contains_key(id) {
                    let i = choose|i: int|
                        0 <= i < rest.len() && (#[trigger] rest[i]).change == middle.changes[id];
                    assert(deliveries[i].change == after.changes[id]);
                }
            } else {
                assert(deliveries[deliveries.len() - 1].change == after.changes[id]);
            }
        }
    }
}

/// Replicas that retain the same changes show the same documents and the same
/// frontier.
pub proof fn law_same_changes_same_state(first: ReplicaView, second: ReplicaView)
    requires
        first.consistent(),
        second.consistent(),
        first.changes == second.changes,
    ensures
        first.documents == second.documents,
        first.frontier == second.frontier,
{
    assert forall|key: (Seq<char>, DocumentId)|
        first.documents.contains_key(key) == second.documents.contains_key(key) && (
        first.documents.contains_key(key) ==> first.documents[key] == second.documents[key]) by {
        if first.documents.contains_key(key) {
            let one = first.documents[key].change;
            assert(touches(first.changes, one, key));
            assert(second.changes.contains_key(one));
            assert(second.documents.contains_key(key));
            let two = second.documents[key].change;
            assert(touches(second.changes, two, key));
            if one != two {
                assert(touches(second.changes, one, key));
                assert(touches(first.changes, two, key));
                lemma_supersedes(first.documents[key], second.documents[key], first.documents[key]);
            }
        }
        if second.documents.contains_key(key) {
            let two = second.documents[key].change;
            assert(touches(second.changes, two, key));
            assert(first.changes.contains_key(two));
        }
    }
    assert(first.documents =~= second.documents);
    assert forall|replica: ReplicaId| #[trigger]
        first.frontier.contains_key(replica) == second.frontier.contains_key(replica) && known(
            first.frontier,
            replica,
        ) == known(second.frontier, replica) by {
        assert(is_contiguous(first.changes, replica, known(first.frontier, replica)));
        assert(is_contiguous(second.changes, replica, known(second.frontier, replica)));
        lemma_contiguous(first.changes, replica, known(first.frontier, replica));
        lemma_contiguous(second.changes, replica, known(second.frontier, replica));
    }
    assert(first.frontier =~= second.frontier);
}

/// Replicas that start with the same changes converge: whatever the order in
/// which acceptable changes reach them, and however often each is repeated,
/// they end with the same changes, documents and frontier.
pub proof fn law_deliveries_converge(
    first: ReplicaView,
    second: ReplicaView,
    first_order: Seq<Delivery>,
    second_order: Seq<Delivery>,
)
    requires
        first.consistent(),
        second.consistent(),
        first.changes == second.changes,
        acceptable(first, first_order),
        acceptable(second, second_order),
        same_deliveries(first_order, second_order),
    ensures
        delivered(first, first_order).changes == delivered(second, second_order).changes,
        delivered(first, first_order).documents == delivered(second, second_order).documents,
        delivered(first, first_order).frontier == delivered(second, second_order).frontier,
{
    lemma_delivered(first, first_order);
    lemma_delivered(second, second_order);
    let one = delivered(first, first_order);
    let two = delivered(second, second_order);
    assert forall|id: ChangeId| one.changes.contains_key(id) implies two.changes.contains_key(id)
        && two.changes[id] == one.changes[id] by {
        if !first.changes.contains_key(id) {
            assert(carries(first_order, one.changes[id]));
            assert(carries(second_order, one.changes[id]));
            let i = choose|i: int|
                0 <= i < second_order.len() && (#[trigger] second_order[i]).change
                    == one.changes[id];
            assert(second_order[i].change.id == id);
        }
    }
    assert forall|id: ChangeId| two.changes.contains_key(id) implies one.changes.contains_key(
        id,
    ) by {
        if !second.changes.contains_key(id) {
            assert(carries(second_order, two.changes[id]));
            assert(carries(first_order, two.changes[id]));
            let i = choose|i: int|
                0 <= i < first_order.len() && (#[trigger] first_order[i]).change == two.changes[id];
            assert(first_order[i].change.id == id);
        }
    }
    assert(one.changes =~= two.changes);
    law_same_changes_same_state(one, two);
}

/// A frontier never claims receipt beyond a gap: every change up to the
/// counter that it has for an author is retained.
pub proof fn law_frontier_claims_no_gap(state: ReplicaView, replica: ReplicaId, counter: u64)
    requires
        state.consistent(),
        1 <= counter <= known(state.frontier, replica),
    ensures
        state.changes.contains_key(ChangeId { replica, counter }),
{
    assert(is_contiguous(state.changes, replica, known(state.frontier, replica)));
}

/// What a source retains beyond a peer's frontier completes the peer: every
/// change of the source is either retained by the peer or beyond its frontier.
pub proof fn law_reconciliation_is_complete(source: ReplicaView, peer: ReplicaView, id: ChangeId)
    requires
        source.consistent(),
        peer.consistent(),
        source.changes.contains_key(id),
    ensures
        peer.changes.contains_key(id) || id.counter > known(peer.frontier, id.replica),
{
    if id.counter <= known(peer.frontier, id.replica) {
        law_frontier_claims_no_gap(peer, id.replica, id.counter);
    }
}

/// Whether no identity stands for two contents in two replicas.
pub open spec fn agree(first: ReplicaView, second: ReplicaView) -> bool {
    forall|id: ChangeId| #[trigger]
        first.changes.contains_key(id) && second.changes.contains_key(id) ==> first.changes[id]
            == second.changes[id]
}

/// Whether deliveries carry changes in order, at whatever times.
pub open spec fn carries_all(deliveries: Seq<Delivery>, changes: Seq<ChangeView>) -> bool {
    &&& deliveries.len() == changes.len()
    &&& forall|i: int| 0 <= i < changes.len() ==> (#[trigger] deliveries[i]).change == changes[i]
}

/// What a source sends is retained by it and valid for a replica of the same
/// space and schemas.
proof fn lemma_sent(source: Replica, peer: ReplicaView, deliveries: Seq<Delivery>)
    requires
        source.wf(),
        source@.space == peer.space,
        source@.schemas == peer.schemas,
        carries_all(deliveries, source.missing(peer.frontier)),
    ensures
        forall|i: int|
            0 <= i < deliveries.len() ==> {
                let change = (#[trigger] deliveries[i]).change;
                &&& source@.changes.contains_key(change.id)
                &&& source@.changes[change.id] == change
                &&& peer.change_refusal(change) is None
            },
        forall|id: ChangeId| #[trigger]
            source@.changes.contains_key(id) && id.counter > known(peer.frontier, id.replica)
                ==> carries(deliveries, source@.changes[id]),
{
    source.lemma_consistent();
    source.lemma_log();
    let wanted = |change: ChangeView| change.id.counter > known(peer.frontier, change.id.replica);
    let log = source.log();
    let sent = source.missing(peer.frontier);
    lemma_kept(log, wanted);
    assert forall|i: int| 0 <= i < deliveries.len() implies {
        let change = (#[trigger] deliveries[i]).change;
        &&& source@.changes.contains_key(change.id)
        &&& source@.changes[change.id] == change
        &&& peer.change_refusal(change) is None
    } by {
        assert(log.contains(sent[i]));
        let j = choose|j: int| 0 <= j < log.len() && log[j] == sent[i];
        assert(source@.changes.contains_key(log[j].id));
    }
    assert forall|id: ChangeId| #[trigger]
        source@.changes.contains_key(id) && id.counter > known(peer.frontier, id.replica) implies carries(
        deliveries,
        source@.changes[id],
    ) by {
        let change = source@.changes[id];
        assert(change.id == id);
        assert(log.contains(change));
        assert(wanted(change));
        assert(sent.contains(change));
        let i = choose|i: int| 0 <= i < sent.len() && sent[i] == change;
        assert(deliveries[i].change == change);
    }
}

/// Each of a series of acceptable deliveries is accepted when its turn comes.
proof fn lemma_each_accepted(state: ReplicaView, deliveries: Seq<Delivery>, i: int)
    requires
        state.consistent(),
        acceptable(state, deliveries),
        0 <= i < deliveries.len(),
    ensures
        delivered(state, deliveries.take(i)).applying(
            deliveries[i].change,
            deliveries[i].now_ms,
        ).0 is Ok,
{
    let shorter = deliveries.take(i);
    let longer = deliveries.take(i + 1);
    assert(longer.drop_last() =~= shorter);
    assert(longer[i] == deliveries[i]);
    assert(acceptable(state, shorter)) by {
        assert forall|k: int| 0 <= k < shorter.len() implies shorter[k] == deliveries[k] by {}
    }
    assert(acceptable(state, longer)) by {
        assert forall|k: int| 0 <= k < longer.len() implies longer[k] == deliveries[k] by {}
    }
    lemma_delivered(state, shorter);
    lemma_delivered(state, longer);
    assert(state.change_refusal(deliveries[i].change) is None);
    assert(delivered(state, shorter).change_refusal(deliveries[i].change) is None);
}

/// Changes that hold what a peer holds and what is delivered, and nothing else,
/// are those of the peer and those of the source of the deliveries.
proof fn lemma_completed(
    peer: Map<ChangeId, ChangeView>,
    source: Map<ChangeId, ChangeView>,
    after: Map<ChangeId, ChangeView>,
    deliveries: Seq<Delivery>,
)
    requires
        forall|id: ChangeId| #[trigger] peer.contains_key(id) ==> after.contains_key(id)
            && after[id] == peer[id],
        forall|i: int|
            0 <= i < deliveries.len() ==> after.contains_key((#[trigger] deliveries[i]).change.id)
                && after[deliveries[i].change.id] == deliveries[i].change,
        forall|id: ChangeId| #[trigger] after.contains_key(id) ==> after[id].id == id && (
        peer.contains_key(id) || carries(deliveries, after[id])),
        forall|i: int|
            0 <= i < deliveries.len() ==> source.contains_key((#[trigger] deliveries[i]).change.id)
                && source[deliveries[i].change.id] == deliveries[i].change,
        forall|id: ChangeId| #[trigger] source.contains_key(id) ==> source[id].id == id && (
        peer.contains_key(id) || carries(deliveries, source[id])),
        forall|id: ChangeId| #[trigger]
            source.contains_key(id) && peer.contains_key(id) ==> source[id] == peer[id],
    ensures
        after == peer.union_prefer_right(source),
{
    let expected = peer.union_prefer_right(source);
    assert forall|id: ChangeId| after.contains_key(id) == expected.contains_key(id) && (
    after.contains_key(id) ==> after[id] == expected[id]) by {
        if source.contains_key(id) && !peer.contains_key(id) {
            let i = choose|i: int|
                0 <= i < deliveries.len() && (#[trigger] deliveries[i]).change == source[id];
            assert(after.contains_key(deliveries[i].change.id));
        }
        if after.contains_key(id) && !peer.contains_key(id) {
            let i = choose|i: int|
                0 <= i < deliveries.len() && (#[trigger] deliveries[i]).change == after[id];
            assert(source.contains_key(deliveries[i].change.id));
        }
    }
    assert(after =~= expected);
}

/// A replica of the same space and schemas accepts everything that a source
/// sends it for its frontier, and then retains exactly what either of them
/// retained.
pub proof fn law_missing_changes_complete_a_peer(
    source: Replica,
    peer: ReplicaView,
    deliveries: Seq<Delivery>,
)
    requires
        source.wf(),
        peer.consistent(),
        source@.space == peer.space,
        source@.schemas == peer.schemas,
        agree(source@, peer),
        carries_all(deliveries, source.missing(peer.frontier)),
    ensures
        acceptable(peer, deliveries),
        forall|i: int|
            0 <= i < deliveries.len() ==> delivered(peer, deliveries.take(i)).applying(
                (#[trigger] deliveries[i]).change,
                deliveries[i].now_ms,
            ).0 is Ok,
        delivered(peer, deliveries).consistent(),
        delivered(peer, deliveries).changes == peer.changes.union_prefer_right(source@.changes),
{
    source.lemma_consistent();
    lemma_sent(source, peer, deliveries);
    assert(acceptable(peer, deliveries));
    assert forall|i: int| 0 <= i < deliveries.len() implies delivered(
        peer,
        deliveries.take(i),
    ).applying((#[trigger] deliveries[i]).change, deliveries[i].now_ms).0 is Ok by {
        lemma_each_accepted(peer, deliveries, i);
    }
    lemma_delivered(peer, deliveries);
    assert forall|id: ChangeId| #[trigger]
        source@.changes.contains_key(id) implies peer.changes.contains_key(id) || carries(
        deliveries,
        source@.changes[id],
    ) by {
        law_reconciliation_is_complete(source@, peer, id);
    }
    lemma_completed(
        peer.changes,
        source@.changes,
        delivered(peer, deliveries).changes,
        deliveries,
    );
}

/// Two replicas of the same space and schemas that send each other what the
/// other's frontier lacks end with the same changes, documents and frontier.
pub proof fn law_exchange_converges(
    first: Replica,
    second: Replica,
    to_second: Seq<Delivery>,
    to_first: Seq<Delivery>,
)
    requires
        first.wf(),
        second.wf(),
        first@.space == second@.space,
        first@.schemas == second@.schemas,
        agree(first@, second@),
        carries_all(to_second, first.missing(second@.frontier)),
        carries_all(to_first, second.missing(first@.frontier)),
    ensures
        ({
            let one = delivered(first@, to_first);
            let two = delivered(second@, to_second);
            &&& one.changes == two.changes
            &&& one.documents == two.documents
            &&& one.frontier == two.frontier
        }),
{
    first.lemma_consistent();
    second.lemma_consistent();
    assert(agree(second@, first@)) by {
        assert forall|id: ChangeId| #[trigger]
            second@.changes.contains_key(id) && first@.changes.contains_key(id) implies second@.changes[id]
            == first@.changes[id] by {
            assert(first@.changes.contains_key(id));
        }
    }
    law_missing_changes_complete_a_peer(first, second@, to_second);
    law_missing_changes_complete_a_peer(second, first@, to_first);
    let one = delivered(first@, to_first);
    let two = delivered(second@, to_second);
    assert(one.changes =~= two.changes) by {
        assert forall|id: ChangeId| one.changes.contains_key(id) == two.changes.contains_key(id) && (
        one.changes.contains_key(id) ==> one.changes[id] == two.changes[id]) by {
            assert(first@.changes.contains_key(id) || !first@.changes.contains_key(id));
        }
    }
    law_same_changes_same_state(one, two);
}

/// A change that a replica authors wins its document, as long as the logical
/// counter is not exhausted or physical time advances.
pub proof fn law_local_write_wins(state: ReplicaView, operation: OperationView, now_ms: u64)
    requires
        state.consistent(),
        state.clock.logical < u32::MAX || now_ms > state.clock.physical_ms,
    ensures
        state.would_show(state.authored(operation, now_ms)),
{
    let key = operation.key();
    if state.documents.contains_key(key) {
        let current = state.documents[key].change;
        assert(touches(state.changes, current, key));
        assert(state.changes.contains_key(current));
        assert(state.clock.reaches(state.changes[current].timestamp));
    }
}

/// The winner of a document is the same under every change of the tie: no two
/// retained changes of one document replace each other.
pub proof fn law_winner_is_unique(
    state: ReplicaView,
    key: (Seq<char>, DocumentId),
    id: ChangeId,
)
    requires
        state.consistent(),
        touches(state.changes, id, key),
    ensures
        state.documents.contains_key(key),
        state.documents[key] == state_of(state.changes[id]) || supersedes(
            state.documents[key],
            state_of(state.changes[id]),
        ),
        !supersedes(state_of(state.changes[id]), state.documents[key]),
{
    assert(state.changes.contains_key(id));
    let winner = state.documents[key].change;
    assert(touches(state.changes, winner, key));
    lemma_supersedes(state.documents[key], state_of(state.changes[id]), state.documents[key]);
    <ChangeId as Key>::ordered(winner, id, winner);
}

/// What a document shows is what the latest retained change of it did: of all
/// retained changes of the document, none has a later physical time, none with
/// the same time has a greater logical counter, and none with the same counter
/// a greater replica.
pub proof fn law_document_shows_the_latest_change(state: ReplicaView, id: ChangeId)
    requires
        state.consistent(),
        state.changes.contains_key(id),
    ensures
        ({
            let change = state.changes[id];
            let place = (change.operation.collection, change.operation.document);
            let shown = state.documents[place];
            let winner = state.changes[shown.change];
            let time = change.timestamp;
            &&& state.documents.contains_key(place)
            &&& state.changes.contains_key(shown.change)
            &&& winner.operation.collection == change.operation.collection
            &&& winner.operation.document == change.operation.document
            &&& shown.payload == winner.operation.payload
            &&& shown.schema == winner.operation.schema
            &&& shown.timestamp == winner.timestamp
            &&& shown.timestamp.physical_ms >= time.physical_ms
            &&& shown.timestamp.physical_ms == time.physical_ms ==> shown.timestamp.logical
                >= time.logical
            &&& shown.timestamp.physical_ms == time.physical_ms && shown.timestamp.logical
                == time.logical ==> shown.timestamp.replica.0 >= time.replica.0
            &&& shown.timestamp == time ==> shown.change.counter >= id.counter
        }),
{
    let change = state.changes[id];
    let place = change.operation.key();
    assert(change.id == id);
    assert(state.documents.contains_key(place));
    let shown = state.documents[place];
    assert(touches(state.changes, shown.change, place));
    assert(touches(state.changes, id, place));
    assert(state.changes.contains_key(shown.change));
    if id != shown.change {
        assert(supersedes(shown, state_of(change)));
    }
}

/// A document is shown only where a retained change put or deleted it.
pub proof fn law_documents_come_from_changes(state: ReplicaView, key: (Seq<char>, DocumentId))
    requires
        state.consistent(),
        state.documents.contains_key(key),
    ensures
        ({
            let id = state.documents[key].change;
            &&& state.changes.contains_key(id)
            &&& state.changes[id].operation.collection == key.0
            &&& state.changes[id].operation.document == key.1
            &&& state.changes[id].operation.payload == state.documents[key].payload
        }),
{
    assert(touches(state.changes, state.documents[key].change, key));
}

/// The edit made last wins: of two changes that replicas author at physical
/// times ahead of their clocks, a replica that retains both shows the one
/// authored at the greater time, or a later one still, and never the other.
pub proof fn law_last_writer_wins(
    first: ReplicaView,
    second: ReplicaView,
    state: ReplicaView,
    first_put: OperationView,
    second_put: OperationView,
    first_ms: u64,
    second_ms: u64,
)
    requires
        state.consistent(),
        first_ms > first.clock.physical_ms,
        second_ms > first_ms,
        first_put.collection == second_put.collection,
        first_put.document == second_put.document,
        state.changes.contains_key(first.authored(first_put, first_ms).id),
        state.changes[first.authored(first_put, first_ms).id] == first.authored(
            first_put,
            first_ms,
        ),
        state.changes.contains_key(second.authored(second_put, second_ms).id),
        state.changes[second.authored(second_put, second_ms).id] == second.authored(
            second_put,
            second_ms,
        ),
    ensures
        ({
            let shown = state.documents[(second_put.collection, second_put.document)];
            &&& state.documents.contains_key((second_put.collection, second_put.document))
            &&& shown.timestamp.physical_ms >= second_ms
            &&& shown.change != first.authored(first_put, first_ms).id
            &&& shown.change == second.authored(second_put, second_ms).id ==> shown.payload
                == second_put.payload
            &&& (forall|id: ChangeId| #[trigger]
                state.changes.contains_key(id) && state.changes[id].operation.collection
                    == second_put.collection && state.changes[id].operation.document
                    == second_put.document ==> id == first.authored(first_put, first_ms).id || id
                    == second.authored(second_put, second_ms).id) ==> shown.payload
                == second_put.payload
        }),
{
    let early = first.authored(first_put, first_ms);
    let late = second.authored(second_put, second_ms);
    law_document_shows_the_latest_change(state, late.id);
    law_document_shows_the_latest_change(state, early.id);
    assert(early.timestamp.physical_ms == first_ms);
    assert(late.timestamp.physical_ms >= second_ms);
}

/// What a replica authors carries the operation as it was given, under its own
/// identity, one beyond its greatest counter, in its space, and dated by its
/// clock: not before the physical time and later than all that it retains.
pub proof fn law_authored_change(state: ReplicaView, operation: OperationView, now_ms: u64)
    requires
        state.consistent(),
        state.next_counter < u64::MAX,
    ensures
        ({
            let change = state.authored(operation, now_ms);
            &&& change.id.replica == state.id
            &&& change.id.counter == state.next_counter + 1
            &&& change.space == state.space
            &&& change.operation == operation
            &&& change.timestamp.replica == state.id
            &&& change.timestamp.physical_ms >= now_ms
            &&& change.timestamp.physical_ms == now_ms || change.timestamp.physical_ms
                == state.clock.physical_ms
            &&& forall|id: ChangeId| #[trigger]
                state.changes.contains_key(id) ==> change.timestamp.physical_ms
                    >= state.changes[id].timestamp.physical_ms
        }),
{
    assert forall|id: ChangeId| #[trigger] state.changes.contains_key(id) implies state.authored(
        operation,
        now_ms,
    ).timestamp.physical_ms >= state.changes[id].timestamp.physical_ms by {
        assert(state.clock.reaches(state.changes[id].timestamp));
    }
}

/// A replica accepts an operation exactly where its collection has a name of 1
/// to 128 bytes, the operation's schema is registered for the collection, and
/// a payload has at most 16 MiB.
pub proof fn law_operation_is_accepted(
    schemas: Map<Seq<char>, Set<u64>>,
    operation: OperationView,
)
    ensures
        operation_refusal(schemas, operation) is None <==> {
            &&& 1 <= encode_utf8(operation.collection).len() <= 128
            &&& schemas.contains_key(operation.collection)
            &&& schemas[operation.collection].contains(operation.schema)
            &&& operation.payload matches Some(payload) ==> payload.len() <= 16 * 1024 * 1024
        },
{
    if operation.collection.len() == 0 {
        assert(operation.collection =~= Seq::<char>::empty());
        vstd::utf8::encode_utf8_decode_utf8(operation.collection);
        assert(encode_utf8(operation.collection).len() == 0);
    } else {
        vstd::utf8::encode_utf8_first_scalar(operation.collection);
    }
}

/// A change is valid for a replica exactly where it belongs to its space, has a
/// counter, is dated by its author, and carries an accepted operation.
pub proof fn law_change_is_valid(state: ReplicaView, change: ChangeView)
    ensures
        state.change_refusal(change) is None <==> {
            &&& change.space == state.space
            &&& change.id.counter > 0
            &&& change.timestamp.replica == change.id.replica
            &&& operation_refusal(state.schemas, change.operation) is None
        },
{
}

/// A valid change with a free identity is retained as it came; every other
/// change and every other document stays as it was, and it is reported visible
/// exactly where its document then shows it.
pub proof fn law_applied_change_is_retained(state: ReplicaView, change: ChangeView, now_ms: u64)
    requires
        state.consistent(),
        state.change_refusal(change) is None,
        !state.changes.contains_key(change.id),
    ensures
        ({
            let (outcome, after) = state.applying(change, now_ms);
            let place = (change.operation.collection, change.operation.document);
            &&& outcome matches Ok(Apply::Applied { visible }) && visible
                == (after.documents[place].change == change.id)
            &&& after.changes.contains_key(change.id)
            &&& after.changes[change.id] == change
            &&& after.changes.remove(change.id) == state.changes
            &&& after.documents.contains_key(place)
            &&& after.documents.remove(place) == state.documents.remove(place)
            &&& after.documents[place].change == change.id ==> after.documents[place].payload
                == change.operation.payload
            &&& after.documents[place].change != change.id ==> state.documents.contains_key(place)
                && after.documents[place] == state.documents[place]
            &&& after.id == state.id
            &&& after.space == state.space
            &&& after.schemas == state.schemas
            &&& after.clock == observed(state.clock, change.timestamp, now_ms)
            &&& after.next_counter >= state.next_counter
            &&& change.id.replica != state.id ==> after.next_counter == state.next_counter
            &&& change.id.replica == state.id ==> after.next_counter >= change.id.counter
            &&& after.next_counter == state.next_counter || after.next_counter
                == change.id.counter
        }),
{
    let after = state.applying(change, now_ms).1;
    let place = change.operation.key();
    assert(after.changes.remove(change.id) =~= state.changes);
    assert(after.documents.remove(place) =~= state.documents.remove(place));
    if state.documents.contains_key(place) {
        assert(touches(state.changes, state.documents[place].change, place));
        assert(state.changes.contains_key(state.documents[place].change));
    }
}

/// A retained identity is never taken over: the same change again is a
/// duplicate, another change under it is refused, and nothing changes.
pub proof fn law_retained_identity_is_kept(state: ReplicaView, change: ChangeView, now_ms: u64)
    requires
        state.changes.contains_key(change.id),
    ensures
        state.applying(change, now_ms).1 == state,
        state.changes[change.id] != change ==> state.applying(change, now_ms).0 is Err,
        state.changes[change.id] == change && state.change_refusal(change) is None
            ==> state.applying(change, now_ms).0 == Ok::<Apply, crate::error::ErrorView>(
            Apply::Duplicate,
        ),
{
}

/// A frontier is exact: it counts every author's changes as far as they are
/// retained without a gap, and no further.
pub proof fn law_frontier_is_exact(state: ReplicaView, replica: ReplicaId)
    requires
        state.consistent(),
    ensures
        ({
            let counter = if state.frontier.contains_key(replica) {
                state.frontier[replica]
            } else {
                0
            };
            &&& forall|c: u64|
                1 <= c <= counter ==> #[trigger] state.changes.contains_key(
                    ChangeId { replica, counter: c },
                )
            &&& counter < u64::MAX ==> !state.changes.contains_key(
                ChangeId { replica, counter: (counter + 1) as u64 },
            )
        }),
{
    assert(is_contiguous(state.changes, replica, known(state.frontier, replica)));
}

/// What a replica sends for a frontier is exactly what it retains beyond it:
/// each such change once, ascending by author and counter.
pub proof fn law_missing_changes_are_exact(
    source: Replica,
    frontier: Map<ReplicaId, u64>,
    change: ChangeView,
)
    requires
        source.wf(),
    ensures
        source.missing(frontier).contains(change) <==> {
            &&& source@.changes.contains_key(change.id)
            &&& source@.changes[change.id] == change
            &&& change.id.counter > if frontier.contains_key(change.id.replica) {
                frontier[change.id.replica]
            } else {
                0
            }
        },
        forall|i: int, j: int|
            0 <= i < j < source.missing(frontier).len() ==> {
                let a = (#[trigger] source.missing(frontier)[i]).id;
                let b = (#[trigger] source.missing(frontier)[j]).id;
                a.replica.0 < b.replica.0 || (a.replica == b.replica && a.counter < b.counter)
            },
{
    source.lemma_consistent();
    source.lemma_log();
    let wanted = |change: ChangeView| change.id.counter > known(frontier, change.id.replica);
    let log = source.log();
    let ids = log.map_values(|change: ChangeView| change.id);
    lemma_kept(log, wanted);
    let before = |a: ChangeView, b: ChangeView| <ChangeId as Key>::before(a.id, b.id);
    assert forall|i: int, j: int| 0 <= i < j < log.len() implies before(
        #[trigger] log[i],
        #[trigger] log[j],
    ) by {
        assert(ids[i] == log[i].id && ids[j] == log[j].id);
    }
    lemma_kept_pairs(log, wanted, before);
    assert forall|i: int, j: int| 0 <= i < j < source.missing(frontier).len() implies {
        let a = (#[trigger] source.missing(frontier)[i]).id;
        let b = (#[trigger] source.missing(frontier)[j]).id;
        a.replica.0 < b.replica.0 || (a.replica == b.replica && a.counter < b.counter)
    } by {
        assert(before(log.filter(wanted)[i], log.filter(wanted)[j]));
    }
    if source@.changes.contains_key(change.id) && source@.changes[change.id] == change {
        assert(log.contains(source@.changes[change.id]));
    }
    if log.contains(change) {
        let i = choose|i: int| 0 <= i < log.len() && log[i] == change;
        assert(source@.changes.contains_key(log[i].id));
    }
}

/// A retained change is added to the others as it is, counts as the replica's
/// own latest where the replica wrote it, and shows in its own document alone,
/// exactly where nothing later is there.
pub proof fn law_retained_change_shows_in_its_document(state: ReplicaView, change: ChangeView)
    requires
        !state.changes.contains_key(change.id),
    ensures
        ({
            let after = state.retaining(change);
            let place = (change.operation.collection, change.operation.document);
            let current = state.documents[place];
            let newer = !state.documents.contains_key(place) || change.timestamp.later(
                current.timestamp,
            ) || (change.timestamp == current.timestamp && (change.id.replica.0
                > current.change.replica.0 || (change.id.replica == current.change.replica
                && change.id.counter > current.change.counter)));
            &&& after.changes.contains_key(change.id)
            &&& after.changes[change.id] == change
            &&& after.changes.remove(change.id) == state.changes
            &&& newer ==> after.documents.contains_key(place) && after.documents[place].payload
                == change.operation.payload && after.documents[place].schema
                == change.operation.schema && after.documents[place].timestamp
                == change.timestamp && after.documents[place].change == change.id
            &&& !newer ==> after.documents == state.documents
            &&& after.documents.remove(place) == state.documents.remove(place)
            &&& change.id.replica != state.id ==> after.next_counter == state.next_counter
            &&& change.id.replica == state.id && change.id.counter > state.next_counter
                ==> after.next_counter == change.id.counter
            &&& change.id.replica == state.id && change.id.counter <= state.next_counter
                ==> after.next_counter == state.next_counter
            &&& after.id == state.id
            &&& after.space == state.space
            &&& after.schemas == state.schemas
        }),
{
    let after = state.retaining(change);
    let place = (change.operation.collection, change.operation.document);
    assert(after.changes.remove(change.id) =~= state.changes);
    assert(after.documents.remove(place) =~= state.documents.remove(place));
}

} // verus!
