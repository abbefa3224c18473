//! What holds of every store.

use super::database::{batch, legacy, local_commit, remote_commit, version_refusal};
use super::model::{
    appending, compacted, frontier_of, journal_ascends, lemma_listing, lists, lists_changes,
    lists_schemas, materializing, migrating, migration_puts, migration_refusal, names_refusal,
    recorded, recording, reserving, retaining, stored_identifier, transformed_refusal,
    transforms_refusal, ChangePlace, DocumentPlace, RowView, StoreView,
};
use super::types::{
    commit_time, AppliedView, ChangeKind, DocumentView, JournalView, MutationView, SchemaView,
    TransformedView,
};
use crate::error::ErrorView;
use crate::id::{id_text, law_text_round_trip, DocumentId, SpaceId};
use crate::ordmap::Key;
use crate::sync::change::{ChangeId, ChangeView};
use crate::sync::replica::collection_refusal;
use crate::text::{byte_len, decimal_text, law_decimal_round_trip};
use vstd::prelude::*;

verus! {

proof fn lemma_retaining(replicated: Map<ChangePlace, ChangeView>, changes: Seq<ChangeView>)
    requires
        retaining(replicated, changes) is Ok,
    ensures
        ({
            let after = retaining(replicated, changes)->Ok_0.0;
            &&& forall|place: ChangePlace| #[trigger]
                replicated.contains_key(place) ==> after.contains_key(place) && after[place]
                    == replicated[place]
            &&& forall|i: int|
                0 <= i < changes.len() ==> after.contains_key(
                    ((#[trigger] changes[i]).space, changes[i].id),
                ) && after[(changes[i].space, changes[i].id)] == changes[i]
            &&& forall|place: ChangePlace| #[trigger]
                after.contains_key(place) && !replicated.contains_key(place) ==> exists|i: int|
                    0 <= i < changes.len() && #[trigger] changes[i] == after[place] && (
                        changes[i].space,
                        changes[i].id,
                    ) == place
        }),
    decreases changes.len(),
{
    if changes.len() > 0 {
        let shorter = changes.drop_last();
        lemma_retaining(replicated, shorter);
        let before = retaining(replicated, shorter)->Ok_0.0;
        let after = retaining(replicated, changes)->Ok_0.0;
        assert forall|i: int| 0 <= i < changes.len() implies after.contains_key(
            ((#[trigger] changes[i]).space, changes[i].id),
        ) && after[(changes[i].space, changes[i].id)] == changes[i] by {
            if i < shorter.len() {
                assert(shorter[i] == changes[i]);
            }
        }
        assert forall|place: ChangePlace| #[trigger]
            after.contains_key(place) && !replicated.contains_key(place) implies exists|i: int|
            0 <= i < changes.len() && #[trigger] changes[i] == after[place] && (
                changes[i].space,
                changes[i].id,
            ) == place by {
            if before.contains_key(place) {
                let i = choose|i: int|
                    0 <= i < shorter.len() && #[trigger] shorter[i] == before[place] && (
                        shorter[i].space,
                        shorter[i].id,
                    ) == place;
                assert(changes[i] == shorter[i]);
            } else {
                assert(changes[changes.len() - 1] == after[place]);
            }
        }
    }
}

/// Retained changes are never lost or altered, and every appended change is
/// retained.
pub proof fn law_replicated_changes_are_kept(
    replicated: Map<ChangePlace, ChangeView>,
    changes: Seq<ChangeView>,
)
    requires
        appending(replicated, changes) is Ok,
    ensures
        ({
            let after = appending(replicated, changes)->Ok_0.0;
            &&& forall|place: ChangePlace| #[trigger]
                replicated.contains_key(place) ==> after.contains_key(place) && after[place]
                    == replicated[place]
            &&& forall|i: int|
                0 <= i < changes.len() ==> after.contains_key(
                    ((#[trigger] changes[i]).space, changes[i].id),
                ) && after[(changes[i].space, changes[i].id)] == changes[i]
        }),
{
    lemma_retaining(replicated, changes);
}

proof fn lemma_retaining_again(
    replicated: Map<ChangePlace, ChangeView>,
    changes: Seq<ChangeView>,
)
    requires
        forall|i: int|
            0 <= i < changes.len() ==> replicated.contains_key(
                ((#[trigger] changes[i]).space, changes[i].id),
            ) && replicated[(changes[i].space, changes[i].id)] == changes[i],
    ensures
        retaining(replicated, changes) == Ok::<
            (Map<ChangePlace, ChangeView>, Seq<bool>),
            ErrorView,
        >((replicated, Seq::new(changes.len(), |i: int| false))),
    decreases changes.len(),
{
    let none = Seq::new(changes.len(), |i: int| false);
    if changes.len() > 0 {
        let shorter = changes.drop_last();
        assert forall|i: int| 0 <= i < shorter.len() implies replicated.contains_key(
            ((#[trigger] shorter[i]).space, shorter[i].id),
        ) && replicated[(shorter[i].space, shorter[i].id)] == shorter[i] by {
            assert(shorter[i] == changes[i]);
        }
        lemma_retaining_again(replicated, shorter);
        assert(changes[changes.len() - 1] == changes.last());
        assert(Seq::new(shorter.len(), |i: int| false).push(false) =~= none);
    } else {
        assert(none =~= Seq::<bool>::empty());
    }
}

/// Appending retained changes again inserts nothing and changes nothing.
pub proof fn law_appending_is_idempotent(
    replicated: Map<ChangePlace, ChangeView>,
    changes: Seq<ChangeView>,
)
    requires
        appending(replicated, changes) is Ok,
    ensures
        ({
            let after = appending(replicated, changes)->Ok_0.0;
            appending(after, changes) == Ok::<
                (Map<ChangePlace, ChangeView>, Seq<bool>),
                ErrorView,
            >((after, Seq::new(changes.len(), |i: int| false)))
        }),
{
    lemma_retaining(replicated, changes);
    lemma_retaining_again(appending(replicated, changes)->Ok_0.0, changes);
}

proof fn lemma_collision(
    replicated: Map<ChangePlace, ChangeView>,
    changes: Seq<ChangeView>,
    i: int,
)
    requires
        0 <= i < changes.len(),
        replicated.contains_key((changes[i].space, changes[i].id)),
        replicated[(changes[i].space, changes[i].id)] != changes[i],
    ensures
        retaining(replicated, changes) is Err,
    decreases changes.len(),
{
    let shorter = changes.drop_last();
    if retaining(replicated, shorter) is Ok {
        lemma_retaining(replicated, shorter);
        if i < shorter.len() {
            assert(shorter[i] == changes[i]);
            lemma_collision(replicated, shorter, i);
        }
    }
}

/// A change whose identity is retained with other content refuses the whole
/// batch.
pub proof fn law_collision_refuses_the_batch(
    replicated: Map<ChangePlace, ChangeView>,
    changes: Seq<ChangeView>,
    i: int,
)
    requires
        0 <= i < changes.len(),
        replicated.contains_key((changes[i].space, changes[i].id)),
        replicated[(changes[i].space, changes[i].id)] != changes[i],
    ensures
        appending(replicated, changes) is Err,
{
    lemma_collision(replicated, changes, i);
}

/// A commit refuses as a whole or changes documents, journal, schemas and
/// replicated changes together: where it succeeds, its mutations and its
/// changes succeed by themselves on the same state.
pub proof fn law_commits_are_atomic(
    state: StoreView,
    space: SpaceId,
    mutations: Seq<MutationView>,
    changes: Seq<ChangeView>,
    at: i64,
)
    ensures
        state.committed(space, mutations, changes, at) is Ok <==> state.mutated(
            space,
            mutations,
            at,
        ) is Ok && appending(state.replicated, changes) is Ok,
        state.committed(space, mutations, changes, at) matches Ok((_, after)) ==> {
            let mutated = state.mutated(space, mutations, at)->Ok_0.1;
            &&& after.documents == mutated.documents
            &&& after.journal == mutated.journal
            &&& after.schemas == mutated.schemas
            &&& after.replicated == appending(state.replicated, changes)->Ok_0.0
            &&& after.replica_id == state.replica_id
            &&& after.default_space == state.default_space
            &&& after.counter == state.counter
        },
{
}

proof fn lemma_made(
    documents: Map<DocumentPlace, RowView>,
    journal: Seq<JournalView>,
    space: SpaceId,
    mutations: Seq<MutationView>,
    at: i64,
)
    requires
        journal_ascends(journal),
        frontier_of(journal) + mutations.len() <= 9223372036854775807,
    ensures
        ({
            let made = materializing(documents, journal, space, mutations, at);
            &&& journal_ascends(made.journal)
            &&& made.journal.len() == journal.len() + made.applied.len()
            &&& made.journal.take(journal.len() as int) == journal
            &&& frontier_of(journal) <= frontier_of(made.journal) <= frontier_of(journal)
                + mutations.len()
            &&& frontier_of(made.journal) == frontier_of(journal) + made.applied.len()
            &&& forall|i: int|
                0 <= i < made.applied.len() ==> (#[trigger] made.applied[i]).sequence
                    == frontier_of(journal) + 1 + i
        }),
    decreases mutations.len(),
{
    if mutations.len() > 0 {
        let shorter = mutations.drop_last();
        lemma_made(documents, journal, space, shorter, at);
        let before = materializing(documents, journal, space, shorter, at);
        let made = materializing(documents, journal, space, mutations, at);
        assert forall|i: int, j: int| 0 <= i < j < made.journal.len() implies (
        #[trigger] made.journal[i]).sequence < (#[trigger] made.journal[j]).sequence by {
            if j < before.journal.len() {
                assert(before.journal[i].sequence < before.journal[j].sequence);
            } else if i < before.journal.len() - 1 {
                assert(before.journal[i].sequence < before.journal[before.journal.len()
                    - 1].sequence);
            }
        }
        assert(made.journal.take(journal.len() as int) =~= journal) by {
            assert(before.journal.take(journal.len() as int) =~= journal);
        }
    } else {
        assert(journal.take(journal.len() as int) =~= journal);
    }
}

/// Local sequences are never reused: applied mutations are numbered without a
/// gap from the frontier, in the order in which they were asked for, and the
/// journal only grows.
pub proof fn law_sequences_are_monotonic(
    state: StoreView,
    space: SpaceId,
    mutations: Seq<MutationView>,
    at: i64,
)
    requires
        state.consistent(),
        state.mutated(space, mutations, at) is Ok,
    ensures
        ({
            let (applied, after) = state.mutated(space, mutations, at)->Ok_0;
            &&& after.consistent()
            &&& frontier_of(after.journal) == frontier_of(state.journal) + applied.len()
            &&& after.journal.len() == state.journal.len() + applied.len()
            &&& after.journal.take(state.journal.len() as int) == state.journal
            &&& forall|i: int|
                0 <= i < applied.len() ==> (#[trigger] applied[i]).sequence == frontier_of(
                    state.journal,
                ) + 1 + i
        }),
{
    lemma_made(state.documents, state.journal, space, mutations, at);
}

/// The document that mutations leave at a place: what the last mutation of the
/// place says, or what was there.
pub open spec fn left_by(
    documents: Map<DocumentPlace, RowView>,
    space: SpaceId,
    mutations: Seq<MutationView>,
    place: DocumentPlace,
) -> Option<Seq<u8>>
    decreases mutations.len(),
{
    if mutations.len() == 0 {
        if documents.contains_key(place) {
            Some(documents[place].payload)
        } else {
            None
        }
    } else {
        let mutation = mutations.last();
        if (space, (mutation.collection, mutation.id)) == place {
            mutation.payload
        } else {
            left_by(documents, space, mutations.drop_last(), place)
        }
    }
}

proof fn lemma_last_mutation_wins(
    documents: Map<DocumentPlace, RowView>,
    journal: Seq<JournalView>,
    space: SpaceId,
    mutations: Seq<MutationView>,
    at: i64,
    place: DocumentPlace,
)
    ensures
        ({
            let made = materializing(documents, journal, space, mutations, at);
            match left_by(documents, space, mutations, place) {
                Some(payload) => made.documents.contains_key(place)
                    && made.documents[place].payload == payload,
                None => !made.documents.contains_key(place),
            }
        }),
    decreases mutations.len(),
{
    if mutations.len() > 0 {
        lemma_last_mutation_wins(
            documents,
            journal,
            space,
            mutations.drop_last(),
            at,
            place,
        );
    }
}

/// A read gives back the last write: after a batch, every place holds what the
/// batch's last mutation of it says, and every other place holds what it held.
pub proof fn law_read_gives_back_the_last_write(
    state: StoreView,
    space: SpaceId,
    mutations: Seq<MutationView>,
    at: i64,
    place: DocumentPlace,
)
    requires
        state.mutated(space, mutations, at) is Ok,
    ensures
        ({
            let after = state.mutated(space, mutations, at)->Ok_0.1;
            match left_by(state.documents, space, mutations, place) {
                Some(payload) => after.documents.contains_key(place)
                    && after.documents[place].payload == payload,
                None => !after.documents.contains_key(place),
            }
        }),
{
    lemma_last_mutation_wins(
        state.documents,
        state.journal,
        space,
        mutations,
        at,
        place,
    );
}

/// Compaction keeps the latest local sequence and at least one row of a
/// non-empty journal, and what it keeps is the end of the journal.
pub proof fn law_compaction_keeps_the_frontier(journal: Seq<JournalView>, retain: u64)
    ensures
        ({
            let after = compacted(journal, retain);
            &&& frontier_of(after) == frontier_of(journal)
            &&& journal.len() > 0 ==> after.len() > 0
            &&& after.len() <= journal.len()
            &&& after == journal.skip(journal.len() - after.len())
            &&& retain > 0 ==> after.len() <= retain
            &&& retain > 0 && journal.len() <= retain ==> after == journal
        }),
{
    let after = compacted(journal, retain);
    assert(journal.skip(journal.len() - after.len()) =~= after);
}

/// Reserved counters are never handed out twice: the next reservation begins
/// where the last one ended.
pub proof fn law_reservations_are_disjoint(counter: Option<Seq<char>>, size: u64, next_size: u64)
    requires
        reserving(counter, size) is Ok,
        next_size > 0,
    ensures
        ({
            let (previous, high) = reserving(counter, size)->Ok_0;
            let next = reserving(Some(decimal_text(high)), next_size);
            &&& high == previous + size
            &&& next matches Ok((begin, end)) ==> begin == high && end == high + next_size
            &&& next is Ok <==> high + next_size <= u64::MAX
        }),
{
    let (previous, high) = reserving(counter, size)->Ok_0;
    law_decimal_round_trip(high as u64);
}

/// A mutation is accepted only with the schema that its collection records, so
/// a recorded schema changes by migration alone.
pub proof fn law_recorded_schemas_stay(
    schemas: Map<(SpaceId, Seq<char>), SchemaView>,
    space: SpaceId,
    mutations: Seq<MutationView>,
    place: (SpaceId, Seq<char>),
)
    requires
        recording(schemas, space, mutations) is Ok,
        schemas.contains_key(place),
    ensures
        ({
            let after = recording(schemas, space, mutations)->Ok_0;
            &&& after.contains_key(place)
            &&& after[place] == schemas[place]
        }),
    decreases mutations.len(),
{
    if mutations.len() > 0 {
        law_recorded_schemas_stay(schemas, space, mutations.drop_last(), place);
    }
}

proof fn lemma_puts(
    documents: Map<DocumentPlace, RowView>,
    space: SpaceId,
    collection: Seq<char>,
    mutations: Seq<MutationView>,
    i: int,
)
    requires
        0 <= i < mutations.len(),
        forall|k: int|
            0 <= k < mutations.len() ==> (#[trigger] mutations[k]).collection == collection,
        forall|k: int|
            i < k < mutations.len() ==> (#[trigger] mutations[k]).id != mutations[i].id,
    ensures
        left_by(documents, space, mutations, (space, (collection, mutations[i].id)))
            == mutations[i].payload,
    decreases mutations.len(),
{
    let shorter = mutations.drop_last();
    if i < shorter.len() {
        assert forall|k: int| 0 <= k < shorter.len() implies (
        #[trigger] shorter[k]).collection == collection by {
            assert(shorter[k] == mutations[k]);
        }
        assert forall|k: int| i < k < shorter.len() implies (#[trigger] shorter[k]).id
            != shorter[i].id by {
            assert(shorter[k] == mutations[k]);
        }
        lemma_puts(documents, space, collection, shorter, i);
        assert(mutations[mutations.len() - 1].id != mutations[i].id);
    } else {
        assert(mutations[i].collection == collection);
    }
}

proof fn lemma_untouched(
    documents: Map<DocumentPlace, RowView>,
    space: SpaceId,
    mutations: Seq<MutationView>,
    place: DocumentPlace,
)
    requires
        forall|k: int|
            0 <= k < mutations.len() ==> (
                space,
                ((#[trigger] mutations[k]).collection, mutations[k].id),
            ) != place,
    ensures
        left_by(documents, space, mutations, place) == if documents.contains_key(place) {
            Some(documents[place].payload)
        } else {
            None
        },
    decreases mutations.len(),
{
    if mutations.len() > 0 {
        let shorter = mutations.drop_last();
        assert forall|k: int| 0 <= k < shorter.len() implies (
            space,
            ((#[trigger] shorter[k]).collection, shorter[k].id),
        ) != place by {
            assert(shorter[k] == mutations[k]);
        }
        lemma_untouched(documents, space, shorter, place);
        assert(mutations[mutations.len() - 1] == mutations.last());
    }
}

/// A migration replaces the payload of every document of its collection,
/// records the new schema, and leaves every other document as it was.
pub proof fn law_migration_transforms_the_collection(
    state: StoreView,
    space: SpaceId,
    collection: Seq<char>,
    to: SchemaView,
    listed: Seq<DocumentView>,
    transformed: Seq<TransformedView>,
    at: i64,
)
    requires
        lists(state.documents, space, collection, listed),
        transformed.len() == listed.len(),
        migrating(state, space, collection, to, transformed, at) is Ok,
    ensures
        ({
            let after = migrating(state, space, collection, to, transformed, at)->Ok_0.1;
            &&& recorded(after.schemas, (space, collection)) == Some(to)
            &&& forall|i: int|
                0 <= i < listed.len() ==> after.documents.contains_key(
                    (space, (collection, (#[trigger] listed[i]).id)),
                ) && after.documents[(space, (collection, listed[i].id))].payload
                    == transformed[i].payload
            &&& forall|place: DocumentPlace|
                !(place.0 == space && place.1.0 == collection) ==> (
                #[trigger] after.documents.contains_key(place) <==> state.documents.contains_key(
                    place,
                )) && (after.documents.contains_key(place) ==> after.documents[place].payload
                    == state.documents[place].payload)
        }),
{
    lemma_listing(state.documents, space, collection, listed);
    let puts = migration_puts(collection, to, listed, transformed);
    let after = migrating(state, space, collection, to, transformed, at)->Ok_0.1;
    assert forall|i: int| 0 <= i < listed.len() implies after.documents.contains_key(
        (space, (collection, (#[trigger] listed[i]).id)),
    ) && after.documents[(space, (collection, listed[i].id))].payload
        == transformed[i].payload by {
        let place = (space, (collection, listed[i].id));
        assert forall|k: int| i < k < puts.len() implies (#[trigger] puts[k]).id
            != puts[i].id by {
            assert(listed[i].id.0 < listed[k].id.0);
        }
        lemma_puts(state.documents, space, collection, puts, i);
        lemma_last_mutation_wins(state.documents, state.journal, space, puts, at, place);
        assert(puts[i].payload == Some(transformed[i].payload));
    }
    assert forall|place: DocumentPlace| !(place.0 == space && place.1.0 == collection) implies (
    #[trigger] after.documents.contains_key(place) <==> state.documents.contains_key(place)) && (
    after.documents.contains_key(place) ==> after.documents[place].payload
        == state.documents[place].payload) by {
        lemma_untouched(state.documents, space, puts, place);
        lemma_last_mutation_wins(state.documents, state.journal, space, puts, at, place);
    }
}

/// A batch is its mutations one after another: the second part goes on from
/// what the first part made.
pub proof fn law_batch_goes_on(
    documents: Map<DocumentPlace, RowView>,
    journal: Seq<JournalView>,
    space: SpaceId,
    first: Seq<MutationView>,
    second: Seq<MutationView>,
    at: i64,
)
    ensures
        ({
            let whole = materializing(documents, journal, space, first + second, at);
            let half = materializing(documents, journal, space, first, at);
            let rest = materializing(half.documents, half.journal, space, second, at);
            &&& whole.documents == rest.documents
            &&& whole.journal == rest.journal
            &&& whole.applied == half.applied + rest.applied
        }),
    decreases second.len(),
{
    let half = materializing(documents, journal, space, first, at);
    if second.len() == 0 {
        assert(first + second =~= first);
        assert(half.applied + Seq::<AppliedView>::empty() =~= half.applied);
    } else {
        let shorter = second.drop_last();
        assert((first + second).drop_last() =~= first + shorter);
        assert((first + second).last() == second.last());
        law_batch_goes_on(documents, journal, space, first, shorter, at);
        let whole = materializing(documents, journal, space, first + second, at);
        let rest = materializing(half.documents, half.journal, space, second, at);
        assert(whole.applied =~= half.applied + rest.applied);
    }
}

/// A put writes its payload under the next sequence, a deletion removes what is
/// there, and a deletion of nothing does nothing. Each of the first two adds
/// one row at the end of the journal, which says all there is to say of it.
pub proof fn law_single_mutation(
    documents: Map<DocumentPlace, RowView>,
    journal: Seq<JournalView>,
    space: SpaceId,
    mutation: MutationView,
    at: i64,
)
    requires
        journal.len() > 0 ==> journal.last().sequence < u64::MAX,
    ensures
        ({
            let made = materializing(documents, journal, space, seq![mutation], at);
            let place = (space, (mutation.collection, mutation.id));
            let next = if journal.len() == 0 {
                1
            } else {
                journal.last().sequence + 1
            };
            match mutation.payload {
                Some(payload) => {
                    &&& made.documents.contains_key(place)
                    &&& made.documents[place].payload == payload
                    &&& made.documents[place].sequence == next
                    &&& made.documents.remove(place) == documents.remove(place)
                    &&& made.journal.len() == journal.len() + 1
                    &&& made.journal.drop_last() == journal
                    &&& made.journal.last().sequence == next
                    &&& made.journal.last().space == space
                    &&& made.journal.last().collection == mutation.collection
                    &&& made.journal.last().id == mutation.id
                    &&& made.journal.last().kind == ChangeKind::Put
                    &&& made.journal.last().payload == Some(payload)
                    &&& made.journal.last().committed_at_ms == at
                    &&& made.applied.len() == 1
                    &&& made.applied[0].kind == ChangeKind::Put
                    &&& made.applied[0].collection == mutation.collection
                    &&& made.applied[0].id == mutation.id
                    &&& made.applied[0].sequence == next
                },
                None => if documents.contains_key(place) {
                    &&& !made.documents.contains_key(place)
                    &&& made.documents == documents.remove(place)
                    &&& made.journal.len() == journal.len() + 1
                    &&& made.journal.drop_last() == journal
                    &&& made.journal.last().sequence == next
                    &&& made.journal.last().space == space
                    &&& made.journal.last().collection == mutation.collection
                    &&& made.journal.last().id == mutation.id
                    &&& made.journal.last().kind == ChangeKind::Delete
                    &&& made.journal.last().payload is None
                    &&& made.journal.last().committed_at_ms == at
                    &&& made.applied.len() == 1
                    &&& made.applied[0].kind == ChangeKind::Delete
                    &&& made.applied[0].collection == mutation.collection
                    &&& made.applied[0].id == mutation.id
                    &&& made.applied[0].sequence == next
                } else {
                    &&& made.documents == documents
                    &&& made.journal == journal
                    &&& made.applied.len() == 0
                },
            }
        }),
{
    reveal_with_fuel(materializing, 2);
    let one = seq![mutation];
    assert(one.drop_last() =~= Seq::<MutationView>::empty());
    assert(one.last() == mutation);
    let made = materializing(documents, journal, space, one, at);
    let place = (space, (mutation.collection, mutation.id));
    assert(made.documents.remove(place) =~= documents.remove(place));
    if made.journal.len() > journal.len() {
        assert(made.journal.drop_last() =~= journal);
    }
}

/// A batch without mutations changes nothing.
pub proof fn law_empty_batch(
    documents: Map<DocumentPlace, RowView>,
    journal: Seq<JournalView>,
    space: SpaceId,
    at: i64,
)
    ensures
        ({
            let made = materializing(documents, journal, space, Seq::empty(), at);
            made.documents == documents && made.journal == journal && made.applied.len() == 0
        }),
{
}

/// Mutations record the schema of each of their collections, where the
/// collection records that schema or none, and two of them never give one
/// collection two schemas. Other collections keep theirs, and no other gets
/// one.
pub proof fn law_schemas_are_recorded_exactly(
    schemas: Map<(SpaceId, Seq<char>), SchemaView>,
    space: SpaceId,
    mutations: Seq<MutationView>,
)
    ensures
        recording(schemas, space, mutations) is Ok <==> {
            &&& forall|i: int|
                0 <= i < mutations.len() && schemas.contains_key(
                    (space, (#[trigger] mutations[i]).collection),
                ) ==> schemas[(space, mutations[i].collection)] == mutations[i].schema
            &&& forall|i: int, j: int|
                0 <= i < j < mutations.len() && (#[trigger] mutations[i]).collection == (
                #[trigger] mutations[j]).collection ==> mutations[i].schema == mutations[j].schema
        },
        recording(schemas, space, mutations) matches Ok(after) ==> {
            &&& forall|i: int|
                0 <= i < mutations.len() ==> after.contains_key(
                    (space, (#[trigger] mutations[i]).collection),
                ) && after[(space, mutations[i].collection)] == mutations[i].schema
            &&& forall|place: (SpaceId, Seq<char>)| #[trigger]
                schemas.contains_key(place) ==> after.contains_key(place) && after[place]
                    == schemas[place]
            &&& forall|place: (SpaceId, Seq<char>)| #[trigger]
                after.contains_key(place) && !schemas.contains_key(place) ==> exists|i: int|
                    0 <= i < mutations.len() && (
                        space,
                        (#[trigger] mutations[i]).collection,
                    ) == place
        },
    decreases mutations.len(),
{
    if mutations.len() > 0 {
        let shorter = mutations.drop_last();
        let last = mutations.len() - 1;
        let place = (space, mutations[last].collection);
        law_schemas_are_recorded_exactly(schemas, space, shorter);
        assert(forall|i: int| 0 <= i < shorter.len() ==> #[trigger] shorter[i] == mutations[i]);
        match recording(schemas, space, shorter) {
            Err(_) => {
                if forall|i: int|
                    0 <= i < shorter.len() && schemas.contains_key(
                        (space, (#[trigger] shorter[i]).collection),
                    ) ==> schemas[(space, shorter[i].collection)] == shorter[i].schema {
                    let (i, j) = choose|i: int, j: int|
                        0 <= i < j < shorter.len() && (#[trigger] shorter[i]).collection == (
                        #[trigger] shorter[j]).collection && shorter[i].schema
                            != shorter[j].schema;
                    assert(mutations[i].schema != mutations[j].schema);
                } else {
                    let i = choose|i: int|
                        0 <= i < shorter.len() && schemas.contains_key(
                            (space, (#[trigger] shorter[i]).collection),
                        ) && schemas[(space, shorter[i].collection)] != shorter[i].schema;
                    assert(schemas[(space, mutations[i].collection)] != mutations[i].schema);
                }
            },
            Ok(before) => {
                assert(forall|i: int|
                    0 <= i < shorter.len() ==> before.contains_key(
                        (space, (#[trigger] mutations[i]).collection),
                    ) && before[(space, mutations[i].collection)] == mutations[i].schema) by {
                    assert forall|i: int| 0 <= i < shorter.len() implies before.contains_key(
                        (space, (#[trigger] mutations[i]).collection),
                    ) && before[(space, mutations[i].collection)] == mutations[i].schema by {
                        assert(shorter[i] == mutations[i]);
                    }
                }
                if before.contains_key(place) && before[place] != mutations[last].schema {
                    if !schemas.contains_key(place) {
                        let i = choose|i: int|
                            0 <= i < shorter.len() && (
                                space,
                                (#[trigger] shorter[i]).collection,
                            ) == place;
                        assert(mutations[i].collection == mutations[last].collection);
                        assert(mutations[i].schema != mutations[last].schema);
                    }
                } else {
                    let after = before.insert(place, mutations[last].schema);
                    assert(recording(schemas, space, mutations) == Ok::<
                        Map<(SpaceId, Seq<char>), SchemaView>,
                        ErrorView,
                    >(after));
                    assert forall|place: (SpaceId, Seq<char>)| #[trigger]
                        after.contains_key(place) && !schemas.contains_key(
                            place,
                        ) implies exists|i: int|
                        0 <= i < mutations.len() && (
                            space,
                            (#[trigger] mutations[i]).collection,
                        ) == place by {
                        if before.contains_key(place) {
                            let i = choose|i: int|
                                0 <= i < shorter.len() && (
                                    space,
                                    (#[trigger] shorter[i]).collection,
                                ) == place;
                            assert((space, mutations[i].collection) == place);
                        } else {
                            assert((space, mutations[last].collection) == place);
                        }
                    }
                }
            },
        }
    }
}

/// A batch is accepted exactly where every collection name has between 1 and
/// 128 bytes, the schemas agree, and the journal has room. It then changes
/// documents and journal as its mutations say, and the recorded schemas, and
/// nothing else.
pub proof fn law_batch_is_accepted_exactly(
    state: StoreView,
    space: SpaceId,
    mutations: Seq<MutationView>,
    at: i64,
)
    ensures
        state.mutated(space, mutations, at) is Ok <==> {
            &&& forall|i: int|
                0 <= i < mutations.len() ==> (#[trigger] mutations[i]).collection.len() > 0
                    && byte_len(mutations[i].collection) <= 128
            &&& recording(state.schemas, space, mutations) is Ok
            &&& frontier_of(state.journal) + mutations.len() <= i64::MAX
        },
        state.mutated(space, mutations, at) matches Ok((applied, after)) ==> {
            let made = materializing(state.documents, state.journal, space, mutations, at);
            &&& applied == made.applied
            &&& after.documents == made.documents
            &&& after.journal == made.journal
            &&& recording(state.schemas, space, mutations) == Ok::<
                Map<(SpaceId, Seq<char>), SchemaView>,
                ErrorView,
            >(after.schemas)
            &&& after.replicated == state.replicated
            &&& after.replica_id == state.replica_id
            &&& after.default_space == state.default_space
            &&& after.counter == state.counter
        },
{
    if names_refusal(mutations) is None {
        assert forall|i: int| 0 <= i < mutations.len() implies (
        #[trigger] mutations[i]).collection.len() > 0 && byte_len(mutations[i].collection)
            <= 128 by {
            assert(collection_refusal(mutations[i].collection) is None);
        }
    }
}

/// A document is written, and read back, exactly where its batch is accepted;
/// every other document keeps its payload and its sequence.
pub proof fn law_put_is_read_back(
    state: StoreView,
    space: SpaceId,
    mutation: MutationView,
    at: i64,
)
    requires
        state.mutated(space, seq![mutation], at) is Ok,
    ensures
        ({
            let after = state.mutated(space, seq![mutation], at)->Ok_0.1;
            let place = (space, (mutation.collection, mutation.id));
            &&& mutation.payload matches Some(payload) ==> after.documents.contains_key(place)
                && after.documents[place].payload == payload
            &&& mutation.payload is None ==> !after.documents.contains_key(place)
            &&& after.documents.remove(place) == state.documents.remove(place)
        }),
{
    law_single_mutation(state.documents, state.journal, space, mutation, at);
    let after = state.mutated(space, seq![mutation], at)->Ok_0.1;
    let place = (space, (mutation.collection, mutation.id));
    assert(after.documents.remove(place) =~= state.documents.remove(place));
}

/// The time of a commit is that of the clock, which is refused where it is
/// before the epoch or too far after it.
pub proof fn law_commit_time(since_epoch_ms: Option<u128>)
    ensures
        commit_time(since_epoch_ms) is Ok <==> (since_epoch_ms matches Some(milliseconds)
            && milliseconds <= i64::MAX),
        commit_time(since_epoch_ms) matches Ok(at) ==> since_epoch_ms == Some(at as u128) && at
            >= 0,
{
}

/// A collection without a typed schema has an identity of its own.
pub proof fn law_untyped_schemas_differ(first: Seq<char>, second: Seq<char>)
    ensures
        legacy(first) == legacy(second) <==> first == second,
        legacy(first).version == 1,
        legacy(first).fingerprint == 0,
{
    let prefix = "cyrene.untyped."@;
    if legacy(first) == legacy(second) {
        assert((prefix + first).skip(prefix.len() as int) =~= first);
        assert((prefix + second).skip(prefix.len() as int) =~= second);
    }
}

/// Replicated changes are appended exactly where every counter can be kept and
/// no two different changes, kept or given, have one identity in one space. A
/// change is reported as new exactly where neither the store nor an earlier
/// change of the batch holds it, and nothing but the batch is added.
pub proof fn law_changes_are_appended_exactly(
    replicated: Map<ChangePlace, ChangeView>,
    changes: Seq<ChangeView>,
)
    ensures
        appending(replicated, changes) is Ok <==> {
            &&& forall|i: int|
                0 <= i < changes.len() ==> (#[trigger] changes[i]).id.counter <= i64::MAX
            &&& forall|i: int|
                0 <= i < changes.len() && replicated.contains_key(
                    ((#[trigger] changes[i]).space, changes[i].id),
                ) ==> replicated[(changes[i].space, changes[i].id)] == changes[i]
            &&& forall|i: int, j: int|
                0 <= i < j < changes.len() && (#[trigger] changes[i]).space == (
                #[trigger] changes[j]).space && changes[i].id == changes[j].id ==> changes[i]
                    == changes[j]
        },
        appending(replicated, changes) matches Ok((after, inserted)) ==> {
            &&& inserted.len() == changes.len()
            &&& forall|i: int|
                0 <= i < changes.len() ==> (#[trigger] inserted[i] <==> !replicated.contains_key(
                    (changes[i].space, changes[i].id),
                ) && forall|j: int|
                    0 <= j < i ==> ((#[trigger] changes[j]).space, changes[j].id) != (
                        changes[i].space,
                        changes[i].id,
                    ))
            &&& forall|place: ChangePlace| #[trigger]
                replicated.contains_key(place) ==> after.contains_key(place) && after[place]
                    == replicated[place]
            &&& forall|i: int|
                0 <= i < changes.len() ==> after.contains_key(
                    ((#[trigger] changes[i]).space, changes[i].id),
                ) && after[(changes[i].space, changes[i].id)] == changes[i]
            &&& forall|place: ChangePlace| #[trigger]
                after.contains_key(place) && !replicated.contains_key(place) ==> exists|i: int|
                    0 <= i < changes.len() && #[trigger] changes[i] == after[place] && (
                        changes[i].space,
                        changes[i].id,
                    ) == place
        },
{
    lemma_retained_exactly(replicated, changes);
    if retaining(replicated, changes) is Ok {
        lemma_retaining(replicated, changes);
    }
}

proof fn lemma_retained_exactly(
    replicated: Map<ChangePlace, ChangeView>,
    changes: Seq<ChangeView>,
)
    ensures
        retaining(replicated, changes) is Ok <==> {
            &&& forall|i: int|
                0 <= i < changes.len() && replicated.contains_key(
                    ((#[trigger] changes[i]).space, changes[i].id),
                ) ==> replicated[(changes[i].space, changes[i].id)] == changes[i]
            &&& forall|i: int, j: int|
                0 <= i < j < changes.len() && (#[trigger] changes[i]).space == (
                #[trigger] changes[j]).space && changes[i].id == changes[j].id ==> changes[i]
                    == changes[j]
        },
        retaining(replicated, changes) matches Ok((after, inserted)) ==> {
            &&& inserted.len() == changes.len()
            &&& forall|i: int|
                0 <= i < changes.len() ==> (#[trigger] inserted[i] <==> !replicated.contains_key(
                    (changes[i].space, changes[i].id),
                ) && forall|j: int|
                    0 <= j < i ==> ((#[trigger] changes[j]).space, changes[j].id) != (
                        changes[i].space,
                        changes[i].id,
                    ))
        },
    decreases changes.len(),
{
    if changes.len() > 0 {
        let shorter = changes.drop_last();
        let last = changes.len() - 1;
        let place = (changes[last].space, changes[last].id);
        lemma_retained_exactly(replicated, shorter);
        assert(forall|i: int| 0 <= i < shorter.len() ==> #[trigger] shorter[i] == changes[i]);
        match retaining(replicated, shorter) {
            Err(_) => {
                if forall|i: int|
                    0 <= i < shorter.len() && replicated.contains_key(
                        ((#[trigger] shorter[i]).space, shorter[i].id),
                    ) ==> replicated[(shorter[i].space, shorter[i].id)] == shorter[i] {
                    let (i, j) = choose|i: int, j: int|
                        0 <= i < j < shorter.len() && (#[trigger] shorter[i]).space == (
                        #[trigger] shorter[j]).space && shorter[i].id == shorter[j].id
                            && shorter[i] != shorter[j];
                    assert(changes[i] != changes[j]);
                } else {
                    let i = choose|i: int|
                        0 <= i < shorter.len() && replicated.contains_key(
                            ((#[trigger] shorter[i]).space, shorter[i].id),
                        ) && replicated[(shorter[i].space, shorter[i].id)] != shorter[i];
                    assert(replicated[(changes[i].space, changes[i].id)] != changes[i]);
                }
            },
            Ok((before, inserted)) => {
                lemma_retaining(replicated, shorter);
                assert forall|i: int| 0 <= i < shorter.len() implies before.contains_key(
                    ((#[trigger] changes[i]).space, changes[i].id),
                ) && before[(changes[i].space, changes[i].id)] == changes[i] by {
                    assert(shorter[i] == changes[i]);
                }
                if before.contains_key(place) && !replicated.contains_key(place) {
                    let i = choose|i: int|
                        0 <= i < shorter.len() && #[trigger] shorter[i] == before[place] && (
                            shorter[i].space,
                            shorter[i].id,
                        ) == place;
                    assert(changes[i] == shorter[i]);
                    assert((changes[i].space, changes[i].id) == place);
                }
                if let Ok((_, report)) = retaining(replicated, changes) {
                    assert forall|i: int| 0 <= i < changes.len() implies (#[trigger] report[i]
                        <==> !replicated.contains_key((changes[i].space, changes[i].id))
                        && forall|j: int|
                        0 <= j < i ==> ((#[trigger] changes[j]).space, changes[j].id) != (
                            changes[i].space,
                            changes[i].id,
                        )) by {
                        if i < shorter.len() {
                            assert(report[i] == inserted[i]);
                            assert(shorter[i] == changes[i]);
                            if inserted[i] {
                                assert forall|j: int| 0 <= j < i implies (
                                    (#[trigger] changes[j]).space,
                                    changes[j].id,
                                ) != (changes[i].space, changes[i].id) by {
                                    assert(shorter[j] == changes[j]);
                                }
                            } else if !replicated.contains_key(
                                (changes[i].space, changes[i].id),
                            ) {
                                let j = choose|j: int|
                                    0 <= j < i && (
                                        (#[trigger] shorter[j]).space,
                                        shorter[j].id,
                                    ) == (shorter[i].space, shorter[i].id);
                                assert((changes[j].space, changes[j].id) == (
                                    changes[i].space,
                                    changes[i].id,
                                ));
                            }
                        } else if !before.contains_key(place) {
                            assert forall|j: int| 0 <= j < i implies (
                                (#[trigger] changes[j]).space,
                                changes[j].id,
                            ) != (changes[i].space, changes[i].id) by {}
                        }
                    }
                }
            },
        }
    }
}

/// A local commit needs one replicated change for each mutation and all of them
/// in the space; a remote commit needs all of them in the space. Each needs the
/// clock only where there is something to commit, and then commits mutations
/// and changes together.
pub proof fn law_commits_are_accepted_exactly(
    state: StoreView,
    space: SpaceId,
    mutations: Seq<MutationView>,
    changes: Seq<ChangeView>,
    since_epoch_ms: Option<u128>,
)
    ensures
        ({
            let within = forall|i: int|
                0 <= i < changes.len() ==> (#[trigger] changes[i]).space == space;
            let timely = since_epoch_ms matches Some(milliseconds) && milliseconds <= i64::MAX;
            let at = since_epoch_ms->0 as i64;
            let local = local_commit(state, space, mutations, changes, since_epoch_ms);
            let remote = remote_commit(state, space, mutations, changes, since_epoch_ms);
            &&& changes.len() == 0 ==> remote == Ok::<
                ((Seq<AppliedView>, Seq<bool>), StoreView),
                ErrorView,
            >(((Seq::empty(), Seq::empty()), state))
            &&& changes.len() == 0 && mutations.len() == 0 ==> local == remote
            &&& mutations.len() != changes.len() ==> local is Err
            &&& !within ==> local is Err && remote is Err
            &&& changes.len() > 0 && !timely ==> local is Err && remote is Err
            &&& changes.len() > 0 && within && timely ==> remote == state.committed(
                space,
                mutations,
                changes,
                at,
            )
            &&& changes.len() > 0 && within && timely && mutations.len() == changes.len()
                ==> local == remote
        }),
{
}

/// Compaction keeps as many of the latest rows as are asked for, but at least
/// one, and all where there are no more.
pub proof fn law_compaction_keeps_what_is_asked(journal: Seq<JournalView>, retain: u64)
    ensures
        ({
            let after = compacted(journal, retain);
            let asked = if retain == 0 {
                1
            } else {
                retain as int
            };
            &&& journal.len() <= asked ==> after == journal
            &&& journal.len() > asked ==> after.len() == asked
            &&& forall|i: int|
                0 <= i < after.len() ==> #[trigger] after[i] == journal[journal.len()
                    - after.len() + i]
        }),
{
}

/// A reservation begins where the kept counter stands, or at zero, and covers
/// as many counters as are asked for; it is refused exactly where none is asked
/// for or there are not so many left.
pub proof fn law_reservation_is_exact(kept: Option<u64>, size: u64)
    ensures
        ({
            let counter = match kept {
                Some(value) => Some(decimal_text(value as nat)),
                None => None,
            };
            let begin = match kept {
                Some(value) => value as nat,
                None => 0,
            };
            &&& reserving(counter, size) is Ok <==> size > 0 && begin + size <= u64::MAX
            &&& reserving(counter, size) matches Ok((previous, high)) ==> previous == begin
                && high == begin + size
        }),
{
    match kept {
        Some(value) => {
            law_decimal_round_trip(value);
        },
        None => {
            reveal_strlit("0");
            assert("0"@ =~= decimal_text(0));
            law_decimal_round_trip(0);
        },
    }
}

/// A listing holds each document of its collection once, as it is kept, in
/// ascending identity order, and nothing else.
pub proof fn law_listing_is_exact(
    documents: Map<DocumentPlace, RowView>,
    space: SpaceId,
    collection: Seq<char>,
    listed: Seq<DocumentView>,
)
    ensures
        lists(documents, space, collection, listed) <==> {
            &&& forall|i: int, j: int|
                0 <= i < j < listed.len() ==> (#[trigger] listed[i]).id.0 < (
                #[trigger] listed[j]).id.0
            &&& forall|i: int|
                0 <= i < listed.len() ==> {
                    let place = (space, (collection, (#[trigger] listed[i]).id));
                    &&& documents.contains_key(place)
                    &&& documents[place].payload == listed[i].payload
                    &&& documents[place].sequence == listed[i].sequence
                }
            &&& forall|id: DocumentId| #[trigger]
                documents.contains_key((space, (collection, id))) ==> exists|i: int|
                    0 <= i < listed.len() && (#[trigger] listed[i]).id == id
        },
{
}

/// The recorded schemas of a space are listed once each, as they are kept, in
/// the order of their collections' names, and the changes kept for a space in
/// the order of their authors and counters; nothing else is listed.
pub proof fn law_listings_are_exact(
    schemas: Map<(SpaceId, Seq<char>), SchemaView>,
    replicated: Map<ChangePlace, ChangeView>,
    space: SpaceId,
    names: Seq<(Seq<char>, SchemaView)>,
    changes: Seq<ChangeView>,
)
    ensures
        lists_schemas(schemas, space, names) <==> {
            &&& forall|i: int, j: int|
                0 <= i < j < names.len() ==> <String as Key>::before(
                    (#[trigger] names[i]).0,
                    (#[trigger] names[j]).0,
                )
            &&& forall|i: int|
                0 <= i < names.len() ==> schemas.contains_key((space, (#[trigger] names[i]).0))
                    && schemas[(space, names[i].0)] == names[i].1
            &&& forall|collection: Seq<char>| #[trigger]
                schemas.contains_key((space, collection)) ==> exists|i: int|
                    0 <= i < names.len() && (#[trigger] names[i]).0 == collection
        },
        lists_changes(replicated, space, changes) <==> {
            &&& forall|i: int, j: int|
                0 <= i < j < changes.len() ==> <ChangeId as Key>::before(
                    (#[trigger] changes[i]).id,
                    (#[trigger] changes[j]).id,
                )
            &&& forall|i: int|
                0 <= i < changes.len() ==> replicated.contains_key(
                    (space, (#[trigger] changes[i]).id),
                ) && replicated[(space, changes[i].id)] == changes[i]
            &&& forall|id: ChangeId| #[trigger]
                replicated.contains_key((space, id)) ==> exists|i: int|
                    0 <= i < changes.len() && (#[trigger] changes[i]).id == id
        },
{
}

/// An identity that the store wrote is the identity that it reads.
pub proof fn law_kept_identity_is_read(value: u128, message: Seq<char>)
    ensures
        stored_identifier(id_text(value), message) == Ok::<u128, ErrorView>(value),
{
    law_text_round_trip(value);
}

/// A database is opened exactly where it records no format version or the
/// first.
pub proof fn law_first_version_is_supported(found: Option<Seq<char>>)
    ensures
        version_refusal(found) is None <==> (found matches Some(version) ==> version == "1"@),
{
    reveal_strlit("1");
    assert("1"@ =~= decimal_text(1));
}

proof fn lemma_put_rows(
    documents: Map<DocumentPlace, RowView>,
    journal: Seq<JournalView>,
    space: SpaceId,
    mutations: Seq<MutationView>,
    at: i64,
)
    requires
        frontier_of(journal) + mutations.len() <= 9223372036854775807,
        forall|i: int| 0 <= i < mutations.len() ==> (#[trigger] mutations[i]).payload is Some,
        forall|i: int, j: int|
            0 <= i < j < mutations.len() ==> (#[trigger] mutations[i]).id != (
            #[trigger] mutations[j]).id,
    ensures
        ({
            let made = materializing(documents, journal, space, mutations, at);
            let old_len = journal.len() as int;
            &&& made.applied.len() == mutations.len()
            &&& frontier_of(made.journal) == frontier_of(journal) + mutations.len()
            &&& made.journal.len() == journal.len() + mutations.len()
            &&& made.journal.take(old_len) == journal
            &&& forall|i: int|
                0 <= i < mutations.len() ==> (#[trigger] made.applied[i]).sequence == frontier_of(
                    journal,
                ) + 1 + i
            &&& forall|i: int|
                old_len <= i < made.journal.len() ==> #[trigger] made.journal[i] == (JournalView {
                    sequence: (frontier_of(journal) + 1 + i - old_len) as u64,
                    space,
                    collection: mutations[i - old_len].collection,
                    id: mutations[i - old_len].id,
                    kind: ChangeKind::Put,
                    payload: mutations[i - old_len].payload,
                    committed_at_ms: at,
                })
            &&& forall|i: int|
                0 <= i < mutations.len() ==> {
                    let place = (space, ((#[trigger] mutations[i]).collection, mutations[i].id));
                    &&& made.documents.contains_key(place)
                    &&& made.documents[place].payload == mutations[i].payload->0
                    &&& made.documents[place].sequence == frontier_of(journal) + 1 + i
                }
            &&& forall|place: DocumentPlace|
                (forall|i: int|
                    0 <= i < mutations.len() ==> (
                        space,
                        ((#[trigger] mutations[i]).collection, mutations[i].id),
                    ) != place) ==> (#[trigger] made.documents.contains_key(place)
                    <==> documents.contains_key(place)) && made.documents[place]
                    == documents[place]
        }),
    decreases mutations.len(),
{
    let made = materializing(documents, journal, space, mutations, at);
    let old_len = journal.len() as int;
    if mutations.len() > 0 {
        let shorter = mutations.drop_last();
        let last = mutations.len() - 1;
        assert forall|i: int, j: int| 0 <= i < j < shorter.len() implies (
        #[trigger] shorter[i]).id != (#[trigger] shorter[j]).id by {
            assert(shorter[i] == mutations[i] && shorter[j] == mutations[j]);
        }
        assert forall|i: int| 0 <= i < shorter.len() implies (
        #[trigger] shorter[i]).payload is Some by {
            assert(shorter[i] == mutations[i]);
        }
        lemma_put_rows(documents, journal, space, shorter, at);
        let before = materializing(documents, journal, space, shorter, at);
        assert(mutations[last].payload is Some);
        assert(made.journal.take(old_len) =~= before.journal.take(old_len));
        assert forall|i: int| old_len <= i < made.journal.len() implies #[trigger] made.journal[i]
            == (JournalView {
            sequence: (frontier_of(journal) + 1 + i - old_len) as u64,
            space,
            collection: mutations[i - old_len].collection,
            id: mutations[i - old_len].id,
            kind: ChangeKind::Put,
            payload: mutations[i - old_len].payload,
            committed_at_ms: at,
        }) by {
            if i < before.journal.len() {
                assert(before.journal[i] == made.journal[i]);
                assert(shorter[i - old_len] == mutations[i - old_len]);
            }
        }
        assert forall|i: int| 0 <= i < mutations.len() implies {
            let place = (space, ((#[trigger] mutations[i]).collection, mutations[i].id));
            &&& made.documents.contains_key(place)
            &&& made.documents[place].payload == mutations[i].payload->0
            &&& made.documents[place].sequence == frontier_of(journal) + 1 + i
        } by {
            if i < last {
                assert(shorter[i] == mutations[i]);
                assert(mutations[i].id != mutations[last].id);
            }
        }
        assert forall|place: DocumentPlace|
            (forall|i: int|
                0 <= i < mutations.len() ==> (
                    space,
                    ((#[trigger] mutations[i]).collection, mutations[i].id),
                ) != place) implies (#[trigger] made.documents.contains_key(place)
            <==> documents.contains_key(place)) && made.documents[place] == documents[place] by {
            assert forall|i: int| 0 <= i < shorter.len() implies (
                space,
                ((#[trigger] shorter[i]).collection, shorter[i].id),
            ) != place by {
                assert(shorter[i] == mutations[i]);
            }
            assert((space, (mutations[last].collection, mutations[last].id)) != place);
            assert(before.documents.contains_key(place) <==> documents.contains_key(place));
        }
    } else {
        assert(journal.take(old_len) =~= journal);
    }
}

/// A migration of one collection leaves everything else alone: the recorded
/// schema of every other collection, every document elsewhere with its
/// sequence, the journal so far, every change retained before, and the store's
/// identities and counter. In the collection it adds and removes no document.
/// Each document's new payload, its journal row and the report carry the same
/// sequence, in the order of the documents.
pub proof fn law_migration_leaves_the_rest_alone(
    state: StoreView,
    space: SpaceId,
    collection: Seq<char>,
    to: SchemaView,
    listed: Seq<DocumentView>,
    transformed: Seq<TransformedView>,
    at: i64,
)
    requires
        lists(state.documents, space, collection, listed),
        transformed.len() == listed.len(),
        migrating(state, space, collection, to, transformed, at) is Ok,
    ensures
        ({
            let (migrated, after) = migrating(
                state,
                space,
                collection,
                to,
                transformed,
                at,
            )->Ok_0;
            let begin = if state.journal.len() == 0 {
                1
            } else {
                state.journal.last().sequence + 1
            };
            let old_len = state.journal.len() as int;
            &&& forall|place: (SpaceId, Seq<char>)|
                place != (space, collection) ==> (#[trigger] after.schemas.contains_key(place)
                    <==> state.schemas.contains_key(place)) && after.schemas[place]
                    == state.schemas[place]
            &&& forall|place: (SpaceId, Seq<char>)|
                place != (space, collection) ==> #[trigger] recorded(after.schemas, place)
                    == recorded(state.schemas, place)
            &&& after.schemas.contains_key((space, collection))
            &&& after.schemas[(space, collection)] == to
            &&& forall|place: ChangePlace| #[trigger]
                state.replicated.contains_key(place) ==> after.replicated.contains_key(place)
                    && after.replicated[place] == state.replicated[place]
            &&& forall|i: int|
                0 <= i < transformed.len() ==> {
                    let change = (#[trigger] transformed[i]).change;
                    &&& after.replicated.contains_key((change.space, change.id))
                    &&& after.replicated[(change.space, change.id)] == change
                }
            &&& forall|place: ChangePlace| #[trigger]
                after.replicated.contains_key(place) && !state.replicated.contains_key(place)
                    ==> exists|i: int|
                    0 <= i < transformed.len() && (#[trigger] transformed[i]).change
                        == after.replicated[place]
            &&& forall|place: DocumentPlace|
                !(place.0 == space && place.1.0 == collection) ==> (
                #[trigger] after.documents.contains_key(place) <==> state.documents.contains_key(
                    place,
                )) && after.documents[place] == state.documents[place]
            &&& forall|id: DocumentId| #[trigger]
                after.documents.contains_key((space, (collection, id)))
                    <==> state.documents.contains_key((space, (collection, id)))
            &&& migrated.len() == listed.len()
            &&& forall|i: int|
                0 <= i < listed.len() ==> {
                    let place = (space, (collection, (#[trigger] listed[i]).id));
                    &&& after.documents[place].payload == transformed[i].payload
                    &&& after.documents[place].sequence == begin + i
                    &&& migrated[i].id == listed[i].id
                    &&& migrated[i].payload == transformed[i].payload
                    &&& migrated[i].sequence == begin + i
                }
            &&& after.journal.len() == state.journal.len() + listed.len()
            &&& after.journal.take(old_len) == state.journal
            &&& forall|i: int|
                old_len <= i < after.journal.len() ==> {
                    let row = #[trigger] after.journal[i];
                    &&& row.sequence == begin + i - old_len
                    &&& row.space == space
                    &&& row.collection == collection
                    &&& row.id == listed[i - old_len].id
                    &&& row.kind == ChangeKind::Put
                    &&& row.payload == Some(transformed[i - old_len].payload)
                    &&& row.committed_at_ms == at
                }
            &&& after.replica_id == state.replica_id
            &&& after.default_space == state.default_space
            &&& after.counter == state.counter
        }),
{
    lemma_listing(state.documents, space, collection, listed);
    let puts = migration_puts(collection, to, listed, transformed);
    let changes = transformed.map_values(|document: TransformedView| document.change);
    let (migrated, after) = migrating(state, space, collection, to, transformed, at)->Ok_0;
    assert forall|i: int, j: int| 0 <= i < j < puts.len() implies (#[trigger] puts[i]).id != (
    #[trigger] puts[j]).id by {
        assert(listed[i].id.0 < listed[j].id.0);
    }
    lemma_put_rows(state.documents, state.journal, space, puts, at);
    lemma_retaining(state.replicated, changes);
    assert forall|i: int| 0 <= i < transformed.len() implies {
        let change = (#[trigger] transformed[i]).change;
        &&& after.replicated.contains_key((change.space, change.id))
        &&& after.replicated[(change.space, change.id)] == change
    } by {
        assert(changes[i] == transformed[i].change);
    }
    assert forall|place: ChangePlace| #[trigger]
        after.replicated.contains_key(place) && !state.replicated.contains_key(
            place,
        ) implies exists|i: int|
        0 <= i < transformed.len() && (#[trigger] transformed[i]).change
            == after.replicated[place] by {
        let i = choose|i: int|
            0 <= i < changes.len() && #[trigger] changes[i] == after.replicated[place] && (
                changes[i].space,
                changes[i].id,
            ) == place;
        assert(transformed[i].change == changes[i]);
    }
    assert forall|i: int| 0 <= i < listed.len() implies {
        let place = (space, (collection, (#[trigger] listed[i]).id));
        &&& after.documents.contains_key(place)
        &&& after.documents[place].payload == transformed[i].payload
        &&& after.documents[place].sequence == frontier_of(state.journal) + 1 + i
    } by {
        assert(puts[i].id == listed[i].id);
    }
    assert forall|id: DocumentId| #[trigger]
        after.documents.contains_key((space, (collection, id))) implies state.documents.contains_key(
        (space, (collection, id)),
    ) by {
        let place = (space, (collection, id));
        if !state.documents.contains_key(place) {
            assert forall|i: int| 0 <= i < puts.len() implies (
                space,
                ((#[trigger] puts[i]).collection, puts[i].id),
            ) != place by {
                assert(puts[i].id == listed[i].id);
            }
        }
    }
    assert forall|id: DocumentId| #[trigger]
        state.documents.contains_key((space, (collection, id))) implies after.documents.contains_key(
        (space, (collection, id)),
    ) by {
        let i = choose|i: int| 0 <= i < listed.len() && (#[trigger] listed[i]).id == id;
        assert(after.documents.contains_key((space, (collection, listed[i].id))));
    }
}

proof fn lemma_transforms_accepted(
    space: SpaceId,
    collection: Seq<char>,
    schema: SchemaView,
    listed: Seq<DocumentView>,
    transformed: Seq<TransformedView>,
    len: nat,
)
    ensures
        transforms_refusal(space, collection, schema, listed, transformed, len) is None
            <==> forall|i: int|
            0 <= i < len ==> transformed_refusal(
                space,
                collection,
                schema,
                (#[trigger] listed[i]).id,
                transformed[i],
            ) is None,
    decreases len,
{
    if len > 0 {
        lemma_transforms_accepted(
            space,
            collection,
            schema,
            listed,
            transformed,
            (len - 1) as nat,
        );
        if transforms_refusal(space, collection, schema, listed, transformed, len) is None {
            assert forall|i: int| 0 <= i < len implies transformed_refusal(
                space,
                collection,
                schema,
                (#[trigger] listed[i]).id,
                transformed[i],
            ) is None by {
                if i == len - 1 {
                }
            }
        } else if forall|i: int|
            0 <= i < len ==> transformed_refusal(
                space,
                collection,
                schema,
                (#[trigger] listed[i]).id,
                transformed[i],
            ) is None {
            assert(transformed_refusal(
                space,
                collection,
                schema,
                listed[len - 1].id,
                transformed[len - 1],
            ) is None);
        }
    }
}

/// A migration begins exactly where the collection's name has between 1 and
/// 128 bytes, the schema changes, the clock is right and the collection records
/// the schema migrated from. It succeeds exactly where each change carries its
/// document's new payload under the new schema in the collection, the journal
/// has room, and the changes can be appended.
pub proof fn law_migration_is_accepted_exactly(
    state: StoreView,
    space: SpaceId,
    collection: Seq<char>,
    from: SchemaView,
    to: SchemaView,
    listed: Seq<DocumentView>,
    transformed: Seq<TransformedView>,
    changes: Seq<ChangeView>,
    since_epoch_ms: Option<u128>,
    at: i64,
)
    requires
        lists(state.documents, space, collection, listed),
        transformed.len() == listed.len(),
        changes.len() == transformed.len(),
        forall|i: int|
            0 <= i < changes.len() ==> #[trigger] changes[i] == transformed[i].change,
    ensures
        migration_refusal(state, space, collection, from, to, since_epoch_ms) is None <==> {
            &&& collection.len() > 0
            &&& byte_len(collection) <= 128
            &&& from != to
            &&& since_epoch_ms matches Some(milliseconds)
            &&& milliseconds <= i64::MAX
            &&& state.schemas.contains_key((space, collection))
            &&& state.schemas[(space, collection)] == from
        },
        migrating(state, space, collection, to, transformed, at) is Ok ==> {
            &&& forall|i: int| #![trigger listed[i]] #![trigger transformed[i]]
                0 <= i < listed.len() ==> {
                    &&& transformed[i].change.space == space
                    &&& transformed[i].change.operation.collection == collection
                    &&& transformed[i].change.operation.document == listed[i].id
                    &&& transformed[i].change.operation.schema == to.fingerprint
                    &&& transformed[i].change.operation.payload == Some(transformed[i].payload)
                }
            &&& frontier_of(state.journal) + listed.len() <= i64::MAX
            &&& appending(state.replicated, changes) is Ok
        },
        migrating(state, space, collection, to, transformed, at) is Ok <== {
            &&& forall|i: int| #![trigger listed[i]] #![trigger transformed[i]]
                0 <= i < listed.len() ==> {
                    &&& transformed[i].change.space == space
                    &&& transformed[i].change.operation.collection == collection
                    &&& transformed[i].change.operation.document == listed[i].id
                    &&& transformed[i].change.operation.schema == to.fingerprint
                    &&& transformed[i].change.operation.payload == Some(transformed[i].payload)
                }
            &&& frontier_of(state.journal) + listed.len() <= i64::MAX
            &&& appending(state.replicated, changes) is Ok
        },
{
    assert(transformed.map_values(|document: TransformedView| document.change) =~= changes);
    lemma_listing(state.documents, space, collection, listed);
    lemma_transforms_accepted(space, collection, to, listed, transformed, listed.len());
    if migrating(state, space, collection, to, transformed, at) is Ok {
        assert forall|i: int| #![trigger listed[i]] #![trigger transformed[i]]
            0 <= i < listed.len() implies {
            &&& transformed[i].change.space == space
            &&& transformed[i].change.operation.collection == collection
            &&& transformed[i].change.operation.document == listed[i].id
            &&& transformed[i].change.operation.schema == to.fingerprint
            &&& transformed[i].change.operation.payload == Some(transformed[i].payload)
        } by {
            assert(transformed_refusal(
                space,
                collection,
                to,
                listed[i].id,
                transformed[i],
            ) is None);
        }
    }
}

/// A batch without mutations needs no clock and changes nothing; every other
/// batch is committed at the time of the clock, or refused where that is wrong.
pub proof fn law_batch_is_committed_at_its_time(
    state: StoreView,
    space: SpaceId,
    mutations: Seq<MutationView>,
    since_epoch_ms: Option<u128>,
)
    ensures
        mutations.len() == 0 ==> batch(state, space, mutations, since_epoch_ms) == Ok::<
            (Seq<AppliedView>, StoreView),
            ErrorView,
        >((Seq::empty(), state)),
        mutations.len() > 0 && !(since_epoch_ms matches Some(milliseconds) && milliseconds
            <= i64::MAX) ==> batch(state, space, mutations, since_epoch_ms) is Err,
        mutations.len() > 0 && (since_epoch_ms matches Some(milliseconds) && milliseconds
            <= i64::MAX) ==> batch(state, space, mutations, since_epoch_ms) == state.mutated(
            space,
            mutations,
            since_epoch_ms->0 as i64,
        ),
{
}

/// A store is consistent exactly where the sequences of its journal ascend from
/// one, and every change is kept under its own space and identity.
pub proof fn law_store_consistency_is_exact(state: StoreView)
    ensures
        state.consistent() <==> {
            &&& forall|i: int|
                0 <= i < state.journal.len() ==> 1 <= (#[trigger] state.journal[i]).sequence
                    <= i64::MAX
            &&& forall|i: int, j: int|
                0 <= i < j < state.journal.len() ==> (#[trigger] state.journal[i]).sequence < (
                #[trigger] state.journal[j]).sequence
            &&& forall|place: ChangePlace| #[trigger]
                state.replicated.contains_key(place) ==> state.replicated[place].space == place.0
                    && state.replicated[place].id == place.1
        },
        state.journal.len() == 0 ==> frontier_of(state.journal) == 0,
        state.journal.len() > 0 ==> frontier_of(state.journal) == state.journal.last().sequence,
{
}

} // verus!
