//! What each transaction on a store does.

use super::types::{
    AppliedView, ChangeKind, DocumentView, JournalView, MutationView, SchemaView, TransformedView,
};
use crate::error::{failure, ErrorCode, ErrorView};
use crate::id::{id_text, parsed_id, DecodeError, DocumentId, SpaceId};
use crate::ordmap::Key;
use crate::sync::change::{ChangeId, ChangeView};
use crate::sync::replica::collection_refusal;
use crate::text::{decimal_text, parsed_number};
use vstd::prelude::*;
use vstd::string::*;

verus! {

/// The place of a document.
pub type DocumentPlace = (SpaceId, (Seq<char>, DocumentId));

/// The place of a collection.
pub type CollectionPlace = (SpaceId, Seq<char>);

/// The place of a replicated change.
pub type ChangePlace = (SpaceId, ChangeId);

/// A materialized document row.
#[verifier::ext_equal]
pub struct RowView {
    /// Serialized application payload.
    pub payload: Seq<u8>,
    /// Local sequence that last updated the document.
    pub sequence: u64,
}

/// The content of a store's tables.
#[verifier::ext_equal]
pub struct StoreView {
    /// Materialized documents.
    pub documents: Map<DocumentPlace, RowView>,
    /// Local diagnostic journal in sequence order.
    pub journal: Seq<JournalView>,
    /// Recorded collection schemas.
    pub schemas: Map<CollectionPlace, SchemaView>,
    /// Retained replicated changes.
    pub replicated: Map<ChangePlace, ChangeView>,
    /// Text of the local replica identity.
    pub replica_id: Option<Seq<char>>,
    /// Text of the default space.
    pub default_space: Option<Seq<char>>,
    /// Text of the greatest reserved merge-operation counter.
    pub counter: Option<Seq<char>>,
}

/// The greatest sequence of a journal, or zero.
pub open spec fn frontier_of(journal: Seq<JournalView>) -> u64 {
    if journal.len() == 0 {
        0
    } else {
        journal.last().sequence
    }
}

/// Whether a journal's sequences ascend from one.
pub open spec fn journal_ascends(journal: Seq<JournalView>) -> bool {
    &&& forall|i: int|
        0 <= i < journal.len() ==> 1 <= (#[trigger] journal[i]).sequence <= 9223372036854775807
    &&& forall|i: int, j: int|
        0 <= i < j < journal.len() ==> (#[trigger] journal[i]).sequence < (
        #[trigger] journal[j]).sequence
}

/// Why a collection does not accept a schema.
pub open spec fn schema_refusal(
    found: Option<SchemaView>,
    collection: Seq<char>,
    schema: SchemaView,
) -> Option<ErrorView> {
    match found {
        None => None,
        Some(found) => if found == schema {
            None
        } else {
            Some(
                failure(
                    ErrorCode::InvalidData,
                    "collection '"@ + collection + "' contains schema '"@ + found.name
                        + "' version "@ + decimal_text(found.version as nat)
                        + ", but the application requested '"@ + schema.name + "' version "@
                        + decimal_text(schema.version as nat)
                        + "; define and run an explicit migration"@,
                ),
            )
        },
    }
}

/// The schema that is recorded for a collection.
pub open spec fn recorded(
    schemas: Map<CollectionPlace, SchemaView>,
    place: CollectionPlace,
) -> Option<SchemaView> {
    if schemas.contains_key(place) {
        Some(schemas[place])
    } else {
        None
    }
}

/// The recorded schemas after mutations, or why one is refused.
pub open spec fn recording(
    schemas: Map<CollectionPlace, SchemaView>,
    space: SpaceId,
    mutations: Seq<MutationView>,
) -> Result<Map<CollectionPlace, SchemaView>, ErrorView>
    decreases mutations.len(),
{
    if mutations.len() == 0 {
        Ok(schemas)
    } else {
        match recording(schemas, space, mutations.drop_last()) {
            Err(error) => Err(error),
            Ok(before) => {
                let mutation = mutations.last();
                let place = (space, mutation.collection);
                match schema_refusal(
                    recorded(before, place),
                    mutation.collection,
                    mutation.schema,
                ) {
                    Some(error) => Err(error),
                    None => Ok(before.insert(place, mutation.schema)),
                }
            },
        }
    }
}

/// Documents, journal and applied mutations.
#[verifier::ext_equal]
pub struct Materialized {
    /// Materialized documents.
    pub documents: Map<DocumentPlace, RowView>,
    /// Local diagnostic journal.
    pub journal: Seq<JournalView>,
    /// Mutations that changed something.
    pub applied: Seq<AppliedView>,
}

/// What mutations make of documents and the journal.
pub open spec fn materializing(
    documents: Map<DocumentPlace, RowView>,
    journal: Seq<JournalView>,
    space: SpaceId,
    mutations: Seq<MutationView>,
    at: i64,
) -> Materialized
    decreases mutations.len(),
{
    if mutations.len() == 0 {
        Materialized { documents, journal, applied: Seq::empty() }
    } else {
        let before = materializing(documents, journal, space, mutations.drop_last(), at);
        let mutation = mutations.last();
        let place = (space, (mutation.collection, mutation.id));
        let sequence = (frontier_of(before.journal) + 1) as u64;
        match mutation.payload {
            Some(payload) => Materialized {
                documents: before.documents.insert(place, RowView { payload, sequence }),
                journal: before.journal.push(
                    entry(sequence, space, mutation, ChangeKind::Put, at),
                ),
                applied: before.applied.push(applied(sequence, mutation, ChangeKind::Put)),
            },
            None => if before.documents.contains_key(place) {
                Materialized {
                    documents: before.documents.remove(place),
                    journal: before.journal.push(
                        entry(sequence, space, mutation, ChangeKind::Delete, at),
                    ),
                    applied: before.applied.push(applied(sequence, mutation, ChangeKind::Delete)),
                }
            } else {
                before
            },
        }
    }
}

/// The journal row of a mutation.
pub open spec fn entry(
    sequence: u64,
    space: SpaceId,
    mutation: MutationView,
    kind: ChangeKind,
    at: i64,
) -> JournalView {
    JournalView {
        sequence,
        space,
        collection: mutation.collection,
        id: mutation.id,
        kind,
        payload: mutation.payload,
        committed_at_ms: at,
    }
}

/// The report of an applied mutation.
pub open spec fn applied(sequence: u64, mutation: MutationView, kind: ChangeKind) -> AppliedView {
    AppliedView { kind, collection: mutation.collection, id: mutation.id, sequence }
}

/// Why the first invalid collection name of mutations is refused.
pub open spec fn names_refusal(mutations: Seq<MutationView>) -> Option<ErrorView> {
    if exists|i: int|
        0 <= i < mutations.len() && collection_refusal(
            (#[trigger] mutations[i]).collection,
        ) is Some {
        Some(
            failure(
                ErrorCode::InvalidInput,
                "collection names must contain between 1 and 128 bytes"@,
            ),
        )
    } else {
        None
    }
}

/// The error of a journal that can take no more rows.
pub open spec fn journal_full() -> ErrorView {
    ErrorView {
        code: ErrorCode::Storage,
        message: "couldn't append a durable change"@,
        source: Some("database or disk is full"@),
    }
}

/// The error of a replicated change whose counter is too large.
pub open spec fn counter_error() -> ErrorView {
    ErrorView {
        code: ErrorCode::InvalidData,
        message: "replicated change counter exceeds the durable format limit"@,
        source: Some("out of range integral type conversion attempted"@),
    }
}

/// The error of a replicated change whose identity has other content.
pub open spec fn content_error(id: ChangeId) -> ErrorView {
    failure(
        ErrorCode::InvalidData,
        "replicated change "@ + id_text(id.replica.0) + ":"@ + decimal_text(id.counter as nat)
            + " collides with different durable content"@,
    )
}

/// Retained changes and which of those given were new.
pub type Appended = (Map<ChangePlace, ChangeView>, Seq<bool>);

/// The retained changes after some are appended, or why one is refused.
pub open spec fn retaining(
    replicated: Map<ChangePlace, ChangeView>,
    changes: Seq<ChangeView>,
) -> Result<Appended, ErrorView>
    decreases changes.len(),
{
    if changes.len() == 0 {
        Ok((replicated, Seq::empty()))
    } else {
        match retaining(replicated, changes.drop_last()) {
            Err(error) => Err(error),
            Ok((before, inserted)) => {
                let change = changes.last();
                let place = (change.space, change.id);
                if !before.contains_key(place) {
                    Ok((before.insert(place, change), inserted.push(true)))
                } else if before[place] == change {
                    Ok((before, inserted.push(false)))
                } else {
                    Err(content_error(change.id))
                }
            },
        }
    }
}

/// The retained changes after a batch, or why it is refused.
pub open spec fn appending(
    replicated: Map<ChangePlace, ChangeView>,
    changes: Seq<ChangeView>,
) -> Result<Appended, ErrorView> {
    if exists|i: int|
        0 <= i < changes.len() && (#[trigger] changes[i]).id.counter > 9223372036854775807 {
        Err(counter_error())
    } else {
        retaining(replicated, changes)
    }
}

/// Whether a change belongs to another space.
pub open spec fn crosses_spaces(changes: Seq<ChangeView>, space: SpaceId) -> bool {
    exists|i: int| 0 <= i < changes.len() && (#[trigger] changes[i]).space != space
}

/// What a commit of mutations and replicated changes reports.
pub type Committed = (Seq<AppliedView>, Seq<bool>);

impl StoreView {
    /// The journal's sequences ascend from one, and every replicated change is
    /// kept under its own space and identity.
    pub open spec fn consistent(self) -> bool {
        &&& journal_ascends(self.journal)
        &&& forall|place: ChangePlace| #[trigger]
            self.replicated.contains_key(place) ==> self.replicated[place].space == place.0
                && self.replicated[place].id == place.1
    }

    /// Mutations applied as one transaction, at a time.
    pub open spec fn mutated(self, space: SpaceId, mutations: Seq<MutationView>, at: i64) -> Result<
        (Seq<AppliedView>, StoreView),
        ErrorView,
    > {
        match names_refusal(mutations) {
            Some(error) => Err(error),
            None => match recording(self.schemas, space, mutations) {
                Err(error) => Err(error),
                Ok(schemas) => if frontier_of(self.journal) + mutations.len()
                    > 9223372036854775807 {
                    Err(journal_full())
                } else {
                    let made = materializing(self.documents, self.journal, space, mutations, at);
                    Ok(
                        (
                            made.applied,
                            StoreView {
                                documents: made.documents,
                                journal: made.journal,
                                schemas,
                                ..self
                            },
                        ),
                    )
                },
            },
        }
    }

    /// Mutations and replicated changes committed as one transaction.
    pub open spec fn committed(
        self,
        space: SpaceId,
        mutations: Seq<MutationView>,
        changes: Seq<ChangeView>,
        at: i64,
    ) -> Result<(Committed, StoreView), ErrorView> {
        match self.mutated(space, mutations, at) {
            Err(error) => Err(error),
            Ok((applied, after)) => match appending(self.replicated, changes) {
                Err(error) => Err(error),
                Ok((replicated, inserted)) => Ok(
                    ((applied, inserted), StoreView { replicated, ..after }),
                ),
            },
        }
    }
}

/// The error of a replica identity or a space that cannot be read.
pub open spec fn identifier_error(message: Seq<char>, error: DecodeError) -> ErrorView {
    ErrorView { code: ErrorCode::InvalidData, message, source: Some(error.text()) }
}

/// What a stored identifier says.
pub open spec fn stored_identifier(text: Seq<char>, message: Seq<char>) -> Result<u128, ErrorView> {
    match parsed_id(text) {
        Ok(value) => Ok(value),
        Err(error) => Err(identifier_error(message, error)),
    }
}

/// The counter that is reserved so far, or why it cannot be read.
pub open spec fn reserved(counter: Option<Seq<char>>) -> Result<nat, ErrorView> {
    match parsed_number(
        match counter {
            Some(text) => text,
            None => "0"@,
        },
    ) {
        Ok(value) => Ok(value),
        Err(error) => Err(
            ErrorView {
                code: ErrorCode::InvalidData,
                message: "the CRDT counter high-water is malformed"@,
                source: Some(error.text()),
            },
        ),
    }
}

/// A reservation of counters, or why it is refused.
pub open spec fn reserving(counter: Option<Seq<char>>, size: u64) -> Result<
    (nat, nat),
    ErrorView,
> {
    if size == 0 {
        Err(
            failure(
                ErrorCode::InvalidInput,
                "a counter reservation must contain at least one operation"@,
            ),
        )
    } else {
        match reserved(counter) {
            Err(error) => Err(error),
            Ok(previous) => if previous + size > u64::MAX {
                Err(failure(ErrorCode::InvalidData, "the CRDT operation counter is exhausted"@))
            } else {
                Ok((previous, previous + size as nat))
            },
        }
    }
}

/// Whether documents are those of a collection, in ascending identity order.
pub open spec fn lists(
    documents: Map<DocumentPlace, RowView>,
    space: SpaceId,
    collection: Seq<char>,
    listed: Seq<DocumentView>,
) -> bool {
    &&& forall|i: int, j: int|
        0 <= i < j < listed.len() ==> (#[trigger] listed[i]).id.0 < (#[trigger] listed[j]).id.0
    &&& forall|i: int|
        0 <= i < listed.len() ==> documents.contains_key(
            (space, (collection, (#[trigger] listed[i]).id)),
        ) && documents[(space, (collection, listed[i].id))] == (RowView {
            payload: listed[i].payload,
            sequence: listed[i].sequence,
        })
    &&& forall|id: DocumentId| #[trigger]
        documents.contains_key((space, (collection, id))) ==> exists|i: int|
            0 <= i < listed.len() && (#[trigger] listed[i]).id == id
}

/// The documents of a collection in ascending identity order.
pub open spec fn listing(
    documents: Map<DocumentPlace, RowView>,
    space: SpaceId,
    collection: Seq<char>,
) -> Seq<DocumentView> {
    choose|listed: Seq<DocumentView>| lists(documents, space, collection, listed)
}

proof fn lemma_same_prefix(
    documents: Map<DocumentPlace, RowView>,
    space: SpaceId,
    collection: Seq<char>,
    first: Seq<DocumentView>,
    second: Seq<DocumentView>,
    len: int,
)
    requires
        lists(documents, space, collection, first),
        lists(documents, space, collection, second),
        0 <= len <= first.len(),
    ensures
        len <= second.len(),
        forall|i: int| 0 <= i < len ==> first[i] == #[trigger] second[i],
    decreases len,
{
    if len > 0 {
        let last = len - 1;
        lemma_same_prefix(documents, space, collection, first, second, last);
        let id = first[last].id;
        assert(documents.contains_key((space, (collection, id))));
        let at = choose|i: int| 0 <= i < second.len() && (#[trigger] second[i]).id == id;
        if at < last {
            assert(first[at] == second[at]);
            assert(first[at].id.0 < first[last].id.0);
        } else if at > last {
            let other = second[last].id;
            assert(second[last].id.0 < second[at].id.0);
            assert(documents.contains_key((space, (collection, other))));
            let back = choose|i: int| 0 <= i < first.len() && (#[trigger] first[i]).id == other;
            if back < last {
                assert(first[back] == second[back]);
                assert(second[back].id.0 < second[last].id.0);
            } else if back > last {
                assert(first[last].id.0 < first[back].id.0);
            }
        }
        assert(at == last);
        assert(first[last] == second[last]);
    }
}

/// A collection has one listing.
pub proof fn lemma_listing(
    documents: Map<DocumentPlace, RowView>,
    space: SpaceId,
    collection: Seq<char>,
    listed: Seq<DocumentView>,
)
    requires
        lists(documents, space, collection, listed),
    ensures
        listing(documents, space, collection) == listed,
{
    let other = listing(documents, space, collection);
    lemma_same_prefix(documents, space, collection, listed, other, listed.len() as int);
    lemma_same_prefix(documents, space, collection, other, listed, other.len() as int);
    assert(other =~= listed);
}

/// Whether collection schemas are those of a space, in ascending name order.
pub open spec fn lists_schemas(
    schemas: Map<CollectionPlace, SchemaView>,
    space: SpaceId,
    listed: Seq<(Seq<char>, SchemaView)>,
) -> bool {
    &&& forall|i: int, j: int|
        0 <= i < j < listed.len() ==> <String as Key>::before(
            (#[trigger] listed[i]).0,
            (#[trigger] listed[j]).0,
        )
    &&& forall|i: int|
        0 <= i < listed.len() ==> schemas.contains_key((space, (#[trigger] listed[i]).0))
            && schemas[(space, listed[i].0)] == listed[i].1
    &&& forall|collection: Seq<char>| #[trigger]
        schemas.contains_key((space, collection)) ==> exists|i: int|
            0 <= i < listed.len() && (#[trigger] listed[i]).0 == collection
}

/// Whether changes are those retained for a space, in author and counter order.
pub open spec fn lists_changes(
    replicated: Map<ChangePlace, ChangeView>,
    space: SpaceId,
    listed: Seq<ChangeView>,
) -> bool {
    &&& forall|i: int, j: int|
        0 <= i < j < listed.len() ==> <ChangeId as Key>::before(
            (#[trigger] listed[i]).id,
            (#[trigger] listed[j]).id,
        )
    &&& forall|i: int|
        0 <= i < listed.len() ==> replicated.contains_key((space, (#[trigger] listed[i]).id))
            && replicated[(space, listed[i].id)] == listed[i]
    &&& forall|id: ChangeId| #[trigger]
        replicated.contains_key((space, id)) ==> exists|i: int|
            0 <= i < listed.len() && (#[trigger] listed[i]).id == id
}

/// The journal that compaction leaves.
pub open spec fn compacted(journal: Seq<JournalView>, retain: u64) -> Seq<JournalView> {
    let kept = if retain == 0 {
        1
    } else {
        retain as int
    };
    if journal.len() <= kept {
        journal
    } else {
        journal.skip(journal.len() - kept)
    }
}

/// Why the source schema of a migration is refused.
pub open spec fn source_refusal(
    found: Option<SchemaView>,
    collection: Seq<char>,
    expected: SchemaView,
) -> Option<ErrorView> {
    match found {
        Some(found) => if found == expected {
            None
        } else {
            Some(
                failure(
                    ErrorCode::InvalidData,
                    "cannot migrate collection '"@ + collection + "' from '"@ + expected.name
                        + "' version "@ + decimal_text(expected.version as nat)
                        + ": durable data is '"@ + found.name + "' version "@ + decimal_text(
                        found.version as nat,
                    ),
                ),
            )
        },
        None => Some(
            failure(
                ErrorCode::InvalidData,
                "collection '"@ + collection + "' has no durable source schema to migrate"@,
            ),
        ),
    }
}

/// Why a migration change does not carry its transformed document.
pub open spec fn transformed_refusal(
    space: SpaceId,
    collection: Seq<char>,
    schema: SchemaView,
    id: DocumentId,
    document: TransformedView,
) -> Option<ErrorView> {
    let operation = document.change.operation;
    if document.change.space != space {
        Some(failure(ErrorCode::InvalidInput, "a migration change targets another space"@))
    } else if operation.collection == collection && operation.document == id && operation.schema
        == schema.fingerprint && operation.payload == Some(document.payload) {
        None
    } else {
        Some(
            failure(
                ErrorCode::InvalidInput,
                "a migration change does not match its transformed document"@,
            ),
        )
    }
}

/// Why the first refused transformed document is refused.
pub open spec fn transforms_refusal(
    space: SpaceId,
    collection: Seq<char>,
    schema: SchemaView,
    listed: Seq<DocumentView>,
    transformed: Seq<TransformedView>,
    len: nat,
) -> Option<ErrorView>
    decreases len,
{
    if len == 0 {
        None
    } else {
        match transforms_refusal(
            space,
            collection,
            schema,
            listed,
            transformed,
            (len - 1) as nat,
        ) {
            Some(error) => Some(error),
            None => transformed_refusal(
                space,
                collection,
                schema,
                listed[len - 1].id,
                transformed[len - 1],
            ),
        }
    }
}

/// The mutations that a migration makes of transformed documents.
pub open spec fn migration_puts(
    collection: Seq<char>,
    schema: SchemaView,
    listed: Seq<DocumentView>,
    transformed: Seq<TransformedView>,
) -> Seq<MutationView> {
    Seq::new(
        listed.len(),
        |i: int|
            MutationView {
                collection,
                id: listed[i].id,
                payload: Some(transformed[i].payload),
                schema,
            },
    )
}

/// Why a migration cannot begin.
pub open spec fn migration_refusal(
    state: StoreView,
    space: SpaceId,
    collection: Seq<char>,
    from: SchemaView,
    to: SchemaView,
    since_epoch_ms: Option<u128>,
) -> Option<ErrorView> {
    if collection_refusal(collection) is Some {
        collection_refusal(collection)
    } else if from == to {
        Some(
            failure(
                ErrorCode::InvalidInput,
                "a migration must change the durable schema identity"@,
            ),
        )
    } else {
        match super::types::commit_time(since_epoch_ms) {
            Err(error) => Some(error),
            Ok(_) => source_refusal(
                recorded(state.schemas, (space, collection)),
                collection,
                from,
            ),
        }
    }
}

/// A migration of a collection's documents as one transaction, at a time.
pub open spec fn migrating(
    state: StoreView,
    space: SpaceId,
    collection: Seq<char>,
    to: SchemaView,
    transformed: Seq<TransformedView>,
    at: i64,
) -> Result<(Seq<DocumentView>, StoreView), ErrorView> {
    let listed = listing(state.documents, space, collection);
    match transforms_refusal(space, collection, to, listed, transformed, listed.len()) {
        Some(error) => Err(error),
        None => if frontier_of(state.journal) + listed.len() > 9223372036854775807 {
            Err(journal_full())
        } else {
            match appending(
                state.replicated,
                transformed.map_values(|document: TransformedView| document.change),
            ) {
                Err(error) => Err(error),
                Ok((replicated, _)) => {
                    let made = materializing(
                        state.documents,
                        state.journal,
                        space,
                        migration_puts(collection, to, listed, transformed),
                        at,
                    );
                    Ok(
                        (
                            Seq::new(
                                listed.len(),
                                |i: int|
                                    DocumentView {
                                        id: listed[i].id,
                                        payload: transformed[i].payload,
                                        sequence: made.applied[i].sequence,
                                    },
                            ),
                            StoreView {
                                documents: made.documents,
                                journal: made.journal,
                                schemas: state.schemas.insert((space, collection), to),
                                replicated,
                                ..state
                            },
                        ),
                    )
                },
            }
        },
    }
}

} // verus!
