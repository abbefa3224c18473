//! The tables of a store and the transactions on them.

use super::model::{
    appending, compacted, entry, frontier_of, journal_ascends, lemma_listing, listing, lists,
    lists_changes, lists_schemas, materializing, migrating, migration_puts, migration_refusal,
    names_refusal, recorded, recording, reserving, retaining, schema_refusal, source_refusal,
    stored_identifier, transformed_refusal, transforms_refusal, Appended, ChangePlace,
    CollectionPlace, DocumentPlace, RowView, StoreView,
};
use super::types::{
    applied_views, commit_time, commit_timestamp_ms, journal_views, mutation_views,
    transformed_views, AppliedMutation, AppliedView, ChangeKind, CompactionReport, DocumentView,
    JournalEntry, JournalView, MigratedDocument, Mutation, MutationView, SchemaView, StoreStatus,
    StoredDocument, StoredSchema, TransformedDocument, TransformedView,
};
use crate::bytes::{be, be_u128, be_value, from_be};
use crate::error::{failure, refusal, Error, ErrorCode, ErrorView, Result};
use crate::id::{id_text, DocumentId, ReplicaId, SpaceId};
use crate::ordmap::{ascending, Key, OrdMap};
use crate::schema::STORAGE_VERSION;
use crate::sync::change::{change_views, Change, ChangeId, ChangeView};
use crate::sync::replica::{collection_refusal, validate_collection};
use crate::text::{copy_bytes, decimal, decimal_text, owned, parse_number, same_bytes, same_text};
use vstd::prelude::*;
use vstd::string::*;

verus! {

/// The greatest number that a durable store keeps.
const MAX_STORED: u64 = 9_223_372_036_854_775_807;

/// A materialized document row.
#[derive(Debug, PartialEq, Eq)]
struct StoredRow {
    payload: Vec<u8>,
    sequence: u64,
}

impl View for StoredRow {
    type V = RowView;

    closed spec fn view(&self) -> RowView {
        RowView { payload: self.payload@, sequence: self.sequence }
    }
}

/// Durable state for one application: the content of its tables.
#[derive(Debug)]
pub struct SqliteStore {
    documents: OrdMap<(SpaceId, (String, DocumentId)), StoredRow>,
    journal: Vec<JournalEntry>,
    schemas: OrdMap<(SpaceId, String), StoredSchema>,
    replicated: OrdMap<(SpaceId, ChangeId), Change>,
    replica_id: Option<String>,
    default_space: Option<String>,
    counter: Option<String>,
}

/// The text of an optional value.
pub open spec fn optional_text(text: Option<String>) -> Option<Seq<char>> {
    match text {
        Some(text) => Some(text@),
        None => None,
    }
}

spec fn document_map(documents: OrdMap<(SpaceId, (String, DocumentId)), StoredRow>) -> Map<
    DocumentPlace,
    RowView,
> {
    documents@.map_values(|row: StoredRow| row@)
}

spec fn schema_map(schemas: OrdMap<(SpaceId, String), StoredSchema>) -> Map<
    CollectionPlace,
    SchemaView,
> {
    schemas@.map_values(|schema: StoredSchema| schema@)
}

spec fn change_map(changes: OrdMap<(SpaceId, ChangeId), Change>) -> Map<ChangePlace, ChangeView> {
    changes@.map_values(|change: Change| change@)
}

impl View for SqliteStore {
    type V = StoreView;

    closed spec fn view(&self) -> StoreView {
        StoreView {
            documents: document_map(self.documents),
            journal: journal_views(self.journal@),
            schemas: schema_map(self.schemas),
            replicated: change_map(self.replicated),
            replica_id: optional_text(self.replica_id),
            default_space: optional_text(self.default_space),
            counter: optional_text(self.counter),
        }
    }
}

/// Records the schema of a collection, or refuses another one.
fn ensure_schema(
    schemas: &mut OrdMap<(SpaceId, String), StoredSchema>,
    space: SpaceId,
    collection: &str,
    schema: &StoredSchema,
) -> (result: Result<()>)
    requires
        old(schemas).wf(),
    ensures
        final(schemas).wf(),
        refusal(result) == schema_refusal(
            recorded(schema_map(*old(schemas)), (space, collection@)),
            collection@,
            schema@,
        ),
        result is Ok ==> schema_map(*final(schemas)) == schema_map(*old(schemas)).insert(
            (space, collection@),
            schema@,
        ),
        result is Err ==> *final(schemas) == *old(schemas),
{
    let key = (space, owned(collection));
    match schemas.get(&key) {
        None => {
            let ghost before = schema_map(*schemas);
            let former = schemas.insert(key, schema.clone());
            assert(schema_map(*schemas) =~= before.insert((space, collection@), schema@));
            Ok(())
        },
        Some(found) => {
            if found.same(schema) {
                assert(schema_map(*schemas) =~= schema_map(*schemas).insert(
                    (space, collection@),
                    schema@,
                ));
                return Ok(());
            }
            let mut message = owned("collection '");
            message.append(collection);
            message.append("' contains schema '");
            message.append(found.name.as_str());
            message.append("' version ");
            message.append(decimal(found.version as u64).as_str());
            message.append(", but the application requested '");
            message.append(schema.name.as_str());
            message.append("' version ");
            message.append(decimal(schema.version as u64).as_str());
            message.append("; define and run an explicit migration");
            Err(Error::new(ErrorCode::InvalidData, message.as_str()))
        },
    }
}

proof fn lemma_first_schema_refusal(
    schemas: Map<CollectionPlace, SchemaView>,
    space: SpaceId,
    mutations: Seq<MutationView>,
    len: int,
)
    requires
        0 <= len <= mutations.len(),
        recording(schemas, space, mutations.take(len)) is Err,
    ensures
        recording(schemas, space, mutations) == recording(schemas, space, mutations.take(len)),
    decreases mutations.len() - len,
{
    if len < mutations.len() {
        assert(mutations.take(len + 1).drop_last() =~= mutations.take(len));
        lemma_first_schema_refusal(schemas, space, mutations, len + 1);
    } else {
        assert(mutations.take(len) =~= mutations);
    }
}

proof fn lemma_first_collision(
    replicated: Map<ChangePlace, ChangeView>,
    changes: Seq<ChangeView>,
    len: int,
)
    requires
        0 <= len <= changes.len(),
        retaining(replicated, changes.take(len)) is Err,
    ensures
        retaining(replicated, changes) == retaining(replicated, changes.take(len)),
    decreases changes.len() - len,
{
    if len < changes.len() {
        assert(changes.take(len + 1).drop_last() =~= changes.take(len));
        lemma_first_collision(replicated, changes, len + 1);
    } else {
        assert(changes.take(len) =~= changes);
    }
}

proof fn lemma_prefix_retained(
    replicated: Map<ChangePlace, ChangeView>,
    changes: Seq<ChangeView>,
    len: int,
)
    requires
        0 <= len <= changes.len(),
        retaining(replicated, changes) is Ok,
    ensures
        retaining(replicated, changes.take(len)) is Ok,
        retaining(replicated, changes.take(len))->Ok_0.1.len() == len,
        forall|i: int|
            0 <= i < len ==> retaining(replicated, changes.take(len))->Ok_0.1[i]
                == #[trigger] retaining(replicated, changes)->Ok_0.1[i],
        retaining(replicated, changes)->Ok_0.1.len() == changes.len(),
    decreases changes.len(),
{
    if len == changes.len() {
        assert(changes.take(len) =~= changes);
        if changes.len() > 0 {
            lemma_prefix_retained(replicated, changes.drop_last(), len - 1);
            assert(changes.drop_last().take(len - 1) =~= changes.drop_last());
        }
    } else {
        lemma_prefix_retained(replicated, changes.drop_last(), len);
        assert(changes.drop_last().take(len) =~= changes.take(len));
    }
}

proof fn lemma_materializing(
    documents: Map<DocumentPlace, RowView>,
    journal: Seq<JournalView>,
    space: SpaceId,
    mutations: Seq<MutationView>,
    at: i64,
)
    requires
        journal_ascends(journal),
        frontier_of(journal) + mutations.len() <= 9223372036854775807,
    ensures
        ({
            let made = materializing(documents, journal, space, mutations, at);
            &&& journal_ascends(made.journal)
            &&& frontier_of(journal) <= frontier_of(made.journal) <= frontier_of(journal)
                + mutations.len()
        }),
    decreases mutations.len(),
{
    if mutations.len() > 0 {
        let shorter = mutations.drop_last();
        lemma_materializing(documents, journal, space, shorter, at);
        let before = materializing(documents, journal, space, shorter, at);
        let made = materializing(documents, journal, space, mutations, at);
        assert forall|i: int, j: int| 0 <= i < j < made.journal.len() implies (
        #[trigger] made.journal[i]).sequence < (#[trigger] made.journal[j]).sequence by {
            if j < before.journal.len() {
                assert(before.journal[i].sequence < before.journal[j].sequence);
            } else if i < before.journal.len() - 1 {
                assert(before.journal[i].sequence < before.journal[before.journal.len()
                    - 1].sequence);
            }
        }
    }
}

/// Whether a commit's result and state are those of a model.
pub open spec fn reports(
    result: Result<(Vec<AppliedMutation>, Vec<bool>)>,
    after: StoreView,
    before: StoreView,
    model: core::result::Result<((Seq<AppliedView>, Seq<bool>), StoreView), ErrorView>,
) -> bool {
    match model {
        Ok((committed, state)) => {
            &&& result matches Ok(report)
            &&& applied_views(report.0@) == committed.0
            &&& report.1@ == committed.1
            &&& after == state
        },
        Err(error) => {
            &&& result matches Err(refused)
            &&& refused@ == error
            &&& after == before
        },
    }
}

impl SqliteStore {
    spec fn maps_wf(self) -> bool {
        &&& self.documents.wf()
        &&& self.schemas.wf()
        &&& self.replicated.wf()
    }

    /// The tables are well-formed and the journal's sequences ascend.
    pub closed spec fn wf(self) -> bool {
        &&& self.maps_wf()
        &&& self@.consistent()
    }

    /// A well-formed store is consistent.
    pub proof fn lemma_consistent(self)
        requires
            self.wf(),
        ensures
            self@.consistent(),
    {
    }

    /// Opens an independent empty store.
    pub fn open_in_memory() -> (store: Self)
        ensures
            store.wf(),
            store@ == (StoreView {
                documents: Map::empty(),
                journal: Seq::empty(),
                schemas: Map::empty(),
                replicated: Map::empty(),
                replica_id: None,
                default_space: None,
                counter: None,
            }),
    {
        let store = SqliteStore {
            documents: OrdMap::new(),
            journal: Vec::new(),
            schemas: OrdMap::new(),
            replicated: OrdMap::new(),
            replica_id: None,
            default_space: None,
            counter: None,
        };
        assert(store@.documents =~= Map::<DocumentPlace, RowView>::empty());
        assert(store@.journal =~= Seq::<JournalView>::empty());
        assert(store@.schemas =~= Map::<CollectionPlace, SchemaView>::empty());
        assert(store@.replicated =~= Map::<ChangePlace, ChangeView>::empty());
        store
    }

    /// Finds which replicated changes are new, or why one is refused.
    fn plan_replicated(&self, changes: &[Change]) -> (planned: Result<Vec<bool>>)
        requires
            self.wf(),
        ensures
            match appending(self@.replicated, change_views(changes@)) {
                Ok((_, inserted)) => planned matches Ok(flags) && flags@ == inserted,
                Err(error) => planned matches Err(refused) && refused@ == error,
            },
    {
        let ghost views = change_views(changes@);
        let ghost base = change_map(self.replicated);
        let mut index: usize = 0;
        while index < changes.len()
            invariant
                index <= changes@.len(),
                views == change_views(changes@),
                base == self@.replicated,
                forall|i: int|
                    0 <= i < index ==> (#[trigger] views[i]).id.counter <= 9223372036854775807,
            decreases changes@.len() - index,
        {
            assert(views[index as int] == changes@[index as int]@);
            if changes[index].id.counter > MAX_STORED {
                return Err(
                    Error::with_source(
                        ErrorCode::InvalidData,
                        "replicated change counter exceeds the durable format limit",
                        owned("out of range integral type conversion attempted"),
                    ),
                );
            }
            index += 1;
        }
        let mut pending: OrdMap<(SpaceId, ChangeId), Change> = OrdMap::new();
        let mut inserted: Vec<bool> = Vec::new();
        let mut next: usize = 0;
        proof {
            assert(views.take(0) =~= Seq::<ChangeView>::empty());
            assert(base.union_prefer_right(change_map(pending)) =~= base);
        }
        while next < changes.len()
            invariant
                self.wf(),
                next <= changes@.len(),
                views == change_views(changes@),
                base == self@.replicated,
                pending.wf(),
                !(exists|i: int|
                    0 <= i < views.len() && (#[trigger] views[i]).id.counter
                        > 9223372036854775807),
                retaining(base, views.take(next as int)) == Ok::<Appended, ErrorView>(
                    (base.union_prefer_right(change_map(pending)), inserted@),
                ),
            decreases changes@.len() - next,
        {
            let change = &changes[next];
            let ghost so_far = base.union_prefer_right(change_map(pending));
            let ghost place = (change.space, change.id);
            proof {
                assert(views[next as int] == change@);
                assert(views.take(next + 1).drop_last() =~= views.take(next as int));
                assert(views.take(next + 1).last() == change@);
            }
            let key = (change.space, change.id);
            let existing = match pending.get(&key) {
                Some(existing) => Some(existing),
                None => self.replicated.get(&key),
            };
            match existing {
                Some(existing) => {
                    assert(so_far.contains_key(place) && so_far[place] == existing@);
                    if existing.same(change) {
                        inserted.push(false);
                    } else {
                        let mut message = owned("replicated change ");
                        message.append(change.id.replica.to_string().as_str());
                        message.append(":");
                        message.append(decimal(change.id.counter).as_str());
                        message.append(" collides with different durable content");
                        proof {
                            lemma_first_collision(base, views, next + 1);
                        }
                        return Err(Error::new(ErrorCode::InvalidData, message.as_str()));
                    }
                },
                None => {
                    assert(!so_far.contains_key(place));
                    let former = pending.insert(key, change.clone());
                    proof {
                        assert(base.union_prefer_right(change_map(pending)) =~= so_far.insert(
                            place,
                            change@,
                        ));
                    }
                    inserted.push(true);
                },
            }
            next += 1;
        }
        assert(views.take(views.len() as int) =~= views);
        Ok(inserted)
    }

    /// Retains the changes that a plan found to be new.
    fn retain(&mut self, changes: &[Change], inserted: &Vec<bool>)
        requires
            old(self).wf(),
            retaining(old(self)@.replicated, change_views(changes@)) is Ok,
            retaining(old(self)@.replicated, change_views(changes@))->Ok_0.1 == inserted@,
        ensures
            final(self).wf(),
            final(self)@ == (StoreView {
                replicated: retaining(
                    old(self)@.replicated,
                    change_views(changes@),
                )->Ok_0.0,
                ..old(self)@
            }),
    {
        let ghost start = self@;
        let ghost base = self@.replicated;
        let ghost views = change_views(changes@);
        let mut index: usize = 0;
        proof {
            assert(views.take(0) =~= Seq::<ChangeView>::empty());
            lemma_prefix_retained(base, views, views.len() as int);
        }
        while index < changes.len()
            invariant
                index <= changes@.len(),
                views == change_views(changes@),
                inserted@.len() == views.len(),
                self.wf(),
                base == start.replicated,
                retaining(base, views) is Ok,
                retaining(base, views)->Ok_0.1 == inserted@,
                retaining(base, views.take(index as int)) is Ok,
                self@ == (StoreView {
                    replicated: retaining(base, views.take(index as int))->Ok_0.0,
                    ..start
                }),
            decreases changes@.len() - index,
        {
            let change = &changes[index];
            let ghost before = self@.replicated;
            proof {
                assert(views[index as int] == change@);
                assert(views.take(index + 1).drop_last() =~= views.take(index as int));
                assert(views.take(index + 1).last() == change@);
                lemma_prefix_retained(base, views, index + 1);
                lemma_prefix_retained(base, views, index as int);
                assert(retaining(base, views.take(index + 1))->Ok_0.1[index as int]
                    == retaining(base, views)->Ok_0.1[index as int]);
            }
            if inserted[index] {
                let former = self.replicated.insert((change.space, change.id), change.clone());
                assert(change_map(self.replicated) =~= before.insert(
                    (change.space, change.id),
                    change@,
                ));
            }
            index += 1;
        }
        assert(views.take(views.len() as int) =~= views);
    }

    /// Appends one journal row.
    fn append_change(
        &mut self,
        space: SpaceId,
        collection: &str,
        id: DocumentId,
        kind: ChangeKind,
        payload: Option<&Vec<u8>>,
        committed_at_ms: i64,
    ) -> (sequence: u64)
        requires
            old(self).wf(),
            frontier_of(old(self)@.journal) < 9223372036854775807,
        ensures
            final(self).wf(),
            sequence == frontier_of(old(self)@.journal) + 1,
            final(self)@ == (StoreView {
                journal: old(self)@.journal.push(
                    JournalView {
                        sequence,
                        space,
                        collection: collection@,
                        id,
                        kind,
                        payload: match payload {
                            Some(payload) => Some(payload@),
                            None => None,
                        },
                        committed_at_ms,
                    },
                ),
                ..old(self)@
            }),
    {
        let ghost before = journal_views(self.journal@);
        let sequence: u64 = self.frontier() + 1;
        let copied: Option<Vec<u8>> = match payload {
            Some(payload) => Some(copy_bytes(payload.as_slice())),
            None => None,
        };
        let row = JournalEntry {
            sequence,
            space,
            collection: owned(collection),
            id,
            kind,
            payload: copied,
            committed_at_ms,
        };
        let ghost shown = row@;
        self.journal.push(row);
        proof {
            let after = journal_views(self.journal@);
            assert(after =~= before.push(shown));
            assert forall|i: int, j: int| 0 <= i < j < after.len() implies (
            #[trigger] after[i]).sequence < (#[trigger] after[j]).sequence by {
                if j < before.len() {
                    assert(before[i].sequence < before[j].sequence);
                } else if i < before.len() - 1 {
                    assert(before[i].sequence < before[before.len() - 1].sequence);
                }
            }
        }
        sequence
    }

    /// Applies accepted mutations to documents and the journal.
    fn materialize(&mut self, space: SpaceId, mutations: &Vec<Mutation>, committed_at_ms: i64) -> (applied:
        Vec<AppliedMutation>)
        requires
            old(self).wf(),
            frontier_of(old(self)@.journal) + mutations@.len() <= 9223372036854775807,
        ensures
            final(self).wf(),
            ({
                let made = materializing(
                    old(self)@.documents,
                    old(self)@.journal,
                    space,
                    mutation_views(mutations@),
                    committed_at_ms,
                );
                &&& applied_views(applied@) == made.applied
                &&& final(self)@ == (StoreView {
                    documents: made.documents,
                    journal: made.journal,
                    ..old(self)@
                })
            }),
    {
        let ghost start = self@;
        let ghost views = mutation_views(mutations@);
        let mut applied: Vec<AppliedMutation> = Vec::new();
        let mut index: usize = 0;
        proof {
            assert(views.take(0) =~= Seq::<MutationView>::empty());
            assert(applied_views(applied@) =~= Seq::<AppliedView>::empty());
        }
        while index < mutations.len()
            invariant
                index <= mutations@.len(),
                views == mutation_views(mutations@),
                self.wf(),
                start.consistent(),
                frontier_of(start.journal) + mutations@.len() <= 9223372036854775807,
                ({
                    let made = materializing(
                        start.documents,
                        start.journal,
                        space,
                        views.take(index as int),
                        committed_at_ms,
                    );
                    &&& applied_views(applied@) == made.applied
                    &&& self@ == (StoreView {
                        documents: made.documents,
                        journal: made.journal,
                        ..start
                    })
                }),
            decreases mutations@.len() - index,
        {
            let ghost before = self@;
            let ghost reported = applied_views(applied@);
            proof {
                assert(views[index as int] == mutations@[index as int]@);
                assert(views.take(index + 1).drop_last() =~= views.take(index as int));
                assert(views.take(index + 1).last() == mutations@[index as int]@);
                lemma_materializing(
                    start.documents,
                    start.journal,
                    space,
                    views.take(index as int),
                    committed_at_ms,
                );
            }
            match &mutations[index] {
                Mutation::Put { collection, id, payload, schema } => {
                    let sequence = self.append_change(
                        space,
                        collection.as_str(),
                        *id,
                        ChangeKind::Put,
                        Some(payload),
                        committed_at_ms,
                    );
                    let row = StoredRow { payload: copy_bytes(payload.as_slice()), sequence };
                    let ghost shown = row@;
                    let former = self.documents.insert(
                        (space, (owned(collection.as_str()), *id)),
                        row,
                    );
                    applied.push(
                        AppliedMutation {
                            kind: ChangeKind::Put,
                            collection: owned(collection.as_str()),
                            id: *id,
                            sequence,
                        },
                    );
                    proof {
                        assert(document_map(self.documents) =~= before.documents.insert(
                            (space, (collection@, *id)),
                            shown,
                        ));
                        assert(applied_views(applied@) =~= reported.push(applied@.last()@));
                    }
                },
                Mutation::Delete { collection, id, schema } => {
                    let key = (space, (owned(collection.as_str()), *id));
                    let ghost documents = self.documents@;
                    match self.documents.remove(&key) {
                        None => {
                            assert(document_map(self.documents) =~= before.documents);
                            assert(self@ =~= before);
                        },
                        Some(former) => {
                            assert(document_map(self.documents) =~= before.documents.remove(
                                (space, (collection@, *id)),
                            ));
                            let sequence = self.append_change(
                                space,
                                collection.as_str(),
                                *id,
                                ChangeKind::Delete,
                                None,
                                committed_at_ms,
                            );
                            applied.push(
                                AppliedMutation {
                                    kind: ChangeKind::Delete,
                                    collection: owned(collection.as_str()),
                                    id: *id,
                                    sequence,
                                },
                            );
                            assert(applied_views(applied@) =~= reported.push(
                                applied@.last()@,
                            ));
                        },
                    }
                },
            }
            index += 1;
        }
        assert(views.take(views.len() as int) =~= views);
        applied
    }

    /// Commits mutations and replicated changes in one transaction.
    fn commit(
        &mut self,
        space: SpaceId,
        mutations: &Vec<Mutation>,
        changes: &[Change],
        committed_at_ms: i64,
    ) -> (result: Result<(Vec<AppliedMutation>, Vec<bool>)>)
        requires
            old(self).wf(),
        ensures
            final(self).wf(),
            reports(
                result,
                final(self)@,
                old(self)@,
                old(self)@.committed(
                    space,
                    mutation_views(mutations@),
                    change_views(changes@),
                    committed_at_ms,
                ),
            ),
    {
        let ghost start = self@;
        let ghost views = mutation_views(mutations@);
        let mut checked: usize = 0;
        while checked < mutations.len()
            invariant
                checked <= mutations@.len(),
                views == mutation_views(mutations@),
                *self == *old(self),
                self.wf(),
                start == self@,
                forall|i: int|
                    0 <= i < checked ==> collection_refusal(
                        (#[trigger] views[i]).collection,
                    ) is None,
            decreases mutations@.len() - checked,
        {
            assert(views[checked as int] == mutations@[checked as int]@);
            match validate_collection(mutations[checked].collection()) {
                Ok(_) => {},
                Err(error) => {
                    assert(names_refusal(views) == Some(error@));
                    return Err(error);
                },
            }
            checked += 1;
        }
        let mut schemas = self.schemas.clone();
        assert(schema_map(schemas) =~= start.schemas);
        let mut index: usize = 0;
        assert(views.take(0) =~= Seq::<MutationView>::empty());
        while index < mutations.len()
            invariant
                index <= mutations@.len(),
                views == mutation_views(mutations@),
                *self == *old(self),
                self.wf(),
                start == self@,
                names_refusal(views) is None,
                schemas.wf(),
                recording(start.schemas, space, views.take(index as int)) == Ok::<
                    Map<CollectionPlace, SchemaView>,
                    ErrorView,
                >(schema_map(schemas)),
            decreases mutations@.len() - index,
        {
            proof {
                assert(views[index as int] == mutations@[index as int]@);
                assert(views.take(index + 1).drop_last() =~= views.take(index as int));
                assert(views.take(index + 1).last() == mutations@[index as int]@);
            }
            let mutation = &mutations[index];
            match ensure_schema(&mut schemas, space, mutation.collection(), mutation.schema()) {
                Ok(_) => {},
                Err(error) => {
                    proof {
                        lemma_first_schema_refusal(start.schemas, space, views, index + 1);
                    }
                    return Err(error);
                },
            }
            index += 1;
        }
        assert(views.take(views.len() as int) =~= views);
        let frontier: u64 = self.frontier();
        if mutations.len() as u128 > (MAX_STORED - frontier) as u128 {
            return Err(
                Error::with_source(
                    ErrorCode::Storage,
                    "couldn't append a durable change",
                    owned("database or disk is full"),
                ),
            );
        }
        let inserted = match self.plan_replicated(changes) {
            Ok(inserted) => inserted,
            Err(error) => {
                return Err(error);
            },
        };
        self.schemas = schemas;
        let applied = self.materialize(space, mutations, committed_at_ms);
        self.retain(changes, &inserted);
        Ok((applied, inserted))
    }

    /// Atomically writes a document and its corresponding durable change.
    pub fn put(
        &mut self,
        space: SpaceId,
        collection: &str,
        id: DocumentId,
        payload: &[u8],
        since_epoch_ms: Option<u128>,
    ) -> (result: Result<u64>)
        requires
            old(self).wf(),
        ensures
            final(self).wf(),
            ({
                let mutation = MutationView {
                    collection: collection@,
                    id,
                    payload: Some(payload@),
                    schema: legacy(collection@),
                };
                match batch(old(self)@, space, seq![mutation], since_epoch_ms) {
                    Ok((_, after)) => {
                        &&& result matches Ok(sequence)
                        &&& sequence == frontier_of(old(self)@.journal) + 1
                        &&& final(self)@ == after
                    },
                    Err(error) => {
                        &&& result matches Err(refused)
                        &&& refused@ == error
                        &&& final(self)@ == old(self)@
                    },
                }
            }),
    {
        let ghost start = self@;
        let mut mutations: Vec<Mutation> = Vec::new();
        mutations.push(
            Mutation::Put {
                collection: owned(collection),
                id,
                payload: copy_bytes(payload),
                schema: legacy_schema(collection),
            },
        );
        proof {
            let mutation = MutationView {
                collection: collection@,
                id,
                payload: Some(payload@),
                schema: legacy(collection@),
            };
            assert(mutation_views(mutations@) =~= seq![mutation]);
            assert(seq![mutation].drop_last() =~= Seq::<MutationView>::empty());
            reveal_with_fuel(materializing, 2);
        }
        let ghost views = mutation_views(mutations@);
        let applied = self.apply_batch(space, mutations, since_epoch_ms)?;
        proof {
            let at = commit_time(since_epoch_ms)->Ok_0;
            reveal_with_fuel(materializing, 2);
            assert(views.drop_last() =~= Seq::<MutationView>::empty());
            let made = materializing(start.documents, start.journal, space, views, at);
            assert(made.applied.len() == 1);
            assert(applied_views(applied@) == made.applied);
            assert(applied_views(applied@)[0] == applied@[0]@);
        }
        Ok(applied[0].sequence)
    }

    /// Atomically deletes a document and records a durable tombstone change.
    pub fn delete(
        &mut self,
        space: SpaceId,
        collection: &str,
        id: DocumentId,
        since_epoch_ms: Option<u128>,
    ) -> (result: Result<Option<u64>>)
        requires
            old(self).wf(),
        ensures
            final(self).wf(),
            ({
                let mutation = MutationView {
                    collection: collection@,
                    id,
                    payload: None,
                    schema: legacy(collection@),
                };
                match batch(old(self)@, space, seq![mutation], since_epoch_ms) {
                    Ok((_, after)) => {
                        &&& result matches Ok(deleted)
                        &&& deleted == if old(self)@.documents.contains_key(
                            (space, (collection@, id)),
                        ) {
                            Some((frontier_of(old(self)@.journal) + 1) as u64)
                        } else {
                            None
                        }
                        &&& final(self)@ == after
                    },
                    Err(error) => {
                        &&& result matches Err(refused)
                        &&& refused@ == error
                        &&& final(self)@ == old(self)@
                    },
                }
            }),
    {
        let ghost start = self@;
        let mut mutations: Vec<Mutation> = Vec::new();
        mutations.push(
            Mutation::Delete { collection: owned(collection), id, schema: legacy_schema(collection) },
        );
        proof {
            let mutation = MutationView {
                collection: collection@,
                id,
                payload: None,
                schema: legacy(collection@),
            };
            assert(mutation_views(mutations@) =~= seq![mutation]);
            assert(seq![mutation].drop_last() =~= Seq::<MutationView>::empty());
            reveal_with_fuel(materializing, 2);
        }
        let applied = self.apply_batch(space, mutations, since_epoch_ms)?;
        if applied.len() == 0 {
            assert(applied_views(applied@).len() == 0);
            return Ok(None);
        }
        assert(applied_views(applied@)[0] == applied@[0]@);
        Ok(Some(applied[0].sequence))
    }

    /// Applies mutations as one atomic local transaction.
    ///
    /// Every returned mutation has been appended to the change log and applied
    /// to materialized state in the same commit. Deletes of absent documents are
    /// successful no-ops and are omitted from the returned list.
    pub fn apply_batch(
        &mut self,
        space: SpaceId,
        mutations: Vec<Mutation>,
        since_epoch_ms: Option<u128>,
    ) -> (result: Result<Vec<AppliedMutation>>)
        requires
            old(self).wf(),
        ensures
            final(self).wf(),
            match batch(old(self)@, space, mutation_views(mutations@), since_epoch_ms) {
                Ok((applied, after)) => {
                    &&& result matches Ok(report)
                    &&& applied_views(report@) == applied
                    &&& final(self)@ == after
                },
                Err(error) => {
                    &&& result matches Err(refused)
                    &&& refused@ == error
                    &&& final(self)@ == old(self)@
                },
            },
    {
        if mutations.len() == 0 {
            let none: Vec<AppliedMutation> = Vec::new();
            assert(applied_views(none@) =~= Seq::<AppliedView>::empty());
            return Ok(none);
        }
        let committed_at_ms: i64 = commit_timestamp_ms(since_epoch_ms)?;
        let none: Vec<Change> = Vec::new();
        proof {
            assert(change_views(none@) =~= Seq::<ChangeView>::empty());
        }
        let report = self.commit(space, &mutations, none.as_slice(), committed_at_ms)?;
        Ok(report.0)
    }

    /// Commits materialized mutations and their globally identified replica
    /// changes in one durable transaction.
    ///
    /// Every table rolls back together on error.
    pub fn commit_local(
        &mut self,
        space: SpaceId,
        mutations: Vec<Mutation>,
        replicated: &[Change],
        since_epoch_ms: Option<u128>,
    ) -> (result: Result<(Vec<AppliedMutation>, Vec<bool>)>)
        requires
            old(self).wf(),
        ensures
            final(self).wf(),
            reports(
                result,
                final(self)@,
                old(self)@,
                local_commit(
                    old(self)@,
                    space,
                    mutation_views(mutations@),
                    change_views(replicated@),
                    since_epoch_ms,
                ),
            ),
    {
        if mutations.len() != replicated.len() {
            return Err(
                Error::new(
                    ErrorCode::InvalidInput,
                    "local mutations and replicated changes must have equal lengths",
                ),
            );
        }
        if mutations.len() == 0 {
            let none: Vec<AppliedMutation> = Vec::new();
            assert(applied_views(none@) =~= Seq::<AppliedView>::empty());
            return Ok((none, Vec::new()));
        }
        if targets_another_space(replicated, space) {
            return Err(
                Error::new(
                    ErrorCode::InvalidInput,
                    "a local commit cannot contain changes for another space",
                ),
            );
        }
        let committed_at_ms: i64 = commit_timestamp_ms(since_epoch_ms)?;
        self.commit(space, &mutations, replicated, committed_at_ms)
    }

    /// Atomically retains remote changes and applies their visible
    /// materialized mutations.
    ///
    /// Unlike [`Self::commit_local`], the number of visible mutations may be
    /// smaller than the number of retained changes because duplicates and
    /// losing concurrent writes do not alter materialized state.
    pub fn commit_remote(
        &mut self,
        space: SpaceId,
        mutations: Vec<Mutation>,
        replicated: &[Change],
        since_epoch_ms: Option<u128>,
    ) -> (result: Result<(Vec<AppliedMutation>, Vec<bool>)>)
        requires
            old(self).wf(),
        ensures
            final(self).wf(),
            reports(
                result,
                final(self)@,
                old(self)@,
                remote_commit(
                    old(self)@,
                    space,
                    mutation_views(mutations@),
                    change_views(replicated@),
                    since_epoch_ms,
                ),
            ),
    {
        if targets_another_space(replicated, space) {
            return Err(
                Error::new(
                    ErrorCode::InvalidInput,
                    "a remote commit cannot contain changes for another space",
                ),
            );
        }
        if replicated.len() == 0 {
            let none: Vec<AppliedMutation> = Vec::new();
            assert(applied_views(none@) =~= Seq::<AppliedView>::empty());
            return Ok((none, Vec::new()));
        }
        let committed_at_ms: i64 = commit_timestamp_ms(since_epoch_ms)?;
        self.commit(space, &mutations, replicated, committed_at_ms)
    }

    /// Atomically retains globally identified changes for later reconciliation.
    ///
    /// The returned vector contains `true` for newly inserted changes and
    /// `false` for exact duplicates. Reusing an existing change ID with
    /// different content rejects and rolls back the complete batch.
    pub fn append_replicated(&mut self, changes: &[Change]) -> (result: Result<Vec<bool>>)
        requires
            old(self).wf(),
        ensures
            final(self).wf(),
            match appending(old(self)@.replicated, change_views(changes@)) {
                Ok((replicated, inserted)) => {
                    &&& result matches Ok(flags)
                    &&& flags@ == inserted
                    &&& final(self)@ == (StoreView { replicated, ..old(self)@ })
                },
                Err(error) => {
                    &&& result matches Err(refused)
                    &&& refused@ == error
                    &&& final(self)@ == old(self)@
                },
            },
    {
        let inserted = match self.plan_replicated(changes) {
            Ok(inserted) => inserted,
            Err(error) => {
                return Err(error);
            },
        };
        self.retain(changes, &inserted);
        Ok(inserted)
    }

    /// Verifies or records the durable schema for a typed collection.
    pub fn ensure_collection_schema(
        &mut self,
        space: SpaceId,
        collection: &str,
        schema: &StoredSchema,
    ) -> (result: Result<()>)
        requires
            old(self).wf(),
        ensures
            final(self).wf(),
            refusal(result) == if collection_refusal(collection@) is Some {
                collection_refusal(collection@)
            } else {
                schema_refusal(
                    recorded(old(self)@.schemas, (space, collection@)),
                    collection@,
                    schema@,
                )
            },
            final(self)@ == if result is Ok {
                StoreView {
                    schemas: old(self)@.schemas.insert((space, collection@), schema@),
                    ..old(self)@
                }
            } else {
                old(self)@
            },
    {
        validate_collection(collection)?;
        ensure_schema(&mut self.schemas, space, collection, schema)
    }

    /// Returns the greatest local change sequence, or zero for an empty store.
    pub fn frontier(&self) -> (frontier: u64)
        requires
            self.wf(),
        ensures
            frontier == frontier_of(self@.journal),
            frontier <= 9223372036854775807,
    {
        let len: usize = self.journal.len();
        if len == 0 {
            return 0;
        }
        assert(self@.journal[len - 1] == self.journal@[len - 1]@);
        self.journal[len - 1].sequence
    }

    /// Retrieves one document from its local materialized collection.
    pub fn get(&self, space: SpaceId, collection: &str, id: DocumentId) -> (found: Result<
        Option<StoredDocument>,
    >)
        requires
            self.wf(),
        ensures
            match found {
                Err(error) => collection_refusal(collection@) == Some(error@),
                Ok(found) => {
                    let place = (space, (collection@, id));
                    &&& collection_refusal(collection@) is None
                    &&& match found {
                        Some(document) => {
                            &&& self@.documents.contains_key(place)
                            &&& document@ == (DocumentView {
                                id,
                                payload: self@.documents[place].payload,
                                sequence: self@.documents[place].sequence,
                            })
                        },
                        None => !self@.documents.contains_key(place),
                    }
                },
            },
    {
        validate_collection(collection)?;
        let key = (space, (owned(collection), id));
        match self.documents.get(&key) {
            None => Ok(None),
            Some(row) => Ok(
                Some(
                    StoredDocument {
                        id,
                        payload: copy_bytes(row.payload.as_slice()),
                        sequence: row.sequence,
                    },
                ),
            ),
        }
    }

    /// Lists a collection in stable document-ID order.
    pub fn list(&self, space: SpaceId, collection: &str) -> (listed: Result<Vec<StoredDocument>>)
        requires
            self.wf(),
        ensures
            match listed {
                Err(error) => collection_refusal(collection@) == Some(error@),
                Ok(listed) => {
                    let documents = listed@.map_values(|document: StoredDocument| document@);
                    &&& collection_refusal(collection@) is None
                    &&& lists(self@.documents, space, collection@, documents)
                    &&& documents == listing(self@.documents, space, collection@)
                },
            },
    {
        validate_collection(collection)?;
        Ok(self.list_valid(space, collection))
    }

    fn list_valid(&self, space: SpaceId, collection: &str) -> (listed: Vec<StoredDocument>)
        requires
            self.wf(),
        ensures
            lists(
                self@.documents,
                space,
                collection@,
                listed@.map_values(|document: StoredDocument| document@),
            ),
            listed@.map_values(|document: StoredDocument| document@) == listing(
                self@.documents,
                space,
                collection@,
            ),
    {
        let ghost keys = self.documents.keys();
        let mut listed: Vec<StoredDocument> = Vec::new();
        let mut index: usize = 0;
        proof {
            self.documents.lemma_keys();
        }
        while index < self.documents.len()
            invariant
                self.wf(),
                keys == self.documents.keys(),
                index <= keys.len(),
                ascending::<(SpaceId, (String, DocumentId))>(keys),
                forall|i: int|
                    0 <= i < listed@.len() ==> document_map(self.documents).contains_key(
                        (space, (collection@, (#[trigger] listed@[i]).id)),
                    ) && document_map(self.documents)[(space, (collection@, listed@[i].id))] == (
                    RowView { payload: listed@[i].payload@, sequence: listed@[i].sequence }),
                forall|i: int|
                    0 <= i < listed@.len() ==> exists|k: int|
                        0 <= k < index && #[trigger] keys[k] == (
                            space,
                            (collection@, (#[trigger] listed@[i]).id),
                        ),
                forall|i: int, j: int|
                    0 <= i < j < listed@.len() ==> (#[trigger] listed@[i]).id.0 < (
                    #[trigger] listed@[j]).id.0,
                forall|k: int|
                    0 <= k < index && (#[trigger] keys[k]).0 == space && keys[k].1.0
                        == collection@ ==> exists|i: int|
                        0 <= i < listed@.len() && (#[trigger] listed@[i]).id == keys[k].1.1,
            decreases keys.len() - index,
        {
            let key = self.documents.key_at(index);
            assert(key@ == keys[index as int]);
            let ghost before = listed@;
            if key.0 == space && same_text(key.1.0.as_str(), collection) {
                let row = self.documents.value_at(index);
                listed.push(
                    StoredDocument {
                        id: key.1.1,
                        payload: copy_bytes(row.payload.as_slice()),
                        sequence: row.sequence,
                    },
                );
                proof {
                    let last = before.len() as int;
                    assert(keys[index as int] == (space, (collection@, listed@[last].id)));
                    assert forall|i: int| 0 <= i < last implies (#[trigger] listed@[i]).id.0
                        < listed@[last].id.0 by {
                        assert(listed@[i] == before[i]);
                        let k = choose|k: int|
                            0 <= k < index && #[trigger] keys[k] == (
                                space,
                                (collection@, before[i].id),
                            );
                        assert(<(SpaceId, (String, DocumentId)) as Key>::before(
                            keys[k],
                            keys[index as int],
                        ));
                        String::ordered(collection@, collection@, collection@);
                    }
                }
            }
            proof {
                assert forall|k: int|
                    0 <= k < index + 1 && (#[trigger] keys[k]).0 == space && keys[k].1.0
                        == collection@ implies exists|i: int|
                    0 <= i < listed@.len() && (#[trigger] listed@[i]).id == keys[k].1.1 by {
                    if k < index {
                        let i = choose|i: int|
                            0 <= i < before.len() && (#[trigger] before[i]).id == keys[k].1.1;
                        assert(listed@[i] == before[i]);
                    } else {
                        assert(listed@[before.len() as int].id == keys[k].1.1);
                    }
                }
            }
            index += 1;
        }
        proof {
            let documents = listed@.map_values(|document: StoredDocument| document@);
            assert forall|id: DocumentId| #[trigger]
                self@.documents.contains_key((space, (collection@, id))) implies exists|i: int|
                0 <= i < documents.len() && (#[trigger] documents[i]).id == id by {
                let place = (space, (collection@, id));
                assert(self.documents@.contains_key(place));
                assert(keys.contains(place));
                let k = choose|k: int| 0 <= k < keys.len() && keys[k] == place;
                assert(keys[k].0 == space);
                let i = choose|i: int|
                    0 <= i < listed@.len() && (#[trigger] listed@[i]).id == keys[k].1.1;
                assert(documents[i].id == id);
            }
            assert forall|i: int| 0 <= i < documents.len() implies self@.documents.contains_key(
                (space, (collection@, (#[trigger] documents[i]).id)),
            ) && self@.documents[(space, (collection@, documents[i].id))] == (RowView {
                payload: documents[i].payload,
                sequence: documents[i].sequence,
            }) by {
                assert(documents[i] == listed@[i]@);
            }
            assert forall|i: int, j: int| 0 <= i < j < documents.len() implies (
            #[trigger] documents[i]).id.0 < (#[trigger] documents[j]).id.0 by {
                assert(listed@[i].id.0 < listed@[j].id.0);
            }
            lemma_listing(self@.documents, space, collection@, documents);
        }
        listed
    }
}

impl SqliteStore {
    /// Lists current collection names and schema fingerprints for a space.
    pub fn collection_schemas(&self, space: SpaceId) -> (listed: Vec<(String, StoredSchema)>)
        requires
            self.wf(),
        ensures
            lists_schemas(
                self@.schemas,
                space,
                listed@.map_values(|entry: (String, StoredSchema)| (entry.0@, entry.1@)),
            ),
    {
        let ghost keys = self.schemas.keys();
        let mut listed: Vec<(String, StoredSchema)> = Vec::new();
        let mut index: usize = 0;
        proof {
            self.schemas.lemma_keys();
        }
        while index < self.schemas.len()
            invariant
                self.wf(),
                keys == self.schemas.keys(),
                index <= keys.len(),
                ascending::<(SpaceId, String)>(keys),
                forall|i: int|
                    0 <= i < listed@.len() ==> schema_map(self.schemas).contains_key(
                        (space, (#[trigger] listed@[i]).0@),
                    ) && schema_map(self.schemas)[(space, listed@[i].0@)] == listed@[i].1@,
                forall|i: int|
                    0 <= i < listed@.len() ==> exists|k: int|
                        0 <= k < index && #[trigger] keys[k] == (
                            space,
                            (#[trigger] listed@[i]).0@,
                        ),
                forall|i: int, j: int|
                    0 <= i < j < listed@.len() ==> <String as Key>::before(
                        (#[trigger] listed@[i]).0@,
                        (#[trigger] listed@[j]).0@,
                    ),
                forall|k: int|
                    0 <= k < index && (#[trigger] keys[k]).0 == space ==> exists|i: int|
                        0 <= i < listed@.len() && (#[trigger] listed@[i]).0@ == keys[k].1,
            decreases keys.len() - index,
        {
            let key = self.schemas.key_at(index);
            assert(key@ == keys[index as int]);
            let ghost before = listed@;
            if key.0 == space {
                let schema = self.schemas.value_at(index);
                listed.push((owned(key.1.as_str()), schema.clone()));
                proof {
                    let last = before.len() as int;
                    assert(keys[index as int] == (space, listed@[last].0@));
                    assert forall|i: int| 0 <= i < last implies <String as Key>::before(
                        (#[trigger] listed@[i]).0@,
                        listed@[last].0@,
                    ) by {
                        assert(listed@[i] == before[i]);
                        let k = choose|k: int|
                            0 <= k < index && #[trigger] keys[k] == (space, before[i].0@);
                        assert(<(SpaceId, String) as Key>::before(keys[k], keys[index as int]));
                    }
                }
            }
            proof {
                assert forall|k: int| 0 <= k < index + 1 && (#[trigger] keys[k]).0 == space implies exists|
                    i: int,
                |
                    0 <= i < listed@.len() && (#[trigger] listed@[i]).0@ == keys[k].1 by {
                    if k < index {
                        let i = choose|i: int|
                            0 <= i < before.len() && (#[trigger] before[i]).0@ == keys[k].1;
                        assert(listed@[i] == before[i]);
                    } else {
                        assert(listed@[before.len() as int].0@ == keys[k].1);
                    }
                }
            }
            index += 1;
        }
        proof {
            let shown = listed@.map_values(
                |entry: (String, StoredSchema)| (entry.0@, entry.1@),
            );
            assert forall|collection: Seq<char>| #[trigger]
                self@.schemas.contains_key((space, collection)) implies exists|i: int|
                0 <= i < shown.len() && (#[trigger] shown[i]).0 == collection by {
                let place = (space, collection);
                assert(self.schemas@.contains_key(place));
                assert(keys.contains(place));
                let k = choose|k: int| 0 <= k < keys.len() && keys[k] == place;
                assert(keys[k].0 == space);
                let i = choose|i: int|
                    0 <= i < listed@.len() && (#[trigger] listed@[i]).0@ == keys[k].1;
                assert(shown[i].0 == collection);
            }
            assert forall|i: int| 0 <= i < shown.len() implies self@.schemas.contains_key(
                (space, (#[trigger] shown[i]).0),
            ) && self@.schemas[(space, shown[i].0)] == shown[i].1 by {
                assert(shown[i].0 == listed@[i].0@ && shown[i].1 == listed@[i].1@);
            }
            assert forall|i: int, j: int| 0 <= i < j < shown.len() implies <String as Key>::before(
                (#[trigger] shown[i]).0,
                (#[trigger] shown[j]).0,
            ) by {
                assert(<String as Key>::before(listed@[i].0@, listed@[j].0@));
            }
        }
        listed
    }

    /// Loads every retained change for `space` in stable author/counter order.
    pub fn replicated_changes(&self, space: SpaceId) -> (listed: Vec<Change>)
        requires
            self.wf(),
        ensures
            lists_changes(self@.replicated, space, change_views(listed@)),
    {
        let ghost keys = self.replicated.keys();
        let mut listed: Vec<Change> = Vec::new();
        let mut index: usize = 0;
        proof {
            self.replicated.lemma_keys();
        }
        while index < self.replicated.len()
            invariant
                self.wf(),
                keys == self.replicated.keys(),
                index <= keys.len(),
                ascending::<(SpaceId, ChangeId)>(keys),
                forall|i: int|
                    0 <= i < listed@.len() ==> change_map(self.replicated).contains_key(
                        (space, (#[trigger] listed@[i]).id),
                    ) && change_map(self.replicated)[(space, listed@[i].id)] == listed@[i]@,
                forall|i: int|
                    0 <= i < listed@.len() ==> exists|k: int|
                        0 <= k < index && #[trigger] keys[k] == (
                            space,
                            (#[trigger] listed@[i]).id,
                        ),
                forall|i: int, j: int|
                    0 <= i < j < listed@.len() ==> <ChangeId as Key>::before(
                        (#[trigger] listed@[i]).id,
                        (#[trigger] listed@[j]).id,
                    ),
                forall|k: int|
                    0 <= k < index && (#[trigger] keys[k]).0 == space ==> exists|i: int|
                        0 <= i < listed@.len() && (#[trigger] listed@[i]).id == keys[k].1,
            decreases keys.len() - index,
        {
            let key = self.replicated.key_at(index);
            assert(key@ == keys[index as int]);
            let ghost before = listed@;
            if key.0 == space {
                let change = self.replicated.value_at(index);
                assert(self@.replicated.contains_key(keys[index as int]));
                assert(self@.replicated[keys[index as int]] == change@);
                listed.push(change.clone());
                proof {
                    let last = before.len() as int;
                    assert(listed@[last]@ == change@);
                    assert(keys[index as int] == (space, listed@[last].id));
                    assert forall|i: int| 0 <= i < last implies <ChangeId as Key>::before(
                        (#[trigger] listed@[i]).id,
                        listed@[last].id,
                    ) by {
                        assert(listed@[i] == before[i]);
                        let k = choose|k: int|
                            0 <= k < index && #[trigger] keys[k] == (space, before[i].id);
                        assert(<(SpaceId, ChangeId) as Key>::before(keys[k], keys[index as int]));
                    }
                }
            }
            proof {
                assert forall|k: int| 0 <= k < index + 1 && (#[trigger] keys[k]).0 == space implies exists|
                    i: int,
                |
                    0 <= i < listed@.len() && (#[trigger] listed@[i]).id == keys[k].1 by {
                    if k < index {
                        let i = choose|i: int|
                            0 <= i < before.len() && (#[trigger] before[i]).id == keys[k].1;
                        assert(listed@[i] == before[i]);
                    } else {
                        assert(listed@[before.len() as int].id == keys[k].1);
                    }
                }
            }
            index += 1;
        }
        proof {
            let shown = change_views(listed@);
            assert forall|id: ChangeId| #[trigger]
                self@.replicated.contains_key((space, id)) implies exists|i: int|
                0 <= i < shown.len() && (#[trigger] shown[i]).id == id by {
                let place = (space, id);
                assert(self.replicated@.contains_key(place));
                assert(keys.contains(place));
                let k = choose|k: int| 0 <= k < keys.len() && keys[k] == place;
                assert(keys[k].0 == space);
                let i = choose|i: int|
                    0 <= i < listed@.len() && (#[trigger] listed@[i]).id == keys[k].1;
                assert(shown[i].id == id);
            }
            assert forall|i: int| 0 <= i < shown.len() implies self@.replicated.contains_key(
                (space, (#[trigger] shown[i]).id),
            ) && self@.replicated[(space, shown[i].id)] == shown[i] by {
                assert(shown[i] == listed@[i]@);
            }
            assert forall|i: int, j: int| 0 <= i < j < shown.len() implies <ChangeId as Key>::before(
                (#[trigger] shown[i]).id,
                (#[trigger] shown[j]).id,
            ) by {
                assert(<ChangeId as Key>::before(listed@[i].id, listed@[j].id));
            }
        }
        listed
    }

    /// Reports durable local state together with the database's integrity
    /// check.
    pub fn status(&self, integrity: String) -> (status: StoreStatus)
        requires
            self.wf(),
        ensures
            status.frontier == frontier_of(self@.journal),
            status.documents == self@.documents.len(),
            status.changes == self@.journal.len(),
            status.replicated_changes == self@.replicated.len(),
            status.integrity == integrity,
    {
        proof {
            self.documents.lemma_keys();
            self.replicated.lemma_keys();
            assert(self@.documents.dom() =~= self.documents@.dom());
            assert(self@.replicated.dom() =~= self.replicated@.dom());
        }
        StoreStatus {
            frontier: self.frontier(),
            documents: self.documents.len() as u64,
            changes: self.journal.len() as u64,
            replicated_changes: self.replicated.len() as u64,
            integrity,
        }
    }

    /// Bounds the redundant local diagnostic journal while preserving all
    /// replication history and the latest local sequence.
    ///
    /// At least one journal row is retained for a non-empty database so local
    /// sequence numbers remain monotonic across restarts. Replicated changes,
    /// including causal deletes, are never removed by this operation.
    pub fn compact_local_journal(&mut self, retain: u64) -> (report: Result<CompactionReport>)
        requires
            old(self).wf(),
        ensures
            final(self).wf(),
            match report {
                Ok(report) => {
                    &&& retain <= 9223372036854775807
                    &&& final(self)@ == (StoreView {
                        journal: compacted(old(self)@.journal, retain),
                        ..old(self)@
                    })
                    &&& report.changes_before == old(self)@.journal.len()
                    &&& report.changes_after == final(self)@.journal.len()
                    &&& report.changes_after <= report.changes_before
                    &&& report.replicated_changes == old(self)@.replicated.len()
                },
                Err(error) => {
                    &&& retain > 9223372036854775807
                    &&& final(self)@ == old(self)@
                    &&& error@ == (ErrorView {
                        code: ErrorCode::InvalidInput,
                        message: "the journal retention exceeds SQLite's supported range"@,
                        source: Some("out of range integral type conversion attempted"@),
                    })
                },
            },
    {
        let ghost before = self@.journal;
        proof {
            self.replicated.lemma_keys();
            assert(self@.replicated.dom() =~= self.replicated@.dom());
        }
        let changes_before: usize = self.journal.len();
        let replicated_changes: u64 = self.replicated.len() as u64;
        let kept: u64 = if retain == 0 {
            1
        } else {
            retain
        };
        if kept > MAX_STORED {
            return Err(
                Error::with_source(
                    ErrorCode::InvalidInput,
                    "the journal retention exceeds SQLite's supported range",
                    owned("out of range integral type conversion attempted"),
                ),
            );
        }
        if changes_before as u64 > kept {
            let start: usize = changes_before - kept as usize;
            let rest = self.journal.split_off(start);
            self.journal = rest;
            proof {
                assert(journal_views(self.journal@) =~= before.skip(start as int));
                let after = journal_views(self.journal@);
                assert forall|i: int, j: int| 0 <= i < j < after.len() implies (
                #[trigger] after[i]).sequence < (#[trigger] after[j]).sequence by {
                    assert(before[start + i].sequence < before[start + j].sequence);
                }
                assert forall|i: int| 0 <= i < after.len() implies 1 <= (
                #[trigger] after[i]).sequence <= 9223372036854775807 by {
                    assert(before[start + i].sequence >= 1);
                }
            }
        }
        Ok(
            CompactionReport {
                changes_before: changes_before as u64,
                changes_after: self.journal.len() as u64,
                replicated_changes,
            },
        )
    }

    /// Returns the store's stable local replica identity, creating it once.
    pub fn replica_id(&mut self) -> (replica: Result<ReplicaId>)
        requires
            old(self).wf(),
        ensures
            final(self).wf(),
            match old(self)@.replica_id {
                Some(text) => {
                    &&& final(self)@ == old(self)@
                    &&& match stored_identifier(
                        text,
                        "the stored replica identity is invalid"@,
                    ) {
                        Ok(value) => replica == Ok::<ReplicaId, Error>(ReplicaId(value)),
                        Err(error) => replica matches Err(refused) && refused@ == error,
                    }
                },
                None => {
                    &&& replica matches Ok(created)
                    &&& final(self)@ == (StoreView {
                        replica_id: Some(id_text(created.0)),
                        ..old(self)@
                    })
                },
            },
    {
        match &self.replica_id {
            Some(text) => match ReplicaId::parse(text.as_str()) {
                Ok(replica) => Ok(replica),
                Err(error) => Err(
                    Error::with_source(
                        ErrorCode::InvalidData,
                        "the stored replica identity is invalid",
                        owned(error.message()),
                    ),
                ),
            },
            None => {
                let replica = ReplicaId::new();
                self.replica_id = Some(replica.to_string());
                Ok(replica)
            },
        }
    }

    /// Durably reserves the next contiguous block of merge-operation counters.
    ///
    /// The returned pair is `(previous_high_water, new_high_water)`, suitable
    /// for a reserved merge-operation actor. Gaps after a crash are intentional
    /// and safe; counters are never reused.
    pub fn reserve_crdt_counters(&mut self, size: u64) -> (block: Result<(u64, u64)>)
        requires
            old(self).wf(),
        ensures
            final(self).wf(),
            match reserving(old(self)@.counter, size) {
                Ok((previous, next)) => {
                    &&& block == Ok::<(u64, u64), Error>((previous as u64, next as u64))
                    &&& final(self)@ == (StoreView {
                        counter: Some(decimal_text(next)),
                        ..old(self)@
                    })
                },
                Err(error) => {
                    &&& block matches Err(refused)
                    &&& refused@ == error
                    &&& final(self)@ == old(self)@
                },
            },
    {
        if size == 0 {
            return Err(
                Error::new(
                    ErrorCode::InvalidInput,
                    "a counter reservation must contain at least one operation",
                ),
            );
        }
        let found: &str = match &self.counter {
            Some(text) => text.as_str(),
            None => "0",
        };
        let previous: u64 = match parse_number(found) {
            Ok(previous) => previous,
            Err(error) => {
                return Err(
                    Error::with_source(
                        ErrorCode::InvalidData,
                        "the CRDT counter high-water is malformed",
                        owned(error.message()),
                    ),
                );
            },
        };
        let next: u64 = match previous.checked_add(size) {
            Some(next) => next,
            None => {
                return Err(
                    Error::new(
                        ErrorCode::InvalidData,
                        "the CRDT operation counter is exhausted",
                    ),
                );
            },
        };
        self.counter = Some(decimal(next));
        Ok((previous, next))
    }

    /// Returns the store's default space, creating it on first use.
    pub fn default_space(&mut self) -> (space: Result<SpaceId>)
        requires
            old(self).wf(),
        ensures
            final(self).wf(),
            match old(self)@.default_space {
                Some(text) => {
                    &&& final(self)@ == old(self)@
                    &&& match stored_identifier(
                        text,
                        "the stored default space identifier is invalid"@,
                    ) {
                        Ok(value) => space == Ok::<SpaceId, Error>(SpaceId(value)),
                        Err(error) => space matches Err(refused) && refused@ == error,
                    }
                },
                None => {
                    &&& space matches Ok(created)
                    &&& final(self)@ == (StoreView {
                        default_space: Some(id_text(created.0)),
                        ..old(self)@
                    })
                },
            },
    {
        match &self.default_space {
            Some(text) => match SpaceId::parse(text.as_str()) {
                Ok(space) => Ok(space),
                Err(error) => Err(
                    Error::with_source(
                        ErrorCode::InvalidData,
                        "the stored default space identifier is invalid",
                        owned(error.message()),
                    ),
                ),
            },
            None => {
                let space = SpaceId::new();
                self.default_space = Some(space.to_string());
                Ok(space)
            },
        }
    }

    /// Binds a new store to `space`, or verifies its existing binding.
    pub fn bind_default_space(&mut self, space: SpaceId) -> (result: Result<()>)
        requires
            old(self).wf(),
        ensures
            final(self).wf(),
            match old(self)@.default_space {
                Some(text) => {
                    &&& final(self)@ == old(self)@
                    &&& refusal(result) == match stored_identifier(
                        text,
                        "the stored default space identifier is invalid"@,
                    ) {
                        Ok(found) => if found == space.0 {
                            None
                        } else {
                            Some(
                                failure(
                                    ErrorCode::InvalidInput,
                                    "store belongs to space "@ + id_text(found)
                                        + ", not requested space "@ + id_text(space.0),
                                ),
                            )
                        },
                        Err(error) => Some(error),
                    }
                },
                None => {
                    &&& result is Ok
                    &&& final(self)@ == (StoreView {
                        default_space: Some(id_text(space.0)),
                        ..old(self)@
                    })
                },
            },
    {
        match &self.default_space {
            Some(text) => match SpaceId::parse(text.as_str()) {
                Ok(found) => {
                    if found == space {
                        Ok(())
                    } else {
                        let mut message = owned("store belongs to space ");
                        message.append(found.to_string().as_str());
                        message.append(", not requested space ");
                        message.append(space.to_string().as_str());
                        Err(Error::new(ErrorCode::InvalidInput, message.as_str()))
                    }
                },
                Err(error) => Err(
                    Error::with_source(
                        ErrorCode::InvalidData,
                        "the stored default space identifier is invalid",
                        owned(error.message()),
                    ),
                ),
            },
            None => {
                self.default_space = Some(space.to_string());
                Ok(())
            },
        }
    }

    /// Checks that a migration can begin and gives the documents to transform,
    /// in document-ID order.
    ///
    /// The source descriptor must exactly match the recorded schema; migrations
    /// cannot skip an unknown intermediate version.
    pub fn migration_source(
        &self,
        space: SpaceId,
        collection: &str,
        from: &StoredSchema,
        to: &StoredSchema,
        since_epoch_ms: Option<u128>,
    ) -> (source: Result<Vec<StoredDocument>>)
        requires
            self.wf(),
        ensures
            match source {
                Ok(documents) => {
                    &&& migration_refusal(
                        self@,
                        space,
                        collection@,
                        from@,
                        to@,
                        since_epoch_ms,
                    ) is None
                    &&& documents@.map_values(|document: StoredDocument| document@) == listing(
                        self@.documents,
                        space,
                        collection@,
                    )
                    &&& lists(
                        self@.documents,
                        space,
                        collection@,
                        documents@.map_values(|document: StoredDocument| document@),
                    )
                },
                Err(error) => migration_refusal(
                    self@,
                    space,
                    collection@,
                    from@,
                    to@,
                    since_epoch_ms,
                ) == Some(error@),
            },
    {
        validate_collection(collection)?;
        if from.same(to) {
            return Err(
                Error::new(
                    ErrorCode::InvalidInput,
                    "a migration must change the durable schema identity",
                ),
            );
        }
        match commit_timestamp_ms(since_epoch_ms) {
            Ok(_) => {},
            Err(error) => {
                return Err(error);
            },
        }
        self.require_schema(space, collection, from)?;
        Ok(self.list_valid(space, collection))
    }

    fn require_schema(&self, space: SpaceId, collection: &str, expected: &StoredSchema) -> (result:
        Result<()>)
        requires
            self.wf(),
        ensures
            refusal(result) == source_refusal(
                recorded(self@.schemas, (space, collection@)),
                collection@,
                expected@,
            ),
    {
        let key = (space, owned(collection));
        match self.schemas.get(&key) {
            Some(found) => {
                if found.same(expected) {
                    return Ok(());
                }
                let mut message = owned("cannot migrate collection '");
                message.append(collection);
                message.append("' from '");
                message.append(expected.name.as_str());
                message.append("' version ");
                message.append(decimal(expected.version as u64).as_str());
                message.append(": durable data is '");
                message.append(found.name.as_str());
                message.append("' version ");
                message.append(decimal(found.version as u64).as_str());
                Err(Error::new(ErrorCode::InvalidData, message.as_str()))
            },
            None => {
                let mut message = owned("collection '");
                message.append(collection);
                message.append("' has no durable source schema to migrate");
                Err(Error::new(ErrorCode::InvalidData, message.as_str()))
            },
        }
    }

    /// Atomically replaces every payload in a collection by its transformed
    /// payload and advances the collection's durable schema identity.
    ///
    /// A logical put change is appended for each transformed document, and the
    /// replicated changes that carry them are retained. An error rolls back
    /// every payload and metadata update.
    pub fn migrate_documents(
        &mut self,
        space: SpaceId,
        collection: &str,
        from: &StoredSchema,
        to: &StoredSchema,
        transformed: Vec<TransformedDocument>,
        since_epoch_ms: Option<u128>,
    ) -> (result: Result<Vec<MigratedDocument>>)
        requires
            old(self).wf(),
            transformed@.len() == listing(old(self)@.documents, space, collection@).len(),
        ensures
            final(self).wf(),
            match migration_refusal(
                old(self)@,
                space,
                collection@,
                from@,
                to@,
                since_epoch_ms,
            ) {
                Some(error) => {
                    &&& result matches Err(refused)
                    &&& refused@ == error
                    &&& final(self)@ == old(self)@
                },
                None => match migrating(
                    old(self)@,
                    space,
                    collection@,
                    to@,
                    transformed_views(transformed@),
                    commit_time(since_epoch_ms)->Ok_0,
                ) {
                    Ok((migrated, after)) => {
                        &&& result matches Ok(report)
                        &&& report@.map_values(|document: MigratedDocument| document@) == migrated
                        &&& final(self)@ == after
                    },
                    Err(error) => {
                        &&& result matches Err(refused)
                        &&& refused@ == error
                        &&& final(self)@ == old(self)@
                    },
                },
            },
            result is Ok ==> forall|place: CollectionPlace|
                place != (space, collection@) ==> #[trigger] recorded(
                    final(self)@.schemas,
                    place,
                ) == recorded(old(self)@.schemas, place),
            result is Ok ==> recorded(final(self)@.schemas, (space, collection@)) == Some(to@),
    {
        let ghost start = self@;
        let documents = match self.migration_source(space, collection, from, to, since_epoch_ms) {
            Ok(documents) => documents,
            Err(error) => {
                return Err(error);
            },
        };
        let committed_at_ms: i64 = match commit_timestamp_ms(since_epoch_ms) {
            Ok(committed_at_ms) => committed_at_ms,
            Err(error) => {
                return Err(error);
            },
        };
        let ghost listed = listing(start.documents, space, collection@);
        let ghost views = transformed_views(transformed@);
        let mut puts: Vec<Mutation> = Vec::new();
        let mut changes: Vec<Change> = Vec::new();
        let mut index: usize = 0;
        while index < documents.len()
            invariant
                index <= documents@.len() == listed.len() == transformed@.len(),
                *self == *old(self),
                start == self@,
                self.wf(),
                listed == documents@.map_values(|document: StoredDocument| document@),
                listed == listing(start.documents, space, collection@),
                views == transformed_views(transformed@),
                migration_refusal(start, space, collection@, from@, to@, since_epoch_ms) is None,
                transforms_refusal(space, collection@, to@, listed, views, index as nat) is None,
                puts@.len() == index,
                changes@.len() == index,
                forall|i: int|
                    0 <= i < index ==> (#[trigger] puts@[i])@ == (MutationView {
                        collection: collection@,
                        id: listed[i].id,
                        payload: Some(views[i].payload),
                        schema: to@,
                    }),
                forall|i: int| 0 <= i < index ==> (#[trigger] changes@[i])@ == views[i].change,
            decreases documents@.len() - index,
        {
            let document = &transformed[index];
            assert(listed[index as int] == documents@[index as int]@);
            assert(views[index as int] == document@);
            match validate_migration_change(
                space,
                collection,
                to,
                documents[index].id,
                document.payload.as_slice(),
                &document.change,
            ) {
                Ok(_) => {},
                Err(error) => {
                    proof {
                        lemma_first_transform_refusal(
                            space,
                            collection@,
                            to@,
                            listed,
                            views,
                            (index + 1) as nat,
                            listed.len(),
                        );
                    }
                    return Err(error);
                },
            }
            puts.push(
                Mutation::Put {
                    collection: owned(collection),
                    id: documents[index].id,
                    payload: copy_bytes(document.payload.as_slice()),
                    schema: to.clone(),
                },
            );
            changes.push(document.change.clone());
            index += 1;
        }
        proof {
            assert(mutation_views(puts@) =~= migration_puts(collection@, to@, listed, views));
            assert(change_views(changes@) =~= views.map_values(
                |document: TransformedView| document.change,
            ));
        }
        let frontier: u64 = self.frontier();
        if puts.len() as u128 > (MAX_STORED - frontier) as u128 {
            return Err(
                Error::with_source(
                    ErrorCode::Storage,
                    "couldn't append a durable change",
                    owned("database or disk is full"),
                ),
            );
        }
        let inserted = match self.plan_replicated(changes.as_slice()) {
            Ok(inserted) => inserted,
            Err(error) => {
                return Err(error);
            },
        };
        let applied = self.materialize(space, &puts, committed_at_ms);
        let ghost materialized = self@;
        let former = self.schemas.insert((space, owned(collection)), to.clone());
        proof {
            assert(schema_map(self.schemas) =~= start.schemas.insert((space, collection@), to@));
            lemma_puts_apply(
                start.documents,
                start.journal,
                space,
                mutation_views(puts@),
                committed_at_ms,
            );
        }
        self.retain(changes.as_slice(), &inserted);
        let mut migrated: Vec<MigratedDocument> = Vec::new();
        let mut reported: usize = 0;
        while reported < transformed.len()
            invariant
                reported <= transformed@.len() == listed.len() == documents@.len(),
                applied@.len() == transformed@.len(),
                listed == documents@.map_values(|document: StoredDocument| document@),
                views == transformed_views(transformed@),
                migrated@.len() == reported,
                forall|i: int|
                    0 <= i < reported ==> (#[trigger] migrated@[i])@ == (DocumentView {
                        id: listed[i].id,
                        payload: views[i].payload,
                        sequence: applied@[i].sequence,
                    }),
            decreases transformed@.len() - reported,
        {
            assert(listed[reported as int] == documents@[reported as int]@);
            assert(views[reported as int] == transformed@[reported as int]@);
            migrated.push(
                MigratedDocument {
                    id: documents[reported].id,
                    payload: copy_bytes(transformed[reported].payload.as_slice()),
                    sequence: applied[reported].sequence,
                },
            );
            reported += 1;
        }
        proof {
            let made = materializing(
                start.documents,
                start.journal,
                space,
                migration_puts(collection@, to@, listed, views),
                committed_at_ms,
            );
            let expected = Seq::new(
                listed.len(),
                |i: int|
                    DocumentView {
                        id: listed[i].id,
                        payload: views[i].payload,
                        sequence: made.applied[i].sequence,
                    },
            );
            let shown = migrated@.map_values(|document: MigratedDocument| document@);
            assert forall|i: int| 0 <= i < shown.len() implies shown[i] == expected[i] by {
                assert(applied_views(applied@)[i] == applied@[i]@);
                assert(shown[i] == migrated@[i]@);
            }
            assert(shown =~= expected);
        }
        Ok(migrated)
    }

    /// Atomically transforms every payload in a collection and advances its
    /// durable schema identity.
    ///
    /// `transform` is called for each document in document-ID order until it
    /// refuses one; nothing is written before every document is transformed.
    pub fn migrate_collection<F: Fn(&StoredDocument) -> Result<TransformedDocument>>(
        &mut self,
        space: SpaceId,
        collection: &str,
        from: &StoredSchema,
        to: &StoredSchema,
        transform: F,
        since_epoch_ms: Option<u128>,
    ) -> (result: Result<Vec<MigratedDocument>>)
        requires
            old(self).wf(),
            forall|document: &StoredDocument| call_requires(transform, (document,)),
        ensures
            final(self).wf(),
            result is Err ==> final(self)@ == old(self)@,
            migration_refusal(
                old(self)@,
                space,
                collection@,
                from@,
                to@,
                since_epoch_ms,
            ) matches Some(error) ==> result matches Err(refused) && refused@ == error,
            result matches Ok(report) ==> exists|
                documents: Seq<StoredDocument>,
                transformed: Seq<TransformedDocument>,
            |
                {
                    &&& documents.map_values(|document: StoredDocument| document@) == listing(
                        old(self)@.documents,
                        space,
                        collection@,
                    )
                    &&& #[trigger] transforms_all(transform, documents, transformed)
                    &&& migrating(
                        old(self)@,
                        space,
                        collection@,
                        to@,
                        transformed_views(transformed),
                        commit_time(since_epoch_ms)->Ok_0,
                    ) == Ok::<(Seq<DocumentView>, StoreView), ErrorView>(
                        (
                            report@.map_values(|document: MigratedDocument| document@),
                            final(self)@,
                        ),
                    )
                },
            result matches Err(refused) ==> migration_refusal(
                old(self)@,
                space,
                collection@,
                from@,
                to@,
                since_epoch_ms,
            ) == Some(refused@) || exists|
                documents: Seq<StoredDocument>,
                transformed: Seq<TransformedDocument>,
            |
                {
                    &&& documents.map_values(|document: StoredDocument| document@) == listing(
                        old(self)@.documents,
                        space,
                        collection@,
                    )
                    &&& #[trigger] transforms_first(transform, documents, transformed)
                    &&& migration_stops(
                        transform,
                        old(self)@,
                        space,
                        collection@,
                        to@,
                        commit_time(since_epoch_ms)->Ok_0,
                        documents,
                        transformed,
                        refused,
                    )
                },
    {
        let ghost start = self@;
        let documents = match self.migration_source(space, collection, from, to, since_epoch_ms) {
            Ok(documents) => documents,
            Err(error) => {
                return Err(error);
            },
        };
        let ghost listed = documents@.map_values(|document: StoredDocument| document@);
        let mut transformed: Vec<TransformedDocument> = Vec::new();
        let mut index: usize = 0;
        while index < documents.len()
            invariant
                index <= documents@.len(),
                *self == *old(self),
                forall|document: &StoredDocument| call_requires(transform, (document,)),
                migration_refusal(
                    old(self)@,
                    space,
                    collection@,
                    from@,
                    to@,
                    since_epoch_ms,
                ) is None,
                old(self).wf(),
                listed == documents@.map_values(|document: StoredDocument| document@),
                listed == listing(old(self)@.documents, space, collection@),
                transformed@.len() == index,
                transforms_first(transform, documents@, transformed@),
                transforms_refusal(
                    space,
                    collection@,
                    to@,
                    listed,
                    transformed_views(transformed@),
                    index as nat,
                ) is None,
            decreases documents@.len() - index,
        {
            let document = &documents[index];
            let ghost views = transformed_views(transformed@);
            let next = match transform(document) {
                Ok(next) => next,
                Err(error) => {
                    return Err(error);
                },
            };
            let checked = validate_migration_change(
                space,
                collection,
                to,
                document.id,
                next.payload.as_slice(),
                &next.change,
            );
            let ghost given = next;
            transformed.push(next);
            index += 1;
            proof {
                let longer = transformed_views(transformed@);
                assert(longer =~= views.push(given@));
                lemma_transforms_refusal_prefix(
                    space,
                    collection@,
                    to@,
                    listed,
                    views,
                    longer,
                    views.len(),
                );
                assert(listed[index - 1] == documents@[index - 1]@);
                assert forall|i: int| 0 <= i < transformed@.len() implies call_ensures(
                    transform,
                    (&documents@[i],),
                    Ok(#[trigger] transformed@[i]),
                ) by {}
                assert(transforms_first(transform, documents@, transformed@));
            }
            match checked {
                Ok(_) => {},
                Err(error) => {
                    return Err(error);
                },
            }
        }
        assert(transforms_all(transform, documents@, transformed@));
        assert(documents@.map_values(|document: StoredDocument| document@).len()
            == transformed@.len());
        self.migrate_documents(space, collection, from, to, transformed, since_epoch_ms)
    }
}

/// Whether a function gives a transformed document for each of the first
/// documents.
pub open spec fn transforms_first<F: Fn(&StoredDocument) -> Result<TransformedDocument>>(
    transform: F,
    documents: Seq<StoredDocument>,
    transformed: Seq<TransformedDocument>,
) -> bool {
    &&& transformed.len() <= documents.len()
    &&& forall|i: int|
        0 <= i < transformed.len() ==> call_ensures(
            transform,
            (&documents[i],),
            Ok(#[trigger] transformed[i]),
        )
}

/// Whether a migration stops with an error after the first documents were
/// transformed: the function refuses the next document, or gave a change that
/// does not carry the last one, or all of them cannot be written.
pub open spec fn migration_stops<F: Fn(&StoredDocument) -> Result<TransformedDocument>>(
    transform: F,
    state: StoreView,
    space: SpaceId,
    collection: Seq<char>,
    to: SchemaView,
    at: i64,
    documents: Seq<StoredDocument>,
    transformed: Seq<TransformedDocument>,
    error: Error,
) -> bool {
    let listed = documents.map_values(|document: StoredDocument| document@);
    let views = transformed_views(transformed);
    let len = transformed.len();
    ||| {
        &&& len < documents.len()
        &&& transforms_refusal(space, collection, to, listed, views, len) is None
        &&& call_ensures(transform, (&documents[len as int],), Err(error))
    }
    ||| {
        &&& len > 0
        &&& transforms_refusal(space, collection, to, listed, views, (len - 1) as nat) is None
        &&& transformed_refusal(space, collection, to, listed[len - 1].id, views[len - 1]) == Some(
            error@,
        )
    }
    ||| {
        &&& len == documents.len()
        &&& transforms_refusal(space, collection, to, listed, views, len) is None
        &&& migrating(state, space, collection, to, views, at) == Err::<
            (Seq<DocumentView>, StoreView),
            ErrorView,
        >(error@)
    }
}

/// Whether the first documents are refused does not depend on later ones.
proof fn lemma_transforms_refusal_prefix(
    space: SpaceId,
    collection: Seq<char>,
    schema: SchemaView,
    listed: Seq<DocumentView>,
    shorter: Seq<TransformedView>,
    longer: Seq<TransformedView>,
    len: nat,
)
    requires
        len <= shorter.len() <= longer.len(),
        forall|i: int| 0 <= i < len ==> (#[trigger] shorter[i]) == longer[i],
    ensures
        transforms_refusal(space, collection, schema, listed, shorter, len) == transforms_refusal(
            space,
            collection,
            schema,
            listed,
            longer,
            len,
        ),
    decreases len,
{
    if len > 0 {
        lemma_transforms_refusal_prefix(
            space,
            collection,
            schema,
            listed,
            shorter,
            longer,
            (len - 1) as nat,
        );
    }
}

/// Whether a function gives a transformed document for each document.
pub open spec fn transforms_all<F: Fn(&StoredDocument) -> Result<TransformedDocument>>(
    transform: F,
    documents: Seq<StoredDocument>,
    transformed: Seq<TransformedDocument>,
) -> bool {
    &&& transformed.len() == documents.len()
    &&& forall|i: int|
        0 <= i < documents.len() ==> call_ensures(
            transform,
            (&documents[i],),
            Ok(#[trigger] transformed[i]),
        )
}

proof fn lemma_first_transform_refusal(
    space: SpaceId,
    collection: Seq<char>,
    schema: SchemaView,
    listed: Seq<DocumentView>,
    transformed: Seq<TransformedView>,
    len: nat,
    more: nat,
)
    requires
        len <= more,
        transforms_refusal(space, collection, schema, listed, transformed, len) is Some,
    ensures
        transforms_refusal(space, collection, schema, listed, transformed, more)
            == transforms_refusal(space, collection, schema, listed, transformed, len),
    decreases more,
{
    if len < more {
        lemma_first_transform_refusal(
            space,
            collection,
            schema,
            listed,
            transformed,
            len,
            (more - 1) as nat,
        );
    }
}

/// Every put is applied.
proof fn lemma_puts_apply(
    documents: Map<DocumentPlace, RowView>,
    journal: Seq<JournalView>,
    space: SpaceId,
    mutations: Seq<MutationView>,
    at: i64,
)
    requires
        forall|i: int| 0 <= i < mutations.len() ==> (#[trigger] mutations[i]).payload is Some,
    ensures
        materializing(documents, journal, space, mutations, at).applied.len() == mutations.len(),
    decreases mutations.len(),
{
    if mutations.len() > 0 {
        let shorter = mutations.drop_last();
        assert forall|i: int| 0 <= i < shorter.len() implies (
        #[trigger] shorter[i]).payload is Some by {
            assert(shorter[i] == mutations[i]);
        }
        lemma_puts_apply(documents, journal, space, shorter, at);
        assert(mutations[mutations.len() - 1].payload is Some);
    }
}

/// Checks that a change carries a transformed document.
fn validate_migration_change(
    space: SpaceId,
    collection: &str,
    schema: &StoredSchema,
    document: DocumentId,
    payload: &[u8],
    change: &Change,
) -> (result: Result<()>)
    ensures
        refusal(result) == transformed_refusal(
            space,
            collection@,
            schema@,
            document,
            (TransformedView { payload: payload@, change: change@ }),
        ),
{
    if change.space != space {
        return Err(
            Error::new(ErrorCode::InvalidInput, "a migration change targets another space"),
        );
    }
    let carried = match change.operation.payload() {
        Some(changed) => same_bytes(changed.as_slice(), payload),
        None => false,
    };
    if carried && same_text(change.operation.collection(), collection)
        && change.operation.document() == document && change.operation.schema()
        == schema.fingerprint {
        Ok(())
    } else {
        Err(
            Error::new(
                ErrorCode::InvalidInput,
                "a migration change does not match its transformed document",
            ),
        )
    }
}

/// Why a durable format version is refused.
pub open spec fn version_refusal(found: Option<Seq<char>>) -> Option<ErrorView> {
    match found {
        None => None,
        Some(version) => if version == decimal_text(1) {
            None
        } else {
            Some(
                failure(
                    ErrorCode::InvalidData,
                    "storage version "@ + version
                        + " is not supported by this Cyrene build (expected "@ + decimal_text(1)
                        + ")"@,
                ),
            )
        },
    }
}

/// Accepts the durable format version that a database records.
///
/// Returns whether the version is still to be recorded.
pub fn check_storage_version(found: Option<&str>) -> (record: Result<bool>)
    ensures
        match record {
            Ok(record) => {
                &&& version_refusal(crate::text::optional(found)) is None
                &&& record == (found is None)
            },
            Err(error) => version_refusal(crate::text::optional(found)) == Some(error@),
        },
{
    let current = decimal(STORAGE_VERSION as u64);
    match found {
        None => Ok(true),
        Some(version) => {
            if same_text(version, current.as_str()) {
                return Ok(false);
            }
            let mut message = owned("storage version ");
            message.append(version);
            message.append(" is not supported by this Cyrene build (expected ");
            message.append(current.as_str());
            message.append(")");
            Err(Error::new(ErrorCode::InvalidData, message.as_str()))
        },
    }
}

/// Reads a document identity from its sixteen stored bytes.
pub fn document_id_from_bytes(bytes: &[u8]) -> (id: Result<DocumentId>)
    ensures
        match id {
            Ok(id) => bytes@.len() == 16 && id.0 == be_value(bytes@),
            Err(error) => bytes@.len() != 16 && error@ == failure(
                ErrorCode::InvalidData,
                "a stored document identifier has an invalid length"@,
            ),
        },
{
    if bytes.len() != 16 {
        return Err(
            Error::new(
                ErrorCode::InvalidData,
                "a stored document identifier has an invalid length",
            ),
        );
    }
    Ok(DocumentId::from_u128(from_be(bytes)))
}

/// Writes the sixteen stored bytes of an identity.
pub fn id_bytes(id: u128) -> (bytes: Vec<u8>)
    ensures
        bytes@ == be(id as nat, 16),
{
    be_u128(id, 16)
}

/// Reads a schema fingerprint from its eight stored bytes.
pub fn fingerprint_from_bytes(collection: &str, bytes: &[u8]) -> (fingerprint: Result<u64>)
    ensures
        match fingerprint {
            Ok(fingerprint) => bytes@.len() == 8 && fingerprint == be_value(bytes@),
            Err(error) => bytes@.len() != 8 && error@ == failure(
                ErrorCode::InvalidData,
                "collection '"@ + collection@ + "' has a malformed schema fingerprint"@,
            ),
        },
{
    if bytes.len() != 8 {
        let mut message = owned("collection '");
        message.append(collection);
        message.append("' has a malformed schema fingerprint");
        return Err(Error::new(ErrorCode::InvalidData, message.as_str()));
    }
    Ok(from_be(bytes) as u64)
}

impl SqliteStore {
    /// Restores the metadata texts of a database.
    pub fn restore_metadata(
        &mut self,
        replica_id: Option<String>,
        default_space: Option<String>,
        counter: Option<String>,
    )
        requires
            old(self).wf(),
        ensures
            final(self).wf(),
            final(self)@ == (StoreView {
                replica_id: optional_text(replica_id),
                default_space: optional_text(default_space),
                counter: optional_text(counter),
                ..old(self)@
            }),
    {
        self.replica_id = replica_id;
        self.default_space = default_space;
        self.counter = counter;
    }

    /// Restores one document row.
    pub fn restore_document(
        &mut self,
        space: SpaceId,
        collection: String,
        id: DocumentId,
        payload: Vec<u8>,
        sequence: u64,
    )
        requires
            old(self).wf(),
        ensures
            final(self).wf(),
            final(self)@ == (StoreView {
                documents: old(self)@.documents.insert(
                    (space, (collection@, id)),
                    RowView { payload: payload@, sequence },
                ),
                ..old(self)@
            }),
    {
        let ghost before = self@.documents;
        let ghost place = (space, (collection@, id));
        let row = StoredRow { payload, sequence };
        let ghost shown = row@;
        let former = self.documents.insert((space, (collection, id)), row);
        assert(document_map(self.documents) =~= before.insert(place, shown));
    }

    /// Restores one journal row, which comes after those restored before it.
    pub fn restore_change(&mut self, row: JournalEntry) -> (result: Result<()>)
        requires
            old(self).wf(),
        ensures
            final(self).wf(),
            match result {
                Ok(_) => {
                    &&& frontier_of(old(self)@.journal) < row.sequence <= 9223372036854775807
                    &&& final(self)@ == (StoreView {
                        journal: old(self)@.journal.push(row@),
                        ..old(self)@
                    })
                },
                Err(error) => {
                    &&& row.sequence <= frontier_of(old(self)@.journal) || row.sequence
                        > 9223372036854775807
                    &&& final(self)@ == old(self)@
                    &&& error@ == failure(
                        ErrorCode::Storage,
                        "change sequence is outside the valid range"@,
                    )
                },
            },
    {
        if row.sequence <= self.frontier() || row.sequence > MAX_STORED {
            return Err(
                Error::new(ErrorCode::Storage, "change sequence is outside the valid range"),
            );
        }
        let ghost before = journal_views(self.journal@);
        let ghost shown = row@;
        self.journal.push(row);
        proof {
            let after = journal_views(self.journal@);
            assert(after =~= before.push(shown));
            assert forall|i: int, j: int| 0 <= i < j < after.len() implies (
            #[trigger] after[i]).sequence < (#[trigger] after[j]).sequence by {
                if j < before.len() {
                    assert(before[i].sequence < before[j].sequence);
                } else if i < before.len() - 1 {
                    assert(before[i].sequence < before[before.len() - 1].sequence);
                }
            }
        }
        Ok(())
    }

    /// Restores the recorded schema of a collection.
    pub fn restore_schema(&mut self, space: SpaceId, collection: String, schema: StoredSchema)
        requires
            old(self).wf(),
        ensures
            final(self).wf(),
            final(self)@ == (StoreView {
                schemas: old(self)@.schemas.insert((space, collection@), schema@),
                ..old(self)@
            }),
    {
        let ghost before = self@.schemas;
        let ghost place = (space, collection@);
        let former = self.schemas.insert((space, collection), schema);
        assert(schema_map(self.schemas) =~= before.insert(place, schema@));
    }

    /// Restores one retained change from the space that it is stored under.
    pub fn restore_replicated(&mut self, space: SpaceId, change: Change) -> (result: Result<()>)
        requires
            old(self).wf(),
        ensures
            final(self).wf(),
            match result {
                Ok(_) => {
                    &&& change.space == space
                    &&& final(self)@ == (StoreView {
                        replicated: old(self)@.replicated.insert((space, change.id), change@),
                        ..old(self)@
                    })
                },
                Err(error) => {
                    &&& change.space != space
                    &&& final(self)@ == old(self)@
                    &&& error@ == failure(
                        ErrorCode::InvalidData,
                        "a retained replicated change is stored under the wrong space"@,
                    )
                },
            },
    {
        if change.space != space {
            return Err(
                Error::new(
                    ErrorCode::InvalidData,
                    "a retained replicated change is stored under the wrong space",
                ),
            );
        }
        let ghost before = self@.replicated;
        let ghost place = (space, change.id);
        let ghost shown = change@;
        let former = self.replicated.insert((space, change.id), change);
        assert(change_map(self.replicated) =~= before.insert(place, shown));
        Ok(())
    }

    /// Returns the journal rows in sequence order.
    pub fn journal(&self) -> (journal: &Vec<JournalEntry>)
        ensures
            journal_views(journal@) == self@.journal,
    {
        &self.journal
    }

    /// Returns the text of the recorded replica identity.
    pub fn replica_text(&self) -> (text: Option<&str>)
        ensures
            match text {
                Some(text) => self@.replica_id == Some(text@),
                None => self@.replica_id is None,
            },
    {
        match &self.replica_id {
            Some(text) => Some(text.as_str()),
            None => None,
        }
    }

    /// Returns the text of the recorded default space.
    pub fn default_space_text(&self) -> (text: Option<&str>)
        ensures
            match text {
                Some(text) => self@.default_space == Some(text@),
                None => self@.default_space is None,
            },
    {
        match &self.default_space {
            Some(text) => Some(text.as_str()),
            None => None,
        }
    }

    /// Returns the text of the greatest reserved merge-operation counter.
    pub fn counter_text(&self) -> (text: Option<&str>)
        ensures
            match text {
                Some(text) => self@.counter == Some(text@),
                None => self@.counter is None,
            },
    {
        match &self.counter {
            Some(text) => Some(text.as_str()),
            None => None,
        }
    }
}

/// The schema identity of a collection without a typed one.
pub open spec fn legacy(collection: Seq<char>) -> SchemaView {
    SchemaView { name: "cyrene.untyped."@ + collection, version: 1, fingerprint: 0 }
}

fn legacy_schema(collection: &str) -> (schema: StoredSchema)
    ensures
        schema@ == legacy(collection@),
{
    let mut name = owned("cyrene.untyped.");
    name.append(collection);
    StoredSchema { name, version: 1, fingerprint: 0 }
}

/// Whether a change belongs to another space.
fn targets_another_space(changes: &[Change], space: SpaceId) -> (found: bool)
    ensures
        found == super::model::crosses_spaces(change_views(changes@), space),
{
    let ghost views = change_views(changes@);
    let mut index: usize = 0;
    while index < changes.len()
        invariant
            index <= changes@.len(),
            views == change_views(changes@),
            forall|i: int| 0 <= i < index ==> (#[trigger] views[i]).space == space,
        decreases changes@.len() - index,
    {
        assert(views[index as int] == changes@[index as int]@);
        if changes[index].space != space {
            return true;
        }
        index += 1;
    }
    false
}

/// Mutations applied as one atomic local transaction.
pub open spec fn batch(
    state: StoreView,
    space: SpaceId,
    mutations: Seq<MutationView>,
    since_epoch_ms: Option<u128>,
) -> core::result::Result<(Seq<AppliedView>, StoreView), ErrorView> {
    if mutations.len() == 0 {
        Ok((Seq::empty(), state))
    } else {
        match commit_time(since_epoch_ms) {
            Err(error) => Err(error),
            Ok(at) => state.mutated(space, mutations, at),
        }
    }
}

/// A commit of local mutations and their replicated changes.
pub open spec fn local_commit(
    state: StoreView,
    space: SpaceId,
    mutations: Seq<MutationView>,
    changes: Seq<ChangeView>,
    since_epoch_ms: Option<u128>,
) -> core::result::Result<((Seq<AppliedView>, Seq<bool>), StoreView), ErrorView> {
    if mutations.len() != changes.len() {
        Err(
            failure(
                ErrorCode::InvalidInput,
                "local mutations and replicated changes must have equal lengths"@,
            ),
        )
    } else if mutations.len() == 0 {
        Ok(((Seq::empty(), Seq::empty()), state))
    } else if super::model::crosses_spaces(changes, space) {
        Err(
            failure(
                ErrorCode::InvalidInput,
                "a local commit cannot contain changes for another space"@,
            ),
        )
    } else {
        match commit_time(since_epoch_ms) {
            Err(error) => Err(error),
            Ok(at) => state.committed(space, mutations, changes, at),
        }
    }
}

/// A commit of remote changes and their visible mutations.
pub open spec fn remote_commit(
    state: StoreView,
    space: SpaceId,
    mutations: Seq<MutationView>,
    changes: Seq<ChangeView>,
    since_epoch_ms: Option<u128>,
) -> core::result::Result<((Seq<AppliedView>, Seq<bool>), StoreView), ErrorView> {
    if super::model::crosses_spaces(changes, space) {
        Err(
            failure(
                ErrorCode::InvalidInput,
                "a remote commit cannot contain changes for another space"@,
            ),
        )
    } else if changes.len() == 0 {
        Ok(((Seq::empty(), Seq::empty()), state))
    } else {
        match commit_time(since_epoch_ms) {
            Err(error) => Err(error),
            Ok(at) => state.committed(space, mutations, changes, at),
        }
    }
}

} // verus!
