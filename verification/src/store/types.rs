//! The values that a store takes and gives.

use crate::error::{failure, Error, ErrorCode, ErrorView, Result};
use crate::id::{DocumentId, SpaceId};
use crate::ordmap::Value;
use crate::schema::Schema;
use crate::sync::change::{Change, ChangeView};
use crate::text::{owned, same_text};
use vstd::prelude::*;
use vstd::string::*;

verus! {

/// The kind of mutation represented by a durable change.
#[derive(Clone, Copy, Debug, PartialEq, Eq, Structural)]
pub enum ChangeKind {
    /// A document was inserted or replaced.
    Put,
    /// A document was deleted.
    Delete,
}

impl ChangeKind {
    /// The number that stands for a kind in durable storage.
    pub open spec fn number(self) -> i64 {
        match self {
            ChangeKind::Put => 1,
            ChangeKind::Delete => 2,
        }
    }

    /// Returns the number that stands for the kind in durable storage.
    pub fn as_i64(self) -> (number: i64)
        ensures
            number == self.number(),
    {
        match self {
            ChangeKind::Put => 1,
            ChangeKind::Delete => 2,
        }
    }
}

/// Owned schema identity recorded alongside a collection.
#[derive(Debug, PartialEq, Eq)]
pub struct StoredSchema {
    /// Stable logical document name.
    pub name: String,
    /// Application-controlled schema version.
    pub version: u32,
    /// Deterministic structural fingerprint.
    pub fingerprint: u64,
}

/// What a [`StoredSchema`] says.
#[verifier::ext_equal]
pub struct SchemaView {
    /// Stable logical document name.
    pub name: Seq<char>,
    /// Application-controlled schema version.
    pub version: u32,
    /// Deterministic structural fingerprint.
    pub fingerprint: u64,
}

impl View for StoredSchema {
    type V = SchemaView;

    open spec fn view(&self) -> SchemaView {
        SchemaView { name: self.name@, version: self.version, fingerprint: self.fingerprint }
    }
}

impl Clone for StoredSchema {
    fn clone(&self) -> (copy: Self)
        ensures
            copy@ == self@,
    {
        StoredSchema {
            name: owned(self.name.as_str()),
            version: self.version,
            fingerprint: self.fingerprint,
        }
    }
}

impl Value for StoredSchema {
    open spec fn alike(a: StoredSchema, b: StoredSchema) -> bool {
        a@ == b@
    }

    fn copy_value(&self) -> (copy: Self) {
        self.clone()
    }
}

impl StoredSchema {
    /// Records the identity of a document schema.
    pub fn from_schema(schema: Schema) -> (stored: Self)
        ensures
            stored@ == (SchemaView {
                name: schema.name@,
                version: schema.version,
                fingerprint: schema.fingerprint,
            }),
    {
        StoredSchema {
            name: owned(schema.name),
            version: schema.version,
            fingerprint: schema.fingerprint,
        }
    }

    /// Returns whether two schema identities are the same.
    pub fn same(&self, other: &Self) -> (same: bool)
        ensures
            same == (self@ == other@),
    {
        same_text(self.name.as_str(), other.name.as_str()) && self.version == other.version
            && self.fingerprint == other.fingerprint
    }
}

/// A requested mutation in an atomic local transaction.
#[derive(Debug, PartialEq, Eq)]
pub enum Mutation {
    /// Insert or replace a serialized document.
    Put {
        /// Collection containing the document.
        collection: String,
        /// Stable document identity.
        id: DocumentId,
        /// Serialized application payload.
        payload: Vec<u8>,
        /// Durable schema expected by the collection.
        schema: StoredSchema,
    },
    /// Delete a document if it currently exists.
    Delete {
        /// Collection containing the document.
        collection: String,
        /// Stable document identity.
        id: DocumentId,
        /// Durable schema expected by the collection.
        schema: StoredSchema,
    },
}

/// What a [`Mutation`] says; a deletion has no payload.
#[verifier::ext_equal]
pub struct MutationView {
    /// Collection containing the document.
    pub collection: Seq<char>,
    /// Stable document identity.
    pub id: DocumentId,
    /// The payload put, or `None` for a deletion.
    pub payload: Option<Seq<u8>>,
    /// Durable schema expected by the collection.
    pub schema: SchemaView,
}

impl View for Mutation {
    type V = MutationView;

    open spec fn view(&self) -> MutationView {
        match self {
            Mutation::Put { collection, id, payload, schema } => MutationView {
                collection: collection@,
                id: *id,
                payload: Some(payload@),
                schema: schema@,
            },
            Mutation::Delete { collection, id, schema } => MutationView {
                collection: collection@,
                id: *id,
                payload: None,
                schema: schema@,
            },
        }
    }
}

impl Mutation {
    /// Returns the collection containing the document.
    pub fn collection(&self) -> (collection: &str)
        ensures
            collection@ == self@.collection,
    {
        match self {
            Mutation::Put { collection, .. } => collection.as_str(),
            Mutation::Delete { collection, .. } => collection.as_str(),
        }
    }

    /// Returns the schema expected by the collection.
    pub fn schema(&self) -> (schema: &StoredSchema)
        ensures
            schema@ == self@.schema,
    {
        match self {
            Mutation::Put { schema, .. } => schema,
            Mutation::Delete { schema, .. } => schema,
        }
    }
}

/// What a sequence of mutations says.
pub open spec fn mutation_views(mutations: Seq<Mutation>) -> Seq<MutationView> {
    mutations.map_values(|mutation: Mutation| mutation@)
}

/// A mutation that was committed to the durable change log.
#[derive(Debug, PartialEq, Eq)]
pub struct AppliedMutation {
    /// Kind of mutation that was committed.
    pub kind: ChangeKind,
    /// Collection containing the affected document.
    pub collection: String,
    /// Stable identity of the affected document.
    pub id: DocumentId,
    /// Monotonic local sequence assigned to the change.
    pub sequence: u64,
}

/// What an [`AppliedMutation`] says.
#[verifier::ext_equal]
pub struct AppliedView {
    /// Kind of mutation that was committed.
    pub kind: ChangeKind,
    /// Collection containing the affected document.
    pub collection: Seq<char>,
    /// Stable identity of the affected document.
    pub id: DocumentId,
    /// Monotonic local sequence assigned to the change.
    pub sequence: u64,
}

impl View for AppliedMutation {
    type V = AppliedView;

    open spec fn view(&self) -> AppliedView {
        AppliedView {
            kind: self.kind,
            collection: self.collection@,
            id: self.id,
            sequence: self.sequence,
        }
    }
}

/// What a sequence of applied mutations says.
pub open spec fn applied_views(applied: Seq<AppliedMutation>) -> Seq<AppliedView> {
    applied.map_values(|mutation: AppliedMutation| mutation@)
}

/// A document transformed by an explicit schema migration.
#[derive(Debug, PartialEq, Eq)]
pub struct MigratedDocument {
    /// Stable identity retained across the migration.
    pub id: DocumentId,
    /// Newly serialized application payload.
    pub payload: Vec<u8>,
    /// Durable sequence assigned to the migration change.
    pub sequence: u64,
}

impl View for MigratedDocument {
    type V = DocumentView;

    open spec fn view(&self) -> DocumentView {
        DocumentView { id: self.id, payload: self.payload@, sequence: self.sequence }
    }
}

/// A payload that a migration made of a document, and the change that carries
/// it.
#[derive(Debug, PartialEq, Eq)]
pub struct TransformedDocument {
    /// Newly serialized application payload.
    pub payload: Vec<u8>,
    /// Globally identified change that carries the payload.
    pub change: Change,
}

/// What a [`TransformedDocument`] says.
#[verifier::ext_equal]
pub struct TransformedView {
    /// Newly serialized application payload.
    pub payload: Seq<u8>,
    /// Globally identified change that carries the payload.
    pub change: ChangeView,
}

impl View for TransformedDocument {
    type V = TransformedView;

    open spec fn view(&self) -> TransformedView {
        TransformedView { payload: self.payload@, change: self.change@ }
    }
}

/// What a sequence of transformed documents says.
pub open spec fn transformed_views(documents: Seq<TransformedDocument>) -> Seq<TransformedView> {
    documents.map_values(|document: TransformedDocument| document@)
}

/// A document restored from durable storage.
#[derive(Debug, PartialEq, Eq)]
pub struct StoredDocument {
    /// Stable document identity.
    pub id: DocumentId,
    /// Serialized application payload.
    pub payload: Vec<u8>,
    /// Monotonic local change sequence that last updated the document.
    pub sequence: u64,
}

/// What a [`StoredDocument`] says.
#[verifier::ext_equal]
pub struct DocumentView {
    /// Stable document identity.
    pub id: DocumentId,
    /// Serialized application payload.
    pub payload: Seq<u8>,
    /// Monotonic local change sequence that last updated the document.
    pub sequence: u64,
}

impl View for StoredDocument {
    type V = DocumentView;

    open spec fn view(&self) -> DocumentView {
        DocumentView { id: self.id, payload: self.payload@, sequence: self.sequence }
    }
}

/// One row of the local diagnostic journal.
#[derive(Debug, PartialEq, Eq)]
pub struct JournalEntry {
    /// Monotonic local sequence.
    pub sequence: u64,
    /// Space of the affected document.
    pub space: SpaceId,
    /// Collection containing the affected document.
    pub collection: String,
    /// Stable identity of the affected document.
    pub id: DocumentId,
    /// Kind of mutation.
    pub kind: ChangeKind,
    /// The payload put, or `None` for a deletion.
    pub payload: Option<Vec<u8>>,
    /// Unix commit time in milliseconds.
    pub committed_at_ms: i64,
}

/// What a [`JournalEntry`] says.
#[verifier::ext_equal]
pub struct JournalView {
    /// Monotonic local sequence.
    pub sequence: u64,
    /// Space of the affected document.
    pub space: SpaceId,
    /// Collection containing the affected document.
    pub collection: Seq<char>,
    /// Stable identity of the affected document.
    pub id: DocumentId,
    /// Kind of mutation.
    pub kind: ChangeKind,
    /// The payload put, or `None` for a deletion.
    pub payload: Option<Seq<u8>>,
    /// Unix commit time in milliseconds.
    pub committed_at_ms: i64,
}

impl View for JournalEntry {
    type V = JournalView;

    open spec fn view(&self) -> JournalView {
        JournalView {
            sequence: self.sequence,
            space: self.space,
            collection: self.collection@,
            id: self.id,
            kind: self.kind,
            payload: match self.payload {
                Some(payload) => Some(payload@),
                None => None,
            },
            committed_at_ms: self.committed_at_ms,
        }
    }
}

/// What a sequence of journal rows says.
pub open spec fn journal_views(journal: Seq<JournalEntry>) -> Seq<JournalView> {
    journal.map_values(|entry: JournalEntry| entry@)
}

/// A snapshot of local durable-storage health and size.
#[derive(Debug, PartialEq, Eq)]
pub struct StoreStatus {
    /// Greatest committed local change sequence.
    pub frontier: u64,
    /// Number of materialized live documents.
    pub documents: u64,
    /// Number of retained durable changes.
    pub changes: u64,
    /// Number of globally identified changes retained for replication.
    pub replicated_changes: u64,
    /// Result returned by the database's quick integrity check.
    pub integrity: String,
}

impl StoreStatus {
    /// Returns whether the database passed its integrity check.
    pub fn is_healthy(&self) -> (healthy: bool)
        ensures
            healthy == (self.integrity@ == "ok"@),
    {
        same_text(self.integrity.as_str(), "ok")
    }
}

/// Result of compacting the redundant local diagnostic journal.
#[derive(Clone, Copy, Debug, PartialEq, Eq, Structural)]
pub struct CompactionReport {
    /// Journal rows present before compaction.
    pub changes_before: u64,
    /// Journal rows retained after compaction.
    pub changes_after: u64,
    /// Replication records deliberately left untouched.
    pub replicated_changes: u64,
}

impl CompactionReport {
    /// Number of redundant journal rows removed.
    pub fn removed(self) -> (removed: u64)
        requires
            self.changes_after <= self.changes_before,
        ensures
            removed == self.changes_before - self.changes_after,
    {
        self.changes_before - self.changes_after
    }
}

/// Metadata describing a consistent application-database backup.
#[derive(Debug, PartialEq, Eq)]
pub struct BackupReport {
    /// Live documents captured in the backup.
    pub documents: u64,
    /// Replicated changes captured for long-offline catch-up.
    pub replicated_changes: u64,
    /// Full integrity-check result for the completed backup.
    pub integrity: String,
}

impl BackupReport {
    /// Returns whether the completed backup passed its full integrity check.
    pub fn is_healthy(&self) -> (healthy: bool)
        ensures
            healthy == (self.integrity@ == "ok"@),
    {
        same_text(self.integrity.as_str(), "ok")
    }

    /// Accepts the report of a completed backup that is healthy.
    pub fn accept(self) -> (accepted: Result<Self>)
        ensures
            match accepted {
                Ok(report) => report == self && self.integrity@ == "ok"@,
                Err(error) => self.integrity@ != "ok"@ && error@ == failure(
                    ErrorCode::InvalidData,
                    "the completed backup failed its integrity check: "@ + self.integrity@,
                ),
            },
    {
        if !self.is_healthy() {
            let mut message = owned("the completed backup failed its integrity check: ");
            message.append(self.integrity.as_str());
            return Err(Error::new(ErrorCode::InvalidData, message.as_str()));
        }
        Ok(self)
    }
}

/// The commit time of a transaction, or why there is none.
pub open spec fn commit_time(since_epoch_ms: Option<u128>) -> core::result::Result<i64, ErrorView> {
    match since_epoch_ms {
        None => Err(
            ErrorView {
                code: ErrorCode::Storage,
                message: "system clock is invalid"@,
                source: Some("second time provided was later than self"@),
            },
        ),
        Some(milliseconds) => if milliseconds > i64::MAX {
            Err(
                ErrorView {
                    code: ErrorCode::Storage,
                    message: "system time is outside SQLite's range"@,
                    source: Some("out of range integral type conversion attempted"@),
                },
            )
        } else {
            Ok(milliseconds as i64)
        },
    }
}

/// Reads the commit time of a transaction from the milliseconds since the
/// epoch, which a clock set before the epoch does not have.
pub fn commit_timestamp_ms(since_epoch_ms: Option<u128>) -> (timestamp: Result<i64>)
    ensures
        crate::error::seen(timestamp) == commit_time(since_epoch_ms),
{
    match since_epoch_ms {
        None => Err(
            Error::with_source(
                ErrorCode::Storage,
                "system clock is invalid",
                owned("second time provided was later than self"),
            ),
        ),
        Some(milliseconds) => {
            if milliseconds > 9_223_372_036_854_775_807 {
                return Err(
                    Error::with_source(
                        ErrorCode::Storage,
                        "system time is outside SQLite's range",
                        owned("out of range integral type conversion attempted"),
                    ),
                );
            }
            Ok(milliseconds as i64)
        },
    }
}

} // verus!
