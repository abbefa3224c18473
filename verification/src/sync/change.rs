//! Changes and the operations that they carry.

use crate::id::{DocumentId, ReplicaId, SpaceId};
use crate::ordmap::{Key, Rank};
use crate::sync::clock::Timestamp;
use crate::text::{copy_bytes, same_bytes, same_text};
use vstd::prelude::*;
use vstd::string::*;

verus! {

/// Globally unique identity of a replica-authored change.
#[derive(Clone, Copy, Debug, PartialEq, Eq, PartialOrd, Ord, Hash, Structural)]
pub struct ChangeId {
    /// Replica that authored the change.
    pub replica: ReplicaId,
    /// Strictly increasing author-local counter, beginning at one.
    pub counter: u64,
}

impl View for ChangeId {
    type V = ChangeId;

    open spec fn view(&self) -> ChangeId {
        *self
    }
}

impl Key for ChangeId {
    open spec fn before(a: ChangeId, b: ChangeId) -> bool {
        a.replica.0 < b.replica.0 || (a.replica == b.replica && a.counter < b.counter)
    }

    proof fn ordered(a: ChangeId, b: ChangeId, c: ChangeId) {
    }

    fn rank(&self, other: &Self) -> (rank: Rank) {
        match self.replica.rank(&other.replica) {
            Rank::Same => self.counter.rank(&other.counter),
            rank => rank,
        }
    }

    fn duplicate(&self) -> (copy: Self) {
        *self
    }
}

/// State transition carried by a [`Change`].
#[derive(Debug, PartialEq, Eq)]
pub enum Operation {
    /// Insert or replace a document using last-writer-wins semantics.
    Put {
        /// Typed collection name.
        collection: String,
        /// Stable document identity.
        document: DocumentId,
        /// Durable schema fingerprint declared by application code.
        schema: u64,
        /// Versioned application payload envelope.
        payload: Vec<u8>,
    },
    /// Record a last-writer-wins tombstone for a document.
    Delete {
        /// Typed collection name.
        collection: String,
        /// Stable document identity.
        document: DocumentId,
        /// Durable schema fingerprint declared by application code.
        schema: u64,
    },
}

/// What an [`Operation`] does; a deletion has no payload.
#[verifier::ext_equal]
pub struct OperationView {
    /// Typed collection name.
    pub collection: Seq<char>,
    /// Stable document identity.
    pub document: DocumentId,
    /// Durable schema fingerprint.
    pub schema: u64,
    /// The payload put, or `None` for a deletion.
    pub payload: Option<Seq<u8>>,
}

impl OperationView {
    /// The document that the operation affects.
    pub open spec fn key(self) -> (Seq<char>, DocumentId) {
        (self.collection, self.document)
    }
}

impl View for Operation {
    type V = OperationView;

    open spec fn view(&self) -> OperationView {
        match self {
            Operation::Put { collection, document, schema, payload } => OperationView {
                collection: collection@,
                document: *document,
                schema: *schema,
                payload: Some(payload@),
            },
            Operation::Delete { collection, document, schema } => OperationView {
                collection: collection@,
                document: *document,
                schema: *schema,
                payload: None,
            },
        }
    }
}

impl Operation {
    /// Returns the collection affected by this operation.
    pub fn collection(&self) -> (collection: &str)
        ensures
            collection@ == self@.collection,
    {
        match self {
            Operation::Put { collection, .. } => collection.as_str(),
            Operation::Delete { collection, .. } => collection.as_str(),
        }
    }

    /// Returns the durable schema fingerprint under which it was authored.
    pub fn schema(&self) -> (schema: u64)
        ensures
            schema == self@.schema,
    {
        match self {
            Operation::Put { schema, .. } => *schema,
            Operation::Delete { schema, .. } => *schema,
        }
    }

    /// Returns the stable document affected by this operation.
    pub fn document(&self) -> (document: DocumentId)
        ensures
            document == self@.document,
    {
        match self {
            Operation::Put { document, .. } => *document,
            Operation::Delete { document, .. } => *document,
        }
    }

    /// Returns the payload of a put.
    pub fn payload(&self) -> (payload: Option<&Vec<u8>>)
        ensures
            match payload {
                Some(payload) => self@.payload == Some(payload@),
                None => self@.payload is None,
            },
    {
        match self {
            Operation::Put { payload, .. } => Some(payload),
            Operation::Delete { .. } => None,
        }
    }

    /// Returns whether two operations are the same.
    pub fn same(&self, other: &Self) -> (same: bool)
        ensures
            same == (self@ == other@),
    {
        let payloads = match (self.payload(), other.payload()) {
            (Some(left), Some(right)) => same_bytes(left.as_slice(), right.as_slice()),
            (None, None) => true,
            _ => false,
        };
        assert(payloads == (self@.payload == other@.payload));
        same_text(self.collection(), other.collection()) && self.document() == other.document()
            && self.schema() == other.schema() && payloads
    }
}

impl Clone for Operation {
    fn clone(&self) -> (copy: Self)
        ensures
            copy@ == self@,
    {
        match self {
            Operation::Put { collection, document, schema, payload } => Operation::Put {
                collection: collection.as_str().to_owned(),
                document: *document,
                schema: *schema,
                payload: copy_bytes(payload.as_slice()),
            },
            Operation::Delete { collection, document, schema } => Operation::Delete {
                collection: collection.as_str().to_owned(),
                document: *document,
                schema: *schema,
            },
        }
    }
}

/// A logical mutation replicated between Cyrene replicas.
#[derive(Debug, PartialEq, Eq)]
pub struct Change {
    /// Stable identity used for idempotence and reconciliation.
    pub id: ChangeId,
    /// Space to which this change belongs.
    pub space: SpaceId,
    /// Totally ordered logical commit time.
    pub timestamp: Timestamp,
    /// Application-level state transition.
    pub operation: Operation,
}

/// What a [`Change`] says.
#[verifier::ext_equal]
pub struct ChangeView {
    /// Stable identity.
    pub id: ChangeId,
    /// Space to which the change belongs.
    pub space: SpaceId,
    /// Totally ordered logical commit time.
    pub timestamp: Timestamp,
    /// Application-level state transition.
    pub operation: OperationView,
}

impl View for Change {
    type V = ChangeView;

    open spec fn view(&self) -> ChangeView {
        ChangeView {
            id: self.id,
            space: self.space,
            timestamp: self.timestamp,
            operation: self.operation@,
        }
    }
}

impl Change {
    /// Returns whether two changes are the same.
    pub fn same(&self, other: &Self) -> (same: bool)
        ensures
            same == (self@ == other@),
    {
        self.id == other.id && self.space == other.space && self.timestamp == other.timestamp
            && self.operation.same(&other.operation)
    }
}

impl Clone for Change {
    fn clone(&self) -> (copy: Self)
        ensures
            copy@ == self@,
    {
        Change {
            id: self.id,
            space: self.space,
            timestamp: self.timestamp,
            operation: self.operation.clone(),
        }
    }
}

/// What a sequence of changes says.
pub open spec fn change_views(changes: Seq<Change>) -> Seq<ChangeView> {
    changes.map_values(|change: Change| change@)
}

/// Changes are ordered by their authors and then by their counters.
pub proof fn law_changes_are_ordered(a: ChangeId, b: ChangeId)
    ensures
        <ChangeId as Key>::before(a, b) <==> a.replica.0 < b.replica.0 || (a.replica == b.replica
            && a.counter < b.counter),
{
}

} // verus!
