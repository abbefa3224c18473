//! The deterministic state of one replica of a space.

use crate::bytes::{be, be_u64, hex, hex_text};
use crate::error::{failure, refusal, seen, Error, ErrorCode, ErrorView, Result};
use crate::id::{id_text, DocumentId, ReplicaId, SpaceId};
use crate::ordmap::{ascending, Key, OrdMap, Rank, Value};
use crate::sync::change::{change_views, Change, ChangeId, ChangeView, Operation, OperationView};
use crate::sync::clock::{observed, ticked, Clock, Timestamp};
use crate::sync::frontier::{known, recorded, Frontier};
use crate::text::{byte_len, copy_bytes, decimal, decimal_text, len_bytes, same_text};
use vstd::prelude::*;
use vstd::string::*;

verus! {

/// The greatest number of bytes in a collection name.
pub const MAX_COLLECTION_BYTES: usize = 128;

/// The greatest number of bytes in a replicated payload.
pub const MAX_PAYLOAD_BYTES: usize = 16 * 1024 * 1024;

/// Stable key of one document in materialized replica state.
#[derive(Debug, PartialEq, Eq, PartialOrd, Ord)]
pub struct DocumentKey {
    /// Typed collection containing the document.
    pub collection: String,
    /// Stable document identity.
    pub document: DocumentId,
}

impl View for DocumentKey {
    type V = (Seq<char>, DocumentId);

    open spec fn view(&self) -> (Seq<char>, DocumentId) {
        (self.collection@, self.document)
    }
}

impl Key for DocumentKey {
    open spec fn before(a: (Seq<char>, DocumentId), b: (Seq<char>, DocumentId)) -> bool {
        <String as Key>::before(a.0, b.0) || (a.0 == b.0 && a.1.0 < b.1.0)
    }

    proof fn ordered(a: (Seq<char>, DocumentId), b: (Seq<char>, DocumentId), c: (Seq<char>, DocumentId)) {
        <String as Key>::ordered(a.0, b.0, c.0);
    }

    fn rank(&self, other: &Self) -> (rank: Rank) {
        match self.collection.rank(&other.collection) {
            Rank::Same => self.document.rank(&other.document),
            rank => rank,
        }
    }

    fn duplicate(&self) -> (copy: Self) {
        DocumentKey { collection: self.collection.duplicate(), document: self.document }
    }
}

impl Clone for DocumentKey {
    fn clone(&self) -> (copy: Self)
        ensures
            copy@ == self@,
    {
        self.duplicate()
    }
}

/// Winning last-writer state for one document, including tombstones.
#[derive(Debug, PartialEq, Eq)]
pub struct MaterializedDocument {
    /// Schema fingerprint under which the mutation was authored.
    pub schema: u64,
    /// Payload for a live document, or `None` for a tombstone.
    pub payload: Option<Vec<u8>>,
    /// Logical timestamp of the winning mutation.
    pub timestamp: Timestamp,
    /// Identity of the winning change.
    pub change: ChangeId,
}

/// What a [`MaterializedDocument`] holds.
#[verifier::ext_equal]
pub struct DocumentView {
    /// Schema fingerprint of the winning mutation.
    pub schema: u64,
    /// Payload for a live document, or `None` for a tombstone.
    pub payload: Option<Seq<u8>>,
    /// Logical timestamp of the winning mutation.
    pub timestamp: Timestamp,
    /// Identity of the winning change.
    pub change: ChangeId,
}

impl View for MaterializedDocument {
    type V = DocumentView;

    open spec fn view(&self) -> DocumentView {
        DocumentView {
            schema: self.schema,
            payload: match self.payload {
                Some(payload) => Some(payload@),
                None => None,
            },
            timestamp: self.timestamp,
            change: self.change,
        }
    }
}

impl Clone for MaterializedDocument {
    fn clone(&self) -> (copy: Self)
        ensures
            copy@ == self@,
    {
        let payload = match &self.payload {
            Some(payload) => Some(copy_bytes(payload.as_slice())),
            None => None,
        };
        MaterializedDocument {
            schema: self.schema,
            payload,
            timestamp: self.timestamp,
            change: self.change,
        }
    }
}

/// Outcome of applying a valid change.
#[derive(Clone, Copy, Debug, PartialEq, Eq, Structural)]
pub enum Apply {
    /// A new change was retained. `visible` indicates whether it changed the
    /// materialized winner for its document.
    Applied {
        /// Whether visible state changed.
        visible: bool,
    },
    /// The exact change was already retained.
    Duplicate,
}

/// The document state that a change would establish.
pub open spec fn state_of(change: ChangeView) -> DocumentView {
    DocumentView {
        schema: change.operation.schema,
        payload: change.operation.payload,
        timestamp: change.timestamp,
        change: change.id,
    }
}

/// Whether one document state replaces another: by timestamp, then by change
/// identity.
pub open spec fn supersedes(new: DocumentView, current: DocumentView) -> bool {
    ||| new.timestamp.later(current.timestamp)
    ||| new.timestamp == current.timestamp && <ChangeId as Key>::before(current.change, new.change)
}

/// What a [`Replica`] holds.
#[verifier::ext_equal]
pub struct ReplicaView {
    /// The replica's own identity.
    pub id: ReplicaId,
    /// The replicated space.
    pub space: SpaceId,
    /// The greatest counter of a change of its own.
    pub next_counter: u64,
    /// What its clock shows.
    pub clock: Timestamp,
    /// Schema fingerprints accepted for each collection.
    pub schemas: Map<Seq<char>, Set<u64>>,
    /// Retained changes.
    pub changes: Map<ChangeId, ChangeView>,
    /// Greatest contiguous counter of each author.
    pub frontier: Map<ReplicaId, u64>,
    /// Winning state of each document.
    pub documents: Map<(Seq<char>, DocumentId), DocumentView>,
}

/// Why a collection name is refused.
pub open spec fn collection_refusal(collection: Seq<char>) -> Option<ErrorView> {
    if collection.len() == 0 || byte_len(collection) > 128 {
        Some(
            failure(
                ErrorCode::InvalidInput,
                "collection names must contain between 1 and 128 bytes"@,
            ),
        )
    } else {
        None
    }
}

/// Why an operation is refused by a replica with the given schemas.
pub open spec fn operation_refusal(
    schemas: Map<Seq<char>, Set<u64>>,
    operation: OperationView,
) -> Option<ErrorView> {
    if collection_refusal(operation.collection) is Some {
        collection_refusal(operation.collection)
    } else if !schemas.contains_key(operation.collection) {
        Some(
            failure(
                ErrorCode::InvalidData,
                "collection '"@ + operation.collection + "' has no configured schema"@,
            ),
        )
    } else if !schemas[operation.collection].contains(operation.schema) {
        Some(
            failure(
                ErrorCode::InvalidData,
                "collection '"@ + operation.collection + "' does not accept schema "@ + hex_text(
                    be(operation.schema as nat, 8),
                ),
            ),
        )
    } else if operation.payload matches Some(payload) && payload.len() > 16777216 {
        Some(failure(ErrorCode::InvalidData, "replicated payload exceeds 16777216 bytes"@))
    } else {
        None
    }
}

/// Whether a change is one that its author can have made in a space.
pub open spec fn well_authored(change: ChangeView, space: SpaceId) -> bool {
    &&& change.space == space
    &&& change.id.counter > 0
    &&& change.timestamp.replica == change.id.replica
}

/// Whether a retained change affects a document.
pub open spec fn touches(
    changes: Map<ChangeId, ChangeView>,
    id: ChangeId,
    key: (Seq<char>, DocumentId),
) -> bool {
    changes.contains_key(id) && changes[id].operation.key() == key
}

/// Whether documents are exactly the winners of the retained changes.
pub open spec fn materialized(
    changes: Map<ChangeId, ChangeView>,
    documents: Map<(Seq<char>, DocumentId), DocumentView>,
) -> bool {
    &&& forall|id: ChangeId| #[trigger]
        changes.contains_key(id) ==> changes[id].id == id && documents.contains_key(
            changes[id].operation.key(),
        )
    &&& forall|key: (Seq<char>, DocumentId)| #[trigger]
        documents.contains_key(key) ==> touches(changes, documents[key].change, key)
            && documents[key] == state_of(changes[documents[key].change])
    &&& forall|key: (Seq<char>, DocumentId), id: ChangeId|
        documents.contains_key(key) && #[trigger] touches(changes, id, key) && id
            != documents[key].change ==> supersedes(documents[key], state_of(changes[id]))
}

/// Whether every counter up to `counter` of an author is retained and the next
/// one is not.
pub open spec fn is_contiguous(
    changes: Map<ChangeId, ChangeView>,
    replica: ReplicaId,
    counter: u64,
) -> bool {
    &&& forall|c: u64| 1 <= c <= counter ==> #[trigger] changes.contains_key(ChangeId { replica, counter: c })
    &&& counter < u64::MAX ==> !changes.contains_key(
        ChangeId { replica, counter: (counter + 1) as u64 },
    )
}

/// The greatest counter of an author with no gap before it.
pub open spec fn contiguous(changes: Map<ChangeId, ChangeView>, replica: ReplicaId) -> u64 {
    choose|counter: u64| is_contiguous(changes, replica, counter)
}

impl ReplicaView {
    /// What holds of every replica.
    pub open spec fn consistent(self) -> bool {
        &&& materialized(self.changes, self.documents)
        &&& forall|id: ChangeId| #[trigger]
            self.changes.contains_key(id) ==> well_authored(self.changes[id], self.space)
                && operation_refusal(self.schemas, self.changes[id].operation) is None
        &&& forall|replica: ReplicaId|
            is_contiguous(self.changes, replica, #[trigger] known(self.frontier, replica))
        &&& forall|replica: ReplicaId| #[trigger]
            self.frontier.contains_key(replica) ==> self.frontier[replica] > 0
        &&& forall|id: ChangeId| #[trigger]
            self.changes.contains_key(id) && id.replica == self.id ==> id.counter
                <= self.next_counter
        &&& self.next_counter > 0 ==> self.changes.contains_key(
            ChangeId { replica: self.id, counter: self.next_counter },
        )
        &&& forall|id: ChangeId| #[trigger]
            self.changes.contains_key(id) ==> self.clock.reaches(self.changes[id].timestamp)
        &&& self.clock.replica == self.id
    }

    /// Why a change is refused before the retained changes are consulted.
    pub open spec fn change_refusal(self, change: ChangeView) -> Option<ErrorView> {
        if change.space != self.space {
            Some(failure(ErrorCode::InvalidInput, "a change cannot cross space boundaries"@))
        } else if change.id.counter == 0 || change.timestamp.replica != change.id.replica {
            Some(
                failure(
                    ErrorCode::InvalidData,
                    "a change has an invalid author counter or timestamp"@,
                ),
            )
        } else {
            operation_refusal(self.schemas, change.operation)
        }
    }

    /// Whether a change would win its document.
    pub open spec fn would_show(self, change: ChangeView) -> bool {
        let key = change.operation.key();
        self.documents.contains_key(key) ==> supersedes(state_of(change), self.documents[key])
    }

    /// The replica after a new change has been retained.
    pub open spec fn retaining(self, change: ChangeView) -> ReplicaView {
        let changes = self.changes.insert(change.id, change);
        ReplicaView {
            next_counter: if change.id.replica == self.id && change.id.counter > self.next_counter {
                change.id.counter
            } else {
                self.next_counter
            },
            changes,
            frontier: recorded(
                self.frontier,
                change.id.replica,
                contiguous(changes, change.id.replica),
            ),
            documents: if self.would_show(change) {
                self.documents.insert(change.operation.key(), state_of(change))
            } else {
                self.documents
            },
            ..self
        }
    }

    /// What comes of applying a change, and the replica afterwards.
    pub open spec fn applying(self, change: ChangeView, now_ms: u64) -> (
        std::result::Result<Apply, ErrorView>,
        ReplicaView,
    ) {
        if let Some(error) = self.change_refusal(change) {
            (Err(error), self)
        } else if self.changes.contains_key(change.id) {
            if self.changes[change.id] == change {
                (Ok(Apply::Duplicate), self)
            } else {
                (Err(collision_error(change.id)), self)
            }
        } else {
            (
                Ok(Apply::Applied { visible: self.would_show(change) }),
                ReplicaView {
                    clock: observed(self.clock, change.timestamp, now_ms),
                    ..self.retaining(change)
                },
            )
        }
    }

    /// The change that a replica authors for an operation.
    pub open spec fn authored(self, operation: OperationView, now_ms: u64) -> ChangeView {
        ChangeView {
            id: ChangeId { replica: self.id, counter: (self.next_counter + 1) as u64 },
            space: self.space,
            timestamp: ticked(self.clock, now_ms),
            operation,
        }
    }
}

/// The error for a change whose identity is retained with other content.
pub open spec fn collision_error(id: ChangeId) -> ErrorView {
    failure(
        ErrorCode::InvalidData,
        "change "@ + id_text(id.replica.0) + ":"@ + decimal_text(id.counter as nat)
            + " collides with different retained content"@,
    )
}

/// The error for a replica that can author no more changes.
pub open spec fn exhausted_error() -> ErrorView {
    failure(ErrorCode::InvalidData, "the local change counter is exhausted"@)
}

/// Deterministic state of one replica of a space.
#[derive(Debug)]
pub struct Replica {
    id: ReplicaId,
    space: SpaceId,
    next_counter: u64,
    clock: Clock,
    schemas: OrdMap<String, OrdMap<u64, ()>>,
    changes: OrdMap<ChangeId, Change>,
    frontier: Frontier,
    documents: OrdMap<DocumentKey, MaterializedDocument>,
}

impl View for Replica {
    type V = ReplicaView;

    closed spec fn view(&self) -> ReplicaView {
        ReplicaView {
            id: self.id,
            space: self.space,
            next_counter: self.next_counter,
            clock: self.clock.shown(),
            schemas: self.schemas@.map_values(|set: OrdMap<u64, ()>| set@.dom()),
            changes: self.changes@.map_values(|change: Change| change@),
            frontier: self.frontier@,
            documents: self.documents@.map_values(|document: MaterializedDocument| document@),
        }
    }
}

pub(crate) fn validate_collection(collection: &str) -> (result: Result<()>)
    ensures
        refusal(result) == collection_refusal(collection@),
{
    if collection.is_empty() || len_bytes(collection) > MAX_COLLECTION_BYTES {
        return Err(
            Error::new(
                ErrorCode::InvalidInput,
                "collection names must contain between 1 and 128 bytes",
            ),
        );
    }
    Ok(())
}

impl Replica {
    spec fn maps_wf(self) -> bool {
        &&& self.schemas.wf()
        &&& forall|name: Seq<char>| #[trigger] self.schemas@.contains_key(name) ==> self.schemas@[name].wf()
        &&& self.changes.wf()
        &&& self.frontier.wf()
        &&& self.documents.wf()
    }

    /// The replica's maps are in order and its state is consistent.
    pub closed spec fn wf(self) -> bool {
        self.maps_wf() && self@.consistent()
    }

    /// A well-formed replica is consistent.
    pub proof fn lemma_consistent(self)
        requires
            self.wf(),
        ensures
            self@.consistent(),
    {
    }

    /// The retained changes in ascending order of identity.
    pub closed spec fn log(self) -> Seq<ChangeView> {
        Seq::new(self.changes.keys().len(), |i: int| self@.changes[self.changes.keys()[i]])
    }

    /// The retained changes beyond a frontier, in ascending order of identity.
    pub open spec fn missing(self, frontier: Map<ReplicaId, u64>) -> Seq<ChangeView> {
        self.log().filter(
            |change: ChangeView| change.id.counter > known(frontier, change.id.replica),
        )
    }

    /// The log holds each retained change once, in ascending order.
    pub proof fn lemma_log(self)
        requires
            self.wf(),
        ensures
            ascending::<ChangeId>(self.log().map_values(|change: ChangeView| change.id)),
            forall|i: int|
                0 <= i < self.log().len() ==> self@.changes.contains_key((#[trigger] self.log()[i]).id)
                    && self@.changes[self.log()[i].id] == self.log()[i],
            forall|id: ChangeId| #[trigger]
                self@.changes.contains_key(id) ==> self.log().contains(self@.changes[id]),
            self.log().len() == self@.changes.len(),
    {
        self.changes.lemma_keys();
        let keys = self.changes.keys();
        assert(self@.changes.dom() =~= self.changes@.dom());
        assert forall|i: int| 0 <= i < self.log().len() implies self@.changes.contains_key(
            (#[trigger] self.log()[i]).id,
        ) && self@.changes[self.log()[i].id] == self.log()[i] && self.log()[i].id == keys[i] by {
            assert(self.changes@.contains_key(keys[i]));
            assert(self@.changes.contains_key(keys[i]));
        }
        assert(self.log().map_values(|change: ChangeView| change.id) =~= keys);
        assert forall|id: ChangeId| #[trigger] self@.changes.contains_key(id) implies self.log().contains(
            self@.changes[id],
        ) by {
            assert(self.changes@.contains_key(id));
            assert(keys.contains(id));
            let i = choose|i: int| 0 <= i < keys.len() && keys[i] == id;
            assert(self.log()[i] == self@.changes[id]);
        }
    }

    /// Creates an empty replica for one space.
    pub fn new(id: ReplicaId, space: SpaceId) -> (replica: Self)
        ensures
            replica.wf(),
            replica@ == (ReplicaView {
                id,
                space,
                next_counter: 0,
                clock: Timestamp { physical_ms: 0, logical: 0, replica: id },
                schemas: Map::empty(),
                changes: Map::empty(),
                frontier: Map::empty(),
                documents: Map::empty(),
            }),
    {
        let replica = Replica {
            id,
            space,
            next_counter: 0,
            clock: Clock::new(id),
            schemas: OrdMap::new(),
            changes: OrdMap::new(),
            frontier: Frontier::new(),
            documents: OrdMap::new(),
        };
        assert(replica@.schemas =~= Map::empty());
        assert(replica@.changes =~= Map::empty());
        assert(replica@.documents =~= Map::empty());
        replica
    }

    /// Returns this replica's stable identity.
    pub fn id(&self) -> (id: ReplicaId)
        ensures
            id == self@.id,
    {
        self.id
    }

    /// Returns the replicated space identity.
    pub fn space(&self) -> (space: SpaceId)
        ensures
            space == self@.space,
    {
        self.space
    }

    /// Registers a schema fingerprint accepted for a collection.
    ///
    /// Multiple fingerprints may coexist while historical changes remain
    /// replayable across an explicit schema migration.
    pub fn register_schema(&mut self, collection: &str, schema: u64) -> (result: Result<()>)
        requires
            old(self).wf(),
        ensures
            final(self).wf(),
            match result {
                Ok(_) => {
                    &&& collection_refusal(collection@) is None
                    &&& final(self)@ == (ReplicaView {
                        schemas: old(self)@.schemas.insert(
                            collection@,
                            if old(self)@.schemas.contains_key(collection@) {
                                old(self)@.schemas[collection@].insert(schema)
                            } else {
                                set![schema]
                            },
                        ),
                        ..old(self)@
                    })
                },
                Err(error) => {
                    &&& collection_refusal(collection@) == Some(error@)
                    &&& final(self)@ == old(self)@
                },
            },
    {
        validate_collection(collection)?;
        let name = collection.to_owned();
        let ghost before = self@;
        let known = self.schemas.contains(&name);
        if known {
            if let Some(accepted) = self.schemas.get_mut(&name) {
                accepted.insert(schema, ());
            }
        } else {
            let mut accepted: OrdMap<u64, ()> = OrdMap::new();
            accepted.insert(schema, ());
            assert(accepted@.dom() =~= set![schema]);
            self.schemas.insert(name, accepted);
        }
        proof {
            let expected = before.schemas.insert(
                collection@,
                if before.schemas.contains_key(collection@) {
                    before.schemas[collection@].insert(schema)
                } else {
                    set![schema]
                },
            );
            assert(self@.schemas[collection@] =~= expected[collection@]);
            assert(self@.schemas =~= expected);
            assert(self@ =~= (ReplicaView { schemas: expected, ..before }));
        }
        Ok(())
    }

    /// Authors and immediately applies one local change.
    pub fn author(&mut self, operation: Operation, now_ms: u64) -> (result: Result<Change>)
        requires
            old(self).wf(),
        ensures
            final(self).wf(),
            match result {
                Ok(change) => {
                    &&& operation_refusal(old(self)@.schemas, operation@) is None
                    &&& old(self)@.next_counter < u64::MAX
                    &&& change@ == old(self)@.authored(operation@, now_ms)
                    &&& !old(self)@.changes.contains_key(change@.id)
                    &&& final(self)@ == (ReplicaView {
                        clock: ticked(old(self)@.clock, now_ms),
                        ..old(self)@.retaining(change@)
                    })
                },
                Err(error) => {
                    &&& final(self)@ == old(self)@
                    &&& if operation_refusal(old(self)@.schemas, operation@) is Some {
                        operation_refusal(old(self)@.schemas, operation@) == Some(error@)
                    } else {
                        old(self)@.next_counter == u64::MAX && error@ == exhausted_error()
                    }
                },
            },
    {
        self.validate_operation(&operation)?;
        if self.next_counter == u64::MAX {
            return Err(Error::new(ErrorCode::InvalidData, "the local change counter is exhausted"));
        }
        let counter: u64 = self.next_counter + 1;
        let ghost before = *self;
        let timestamp = self.clock.tick(now_ms);
        let change = Change {
            id: ChangeId { replica: self.id, counter },
            space: self.space,
            timestamp,
            operation,
        };
        let ghost start = *self;
        proof {
            assert(start@.changes =~= before@.changes);
            assert(start@.documents =~= before@.documents);
            assert(start@.schemas =~= before@.schemas);
            assert forall|id: ChangeId| #[trigger] start@.changes.contains_key(id) implies start@.clock.reaches(
                start@.changes[id].timestamp,
            ) by {
                assert(before@.changes.contains_key(id));
            }
            assert(start.maps_wf());
            assert forall|id: ChangeId| #[trigger]
                start@.changes.contains_key(id) && id.replica == start@.id implies id.counter
                <= start@.next_counter by {
                assert(before@.changes.contains_key(id));
            }
            assert(start@.consistent());
        }
        let copy = change.clone();
        self.apply_validated(copy);
        assert(self@ =~= (ReplicaView {
            clock: ticked(before@.clock, now_ms),
            ..before@.retaining(change@)
        }));
        Ok(change)
    }

    /// Applies one remote change idempotently.
    pub fn apply(&mut self, change: Change, now_ms: u64) -> (result: Result<Apply>)
        requires
            old(self).wf(),
        ensures
            final(self).wf(),
            (seen(result), final(self)@) == old(self)@.applying(change@, now_ms),
    {
        self.validate_change(&change)?;
        if let Some(existing) = self.changes.get(&change.id) {
            return if existing.same(&change) {
                Ok(Apply::Duplicate)
            } else {
                let mut message = "change ".to_owned();
                message.append(change.id.replica.to_string().as_str());
                message.append(":");
                message.append(decimal(change.id.counter).as_str());
                message.append(" collides with different retained content");
                Err(Error::new(ErrorCode::InvalidData, message.as_str()))
            };
        }
        let ghost before = *self;
        self.clock.observe(change.timestamp, now_ms);
        proof {
            assert(self@.changes =~= before@.changes);
            assert(self@.documents =~= before@.documents);
            assert(self@.schemas =~= before@.schemas);
            assert forall|id: ChangeId| #[trigger] self@.changes.contains_key(id) implies self@.clock.reaches(
                self@.changes[id].timestamp,
            ) by {
                assert(before@.changes.contains_key(id));
            }
            assert(self.maps_wf());
            assert(self@.consistent());
        }
        let outcome = self.apply_validated(change);
        assert(self@ =~= (ReplicaView {
            clock: observed(before@.clock, change.timestamp, now_ms),
            ..before@.retaining(change@)
        }));
        Ok(outcome)
    }

    /// Returns the contiguous reconciliation frontier.
    pub fn frontier(&self) -> (frontier: &Frontier)
        requires
            self.wf(),
        ensures
            frontier.wf(),
            frontier@ == self@.frontier,
    {
        &self.frontier
    }

    /// Returns retained changes absent beyond `peer`'s contiguous frontier.
    pub fn missing_for(&self, peer: &Frontier) -> (changes: Vec<Change>)
        requires
            self.wf(),
            peer.wf(),
        ensures
            change_views(changes@) == self.missing(peer@),
    {
        let mut changes: Vec<Change> = Vec::new();
        let mut index: usize = 0;
        let len: usize = self.changes.len();
        let ghost wanted = |change: ChangeView| change.id.counter > known(peer@, change.id.replica);
        let ghost log = self.log();
        proof {
            assert(log.take(0).filter(wanted) =~= Seq::<ChangeView>::empty()) by {
                reveal(Seq::filter);
            }
            assert(change_views(changes@) =~= Seq::<ChangeView>::empty());
        }
        while index < len
            invariant
                self.wf(),
                peer.wf(),
                log == self.log(),
                len == log.len(),
                len == self.changes.keys().len(),
                index <= len,
                wanted == (|change: ChangeView|
                    change.id.counter > known(peer@, change.id.replica)),
                change_views(changes@) == log.take(index as int).filter(wanted),
            decreases len - index,
        {
            let change = self.changes.value_at(index);
            proof {
                assert(log.take(index + 1).drop_last() =~= log.take(index as int));
                assert(log.take(index + 1).last() == change@);
                reveal(Seq::filter);
            }
            if change.id.counter > peer.get(change.id.replica) {
                let ghost before = changes@;
                changes.push(change.clone());
                assert(change_views(changes@) =~= change_views(before).push(change@));
            }
            index += 1;
        }
        assert(log.take(log.len() as int) =~= log);
        changes
    }

    /// Returns one bounded page of changes between `peer` and a fixed target.
    ///
    /// The target should be a previously captured local frontier. Changes
    /// authored after that snapshot are excluded, so a reconciliation session
    /// terminates even while new writes continue.
    pub fn missing_for_target(&self, peer: &Frontier, target: &Frontier, limit: usize) -> (page: (
        Vec<Change>,
        bool,
    ))
        requires
            self.wf(),
            peer.wf(),
            target.wf(),
        ensures
            ({
                let missing = self.log().filter(
                    |change: ChangeView|
                        known(peer@, change.id.replica) < change.id.counter <= known(
                            target@,
                            change.id.replica,
                        ),
                );
                &&& page.1 == (missing.len() > limit)
                &&& change_views(page.0@) == if missing.len() > limit {
                    missing.take(limit as int)
                } else {
                    missing
                }
            }),
    {
        let mut changes: Vec<Change> = Vec::new();
        let mut has_more = false;
        let mut index: usize = 0;
        let len: usize = self.changes.len();
        let ghost wanted = |change: ChangeView|
            known(peer@, change.id.replica) < change.id.counter <= known(
                target@,
                change.id.replica,
            );
        let ghost log = self.log();
        proof {
            assert(log.take(0).filter(wanted) =~= Seq::<ChangeView>::empty()) by {
                reveal(Seq::filter);
            }
            assert(change_views(changes@) =~= Seq::<ChangeView>::empty());
        }
        while index < len && !has_more
            invariant
                self.wf(),
                peer.wf(),
                target.wf(),
                log == self.log(),
                len == log.len(),
                len == self.changes.keys().len(),
                index <= len,
                changes@.len() <= limit,
                wanted == (|change: ChangeView|
                    known(peer@, change.id.replica) < change.id.counter <= known(
                        target@,
                        change.id.replica,
                    )),
                !has_more ==> change_views(changes@) == log.take(index as int).filter(wanted),
                has_more ==> changes@.len() == limit && log.take(index as int).filter(wanted)
                    == change_views(changes@).push(log[index - 1]) && index > 0,
            decreases len - index,
        {
            let change = self.changes.value_at(index);
            proof {
                assert(log.take(index + 1).drop_last() =~= log.take(index as int));
                assert(log.take(index + 1).last() == change@);
                reveal(Seq::filter);
            }
            if change.id.counter > peer.get(change.id.replica) && change.id.counter <= target.get(
                change.id.replica,
            ) {
                if changes.len() < limit {
                    let ghost before = changes@;
                    changes.push(change.clone());
                    assert(change_views(changes@) =~= change_views(before).push(change@));
                } else {
                    has_more = true;
                }
            }
            index += 1;
        }
        proof {
            let missing = log.filter(wanted);
            assert(log.take(log.len() as int) =~= log);
            let prefix = log.take(index as int);
            prefix.lemma_filter_monotone(log, wanted);
            if has_more {
                assert(prefix.filter(wanted).is_prefix_of(missing));
                assert(missing.len() > limit);
                assert(missing.take(limit as int) =~= change_views(changes@));
            }
        }
        (changes, has_more)
    }

    /// Returns the winning state, including tombstones, for one document.
    pub fn document(&self, collection: &str, document: DocumentId) -> (state: Option<
        &MaterializedDocument,
    >)
        requires
            self.wf(),
        ensures
            match state {
                Some(state) => {
                    &&& self@.documents.contains_key((collection@, document))
                    &&& self@.documents[(collection@, document)] == state@
                },
                None => !self@.documents.contains_key((collection@, document)),
            },
    {
        let key = DocumentKey { collection: collection.to_owned(), document };
        self.documents.get(&key)
    }

    /// Returns all materialized winners, including tombstones, in ascending
    /// key order.
    pub fn documents(&self) -> (documents: Vec<(&DocumentKey, &MaterializedDocument)>)
        requires
            self.wf(),
        ensures
            ascending::<DocumentKey>(
                documents@.map_values(|entry: (&DocumentKey, &MaterializedDocument)| entry.0@),
            ),
            forall|i: int|
                0 <= i < documents@.len() ==> self@.documents.contains_key(
                    (#[trigger] documents@[i]).0@,
                ) && self@.documents[documents@[i].0@] == documents@[i].1@,
            documents@.len() == self@.documents.len(),
    {
        let mut documents: Vec<(&DocumentKey, &MaterializedDocument)> = Vec::new();
        let mut index: usize = 0;
        let len: usize = self.documents.len();
        proof {
            self.documents.lemma_keys();
            assert(self@.documents.dom() =~= self.documents@.dom());
        }
        while index < len
            invariant
                self.wf(),
                len == self.documents.keys().len(),
                index <= len,
                documents@.len() == index,
                forall|i: int|
                    0 <= i < index ==> (#[trigger] documents@[i]).0@ == self.documents.keys()[i]
                        && self@.documents.contains_key(documents@[i].0@)
                        && self@.documents[documents@[i].0@] == documents@[i].1@,
            decreases len - index,
        {
            let key = self.documents.key_at(index);
            let state = self.documents.value_at(index);
            documents.push((key, state));
            index += 1;
        }
        assert(documents@.map_values(|entry: (&DocumentKey, &MaterializedDocument)| entry.0@)
            =~= self.documents.keys());
        documents
    }

    /// Returns the number of retained unique changes.
    pub fn change_count(&self) -> (count: usize)
        requires
            self.wf(),
        ensures
            count == self@.changes.len(),
    {
        assert(self@.changes.dom() =~= self.changes@.dom());
        self.changes.len()
    }

    /// Returns retained changes affecting one document, in ascending order of
    /// identity.
    pub fn changes_for_document(&self, collection: &str, document: DocumentId) -> (changes: Vec<
        &Change,
    >)
        requires
            self.wf(),
        ensures
            changes@.map_values(|change: &Change| change@) == self.log().filter(
                |change: ChangeView| change.operation.key() == (collection@, document),
            ),
    {
        let mut changes: Vec<&Change> = Vec::new();
        let mut index: usize = 0;
        let len: usize = self.changes.len();
        let ghost wanted = |change: ChangeView| change.operation.key() == (collection@, document);
        let ghost view = |change: &Change| change@;
        let ghost log = self.log();
        proof {
            assert(log.take(0).filter(wanted) =~= Seq::<ChangeView>::empty()) by {
                reveal(Seq::filter);
            }
            assert(changes@.map_values(view) =~= Seq::<ChangeView>::empty());
        }
        while index < len
            invariant
                self.wf(),
                log == self.log(),
                len == log.len(),
                len == self.changes.keys().len(),
                index <= len,
                view == (|change: &Change| change@),
                wanted == (|change: ChangeView| change.operation.key() == (collection@, document)),
                changes@.map_values(view) == log.take(index as int).filter(wanted),
            decreases len - index,
        {
            let change = self.changes.value_at(index);
            proof {
                assert(log.take(index + 1).drop_last() =~= log.take(index as int));
                assert(log.take(index + 1).last() == change@);
                reveal(Seq::filter);
            }
            if same_text(change.operation.collection(), collection) && change.operation.document()
                == document {
                let ghost before = changes@;
                changes.push(change);
                assert(changes@.map_values(view) =~= before.map_values(view).push(change@));
            }
            index += 1;
        }
        assert(log.take(log.len() as int) =~= log);
        changes
    }

    fn validate_change(&self, change: &Change) -> (result: Result<()>)
        requires
            self.wf(),
        ensures
            refusal(result) == self@.change_refusal(change@),
    {
        if change.space != self.space {
            return Err(
                Error::new(ErrorCode::InvalidInput, "a change cannot cross space boundaries"),
            );
        }
        if change.id.counter == 0 || change.timestamp.replica != change.id.replica {
            return Err(
                Error::new(
                    ErrorCode::InvalidData,
                    "a change has an invalid author counter or timestamp",
                ),
            );
        }
        self.validate_operation(&change.operation)
    }

    fn validate_operation(&self, operation: &Operation) -> (result: Result<()>)
        requires
            self.wf(),
        ensures
            refusal(result) == operation_refusal(self@.schemas, operation@),
    {
        validate_collection(operation.collection())?;
        let name = operation.collection().to_owned();
        match self.schemas.get(&name) {
            None => {
                let mut message = "collection '".to_owned();
                message.append(operation.collection());
                message.append("' has no configured schema");
                return Err(Error::new(ErrorCode::InvalidData, message.as_str()));
            },
            Some(accepted) => {
                if !accepted.contains(&operation.schema()) {
                    let mut message = "collection '".to_owned();
                    message.append(operation.collection());
                    message.append("' does not accept schema ");
                    message.append(hex(be_u64(operation.schema()).as_slice()).as_str());
                    return Err(Error::new(ErrorCode::InvalidData, message.as_str()));
                }
            },
        }
        if let Some(payload) = operation.payload() {
            if payload.len() > MAX_PAYLOAD_BYTES {
                return Err(
                    Error::new(ErrorCode::InvalidData, "replicated payload exceeds 16777216 bytes"),
                );
            }
        }
        Ok(())
    }

    fn apply_validated(&mut self, change: Change) -> (outcome: Apply)
        requires
            old(self).maps_wf(),
            old(self)@.consistent(),
            old(self)@.change_refusal(change@) is None,
            !old(self)@.changes.contains_key(change.id),
            old(self)@.clock.reaches(change.timestamp),
        ensures
            final(self).wf(),
            final(self)@ == old(self)@.retaining(change@),
            outcome == (Apply::Applied { visible: old(self)@.would_show(change@) }),
    {
        let ghost before = *self;
        let key = DocumentKey {
            collection: change.operation.collection().to_owned(),
            document: change.operation.document(),
        };
        let payload = match change.operation.payload() {
            Some(payload) => Some(copy_bytes(payload.as_slice())),
            None => None,
        };
        let candidate = MaterializedDocument {
            schema: change.operation.schema(),
            payload,
            timestamp: change.timestamp,
            change: change.id,
        };
        assert(candidate@ == state_of(change@));
        let visible = match self.documents.get(&key) {
            None => true,
            Some(current) => {
                if candidate.timestamp == current.timestamp {
                    match current.change.rank(&candidate.change) {
                        Rank::Before => true,
                        _ => {
                            proof {
                                <ChangeId as Key>::ordered(
                                    current.change,
                                    candidate.change,
                                    current.change,
                                );
                            }
                            false
                        },
                    }
                } else {
                    candidate.timestamp.is_later(&current.timestamp)
                }
            },
        };
        assert(visible == before@.would_show(change@));
        if visible {
            self.documents.insert(key, candidate);
        }
        let author = change.id.replica;
        let ghost added = change@;
        if author == self.id && change.id.counter > self.next_counter {
            self.next_counter = change.id.counter;
        }
        self.changes.insert(change.id, change);
        proof {
            assert(self@.changes =~= before@.changes.insert(added.id, added));
            assert(self@.documents =~= before@.retaining(added).documents);
            lemma_retained(before@, added);
        }
        self.advance_frontier(author);
        proof {
            assert(self@.changes =~= before@.changes.insert(added.id, added));
            assert(self@.documents =~= before@.retaining(added).documents);
            assert(self@.schemas =~= before@.schemas);
            assert(self@ =~= before@.retaining(added));
            lemma_retaining_consistent(before@, added);
        }
        Apply::Applied { visible }
    }

    fn advance_frontier(&mut self, author: ReplicaId)
        requires
            old(self).maps_wf(),
            forall|c: u64|
                1 <= c <= known(old(self)@.frontier, author) ==> #[trigger] old(self)@.changes.contains_key(
                    ChangeId { replica: author, counter: c },
                ),
        ensures
            final(self).maps_wf(),
            is_contiguous(
                old(self)@.changes,
                author,
                contiguous(old(self)@.changes, author),
            ),
            final(self)@ == (ReplicaView {
                frontier: recorded(
                    old(self)@.frontier,
                    author,
                    contiguous(old(self)@.changes, author),
                ),
                ..old(self)@
            }),
    {
        let mut counter: u64 = self.frontier.get(author);
        let ghost before = *self;
        let ghost changes = self@.changes;
        let mut advancing = true;
        while advancing
            invariant
                *self == before,
                self.maps_wf(),
                changes == self@.changes,
                forall|c: u64|
                    1 <= c <= counter ==> #[trigger] changes.contains_key(
                        ChangeId { replica: author, counter: c },
                    ),
                !advancing ==> is_contiguous(changes, author, counter),
            decreases u64::MAX - counter, (if advancing { 1int } else { 0int }),
        {
            if counter == u64::MAX {
                advancing = false;
            } else {
                let next = ChangeId { replica: author, counter: counter + 1 };
                if self.changes.contains(&next) {
                    counter += 1;
                } else {
                    advancing = false;
                }
            }
        }
        proof {
            assert(is_contiguous(changes, author, counter));
            lemma_contiguous(changes, author, counter);
        }
        self.frontier.set(author, counter);
        proof {
            assert(self@.changes =~= before@.changes);
            assert(self@.documents =~= before@.documents);
            assert(self@.schemas =~= before@.schemas);
            assert(self@ =~= (ReplicaView {
                frontier: recorded(before@.frontier, author, counter),
                ..before@
            }));
        }
    }
}

impl Value for Change {
    open spec fn alike(a: Change, b: Change) -> bool {
        a@ == b@
    }

    fn copy_value(&self) -> (copy: Self) {
        self.clone()
    }
}

impl Value for MaterializedDocument {
    open spec fn alike(a: MaterializedDocument, b: MaterializedDocument) -> bool {
        a@ == b@
    }

    fn copy_value(&self) -> (copy: Self) {
        self.clone()
    }
}

impl Clone for Replica {
    fn clone(&self) -> (copy: Self)
        ensures
            self.wf() ==> copy.wf() && copy@ == self@,
    {
        let copy = Replica {
            id: self.id,
            space: self.space,
            next_counter: self.next_counter,
            clock: self.clock,
            schemas: self.schemas.clone(),
            changes: self.changes.clone(),
            frontier: self.frontier.clone(),
            documents: self.documents.clone(),
        };
        proof {
            if self.wf() {
                assert forall|name: Seq<char>| #[trigger] copy@.schemas.contains_key(name) implies copy@.schemas[name]
                    == self@.schemas[name] by {
                    assert(copy.schemas@.contains_key(name));
                    assert(copy@.schemas[name] =~= self@.schemas[name]);
                }
                assert(copy@.schemas =~= self@.schemas);
                assert(copy@.changes =~= self@.changes);
                assert(copy@.documents =~= self@.documents);
                assert(copy@ =~= self@);
                assert forall|name: Seq<char>| #[trigger] copy.schemas@.contains_key(name) implies copy.schemas@[name].wf() by {
                    assert(self.schemas@.contains_key(name));
                }
            }
        }
        copy
    }
}

pub(crate) proof fn lemma_contiguous(changes: Map<ChangeId, ChangeView>, replica: ReplicaId, counter: u64)
    requires
        is_contiguous(changes, replica, counter),
    ensures
        contiguous(changes, replica) == counter,
{
    let other = contiguous(changes, replica);
    assert(is_contiguous(changes, replica, other));
    if other < counter {
        assert(changes.contains_key(ChangeId { replica, counter: (other + 1) as u64 }));
    } else if counter < other {
        assert(changes.contains_key(ChangeId { replica, counter: (counter + 1) as u64 }));
    }
}

pub(crate) proof fn lemma_supersedes(a: DocumentView, b: DocumentView, c: DocumentView)
    ensures
        supersedes(a, b) && supersedes(b, c) ==> supersedes(a, c),
        a.change != b.change ==> supersedes(a, b) || supersedes(b, a),
        !(supersedes(a, b) && supersedes(b, a)),
{
    <ChangeId as Key>::ordered(a.change, b.change, c.change);
    <ChangeId as Key>::ordered(c.change, b.change, a.change);
    <ChangeId as Key>::ordered(b.change, a.change, c.change);
}

/// What the changes retained before a new one say of the contiguous counters.
proof fn lemma_retained(before: ReplicaView, change: ChangeView)
    requires
        before.consistent(),
        !before.changes.contains_key(change.id),
    ensures
        forall|c: u64|
            1 <= c <= known(before.frontier, change.id.replica)
                ==> #[trigger] before.changes.insert(change.id, change).contains_key(
                ChangeId { replica: change.id.replica, counter: c },
            ),
{
    assert(is_contiguous(
        before.changes,
        change.id.replica,
        known(before.frontier, change.id.replica),
    ));
}

pub(crate) proof fn lemma_retaining_consistent(before: ReplicaView, change: ChangeView)
    requires
        before.consistent(),
        before.change_refusal(change) is None,
        !before.changes.contains_key(change.id),
        before.clock.reaches(change.timestamp),
        is_contiguous(
            before.changes.insert(change.id, change),
            change.id.replica,
            contiguous(before.changes.insert(change.id, change), change.id.replica),
        ),
    ensures
        before.retaining(change).consistent(),
{
    let after = before.retaining(change);
    let key = change.operation.key();
    assert forall|id: ChangeId| #[trigger] after.changes.contains_key(id) implies after.changes[id].id
        == id && after.documents.contains_key(after.changes[id].operation.key()) by {
        if id != change.id {
            assert(before.changes.contains_key(id));
        }
    }
    assert forall|k: (Seq<char>, DocumentId)| #[trigger] after.documents.contains_key(k) implies touches(
        after.changes,
        after.documents[k].change,
        k,
    ) && after.documents[k] == state_of(after.changes[after.documents[k].change]) by {
        if k != key || !before.would_show(change) {
            assert(before.documents.contains_key(k));
            assert(touches(before.changes, before.documents[k].change, k));
        }
    }
    assert forall|k: (Seq<char>, DocumentId), id: ChangeId|
        after.documents.contains_key(k) && #[trigger] touches(after.changes, id, k) && id
            != after.documents[k].change implies supersedes(
        after.documents[k],
        state_of(after.changes[id]),
    ) by {
        if id == change.id {
            assert(k == key);
            assert(!before.would_show(change));
            lemma_supersedes(before.documents[key], state_of(change), state_of(change));
            assert(touches(before.changes, before.documents[key].change, key));
        } else {
            assert(touches(before.changes, id, k));
            assert(before.changes.contains_key(id));
            assert(before.documents.contains_key(k));
            if k == key && before.would_show(change) {
                if id != before.documents[k].change {
                    lemma_supersedes(
                        state_of(change),
                        before.documents[k],
                        state_of(before.changes[id]),
                    );
                }
            }
        }
    }
    assert forall|replica: ReplicaId| is_contiguous(
        after.changes,
        replica,
        #[trigger] known(after.frontier, replica),
    ) by {
        assert(is_contiguous(before.changes, replica, known(before.frontier, replica)));
        if replica != change.id.replica {
            assert(known(after.frontier, replica) == known(before.frontier, replica));
        }
    }
    assert forall|id: ChangeId| #[trigger]
        after.changes.contains_key(id) && id.replica == after.id implies id.counter
        <= after.next_counter by {
        if id != change.id {
            assert(before.changes.contains_key(id));
        }
    }
    assert forall|replica: ReplicaId| #[trigger] after.frontier.contains_key(replica) implies after.frontier[replica]
        > 0 by {
        if replica != change.id.replica {
            assert(before.frontier.contains_key(replica));
        }
    }
}

} // verus!
