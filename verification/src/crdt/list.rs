//! A deterministic, merge-aware replicated list.

use crate::crdt::laws::{
    law_element_at_the_index_is_removed, law_element_is_inserted_before_the_index, unused,
    written_up_to,
};
use crate::crdt::order::{
    are_steps, extends, in_sibling_order, is_path, is_segment, is_visible_order, leads_to,
    lemma_path_bounded, lemma_path_extended, lemma_segment_complete, lemma_segment_step, lemma_visible_unique, path_of,
    shows, sibling_before, visible,
};
use crate::error::{failure, seen, Error, ErrorCode, ErrorView, Result};
use crate::id::{id_text, ReplicaId};
use crate::ordmap::{ascending, Key, OrdMap, Rank, Value};
use crate::text::{decimal, decimal_text, decimal_wide, same_text};
use vstd::prelude::*;
use vstd::string::*;

verus! {

/// A value that a list can hold: one that can be copied and compared.
pub trait Element: Sized + View {
    /// Returns whether two values are the same.
    fn same(&self, other: &Self) -> (same: bool)
        ensures
            same == (self@ == other@),
    ;

    /// Copies a value.
    fn copied(&self) -> (copy: Self)
        ensures
            copy@ == self@,
    ;
}

impl Element for char {
    fn same(&self, other: &Self) -> (same: bool) {
        *self == *other
    }

    fn copied(&self) -> (copy: Self) {
        *self
    }
}

impl Element for u8 {
    fn same(&self, other: &Self) -> (same: bool) {
        *self == *other
    }

    fn copied(&self) -> (copy: Self) {
        *self
    }
}

impl Element for u16 {
    fn same(&self, other: &Self) -> (same: bool) {
        *self == *other
    }

    fn copied(&self) -> (copy: Self) {
        *self
    }
}

impl Element for u32 {
    fn same(&self, other: &Self) -> (same: bool) {
        *self == *other
    }

    fn copied(&self) -> (copy: Self) {
        *self
    }
}

impl Element for u64 {
    fn same(&self, other: &Self) -> (same: bool) {
        *self == *other
    }

    fn copied(&self) -> (copy: Self) {
        *self
    }
}

impl Element for u128 {
    fn same(&self, other: &Self) -> (same: bool) {
        *self == *other
    }

    fn copied(&self) -> (copy: Self) {
        *self
    }
}

impl Element for usize {
    fn same(&self, other: &Self) -> (same: bool) {
        *self == *other
    }

    fn copied(&self) -> (copy: Self) {
        *self
    }
}

impl Element for i64 {
    fn same(&self, other: &Self) -> (same: bool) {
        *self == *other
    }

    fn copied(&self) -> (copy: Self) {
        *self
    }
}

impl Element for bool {
    fn same(&self, other: &Self) -> (same: bool) {
        *self == *other
    }

    fn copied(&self) -> (copy: Self) {
        *self
    }
}

impl Element for String {
    fn same(&self, other: &Self) -> (same: bool) {
        same_text(self.as_str(), other.as_str())
    }

    fn copied(&self) -> (copy: Self) {
        self.as_str().to_owned()
    }
}

impl<'a> Element for &'a str {
    fn same(&self, other: &Self) -> (same: bool) {
        same_text(*self, *other)
    }

    fn copied(&self) -> (copy: Self) {
        *self
    }
}

/// Globally unique identity for one merge-aware datatype operation.
#[derive(Clone, Copy, Debug, PartialEq, Eq, PartialOrd, Ord, Hash, Structural)]
pub struct OpId {
    /// Replica authoring the operation.
    pub replica: ReplicaId,
    /// Strictly increasing actor-local counter beginning at one.
    pub counter: u64,
}

impl View for OpId {
    type V = OpId;

    open spec fn view(&self) -> OpId {
        *self
    }
}

impl Key for OpId {
    open spec fn before(a: OpId, b: OpId) -> bool {
        a.replica.0 < b.replica.0 || (a.replica == b.replica && a.counter < b.counter)
    }

    proof fn ordered(a: OpId, b: OpId, c: OpId) {
    }

    fn rank(&self, other: &Self) -> (rank: Rank) {
        match self.replica.rank(&other.replica) {
            Rank::Same => self.counter.rank(&other.counter),
            rank => rank,
        }
    }

    fn duplicate(&self) -> (copy: Self) {
        *self
    }
}

impl Key for Option<OpId> {
    open spec fn before(a: Option<OpId>, b: Option<OpId>) -> bool {
        match (a, b) {
            (None, Some(_)) => true,
            (Some(a), Some(b)) => <OpId as Key>::before(a, b),
            _ => false,
        }
    }

    proof fn ordered(a: Option<OpId>, b: Option<OpId>, c: Option<OpId>) {
    }

    fn rank(&self, other: &Self) -> (rank: Rank) {
        match (self, other) {
            (None, None) => Rank::Same,
            (None, Some(_)) => Rank::Before,
            (Some(_), None) => Rank::After,
            (Some(left), Some(right)) => left.rank(right),
        }
    }

    fn duplicate(&self) -> (copy: Self) {
        *self
    }
}

/// Local operation-ID generator for one replica and datatype editing session.
#[derive(Clone, Copy, Debug, PartialEq, Eq, Structural)]
pub struct Actor {
    replica: ReplicaId,
    counter: u64,
    limit: u64,
}

/// What an [`Actor`] may issue.
pub struct ActorView {
    /// Replica authoring the operations.
    pub replica: ReplicaId,
    /// Greatest counter issued.
    pub counter: u64,
    /// Greatest counter that may be issued.
    pub limit: u64,
}

impl View for Actor {
    type V = ActorView;

    closed spec fn view(&self) -> ActorView {
        ActorView { replica: self.replica, counter: self.counter, limit: self.limit }
    }
}

impl ActorView {
    /// Why no further identity can be issued.
    pub open spec fn issue_refusal(self) -> Option<ErrorView> {
        if self.counter == self.limit {
            Some(
                failure(
                    ErrorCode::InvalidData,
                    "the actor's durable operation-ID reservation is exhausted"@,
                ),
            )
        } else if self.counter == u64::MAX {
            Some(failure(ErrorCode::InvalidData, "merge-aware operation counter is exhausted"@))
        } else {
            None
        }
    }

    /// The next identity.
    pub open spec fn next_id(self) -> OpId {
        OpId { replica: self.replica, counter: (self.counter + 1) as u64 }
    }

    /// The actor after it has issued its next identity.
    pub open spec fn issued(self) -> ActorView {
        ActorView { counter: (self.counter + 1) as u64, ..self }
    }
}

impl Actor {
    /// Creates an actor whose next operation counter is one.
    pub fn new(replica: ReplicaId) -> (actor: Self)
        ensures
            actor@ == (ActorView { replica, counter: 0, limit: u64::MAX }),
    {
        Actor { replica, counter: 0, limit: u64::MAX }
    }

    /// Restores an actor after its greatest durable counter.
    pub fn after(replica: ReplicaId, counter: u64) -> (actor: Self)
        ensures
            actor@ == (ActorView { replica, counter, limit: u64::MAX }),
    {
        Actor { replica, counter, limit: u64::MAX }
    }

    /// Creates an actor restricted to a durably reserved counter range.
    ///
    /// The first issued counter is `counter + 1`; issuance stops at `limit`.
    pub fn reserved(replica: ReplicaId, counter: u64, limit: u64) -> (actor: Result<Self>)
        ensures
            match actor {
                Ok(actor) => counter <= limit && actor@ == (ActorView { replica, counter, limit }),
                Err(error) => counter > limit && error@ == failure(
                    ErrorCode::InvalidInput,
                    "an actor reservation cannot begin beyond its limit"@,
                ),
            },
    {
        if counter > limit {
            return Err(
                Error::new(
                    ErrorCode::InvalidInput,
                    "an actor reservation cannot begin beyond its limit",
                ),
            );
        }
        Ok(Actor { replica, counter, limit })
    }

    /// Returns the greatest ID issued by this actor, or zero before any issue.
    pub fn counter(self) -> (counter: u64)
        ensures
            counter == self@.counter,
    {
        self.counter
    }

    fn issue(&mut self) -> (id: Result<OpId>)
        ensures
            match id {
                Ok(id) => {
                    &&& old(self)@.issue_refusal() is None
                    &&& id == old(self)@.next_id()
                    &&& final(self)@ == old(self)@.issued()
                },
                Err(error) => {
                    &&& old(self)@.issue_refusal() == Some(error@)
                    &&& *final(self) == *old(self)
                },
            },
    {
        if self.counter == self.limit {
            return Err(
                Error::new(
                    ErrorCode::InvalidData,
                    "the actor's durable operation-ID reservation is exhausted",
                ),
            );
        }
        match self.counter.checked_add(1) {
            Some(counter) => {
                self.counter = counter;
                Ok(OpId { replica: self.replica, counter })
            },
            None => Err(
                Error::new(ErrorCode::InvalidData, "merge-aware operation counter is exhausted"),
            ),
        }
    }
}

/// One commutative operation over a [`List`].
#[derive(Debug, PartialEq, Eq)]
pub enum ListOp<T> {
    /// Insert a uniquely identified value after an observed element.
    Insert {
        /// Identity of both the operation and new element.
        id: OpId,
        /// Predecessor observed at insertion time, or the list root.
        after: Option<OpId>,
        /// Inserted application value.
        value: T,
    },
    /// Hide an observed element while retaining its anchor for descendants.
    Delete {
        /// Unique identity of the deletion operation.
        id: OpId,
        /// Element that was observed and deleted.
        target: OpId,
    },
}

/// What a [`ListOp`] says.
#[verifier::ext_equal]
pub enum ListOpView<V> {
    /// Insert a value after an element.
    Insert {
        /// Identity of both the operation and new element.
        id: OpId,
        /// Predecessor, or the list root.
        after: Option<OpId>,
        /// Inserted value.
        value: V,
    },
    /// Hide an element.
    Delete {
        /// Identity of the deletion.
        id: OpId,
        /// Element deleted.
        target: OpId,
    },
}

impl<V> ListOpView<V> {
    /// The operation's identity.
    pub open spec fn id(self) -> OpId {
        match self {
            ListOpView::Insert { id, .. } => id,
            ListOpView::Delete { id, .. } => id,
        }
    }
}

impl<T: View> View for ListOp<T> {
    type V = ListOpView<T::V>;

    open spec fn view(&self) -> ListOpView<T::V> {
        match self {
            ListOp::Insert { id, after, value } => ListOpView::Insert {
                id: *id,
                after: *after,
                value: value@,
            },
            ListOp::Delete { id, target } => ListOpView::Delete { id: *id, target: *target },
        }
    }
}

impl<T: Element> ListOp<T> {
    /// Returns this operation's globally unique identity.
    pub fn id(&self) -> (id: OpId)
        ensures
            id == self@.id(),
    {
        match self {
            ListOp::Insert { id, .. } => *id,
            ListOp::Delete { id, .. } => *id,
        }
    }

    /// Returns whether two operations are the same.
    pub fn same(&self, other: &Self) -> (same: bool)
        ensures
            same == (self@ == other@),
    {
        match (self, other) {
            (
                ListOp::Insert { id, after, value },
                ListOp::Insert { id: other_id, after: other_after, value: other_value },
            ) => *id == *other_id && after.rank(other_after) == Rank::Same && value.same(
                other_value,
            ),
            (
                ListOp::Delete { id, target },
                ListOp::Delete { id: other_id, target: other_target },
            ) => *id == *other_id && *target == *other_target,
            _ => false,
        }
    }
}

impl<T: Element> Clone for ListOp<T> {
    fn clone(&self) -> (copy: Self)
        ensures
            copy@ == self@,
    {
        match self {
            ListOp::Insert { id, after, value } => ListOp::Insert {
                id: *id,
                after: *after,
                value: value.copied(),
            },
            ListOp::Delete { id, target } => ListOp::Delete { id: *id, target: *target },
        }
    }
}

/// Outcome of applying an operation to a merge-aware datatype.
#[derive(Clone, Copy, Debug, PartialEq, Eq, Structural)]
pub enum Apply {
    /// The operation was new and retained.
    Applied,
    /// The exact operation was already retained.
    Duplicate,
}

/// A retained insertion.
#[derive(Debug, PartialEq, Eq)]
struct Entry<T> {
    after: Option<OpId>,
    value: T,
}

impl<T: Element> Value for Entry<T> {
    closed spec fn alike(a: Entry<T>, b: Entry<T>) -> bool {
        a.after == b.after && a.value@ == b.value@
    }

    fn copy_value(&self) -> (copy: Self) {
        Entry { after: self.after, value: self.value.copied() }
    }
}

impl Value for OpId {
    open spec fn alike(a: OpId, b: OpId) -> bool {
        a == b
    }

    fn copy_value(&self) -> (copy: Self) {
        *self
    }
}

/// A retained insertion, its value taken by its view.
#[verifier::ext_equal]
pub struct EntryView<V> {
    /// Predecessor, or the list root.
    pub after: Option<OpId>,
    /// Inserted value.
    pub value: V,
}

/// What a [`List`] retains.
#[verifier::ext_equal]
pub struct ListView<V> {
    /// Insertions by identity.
    pub inserts: Map<OpId, EntryView<V>>,
    /// Deleted element by identity of the deletion.
    pub deletes: Map<OpId, OpId>,
}

/// The error for a zero counter.
pub open spec fn zero_counter_error() -> ErrorView {
    failure(ErrorCode::InvalidData, "merge-aware operation counter must be non-zero"@)
}

/// The error for an identity retained with other content.
pub open spec fn collision_error(id: OpId) -> ErrorView {
    failure(
        ErrorCode::InvalidData,
        "merge-aware operation "@ + id_text(id.replica.0) + ":"@ + decimal_text(id.counter as nat)
            + " collides with different content"@,
    )
}

/// The error for an insertion after itself.
pub open spec fn self_anchor_error() -> ErrorView {
    failure(ErrorCode::InvalidData, "a list insertion cannot use itself as its anchor"@)
}

impl<V> ListView<V> {
    /// A list that retains nothing.
    pub open spec fn empty() -> ListView<V> {
        ListView { inserts: Map::empty(), deletes: Map::empty() }
    }

    /// The retained operation of an identity.
    pub open spec fn operation(self, id: OpId) -> Option<ListOpView<V>> {
        if self.inserts.contains_key(id) {
            Some(
                ListOpView::Insert {
                    id,
                    after: self.inserts[id].after,
                    value: self.inserts[id].value,
                },
            )
        } else if self.deletes.contains_key(id) {
            Some(ListOpView::Delete { id, target: self.deletes[id] })
        } else {
            None
        }
    }

    /// What holds of every list: each identity stands for one operation, every
    /// counter is non-zero and no element is its own anchor.
    pub open spec fn valid(self) -> bool {
        &&& self.inserts.dom().finite()
        &&& self.deletes.dom().finite()
        &&& forall|id: OpId| #[trigger]
            self.inserts.contains_key(id) ==> !self.deletes.contains_key(id) && id.counter > 0
                && self.inserts[id].after != Some(id) && (self.inserts[id].after matches Some(anchor)
                ==> anchor.counter > 0)
        &&& forall|id: OpId| #[trigger]
            self.deletes.contains_key(id) ==> id.counter > 0 && self.deletes[id].counter > 0
    }

    /// The list after a new operation has been retained.
    pub open spec fn retaining(self, operation: ListOpView<V>) -> ListView<V> {
        match operation {
            ListOpView::Insert { id, after, value } => ListView {
                inserts: self.inserts.insert(id, EntryView { after, value }),
                ..self
            },
            ListOpView::Delete { id, target } => ListView {
                deletes: self.deletes.insert(id, target),
                ..self
            },
        }
    }

    /// What comes of applying an operation, and the list afterwards.
    pub open spec fn applying(self, operation: ListOpView<V>) -> (
        std::result::Result<Apply, ErrorView>,
        ListView<V>,
    ) {
        if operation.id().counter == 0 {
            (Err(zero_counter_error()), self)
        } else if let Some(existing) = self.operation(operation.id()) {
            if existing == operation {
                (Ok(Apply::Duplicate), self)
            } else {
                (Err(collision_error(operation.id())), self)
            }
        } else if let Some(error) = anchor_refusal(operation) {
            (Err(error), self)
        } else {
            (Ok(Apply::Applied), self.retaining(operation))
        }
    }

    /// Whether an identity stands for different operations in two lists.
    pub open spec fn collides(self, other: ListView<V>, id: OpId) -> bool {
        &&& self.operation(id) is Some
        &&& other.operation(id) is Some
        &&& self.operation(id) != other.operation(id)
    }

    /// All that two lists retain.
    pub open spec fn union(self, other: ListView<V>) -> ListView<V> {
        ListView {
            inserts: self.inserts.union_prefer_right(other.inserts),
            deletes: self.deletes.union_prefer_right(other.deletes),
        }
    }
}

/// Why a new operation is refused for the element that it names.
pub open spec fn anchor_refusal<V>(operation: ListOpView<V>) -> Option<ErrorView> {
    match operation {
        ListOpView::Insert { id, after: Some(anchor), .. } => if anchor.counter == 0 {
            Some(zero_counter_error())
        } else if anchor == id {
            Some(self_anchor_error())
        } else {
            None
        },
        ListOpView::Insert { after: None, .. } => None,
        ListOpView::Delete { target, .. } => if target.counter == 0 {
            Some(zero_counter_error())
        } else {
            None
        },
    }
}

/// A list after operations in order, or the first error.
pub open spec fn applied_all<V>(
    state: ListView<V>,
    operations: Seq<ListOpView<V>>,
) -> std::result::Result<ListView<V>, ErrorView>
    decreases operations.len(),
{
    if operations.len() == 0 {
        Ok(state)
    } else {
        match applied_all(state, operations.drop_last()) {
            Ok(before) => match before.applying(operations.last()) {
                (Ok(_), after) => Ok(after),
                (Err(error), _) => Err(error),
            },
            Err(error) => Err(error),
        }
    }
}

/// The operations that insertions and deletions stand for.
pub open spec fn part_ops<T: View>(
    inserts: Seq<(OpId, Option<OpId>, T)>,
    deletes: Seq<(OpId, OpId)>,
) -> Seq<ListOpView<T::V>> {
    Seq::new(
        inserts.len() + deletes.len(),
        |i: int|
            if i < inserts.len() {
                ListOpView::Insert {
                    id: inserts[i].0,
                    after: inserts[i].1,
                    value: inserts[i].2@,
                }
            } else {
                ListOpView::Delete {
                    id: deletes[i - inserts.len()].0,
                    target: deletes[i - inserts.len()].1,
                }
            },
    )
}

/// An error in a prefix is the error of the whole.
proof fn lemma_first_error<V>(state: ListView<V>, operations: Seq<ListOpView<V>>, len: int)
    requires
        0 <= len <= operations.len(),
    ensures
        applied_all(state, operations.take(len)) is Err ==> applied_all(state, operations)
            == applied_all(state, operations.take(len)),
    decreases operations.len() - len,
{
    if len < operations.len() {
        lemma_first_error(state, operations, len + 1);
        assert(operations.take(len + 1).drop_last() =~= operations.take(len));
    } else {
        assert(operations.take(len) =~= operations);
    }
}

/// What a sequence of operations says.
pub open spec fn op_views<T: View>(operations: Seq<ListOp<T>>) -> Seq<ListOpView<T::V>> {
    operations.map_values(|operation: ListOp<T>| operation@)
}

/// A deterministic, merge-aware replicated list.
#[derive(Debug, PartialEq, Eq)]
pub struct List<T> {
    inserts: OrdMap<OpId, Entry<T>>,
    deletes: OrdMap<OpId, OpId>,
}

impl<T: View> View for List<T> {
    type V = ListView<T::V>;

    closed spec fn view(&self) -> ListView<T::V> {
        ListView {
            inserts: self.inserts@.map_values(
                |entry: Entry<T>| EntryView { after: entry.after, value: entry.value@ },
            ),
            deletes: self.deletes@,
        }
    }
}

fn validate_id(id: OpId) -> (result: Result<()>)
    ensures
        match result {
            Ok(_) => id.counter != 0,
            Err(error) => id.counter == 0 && error@ == zero_counter_error(),
        },
{
    if id.counter == 0 {
        return Err(
            Error::new(
                ErrorCode::InvalidData,
                "merge-aware operation counter must be non-zero",
            ),
        );
    }
    Ok(())
}

fn collision(id: OpId) -> (error: Error)
    ensures
        error@ == collision_error(id),
{
    let mut message = "merge-aware operation ".to_owned();
    message.append(id.replica.to_string().as_str());
    message.append(":");
    message.append(decimal(id.counter).as_str());
    message.append(" collides with different content");
    Error::new(ErrorCode::InvalidData, message.as_str())
}

impl<T: Element> List<T> {
    /// The maps are in order and the list is valid.
    pub closed spec fn wf(self) -> bool {
        &&& self.inserts.wf()
        &&& self.deletes.wf()
        &&& self@.valid()
    }

    /// A well-formed list is valid.
    pub proof fn lemma_valid(self)
        requires
            self.wf(),
        ensures
            self@.valid(),
    {
    }

    /// Creates an empty list.
    pub fn new() -> (list: Self)
        ensures
            list.wf(),
            list@ == ListView::<T::V>::empty(),
    {
        let list = List { inserts: OrdMap::new(), deletes: OrdMap::new() };
        assert(list@.inserts =~= Map::empty());
        list
    }

    /// Returns the number of currently visible elements.
    pub fn len(&self) -> (len: usize)
        requires
            self.wf(),
        ensures
            len == visible(self@).len(),
    {
        self.visible_ids().len()
    }

    /// Returns whether no element is currently visible.
    pub fn is_empty(&self) -> (empty: bool)
        requires
            self.wf(),
        ensures
            empty == (visible(self@).len() == 0),
    {
        self.len() == 0
    }

    /// Returns the visible values in deterministic order.
    pub fn iter(&self) -> (values: Vec<&T>)
        requires
            self.wf(),
        ensures
            is_visible_order(self@, visible(self@)),
            values@.map_values(|value: &T| value@) == visible(self@).map_values(
                |id: OpId| self@.inserts[id].value,
            ),
    {
        let ids = self.visible_ids();
        let mut values: Vec<&T> = Vec::new();
        let mut index: usize = 0;
        while index < ids.len()
            invariant
                self.wf(),
                is_visible_order(self@, ids@),
                index <= ids@.len(),
                values@.len() == index,
                forall|i: int|
                    0 <= i < index ==> (#[trigger] values@[i])@ == self@.inserts[ids@[i]].value,
            decreases ids@.len() - index,
        {
            let id = ids[index];
            assert(shows(self@, ids@[index as int]));
            assert(leads_to(self@.inserts, path_of(self@.inserts, id), id));
            assert(self.inserts@.contains_key(id));
            if let Some(entry) = self.inserts.get(&id) {
                values.push(&entry.value);
            }
            index += 1;
        }
        assert(values@.map_values(|value: &T| value@) =~= visible(self@).map_values(
            |id: OpId| self@.inserts[id].value,
        ));
        values
    }

    /// Returns the operation identity of the visible element at `index`.
    pub fn id_at(&self, index: usize) -> (id: Option<OpId>)
        requires
            self.wf(),
        ensures
            match id {
                Some(id) => index < visible(self@).len() && id == visible(self@)[index as int],
                None => index >= visible(self@).len(),
            },
    {
        let ids = self.visible_ids();
        if index < ids.len() {
            Some(ids[index])
        } else {
            None
        }
    }

    /// Creates and applies an insertion at a visible list index.
    ///
    /// The new element is anchored to the visible element before `index`. It is
    /// shown there, before the element at `index`, unless a lesser replica has
    /// inserted after the same element.
    pub fn insert(&mut self, actor: &mut Actor, index: usize, value: T) -> (result: Result<
        ListOp<T>,
    >)
        requires
            old(self).wf(),
        ensures
            final(self).wf(),
            (Edit { outcome: op_seen(result), state: final(self)@, actor: final(actor)@ })
                == inserting(old(self)@, old(actor)@, index as nat, value@),
            written_up_to(old(self)@, old(actor)@) && index <= visible(old(self)@).len() && old(
                actor,
            )@.counter < old(actor)@.limit ==> {
                &&& result is Ok
                &&& visible(final(self)@) == visible(old(self)@).insert(
                    index as int,
                    old(actor)@.next_id(),
                )
                &&& written_up_to(final(self)@, final(actor)@)
                &&& final(actor)@ == old(actor)@.issued()
            },
    {
        proof {
            self.lemma_valid();
            if written_up_to(self@, actor@) && index <= visible(self@).len() && actor@.counter
                < actor@.limit {
                law_element_is_inserted_before_the_index(self@, actor@, index as nat, value@);
            }
        }
        self.insert_at(actor, index as u128, value)
    }

    /// Creates and applies an insertion at an index that may exceed every
    /// length.
    pub(crate) fn insert_at(&mut self, actor: &mut Actor, index: u128, value: T) -> (result: Result<
        ListOp<T>,
    >)
        requires
            old(self).wf(),
        ensures
            final(self).wf(),
            (Edit { outcome: op_seen(result), state: final(self)@, actor: final(actor)@ })
                == inserting(old(self)@, old(actor)@, index as nat, value@),
    {
        let shown = self.visible_ids();
        if index > shown.len() as u128 {
            let mut message = "list insertion index ".to_owned();
            message.append(decimal_wide(index).as_str());
            message.append(" exceeds length ");
            message.append(decimal(shown.len() as u64).as_str());
            return Err(Error::new(ErrorCode::InvalidInput, message.as_str()));
        }
        let id = actor.issue()?;
        let after = if index == 0 {
            None
        } else {
            Some(shown[(index - 1) as usize])
        };
        let operation = ListOp::Insert { id, after, value };
        self.apply(operation.clone())?;
        Ok(operation)
    }

    /// Creates and applies deletion of the visible element at `index`.
    pub fn remove(&mut self, actor: &mut Actor, index: usize) -> (result: Result<ListOp<T>>)
        requires
            old(self).wf(),
        ensures
            final(self).wf(),
            (Edit { outcome: op_seen(result), state: final(self)@, actor: final(actor)@ })
                == removing(old(self)@, old(actor)@, index as nat),
            unused(old(self)@, old(actor)@, 1) && index < visible(old(self)@).len() && old(
                actor,
            )@.counter < old(actor)@.limit ==> {
                &&& result is Ok
                &&& visible(final(self)@) == visible(old(self)@).remove(index as int)
                &&& final(self)@.inserts == old(self)@.inserts
            },
    {
        proof {
            self.lemma_valid();
            if unused(self@, actor@, 1) && index < visible(self@).len() && actor@.counter
                < actor@.limit {
                law_element_at_the_index_is_removed(self@, actor@, index as nat);
                assert(visible(removing(self@, actor@, index as nat).state) =~= visible(
                    self@,
                ).remove(index as int));
            }
        }
        let target = match self.id_at(index) {
            Some(target) => target,
            None => {
                let mut message = "list deletion index ".to_owned();
                message.append(decimal(index as u64).as_str());
                message.append(" is not visible");
                return Err(Error::new(ErrorCode::InvalidInput, message.as_str()));
            },
        };
        let id = actor.issue()?;
        let operation: ListOp<T> = ListOp::Delete { id, target };
        self.apply(operation.clone())?;
        Ok(operation)
    }

    /// Applies an operation idempotently in any delivery order.
    ///
    /// Insertions whose anchors have not arrived remain retained and become
    /// visible when their ancestry is complete. Deletions may arrive before
    /// their target insertion.
    pub fn apply(&mut self, operation: ListOp<T>) -> (result: Result<Apply>)
        requires
            old(self).wf(),
        ensures
            final(self).wf(),
            (seen(result), final(self)@) == old(self)@.applying(operation@),
    {
        validate_id(operation.id())?;
        if let Some(existing) = self.operation(operation.id()) {
            return if existing.same(&operation) {
                Ok(Apply::Duplicate)
            } else {
                Err(collision(operation.id()))
            };
        }
        let ghost before = *self;
        match operation {
            ListOp::Insert { id, after, value } => {
                if let Some(anchor) = after {
                    validate_id(anchor)?;
                    if anchor == id {
                        return Err(
                            Error::new(
                                ErrorCode::InvalidData,
                                "a list insertion cannot use itself as its anchor",
                            ),
                        );
                    }
                }
                self.inserts.insert(id, Entry { after, value });
                proof {
                    assert(self@.inserts =~= before@.inserts.insert(
                        id,
                        EntryView { after, value: value@ },
                    ));
                    self.inserts.lemma_keys();
                    assert(self@.inserts.dom() =~= self.inserts@.dom());
                    assert(self@ =~= before@.retaining(operation@));
                }
            },
            ListOp::Delete { id, target } => {
                validate_id(target)?;
                self.deletes.insert(id, target);
                proof {
                    self.deletes.lemma_keys();
                    assert(self@.inserts =~= before@.inserts);
                    assert(self@ =~= before@.retaining(operation@));
                }
            },
        }
        Ok(Apply::Applied)
    }

    /// Unions another replica state into this list.
    ///
    /// On any operation-ID collision the list is left unchanged and the error
    /// names the least colliding identity.
    pub fn merge(&mut self, other: &Self) -> (result: Result<()>)
        requires
            old(self).wf(),
            other.wf(),
        ensures
            final(self).wf(),
            result is Err ==> *final(self) == *old(self),
            match result {
                Ok(_) => {
                    &&& forall|id: OpId| !old(self)@.collides(other@, id)
                    &&& final(self)@ == old(self)@.union(other@)
                },
                Err(error) => {
                    &&& final(self)@ == old(self)@
                    &&& exists|id: OpId|
                        {
                            &&& old(self)@.collides(other@, id)
                            &&& forall|smaller: OpId| #[trigger]
                                old(self)@.collides(other@, smaller) ==> !<OpId as Key>::before(
                                    smaller,
                                    id,
                                )
                            &&& error@ == #[trigger] collision_error(id)
                        }
                },
            },
    {
        let ghost start = self@;
        let mut staged = self.clone();
        let operations = other.operations();
        let ghost views = op_views(operations@);
        let mut index: usize = 0;
        while index < operations.len()
            invariant
                start == self@,
                *self == *old(self),
                self.wf(),
                other.wf(),
                staged.wf(),
                views == op_views(operations@),
                are_operations(other@, views),
                index <= operations@.len(),
                forall|id: OpId| #[trigger]
                    staged@.operation(id) == if start.operation(id) is Some {
                        start.operation(id)
                    } else if exists|i: int| 0 <= i < index && (#[trigger] views[i]).id() == id {
                        other@.operation(id)
                    } else {
                        None
                    },
                forall|i: int|
                    0 <= i < index ==> !start.collides(other@, (#[trigger] views[i]).id()),
            decreases operations@.len() - index,
        {
            let ghost staging = staged@;
            let ghost next = views[index as int];
            assert(other@.operation(next.id()) == Some(next));
            match staged.apply(operations[index].clone()) {
                Ok(_) => {
                    proof {
                        lemma_next_is_new(other@, views, index as int);
                        assert(!start.collides(other@, next.id()));
                        assert forall|id: OpId| #[trigger] staged@.operation(id) == if start.operation(
                            id,
                        ) is Some {
                            start.operation(id)
                        } else if exists|i: int|
                            0 <= i < index + 1 && (#[trigger] views[i]).id() == id {
                            other@.operation(id)
                        } else {
                            None
                        } by {
                            assert(staging.operation(id) == staging.operation(id));
                            if id == next.id() {
                                assert(views[index as int].id() == id);
                            }
                        }
                    }
                },
                Err(error) => {
                    proof {
                        lemma_next_is_new(other@, views, index as int);
                        let id = next.id();
                        assert(staging.operation(id) == staging.operation(id));
                        lemma_valid_operation(other@, id);
                        assert(start.collides(other@, id));
                        assert forall|smaller: OpId| #[trigger] start.collides(
                            other@,
                            smaller,
                        ) implies !<OpId as Key>::before(smaller, id) by {
                            if <OpId as Key>::before(smaller, id) {
                                let j = choose|j: int|
                                    0 <= j < views.len() && (#[trigger] views[j]).id() == smaller;
                                <OpId as Key>::ordered(smaller, id, smaller);
                                if j >= index {
                                    if j > index {
                                        assert(<OpId as Key>::before(
                                            views[index as int].id(),
                                            views[j].id(),
                                        ));
                                    }
                                }
                            }
                        }
                    }
                    return Err(error);
                },
            }
            index += 1;
        }
        proof {
            assert forall|id: OpId| !start.collides(other@, id) by {
                if start.collides(other@, id) {
                    let i = choose|i: int|
                        0 <= i < views.len() && (#[trigger] views[i]).id() == id;
                    assert(!start.collides(other@, views[i].id()));
                }
            }
            assert forall|id: OpId| #[trigger] staged@.operation(id) == start.union(other@).operation(
                id,
            ) by {
                if other@.operation(id) is Some {
                    let i = choose|i: int|
                        0 <= i < views.len() && (#[trigger] views[i]).id() == id;
                    assert(!start.collides(other@, id));
                }
                assert(other@.inserts.contains_key(id) ==> other@.operation(id) is Some);
                assert(other@.deletes.contains_key(id) ==> other@.operation(id) is Some);
            }
            assert(start.union(other@).valid()) by {
                lemma_union_valid(start, other@);
            }
            lemma_same_operations(staged@, start.union(other@));
        }
        *self = staged;
        Ok(())
    }

    /// Returns all retained operations in stable operation-ID order.
    pub fn operations(&self) -> (operations: Vec<ListOp<T>>)
        requires
            self.wf(),
        ensures
            are_operations(self@, op_views(operations@)),
    {
        let mut operations: Vec<ListOp<T>> = Vec::new();
        let mut insert: usize = 0;
        let mut delete: usize = 0;
        let inserts: usize = self.inserts.len();
        let deletes: usize = self.deletes.len();
        let ghost left = self.inserts.keys();
        let ghost right = self.deletes.keys();
        proof {
            self.inserts.lemma_keys();
            self.deletes.lemma_keys();
        }
        while insert < inserts || delete < deletes
            invariant
                self.wf(),
                left == self.inserts.keys(),
                right == self.deletes.keys(),
                inserts == left.len(),
                deletes == right.len(),
                insert <= inserts,
                delete <= deletes,
                ascending::<OpId>(left),
                ascending::<OpId>(right),
                forall|i: int| 0 <= i < left.len() ==> self@.inserts.contains_key(#[trigger] left[i]),
                forall|i: int| 0 <= i < right.len() ==> self@.deletes.contains_key(#[trigger] right[i]),
                operations@.len() == insert + delete,
                forall|i: int|
                    0 <= i < operations@.len() ==> self@.operation((#[trigger] operations@[i])@.id())
                        == Some(operations@[i]@),
                forall|i: int, j: int|
                    0 <= i < j < operations@.len() ==> <OpId as Key>::before(
                        (#[trigger] operations@[i])@.id(),
                        (#[trigger] operations@[j])@.id(),
                    ),
                forall|i: int, j: int|
                    0 <= i < operations@.len() && insert <= j < left.len() ==> <OpId as Key>::before(
                        (#[trigger] operations@[i])@.id(),
                        #[trigger] left[j],
                    ),
                forall|i: int, j: int|
                    0 <= i < operations@.len() && delete <= j < right.len()
                        ==> <OpId as Key>::before(
                        (#[trigger] operations@[i])@.id(),
                        #[trigger] right[j],
                    ),
                forall|j: int|
                    0 <= j < insert ==> exists|i: int|
                        0 <= i < operations@.len() && (#[trigger] operations@[i])@.id()
                            == #[trigger] left[j],
                forall|j: int|
                    0 <= j < delete ==> exists|i: int|
                        0 <= i < operations@.len() && (#[trigger] operations@[i])@.id()
                            == #[trigger] right[j],
            decreases inserts - insert + deletes - delete,
        {
            let from_inserts = if insert == inserts {
                false
            } else if delete == deletes {
                true
            } else {
                let rank = self.inserts.key_at(insert).rank(self.deletes.key_at(delete));
                assert(self@.inserts.contains_key(left[insert as int]));
                assert(self@.deletes.contains_key(right[delete as int]));
                rank == Rank::Before
            };
            let ghost earlier = operations@;
            let ghost insert_place = insert as int;
            let ghost delete_place = delete as int;
            if from_inserts {
                let id = *self.inserts.key_at(insert);
                let entry = self.inserts.value_at(insert);
                operations.push(
                    ListOp::Insert { id, after: entry.after, value: entry.value.copied() },
                );
                insert += 1;
            } else {
                let id = *self.deletes.key_at(delete);
                let target = *self.deletes.value_at(delete);
                operations.push(ListOp::Delete { id, target });
                delete += 1;
                proof {
                    assert(self@.deletes.contains_key(id));
                    if self@.inserts.contains_key(id) {
                        assert(false);
                    }
                }
            }
            proof {
                let added = operations@.last()@.id();
                assert(operations@[earlier.len() as int]@.id() == added);
                assert forall|j: int| insert <= j < left.len() implies <OpId as Key>::before(
                    added,
                    #[trigger] left[j],
                ) by {
                    if !from_inserts && insert < inserts {
                        <OpId as Key>::ordered(added, left[insert_place], left[j]);
                        <OpId as Key>::ordered(left[insert_place], added, left[j]);
                    }
                }
                assert forall|j: int| delete <= j < right.len() implies <OpId as Key>::before(
                    added,
                    #[trigger] right[j],
                ) by {
                    if from_inserts && delete < deletes {
                        <OpId as Key>::ordered(added, right[delete_place], right[j]);
                    }
                }
                assert forall|j: int| 0 <= j < insert implies exists|i: int|
                    0 <= i < operations@.len() && (#[trigger] operations@[i])@.id()
                        == #[trigger] left[j] by {
                    if j < insert_place {
                        let i = choose|i: int|
                            0 <= i < earlier.len() && (#[trigger] earlier[i])@.id() == left[j];
                        assert(operations@[i]@.id() == left[j]);
                    } else {
                        assert(operations@[earlier.len() as int]@.id() == left[j]);
                    }
                }
                assert forall|j: int| 0 <= j < delete implies exists|i: int|
                    0 <= i < operations@.len() && (#[trigger] operations@[i])@.id()
                        == #[trigger] right[j] by {
                    if j < delete_place {
                        let i = choose|i: int|
                            0 <= i < earlier.len() && (#[trigger] earlier[i])@.id() == right[j];
                        assert(operations@[i]@.id() == right[j]);
                    } else {
                        assert(operations@[earlier.len() as int]@.id() == right[j]);
                    }
                }
            }
        }
        proof {
            let views = op_views(operations@);
            assert forall|i: int| 0 <= i < views.len() implies self@.operation((#[trigger] views[i]).id())
                == Some(views[i]) by {
                assert(operations@[i]@ == views[i]);
            }
            assert forall|i: int, j: int| 0 <= i < j < views.len() implies <OpId as Key>::before(
                (#[trigger] views[i]).id(),
                (#[trigger] views[j]).id(),
            ) by {
                assert(operations@[i]@ == views[i]);
                assert(operations@[j]@ == views[j]);
            }
            assert forall|id: OpId| #[trigger] self@.operation(id) is Some implies exists|i: int|
                0 <= i < views.len() && (#[trigger] views[i]).id() == id by {
                if self@.inserts.contains_key(id) {
                    assert(self.inserts@.contains_key(id));
                    assert(left.contains(id));
                    let j = choose|j: int| 0 <= j < left.len() && left[j] == id;
                    let i = choose|i: int|
                        0 <= i < operations@.len() && (#[trigger] operations@[i])@.id() == left[j];
                    assert(views[i].id() == id);
                } else {
                    assert(right.contains(id));
                    let j = choose|j: int| 0 <= j < right.len() && right[j] == id;
                    let i = choose|i: int|
                        0 <= i < operations@.len() && (#[trigger] operations@[i])@.id() == right[j];
                    assert(views[i].id() == id);
                }
            }
        }
        operations
    }

    /// Rebuilds a list from its insertions and deletions, applied in the order
    /// given.
    pub fn from_parts(inserts: Vec<(OpId, Option<OpId>, T)>, deletes: Vec<(OpId, OpId)>) -> (list:
        Result<Self>)
        ensures
            match list {
                Ok(list) => {
                    &&& list.wf()
                    &&& applied_all(ListView::empty(), part_ops(inserts@, deletes@)) == Ok::<
                        ListView<T::V>,
                        ErrorView,
                    >(list@)
                },
                Err(error) => applied_all(ListView::empty(), part_ops(inserts@, deletes@)) == Err::<
                    ListView<T::V>,
                    ErrorView,
                >(error@),
            },
    {
        let mut list = List::new();
        let ghost operations = part_ops(inserts@, deletes@);
        let total: usize = inserts.len();
        let mut index: usize = 0;
        assert(operations.take(0) =~= Seq::<ListOpView<T::V>>::empty());
        while index < total
            invariant
                list.wf(),
                total == inserts@.len(),
                index <= total,
                operations == part_ops(inserts@, deletes@),
                applied_all(ListView::empty(), operations.take(index as int)) == Ok::<
                    ListView<T::V>,
                    ErrorView,
                >(list@),
            decreases total - index,
        {
            let entry = &inserts[index];
            proof {
                assert(operations.take(index + 1).drop_last() =~= operations.take(index as int));
                lemma_first_error(ListView::empty(), operations, index + 1);
            }
            let operation = ListOp::Insert { id: entry.0, after: entry.1, value: entry.2.copied() };
            assert(operations[index as int] == operation@);
            match list.apply(operation) {
                Ok(_) => {},
                Err(error) => return Err(error),
            }
            index += 1;
        }
        let mut place: usize = 0;
        while place < deletes.len()
            invariant
                list.wf(),
                total == inserts@.len(),
                place <= deletes@.len(),
                operations == part_ops(inserts@, deletes@),
                applied_all(ListView::empty(), operations.take(total + place)) == Ok::<
                    ListView<T::V>,
                    ErrorView,
                >(list@),
            decreases deletes@.len() - place,
        {
            let entry = deletes[place];
            proof {
                let next = total + place;
                assert(operations.take(next + 1).drop_last() =~= operations.take(next));
                lemma_first_error(ListView::empty(), operations, next + 1);
            }
            let operation: ListOp<T> = ListOp::Delete { id: entry.0, target: entry.1 };
            assert(operations[total + place] == operation@);
            match list.apply(operation) {
                Ok(_) => {},
                Err(error) => return Err(error),
            }
            place += 1;
        }
        assert(operations.take(operations.len() as int) =~= operations);
        Ok(list)
    }

    fn operation(&self, id: OpId) -> (operation: Option<ListOp<T>>)
        requires
            self.wf(),
        ensures
            match operation {
                Some(operation) => self@.operation(id) == Some(operation@),
                None => self@.operation(id) is None,
            },
    {
        if let Some(entry) = self.inserts.get(&id) {
            return Some(ListOp::Insert { id, after: entry.after, value: entry.value.copied() });
        }
        match self.deletes.get(&id) {
            Some(target) => Some(ListOp::Delete { id, target: *target }),
            None => None,
        }
    }

    fn visible_ids(&self) -> (ids: Vec<OpId>)
        requires
            self.wf(),
        ensures
            is_visible_order(self@, ids@),
            ids@ == visible(self@),
    {
        let deleted = self.deleted_ids();
        let children = self.children();
        let mut visible: Vec<OpId> = Vec::new();
        let ghost root = Seq::<OpId>::empty();
        let ghost steps = kids(children@, None);
        visit::<T::V>(None, &children, &deleted, &mut visible, Ghost(self@), Ghost(root));
        proof {
            let state = self@;
            assert(visible@.skip(0) =~= visible@);
            assert forall|id: OpId| #[trigger] shows(state, id) implies visible@.contains(id) by {
                let path = path_of(state.inserts, id);
                assert(leads_to(state.inserts, path, id));
                assert(path.take(0) =~= root);
                assert(extends(root, path));
                lemma_segment_complete(state, root, steps, id);
            }
            assert(is_visible_order(state, visible@));
            lemma_visible_unique(state, visible@, crate::crdt::order::visible(state));
        }
        visible
    }

    /// The elements that a deletion names.
    fn deleted_ids(&self) -> (deleted: OrdMap<OpId, ()>)
        requires
            self.wf(),
        ensures
            deleted.wf(),
            forall|id: OpId| #[trigger] deleted@.contains_key(id) == crate::crdt::order::deleted(self@.deletes, id),
    {
        let mut deleted: OrdMap<OpId, ()> = OrdMap::new();
        let mut index: usize = 0;
        let len: usize = self.deletes.len();
        let ghost keys = self.deletes.keys();
        proof {
            self.deletes.lemma_keys();
        }
        while index < len
            invariant
                self.wf(),
                keys == self.deletes.keys(),
                len == keys.len(),
                index <= len,
                deleted.wf(),
                forall|id: OpId| #[trigger]
                    deleted@.contains_key(id) == exists|i: int|
                        0 <= i < index && self.deletes@[#[trigger] keys[i]] == id,
            decreases len - index,
        {
            let target = *self.deletes.value_at(index);
            let ghost before = deleted@;
            deleted.insert(target, ());
            proof {
                assert forall|id: OpId| #[trigger] deleted@.contains_key(id) == exists|i: int|
                    0 <= i < index + 1 && self.deletes@[#[trigger] keys[i]] == id by {
                    if deleted@.contains_key(id) && id != target {
                        assert(before.contains_key(id));
                        let i = choose|i: int|
                            0 <= i < index && self.deletes@[#[trigger] keys[i]] == id;
                        assert(self.deletes@[keys[i]] == id);
                    }
                    if id == target {
                        assert(self.deletes@[keys[index as int]] == id);
                    }
                    if exists|i: int| 0 <= i < index + 1 && self.deletes@[#[trigger] keys[i]] == id {
                        let i = choose|i: int|
                            0 <= i < index + 1 && self.deletes@[#[trigger] keys[i]] == id;
                        if i < index {
                            assert(before.contains_key(id));
                        }
                    }
                }
            }
            index += 1;
        }
        proof {
            assert forall|id: OpId| #[trigger] deleted@.contains_key(id)
                == crate::crdt::order::deleted(self@.deletes, id) by {
                if crate::crdt::order::deleted(self@.deletes, id) {
                    let by = choose|by: OpId| #[trigger]
                        self@.deletes.contains_key(by) && self@.deletes[by] == id;
                    assert(self.deletes@.contains_key(by));
                    assert(keys.contains(by));
                    let i = choose|i: int| 0 <= i < keys.len() && keys[i] == by;
                    assert(self.deletes@[keys[i]] == id);
                }
                if deleted@.contains_key(id) {
                    let i = choose|i: int| 0 <= i < len && self.deletes@[#[trigger] keys[i]] == id;
                    assert(self@.deletes.contains_key(keys[i]));
                }
            }
        }
        deleted
    }

    /// The retained elements in sibling order.
    fn sibling_ids(&self) -> (ids: Vec<OpId>)
        requires
            self.wf(),
        ensures
            in_sibling_order(ids@),
            forall|id: OpId| #[trigger] ids@.contains(id) == self@.inserts.contains_key(id),
    {
        let mut ids: Vec<OpId> = Vec::new();
        let len: usize = self.inserts.len();
        let ghost keys = self.inserts.keys();
        proof {
            self.inserts.lemma_keys();
            assert(self@.inserts.dom() =~= self.inserts@.dom());
        }
        let mut start: usize = 0;
        while start < len
            invariant
                self.wf(),
                keys == self.inserts.keys(),
                ascending::<OpId>(keys),
                len == keys.len(),
                start <= len,
                ids@.len() == start,
                in_sibling_order(ids@),
                forall|i: int| 0 <= i < start ==> keys.take(start as int).contains(#[trigger] ids@[i]),
                forall|i: int| 0 <= i < start ==> ids@.contains(#[trigger] keys[i]),
                0 < start < len ==> keys[start - 1].replica != keys[start as int].replica,
            decreases len - start,
        {
            let replica = self.inserts.key_at(start).replica;
            let mut end: usize = start + 1;
            while end < len && self.inserts.key_at(end).replica == replica
                invariant
                    self.wf(),
                    keys == self.inserts.keys(),
                    len == keys.len(),
                    start < end <= len,
                    replica == keys[start as int].replica,
                    forall|i: int| start <= i < end ==> (#[trigger] keys[i]).replica == replica,
                decreases len - end,
            {
                end += 1;
            }
            let ghost before = ids@;
            let mut next: usize = end;
            while next > start
                invariant
                    self.wf(),
                    keys == self.inserts.keys(),
                    len == keys.len(),
                    start <= next <= end <= len,
                    before.len() == start,
                    ids@ == before + Seq::new((end - next) as nat, |i: int| keys[end - 1 - i]),
                decreases next,
            {
                next -= 1;
                let ghost shorter = ids@;
                ids.push(*self.inserts.key_at(next));
                assert(ids@ =~= before + Seq::new((end - next) as nat, |i: int| keys[end - 1 - i]));
            }
            proof {
                assert forall|i: int| 0 <= i < end implies keys.take(end as int).contains(
                    #[trigger] ids@[i],
                ) by {
                    if i < start {
                        assert(ids@[i] == before[i]);
                        let j = choose|j: int|
                            0 <= j < start && keys.take(start as int)[j] == before[i];
                        assert(keys.take(end as int)[j] == ids@[i]);
                    } else {
                        assert(keys.take(end as int)[end - 1 - (i - start)] == ids@[i]);
                    }
                }
                assert forall|i: int| 0 <= i < end implies ids@.contains(#[trigger] keys[i]) by {
                    if i < start {
                        let j = choose|j: int| 0 <= j < before.len() && before[j] == keys[i];
                        assert(ids@[j] == keys[i]);
                    } else {
                        assert(ids@[start + (end - 1 - i)] == keys[i]);
                    }
                }
                assert forall|i: int, j: int| 0 <= i < j < end implies sibling_before(
                    #[trigger] ids@[i],
                    #[trigger] ids@[j],
                ) by {
                    if j < start {
                        assert(ids@[i] == before[i]);
                        assert(ids@[j] == before[j]);
                    } else if i < start {
                        assert(ids@[i] == before[i]);
                        let k = choose|k: int|
                            0 <= k < start && keys.take(start as int)[k] == before[i];
                        assert(keys[k] == ids@[i]);
                        assert(<OpId as Key>::before(keys[k], keys[start as int]));
                        if k < start - 1 {
                            assert(<OpId as Key>::before(keys[k], keys[start - 1]));
                        }
                        assert(<OpId as Key>::before(keys[start - 1], keys[start as int]));
                        let place = end - 1 - (j - start);
                        assert(ids@[j] == keys[place]);
                    } else {
                        let first = end - 1 - (i - start);
                        let second = end - 1 - (j - start);
                        assert(ids@[i] == keys[first]);
                        assert(ids@[j] == keys[second]);
                        assert(<OpId as Key>::before(keys[second], keys[first]));
                    }
                }
            }
            start = end;
        }
        proof {
            assert(keys.take(len as int) =~= keys);
            assert forall|id: OpId| #[trigger] ids@.contains(id) == self@.inserts.contains_key(id) by {
                if ids@.contains(id) {
                    let i = choose|i: int| 0 <= i < ids@.len() && ids@[i] == id;
                    assert(keys.contains(ids@[i]));
                }
                if self@.inserts.contains_key(id) {
                    assert(self.inserts@.contains_key(id));
                    assert(keys.contains(id));
                    let i = choose|i: int| 0 <= i < keys.len() && keys[i] == id;
                    assert(ids@.contains(keys[i]));
                }
            }
        }
        ids
    }

    /// The elements inserted directly after each element, in sibling order.
    fn children(&self) -> (children: OrdMap<Option<OpId>, Vec<OpId>>)
        requires
            self.wf(),
        ensures
            children.wf(),
            indexes(self@.inserts, children@),
    {
        let mut children: OrdMap<Option<OpId>, Vec<OpId>> = OrdMap::new();
        let ids = self.sibling_ids();
        let mut index: usize = 0;
        let ghost keys = ids@;
        while index < ids.len()
            invariant
                self.wf(),
                keys == ids@,
                in_sibling_order(keys),
                forall|id: OpId| #[trigger] keys.contains(id) == self@.inserts.contains_key(id),
                index <= keys.len(),
                children.wf(),
                forall|anchor: Option<OpId>|
                    in_sibling_order(#[trigger] kids(children@, anchor)),
                forall|anchor: Option<OpId>, id: OpId| #[trigger]
                    kids(children@, anchor).contains(id) == exists|i: int|
                        0 <= i < index && #[trigger] keys[i] == id && self@.inserts[id].after
                            == anchor,
            decreases keys.len() - index,
        {
            let id = ids[index];
            assert(keys.contains(id));
            let anchor = match self.inserts.get(&id) {
                Some(entry) => entry.after,
                None => None,
            };
            let ghost before = children@;
            if children.contains(&anchor) {
                if let Some(siblings) = children.get_mut(&anchor) {
                    siblings.push(id);
                }
            } else {
                let mut siblings: Vec<OpId> = Vec::new();
                siblings.push(id);
                children.insert(anchor, siblings);
            }
            proof {
                assert(self@.inserts[id].after == anchor);
                assert(kids(children@, anchor) =~= kids(before, anchor).push(id));
                assert forall|other: Option<OpId>| other != anchor implies #[trigger] kids(
                    children@,
                    other,
                ) == kids(before, other) by {}
                assert forall|a: Option<OpId>, x: OpId| #[trigger]
                    kids(children@, a).contains(x) == exists|i: int|
                        0 <= i < index + 1 && #[trigger] keys[i] == x && self@.inserts[x].after
                            == a by {
                    let old_kids = kids(before, a);
                    assert(old_kids.contains(x) == exists|i: int|
                        0 <= i < index && #[trigger] keys[i] == x && self@.inserts[x].after == a);
                    if a == anchor {
                        if x == id {
                            assert(keys[index as int] == x);
                            assert(kids(children@, a)[old_kids.len() as int] == x);
                        }
                        if old_kids.contains(x) {
                            let p = choose|p: int| 0 <= p < old_kids.len() && old_kids[p] == x;
                            assert(kids(children@, a)[p] == x);
                        }
                        if kids(children@, a).contains(x) && x != id {
                            let p = choose|p: int|
                                0 <= p < kids(children@, a).len() && kids(children@, a)[p] == x;
                            assert(old_kids[p] == x);
                        }
                    }
                    if exists|i: int|
                        0 <= i < index + 1 && #[trigger] keys[i] == x && self@.inserts[x].after
                            == a {
                        let i = choose|i: int|
                            0 <= i < index + 1 && #[trigger] keys[i] == x && self@.inserts[x].after
                                == a;
                        if i == index {
                            assert(x == id);
                        }
                    }
                }
                assert forall|a: Option<OpId>| in_sibling_order(#[trigger] kids(children@, a)) by {
                    let old_kids = kids(before, a);
                    assert(in_sibling_order(old_kids));
                    if a == anchor {
                        let new_kids = kids(children@, a);
                        assert forall|i: int, j: int| 0 <= i < j < new_kids.len() implies sibling_before(
                            #[trigger] new_kids[i],
                            #[trigger] new_kids[j],
                        ) by {
                            assert(new_kids[i] == old_kids[i]);
                            if j < old_kids.len() {
                                assert(new_kids[j] == old_kids[j]);
                            } else {
                                assert(old_kids.contains(old_kids[i]));
                                let k = choose|k: int|
                                    0 <= k < index && #[trigger] keys[k] == old_kids[i]
                                        && self@.inserts[old_kids[i]].after == a;
                                assert(sibling_before(keys[k], keys[index as int]));
                            }
                        }
                    }
                }
            }
            index += 1;
        }
        proof {
            assert forall|anchor: Option<OpId>, id: OpId| #[trigger]
                kids(children@, anchor).contains(id) == (self@.inserts.contains_key(id)
                    && self@.inserts[id].after == anchor) by {
                if self@.inserts.contains_key(id) {
                    assert(keys.contains(id));
                    let i = choose|i: int| 0 <= i < keys.len() && keys[i] == id;
                    assert(keys[i] == id);
                }
                if kids(children@, anchor).contains(id) {
                    let i = choose|i: int|
                        0 <= i < keys.len() && #[trigger] keys[i] == id && self@.inserts[id].after
                            == anchor;
                    assert(keys.contains(keys[i]));
                }
            }
        }
        children
    }
}

/// The elements that an index lists after an anchor.
pub open spec fn kids(
    children: Map<Option<OpId>, Vec<OpId>>,
    anchor: Option<OpId>,
) -> Seq<OpId> {
    if children.contains_key(anchor) {
        children[anchor]@
    } else {
        Seq::empty()
    }
}

/// Whether an index lists, in sibling order, exactly the elements inserted after
/// each anchor.
pub open spec fn indexes<V>(
    inserts: Map<OpId, EntryView<V>>,
    children: Map<Option<OpId>, Vec<OpId>>,
) -> bool {
    &&& forall|anchor: Option<OpId>| in_sibling_order(#[trigger] kids(children, anchor))
    &&& forall|anchor: Option<OpId>, id: OpId| #[trigger]
        kids(children, anchor).contains(id) == (inserts.contains_key(id) && inserts[id].after
            == anchor)
}

/// Appends what is shown below `parent`, whose path is `path`.
fn visit<V>(
    parent: Option<OpId>,
    children: &OrdMap<Option<OpId>, Vec<OpId>>,
    deleted: &OrdMap<OpId, ()>,
    visible: &mut Vec<OpId>,
    Ghost(state): Ghost<ListView<V>>,
    Ghost(path): Ghost<Seq<OpId>>,
)
    requires
        state.valid(),
        children.wf(),
        deleted.wf(),
        indexes(state.inserts, children@),
        forall|id: OpId| #[trigger]
            deleted@.contains_key(id) == crate::crdt::order::deleted(state.deletes, id),
        path.len() > 0 ==> is_path(state.inserts, path),
        parent == if path.len() > 0 {
            Some(path.last())
        } else {
            None
        },
    ensures
        are_steps(state.inserts, path, kids(children@, parent)),
        old(visible)@.len() <= final(visible)@.len(),
        final(visible)@.take(old(visible)@.len() as int) == old(visible)@,
        is_segment(
            state,
            path,
            kids(children@, parent),
            final(visible)@.skip(old(visible)@.len() as int),
        ),
    decreases state.inserts.dom().len() - path.len(),
{
    let ghost start = visible@;
    let ghost steps = kids(children@, parent);
    assert(are_steps(state.inserts, path, steps));
    let direct = match children.get(&parent) {
        Some(direct) => direct,
        None => {
            proof {
                assert(visible@.take(start.len() as int) =~= start);
                assert(visible@.skip(start.len() as int) =~= Seq::<OpId>::empty());
            }
            return;
        },
    };
    let mut index: usize = 0;
    proof {
        assert(visible@.take(start.len() as int) =~= start);
        assert(visible@.skip(start.len() as int) =~= Seq::<OpId>::empty());
        assert(steps.take(0) =~= Seq::<OpId>::empty());
        assert(is_segment(state, path, steps.take(0), visible@.skip(start.len() as int)));
    }
    while index < direct.len()
        invariant
            state.valid(),
            children.wf(),
            deleted.wf(),
            indexes(state.inserts, children@),
            forall|id: OpId| #[trigger]
                deleted@.contains_key(id) == crate::crdt::order::deleted(state.deletes, id),
            path.len() > 0 ==> is_path(state.inserts, path),
            steps == direct@,
            are_steps(state.inserts, path, steps),
            index <= direct@.len(),
            start.len() <= visible@.len(),
            visible@.take(start.len() as int) == start,
            is_segment(
                state,
                path,
                steps.take(index as int),
                visible@.skip(start.len() as int),
            ),
        decreases direct@.len() - index,
    {
        let child = direct[index];
        let ghost before = visible@;
        proof {
            assert(steps.contains(child));
            lemma_path_extended(state.inserts, path, child);
            lemma_path_bounded(state.inserts, path.push(child));
        }
        if !deleted.contains(&child) {
            visible.push(child);
        }
        let ghost shown = visible@;
        visit::<V>(Some(child), children, deleted, visible, Ghost(state), Ghost(path.push(child)));
        proof {
            let below = visible@.skip(shown.len() as int);
            let own = if crate::crdt::order::deleted(state.deletes, child) {
                Seq::<OpId>::empty()
            } else {
                seq![child]
            };
            assert(shown =~= before + own);
            assert(visible@ =~= shown + below) by {
                assert(visible@.take(shown.len() as int) == shown);
                assert forall|i: int| 0 <= i < shown.len() implies visible@[i] == shown[i] by {
                    assert(visible@.take(shown.len() as int)[i] == shown[i]);
                }
            }
            assert(before =~= start + before.skip(start.len() as int)) by {
                assert forall|i: int| 0 <= i < start.len() implies before[i] == start[i] by {
                    assert(before.take(start.len() as int)[i] == start[i]);
                }
            }
            assert(visible@.take(start.len() as int) =~= start);
            assert(visible@.skip(start.len() as int) =~= before.skip(start.len() as int) + own
                + below);
            lemma_segment_step(
                state,
                path,
                steps,
                index as int,
                before.skip(start.len() as int),
                kids(children@, Some(child)),
                below,
                visible@.skip(start.len() as int),
            );
        }
        index += 1;
    }
    assert(steps.take(steps.len() as int) =~= steps);
}

/// What comes of a local edit.
#[verifier::ext_equal]
pub struct Edit<V> {
    /// The operation created, or why there is none.
    pub outcome: std::result::Result<ListOpView<V>, ErrorView>,
    /// The list afterwards.
    pub state: ListView<V>,
    /// The actor afterwards.
    pub actor: ActorView,
}

/// What the result of a local edit says.
pub open spec fn op_seen<T: View>(result: Result<ListOp<T>>) -> std::result::Result<
    ListOpView<T::V>,
    ErrorView,
> {
    match result {
        Ok(operation) => Ok(operation@),
        Err(error) => Err(error@),
    }
}

/// The element that an insertion at a visible index is anchored to.
pub open spec fn anchor_at<V>(state: ListView<V>, index: nat) -> Option<OpId> {
    if index == 0 {
        None
    } else {
        Some(visible(state)[index - 1])
    }
}

/// An actor issues an identity for an operation, which is applied.
pub open spec fn performing<V>(
    state: ListView<V>,
    actor: ActorView,
    operation: ListOpView<V>,
) -> Edit<V> {
    if let Some(error) = actor.issue_refusal() {
        Edit { outcome: Err(error), state, actor }
    } else {
        let (applied, after) = state.applying(operation);
        Edit {
            outcome: match applied {
                Ok(_) => Ok(operation),
                Err(error) => Err(error),
            },
            state: after,
            actor: actor.issued(),
        }
    }
}

/// What comes of inserting a value at a visible index.
pub open spec fn inserting<V>(
    state: ListView<V>,
    actor: ActorView,
    index: nat,
    value: V,
) -> Edit<V> {
    if index > visible(state).len() {
        Edit {
            outcome: Err(
                failure(
                    ErrorCode::InvalidInput,
                    "list insertion index "@ + decimal_text(index) + " exceeds length "@
                        + decimal_text(visible(state).len()),
                ),
            ),
            state,
            actor,
        }
    } else {
        performing(
            state,
            actor,
            ListOpView::Insert { id: actor.next_id(), after: anchor_at(state, index), value },
        )
    }
}

/// What comes of deleting the element at a visible index.
pub open spec fn removing<V>(state: ListView<V>, actor: ActorView, index: nat) -> Edit<V> {
    if index >= visible(state).len() {
        Edit {
            outcome: Err(
                failure(
                    ErrorCode::InvalidInput,
                    "list deletion index "@ + decimal_text(index) + " is not visible"@,
                ),
            ),
            state,
            actor,
        }
    } else {
        performing(
            state,
            actor,
            ListOpView::Delete { id: actor.next_id(), target: visible(state)[index as int] },
        )
    }
}

/// Whether a sequence is all retained operations, ascending by identity.
pub open spec fn are_operations<V>(state: ListView<V>, operations: Seq<ListOpView<V>>) -> bool {
    &&& forall|i: int|
        0 <= i < operations.len() ==> state.operation((#[trigger] operations[i]).id()) == Some(
            operations[i],
        )
    &&& forall|i: int, j: int|
        0 <= i < j < operations.len() ==> <OpId as Key>::before(
            (#[trigger] operations[i]).id(),
            (#[trigger] operations[j]).id(),
        )
    &&& forall|id: OpId| #[trigger]
        state.operation(id) is Some ==> exists|i: int|
            0 <= i < operations.len() && (#[trigger] operations[i]).id() == id
}

proof fn lemma_next_is_new<V>(state: ListView<V>, operations: Seq<ListOpView<V>>, index: int)
    requires
        are_operations(state, operations),
        0 <= index < operations.len(),
    ensures
        !(exists|i: int| 0 <= i < index && (#[trigger] operations[i]).id() == operations[index].id()),
{
    if exists|i: int| 0 <= i < index && (#[trigger] operations[i]).id() == operations[index].id() {
        let i = choose|i: int|
            0 <= i < index && (#[trigger] operations[i]).id() == operations[index].id();
        assert(<OpId as Key>::before(operations[i].id(), operations[index].id()));
        <OpId as Key>::ordered(operations[i].id(), operations[i].id(), operations[i].id());
    }
}

proof fn lemma_valid_operation<V>(state: ListView<V>, id: OpId)
    requires
        state.valid(),
        state.operation(id) is Some,
    ensures
        id.counter > 0,
        anchor_refusal(state.operation(id)->0) is None,
{
    if state.inserts.contains_key(id) {
    } else {
        assert(state.deletes.contains_key(id));
    }
}

/// Lists that retain the same operations are the same.
pub proof fn lemma_same_operations<V>(first: ListView<V>, second: ListView<V>)
    requires
        first.valid(),
        second.valid(),
        forall|id: OpId| #[trigger] first.operation(id) == second.operation(id),
    ensures
        first == second,
{
    assert forall|id: OpId| first.inserts.contains_key(id) == second.inserts.contains_key(id) && (
    first.inserts.contains_key(id) ==> first.inserts[id] == second.inserts[id]) by {
        assert(first.operation(id) == second.operation(id));
    }
    assert forall|id: OpId| first.deletes.contains_key(id) == second.deletes.contains_key(id) && (
    first.deletes.contains_key(id) ==> first.deletes[id] == second.deletes[id]) by {
        assert(first.operation(id) == second.operation(id));
        assert(first.inserts.contains_key(id) == second.inserts.contains_key(id));
    }
    assert(first.inserts =~= second.inserts);
    assert(first.deletes =~= second.deletes);
}

pub(crate) proof fn lemma_union_valid<V>(first: ListView<V>, second: ListView<V>)
    requires
        first.valid(),
        second.valid(),
        forall|id: OpId| !first.collides(second, id),
    ensures
        first.union(second).valid(),
{
    let both = first.union(second);
    assert(both.inserts.dom() =~= first.inserts.dom().union(second.inserts.dom()));
    assert(both.deletes.dom() =~= first.deletes.dom().union(second.deletes.dom()));
    assert forall|id: OpId| #[trigger] both.inserts.contains_key(id) implies !both.deletes.contains_key(
        id,
    ) && id.counter > 0 && both.inserts[id].after != Some(id) && (both.inserts[id].after matches Some(
        anchor,
    ) ==> anchor.counter > 0) by {
        assert(!first.collides(second, id));
        if second.inserts.contains_key(id) {
        } else {
            assert(first.inserts.contains_key(id));
        }
    }
    assert forall|id: OpId| #[trigger] both.deletes.contains_key(id) implies id.counter > 0
        && both.deletes[id].counter > 0 by {
        if second.deletes.contains_key(id) {
        } else {
            assert(first.deletes.contains_key(id));
        }
    }
}

impl<T: Element> Clone for List<T> {
    fn clone(&self) -> (copy: Self)
        ensures
            self.wf() ==> copy.wf() && copy@ == self@,
    {
        let copy = List { inserts: self.inserts.clone(), deletes: self.deletes.clone() };
        proof {
            if self.wf() {
                assert(copy@.inserts =~= self@.inserts);
                assert(copy@.deletes =~= self@.deletes);
            }
        }
        copy
    }
}

impl<T: Element> Default for List<T> {
    fn default() -> (list: Self)
        ensures
            list.wf(),
            list@ == ListView::<T::V>::empty(),
    {
        List::new()
    }
}

} // verus!
