//! An ordered map over a sorted vector, and the total orders its keys have.

use crate::id::{AppId, DocumentId, ReplicaId, SpaceId};
use vstd::prelude::*;
use vstd::string::*;
use vstd::utf8::*;

verus! {

/// How one key stands to another.
#[derive(Clone, Copy, Debug, PartialEq, Eq, Structural)]
pub enum Rank {
    /// The first key comes before the second.
    Before,
    /// The keys are the same.
    Same,
    /// The first key comes after the second.
    After,
}

/// A type whose values have a strict total order.
pub trait Key: Sized + View {
    /// Whether one key comes strictly before another.
    spec fn before(a: Self::V, b: Self::V) -> bool;

    /// The order is irreflexive, transitive and total.
    proof fn ordered(a: Self::V, b: Self::V, c: Self::V)
        ensures
            !Self::before(a, a),
            Self::before(a, b) && Self::before(b, c) ==> Self::before(a, c),
            a == b || Self::before(a, b) || Self::before(b, a),
    ;

    /// Compares two keys.
    fn rank(&self, other: &Self) -> (rank: Rank)
        ensures
            match rank {
                Rank::Before => Self::before(self@, other@),
                Rank::Same => self@ == other@,
                Rank::After => Self::before(other@, self@),
            },
    ;

    /// Copies a key.
    fn duplicate(&self) -> (copy: Self)
        ensures
            copy@ == self@,
    ;
}

/// A type whose values can be copied.
pub trait Value: Sized {
    /// Whether one value is a copy of another.
    spec fn alike(a: Self, b: Self) -> bool;

    /// Copies a value.
    fn copy_value(&self) -> (copy: Self)
        ensures
            Self::alike(*self, copy),
    ;
}

impl Value for u64 {
    open spec fn alike(a: u64, b: u64) -> bool {
        a == b
    }

    fn copy_value(&self) -> (copy: Self) {
        *self
    }
}

/// Byte-wise lexicographic order.
pub open spec fn bytes_before(a: Seq<u8>, b: Seq<u8>) -> bool
    decreases a.len(),
{
    if b.len() == 0 {
        false
    } else if a.len() == 0 {
        true
    } else if a[0] != b[0] {
        a[0] < b[0]
    } else {
        bytes_before(a.drop_first(), b.drop_first())
    }
}

pub(crate) proof fn lemma_bytes_ordered(a: Seq<u8>, b: Seq<u8>, c: Seq<u8>)
    ensures
        !bytes_before(a, a),
        bytes_before(a, b) && bytes_before(b, c) ==> bytes_before(a, c),
        a == b || bytes_before(a, b) || bytes_before(b, a),
    decreases a.len() + b.len() + c.len(),
{
    if a.len() > 0 && b.len() > 0 && c.len() > 0 {
        lemma_bytes_ordered(a.drop_first(), b.drop_first(), c.drop_first());
    } else if a.len() > 0 && b.len() > 0 {
        lemma_bytes_ordered(a.drop_first(), b.drop_first(), c);
    } else if a.len() > 0 {
        lemma_bytes_ordered(a.drop_first(), b, c);
    }
    if a.len() > 0 && b.len() > 0 && a[0] == b[0] && a.drop_first() == b.drop_first() {
        assert(a =~= seq![a[0]] + a.drop_first());
        assert(b =~= seq![b[0]] + b.drop_first());
    }
    if a.len() == 0 && b.len() == 0 {
        assert(a =~= b);
    }
}

/// Compares two byte strings lexicographically.
pub fn rank_bytes(left: &[u8], right: &[u8]) -> (rank: Rank)
    ensures
        match rank {
            Rank::Before => bytes_before(left@, right@),
            Rank::Same => left@ == right@,
            Rank::After => bytes_before(right@, left@),
        },
{
    let mut index: usize = 0;
    assert(left@.skip(0) =~= left@);
    assert(right@.skip(0) =~= right@);
    while index < left.len() && index < right.len()
        invariant
            index <= left.len(),
            index <= right.len(),
            left@.take(index as int) == right@.take(index as int),
            bytes_before(left@, right@) == bytes_before(
                left@.skip(index as int),
                right@.skip(index as int),
            ),
            bytes_before(right@, left@) == bytes_before(
                right@.skip(index as int),
                left@.skip(index as int),
            ),
        decreases left.len() - index,
    {
        assert(left@.skip(index as int)[0] == left@[index as int]);
        assert(right@.skip(index as int)[0] == right@[index as int]);
        if left[index] < right[index] {
            return Rank::Before;
        }
        if right[index] < left[index] {
            return Rank::After;
        }
        assert(left@.skip(index as int).drop_first() =~= left@.skip(index + 1));
        assert(right@.skip(index as int).drop_first() =~= right@.skip(index + 1));
        assert(left@.take(index + 1) =~= left@.take(index as int).push(left@[index as int]));
        assert(right@.take(index + 1) =~= right@.take(index as int).push(right@[index as int]));
        index += 1;
    }
    if left.len() < right.len() {
        return Rank::Before;
    }
    if right.len() < left.len() {
        return Rank::After;
    }
    assert(left@ =~= left@.take(index as int));
    assert(right@ =~= right@.take(index as int));
    Rank::Same
}

impl Key for u64 {
    open spec fn before(a: u64, b: u64) -> bool {
        a < b
    }

    proof fn ordered(a: u64, b: u64, c: u64) {
    }

    fn rank(&self, other: &Self) -> (rank: Rank) {
        proof {
            assert(<u64 as Key>::before(self@, other@) == (*self < *other));
            assert(<u64 as Key>::before(other@, self@) == (*other < *self));
        }
        if *self < *other {
            Rank::Before
        } else if *other < *self {
            Rank::After
        } else {
            Rank::Same
        }
    }

    fn duplicate(&self) -> (copy: Self) {
        *self
    }
}

impl Key for Vec<u8> {
    open spec fn before(a: Seq<u8>, b: Seq<u8>) -> bool {
        bytes_before(a, b)
    }

    proof fn ordered(a: Seq<u8>, b: Seq<u8>, c: Seq<u8>) {
        lemma_bytes_ordered(a, b, c);
    }

    fn rank(&self, other: &Self) -> (rank: Rank) {
        rank_bytes(self.as_slice(), other.as_slice())
    }

    fn duplicate(&self) -> (copy: Self) {
        crate::text::copy_bytes(self.as_slice())
    }
}

impl<const N: usize> Key for [u8; N] {
    open spec fn before(a: Seq<u8>, b: Seq<u8>) -> bool {
        bytes_before(a, b)
    }

    proof fn ordered(a: Seq<u8>, b: Seq<u8>, c: Seq<u8>) {
        lemma_bytes_ordered(a, b, c);
    }

    fn rank(&self, other: &Self) -> (rank: Rank) {
        rank_bytes(self.as_slice(), other.as_slice())
    }

    fn duplicate(&self) -> (copy: Self) {
        *self
    }
}

impl Key for String {
    open spec fn before(a: Seq<char>, b: Seq<char>) -> bool {
        bytes_before(encode_utf8(a), encode_utf8(b))
    }

    proof fn ordered(a: Seq<char>, b: Seq<char>, c: Seq<char>) {
        lemma_bytes_ordered(encode_utf8(a), encode_utf8(b), encode_utf8(c));
        encode_utf8_decode_utf8(a);
        encode_utf8_decode_utf8(b);
    }

    fn rank(&self, other: &Self) -> (rank: Rank) {
        proof {
            encode_utf8_decode_utf8(self@);
            encode_utf8_decode_utf8(other@);
        }
        rank_bytes(self.as_str().as_bytes(), other.as_str().as_bytes())
    }

    fn duplicate(&self) -> (copy: Self) {
        self.as_str().to_owned()
    }
}

impl<A: Key, B: Key> Key for (A, B) {
    open spec fn before(a: (A::V, B::V), b: (A::V, B::V)) -> bool {
        A::before(a.0, b.0) || (a.0 == b.0 && B::before(a.1, b.1))
    }

    proof fn ordered(a: (A::V, B::V), b: (A::V, B::V), c: (A::V, B::V)) {
        A::ordered(a.0, b.0, c.0);
        B::ordered(a.1, b.1, c.1);
    }

    fn rank(&self, other: &Self) -> (rank: Rank) {
        match self.0.rank(&other.0) {
            Rank::Same => self.1.rank(&other.1),
            rank => rank,
        }
    }

    fn duplicate(&self) -> (copy: Self) {
        (self.0.duplicate(), self.1.duplicate())
    }
}

impl View for AppId {
    type V = AppId;

    open spec fn view(&self) -> AppId {
        *self
    }
}

impl Key for AppId {
    open spec fn before(a: AppId, b: AppId) -> bool {
        a.0 < b.0
    }

    proof fn ordered(a: AppId, b: AppId, c: AppId) {
    }

    fn rank(&self, other: &Self) -> (rank: Rank) {
        proof {
            assert(<AppId as Key>::before(self@, other@) == (self.0 < other.0));
            assert(<AppId as Key>::before(other@, self@) == (other.0 < self.0));
        }
        if self.0 < other.0 {
            Rank::Before
        } else if other.0 < self.0 {
            Rank::After
        } else {
            Rank::Same
        }
    }

    fn duplicate(&self) -> (copy: Self) {
        *self
    }
}

impl View for SpaceId {
    type V = SpaceId;

    open spec fn view(&self) -> SpaceId {
        *self
    }
}

impl Key for SpaceId {
    open spec fn before(a: SpaceId, b: SpaceId) -> bool {
        a.0 < b.0
    }

    proof fn ordered(a: SpaceId, b: SpaceId, c: SpaceId) {
    }

    fn rank(&self, other: &Self) -> (rank: Rank) {
        proof {
            assert(<SpaceId as Key>::before(self@, other@) == (self.0 < other.0));
            assert(<SpaceId as Key>::before(other@, self@) == (other.0 < self.0));
        }
        if self.0 < other.0 {
            Rank::Before
        } else if other.0 < self.0 {
            Rank::After
        } else {
            Rank::Same
        }
    }

    fn duplicate(&self) -> (copy: Self) {
        *self
    }
}

impl View for DocumentId {
    type V = DocumentId;

    open spec fn view(&self) -> DocumentId {
        *self
    }
}

impl Key for DocumentId {
    open spec fn before(a: DocumentId, b: DocumentId) -> bool {
        a.0 < b.0
    }

    proof fn ordered(a: DocumentId, b: DocumentId, c: DocumentId) {
    }

    fn rank(&self, other: &Self) -> (rank: Rank) {
        proof {
            assert(<DocumentId as Key>::before(self@, other@) == (self.0 < other.0));
            assert(<DocumentId as Key>::before(other@, self@) == (other.0 < self.0));
        }
        if self.0 < other.0 {
            Rank::Before
        } else if other.0 < self.0 {
            Rank::After
        } else {
            Rank::Same
        }
    }

    fn duplicate(&self) -> (copy: Self) {
        *self
    }
}

impl View for ReplicaId {
    type V = ReplicaId;

    open spec fn view(&self) -> ReplicaId {
        *self
    }
}

impl Key for ReplicaId {
    open spec fn before(a: ReplicaId, b: ReplicaId) -> bool {
        a.0 < b.0
    }

    proof fn ordered(a: ReplicaId, b: ReplicaId, c: ReplicaId) {
    }

    fn rank(&self, other: &Self) -> (rank: Rank) {
        proof {
            assert(<ReplicaId as Key>::before(self@, other@) == (self.0 < other.0));
            assert(<ReplicaId as Key>::before(other@, self@) == (other.0 < self.0));
        }
        if self.0 < other.0 {
            Rank::Before
        } else if other.0 < self.0 {
            Rank::After
        } else {
            Rank::Same
        }
    }

    fn duplicate(&self) -> (copy: Self) {
        *self
    }
}

/// A map whose entries are kept in ascending key order.
#[derive(Debug, PartialEq, Eq)]
pub struct OrdMap<K, W> {
    entries: Vec<(K, W)>,
}

impl<K: Key, W> View for OrdMap<K, W> {
    type V = Map<K::V, W>;

    closed spec fn view(&self) -> Map<K::V, W> {
        Map::new(
            |key: K::V| exists|i: int| 0 <= i < self.entries@.len() && #[trigger] self.entries@[i].0@ == key,
            |key: K::V|
                self.entries@[choose|i: int|
                    0 <= i < self.entries@.len() && #[trigger] self.entries@[i].0@ == key].1,
        )
    }
}

/// Where a key is, or where it would be inserted.
enum Slot {
    Found(usize),
    Vacant(usize),
}

/// Whether a sequence of keys is strictly ascending.
pub open spec fn ascending<K: Key>(keys: Seq<K::V>) -> bool {
    forall|i: int, j: int| 0 <= i < j < keys.len() ==> K::before(#[trigger] keys[i], #[trigger] keys[j])
}

proof fn lemma_ascending_prefix<K: Key>(first: Seq<K::V>, second: Seq<K::V>, len: int)
    requires
        ascending::<K>(first),
        ascending::<K>(second),
        forall|key: K::V| #[trigger] first.contains(key) <==> second.contains(key),
        0 <= len <= first.len(),
    ensures
        len <= second.len(),
        forall|i: int| 0 <= i < len ==> first[i] == #[trigger] second[i],
    decreases len,
{
    if len > 0 {
        let last = len - 1;
        lemma_ascending_prefix::<K>(first, second, last);
        let key = first[last];
        assert(first.contains(key));
        let at = choose|i: int| 0 <= i < second.len() && second[i] == key;
        if at < last {
            assert(first[at] == second[at]);
            assert(K::before(first[at], first[last]));
            K::ordered(key, key, key);
        } else if at > last {
            let other = second[last];
            assert(K::before(second[last], second[at]));
            assert(second.contains(other));
            assert(first.contains(other));
            let back = choose|i: int| 0 <= i < first.len() && first[i] == other;
            if back < last {
                assert(first[back] == second[back]);
                assert(K::before(second[back], second[last]));
                K::ordered(other, other, other);
            } else {
                if back > last {
                    assert(K::before(first[last], first[back]));
                }
                K::ordered(other, key, other);
            }
        }
        assert(at == last);
    }
}

/// Two strictly ascending sequences of the same keys are equal.
pub proof fn lemma_ascending_unique<K: Key>(first: Seq<K::V>, second: Seq<K::V>)
    requires
        ascending::<K>(first),
        ascending::<K>(second),
        forall|key: K::V| #[trigger] first.contains(key) <==> second.contains(key),
    ensures
        first == second,
{
    lemma_ascending_prefix::<K>(first, second, first.len() as int);
    lemma_ascending_prefix::<K>(second, first, second.len() as int);
    assert(first =~= second);
}

impl<K: Key, W> OrdMap<K, W> {
    /// The keys in the order in which they are kept.
    pub closed spec fn keys(self) -> Seq<K::V> {
        Seq::new(self.entries@.len(), |i: int| self.entries@[i].0@)
    }

    /// The keys are strictly ascending.
    pub closed spec fn wf(self) -> bool {
        ascending::<K>(self.keys())
    }

    /// The keys are strictly ascending and are the map's domain.
    pub proof fn lemma_keys(self)
        requires
            self.wf(),
        ensures
            ascending::<K>(self.keys()),
            self.keys().no_duplicates(),
            self@.dom() == self.keys().to_set(),
            self@.dom().finite(),
            self@.len() == self.keys().len(),
            forall|i: int| 0 <= i < self.keys().len() ==> self@.contains_key(#[trigger] self.keys()[i]),
            forall|key: K::V| #[trigger] self@.contains_key(key) ==> self.keys().contains(key),
    {
        let keys = self.keys();
        assert forall|i: int, j: int| 0 <= i < keys.len() && 0 <= j < keys.len() && i != j implies keys[i]
            != keys[j] by {
            K::ordered(keys[i], keys[j], keys[j]);
            K::ordered(keys[j], keys[i], keys[i]);
        }
        assert forall|key: K::V| self@.contains_key(key) == keys.contains(key) by {
            if keys.contains(key) {
                let i = choose|i: int| 0 <= i < keys.len() && keys[i] == key;
                assert(self.entries@[i].0@ == key);
            }
            if self@.contains_key(key) {
                let i = choose|i: int|
                    0 <= i < self.entries@.len() && #[trigger] self.entries@[i].0@ == key;
                assert(keys[i] == key);
            }
        }
        assert(self@.dom() =~= keys.to_set());
        keys.unique_seq_to_set();
        vstd::seq_lib::seq_to_set_is_finite(keys);
    }

    proof fn lemma_entry(self, i: int)
        requires
            self.wf(),
            0 <= i < self.entries@.len(),
        ensures
            self@.contains_key(self.entries@[i].0@),
            self@[self.entries@[i].0@] == self.entries@[i].1,
            self.keys()[i] == self.entries@[i].0@,
    {
        let key = self.entries@[i].0@;
        let j = choose|j: int| 0 <= j < self.entries@.len() && #[trigger] self.entries@[j].0@ == key;
        self.lemma_keys();
        assert(self.keys()[i] == self.keys()[j]);
    }

    /// Replacing the value at one place replaces it in the map.
    proof fn lemma_value_replaced(self, after: Self, i: int)
        requires
            self.wf(),
            0 <= i < self.entries@.len(),
            after.entries@.len() == self.entries@.len(),
            forall|j: int|
                0 <= j < self.entries@.len() ==> (#[trigger] after.entries@[j]).0@ == self.entries@[j].0@,
            forall|j: int|
                0 <= j < self.entries@.len() && j != i ==> (#[trigger] after.entries@[j]).1
                    == self.entries@[j].1,
        ensures
            after.wf(),
            after.keys() == self.keys(),
            after@ == self@.insert(self.entries@[i].0@, after.entries@[i].1),
    {
        assert(after.keys() =~= self.keys());
        after.lemma_keys();
        self.lemma_keys();
        self.lemma_entry(i);
        let key = self.entries@[i].0@;
        assert forall|k: K::V| #[trigger] after@.contains_key(k) implies after@[k] == self@.insert(
            key,
            after.entries@[i].1,
        )[k] by {
            let j = choose|j: int| 0 <= j < after.keys().len() && after.keys()[j] == k;
            after.lemma_entry(j);
            self.lemma_entry(j);
            if j != i {
                assert(self.keys()[i] != self.keys()[j]);
            }
        }
        assert(after@ =~= self@.insert(key, after.entries@[i].1));
    }

    /// Creates an empty map.
    pub fn new() -> (map: Self)
        ensures
            map.wf(),
            map@ == Map::<K::V, W>::empty(),
    {
        let map = OrdMap { entries: Vec::new() };
        assert(map@ =~= Map::<K::V, W>::empty());
        map
    }

    /// Returns the number of entries.
    pub fn len(&self) -> (len: usize)
        requires
            self.wf(),
        ensures
            len == self@.len(),
            len == self.keys().len(),
    {
        proof {
            self.lemma_keys();
        }
        self.entries.len()
    }

    fn slot(&self, key: &K) -> (slot: Slot)
        requires
            self.wf(),
        ensures
            match slot {
                Slot::Found(i) => i < self.entries@.len() && self.entries@[i as int].0@ == key@,
                Slot::Vacant(i) => {
                    &&& i <= self.entries@.len()
                    &&& forall|j: int| 0 <= j < i ==> K::before(#[trigger] self.entries@[j].0@, key@)
                    &&& forall|j: int|
                        i <= j < self.entries@.len() ==> K::before(key@, #[trigger] self.entries@[j].0@)
                    &&& !self@.contains_key(key@)
                },
            },
    {
        let mut low: usize = 0;
        let mut high: usize = self.entries.len();
        while low < high
            invariant
                self.wf(),
                low <= high <= self.entries@.len(),
                forall|j: int| 0 <= j < low ==> K::before(#[trigger] self.entries@[j].0@, key@),
                forall|j: int|
                    high <= j < self.entries@.len() ==> K::before(key@, #[trigger] self.entries@[j].0@),
            decreases high - low,
        {
            let middle: usize = low + (high - low) / 2;
            let ghost keys = self.keys();
            match self.entries[middle].0.rank(key) {
                Rank::Same => {
                    return Slot::Found(middle);
                },
                Rank::Before => {
                    assert forall|j: int| 0 <= j < middle + 1 implies K::before(
                        #[trigger] self.entries@[j].0@,
                        key@,
                    ) by {
                        assert(keys[j] == self.entries@[j].0@);
                        assert(keys[middle as int] == self.entries@[middle as int].0@);
                        K::ordered(keys[j], keys[middle as int], key@);
                    }
                    low = middle + 1;
                },
                Rank::After => {
                    assert forall|j: int| middle <= j < self.entries@.len() implies K::before(
                        key@,
                        #[trigger] self.entries@[j].0@,
                    ) by {
                        assert(keys[j] == self.entries@[j].0@);
                        assert(keys[middle as int] == self.entries@[middle as int].0@);
                        K::ordered(key@, keys[middle as int], keys[j]);
                    }
                    high = middle;
                },
            }
        }
        proof {
            if self@.contains_key(key@) {
                let j = choose|j: int|
                    0 <= j < self.entries@.len() && #[trigger] self.entries@[j].0@ == key@;
                K::ordered(key@, key@, key@);
            }
        }
        Slot::Vacant(low)
    }

    /// Returns whether `key` has an entry.
    pub fn contains(&self, key: &K) -> (found: bool)
        requires
            self.wf(),
        ensures
            found == self@.contains_key(key@),
    {
        match self.slot(key) {
            Slot::Found(i) => {
                proof {
                    self.lemma_entry(i as int);
                }
                true
            },
            Slot::Vacant(_) => false,
        }
    }

    /// Returns the value of `key`.
    pub fn get(&self, key: &K) -> (value: Option<&W>)
        requires
            self.wf(),
        ensures
            match value {
                Some(value) => self@.contains_key(key@) && *value == self@[key@],
                None => !self@.contains_key(key@),
            },
    {
        match self.slot(key) {
            Slot::Found(i) => {
                proof {
                    self.lemma_entry(i as int);
                }
                Some(&self.entries[i].1)
            },
            Slot::Vacant(_) => None,
        }
    }

    /// Returns the key at `index` in ascending order.
    pub fn key_at(&self, index: usize) -> (key: &K)
        requires
            self.wf(),
            index < self.keys().len(),
        ensures
            key@ == self.keys()[index as int],
            self@.contains_key(key@),
    {
        proof {
            self.lemma_entry(index as int);
        }
        &self.entries[index].0
    }

    /// Returns the value at `index` in ascending key order.
    pub fn value_at(&self, index: usize) -> (value: &W)
        requires
            self.wf(),
            index < self.keys().len(),
        ensures
            self@.contains_key(self.keys()[index as int]),
            *value == self@[self.keys()[index as int]],
    {
        proof {
            self.lemma_entry(index as int);
        }
        &self.entries[index].1
    }

    /// Inserts or replaces the value of `key` and returns the former value.
    pub fn insert(&mut self, key: K, value: W) -> (former: Option<W>)
        requires
            old(self).wf(),
        ensures
            final(self).wf(),
            final(self)@ == old(self)@.insert(key@, value),
            match former {
                Some(former) => old(self)@.contains_key(key@) && former == old(self)@[key@],
                None => !old(self)@.contains_key(key@),
            },
            old(self)@.contains_key(key@) ==> final(self).keys() == old(self).keys(),
    {
        let ghost before = *self;
        match self.slot(&key) {
            Slot::Found(i) => {
                proof {
                    self.lemma_entry(i as int);
                }
                let ghost wanted = key@;
                self.entries.push((key, value));
                let former = self.entries.swap_remove(i);
                proof {
                    before.lemma_value_replaced(*self, i as int);
                }
                Some(former.1)
            },
            Slot::Vacant(i) => {
                let ghost wanted = key@;
                self.entries.insert(i, (key, value));
                proof {
                    assert(self.keys() =~= before.keys().insert(i as int, wanted));
                    assert forall|a: int, b: int| 0 <= a < b < self.keys().len() implies K::before(
                        #[trigger] self.keys()[a],
                        #[trigger] self.keys()[b],
                    ) by {
                        if a < i && b > i {
                            assert(self.keys()[a] == before.keys()[a]);
                            assert(self.keys()[b] == before.keys()[b - 1]);
                        } else if a < i && b < i {
                            assert(self.keys()[a] == before.keys()[a]);
                            assert(self.keys()[b] == before.keys()[b]);
                        } else if a > i {
                            assert(self.keys()[a] == before.keys()[a - 1]);
                            assert(self.keys()[b] == before.keys()[b - 1]);
                        } else if b == i {
                            assert(self.keys()[a] == before.entries@[a].0@);
                        } else {
                            assert(self.keys()[b] == before.entries@[b - 1].0@);
                        }
                    }
                    assert(self.wf());
                    assert forall|k: K::V| #[trigger] self@.contains_key(k) == before@.insert(
                        wanted,
                        value,
                    ).contains_key(k) by {
                        self.lemma_keys();
                        before.lemma_keys();
                        if before@.contains_key(k) {
                            let j = choose|j: int| 0 <= j < before.keys().len() && before.keys()[j] == k;
                            if j < i {
                                assert(self.keys()[j] == k);
                            } else {
                                assert(self.keys()[j + 1] == k);
                            }
                        }
                        if k == wanted {
                            assert(self.keys()[i as int] == k);
                        }
                        if self@.contains_key(k) && k != wanted {
                            let j = choose|j: int| 0 <= j < self.keys().len() && self.keys()[j] == k;
                            if j < i {
                                assert(before.keys()[j] == k);
                            } else {
                                assert(before.keys()[j - 1] == k);
                            }
                        }
                    }
                    assert forall|k: K::V| #[trigger] self@.contains_key(k) implies self@[k]
                        == before@.insert(wanted, value)[k] by {
                        self.lemma_keys();
                        let j = choose|j: int| 0 <= j < self.keys().len() && self.keys()[j] == k;
                        self.lemma_entry(j);
                        if j < i {
                            before.lemma_entry(j);
                        } else if j > i {
                            before.lemma_entry(j - 1);
                        }
                    }
                    assert(self@ =~= before@.insert(wanted, value));
                }
                None
            },
        }
    }

    /// Removes the entry of `key` and returns its value.
    pub fn remove(&mut self, key: &K) -> (former: Option<W>)
        requires
            old(self).wf(),
        ensures
            final(self).wf(),
            final(self)@ == old(self)@.remove(key@),
            match former {
                Some(former) => old(self)@.contains_key(key@) && former == old(self)@[key@],
                None => !old(self)@.contains_key(key@),
            },
    {
        let ghost before = *self;
        match self.slot(key) {
            Slot::Found(i) => {
                proof {
                    self.lemma_entry(i as int);
                }
                let former = self.entries.remove(i);
                proof {
                    assert(self.keys() =~= before.keys().remove(i as int));
                    assert forall|a: int, b: int| 0 <= a < b < self.keys().len() implies K::before(
                        #[trigger] self.keys()[a],
                        #[trigger] self.keys()[b],
                    ) by {
                        let c = if a < i { a } else { a + 1 };
                        let d = if b < i { b } else { b + 1 };
                        assert(self.keys()[a] == before.keys()[c]);
                        assert(self.keys()[b] == before.keys()[d]);
                    }
                    assert(self.wf());
                    assert forall|k: K::V| #[trigger] self@.contains_key(k) == before@.remove(
                        key@,
                    ).contains_key(k) by {
                        self.lemma_keys();
                        before.lemma_keys();
                        if before@.contains_key(k) && k != key@ {
                            let j = choose|j: int| 0 <= j < before.keys().len() && before.keys()[j] == k;
                            if j < i {
                                assert(self.keys()[j] == k);
                            } else {
                                assert(self.keys()[j - 1] == k);
                            }
                        }
                        if self@.contains_key(k) {
                            let j = choose|j: int| 0 <= j < self.keys().len() && self.keys()[j] == k;
                            let c = if j < i { j } else { j + 1 };
                            assert(before.keys()[c] == k);
                            assert(before.keys()[i as int] == key@);
                        }
                    }
                    assert forall|k: K::V| #[trigger] self@.contains_key(k) implies self@[k]
                        == before@[k] by {
                        self.lemma_keys();
                        let j = choose|j: int| 0 <= j < self.keys().len() && self.keys()[j] == k;
                        self.lemma_entry(j);
                        before.lemma_entry(if j < i { j } else { j + 1 });
                    }
                    assert(self@ =~= before@.remove(key@));
                }
                Some(former.1)
            },
            Slot::Vacant(_) => {
                assert(self@ =~= before@.remove(key@));
                None
            },
        }
    }

    /// Returns a mutable reference to the value of `key`.
    pub fn get_mut(&mut self, key: &K) -> (value: Option<&mut W>)
        requires
            old(self).wf(),
        ensures
            final(self).wf(),
            final(self).keys() == old(self).keys(),
            value is Some == old(self)@.contains_key(key@),
            value matches Some(value) ==> *value == old(self)@[key@],
            value matches Some(value) ==> final(self)@ == old(self)@.insert(key@, *final(value)),
            value is None ==> *final(self) == *old(self),
    {
        match self.slot(key) {
            Slot::Found(i) => {
                proof {
                    self.lemma_entry(i as int);
                }
                let ghost before = *self;
                let ghost after = *final(self);
                let value = &mut self.entries[i].1;
                proof {
                    before.lemma_value_replaced(after, i as int);
                }
                Some(value)
            },
            Slot::Vacant(_) => None,
        }
    }
}

impl Value for () {
    open spec fn alike(a: (), b: ()) -> bool {
        a == b
    }

    fn copy_value(&self) -> (copy: Self) {
    }
}

impl<K: Key, W: Value> Clone for OrdMap<K, W> {
    fn clone(&self) -> (copy: Self)
        ensures
            copy.keys() == self.keys(),
            self.wf() ==> copy.wf(),
            self.wf() ==> copy@.dom() == self@.dom(),
            self.wf() ==> forall|key: K::V| #[trigger]
                copy@.contains_key(key) ==> W::alike(self@[key], copy@[key]),
    {
        let mut entries: Vec<(K, W)> = Vec::new();
        let mut index: usize = 0;
        while index < self.entries.len()
            invariant
                index <= self.entries@.len(),
                entries@.len() == index,
                forall|i: int|
                    0 <= i < index ==> (#[trigger] entries@[i]).0@ == self.entries@[i].0@ && W::alike(
                        self.entries@[i].1,
                        entries@[i].1,
                    ),
            decreases self.entries@.len() - index,
        {
            let entry = &self.entries[index];
            entries.push((entry.0.duplicate(), entry.1.copy_value()));
            index += 1;
        }
        let copy = OrdMap { entries };
        proof {
            assert(copy.keys() =~= self.keys());
            if self.wf() {
                copy.lemma_keys();
                self.lemma_keys();
                assert(copy@.dom() =~= self@.dom());
                assert forall|key: K::V| #[trigger] copy@.contains_key(key) implies W::alike(
                    self@[key],
                    copy@[key],
                ) by {
                    let i = choose|i: int| 0 <= i < copy.keys().len() && copy.keys()[i] == key;
                    copy.lemma_entry(i);
                    self.lemma_entry(i);
                }
            }
        }
        copy
    }
}

impl<K: Key, W: Value> Value for OrdMap<K, W> {
    open spec fn alike(a: Self, b: Self) -> bool {
        &&& a.keys() == b.keys()
        &&& a.wf() ==> b.wf()
        &&& a.wf() ==> a@.dom() == b@.dom()
        &&& a.wf() ==> forall|key: K::V| #[trigger]
            b@.contains_key(key) ==> W::alike(a@[key], b@[key])
    }

    fn copy_value(&self) -> (copy: Self) {
        self.clone()
    }
}

/// Bytes are ordered by the first place in which they differ, and a beginning
/// comes before what goes on from it.
pub proof fn law_bytes_are_ordered_by_their_first_difference(a: Seq<u8>, b: Seq<u8>, at: int)
    requires
        0 <= at <= a.len(),
        at <= b.len(),
        forall|i: int| 0 <= i < at ==> #[trigger] a[i] == b[i],
    ensures
        at < a.len() && at < b.len() && a[at] < b[at] ==> bytes_before(a, b) && !bytes_before(
            b,
            a,
        ),
        at == a.len() && at < b.len() ==> bytes_before(a, b) && !bytes_before(b, a),
        at == a.len() && at == b.len() ==> !bytes_before(a, b),
    decreases at,
{
    if at > 0 {
        assert(a[0] == b[0]);
        let rest = a.drop_first();
        let other = b.drop_first();
        assert forall|i: int| 0 <= i < at - 1 implies #[trigger] rest[i] == other[i] by {
            assert(a[i + 1] == b[i + 1]);
        }
        law_bytes_are_ordered_by_their_first_difference(rest, other, at - 1);
    }
}

/// Identifiers are ordered as numbers, texts by their bytes, and pairs by their
/// first part and then by their second.
pub proof fn law_keys_are_ordered(
    spaces: (SpaceId, SpaceId),
    documents: (DocumentId, DocumentId),
    replicas: (ReplicaId, ReplicaId),
    texts: (Seq<char>, Seq<char>),
    numbers: (u64, u64),
)
    ensures
        <SpaceId as Key>::before(spaces.0, spaces.1) <==> spaces.0.0 < spaces.1.0,
        <DocumentId as Key>::before(documents.0, documents.1) <==> documents.0.0 < documents.1.0,
        <ReplicaId as Key>::before(replicas.0, replicas.1) <==> replicas.0.0 < replicas.1.0,
        <String as Key>::before(texts.0, texts.1) <==> bytes_before(
            encode_utf8(texts.0),
            encode_utf8(texts.1),
        ),
        <u64 as Key>::before(numbers.0, numbers.1) <==> numbers.0 < numbers.1,
        <(SpaceId, u64) as Key>::before((spaces.0, numbers.0), (spaces.1, numbers.1))
            <==> spaces.0.0 < spaces.1.0 || (spaces.0 == spaces.1 && numbers.0 < numbers.1),
{
}

} // verus!
