//! What lists and text agree on, whatever the order in which operations reach
//! them.

use crate::crdt::list::{
    anchor_at, anchor_refusal, applied_all, are_operations, inserting, lemma_same_operations,
    lemma_union_valid, part_ops, removing, ActorView, Apply, EntryView, ListOpView, ListView, OpId,
};
use crate::crdt::order::{
    deleted, diverges, is_path, is_visible_order, leads_to, lemma_path_extended, lemma_path_of,
    lemma_paths_ordered, lemma_visible_distinct, lemma_visible_unique, path_before, path_of,
    rooted, shows, sibling_before, visible,
};
use crate::crdt::text::{erasing, shown_text, typing};
use crate::error::ErrorView;
use crate::ordmap::Key;
use vstd::prelude::*;

verus! {

proof fn lemma_paths_total_from(a: Seq<OpId>, b: Seq<OpId>, k: int)
    requires
        0 <= k <= a.len(),
        k <= b.len(),
        a.take(k) == b.take(k),
    ensures
        a == b || path_before(a, b) || path_before(b, a),
    decreases a.len() - k,
{
    if k == a.len() {
        if k == b.len() {
            assert(a.take(k) =~= a);
            assert(b.take(k) =~= b);
        } else {
            assert(diverges(a, b, k));
        }
    } else if k == b.len() {
        assert(diverges(b, a, k));
    } else if a[k] == b[k] {
        assert(a.take(k + 1) =~= a.take(k).push(a[k]));
        assert(b.take(k + 1) =~= b.take(k).push(b[k]));
        lemma_paths_total_from(a, b, k + 1);
    } else {
        if sibling_before(a[k], b[k]) {
            assert(diverges(a, b, k));
        } else {
            assert(diverges(b, a, k));
        }
    }
}

/// Of two different paths one comes before the other.
proof fn lemma_paths_total(a: Seq<OpId>, b: Seq<OpId>)
    ensures
        a == b || path_before(a, b) || path_before(b, a),
{
    assert(a.take(0) =~= b.take(0));
    lemma_paths_total_from(a, b, 0);
}

spec fn in_order<V>(inserts: Map<OpId, EntryView<V>>, ids: Seq<OpId>) -> bool {
    forall|i: int, j: int|
        0 <= i < j < ids.len() ==> path_before(
            path_of(inserts, #[trigger] ids[i]),
            path_of(inserts, #[trigger] ids[j]),
        )
}

/// Where an element belongs in an ordered sequence that does not hold it.
proof fn lemma_place<V>(inserts: Map<OpId, EntryView<V>>, ids: Seq<OpId>, id: OpId) -> (place: int)
    requires
        in_order(inserts, ids),
        rooted(inserts, id),
        forall|i: int| 0 <= i < ids.len() ==> rooted(inserts, #[trigger] ids[i]),
        !ids.contains(id),
    ensures
        0 <= place <= ids.len(),
        forall|i: int|
            0 <= i < place ==> path_before(
                path_of(inserts, #[trigger] ids[i]),
                path_of(inserts, id),
            ),
        forall|i: int|
            place <= i < ids.len() ==> path_before(
                path_of(inserts, id),
                path_of(inserts, #[trigger] ids[i]),
            ),
        in_order(inserts, ids.insert(place, id)),
    decreases ids.len(),
{
    let path = path_of(inserts, id);
    assert(leads_to(inserts, path, id));
    if ids.len() == 0 {
        assert(in_order(inserts, ids.insert(0, id)));
        0
    } else {
        let last = ids.last();
        assert(ids[ids.len() - 1] == last);
        let other = path_of(inserts, last);
        assert(leads_to(inserts, other, last));
        assert(ids.contains(last));
        lemma_paths_total(path, other);
        let place = if path_before(other, path) {
            assert forall|i: int| 0 <= i < ids.len() implies path_before(
                path_of(inserts, #[trigger] ids[i]),
                path,
            ) by {
                if i < ids.len() - 1 {
                    lemma_paths_ordered(path_of(inserts, ids[i]), other, path);
                }
            }
            ids.len() as int
        } else {
            let rest = ids.drop_last();
            assert(!rest.contains(id)) by {
                if rest.contains(id) {
                    let i = choose|i: int| 0 <= i < rest.len() && rest[i] == id;
                    assert(ids[i] == id);
                }
            }
            assert forall|i: int| 0 <= i < rest.len() implies rooted(inserts, #[trigger] rest[i]) by {
                assert(rest[i] == ids[i]);
            }
            assert(in_order(inserts, rest)) by {
                assert forall|i: int, j: int| 0 <= i < j < rest.len() implies path_before(
                    path_of(inserts, #[trigger] rest[i]),
                    path_of(inserts, #[trigger] rest[j]),
                ) by {
                    assert(rest[i] == ids[i]);
                    assert(rest[j] == ids[j]);
                }
            }
            let place = lemma_place(inserts, rest, id);
            assert forall|i: int| 0 <= i < place implies path_before(
                path_of(inserts, #[trigger] ids[i]),
                path,
            ) by {
                assert(rest[i] == ids[i]);
            }
            assert forall|i: int| place <= i < ids.len() implies path_before(
                path,
                path_of(inserts, #[trigger] ids[i]),
            ) by {
                if i < rest.len() {
                    assert(rest[i] == ids[i]);
                }
            }
            place
        };
        let longer = ids.insert(place, id);
        assert forall|i: int, j: int| 0 <= i < j < longer.len() implies path_before(
            path_of(inserts, #[trigger] longer[i]),
            path_of(inserts, #[trigger] longer[j]),
        ) by {
            let a = if i < place { i } else { i - 1 };
            let b = if j < place { j } else { j - 1 };
            if i == place {
                assert(longer[j] == ids[b]);
            } else if j == place {
                assert(longer[i] == ids[a]);
            } else {
                assert(longer[i] == ids[a]);
                assert(longer[j] == ids[b]);
            }
        }
        place
    }
}

proof fn lemma_order_exists<V>(inserts: Map<OpId, EntryView<V>>, ids: Set<OpId>) -> (order: Seq<OpId>)
    requires
        ids.finite(),
        forall|id: OpId| #[trigger] ids.contains(id) ==> rooted(inserts, id),
    ensures
        in_order(inserts, order),
        forall|id: OpId| #[trigger] order.contains(id) == ids.contains(id),
    decreases ids.len(),
{
    if ids.len() == 0 {
        let order = Seq::<OpId>::empty();
        assert forall|id: OpId| #[trigger] order.contains(id) == ids.contains(id) by {
            if ids.contains(id) {
                assert(ids.remove(id).len() < ids.len());
            }
        }
        order
    } else {
        let id = ids.choose();
        let rest = lemma_order_exists(inserts, ids.remove(id));
        assert forall|i: int| 0 <= i < rest.len() implies rooted(inserts, #[trigger] rest[i]) by {
            assert(rest.contains(rest[i]));
        }
        let place = lemma_place(inserts, rest, id);
        let order = rest.insert(place, id);
        assert forall|x: OpId| #[trigger] order.contains(x) == ids.contains(x) by {
            lemma_insert_contains(rest, place, id, x);
        }
        order
    }
}

proof fn lemma_insert_contains(ids: Seq<OpId>, place: int, id: OpId, x: OpId)
    requires
        0 <= place <= ids.len(),
    ensures
        ids.insert(place, id).contains(x) == (ids.contains(x) || x == id),
{
    let longer = ids.insert(place, id);
    if ids.contains(x) {
        let i = choose|i: int| 0 <= i < ids.len() && ids[i] == x;
        assert(longer[if i < place { i } else { i + 1 }] == x);
    }
    if x == id {
        assert(longer[place] == x);
    }
    if longer.contains(x) && x != id {
        let i = choose|i: int| 0 <= i < longer.len() && longer[i] == x;
        assert(ids[if i < place { i } else { i - 1 }] == x);
    }
}

/// A valid list shows exactly the elements whose ancestry is complete and that
/// no deletion names, each once, in path order.
pub proof fn law_visible_elements<V>(state: ListView<V>)
    requires
        state.valid(),
    ensures
        is_visible_order(state, visible(state)),
        visible(state).no_duplicates(),
        forall|id: OpId| #[trigger] visible(state).contains(id) == (rooted(state.inserts, id) && !deleted(
            state.deletes,
            id,
        )),
{
    let shown = state.inserts.dom().filter(|id: OpId| shows(state, id));
    assert forall|id: OpId| #[trigger] shown.contains(id) == shows(state, id) by {
        if shows(state, id) {
            let path = path_of(state.inserts, id);
            assert(leads_to(state.inserts, path, id));
            assert(state.inserts.contains_key(path[path.len() - 1]));
        }
    }
    let order = lemma_order_exists(state.inserts, shown);
    assert forall|i: int| 0 <= i < order.len() implies shows(state, #[trigger] order[i]) by {
        assert(order.contains(order[i]));
    }
    assert forall|id: OpId| #[trigger] shows(state, id) implies order.contains(id) by {
        assert(shown.contains(id));
    }
    assert(is_visible_order(state, order));
    lemma_visible_unique(state, order, visible(state));
    lemma_visible_distinct(state, visible(state));
    assert forall|id: OpId| #[trigger] visible(state).contains(id) == (rooted(state.inserts, id)
        && !deleted(state.deletes, id)) by {
        if visible(state).contains(id) {
            let i = choose|i: int| 0 <= i < visible(state).len() && visible(state)[i] == id;
            assert(shows(state, visible(state)[i]));
        }
        if rooted(state.inserts, id) && !deleted(state.deletes, id) {
            assert(shows(state, id));
        }
    }
}

/// Applying an operation keeps a list valid.
pub proof fn law_applying_keeps_validity<V>(state: ListView<V>, operation: ListOpView<V>)
    requires
        state.valid(),
    ensures
        state.applying(operation).1.valid(),
{
    let after = state.applying(operation).1;
    assert forall|id: OpId| #[trigger] after.inserts.contains_key(id) implies !after.deletes.contains_key(
        id,
    ) && id.counter > 0 && after.inserts[id].after != Some(id) && (after.inserts[id].after matches Some(
        anchor,
    ) ==> anchor.counter > 0) by {
        if state.inserts.contains_key(id) {
        }
    }
    assert forall|id: OpId| #[trigger] after.deletes.contains_key(id) implies id.counter > 0
        && after.deletes[id].counter > 0 by {
        if state.deletes.contains_key(id) {
        }
    }
}

/// Applying a retained operation again is a duplicate and changes nothing.
pub proof fn law_applying_is_idempotent<V>(state: ListView<V>, operation: ListOpView<V>)
    requires
        state.valid(),
        state.applying(operation).0 is Ok,
    ensures
        ({
            let after = state.applying(operation).1;
            after.applying(operation) == (Ok::<Apply, ErrorView>(Apply::Duplicate), after)
        }),
{
}

/// Whether operations can be applied in any order: each is well formed, and no
/// identity stands for two contents.
pub open spec fn compatible<V>(state: ListView<V>, operations: Seq<ListOpView<V>>) -> bool {
    &&& forall|i: int|
        0 <= i < operations.len() ==> ((#[trigger] operations[i]).id().counter > 0 && match state.operation(
            operations[i].id(),
        ) {
            Some(existing) => existing == operations[i],
            None => anchor_refusal(operations[i]) is None,
        })
    &&& forall|i: int, j: int|
        0 <= i < operations.len() && 0 <= j < operations.len() && (#[trigger] operations[i]).id()
            == (#[trigger] operations[j]).id() ==> operations[i] == operations[j]
}

/// Whether an operation is among others.
pub open spec fn carries<V>(operations: Seq<ListOpView<V>>, operation: ListOpView<V>) -> bool {
    exists|i: int| 0 <= i < operations.len() && #[trigger] operations[i] == operation
}

/// Operations can be applied one after another exactly when they are
/// compatible; the list then retains them and what it retained before.
pub proof fn law_applied_operations<V>(state: ListView<V>, operations: Seq<ListOpView<V>>)
    requires
        state.valid(),
    ensures
        applied_all(state, operations) is Ok == compatible(state, operations),
        applied_all(state, operations) matches Ok(after) ==> {
            &&& after.valid()
            &&& forall|id: OpId| #[trigger]
                state.operation(id) is Some ==> after.operation(id) == state.operation(id)
            &&& forall|i: int|
                0 <= i < operations.len() ==> after.operation((#[trigger] operations[i]).id())
                    == Some(operations[i])
            &&& forall|id: OpId| #[trigger]
                after.operation(id) matches Some(operation) ==> state.operation(id) is Some
                    || carries(operations, operation)
        },
    decreases operations.len(),
{
    if operations.len() > 0 {
        let rest = operations.drop_last();
        let last = operations.last();
        assert(operations[operations.len() - 1] == last);
        law_applied_operations(state, rest);
        if compatible(state, operations) {
            assert(compatible(state, rest)) by {
                assert forall|i: int| 0 <= i < rest.len() implies #[trigger] rest[i] == operations[i] by {}
            }
        }
        if let Ok(before) = applied_all(state, rest) {
            law_applying_keeps_validity(before, last);
            let (outcome, after) = before.applying(last);
            assert(compatible(state, operations) == (outcome is Ok)) by {
                if compatible(state, operations) {
                    if let Some(existing) = before.operation(last.id()) {
                        if state.operation(last.id()) is None {
                            assert(carries(rest, existing));
                            let i = choose|i: int| 0 <= i < rest.len() && #[trigger] rest[i] == existing;
                            assert(operations[i] == existing);
                            assert(existing.id() == last.id());
                        } else {
                            assert(before.operation(last.id()) == state.operation(last.id()));
                        }
                    } else if state.operation(last.id()) is Some {
                        assert(before.operation(last.id()) == state.operation(last.id()));
                    }
                }
                if outcome is Ok {
                    assert forall|i: int| 0 <= i < operations.len() implies ((
                    #[trigger] operations[i]).id().counter > 0 && match state.operation(
                        operations[i].id(),
                    ) {
                        Some(existing) => existing == operations[i],
                        None => anchor_refusal(operations[i]) is None,
                    }) by {
                        if i < rest.len() {
                            assert(rest[i] == operations[i]);
                        } else {
                            if state.operation(last.id()) is Some {
                                assert(before.operation(last.id()) == state.operation(last.id()));
                            } else if let Some(existing) = before.operation(last.id()) {
                                assert(carries(rest, existing));
                                let j = choose|j: int|
                                    0 <= j < rest.len() && #[trigger] rest[j] == existing;
                                assert(rest[j] == existing);
                            }
                        }
                    }
                    assert forall|i: int, j: int|
                        0 <= i < operations.len() && 0 <= j < operations.len() && (
                        #[trigger] operations[i]).id() == (#[trigger] operations[j]).id() implies operations[i]
                        == operations[j] by {
                        if i < rest.len() {
                            assert(rest[i] == operations[i]);
                        }
                        if j < rest.len() {
                            assert(rest[j] == operations[j]);
                        }
                    }
                }
            }
            if outcome is Ok {
                assert forall|id: OpId| #[trigger] state.operation(id) is Some implies after.operation(
                    id,
                ) == state.operation(id) by {
                    assert(before.operation(id) == state.operation(id));
                }
                assert forall|i: int| 0 <= i < operations.len() implies after.operation(
                    (#[trigger] operations[i]).id(),
                ) == Some(operations[i]) by {
                    if i < rest.len() {
                        assert(rest[i] == operations[i]);
                    }
                }
                assert forall|id: OpId| #[trigger]
                    after.operation(id) matches Some(operation) implies state.operation(id) is Some
                    || carries(operations, after.operation(id)->0) by {
                    if before.operation(id) is Some {
                        assert(after.operation(id) == before.operation(id));
                        if state.operation(id) is None {
                            let found = before.operation(id)->0;
                            assert(carries(rest, found));
                            let i = choose|i: int| 0 <= i < rest.len() && #[trigger] rest[i] == found;
                            assert(operations[i] == found);
                        }
                    } else {
                        assert(id == last.id());
                        assert(operations[operations.len() - 1] == last);
                    }
                }
            }
        }
    }
}

/// Lists converge: the same operations, in whatever order and however often
/// each is repeated, are accepted in both orders or in neither, and leave the
/// same list.
pub proof fn law_delivery_converges<V>(
    state: ListView<V>,
    first: Seq<ListOpView<V>>,
    second: Seq<ListOpView<V>>,
)
    requires
        state.valid(),
        forall|operation: ListOpView<V>| #[trigger]
            carries(first, operation) == carries(second, operation),
    ensures
        applied_all(state, first) is Ok == applied_all(state, second) is Ok,
        applied_all(state, first) is Ok ==> applied_all(state, first) == applied_all(state, second),
{
    law_applied_operations(state, first);
    law_applied_operations(state, second);
    assert forall|a: Seq<ListOpView<V>>, b: Seq<ListOpView<V>>|
        compatible(state, a) && (forall|operation: ListOpView<V>| #[trigger]
            carries(a, operation) == carries(b, operation)) implies #[trigger] compatible(
        state,
        b,
    ) || !(#[trigger] compatible(state, a)) by {
        assert forall|i: int| 0 <= i < b.len() implies exists|j: int|
            0 <= j < a.len() && #[trigger] a[j] == #[trigger] b[i] by {
            assert(carries(b, b[i]));
            assert(carries(a, b[i]));
        }
    }
    assert(compatible(state, first) == compatible(state, second));
    if compatible(state, first) {
        let one = applied_all(state, first)->Ok_0;
        let two = applied_all(state, second)->Ok_0;
        assert forall|id: OpId| #[trigger] one.operation(id) == two.operation(id) by {
            if let Some(operation) = one.operation(id) {
                if state.operation(id) is Some {
                    assert(one.operation(id) == state.operation(id));
                    assert(two.operation(id) == state.operation(id));
                } else {
                    assert(carries(first, operation));
                    assert(carries(second, operation));
                    let i = choose|i: int| 0 <= i < second.len() && #[trigger] second[i] == operation;
                    assert(two.operation(second[i].id()) == Some(operation));
                }
            }
            if let Some(operation) = two.operation(id) {
                if state.operation(id) is Some {
                    assert(one.operation(id) == state.operation(id));
                } else {
                    assert(carries(second, operation));
                    assert(carries(first, operation));
                    let i = choose|i: int| 0 <= i < first.len() && #[trigger] first[i] == operation;
                    assert(one.operation(first[i].id()) == Some(operation));
                }
            }
        }
        lemma_same_operations(one, two);
    }
}

/// A list is rebuilt from its own operations, in whatever order they are given:
/// what is written of a list is read back as that list.
pub proof fn law_operations_rebuild_the_list<V>(state: ListView<V>, operations: Seq<ListOpView<V>>)
    requires
        state.valid(),
        forall|operation: ListOpView<V>| #[trigger]
            carries(operations, operation) == (state.operation(operation.id()) == Some(operation)),
    ensures
        applied_all(ListView::empty(), operations) == Ok::<ListView<V>, ErrorView>(state),
{
    let start = ListView::<V>::empty();
    assert forall|i: int| 0 <= i < operations.len() implies state.operation(
        (#[trigger] operations[i]).id(),
    ) == Some(operations[i]) by {
        assert(carries(operations, operations[i]));
    }
    assert(compatible(start, operations));
    law_applied_operations(start, operations);
    let after = applied_all(start, operations)->Ok_0;
    assert forall|id: OpId| #[trigger] after.operation(id) == state.operation(id) by {
        if state.operation(id) is Some {
            let operation = state.operation(id)->0;
            assert(carries(operations, operation));
            let i = choose|i: int| 0 <= i < operations.len() && #[trigger] operations[i] == operation;
            assert(after.operation(operations[i].id()) == Some(operations[i]));
        } else if after.operation(id) is Some {
            let operation = after.operation(id)->0;
            assert(start.operation(id) is None);
            assert(carries(operations, operation));
        }
    }
    lemma_same_operations(after, state);
}

/// Merging is commutative.
pub proof fn law_merge_commutes<V>(first: ListView<V>, second: ListView<V>)
    requires
        first.valid(),
        second.valid(),
        forall|id: OpId| !first.collides(second, id),
    ensures
        forall|id: OpId| !second.collides(first, id),
        first.union(second) == second.union(first),
        first.union(second).valid(),
{
    lemma_union_valid(first, second);
    assert forall|id: OpId| !second.collides(first, id) by {
        assert(!first.collides(second, id));
    }
    assert forall|id: OpId| first.inserts.contains_key(id) && second.inserts.contains_key(id) implies
        first.inserts[id] == second.inserts[id] by {
        assert(!first.collides(second, id));
        assert(first.inserts[id] =~= second.inserts[id]);
    }
    assert forall|id: OpId| first.deletes.contains_key(id) && second.deletes.contains_key(id) implies
        first.deletes[id] == second.deletes[id] by {
        assert(!first.collides(second, id));
        assert(!first.inserts.contains_key(id));
        assert(!second.inserts.contains_key(id));
    }
    assert(first.union(second).inserts =~= second.union(first).inserts);
    assert(first.union(second).deletes =~= second.union(first).deletes);
}

/// Merging is associative.
pub proof fn law_merge_associates<V>(first: ListView<V>, second: ListView<V>, third: ListView<V>)
    ensures
        first.union(second).union(third) == first.union(second.union(third)),
{
    assert(first.union(second).union(third).inserts =~= first.union(second.union(third)).inserts);
    assert(first.union(second).union(third).deletes =~= first.union(second.union(third)).deletes);
}

/// Merging a list into itself, or again, changes nothing.
pub proof fn law_merge_is_idempotent<V>(first: ListView<V>, second: ListView<V>)
    ensures
        first.union(first) == first,
        first.union(second).union(second) == first.union(second),
        forall|id: OpId| !first.collides(first, id),
{
    assert(first.union(first).inserts =~= first.inserts);
    assert(first.union(first).deletes =~= first.deletes);
    assert(first.union(second).union(second).inserts =~= first.union(second).inserts);
    assert(first.union(second).union(second).deletes =~= first.union(second).deletes);
}

/// Merging loses nothing: every operation of either list is retained.
pub proof fn law_merge_loses_nothing<V>(first: ListView<V>, second: ListView<V>, id: OpId)
    requires
        first.valid(),
        second.valid(),
        forall|id: OpId| !first.collides(second, id),
    ensures
        first.operation(id) is Some ==> first.union(second).operation(id) == first.operation(id),
        second.operation(id) is Some ==> first.union(second).operation(id) == second.operation(id),
{
    assert(!first.collides(second, id));
}

/// Deleting a visible element hides exactly that element.
pub proof fn law_delete_hides_exactly<V>(state: ListView<V>, id: OpId, index: int)
    requires
        state.valid(),
        id.counter > 0,
        state.operation(id) is None,
        0 <= index < visible(state).len(),
    ensures
        ({
            let operation = ListOpView::Delete { id, target: visible(state)[index] };
            &&& state.applying(operation).0 == Ok::<Apply, ErrorView>(Apply::Applied)
            &&& visible(state.applying(operation).1) == visible(state).remove(index)
        }),
{
    law_visible_elements(state);
    let before = visible(state);
    let target = before[index];
    let operation = ListOpView::Delete { id, target };
    assert(shows(state, target));
    assert(leads_to(state.inserts, path_of(state.inserts, target), target));
    assert(state.inserts.contains_key(target));
    let after = state.retaining(operation);
    assert(after.inserts == state.inserts);
    assert forall|x: OpId| shows(after, x) == (shows(state, x) && x != target) by {
        if deleted(state.deletes, x) {
            let by = choose|by: OpId| #[trigger]
                state.deletes.contains_key(by) && state.deletes[by] == x;
            assert(after.deletes.contains_key(by) && after.deletes[by] == x);
        }
        if x == target {
            assert(after.deletes.contains_key(id) && after.deletes[id] == x);
        }
        if deleted(after.deletes, x) {
            let by = choose|by: OpId| #[trigger]
                after.deletes.contains_key(by) && after.deletes[by] == x;
            if by != id {
                assert(state.deletes.contains_key(by) && state.deletes[by] == x);
            }
        }
    }
    let order = before.remove(index);
    assert forall|i: int| 0 <= i < order.len() implies shows(after, #[trigger] order[i]) by {
        let j = if i < index { i } else { i + 1 };
        assert(order[i] == before[j]);
        assert(shows(state, before[j]));
        assert(before[j] != before[index]);
    }
    assert forall|i: int, j: int| 0 <= i < j < order.len() implies path_before(
        path_of(after.inserts, #[trigger] order[i]),
        path_of(after.inserts, #[trigger] order[j]),
    ) by {
        assert(order[i] == before[if i < index { i } else { i + 1 }]);
        assert(order[j] == before[if j < index { j } else { j + 1 }]);
    }
    assert forall|x: OpId| #[trigger] shows(after, x) implies order.contains(x) by {
        assert(shows(state, x));
        let j = choose|j: int| 0 <= j < before.len() && before[j] == x;
        assert(order[if j < index { j } else { j - 1 }] == x);
    }
    assert(is_visible_order(after, order));
    lemma_visible_unique(after, order, visible(after));
}

proof fn lemma_path_kept<V>(
    before: Map<OpId, EntryView<V>>,
    after: Map<OpId, EntryView<V>>,
    path: Seq<OpId>,
)
    requires
        is_path(before, path),
        forall|id: OpId| #[trigger]
            before.contains_key(id) ==> after.contains_key(id) && after[id] == before[id],
    ensures
        is_path(after, path),
        path_of(after, path.last()) == path,
        path_of(before, path.last()) == path,
{
    assert forall|i: int| 0 <= i < path.len() implies after.contains_key(#[trigger] path[i]) by {
        assert(before.contains_key(path[i]));
    }
    assert forall|i: int| 0 < i < path.len() implies after[#[trigger] path[i]].after == Some(
        path[i - 1],
    ) by {
        assert(before.contains_key(path[i]));
    }
    assert(before.contains_key(path[0]));
    lemma_path_of(after, path);
    lemma_path_of(before, path);
}

/// What arrives later never reorders what is shown: operations added to a list
/// keep the order of any two elements shown before and after.
pub proof fn law_growth_keeps_order<V>(before: ListView<V>, after: ListView<V>, i: int, j: int)
    requires
        before.valid(),
        after.valid(),
        forall|id: OpId| #[trigger]
            before.operation(id) is Some ==> after.operation(id) == before.operation(id),
        0 <= i < j < visible(before).len(),
        visible(after).contains(visible(before)[i]),
        visible(after).contains(visible(before)[j]),
    ensures
        exists|a: int, b: int|
            0 <= a < b < visible(after).len() && #[trigger] visible(after)[a] == visible(before)[i]
                && #[trigger] visible(after)[b] == visible(before)[j],
{
    law_visible_elements(before);
    law_visible_elements(after);
    let old_order = visible(before);
    let new_order = visible(after);
    let first = old_order[i];
    let second = old_order[j];
    assert forall|id: OpId| #[trigger] before.inserts.contains_key(id) implies after.inserts.contains_key(
        id,
    ) && after.inserts[id] == before.inserts[id] by {
        assert(before.operation(id) is Some);
        assert(after.operation(id) == before.operation(id));
    }
    assert(shows(before, first));
    assert(shows(before, second));
    let one = path_of(before.inserts, first);
    let two = path_of(before.inserts, second);
    assert(leads_to(before.inserts, one, first));
    assert(leads_to(before.inserts, two, second));
    lemma_path_kept(before.inserts, after.inserts, one);
    lemma_path_kept(before.inserts, after.inserts, two);
    assert(path_before(one, two));
    let a = choose|a: int| 0 <= a < new_order.len() && new_order[a] == first;
    let b = choose|b: int| 0 <= b < new_order.len() && new_order[b] == second;
    lemma_paths_ordered(one, two, one);
    if b < a {
        assert(path_before(
            path_of(after.inserts, new_order[b]),
            path_of(after.inserts, new_order[a]),
        ));
    }
    assert(a != b);
    assert(visible(after)[a] == visible(before)[i] && visible(after)[b] == visible(before)[j]);
}

/// Whether a new element comes before every element anchored where an insertion
/// at a visible index is anchored.
pub open spec fn leads_siblings<V>(state: ListView<V>, id: OpId, index: nat) -> bool {
    forall|other: OpId| #[trigger]
        state.inserts.contains_key(other) && state.inserts[other].after == anchor_at(state, index)
            ==> sibling_before(id, other)
}

/// The path of a new element anchored at a visible index.
pub open spec fn new_path<V>(state: ListView<V>, id: OpId, index: nat) -> Seq<OpId> {
    if index == 0 {
        seq![id]
    } else {
        path_of(state.inserts, visible(state)[index - 1]).push(id)
    }
}

/// A new element whose identity nothing retained names is shown once, after
/// the elements before its index, and moves no other element. It stands
/// exactly at its index, before the element that was shown there, when it comes
/// before every other element anchored where it is anchored: where those are
/// its replica's earlier insertions or a greater replica's. It also does at the
/// end, and wherever the element at the index comes after it.
pub proof fn law_insert_shows_once<V>(state: ListView<V>, id: OpId, index: nat, value: V)
    requires
        state.valid(),
        id.counter > 0,
        state.operation(id) is None,
        !deleted(state.deletes, id),
        forall|other: OpId| #[trigger]
            state.inserts.contains_key(other) ==> state.inserts[other].after != Some(id),
        index <= visible(state).len(),
    ensures
        ({
            let operation = ListOpView::Insert { id, after: anchor_at(state, index), value };
            let after = state.applying(operation).1;
            &&& state.applying(operation).0 == Ok::<Apply, ErrorView>(Apply::Applied)
            &&& exists|place: int|
                {
                    &&& index <= place <= visible(state).len()
                    &&& visible(after) == #[trigger] visible(state).insert(place, id)
                    &&& index == visible(state).len() ==> place == index
                    &&& index < visible(state).len() && path_before(
                        new_path(state, id, index),
                        path_of(state.inserts, visible(state)[index as int]),
                    ) ==> place == index
                    &&& leads_siblings(state, id, index) ==> place == index
                }
        }),
{
    law_visible_elements(state);
    let before = visible(state);
    let operation = ListOpView::Insert { id, after: anchor_at(state, index), value };
    let anchor_path = if index == 0 {
        Seq::<OpId>::empty()
    } else {
        path_of(state.inserts, before[index - 1])
    };
    if index > 0 {
        assert(shows(state, before[index - 1]));
        assert(leads_to(state.inserts, anchor_path, before[index - 1]));
        assert(state.inserts.contains_key(before[index - 1]));
    }
    assert(state.applying(operation).0 == Ok::<Apply, ErrorView>(Apply::Applied));
    let after = state.retaining(operation);
    law_applying_keeps_validity(state, operation);
    assert forall|other: OpId| #[trigger] state.inserts.contains_key(other) implies after.inserts.contains_key(
        other,
    ) && after.inserts[other] == state.inserts[other] by {
        assert(state.operation(other) is Some);
    }
    let path = anchor_path.push(id);
    assert(path =~= new_path(state, id, index));
    if index > 0 {
        lemma_path_kept(state.inserts, after.inserts, anchor_path);
    }
    lemma_path_extended(after.inserts, anchor_path, id);
    lemma_path_of(after.inserts, path);
    assert forall|x: OpId| x != id implies rooted(after.inserts, x) == rooted(state.inserts, x) && (
    rooted(state.inserts, x) ==> path_of(after.inserts, x) == path_of(state.inserts, x)) by {
        if rooted(state.inserts, x) {
            let way = path_of(state.inserts, x);
            assert(leads_to(state.inserts, way, x));
            lemma_path_kept(state.inserts, after.inserts, way);
            assert(leads_to(after.inserts, way, x));
        }
        if rooted(after.inserts, x) {
            let way = path_of(after.inserts, x);
            assert(leads_to(after.inserts, way, x));
            lemma_path_avoids(state, after.inserts, id, way);
            assert(leads_to(state.inserts, way, x));
        }
    }
    assert forall|x: OpId| shows(after, x) == (shows(state, x) || x == id) by {
        assert(after.deletes == state.deletes);
        if shows(state, id) {
            assert(leads_to(state.inserts, path_of(state.inserts, id), id));
            assert(state.inserts.contains_key(id));
        }
    }
    assert(!before.contains(id)) by {
        if before.contains(id) {
            assert(leads_to(state.inserts, path_of(state.inserts, id), id));
            assert(state.inserts.contains_key(id));
        }
    }
    assert forall|i: int| 0 <= i < before.len() implies rooted(after.inserts, #[trigger] before[i])
        && path_of(after.inserts, before[i]) == path_of(state.inserts, before[i]) by {
        assert(shows(state, before[i]));
        assert(before[i] != id) by {
            assert(before.contains(before[i]));
        }
    }
    assert(in_order(after.inserts, before)) by {
        assert forall|i: int, j: int| 0 <= i < j < before.len() implies path_before(
            path_of(after.inserts, #[trigger] before[i]),
            path_of(after.inserts, #[trigger] before[j]),
        ) by {}
    }
    let place = lemma_place(after.inserts, before, id);
    let order = before.insert(place, id);
    assert forall|x: OpId| #[trigger] order.contains(x) == (before.contains(x) || x == id) by {
        lemma_insert_contains(before, place, id, x);
    }
    assert forall|i: int| 0 <= i < order.len() implies shows(after, #[trigger] order[i]) by {
        assert(order.contains(order[i]));
        if order[i] != id {
            assert(before.contains(order[i]));
        }
    }
    assert forall|x: OpId| #[trigger] shows(after, x) implies order.contains(x) by {
        if x != id {
            assert(shows(state, x));
            assert(before.contains(x));
        }
    }
    assert(is_visible_order(after, order));
    lemma_visible_unique(after, order, visible(after));
    assert(place >= index) by {
        if place < index {
            assert(path_before(path, path_of(after.inserts, before[index - 1])));
            assert(diverges(anchor_path, path, anchor_path.len() as int)) by {
                assert(path.take(anchor_path.len() as int) =~= anchor_path);
                assert(anchor_path.take(anchor_path.len() as int) =~= anchor_path);
            }
            lemma_paths_ordered(path, anchor_path, path);
        }
    }
    if index < before.len() && leads_siblings(state, id, index) {
        let other = path_of(state.inserts, before[index as int]);
        let n = anchor_path.len() as int;
        assert(shows(state, before[index as int]));
        assert(leads_to(state.inserts, other, before[index as int]));
        assert(path.take(n) =~= anchor_path);
        if other.len() > n && other.take(n) == anchor_path {
            let step = other[n];
            assert(state.inserts.contains_key(step));
            assert(state.inserts[step].after == anchor_at(state, index)) by {
                if n > 0 {
                    assert(other.take(n)[n - 1] == anchor_path.last());
                    assert(state.inserts[other[n]].after == Some(other[n - 1]));
                }
            }
            assert(diverges(path, other, n));
        } else {
            assert(other.take(0) =~= Seq::<OpId>::empty());
            assert(index > 0);
            assert(path_before(anchor_path, other));
            let k = choose|k: int| diverges(anchor_path, other, k);
            assert(anchor_path.take(n) =~= anchor_path);
            assert(k < n);
            assert(path.take(k) =~= anchor_path.take(k));
            assert(diverges(path, other, k));
        }
        assert(path_before(path, other));
    }
    if index < before.len() && path_before(path, path_of(state.inserts, before[index as int])) {
        if place > index {
            assert(path_before(path_of(after.inserts, before[index as int]), path));
            lemma_paths_ordered(path, path_of(state.inserts, before[index as int]), path);
        }
    }
    assert(visible(after) == visible(state).insert(place, id));
}

/// No path but its own passes through an element that nothing names.
proof fn lemma_path_avoids<V>(
    state: ListView<V>,
    after: Map<OpId, EntryView<V>>,
    id: OpId,
    path: Seq<OpId>,
)
    requires
        is_path(after, path),
        path.last() != id,
        !state.inserts.contains_key(id),
        forall|other: OpId| #[trigger]
            state.inserts.contains_key(other) ==> state.inserts[other].after != Some(id),
        forall|other: OpId| #[trigger]
            after.contains_key(other) ==> other == id || (state.inserts.contains_key(other)
                && after[other] == state.inserts[other]),
        after.contains_key(id) ==> after[id].after != Some(id),
    ensures
        is_path(state.inserts, path),
{
    assert forall|i: int| 0 <= i < path.len() implies #[trigger] path[i] != id by {
        if path[i] == id {
            assert(i < path.len() - 1);
            assert(after[path[i + 1]].after == Some(path[i]));
            assert(after.contains_key(path[i + 1]));
        }
    }
    assert forall|i: int| 0 <= i < path.len() implies state.inserts.contains_key(#[trigger] path[i]) by {
        assert(after.contains_key(path[i]));
    }
    assert forall|i: int| 0 < i < path.len() implies state.inserts[#[trigger] path[i]].after == Some(
        path[i - 1],
    ) by {
        assert(after.contains_key(path[i]));
    }
    assert(after.contains_key(path[0]));
}

/// Whether an identity is one that an actor has issued, or a greater replica's.
pub open spec fn precedes_next(actor: ActorView, id: OpId) -> bool {
    id.replica.0 > actor.replica.0 || (id.replica == actor.replica && id.counter <= actor.counter)
}

/// Whether all that a list retains or names was issued by an actor or by
/// greater replicas.
pub open spec fn written_up_to<V>(state: ListView<V>, actor: ActorView) -> bool {
    &&& forall|id: OpId| #[trigger]
        state.inserts.contains_key(id) ==> precedes_next(actor, id) && (
        state.inserts[id].after matches Some(anchor) ==> precedes_next(actor, anchor))
    &&& forall|id: OpId| #[trigger]
        state.deletes.contains_key(id) ==> precedes_next(actor, id) && precedes_next(
            actor,
            state.deletes[id],
        )
}

/// An element is inserted before the visible element at its index: an actor
/// that wrote a list alone, or with greater replicas, then finds the new element
/// at the index and every other element where it was relative to it.
pub proof fn law_element_is_inserted_before_the_index<V>(
    state: ListView<V>,
    actor: ActorView,
    index: nat,
    value: V,
)
    requires
        state.valid(),
        written_up_to(state, actor),
        index <= visible(state).len(),
        actor.counter < actor.limit,
    ensures
        ({
            let edit = inserting(state, actor, index, value);
            let id = actor.next_id();
            &&& edit.outcome == Ok::<ListOpView<V>, ErrorView>(
                ListOpView::Insert { id, after: anchor_at(state, index), value },
            )
            &&& visible(edit.state) == visible(state).insert(index as int, id)
            &&& edit.state.inserts == state.inserts.insert(
                id,
                EntryView { after: anchor_at(state, index), value },
            )
            &&& edit.state.deletes == state.deletes
            &&& !state.inserts.contains_key(id)
            &&& edit.state.valid()
            &&& written_up_to(edit.state, edit.actor)
            &&& edit.actor == actor.issued()
        }),
{
    let id = actor.next_id();
    assert(!precedes_next(actor, id));
    assert(state.operation(id) is None);
    assert(!deleted(state.deletes, id));
    assert(leads_siblings(state, id, index));
    law_insert_shows_once(state, id, index, value);
    let operation = ListOpView::Insert { id, after: anchor_at(state, index), value };
    let edit = inserting(state, actor, index, value);
    assert(edit.state == state.retaining(operation));
    law_applying_keeps_validity(state, operation);
    assert(anchor_at(state, index) matches Some(anchor) ==> precedes_next(actor, anchor)) by {
        if index > 0 {
            law_visible_elements(state);
            let anchor = visible(state)[index - 1];
            assert(shows(state, anchor));
            assert(leads_to(state.inserts, path_of(state.inserts, anchor), anchor));
        }
    }
    assert forall|other: OpId| precedes_next(actor, other) implies #[trigger] precedes_next(
        edit.actor,
        other,
    ) by {}
    assert(precedes_next(edit.actor, id));
    assert forall|other: OpId| #[trigger] edit.state.inserts.contains_key(other) implies precedes_next(
        edit.actor,
        other,
    ) && (edit.state.inserts[other].after matches Some(anchor) ==> precedes_next(
        edit.actor,
        anchor,
    )) by {
        if other != id {
            assert(state.inserts.contains_key(other));
            assert(precedes_next(actor, other));
        }
    }
    assert forall|other: OpId| #[trigger] edit.state.deletes.contains_key(other) implies precedes_next(
        edit.actor,
        other,
    ) && precedes_next(edit.actor, edit.state.deletes[other]) by {
        assert(state.deletes.contains_key(other));
    }
}

/// The characters shown after one is inserted.
proof fn lemma_shown_insert(
    state: ListView<char>,
    after: ListView<char>,
    id: OpId,
    index: int,
    entry: EntryView<char>,
)
    requires
        state.valid(),
        0 <= index <= visible(state).len(),
        !state.inserts.contains_key(id),
        after.inserts == state.inserts.insert(id, entry),
        visible(after) == visible(state).insert(index, id),
    ensures
        shown_text(after) == shown_text(state).insert(index, entry.value),
{
    law_visible_elements(state);
    assert forall|i: int| 0 <= i < visible(state).len() implies state.inserts.contains_key(
        #[trigger] visible(state)[i],
    ) by {
        let shown = visible(state)[i];
        assert(shows(state, shown));
        assert(leads_to(state.inserts, path_of(state.inserts, shown), shown));
    }
    assert forall|i: int| 0 <= i < shown_text(after).len() implies shown_text(after)[i]
        == shown_text(state).insert(index, entry.value)[i] by {
        if i < index {
            assert(visible(after)[i] == visible(state)[i]);
        } else if i > index {
            assert(visible(after)[i] == visible(state)[i - 1]);
        }
    }
    assert(shown_text(after) =~= shown_text(state).insert(index, entry.value));
}

/// Text is inserted before the visible character at its index: an actor that
/// wrote a text alone, or with greater replicas, then finds what it inserted
/// between what stood before the index and what stood from there on.
pub proof fn law_text_is_inserted_before_the_index(
    state: ListView<char>,
    actor: ActorView,
    index: nat,
    text: Seq<char>,
)
    requires
        state.valid(),
        written_up_to(state, actor),
        index <= shown_text(state).len(),
        actor.counter + text.len() <= actor.limit,
    ensures
        ({
            let edit = typing(state, actor, index, text);
            &&& edit.outcome is Ok
            &&& shown_text(edit.state) == shown_text(state).take(index as int) + text
                + shown_text(state).skip(index as int)
            &&& edit.state.valid()
            &&& written_up_to(edit.state, edit.actor)
            &&& edit.actor == (ActorView { counter: (actor.counter + text.len()) as u64, ..actor })
        }),
    decreases text.len(),
{
    let old_text = shown_text(state);
    if text.len() == 0 {
        assert(old_text =~= old_text.take(index as int) + text + old_text.skip(index as int));
    } else {
        let shorter = text.drop_last();
        law_text_is_inserted_before_the_index(state, actor, index, shorter);
        let before = typing(state, actor, index, shorter);
        let place = (index + text.len() - 1) as nat;
        let value = text.last();
        let list = before.state;
        assert(visible(list).len() == shown_text(list).len());
        law_element_is_inserted_before_the_index(list, before.actor, place, value);
        let edit = inserting(list, before.actor, place, value);
        let entry = EntryView { after: anchor_at(list, place), value };
        lemma_shown_insert(list, edit.state, before.actor.next_id(), place as int, entry);
        assert(shown_text(edit.state) =~= old_text.take(index as int) + text + old_text.skip(
            index as int,
        ));
    }
}

/// Whether a list retains nothing under the identities that an actor issues
/// next.
pub open spec fn unused<V>(state: ListView<V>, actor: ActorView, count: nat) -> bool {
    forall|id: OpId|
        id.replica == actor.replica && actor.counter < id.counter <= actor.counter + count ==> !(
        #[trigger] state.inserts.contains_key(id)) && !state.deletes.contains_key(id)
}

/// Removing the element at an index hides that element and no other: every
/// element before the index stays, every element after it moves up by one, and
/// nothing that was inserted is forgotten.
pub proof fn law_element_at_the_index_is_removed<V>(
    state: ListView<V>,
    actor: ActorView,
    index: nat,
)
    requires
        state.valid(),
        unused(state, actor, 1),
        index < visible(state).len(),
        actor.counter < actor.limit,
    ensures
        ({
            let edit = removing(state, actor, index);
            let id = OpId { replica: actor.replica, counter: (actor.counter + 1) as u64 };
            &&& edit.outcome == Ok::<ListOpView<V>, ErrorView>(
                ListOpView::Delete { id, target: visible(state)[index as int] },
            )
            &&& visible(edit.state).len() + 1 == visible(state).len()
            &&& forall|i: int| 0 <= i < index ==> visible(edit.state)[i] == #[trigger] visible(
                state,
            )[i]
            &&& forall|i: int|
                index < i < visible(state).len() ==> visible(edit.state)[i - 1]
                    == #[trigger] visible(state)[i]
            &&& edit.state.inserts == state.inserts
            &&& edit.state.deletes == state.deletes.insert(id, visible(state)[index as int])
            &&& edit.state.valid()
            &&& edit.actor.replica == actor.replica
            &&& edit.actor.counter == actor.counter + 1
            &&& edit.actor.limit == actor.limit
        }),
{
    let id = OpId { replica: actor.replica, counter: (actor.counter + 1) as u64 };
    assert(!state.inserts.contains_key(id));
    assert(state.operation(id) is None);
    law_delete_hides_exactly(state, id, index as int);
    let operation = ListOpView::<V>::Delete { id, target: visible(state)[index as int] };
    law_applying_keeps_validity(state, operation);
    let edit = removing(state, actor, index);
    assert(edit.state == state.applying(operation).1);
}

/// Deleting a range leaves the text before it and the text behind it: exactly
/// `count` characters beginning at the index are gone, and one deletion is
/// created for each.
pub proof fn law_text_range_is_deleted(
    state: ListView<char>,
    actor: ActorView,
    index: nat,
    count: nat,
)
    requires
        state.valid(),
        unused(state, actor, count),
        index + count <= shown_text(state).len(),
        actor.counter + count <= actor.limit,
    ensures
        ({
            let edit = erasing(state, actor, index, count);
            &&& edit.outcome matches Ok(operations) && operations.len() == count
            &&& shown_text(edit.state) == shown_text(state).take(index as int) + shown_text(
                state,
            ).skip((index + count) as int)
            &&& edit.state.inserts == state.inserts
            &&& edit.state.valid()
            &&& edit.actor.replica == actor.replica
            &&& edit.actor.counter == actor.counter + count
            &&& edit.actor.limit == actor.limit
            &&& forall|id: OpId| #[trigger]
                edit.state.deletes.contains_key(id) ==> state.deletes.contains_key(id) || (
                id.replica == actor.replica && actor.counter < id.counter <= actor.counter + count)
        }),
    decreases count,
{
    let old_text = shown_text(state);
    if count == 0 {
        assert(old_text =~= old_text.take(index as int) + old_text.skip(index as int));
    } else {
        let less = (count - 1) as nat;
        assert(unused(state, actor, less));
        law_text_range_is_deleted(state, actor, index, less);
        let before = erasing(state, actor, index, less);
        let list = before.state;
        assert(visible(list).len() == shown_text(list).len());
        assert(unused(list, before.actor, 1)) by {
            assert forall|id: OpId|
                id.replica == before.actor.replica && before.actor.counter < id.counter
                    <= before.actor.counter + 1 implies !(#[trigger] list.inserts.contains_key(id))
                && !list.deletes.contains_key(id) by {
                assert(!state.inserts.contains_key(id));
            }
        }
        law_element_at_the_index_is_removed(list, before.actor, index);
        let edit = removing(list, before.actor, index);
        let whole = erasing(state, actor, index, count);
        assert(whole.state == edit.state);
        let shown = shown_text(edit.state);
        let expected = old_text.take(index as int) + old_text.skip((index + count) as int);
        assert(shown.len() == expected.len());
        assert forall|i: int| 0 <= i < shown.len() implies shown[i] == expected[i] by {
            let former = shown_text(list);
            if i < index {
                assert(visible(edit.state)[i] == visible(list)[i]);
                assert(shown[i] == former[i]);
            } else {
                assert(visible(edit.state)[i] == visible(list)[i + 1]);
                assert(shown[i] == former[i + 1]);
            }
        }
        assert(shown =~= expected);
    }
}

/// A new element names the visible element before its index and carries its
/// value; nothing else changes.
pub proof fn law_insertion_names_its_neighbour<V>(
    state: ListView<V>,
    actor: ActorView,
    index: nat,
    value: V,
)
    requires
        state.valid(),
        unused(state, actor, 1),
        index <= visible(state).len(),
        actor.counter < actor.limit,
    ensures
        ({
            let edit = inserting(state, actor, index, value);
            let id = OpId { replica: actor.replica, counter: (actor.counter + 1) as u64 };
            let after = if index == 0 {
                None
            } else {
                Some(visible(state)[index - 1])
            };
            &&& edit.outcome == Ok::<ListOpView<V>, ErrorView>(
                ListOpView::Insert { id, after, value },
            )
            &&& edit.state.inserts == state.inserts.insert(id, EntryView { after, value })
            &&& edit.state.deletes == state.deletes
            &&& edit.state.valid()
            &&& edit.actor.replica == actor.replica
            &&& edit.actor.counter == actor.counter + 1
            &&& edit.actor.limit == actor.limit
        }),
{
    let id = OpId { replica: actor.replica, counter: (actor.counter + 1) as u64 };
    assert(!state.inserts.contains_key(id));
    assert(state.operation(id) is None);
    law_visible_elements(state);
    if index > 0 {
        let anchor = visible(state)[index - 1];
        assert(shows(state, anchor));
        assert(leads_to(state.inserts, path_of(state.inserts, anchor), anchor));
        assert(state.inserts.contains_key(anchor));
    }
    let operation = ListOpView::Insert { id, after: anchor_at(state, index), value };
    law_applying_keeps_validity(state, operation);
}

/// An actor stops exactly at the end of its reservation, and an index outside
/// the visible elements is refused; either way nothing changes.
pub proof fn law_refused_edit_changes_nothing<V>(
    state: ListView<V>,
    actor: ActorView,
    index: nat,
    value: V,
)
    ensures
        index > visible(state).len() || actor.counter == actor.limit ==> {
            let edit = inserting(state, actor, index, value);
            edit.outcome is Err && edit.state == state && edit.actor == actor
        },
        index >= visible(state).len() || actor.counter == actor.limit ==> {
            let edit = removing(state, actor, index);
            edit.outcome is Err && edit.state == state && edit.actor == actor
        },
{
}

/// A list retains an operation that it receives, whatever it retains already:
/// a well-formed insertion under a free identity is kept as it came, with its
/// anchor and its value, and leaves every other operation alone.
pub proof fn law_received_insertion_is_kept<V>(
    state: ListView<V>,
    id: OpId,
    after: Option<OpId>,
    value: V,
)
    requires
        id.counter > 0,
        after matches Some(anchor) ==> anchor.counter > 0 && anchor != id,
        !state.inserts.contains_key(id),
        !state.deletes.contains_key(id),
    ensures
        ({
            let (outcome, kept) = state.applying(ListOpView::Insert { id, after, value });
            &&& outcome == Ok::<Apply, ErrorView>(Apply::Applied)
            &&& kept.inserts.contains_key(id)
            &&& kept.inserts[id].after == after
            &&& kept.inserts[id].value == value
            &&& kept.inserts.remove(id) == state.inserts
            &&& kept.deletes == state.deletes
        }),
{
    let kept = state.applying(ListOpView::Insert { id, after, value }).1;
    assert(kept.inserts.remove(id) =~= state.inserts);
}

/// A well-formed deletion under a free identity is kept as it came, before or
/// after its target arrives, and leaves every other operation alone.
pub proof fn law_received_deletion_is_kept<V>(state: ListView<V>, id: OpId, target: OpId)
    requires
        id.counter > 0,
        target.counter > 0,
        !state.inserts.contains_key(id),
        !state.deletes.contains_key(id),
    ensures
        ({
            let (outcome, kept) = state.applying(ListOpView::<V>::Delete { id, target });
            &&& outcome == Ok::<Apply, ErrorView>(Apply::Applied)
            &&& kept.deletes.contains_key(id)
            &&& kept.deletes[id] == target
            &&& kept.deletes.remove(id) == state.deletes
            &&& kept.inserts == state.inserts
        }),
{
    let kept = state.applying(ListOpView::<V>::Delete { id, target }).1;
    assert(kept.deletes.remove(id) =~= state.deletes);
}

/// An operation is refused, and changes nothing, where its identity is retained
/// with other content, where a counter is zero, or where an element would be
/// its own anchor.
pub proof fn law_unfit_operation_is_refused<V>(state: ListView<V>, operation: ListOpView<V>)
    requires
        ({
            let id = match operation {
                ListOpView::Insert { id, .. } => id,
                ListOpView::Delete { id, .. } => id,
            };
            let named = match operation {
                ListOpView::Insert { after, .. } => after,
                ListOpView::Delete { target, .. } => Some(target),
            };
            let kept = match operation {
                ListOpView::Insert { id, after, value } => state.inserts.contains_key(id)
                    && state.inserts[id].after == after && state.inserts[id].value == value,
                ListOpView::Delete { id, target } => !state.inserts.contains_key(id)
                    && state.deletes.contains_key(id) && state.deletes[id] == target,
            };
            ||| id.counter == 0
            ||| (state.inserts.contains_key(id) || state.deletes.contains_key(id)) && !kept
            ||| !state.inserts.contains_key(id) && !state.deletes.contains_key(id) && (
            named matches Some(other) && (other.counter == 0 || (operation is Insert && other
                == id)))
        }),
    ensures
        state.applying(operation).0 is Err,
        state.applying(operation).1 == state,
{
}

/// What is shown where: an element before the elements inserted after it, and
/// of two elements inserted after the same one, that of the lesser replica
/// first, and of one replica the later one first.
pub proof fn law_display_order<V>(state: ListView<V>, i: int, j: int)
    requires
        state.valid(),
        0 <= i < visible(state).len(),
        0 <= j < visible(state).len(),
    ensures
        ({
            let a = visible(state)[i];
            let b = visible(state)[j];
            &&& state.inserts.contains_key(a)
            &&& state.inserts[b].after == Some(a) ==> i < j
            &&& state.inserts[a].after == state.inserts[b].after && a.replica.0 < b.replica.0
                ==> i < j
            &&& state.inserts[a].after == state.inserts[b].after && a.replica == b.replica
                && a.counter > b.counter ==> i < j
        }),
{
    law_visible_elements(state);
    let order = visible(state);
    let a = order[i];
    let b = order[j];
    assert(shows(state, a));
    assert(shows(state, b));
    let one = path_of(state.inserts, a);
    let two = path_of(state.inserts, b);
    assert(leads_to(state.inserts, one, a));
    assert(leads_to(state.inserts, two, b));
    lemma_paths_ordered(one, two, one);
    let related = state.inserts[b].after == Some(a) || (state.inserts[a].after
        == state.inserts[b].after && ((a.replica.0 < b.replica.0) || (a.replica == b.replica
        && a.counter > b.counter)));
    if related {
        assert(path_before(one, two)) by {
            if state.inserts[b].after == Some(a) {
                lemma_path_extended(state.inserts, one, b);
                lemma_path_of(state.inserts, one.push(b));
                assert(two == one.push(b));
                assert(one.take(one.len() as int) =~= two.take(one.len() as int));
                assert(diverges(one, two, one.len() as int));
            } else {
                let n = one.len() - 1;
                let stem = one.drop_last();
                lemma_stem(state.inserts, one);
                lemma_stem(state.inserts, two);
                let other = two.drop_last();
                if state.inserts[a].after is Some {
                    lemma_path_of(state.inserts, stem);
                    lemma_path_of(state.inserts, other);
                    assert(stem.last() == other.last());
                }
                assert(stem == other);
                assert(one.take(n) =~= stem);
                assert(two.take(n) =~= other);
                assert(diverges(one, two, n));
            }
        }
        if j <= i {
            if j < i {
                assert(path_before(
                    path_of(state.inserts, order[j]),
                    path_of(state.inserts, order[i]),
                ));
            }
        }
    }
}

/// What stands before the last element of a path.
proof fn lemma_stem<V>(inserts: Map<OpId, EntryView<V>>, path: Seq<OpId>)
    requires
        is_path(inserts, path),
    ensures
        inserts[path.last()].after is None ==> path.drop_last() == Seq::<OpId>::empty(),
        inserts[path.last()].after matches Some(anchor) ==> is_path(inserts, path.drop_last())
            && path.drop_last().last() == anchor,
{
    let stem = path.drop_last();
    if path.len() == 1 {
        assert(stem =~= Seq::<OpId>::empty());
    } else {
        assert(inserts[path[path.len() - 1]].after == Some(path[path.len() - 2]));
        assert forall|i: int| 0 <= i < stem.len() implies inserts.contains_key(#[trigger] stem[i]) by {
            assert(stem[i] == path[i]);
        }
        assert forall|i: int| 0 < i < stem.len() implies inserts[#[trigger] stem[i]].after == Some(
            stem[i - 1],
        ) by {
            assert(stem[i] == path[i]);
        }
    }
}

/// What is written in one place stays together: whatever is shown between an
/// element and one inserted after it, directly or through others, was itself
/// inserted after it, directly or through others.
pub proof fn law_insertions_stay_together<V>(state: ListView<V>, i: int, k: int, j: int)
    requires
        state.valid(),
        0 <= i < k < j < visible(state).len(),
        path_of(state.inserts, visible(state)[j]).contains(visible(state)[i]),
    ensures
        path_of(state.inserts, visible(state)[k]).contains(visible(state)[i]),
        is_path(state.inserts, path_of(state.inserts, visible(state)[k])),
        path_of(state.inserts, visible(state)[k]).last() == visible(state)[k],
{
    law_visible_elements(state);
    let order = visible(state);
    let root = order[i];
    assert(shows(state, order[i]) && shows(state, order[k]) && shows(state, order[j]));
    let one = path_of(state.inserts, order[i]);
    let mid = path_of(state.inserts, order[k]);
    let two = path_of(state.inserts, order[j]);
    assert(leads_to(state.inserts, one, order[i]));
    assert(leads_to(state.inserts, mid, order[k]));
    assert(leads_to(state.inserts, two, order[j]));
    let at = choose|at: int| 0 <= at < two.len() && two[at] == root;
    let n = at + 1;
    lemma_prefix_is_path(state.inserts, two, n);
    lemma_path_of(state.inserts, two.take(n));
    assert(one == two.take(n));
    assert(path_before(one, mid));
    assert(path_before(mid, two));
    let a = choose|a: int| diverges(one, mid, a);
    let b = choose|b: int| diverges(mid, two, b);
    assert(a == n) by {
        if a < n {
            assert(one[a] == two[a]);
            assert(mid.take(a) =~= two.take(a)) by {
                assert(one.take(a) =~= two.take(a));
            }
            if b < a {
                assert(mid.take(a)[b] == two.take(a)[b]);
                assert(!sibling_before(mid[b], mid[b]));
            } else if b == a {
                assert(sibling_before(one[a], mid[a]));
                assert(b < mid.len());
            } else {
                assert(mid.take(b)[a] == two.take(b)[a]);
                assert(!sibling_before(mid[a], mid[a]));
            }
        }
    }
    assert(mid.take(n) == one.take(n));
    assert(one.take(n) =~= one);
    assert(mid[at] == mid.take(n)[at]);
    assert(mid[at] == root);
}

proof fn lemma_prefix_is_path<V>(inserts: Map<OpId, EntryView<V>>, path: Seq<OpId>, len: int)
    requires
        is_path(inserts, path),
        0 < len <= path.len(),
    ensures
        is_path(inserts, path.take(len)),
{
    let prefix = path.take(len);
    assert forall|i: int| 0 <= i < prefix.len() implies inserts.contains_key(#[trigger] prefix[i]) by {
        assert(prefix[i] == path[i]);
    }
    assert forall|i: int| 0 < i < prefix.len() implies inserts[#[trigger] prefix[i]].after == Some(
        prefix[i - 1],
    ) by {
        assert(prefix[i] == path[i]);
    }
}

/// A merge holds the insertions and deletions of both lists, as each has them,
/// and no others.
pub proof fn law_merge_holds_both_and_no_more<V>(
    first: ListView<V>,
    second: ListView<V>,
    id: OpId,
)
    requires
        forall|id: OpId| #[trigger]
            first.inserts.contains_key(id) && second.inserts.contains_key(id)
                ==> first.inserts[id] == second.inserts[id],
        forall|id: OpId| #[trigger]
            first.deletes.contains_key(id) && second.deletes.contains_key(id)
                ==> first.deletes[id] == second.deletes[id],
    ensures
        ({
            let merged = first.union(second);
            &&& merged.inserts.contains_key(id) <==> first.inserts.contains_key(id)
                || second.inserts.contains_key(id)
            &&& merged.deletes.contains_key(id) <==> first.deletes.contains_key(id)
                || second.deletes.contains_key(id)
            &&& first.inserts.contains_key(id) ==> merged.inserts[id] == first.inserts[id]
            &&& second.inserts.contains_key(id) ==> merged.inserts[id] == second.inserts[id]
            &&& first.deletes.contains_key(id) ==> merged.deletes[id] == first.deletes[id]
            &&& second.deletes.contains_key(id) ==> merged.deletes[id] == second.deletes[id]
        }),
{
}

/// Lists can be merged exactly when no identity stands for different content in
/// them.
pub proof fn law_merge_is_refused_on_collisions_alone<V>(
    first: ListView<V>,
    second: ListView<V>,
    id: OpId,
)
    requires
        first.valid(),
        second.valid(),
    ensures
        first.collides(second, id) <==> {
            ||| first.inserts.contains_key(id) && second.inserts.contains_key(id)
                && first.inserts[id] != second.inserts[id]
            ||| first.deletes.contains_key(id) && second.deletes.contains_key(id)
                && first.deletes[id] != second.deletes[id]
            ||| first.inserts.contains_key(id) && second.deletes.contains_key(id)
            ||| first.deletes.contains_key(id) && second.inserts.contains_key(id)
        },
{
    if first.inserts.contains_key(id) && second.inserts.contains_key(id) {
        let a = first.inserts[id];
        let b = second.inserts[id];
        assert(a == b <==> a.after == b.after && a.value == b.value);
    }
}

/// The text shown is the characters of the elements shown, one for one.
pub proof fn law_text_shows_each_element(state: ListView<char>, i: int)
    requires
        state.valid(),
        0 <= i < visible(state).len(),
    ensures
        shown_text(state).len() == visible(state).len(),
        state.inserts.contains_key(visible(state)[i]),
        shown_text(state)[i] == state.inserts[visible(state)[i]].value,
{
    law_display_order(state, i, i);
}

/// Typing creates one insertion for each character, in order, under the actor's
/// next identities; the first stands behind the visible character before the
/// index, nothing is deleted, and whatever was inserted before stays as it was.
pub proof fn law_typing_inserts_each_character(
    state: ListView<char>,
    actor: ActorView,
    index: nat,
    text: Seq<char>,
)
    requires
        typing(state, actor, index, text).outcome is Ok,
    ensures
        ({
            let edit = typing(state, actor, index, text);
            let operations = edit.outcome->Ok_0;
            &&& operations.len() == text.len()
            &&& actor.counter + text.len() <= u64::MAX
            &&& forall|i: int|
                0 <= i < text.len() ==> {
                    &&& (#[trigger] operations[i]) is Insert
                    &&& operations[i]->Insert_id.replica == actor.replica
                    &&& operations[i]->Insert_id.counter == actor.counter + 1 + i
                    &&& operations[i]->value == text[i]
                }
            &&& text.len() > 0 ==> index <= visible(state).len() && operations[0]->after == if index
                == 0 {
                None
            } else {
                Some(visible(state)[index - 1])
            }
            &&& edit.state.deletes == state.deletes
            &&& forall|id: OpId| #[trigger]
                state.inserts.contains_key(id) ==> edit.state.inserts.contains_key(id)
                    && edit.state.inserts[id] == state.inserts[id]
            &&& edit.actor.replica == actor.replica
            &&& edit.actor.limit == actor.limit
            &&& edit.actor.counter == actor.counter + text.len()
        }),
    decreases text.len(),
{
    reveal_with_fuel(typing, 2);
    if text.len() > 0 {
        let shorter = text.drop_last();
        law_typing_inserts_each_character(state, actor, index, shorter);
        let before = typing(state, actor, index, shorter);
        let edit = inserting(
            before.state,
            before.actor,
            (index + text.len() - 1) as nat,
            text.last(),
        );
        let operations = typing(state, actor, index, text).outcome->Ok_0;
        assert(operations == before.outcome->Ok_0.push(edit.outcome->Ok_0));
        assert forall|id: OpId| #[trigger]
            state.inserts.contains_key(id) implies edit.state.inserts.contains_key(id)
            && edit.state.inserts[id] == state.inserts[id] by {
            assert(before.state.inserts.contains_key(id));
            assert(before.state.operation(id) is Some);
        }
        if shorter.len() == 0 {
            assert(before.state == state && before.actor == actor);
        } else {
            assert(operations[0] == before.outcome->Ok_0[0]);
        }
    }
}

/// Erasing creates one deletion for each character, under the actor's next
/// identities; the first names the visible character at the index, and nothing
/// that was inserted is forgotten.
pub proof fn law_erasing_deletes_each_character(
    state: ListView<char>,
    actor: ActorView,
    index: nat,
    count: nat,
)
    requires
        erasing(state, actor, index, count).outcome is Ok,
    ensures
        ({
            let edit = erasing(state, actor, index, count);
            let operations = edit.outcome->Ok_0;
            &&& operations.len() == count
            &&& actor.counter + count <= u64::MAX
            &&& forall|i: int|
                0 <= i < count ==> {
                    &&& (#[trigger] operations[i]) is Delete
                    &&& operations[i]->Delete_id.replica == actor.replica
                    &&& operations[i]->Delete_id.counter == actor.counter + 1 + i
                }
            &&& count > 0 ==> index < visible(state).len() && operations[0]->target == visible(
                state,
            )[index as int]
            &&& edit.state.inserts == state.inserts
            &&& forall|id: OpId| #[trigger]
                state.deletes.contains_key(id) ==> edit.state.deletes.contains_key(id)
                    && edit.state.deletes[id] == state.deletes[id]
            &&& edit.actor.replica == actor.replica
            &&& edit.actor.limit == actor.limit
            &&& edit.actor.counter == actor.counter + count
        }),
    decreases count,
{
    reveal_with_fuel(erasing, 2);
    if count > 0 {
        let fewer = (count - 1) as nat;
        law_erasing_deletes_each_character(state, actor, index, fewer);
        let before = erasing(state, actor, index, fewer);
        let edit = removing(before.state, before.actor, index);
        let operations = erasing(state, actor, index, count).outcome->Ok_0;
        assert(operations == before.outcome->Ok_0.push(edit.outcome->Ok_0));
        assert forall|id: OpId| #[trigger]
            state.deletes.contains_key(id) implies edit.state.deletes.contains_key(id)
            && edit.state.deletes[id] == state.deletes[id] by {
            assert(before.state.deletes.contains_key(id));
            assert(before.state.operation(id) is Some);
        }
        if fewer > 0 {
            assert(operations[0] == before.outcome->Ok_0[0]);
        }
    }
}

/// The operations of a list are listed exactly, each as it is retained and once,
/// by their authors and then by their counters.
pub proof fn law_listed_operations_are_exact<V>(
    state: ListView<V>,
    operations: Seq<ListOpView<V>>,
    id: OpId,
    i: int,
    j: int,
)
    requires
        are_operations(state, operations),
    ensures
        state.inserts.contains_key(id) ==> exists|k: int|
            0 <= k < operations.len() && #[trigger] operations[k] == (ListOpView::Insert {
                id,
                after: state.inserts[id].after,
                value: state.inserts[id].value,
            }),
        state.deletes.contains_key(id) && !state.inserts.contains_key(id) ==> exists|k: int|
            0 <= k < operations.len() && #[trigger] operations[k] == (ListOpView::Delete::<V> {
                id,
                target: state.deletes[id],
            }),
        0 <= i < operations.len() ==> state.operation(operations[i].id()) == Some(operations[i]),
        0 <= i < j < operations.len() ==> operations[i].id().replica.0
            < operations[j].id().replica.0 || (operations[i].id().replica
            == operations[j].id().replica && operations[i].id().counter
            < operations[j].id().counter),
{
    if state.inserts.contains_key(id) || state.deletes.contains_key(id) {
        assert(state.operation(id) is Some);
        let k = choose|k: int| 0 <= k < operations.len() && (#[trigger] operations[k]).id() == id;
        assert(state.operation(operations[k].id()) == Some(operations[k]));
    }
}

/// An actor issues identities one after another, under its own replica, and
/// stops exactly at its limit or at the last counter there is.
pub proof fn law_identities_are_issued_in_order(actor: ActorView)
    ensures
        actor.issue_refusal() is None <==> actor.counter != actor.limit && actor.counter
            < u64::MAX,
        actor.counter < u64::MAX ==> {
            &&& actor.next_id().replica == actor.replica
            &&& actor.next_id().counter == actor.counter + 1
            &&& actor.issued().counter == actor.counter + 1
            &&& actor.issued().replica == actor.replica
            &&& actor.issued().limit == actor.limit
        },
{
}

/// Operations are ordered by their replicas and then by their counters.
pub proof fn law_operations_are_ordered(a: OpId, b: OpId)
    ensures
        <OpId as Key>::before(a, b) <==> a.replica.0 < b.replica.0 || (a.replica == b.replica
            && a.counter < b.counter),
{
}

/// What is written of a list is its insertions and then its deletions, one for
/// one.
pub proof fn law_parts_become_operations<T: View>(
    inserts: Seq<(OpId, Option<OpId>, T)>,
    deletes: Seq<(OpId, OpId)>,
    i: int,
)
    ensures
        part_ops(inserts, deletes).len() == inserts.len() + deletes.len(),
        0 <= i < inserts.len() ==> part_ops(inserts, deletes)[i] == (ListOpView::Insert {
            id: inserts[i].0,
            after: inserts[i].1,
            value: inserts[i].2@,
        }),
        0 <= i < deletes.len() ==> part_ops(inserts, deletes)[inserts.len() + i] == (
        ListOpView::Delete::<T::V> { id: deletes[i].0, target: deletes[i].1 }),
{
}

} // verus!
