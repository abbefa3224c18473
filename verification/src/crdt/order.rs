//! The order in which a replicated list shows its elements.
//!
//! Every element names the element that it was inserted after, so an element
//! whose ancestry has arrived has one path from the list's root. Elements are
//! shown in the lexicographic order of their paths: an element before its
//! descendants, siblings of different replicas by replica, and of one replica
//! the later sibling first.

use crate::crdt::list::{EntryView, ListView, OpId};
use vstd::prelude::*;

verus! {

/// Whether a sequence of elements leads from the root, each inserted after the
/// one before it.
pub open spec fn is_path<V>(inserts: Map<OpId, EntryView<V>>, path: Seq<OpId>) -> bool {
    &&& path.len() > 0
    &&& forall|i: int| 0 <= i < path.len() ==> inserts.contains_key(#[trigger] path[i])
    &&& inserts[path[0]].after is None
    &&& forall|i: int| 0 < i < path.len() ==> inserts[#[trigger] path[i]].after == Some(path[i - 1])
}

/// Whether a path leads to an element.
pub open spec fn leads_to<V>(inserts: Map<OpId, EntryView<V>>, path: Seq<OpId>, id: OpId) -> bool {
    is_path(inserts, path) && path.last() == id
}

/// Whether the whole ancestry of an element is retained.
pub open spec fn rooted<V>(inserts: Map<OpId, EntryView<V>>, id: OpId) -> bool {
    exists|path: Seq<OpId>| leads_to(inserts, path, id)
}

/// The path from the root to an element.
pub open spec fn path_of<V>(inserts: Map<OpId, EntryView<V>>, id: OpId) -> Seq<OpId> {
    choose|path: Seq<OpId>| leads_to(inserts, path, id)
}

/// Whether an element comes before another that was inserted after the same
/// element: replicas ascend, and a replica's later insertion comes first.
pub open spec fn sibling_before(a: OpId, b: OpId) -> bool {
    a.replica.0 < b.replica.0 || (a.replica == b.replica && a.counter > b.counter)
}

/// Whether siblings stand in their order.
pub open spec fn in_sibling_order(ids: Seq<OpId>) -> bool {
    forall|i: int, j: int|
        0 <= i < j < ids.len() ==> sibling_before(#[trigger] ids[i], #[trigger] ids[j])
}

/// Whether `a` comes before `b`, decided at place `k`.
pub open spec fn diverges(a: Seq<OpId>, b: Seq<OpId>, k: int) -> bool {
    &&& 0 <= k <= a.len()
    &&& k < b.len()
    &&& a.take(k) == b.take(k)
    &&& k == a.len() || sibling_before(a[k], b[k])
}

/// Lexicographic order of paths, a prefix first.
pub open spec fn path_before(a: Seq<OpId>, b: Seq<OpId>) -> bool {
    exists|k: int| diverges(a, b, k)
}

/// Whether an element has been deleted.
pub open spec fn deleted(deletes: Map<OpId, OpId>, id: OpId) -> bool {
    exists|by: OpId| #[trigger] deletes.contains_key(by) && deletes[by] == id
}

/// Whether an element is shown.
pub open spec fn shows<V>(state: ListView<V>, id: OpId) -> bool {
    rooted(state.inserts, id) && !deleted(state.deletes, id)
}

/// Whether a sequence is the elements shown, in path order.
pub open spec fn is_visible_order<V>(state: ListView<V>, ids: Seq<OpId>) -> bool {
    &&& forall|i: int| 0 <= i < ids.len() ==> shows(state, #[trigger] ids[i])
    &&& forall|i: int, j: int|
        0 <= i < j < ids.len() ==> path_before(
            path_of(state.inserts, #[trigger] ids[i]),
            path_of(state.inserts, #[trigger] ids[j]),
        )
    &&& forall|id: OpId| #[trigger] shows(state, id) ==> ids.contains(id)
}

/// The elements that a list shows, in order.
pub open spec fn visible<V>(state: ListView<V>) -> Seq<OpId> {
    choose|ids: Seq<OpId>| is_visible_order(state, ids)
}

/// Paths are strictly and totally ordered.
pub proof fn lemma_paths_ordered(a: Seq<OpId>, b: Seq<OpId>, c: Seq<OpId>)
    ensures
        !path_before(a, a),
        path_before(a, b) && path_before(b, c) ==> path_before(a, c),
        !(path_before(a, b) && path_before(b, a)),
{
    assert forall|x: Seq<OpId>, y: Seq<OpId>, z: Seq<OpId>|
        path_before(x, y) && path_before(y, z) implies path_before(x, z) by {
        let k = choose|k: int| diverges(x, y, k);
        let l = choose|l: int| diverges(y, z, l);
        if k <= l {
            assert(x.take(k) =~= z.take(k)) by {
                assert(y.take(l).take(k) =~= y.take(k));
                assert(z.take(l).take(k) =~= z.take(k));
            }
            if k < l {
                assert(y[k] == z[k]) by {
                    assert(y.take(l)[k] == z.take(l)[k]);
                }
            }
            assert(diverges(x, z, k));
        } else {
            assert(x.take(l) =~= z.take(l)) by {
                assert(x.take(k).take(l) =~= x.take(l));
                assert(y.take(k).take(l) =~= y.take(l));
            }
            assert(x[l] == y[l]) by {
                assert(x.take(k)[l] == y.take(k)[l]);
            }
            assert(diverges(x, z, l));
        }
    }
    assert forall|x: Seq<OpId>| !path_before(x, x) by {
        if path_before(x, x) {
            let k = choose|k: int| diverges(x, x, k);
            assert(!sibling_before(x[k], x[k]));
        }
    }
}

/// An element has one path.
pub proof fn lemma_path_unique<V>(
    inserts: Map<OpId, EntryView<V>>,
    first: Seq<OpId>,
    second: Seq<OpId>,
)
    requires
        is_path(inserts, first),
        is_path(inserts, second),
        first.last() == second.last(),
    ensures
        first == second,
    decreases first.len(),
{
    if first.len() > 1 && second.len() > 1 {
        assert(inserts[first[first.len() - 1]].after == Some(first[first.len() - 2]));
        assert(inserts[second[second.len() - 1]].after == Some(second[second.len() - 2]));
        lemma_path_prefix(inserts, first);
        lemma_path_prefix(inserts, second);
        lemma_path_unique(inserts, first.drop_last(), second.drop_last());
        assert(first =~= first.drop_last().push(first.last()));
        assert(second =~= second.drop_last().push(second.last()));
    } else {
        if first.len() > 1 {
            assert(inserts[first[first.len() - 1]].after is Some);
        }
        if second.len() > 1 {
            assert(inserts[second[second.len() - 1]].after is Some);
        }
        assert(first =~= second);
    }
}

proof fn lemma_path_prefix<V>(inserts: Map<OpId, EntryView<V>>, path: Seq<OpId>)
    requires
        is_path(inserts, path),
        path.len() > 1,
    ensures
        is_path(inserts, path.drop_last()),
{
    let prefix = path.drop_last();
    assert forall|i: int| 0 <= i < prefix.len() implies inserts.contains_key(#[trigger] prefix[i]) by {
        assert(prefix[i] == path[i]);
    }
    assert forall|i: int| 0 < i < prefix.len() implies inserts[#[trigger] prefix[i]].after == Some(
        prefix[i - 1],
    ) by {
        assert(prefix[i] == path[i]);
    }
}

/// The path of an element is the one that leads to it.
pub proof fn lemma_path_of<V>(inserts: Map<OpId, EntryView<V>>, path: Seq<OpId>)
    requires
        is_path(inserts, path),
    ensures
        rooted(inserts, path.last()),
        path_of(inserts, path.last()) == path,
{
    let id = path.last();
    assert(leads_to(inserts, path, id));
    lemma_path_unique(inserts, path, path_of(inserts, id));
}

/// A path visits no element twice.
proof fn lemma_path_distinct<V>(inserts: Map<OpId, EntryView<V>>, path: Seq<OpId>, i: int, j: int)
    requires
        is_path(inserts, path),
        0 <= i < j < path.len(),
    ensures
        path[i] != path[j],
    decreases i,
{
    if path[i] == path[j] {
        assert(inserts[path[j]].after == Some(path[j - 1]));
        if i > 0 {
            lemma_path_distinct(inserts, path, i - 1, j - 1);
            assert(inserts[path[i]].after == Some(path[i - 1]));
        }
    }
}

/// A path has at most as many elements as are retained.
pub proof fn lemma_path_bounded<V>(inserts: Map<OpId, EntryView<V>>, path: Seq<OpId>)
    requires
        is_path(inserts, path),
        inserts.dom().finite(),
    ensures
        path.len() <= inserts.dom().len(),
{
    assert(path.no_duplicates()) by {
        assert forall|i: int, j: int| 0 <= i < path.len() && 0 <= j < path.len() && i != j implies path[i]
            != path[j] by {
            if i < j {
                lemma_path_distinct(inserts, path, i, j);
            } else {
                lemma_path_distinct(inserts, path, j, i);
            }
        }
    }
    path.unique_seq_to_set();
    assert(path.to_set().subset_of(inserts.dom()));
    vstd::set_lib::lemma_len_subset(path.to_set(), inserts.dom());
}

/// Appending an element to the path of the element that it was inserted after
/// gives its own path.
pub proof fn lemma_path_extended<V>(
    inserts: Map<OpId, EntryView<V>>,
    path: Seq<OpId>,
    child: OpId,
)
    requires
        path.len() > 0 ==> is_path(inserts, path),
        inserts.contains_key(child),
        inserts[child].after == if path.len() > 0 {
            Some(path.last())
        } else {
            None
        },
    ensures
        is_path(inserts, path.push(child)),
{
    let longer = path.push(child);
    assert forall|i: int| 0 <= i < longer.len() implies inserts.contains_key(#[trigger] longer[i]) by {
        if i < path.len() {
            assert(longer[i] == path[i]);
        }
    }
    assert forall|i: int| 0 < i < longer.len() implies inserts[#[trigger] longer[i]].after == Some(
        longer[i - 1],
    ) by {
        if i < path.len() {
            assert(longer[i] == path[i]);
        }
    }
    if path.len() > 0 {
        assert(longer[0] == path[0]);
    }
}

/// Only one sequence is the elements shown in path order.
pub proof fn lemma_visible_unique<V>(state: ListView<V>, first: Seq<OpId>, second: Seq<OpId>)
    requires
        is_visible_order(state, first),
        is_visible_order(state, second),
    ensures
        first == second,
{
    lemma_order_unique(state.inserts, first, second);
}

proof fn lemma_order_unique<V>(
    inserts: Map<OpId, EntryView<V>>,
    first: Seq<OpId>,
    second: Seq<OpId>,
)
    requires
        forall|i: int, j: int|
            0 <= i < j < first.len() ==> path_before(
                path_of(inserts, #[trigger] first[i]),
                path_of(inserts, #[trigger] first[j]),
            ),
        forall|i: int, j: int|
            0 <= i < j < second.len() ==> path_before(
                path_of(inserts, #[trigger] second[i]),
                path_of(inserts, #[trigger] second[j]),
            ),
        forall|i: int| 0 <= i < first.len() ==> second.contains(#[trigger] first[i]),
        forall|i: int| 0 <= i < second.len() ==> first.contains(#[trigger] second[i]),
    ensures
        first == second,
    decreases first.len(),
{
    if first.len() == 0 {
        if second.len() > 0 {
            assert(first.contains(second[0]));
        }
        assert(first =~= second);
    } else {
        assert(second.contains(first[0]));
        let j = choose|j: int| 0 <= j < second.len() && second[j] == first[0];
        assert(first.contains(second[0]));
        let i = choose|i: int| 0 <= i < first.len() && first[i] == second[0];
        lemma_paths_ordered(
            path_of(inserts, first[0]),
            path_of(inserts, second[0]),
            path_of(inserts, first[0]),
        );
        if i > 0 && j > 0 {
            assert(path_before(path_of(inserts, first[0]), path_of(inserts, first[i])));
            assert(path_before(path_of(inserts, second[0]), path_of(inserts, second[j])));
            assert(false);
        }
        assert(first[0] == second[0]);
        let left = first.drop_first();
        let right = second.drop_first();
        assert forall|a: int| 0 <= a < left.len() implies right.contains(#[trigger] left[a]) by {
            assert(left[a] == first[a + 1]);
            assert(second.contains(first[a + 1]));
            let b = choose|b: int| 0 <= b < second.len() && second[b] == first[a + 1];
            if b == 0 {
                assert(path_before(path_of(inserts, first[0]), path_of(inserts, first[a + 1])));
                lemma_paths_ordered(
                    path_of(inserts, first[0]),
                    path_of(inserts, first[0]),
                    path_of(inserts, first[0]),
                );
            }
            assert(right[b - 1] == left[a]);
        }
        assert forall|a: int| 0 <= a < right.len() implies left.contains(#[trigger] right[a]) by {
            assert(right[a] == second[a + 1]);
            assert(first.contains(second[a + 1]));
            let b = choose|b: int| 0 <= b < first.len() && first[b] == second[a + 1];
            if b == 0 {
                assert(path_before(path_of(inserts, second[0]), path_of(inserts, second[a + 1])));
                lemma_paths_ordered(
                    path_of(inserts, first[0]),
                    path_of(inserts, first[0]),
                    path_of(inserts, first[0]),
                );
            }
            assert(left[b - 1] == right[a]);
        }
        assert forall|a: int, b: int| 0 <= a < b < left.len() implies path_before(
            path_of(inserts, #[trigger] left[a]),
            path_of(inserts, #[trigger] left[b]),
        ) by {
            assert(left[a] == first[a + 1]);
            assert(left[b] == first[b + 1]);
        }
        assert forall|a: int, b: int| 0 <= a < b < right.len() implies path_before(
            path_of(inserts, #[trigger] right[a]),
            path_of(inserts, #[trigger] right[b]),
        ) by {
            assert(right[a] == second[a + 1]);
            assert(right[b] == second[b + 1]);
        }
        lemma_order_unique(inserts, left, right);
        assert(first =~= seq![first[0]] + left);
        assert(second =~= seq![second[0]] + right);
    }
}

/// The elements shown are each shown once.
pub proof fn lemma_visible_distinct<V>(state: ListView<V>, ids: Seq<OpId>)
    requires
        is_visible_order(state, ids),
    ensures
        ids.no_duplicates(),
{
    assert forall|i: int, j: int| 0 <= i < ids.len() && 0 <= j < ids.len() && i != j implies ids[i]
        != ids[j] by {
        let path = path_of(state.inserts, ids[i]);
        lemma_paths_ordered(path, path, path);
        if i < j {
            assert(path_before(path, path_of(state.inserts, ids[j])));
        } else {
            assert(path_before(path_of(state.inserts, ids[j]), path));
        }
    }
}

/// An empty list shows nothing.
pub proof fn lemma_empty_shows_nothing<V>()
    ensures
        visible(ListView::<V>::empty()) == Seq::<OpId>::empty(),
{
    let state = ListView::<V>::empty();
    let none = Seq::<OpId>::empty();
    assert forall|id: OpId| !shows(state, id) by {
        if rooted(state.inserts, id) {
            let path = path_of(state.inserts, id);
            assert(leads_to(state.inserts, path, id));
            assert(state.inserts.contains_key(path[0]));
        }
    }
    assert(is_visible_order(state, none));
    lemma_visible_unique(state, none, visible(state));
}

/// Whether a path continues another.
pub open spec fn extends(path: Seq<OpId>, longer: Seq<OpId>) -> bool {
    longer.len() > path.len() && longer.take(path.len() as int) == path
}

/// Whether a sequence is the elements shown below a path, in path order, as
/// far as their next step is among `steps`.
pub open spec fn is_segment<V>(
    state: ListView<V>,
    path: Seq<OpId>,
    steps: Seq<OpId>,
    ids: Seq<OpId>,
) -> bool {
    &&& forall|i: int|
        0 <= i < ids.len() ==> shows(state, #[trigger] ids[i]) && extends(
            path,
            path_of(state.inserts, ids[i]),
        ) && steps.contains(path_of(state.inserts, ids[i])[path.len() as int])
    &&& forall|i: int, j: int|
        0 <= i < j < ids.len() ==> path_before(
            path_of(state.inserts, #[trigger] ids[i]),
            path_of(state.inserts, #[trigger] ids[j]),
        )
    &&& forall|id: OpId| #[trigger]
        shows(state, id) && extends(path, path_of(state.inserts, id)) && steps.contains(
            path_of(state.inserts, id)[path.len() as int],
        ) ==> ids.contains(id)
}

/// Whether steps are the elements inserted directly after the end of a path,
/// in sibling order.
pub open spec fn are_steps<V>(
    inserts: Map<OpId, EntryView<V>>,
    path: Seq<OpId>,
    steps: Seq<OpId>,
) -> bool {
    let parent = if path.len() > 0 {
        Some(path.last())
    } else {
        None
    };
    &&& in_sibling_order(steps)
    &&& forall|id: OpId| #[trigger]
        steps.contains(id) == (inserts.contains_key(id) && inserts[id].after == parent)
}

/// With every step taken, a segment is all that is shown below the path.
pub proof fn lemma_segment_complete<V>(
    state: ListView<V>,
    path: Seq<OpId>,
    steps: Seq<OpId>,
    id: OpId,
)
    requires
        path.len() > 0 ==> is_path(state.inserts, path),
        are_steps(state.inserts, path, steps),
        rooted(state.inserts, id),
        extends(path, path_of(state.inserts, id)),
    ensures
        steps.contains(path_of(state.inserts, id)[path.len() as int]),
{
    let whole = path_of(state.inserts, id);
    assert(leads_to(state.inserts, whole, id));
    let step = whole[path.len() as int];
    assert(state.inserts.contains_key(step));
    if path.len() > 0 {
        assert(whole.take(path.len() as int)[path.len() - 1] == path.last());
        assert(state.inserts[step].after == Some(whole[path.len() - 1]));
    }
}

/// The segment after one more step: the step itself unless deleted, and then
/// all that is shown below it.
pub proof fn lemma_segment_step<V>(
    state: ListView<V>,
    path: Seq<OpId>,
    steps: Seq<OpId>,
    taken: int,
    before: Seq<OpId>,
    below_steps: Seq<OpId>,
    below: Seq<OpId>,
    after: Seq<OpId>,
)
    requires
        path.len() > 0 ==> is_path(state.inserts, path),
        are_steps(state.inserts, path, steps),
        0 <= taken < steps.len(),
        is_segment(state, path, steps.take(taken), before),
        are_steps(state.inserts, path.push(steps[taken]), below_steps),
        is_segment(state, path.push(steps[taken]), below_steps, below),
        after == before + (if deleted(state.deletes, steps[taken]) {
            Seq::empty()
        } else {
            seq![steps[taken]]
        }) + below,
    ensures
        is_segment(state, path, steps.take(taken + 1), after),
{
    let inserts = state.inserts;
    let step = steps[taken];
    let own = if deleted(state.deletes, step) {
        Seq::empty()
    } else {
        seq![step]
    };
    let reach = path.push(step);
    assert(steps.contains(step));
    lemma_path_extended(inserts, path, step);
    lemma_path_of(inserts, reach);
    let n = path.len() as int;
    assert(reach.last() == step);
    assert(steps.take(taken + 1) =~= steps.take(taken).push(step));
    assert forall|id: OpId| steps.take(taken + 1).contains(id) == (steps.take(taken).contains(id) || id
        == step) by {
        if steps.take(taken).contains(id) {
            let fewer = steps.take(taken);
            let i = choose|i: int| 0 <= i < fewer.len() && fewer[i] == id;
            assert(steps.take(taken + 1)[i] == id);
        }
        if id == step {
            assert(steps.take(taken + 1)[taken] == id);
        }
        if steps.take(taken + 1).contains(id) {
            let more = steps.take(taken + 1);
            let i = choose|i: int| 0 <= i < more.len() && more[i] == id;
            if i < taken {
                assert(steps.take(taken)[i] == id);
            }
        }
    }
    assert forall|id: OpId| #[trigger]
        rooted(inserts, id) && extends(reach, path_of(inserts, id)) implies extends(
        path,
        path_of(inserts, id),
    ) && path_of(inserts, id)[n] == step by {
        let whole = path_of(inserts, id);
        assert(whole.take(n) =~= reach.take(n)) by {
            assert(whole.take(reach.len() as int).take(n) =~= whole.take(n));
        }
        assert(reach.take(n) =~= path);
        assert(whole.take(reach.len() as int)[n] == step);
    }
    assert(own.len() > 0 ==> shows(state, step) && extends(path, reach) && reach[n] == step) by {
        assert(reach.take(n) =~= path);
    }
    assert forall|i: int| 0 <= i < after.len() implies shows(state, #[trigger] after[i]) && extends(
        path,
        path_of(inserts, after[i]),
    ) && steps.take(taken + 1).contains(path_of(inserts, after[i])[n]) by {
        if i < before.len() {
            assert(after[i] == before[i]);
        } else if i < before.len() + own.len() {
            assert(after[i] == step);
        } else {
            assert(after[i] == below[i - before.len() - own.len()]);
        }
    }
    assert forall|i: int, j: int| 0 <= i < j < after.len() implies path_before(
        path_of(inserts, #[trigger] after[i]),
        path_of(inserts, #[trigger] after[j]),
    ) by {
        let one = path_of(inserts, after[i]);
        let two = path_of(inserts, after[j]);
        let middle = before.len() as int;
        let tail = middle + own.len();
        if j < middle {
            assert(after[i] == before[i]);
            assert(after[j] == before[j]);
        } else if i < middle {
            assert(after[i] == before[i]);
            assert(two[n] == step) by {
                if j < tail {
                    assert(after[j] == step);
                } else {
                    assert(after[j] == below[j - tail]);
                }
            }
            let fewer = steps.take(taken);
            let a = choose|a: int| 0 <= a < fewer.len() && fewer[a] == one[n];
            assert(steps[a] == one[n]);
            assert(diverges(one, two, n));
        } else if i < tail {
            assert(after[i] == step);
            assert(after[j] == below[j - tail]);
            assert(one.take(one.len() as int) =~= one);
            assert(diverges(one, two, one.len() as int));
        } else {
            assert(after[i] == below[i - tail]);
            assert(after[j] == below[j - tail]);
        }
    }
    assert forall|id: OpId| #[trigger]
        shows(state, id) && extends(path, path_of(inserts, id)) && steps.take(taken + 1).contains(
            path_of(inserts, id)[n],
        ) implies after.contains(id) by {
        let whole = path_of(inserts, id);
        assert(leads_to(inserts, whole, id));
        if whole[n] == step {
            if whole.len() == n + 1 {
                assert(whole =~= reach) by {
                    assert(whole.take(n) == path);
                    assert(whole =~= whole.take(n).push(whole[n]));
                }
                assert(id == step);
                assert(after[before.len() as int] == id);
            } else {
                assert(whole.take(n + 1) =~= whole.take(n).push(whole[n]));
                assert(extends(reach, whole));
                lemma_segment_complete(state, reach, below_steps, id);
                assert(below.contains(id));
                let i = choose|i: int| 0 <= i < below.len() && below[i] == id;
                assert(after[before.len() + own.len() + i] == id);
            }
        } else {
            assert(steps.take(taken).contains(whole[n]));
            assert(before.contains(id));
            let i = choose|i: int| 0 <= i < before.len() && before[i] == id;
            assert(after[i] == id);
        }
    }
}

} // verus!
