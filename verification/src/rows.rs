//! Facts about rows that are kept by a condition.

use vstd::prelude::*;

verus! {

/// Keeping rows one by one.
pub proof fn lemma_kept_step<A>(rows: Seq<A>, index: int, keep: spec_fn(A) -> bool)
    requires
        0 <= index < rows.len(),
    ensures
        rows.take(index + 1).filter(keep) == if keep(rows[index]) {
            rows.take(index).filter(keep).push(rows[index])
        } else {
            rows.take(index).filter(keep)
        },
{
    reveal(Seq::filter);
    assert(rows.take(index + 1).drop_last() =~= rows.take(index));
}

/// Every kept row is a row that meets the condition, and every such row is
/// kept.
pub proof fn lemma_kept<A>(rows: Seq<A>, keep: spec_fn(A) -> bool)
    ensures
        rows.filter(keep).len() <= rows.len(),
        forall|row: A| #[trigger]
            rows.filter(keep).contains(row) <==> rows.contains(row) && keep(row),
        forall|i: int|
            0 <= i < rows.filter(keep).len() ==> rows.contains(#[trigger] rows.filter(keep)[i])
                && keep(rows.filter(keep)[i]),
    decreases rows.len(),
{
    reveal(Seq::filter);
    let kept = rows.filter(keep);
    if rows.len() > 0 {
        let shorter = rows.drop_last();
        lemma_kept(shorter, keep);
        let before = shorter.filter(keep);
        assert forall|row: A| #[trigger] kept.contains(row) <==> rows.contains(row) && keep(
            row,
        ) by {
            if kept.contains(row) {
                let i = choose|i: int| 0 <= i < kept.len() && kept[i] == row;
                if i < before.len() {
                    assert(before[i] == row);
                    assert(before.contains(row));
                    let j = choose|j: int| 0 <= j < shorter.len() && shorter[j] == row;
                    assert(rows[j] == row);
                } else {
                    assert(rows[rows.len() - 1] == row);
                }
            }
            if rows.contains(row) && keep(row) {
                let i = choose|i: int| 0 <= i < rows.len() && rows[i] == row;
                if i < shorter.len() {
                    assert(shorter[i] == row);
                    assert(before.contains(row));
                    let j = choose|j: int| 0 <= j < before.len() && before[j] == row;
                    assert(kept[j] == row);
                } else {
                    assert(kept[kept.len() - 1] == row);
                }
            }
        }
    }
    assert forall|i: int| 0 <= i < kept.len() implies rows.contains(#[trigger] kept[i]) && keep(
        kept[i],
    ) by {
        assert(kept.contains(kept[i]));
    }
}

/// What holds of every two rows in order holds of every two kept rows.
pub proof fn lemma_kept_pairs<A>(
    rows: Seq<A>,
    keep: spec_fn(A) -> bool,
    related: spec_fn(A, A) -> bool,
)
    requires
        forall|i: int, j: int| 0 <= i < j < rows.len() ==> related(#[trigger] rows[i], #[trigger] rows[j]),
    ensures
        forall|i: int, j: int|
            0 <= i < j < rows.filter(keep).len() ==> related(
                #[trigger] rows.filter(keep)[i],
                #[trigger] rows.filter(keep)[j],
            ),
    decreases rows.len(),
{
    reveal(Seq::filter);
    if rows.len() > 0 {
        let shorter = rows.drop_last();
        assert forall|i: int, j: int| 0 <= i < j < shorter.len() implies related(
            #[trigger] shorter[i],
            #[trigger] shorter[j],
        ) by {
            assert(shorter[i] == rows[i] && shorter[j] == rows[j]);
        }
        lemma_kept_pairs(shorter, keep, related);
        lemma_kept(shorter, keep);
        let before = shorter.filter(keep);
        let kept = rows.filter(keep);
        assert forall|i: int, j: int| 0 <= i < j < kept.len() implies related(
            #[trigger] kept[i],
            #[trigger] kept[j],
        ) by {
            assert(before[i] == kept[i]);
            if j < before.len() {
                assert(before[j] == kept[j]);
            } else {
                assert(shorter.contains(before[i]));
                let k = choose|k: int| 0 <= k < shorter.len() && shorter[k] == before[i];
                assert(rows[k] == kept[i]);
                assert(rows[rows.len() - 1] == kept[j]);
            }
        }
    }
}

/// Nothing is lost where every row meets the condition.
pub proof fn lemma_all_kept<A>(rows: Seq<A>, keep: spec_fn(A) -> bool)
    requires
        forall|i: int| 0 <= i < rows.len() ==> keep(#[trigger] rows[i]),
    ensures
        rows.filter(keep) == rows,
    decreases rows.len(),
{
    reveal(Seq::filter);
    if rows.len() > 0 {
        let shorter = rows.drop_last();
        assert forall|i: int| 0 <= i < shorter.len() implies keep(#[trigger] shorter[i]) by {
            assert(shorter[i] == rows[i]);
        }
        lemma_all_kept(shorter, keep);
        assert(keep(rows[rows.len() - 1]));
        assert(rows =~= shorter.push(rows.last()));
    }
}

/// Keeping everything but one row removes that row.
pub proof fn lemma_one_dropped<A>(rows: Seq<A>, keep: spec_fn(A) -> bool, at: int)
    requires
        0 <= at < rows.len(),
        forall|i: int| 0 <= i < rows.len() ==> (keep(#[trigger] rows[i]) <==> i != at),
    ensures
        rows.filter(keep) == rows.remove(at),
    decreases rows.len(),
{
    reveal(Seq::filter);
    let shorter = rows.drop_last();
    assert forall|i: int| 0 <= i < shorter.len() implies (keep(#[trigger] shorter[i]) <==> i
        != at) by {
        assert(shorter[i] == rows[i]);
    }
    assert(rows[rows.len() - 1] == rows.last());
    if at == rows.len() - 1 {
        lemma_all_kept(shorter, keep);
        assert(rows.remove(at) =~= shorter);
    } else {
        lemma_one_dropped(shorter, keep, at);
        assert(rows.remove(at) =~= shorter.remove(at).push(rows.last()));
    }
}

} // verus!
