//! Counting the marked positions of a sequence.

use vstd::prelude::*;

verus! {

/// The number of `true` entries of `marks`.
pub open spec fn tally(marks: Seq<bool>) -> nat
    decreases marks.len(),
{
    if marks.len() == 0 {
        0
    } else {
        tally(marks.drop_last()) + if marks.last() {
            1nat
        } else {
            0nat
        }
    }
}

/// Appending an entry adds one to the tally exactly when the entry is `true`.
pub proof fn lemma_tally_push(marks: Seq<bool>, mark: bool)
    ensures
        tally(marks.push(mark)) == tally(marks) + if mark {
            1nat
        } else {
            0nat
        },
{
    assert(marks.push(mark).drop_last() =~= marks);
}

/// A sequence without a `true` entry tallies to zero.
pub proof fn lemma_tally_none(marks: Seq<bool>)
    requires
        forall|k: int| 0 <= k < marks.len() ==> !marks[k],
    ensures
        tally(marks) == 0,
    decreases marks.len(),
{
    if marks.len() > 0 {
        lemma_tally_none(marks.drop_last());
    }
}

/// Marks that imply other marks position by position tally to no more.
pub proof fn lemma_tally_le(fewer: Seq<bool>, more: Seq<bool>)
    requires
        fewer.len() == more.len(),
        forall|k: int| 0 <= k < fewer.len() && #[trigger] fewer[k] ==> more[k],
    ensures
        tally(fewer) <= tally(more),
    decreases fewer.len(),
{
    if fewer.len() > 0 {
        lemma_tally_le(fewer.drop_last(), more.drop_last());
    }
}

/// Marks that imply other marks, and miss one of them, tally to strictly less.
pub proof fn lemma_tally_lt(fewer: Seq<bool>, more: Seq<bool>, j: int)
    requires
        fewer.len() == more.len(),
        forall|k: int| 0 <= k < fewer.len() && #[trigger] fewer[k] ==> more[k],
        0 <= j < fewer.len(),
        more[j],
        !fewer[j],
    ensures
        tally(fewer) < tally(more),
    decreases fewer.len(),
{
    if j == fewer.len() - 1 {
        lemma_tally_le(fewer.drop_last(), more.drop_last());
    } else {
        lemma_tally_lt(fewer.drop_last(), more.drop_last(), j);
    }
}

/// Setting an unmarked position adds one to the tally.
pub proof fn lemma_tally_mark(marks: Seq<bool>, j: int)
    requires
        0 <= j < marks.len(),
        !marks[j],
    ensures
        tally(marks.update(j, true)) == tally(marks) + 1,
    decreases marks.len(),
{
    let marked = marks.update(j, true);
    if j == marks.len() - 1 {
        assert(marked.drop_last() =~= marks.drop_last());
    } else {
        assert(marked.drop_last() =~= marks.drop_last().update(j, true));
        lemma_tally_mark(marks.drop_last(), j);
    }
}

/// Where no position is marked in both of two sequences, the positions marked in
/// either tally to the sum of the two tallies.
pub proof fn lemma_tally_disjoint(left: Seq<bool>, right: Seq<bool>, either: Seq<bool>)
    requires
        left.len() == either.len(),
        right.len() == either.len(),
        forall|k: int| 0 <= k < either.len() ==> !(#[trigger] left[k] && right[k]),
        forall|k: int| 0 <= k < either.len() ==> #[trigger] either[k] == (left[k] || right[k]),
    ensures
        tally(either) == tally(left) + tally(right),
    decreases either.len(),
{
    if either.len() > 0 {
        let l = left.drop_last();
        let r = right.drop_last();
        let e = either.drop_last();
        assert forall|k: int| 0 <= k < e.len() implies !(#[trigger] l[k] && r[k]) by {
            assert(!(left[k] && right[k]));
        }
        assert forall|k: int| 0 <= k < e.len() implies #[trigger] e[k] == (l[k] || r[k]) by {
            assert(either[k] == (left[k] || right[k]));
        }
        lemma_tally_disjoint(l, r, e);
    }
}

} // verus!
