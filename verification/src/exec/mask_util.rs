//! The rows that a mask selects.
use vstd::prelude::*;

verus! {

/// The numbers of the rows that a mask selects, ascending.
pub open spec fn selected(mask: Seq<bool>) -> Seq<usize>
    decreases mask.len(),
{
    if mask.len() == 0 {
        Seq::empty()
    } else if mask.last() {
        selected(mask.drop_last()).push((mask.len() - 1) as usize)
    } else {
        selected(mask.drop_last())
    }
}

/// Selected rows are in the mask, ascending, and no more than it has rows.
pub proof fn lemma_selected(mask: Seq<bool>)
    requires
        mask.len() <= usize::MAX,
    ensures
        selected(mask).len() <= mask.len(),
        forall|i: int|
            0 <= i < selected(mask).len() ==> (#[trigger] selected(mask)[i]) < mask.len()
                && mask[selected(mask)[i] as int],
        forall|i: int, j: int|
            0 <= i < j < selected(mask).len() ==> #[trigger] selected(mask)[i] < #[trigger] selected(
                mask,
            )[j],
    decreases mask.len(),
{
    if mask.len() > 0 {
        lemma_selected(mask.drop_last());
        let front = selected(mask.drop_last());
        assert forall|i: int| 0 <= i < selected(mask).len() implies (#[trigger] selected(mask)[i])
            < mask.len() && mask[selected(mask)[i] as int] by {
            if i < front.len() {
                assert(selected(mask)[i] == front[i]);
            }
        }
    }
}

/// A row is selected if and only if the mask says so.
pub proof fn law_selected_exactly(mask: Seq<bool>, row: usize)
    requires
        mask.len() <= usize::MAX,
    ensures
        selected(mask).contains(row) <==> row < mask.len() && mask[row as int],
    decreases mask.len(),
{
    lemma_selected(mask);
    if mask.len() > 0 {
        let front = mask.drop_last();
        law_selected_exactly(front, row);
        if row < mask.len() && mask[row as int] {
            if row < front.len() {
                let i = choose|i: int| 0 <= i < selected(front).len() && selected(front)[i] == row;
                assert(selected(mask)[i] == row);
            } else {
                assert(selected(mask).last() == row);
            }
        }
    }
}

/// The numbers of the rows that a mask selects.
pub fn selected_indices(mask: &[bool]) -> (out: Vec<usize>)
    ensures
        out@ == selected(mask@),
{
    let mut out: Vec<usize> = Vec::new();
    let n: usize = mask.len();
    let mut i: usize = 0;
    assert(mask@.take(0) =~= Seq::<bool>::empty());
    while i < n
        invariant
            i <= n == mask@.len(),
            out@ == selected(mask@.take(i as int)),
        decreases n - i,
    {
        assert(mask@.take(i + 1).drop_last() =~= mask@.take(i as int));
        if mask[i] {
            out.push(i);
        }
        i = i + 1;
    }
    assert(mask@.take(i as int) =~= mask@);
    out
}

/// Whether fewer than a quarter of the rows are selected.
pub open spec fn sparse(mask: Seq<bool>) -> bool {
    mask.len() > 0 && selected(mask).len() * 4 < mask.len()
}

/// Whether fewer than a quarter of the rows are selected.
pub fn mask_is_sparse(mask: &[bool]) -> (r: bool)
    ensures
        r == sparse(mask@),
{
    let n: usize = mask.len();
    if n == 0 {
        return false;
    }
    let rows: usize = selected_indices(mask).len();
    (rows as u128) * 4 < n as u128
}

/// The rows that are visited: all that the mask selects, if they are few; else
/// those among the first `row_count`.
pub open spec fn visited(mask: Seq<bool>, row_count: nat) -> Seq<usize> {
    if sparse(mask) || row_count >= mask.len() {
        selected(mask)
    } else {
        selected(mask.take(row_count as int))
    }
}

/// The rows that are visited, in order.
pub fn for_each_selected(mask: &[bool], row_count: usize) -> (out: Vec<usize>)
    ensures
        out@ == visited(mask@, row_count as nat),
{
    if mask_is_sparse(mask) || row_count >= mask.len() {
        selected_indices(mask)
    } else {
        let front = &mask[0..row_count];
        assert(front@ =~= mask@.take(row_count as int));
        selected_indices(front)
    }
}

} // verus!
