//! Sorting of row and group numbers by an order on them.
use vstd::prelude::*;
use vstd::relations::{sorted_by, total_ordering};
use vstd::seq_lib::lemma_sorted_unique;

verus! {

/// Merges two sorted runs.
fn merge<F: Fn(usize, usize) -> bool>(
    a: &Vec<usize>,
    b: &Vec<usize>,
    leq: &F,
    Ghost(order): Ghost<spec_fn(usize, usize) -> bool>,
) -> (out: Vec<usize>)
    requires
        forall|x: usize, y: usize|
            a@.contains(x) && b@.contains(y) ==> #[trigger] leq.requires((x, y)),
        forall|x: usize, y: usize, r: bool| leq.ensures((x, y), r) ==> r == order(x, y),
        total_ordering(order) ==> sorted_by(a@, order) && sorted_by(b@, order),
    ensures
        out@.to_multiset() == (a@ + b@).to_multiset(),
        total_ordering(order) ==> sorted_by(out@, order),
{
    let mut out: Vec<usize> = Vec::new();
    let mut i: usize = 0;
    let mut j: usize = 0;
    proof {
        assert(a@.take(0) + b@.take(0) =~= Seq::<usize>::empty());
        assert(out@ =~= Seq::<usize>::empty());
    }
    while i < a.len() || j < b.len()
        invariant
            i <= a@.len(),
            j <= b@.len(),
            forall|x: usize, y: usize|
                a@.contains(x) && b@.contains(y) ==> #[trigger] leq.requires((x, y)),
            forall|x: usize, y: usize, r: bool| leq.ensures((x, y), r) ==> r == order(x, y),
            total_ordering(order) ==> sorted_by(a@, order) && sorted_by(b@, order),
            out@.to_multiset() =~= (a@.take(i as int) + b@.take(j as int)).to_multiset(),
            total_ordering(order) ==> sorted_by(out@, order),
            total_ordering(order) ==> forall|k: int, m: int|
                0 <= k < out@.len() && i <= m < a@.len() ==> #[trigger] order(out@[k], a@[m]),
            total_ordering(order) ==> forall|k: int, m: int|
                0 <= k < out@.len() && j <= m < b@.len() ==> #[trigger] order(out@[k], b@[m]),
        decreases a@.len() + b@.len() - i - j,
    {
        broadcast use vstd::seq_lib::group_to_multiset_ensures;

        let left: bool = if i >= a.len() {
            false
        } else if j >= b.len() {
            true
        } else {
            assert(a@.contains(a@[i as int]));
            assert(b@.contains(b@[j as int]));
            leq(a[i], b[j])
        };
        let ghost before = out@;
        if left {
            let x: usize = a[i];
            out.push(x);
            proof {
                assert(a@.take(i + 1) =~= a@.take(i as int).push(x));
                vstd::seq_lib::lemma_multiset_commutative(
                    a@.take(i as int),
                    b@.take(j as int),
                );
                vstd::seq_lib::lemma_multiset_commutative(a@.take(i + 1), b@.take(j as int));
                if total_ordering(order) {
                    assert forall|k: int, m: int|
                        0 <= k < out@.len() && j <= m < b@.len() implies #[trigger] order(
                        out@[k],
                        b@[m],
                    ) by {
                        if k == before.len() {
                            assert(order(x, b@[j as int]));
                            if j < m {
                                assert(order(b@[j as int], b@[m]));
                            }
                        }
                    }
                    assert forall|k: int, m: int|
                        0 <= k < out@.len() && i + 1 <= m < a@.len() implies #[trigger] order(
                        out@[k],
                        a@[m],
                    ) by {
                        if k == before.len() {
                            assert(order(a@[i as int], a@[m]));
                        }
                    }
                    assert(sorted_by(out@, order)) by {
                        assert forall|p: int, q: int| 0 <= p < q < out@.len() implies #[trigger] order(
                            out@[p],
                            out@[q],
                        ) by {
                            if q == before.len() {
                                assert(order(before[p], a@[i as int]));
                            } else {
                                assert(order(before[p], before[q]));
                            }
                        }
                    }
                }
            }
            i = i + 1;
        } else {
            let x: usize = b[j];
            out.push(x);
            proof {
                assert(b@.take(j + 1) =~= b@.take(j as int).push(x));
                vstd::seq_lib::lemma_multiset_commutative(
                    a@.take(i as int),
                    b@.take(j as int),
                );
                vstd::seq_lib::lemma_multiset_commutative(a@.take(i as int), b@.take(j + 1));
                if total_ordering(order) {
                    assert forall|k: int, m: int|
                        0 <= k < out@.len() && i <= m < a@.len() implies #[trigger] order(
                        out@[k],
                        a@[m],
                    ) by {
                        if k == before.len() {
                            assert(!order(a@[i as int], x));
                            assert(order(x, a@[i as int]));
                            if i < m {
                                assert(order(a@[i as int], a@[m]));
                            }
                        }
                    }
                    assert forall|k: int, m: int|
                        0 <= k < out@.len() && j + 1 <= m < b@.len() implies #[trigger] order(
                        out@[k],
                        b@[m],
                    ) by {
                        if k == before.len() {
                            assert(order(b@[j as int], b@[m]));
                        }
                    }
                    assert(sorted_by(out@, order)) by {
                        assert forall|p: int, q: int| 0 <= p < q < out@.len() implies #[trigger] order(
                            out@[p],
                            out@[q],
                        ) by {
                            if q == before.len() {
                                assert(order(before[p], b@[j as int]));
                            } else {
                                assert(order(before[p], before[q]));
                            }
                        }
                    }
                }
            }
            j = j + 1;
        }
    }
    proof {
        assert(a@.take(i as int) =~= a@);
        assert(b@.take(j as int) =~= b@);
    }
    out
}

/// Sorts the numbers between two places.
fn sort_range<F: Fn(usize, usize) -> bool>(
    v: &Vec<usize>,
    lo: usize,
    hi: usize,
    leq: &F,
    Ghost(order): Ghost<spec_fn(usize, usize) -> bool>,
) -> (out: Vec<usize>)
    requires
        lo <= hi <= v@.len(),
        forall|x: usize, y: usize|
            v@.contains(x) && v@.contains(y) ==> #[trigger] leq.requires((x, y)),
        forall|x: usize, y: usize, r: bool| leq.ensures((x, y), r) ==> r == order(x, y),
    ensures
        out@.to_multiset() == v@.subrange(lo as int, hi as int).to_multiset(),
        total_ordering(order) ==> sorted_by(out@, order),
    decreases hi - lo,
{
    if hi - lo <= 1 {
        let mut out: Vec<usize> = Vec::new();
        if hi - lo == 1 {
            out.push(v[lo]);
        }
        assert(out@ =~= v@.subrange(lo as int, hi as int));
        return out;
    }
    let mid: usize = lo + (hi - lo) / 2;
    let a = sort_range(v, lo, mid, leq, Ghost(order));
    let b = sort_range(v, mid, hi, leq, Ghost(order));
    proof {
        broadcast use vstd::seq_lib::group_to_multiset_ensures;

        let left = v@.subrange(lo as int, mid as int);
        let right = v@.subrange(mid as int, hi as int);
        assert(left + right =~= v@.subrange(lo as int, hi as int));
        vstd::seq_lib::lemma_multiset_commutative(left, right);
        vstd::seq_lib::lemma_multiset_commutative(a@, b@);
        assert forall|x: usize, y: usize|
            a@.contains(x) && b@.contains(y) implies #[trigger] leq.requires((x, y)) by {
            assert(a@.to_multiset().count(x) > 0);
            assert(left.contains(x));
            assert(v@.contains(x));
            assert(b@.to_multiset().count(y) > 0);
            assert(right.contains(y));
            assert(v@.contains(y));
        }
    }
    merge(&a, &b, leq, Ghost(order))
}

/// Sorts numbers by an order that a closure computes.
pub fn sort_numbers<F: Fn(usize, usize) -> bool>(
    v: &Vec<usize>,
    leq: F,
    Ghost(order): Ghost<spec_fn(usize, usize) -> bool>,
) -> (out: Vec<usize>)
    requires
        forall|x: usize, y: usize|
            v@.contains(x) && v@.contains(y) ==> #[trigger] leq.requires((x, y)),
        forall|x: usize, y: usize, r: bool| leq.ensures((x, y), r) ==> r == order(x, y),
    ensures
        out@.to_multiset() == v@.to_multiset(),
        total_ordering(order) ==> out@ == v@.sort_by(order),
{
    let out = sort_range(v, 0, v.len(), &leq, Ghost(order));
    proof {
        assert(v@.subrange(0, v@.len() as int) =~= v@);
        if total_ordering(order) {
            v@.lemma_sort_by_ensures(order);
            lemma_sorted_unique(out@, v@.sort_by(order), order);
        }
    }
    out
}

} // verus!
