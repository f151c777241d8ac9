//! What the best of many items promise, however they are found.
use crate::exec::agg_heap::{
    before, by_count, by_count_and_pair, kept, law_kept_not_worse, lemma_before_total, lemma_full,
    lemma_kept, pair_first, pair_second, ranks, room_for, top, window,
};
use crate::exec::agg_sort::{run_counts, top_runs};
use crate::exec::agg_topk::{by_count_and_text, lemma_count_and_text_ranks};
use crate::exec::group_columnar::by_count_and_ip;
use crate::exec::group_fused_region::{by_average, divisor, lemma_average_ranks};
use crate::exec::kernel::{by_count_desc, count_sorted, sorts_by};
use crate::exec::order_laws::arranges;
use crate::exec::result::{labels, query_limit, query_offset, CellView};
use crate::exec::sorting::{all_numbers, called, counts_rows, lemma_distinct, to_sort};
use crate::sql::ast::{Expr, ParsedQuery};
use crate::text::text_less;
use vstd::prelude::*;
use vstd::relations::{sorted_by, total_ordering};

verus! {

/// Whether a list is the part of another that begins behind the offset and is as long as
/// the limit allows.
pub open spec fn is_part(r: Seq<usize>, s: Seq<usize>, limit: usize, offset: usize) -> bool {
    &&& r.len() == if offset >= s.len() {
        0
    } else if limit <= s.len() - offset {
        limit as int
    } else {
        s.len() - offset
    }
    &&& forall|i: int| 0 <= i < r.len() ==> #[trigger] r[i] == s[offset + i]
}

/// Whether no later item of a list is better than an earlier one.
pub open spec fn best_first(s: Seq<usize>, better: spec_fn(usize, usize) -> bool) -> bool {
    forall|p: int, q: int|
        #![trigger s[p], s[q]]
        0 <= p < q < s.len() ==> !better(s[q], s[p])
}

/// The numbers below `n` that are not in a list.
spec fn left_out(k: Seq<usize>, n: nat) -> Seq<usize>
    decreases n,
{
    if n == 0 {
        Seq::empty()
    } else if k.contains((n - 1) as usize) {
        left_out(k, (n - 1) as nat)
    } else {
        left_out(k, (n - 1) as nat).push((n - 1) as usize)
    }
}

proof fn lemma_left_out(k: Seq<usize>, n: nat)
    requires
        n <= usize::MAX,
    ensures
        left_out(k, n).no_duplicates(),
        forall|x: usize| #[trigger]
            left_out(k, n).contains(x) <==> x < n && !k.contains(x),
    decreases n,
{
    if n > 0 {
        let m = (n - 1) as nat;
        lemma_left_out(k, m);
        let (was, now) = (left_out(k, m), left_out(k, n));
        assert forall|x: usize| #[trigger] now.contains(x) <==> x < n && !k.contains(x) by {
            if now.contains(x) {
                let i = choose|i: int| 0 <= i < now.len() && now[i] == x;
                if i < was.len() {
                    assert(was[i] == x);
                    assert(was.contains(x));
                }
            }
            if x < n && !k.contains(x) {
                if x < m {
                    assert(was.contains(x));
                    let i = choose|i: int| 0 <= i < was.len() && was[i] == x;
                    assert(now[i] == x);
                } else {
                    assert(now[was.len() as int] == x);
                }
            }
        }
        if !k.contains(m as usize) {
            assert forall|i: int, j: int| 0 <= i < now.len() && 0 <= j < now.len() && i != j implies
                now[i] != now[j] by {
                if i < was.len() && j < was.len() {
                    assert(was[i] != was[j]);
                } else if i < was.len() {
                    assert(was.contains(was[i]));
                } else {
                    assert(was.contains(was[j]));
                }
            }
        }
    }
}

/// Two lists that have no member in common and all numbers together are as long as there are
/// numbers.
proof fn lemma_lengths(k: Seq<usize>, n: nat)
    requires
        n <= usize::MAX,
        k.no_duplicates(),
        forall|i: int| 0 <= i < k.len() ==> #[trigger] k[i] < n,
    ensures
        k.len() + left_out(k, n).len() == n,
{
    let r = left_out(k, n);
    let a = all_numbers(n);
    lemma_left_out(k, n);
    k.unique_seq_to_set();
    r.unique_seq_to_set();
    assert(a.no_duplicates());
    a.unique_seq_to_set();
    assert forall|x: usize| a.to_set().contains(x) <==> k.to_set().union(r.to_set()).contains(
        x,
    ) by {
        if x < n {
            assert(a[x as int] == x);
        }
        assert(r.contains(x) <==> x < n && !k.contains(x));
        if k.contains(x) {
            let i = choose|i: int| 0 <= i < k.len() && k[i] == x;
            assert(k[i] < n);
        }
        if a.contains(x) {
            let i = choose|i: int| 0 <= i < a.len() && a[i] == x;
            assert(x < n);
        }
    }
    assert(a.to_set() =~= k.to_set().union(r.to_set()));
    assert(k.to_set().disjoint(r.to_set())) by {
        assert forall|x: usize| !(k.to_set().contains(x) && r.to_set().contains(x)) by {
            assert(r.contains(x) <==> x < n && !k.contains(x));
        }
    }
    vstd::seq_lib::seq_to_set_is_finite(k);
    vstd::seq_lib::seq_to_set_is_finite(r);
    vstd::set_lib::lemma_set_disjoint_lens(k.to_set(), r.to_set());
}

/// Sorted numbers are the same numbers, in order.
pub proof fn lemma_sorted(s: Seq<usize>, leq: spec_fn(usize, usize) -> bool)
    requires
        total_ordering(leq),
        s.no_duplicates(),
    ensures
        s.sort_by(leq).len() == s.len(),
        s.sort_by(leq).no_duplicates(),
        sorted_by(s.sort_by(leq), leq),
        forall|x: usize| #[trigger] s.sort_by(leq).contains(x) <==> s.contains(x),
{
    s.lemma_sort_by_ensures(leq);
    let r = s.sort_by(leq);
    lemma_distinct(s, r);
    assert(r.len() == s.len()) by {
        vstd::seq_lib::to_multiset_len(r);
        vstd::seq_lib::to_multiset_len(s);
    }
    assert forall|x: usize| #[trigger] r.contains(x) <==> s.contains(x) by {
        vstd::seq_lib::to_multiset_contains(r, x);
        vstd::seq_lib::to_multiset_contains(s, x);
    }
}

/// The best items are a page of all items, best first: none that is left out behind the page
/// is better than one of it, and none of the page better than one that was skipped.
pub proof fn law_top_page(
    better: spec_fn(usize, usize) -> bool,
    n: nat,
    limit: usize,
    offset: usize,
) -> (all: Seq<usize>)
    requires
        ranks(better),
        n <= usize::MAX,
    ensures
        arranges(all, n),
        best_first(all, better),
        is_part(top(better, n, limit, offset), all, limit, offset),
{
    let room = room_for(limit, offset);
    let leq = before(better);
    let k = kept(better, n, room);
    lemma_before_total(better);
    lemma_kept(better, n, room);
    if k.len() < room {
        lemma_full(better, n, room);
    }
    lemma_left_out(k, n);
    lemma_lengths(k, n);
    let rest = left_out(k, n);
    lemma_sorted(k, leq);
    lemma_sorted(rest, leq);
    let (a, b) = (k.sort_by(leq), rest.sort_by(leq));
    let all = a + b;
    assert forall|i: int| 0 <= i < a.len() implies k.contains(#[trigger] a[i]) && a[i] < n by {
        assert(a.contains(a[i]));
        let j = choose|j: int| 0 <= j < k.len() && k[j] == a[i];
        assert(k[j] < n);
    }
    assert forall|i: int| 0 <= i < b.len() implies !k.contains(#[trigger] b[i]) && b[i] < n by {
        assert(b.contains(b[i]));
        assert(rest.contains(b[i]));
    }
    assert forall|p: int, q: int| 0 <= p < q < all.len() implies #[trigger] all[p]
        != #[trigger] all[q] && !better(all[q], all[p]) by {
        if q < a.len() {
            assert(all[p] == a[p] && all[q] == a[q]);
            assert(leq(a[p], a[q]));
        } else if p >= a.len() {
            let (i, j) = (p - a.len(), q - a.len());
            assert(all[p] == b[i] && all[q] == b[j]);
            assert(leq(b[i], b[j]));
        } else {
            let j = q - a.len();
            assert(all[p] == a[p] && all[q] == b[j]);
            assert(k.contains(a[p]));
            let i = choose|i: int| 0 <= i < k.len() && k[i] == a[p];
            law_kept_not_worse(better, n, room, b[j], i);
        }
    }
    assert(all.no_duplicates());
    assert forall|i: int| 0 <= i < all.len() implies #[trigger] all[i] < n by {
        if i < a.len() {
            assert(all[i] == a[i]);
        } else {
            assert(all[i] == b[i - a.len()]);
        }
    }
    let r = top(better, n, limit, offset);
    assert(r == window(a, limit as nat, offset as nat));
    assert forall|i: int| 0 <= i < r.len() implies #[trigger] r[i] == all[offset + i] by {}
    all
}

/// A list that holds each number below `n` once holds each number below `n`.
pub proof fn lemma_arranges_all(s: Seq<usize>, n: nat, x: usize)
    requires
        arranges(s, n),
        n <= usize::MAX,
        x < n,
    ensures
        s.contains(x),
{
    lemma_left_out(s, n);
    lemma_lengths(s, n);
    if !s.contains(x) {
        assert(left_out(s, n).contains(x));
    }
}

/// All items in order are best first, and a part of them is a page.
pub proof fn law_ranked_page(
    better: spec_fn(usize, usize) -> bool,
    n: nat,
    limit: usize,
    offset: usize,
) -> (all: Seq<usize>)
    requires
        ranks(better),
        n <= usize::MAX,
    ensures
        arranges(all, n),
        best_first(all, better),
        is_part(
            window(all_numbers(n).sort_by(before(better)), limit as nat, offset as nat),
            all,
            limit,
            offset,
        ),
{
    let leq = before(better);
    let start = all_numbers(n);
    lemma_before_total(better);
    assert(start.no_duplicates());
    lemma_sorted(start, leq);
    let all = start.sort_by(leq);
    assert forall|i: int| 0 <= i < all.len() implies #[trigger] all[i] < n by {
        assert(all.contains(all[i]));
        assert(start.contains(all[i]));
    }
    assert forall|p: int, q: int|
        #![trigger all[p], all[q]]
        0 <= p < q < all.len() implies !better(all[q], all[p]) by {
        assert(leq(all[p], all[q]));
    }
    all
}

/// Larger counts come first: the counts of the best items are those of a page of all items
/// in which no count is larger than an earlier one.
pub proof fn law_most_frequent(counts: Seq<u64>, limit: usize, offset: usize) -> (all: Seq<usize>)
    requires
        counts.len() <= usize::MAX,
    ensures
        arranges(all, counts.len()),
        forall|p: int, q: int|
            #![trigger all[p], all[q]]
            0 <= p < q < all.len() ==> counts[all[p] as int] >= counts[all[q] as int],
        is_part(top(by_count(counts), counts.len(), limit, offset), all, limit, offset),
{
    law_top_page(by_count(counts), counts.len(), limit, offset)
}

/// Rows with their counts come out by descending count: those of a page of all rows in which
/// no count is larger than an earlier one.
pub proof fn law_count_sorted(q: ParsedQuery, counts: Seq<u64>, rows: Seq<Seq<CellView>>) -> (all:
    Seq<usize>)
    requires
        counts.len() == rows.len(),
        counts.len() <= usize::MAX,
    ensures
        arranges(all, rows.len()),
        forall|p: int, q: int|
            #![trigger all[p], all[q]]
            0 <= p < q < all.len() ==> counts[all[p] as int] >= counts[all[q] as int],
        count_sorted(q, counts, rows).columns == labels(q.select_items@),
        count_sorted(q, counts, rows).rows.len() == if query_offset(q) >= rows.len() {
            0
        } else if query_limit(q) <= rows.len() - query_offset(q) {
            query_limit(q) as int
        } else {
            rows.len() - query_offset(q)
        },
        forall|i: int|
            0 <= i < count_sorted(q, counts, rows).rows.len() ==> #[trigger] count_sorted(
                q,
                counts,
                rows,
            ).rows[i] == rows[all[query_offset(q) + i] as int],
{
    law_most_frequent(counts, query_limit(q), query_offset(q))
}

/// Longer runs come first.
pub proof fn law_longest_runs<K>(r: Seq<(K, u64)>, limit: usize, offset: usize) -> (all: Seq<usize>)
    requires
        r.len() <= usize::MAX,
    ensures
        arranges(all, r.len()),
        forall|p: int, q: int|
            #![trigger all[p], all[q]]
            0 <= p < q < all.len() ==> r[all[p] as int].1 >= r[all[q] as int].1,
        top_runs(r, limit, offset).len() == if offset >= r.len() {
            0
        } else if limit <= r.len() - offset {
            limit as int
        } else {
            r.len() - offset
        },
        forall|i: int|
            0 <= i < top_runs(r, limit, offset).len() ==> #[trigger] top_runs(r, limit, offset)[i]
                == r[all[offset + i] as int],
{
    law_most_frequent(run_counts(r), limit, offset)
}

/// Larger counts come first, and of equal counts the smaller pair: by its first number, and
/// then by its second.
pub proof fn law_frequent_pairs(counts: Seq<u64>, keys: Seq<u128>, limit: usize, offset: usize) -> (
    all: Seq<usize>)
    requires
        counts.len() <= usize::MAX,
    ensures
        arranges(all, counts.len()),
        forall|p: int, q: int|
            #![trigger all[p], all[q]]
            0 <= p < q < all.len() ==> {
                let (a, b) = (all[p] as int, all[q] as int);
                &&& counts[a] >= counts[b]
                &&& counts[a] == counts[b] ==> pair_first(keys[a]) <= pair_first(keys[b])
                &&& counts[a] == counts[b] && pair_first(keys[a]) == pair_first(keys[b])
                    ==> pair_second(keys[a]) <= pair_second(keys[b])
            },
        is_part(
            top(by_count_and_pair(counts, keys), counts.len(), limit, offset),
            all,
            limit,
            offset,
        ),
{
    assert(ranks(by_count_and_pair(counts, keys)));
    law_top_page(by_count_and_pair(counts, keys), counts.len(), limit, offset)
}

/// Larger counts come first, and of equal counts the text that comes first.
pub proof fn law_frequent_texts(
    counts: Seq<u64>,
    ties: Seq<Seq<char>>,
    limit: usize,
    offset: usize,
) -> (all: Seq<usize>)
    requires
        counts.len() <= usize::MAX,
    ensures
        arranges(all, counts.len()),
        forall|p: int, q: int|
            #![trigger all[p], all[q]]
            0 <= p < q < all.len() ==> {
                let (a, b) = (all[p] as int, all[q] as int);
                &&& counts[a] >= counts[b]
                &&& counts[a] == counts[b] ==> !text_less(ties[b], ties[a])
            },
        is_part(
            top(by_count_and_text(counts, ties), counts.len(), limit, offset),
            all,
            limit,
            offset,
        ),
{
    lemma_count_and_text_ranks(counts, ties);
    law_top_page(by_count_and_text(counts, ties), counts.len(), limit, offset)
}

/// Larger counts come first, and of equal counts the smaller address, with its sign.
pub proof fn law_frequent_addresses(
    counts: Seq<u64>,
    keys: Seq<u128>,
    limit: usize,
    offset: usize,
) -> (all: Seq<usize>)
    requires
        counts.len() <= usize::MAX,
    ensures
        arranges(all, counts.len()),
        forall|p: int, q: int|
            #![trigger all[p], all[q]]
            0 <= p < q < all.len() ==> {
                let (a, b) = (all[p] as int, all[q] as int);
                &&& counts[a] >= counts[b]
                &&& counts[a] == counts[b] ==> (keys[a] as u32) as i32 <= (keys[b] as u32) as i32
            },
        is_part(
            top(by_count_and_ip(counts, keys), counts.len(), limit, offset),
            all,
            limit,
            offset,
        ),
{
    assert(ranks(by_count_and_ip(counts, keys)));
    law_top_page(by_count_and_ip(counts, keys), counts.len(), limit, offset)
}

/// Larger averages come first, and of equal averages the text that comes first: where the
/// counts are not zero, a sum over a count is no smaller than a later one.
pub proof fn law_largest_averages(
    sums: Seq<int>,
    counts: Seq<u64>,
    names: Seq<Seq<char>>,
    limit: usize,
    offset: usize,
) -> (all: Seq<usize>)
    requires
        counts.len() <= usize::MAX,
        forall|i: int| 0 <= i < counts.len() ==> #[trigger] counts[i] > 0,
    ensures
        arranges(all, counts.len()),
        forall|p: int, q: int|
            #![trigger all[p], all[q]]
            0 <= p < q < all.len() ==> {
                let (a, b) = (all[p] as int, all[q] as int);
                &&& sums[a] * counts[b] >= sums[b] * counts[a]
                &&& sums[a] * counts[b] == sums[b] * counts[a] ==> !text_less(names[b], names[a])
            },
        is_part(
            top(by_average(sums, counts, names), counts.len(), limit, offset),
            all,
            limit,
            offset,
        ),
{
    lemma_average_ranks(sums, counts, names);
    let better = by_average(sums, counts, names);
    let all = law_top_page(better, counts.len(), limit, offset);
    assert forall|p: int, q: int|
        #![trigger all[p], all[q]]
        0 <= p < q < all.len() implies {
        let (a, b) = (all[p] as int, all[q] as int);
        &&& sums[a] * counts[b] >= sums[b] * counts[a]
        &&& sums[a] * counts[b] == sums[b] * counts[a] ==> !text_less(names[b], names[a])
    } by {
        let (a, b) = (all[p] as int, all[q] as int);
        assert(counts[a] > 0 && counts[b] > 0);
        assert(divisor(counts[a]) == counts[a] && divisor(counts[b]) == counts[b]);
        assert(!better(all[q], all[p]));
    }
    all
}

/// A query that is answered in the descending order of one of its projections asks for no
/// order, or for just that order.
pub proof fn law_sorts_descending(q: ParsedQuery, k: int, rows: Seq<Seq<CellView>>)
    requires
        sorts_by(q, k),
        0 <= k < q.select_items@.len(),
        q.order_by@.len() > 0,
    ensures
        q.order_by@.len() == 1,
        q.order_by@[0].1,
        to_sort(q, rows).order[0] == (k as usize, true) || (counts_rows(q.select_items@[k])
            && called(q.order_by@[0].0) == Some("COUNT"@)),
{
}

/// A query that is answered by descending count asks for that order first.
pub proof fn law_counts_descending(q: ParsedQuery)
    requires
        by_count_desc(q),
    ensures
        q.order_by@.len() > 0,
        q.order_by@[0].1,
        called(q.order_by@[0].0) == Some("COUNT"@) || exists|i: int|
            0 <= i < q.select_items@.len() && ((#[trigger] q.select_items@[i]).kind is CountAll
                || q.select_items@[i].kind is Count) && q.select_items@[i].alias is Some
                && q.order_by@[0].0 == Expr::Identifier(q.order_by@[0].0->Identifier_0)
                && q.select_items@[i].alias->Some_0@ == q.order_by@[0].0->Identifier_0@,
{
}

} // verus!
