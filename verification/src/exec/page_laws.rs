//! Special ways of grouping answer with a page of the rows of plain grouping, in order.
use crate::exec::agg_sort::{
    key_order, law_runs_count, lemma_key_order, runs, sorted_keys, top_runs, RunKey,
};
use crate::exec::group::{keyed, states_of};
use crate::exec::group_fused_pair::top_pair_numbers;
use crate::exec::group_fused_phrase::in_order;
use crate::exec::group_laws::{lemma_group_row_len, lemma_group_row_values};
use crate::exec::group_fused_text::{distinct_counts, distinct_texts};
use crate::exec::grouped_laws::lemma_plain_each;
use crate::exec::grouping::tallied;
use crate::exec::hash::{
    first_seen, lemma_first_seen_distinct, lemma_occurrences, occurrences, place,
};
use crate::exec::kernel::{
    count_sorted, counted_texts, keys_lead, keys_with_counts, shows_counts, shows_different,
    with_count,
};
use crate::exec::kernel_rows::{
    distinct_values, lemma_agree, lemma_distinct_row, lemma_run_count, lemma_runs_len,
    lemma_top_runs_count,
};
use crate::exec::order_laws::arranges;
use crate::exec::plain_rows::{
    aggregate_cell, agree, group_cells, group_states, lemma_aggregate_no_key, lemma_cells_of_key, lemma_count_cell, lemma_first_place,
    lemma_first_seen_agree, lemma_text_keyed, parts_of, plain_rows, same_place, text_keyed,
};
use crate::exec::result::{counted, query_limit, query_offset, CellView};
use crate::exec::top_laws::{
    law_count_sorted, law_frequent_pairs, law_longest_runs, lemma_arranges_all,
};
use crate::exec::sorting::counts_rows;
use crate::sql::ast::ParsedQuery;
use crate::storage::table::Table;
use vstd::prelude::*;

verus! {

/// Whether rows are a page of others in an arrangement, in which no number at a column is
/// larger than an earlier one.
pub open spec fn is_best_page_of(
    q: ParsedQuery,
    rows: Seq<Seq<CellView>>,
    others: Seq<Seq<CellView>>,
    c: int,
    all: Seq<usize>,
    counts: Seq<u64>,
) -> bool {
    &&& arranges(all, others.len())
    &&& counts.len() == others.len()
    &&& forall|g: int| 0 <= g < others.len() ==> (#[trigger] others[g])[c] == counted(
        counts[g] as int,
    )
    &&& forall|x: int, y: int|
        #![trigger all[x], all[y]]
        0 <= x < y < all.len() ==> counts[all[x] as int] >= counts[all[y] as int]
    &&& rows.len() == if query_offset(q) >= others.len() {
        0
    } else if query_limit(q) <= others.len() - query_offset(q) {
        query_limit(q) as int
    } else {
        others.len() - query_offset(q)
    }
    &&& forall|i: int|
        0 <= i < rows.len() ==> #[trigger] rows[i] == others[all[query_offset(q) + i] as int]
}

/// Whether rows are what the limit and the offset of a query leave of others, by descending
/// number at a column.
pub open spec fn is_best_page(
    q: ParsedQuery,
    rows: Seq<Seq<CellView>>,
    others: Seq<Seq<CellView>>,
    c: int,
) -> bool {
    exists|all: Seq<usize>, counts: Seq<u64>| #[trigger]
        is_best_page_of(q, rows, others, c, all, counts)
}

/// Whether a row shows the group of a key.
pub open spec fn shows_key_group<K>(
    t: Table,
    q: ParsedQuery,
    rows: Seq<usize>,
    keys: Seq<K>,
    key: K,
    cells: Seq<CellView>,
) -> bool {
    exists|i: int|
        0 <= i < rows.len() && #[trigger] keys[i] == key && group_cells(t, q, rows, i, cells)
}

/// The row of plain grouping for a key is the one that shows the group of a row with it.
pub proof fn lemma_group_is<K>(
    t: Table,
    q: ParsedQuery,
    rows: Seq<usize>,
    out: Seq<Seq<CellView>>,
    keys: Seq<K>,
    g: int,
    i: int,
    want: Seq<CellView>,
)
    requires
        plain_rows(t, q, rows, out),
        q.having is None,
        keys_lead(q),
        agree(keys, keyed(t, q, rows).0),
        0 <= g < first_seen(keys).len(),
        0 <= i < rows.len(),
        keys[i] == first_seen(keys)[g],
        group_cells(t, q, rows, i, want),
    ensures
        out.len() == first_seen(keys).len(),
        out[g] == want,
{
    let plain = keyed(t, q, rows).0;
    lemma_first_seen_agree(keys, plain);
    let row = lemma_plain_each(t, q, rows, out, g);
    assert(same_place(keys, plain, first_seen(keys)[g], first_seen(plain)[g]));
    let k = choose|k: int|
        0 <= k < keys.len() && #[trigger] keys[k] == first_seen(keys)[g] && plain[k]
            == first_seen(plain)[g];
    assert(keys[i] == keys[k] <==> plain[i] == plain[k]);
    assert(plain[i] == first_seen(plain)[g]);
    if q.select_items@.len() > 0 {
        lemma_cells_of_key(t, q, rows, i, row, out[g], want, 0);
    } else {
        lemma_group_row_len(
            t,
            q,
            row,
            group_states(t, q, rows, i),
            0,
        );
    }
    assert forall|j: int| 0 <= j < want.len() implies out[g][j] == want[j] by {
        lemma_cells_of_key(t, q, rows, i, row, out[g], want, j);
    }
    assert(out[g] =~= want);
}

/// There are as many rows of plain grouping as there are keys.
pub proof fn lemma_groups_len<K>(
    t: Table,
    q: ParsedQuery,
    rows: Seq<usize>,
    out: Seq<Seq<CellView>>,
    keys: Seq<K>,
)
    requires
        plain_rows(t, q, rows, out),
        q.having is None,
        agree(keys, keyed(t, q, rows).0),
    ensures
        out.len() == first_seen(keys).len(),
{
    lemma_first_seen_agree(keys, keyed(t, q, rows).0);
    lemma_plain_each(t, q, rows, out, 0);
}

/// The row of a key of plain grouping shows, behind the keys, how often it appears.
pub proof fn lemma_count_shown<K>(
    t: Table,
    q: ParsedQuery,
    rows: Seq<usize>,
    out: Seq<Seq<CellView>>,
    keys: Seq<K>,
    g: int,
)
    requires
        plain_rows(t, q, rows, out),
        rows.len() <= usize::MAX,
        q.having is None,
        0 <= q.group_by@.len() < q.select_items@.len(),
        counts_rows(q.select_items@[q.group_by@.len() as int]),
        agree(keys, keyed(t, q, rows).0),
        0 <= g < first_seen(keys).len(),
    ensures
        out[g].len() == q.select_items@.len(),
        out[g][q.group_by@.len() as int] == counted(tallied(keys)[g] as int),
{
    let plain = keyed(t, q, rows).0;
    let c = q.group_by@.len() as int;
    let n = q.select_items@.len();
    lemma_first_seen_agree(keys, plain);
    let row = lemma_plain_each(t, q, rows, out, g);
    assert(same_place(keys, plain, first_seen(keys)[g], first_seen(plain)[g]));
    let k = choose|k: int|
        0 <= k < keys.len() && #[trigger] keys[k] == first_seen(keys)[g] && plain[k]
            == first_seen(plain)[g];
    lemma_agree(keys, plain, k, Seq::empty());
    lemma_occurrences(keys, keys[k]);
    let states = states_of(t, q.select_items@, plain, rows, plain[k]);
    lemma_group_row_len(t, q, row, states, n);
    lemma_group_row_values(t, q, row, states, n, c);
    lemma_aggregate_no_key(q, c, q.group_by@.len());
    lemma_count_cell(t, q, rows, k, c);
    reveal(aggregate_cell);
}

/// The rows of the most frequent pairs are a page of the rows of all, by descending count.
pub proof fn lemma_top_pairs_page(
    q: ParsedQuery,
    keys: Seq<u128>,
    r: Seq<Seq<CellView>>,
    out: Seq<Seq<CellView>>,
    c: int,
)
    requires
        first_seen(keys).len() <= usize::MAX,
        out.len() == first_seen(keys).len(),
        forall|g: int| 0 <= g < out.len() ==> (#[trigger] out[g])[c] == counted(
            tallied(keys)[g] as int,
        ),
        r.len() == top_pair_numbers(q, keys).len(),
        forall|p: int|
            0 <= p < r.len() ==> #[trigger] r[p] == out[top_pair_numbers(q, keys)[p] as int],
    ensures
        is_best_page(q, r, out, c),
{
    let counts = tallied(keys);
    let all = law_frequent_pairs(counts, first_seen(keys), query_limit(q), query_offset(q));
    assert forall|x: int, y: int|
        #![trigger all[x], all[y]]
        0 <= x < y < all.len() implies counts[all[x] as int] >= counts[all[y] as int] by {}
    assert forall|i: int| 0 <= i < r.len() implies #[trigger] r[i] == out[all[query_offset(q)
        + i] as int] by {
        assert(top_pair_numbers(q, keys)[i] == all[query_offset(q) + i]);
    }
    assert(is_best_page_of(q, r, out, c, all, counts));
}

/// Rows that show the groups of all keys, in the order in which the keys appear, are those
/// of plain grouping.
pub proof fn lemma_all_groups<K>(
    t: Table,
    q: ParsedQuery,
    rows: Seq<usize>,
    out: Seq<Seq<CellView>>,
    keys: Seq<K>,
    all: Seq<Seq<CellView>>,
)
    requires
        plain_rows(t, q, rows, out),
        q.having is None,
        keys_lead(q),
        agree(keys, keyed(t, q, rows).0),
        all.len() == first_seen(keys).len(),
        forall|g: int|
            0 <= g < all.len() ==> shows_key_group(
                t,
                q,
                rows,
                keys,
                first_seen(keys)[g],
                #[trigger] all[g],
            ),
    ensures
        all == out,
{
    lemma_groups_len(t, q, rows, out, keys);
    assert forall|g: int| 0 <= g < all.len() implies all[g] == out[g] by {
        assert(shows_key_group(t, q, rows, keys, first_seen(keys)[g], all[g]));
        let i = choose|i: int|
            0 <= i < rows.len() && #[trigger] keys[i] == first_seen(keys)[g] && group_cells(
                t,
                q,
                rows,
                i,
                all[g],
            );
        lemma_group_is(t, q, rows, out, keys, g, i, all[g]);
    }
    assert(all =~= out);
}

/// Keys of texts with their counts are the rows of plain grouping.
pub proof fn lemma_in_order_is_plain(
    t: Table,
    q: ParsedQuery,
    rows: Seq<usize>,
    out: Seq<Seq<CellView>>,
    keys: Seq<Seq<Seq<char>>>,
)
    requires
        plain_rows(t, q, rows, out),
        rows.len() <= usize::MAX,
        shows_counts(q),
        text_keyed(t, q, rows, keys),
    ensures
        in_order(keys) == out,
{
    lemma_text_keyed(t, q, rows, out, keys);
    let all = in_order(keys);
    assert forall|g: int| 0 <= g < all.len() implies shows_key_group(
        t,
        q,
        rows,
        keys,
        first_seen(keys)[g],
        #[trigger] all[g],
    ) by {
        let i = lemma_first_place(keys, g);
        assert(parts_of(t, q, rows[i] as int, keys[i]));
        lemma_occurrences(keys, keys[i]);
        lemma_count_cell(t, q, rows, i, q.group_by@.len() as int);
        assert(all[g] == with_count(keys[i], tallied(keys)[g]));
        assert(group_cells(t, q, rows, i, all[g]));
    }
    lemma_all_groups(t, q, rows, out, keys, all);
}

/// Rows by descending count are a page of all rows by descending count.
pub proof fn lemma_count_sorted_page(q: ParsedQuery, counts: Seq<u64>, rows: Seq<Seq<CellView>>, c: int)
    requires
        counts.len() == rows.len() <= usize::MAX,
        forall|g: int| 0 <= g < rows.len() ==> (#[trigger] rows[g])[c] == counted(
            counts[g] as int,
        ),
    ensures
        is_best_page(q, count_sorted(q, counts, rows).rows, rows, c),
{
    let all = law_count_sorted(q, counts, rows);
    assert(is_best_page_of(q, count_sorted(q, counts, rows).rows, rows, c, all, counts));
}

/// Counting texts comes to a page of plain grouping, by descending count.
pub proof fn lemma_counted_texts_page(
    t: Table,
    q: ParsedQuery,
    rows: Seq<usize>,
    out: Seq<Seq<CellView>>,
    keys: Seq<Seq<Seq<char>>>,
)
    requires
        plain_rows(t, q, rows, out),
        rows.len() <= usize::MAX,
        shows_counts(q),
        text_keyed(t, q, rows, keys),
    ensures
        is_best_page(q, counted_texts(q, keys).rows, out, q.group_by@.len() as int),
{
    lemma_in_order_is_plain(t, q, rows, out, keys);
    lemma_first_seen_distinct(keys);
    let c = q.group_by@.len() as int;
    assert forall|g: int| 0 <= g < out.len() implies (#[trigger] out[g])[c] == counted(
        tallied(keys)[g] as int,
    ) by {
        let i = lemma_first_place(keys, g);
        assert(parts_of(t, q, rows[i] as int, keys[i]));
        assert(out[g] == with_count(keys[i], tallied(keys)[g]));
    }
    lemma_count_sorted_page(q, tallied(keys), out, c);
}

/// Counting the different values of a column by texts comes to a page of plain grouping, by
/// descending number.
pub proof fn lemma_distinct_texts_page(
    t: Table,
    q: ParsedQuery,
    rows: Seq<usize>,
    out: Seq<Seq<CellView>>,
    keys: Seq<Seq<Seq<char>>>,
    vals: Seq<i64>,
)
    requires
        plain_rows(t, q, rows, out),
        rows.len() <= usize::MAX,
        shows_different(q),
        text_keyed(t, q, rows, keys),
        distinct_values(t, q, rows, vals),
    ensures
        is_best_page(q, distinct_texts(q, keys, vals).rows, out, q.group_by@.len() as int),
{
    lemma_text_keyed(t, q, rows, out, keys);
    lemma_first_seen_distinct(keys);
    let counts = distinct_counts(keys, vals);
    let all = keys_with_counts(first_seen(keys), counts);
    let c = q.group_by@.len() as int;
    assert forall|g: int| 0 <= g < all.len() implies shows_key_group(
        t,
        q,
        rows,
        keys,
        first_seen(keys)[g],
        #[trigger] all[g],
    ) && all[g][c] == counted(counts[g] as int) by {
        let i = lemma_first_place(keys, g);
        assert(parts_of(t, q, rows[i] as int, keys[i]));
        lemma_distinct_row(t, q, rows, vals, i);
        assert(all[g] == with_count(keys[i], counts[g]));
        assert(group_cells(t, q, rows, i, all[g]));
    }
    lemma_all_groups(t, q, rows, out, keys, all);
    lemma_count_sorted_page(q, counts, all, c);
}

/// A list of the different members of keys is the keys as they first appear, rearranged.
pub proof fn lemma_list_arranges<K>(keys: Seq<K>, list: Seq<K>) -> (places: Seq<usize>)
    requires
        keys.len() <= usize::MAX,
        list.no_duplicates(),
        forall|k: K| #[trigger] list.contains(k) <==> keys.contains(k),
    ensures
        list.len() == first_seen(keys).len(),
        arranges(places, first_seen(keys).len()),
        forall|p: int|
            0 <= p < places.len() ==> first_seen(keys)[(#[trigger] places[p]) as int] == list[p],
{
    let f = first_seen(keys);
    lemma_first_seen_distinct(keys);
    let places = Seq::new(list.len(), |p: int| place(f, list[p]) as usize);
    assert forall|p: int| 0 <= p < list.len() implies (#[trigger] places[p]) < f.len() && f[
    places[p] as int] == list[p] by {
        assert(list.contains(list[p]));
        assert(f.contains(list[p]));
        let i = place(f, list[p]);
        assert(0 <= i < f.len() && f[i] == list[p]);
    }
    assert forall|x: int, y: int| 0 <= x < y < places.len() implies places[x] != places[y] by {
        assert(list[x] != list[y]);
        assert(f[places[x] as int] == list[x] && f[places[y] as int] == list[y]);
    }
    assert(places.no_duplicates());
    assert forall|k: K| list.to_set().contains(k) <==> f.to_set().contains(k) by {
        assert(list.contains(k) <==> keys.contains(k));
        assert(f.contains(k) <==> keys.contains(k));
    }
    assert(list.to_set() =~= f.to_set());
    list.unique_seq_to_set();
    f.unique_seq_to_set();
    places
}

/// Rearranged rows with their numbers: as they stand, and as the others stand.
pub proof fn lemma_rearranged_page(
    q: ParsedQuery,
    counts: Seq<u64>,
    rows: Seq<Seq<CellView>>,
    out: Seq<Seq<CellView>>,
    places: Seq<usize>,
    c: int,
    all: Seq<usize>,
    r: Seq<Seq<CellView>>,
)
    requires
        counts.len() == rows.len() == out.len() <= usize::MAX,
        arranges(places, out.len()),
        forall|p: int|
            0 <= p < rows.len() ==> #[trigger] rows[p] == out[places[p] as int] && rows[p][c]
                == counted(counts[p] as int),
        is_best_page_of(q, r, rows, c, all, counts),
    ensures
        is_best_page(q, r, out, c),
{
    let n = out.len();
    let back = Seq::new(n, |g: int| choose|p: int| 0 <= p < n && #[trigger] places[p] == g);
    assert forall|g: int| 0 <= g < n implies 0 <= #[trigger] back[g] < n && places[back[g]] == g by {
        lemma_arranges_all(places, n, g as usize);
        let p = choose|p: int| 0 <= p < places.len() && places[p] == g as usize;
        assert(places[p] == g);
    }
    let numbers = Seq::new(n, |g: int| counts[back[g]]);
    let moved = Seq::new(all.len(), |x: int| places[all[x] as int]);
    assert forall|g: int| 0 <= g < n implies (#[trigger] out[g])[c] == counted(
        numbers[g] as int,
    ) by {
        assert(0 <= back[g] < n);
        assert(rows[back[g]] == out[places[back[g]] as int]);
    }
    assert forall|x: int| 0 <= x < moved.len() implies (#[trigger] moved[x]) < n && numbers[
    moved[x] as int] == counts[all[x] as int] by {
        assert(all[x] < n);
        assert(places[all[x] as int] < n);
        let g = moved[x] as int;
        assert(places[back[g]] == g);
        assert(back[g] == all[x]);
    }
    assert forall|x: int, y: int| 0 <= x < y < moved.len() implies moved[x] != moved[y] by {
        assert(all[x] != all[y]);
        assert(all[x] < n && all[y] < n);
        assert(places[all[x] as int] != places[all[y] as int]);
    }
    assert(moved.no_duplicates());
    assert forall|x: int, y: int|
        #![trigger moved[x], moved[y]]
        0 <= x < y < moved.len() implies numbers[moved[x] as int] >= numbers[moved[y] as int] by {
        assert(counts[all[x] as int] >= counts[all[y] as int]);
    }
    assert forall|i: int| 0 <= i < r.len() implies #[trigger] r[i] == out[moved[query_offset(q)
        + i] as int] by {
        let x = query_offset(q) + i;
        assert(all[x] < n);
        assert(r[i] == rows[all[x] as int]);
    }
    assert(is_best_page_of(q, r, out, c, moved, numbers));
}

/// Rearranged rows by descending count are a page of the rows.
pub proof fn lemma_rearranged_count_sorted(
    q: ParsedQuery,
    counts: Seq<u64>,
    rows: Seq<Seq<CellView>>,
    out: Seq<Seq<CellView>>,
    places: Seq<usize>,
    c: int,
)
    requires
        counts.len() == rows.len() == out.len() <= usize::MAX,
        arranges(places, out.len()),
        forall|p: int|
            0 <= p < rows.len() ==> #[trigger] rows[p] == out[places[p] as int] && rows[p][c]
                == counted(counts[p] as int),
    ensures
        is_best_page(q, count_sorted(q, counts, rows).rows, out, c),
{
    let all = law_count_sorted(q, counts, rows);
    let r = count_sorted(q, counts, rows).rows;
    assert forall|g: int| 0 <= g < rows.len() implies (#[trigger] rows[g])[c] == counted(
        counts[g] as int,
    ) by {}
    assert(is_best_page_of(q, r, rows, c, all, counts));
    lemma_rearranged_page(q, counts, rows, out, places, c, all, r);
}

/// The runs of sorted keys are those of the keys, each once, with their counts.
pub proof fn lemma_runs_arrange<K: RunKey>(keys: Seq<K>) -> (places: Seq<usize>)
    requires
        keys.len() <= usize::MAX,
    ensures
        runs(sorted_keys(keys)).len() == first_seen(keys).len(),
        arranges(places, first_seen(keys).len()),
        forall|p: int|
            0 <= p < places.len() ==> first_seen(keys)[(#[trigger] places[p]) as int] == runs(
                sorted_keys(keys),
            )[p].0,
        forall|p: int|
            0 <= p < places.len() ==> (#[trigger] runs(sorted_keys(keys))[p]).1 == occurrences(
                keys,
                runs(sorted_keys(keys))[p].0,
            ),
{
    let sorted = sorted_keys(keys);
    let r = runs(sorted);
    let f = first_seen(keys);
    lemma_key_order::<K>();
    keys.lemma_sort_by_ensures(key_order::<K>());
    lemma_runs_len(keys);
    vstd::seq_lib::to_multiset_len(keys);
    vstd::seq_lib::to_multiset_len(sorted);
    law_runs_count(sorted);
    lemma_first_seen_distinct(keys);
    let places = Seq::new(r.len(), |p: int| place(f, r[p].0) as usize);
    assert forall|p: int| 0 <= p < r.len() implies (#[trigger] places[p]) < f.len() && f[
    places[p] as int] == r[p].0 by {
        lemma_run_count(keys, p);
        assert(f.contains(r[p].0));
        let i = place(f, r[p].0);
        assert(0 <= i < f.len() && f[i] == r[p].0);
    }
    assert forall|x: int, y: int| 0 <= x < y < places.len() implies places[x] != places[y] by {
        assert(r[x].0 != r[y].0);
        assert(f[places[x] as int] == r[x].0 && f[places[y] as int] == r[y].0);
    }
    assert(places.no_duplicates());
    assert(r.len() == f.len()) by {
        let keys_of_runs = Seq::new(r.len(), |p: int| r[p].0);
        assert(keys_of_runs.no_duplicates()) by {
            assert forall|x: int, y: int|
                0 <= x < keys_of_runs.len() && 0 <= y < keys_of_runs.len() && x
                    != y implies keys_of_runs[x] != keys_of_runs[y] by {
                if x < y {
                    assert(r[x].0 != r[y].0);
                } else {
                    assert(r[y].0 != r[x].0);
                }
            }
        }
        assert forall|k: K| keys_of_runs.to_set().contains(k) <==> f.to_set().contains(k) by {
            if keys_of_runs.contains(k) {
                let p = choose|p: int| 0 <= p < keys_of_runs.len() && keys_of_runs[p] == k;
                assert(f[places[p] as int] == r[p].0);
                assert(f.contains(k));
            }
            if f.contains(k) {
                assert(keys.contains(k));
                vstd::seq_lib::to_multiset_contains(keys, k);
                vstd::seq_lib::to_multiset_contains(sorted, k);
                assert(sorted.contains(k));
                let p = choose|p: int| 0 <= p < r.len() && (#[trigger] r[p]).0 == k;
                assert(keys_of_runs[p] == k);
            }
        }
        assert(keys_of_runs.to_set() =~= f.to_set());
        keys_of_runs.unique_seq_to_set();
        f.unique_seq_to_set();
    }
    assert(arranges(places, f.len()));
    assert forall|p: int| 0 <= p < r.len() implies (#[trigger] r[p]).1 == occurrences(
        keys,
        r[p].0,
    ) by {
        lemma_run_count(keys, p);
    }
    places
}

/// The rows of the longest runs are a page of the rows of all keys, by descending count.
pub proof fn lemma_top_runs_page<K: RunKey>(
    q: ParsedQuery,
    keys: Seq<K>,
    r: Seq<Seq<CellView>>,
    out: Seq<Seq<CellView>>,
    c: int,
)
    requires
        keys.len() <= usize::MAX,
        out.len() == first_seen(keys).len(),
        forall|g: int| 0 <= g < out.len() ==> (#[trigger] out[g])[c] == counted(
            occurrences(keys, first_seen(keys)[g]) as int,
        ),
        ({
            let best = top_runs(runs(sorted_keys(keys)), query_limit(q), query_offset(q));
            &&& r.len() == best.len()
            &&& forall|p: int, g: int|
                #![trigger r[p], out[g]]
                0 <= p < r.len() && 0 <= g < out.len() && first_seen(keys)[g] == best[p].0 ==> r[p]
                    == out[g]
        }),
    ensures
        is_best_page(q, r, out, c),
{
    let all_runs = runs(sorted_keys(keys));
    let best = top_runs(all_runs, query_limit(q), query_offset(q));
    let f = first_seen(keys);
    lemma_first_seen_distinct(keys);
    let places = lemma_runs_arrange(keys);
    let a = law_longest_runs(all_runs, query_limit(q), query_offset(q));
    let all = Seq::new(a.len(), |x: int| places[a[x] as int]);
    let counts = Seq::new(out.len(), |g: int| occurrences(keys, f[g]) as u64);
    assert forall|g: int| 0 <= g < out.len() implies (#[trigger] out[g])[c] == counted(
        counts[g] as int,
    ) by {
        lemma_occurrences(keys, f[g]);
    }
    assert forall|x: int| 0 <= x < all.len() implies (#[trigger] all[x]) < out.len() && counts[
    all[x] as int] == all_runs[a[x] as int].1 && f[all[x] as int] == all_runs[a[x] as int].0 by {
        assert(a[x] < all_runs.len());
        assert(f[places[a[x] as int] as int] == all_runs[a[x] as int].0);
        assert(places[a[x] as int] < f.len());
    }
    assert forall|x: int, y: int| 0 <= x < y < all.len() implies all[x] != all[y] by {
        assert(a[x] != a[y]);
        assert(a[x] < all_runs.len() && a[y] < all_runs.len());
        assert(places[a[x] as int] != places[a[y] as int]);
    }
    assert(all.no_duplicates());
    assert forall|x: int, y: int|
        #![trigger all[x], all[y]]
        0 <= x < y < all.len() implies counts[all[x] as int] >= counts[all[y] as int] by {
        assert(all_runs[a[x] as int].1 >= all_runs[a[y] as int].1);
    }
    assert forall|i: int| 0 <= i < r.len() implies #[trigger] r[i] == out[all[query_offset(q)
        + i] as int] by {
        let x = query_offset(q) + i;
        assert(best[i] == all_runs[a[x] as int]);
        assert(f[all[x] as int] == best[i].0);
        assert(r[i] == out[all[x] as int]);
    }
    assert(is_best_page_of(q, r, out, c, all, counts));
}

/// The rows of the longest runs of keys, which stand just where keys of texts stand, are a
/// page of the rows of the keys of texts.
pub proof fn lemma_text_runs_page<K: RunKey>(
    q: ParsedQuery,
    wide: Seq<K>,
    keys: Seq<Seq<Seq<char>>>,
    r: Seq<Seq<CellView>>,
    c: int,
)
    requires
        wide.len() <= usize::MAX,
        agree(wide, keys),
        forall|i: int| 0 <= i < keys.len() ==> (#[trigger] keys[i]).len() == c,
        ({
            let best = top_runs(runs(sorted_keys(wide)), query_limit(q), query_offset(q));
            &&& r.len() == best.len()
            &&& forall|p: int, i: int|
                #![trigger r[p], keys[i]]
                0 <= p < r.len() && 0 <= i < wide.len() && wide[i] == best[p].0 ==> r[p]
                    == with_count(keys[i], best[p].1)
        }),
    ensures
        is_best_page(q, r, in_order(keys), c),
{
    let out = in_order(keys);
    let best = top_runs(runs(sorted_keys(wide)), query_limit(q), query_offset(q));
    let (f, h) = (first_seen(wide), first_seen(keys));
    lemma_first_seen_agree(wide, keys);
    lemma_first_seen_distinct(wide);
    assert forall|g: int| 0 <= g < out.len() implies (#[trigger] out[g])[c] == counted(
        occurrences(wide, f[g]) as int,
    ) && tallied(keys)[g] == occurrences(wide, f[g]) by {
        lemma_same_count(wide, keys, g);
        lemma_occurrences(wide, f[g]);
        assert(out[g] == with_count(h[g], tallied(keys)[g]));
    }
    assert forall|p: int, g: int|
        #![trigger r[p], out[g]]
        0 <= p < r.len() && 0 <= g < out.len() && f[g] == best[p].0 implies r[p] == out[g] by {
        let i = lemma_same_count(wide, keys, g);
        lemma_top_runs_count(wide, query_limit(q), query_offset(q), p);
        assert(r[p] == with_count(keys[i], best[p].1));
        assert(tallied(keys)[g] == occurrences(wide, f[g]));
        assert(out[g] == with_count(h[g], tallied(keys)[g]));
    }
    lemma_top_runs_page(q, wide, r, out, c);
}

/// Keys that stand in the same places have the same counts, in the order in which they
/// appear.
proof fn lemma_same_count<K>(wide: Seq<K>, keys: Seq<Seq<Seq<char>>>, g: int) -> (i: int)
    requires
        agree(wide, keys),
        0 <= g < first_seen(keys).len(),
    ensures
        0 <= i < wide.len(),
        wide[i] == first_seen(wide)[g],
        keys[i] == first_seen(keys)[g],
        occurrences(wide, first_seen(wide)[g]) == occurrences(keys, first_seen(keys)[g]),
{
    lemma_first_seen_agree(wide, keys);
    assert(same_place(wide, keys, first_seen(wide)[g], first_seen(keys)[g]));
    let i = choose|i: int|
        0 <= i < wide.len() && #[trigger] wide[i] == first_seen(wide)[g] && keys[i]
            == first_seen(keys)[g];
    lemma_agree(wide, keys, i, Seq::empty());
    i
}

} // verus!
