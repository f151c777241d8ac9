//! Rows of the special ways of grouping, held against those of plain grouping.
use crate::error::yields;
use crate::exec::agg_heap::{by_count, lemma_top, top};
use crate::exec::agg_sort::{
    key_order, law_runs_count, lemma_key_order, run_counts, runs, sorted_keys, top_runs, RunKey,
};
use crate::exec::group::{keyed, AnswerView};
use crate::exec::group_fused_pair::row_ints;
use crate::exec::group_fused_phrase::{in_order, lemma_runs_members};
use crate::exec::group_fused_text::{distinct_counts, distinct_texts};
use crate::exec::grouping::{distinct_at, lemma_distinct_at, sum_at, tallied};
use crate::exec::hash::{first_seen, lemma_first_seen_distinct, lemma_occurrences, occurrences};
use crate::exec::kernel::{
    count_sorted, counted_texts, distinct_column, group_name, i64s_of, keys_with_counts, mapped,
    shows_counts, shows_different, with_count,
};
use crate::exec::plain_rows::{
    agree, group_cells, lemma_count_cell, lemma_distinct_cell, lemma_first_place, lemma_matching,
    lemma_named_part, lemma_plain_shows, lemma_text_keyed, parts_of, plain_rows, text_keyed,
};
use crate::exec::result::{query_limit, query_offset, CellView};
use crate::expr::eval::{col_shown, column_of, int_of};
use crate::sql::ast::{Expr, ParsedQuery};
use crate::sql::query::column_name;
use crate::storage::column::ColumnView;
use crate::storage::table::{declared_type, Table};
use vstd::prelude::*;

verus! {

/// Whether each row of a result is one of some rows.
pub open spec fn among(rows: Seq<Seq<CellView>>, others: Seq<Seq<CellView>>) -> bool {
    forall|i: int| 0 <= i < rows.len() ==> others.contains(#[trigger] rows[i])
}

/// Rows sorted by their counts are among what the rows are among.
pub proof fn lemma_sorted_among(
    q: ParsedQuery,
    counts: Seq<u64>,
    rows: Seq<Seq<CellView>>,
    out: Seq<Seq<CellView>>,
)
    requires
        counts.len() == rows.len() <= usize::MAX,
        among(rows, out),
    ensures
        among(count_sorted(q, counts, rows).rows, out),
{
    let numbers = top(by_count(counts), counts.len(), query_limit(q), query_offset(q));
    lemma_top(by_count(counts), counts.len(), query_limit(q), query_offset(q));
    let picked = count_sorted(q, counts, rows).rows;
    assert forall|i: int| 0 <= i < picked.len() implies out.contains(#[trigger] picked[i]) by {
        assert(numbers[i] < counts.len());
        assert(out.contains(rows[numbers[i] as int]));
    }
}

/// The rows of what is answered, before any sorting that is left to be done.
pub open spec fn answer_rows(a: AnswerView) -> Seq<Seq<CellView>> {
    match a {
        AnswerView::Done(r) => r.rows,
        AnswerView::Sort(u) => u.rows,
    }
}

/// Whether a grouping expression names a column.
pub open spec fn groups_column(t: Table, q: ParsedQuery, j: int, c: ColumnView) -> bool {
    group_name(q.group_by@[j], q) is Some && yields(
        column_of(t, group_name(q.group_by@[j], q)->Some_0),
        c,
    )
}

/// The texts of two columns are the keys of rows that are grouped by these.
pub proof fn lemma_two_columns(
    t: Table,
    q: ParsedQuery,
    rows: Seq<usize>,
    c1: ColumnView,
    c2: ColumnView,
    keys: Seq<Seq<Seq<char>>>,
)
    requires
        q.group_by@.len() == 2,
        groups_column(t, q, 0, c1),
        groups_column(t, q, 1, c2),
        keys.len() == rows.len(),
        forall|i: int|
            0 <= i < rows.len() ==> (#[trigger] keys[i]).len() == 2 && yields(
                col_shown(c1, rows[i] as int),
                keys[i][0],
            ) && yields(col_shown(c2, rows[i] as int), keys[i][1]),
    ensures
        text_keyed(t, q, rows, keys),
{
    assert forall|i: int| 0 <= i < rows.len() implies parts_of(
        t,
        q,
        rows[i] as int,
        #[trigger] keys[i],
    ) by {
        lemma_named_part(t, q, rows[i] as int, 0, c1, keys[i][0]);
        lemma_named_part(t, q, rows[i] as int, 1, c2, keys[i][1]);
    }
}

/// The texts of a column are the keys of rows that are grouped by it.
pub proof fn lemma_one_column(
    t: Table,
    q: ParsedQuery,
    rows: Seq<usize>,
    c: ColumnView,
    keys: Seq<Seq<Seq<char>>>,
)
    requires
        q.group_by@.len() == 1,
        groups_column(t, q, 0, c),
        keys.len() == rows.len(),
        forall|i: int|
            0 <= i < rows.len() ==> (#[trigger] keys[i]).len() == 1 && yields(
                col_shown(c, rows[i] as int),
                keys[i][0],
            ),
    ensures
        text_keyed(t, q, rows, keys),
{
    assert forall|i: int| 0 <= i < rows.len() implies parts_of(
        t,
        q,
        rows[i] as int,
        #[trigger] keys[i],
    ) by {
        lemma_named_part(t, q, rows[i] as int, 0, c, keys[i][0]);
    }
}

/// The number of an expression that names a column is that of the column.
pub proof fn lemma_column_ints(t: Table, e: Expr, rows: Seq<usize>, c: ColumnView)
    requires
        column_name(e) is Some,
        yields(column_of(t, column_name(e)->Some_0), c),
    ensures
        forall|k: int|
            0 <= k < rows.len() ==> yields(
                int_of(t, e, (#[trigger] rows[k]) as int),
                row_ints(c, rows)[k],
            ),
{
}

/// Whether the columns in memory have the types that they are declared with.
pub open spec fn as_declared(t: Table) -> bool {
    forall|name: Seq<char>| #[trigger] t.has(name) ==> declared_type(t.declared(), name) == Some(
        t.col(name).column_type(),
    )
}

/// Keys that are the same in the same places have the same counts, sums and values.
pub proof fn lemma_agree<K, L>(a: Seq<K>, b: Seq<L>, i: int, vals: Seq<i64>)
    requires
        agree(a, b),
        0 <= i < a.len(),
    ensures
        occurrences(a, a[i]) == occurrences(b, b[i]),
        sum_at(a, vals, a[i]) == sum_at(b, vals, b[i]),
        distinct_at(a, vals, a[i]) == distinct_at(b, vals, b[i]),
{
    assert forall|k: int| 0 <= k < a.len() implies (#[trigger] a[k] == a[i] <==> b[k] == b[i]) by {
        assert(a[k] == a[i] <==> b[k] == b[i]);
    }
    lemma_matching(a, a[i], b, b[i], vals, Seq::empty(), Seq::empty());
}

/// A key of texts with its count is a row of plain grouping.
pub proof fn lemma_count_row_plain(
    t: Table,
    q: ParsedQuery,
    rows: Seq<usize>,
    out: Seq<Seq<CellView>>,
    i: int,
    count: u64,
)
    requires
        plain_rows(t, q, rows, out),
        shows_counts(q),
        0 <= i < rows.len(),
        keyed(t, q, rows).0[i].len() == q.group_by@.len(),
        count == occurrences(keyed(t, q, rows).0, keyed(t, q, rows).0[i]),
    ensures
        out.contains(with_count(keyed(t, q, rows).0[i], count)),
{
    let want = with_count(keyed(t, q, rows).0[i], count);
    lemma_count_cell(t, q, rows, i, q.group_by@.len() as int);
    assert(group_cells(t, q, rows, i, want));
    lemma_plain_shows(t, q, rows, out, i, want);
}

/// Keys of texts with their counts are rows of plain grouping.
pub proof fn lemma_in_order_plain(
    t: Table,
    q: ParsedQuery,
    rows: Seq<usize>,
    out: Seq<Seq<CellView>>,
    keys: Seq<Seq<Seq<char>>>,
)
    requires
        plain_rows(t, q, rows, out),
        rows.len() <= usize::MAX,
        shows_counts(q),
        text_keyed(t, q, rows, keys),
    ensures
        among(in_order(keys), out),
{
    lemma_text_keyed(t, q, rows, out, keys);
    let all = in_order(keys);
    assert forall|g: int| 0 <= g < all.len() implies out.contains(#[trigger] all[g]) by {
        let i = lemma_first_place(keys, g);
        assert(parts_of(t, q, rows[i] as int, keys[i]));
        lemma_occurrences(keys, keys[i]);
        lemma_count_row_plain(t, q, rows, out, i, tallied(keys)[g]);
    }
}

/// Counting texts comes to rows of plain grouping.
pub proof fn lemma_counted_texts_plain(
    t: Table,
    q: ParsedQuery,
    rows: Seq<usize>,
    out: Seq<Seq<CellView>>,
    keys: Seq<Seq<Seq<char>>>,
)
    requires
        plain_rows(t, q, rows, out),
        rows.len() <= usize::MAX,
        shows_counts(q),
        text_keyed(t, q, rows, keys),
    ensures
        among(counted_texts(q, keys).rows, out),
{
    lemma_in_order_plain(t, q, rows, out, keys);
    lemma_first_seen_distinct(keys);
    lemma_sorted_among(q, tallied(keys), in_order(keys), out);
}

/// Whether values are those that a query counts the different ones of, on rows.
pub open spec fn distinct_values(
    t: Table,
    q: ParsedQuery,
    rows: Seq<usize>,
    vals: Seq<i64>,
) -> bool {
    match distinct_column(q.select_items@) {
        Some(d) => match i64s_of(t, d) {
            Ok(Some(data)) => vals == mapped(rows, |r: usize| data[r as int]),
            _ => false,
        },
        None => false,
    }
}

/// A row that counts the different values of a column shows the group of a row.
pub proof fn lemma_distinct_row(
    t: Table,
    q: ParsedQuery,
    rows: Seq<usize>,
    vals: Seq<i64>,
    i: int,
)
    requires
        keyed(t, q, rows).0.len() == rows.len() <= usize::MAX,
        keyed(t, q, rows).0[i].len() == q.group_by@.len(),
        0 <= i < rows.len(),
        shows_different(q),
        distinct_values(t, q, rows, vals),
    ensures
        ({
            let keys = keyed(t, q, rows).0;
            let different = distinct_at(keys, vals, keys[i]).len();
            different <= u64::MAX && group_cells(
                t,
                q,
                rows,
                i,
                with_count(keys[i], different as u64),
            )
        }),
{
    let keys = keyed(t, q, rows).0;
    let c = q.group_by@.len() as int;
    assert(q.select_items@.last() == q.select_items@[c]);
    lemma_distinct_cell(t, q, rows, i, c, vals);
    lemma_distinct_at(keys, vals, keys[i]);
}

/// Counting the different values of a column by texts comes to rows of plain grouping.
pub proof fn lemma_distinct_texts_plain(
    t: Table,
    q: ParsedQuery,
    rows: Seq<usize>,
    out: Seq<Seq<CellView>>,
    keys: Seq<Seq<Seq<char>>>,
    vals: Seq<i64>,
)
    requires
        plain_rows(t, q, rows, out),
        rows.len() <= usize::MAX,
        shows_different(q),
        text_keyed(t, q, rows, keys),
        distinct_values(t, q, rows, vals),
    ensures
        among(distinct_texts(q, keys, vals).rows, out),
{
    lemma_text_keyed(t, q, rows, out, keys);
    let counts = distinct_counts(keys, vals);
    let all = keys_with_counts(first_seen(keys), counts);
    assert forall|g: int| 0 <= g < all.len() implies out.contains(#[trigger] all[g]) by {
        let i = lemma_first_place(keys, g);
        assert(parts_of(t, q, rows[i] as int, keys[i]));
        lemma_distinct_row(t, q, rows, vals, i);
        lemma_plain_shows(t, q, rows, out, i, all[g]);
    }
    lemma_first_seen_distinct(keys);
    lemma_sorted_among(q, counts, all, out);
}

/// The number of places of a key is its count in the multiset of the keys.
proof fn lemma_occurrences_count<K>(keys: Seq<K>, key: K)
    ensures
        occurrences(keys, key) == keys.to_multiset().count(key),
    decreases keys.len(),
{
    broadcast use vstd::seq_lib::group_to_multiset_ensures;

    if keys.len() > 0 {
        let front = keys.drop_last();
        lemma_occurrences_count(front, key);
        assert(front.push(keys.last()) =~= keys);
        assert(keys.to_multiset() =~= front.to_multiset().insert(keys.last()));
    }
}

/// Sorting keys changes none of their counts.
proof fn lemma_sorted_occurrences<K: RunKey>(keys: Seq<K>, key: K)
    ensures
        occurrences(sorted_keys(keys), key) == occurrences(keys, key),
        sorted_keys(keys).len() == keys.len(),
{
    lemma_key_order::<K>();
    let leq = key_order::<K>();
    keys.lemma_sort_by_ensures(leq);
    lemma_occurrences_count(keys, key);
    lemma_occurrences_count(sorted_keys(keys), key);
    broadcast use vstd::seq_lib::group_to_multiset_ensures;

    assert(keys.to_multiset().len() == keys.len());
    assert(sorted_keys(keys).to_multiset().len() == sorted_keys(keys).len());
}

/// The runs of sorted keys are those of keys that were sorted, with their counts.
pub proof fn lemma_run_count<K: RunKey>(keys: Seq<K>, p: int)
    requires
        keys.len() <= usize::MAX,
        0 <= p < runs(sorted_keys(keys)).len(),
    ensures
        ({
            let run = runs(sorted_keys(keys))[p];
            keys.contains(run.0) && run.1 == occurrences(keys, run.0)
        }),
{
    let sorted = sorted_keys(keys);
    let run = runs(sorted)[p];
    lemma_sorted_occurrences(keys, run.0);
    lemma_key_order::<K>();
    keys.lemma_sort_by_ensures(key_order::<K>());
    law_runs_count(sorted);
    lemma_runs_members(sorted);
    lemma_occurrences(sorted, run.0);
    assert(sorted.contains(run.0));
    lemma_occurrences(keys, run.0);
}

/// There are no more runs of sorted keys than keys.
pub proof fn lemma_runs_len<K: RunKey>(keys: Seq<K>)
    ensures
        runs(sorted_keys(keys)).len() <= keys.len(),
{
    lemma_runs_members(sorted_keys(keys));
    if keys.len() > 0 {
        lemma_sorted_occurrences(keys, keys[0]);
    } else {
        lemma_sorted_occurrences(keys, arbitrary());
    }
}

/// The longest runs of sorted keys are those of keys that were sorted, with their counts.
pub proof fn lemma_top_runs_count<K: RunKey>(keys: Seq<K>, limit: usize, offset: usize, p: int)
    requires
        keys.len() <= usize::MAX,
        0 <= p < top_runs(runs(sorted_keys(keys)), limit, offset).len(),
    ensures
        ({
            let run = top_runs(runs(sorted_keys(keys)), limit, offset)[p];
            keys.contains(run.0) && run.1 == occurrences(keys, run.0)
        }),
{
    let all = runs(sorted_keys(keys));
    lemma_runs_len(keys);
    lemma_top(by_count(run_counts(all)), all.len(), limit, offset);
    let numbers = top(by_count(run_counts(all)), all.len(), limit, offset);
    assert(numbers[p] < all.len());
    assert(top_runs(all, limit, offset)[p] == all[numbers[p] as int]);
    lemma_run_count(keys, numbers[p] as int);
}

} // verus!
