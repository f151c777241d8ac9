//! What is grouped by packed integers is rows of plain grouping.
use crate::error::yields;
use crate::exec::agg_heap::{by_count_and_pair, lemma_top, top};
use crate::exec::agg_sort::{runs, sorted_keys, top_runs, unsigned_ip, unsigned_ips};
use crate::exec::column_slice::{law_pair_injective, law_pair_unpacks, pair_key};
use crate::exec::group::{keyed, resolved, AnswerView};
use crate::exec::group_columnar::{by_count_and_ip, quad_top, signed_ip, sorted_top};
use crate::exec::group_fused_pair::{
    key_text, pair_aggs_answer, pair_count_result, pair_counts, pair_form, pair_keys, pair_rows,
    pair_texts, row_ints, sum_avg_columns, sum_column, top_pair_numbers, wants_top, PairColumns,
};
use crate::exec::group_fused_q36::{have_predecessors, q36_result};
use crate::exec::group_fused_q41::limit_or_ten;
use crate::exec::group_fused_quad::{
    groups_ip_chain, groups_quad, int4_result, ip_less, ip_quad, law_quad_unpacks, less_by,
    quad_key, quad_keys, quad_numbers, quad_part, quad_row, quad_rows, quad_value, quad_values,
    quads_counted,
};
use crate::exec::group_int::{is_int_type, law_quarters_unpack, packed};
use crate::exec::grouping::{sum_at, tallied};
use crate::exec::hash::{first_seen, lemma_first_seen_distinct, lemma_occurrences, occurrences};
use crate::exec::kernel::{chosen, group_name, i32s_of, mapped, shows_counts, with_count};
use crate::exec::kernel_rows::{
    among, answer_rows, as_declared, groups_column, lemma_agree, lemma_column_ints,
    lemma_count_row_plain, lemma_sorted_among, lemma_top_runs_count,
};
use crate::exec::mask_util::selected;
use crate::exec::page_laws::{
    is_best_page, lemma_count_shown, lemma_count_sorted_page, lemma_group_is, lemma_groups_len,
    lemma_top_pairs_page,
};
use crate::exec::plain_rows::{
    agree, group_cells, key_part, lemma_average_cell, lemma_count_cell, lemma_first_place,
    lemma_key_parts,
    lemma_named_part, lemma_one_part, lemma_plain_keyed, lemma_plain_shows, lemma_sum_cell,
    lemma_text_keyed, parts_of, plain_rows, text_keyed,
};
use crate::exec::result::{counted, query_limit, query_offset, shown, CellView, ResultView};
use crate::exec::sorting::{all_numbers, to_sort};
use crate::expr::eval::{col_int, col_shown, column_of, int_of};
use crate::sql::ast::{Expr, ParsedQuery};
use crate::sql::query::column_name;
use crate::storage::column::ColumnView;
use crate::storage::table::Table;
use crate::text::{decimal, digits_value, law_decimal_injective, parsed_i64};
use vstd::prelude::*;

verus! {

/// Whether different days of a date column are written differently on rows.
pub open spec fn days_differ(c: ColumnView, rows: Seq<usize>) -> bool {
    c is Date ==> forall|i: int, k: int|
        0 <= i < rows.len() && 0 <= k < rows.len() && #[trigger] col_shown(c, rows[i] as int)
            == #[trigger] col_shown(c, rows[k] as int) ==> col_int(c, rows[i] as int) == col_int(
            c,
            rows[k] as int,
        )
}

/// The texts of an integer or date column are the same just where its numbers are.
pub proof fn lemma_texts_tell(c: ColumnView, rows: Seq<usize>, i: int, k: int)
    requires
        is_int_type(c.column_type()),
        days_differ(c, rows),
        0 <= i < rows.len(),
        0 <= k < rows.len(),
        col_shown(c, rows[i] as int) is Ok,
        col_shown(c, rows[k] as int) is Ok,
    ensures
        col_shown(c, rows[i] as int) == col_shown(c, rows[k] as int) <==> col_int(
            c,
            rows[i] as int,
        ) == col_int(c, rows[k] as int),
        yields(key_text(c, col_int(c, rows[i] as int)), col_shown(c, rows[i] as int)->Ok_0),
{
    let a = col_int(c, rows[i] as int);
    let b = col_int(c, rows[k] as int);
    if !(c is Date) && decimal(a as int) == decimal(b as int) {
        law_decimal_injective(a as int, b as int);
    }
}

/// The texts of the keys of a row that is grouped by two integer columns.
proof fn lemma_pair_parts(
    t: Table,
    q: ParsedQuery,
    rows: Seq<usize>,
    out: Seq<Seq<CellView>>,
    c1: ColumnView,
    c2: ColumnView,
    i: int,
)
    requires
        plain_rows(t, q, rows, out),
        q.group_by@.len() == 2,
        groups_column(t, q, 0, c1),
        groups_column(t, q, 1, c2),
        0 <= i < rows.len(),
    ensures
        ({
            let key = keyed(t, q, rows).0[i];
            &&& keyed(t, q, rows).0.len() == rows.len()
            &&& key.len() == 2
            &&& yields(col_shown(c1, rows[i] as int), key[0])
            &&& yields(col_shown(c2, rows[i] as int), key[1])
        }),
{
    let key = keyed(t, q, rows).0[i];
    lemma_key_parts(t, q, rows, out, i);
    assert(key_part(t, q, rows[i] as int, 0, key[0]));
    assert(key_part(t, q, rows[i] as int, 1, key[1]));
    lemma_named_part(t, q, rows[i] as int, 0, c1, key[0]);
    lemma_named_part(t, q, rows[i] as int, 1, c2, key[1]);
}

/// The packed keys of two columns are the same just where their texts are.
proof fn lemma_pair_agree(
    t: Table,
    q: ParsedQuery,
    rows: Seq<usize>,
    out: Seq<Seq<CellView>>,
    c1: ColumnView,
    c2: ColumnView,
)
    requires
        plain_rows(t, q, rows, out),
        q.group_by@.len() == 2,
        groups_column(t, q, 0, c1),
        groups_column(t, q, 1, c2),
        is_int_type(c1.column_type()),
        is_int_type(c2.column_type()),
        days_differ(c1, rows),
        days_differ(c2, rows),
    ensures
        agree(pair_keys(c1, c2, rows), keyed(t, q, rows).0),
        forall|i: int|
            0 <= i < rows.len() ==> yields(
                pair_texts(c1, c2, #[trigger] pair_keys(c1, c2, rows)[i]),
                (keyed(t, q, rows).0[i][0], keyed(t, q, rows).0[i][1]),
            ),
{
    let keys = pair_keys(c1, c2, rows);
    let all = keyed(t, q, rows).0;
    lemma_plain_keyed(t, q, rows, out);
    assert forall|i: int, k: int| 0 <= i < keys.len() && 0 <= k < keys.len() implies (
    #[trigger] keys[i] == #[trigger] keys[k] <==> all[i] == all[k]) by {
        lemma_pair_parts(t, q, rows, out, c1, c2, i);
        lemma_pair_parts(t, q, rows, out, c1, c2, k);
        lemma_texts_tell(c1, rows, i, k);
        lemma_texts_tell(c2, rows, i, k);
        let a = col_int(c1, rows[i] as int);
        let b = col_int(c2, rows[i] as int);
        let c = col_int(c1, rows[k] as int);
        let d = col_int(c2, rows[k] as int);
        assert(keys[i] == pair_key(a, b) && keys[k] == pair_key(c, d));
        if keys[i] == keys[k] {
            law_pair_injective(a, b, c, d);
            assert(all[i] =~= all[k]);
        }
    }
    assert forall|i: int| 0 <= i < rows.len() implies yields(
        pair_texts(c1, c2, #[trigger] keys[i]),
        (all[i][0], all[i][1]),
    ) by {
        lemma_pair_parts(t, q, rows, out, c1, c2, i);
        lemma_texts_tell(c1, rows, i, i);
        lemma_texts_tell(c2, rows, i, i);
        law_pair_unpacks(col_int(c1, rows[i] as int), col_int(c2, rows[i] as int));
    }
}

/// The rows of pairs are those of some of the groups.
proof fn lemma_pair_rows_each(
    c1: ColumnView,
    c2: ColumnView,
    keys: Seq<u128>,
    numbers: Seq<usize>,
)
    requires
        pair_rows(c1, c2, keys, numbers) is Ok,
    ensures
        ({
            let out = pair_rows(c1, c2, keys, numbers)->Ok_0;
            &&& out.len() == numbers.len()
            &&& forall|p: int|
                0 <= p < out.len() ==> pair_shown(
                    c1,
                    c2,
                    keys,
                    numbers[p] as int,
                    #[trigger] out[p],
                )
        }),
    decreases numbers.len(),
{
    if numbers.len() > 0 {
        let short = numbers.drop_last();
        lemma_pair_rows_each(c1, c2, keys, short);
        let front = pair_rows(c1, c2, keys, short)->Ok_0;
        let out = pair_rows(c1, c2, keys, numbers)->Ok_0;
        assert forall|p: int| 0 <= p < out.len() implies pair_shown(
            c1,
            c2,
            keys,
            numbers[p] as int,
            #[trigger] out[p],
        ) by {
            if p < front.len() {
                assert(out[p] == front[p]);
                assert(short[p] == numbers[p]);
            }
        }
    }
}

/// Whether a row is that of a group of pairs: the key and its count.
pub open spec fn pair_shown(
    c1: ColumnView,
    c2: ColumnView,
    keys: Seq<u128>,
    g: int,
    row: Seq<CellView>,
) -> bool {
    match pair_texts(c1, c2, first_seen(keys)[g]) {
        Err(_) => false,
        Ok((a, b)) => row == seq![shown(a), shown(b), counted(tallied(keys)[g] as int)],
    }
}

/// A row with two keys and a count shows the group of a row.
proof fn lemma_pair_row_plain(
    t: Table,
    q: ParsedQuery,
    rows: Seq<usize>,
    out: Seq<Seq<CellView>>,
    c1: ColumnView,
    c2: ColumnView,
    g: int,
    row: Seq<CellView>,
)
    requires
        plain_rows(t, q, rows, out),
        rows.len() <= usize::MAX,
        q.group_by@.len() == 2,
        shows_counts(q),
        agree(pair_keys(c1, c2, rows), keyed(t, q, rows).0),
        forall|i: int|
            0 <= i < rows.len() ==> yields(
                pair_texts(c1, c2, #[trigger] pair_keys(c1, c2, rows)[i]),
                (keyed(t, q, rows).0[i][0], keyed(t, q, rows).0[i][1]),
            ),
        0 <= g < first_seen(pair_keys(c1, c2, rows)).len(),
        pair_shown(c1, c2, pair_keys(c1, c2, rows), g, row),
    ensures
        out.contains(row),
        out.len() == first_seen(pair_keys(c1, c2, rows)).len(),
        out[g] == row,
{
    let keys = pair_keys(c1, c2, rows);
    let i = lemma_first_place(keys, g);
    lemma_agree(keys, keyed(t, q, rows).0, i, Seq::empty());
    lemma_occurrences(keys, keys[i]);
    lemma_count_cell(t, q, rows, i, 2);
    assert(group_cells(t, q, rows, i, row));
    lemma_plain_shows(t, q, rows, out, i, row);
    lemma_group_is(t, q, rows, out, keys, g, i, row);
}

proof fn lemma_pair_numbers(q: ParsedQuery, keys: Seq<u128>)
    requires
        keys.len() <= usize::MAX,
    ensures
        forall|p: int|
            0 <= p < top_pair_numbers(q, keys).len() ==> (#[trigger] top_pair_numbers(q, keys)[p])
                < first_seen(keys).len(),
{
    lemma_first_seen_distinct(keys);
    lemma_top(
        by_count_and_pair(tallied(keys), first_seen(keys)),
        tallied(keys).len(),
        query_limit(q),
        query_offset(q),
    );
}

proof fn lemma_pair_counts_plain(
    t: Table,
    q: ParsedQuery,
    rows: Seq<usize>,
    out: Seq<Seq<CellView>>,
    c1: ColumnView,
    c2: ColumnView,
    r: ResultView,
)
    requires
        plain_rows(t, q, rows, out),
        rows.len() <= usize::MAX,
        q.group_by@.len() == 2,
        shows_counts(q),
        groups_column(t, q, 0, c1),
        groups_column(t, q, 1, c2),
        is_int_type(c1.column_type()),
        is_int_type(c2.column_type()),
        days_differ(c1, rows),
        days_differ(c2, rows),
        yields(pair_counts(q, c1, c2, rows), Some(r)),
    ensures
        among(r.rows, out),
        is_best_page(q, r.rows, out, 2),
{
    let keys = pair_keys(c1, c2, rows);
    lemma_pair_agree(t, q, rows, out, c1, c2);
    lemma_first_seen_distinct(keys);
    let numbers = if wants_top(q) {
        top_pair_numbers(q, keys)
    } else {
        all_numbers(first_seen(keys).len())
    };
    lemma_pair_numbers(q, keys);
    lemma_pair_rows_each(c1, c2, keys, numbers);
    let all = pair_rows(c1, c2, keys, numbers)->Ok_0;
    assert forall|p: int| 0 <= p < all.len() implies out.contains(#[trigger] all[p]) && all[p]
        == out[numbers[p] as int] by {
        assert(numbers[p] < first_seen(keys).len());
        lemma_pair_row_plain(t, q, rows, out, c1, c2, numbers[p] as int, all[p]);
    }
    lemma_groups_len(t, q, rows, out, keys);
    assert forall|g: int| 0 <= g < out.len() implies (#[trigger] out[g])[2] == counted(
        tallied(keys)[g] as int,
    ) by {
        lemma_count_shown(t, q, rows, out, keys, g);
    }
    if wants_top(q) {
        lemma_top_pairs_page(q, keys, all, out, 2);
    } else {
        lemma_sorted_among(q, tallied(keys), all, out);
        assert(all =~= out);
        lemma_count_sorted_page(q, tallied(keys), out, 2);
    }
}

/// The columns that rows are counted by.
proof fn lemma_pair_count(t: Table, q: ParsedQuery, n: nat, rows: Seq<usize>, r: ResultView) -> (c: (
    ColumnView,
    ColumnView,
))
    requires
        as_declared(t),
        yields(chosen(t, q, n), Some(rows)),
        yields(pair_count_result(t, q, n), Some(r)),
    ensures
        q.group_by@.len() == 2,
        shows_counts(q),
        groups_column(t, q, 0, c.0),
        groups_column(t, q, 1, c.1),
        is_int_type(c.0.column_type()),
        is_int_type(c.1.column_type()),
        yields(pair_counts(q, c.0, c.1, rows), Some(r)),
{
    let a = group_name(q.group_by@[0], q)->Some_0;
    let b = group_name(q.group_by@[1], q)->Some_0;
    assert(t.has(a) && t.has(b));
    (column_of(t, a)->Ok_0, column_of(t, b)->Ok_0)
}

/// Whether the days of the date columns that a query groups by are written differently on
/// rows where they are different.
pub open spec fn key_days_differ(t: Table, q: ParsedQuery, rows: Seq<usize>) -> bool {
    forall|j: int, c: ColumnView|
        0 <= j < q.group_by@.len() && #[trigger] groups_column(t, q, j, c) ==> days_differ(c, rows)
}

/// What counts rows by two integer columns shows rows of plain grouping.
pub proof fn law_pair_count_plain(
    t: Table,
    q: ParsedQuery,
    n: nat,
    rows: Seq<usize>,
    out: Seq<Seq<CellView>>,
    r: ResultView,
)
    requires
        as_declared(t),
        yields(chosen(t, q, n), Some(rows)),
        rows.len() <= usize::MAX,
        key_days_differ(t, q, rows),
        yields(pair_count_result(t, q, n), Some(r)),
        plain_rows(t, q, rows, out),
    ensures
        among(r.rows, out),
        is_best_page(q, r.rows, out, 2),
{
    let (c1, c2) = lemma_pair_count(t, q, n, rows, r);
    lemma_pair_counts_plain(t, q, rows, out, c1, c2, r);
}

/// The rows of pairs with a sum and an average are those of some of the groups.
proof fn lemma_aggs_rows_each(cols: PairColumns, rows: Seq<usize>, numbers: Seq<usize>)
    requires
        cols.rows(rows, numbers) is Ok,
    ensures
        ({
            let out = cols.rows(rows, numbers)->Ok_0;
            &&& out.len() == numbers.len()
            &&& forall|p: int|
                0 <= p < out.len() ==> yields(cols.row(rows, numbers[p] as int), #[trigger] out[p])
        }),
    decreases numbers.len(),
{
    if numbers.len() > 0 {
        let short = numbers.drop_last();
        lemma_aggs_rows_each(cols, rows, short);
        let front = cols.rows(rows, short)->Ok_0;
        let out = cols.rows(rows, numbers)->Ok_0;
        assert forall|p: int| 0 <= p < out.len() implies yields(
            cols.row(rows, numbers[p] as int),
            #[trigger] out[p],
        ) by {
            if p < front.len() {
                assert(out[p] == front[p]);
                assert(short[p] == numbers[p]);
            }
        }
    }
}

/// Whether the columns are those that a query groups by, sums and averages.
pub open spec fn pair_columns(t: Table, q: ParsedQuery, cols: PairColumns) -> bool {
    &&& pair_form(q)
    &&& groups_column(t, q, 0, cols.first)
    &&& groups_column(t, q, 1, cols.second)
    &&& is_int_type(cols.first.column_type())
    &&& is_int_type(cols.second.column_type())
    &&& column_name(q.select_items@[3].kind->Sum_0) is Some
    &&& yields(column_of(t, column_name(q.select_items@[3].kind->Sum_0)->Some_0), cols.summed)
    &&& column_name(q.select_items@[4].kind->Avg_0) is Some
    &&& yields(column_of(t, column_name(q.select_items@[4].kind->Avg_0)->Some_0), cols.averaged)
}

/// A row with two keys, a count, a sum and an average shows the group of a row.
proof fn lemma_aggs_cells(
    t: Table,
    q: ParsedQuery,
    rows: Seq<usize>,
    cols: PairColumns,
    i: int,
    want: Seq<CellView>,
)
    requires
        pair_columns(t, q, cols),
        keyed(t, q, rows).0.len() == rows.len(),
        0 <= i < rows.len(),
        ({
            let keys = keyed(t, q, rows).0;
            let count = occurrences(keys, keys[i]);
            want == seq![
                shown(keys[i][0]),
                shown(keys[i][1]),
                counted(count as int),
                counted(sum_at(keys, row_ints(cols.summed, rows), keys[i])),
                CellView::Ratio {
                    sum: sum_at(keys, row_ints(cols.averaged, rows), keys[i]),
                    count,
                },
            ]
        }),
    ensures
        group_cells(t, q, rows, i, want),
{
    lemma_count_cell(t, q, rows, i, 2);
    lemma_column_ints(t, q.select_items@[3].kind->Sum_0, rows, cols.summed);
    lemma_sum_cell(t, q, rows, i, 3, row_ints(cols.summed, rows));
    lemma_column_ints(t, q.select_items@[4].kind->Avg_0, rows, cols.averaged);
    lemma_average_cell(t, q, rows, i, 4, row_ints(cols.averaged, rows));
}

proof fn lemma_aggs_row_plain(
    t: Table,
    q: ParsedQuery,
    rows: Seq<usize>,
    out: Seq<Seq<CellView>>,
    cols: PairColumns,
    g: int,
    row: Seq<CellView>,
)
    requires
        plain_rows(t, q, rows, out),
        rows.len() <= usize::MAX,
        pair_columns(t, q, cols),
        cols.numeric(),
        agree(cols.keys(rows), keyed(t, q, rows).0),
        forall|i: int|
            0 <= i < rows.len() ==> yields(
                pair_texts(cols.first, cols.second, #[trigger] cols.keys(rows)[i]),
                (keyed(t, q, rows).0[i][0], keyed(t, q, rows).0[i][1]),
            ),
        0 <= g < first_seen(cols.keys(rows)).len(),
        yields(cols.row(rows, g), row),
    ensures
        out.contains(row),
        out[g] == row,
{
    let keys = cols.keys(rows);
    let i = lemma_first_place(keys, g);
    lemma_agree(keys, keyed(t, q, rows).0, i, row_ints(cols.summed, rows));
    lemma_agree(keys, keyed(t, q, rows).0, i, row_ints(cols.averaged, rows));
    lemma_occurrences(keys, keys[i]);
    lemma_aggs_cells(t, q, rows, cols, i, row);
    lemma_plain_shows(t, q, rows, out, i, row);
    lemma_group_is(t, q, rows, out, keys, g, i, row);
}

proof fn lemma_pair_answer_plain(
    t: Table,
    q: ParsedQuery,
    rows: Seq<usize>,
    out: Seq<Seq<CellView>>,
    cols: PairColumns,
    a: AnswerView,
)
    requires
        plain_rows(t, q, rows, out),
        rows.len() <= usize::MAX,
        pair_columns(t, q, cols),
        cols.numeric(),
        days_differ(cols.first, rows),
        days_differ(cols.second, rows),
        yields(cols.answer(q, rows), Some(a)),
    ensures
        among(answer_rows(a), out),
        match a {
            AnswerView::Done(r) => is_best_page(q, r.rows, out, 2),
            AnswerView::Sort(u) => u == to_sort(q, out),
        },
{
    let keys = cols.keys(rows);
    lemma_pair_agree(t, q, rows, out, cols.first, cols.second);
    lemma_first_seen_distinct(keys);
    let numbers = if wants_top(q) {
        top_pair_numbers(q, keys)
    } else {
        all_numbers(first_seen(keys).len())
    };
    lemma_pair_numbers(q, keys);
    lemma_aggs_rows_each(cols, rows, numbers);
    let all = cols.rows(rows, numbers)->Ok_0;
    lemma_groups_len(t, q, rows, out, keys);
    assert forall|p: int| 0 <= p < all.len() implies out.contains(#[trigger] all[p]) && all[p]
        == out[numbers[p] as int] by {
        assert(numbers[p] < first_seen(keys).len());
        lemma_aggs_row_plain(t, q, rows, out, cols, numbers[p] as int, all[p]);
    }
    assert(answer_rows(a) == all);
    if wants_top(q) {
        assert forall|g: int| 0 <= g < out.len() implies (#[trigger] out[g])[2] == counted(
            tallied(keys)[g] as int,
        ) by {
            lemma_count_shown(t, q, rows, out, keys, g);
        }
        lemma_top_pairs_page(q, keys, all, out, 2);
    } else {
        assert(all =~= out);
    }
}

/// Whether the columns that a query sums and averages hold numbers.
pub open spec fn sums_numbers(t: Table, q: ParsedQuery) -> bool {
    forall|cols: PairColumns| #[trigger] pair_columns(t, q, cols) ==> cols.numeric()
}

/// The columns that rows are grouped by, summed and averaged.
proof fn lemma_pair_aggs(t: Table, q: ParsedQuery, n: nat, rows: Seq<usize>, a: AnswerView) -> (cols:
    PairColumns)
    requires
        as_declared(t),
        yields(chosen(t, q, n), Some(rows)),
        yields(pair_aggs_answer(t, q, n), Some(a)),
    ensures
        pair_columns(t, q, cols),
        yields(cols.answer(q, rows), Some(a)),
{
    let first = group_name(q.group_by@[0], q)->Some_0;
    let second = group_name(q.group_by@[1], q)->Some_0;
    assert(t.has(first) && t.has(second));
    let items = q.select_items@;
    assert(items.last() == items[4]);
    assert(items.drop_last().last() == items[3]);
    reveal_with_fuel(sum_column, 3);
    let (s, v) = sum_avg_columns(items)->Some_0;
    PairColumns {
        first: column_of(t, first)->Ok_0,
        second: column_of(t, second)->Ok_0,
        summed: column_of(t, s)->Ok_0,
        averaged: column_of(t, v)->Ok_0,
    }
}

/// What groups by two integer columns, with a count, a sum and an average of numbers, shows
/// rows of plain grouping.
pub proof fn law_pair_sums_plain(
    t: Table,
    q: ParsedQuery,
    n: nat,
    rows: Seq<usize>,
    out: Seq<Seq<CellView>>,
    a: AnswerView,
)
    requires
        as_declared(t),
        yields(chosen(t, q, n), Some(rows)),
        rows.len() <= usize::MAX,
        key_days_differ(t, q, rows),
        sums_numbers(t, q),
        yields(pair_aggs_answer(t, q, n), Some(a)),
        plain_rows(t, q, rows, out),
    ensures
        among(answer_rows(a), out),
        match a {
            AnswerView::Done(r) => is_best_page(q, r.rows, out, 2),
            AnswerView::Sort(u) => u == to_sort(q, out),
        },
{
    let cols = lemma_pair_aggs(t, q, n, rows, a);
    assert(groups_column(t, q, 0, cols.first));
    assert(groups_column(t, q, 1, cols.second));
    lemma_pair_answer_plain(t, q, rows, out, cols, a);
}

/// The text of a key that can be packed is the numeral of its number.
proof fn lemma_quad_part(t: Table, q: ParsedQuery, row: int, j: int)
    requires
        as_declared(t),
        quad_part(t, resolved(q.group_by@[j], q.select_items@)),
        quad_value(t, resolved(q.group_by@[j], q.select_items@), row) is Some,
    ensures
        key_part(
            t,
            q,
            row,
            j,
            decimal(
                quad_value(t, resolved(q.group_by@[j], q.select_items@), row)->Some_0 as int,
            ),
        ),
{
    reveal(key_part);
    reveal_with_fuel(quad_value, 2);
    reveal_with_fuel(int_of, 2);
    match resolved(q.group_by@[j], q.select_items@) {
        Expr::Identifier(s) => {
            assert(t.has(s@));
        },
        _ => {},
    }
}

/// The numbers that are packed are those of the keys.
proof fn lemma_quad_values_each(t: Table, q: ParsedQuery, row: int, n: nat)
    requires
        quad_values(t, q, row, n) is Some,
    ensures
        quad_values(t, q, row, n)->Some_0.len() == n,
        forall|j: int|
            0 <= j < n ==> quad_value(t, resolved(q.group_by@[j], q.select_items@), row) == Some(
                #[trigger] quad_values(t, q, row, n)->Some_0[j],
            ),
    decreases n,
{
    if n > 0 {
        lemma_quad_values_each(t, q, row, (n - 1) as nat);
        let front = quad_values(t, q, row, (n - 1) as nat)->Some_0;
        let all = quad_values(t, q, row, n)->Some_0;
        assert forall|j: int| 0 <= j < n implies quad_value(
            t,
            resolved(q.group_by@[j], q.select_items@),
            row,
        ) == Some(#[trigger] all[j]) by {
            if j < n - 1 {
                assert(all[j] == front[j]);
            }
        }
    }
}

/// The numbers in the packed key of a row are those that were packed.
proof fn lemma_quad_key(t: Table, q: ParsedQuery, row: int)
    requires
        q.group_by@.len() == 4,
        quad_key(t, q, row) is Some,
    ensures
        quad_values(t, q, row, 4) == Some(quad_numbers(quad_key(t, q, row)->Some_0)),
        quad_key(t, q, row) == Some(packed(quad_numbers(quad_key(t, q, row)->Some_0))),
{
    lemma_quad_values_each(t, q, row, 4);
    let v = quad_values(t, q, row, 4)->Some_0;
    assert(i32::MIN <= v[0] <= i32::MAX && i32::MIN <= v[1] <= i32::MAX && i32::MIN <= v[2]
        <= i32::MAX && i32::MIN <= v[3] <= i32::MAX);
    law_quarters_unpack(v[0] as i32, v[1] as i32, v[2] as i32, v[3] as i32);
    assert(v =~= seq![
        (v[0] as i32) as i64,
        (v[1] as i32) as i64,
        (v[2] as i32) as i64,
        (v[3] as i32) as i64,
    ]);
    assert(quad_numbers(packed(v)) =~= v);
}

/// Each row has its packed key.
proof fn lemma_quad_keys_each(t: Table, q: ParsedQuery, rows: Seq<usize>)
    requires
        quad_keys(t, q, rows) is Some,
    ensures
        quad_keys(t, q, rows)->Some_0.len() == rows.len(),
        forall|i: int|
            0 <= i < rows.len() ==> quad_key(t, q, rows[i] as int) == Some(
                #[trigger] quad_keys(t, q, rows)->Some_0[i],
            ),
    decreases rows.len(),
{
    if rows.len() > 0 {
        let short = rows.drop_last();
        lemma_quad_keys_each(t, q, short);
        let front = quad_keys(t, q, short)->Some_0;
        let all = quad_keys(t, q, rows)->Some_0;
        assert forall|i: int| 0 <= i < rows.len() implies quad_key(t, q, rows[i] as int) == Some(
            #[trigger] all[i],
        ) by {
            if i < rows.len() - 1 {
                assert(all[i] == front[i]);
                assert(short[i] == rows[i]);
            }
        }
    }
}

/// The texts of the keys of a row are the numerals of the numbers in its packed key.
proof fn lemma_quad_texts(
    t: Table,
    q: ParsedQuery,
    rows: Seq<usize>,
    out: Seq<Seq<CellView>>,
    i: int,
)
    requires
        as_declared(t),
        plain_rows(t, q, rows, out),
        q.group_by@.len() == 4,
        groups_quad(t, q),
        0 <= i < rows.len(),
        quad_key(t, q, rows[i] as int) is Some,
    ensures
        keyed(t, q, rows).0.len() == rows.len(),
        keyed(t, q, rows).0[i].len() == 4,
        forall|j: int|
            0 <= j < 4 ==> #[trigger] keyed(t, q, rows).0[i][j] == decimal(
                quad_numbers(quad_key(t, q, rows[i] as int)->Some_0)[j] as int,
            ),
{
    let row = rows[i] as int;
    let key = keyed(t, q, rows).0[i];
    let numbers = quad_numbers(quad_key(t, q, row)->Some_0);
    lemma_key_parts(t, q, rows, out, i);
    lemma_quad_key(t, q, row);
    lemma_quad_values_each(t, q, row, 4);
    assert forall|j: int| 0 <= j < 4 implies #[trigger] key[j] == decimal(numbers[j] as int) by {
        assert(quad_part(t, resolved(q.group_by@[j], q.select_items@)));
        let v = quad_values(t, q, row, 4)->Some_0[j];
        lemma_quad_part(t, q, row, j);
        assert(key_part(t, q, row, j, key[j]));
        lemma_one_part(t, q, row, j, key[j], decimal(v as int));
    }
}

/// The packed keys of four integers are the same just where their texts are.
proof fn lemma_quad_agree(
    t: Table,
    q: ParsedQuery,
    rows: Seq<usize>,
    out: Seq<Seq<CellView>>,
    keys: Seq<u128>,
)
    requires
        as_declared(t),
        plain_rows(t, q, rows, out),
        q.group_by@.len() == 4,
        groups_quad(t, q),
        quad_keys(t, q, rows) == Some(keys),
    ensures
        agree(keys, keyed(t, q, rows).0),
{
    let all = keyed(t, q, rows).0;
    lemma_plain_keyed(t, q, rows, out);
    lemma_quad_keys_each(t, q, rows);
    assert forall|i: int, k: int| 0 <= i < keys.len() && 0 <= k < keys.len() implies (
    #[trigger] keys[i] == #[trigger] keys[k] <==> all[i] == all[k]) by {
        assert(quad_key(t, q, rows[i] as int) == Some(quad_keys(t, q, rows)->Some_0[i]));
        assert(quad_key(t, q, rows[k] as int) == Some(quad_keys(t, q, rows)->Some_0[k]));
        lemma_quad_texts(t, q, rows, out, i);
        lemma_quad_texts(t, q, rows, out, k);
        lemma_quad_key(t, q, rows[i] as int);
        lemma_quad_key(t, q, rows[k] as int);
        let a = quad_numbers(keys[i]);
        let b = quad_numbers(keys[k]);
        if keys[i] == keys[k] {
            assert forall|j: int| 0 <= j < 4 implies all[i][j] == all[k][j] by {}
            assert(all[i] =~= all[k]);
        }
        if all[i] == all[k] {
            assert forall|j: int| 0 <= j < 4 implies a[j] == b[j] by {
                assert(all[i][j] == all[k][j]);
                law_decimal_injective(a[j] as int, b[j] as int);
            }
            assert(a =~= b);
        }
    }
}

proof fn lemma_quad_row_plain(
    t: Table,
    q: ParsedQuery,
    rows: Seq<usize>,
    out: Seq<Seq<CellView>>,
    keys: Seq<u128>,
    g: int,
)
    requires
        as_declared(t),
        plain_rows(t, q, rows, out),
        rows.len() <= usize::MAX,
        q.group_by@.len() == 4,
        shows_counts(q),
        groups_quad(t, q),
        quad_keys(t, q, rows) == Some(keys),
        agree(keys, keyed(t, q, rows).0),
        0 <= g < first_seen(keys).len(),
    ensures
        out.contains(quad_row(first_seen(keys)[g], tallied(keys)[g])),
        out[g] == quad_row(first_seen(keys)[g], tallied(keys)[g]),
{
    let i = lemma_first_place(keys, g);
    let want = quad_row(first_seen(keys)[g], tallied(keys)[g]);
    lemma_quad_keys_each(t, q, rows);
    assert(quad_key(t, q, rows[i] as int) == Some(quad_keys(t, q, rows)->Some_0[i]));
    lemma_quad_texts(t, q, rows, out, i);
    lemma_agree(keys, keyed(t, q, rows).0, i, Seq::empty());
    lemma_occurrences(keys, keys[i]);
    lemma_count_cell(t, q, rows, i, 4);
    assert(group_cells(t, q, rows, i, want));
    lemma_plain_shows(t, q, rows, out, i, want);
    lemma_group_is(t, q, rows, out, keys, g, i, want);
}

proof fn lemma_quads_plain(
    t: Table,
    q: ParsedQuery,
    rows: Seq<usize>,
    out: Seq<Seq<CellView>>,
    keys: Seq<u128>,
)
    requires
        as_declared(t),
        plain_rows(t, q, rows, out),
        rows.len() <= usize::MAX,
        q.group_by@.len() == 4,
        shows_counts(q),
        groups_quad(t, q),
        quad_keys(t, q, rows) == Some(keys),
    ensures
        among(quads_counted(q, keys).rows, out),
        is_best_page(q, quads_counted(q, keys).rows, out, 4),
{
    lemma_quad_agree(t, q, rows, out, keys);
    let all = quad_rows(first_seen(keys), tallied(keys));
    lemma_groups_len(t, q, rows, out, keys);
    assert forall|g: int| 0 <= g < all.len() implies out.contains(#[trigger] all[g]) && all[g]
        == out[g] by {
        lemma_quad_row_plain(t, q, rows, out, keys, g);
    }
    assert(all =~= out);
    assert forall|g: int| 0 <= g < out.len() implies (#[trigger] out[g])[4] == counted(
        tallied(keys)[g] as int,
    ) by {
        lemma_count_shown(t, q, rows, out, keys, g);
    }
    lemma_plain_keyed(t, q, rows, out);
    lemma_first_seen_distinct(keys);
    if wants_top(q) {
        lemma_pair_numbers(q, keys);
        let numbers = top_pair_numbers(q, keys);
        let picked = quads_counted(q, keys).rows;
        assert forall|p: int| 0 <= p < picked.len() implies out.contains(#[trigger] picked[p]) by {
            assert(numbers[p] < first_seen(keys).len());
            assert(picked[p] == all[numbers[p] as int]);
        }
        lemma_top_pairs_page(q, keys, picked, out, 4);
    } else {
        lemma_sorted_among(q, tallied(keys), all, out);
        lemma_count_sorted_page(q, tallied(keys), out, 4);
    }
}

/// The packed keys that rows are counted by.
proof fn lemma_quad_count(t: Table, q: ParsedQuery, n: nat, rows: Seq<usize>, r: ResultView) -> (keys:
    Seq<u128>)
    requires
        yields(chosen(t, q, n), Some(rows)),
        yields(int4_result(t, q, n), Some(r)),
    ensures
        q.group_by@.len() == 4,
        shows_counts(q),
        groups_quad(t, q),
        quad_keys(t, q, rows) == Some(keys),
        r == quads_counted(q, keys),
{
    quad_keys(t, q, rows)->Some_0
}

/// What counts rows by four integers shows rows of plain grouping.
pub proof fn law_quad_count_plain(
    t: Table,
    q: ParsedQuery,
    n: nat,
    rows: Seq<usize>,
    out: Seq<Seq<CellView>>,
    r: ResultView,
)
    requires
        as_declared(t),
        yields(chosen(t, q, n), Some(rows)),
        rows.len() <= usize::MAX,
        yields(int4_result(t, q, n), Some(r)),
        plain_rows(t, q, rows, out),
    ensures
        among(r.rows, out),
        is_best_page(q, r.rows, out, 4),
{
    let keys = lemma_quad_count(t, q, n, rows, r);
    lemma_quads_plain(t, q, rows, out, keys);
}

/// An address can be read back from its form without a sign, and its predecessors are
/// what they are packed as.
proof fn lemma_ip_numbers(ip: i32)
    requires
        ip >= i32::MIN + 3,
    ensures
        signed_ip(unsigned_ip(ip)) == ip,
        quad_numbers(ip_quad(ip)) == seq![
            ip as i64,
            (ip - 1) as i64,
            (ip - 2) as i64,
            (ip - 3) as i64,
        ],
{
    law_quad_unpacks(ip);
    let u = ip as u32;
    assert(u == if ip >= 0 {
        ip as int
    } else {
        ip + 0x1_0000_0000
    }) by (bit_vector)
        requires
            u == ip as u32,
    ;
    let k = unsigned_ip(ip);
    assert(k == u);
    assert((k as u32) as i32 == ip) by (bit_vector)
        requires
            k == u as u128,
            u == ip as u32,
    ;
    assert forall|v: u32| (#[trigger] (v as i32)) == if v < 0x8000_0000 {
        v as int
    } else {
        v - 0x1_0000_0000
    } by {
        assert((v as i32) == if v < 0x8000_0000 {
            v as int
        } else {
            v - 0x1_0000_0000
        }) by (bit_vector);
    }
    assert((less_by(ip, 1) as i32) == ip - 1);
    assert((less_by(ip, 2) as i32) == ip - 2);
    assert((less_by(ip, 3) as i32) == ip - 3);
}

/// Without a condition all rows are selected.
pub proof fn lemma_all_selected(n: nat)
    requires
        n <= usize::MAX,
    ensures
        selected(Seq::new(n, |i: int| true)) == all_numbers(n),
    decreases n,
{
    let mask = Seq::new(n, |i: int| true);
    if n > 0 {
        lemma_all_selected((n - 1) as nat);
        assert(mask.drop_last() =~= Seq::new((n - 1) as nat, |i: int| true));
        assert(selected(mask) =~= all_numbers(n));
    } else {
        assert(selected(mask) =~= all_numbers(n));
    }
}

/// The text of an address less a number is the numeral of the difference.
proof fn lemma_ip_part(t: Table, q: ParsedQuery, row: int, j: int, ips: Seq<i32>, n: Seq<char>, by: i64)
    requires
        ip_less(resolved(q.group_by@[j], q.select_items@), n),
        parsed_i64(n) == Some(by),
        yields(i32s_of(t, "ClientIP"@), Some(ips)),
        i64::MIN <= ips[row] - by <= i64::MAX,
    ensures
        key_part(t, q, row, j, decimal(ips[row] - by)),
{
    reveal(key_part);
    reveal_with_fuel(int_of, 2);
}

/// The numerals of the numbers that are taken from an address.
proof fn lemma_small_numerals()
    ensures
        parsed_i64("1"@) == Some(1i64),
        parsed_i64("2"@) == Some(2i64),
        parsed_i64("3"@) == Some(3i64),
{
    reveal_strlit("1");
    reveal_strlit("2");
    reveal_strlit("3");
    reveal_with_fuel(digits_value, 2);
    assert("1"@.drop_last() =~= Seq::<char>::empty());
    assert("2"@.drop_last() =~= Seq::<char>::empty());
    assert("3"@.drop_last() =~= Seq::<char>::empty());
}

/// An address and its three predecessors, as texts.
pub open spec fn ip_texts(ip: i32) -> Seq<Seq<char>> {
    seq![
        decimal(ip as int),
        decimal(ip - 1),
        decimal(ip - 2),
        decimal(ip - 3),
    ]
}

/// The texts of an address and its predecessors are the keys of rows that are grouped by
/// these.
proof fn lemma_ip_keyed(t: Table, q: ParsedQuery, rows: Seq<usize>, ips: Seq<i32>)
    requires
        groups_ip_chain(q),
        yields(i32s_of(t, "ClientIP"@), Some(ips)),
    ensures
        text_keyed(t, q, rows, mapped(rows, |r: usize| ip_texts(ips[r as int]))),
{
    let keys = mapped(rows, |r: usize| ip_texts(ips[r as int]));
    lemma_small_numerals();
    assert forall|i: int| 0 <= i < rows.len() implies parts_of(
        t,
        q,
        rows[i] as int,
        #[trigger] keys[i],
    ) by {
        let row = rows[i] as int;
        lemma_named_part(t, q, row, 0, ColumnView::Int32(ips), keys[i][0]);
        lemma_ip_part(t, q, row, 1, ips, "1"@, 1);
        lemma_ip_part(t, q, row, 2, ips, "2"@, 2);
        lemma_ip_part(t, q, row, 3, ips, "3"@, 3);
    }
}

/// Addresses without their sign are the same just where the texts are.
proof fn lemma_ips_agree(ips: Seq<i32>, rows: Seq<usize>, n: nat)
    requires
        n <= usize::MAX,
        n <= ips.len(),
        rows == all_numbers(n),
        have_predecessors(ips, n),
    ensures
        agree(
            unsigned_ips(ips.take(n as int)),
            mapped(rows, |r: usize| ip_texts(ips[r as int])),
        ),
{
    let keys = unsigned_ips(ips.take(n as int));
    let all = mapped(rows, |r: usize| ip_texts(ips[r as int]));
    assert forall|i: int, k: int| 0 <= i < keys.len() && 0 <= k < keys.len() implies (
    #[trigger] keys[i] == #[trigger] keys[k] <==> all[i] == all[k]) by {
        lemma_ip_numbers(ips[i]);
        lemma_ip_numbers(ips[k]);
        assert(rows[i] == i && rows[k] == k);
        if all[i] == all[k] {
            assert(all[i][0] == all[k][0]);
            law_decimal_injective(ips[i] as int, ips[k] as int);
        }
    }
}

/// An address with its count is a row of plain grouping.
proof fn lemma_ip_row_plain(
    t: Table,
    q: ParsedQuery,
    out: Seq<Seq<CellView>>,
    ips: Seq<i32>,
    n: nat,
    i: int,
    key: u128,
    count: u64,
)
    requires
        plain_rows(t, q, all_numbers(n), out),
        n <= usize::MAX,
        n <= ips.len(),
        groups_ip_chain(q),
        shows_counts(q),
        yields(i32s_of(t, "ClientIP"@), Some(ips)),
        have_predecessors(ips, n),
        0 <= i < n,
        key == unsigned_ip(ips[i]),
        count == occurrences(unsigned_ips(ips.take(n as int)), key),
    ensures
        out.contains(quad_row(ip_quad(signed_ip(key)), count)),
{
    let rows = all_numbers(n);
    let keys = unsigned_ips(ips.take(n as int));
    let all = mapped(rows, |r: usize| ip_texts(ips[r as int]));
    lemma_ip_keyed(t, q, rows, ips);
    lemma_text_keyed(t, q, rows, out, all);
    lemma_ips_agree(ips, rows, n);
    lemma_agree(keys, all, i, Seq::empty());
    assert(keys[i] == key);
    lemma_ip_numbers(ips[i]);
    assert(parts_of(t, q, rows[i] as int, all[i]));
    lemma_count_row_plain(t, q, rows, out, i, count);
    assert(all[i] == ip_texts(ips[i]));
    assert(quad_row(ip_quad(signed_ip(key)), count) =~= with_count(all[i], count));
}

/// The most frequent addresses are addresses that there are, with their counts.
proof fn lemma_quad_top(ips: Seq<i32>, limit: usize, offset: usize, p: int) -> (i: int)
    requires
        ips.len() <= usize::MAX,
        0 <= p < quad_top(ips, limit, offset).len(),
    ensures
        0 <= i < ips.len(),
        quad_top(ips, limit, offset)[p] == (
            ip_quad(signed_ip(unsigned_ip(ips[i]))),
            occurrences(unsigned_ips(ips), unsigned_ip(ips[i])) as u64,
        ),
{
    let keys = unsigned_ips(ips);
    if quad_top(ips, limit, offset) == sorted_top(ips, limit, offset) {
        lemma_top_runs_count(keys, limit, offset, p);
        let run = top_runs(runs(sorted_keys(keys)), limit, offset)[p];
        let i = choose|i: int| 0 <= i < keys.len() && keys[i] == run.0;
        i
    } else {
        lemma_first_seen_distinct(keys);
        let rule = by_count_and_ip(tallied(keys), first_seen(keys));
        lemma_top(rule, tallied(keys).len(), limit, offset);
        let numbers = top(rule, tallied(keys).len(), limit, offset);
        assert(numbers[p] < tallied(keys).len());
        let i = lemma_first_place(keys, numbers[p] as int);
        i
    }
}

/// What counts all rows by the address and its predecessors shows rows of plain grouping.
pub proof fn law_ip_count_plain(
    t: Table,
    q: ParsedQuery,
    n: nat,
    rows: Seq<usize>,
    out: Seq<Seq<CellView>>,
    r: ResultView,
)
    requires
        n <= usize::MAX,
        t.holds_rows(n as int),
        yields(chosen(t, q, n), Some(rows)),
        yields(q36_result(t, q, n), Some(r)),
        plain_rows(t, q, rows, out),
    ensures
        among(r.rows, out),
{
    let ips = i32s_of(t, "ClientIP"@)->Ok_0->Some_0;
    lemma_all_selected(n);
    assert(rows == all_numbers(n));
    if n > 0 {
        assert(t.covers_row(n - 1));
        t.lemma_covers("ClientIP"@, n - 1);
    }
    let part = ips.take(n as int);
    let all = r.rows;
    assert forall|p: int| 0 <= p < all.len() implies out.contains(#[trigger] all[p]) by {
        let i = lemma_quad_top(part, limit_or_ten(q), query_offset(q), p);
        let key = unsigned_ip(ips[i]);
        lemma_occurrences(unsigned_ips(part), key);
        lemma_ip_row_plain(
            t,
            q,
            out,
            ips,
            n,
            i,
            key,
            occurrences(unsigned_ips(part), key) as u64,
        );
    }
}

} // verus!
