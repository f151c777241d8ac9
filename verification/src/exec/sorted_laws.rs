//! What is counted by the order of an integer column is rows of plain grouping.
use crate::error::yields;
use crate::exec::agg_sort::{run_counts, runs, sorted_keys};
use crate::exec::fast_agg::plain_ints;
use crate::exec::group_sorted::{
    cut_off, growing, growing_result, last_numbers, number_triples, numbers_counted, run_rows,
    sorted_result,
};
use crate::exec::hash::{first_seen, lemma_occurrences, occurrences};
use crate::exec::kernel::{
    chosen, count_sorted, group_name, i64s_of, mapped, shows_counts, with_count,
};
use crate::exec::kernel_rows::{
    among, groups_column, lemma_count_row_plain, lemma_one_column, lemma_run_count, lemma_runs_len,
    lemma_sorted_among,
};
use crate::exec::packed_laws::lemma_all_selected;
use crate::exec::page_laws::{
    is_best_page, lemma_group_is, lemma_groups_len, lemma_rearranged_count_sorted,
    lemma_runs_arrange,
};
use crate::exec::plain_rows::{
    agree, group_cells, lemma_count_cell, lemma_matching, lemma_text_keyed, matching, parts_of,
    plain_rows,
};
use crate::exec::result::{counted, query_limit, query_offset, CellView, ResultView};
use crate::exec::sorting::all_numbers;
use crate::expr::eval::{col_int, column_of};
use crate::sql::ast::ParsedQuery;
use crate::storage::column::ColumnView;
use crate::storage::table::Table;
use crate::text::{decimal, digits, law_decimal_injective};
use vstd::prelude::*;

verus! {

/// The numbers of a column on rows, as keys of texts.
pub open spec fn number_texts(c: ColumnView, rows: Seq<usize>) -> Seq<Seq<Seq<char>>> {
    mapped(rows, |r: usize| seq![decimal(col_int(c, r as int) as int)])
}

/// The numbers of a column are the same just where their texts are.
proof fn lemma_numbers_match(c: ColumnView, rows: Seq<usize>, i: int)
    requires
        0 <= i < rows.len(),
    ensures
        matching(
            number_triples(c, rows),
            number_triples(c, rows)[i],
            number_texts(c, rows),
            number_texts(c, rows)[i],
        ),
{
    let keys = number_triples(c, rows);
    let texts = number_texts(c, rows);
    assert forall|k: int| 0 <= k < keys.len() implies (#[trigger] keys[k] == keys[i] <==> texts[k]
        == texts[i]) by {
        if texts[k] == texts[i] {
            assert(texts[k][0] == texts[i][0]);
            law_decimal_injective(
                col_int(c, rows[k] as int) as int,
                col_int(c, rows[i] as int) as int,
            );
        }
        if keys[k] == keys[i] {
            assert(texts[k] =~= texts[i]);
        }
    }
}

/// Runs of numbers with their lengths are rows of plain grouping.
proof fn lemma_runs_plain(
    t: Table,
    q: ParsedQuery,
    rows: Seq<usize>,
    out: Seq<Seq<CellView>>,
    c: ColumnView,
)
    requires
        plain_rows(t, q, rows, out),
        rows.len() <= usize::MAX,
        q.group_by@.len() == 1,
        shows_counts(q),
        groups_column(t, q, 0, c),
        plain_ints(c),
    ensures
        among(numbers_counted(q, c, rows).rows, out),
        is_best_page(q, numbers_counted(q, c, rows).rows, out, 1),
{
    let keys = number_triples(c, rows);
    let texts = number_texts(c, rows);
    let r = runs(sorted_keys(keys));
    let all = run_rows(r);
    lemma_one_column(t, q, rows, c, texts);
    lemma_text_keyed(t, q, rows, out, texts);
    lemma_runs_len(keys);
    let places = lemma_runs_arrange(keys);
    assert(agree(keys, texts)) by {
        assert forall|i: int, k: int| 0 <= i < keys.len() && 0 <= k < keys.len() implies (
        #[trigger] keys[i] == #[trigger] keys[k] <==> texts[i] == texts[k]) by {
            lemma_numbers_match(c, rows, k);
        }
    }
    lemma_groups_len(t, q, rows, out, keys);
    assert forall|p: int| 0 <= p < all.len() implies out.contains(#[trigger] all[p]) && all[p]
        == out[places[p] as int] && all[p][1] == counted(run_counts(r)[p] as int) by {
        lemma_run_count(keys, p);
        let i = choose|i: int| 0 <= i < keys.len() && keys[i] == r[p].0;
        lemma_numbers_match(c, rows, i);
        lemma_matching(keys, keys[i], texts, texts[i], Seq::empty(), Seq::empty(), Seq::empty());
        assert(parts_of(t, q, rows[i] as int, texts[i]));
        lemma_count_row_plain(t, q, rows, out, i, r[p].1);
        assert(all[p] =~= with_count(texts[i], r[p].1));
        lemma_count_cell(t, q, rows, i, 1);
        assert(group_cells(t, q, rows, i, all[p]));
        assert(places[p] < first_seen(keys).len());
        lemma_group_is(t, q, rows, out, keys, places[p] as int, i, all[p]);
    }
    lemma_sorted_among(q, run_counts(r), all, out);
    lemma_rearranged_count_sorted(q, run_counts(r), all, out, places, 1);
}

/// The column that rows are counted by.
proof fn lemma_sorted_column(t: Table, q: ParsedQuery, n: nat, rows: Seq<usize>, r: ResultView) -> (c:
    ColumnView)
    requires
        yields(chosen(t, q, n), Some(rows)),
        yields(sorted_result(t, q, n), Some(r)),
    ensures
        q.group_by@.len() == 1,
        shows_counts(q),
        groups_column(t, q, 0, c),
        plain_ints(c),
        r == numbers_counted(q, c, rows),
{
    column_of(t, group_name(q.group_by@[0], q)->Some_0)->Ok_0
}

/// What counts rows by an integer column by sorting shows rows of plain grouping.
pub proof fn law_sorted_count_plain(
    t: Table,
    q: ParsedQuery,
    n: nat,
    rows: Seq<usize>,
    out: Seq<Seq<CellView>>,
    r: ResultView,
)
    requires
        yields(chosen(t, q, n), Some(rows)),
        rows.len() <= usize::MAX,
        yields(sorted_result(t, q, n), Some(r)),
        plain_rows(t, q, rows, out),
    ensures
        among(r.rows, out),
        is_best_page(q, r.rows, out, 1),
{
    let c = lemma_sorted_column(t, q, n, rows, r);
    lemma_runs_plain(t, q, rows, out, c);
}

/// A key that no other place has occurs once.
proof fn lemma_occurs_once<K>(keys: Seq<K>, i: int)
    requires
        0 <= i < keys.len(),
        forall|k: int| 0 <= k < keys.len() && k != i ==> keys[k] != keys[i],
    ensures
        occurrences(keys, keys[i]) == 1,
    decreases keys.len(),
{
    let front = keys.drop_last();
    if i < keys.len() - 1 {
        assert(keys.last() == keys[keys.len() - 1]);
        assert forall|k: int| 0 <= k < front.len() && k != i implies front[k] != front[i] by {
            assert(front[k] == keys[k]);
        }
        lemma_occurs_once(front, i);
    } else {
        lemma_occurrences(front, keys[i]);
        if front.contains(keys[i]) {
            let k = choose|k: int| 0 <= k < front.len() && front[k] == keys[i];
            assert(keys[k] == keys[i]);
        }
    }
}

/// The last numbers of a growing column, each once, are rows of plain grouping.
proof fn lemma_last_plain(
    t: Table,
    q: ParsedQuery,
    n: nat,
    out: Seq<Seq<CellView>>,
    v: Seq<i64>,
    count: nat,
)
    requires
        plain_rows(t, q, all_numbers(n), out),
        n <= usize::MAX,
        n <= v.len(),
        count <= n,
        q.group_by@.len() == 1,
        shows_counts(q),
        groups_column(t, q, 0, ColumnView::Int64(v)),
        growing(v),
    ensures
        among(last_numbers(v, n as int, count), out),
{
    let rows = all_numbers(n);
    let texts = number_texts(ColumnView::Int64(v), rows);
    let all = last_numbers(v, n as int, count);
    lemma_one_column(t, q, rows, ColumnView::Int64(v), texts);
    lemma_text_keyed(t, q, rows, out, texts);
    assert forall|p: int| 0 <= p < all.len() implies out.contains(#[trigger] all[p]) by {
        let i = n - 1 - p;
        assert forall|k: int| 0 <= k < texts.len() && k != i implies texts[k] != texts[i] by {
            assert(rows[k] == k && rows[i] == i);
            if texts[k] == texts[i] {
                assert(texts[k][0] == texts[i][0]);
                law_decimal_injective(v[k] as int, v[i] as int);
            }
        }
        lemma_occurs_once(texts, i);
        assert(parts_of(t, q, rows[i] as int, texts[i]));
        lemma_count_row_plain(t, q, rows, out, i, 1);
        reveal_strlit("1");
        assert(decimal(1) =~= "1"@) by {
            reveal_with_fuel(digits, 2);
        }
        assert(all[p] =~= with_count(texts[i], 1));
    }
}

/// What counts rows by a column whose numbers grow shows rows of plain grouping.
pub proof fn law_growing_count_plain(
    t: Table,
    q: ParsedQuery,
    n: nat,
    rows: Seq<usize>,
    out: Seq<Seq<CellView>>,
    r: ResultView,
)
    requires
        n <= usize::MAX,
        t.holds_rows(n as int),
        yields(chosen(t, q, n), Some(rows)),
        yields(growing_result(t, q, n), Some(r)),
        plain_rows(t, q, rows, out),
    ensures
        among(r.rows, out),
{
    let name = group_name(q.group_by@[0], q)->Some_0;
    let v = i64s_of(t, name)->Ok_0->Some_0;
    lemma_all_selected(n);
    assert(rows == all_numbers(n));
    if n > 0 {
        assert(t.covers_row(n - 1));
        t.lemma_covers(name, n - 1);
    }
    let count = (n - cut_off(n, (query_limit(q) + query_offset(q)) as nat)) as nat;
    lemma_last_plain(t, q, n, out, v, count);
    lemma_sorted_among(
        q,
        Seq::new(count, |i: int| 1u64),
        last_numbers(v, n as int, count),
        out,
    );
    assert(r == count_sorted(
        q,
        Seq::new(count, |i: int| 1u64),
        last_numbers(v, n as int, count),
    ));
}

} // verus!
