//! GROUP BY one integer column by sorting.
use crate::error::Error;
use crate::exec::agg_sort::{
    count_runs, run_counts, runs, sorted_keys, sorted_triples,
};
use crate::exec::group_near_unique::or_else;
use crate::exec::kernel::{
    any_column, bind, choose_rows, count_sorted, finish_count_sorted_scan, group_id_name,
    group_name, i64_column, i64s_of, is_count_form, mapped, shows_counts, with_rows,
};
use crate::exec::result::{
    attempt, cell_rows, cells, counted, empty_result, limit_of, number_cell, offset_of,
    query_limit, query_offset, shown, text_cell, Cell, CellView, QueryResult, ResultView,
};
use crate::expr::eval::{col_i64_at, col_int, column_of};
use crate::sql::ast::ParsedQuery;
use crate::storage::column::{ColumnData, ColumnType, ColumnView};
use crate::storage::pod::PodStorage;
use crate::storage::table::{declared_type, Table};
use vstd::prelude::*;

verus! {

/// Whether numbers grow from each to the next.
pub open spec fn growing(v: Seq<i64>) -> bool {
    forall|i: int, j: int| 0 <= i < j < v.len() ==> v[i] < v[j]
}

/// Whether numbers grow from each to the next.
pub fn is_increasing(v: &PodStorage<i64>) -> (r: bool)
    ensures
        r == growing(v@),
{
    let n: usize = v.len();
    let mut i: usize = 1;
    while i < n
        invariant
            1 <= i,
            n == v@.len(),
            i <= n || n == 0,
            forall|a: int, b: int| 0 <= a < b < i && b < n ==> v@[a] < v@[b],
        decreases n - i,
    {
        if v.get(i - 1) >= v.get(i) {
            assert(!(v@[i - 1] < v@[i as int]));
            return false;
        }
        proof {
            assert forall|a: int, b: int| 0 <= a < b < i + 1 && b < n implies v@[a] < v@[b] by {
                if b == i {
                    if a < i - 1 {
                        assert(v@[a] < v@[i - 1]);
                    }
                }
            }
        }
        i = i + 1;
    }
    true
}

/// The last rows of a column whose numbers grow, from the last on.
pub open spec fn last_numbers(v: Seq<i64>, end: int, count: nat) -> Seq<Seq<CellView>> {
    Seq::new(count, |i: int| seq![counted(v[end - 1 - i] as int), shown("1"@)])
}

/// A number less another, but not less than zero.
pub open spec fn cut_off(a: nat, b: nat) -> nat {
    if a >= b {
        (a - b) as nat
    } else {
        0
    }
}

/// What counting rows by a column whose numbers grow comes to.
pub open spec fn growing_result(t: Table, q: ParsedQuery, n: nat) -> Result<
    Option<ResultView>,
    Seq<char>,
>
{
    if q.where_expr is Some || q.group_by@.len() != 1 || group_name(q.group_by@[0], q) is None
        || declared_type(t.declared(), group_name(q.group_by@[0], q)->Some_0) != Some(
        ColumnType::Int64,
    ) || q.limit is None || !shows_counts(q) {
        Ok(None)
    } else {
        bind(
            i64s_of(t, group_name(q.group_by@[0], q)->Some_0),
            |v: Seq<i64>|
                if !growing(v) {
                    Ok(None)
                } else {
                    let start = cut_off(n, (query_limit(q) + query_offset(q)) as nat);
                    Ok(
                        Some(
                            count_sorted(
                                q,
                                Seq::new((n - start) as nat, |i: int| 1u64),
                                last_numbers(v, n as int, (n - start) as nat),
                            ),
                        ),
                    )
                },
        )
    }
}

/// Counts rows by a column whose numbers grow, so that each is a group of its own, if
/// that is what the query asks for.
pub fn try_monotonic_int64_count(table: &Table, parsed: &ParsedQuery, row_count: usize) -> (r: Result<
    Option<QueryResult>,
    Error,
>)
    requires
        table.wf(),
        table.holds_rows(row_count as int),
    ensures
        attempt(r) == growing_result(*table, *parsed, row_count as nat),
{
    if parsed.where_expr.is_some() || parsed.group_by.len() != 1 {
        return Ok(None);
    }
    let name = match group_id_name(&parsed.group_by[0], parsed) {
        Some(n) => n,
        None => {
            return Ok(None);
        },
    };
    match table.column_type(name) {
        Some(ColumnType::Int64) => {},
        _ => {
            return Ok(None);
        },
    }
    if parsed.limit.is_none() || !is_count_form(parsed) {
        return Ok(None);
    }
    let data = match i64_column(table, name, row_count) {
        Err(e) => {
            return Err(e);
        },
        Ok(None) => {
            return Ok(None);
        },
        Ok(Some(c)) => c,
    };
    if !is_increasing(data) {
        return Ok(None);
    }
    let limit: usize = limit_of(parsed);
    let offset: usize = offset_of(parsed);
    let end: usize = row_count;
    let start: usize = if end >= offset && end - offset >= limit {
        end - offset - limit
    } else {
        0
    };
    let mut counts: Vec<u64> = Vec::new();
    let mut out: Vec<Vec<Cell>> = Vec::new();
    let mut i: usize = end;
    while i > start
        invariant
            start <= i <= end <= row_count <= data@.len(),
            counts@ =~= Seq::new((end - i) as nat, |k: int| 1u64),
            out@.len() == end - i,
            forall|k: int|
                0 <= k < out@.len() ==> cells((#[trigger] out@[k])@) == seq![
                    counted(data@[end - 1 - k] as int),
                    shown("1"@),
                ],
        decreases i,
    {
        i = i - 1;
        let mut row: Vec<Cell> = Vec::new();
        row.push(number_cell(data.get(i) as i128));
        row.push(text_cell("1"));
        assert(cells(row@) =~= seq![counted(data@[i as int] as int), shown("1"@)]);
        out.push(row);
        counts.push(1);
    }
    assert(cell_rows(out@) =~= last_numbers(data@, end as int, (end - start) as nat));
    Ok(Some(finish_count_sorted_scan(parsed, &counts, &out)))
}

/// The numbers of rows, to be sorted.
pub open spec fn number_triples(c: ColumnView, rows: Seq<usize>) -> Seq<(i64, i64, u64)> {
    mapped(rows, |r: usize| (col_int(c, r as int), 0i64, 0u64))
}

/// Numbers with their counts, as rows.
pub open spec fn run_rows(r: Seq<((i64, i64, u64), u64)>) -> Seq<Seq<CellView>> {
    Seq::new(r.len(), |i: int| seq![counted(r[i].0.0 as int), counted(r[i].1 as int)])
}

/// Rows counted by the numbers of a column; equally frequent numbers in their order.
pub open spec fn numbers_counted(q: ParsedQuery, c: ColumnView, rows: Seq<usize>) -> ResultView {
    let r = runs(sorted_keys(number_triples(c, rows)));
    count_sorted(q, run_counts(r), run_rows(r))
}

/// What counting rows by an integer column by sorting comes to.
pub open spec fn sorted_result(t: Table, q: ParsedQuery, n: nat) -> Result<
    Option<ResultView>,
    Seq<char>,
>
{
    if q.group_by@.len() != 1 || !shows_counts(q) || group_name(
        q.group_by@[0],
        q,
    ) is None {
        Ok(None)
    } else {
        match column_of(t, group_name(q.group_by@[0], q)->Some_0) {
            Err(m) => Err(m),
            Ok(c) => with_rows(
                t,
                q,
                n,
                |rows: Seq<usize>|
                    match c {
                        ColumnView::Int16(_) => Ok(Some(numbers_counted(q, c, rows))),
                        ColumnView::Int32(_) => Ok(Some(numbers_counted(q, c, rows))),
                        ColumnView::Int64(_) => Ok(Some(numbers_counted(q, c, rows))),
                        _ => Ok(None),
                    },
            ),
        }
    }
}

/// Counts rows by an integer column by sorting, if that is what the query asks for.
pub fn try_sort_rle_int_count(table: &Table, parsed: &ParsedQuery, row_count: usize) -> (r: Result<
    Option<QueryResult>,
    Error,
>)
    requires
        table.wf(),
        table.holds_rows(row_count as int),
    ensures
        attempt(r) == sorted_result(*table, *parsed, row_count as nat),
{
    if parsed.group_by.len() != 1 || !is_count_form(parsed) {
        return Ok(None);
    }
    let name = match group_id_name(&parsed.group_by[0], parsed) {
        Some(n) => n,
        None => {
            return Ok(None);
        },
    };
    let col = match any_column(table, name, row_count) {
        Err(e) => {
            return Err(e);
        },
        Ok(c) => c,
    };
    let rows = match choose_rows(table, parsed, row_count) {
        Err(e) => {
            return Err(e);
        },
        Ok(None) => {
            return Ok(Some(empty_result(parsed)));
        },
        Ok(Some(r)) => r,
    };
    let integers = match col {
        ColumnData::Int16(_) => true,
        ColumnData::Int32(_) => true,
        ColumnData::Int64(_) => true,
        _ => false,
    };
    if !integers {
        return Ok(None);
    }
    let mut keys: Vec<(i64, i64, u64)> = Vec::new();
    let mut i: usize = 0;
    while i < rows.len()
        invariant
            i <= rows@.len(),
            col@.len() >= row_count,
            forall|i: int| 0 <= i < rows@.len() ==> (#[trigger] rows@[i]) < row_count,
            keys@.len() == i,
            forall|k: int|
                0 <= k < i ==> (#[trigger] keys@[k]) == (
                    col_int(col@, rows@[k] as int),
                    0i64,
                    0u64,
                ),
        decreases rows@.len() - i,
    {
        assert(rows@[i as int] < row_count);
        keys.push((col_i64_at(col, rows[i]), 0, 0));
        i = i + 1;
    }
    assert(keys@ =~= number_triples(col@, rows@));
    let sorted = sorted_triples(keys);
    let r = count_runs(&sorted);
    let mut counts: Vec<u64> = Vec::new();
    let mut out: Vec<Vec<Cell>> = Vec::new();
    let mut j: usize = 0;
    while j < r.len()
        invariant
            j <= r@.len(),
            counts@.len() == j,
            forall|k: int| 0 <= k < j ==> (#[trigger] counts@[k]) == r@[k].1,
            out@.len() == j,
            forall|k: int| 0 <= k < j ==> cells((#[trigger] out@[k])@) == run_rows(r@)[k],
        decreases r@.len() - j,
    {
        let mut row: Vec<Cell> = Vec::new();
        row.push(number_cell((r[j].0).0 as i128));
        row.push(number_cell(r[j].1 as i128));
        assert(cells(row@) =~= run_rows(r@)[j as int]);
        out.push(row);
        counts.push(r[j].1);
        j = j + 1;
    }
    assert(counts@ =~= run_counts(r@));
    assert(cell_rows(out@) =~= run_rows(r@));
    Ok(Some(finish_count_sorted_scan(parsed, &counts, &out)))
}

/// What counting rows by one integer column by its order comes to.
pub open spec fn group_sorted_result(t: Table, q: ParsedQuery, n: nat) -> Result<
    Option<ResultView>,
    Seq<char>,
>
{
    or_else(growing_result(t, q, n), sorted_result(t, q, n))
}

/// Counts rows by one integer column by its order, if that is what the query asks for.
pub fn try_execute_group_sorted(table: &Table, parsed: &ParsedQuery, row_count: usize) -> (r: Result<
    Option<QueryResult>,
    Error,
>)
    requires
        table.wf(),
        table.holds_rows(row_count as int),
    ensures
        attempt(r) == group_sorted_result(*table, *parsed, row_count as nat),
{
    match try_monotonic_int64_count(table, parsed, row_count) {
        Err(e) => {
            return Err(e);
        },
        Ok(Some(r)) => {
            return Ok(Some(r));
        },
        Ok(None) => {},
    }
    try_sort_rle_int_count(table, parsed, row_count)
}

} // verus!
