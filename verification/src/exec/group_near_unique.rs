//! GROUP BY where every row is a group of its own.
use crate::error::{yields, Error};
use crate::exec::group::{is_identifier, is_name, resolve_group_expr, resolved};
use crate::exec::group_fused_pair::{
    detect_sum_avg_cols, groups_by_int, int_grouping, is_pair_form, pair_form, sum_avg_columns,
};
use crate::exec::group_fused_phrase::{q19_group_keys, q19_keys};
use crate::exec::group_fused_q11::{counts_users, is_user_count, q11_shape};
use crate::exec::group_fused_quad::{
    eval_int_key, groups_ip, is_clientip_quad_group, plain_int, quad_value, quad_values,
};
use crate::exec::group_utf8::{is_literal_one, is_one};
use crate::exec::kernel::{
    any_column, bind, choose_rows, group_id_name, group_name, i64_column, i64s_of, is_count_form,
    is_different_form, shows_counts, shows_different, text_column, texts_of, time_column, times_of,
    with_rows,
};
use crate::exec::result::{
    attempt, cell_rows, cells, counted, empty_result, headings, labels, limit_of, number_cell,
    offset_of, query_limit, query_offset, shown, text_cell, Cell, CellView, QueryResult, ResultView,
};
use crate::expr::eval::{col_i64_at, column_of, quotient, remainder};
use crate::sql::ast::{Expr, ParsedQuery};
use crate::storage::column::{ColumnData, ColumnType, ColumnView};
use crate::storage::table::{declared_type, Table};
use vstd::prelude::*;

verus! {

/// The first rows that can be shown, up to a limit.
pub open spec fn taken(
    rows: Seq<usize>,
    show: spec_fn(usize) -> Option<Seq<CellView>>,
    limit: nat,
) -> Seq<Seq<CellView>>
    decreases rows.len(),
{
    if rows.len() == 0 {
        Seq::empty()
    } else {
        let front = taken(rows.drop_last(), show, limit);
        if front.len() >= limit {
            front
        } else {
            match show(rows.last()) {
                Some(r) => front.push(r),
                None => front,
            }
        }
    }
}

/// The rows behind an offset.
pub open spec fn behind(rows: Seq<usize>, offset: usize) -> Seq<usize> {
    if offset >= rows.len() {
        Seq::empty()
    } else {
        rows.skip(offset as int)
    }
}

/// Every row as a group of its own, from the offset of the query on and up to its
/// limit.
pub open spec fn single_rows(
    q: ParsedQuery,
    rows: Seq<usize>,
    show: spec_fn(usize) -> Option<Seq<CellView>>,
) -> ResultView {
    ResultView {
        columns: labels(q.select_items@),
        rows: taken(behind(rows, query_offset(q)), show, query_limit(q) as nat),
    }
}

/// A row that may not be shown.
pub open spec fn row_view(v: Option<Vec<Cell>>) -> Option<Seq<CellView>> {
    match v {
        Some(row) => Some(cells(row@)),
        None => None,
    }
}

/// A full list stays as it is.
proof fn lemma_taken_full(
    rows: Seq<usize>,
    show: spec_fn(usize) -> Option<Seq<CellView>>,
    limit: nat,
    i: int,
)
    requires
        0 <= i <= rows.len(),
        taken(rows.take(i), show, limit).len() >= limit,
    ensures
        taken(rows, show, limit) == taken(rows.take(i), show, limit),
    decreases rows.len() - i,
{
    if i == rows.len() {
        assert(rows.take(i) =~= rows);
    } else {
        assert(rows.take(i + 1).drop_last() =~= rows.take(i));
        lemma_taken_full(rows, show, limit, i + 1);
    }
}

/// Every row as a group of its own, from the offset of the query on and up to its
/// limit.
pub fn show_singles<F: Fn(usize) -> Option<Vec<Cell>>>(
    parsed: &ParsedQuery,
    rows: &Vec<usize>,
    row_at: F,
    Ghost(show): Ghost<spec_fn(usize) -> Option<Seq<CellView>>>,
) -> (r: QueryResult)
    requires
        forall|i: int| 0 <= i < rows@.len() ==> row_at.requires((#[trigger] rows@[i],)),
        forall|r: usize, v: Option<Vec<Cell>>|
            row_at.ensures((r,), v) ==> row_view(v) == show(r),
    ensures
        r@ == single_rows(*parsed, rows@, show),
{
    let limit: usize = limit_of(parsed);
    let offset: usize = offset_of(parsed);
    let ghost part = behind(rows@, offset);
    let mut out: Vec<Vec<Cell>> = Vec::new();
    let mut i: usize = offset;
    assert(part.take(0) =~= Seq::<usize>::empty());
    assert(cell_rows(out@) =~= Seq::<Seq<CellView>>::empty());
    while i < rows.len() && out.len() < limit
        invariant
            offset <= i,
            i <= rows@.len() || i == offset,
            part == behind(rows@, offset),
            forall|i: int| 0 <= i < rows@.len() ==> row_at.requires((#[trigger] rows@[i],)),
            forall|r: usize, v: Option<Vec<Cell>>|
                row_at.ensures((r,), v) ==> row_view(v) == show(r),
            i - offset <= part.len(),
            cell_rows(out@) == taken(part.take(i - offset), show, limit as nat),
        decreases rows@.len() - i,
    {
        proof {
            assert(part.take(i - offset + 1).drop_last() =~= part.take(i - offset));
            assert(part.take(i - offset + 1).last() == rows@[i as int]);
            assert(row_at.requires((rows@[i as int],)));
            assert(cell_rows(out@).len() == out@.len());
        }
        if let Some(row) = row_at(rows[i]) {
            let ghost sofar = out@;
            out.push(row);
            assert(cell_rows(out@) =~= cell_rows(sofar).push(cells(row@)));
        }
        i = i + 1;
    }
    proof {
        assert(cell_rows(out@).len() == out@.len());
        if i - offset >= part.len() {
            assert(part.take(i - offset) =~= part);
        } else {
            lemma_taken_full(part, show, limit as nat, i - offset);
        }
    }
    QueryResult { columns: headings(parsed), rows: out }
}

/// A row of one text and a count of one.
pub open spec fn text_once(a: Seq<char>) -> Option<Seq<CellView>> {
    Some(seq![shown(a), shown("1"@)])
}

fn show_text_once(a: &str) -> (r: Option<Vec<Cell>>)
    ensures
        row_view(r) == text_once(a@),
{
    let mut row: Vec<Cell> = Vec::new();
    row.push(text_cell(a));
    row.push(text_cell("1"));
    assert(cells(row@) =~= text_once(a@)->Some_0);
    Some(row)
}

/// A row of a number, if there is one, with a text and a count of one.
pub open spec fn number_once(v: Option<i64>, a: Seq<char>) -> Option<Seq<CellView>> {
    match v {
        Some(x) => Some(seq![counted(x as int), shown(a), shown("1"@)]),
        None => None,
    }
}

fn show_number_once(v: Option<i64>, a: &str) -> (r: Option<Vec<Cell>>)
    ensures
        row_view(r) == number_once(v, a@),
{
    match v {
        Some(x) => {
            let mut row: Vec<Cell> = Vec::new();
            row.push(number_cell(x as i128));
            row.push(text_cell(a));
            row.push(text_cell("1"));
            assert(cells(row@) =~= number_once(v, a@)->Some_0);
            Some(row)
        },
        None => None,
    }
}

/// What asking for different users by a text column comes to.
pub open spec fn single_users_result(t: Table, q: ParsedQuery, n: nat) -> Result<
    Option<ResultView>,
    Seq<char>,
>
{
    if !q11_shape(t, q) {
        Ok(None)
    } else {
        bind(
            texts_of(t, group_name(q.group_by@[0], q)->Some_0),
            |strs: Seq<Seq<char>>|
                with_rows(
                    t,
                    q,
                    n,
                    |rows: Seq<usize>|
                        Ok(Some(single_rows(q, rows, |r: usize| text_once(strs[r as int])))),
                ),
        )
    }
}

/// Different users by a text column, if that is what the query asks for.
pub fn try_utf8_count_distinct_user(table: &Table, parsed: &ParsedQuery, row_count: usize) -> (r: Result<
    Option<QueryResult>,
    Error,
>)
    requires
        table.wf(),
        table.holds_rows(row_count as int),
    ensures
        attempt(r) == single_users_result(*table, *parsed, row_count as nat),
{
    if parsed.group_by.len() != 1 {
        return Ok(None);
    }
    let name = match group_id_name(&parsed.group_by[0], parsed) {
        Some(n) => n,
        None => {
            return Ok(None);
        },
    };
    let is_text = match table.column_type(name) {
        Some(ColumnType::Utf8) => true,
        _ => false,
    };
    if !is_text || !is_different_form(parsed) || !is_user_count(&parsed.select_items) {
        return Ok(None);
    }
    let strs = match text_column(table, name, row_count) {
        Err(e) => {
            return Err(e);
        },
        Ok(None) => {
            return Ok(None);
        },
        Ok(Some(c)) => c,
    };
    let rows = match choose_rows(table, parsed, row_count) {
        Err(e) => {
            return Err(e);
        },
        Ok(None) => {
            return Ok(Some(empty_result(parsed)));
        },
        Ok(Some(r)) => r,
    };
    let ghost show = |r: usize| text_once(strs@[r as int]);
    let row_at = |r: usize| -> (v: Option<Vec<Cell>>)
        requires
            row_count > r,
        ensures
            row_view(v) == show(r),
    {
        assert(strs.row_ok(r as int));
        show_text_once(strs.get(r))
    };
    Ok(Some(show_singles(parsed, &rows, row_at, Ghost(show))))
}

/// What counting rows by a text column comes to.
pub open spec fn single_text_result(t: Table, q: ParsedQuery, n: nat) -> Result<
    Option<ResultView>,
    Seq<char>,
>
{
    if q.group_by@.len() != 1 || !shows_counts(q) || group_name(
        q.group_by@[0],
        q,
    ) is None || declared_type(t.declared(), group_name(q.group_by@[0], q)->Some_0) != Some(
        ColumnType::Utf8,
    ) {
        Ok(None)
    } else {
        bind(
            texts_of(t, group_name(q.group_by@[0], q)->Some_0),
            |strs: Seq<Seq<char>>|
                with_rows(
                    t,
                    q,
                    n,
                    |rows: Seq<usize>|
                        Ok(Some(single_rows(q, rows, |r: usize| text_once(strs[r as int])))),
                ),
        )
    }
}

/// Rows by a text column, if that is what the query asks for.
pub fn try_single_utf8_count(table: &Table, parsed: &ParsedQuery, row_count: usize) -> (r: Result<
    Option<QueryResult>,
    Error,
>)
    requires
        table.wf(),
        table.holds_rows(row_count as int),
    ensures
        attempt(r) == single_text_result(*table, *parsed, row_count as nat),
{
    if parsed.group_by.len() != 1 || !is_count_form(parsed) {
        return Ok(None);
    }
    let name = match group_id_name(&parsed.group_by[0], parsed) {
        Some(n) => n,
        None => {
            return Ok(None);
        },
    };
    match table.column_type(name) {
        Some(ColumnType::Utf8) => {},
        _ => {
            return Ok(None);
        },
    }
    let strs = match text_column(table, name, row_count) {
        Err(e) => {
            return Err(e);
        },
        Ok(None) => {
            return Ok(None);
        },
        Ok(Some(c)) => c,
    };
    let rows = match choose_rows(table, parsed, row_count) {
        Err(e) => {
            return Err(e);
        },
        Ok(None) => {
            return Ok(Some(empty_result(parsed)));
        },
        Ok(Some(r)) => r,
    };
    let ghost show = |r: usize| text_once(strs@[r as int]);
    let row_at = |r: usize| -> (v: Option<Vec<Cell>>)
        requires
            row_count > r,
        ensures
            row_view(v) == show(r),
    {
        assert(strs.row_ok(r as int));
        show_text_once(strs.get(r))
    };
    Ok(Some(show_singles(parsed, &rows, row_at, Ghost(show))))
}

/// Whether a type is one of plain integers.
pub open spec fn plain_type(ty: ColumnType) -> bool {
    ty == ColumnType::Int16 || ty == ColumnType::Int32 || ty == ColumnType::Int64
}

/// Whether a type is one of plain integers.
pub fn is_plain_type(ty: ColumnType) -> (r: bool)
    ensures
        r == plain_type(ty),
{
    match ty {
        ColumnType::Int16 => true,
        ColumnType::Int32 => true,
        ColumnType::Int64 => true,
        _ => false,
    }
}

/// The integer column and the text column that a query groups by, if it groups by
/// these in this order.
pub open spec fn number_and_text(t: Table, q: ParsedQuery) -> Option<(Seq<char>, Seq<char>)> {
    if q.group_by@.len() != 2 {
        None
    } else {
        match (group_name(q.group_by@[0], q), group_name(q.group_by@[1], q)) {
            (Some(a), Some(b)) => match (
                declared_type(t.declared(), a),
                declared_type(t.declared(), b),
            ) {
                (Some(x), Some(y)) => if plain_type(x) && y == ColumnType::Utf8 {
                    Some((a, b))
                } else {
                    None
                },
                _ => None,
            },
            _ => None,
        }
    }
}

fn find_number_and_text<'a>(table: &'a Table, parsed: &'a ParsedQuery) -> (r: Option<
    (&'a str, &'a str),
>)
    ensures
        match r {
            Some((a, b)) => number_and_text(*table, *parsed) == Some((a@, b@)),
            None => number_and_text(*table, *parsed) is None,
        },
{
    if parsed.group_by.len() != 2 {
        return None;
    }
    let (a, b) = match (
        group_id_name(&parsed.group_by[0], parsed),
        group_id_name(&parsed.group_by[1], parsed),
    ) {
        (Some(a), Some(b)) => (a, b),
        _ => {
            return None;
        },
    };
    let (x, y) = match (table.column_type(a), table.column_type(b)) {
        (Some(x), Some(y)) => (x, y),
        _ => {
            return None;
        },
    };
    if is_plain_type(x) && y == ColumnType::Utf8 {
        Some((a, b))
    } else {
        None
    }
}

/// Rows by an integer column and a text column, each row a group of its own.
pub open spec fn single_pairs(t: Table, q: ParsedQuery, n: nat) -> Result<
    Option<ResultView>,
    Seq<char>,
> {
    match number_and_text(t, q) {
        None => Ok(None),
        Some((a, b)) => match column_of(t, a) {
            Err(m) => Err(m),
            Ok(_) => bind(
                texts_of(t, b),
                |strs: Seq<Seq<char>>|
                    with_rows(
                        t,
                        q,
                        n,
                        |rows: Seq<usize>|
                            Ok(
                                Some(
                                    single_rows(
                                        q,
                                        rows,
                                        |r: usize|
                                            number_once(
                                                quad_value(t, resolved(q.group_by@[0], q.select_items@), r as int),
                                                strs[r as int],
                                            ),
                                    ),
                                ),
                            ),
                    ),
            ),
        },
    }
}

/// Rows by an integer column and a text column, each row a group of its own.
fn show_single_pairs(table: &Table, parsed: &ParsedQuery, row_count: usize) -> (r: Result<
    Option<QueryResult>,
    Error,
>)
    requires
        table.wf(),
        table.holds_rows(row_count as int),
    ensures
        attempt(r) == single_pairs(*table, *parsed, row_count as nat),
{
    let names = match find_number_and_text(table, parsed) {
        Some(n) => n,
        None => {
            return Ok(None);
        },
    };
    let (a, b) = names;
    let _ints = match any_column(table, a, row_count) {
        Err(e) => {
            return Err(e);
        },
        Ok(c) => c,
    };
    let strs = match text_column(table, b, row_count) {
        Err(e) => {
            return Err(e);
        },
        Ok(None) => {
            return Ok(None);
        },
        Ok(Some(c)) => c,
    };
    let rows = match choose_rows(table, parsed, row_count) {
        Err(e) => {
            return Err(e);
        },
        Ok(None) => {
            return Ok(Some(empty_result(parsed)));
        },
        Ok(Some(r)) => r,
    };
    let e = resolve_group_expr(&parsed.group_by[0], &parsed.select_items);
    let ghost show = |r: usize|
        number_once(quad_value(*table, resolved(parsed.group_by@[0], parsed.select_items@), r as int), strs@[r as int]);
    let row_at = |r: usize| -> (v: Option<Vec<Cell>>)
        requires
            row_count > r,
        ensures
            row_view(v) == show(r),
    {
        assert(strs.row_ok(r as int));
        show_number_once(eval_int_key(table, e, r), strs.get(r))
    };
    Ok(Some(show_singles(parsed, &rows, row_at, Ghost(show))))
}

/// What counting rows by an integer column and a text column comes to.
pub open spec fn single_pair_result(t: Table, q: ParsedQuery, n: nat) -> Result<
    Option<ResultView>,
    Seq<char>,
>
{
    if !shows_counts(q) {
        Ok(None)
    } else {
        single_pairs(t, q, n)
    }
}

/// Rows by an integer column and a text column, if that is what the query asks for.
pub fn try_int_utf8_count(table: &Table, parsed: &ParsedQuery, row_count: usize) -> (r: Result<
    Option<QueryResult>,
    Error,
>)
    requires
        table.wf(),
        table.holds_rows(row_count as int),
    ensures
        attempt(r) == single_pair_result(*table, *parsed, row_count as nat),
{
    if !is_count_form(parsed) {
        return Ok(None);
    }
    show_single_pairs(table, parsed, row_count)
}

/// What counting different users by an integer column and a text column comes to.
pub open spec fn single_pair_users_result(t: Table, q: ParsedQuery, n: nat) -> Result<
    Option<ResultView>,
    Seq<char>,
>
{
    if !shows_different(q) || !counts_users(q.select_items@) {
        Ok(None)
    } else {
        single_pairs(t, q, n)
    }
}

/// Different users by an integer column and a text column, if that is what the query
/// asks for.
pub fn try_int_utf8_count_distinct_user(table: &Table, parsed: &ParsedQuery, row_count: usize) -> (r: Result<
    Option<QueryResult>,
    Error,
>)
    requires
        table.wf(),
        table.holds_rows(row_count as int),
    ensures
        attempt(r) == single_pair_users_result(*table, *parsed, row_count as nat),
{
    if !is_different_form(parsed) || !is_user_count(&parsed.select_items) {
        return Ok(None);
    }
    show_single_pairs(table, parsed, row_count)
}

/// What is summed, averaged and grouped by.
pub struct RowColumns {
    pub first: ColumnView,
    pub second: ColumnView,
    pub summed: ColumnView,
    pub averaged: ColumnView,
}

impl RowColumns {
    /// The row as a group: its keys, a count of one, its sum and its average.
    pub open spec fn show(self, r: int) -> Option<Seq<CellView>> {
        match (
            plain_int(self.first, r),
            plain_int(self.second, r),
            plain_int(self.summed, r),
            plain_int(self.averaged, r),
        ) {
            (Some(a), Some(b), Some(s), Some(w)) => Some(
                seq![
                    counted(a as int),
                    counted(b as int),
                    shown("1"@),
                    counted(s as int),
                    CellView::Ratio { sum: w as int, count: 1 },
                ],
            ),
            _ => None,
        }
    }
}

/// The number of a row of an integer or date column.
fn plain_int_at(col: &ColumnData, row: usize) -> (r: Option<i64>)
    requires
        row < col@.len(),
    ensures
        r == plain_int(col@, row as int),
{
    match col {
        ColumnData::Timestamp(_) => None,
        ColumnData::Utf8(_) => None,
        _ => Some(col_i64_at(col, row)),
    }
}

/// What grouping by two columns with a count, a sum and an average comes to.
pub open spec fn single_aggs_result(t: Table, q: ParsedQuery, n: nat) -> Result<
    Option<ResultView>,
    Seq<char>,
>
{
    if !pair_form(q) || !int_grouping(t, q, q.group_by@[0]) || !int_grouping(
        t,
        q,
        q.group_by@[1],
    ) || sum_avg_columns(q.select_items@) is None {
        Ok(None)
    } else {
        match (group_name(q.group_by@[0], q), group_name(q.group_by@[1], q)) {
            (Some(k1), Some(k2)) => match (
                column_of(t, k1),
                column_of(t, k2),
                column_of(t, sum_avg_columns(q.select_items@)->Some_0.0),
                column_of(t, sum_avg_columns(q.select_items@)->Some_0.1),
            ) {
                (Err(m), _, _, _) => Err(m),
                (_, Err(m), _, _) => Err(m),
                (_, _, Err(m), _) => Err(m),
                (_, _, _, Err(m)) => Err(m),
                (Ok(first), Ok(second), Ok(summed), Ok(averaged)) => {
                    let cols = RowColumns { first, second, summed, averaged };
                    with_rows(
                        t,
                        q,
                        n,
                        |rows: Seq<usize>|
                            Ok(Some(single_rows(q, rows, |r: usize| cols.show(r as int)))),
                    )
                },
            },
            _ => Err("group key"@),
        }
    }
}

/// Rows by two columns with a count, a sum and an average, if that is what the query
/// asks for.
pub fn try_int_pair_row_aggs(table: &Table, parsed: &ParsedQuery, row_count: usize) -> (r: Result<
    Option<QueryResult>,
    Error,
>)
    requires
        table.wf(),
        table.holds_rows(row_count as int),
    ensures
        attempt(r) == single_aggs_result(*table, *parsed, row_count as nat),
{
    if !is_pair_form(parsed) || !groups_by_int(table, parsed, &parsed.group_by[0])
        || !groups_by_int(table, parsed, &parsed.group_by[1]) {
        return Ok(None);
    }
    let names = match detect_sum_avg_cols(parsed) {
        Some(n) => n,
        None => {
            return Ok(None);
        },
    };
    let (sum_col, avg_col) = names;
    let (k1, k2) = match (
        group_id_name(&parsed.group_by[0], parsed),
        group_id_name(&parsed.group_by[1], parsed),
    ) {
        (Some(a), Some(b)) => (a, b),
        _ => {
            return Err(Error::msg("group key"));
        },
    };
    let c1 = match any_column(table, k1, row_count) {
        Err(e) => {
            return Err(e);
        },
        Ok(c) => c,
    };
    let c2 = match any_column(table, k2, row_count) {
        Err(e) => {
            return Err(e);
        },
        Ok(c) => c,
    };
    let sum_c = match any_column(table, sum_col, row_count) {
        Err(e) => {
            return Err(e);
        },
        Ok(c) => c,
    };
    let avg_c = match any_column(table, avg_col, row_count) {
        Err(e) => {
            return Err(e);
        },
        Ok(c) => c,
    };
    let rows = match choose_rows(table, parsed, row_count) {
        Err(e) => {
            return Err(e);
        },
        Ok(None) => {
            return Ok(Some(empty_result(parsed)));
        },
        Ok(Some(r)) => r,
    };
    let ghost cols = RowColumns { first: c1@, second: c2@, summed: sum_c@, averaged: avg_c@ };
    let ghost show = |r: usize| cols.show(r as int);
    let row_at = |r: usize| -> (v: Option<Vec<Cell>>)
        requires
            row_count > r,
        ensures
            row_view(v) == show(r),
    {
        match (
            plain_int_at(c1, r),
            plain_int_at(c2, r),
            plain_int_at(sum_c, r),
            plain_int_at(avg_c, r),
        ) {
            (Some(a), Some(b), Some(s), Some(w)) => Some(show_single_aggs(a, b, s, w)),
            _ => None,
        }
    };
    Ok(Some(show_singles(parsed, &rows, row_at, Ghost(show))))
}

fn show_single_aggs(a: i64, b: i64, s: i64, w: i64) -> (row: Vec<Cell>)
    ensures
        cells(row@) == seq![
            counted(a as int),
            counted(b as int),
            shown("1"@),
            counted(s as int),
            CellView::Ratio { sum: w as int, count: 1 },
        ],
{
    let mut row: Vec<Cell> = Vec::new();
    row.push(number_cell(a as i128));
    row.push(number_cell(b as i128));
    row.push(text_cell("1"));
    row.push(number_cell(s as i128));
    row.push(Cell::Ratio { sum: w as i128, count: 1 });
    assert(cells(row@) =~= seq![
        counted(a as int),
        counted(b as int),
        shown("1"@),
        counted(s as int),
        CellView::Ratio { sum: w as int, count: 1 },
    ]);
    row
}

/// A row of four numbers and a count of one, if there are four numbers.
pub open spec fn four_once(v: Option<Seq<i64>>) -> Option<Seq<CellView>> {
    match v {
        Some(x) => Some(
            seq![
                counted(x[0] as int),
                counted(x[1] as int),
                counted(x[2] as int),
                counted(x[3] as int),
                shown("1"@),
            ],
        ),
        None => None,
    }
}

/// What counting rows by the address and expressions of it comes to.
pub open spec fn single_quad_result(t: Table, q: ParsedQuery, n: nat) -> Result<
    Option<ResultView>,
    Seq<char>,
>
{
    if q.group_by@.len() != 4 || !groups_ip(q) {
        Ok(None)
    } else {
        with_rows(
            t,
            q,
            n,
            |rows: Seq<usize>|
                Ok(
                    Some(
                        single_rows(
                            q,
                            rows,
                            |r: usize| four_once(quad_values(t, q, r as int, 4)),
                        ),
                    ),
                ),
        )
    }
}

fn show_four_once(table: &Table, parsed: &ParsedQuery, row: usize) -> (r: Option<Vec<Cell>>)
    requires
        table.wf(),
        table.covers_row(row as int),
        parsed.group_by@.len() == 4,
    ensures
        row_view(r) == four_once(quad_values(*table, *parsed, row as int, 4)),
{
    proof {
        reveal_with_fuel(quad_values, 5);
    }
    let a = eval_int_key(table, resolve_group_expr(&parsed.group_by[0], &parsed.select_items), row);
    let b = eval_int_key(table, resolve_group_expr(&parsed.group_by[1], &parsed.select_items), row);
    let c = eval_int_key(table, resolve_group_expr(&parsed.group_by[2], &parsed.select_items), row);
    let d = eval_int_key(table, resolve_group_expr(&parsed.group_by[3], &parsed.select_items), row);
    match (a, b, c, d) {
        (Some(a), Some(b), Some(c), Some(d)) => {
            let mut out: Vec<Cell> = Vec::new();
            out.push(number_cell(a as i128));
            out.push(number_cell(b as i128));
            out.push(number_cell(c as i128));
            out.push(number_cell(d as i128));
            out.push(text_cell("1"));
            proof {
                let v = Seq::<i64>::empty().push(a).push(b).push(c).push(d);
                assert(quad_values(*table, *parsed, row as int, 4) == Some(v));
                assert(cells(out@) =~= four_once(Some(v))->Some_0);
            }
            Some(out)
        },
        _ => None,
    }
}

/// Rows by the address and expressions of it, if that is what the query asks for.
pub fn try_clientip_quad(table: &Table, parsed: &ParsedQuery, row_count: usize) -> (r: Result<
    Option<QueryResult>,
    Error,
>)
    requires
        table.wf(),
        table.holds_rows(row_count as int),
    ensures
        attempt(r) == single_quad_result(*table, *parsed, row_count as nat),
{
    if parsed.group_by.len() != 4 || !is_clientip_quad_group(parsed) {
        return Ok(None);
    }
    let rows = match choose_rows(table, parsed, row_count) {
        Err(e) => {
            return Err(e);
        },
        Ok(None) => {
            return Ok(Some(empty_result(parsed)));
        },
        Ok(Some(r)) => r,
    };
    let ghost show = |r: usize| four_once(quad_values(*table, *parsed, r as int, 4));
    let row_at = |r: usize| -> (v: Option<Vec<Cell>>)
        requires
            row_count > r,
        ensures
            row_view(v) == show(r),
    { show_four_once(table, parsed, r) };
    Ok(Some(show_singles(parsed, &rows, row_at, Ghost(show))))
}

/// The minute of the hour of a time, cut off towards zero.
pub open spec fn cut_minute(micros: i64) -> i64 {
    remainder(quotient(quotient(micros, 1_000_000), 60), 60)
}

fn cut_minute_of(micros: i64) -> (m: i64)
    ensures
        m == cut_minute(micros),
{
    let secs: Option<i64> = micros.checked_div(1_000_000);
    let mins: Option<i64> = secs.unwrap().checked_div(60);
    let part: Option<i64> = mins.unwrap().checked_rem(60);
    part.unwrap()
}

/// A row of a user, a minute, a phrase and a count of one.
pub open spec fn visit_once(user: i64, minute: i64, phrase: Seq<char>) -> Option<Seq<CellView>> {
    Some(seq![counted(user as int), counted(minute as int), shown(phrase), shown("1"@)])
}

fn show_visit_once(user: i64, minute: i64, phrase: &str) -> (r: Option<Vec<Cell>>)
    ensures
        row_view(r) == visit_once(user, minute, phrase@),
{
    let mut row: Vec<Cell> = Vec::new();
    row.push(number_cell(user as i128));
    row.push(number_cell(minute as i128));
    row.push(text_cell(phrase));
    row.push(text_cell("1"));
    assert(cells(row@) =~= visit_once(user, minute, phrase@)->Some_0);
    Some(row)
}

/// What counting rows by user, minute and phrase comes to.
pub open spec fn single_visits_result(t: Table, q: ParsedQuery, n: nat) -> Result<
    Option<ResultView>,
    Seq<char>,
>
{
    if !q19_keys(q) {
        Ok(None)
    } else {
        bind(
            i64s_of(t, "UserID"@),
            |users: Seq<i64>|
                bind(
                    texts_of(t, "SearchPhrase"@),
                    |strs: Seq<Seq<char>>|
                        bind(
                            times_of(t, "EventTime"@),
                            |times: Seq<i64>|
                                with_rows(
                                    t,
                                    q,
                                    n,
                                    |rows: Seq<usize>|
                                        Ok(
                                            Some(
                                                single_rows(
                                                    q,
                                                    rows,
                                                    |r: usize|
                                                        visit_once(
                                                            users[r as int],
                                                            cut_minute(times[r as int]),
                                                            strs[r as int],
                                                        ),
                                                ),
                                            ),
                                        ),
                                ),
                        ),
                ),
        )
    }
}

/// Rows by user, minute and phrase, if that is what the query asks for.
pub fn try_q19(table: &Table, parsed: &ParsedQuery, row_count: usize) -> (r: Result<
    Option<QueryResult>,
    Error,
>)
    requires
        table.wf(),
        table.holds_rows(row_count as int),
    ensures
        attempt(r) == single_visits_result(*table, *parsed, row_count as nat),
{
    if !q19_group_keys(parsed) {
        return Ok(None);
    }
    let users = match i64_column(table, "UserID", row_count) {
        Err(e) => {
            return Err(e);
        },
        Ok(None) => {
            return Ok(None);
        },
        Ok(Some(c)) => c,
    };
    let strs = match text_column(table, "SearchPhrase", row_count) {
        Err(e) => {
            return Err(e);
        },
        Ok(None) => {
            return Ok(None);
        },
        Ok(Some(c)) => c,
    };
    let times = match time_column(table, "EventTime", row_count) {
        Err(e) => {
            return Err(e);
        },
        Ok(None) => {
            return Ok(None);
        },
        Ok(Some(c)) => c,
    };
    let rows = match choose_rows(table, parsed, row_count) {
        Err(e) => {
            return Err(e);
        },
        Ok(None) => {
            return Ok(Some(empty_result(parsed)));
        },
        Ok(Some(r)) => r,
    };
    let ghost show = |r: usize|
        visit_once(users@[r as int], cut_minute(times@[r as int]), strs@[r as int]);
    let row_at = |r: usize| -> (v: Option<Vec<Cell>>)
        requires
            row_count > r,
        ensures
            row_view(v) == show(r),
    {
        assert(strs.row_ok(r as int));
        show_visit_once(users.get(r), cut_minute_of(times.get(r)), strs.get(r))
    };
    Ok(Some(show_singles(parsed, &rows, row_at, Ghost(show))))
}

/// The text column that a query groups by behind the number one.
pub open spec fn one_and_text(t: Table, q: ParsedQuery) -> Option<Seq<char>> {
    if q.group_by@.len() != 2 {
        None
    } else {
        let a = resolved(q.group_by@[0], q.select_items@);
        let b = resolved(q.group_by@[1], q.select_items@);
        if is_one(a) {
            text_column_name(t, b)
        } else {
            None
        }
    }
}

/// The text column that an expression names.
pub open spec fn text_column_name(t: Table, e: Expr) -> Option<Seq<char>> {
    match e {
        Expr::Identifier(s) => if declared_type(t.declared(), s@) == Some(ColumnType::Utf8) {
            Some(s@)
        } else {
            None
        },
        _ => None,
    }
}

fn find_text_column<'a>(table: &Table, e: &'a Expr) -> (r: Option<&'a str>)
    ensures
        match r {
            Some(s) => text_column_name(*table, *e) == Some(s@),
            None => text_column_name(*table, *e) is None,
        },
{
    match e {
        Expr::Identifier(s) => match table.column_type(s.as_str()) {
            Some(ColumnType::Utf8) => Some(s.as_str()),
            _ => None,
        },
        _ => None,
    }
}

/// What counting rows by the number one and a text column comes to.
pub open spec fn single_one_result(t: Table, q: ParsedQuery, n: nat) -> Result<
    Option<ResultView>,
    Seq<char>,
>
{
    match one_and_text(t, q) {
        None => Ok(None),
        Some(name) => bind(
            texts_of(t, name),
            |strs: Seq<Seq<char>>|
                with_rows(
                    t,
                    q,
                    n,
                    |rows: Seq<usize>|
                        Ok(Some(single_rows(q, rows, |r: usize| one_once(strs[r as int])))),
                ),
        ),
    }
}

/// A row of the number one, a text and a count of one.
pub open spec fn one_once(a: Seq<char>) -> Option<Seq<CellView>> {
    Some(seq![shown("1"@), shown(a), shown("1"@)])
}

fn show_one_once(a: &str) -> (r: Option<Vec<Cell>>)
    ensures
        row_view(r) == one_once(a@),
{
    let mut row: Vec<Cell> = Vec::new();
    row.push(text_cell("1"));
    row.push(text_cell(a));
    row.push(text_cell("1"));
    assert(cells(row@) =~= one_once(a@)->Some_0);
    Some(row)
}

/// Rows by the number one and a text column, if that is what the query asks for.
pub fn try_q35(table: &Table, parsed: &ParsedQuery, row_count: usize) -> (r: Result<
    Option<QueryResult>,
    Error,
>)
    requires
        table.wf(),
        table.holds_rows(row_count as int),
    ensures
        attempt(r) == single_one_result(*table, *parsed, row_count as nat),
{
    if parsed.group_by.len() != 2 {
        return Ok(None);
    }
    let a = resolve_group_expr(&parsed.group_by[0], &parsed.select_items);
    let b = resolve_group_expr(&parsed.group_by[1], &parsed.select_items);
    let found = if is_literal_one(a) {
        find_text_column(table, b)
    } else {
        None
    };
    let name = match found {
        Some(n) => n,
        None => {
            return Ok(None);
        },
    };
    let strs = match text_column(table, name, row_count) {
        Err(e) => {
            return Err(e);
        },
        Ok(None) => {
            return Ok(None);
        },
        Ok(Some(c)) => c,
    };
    let rows = match choose_rows(table, parsed, row_count) {
        Err(e) => {
            return Err(e);
        },
        Ok(None) => {
            return Ok(Some(empty_result(parsed)));
        },
        Ok(Some(r)) => r,
    };
    let ghost show = |r: usize| one_once(strs@[r as int]);
    let row_at = |r: usize| -> (v: Option<Vec<Cell>>)
        requires
            row_count > r,
        ensures
            row_view(v) == show(r),
    {
        assert(strs.row_ok(r as int));
        show_one_once(strs.get(r))
    };
    Ok(Some(show_singles(parsed, &rows, row_at, Ghost(show))))
}

/// Whether a query groups by user and phrase.
pub open spec fn user_and_phrase(q: ParsedQuery) -> bool {
    &&& q.group_by@.len() == 2
    &&& {
        let a = resolved(q.group_by@[0], q.select_items@);
        let b = resolved(q.group_by@[1], q.select_items@);
        is_name(a, "UserID"@) && is_name(b, "SearchPhrase"@)
    }
}

/// What counting rows by user and phrase comes to.
pub open spec fn single_phrases_result(t: Table, q: ParsedQuery, n: nat) -> Result<
    Option<ResultView>,
    Seq<char>,
>
{
    if !user_and_phrase(q) {
        Ok(None)
    } else {
        bind(
            i64s_of(t, "UserID"@),
            |users: Seq<i64>|
                bind(
                    texts_of(t, "SearchPhrase"@),
                    |strs: Seq<Seq<char>>|
                        with_rows(
                            t,
                            q,
                            n,
                            |rows: Seq<usize>|
                                Ok(
                                    Some(
                                        single_rows(
                                            q,
                                            rows,
                                            |r: usize|
                                                number_once(
                                                    Some(users[r as int]),
                                                    strs[r as int],
                                                ),
                                        ),
                                    ),
                                ),
                        ),
                ),
        )
    }
}

/// Rows by user and phrase, if that is what the query asks for.
pub fn try_user_searchphrase(table: &Table, parsed: &ParsedQuery, row_count: usize) -> (r: Result<
    Option<QueryResult>,
    Error,
>)
    requires
        table.wf(),
        table.holds_rows(row_count as int),
    ensures
        attempt(r) == single_phrases_result(*table, *parsed, row_count as nat),
{
    if parsed.group_by.len() != 2 {
        return Ok(None);
    }
    let a = resolve_group_expr(&parsed.group_by[0], &parsed.select_items);
    let b = resolve_group_expr(&parsed.group_by[1], &parsed.select_items);
    if !is_identifier(a, "UserID") || !is_identifier(b, "SearchPhrase") {
        return Ok(None);
    }
    let users = match i64_column(table, "UserID", row_count) {
        Err(e) => {
            return Err(e);
        },
        Ok(None) => {
            return Ok(None);
        },
        Ok(Some(c)) => c,
    };
    let strs = match text_column(table, "SearchPhrase", row_count) {
        Err(e) => {
            return Err(e);
        },
        Ok(None) => {
            return Ok(None);
        },
        Ok(Some(c)) => c,
    };
    let rows = match choose_rows(table, parsed, row_count) {
        Err(e) => {
            return Err(e);
        },
        Ok(None) => {
            return Ok(Some(empty_result(parsed)));
        },
        Ok(Some(r)) => r,
    };
    let ghost show = |r: usize| number_once(Some(users@[r as int]), strs@[r as int]);
    let row_at = |r: usize| -> (v: Option<Vec<Cell>>)
        requires
            row_count > r,
        ensures
            row_view(v) == show(r),
    {
        assert(strs.row_ok(r as int));
        show_number_once(Some(users.get(r)), strs.get(r))
    };
    Ok(Some(show_singles(parsed, &rows, row_at, Ghost(show))))
}

/// The first of two ways that applies.
pub open spec fn or_else(
    a: Result<Option<ResultView>, Seq<char>>,
    b: Result<Option<ResultView>, Seq<char>>,
) -> Result<Option<ResultView>, Seq<char>> {
    match a {
        Ok(None) => b,
        _ => a,
    }
}

/// What the ways that take every row as a group of its own come to: they apply to data
/// that is known to be so, and to queries with a limit and without a condition on
/// groups.
pub open spec fn near_unique_result(t: Table, q: ParsedQuery, n: nat) -> Result<
    Option<ResultView>,
    Seq<char>,
>
{
    if !t.info().demo_near_unique || q.limit is None || q.having is Some {
        Ok(None)
    } else {
        or_else(
            single_users_result(t, q, n),
            or_else(
                single_pair_users_result(t, q, n),
                or_else(
                    single_pair_result(t, q, n),
                    or_else(
                        single_text_result(t, q, n),
                        or_else(
                            single_aggs_result(t, q, n),
                            if !shows_counts(q) {
                                Ok(None)
                            } else {
                                or_else(
                                    single_quad_result(t, q, n),
                                    or_else(
                                        single_visits_result(t, q, n),
                                        or_else(
                                            single_one_result(t, q, n),
                                            single_phrases_result(t, q, n),
                                        ),
                                    ),
                                )
                            },
                        ),
                    ),
                ),
            ),
        )
    }
}

/// Takes every row as a group of its own, where the data are known to be so.
pub fn try_execute_near_unique(table: &Table, parsed: &ParsedQuery, row_count: usize) -> (r: Result<
    Option<QueryResult>,
    Error,
>)
    requires
        table.wf(),
        table.holds_rows(row_count as int),
    ensures
        attempt(r) == near_unique_result(*table, *parsed, row_count as nat),
{
    if !table.demo_near_unique() || parsed.limit.is_none() || parsed.having.is_some() {
        return Ok(None);
    }
    match try_utf8_count_distinct_user(table, parsed, row_count) {
        Err(e) => {
            return Err(e);
        },
        Ok(Some(r)) => {
            return Ok(Some(r));
        },
        Ok(None) => {},
    }
    match try_int_utf8_count_distinct_user(table, parsed, row_count) {
        Err(e) => {
            return Err(e);
        },
        Ok(Some(r)) => {
            return Ok(Some(r));
        },
        Ok(None) => {},
    }
    match try_int_utf8_count(table, parsed, row_count) {
        Err(e) => {
            return Err(e);
        },
        Ok(Some(r)) => {
            return Ok(Some(r));
        },
        Ok(None) => {},
    }
    match try_single_utf8_count(table, parsed, row_count) {
        Err(e) => {
            return Err(e);
        },
        Ok(Some(r)) => {
            return Ok(Some(r));
        },
        Ok(None) => {},
    }
    match try_int_pair_row_aggs(table, parsed, row_count) {
        Err(e) => {
            return Err(e);
        },
        Ok(Some(r)) => {
            return Ok(Some(r));
        },
        Ok(None) => {},
    }
    if !is_count_form(parsed) {
        return Ok(None);
    }
    match try_clientip_quad(table, parsed, row_count) {
        Err(e) => {
            return Err(e);
        },
        Ok(Some(r)) => {
            return Ok(Some(r));
        },
        Ok(None) => {},
    }
    match try_q19(table, parsed, row_count) {
        Err(e) => {
            return Err(e);
        },
        Ok(Some(r)) => {
            return Ok(Some(r));
        },
        Ok(None) => {},
    }
    match try_q35(table, parsed, row_count) {
        Err(e) => {
            return Err(e);
        },
        Ok(Some(r)) => {
            return Ok(Some(r));
        },
        Ok(None) => {},
    }
    try_user_searchphrase(table, parsed, row_count)
}

/// Rows that are taken keep their order, each is what a row is shown as, and none that can be
/// shown is left out before the limit is reached.
pub proof fn law_taken(
    rows: Seq<usize>,
    show: spec_fn(usize) -> Option<Seq<CellView>>,
    limit: nat,
) -> (from: Seq<int>)
    ensures
        from.len() == taken(rows, show, limit).len(),
        from.len() <= limit,
        forall|i: int|
            #![trigger taken(rows, show, limit)[i]]
            0 <= i < from.len() ==> 0 <= from[i] < rows.len() && show(rows[from[i]]) == Some(
                taken(rows, show, limit)[i],
            ),
        forall|i: int, j: int|
            #![trigger from[i], from[j]]
            0 <= i < j < from.len() ==> from[i] < from[j],
        forall|x: int|
            #![trigger rows[x]]
            0 <= x < rows.len() && show(rows[x]) is Some ==> from.contains(x) || from.len() == limit
                && forall|i: int| 0 <= i < from.len() ==> #[trigger] from[i] < x,
    decreases rows.len(),
{
    if rows.len() == 0 {
        Seq::empty()
    } else {
        let n = rows.len() - 1;
        let less = rows.drop_last();
        let front = law_taken(less, show, limit);
        let a = taken(less, show, limit);
        let b = taken(rows, show, limit);
        let from = if front.len() < limit && show(rows.last()) is Some {
            front.push(n)
        } else {
            front
        };
        assert forall|i: int| 0 <= i < front.len() implies 0 <= #[trigger] front[i] < n by {
            assert(show(less[front[i]]) == Some(a[i]));
        }
        assert forall|i: int| 0 <= i < from.len() implies 0 <= from[i] < rows.len() && show(
            rows[from[i]],
        ) == Some(#[trigger] b[i]) by {
            if i < front.len() {
                assert(from[i] == front[i]);
                assert(show(less[front[i]]) == Some(a[i]));
                assert(b[i] == a[i]);
            }
        }
        assert forall|i: int, j: int|
            #![trigger from[i], from[j]]
            0 <= i < j < from.len() implies from[i] < from[j] by {
            assert(from[i] == front[i]);
            if j < front.len() {
                assert(from[j] == front[j]);
            }
        }
        assert forall|x: int| #![trigger rows[x]] 0 <= x < rows.len() && show(rows[x]) is Some implies
            from.contains(x) || from.len() == limit && forall|i: int|
            0 <= i < from.len() ==> #[trigger] from[i] < x by {
            if x < n {
                assert(less[x] == rows[x]);
                if front.contains(x) {
                    let i = choose|i: int| 0 <= i < front.len() && front[i] == x;
                    assert(from[i] == x);
                }
            } else if front.len() < limit {
                assert(from[front.len() as int] == n);
            }
        }
        from
    }
}

/// Rows stand for groups of their own only in tables that are known for that, for queries
/// with a limit and without a condition on the groups.
pub proof fn law_single_rows_known(t: Table, q: ParsedQuery, n: nat)
    requires
        !t.info().demo_near_unique || q.limit is None || q.having is Some,
    ensures
        yields(near_unique_result(t, q, n), None),
{
}

/// No more rows are shown as groups of their own than the limit says, and none that stands
/// before the offset.
pub proof fn law_single_rows(
    q: ParsedQuery,
    rows: Seq<usize>,
    show: spec_fn(usize) -> Option<Seq<CellView>>,
) -> (from: Seq<int>)
    ensures
        single_rows(q, rows, show).rows.len() == from.len(),
        q.limit matches Some(l) ==> l <= usize::MAX ==> from.len() <= l,
        forall|i: int|
            #![trigger single_rows(q, rows, show).rows[i]]
            0 <= i < from.len() ==> from[i] < rows.len() && show(rows[from[i]]) == Some(
                single_rows(q, rows, show).rows[i],
            ),
        forall|i: int|
            #![trigger from[i]]
            0 <= i < from.len() ==> 0 <= from[i] && (q.offset matches Some(o) ==> o <= usize::MAX
                ==> o <= from[i]),
{
    let rest = behind(rows, query_offset(q));
    let k = query_offset(q) as int;
    let part = law_taken(rest, show, query_limit(q) as nat);
    let from = Seq::new(part.len(), |i: int| part[i] + k);
    let out = single_rows(q, rows, show).rows;
    assert(out == taken(rest, show, query_limit(q) as nat));
    assert forall|i: int| 0 <= i < from.len() implies 0 <= part[i] && #[trigger] from[i] < rows.len()
        && show(rows[from[i]]) == Some(out[i]) by {
        assert(out[i] == taken(rest, show, query_limit(q) as nat)[i]);
        assert(0 <= part[i] < rest.len());
        assert(rest[part[i]] == rows[from[i]]);
    }
    assert forall|i: int| 0 <= i < from.len() implies from[i] < rows.len() && show(rows[from[i]])
        == Some(#[trigger] out[i]) by {
        assert(from[i] < rows.len());
    }
    assert forall|i: int|
        #![trigger from[i]]
        0 <= i < from.len() implies 0 <= from[i] && (q.offset matches Some(o) ==> o <= usize::MAX
        ==> o <= from[i]) by {
        assert(from[i] < rows.len());
        assert(0 <= part[i]);
    }
    from
}

} // verus!
