//! GROUP BY two integer columns, packed into one key.
use crate::error::{fails, text_outcome, yields, Error};
use crate::exec::agg_heap::{
    by_count_and_pair, pair_first, pair_second, top, top_counts_u128_key,
};
use crate::exec::column_slice::{as_int_cols, pack_pair, pair_key};
use crate::exec::group::{attempted, Answer, AnswerView};
use crate::exec::group_fused_region::is_count;
use crate::exec::group_int::{int_typed, is_int_type};
use crate::exec::grouping::{count_groups, count_ints, group_ints, sum_at, sum_groups, tallied};
use crate::exec::hash::{first_seen, lemma_first_seen_distinct};
use crate::exec::kernel::{
    any_column, by_count_desc, choose_rows, chosen, count_sorted, finish_count_sorted_scan,
    group_id_name, group_name, is_count_form, is_keys_then, keys_then, mapped,
    orders_by_count_desc, shows_counts, with_rows,
};
use crate::exec::result::{
    attempt, cell_rows, cells, counted, empty_result, headings, labels, limit_of, no_rows,
    number_cell, offset_of, query_limit, query_offset, shown, Cell, CellView, QueryResult,
    ResultView,
};
use crate::exec::sorting::{all_numbers, counts_rows, sortable, to_sort, Unsorted};
use crate::expr::eval::{col_int, column_of};
use crate::expr::time::{format_date_days, ymd_text, MAX_DAY, MIN_DAY};
use crate::sql::ast::{Expr, ParsedQuery, SelectItemKind, SelectProjection};
use crate::sql::query::{column_name, column_ref};
use crate::storage::column::{ColumnData, ColumnView};
use crate::storage::table::{declared_type, Table};
use crate::text::{decimal, int_text};
use vstd::prelude::*;

verus! {

/// A number of a column as it is shown: a date in a date column.
pub open spec fn key_text(c: ColumnView, v: i64) -> Result<Seq<char>, Seq<char>> {
    if c is Date {
        if MIN_DAY <= (v as i32) <= MAX_DAY {
            Ok(ymd_text(v as i32))
        } else {
            Err("date out of range"@)
        }
    } else {
        Ok(decimal(v as int))
    }
}

/// A number of a column as it is shown: a date in a date column.
pub fn format_key(col: &ColumnData, v: i64) -> (r: Result<String, Error>)
    ensures
        text_outcome(r) == key_text(col@, v),
{
    if let ColumnData::Date(_) = col {
        let day: i32 = v as i32;
        if MIN_DAY <= day && day <= MAX_DAY {
            return Ok(format_date_days(day));
        }
        return Err(Error::msg("date out of range"));
    }
    Ok(int_text(v as i128))
}

/// The two numbers of a packed key as they are shown.
pub open spec fn pair_texts(c1: ColumnView, c2: ColumnView, key: u128) -> Result<
    (Seq<char>, Seq<char>),
    Seq<char>,
> {
    match key_text(c1, pair_first(key)) {
        Err(m) => Err(m),
        Ok(a) => match key_text(c2, pair_second(key)) {
            Err(m) => Err(m),
            Ok(b) => Ok((a, b)),
        },
    }
}

/// The two numbers of a packed key as they are shown.
pub fn unpack_pair_keys(c1: &ColumnData, c2: &ColumnData, key: u128) -> (r: Result<
    (String, String),
    Error,
>)
    ensures
        match r {
            Ok((a, b)) => yields(pair_texts(c1@, c2@, key), (a@, b@)),
            Err(e) => fails(pair_texts(c1@, c2@, key), e@),
        },
{
    let first: i64 = (key >> 64) as i64;
    let second: i64 = key as i64;
    match format_key(c1, first) {
        Err(e) => Err(e),
        Ok(a) => match format_key(c2, second) {
            Err(e) => Err(e),
            Ok(b) => Ok((a, b)),
        },
    }
}

/// The packed keys of rows.
pub open spec fn pair_keys(c1: ColumnView, c2: ColumnView, rows: Seq<usize>) -> Seq<u128> {
    mapped(rows, |r: usize| pair_key(col_int(c1, r as int), col_int(c2, r as int)))
}

/// The packed keys of rows.
pub fn pack_rows(c1: &ColumnData, c2: &ColumnData, rows: &Vec<usize>, row_count: usize) -> (r: Option<
    Vec<u128>,
>)
    requires
        c1@.len() >= row_count,
        c2@.len() >= row_count,
        forall|i: int| 0 <= i < rows@.len() ==> (#[trigger] rows@[i]) < row_count,
    ensures
        match r {
            Some(keys) => keys@ == pair_keys(c1@, c2@, rows@),
            None => c1@ is Utf8 || c2@ is Utf8,
        },
{
    let a = match as_int_cols(c1) {
        Some(a) => a,
        None => {
            return None;
        },
    };
    let b = match as_int_cols(c2) {
        Some(b) => b,
        None => {
            return None;
        },
    };
    let ghost key = |r: usize| pair_key(col_int(c1@, r as int), col_int(c2@, r as int));
    let key_at = |r: usize| -> (k: u128)
        requires
            row_count > r,
        ensures
            row_count > r ==> k == key(r),
    { pack_pair(a, b, r) };
    proof {
        assert forall|r: usize, v: u128| key_at.ensures((r,), v) && r < row_count implies v == key(
            r,
        ) by {}
    }
    Some(pack_each(rows, key_at, Ghost(key), row_count))
}

/// A key for each row.
fn pack_each<F: Fn(usize) -> u128>(
    rows: &Vec<usize>,
    key_at: F,
    Ghost(key): Ghost<spec_fn(usize) -> u128>,
    row_count: usize,
) -> (keys: Vec<u128>)
    requires
        forall|i: int| 0 <= i < rows@.len() ==> (#[trigger] rows@[i]) < row_count,
        forall|r: usize| r < row_count ==> #[trigger] key_at.requires((r,)),
        forall|r: usize, v: u128| key_at.ensures((r,), v) && r < row_count ==> v == key(r),
    ensures
        keys@ == mapped(rows@, key),
{
    let mut keys: Vec<u128> = Vec::new();
    let mut i: usize = 0;
    while i < rows.len()
        invariant
            i <= rows@.len(),
            forall|i: int| 0 <= i < rows@.len() ==> (#[trigger] rows@[i]) < row_count,
            forall|r: usize| r < row_count ==> #[trigger] key_at.requires((r,)),
            forall|r: usize, v: u128| key_at.ensures((r,), v) && r < row_count ==> v == key(r),
            keys@.len() == i,
            forall|k: int| 0 <= k < i ==> (#[trigger] keys@[k]) == key(rows@[k]),
        decreases rows@.len() - i,
    {
        assert(rows@[i as int] < row_count);
        keys.push(key_at(rows[i]));
        i = i + 1;
    }
    assert(keys@ =~= mapped(rows@, key));
    keys
}

/// The column of the last sum, if it names one.
pub open spec fn sum_column(items: Seq<SelectProjection>) -> Option<Seq<char>>
    decreases items.len(),
{
    if items.len() == 0 {
        None
    } else {
        match items.last().kind {
            SelectItemKind::Sum(e) => column_name(e),
            _ => sum_column(items.drop_last()),
        }
    }
}

/// The column of the last average, if it names one.
pub open spec fn avg_column(items: Seq<SelectProjection>) -> Option<Seq<char>>
    decreases items.len(),
{
    if items.len() == 0 {
        None
    } else {
        match items.last().kind {
            SelectItemKind::Avg(e) => column_name(e),
            _ => avg_column(items.drop_last()),
        }
    }
}

/// The columns of the last sum and of the last average, if there are both.
pub open spec fn sum_avg_columns(items: Seq<SelectProjection>) -> Option<(Seq<char>, Seq<char>)> {
    match (sum_column(items), avg_column(items)) {
        (Some(a), Some(b)) => Some((a, b)),
        _ => None,
    }
}

/// The columns of the last sum and of the last average, if there are both.
pub fn detect_sum_avg_cols(parsed: &ParsedQuery) -> (r: Option<(&str, &str)>)
    ensures
        match r {
            Some((a, b)) => sum_avg_columns(parsed.select_items@) == Some((a@, b@)),
            None => sum_avg_columns(parsed.select_items@) is None,
        },
{
    let items = &parsed.select_items;
    let mut sum: Option<&str> = None;
    let mut avg: Option<&str> = None;
    let mut i: usize = 0;
    assert(items@.take(0) =~= Seq::<SelectProjection>::empty());
    while i < items.len()
        invariant
            i <= items@.len(),
            match sum {
                Some(s) => sum_column(items@.take(i as int)) == Some(s@),
                None => sum_column(items@.take(i as int)) is None,
            },
            match avg {
                Some(s) => avg_column(items@.take(i as int)) == Some(s@),
                None => avg_column(items@.take(i as int)) is None,
            },
        decreases items@.len() - i,
    {
        assert(items@.take(i + 1).drop_last() =~= items@.take(i as int));
        match &items[i].kind {
            SelectItemKind::Sum(e) => {
                sum = column_ref(e);
            },
            SelectItemKind::Avg(e) => {
                avg = column_ref(e);
            },
            _ => {},
        }
        i = i + 1;
    }
    assert(items@.take(i as int) =~= items@);
    match (sum, avg) {
        (Some(a), Some(b)) => Some((a, b)),
        _ => None,
    }
}

/// Whether all projections are columns, counts, sums or averages.
pub open spec fn pair_aggregates(items: Seq<SelectProjection>) -> bool {
    forall|i: int| 0 <= i < items.len() ==> pair_aggregate((#[trigger] items[i]).kind)
}

/// Whether a projection is a column, a count, a sum or an average.
pub open spec fn pair_aggregate(kind: SelectItemKind) -> bool {
    kind is Column || kind is CountAll || kind is Count || kind is Sum || kind is Avg
}

/// Whether all projections are columns, counts, sums or averages.
pub fn only_pair_aggs(items: &Vec<SelectProjection>) -> (r: bool)
    ensures
        r == pair_aggregates(items@),
{
    let mut i: usize = 0;
    while i < items.len()
        invariant
            i <= items@.len(),
            forall|k: int| 0 <= k < i ==> pair_aggregate((#[trigger] items@[k]).kind),
        decreases items@.len() - i,
    {
        let ok = match &items[i].kind {
            SelectItemKind::Column(_) => true,
            SelectItemKind::CountAll => true,
            SelectItemKind::Count(_) => true,
            SelectItemKind::Sum(_) => true,
            SelectItemKind::Avg(_) => true,
            _ => false,
        };
        if !ok {
            assert(!pair_aggregate(items@[i as int].kind));
            return false;
        }
        i = i + 1;
    }
    true
}

/// Whether a grouping expression names a column that is declared with an integer or
/// date type.
pub open spec fn int_grouping(t: Table, q: ParsedQuery, e: Expr) -> bool {
    match group_name(e, q) {
        Some(n) => match declared_type(t.declared(), n) {
            Some(ty) => is_int_type(ty),
            None => false,
        },
        None => false,
    }
}

/// Whether a grouping expression names a column that is declared with an integer or
/// date type.
pub fn groups_by_int(table: &Table, parsed: &ParsedQuery, e: &Expr) -> (r: bool)
    ensures
        r == int_grouping(*table, *parsed, *e),
{
    match group_id_name(e, parsed) {
        Some(n) => match table.column_type(n) {
            Some(ty) => int_typed(ty),
            None => false,
        },
        None => false,
    }
}

/// Rows for some of the groups: the key and its count.
pub open spec fn pair_rows(
    c1: ColumnView,
    c2: ColumnView,
    keys: Seq<u128>,
    numbers: Seq<usize>,
) -> Result<Seq<Seq<CellView>>, Seq<char>>
    decreases numbers.len(),
{
    if numbers.len() == 0 {
        Ok(Seq::empty())
    } else {
        match pair_rows(c1, c2, keys, numbers.drop_last()) {
            Err(m) => Err(m),
            Ok(out) => {
                let g = numbers.last() as int;
                match pair_texts(c1, c2, first_seen(keys)[g]) {
                    Err(m) => Err(m),
                    Ok((a, b)) => Ok(
                        out.push(seq![shown(a), shown(b), counted(tallied(keys)[g] as int)]),
                    ),
                }
            },
        }
    }
}

proof fn lemma_pair_rows_fault(
    c1: ColumnView,
    c2: ColumnView,
    keys: Seq<u128>,
    numbers: Seq<usize>,
    i: int,
)
    requires
        0 <= i <= numbers.len(),
        pair_rows(c1, c2, keys, numbers.take(i)) is Err,
    ensures
        pair_rows(c1, c2, keys, numbers) == pair_rows(c1, c2, keys, numbers.take(i)),
    decreases numbers.len() - i,
{
    if i == numbers.len() {
        assert(numbers.take(i) =~= numbers);
    } else {
        assert(numbers.take(i + 1).drop_last() =~= numbers.take(i));
        lemma_pair_rows_fault(c1, c2, keys, numbers, i + 1);
    }
}

/// Rows for some of the groups: the key and its count.
fn show_pairs(
    c1: &ColumnData,
    c2: &ColumnData,
    seen: &Vec<u128>,
    counts: &Vec<u64>,
    numbers: &Vec<usize>,
    Ghost(keys): Ghost<Seq<u128>>,
) -> (r: Result<Vec<Vec<Cell>>, Error>)
    requires
        seen@ == first_seen(keys),
        counts@ == tallied(keys),
        forall|i: int| 0 <= i < numbers@.len() ==> (#[trigger] numbers@[i]) < seen@.len(),
    ensures
        match r {
            Ok(v) => yields(pair_rows(c1@, c2@, keys, numbers@), cell_rows(v@)) && v@.len()
                == numbers@.len(),
            Err(e) => fails(pair_rows(c1@, c2@, keys, numbers@), e@),
        },
{
    let mut out: Vec<Vec<Cell>> = Vec::new();
    let mut i: usize = 0;
    assert(cell_rows(out@) =~= Seq::<Seq<CellView>>::empty());
    assert(numbers@.take(0) =~= Seq::<usize>::empty());
    while i < numbers.len()
        invariant
            i <= numbers@.len(),
            seen@ == first_seen(keys),
            counts@ == tallied(keys),
            forall|i: int| 0 <= i < numbers@.len() ==> (#[trigger] numbers@[i]) < seen@.len(),
            yields(pair_rows(c1@, c2@, keys, numbers@.take(i as int)), cell_rows(out@)),
            out@.len() == i,
        decreases numbers@.len() - i,
    {
        assert(numbers@.take(i + 1).drop_last() =~= numbers@.take(i as int));
        assert(numbers@[i as int] < seen@.len());
        let g: usize = numbers[i];
        match unpack_pair_keys(c1, c2, seen[g]) {
            Err(e) => {
                proof {
                    lemma_pair_rows_fault(c1@, c2@, keys, numbers@, i + 1);
                }
                return Err(e);
            },
            Ok((a, b)) => {
                let mut row: Vec<Cell> = Vec::new();
                row.push(Cell::Text(a));
                row.push(Cell::Text(b));
                row.push(number_cell(counts[g] as i128));
                assert(cells(row@) =~= seq![
                    shown(a@),
                    shown(b@),
                    counted(counts@[g as int] as int),
                ]);
                let ghost sofar = out@;
                out.push(row);
                assert(cell_rows(out@) =~= cell_rows(sofar).push(cells(row@)));
            },
        }
        i = i + 1;
    }
    assert(numbers@.take(i as int) =~= numbers@);
    Ok(out)
}

/// The most frequent packed keys of a query.
pub open spec fn top_pair_numbers(q: ParsedQuery, keys: Seq<u128>) -> Seq<usize> {
    top(
        by_count_and_pair(tallied(keys), first_seen(keys)),
        tallied(keys).len(),
        query_limit(q),
        query_offset(q),
    )
}

/// Whether a query has a limit and is sorted first by descending count.
pub open spec fn wants_top(q: ParsedQuery) -> bool {
    query_limit(q) < usize::MAX && by_count_desc(q)
}

/// What grouping rows by two integer columns comes to.
pub open spec fn pair_counts(q: ParsedQuery, c1: ColumnView, c2: ColumnView, rows: Seq<usize>) -> Result<
    Option<ResultView>,
    Seq<char>,
> {
    let keys = pair_keys(c1, c2, rows);
    if wants_top(q) {
        match pair_rows(c1, c2, keys, top_pair_numbers(q, keys)) {
            Err(m) => Err(m),
            Ok(out) => Ok(Some(ResultView { columns: labels(q.select_items@), rows: out })),
        }
    } else {
        match pair_rows(c1, c2, keys, all_numbers(first_seen(keys).len())) {
            Err(m) => Err(m),
            Ok(out) => Ok(Some(count_sorted(q, tallied(keys), out))),
        }
    }
}

/// What counting rows by two integer columns comes to.
pub open spec fn pair_count_result(t: Table, q: ParsedQuery, n: nat) -> Result<
    Option<ResultView>,
    Seq<char>,
> {
    if q.group_by@.len() != 2 || !shows_counts(q) || !int_grouping(t, q, q.group_by@[0]) || !int_grouping(t, q, q.group_by@[1]) {
        Ok(None)
    } else {
        match (
            column_of(t, group_name(q.group_by@[0], q)->Some_0),
            column_of(t, group_name(q.group_by@[1], q)->Some_0),
        ) {
            (Err(m), _) => Err(m),
            (_, Err(m)) => Err(m),
            (Ok(c1), Ok(c2)) => if c1 is Utf8 {
                Err("k1"@)
            } else if c2 is Utf8 {
                Err("k2"@)
            } else {
                with_rows(t, q, n, |rows: Seq<usize>| pair_counts(q, c1, c2, rows))
            },
        }
    }
}

/// All numbers below `n`.
pub fn count_up(n: usize) -> (v: Vec<usize>)
    ensures
        v@ == all_numbers(n as nat),
{
    let mut v: Vec<usize> = Vec::new();
    let mut i: usize = 0;
    while i < n
        invariant
            i <= n,
            v@ =~= all_numbers(i as nat),
        decreases n - i,
    {
        v.push(i);
        i = i + 1;
    }
    v
}

/// Counts rows by two integer columns, if that is what the query asks for.
pub fn try_fused_int_pair_count(table: &Table, parsed: &ParsedQuery, row_count: usize) -> (r: Result<
    Option<QueryResult>,
    Error,
>)
    requires
        table.wf(),
        table.holds_rows(row_count as int),
    ensures
        attempt(r) == pair_count_result(*table, *parsed, row_count as nat),
{
    if parsed.group_by.len() != 2 || !is_count_form(parsed) || !groups_by_int(table, parsed, &parsed.group_by[0]) || !groups_by_int(
        table,
        parsed,
        &parsed.group_by[1],
    ) {
        return Ok(None);
    }
    let (k1, k2) = match (
        group_id_name(&parsed.group_by[0], parsed),
        group_id_name(&parsed.group_by[1], parsed),
    ) {
        (Some(a), Some(b)) => (a, b),
        _ => {
            return Ok(None);
        },
    };
    let c1 = match any_column(table, k1, row_count) {
        Err(e) => {
            return Err(e);
        },
        Ok(c) => c,
    };
    let c2 = match any_column(table, k2, row_count) {
        Err(e) => {
            return Err(e);
        },
        Ok(c) => c,
    };
    if as_int_cols(c1).is_none() {
        return Err(Error::msg("k1"));
    }
    if as_int_cols(c2).is_none() {
        return Err(Error::msg("k2"));
    }
    let rows = match choose_rows(table, parsed, row_count) {
        Err(e) => {
            return Err(e);
        },
        Ok(None) => {
            return Ok(Some(empty_result(parsed)));
        },
        Ok(Some(r)) => r,
    };
    let keys = match pack_rows(c1, c2, &rows, row_count) {
        Some(k) => k,
        None => {
            return Err(Error::msg("k1"));
        },
    };
    let (index, counts) = count_ints(&keys);
    let limit: usize = limit_of(parsed);
    if limit < usize::MAX && orders_by_count_desc(parsed) {
        let t = top_counts_u128_key(&counts, index.all(), limit, offset_of(parsed));
        return match show_pairs(c1, c2, index.all(), &counts, &t, Ghost(keys@)) {
            Err(e) => Err(e),
            Ok(out) => Ok(Some(QueryResult { columns: headings(parsed), rows: out })),
        };
    }
    let all = count_up(index.len());
    match show_pairs(c1, c2, index.all(), &counts, &all, Ghost(keys@)) {
        Err(e) => Err(e),
        Ok(out) => Ok(Some(finish_count_sorted_scan(parsed, &counts, &out))),
    }
}

/// The numbers of a column on rows.
pub open spec fn row_ints(c: ColumnView, rows: Seq<usize>) -> Seq<i64> {
    mapped(rows, |r: usize| col_int(c, r as int))
}

/// The numbers of a column on rows.
pub fn ints_on_rows(c: &ColumnData, rows: &Vec<usize>, row_count: usize) -> (vals: Vec<i64>)
    requires
        c@.len() >= row_count,
        forall|i: int| 0 <= i < rows@.len() ==> (#[trigger] rows@[i]) < row_count,
    ensures
        vals@ == row_ints(c@, rows@),
{
    let mut vals: Vec<i64> = Vec::new();
    let mut i: usize = 0;
    while i < rows.len()
        invariant
            i <= rows@.len(),
            c@.len() >= row_count,
            forall|i: int| 0 <= i < rows@.len() ==> (#[trigger] rows@[i]) < row_count,
            vals@.len() == i,
            forall|k: int| 0 <= k < i ==> (#[trigger] vals@[k]) == col_int(c@, rows@[k] as int),
        decreases rows@.len() - i,
    {
        assert(rows@[i as int] < row_count);
        vals.push(crate::expr::eval::col_i64_at(c, rows[i]));
        i = i + 1;
    }
    assert(vals@ =~= row_ints(c@, rows@));
    vals
}

/// The columns that rows are grouped by, summed and averaged.
pub struct PairColumns {
    pub first: ColumnView,
    pub second: ColumnView,
    pub summed: ColumnView,
    pub averaged: ColumnView,
}

impl PairColumns {
    /// Whether the columns to be summed and averaged hold numbers.
    pub open spec fn numeric(self) -> bool {
        !(self.summed is Utf8) && !(self.averaged is Utf8)
    }

    /// The packed keys of rows.
    pub open spec fn keys(self, rows: Seq<usize>) -> Seq<u128> {
        pair_keys(self.first, self.second, rows)
    }

    /// The row that is shown for a group: its key, its count, a sum and an average.
    pub open spec fn row(self, rows: Seq<usize>, g: int) -> Result<Seq<CellView>, Seq<char>> {
        let keys = self.keys(rows);
        let key = first_seen(keys)[g];
        match pair_texts(self.first, self.second, key) {
            Err(m) => Err(m),
            Ok((a, b)) => Ok(
                seq![
                    shown(a),
                    shown(b),
                    counted(tallied(keys)[g] as int),
                    if self.numeric() {
                        counted(sum_at(keys, row_ints(self.summed, rows), key))
                    } else {
                        counted(0)
                    },
                    if self.numeric() {
                        CellView::Ratio {
                            sum: sum_at(keys, row_ints(self.averaged, rows), key),
                            count: tallied(keys)[g] as nat,
                        }
                    } else {
                        CellView::Ratio { sum: 0, count: 1 }
                    },
                ],
            ),
        }
    }

    /// The rows that are shown for some of the groups.
    pub open spec fn rows(self, rows: Seq<usize>, numbers: Seq<usize>) -> Result<
        Seq<Seq<CellView>>,
        Seq<char>,
    >
        decreases numbers.len(),
    {
        if numbers.len() == 0 {
            Ok(Seq::empty())
        } else {
            match self.rows(rows, numbers.drop_last()) {
                Err(m) => Err(m),
                Ok(out) => match self.row(rows, numbers.last() as int) {
                    Err(m) => Err(m),
                    Ok(r) => Ok(out.push(r)),
                },
            }
        }
    }

    proof fn lemma_rows_fault(self, rows: Seq<usize>, numbers: Seq<usize>, i: int)
        requires
            0 <= i <= numbers.len(),
            self.rows(rows, numbers.take(i)) is Err,
        ensures
            self.rows(rows, numbers) == self.rows(rows, numbers.take(i)),
        decreases numbers.len() - i,
    {
        if i == numbers.len() {
            assert(numbers.take(i) =~= numbers);
        } else {
            assert(numbers.take(i + 1).drop_last() =~= numbers.take(i));
            self.lemma_rows_fault(rows, numbers, i + 1);
        }
    }

    /// What grouping the rows of a query comes to.
    pub open spec fn answer(self, q: ParsedQuery, rows: Seq<usize>) -> Result<
        Option<AnswerView>,
        Seq<char>,
    > {
        let keys = self.keys(rows);
        if wants_top(q) {
            match self.rows(rows, top_pair_numbers(q, keys)) {
                Err(m) => Err(m),
                Ok(out) => Ok(
                    Some(
                        AnswerView::Done(
                            ResultView { columns: labels(q.select_items@), rows: out },
                        ),
                    ),
                ),
            }
        } else {
            match self.rows(rows, all_numbers(first_seen(keys).len())) {
                Err(m) => Err(m),
                Ok(out) => if sortable(q, 5) {
                    Ok(Some(AnswerView::Sort(to_sort(q, out))))
                } else {
                    Err("order column not in the result"@)
                },
            }
        }
    }
}

/// Whether a query shows two keys, each pair with its count, a sum and an average, sorted
/// by the count if at all, and has no condition on groups.
pub open spec fn pair_form(q: ParsedQuery) -> bool {
    &&& q.group_by@.len() == 2
    &&& q.having is None
    &&& keys_then(q, 3, 0)
    &&& counts_rows(q.select_items@[2])
    &&& q.select_items@[3].kind is Sum
    &&& q.select_items@[4].kind is Avg
}

/// Whether a query shows two keys, each pair with its count, a sum and an average, sorted
/// by the count if at all, and has no condition on groups.
pub fn is_pair_form(parsed: &ParsedQuery) -> (r: bool)
    ensures
        r == pair_form(*parsed),
{
    if parsed.group_by.len() != 2 || parsed.having.is_some() || !is_keys_then(parsed, 3, 0) {
        return false;
    }
    let sums = match &parsed.select_items[3].kind {
        SelectItemKind::Sum(_) => true,
        _ => false,
    };
    let averages = match &parsed.select_items[4].kind {
        SelectItemKind::Avg(_) => true,
        _ => false,
    };
    is_count(&parsed.select_items[2]) && sums && averages
}

/// What grouping by two integer columns with a sum and an average comes to.
pub open spec fn pair_aggs_answer(t: Table, q: ParsedQuery, n: nat) -> Result<
    Option<AnswerView>,
    Seq<char>,
> {
    if !pair_form(q) || !int_grouping(t, q, q.group_by@[0]) || !int_grouping(
        t,
        q,
        q.group_by@[1],
    ) || sum_avg_columns(q.select_items@) is None || !pair_aggregates(q.select_items@) {
        Ok(None)
    } else {
        match (
            column_of(t, group_name(q.group_by@[0], q)->Some_0),
            column_of(t, group_name(q.group_by@[1], q)->Some_0),
            column_of(t, sum_avg_columns(q.select_items@)->Some_0.0),
            column_of(t, sum_avg_columns(q.select_items@)->Some_0.1),
        ) {
            (Err(m), _, _, _) => Err(m),
            (_, Err(m), _, _) => Err(m),
            (_, _, Err(m), _) => Err(m),
            (_, _, _, Err(m)) => Err(m),
            (Ok(c1), Ok(c2), Ok(s), Ok(a)) => if c1 is Utf8 {
                Err("k1"@)
            } else if c2 is Utf8 {
                Err("k2"@)
            } else {
                let cols = PairColumns { first: c1, second: c2, summed: s, averaged: a };
                match chosen(t, q, n) {
                    Err(m) => Err(m),
                    Ok(None) => Ok(Some(AnswerView::Done(no_rows(q)))),
                    Ok(Some(rows)) => cols.answer(q, rows),
                }
            },
        }
    }
}

/// The rows that are shown for some of the groups.
fn show_pair_aggs(
    c1: &ColumnData,
    c2: &ColumnData,
    seen: &Vec<u128>,
    counts: &Vec<u64>,
    sums: &Option<(Vec<i128>, Vec<i128>)>,
    numbers: &Vec<usize>,
    Ghost(cols): Ghost<PairColumns>,
    Ghost(rows): Ghost<Seq<usize>>,
) -> (r: Result<Vec<Vec<Cell>>, Error>)
    requires
        cols.first == c1@,
        cols.second == c2@,
        seen@ == first_seen(cols.keys(rows)),
        counts@ == tallied(cols.keys(rows)),
        forall|g: int| 0 <= g < counts@.len() ==> (#[trigger] counts@[g]) > 0,
        match sums {
            Some((s, a)) => {
                &&& cols.numeric()
                &&& s@.len() == seen@.len()
                &&& a@.len() == seen@.len()
                &&& forall|g: int|
                    0 <= g < seen@.len() ==> (#[trigger] s@[g]) == sum_at(
                        cols.keys(rows),
                        row_ints(cols.summed, rows),
                        seen@[g],
                    ) && s@[g] > i128::MIN
                &&& forall|g: int|
                    0 <= g < seen@.len() ==> (#[trigger] a@[g]) == sum_at(
                        cols.keys(rows),
                        row_ints(cols.averaged, rows),
                        seen@[g],
                    )
            },
            None => !cols.numeric(),
        },
        forall|i: int| 0 <= i < numbers@.len() ==> (#[trigger] numbers@[i]) < seen@.len(),
    ensures
        match r {
            Ok(v) => yields(cols.rows(rows, numbers@), cell_rows(v@)) && forall|i: int|
                0 <= i < v@.len() ==> (#[trigger] v@[i])@.len() == 5,
            Err(e) => fails(cols.rows(rows, numbers@), e@),
        },
{
    let mut out: Vec<Vec<Cell>> = Vec::new();
    let mut i: usize = 0;
    assert(cell_rows(out@) =~= Seq::<Seq<CellView>>::empty());
    assert(numbers@.take(0) =~= Seq::<usize>::empty());
    while i < numbers.len()
        invariant
            i <= numbers@.len(),
            cols.first == c1@,
            cols.second == c2@,
            seen@ == first_seen(cols.keys(rows)),
            counts@ == tallied(cols.keys(rows)),
            forall|g: int| 0 <= g < counts@.len() ==> (#[trigger] counts@[g]) > 0,
            match sums {
                Some((s, a)) => {
                    &&& cols.numeric()
                    &&& s@.len() == seen@.len()
                    &&& a@.len() == seen@.len()
                    &&& forall|g: int|
                        0 <= g < seen@.len() ==> (#[trigger] s@[g]) == sum_at(
                            cols.keys(rows),
                            row_ints(cols.summed, rows),
                            seen@[g],
                        ) && s@[g] > i128::MIN
                    &&& forall|g: int|
                        0 <= g < seen@.len() ==> (#[trigger] a@[g]) == sum_at(
                            cols.keys(rows),
                            row_ints(cols.averaged, rows),
                            seen@[g],
                        )
                },
                None => !cols.numeric(),
            },
            forall|i: int| 0 <= i < numbers@.len() ==> (#[trigger] numbers@[i]) < seen@.len(),
            yields(cols.rows(rows, numbers@.take(i as int)), cell_rows(out@)),
            forall|i: int| 0 <= i < out@.len() ==> (#[trigger] out@[i])@.len() == 5,
        decreases numbers@.len() - i,
    {
        assert(numbers@.take(i + 1).drop_last() =~= numbers@.take(i as int));
        assert(numbers@[i as int] < seen@.len());
        let g: usize = numbers[i];
        match unpack_pair_keys(c1, c2, seen[g]) {
            Err(e) => {
                proof {
                    cols.lemma_rows_fault(rows, numbers@, i + 1);
                }
                return Err(e);
            },
            Ok((a, b)) => {
                let (sum, ratio) = match sums {
                    Some((s, w)) => (
                        number_cell(s[g]),
                        Cell::Ratio { sum: w[g], count: counts[g] },
                    ),
                    None => (number_cell(0), Cell::Ratio { sum: 0, count: 1 }),
                };
                let mut row: Vec<Cell> = Vec::new();
                row.push(Cell::Text(a));
                row.push(Cell::Text(b));
                row.push(number_cell(counts[g] as i128));
                row.push(sum);
                row.push(ratio);
                assert(cells(row@) =~= cols.row(rows, g as int)->Ok_0);
                let ghost sofar = out@;
                out.push(row);
                assert(cell_rows(out@) =~= cell_rows(sofar).push(cells(row@)));
            },
        }
        i = i + 1;
    }
    assert(numbers@.take(i as int) =~= numbers@);
    Ok(out)
}

/// Groups by two integer columns with a sum and an average, if that is what the
/// query asks for.
pub fn try_fused_int_pair_aggs(table: &Table, parsed: &ParsedQuery, row_count: usize) -> (r: Result<
    Option<Answer>,
    Error,
>)
    requires
        table.wf(),
        table.holds_rows(row_count as int),
    ensures
        attempted(r) == pair_aggs_answer(*table, *parsed, row_count as nat),
        r matches Ok(Some(a)) ==> a.wf(),
{
    if !is_pair_form(parsed) || !groups_by_int(table, parsed, &parsed.group_by[0])
        || !groups_by_int(table, parsed, &parsed.group_by[1]) {
        return Ok(None);
    }
    let k1 = match group_id_name(&parsed.group_by[0], parsed) {
        Some(n) => n,
        None => {
            return Ok(None);
        },
    };
    let k2 = match group_id_name(&parsed.group_by[1], parsed) {
        Some(n) => n,
        None => {
            return Ok(None);
        },
    };
    let (sum_col, avg_col) = match detect_sum_avg_cols(parsed) {
        Some(p) => p,
        None => {
            return Ok(None);
        },
    };
    if !only_pair_aggs(&parsed.select_items) {
        return Ok(None);
    }
    let c1 = match any_column(table, k1, row_count) {
        Err(e) => {
            return Err(e);
        },
        Ok(c) => c,
    };
    let c2 = match any_column(table, k2, row_count) {
        Err(e) => {
            return Err(e);
        },
        Ok(c) => c,
    };
    let sum_c = match any_column(table, sum_col, row_count) {
        Err(e) => {
            return Err(e);
        },
        Ok(c) => c,
    };
    let avg_c = match any_column(table, avg_col, row_count) {
        Err(e) => {
            return Err(e);
        },
        Ok(c) => c,
    };
    if as_int_cols(c1).is_none() {
        return Err(Error::msg("k1"));
    }
    if as_int_cols(c2).is_none() {
        return Err(Error::msg("k2"));
    }
    let ghost cols = PairColumns { first: c1@, second: c2@, summed: sum_c@, averaged: avg_c@ };
    let rows = match choose_rows(table, parsed, row_count) {
        Err(e) => {
            return Err(e);
        },
        Ok(None) => {
            return Ok(Some(Answer::Done(empty_result(parsed))));
        },
        Ok(Some(r)) => r,
    };
    let keys = match pack_rows(c1, c2, &rows, row_count) {
        Some(k) => k,
        None => {
            return Err(Error::msg("k1"));
        },
    };
    let (index, ids) = group_ints(&keys);
    let n: usize = index.len();
    proof {
        lemma_first_seen_distinct(keys@);
    }
    let counts = count_groups::<u128>(n, &ids, Ghost(index@), Ghost(keys@));
    let both = as_int_cols(sum_c).is_some() && as_int_cols(avg_c).is_some();
    let sums: Option<(Vec<i128>, Vec<i128>)> = if both {
        let sv = ints_on_rows(sum_c, &rows, row_count);
        let av = ints_on_rows(avg_c, &rows, row_count);
        let s = sum_groups::<u128>(n, &ids, &sv, Ghost(index@), Ghost(keys@));
        let a = sum_groups::<u128>(n, &ids, &av, Ghost(index@), Ghost(keys@));
        proof {
            assert forall|g: int| 0 <= g < n implies (#[trigger] s@[g]) > i128::MIN by {
                assert(s@[g] >= -0x7fff_ffff_ffff_ffff_ffff_ffff_ffff_ffff);
            }
        }
        Some((s, a))
    } else {
        None
    };
    proof {
        assert forall|g: int| 0 <= g < counts@.len() implies (#[trigger] counts@[g]) > 0 by {
            assert(index@.contains(index@[g]));
            crate::exec::hash::lemma_occurrences(keys@, index@[g]);
        }
    }
    let limit: usize = limit_of(parsed);
    if limit < usize::MAX && orders_by_count_desc(parsed) {
        let t = top_counts_u128_key(&counts, index.all(), limit, offset_of(parsed));
        return match show_pair_aggs(
            c1,
            c2,
            index.all(),
            &counts,
            &sums,
            &t,
            Ghost(cols),
            Ghost(rows@),
        ) {
            Err(e) => Err(e),
            Ok(out) => Ok(
                Some(Answer::Done(QueryResult { columns: headings(parsed), rows: out })),
            ),
        };
    }
    let all = count_up(n);
    match show_pair_aggs(
        c1,
        c2,
        index.all(),
        &counts,
        &sums,
        &all,
        Ghost(cols),
        Ghost(rows@),
    ) {
        Err(e) => Err(e),
        Ok(out) => match Unsorted::of_width(parsed, out, 5) {
            Some(u) => Ok(Some(Answer::Sort(u))),
            None => Err(Error::msg("order column not in the result")),
        },
    }
}

} // verus!
