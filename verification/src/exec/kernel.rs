//! What the special ways of answering a query share: the columns and rows that they
//! work on, and the rows that they return.
use crate::error::{fails, yields, Error};
use crate::exec::agg_heap::{by_count, top, top_counts};
use crate::exec::filter::{build_mask, masked};
use crate::exec::group::{
    covered_rows, find_key_shown, key_shown, resolve_group_expr, resolved,
};
use crate::exec::grouping::{count_texts, tallied};
use crate::exec::hash::{first_seen, text_lists, TextIndex};
use crate::exec::mask_util::selected;
use crate::exec::result::{
    cell_rows, cells, counted, headings, labels, limit_of, no_rows, number_cell, offset_of,
    query_limit, query_offset, shown, Cell, CellView, QueryResult, ResultView,
};
use crate::exec::sorting::{
    alias_is, called, called_function, counts_rows, has_alias, order_column, pick_rows,
    picked_rows, resolve_order_column,
};
use crate::expr::eval::column_of;
use crate::sql::ast::{Expr, ParsedQuery, SelectItemKind, SelectProjection};
use crate::sql::query::{column_name, column_ref};
use crate::storage::column::{ColumnData, ColumnView};
use crate::storage::pod::PodStorage;
use crate::storage::table::Table;
use crate::storage::utf8_col::Utf8Column;
use crate::text::{str_eq, texts};
use vstd::prelude::*;

verus! {

/// What comes after a step that may fail or not apply.
pub open spec fn bind<A, B>(
    r: Result<Option<A>, Seq<char>>,
    f: spec_fn(A) -> Result<Option<B>, Seq<char>>,
) -> Result<Option<B>, Seq<char>> {
    match r {
        Err(m) => Err(m),
        Ok(None) => Ok(None),
        Ok(Some(a)) => f(a),
    }
}

/// The rows that a query selects, unless no group of them can meet the condition on
/// groups.
pub open spec fn chosen(t: Table, q: ParsedQuery, n: nat) -> Result<Option<Seq<usize>>, Seq<char>> {
    match masked(t, q, n) {
        Err(m) => Err(m),
        Ok(None) => Ok(None),
        Ok(Some(mask)) => Ok(Some(selected(mask))),
    }
}

/// What comes of the rows that a query selects.
pub open spec fn with_rows(
    t: Table,
    q: ParsedQuery,
    n: nat,
    f: spec_fn(Seq<usize>) -> Result<Option<ResultView>, Seq<char>>,
) -> Result<Option<ResultView>, Seq<char>> {
    match chosen(t, q, n) {
        Err(m) => Err(m),
        Ok(None) => Ok(Some(no_rows(q))),
        Ok(Some(rows)) => f(rows),
    }
}

/// The rows that a query selects, unless no group of them can meet the condition on
/// groups.
pub fn choose_rows(table: &Table, parsed: &ParsedQuery, row_count: usize) -> (r: Result<
    Option<Vec<usize>>,
    Error,
>)
    requires
        table.wf(),
        table.holds_rows(row_count as int),
    ensures
        match r {
            Err(e) => fails(chosen(*table, *parsed, row_count as nat), e@),
            Ok(None) => yields(chosen(*table, *parsed, row_count as nat), None),
            Ok(Some(rows)) => {
                &&& yields(chosen(*table, *parsed, row_count as nat), Some(rows@))
                &&& forall|i: int| 0 <= i < rows@.len() ==> (#[trigger] rows@[i]) < row_count
                &&& forall|i: int|
                    0 <= i < rows@.len() ==> table.covers_row((#[trigger] rows@[i]) as int)
            },
        },
{
    match build_mask(table, parsed, row_count) {
        Err(e) => Err(e),
        Ok(None) => Ok(None),
        Ok(Some(mask)) => Ok(Some(covered_rows(table, &mask))),
    }
}

/// The numbers of a 64-bit column.
pub open spec fn i64s_of(t: Table, name: Seq<char>) -> Result<Option<Seq<i64>>, Seq<char>> {
    match column_of(t, name) {
        Err(m) => Err(m),
        Ok(ColumnView::Int64(v)) => Ok(Some(v)),
        Ok(_) => Ok(None),
    }
}

/// The numbers of a 32-bit column.
pub open spec fn i32s_of(t: Table, name: Seq<char>) -> Result<Option<Seq<i32>>, Seq<char>> {
    match column_of(t, name) {
        Err(m) => Err(m),
        Ok(ColumnView::Int32(v)) => Ok(Some(v)),
        Ok(_) => Ok(None),
    }
}

/// The numbers of a 16-bit column.
pub open spec fn i16s_of(t: Table, name: Seq<char>) -> Result<Option<Seq<i16>>, Seq<char>> {
    match column_of(t, name) {
        Err(m) => Err(m),
        Ok(ColumnView::Int16(v)) => Ok(Some(v)),
        Ok(_) => Ok(None),
    }
}

/// The days of a date column.
pub open spec fn dates_of(t: Table, name: Seq<char>) -> Result<Option<Seq<i32>>, Seq<char>> {
    match column_of(t, name) {
        Err(m) => Err(m),
        Ok(ColumnView::Date(v)) => Ok(Some(v)),
        Ok(_) => Ok(None),
    }
}

/// The times of a timestamp column.
pub open spec fn times_of(t: Table, name: Seq<char>) -> Result<Option<Seq<i64>>, Seq<char>> {
    match column_of(t, name) {
        Err(m) => Err(m),
        Ok(ColumnView::Timestamp(v)) => Ok(Some(v)),
        Ok(_) => Ok(None),
    }
}

/// The texts of a text column.
pub open spec fn texts_of(t: Table, name: Seq<char>) -> Result<Option<Seq<Seq<char>>>, Seq<char>> {
    match column_of(t, name) {
        Err(m) => Err(m),
        Ok(ColumnView::Utf8(v)) => Ok(Some(v)),
        Ok(_) => Ok(None),
    }
}

/// A column of any type that is in memory and has a number of rows.
pub fn any_column<'a>(table: &'a Table, name: &str, rows: usize) -> (r: Result<
    &'a ColumnData,
    Error,
>)
    requires
        table.wf(),
        table.holds_rows(rows as int),
    ensures
        match r {
            Err(e) => fails(column_of(*table, name@), e@),
            Ok(c) => yields(column_of(*table, name@), c@) && c.wf() && c@.len() >= rows,
        },
{
    match table.column(name) {
        Err(e) => Err(e),
        Ok(c) => {
            proof {
                if rows > 0 {
                    assert(table.covers_row(rows - 1));
                    table.lemma_covers(name@, rows - 1);
                }
            }
            Ok(c)
        },
    }
}

/// The numbers of a 64-bit column.
pub fn i64_column<'a>(table: &'a Table, name: &str, rows: usize) -> (r: Result<
    Option<&'a PodStorage<i64>>,
    Error,
>)
    requires
        table.wf(),
        table.holds_rows(rows as int),
    ensures
        match r {
            Err(e) => fails(i64s_of(*table, name@), e@),
            Ok(None) => yields(i64s_of(*table, name@), None),
            Ok(Some(v)) => yields(i64s_of(*table, name@), Some(v@)) && v@.len() >= rows,
        },
{
    match any_column(table, name, rows) {
        Err(e) => Err(e),
        Ok(c) => match c {
            ColumnData::Int64(v) => Ok(Some(v)),
            _ => Ok(None),
        },
    }
}

/// The numbers of a 32-bit column.
pub fn i32_column<'a>(table: &'a Table, name: &str, rows: usize) -> (r: Result<
    Option<&'a PodStorage<i32>>,
    Error,
>)
    requires
        table.wf(),
        table.holds_rows(rows as int),
    ensures
        match r {
            Err(e) => fails(i32s_of(*table, name@), e@),
            Ok(None) => yields(i32s_of(*table, name@), None),
            Ok(Some(v)) => yields(i32s_of(*table, name@), Some(v@)) && v@.len() >= rows,
        },
{
    match any_column(table, name, rows) {
        Err(e) => Err(e),
        Ok(c) => match c {
            ColumnData::Int32(v) => Ok(Some(v)),
            _ => Ok(None),
        },
    }
}

/// The numbers of a 16-bit column.
pub fn i16_column<'a>(table: &'a Table, name: &str, rows: usize) -> (r: Result<
    Option<&'a PodStorage<i16>>,
    Error,
>)
    requires
        table.wf(),
        table.holds_rows(rows as int),
    ensures
        match r {
            Err(e) => fails(i16s_of(*table, name@), e@),
            Ok(None) => yields(i16s_of(*table, name@), None),
            Ok(Some(v)) => yields(i16s_of(*table, name@), Some(v@)) && v@.len() >= rows,
        },
{
    match any_column(table, name, rows) {
        Err(e) => Err(e),
        Ok(c) => match c {
            ColumnData::Int16(v) => Ok(Some(v)),
            _ => Ok(None),
        },
    }
}

/// The days of a date column.
pub fn date_column<'a>(table: &'a Table, name: &str, rows: usize) -> (r: Result<
    Option<&'a PodStorage<i32>>,
    Error,
>)
    requires
        table.wf(),
        table.holds_rows(rows as int),
    ensures
        match r {
            Err(e) => fails(dates_of(*table, name@), e@),
            Ok(None) => yields(dates_of(*table, name@), None),
            Ok(Some(v)) => yields(dates_of(*table, name@), Some(v@)) && v@.len() >= rows,
        },
{
    match any_column(table, name, rows) {
        Err(e) => Err(e),
        Ok(c) => match c {
            ColumnData::Date(v) => Ok(Some(v)),
            _ => Ok(None),
        },
    }
}

/// The times of a timestamp column.
pub fn time_column<'a>(table: &'a Table, name: &str, rows: usize) -> (r: Result<
    Option<&'a PodStorage<i64>>,
    Error,
>)
    requires
        table.wf(),
        table.holds_rows(rows as int),
    ensures
        match r {
            Err(e) => fails(times_of(*table, name@), e@),
            Ok(None) => yields(times_of(*table, name@), None),
            Ok(Some(v)) => yields(times_of(*table, name@), Some(v@)) && v@.len() >= rows,
        },
{
    match any_column(table, name, rows) {
        Err(e) => Err(e),
        Ok(c) => match c {
            ColumnData::Timestamp(v) => Ok(Some(v)),
            _ => Ok(None),
        },
    }
}

/// The texts of a text column.
pub fn text_column<'a>(table: &'a Table, name: &str, rows: usize) -> (r: Result<
    Option<&'a Utf8Column>,
    Error,
>)
    requires
        table.wf(),
        table.holds_rows(rows as int),
    ensures
        match r {
            Err(e) => fails(texts_of(*table, name@), e@),
            Ok(None) => yields(texts_of(*table, name@), None),
            Ok(Some(v)) => yields(texts_of(*table, name@), Some(v@)) && v@.len() >= rows && v.wf(),
        },
{
    match any_column(table, name, rows) {
        Err(e) => Err(e),
        Ok(c) => match c {
            ColumnData::Utf8(v) => Ok(Some(v)),
            _ => Ok(None),
        },
    }
}

/// What a function gives on each row.
pub open spec fn mapped<T>(rows: Seq<usize>, f: spec_fn(usize) -> T) -> Seq<T> {
    Seq::new(rows.len(), |i: int| f(rows[i]))
}

/// A key of texts for each row.
pub fn text_keys<F: Fn(usize) -> Vec<String>>(
    rows: &Vec<usize>,
    key_at: F,
    Ghost(key): Ghost<spec_fn(usize) -> Seq<Seq<char>>>,
) -> (keys: Vec<Vec<String>>)
    requires
        forall|i: int| 0 <= i < rows@.len() ==> key_at.requires((#[trigger] rows@[i],)),
        forall|r: usize, v: Vec<String>| key_at.ensures((r,), v) ==> texts(v@) == key(r),
    ensures
        text_lists(keys@) == mapped(rows@, key),
{
    let mut keys: Vec<Vec<String>> = Vec::new();
    let mut i: usize = 0;
    while i < rows.len()
        invariant
            i <= rows@.len(),
            forall|i: int| 0 <= i < rows@.len() ==> key_at.requires((#[trigger] rows@[i],)),
            forall|r: usize, v: Vec<String>| key_at.ensures((r,), v) ==> texts(v@) == key(r),
            keys@.len() == i,
            forall|k: int| 0 <= k < i ==> texts((#[trigger] keys@[k])@) == key(rows@[k]),
        decreases rows@.len() - i,
    {
        assert(key_at.requires((rows@[i as int],)));
        keys.push(key_at(rows[i]));
        i = i + 1;
    }
    assert(text_lists(keys@) =~= mapped(rows@, key));
    keys
}

/// An integer key for each row.
pub fn int_keys<F: Fn(usize) -> u128>(
    rows: &Vec<usize>,
    key_at: F,
    Ghost(key): Ghost<spec_fn(usize) -> u128>,
) -> (keys: Vec<u128>)
    requires
        forall|i: int| 0 <= i < rows@.len() ==> key_at.requires((#[trigger] rows@[i],)),
        forall|r: usize, v: u128| key_at.ensures((r,), v) ==> v == key(r),
    ensures
        keys@ == mapped(rows@, key),
{
    let mut keys: Vec<u128> = Vec::new();
    let mut i: usize = 0;
    while i < rows.len()
        invariant
            i <= rows@.len(),
            forall|i: int| 0 <= i < rows@.len() ==> key_at.requires((#[trigger] rows@[i],)),
            forall|r: usize, v: u128| key_at.ensures((r,), v) ==> v == key(r),
            keys@.len() == i,
            forall|k: int| 0 <= k < i ==> (#[trigger] keys@[k]) == key(rows@[k]),
        decreases rows@.len() - i,
    {
        assert(key_at.requires((rows@[i as int],)));
        keys.push(key_at(rows[i]));
        i = i + 1;
    }
    assert(keys@ =~= mapped(rows@, key));
    keys
}

/// A number for each row.
pub fn int_values<F: Fn(usize) -> i64>(
    rows: &Vec<usize>,
    value_at: F,
    Ghost(value): Ghost<spec_fn(usize) -> i64>,
) -> (vals: Vec<i64>)
    requires
        forall|i: int| 0 <= i < rows@.len() ==> value_at.requires((#[trigger] rows@[i],)),
        forall|r: usize, v: i64| value_at.ensures((r,), v) ==> v == value(r),
    ensures
        vals@ == mapped(rows@, value),
{
    let mut vals: Vec<i64> = Vec::new();
    let mut i: usize = 0;
    while i < rows.len()
        invariant
            i <= rows@.len(),
            forall|i: int| 0 <= i < rows@.len() ==> value_at.requires((#[trigger] rows@[i],)),
            forall|r: usize, v: i64| value_at.ensures((r,), v) ==> v == value(r),
            vals@.len() == i,
            forall|k: int| 0 <= k < i ==> (#[trigger] vals@[k]) == value(rows@[k]),
        decreases rows@.len() - i,
    {
        assert(value_at.requires((rows@[i as int],)));
        vals.push(value_at(rows[i]));
        i = i + 1;
    }
    assert(vals@ =~= mapped(rows@, value));
    vals
}

/// A list of one text.
pub fn one_text(s: String) -> (v: Vec<String>)
    ensures
        texts(v@) == seq![s@],
{
    let mut v: Vec<String> = Vec::new();
    v.push(s);
    assert(texts(v@) =~= seq![s@]);
    v
}

/// A list of two texts.
pub fn two_texts(a: String, b: String) -> (v: Vec<String>)
    ensures
        texts(v@) == seq![a@, b@],
{
    let mut v: Vec<String> = Vec::new();
    v.push(a);
    v.push(b);
    assert(texts(v@) =~= seq![a@, b@]);
    v
}

/// A list of three texts.
pub fn three_texts(a: String, b: String, c: String) -> (v: Vec<String>)
    ensures
        texts(v@) == seq![a@, b@, c@],
{
    let mut v: Vec<String> = Vec::new();
    v.push(a);
    v.push(b);
    v.push(c);
    assert(texts(v@) =~= seq![a@, b@, c@]);
    v
}

/// Texts as values.
pub open spec fn all_shown(key: Seq<Seq<char>>) -> Seq<CellView> {
    Seq::new(key.len(), |i: int| shown(key[i]))
}

/// A key with its count.
pub open spec fn with_count(key: Seq<Seq<char>>, n: u64) -> Seq<CellView> {
    all_shown(key).push(counted(n as int))
}

/// Texts as values.
pub fn show_texts(key: &Vec<String>) -> (row: Vec<Cell>)
    ensures
        cells(row@) == all_shown(texts(key@)),
        row@.len() == key@.len(),
{
    let mut row: Vec<Cell> = Vec::new();
    let mut i: usize = 0;
    while i < key.len()
        invariant
            i <= key@.len(),
            row@.len() == i,
            forall|k: int| 0 <= k < i ==> (#[trigger] row@[k])@ == shown(key@[k]@),
        decreases key@.len() - i,
    {
        row.push(Cell::Text(key[i].clone()));
        i = i + 1;
    }
    assert(cells(row@) =~= all_shown(texts(key@)));
    row
}

/// A row for each key, with a number behind it.
pub open spec fn keys_with_counts(keys: Seq<Seq<Seq<char>>>, counts: Seq<u64>) -> Seq<
    Seq<CellView>,
> {
    Seq::new(keys.len(), |g: int| with_count(keys[g], counts[g]))
}

/// A row for each key, with a number behind it.
pub fn show_keys_with_counts(index: &TextIndex, counts: &Vec<u64>) -> (rows: Vec<Vec<Cell>>)
    requires
        counts@.len() == index@.len(),
    ensures
        cell_rows(rows@) == keys_with_counts(index@, counts@),
{
    let n: usize = index.len();
    let mut rows: Vec<Vec<Cell>> = Vec::new();
    let mut g: usize = 0;
    while g < n
        invariant
            g <= n == index@.len() == counts@.len(),
            rows@.len() == g,
            forall|k: int|
                0 <= k < g ==> cells((#[trigger] rows@[k])@) == with_count(index@[k], counts@[k]),
        decreases n - g,
    {
        let mut row = show_texts(index.key(g));
        let ghost sofar = row@;
        row.push(number_cell(counts[g] as i128));
        assert(cells(row@) =~= cells(sofar).push(counted(counts@[g as int] as int)));
        rows.push(row);
        g = g + 1;
    }
    assert(cell_rows(rows@) =~= keys_with_counts(index@, counts@));
    rows
}

/// Rows by descending count, from the offset of the query on.
pub open spec fn count_sorted(q: ParsedQuery, counts: Seq<u64>, rows: Seq<Seq<CellView>>) -> ResultView {
    ResultView {
        columns: labels(q.select_items@),
        rows: picked_rows(
            rows,
            top(by_count(counts), counts.len(), query_limit(q), query_offset(q)),
        ),
    }
}

/// Rows by descending count, from the offset of the query on.
pub fn finish_count_sorted_scan(parsed: &ParsedQuery, counts: &Vec<u64>, rows: &Vec<Vec<Cell>>) -> (r:
    QueryResult)
    requires
        counts@.len() == rows@.len(),
    ensures
        r@ == count_sorted(*parsed, counts@, cell_rows(rows@)),
{
    let t = top_counts(counts, limit_of(parsed), offset_of(parsed));
    QueryResult { columns: headings(parsed), rows: pick_rows(rows, &t) }
}

/// How often each key of texts appears, most frequent first.
pub open spec fn counted_texts(q: ParsedQuery, keys: Seq<Seq<Seq<char>>>) -> ResultView {
    count_sorted(q, tallied(keys), keys_with_counts(first_seen(keys), tallied(keys)))
}

/// How often each key of texts appears, most frequent first.
pub fn count_and_sort(parsed: &ParsedQuery, keys: Vec<Vec<String>>) -> (r: QueryResult)
    ensures
        r@ == counted_texts(*parsed, text_lists(keys@)),
{
    let (index, counts) = count_texts(keys);
    let rows = show_keys_with_counts(&index, &counts);
    assert(cell_rows(rows@).len() == counts@.len());
    finish_count_sorted_scan(parsed, &counts, &rows)
}

/// The column that a grouping expression names.
pub open spec fn group_name(e: Expr, q: ParsedQuery) -> Option<Seq<char>> {
    match resolved(e, q.select_items@) {
        Expr::Identifier(s) => Some(s@),
        _ => None,
    }
}

/// The column that a grouping expression names.
pub fn group_id_name<'a>(expr: &'a Expr, parsed: &'a ParsedQuery) -> (r: Option<&'a str>)
    ensures
        match r {
            Some(s) => group_name(*expr, *parsed) == Some(s@),
            None => group_name(*expr, *parsed) is None,
        },
{
    match resolve_group_expr(expr, &parsed.select_items) {
        Expr::Identifier(s) => Some(s.as_str()),
        _ => None,
    }
}

/// Whether some count of rows has an alias.
pub open spec fn counts_as(items: Seq<SelectProjection>, name: Seq<char>) -> bool {
    exists|i: int| 0 <= i < items.len() && counts_rows(#[trigger] items[i]) && has_alias(items[i], name)
}

/// Whether a query is sorted first by descending count of rows.
pub open spec fn by_count_desc(q: ParsedQuery) -> bool {
    q.order_by@.len() > 0 && q.order_by@[0].1 && match q.order_by@[0].0 {
        Expr::Function(_) => called(q.order_by@[0].0) == Some("COUNT"@),
        Expr::Identifier(s) => counts_as(q.select_items@, s@),
        _ => false,
    }
}

/// Whether a query is sorted first by descending count of rows.
pub fn orders_by_count_desc(parsed: &ParsedQuery) -> (r: bool)
    ensures
        r == by_count_desc(*parsed),
{
    if parsed.order_by.len() == 0 || !parsed.order_by[0].1 {
        return false;
    }
    let e = &parsed.order_by[0].0;
    match e {
        Expr::Function(_) => match called_function(e) {
            Some(f) => str_eq(f.as_str(), "COUNT"),
            None => false,
        },
        Expr::Identifier(s) => {
            let items = &parsed.select_items;
            let mut i: usize = 0;
            while i < items.len()
                invariant
                    i <= items@.len(),
                    *items == parsed.select_items,
                    *e == Expr::Identifier(*s),
                    *e == parsed.order_by@[0].0,
                    parsed.order_by@.len() > 0,
                    parsed.order_by@[0].1,
                    forall|k: int|
                        0 <= k < i ==> !(counts_rows(#[trigger] items@[k]) && has_alias(
                            items@[k],
                            s@,
                        )),
                decreases items@.len() - i,
            {
                let counts = match &items[i].kind {
                    SelectItemKind::CountAll => true,
                    SelectItemKind::Count(_) => true,
                    _ => false,
                };
                if counts && alias_is(&items[i], s.as_str()) {
                    assert(counts_rows(items@[i as int]) && has_alias(items@[i as int], s@));
                    return true;
                }
                i = i + 1;
            }
            false
        },
        _ => false,
    }
}

/// The column of the last projection that counts different values, if it names one.
pub open spec fn distinct_column(items: Seq<SelectProjection>) -> Option<Seq<char>>
    decreases items.len(),
{
    if items.len() == 0 {
        None
    } else {
        match items.last().kind {
            SelectItemKind::CountDistinct(e) => column_name(e),
            _ => distinct_column(items.drop_last()),
        }
    }
}

/// The column of the last projection that counts different values, if it names one.
pub fn find_distinct_column(items: &Vec<SelectProjection>) -> (r: Option<&str>)
    ensures
        match r {
            Some(s) => distinct_column(items@) == Some(s@),
            None => distinct_column(items@) is None,
        },
{
    let mut i: usize = items.len();
    assert(items@.take(i as int) =~= items@);
    while i > 0
        invariant
            i <= items@.len(),
            distinct_column(items@) == distinct_column(items@.take(i as int)),
        decreases i,
    {
        assert(items@.take(i as int).drop_last() =~= items@.take(i - 1));
        assert(items@.take(i as int).last() == items@[i - 1]);
        if let SelectItemKind::CountDistinct(e) = &items[i - 1].kind {
            return column_ref(e);
        }
        i = i - 1;
    }
    assert(items@.take(0) =~= Seq::<SelectProjection>::empty());
    None
}

/// Whether the projections of a query begin with its keys, in the order of the keys.
pub open spec fn keys_lead(q: ParsedQuery) -> bool {
    &&& q.group_by@.len() <= q.select_items@.len()
    &&& forall|i: int|
        0 <= i < q.group_by@.len() ==> #[trigger] key_shown(q, i, q.group_by@.len()) == Some(
            i as usize,
        )
}

/// Whether the projections of a query begin with its keys, in the order of the keys.
pub fn has_leading_keys(parsed: &ParsedQuery) -> (r: bool)
    ensures
        r == keys_lead(*parsed),
{
    if parsed.group_by.len() > parsed.select_items.len() {
        return false;
    }
    let mut i: usize = 0;
    while i < parsed.group_by.len()
        invariant
            i <= parsed.group_by@.len() <= parsed.select_items@.len(),
            forall|k: int|
                0 <= k < i ==> #[trigger] key_shown(*parsed, k, parsed.group_by@.len()) == Some(
                    k as usize,
                ),
        decreases parsed.group_by@.len() - i,
    {
        let leads = match find_key_shown(parsed, i) {
            Some(k) => k == i,
            None => false,
        };
        if !leads {
            return false;
        }
        i = i + 1;
    }
    true
}

/// Whether a query asks for no order, or only for the descending order of one of its
/// projections.
pub open spec fn sorts_by(q: ParsedQuery, k: int) -> bool {
    ||| q.order_by@.len() == 0
    ||| q.order_by@.len() == 1 && q.order_by@[0].1 && {
        let c = order_column(q.order_by@[0].0, labels(q.select_items@), q.select_items@);
        c == Some(k as usize) || (c is None && counts_rows(q.select_items@[k]) && called(
            q.order_by@[0].0,
        ) == Some("COUNT"@))
    }
}

/// Whether a query asks for no order, or only for the descending order of one of its
/// projections.
pub fn is_sorted_by(parsed: &ParsedQuery, k: usize) -> (r: bool)
    requires
        k < parsed.select_items@.len(),
    ensures
        r == sorts_by(*parsed, k as int),
{
    if parsed.order_by.len() == 0 {
        return true;
    }
    if parsed.order_by.len() != 1 || !parsed.order_by[0].1 {
        return false;
    }
    let e = &parsed.order_by[0].0;
    match resolve_order_column(e, &headings(parsed), &parsed.select_items) {
        Some(c) => c == k,
        None => {
            let counts = match &parsed.select_items[k].kind {
                SelectItemKind::CountAll => true,
                SelectItemKind::Count(_) => true,
                _ => false,
            };
            counts && match called_function(e) {
                Some(f) => str_eq(f.as_str(), "COUNT"),
                None => false,
            }
        },
    }
}

/// Whether a query shows its keys and behind them so many aggregates, and is sorted by
/// one of these, if at all.
pub open spec fn keys_then(q: ParsedQuery, aggregates: nat, by: nat) -> bool {
    &&& by < aggregates
    &&& q.select_items@.len() == q.group_by@.len() + aggregates
    &&& keys_lead(q)
    &&& sorts_by(q, (q.group_by@.len() + by) as int)
}

/// Whether a query shows its keys and behind them so many aggregates, and is sorted by
/// one of these, if at all.
pub fn is_keys_then(parsed: &ParsedQuery, aggregates: usize, by: usize) -> (r: bool)
    requires
        by < aggregates,
    ensures
        r == keys_then(*parsed, aggregates as nat, by as nat),
{
    let g: usize = parsed.group_by.len();
    let n: usize = parsed.select_items.len();
    if n < g || n - g != aggregates {
        return false;
    }
    has_leading_keys(parsed) && is_sorted_by(parsed, g + by)
}

/// Whether a query shows its keys with the number of their rows, sorted by it if at
/// all, and has no condition on groups.
pub open spec fn shows_counts(q: ParsedQuery) -> bool {
    &&& q.having is None
    &&& keys_then(q, 1, 0)
    &&& counts_rows(q.select_items@[q.group_by@.len() as int])
}

/// Whether a query shows its keys with the number of their rows, sorted by it if at
/// all, and has no condition on groups.
pub fn is_count_form(parsed: &ParsedQuery) -> (r: bool)
    ensures
        r == shows_counts(*parsed),
{
    if parsed.having.is_some() || !is_keys_then(parsed, 1, 0) {
        return false;
    }
    match &parsed.select_items[parsed.group_by.len()].kind {
        SelectItemKind::CountAll => true,
        SelectItemKind::Count(_) => true,
        _ => false,
    }
}

/// Whether a query shows its keys with the number of different values of a column,
/// sorted by it if at all, and has no condition on groups.
pub open spec fn shows_different(q: ParsedQuery) -> bool {
    &&& q.having is None
    &&& keys_then(q, 1, 0)
    &&& q.select_items@[q.group_by@.len() as int].kind is CountDistinct
}

/// Whether a query shows its keys with the number of different values of a column,
/// sorted by it if at all, and has no condition on groups.
pub fn is_different_form(parsed: &ParsedQuery) -> (r: bool)
    ensures
        r == shows_different(*parsed),
{
    if parsed.having.is_some() || !is_keys_then(parsed, 1, 0) {
        return false;
    }
    match &parsed.select_items[parsed.group_by.len()].kind {
        SelectItemKind::CountDistinct(_) => true,
        _ => false,
    }
}

} // verus!
