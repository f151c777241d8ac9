//! What a query returns.
use crate::error::Error;
use crate::sql::ast::{ParsedQuery, SelectProjection};
use crate::sql::query::{label, projection_label};
use crate::text::{decimal, int_text, texts};
use vstd::prelude::*;

verus! {

/// One value of a result: a text, or a quotient that is still to be divided out.
pub enum Cell {
    Text(String),
    Ratio { sum: i128, count: u64 },
}

/// One value of a result.
pub enum CellView {
    Text(Seq<char>),
    Ratio { sum: int, count: nat },
}

impl View for Cell {
    type V = CellView;

    open spec fn view(&self) -> CellView {
        match self {
            Cell::Text(s) => CellView::Text(s@),
            Cell::Ratio { sum, count } => CellView::Ratio { sum: *sum as int, count: *count as nat },
        }
    }
}

/// The values of a row.
pub open spec fn cells(row: Seq<Cell>) -> Seq<CellView> {
    Seq::new(row.len(), |i: int| row[i]@)
}

/// The values of several rows.
pub open spec fn cell_rows(rows: Seq<Vec<Cell>>) -> Seq<Seq<CellView>> {
    Seq::new(rows.len(), |i: int| cells(rows[i]@))
}

/// A text as a value.
pub open spec fn shown(s: Seq<char>) -> CellView {
    CellView::Text(s)
}

/// A number as a value.
pub open spec fn counted(v: int) -> CellView {
    CellView::Text(decimal(v))
}

/// The columns and rows that a query returns.
pub struct QueryResult {
    pub columns: Vec<String>,
    pub rows: Vec<Vec<Cell>>,
}

/// The columns and rows that a query returns.
pub struct ResultView {
    pub columns: Seq<Seq<char>>,
    pub rows: Seq<Seq<CellView>>,
}

impl View for QueryResult {
    type V = ResultView;

    open spec fn view(&self) -> ResultView {
        ResultView { columns: texts(self.columns@), rows: cell_rows(self.rows@) }
    }
}

/// What a kernel that may not apply comes to.
pub open spec fn attempt(r: Result<Option<QueryResult>, Error>) -> Result<
    Option<ResultView>,
    Seq<char>,
> {
    match r {
        Err(e) => Err(e@),
        Ok(None) => Ok(None),
        Ok(Some(q)) => Ok(Some(q@)),
    }
}

/// A text as a value.
pub fn text_cell(s: &str) -> (c: Cell)
    ensures
        c@ == shown(s@),
{
    Cell::Text(String::from_str(s))
}

/// A number as a value.
pub fn number_cell(v: i128) -> (c: Cell)
    requires
        v > i128::MIN,
    ensures
        c@ == counted(v as int),
{
    Cell::Text(int_text(v))
}

/// The headings of a query.
pub open spec fn labels(items: Seq<SelectProjection>) -> Seq<Seq<char>> {
    Seq::new(items.len(), |i: int| label(items[i]))
}

/// The headings of a query.
pub fn headings(parsed: &ParsedQuery) -> (v: Vec<String>)
    ensures
        texts(v@) == labels(parsed.select_items@),
        v@.len() == parsed.select_items@.len(),
{
    let mut v: Vec<String> = Vec::new();
    let mut i: usize = 0;
    while i < parsed.select_items.len()
        invariant
            i <= parsed.select_items@.len(),
            v@.len() == i,
            texts(v@) =~= labels(parsed.select_items@.take(i as int)),
        decreases parsed.select_items@.len() - i,
    {
        let ghost sofar = v@;
        v.push(projection_label(&parsed.select_items[i]));
        assert(texts(v@) =~= texts(sofar).push(label(parsed.select_items@[i as int])));
        i = i + 1;
    }
    assert(parsed.select_items@.take(i as int) =~= parsed.select_items@);
    v
}

/// A result without rows.
pub open spec fn no_rows(q: ParsedQuery) -> ResultView {
    ResultView { columns: labels(q.select_items@), rows: Seq::empty() }
}

/// A result without rows.
pub fn empty_result(parsed: &ParsedQuery) -> (r: QueryResult)
    ensures
        r@ == no_rows(*parsed),
{
    let rows: Vec<Vec<Cell>> = Vec::new();
    assert(cell_rows(rows@) =~= Seq::<Seq<CellView>>::empty());
    QueryResult { columns: headings(parsed), rows }
}

/// The limit of a query.
pub open spec fn query_limit(q: ParsedQuery) -> usize {
    match q.limit {
        Some(l) => l as usize,
        None => usize::MAX,
    }
}

/// The offset of a query.
pub open spec fn query_offset(q: ParsedQuery) -> usize {
    match q.offset {
        Some(o) => o as usize,
        None => 0,
    }
}

/// The limit of a query.
pub fn limit_of(parsed: &ParsedQuery) -> (n: usize)
    ensures
        n == query_limit(*parsed),
{
    match parsed.limit {
        Some(l) => l as usize,
        None => usize::MAX,
    }
}

/// The offset of a query.
pub fn offset_of(parsed: &ParsedQuery) -> (n: usize)
    ensures
        n == query_offset(*parsed),
{
    match parsed.offset {
        Some(o) => o as usize,
        None => 0,
    }
}

/// The limit and the offset are the numbers that the query gives; without an offset nothing
/// is passed over, and without a limit nothing is cut off.
pub proof fn law_page_bounds(q: ParsedQuery, rows: nat)
    ensures
        q.limit matches Some(l) ==> l <= usize::MAX ==> query_limit(q) == l,
        q.limit is None && rows <= usize::MAX ==> rows <= query_limit(q),
        q.offset matches Some(o) ==> o <= usize::MAX ==> query_offset(q) == o,
        q.offset is None ==> query_offset(q) == 0,
{
}

} // verus!
