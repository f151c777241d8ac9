//! A query, from its parts to its rows.
use crate::error::{fails, yields, Error};
use crate::exec::aggregate::{eval_global_select, global_value};
use crate::exec::fast_agg::{global_result, try_execute_global};
use crate::exec::fast_q29::{sums_result, try_execute_q29};
use crate::exec::filter::{build_filter_mask, filtered};
use crate::exec::group::{Answer, AnswerView};
use crate::exec::group_fused::{execute_grouped, grouped_answer};
use crate::exec::group_near_unique::or_else;
use crate::exec::result::{cells, headings, labels, Cell, CellView, QueryResult, ResultView};
use crate::exec::scan::{execute_scan, scan_answer, Scan, ScanView};
use crate::exec::sorting::{Unsorted, UnsortedView};
use crate::sql::ast::{ParsedQuery, SelectItemKind, SelectProjection};
use crate::storage::table::Table;
use crate::text::{join3, str_eq};
use vstd::prelude::*;

verus! {

/// What a query comes to: its result, or rows that are still to be put in order.
pub enum Outcome {
    Done(QueryResult),
    Sort(Unsorted),
    Scan(Scan),
}

/// What a query comes to.
pub enum OutcomeView {
    Done(ResultView),
    Sort(UnsortedView),
    Scan(ScanView),
}

impl View for Outcome {
    type V = OutcomeView;

    open spec fn view(&self) -> OutcomeView {
        match self {
            Outcome::Done(r) => OutcomeView::Done(r@),
            Outcome::Sort(u) => OutcomeView::Sort(u@),
            Outcome::Scan(s) => OutcomeView::Scan(s@),
        }
    }
}

impl Outcome {
    /// Whether the rows that are still to be put in order can be.
    pub open spec fn wf(&self) -> bool {
        match self {
            Outcome::Done(_) => true,
            Outcome::Sort(u) => u.wf(),
            Outcome::Scan(s) => s.wf(),
        }
    }
}

/// What running a query comes to.
pub open spec fn ran(r: Result<Outcome, Error>) -> Result<OutcomeView, Seq<char>> {
    match r {
        Ok(o) => Ok(o@),
        Err(e) => Err(e@),
    }
}

/// Why a query's table is refused, if it is: there is one table, the hits.
pub open spec fn table_fault(name: Seq<char>) -> Option<Seq<char>> {
    if name == "hits"@ {
        None
    } else {
        Some("unknown table "@ + name)
    }
}

/// Refuses a query on any table but the hits.
pub fn check_table(name: &str) -> (r: Result<(), Error>)
    ensures
        match r {
            Ok(_) => table_fault(name@) is None,
            Err(e) => table_fault(name@) == Some(e@),
        },
{
    if str_eq(name, "hits") {
        Ok(())
    } else {
        let m = join3("unknown table ", name, "");
        proof {
            reveal_strlit("");
            assert(m@ =~= "unknown table "@ + name@);
        }
        Err(Error::Msg(m))
    }
}

/// Whether a projection shows something of each row.
pub open spec fn shows_rows(items: Seq<SelectProjection>) -> bool {
    exists|i: int|
        0 <= i < items.len() && ((#[trigger] items[i]).kind is Column || items[i].kind is Other)
}

/// Whether a query without grouping returns rows of the table.
pub open spec fn is_scan(q: ParsedQuery) -> bool {
    q.select_all || q.order_by@.len() > 0 || q.limit is Some || q.offset is Some || shows_rows(
        q.select_items@,
    )
}

/// Whether a query without grouping returns rows of the table.
pub fn returns_rows(parsed: &ParsedQuery) -> (r: bool)
    ensures
        r == is_scan(*parsed),
{
    if parsed.select_all || parsed.order_by.len() > 0 || parsed.limit.is_some()
        || parsed.offset.is_some() {
        return true;
    }
    let mut i: usize = 0;
    while i < parsed.select_items.len()
        invariant
            i <= parsed.select_items@.len(),
            forall|k: int|
                0 <= k < i ==> !((#[trigger] parsed.select_items@[k]).kind is Column)
                    && !(parsed.select_items@[k].kind is Other),
        decreases parsed.select_items@.len() - i,
    {
        match &parsed.select_items[i].kind {
            SelectItemKind::Column(_) => {
                assert(parsed.select_items@[i as int].kind is Column);
                return true;
            },
            SelectItemKind::Other(_) => {
                assert(parsed.select_items@[i as int].kind is Other);
                return true;
            },
            _ => {},
        }
        i = i + 1;
    }
    false
}

/// The values of the first `k` aggregate functions over the rows that a mask selects.
pub open spec fn global_values(
    t: Table,
    items: Seq<SelectProjection>,
    mask: Seq<bool>,
    k: nat,
) -> Result<Seq<CellView>, Seq<char>>
    decreases k,
{
    if k == 0 {
        Ok(Seq::empty())
    } else {
        match global_values(t, items, mask, (k - 1) as nat) {
            Err(m) => Err(m),
            Ok(front) => match global_value(t, items[k - 1].kind, mask) {
                Err(m) => Err(m),
                Ok((_, c)) => Ok(front.push(c)),
            },
        }
    }
}

proof fn lemma_global_values_fault(
    t: Table,
    items: Seq<SelectProjection>,
    mask: Seq<bool>,
    i: nat,
    k: nat,
)
    requires
        i <= k,
        global_values(t, items, mask, i) is Err,
    ensures
        global_values(t, items, mask, k) == global_values(t, items, mask, i),
    decreases k,
{
    if i < k {
        lemma_global_values_fault(t, items, mask, i, (k - 1) as nat);
    }
}

/// The values of aggregate functions over the rows that a mask selects.
fn eval_global_items(table: &Table, items: &Vec<SelectProjection>, mask: &[bool]) -> (r: Result<
    Vec<Cell>,
    Error,
>)
    requires
        table.wf(),
        table.holds_rows(mask@.len() as int),
    ensures
        match r {
            Ok(v) => yields(global_values(*table, items@, mask@, items@.len()), cells(v@)),
            Err(e) => fails(global_values(*table, items@, mask@, items@.len()), e@),
        },
{
    let mut v: Vec<Cell> = Vec::new();
    let mut i: usize = 0;
    assert(cells(v@) =~= Seq::<CellView>::empty());
    while i < items.len()
        invariant
            i <= items@.len(),
            table.wf(),
            table.holds_rows(mask@.len() as int),
            yields(global_values(*table, items@, mask@, i as nat), cells(v@)),
        decreases items@.len() - i,
    {
        match eval_global_select(table, &items[i].kind, mask) {
            Err(e) => {
                proof {
                    lemma_global_values_fault(
                        *table,
                        items@,
                        mask@,
                        (i + 1) as nat,
                        items@.len(),
                    );
                }
                return Err(e);
            },
            Ok((_, c)) => {
                let ghost sofar = v@;
                v.push(c);
                assert(cells(v@) =~= cells(sofar).push(c@));
            },
        }
        i = i + 1;
    }
    Ok(v)
}

/// What a query of aggregate functions over all rows comes to.
pub open spec fn totals(t: Table, q: ParsedQuery, n: nat) -> Result<ResultView, Seq<char>> {
    match or_else(sums_result(t, q, n), global_result(t, q, n)) {
        Err(m) => Err(m),
        Ok(Some(r)) => Ok(r),
        Ok(None) => match filtered(t, q.where_expr, n) {
            Err(m) => Err(m),
            Ok(mask) => match global_values(t, q.select_items@, mask, q.select_items@.len()) {
                Err(m) => Err(m),
                Ok(row) => Ok(ResultView { columns: labels(q.select_items@), rows: seq![row] }),
            },
        },
    }
}

/// Aggregate functions over all rows that a query selects.
pub fn execute_totals(table: &Table, parsed: &ParsedQuery, row_count: usize) -> (r: Result<
    QueryResult,
    Error,
>)
    requires
        table.wf(),
        table.holds_rows(row_count as int),
    ensures
        match r {
            Ok(v) => yields(totals(*table, *parsed, row_count as nat), v@),
            Err(e) => fails(totals(*table, *parsed, row_count as nat), e@),
        },
{
    match try_execute_q29(table, parsed, row_count) {
        Err(e) => {
            return Err(e);
        },
        Ok(Some(r)) => {
            return Ok(r);
        },
        Ok(None) => {},
    }
    match try_execute_global(table, parsed, row_count) {
        Err(e) => {
            return Err(e);
        },
        Ok(Some(r)) => {
            return Ok(r);
        },
        Ok(None) => {},
    }
    let mask = match build_filter_mask(table, &parsed.where_expr, row_count) {
        Err(e) => {
            return Err(e);
        },
        Ok(c) => c,
    };
    let row = match eval_global_items(table, &parsed.select_items, mask.as_slice()) {
        Err(e) => {
            return Err(e);
        },
        Ok(c) => c,
    };
    let mut rows: Vec<Vec<Cell>> = Vec::new();
    rows.push(row);
    let r = QueryResult { columns: headings(parsed), rows };
    assert(r@.rows =~= seq![cells(row@)]);
    Ok(r)
}

/// What a query comes to on a table's first rows.
pub open spec fn answer(t: Table, q: ParsedQuery, n: nat) -> Result<OutcomeView, Seq<char>> {
    if let Some(m) = table_fault(q.from_table@) {
        Err(m)
    } else if q.group_by@.len() > 0 {
        match grouped_answer(t, q, n) {
            Err(m) => Err(m),
            Ok(AnswerView::Done(r)) => Ok(OutcomeView::Done(r)),
            Ok(AnswerView::Sort(u)) => Ok(OutcomeView::Sort(u)),
        }
    } else if is_scan(q) {
        match scan_answer(t, q, n) {
            Err(m) => Err(m),
            Ok(s) => Ok(OutcomeView::Scan(s)),
        }
    } else {
        match totals(t, q, n) {
            Err(m) => Err(m),
            Ok(r) => Ok(OutcomeView::Done(r)),
        }
    }
}

/// Runs a query on a table's first rows.
pub fn execute(table: &Table, parsed: &ParsedQuery, row_count: usize) -> (r: Result<Outcome, Error>)
    requires
        table.wf(),
        table.holds_rows(row_count as int),
    ensures
        ran(r) == answer(*table, *parsed, row_count as nat),
        r matches Ok(o) ==> o.wf(),
{
    match check_table(parsed.from_table.as_str()) {
        Err(e) => {
            return Err(e);
        },
        Ok(_) => {},
    }
    if parsed.group_by.len() > 0 {
        return match execute_grouped(table, parsed, row_count) {
            Err(e) => Err(e),
            Ok(Answer::Done(r)) => Ok(Outcome::Done(r)),
            Ok(Answer::Sort(u)) => Ok(Outcome::Sort(u)),
        };
    }
    if returns_rows(parsed) {
        return match execute_scan(table, parsed, row_count) {
            Err(e) => Err(e),
            Ok(s) => Ok(Outcome::Scan(s)),
        };
    }
    match execute_totals(table, parsed, row_count) {
        Err(e) => Err(e),
        Ok(r) => Ok(Outcome::Done(r)),
    }
}

/// What a query is answered with: nothing but `hits` can be asked; what is grouped is not a
/// scan, what asks for all columns, or for an order or a page without groups, is one, and
/// aggregates alone come to one row, which needs no order.
pub proof fn law_kinds_of_answers(t: Table, q: ParsedQuery, n: nat, o: OutcomeView)
    ensures
        q.from_table@ != "hits"@ ==> fails(answer(t, q, n), "unknown table "@ + q.from_table@),
        yields(answer(t, q, n), o) && q.group_by@.len() > 0 ==> !(o is Scan),
        yields(answer(t, q, n), o) && q.group_by@.len() == 0 && (q.select_all
            || q.order_by@.len() > 0 || q.limit is Some || q.offset is Some) ==> o is Scan,
        yields(answer(t, q, n), o) && q.group_by@.len() == 0 && (exists|i: int|
            0 <= i < q.select_items@.len() && ((#[trigger] q.select_items@[i]).kind is Column
                || q.select_items@[i].kind is Other)) ==> o is Scan,
        yields(answer(t, q, n), o) && q.group_by@.len() == 0 && !q.select_all
            && q.order_by@.len() == 0 && q.limit is None && q.offset is None && (forall|i: int|
            0 <= i < q.select_items@.len() ==> !((#[trigger] q.select_items@[i]).kind is Column)
                && !(q.select_items@[i].kind is Other)) ==> o is Done,
{
}

} // verus!
