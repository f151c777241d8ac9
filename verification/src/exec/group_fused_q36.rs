//! GROUP BY the address and its three predecessors, over the whole table.
use crate::error::Error;
use crate::exec::group_columnar::{clientip_quad_topk_with_stats, quad_top};
use crate::exec::group_fused_q41::{limit_or_default, limit_or_ten};
use crate::exec::group_fused_quad::{groups_ip_chain, is_clientip_chain, quad_row, show_quad};
use crate::exec::kernel::{
    bind, by_count_desc, i32_column, i32s_of, is_count_form, orders_by_count_desc, shows_counts,
};
use crate::exec::result::{
    attempt, cell_rows, cells, headings, labels, offset_of, query_offset, Cell, CellView,
    QueryResult, ResultView,
};
use crate::sql::ast::ParsedQuery;
use crate::storage::pod::PodStorage;
use crate::storage::table::Table;
use vstd::prelude::*;

verus! {

/// Whether a query counts all rows by the address and its three predecessors, most
/// frequent first, with a limit.
pub open spec fn q36_shape(q: ParsedQuery) -> bool {
    &&& q.where_expr is None
    &&& groups_ip_chain(q)
    &&& shows_counts(q)
    &&& by_count_desc(q)
    &&& q.limit is Some
}

/// Whether a query counts all rows by the address and its three predecessors, most
/// frequent first, with a limit.
pub fn is_q36_shape(parsed: &ParsedQuery) -> (r: bool)
    ensures
        r == q36_shape(*parsed),
{
    parsed.where_expr.is_none() && is_clientip_chain(parsed) && is_count_form(parsed)
        && orders_by_count_desc(parsed) && parsed.limit.is_some()
}

/// Whether each of the first `n` addresses has three predecessors.
pub open spec fn have_predecessors(ips: Seq<i32>, n: nat) -> bool {
    forall|i: int| 0 <= i < n ==> #[trigger] ips[i] >= i32::MIN + 3
}

fn all_have_predecessors(ips: &PodStorage<i32>, n: usize) -> (r: bool)
    requires
        ips@.len() >= n,
    ensures
        r == have_predecessors(ips@, n as nat),
{
    let mut i: usize = 0;
    while i < n
        invariant
            i <= n <= ips@.len(),
            forall|k: int| 0 <= k < i ==> #[trigger] ips@[k] >= i32::MIN + 3,
        decreases n - i,
    {
        if ips.get(i) < i32::MIN + 3 {
            assert(ips@[i as int] < i32::MIN + 3);
            return false;
        }
        i = i + 1;
    }
    true
}

/// Counted addresses as rows.
pub open spec fn quad_entries(entries: Seq<(u128, u64)>) -> Seq<Seq<CellView>> {
    Seq::new(entries.len(), |i: int| quad_row(entries[i].0, entries[i].1))
}

/// What counting all rows by the address comes to.
pub open spec fn q36_result(t: Table, q: ParsedQuery, n: nat) -> Result<
    Option<ResultView>,
    Seq<char>,
>
{
    if !q36_shape(q) {
        Ok(None)
    } else {
        bind(
            i32s_of(t, "ClientIP"@),
            |ips: Seq<i32>|
                if !have_predecessors(ips, n) {
                    Ok(None)
                } else {
                    Ok(
                        Some(
                            ResultView {
                                columns: labels(q.select_items@),
                                rows: quad_entries(
                                    quad_top(ips.take(n as int), limit_or_ten(q), query_offset(q)),
                                ),
                            },
                        ),
                    )
                },
        )
    }
}

/// Counts all rows by the address, if that is what the query asks for.
pub fn try_fused_q36(table: &Table, parsed: &ParsedQuery, row_count: usize) -> (r: Result<
    Option<QueryResult>,
    Error,
>)
    requires
        table.wf(),
        table.holds_rows(row_count as int),
    ensures
        attempt(r) == q36_result(*table, *parsed, row_count as nat),
{
    if !is_q36_shape(parsed) {
        return Ok(None);
    }
    let ips = match i32_column(table, "ClientIP", row_count) {
        Err(e) => {
            return Err(e);
        },
        Ok(None) => {
            return Ok(None);
        },
        Ok(Some(c)) => c,
    };
    if !all_have_predecessors(ips, row_count) {
        return Ok(None);
    }
    let all = ips.as_slice();
    let part = vstd::slice::slice_subrange(all, 0, row_count);
    assert(part@ =~= ips@.take(row_count as int));
    let (entries, _stats) = clientip_quad_topk_with_stats(
        part,
        limit_or_default(parsed),
        offset_of(parsed),
    );
    let mut rows: Vec<Vec<Cell>> = Vec::new();
    let mut i: usize = 0;
    while i < entries.len()
        invariant
            i <= entries@.len(),
            rows@.len() == i,
            forall|k: int|
                0 <= k < i ==> cells((#[trigger] rows@[k])@) == quad_row(
                    entries@[k].0,
                    entries@[k].1,
                ),
        decreases entries@.len() - i,
    {
        let e: (u128, u64) = entries[i];
        rows.push(show_quad(e.0, e.1));
        i = i + 1;
    }
    assert(cell_rows(rows@) =~= quad_entries(entries@));
    Ok(Some(QueryResult { columns: headings(parsed), rows }))
}

} // verus!
