//! Scans of the shape `SELECT column ... ORDER BY ... LIMIT`.
use crate::error::{fails, yields, Error};
use crate::exec::agg_heap::room_for;
use crate::exec::filter::{build_filter_mask, filtered};
use crate::exec::filter_fast::{fusible, Test};
use crate::exec::filter_laws::{law_deciding_mask, lemma_fused_part};
use crate::exec::hash::text_lists;
use crate::exec::kernel::{all_shown, any_column, show_texts};
use crate::exec::mask_util::selected;
use crate::exec::result::{attempt, cells, shown, Cell, QueryResult, ResultView};
use crate::exec::scan::shown_rows;
use crate::exec::scan_order::{
    by_time, check_bounds, forward_scan_until, law_scan_order_total, lemma_staying, part_views,
    parts_hold, scan_leq, sort_rows, staying, streaming_topk, streaming_topk_zoned, Keep, Part,
    PartView,
};
use crate::exec::sorting::{apply_limit_offset, limited};
use crate::expr::eval::{bool_of, col_int, col_text, column_of};
use crate::expr::matching::like;
use crate::sql::ast::{
    BinaryOperator, Expr, Literal, ParsedQuery, SelectItemKind, SelectProjection,
};
use crate::sql::query::{column_name, column_ref, label, projection_label};
use crate::storage::column::{ColumnData, ColumnView};
use crate::storage::table::{
    declared_names, projected, projection_fault, ColumnFile, Table,
};
use crate::storage::zones::{ZoneIndex, ZONE_VERSION_V2};
use crate::text::{join3, parse_i64, parsed_i64, str_eq, texts};
use vstd::prelude::*;
use vstd::utf8::encode_utf8;

verus! {

/// The name of the column that an expression in an order names; empty where it names
/// none.
pub open spec fn ordered_by(e: Expr) -> Seq<char> {
    match column_name(e) {
        Some(name) => name,
        None => Seq::empty(),
    }
}

/// The name of the column that an expression in an order names.
pub fn order_column_name(expr: &Expr) -> (s: &str)
    ensures
        s@ == ordered_by(*expr),
{
    match column_ref(expr) {
        Some(name) => name,
        None => {
            proof {
                reveal_strlit("");
                assert(""@ =~= Seq::<char>::empty());
            }
            ""
        },
    }
}

/// Whether a query needs fewer rows than there are, and some.
pub open spec fn short(q: ParsedQuery, n: nat) -> bool {
    match q.limit {
        Some(l) => {
            let room = room_for(
                l as usize,
                match q.offset {
                    Some(o) => o as usize,
                    None => 0,
                },
            );
            0 < room && room < n
        },
        None => false,
    }
}

/// How many rows a query needs, if that is fewer than there are, and some.
fn needed_rows(parsed: &ParsedQuery, row_count: usize) -> (r: Option<usize>)
    ensures
        r is Some == short(*parsed, row_count as nat),
        r matches Some(need) ==> need > 0 && parsed.limit is Some && need == room_for(
            parsed.limit->Some_0 as usize,
            match parsed.offset {
                Some(o) => o as usize,
                None => 0,
            },
        ),
{
    match parsed.limit {
        Some(l) => {
            let limit: usize = l as usize;
            let offset: usize = match parsed.offset {
                Some(o) => o as usize,
                None => 0,
            };
            let need: usize = offset.saturating_add(limit);
            if need > 0 && need < row_count {
                Some(need)
            } else {
                None
            }
        },
        None => None,
    }
}

/// What a limit and an offset leave of the first rows is what they leave of all.
proof fn lemma_limited_best(s: Seq<usize>, q: ParsedQuery, need: nat)
    requires
        q.limit is Some,
        need == room_for(
            q.limit->Some_0 as usize,
            match q.offset {
                Some(o) => o as usize,
                None => 0,
            },
        ),
        s.len() <= usize::MAX,
    ensures
        limited(
            s.take(
                if need <= s.len() {
                    need as int
                } else {
                    s.len() as int
                },
            ),
            q.limit,
            q.offset,
        ) == limited(s, q.limit, q.offset),
{
    let m = if need <= s.len() {
        need as int
    } else {
        s.len() as int
    };
    assert(limited(s.take(m), q.limit, q.offset) =~= limited(s, q.limit, q.offset));
}

/// The rows that stay.
fn staying_rows(keep: &Keep<'_>, row_count: usize) -> (rows: Vec<usize>)
    requires
        keep.holds(row_count as int),
    ensures
        rows@ == staying(*keep, 0, row_count as int),
{
    let mut rows: Vec<usize> = Vec::new();
    let mut i: usize = 0;
    assert(rows@ =~= staying(*keep, 0, 0));
    while i < row_count
        invariant
            i <= row_count,
            keep.holds(row_count as int),
            rows@ == staying(*keep, 0, i as int),
        decreases row_count - i,
    {
        if keep.row_ok(i) {
            rows.push(i);
        }
        i = i + 1;
    }
    rows
}

proof fn lemma_staying_len(keep: Keep<'_>, n: int)
    requires
        0 <= n,
    ensures
        staying(keep, 0, n).len() <= n,
    decreases n,
{
    if n > 0 {
        lemma_staying_len(keep, n - 1);
    }
}

/// The rows of a query in order, cut down to what the limit and the offset leave.
pub open spec fn ordered_rows(q: ParsedQuery, rows: Seq<usize>, parts: Seq<(PartView, bool)>) -> Seq<
    usize,
> {
    limited(rows.sort_by(scan_leq(parts)), q.limit, q.offset)
}

/// The rows of a query in order, cut down to what the limit and the offset leave. An
/// index of the event times is of use where the order begins with them.
fn order_rows(
    parsed: &ParsedQuery,
    parts: &Vec<(Part<'_>, bool)>,
    keep: &Keep<'_>,
    row_count: usize,
    timed: Option<(&ZoneIndex, &[i64])>,
) -> (out: Vec<usize>)
    requires
        keep.holds(row_count as int),
        parts_hold(parts@, row_count as int),
        timed matches Some((_, times)) ==> row_count <= times@.len() && by_time(
            part_views(parts@),
            times@,
        ),
    ensures
        out@ == ordered_rows(
            *parsed,
            staying(*keep, 0, row_count as int),
            part_views(parts@),
        ),
        forall|i: int| 0 <= i < out@.len() ==> (#[trigger] out@[i]) < row_count,
{
    let ghost order = part_views(parts@);
    let ghost rows = staying(*keep, 0, row_count as int);
    proof {
        law_scan_order_total(order);
        lemma_staying(*keep, 0, row_count as int);
        lemma_staying_len(*keep, row_count as int);
        rows.lemma_sort_by_ensures(scan_leq(order));
        broadcast use vstd::seq_lib::group_to_multiset_ensures;

        assert(rows.to_multiset().len() == rows.len());
        assert(rows.sort_by(scan_leq(order)).to_multiset().len() == rows.sort_by(
            scan_leq(order),
        ).len());
    }
    let first = match needed_rows(parsed, row_count) {
        Some(need) => {
            let best = match timed {
                Some((zones, times)) => if check_bounds(zones, times, row_count) {
                    if zones.event_time_monotonic_in_row_order() {
                        forward_scan_until(zones, times, parts, need, keep, row_count)
                    } else if zones.version >= ZONE_VERSION_V2 {
                        streaming_topk_zoned(zones, times, parts, need, keep, row_count)
                    } else {
                        streaming_topk(parts, need, keep, row_count)
                    }
                } else {
                    streaming_topk(parts, need, keep, row_count)
                },
                None => streaming_topk(parts, need, keep, row_count),
            };
            proof {
                lemma_limited_best(rows.sort_by(scan_leq(order)), *parsed, need as nat);
            }
            best
        },
        None => {
            let all = staying_rows(keep, row_count);
            let sorted = sort_rows(&all, parts, row_count);
            proof {
                assert forall|i: int| 0 <= i < sorted@.len() implies (#[trigger] sorted@[i])
                    < row_count by {
                    broadcast use vstd::seq_lib::group_to_multiset_ensures;

                    assert(sorted@.contains(sorted@[i]));
                    assert(sorted@.to_multiset().count(sorted@[i]) > 0);
                    assert(all@.contains(sorted@[i]));
                }
            }
            sorted
        },
    };
    apply_limit_offset(&first, parsed.limit, parsed.offset)
}

/// The column that a condition asks to have a text, if it asks for nothing else.
pub open spec fn nonempty_column(condition: Option<Expr>) -> Option<Seq<char>> {
    match condition {
        Some(Expr::BinaryOp { left, op: BinaryOperator::NotEq, right }) => match *right {
            Expr::Value(Literal::SingleQuotedString(s)) => if s@.len() == 0 {
                column_name(*left)
            } else {
                None
            },
            _ => None,
        },
        _ => None,
    }
}

/// The column that a condition asks to have a text, if it asks for nothing else.
pub fn utf8_ne_empty_column(condition: &Option<Expr>) -> (r: Option<&str>)
    ensures
        match r {
            Some(s) => nonempty_column(*condition) == Some(s@),
            None => nonempty_column(*condition) is None,
        },
{
    match condition {
        Some(Expr::BinaryOp { left, op: BinaryOperator::NotEq, right }) => match &**right {
            Expr::Value(Literal::SingleQuotedString(s)) => if s.as_str().is_empty() {
                column_ref(left)
            } else {
                None
            },
            _ => None,
        },
        _ => None,
    }
}

/// The rows that a mask selects are those of it that stay.
proof fn lemma_selected_stay(mask: Seq<bool>, keep: Keep<'_>, n: int)
    requires
        0 <= n <= mask.len(),
        forall|i: int| 0 <= i < n ==> #[trigger] mask[i] == keep.keeps(i),
    ensures
        staying(keep, 0, n) == selected(mask.take(n)),
    decreases n,
{
    if n > 0 {
        lemma_selected_stay(mask, keep, n - 1);
        assert(mask.take(n).drop_last() =~= mask.take(n - 1));
        assert(mask.take(n).last() == mask[n - 1]);
    }
}

/// A condition that asks for a text in a column selects the rows that have one.
proof fn lemma_nonempty_rows(t: Table, condition: Option<Expr>, name: Seq<char>, n: nat)
    requires
        nonempty_column(condition) == Some(name),
        t.has(name),
        t.col(name) is Utf8,
    ensures
        filtered(t, condition, n) matches Ok(mask) && mask.len() == n && forall|i: int|
            0 <= i < n ==> #[trigger] mask[i] == (col_text(t.col(name), i).len() > 0),
{
    let e = condition->Some_0;
    let mask = Seq::new(n, |i: int| col_text(t.col(name), i).len() > 0);
    assert(fusible(t, e));
    assert forall|row: int| 0 <= row < mask.len() implies yields(
        bool_of(t, e, row),
        #[trigger] mask[row],
    ) by {
        lemma_fused_part(t, e, row);
    }
    law_deciding_mask(t, e, mask);
}

/// What the rows of one column come to.
pub open spec fn column_result(p: SelectProjection, c: ColumnView, rows: Seq<usize>) -> ResultView {
    ResultView {
        columns: seq![label(p)],
        rows: Seq::new(rows.len(), |i: int| seq![shown(c.cell_text(rows[i] as int))]),
    }
}

/// The rows of one column.
pub fn build_scan_result(proj: &SelectProjection, col: &ColumnData, rows: &Vec<usize>) -> (r:
    QueryResult)
    requires
        col.wf(),
        forall|i: int| 0 <= i < rows@.len() ==> (#[trigger] rows@[i]) < col@.len(),
    ensures
        r@ == column_result(*proj, col@, rows@),
{
    let mut out: Vec<Vec<Cell>> = Vec::new();
    let mut i: usize = 0;
    while i < rows.len()
        invariant
            i <= rows@.len(),
            col.wf(),
            forall|i: int| 0 <= i < rows@.len() ==> (#[trigger] rows@[i]) < col@.len(),
            out@.len() == i,
            forall|k: int|
                0 <= k < i ==> cells((#[trigger] out@[k])@) == seq![
                    shown(col@.cell_text(rows@[k] as int)),
                ],
        decreases rows@.len() - i,
    {
        let mut row: Vec<Cell> = Vec::new();
        row.push(Cell::Text(ColumnData::cell_to_string(col, rows[i])));
        assert(cells(row@) =~= seq![shown(col@.cell_text(rows@[i as int] as int))]);
        out.push(row);
        i = i + 1;
    }
    let mut columns: Vec<String> = Vec::new();
    columns.push(projection_label(proj));
    let r = QueryResult { columns, rows: out };
    assert(r@.columns =~= seq![label(*proj)]);
    assert(r@.rows =~= column_result(*proj, col@, rows@).rows);
    r
}

/// The zones of a table and the event times that they bound, if an order that begins
/// with a column begins with those, ascending.
fn time_index<'a>(table: &'a Table, name: &str, col: &'a ColumnData, desc: bool) -> (r: Option<
    (&'a ZoneIndex, &'a [i64]),
>)
    ensures
        r matches Some((_, times)) ==> !desc && match col@ {
            ColumnView::Timestamp(v) => v == times@,
            _ => false,
        },
{
    if desc || !str_eq(name, "EventTime") {
        return None;
    }
    match (table.zones(), col) {
        (Some(zones), ColumnData::Timestamp(v)) => Some((zones, v.as_slice())),
        _ => None,
    }
}

/// The rows of a column in its own order, or in that of another column.
pub open spec fn scan_by(
    t: Table,
    q: ParsedQuery,
    n: nat,
    p: SelectProjection,
    c: ColumnView,
    parts: Seq<(PartView, bool)>,
) -> Result<Option<ResultView>, Seq<char>> {
    match filtered(t, q.where_expr, n) {
        Err(m) => Err(m),
        Ok(mask) => Ok(Some(column_result(p, c, ordered_rows(q, selected(mask), parts)))),
    }
}

/// The rows of a column in an order.
fn scan_column(
    table: &Table,
    parsed: &ParsedQuery,
    row_count: usize,
    proj: &SelectProjection,
    name: &str,
    col: &ColumnData,
    parts: &Vec<(Part<'_>, bool)>,
    timed: Option<(&ZoneIndex, &[i64])>,
) -> (r: Result<Option<QueryResult>, Error>)
    requires
        table.wf(),
        table.holds_rows(row_count as int),
        col.wf(),
        row_count <= col@.len(),
        yields(column_of(*table, name@), col@),
        parts_hold(parts@, row_count as int),
        timed matches Some((_, times)) ==> row_count <= times@.len() && by_time(
            part_views(parts@),
            times@,
        ),
    ensures
        attempt(r) == scan_by(
            *table,
            *parsed,
            row_count as nat,
            *proj,
            col@,
            part_views(parts@),
        ),
{
    let nonempty = match (utf8_ne_empty_column(&parsed.where_expr), col) {
        (Some(filter_name), ColumnData::Utf8(_)) => str_eq(filter_name, name),
        _ => false,
    };
    if nonempty {
        let keep = Keep::Nonempty(col);
        let rows = order_rows(parsed, parts, &keep, row_count, timed);
        proof {
            lemma_nonempty_rows(*table, parsed.where_expr, name@, row_count as nat);
            let mask = filtered(*table, parsed.where_expr, row_count as nat)->Ok_0;
            lemma_selected_stay(mask, keep, row_count as int);
            assert(mask.take(row_count as int) =~= mask);
        }
        return Ok(Some(build_scan_result(proj, col, &rows)));
    }
    let mask = match build_filter_mask(table, &parsed.where_expr, row_count) {
        Err(e) => {
            return Err(e);
        },
        Ok(m) => m,
    };
    let keep = Keep::Mask(&mask);
    let rows = order_rows(parsed, parts, &keep, row_count, timed);
    proof {
        lemma_selected_stay(mask@, keep, row_count as int);
        assert(mask@.take(row_count as int) =~= mask@);
    }
    Ok(Some(build_scan_result(proj, col, &rows)))
}

/// The rows of a column in its own order.
pub open spec fn single_order_result(t: Table, q: ParsedQuery, n: nat, p: SelectProjection, sel: Seq<
    char,
>) -> Result<Option<ResultView>, Seq<char>> {
    match filtered(t, q.where_expr, n) {
        Err(m) => Err(m),
        Ok(_) => match column_of(t, sel) {
            Err(m) => Err(m),
            Ok(c) => scan_by(t, q, n, p, c, seq![(PartView::Cells(c), q.order_by@[0].1)]),
        },
    }
}

/// The rows of a column in its own order.
pub fn try_scan_single_order(
    table: &Table,
    parsed: &ParsedQuery,
    row_count: usize,
    proj: &SelectProjection,
    sel_name: &str,
) -> (r: Result<Option<QueryResult>, Error>)
    requires
        table.wf(),
        table.holds_rows(row_count as int),
        parsed.order_by@.len() == 1,
    ensures
        attempt(r) == single_order_result(*table, *parsed, row_count as nat, *proj, sel_name@),
{
    let col = match any_column(table, sel_name, row_count) {
        Ok(c) => c,
        Err(e) => {
            return match build_filter_mask(table, &parsed.where_expr, row_count) {
                Err(first) => Err(first),
                Ok(_) => Err(e),
            };
        },
    };
    let desc = parsed.order_by[0].1;
    let mut parts: Vec<(Part<'_>, bool)> = Vec::new();
    parts.push((Part::Cells(col), desc));
    assert(part_views(parts@) =~= seq![(PartView::Cells(col@), desc)]);
    scan_column(
        table,
        parsed,
        row_count,
        proj,
        sel_name,
        col,
        &parts,
        time_index(table, sel_name, col, desc),
    )
}

/// The rows of a column in the order of another column.
pub open spec fn other_order_result(
    t: Table,
    q: ParsedQuery,
    n: nat,
    p: SelectProjection,
    sel: Seq<char>,
    ord: Seq<char>,
) -> Result<Option<ResultView>, Seq<char>> {
    match column_of(t, ord) {
        Err(m) => Err(m),
        Ok(o) => match column_of(t, sel) {
            Err(m) => Err(m),
            Ok(c) => scan_by(
                t,
                q,
                n,
                p,
                c,
                seq![
                    (
                        if short(q, n) {
                            PartView::Numbers(o)
                        } else {
                            PartView::Cells(o)
                        },
                        q.order_by@[0].1,
                    ),
                ],
            ),
        },
    }
}

/// The rows of a column in the order of another column.
pub fn try_scan_order_different_col(
    table: &Table,
    parsed: &ParsedQuery,
    row_count: usize,
    proj: &SelectProjection,
    sel_name: &str,
    order_name: &str,
) -> (r: Result<Option<QueryResult>, Error>)
    requires
        table.wf(),
        table.holds_rows(row_count as int),
        parsed.order_by@.len() == 1,
    ensures
        attempt(r) == other_order_result(
            *table,
            *parsed,
            row_count as nat,
            *proj,
            sel_name@,
            order_name@,
        ),
{
    let order_col = match any_column(table, order_name, row_count) {
        Err(e) => {
            return Err(e);
        },
        Ok(c) => c,
    };
    let sel_col = match any_column(table, sel_name, row_count) {
        Err(e) => {
            return Err(e);
        },
        Ok(c) => c,
    };
    let desc = parsed.order_by[0].1;
    let mut parts: Vec<(Part<'_>, bool)> = Vec::new();
    if needed_rows(parsed, row_count).is_some() {
        parts.push((Part::Numbers(order_col), desc));
        assert(part_views(parts@) =~= seq![(PartView::Numbers(order_col@), desc)]);
    } else {
        parts.push((Part::Cells(order_col), desc));
        assert(part_views(parts@) =~= seq![(PartView::Cells(order_col@), desc)]);
    }
    scan_column(
        table,
        parsed,
        row_count,
        proj,
        sel_name,
        sel_col,
        &parts,
        time_index(table, order_name, order_col, desc),
    )
}

/// The rows of a column in the order of another column and then in its own.
pub open spec fn two_order_result(t: Table, q: ParsedQuery, n: nat, p: SelectProjection, sel: Seq<char>) -> Result<
    Option<ResultView>,
    Seq<char>,
> {
    let (e1, d1) = q.order_by@[0];
    let (e2, d2) = q.order_by@[1];
    if ordered_by(e2) != sel {
        Ok(None)
    } else {
        match column_of(t, ordered_by(e1)) {
            Err(m) => Err(m),
            Ok(c1) => match column_of(t, sel) {
                Err(m) => Err(m),
                Ok(c2) => scan_by(
                    t,
                    q,
                    n,
                    p,
                    c2,
                    if short(q, n) {
                        seq![(PartView::Numbers(c1), d1), (PartView::Texts(c2), d2)]
                    } else {
                        seq![(PartView::Cells(c1), d1), (PartView::Cells(c2), d2)]
                    },
                ),
            },
        }
    }
}

/// The rows of a column in the order of another column and then in its own.
pub fn try_scan_two_order(
    table: &Table,
    parsed: &ParsedQuery,
    row_count: usize,
    proj: &SelectProjection,
    sel_name: &str,
) -> (r: Result<Option<QueryResult>, Error>)
    requires
        table.wf(),
        table.holds_rows(row_count as int),
        parsed.order_by@.len() == 2,
    ensures
        attempt(r) == two_order_result(*table, *parsed, row_count as nat, *proj, sel_name@),
{
    let first_name = order_column_name(&parsed.order_by[0].0);
    let d1 = parsed.order_by[0].1;
    let d2 = parsed.order_by[1].1;
    if !str_eq(order_column_name(&parsed.order_by[1].0), sel_name) {
        return Ok(None);
    }
    let col1 = match any_column(table, first_name, row_count) {
        Err(e) => {
            return Err(e);
        },
        Ok(c) => c,
    };
    let col2 = match any_column(table, sel_name, row_count) {
        Err(e) => {
            return Err(e);
        },
        Ok(c) => c,
    };
    let mut parts: Vec<(Part<'_>, bool)> = Vec::new();
    if needed_rows(parsed, row_count).is_some() {
        parts.push((Part::Numbers(col1), d1));
        parts.push((Part::Texts(col2), d2));
        assert(part_views(parts@) =~= seq![
            (PartView::Numbers(col1@), d1),
            (PartView::Texts(col2@), d2),
        ]);
    } else {
        parts.push((Part::Cells(col1), d1));
        parts.push((Part::Cells(col2), d2));
        assert(part_views(parts@) =~= seq![
            (PartView::Cells(col1@), d1),
            (PartView::Cells(col2@), d2),
        ]);
    }
    scan_column(
        table,
        parsed,
        row_count,
        proj,
        sel_name,
        col2,
        &parts,
        time_index(table, first_name, col1, d1),
    )
}

/// Whether a condition is that the address matches a pattern.
pub open spec fn url_like(e: Expr) -> bool
    decreases e,
{
    match e {
        Expr::Like { negated, expr, pattern } => !negated && column_name(*expr) == Some("URL"@)
            && *pattern is Value,
        Expr::Nested(x) => url_like(*x),
        _ => false,
    }
}

/// Whether a condition is that the address matches a pattern.
pub fn where_is_url_like(expr: &Expr) -> (r: bool)
    ensures
        r == url_like(*expr),
    decreases *expr,
{
    match expr {
        Expr::Like { negated, expr: inner, pattern } => {
            let named = match column_ref(inner) {
                Some(name) => str_eq(name, "URL"),
                None => false,
            };
            let literal = match &**pattern {
                Expr::Value(_) => true,
                _ => false,
            };
            !*negated && named && literal
        },
        Expr::Nested(e) => where_is_url_like(e),
        _ => false,
    }
}

/// The pattern that the address is to match.
pub open spec fn url_pattern(e: Expr) -> Result<Seq<char>, Seq<char>>
    decreases e,
{
    match e {
        Expr::Like { pattern, .. } => match *pattern {
            Expr::Value(Literal::SingleQuotedString(s)) => Ok(s@),
            Expr::Value(Literal::DoubleQuotedString(s)) => Ok(s@),
            _ => Err("like pattern"@),
        },
        Expr::Nested(x) => url_pattern(*x),
        _ => Err("url like"@),
    }
}

/// The pattern that the address is to match.
pub fn url_like_pattern(expr: &Expr) -> (r: Result<&str, Error>)
    ensures
        match r {
            Ok(s) => yields(url_pattern(*expr), s@),
            Err(e) => fails(url_pattern(*expr), e@),
        },
    decreases *expr,
{
    match expr {
        Expr::Like { pattern, .. } => match &**pattern {
            Expr::Value(Literal::SingleQuotedString(s)) => Ok(s.as_str()),
            Expr::Value(Literal::DoubleQuotedString(s)) => Ok(s.as_str()),
            _ => Err(Error::msg("like pattern")),
        },
        Expr::Nested(e) => url_like_pattern(e),
        _ => Err(Error::msg("url like")),
    }
}

/// The rows whose address matches a pattern.
pub open spec fn matching_rows(urls: Seq<Seq<char>>, pattern: Seq<char>, n: nat) -> Seq<usize> {
    selected(Seq::new(n, |i: int| like(encode_utf8(urls[i]), encode_utf8(pattern))))
}

/// The rows of a query for everything about the addresses that match a pattern, in the
/// order of the event time, ascending.
pub open spec fn star_rows(t: Table, q: ParsedQuery, n: nat) -> Result<Option<Seq<usize>>, Seq<char>> {
    if !q.select_all || q.order_by@.len() != 1 || ordered_by(q.order_by@[0].0) != "EventTime"@ {
        Ok(None)
    } else {
        match q.where_expr {
            None => Ok(None),
            Some(e) => if !url_like(e) {
                Ok(None)
            } else {
                match column_of(t, "URL"@) {
                    Err(m) => Err(m),
                    Ok(ColumnView::Utf8(urls)) => match url_pattern(e) {
                        Err(m) => Err(m),
                        Ok(pattern) => match column_of(t, "EventTime"@) {
                            Err(m) => Err(m),
                            Ok(times) => Ok(
                                Some(
                                    ordered_rows(
                                        q,
                                        matching_rows(urls, pattern, n),
                                        seq![
                                            (
                                                if short(q, n) {
                                                    PartView::Numbers(times)
                                                } else {
                                                    PartView::Cells(times)
                                                },
                                                false,
                                            ),
                                        ],
                                    ),
                                ),
                            ),
                        },
                    },
                    Ok(_) => Ok(None),
                }
            },
        }
    }
}

/// The rows of a query for everything about the addresses that match a pattern.
pub fn find_star_rows(table: &Table, parsed: &ParsedQuery, row_count: usize) -> (r: Result<
    Option<Vec<usize>>,
    Error,
>)
    requires
        table.wf(),
        table.holds_rows(row_count as int),
    ensures
        match r {
            Err(e) => fails(star_rows(*table, *parsed, row_count as nat), e@),
            Ok(None) => yields(star_rows(*table, *parsed, row_count as nat), None),
            Ok(Some(rows)) => yields(star_rows(*table, *parsed, row_count as nat), Some(rows@))
                && forall|i: int| 0 <= i < rows@.len() ==> (#[trigger] rows@[i]) < row_count,
        },
{
    if !parsed.select_all || parsed.order_by.len() != 1 {
        return Ok(None);
    }
    if !str_eq(order_column_name(&parsed.order_by[0].0), "EventTime") {
        return Ok(None);
    }
    let expr = match &parsed.where_expr {
        Some(e) => e,
        None => {
            return Ok(None);
        },
    };
    if !where_is_url_like(expr) {
        return Ok(None);
    }
    let urls = match any_column(table, "URL", row_count) {
        Err(e) => {
            return Err(e);
        },
        Ok(c) => c,
    };
    match urls {
        ColumnData::Utf8(_) => {},
        _ => {
            return Ok(None);
        },
    }
    let pattern = match url_like_pattern(expr) {
        Err(e) => {
            return Err(e);
        },
        Ok(c) => c,
    };
    let times = match any_column(table, "EventTime", row_count) {
        Err(e) => {
            return Err(e);
        },
        Ok(c) => c,
    };
    let mask = Test::Like { pattern, negated: false }.fill(urls, row_count);
    let keep = Keep::Mask(&mask);
    let mut parts: Vec<(Part<'_>, bool)> = Vec::new();
    if needed_rows(parsed, row_count).is_some() {
        parts.push((Part::Numbers(times), false));
        assert(part_views(parts@) =~= seq![(PartView::Numbers(times@), false)]);
    } else {
        parts.push((Part::Cells(times), false));
        assert(part_views(parts@) =~= seq![(PartView::Cells(times@), false)]);
    }
    let rows = order_rows(parsed, &parts, &keep, row_count, None);
    proof {
        lemma_selected_stay(mask@, keep, row_count as int);
        assert(mask@.take(row_count as int) =~= mask@);
        if let ColumnView::Utf8(texts) = urls@ {
            assert(mask@ =~= Seq::new(
                row_count as nat,
                |i: int| like(encode_utf8(texts[i]), encode_utf8(pattern@)),
            ));
        }
    }
    Ok(Some(rows))
}

/// What reading rows of all columns out of their files comes to.
pub open spec fn fetched(
    r: Result<Option<QueryResult>, Error>,
    t: Table,
    files: Seq<ColumnFile>,
    rows: Seq<usize>,
) -> bool {
    let n = t.declared().len();
    match projection_fault(t, files, rows, n) {
        Some(m) => fails(attempt(r), m),
        None => yields(
            attempt(r),
            Some(
                ResultView {
                    columns: declared_names(t.declared()),
                    rows: shown_rows(projected(t, files, rows, n)),
                },
            ),
        ),
    }
}

/// Everything about the addresses that match a pattern: the rows are found by the columns
/// in memory, which then make room, and everything is read out of the files.
pub fn try_scan_star_like_order_limit(
    table: &mut Table,
    parsed: &ParsedQuery,
    row_count: usize,
    files: &Vec<ColumnFile>,
) -> (r: Result<Option<QueryResult>, Error>)
    requires
        old(table).wf(),
        old(table).holds_rows(row_count as int),
    ensures
        final(table).wf(),
        match star_rows(*old(table), *parsed, row_count as nat) {
            Err(m) => fails(attempt(r), m) && *final(table) == *old(table),
            Ok(None) => yields(attempt(r), None) && *final(table) == *old(table),
            Ok(Some(rows)) => {
                &&& final(table).memory().dom() =~= Set::<Seq<char>>::empty()
                &&& final(table).info() == old(table).info()
                &&& final(table).index() == old(table).index()
                &&& fetched(r, *final(table), files@, rows)
            },
        },
{
    let rows = match find_star_rows(table, parsed, row_count) {
        Err(e) => {
            return Err(e);
        },
        Ok(None) => {
            return Ok(None);
        },
        Ok(Some(v)) => v,
    };
    let none: Vec<String> = Vec::new();
    table.retain_columns(&none);
    proof {
        assert(table.memory().dom() =~= Set::<Seq<char>>::empty());
        assert forall|i: int| 0 <= i < rows@.len() implies table.covers_row(
            (#[trigger] rows@[i]) as int,
        ) by {
            assert forall|k: int| 0 <= k < table.loaded().len() implies (rows@[i] as int) < (
            #[trigger] table.loaded()[k]).1@.len() by {
                let name = table.loaded()[k].0;
                assert(table.at(name, k));
                assert(table.has(name));
                assert(table.memory().dom().contains(name));
            }
        }
    }
    fetch_rows(table, &rows, files)
}

/// Reads rows of all columns.
pub fn fetch_rows(table: &Table, rows: &Vec<usize>, files: &Vec<ColumnFile>) -> (r: Result<
    Option<QueryResult>,
    Error,
>)
    requires
        table.wf(),
        forall|i: int| 0 <= i < rows@.len() ==> table.covers_row((#[trigger] rows@[i]) as int),
    ensures
        fetched(r, *table, files@, rows@),
{
    match table.project_rows(rows, files) {
        Err(e) => Err(e),
        Ok((columns, values)) => {
            let mut out: Vec<Vec<Cell>> = Vec::new();
            let mut i: usize = 0;
            while i < values.len()
                invariant
                    i <= values@.len(),
                    out@.len() == i,
                    forall|k: int|
                        0 <= k < i ==> cells((#[trigger] out@[k])@) == all_shown(
                            texts(values@[k]@),
                        ),
                decreases values@.len() - i,
            {
                out.push(show_texts(&values[i]));
                i = i + 1;
            }
            let r = QueryResult { columns, rows: out };
            assert(r@.rows =~= shown_rows(text_lists(values@)));
            Ok(Some(r))
        },
    }
}

/// The rows of a column of numbers that equal a number.
pub open spec fn equal_rows(c: ColumnView, x: i64, n: nat) -> Seq<usize> {
    selected(Seq::new(n, |i: int| col_int(c, i) == x))
}

/// The rows of a query for a column of numbers that are to equal a number.
pub open spec fn int_eq_result(t: Table, q: ParsedQuery, n: nat) -> Result<
    Option<ResultView>,
    Seq<char>,
> {
    if q.select_all || q.select_items@.len() != 1 || q.order_by@.len() > 0 || q.limit is Some
        || q.offset is Some {
        Ok(None)
    } else {
        match q.select_items@[0].kind {
            SelectItemKind::Column(sel) => match column_name(sel) {
                None => Err("scan col"@),
                Some(name) => match q.where_expr {
                    Some(Expr::BinaryOp { left, op: BinaryOperator::Eq, right }) => match *right {
                        Expr::Value(Literal::Number(s)) => if column_name(*left) == Some(name) {
                            match parsed_i64(s@) {
                                None => Err("bad lit: "@ + s@),
                                Some(x) => match column_of(t, name) {
                                    Err(m) => Err(m),
                                    Ok(c) => match c {
                                        ColumnView::Int64(_) => Ok(
                                            Some(
                                                column_result(
                                                    q.select_items@[0],
                                                    c,
                                                    equal_rows(c, x, n),
                                                ),
                                            ),
                                        ),
                                        ColumnView::Int32(_) => Ok(
                                            Some(
                                                column_result(
                                                    q.select_items@[0],
                                                    c,
                                                    equal_rows(c, (x as i32) as i64, n),
                                                ),
                                            ),
                                        ),
                                        _ => Ok(None),
                                    },
                                },
                            }
                        } else {
                            Ok(None)
                        },
                        _ => Ok(None),
                    },
                    _ => Ok(None),
                },
            },
            _ => Ok(None),
        }
    }
}

/// The rows of a query for a column of numbers that are to equal a number.
pub fn try_scan_int_eq(table: &Table, parsed: &ParsedQuery, row_count: usize) -> (r: Result<
    Option<QueryResult>,
    Error,
>)
    requires
        table.wf(),
        table.holds_rows(row_count as int),
    ensures
        attempt(r) == int_eq_result(*table, *parsed, row_count as nat),
{
    if parsed.select_all || parsed.select_items.len() != 1 || parsed.order_by.len() > 0
        || parsed.limit.is_some() || parsed.offset.is_some() {
        return Ok(None);
    }
    let proj = &parsed.select_items[0];
    let sel = match &proj.kind {
        SelectItemKind::Column(e) => e,
        _ => {
            return Ok(None);
        },
    };
    let name = match column_ref(sel) {
        Some(n) => n,
        None => {
            return Err(Error::msg("scan col"));
        },
    };
    let (left, right) = match &parsed.where_expr {
        Some(Expr::BinaryOp { left, op: BinaryOperator::Eq, right }) => (left, right),
        _ => {
            return Ok(None);
        },
    };
    let numeral = match &**right {
        Expr::Value(Literal::Number(s)) => s,
        _ => {
            return Ok(None);
        },
    };
    let same = match column_ref(left) {
        Some(n) => str_eq(n, name),
        None => false,
    };
    if !same {
        return Ok(None);
    }
    let lit: i64 = match parse_i64(numeral.as_str()) {
        Some(x) => x,
        None => {
            let m = join3("bad lit: ", numeral.as_str(), "");
            proof {
                reveal_strlit("");
                assert(m@ =~= "bad lit: "@ + numeral@);
            }
            return Err(Error::Msg(m));
        },
    };
    let col = match any_column(table, name, row_count) {
        Err(e) => {
            return Err(e);
        },
        Ok(c) => c,
    };
    let wanted: i64 = match col {
        ColumnData::Int64(_) => lit,
        ColumnData::Int32(_) => #[verifier::truncate] (lit as i32) as i64,
        _ => {
            return Ok(None);
        },
    };
    let rows = rows_equal(col, wanted, row_count);
    Ok(Some(build_scan_result(proj, col, &rows)))
}

/// The rows of a column of numbers that equal a number.
fn rows_equal(col: &ColumnData, x: i64, row_count: usize) -> (rows: Vec<usize>)
    requires
        row_count <= col@.len(),
    ensures
        rows@ == equal_rows(col@, x, row_count as nat),
        forall|i: int| 0 <= i < rows@.len() ==> (#[trigger] rows@[i]) < row_count,
{
    let ghost mask = Seq::new(row_count as nat, |i: int| col_int(col@, i) == x);
    let mut rows: Vec<usize> = Vec::new();
    let mut i: usize = 0;
    assert(mask.take(0) =~= Seq::<bool>::empty());
    assert(rows@ =~= selected(mask.take(0)));
    while i < row_count
        invariant
            i <= row_count <= col@.len(),
            mask == Seq::new(row_count as nat, |i: int| col_int(col@, i) == x),
            rows@ == selected(mask.take(i as int)),
            forall|k: int| 0 <= k < rows@.len() ==> (#[trigger] rows@[k]) < i,
        decreases row_count - i,
    {
        assert(mask.take(i + 1).drop_last() =~= mask.take(i as int));
        assert(mask.take(i + 1).last() == mask[i as int]);
        if crate::expr::eval::col_i64_at(col, i) == x {
            rows.push(i);
        }
        i = i + 1;
    }
    assert(mask.take(i as int) =~= mask);
    rows
}

/// What a scan for one column in an order comes to.
pub open spec fn column_order_result(t: Table, q: ParsedQuery, n: nat) -> Result<
    Option<ResultView>,
    Seq<char>,
> {
    if q.select_all || q.select_items@.len() != 1 {
        Ok(None)
    } else {
        let p = q.select_items@[0];
        match p.kind {
            SelectItemKind::Column(sel) => match column_name(sel) {
                None => Err("scan col"@),
                Some(name) => if q.order_by@.len() == 1 {
                    if ordered_by(q.order_by@[0].0) == name {
                        single_order_result(t, q, n, p, name)
                    } else {
                        other_order_result(t, q, n, p, name, ordered_by(q.order_by@[0].0))
                    }
                } else if q.order_by@.len() == 2 {
                    two_order_result(t, q, n, p, name)
                } else {
                    Ok(None)
                },
            },
            _ => Ok(None),
        }
    }
}

/// A scan for one column in an order.
pub fn try_scan_column_order(table: &Table, parsed: &ParsedQuery, row_count: usize) -> (r: Result<
    Option<QueryResult>,
    Error,
>)
    requires
        table.wf(),
        table.holds_rows(row_count as int),
    ensures
        attempt(r) == column_order_result(*table, *parsed, row_count as nat),
{
    if parsed.select_all || parsed.select_items.len() != 1 {
        return Ok(None);
    }
    let proj = &parsed.select_items[0];
    let sel = match &proj.kind {
        SelectItemKind::Column(e) => e,
        _ => {
            return Ok(None);
        },
    };
    let name = match column_ref(sel) {
        Some(n) => n,
        None => {
            return Err(Error::msg("scan col"));
        },
    };
    if parsed.order_by.len() == 1 {
        let order_name = order_column_name(&parsed.order_by[0].0);
        if str_eq(order_name, name) {
            try_scan_single_order(table, parsed, row_count, proj, name)
        } else {
            try_scan_order_different_col(table, parsed, row_count, proj, name, order_name)
        }
    } else if parsed.order_by.len() == 2 {
        try_scan_two_order(table, parsed, row_count, proj, name)
    } else {
        Ok(None)
    }
}

/// A scan of one of the shapes that need no general scan. Where everything is asked for,
/// it is read out of the files.
pub fn try_execute_scan_fast(
    table: &mut Table,
    parsed: &ParsedQuery,
    row_count: usize,
    files: &Vec<ColumnFile>,
) -> (r: Result<Option<QueryResult>, Error>)
    requires
        old(table).wf(),
        old(table).holds_rows(row_count as int),
    ensures
        final(table).wf(),
        match (
            int_eq_result(*old(table), *parsed, row_count as nat),
            star_rows(*old(table), *parsed, row_count as nat),
        ) {
            (Ok(None), Ok(Some(rows))) => {
                &&& final(table).memory().dom() =~= Set::<Seq<char>>::empty()
                &&& final(table).info() == old(table).info()
                &&& final(table).index() == old(table).index()
                &&& fetched(r, *final(table), files@, rows)
            },
            (Ok(None), Err(m)) => fails(attempt(r), m) && *final(table) == *old(table),
            (Ok(None), Ok(None)) => attempt(r) == column_order_result(
                *old(table),
                *parsed,
                row_count as nat,
            ) && *final(table) == *old(table),
            (other, _) => attempt(r) == other && *final(table) == *old(table),
        },
{
    match try_scan_int_eq(table, parsed, row_count) {
        Ok(None) => {},
        r => {
            return r;
        },
    }
    match try_scan_star_like_order_limit(table, parsed, row_count, files) {
        Ok(None) => {},
        r => {
            return r;
        },
    }
    try_scan_column_order(table, parsed, row_count)
}

} // verus!
