//! Values that are had quickly are the values of the aggregate functions.
use crate::error::yields;
use crate::exec::aggregate::{is_date_column, mark_of, Mark};
use crate::exec::aggregate_laws::{
    comes_to, law_average, law_count, law_maximum, law_minimum, law_sum, numbers_on, total,
};
use crate::exec::execute::{global_values, totals};
use crate::exec::fast_agg::{
    all_simple, extreme_cell, global_result, item_cell, kept_total, law_row_extreme, least_and_most,
    like_rows, liked, minmax_result, multi_result, nonzero_rows, not_zero, phrase_cell, plain_ints,
    row_extreme, row_sum, simple, simple_cell, simple_cells, simple_row, single_cell,
    two_distinct_result,
};
use crate::exec::fast_q29::{added, sums_result, width_sum, width_sums};
use crate::exec::filter::filtered;
use crate::exec::kernel::mapped;
use crate::exec::mask_util::selected;
use crate::exec::packed_laws::lemma_all_selected;
use crate::exec::result::{counted, labels, CellView, ResultView};
use crate::exec::sorting::{all_numbers, counts_rows};
use crate::exec::total_laws::{law_column_different, law_like_count, law_nonzero_count};
use crate::expr::eval::{col_int, column_of, gives_text, int_of};
use crate::sql::ast::{Expr, ParsedQuery, SelectItemKind, SelectProjection};
use crate::sql::query::column_name;
use crate::storage::column::ColumnView;
use crate::storage::table::Table;
use crate::storage::zones::adv_total;
use vstd::prelude::*;

verus! {

/// The numbers of a column on rows.
pub open spec fn column_numbers(c: ColumnView, rows: Seq<usize>) -> Seq<i64> {
    mapped(rows, |r: usize| col_int(c, r as int))
}

/// A column has its numbers on rows.
proof fn lemma_column_numbers(t: Table, e: Expr, c: ColumnView, rows: Seq<usize>)
    requires
        column_name(e) is Some,
        yields(column_of(t, column_name(e)->Some_0), c),
        !(c is Utf8),
    ensures
        numbers_on(t, e, rows, column_numbers(c, rows)),
        forall|i: int| 0 <= i < rows.len() ==> !gives_text(t, e, (#[trigger] rows[i]) as int),
        forall|i: int|
            0 <= i < rows.len() ==> yields(
                mark_of(t, e, rows[i] as int),
                Mark::Number(#[trigger] column_numbers(c, rows)[i]),
            ),
{
}

/// The sum of a column on rows is the sum of its numbers.
proof fn lemma_column_total(c: ColumnView, rows: Seq<usize>)
    ensures
        row_sum(c, rows) == total(column_numbers(c, rows)),
    decreases rows.len(),
{
    if rows.len() > 0 {
        lemma_column_total(c, rows.drop_last());
        let v = column_numbers(c, rows);
        assert(v.drop_last() =~= column_numbers(c, rows.drop_last()));
        assert(v.last() == col_int(c, rows.last() as int));
    }
}

/// An extreme value that is had quickly is that of the aggregate function.
proof fn lemma_quick_extreme(t: Table, e: Expr, rows: Seq<usize>, is_max: bool, c: CellView)
    requires
        yields(extreme_cell(t, e, rows, is_max), Some(c)),
    ensures
        comes_to(
            t,
            if is_max {
                SelectItemKind::Max(e)
            } else {
                SelectItemKind::Min(e)
            },
            rows,
            c,
        ),
{
    let name = column_name(e)->Some_0;
    let col = column_of(t, name)->Ok_0;
    let x = row_extreme(col, rows, is_max)->Some_0;
    let values = column_numbers(col, rows);
    lemma_column_numbers(t, e, col, rows);
    assert(rows.len() > 0);
    law_row_extreme(col, rows, is_max, 0);
    let v = if is_max {
        law_maximum(t, e, rows, values)
    } else {
        law_minimum(t, e, rows, values)
    };
    let k = choose|k: int| 0 <= k < values.len() && values[k] == v;
    law_row_extreme(col, rows, is_max, k);
    let j = choose|j: int|
        0 <= j < rows.len() && row_extreme(col, rows, is_max) == Some(
            col_int(col, #[trigger] rows[j] as int),
        );
    assert(values[j] == x);
    assert(v == x);
    assert(is_date_column(Some(t), e) == (col is Date));
}

/// What is had quickly for one projection is the value of the aggregate function on the same
/// rows.
pub proof fn law_quick_item(t: Table, kind: SelectItemKind, rows: Seq<usize>, c: CellView)
    requires
        yields(item_cell(t, kind, rows), Some(c)),
    ensures
        comes_to(t, kind, rows, c),
{
    match kind {
        SelectItemKind::CountAll => law_count(t, kind, rows),
        SelectItemKind::Count(_) => law_count(t, kind, rows),
        SelectItemKind::Sum(e) => {
            let col = column_of(t, column_name(e)->Some_0)->Ok_0;
            lemma_column_numbers(t, e, col, rows);
            lemma_column_total(col, rows);
            law_sum(t, e, rows, column_numbers(col, rows));
        },
        SelectItemKind::Avg(e) => {
            let col = column_of(t, column_name(e)->Some_0)->Ok_0;
            lemma_column_numbers(t, e, col, rows);
            lemma_column_total(col, rows);
            law_average(t, e, rows, column_numbers(col, rows));
        },
        SelectItemKind::CountDistinct(e) => law_column_different(t, e, rows),
        SelectItemKind::Min(e) => lemma_quick_extreme(t, e, rows, false, c),
        SelectItemKind::Max(e) => lemma_quick_extreme(t, e, rows, true, c),
        _ => {},
    }
}

/// The average that is had quickly of a column of integers over some rows is the sum of the
/// numbers of the column on these rows over how many rows there are; the sum that is had
/// quickly is that sum, and the count that number.
pub proof fn law_quick_average(t: Table, e: Expr, c: ColumnView, rows: Seq<usize>)
    requires
        column_name(e) is Some,
        yields(column_of(t, column_name(e)->Some_0), c),
        plain_ints(c),
        rows.len() > 0,
    ensures
        yields(
            item_cell(t, SelectItemKind::Avg(e), rows),
            Some(
                CellView::Ratio {
                    sum: Seq::new(rows.len(), |i: int| col_int(c, rows[i] as int)).fold_left(
                        0int,
                        |sum: int, v: i64| sum + v,
                    ),
                    count: rows.len(),
                },
            ),
        ),
        yields(
            item_cell(t, SelectItemKind::Sum(e), rows),
            Some(
                counted(
                    Seq::new(rows.len(), |i: int| col_int(c, rows[i] as int)).fold_left(
                        0int,
                        |sum: int, v: i64| sum + v,
                    ),
                ),
            ),
        ),
        yields(item_cell(t, SelectItemKind::CountAll, rows), Some(counted(rows.len() as int))),
        yields(item_cell(t, SelectItemKind::Count(e), rows), Some(counted(rows.len() as int))),
{
    lemma_column_total(c, rows);
    assert(Seq::new(rows.len(), |i: int| col_int(c, rows[i] as int)) =~= column_numbers(c, rows));
}

/// What is had for one of several simple projections is the value of the aggregate function
/// on the same rows.
pub proof fn law_quick_simple(t: Table, kind: SelectItemKind, rows: Seq<usize>, c: CellView)
    requires
        simple(kind),
        yields(simple_cell(t, kind, rows), c),
    ensures
        comes_to(t, kind, rows, c),
{
    match kind {
        SelectItemKind::Sum(e) => {
            let col = column_of(t, column_name(e)->Some_0)->Ok_0;
            lemma_column_numbers(t, e, col, rows);
            lemma_column_total(col, rows);
            law_sum(t, e, rows, column_numbers(col, rows));
        },
        SelectItemKind::Avg(e) => {
            let col = column_of(t, column_name(e)->Some_0)->Ok_0;
            lemma_column_numbers(t, e, col, rows);
            lemma_column_total(col, rows);
            law_average(t, e, rows, column_numbers(col, rows));
        },
        SelectItemKind::CountDistinct(e) => law_column_different(t, e, rows),
        _ => law_count(t, kind, rows),
    }
}

/// Whether a result is one row with the values of the aggregate functions of a query over
/// rows, under its headings.
pub open spec fn is_totals(t: Table, q: ParsedQuery, rows: Seq<usize>, r: ResultView) -> bool {
    &&& r.columns == labels(q.select_items@)
    &&& r.rows.len() == 1
    &&& r.rows[0].len() == q.select_items@.len()
    &&& forall|i: int|
        0 <= i < q.select_items@.len() ==> comes_to(
            t,
            (#[trigger] q.select_items@[i]).kind,
            rows,
            r.rows[0][i],
        )
}

/// Whether the rows that a condition counts as not zero are taken from an index, they are as
/// many as the condition selects.
pub open spec fn index_counts(t: Table, q: ParsedQuery, n: nat) -> bool {
    match not_zero(q.where_expr) {
        Some(name) => match kept_total(t, name) {
            Some(z) => match filtered(t, q.where_expr, n) {
                Ok(mask) => adv_total(z.zones@) == selected(mask).len(),
                Err(_) => false,
            },
            None => true,
        },
        None => true,
    }
}

/// A column in memory is as long as the table.
proof fn lemma_long_enough(t: Table, name: Seq<char>, n: nat)
    requires
        t.holds_rows(n as int),
        column_of(t, name) is Ok,
    ensures
        n <= column_of(t, name)->Ok_0.len(),
{
    if n > 0 {
        assert(t.covers_row(n - 1));
        t.lemma_covers(name, n - 1);
    }
}

/// The value of a query with one projection is that of the aggregate function.
proof fn lemma_quick_single(t: Table, q: ParsedQuery, n: nat, c: CellView)
    requires
        q.select_items@.len() == 1,
        t.holds_rows(n as int),
        n <= usize::MAX,
        index_counts(t, q, n),
        yields(single_cell(t, q, n), Some(c)),
    ensures
        match filtered(t, q.where_expr, n) {
            Ok(mask) => comes_to(t, q.select_items@[0].kind, selected(mask), c),
            Err(_) => false,
        },
{
    let p = q.select_items@[0];
    lemma_all_selected(n);
    if yields(phrase_cell(t, q, n), Some(c)) {
        let e = p.kind->CountDistinct_0;
        law_column_different(t, e, all_numbers(n));
    } else if q.where_expr is None && counts_rows(p) {
        law_count(t, p.kind, all_numbers(n));
    } else {
        match q.where_expr {
            None => {
                law_quick_item(t, p.kind, all_numbers(n), c);
            },
            Some(e) => {
                let a = nonzero_rows(t, q.where_expr, n)->Ok_0;
                let b = like_rows(t, q.where_expr, n)->Ok_0;
                if a is Some && counts_rows(p) {
                    let name = not_zero(q.where_expr)->Some_0;
                    if kept_total(t, name) is None {
                        lemma_long_enough(t, name, n);
                        law_nonzero_count(t, e, column_of(t, name)->Ok_0, n);
                    }
                    law_count(t, p.kind, selected(filtered(t, q.where_expr, n)->Ok_0));
                } else if b is Some && counts_rows(p) {
                    let name = liked(q.where_expr)->Some_0.0;
                    lemma_long_enough(t, name, n);
                    law_like_count(t, e, column_of(t, name)->Ok_0->Utf8_0, n);
                    law_count(t, p.kind, selected(filtered(t, q.where_expr, n)->Ok_0));
                } else {
                    law_quick_item(
                        t,
                        p.kind,
                        selected(filtered(t, q.where_expr, n)->Ok_0),
                        c,
                    );
                }
            },
        }
    }
}

/// The values of simple projections are those of the aggregate functions.
proof fn lemma_simple_cells(t: Table, items: Seq<SelectProjection>, rows: Seq<usize>, k: nat)
    requires
        k <= items.len(),
        forall|i: int| 0 <= i < k ==> simple((#[trigger] items[i]).kind),
        simple_cells(t, items, rows, k) is Ok,
    ensures
        simple_cells(t, items, rows, k)->Ok_0.len() == k,
        forall|i: int|
            0 <= i < k ==> comes_to(
                t,
                (#[trigger] items[i]).kind,
                rows,
                simple_cells(t, items, rows, k)->Ok_0[i],
            ),
    decreases k,
{
    if k > 0 {
        lemma_simple_cells(t, items, rows, (k - 1) as nat);
        assert(simple(items[k - 1].kind));
        law_quick_simple(
            t,
            items[k - 1].kind,
            rows,
            simple_cell(t, items[k - 1].kind, rows)->Ok_0,
        );
    }
}

/// A row of simple projections has the values of the aggregate functions.
proof fn lemma_simple_row(t: Table, q: ParsedQuery, n: nat, r: ResultView)
    requires
        all_simple(q.select_items@),
        yields(simple_row(t, q, n), Some(r)),
    ensures
        match filtered(t, q.where_expr, n) {
            Ok(mask) => is_totals(t, q, selected(mask), r),
            Err(_) => false,
        },
{
    lemma_simple_cells(
        t,
        q.select_items@,
        selected(filtered(t, q.where_expr, n)->Ok_0),
        q.select_items@.len(),
    );
}

/// A smallest and a largest value are those of the aggregate functions.
#[verifier::rlimit(40)]
proof fn lemma_minmax(t: Table, q: ParsedQuery, n: nat, r: ResultView)
    requires
        yields(minmax_result(t, q, n), Some(r)),
    ensures
        match filtered(t, q.where_expr, n) {
            Ok(mask) => is_totals(t, q, selected(mask), r),
            Err(_) => false,
        },
{
    let (a, b) = least_and_most(q.select_items@)->Some_0;
    let rows = selected(filtered(t, q.where_expr, n)->Ok_0);
    let (x, y) = (q.select_items@[a].kind->Min_0, q.select_items@[b].kind->Max_0);
    let lo = extreme_cell(t, x, rows, false)->Ok_0->Some_0;
    let hi = extreme_cell(t, y, rows, true)->Ok_0->Some_0;
    lemma_quick_extreme(t, x, rows, false, lo);
    lemma_quick_extreme(t, y, rows, true, hi);
    assert(q.select_items@[a].kind == SelectItemKind::Min(x));
    assert(q.select_items@[b].kind == SelectItemKind::Max(y));
}

/// The values of aggregate functions, one by one.
proof fn lemma_global_values(t: Table, items: Seq<SelectProjection>, mask: Seq<bool>, k: nat)
    requires
        k <= items.len(),
        global_values(t, items, mask, k) is Ok,
    ensures
        global_values(t, items, mask, k)->Ok_0.len() == k,
        forall|i: int|
            0 <= i < k ==> comes_to(
                t,
                (#[trigger] items[i]).kind,
                selected(mask),
                global_values(t, items, mask, k)->Ok_0[i],
            ),
    decreases k,
{
    if k > 0 {
        lemma_global_values(t, items, mask, (k - 1) as nat);
    }
}

/// The sum of widths with a number added to each is the sum of the numbers on the rows.
proof fn lemma_width_sum(t: Table, e: Expr, w: Seq<i16>, n: nat)
    requires
        added(e) is Ok,
        yields(column_of(t, "ResolutionWidth"@), ColumnView::Int16(w)),
        n <= w.len(),
        n <= usize::MAX,
    ensures
        comes_to(
            t,
            SelectItemKind::Sum(e),
            all_numbers(n),
            counted(width_sum(w, added(e)->Ok_0, n)),
        ),
{
    let k = added(e)->Ok_0;
    let values = Seq::new(n, |i: int| (w[i] + k) as i64);
    let rows = all_numbers(n);
    assert forall|i: int| 0 <= i < rows.len() implies yields(
        int_of(t, e, rows[i] as int),
        #[trigger] values[i],
    ) by {
        lemma_width(t, e, w, i);
    }
    law_sum(t, e, rows, values);
    lemma_width_total(w, k, n);
}

/// The number of a width with a number beside it.
proof fn lemma_width(t: Table, e: Expr, w: Seq<i16>, i: int)
    requires
        added(e) is Ok,
        yields(column_of(t, "ResolutionWidth"@), ColumnView::Int16(w)),
        0 <= i < w.len(),
    ensures
        yields(int_of(t, e, i), (w[i] + added(e)->Ok_0) as i64),
{
    reveal_with_fuel(int_of, 2);
    match e {
        Expr::BinaryOp { left, op, right } => {
            assert(int_of(t, *left, i) is Ok);
            assert(int_of(t, *right, i) is Ok);
        },
        _ => {},
    }
}

/// Sums of widths, one by one.
proof fn lemma_width_total(w: Seq<i16>, k: i16, n: nat)
    requires
        n <= w.len(),
    ensures
        width_sum(w, k, n) == total(Seq::new(n, |i: int| (w[i] + k) as i64)),
    decreases n,
{
    let values = Seq::new(n, |i: int| (w[i] + k) as i64);
    if n > 0 {
        lemma_width_total(w, k, (n - 1) as nat);
        assert(values.drop_last() =~= Seq::new((n - 1) as nat, |i: int| (w[i] + k) as i64));
        assert(values.last() == w[n - 1] + k);
    }
}

/// Many sums of the width are those of the aggregate functions.
proof fn lemma_width_sums(t: Table, items: Seq<SelectProjection>, w: Seq<i16>, n: nat, k: nat)
    requires
        k <= items.len(),
        forall|i: int| 0 <= i < items.len() ==> (#[trigger] items[i]).kind is Sum,
        yields(column_of(t, "ResolutionWidth"@), ColumnView::Int16(w)),
        n <= w.len(),
        n <= usize::MAX,
        width_sums(items, w, n, k) is Ok,
    ensures
        width_sums(items, w, n, k)->Ok_0.len() == k,
        forall|i: int|
            0 <= i < k ==> comes_to(
                t,
                (#[trigger] items[i]).kind,
                all_numbers(n),
                width_sums(items, w, n, k)->Ok_0[i],
            ),
    decreases k,
{
    if k > 0 {
        lemma_width_sums(t, items, w, n, (k - 1) as nat);
        assert(items[k - 1].kind is Sum);
        lemma_width_sum(t, items[k - 1].kind->Sum_0, w, n);
    }
}

/// A query of aggregate functions over all rows comes to one row: under each heading the
/// value of that aggregate function over the rows that the condition selects, by whichever
/// way it is found.
pub proof fn law_totals(t: Table, q: ParsedQuery, n: nat, r: ResultView)
    requires
        t.holds_rows(n as int),
        n <= usize::MAX,
        index_counts(t, q, n),
        q.group_by@.len() == 0,
        yields(totals(t, q, n), r),
    ensures
        match filtered(t, q.where_expr, n) {
            Ok(mask) => is_totals(t, q, selected(mask), r),
            Err(_) => false,
        },
{
    lemma_all_selected(n);
    if yields(sums_result(t, q, n), Some(r)) {
        let w = column_of(t, "ResolutionWidth"@)->Ok_0->Int16_0;
        lemma_long_enough(t, "ResolutionWidth"@, n);
        lemma_width_sums(t, q.select_items@, w, n, q.select_items@.len());
    } else if yields(global_result(t, q, n), Some(r)) {
        if q.select_items@.len() > 1 {
            if yields(minmax_result(t, q, n), Some(r)) {
                lemma_minmax(t, q, n, r);
            } else if yields(two_distinct_result(t, q, n), Some(r)) {
                assert(all_simple(q.select_items@));
                lemma_simple_row(t, q, n, r);
            } else {
                assert(yields(multi_result(t, q, n), Some(r)));
                lemma_simple_row(t, q, n, r);
            }
        } else {
            lemma_quick_single(t, q, n, single_cell(t, q, n)->Ok_0->Some_0);
        }
    } else {
        let mask = filtered(t, q.where_expr, n)->Ok_0;
        lemma_global_values(t, q.select_items@, mask, q.select_items@.len());
    }
}

} // verus!
