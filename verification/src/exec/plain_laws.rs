//! What answers depend on, and what the aggregates of groups come to.
use crate::error::yields;
use crate::exec::aggregate::{
    accumulated, finished, global_value, mark_of, members, nothing_seen, or_zero, updated, AggView,
    Mark,
};
use crate::exec::execute::global_values;
use crate::exec::fast_agg::plain_ints;
use crate::exec::filter::{filtered, masked};
use crate::exec::group::{
    group_row, group_rows, group_value, items_fault, key_shown, keyed, lemma_key_shown,
    lemma_rows_with, plain_answer, plainly_grouped, proj_text, resolved, row_key, rows_fault,
    rows_with, stands_for, states_of,
};
use crate::exec::group_fused_text::phrases;
use crate::exec::grouping::{distinct_at, sum_at, tallied};
use crate::exec::hash::{first_seen, lemma_first_seen_distinct, lemma_occurrences, occurrences};
use crate::exec::kernel::{keys_with_counts, mapped, with_count};
use crate::exec::mask_util::selected;
use crate::exec::result::CellView;
use crate::exec::scan::{
    projected_text, scan_answer, scan_keys, scan_text, scan_values, scan_width, scanned,
};
use crate::exec::sorting::alias_position;
use crate::expr::eval::{col_int, column_of, int_of, key_of};
use crate::expr::laws::{agree, law_evaluation_reads_mentioned, same_column};
use crate::sql::ast::{Expr, ParsedQuery, SelectItemKind, SelectProjection};
use crate::sql::columns::{kind_mentions, mentions, query_mentions};
use crate::sql::query::column_name;
use crate::storage::column::ColumnView;
use crate::storage::table::Table;
use crate::text::decimal;
use vstd::prelude::*;

verus! {

/// Whether two tables have the same values in the columns that a query refers to.
pub open spec fn alike(a: Table, b: Table, q: ParsedQuery) -> bool {
    forall|n: Seq<char>| #[trigger] query_mentions(q, n) ==> same_column(a, b, n)
}

/// Whether two tables have the same values in the columns that an item refers to.
pub open spec fn alike_in(a: Table, b: Table, item: SelectItemKind) -> bool {
    forall|n: Seq<char>| #[trigger] kind_mentions(item, n) ==> same_column(a, b, n)
}

proof fn lemma_item_alike(a: Table, b: Table, q: ParsedQuery, k: int)
    requires
        alike(a, b, q),
        0 <= k < q.select_items@.len(),
    ensures
        alike_in(a, b, q.select_items@[k].kind),
{
    let item = q.select_items@[k].kind;
    assert forall|n: Seq<char>| #[trigger] kind_mentions(item, n) implies same_column(a, b, n) by {
        assert(kind_mentions(q.select_items@[k].kind, n));
        assert(query_mentions(q, n));
    }
}

proof fn lemma_item_agrees(a: Table, b: Table, item: SelectItemKind, e: Expr)
    requires
        alike_in(a, b, item),
        forall|n: Seq<char>| mentions(e, n) ==> kind_mentions(item, n),
    ensures
        agree(a, b, e),
{
    assert forall|n: Seq<char>| #[trigger] mentions(e, n) implies same_column(a, b, n) by {
        assert(kind_mentions(item, n));
    }
}

proof fn lemma_filtered_alike(a: Table, b: Table, e: Expr, n: nat)
    requires
        agree(a, b, e),
    ensures
        filtered(a, Some(e), n) == filtered(b, Some(e), n),
    decreases n,
{
    if n > 0 {
        lemma_filtered_alike(a, b, e, (n - 1) as nat);
        law_evaluation_reads_mentioned(a, b, e, n - 1);
    }
}

proof fn lemma_where_alike(a: Table, b: Table, q: ParsedQuery, n: nat)
    requires
        alike(a, b, q),
    ensures
        filtered(a, q.where_expr, n) == filtered(b, q.where_expr, n),
{
    match q.where_expr {
        Some(e) => {
            assert forall|n: Seq<char>| #[trigger] mentions(e, n) implies same_column(a, b, n) by {
                assert(query_mentions(q, n));
            }
            lemma_filtered_alike(a, b, e, n);
        },
        None => {},
    }
}

proof fn lemma_scan_text_alike(a: Table, b: Table, e: Expr, row: int)
    requires
        agree(a, b, e),
    ensures
        scan_text(a, e, row) == scan_text(b, e, row),
    decreases e,
{
    match e {
        Expr::Nested(inner) => {
            assert forall|n: Seq<char>| #[trigger] mentions(*inner, n) implies same_column(
                a,
                b,
                n,
            ) by {
                assert(mentions(e, n));
            }
            lemma_scan_text_alike(a, b, *inner, row);
        },
        _ => {
            if column_name(e) is Some {
                assert(mentions(e, column_name(e)->Some_0));
            }
            law_evaluation_reads_mentioned(a, b, e, row);
        },
    }
}

proof fn lemma_scan_values_alike(a: Table, b: Table, q: ParsedQuery, row: int, k: nat)
    requires
        alike(a, b, q),
        !q.select_all,
        k <= q.select_items@.len(),
    ensures
        scan_values(a, q, row, k) == scan_values(b, q, row, k),
    decreases k,
{
    if k > 0 {
        lemma_scan_values_alike(a, b, q, row, (k - 1) as nat);
        let p = q.select_items@[k - 1];
        lemma_item_alike(a, b, q, k - 1);
        match p.kind {
            SelectItemKind::Column(e) => {
                lemma_item_agrees(a, b, p.kind, e);
                lemma_scan_text_alike(a, b, e, row);
            },
            SelectItemKind::Other(e) => {
                lemma_item_agrees(a, b, p.kind, e);
                lemma_scan_text_alike(a, b, e, row);
            },
            _ => {},
        }
        assert(projected_text(a, p, row) == projected_text(b, p, row));
    }
}

proof fn lemma_scan_keys_alike(a: Table, b: Table, q: ParsedQuery, row: int, k: nat)
    requires
        alike(a, b, q),
        k <= q.order_by@.len(),
    ensures
        scan_keys(a, q, row, k) == scan_keys(b, q, row, k),
    decreases k,
{
    if k > 0 {
        lemma_scan_keys_alike(a, b, q, row, (k - 1) as nat);
        let e = q.order_by@[k - 1].0;
        assert forall|n: Seq<char>| #[trigger] mentions(e, n) implies same_column(a, b, n) by {
            assert(mentions(q.order_by@[k - 1].0, n));
            assert(query_mentions(q, n));
        }
        lemma_scan_text_alike(a, b, e, row);
    }
}

proof fn lemma_scanned_alike(a: Table, b: Table, q: ParsedQuery, rows: Seq<usize>)
    requires
        alike(a, b, q),
        !q.select_all,
    ensures
        scanned(a, q, rows) == scanned(b, q, rows),
    decreases rows.len(),
{
    if rows.len() > 0 {
        lemma_scanned_alike(a, b, q, rows.drop_last());
        lemma_scan_values_alike(a, b, q, rows.last() as int, scan_width(a, q));
        lemma_scan_keys_alike(a, b, q, rows.last() as int, q.order_by@.len());
    }
}

/// A scan comes to the same on two tables that have the same values in the columns
/// that the query refers to: loading those columns is enough.
pub proof fn law_scan_reads_referenced(a: Table, b: Table, q: ParsedQuery, n: nat)
    requires
        alike(a, b, q),
        !q.select_all,
    ensures
        scan_answer(a, q, n) == scan_answer(b, q, n),
{
    lemma_where_alike(a, b, q, n);
    match filtered(a, q.where_expr, n) {
        Ok(mask) => {
            lemma_scanned_alike(a, b, q, selected(mask));
        },
        Err(_) => {},
    }
}

proof fn lemma_updated_alike(a: Table, b: Table, item: SelectItemKind, s: AggView, row: int)
    requires
        alike_in(a, b, item),
    ensures
        updated(s, a, item, row) == updated(s, b, item, row),
{
    match item {
        SelectItemKind::CountAll => {},
        SelectItemKind::Sum(e) => {
            lemma_item_agrees(a, b, item, e);
            law_evaluation_reads_mentioned(a, b, e, row);
        },
        SelectItemKind::Avg(e) => {
            lemma_item_agrees(a, b, item, e);
            law_evaluation_reads_mentioned(a, b, e, row);
        },
        SelectItemKind::Count(_) => {},
        SelectItemKind::CountDistinct(e) => {
            lemma_item_agrees(a, b, item, e);
            lemma_column_alike(a, b, e);
            law_evaluation_reads_mentioned(a, b, e, row);
        },
        SelectItemKind::Min(e) => {
            lemma_item_agrees(a, b, item, e);
            law_evaluation_reads_mentioned(a, b, e, row);
        },
        SelectItemKind::Max(e) => {
            lemma_item_agrees(a, b, item, e);
            law_evaluation_reads_mentioned(a, b, e, row);
        },
        SelectItemKind::Column(_) => {},
        SelectItemKind::Other(_) => {},
    }
}

proof fn lemma_column_alike(a: Table, b: Table, e: Expr)
    requires
        agree(a, b, e),
    ensures
        column_name(e) matches Some(n) ==> same_column(a, b, n),
    decreases e,
{
    match column_name(e) {
        Some(n) => {
            assert(mentions(e, n));
        },
        None => {},
    }
}

proof fn lemma_accumulated_alike(a: Table, b: Table, item: SelectItemKind, rows: Seq<usize>)
    requires
        alike_in(a, b, item),
    ensures
        accumulated(a, item, rows) == accumulated(b, item, rows),
    decreases rows.len(),
{
    if rows.len() > 0 {
        lemma_accumulated_alike(a, b, item, rows.drop_last());
        match accumulated(a, item, rows.drop_last()) {
            Ok(s) => {
                lemma_updated_alike(a, b, item, s, rows.last() as int);
            },
            Err(_) => {},
        }
    }
}

proof fn lemma_finished_alike(a: Table, b: Table, item: SelectItemKind, s: AggView)
    requires
        alike_in(a, b, item),
    ensures
        finished(s, item, Seq::empty(), Some(a)) == finished(s, item, Seq::empty(), Some(b)),
{
    match item {
        SelectItemKind::Min(e) => {
            lemma_item_agrees(a, b, item, e);
            lemma_column_alike(a, b, e);
        },
        SelectItemKind::Max(e) => {
            lemma_item_agrees(a, b, item, e);
            lemma_column_alike(a, b, e);
        },
        _ => {},
    }
}

/// The value of an aggregate function over the rows that a mask selects is the same on
/// two tables that have the same values in the columns that it refers to.
pub proof fn law_aggregate_reads_mentioned(
    a: Table,
    b: Table,
    item: SelectItemKind,
    mask: Seq<bool>,
)
    requires
        alike_in(a, b, item),
    ensures
        global_value(a, item, mask) == global_value(b, item, mask),
{
    lemma_accumulated_alike(a, b, item, selected(mask));
    match accumulated(a, item, selected(mask)) {
        Ok(s) => {
            lemma_finished_alike(a, b, item, s);
        },
        Err(_) => {},
    }
}

/// The values of the aggregate functions of a query are the same on two tables that have
/// the same values in the columns that the query refers to.
pub proof fn law_aggregates_read_referenced(
    a: Table,
    b: Table,
    q: ParsedQuery,
    mask: Seq<bool>,
    k: nat,
)
    requires
        alike(a, b, q),
        k <= q.select_items@.len(),
    ensures
        global_values(a, q.select_items@, mask, k) == global_values(b, q.select_items@, mask, k),
    decreases k,
{
    if k > 0 {
        law_aggregates_read_referenced(a, b, q, mask, (k - 1) as nat);
        lemma_item_alike(a, b, q, k - 1);
        law_aggregate_reads_mentioned(a, b, q.select_items@[k - 1].kind, mask);
    }
}

proof fn lemma_proj_alike(a: Table, b: Table, p: SelectProjection, row: int)
    requires
        alike_in(a, b, p.kind),
    ensures
        proj_text(a, p, row) == proj_text(b, p, row),
{
    match p.kind {
        SelectItemKind::Column(e) => {
            lemma_item_agrees(a, b, p.kind, e);
            law_evaluation_reads_mentioned(a, b, e, row);
        },
        SelectItemKind::Other(e) => {
            lemma_item_agrees(a, b, p.kind, e);
            law_evaluation_reads_mentioned(a, b, e, row);
        },
        _ => {},
    }
}

proof fn lemma_alias_within(items: Seq<SelectProjection>, name: Seq<char>)
    ensures
        alias_position(items, name) matches Some(i) ==> i < items.len(),
    decreases items.len(),
{
    if items.len() > 0 {
        lemma_alias_within(items.drop_last(), name);
    }
}

proof fn lemma_resolved_agrees(a: Table, b: Table, q: ParsedQuery, k: int)
    requires
        alike(a, b, q),
        0 <= k < q.group_by@.len(),
    ensures
        agree(a, b, resolved(q.group_by@[k], q.select_items@)),
{
    let e = q.group_by@[k];
    let r = resolved(e, q.select_items@);
    assert forall|n: Seq<char>| #[trigger] mentions(r, n) implies same_column(a, b, n) by {
        if r == e {
            assert(mentions(q.group_by@[k], n));
            assert(query_mentions(q, n));
        } else {
            match e {
                Expr::Identifier(s) => {
                    lemma_alias_within(q.select_items@, s@);
                    match alias_position(q.select_items@, s@) {
                        Some(i) => {
                            assert(kind_mentions(q.select_items@[i as int].kind, n));
                            assert(query_mentions(q, n));
                        },
                        None => {},
                    }
                },
                _ => {},
            }
        }
    }
}

proof fn lemma_row_key_alike(a: Table, b: Table, q: ParsedQuery, row: int, k: nat)
    requires
        alike(a, b, q),
        k <= q.group_by@.len(),
    ensures
        row_key(a, q, row, k) == row_key(b, q, row, k),
    decreases k,
{
    if k > 0 {
        lemma_row_key_alike(a, b, q, row, (k - 1) as nat);
        lemma_resolved_agrees(a, b, q, k - 1);
        law_evaluation_reads_mentioned(a, b, resolved(q.group_by@[k - 1], q.select_items@), row);
    }
}

proof fn lemma_keyed_alike(a: Table, b: Table, q: ParsedQuery, rows: Seq<usize>)
    requires
        alike(a, b, q),
    ensures
        keyed(a, q, rows) == keyed(b, q, rows),
    decreases rows.len(),
{
    if rows.len() > 0 {
        lemma_keyed_alike(a, b, q, rows.drop_last());
        lemma_row_key_alike(a, b, q, rows.last() as int, q.group_by@.len());
    }
}

proof fn lemma_items_fault_alike(a: Table, b: Table, q: ParsedQuery, row: int, k: nat)
    requires
        alike(a, b, q),
        k <= q.select_items@.len(),
    ensures
        items_fault(a, q.select_items@, row, k) == items_fault(b, q.select_items@, row, k),
    decreases k,
{
    if k > 0 {
        lemma_items_fault_alike(a, b, q, row, (k - 1) as nat);
        lemma_item_alike(a, b, q, k - 1);
        lemma_updated_alike(a, b, q.select_items@[k - 1].kind, nothing_seen(), row);
    }
}

proof fn lemma_rows_fault_alike(a: Table, b: Table, q: ParsedQuery, rows: Seq<usize>)
    requires
        alike(a, b, q),
    ensures
        rows_fault(a, q.select_items@, rows) == rows_fault(b, q.select_items@, rows),
    decreases rows.len(),
{
    if rows.len() > 0 {
        lemma_rows_fault_alike(a, b, q, rows.drop_last());
        lemma_items_fault_alike(a, b, q, rows.last() as int, q.select_items@.len());
    }
}

proof fn lemma_group_row_alike(
    a: Table,
    b: Table,
    q: ParsedQuery,
    row: usize,
    states: Seq<AggView>,
    k: nat,
)
    requires
        alike(a, b, q),
        k <= q.select_items@.len(),
    ensures
        group_row(a, q, row, states, k) == group_row(b, q, row, states, k),
    decreases k,
{
    if k > 0 {
        lemma_group_row_alike(a, b, q, row, states, (k - 1) as nat);
        let p = q.select_items@[k - 1];
        lemma_item_alike(a, b, q, k - 1);
        lemma_proj_alike(a, b, p, row as int);
        lemma_finished_alike(a, b, p.kind, states[k - 1]);
        lemma_key_shown(q, k - 1, q.group_by@.len());
        match key_shown(q, k - 1, q.group_by@.len()) {
            Some(i) => {
                lemma_resolved_agrees(a, b, q, i as int);
                law_evaluation_reads_mentioned(
                    a,
                    b,
                    resolved(q.group_by@[i as int], q.select_items@),
                    row as int,
                );
            },
            None => {},
        }
        assert(group_value(a, q, k - 1, row, states[k - 1]) == group_value(
            b,
            q,
            k - 1,
            row,
            states[k - 1],
        ));
    }
}

proof fn lemma_group_rows_alike(
    a: Table,
    b: Table,
    q: ParsedQuery,
    keys: Seq<Seq<Seq<char>>>,
    rows: Seq<usize>,
    n: nat,
)
    requires
        alike(a, b, q),
    ensures
        group_rows(a, q, keys, rows, n) == group_rows(b, q, keys, rows, n),
    decreases n,
{
    if n > 0 {
        lemma_group_rows_alike(a, b, q, keys, rows, (n - 1) as nat);
        let key = first_seen(keys)[n - 1];
        let own = rows_with(keys, rows, key);
        let states = states_of(a, q.select_items@, keys, rows, key);
        assert(states =~= states_of(b, q.select_items@, keys, rows, key)) by {
            assert forall|k: int| 0 <= k < q.select_items@.len() implies #[trigger] states[k]
                == states_of(b, q.select_items@, keys, rows, key)[k] by {
                lemma_item_alike(a, b, q, k);
                lemma_accumulated_alike(a, b, q.select_items@[k].kind, own);
            }
        }
        lemma_group_row_alike(a, b, q, own[0], states, q.select_items@.len());
    }
}

/// Plain grouping comes to the same on two tables that have the same values in the
/// columns that the query refers to: loading those columns is enough.
pub proof fn law_groups_read_referenced(a: Table, b: Table, q: ParsedQuery, n: nat)
    requires
        alike(a, b, q),
    ensures
        plain_answer(a, q, n) == plain_answer(b, q, n),
{
    lemma_where_alike(a, b, q, n);
    assert(masked(a, q, n) == masked(b, q, n));
    match masked(a, q, n) {
        Ok(Some(mask)) => {
            let rows = selected(mask);
            lemma_keyed_alike(a, b, q, rows);
            let (keys, fault) = keyed(a, q, rows);
            lemma_rows_fault_alike(a, b, q, rows.take(keys.len() as int));
            lemma_group_rows_alike(a, b, q, keys, rows, first_seen(keys).len());
            assert(plainly_grouped(a, q, rows) == plainly_grouped(b, q, rows));
        },
        _ => {},
    }
}

/// Plain grouping counts for each group the rows that have its key, as the kernels do.
pub proof fn law_group_count<K>(t: Table, keys: Seq<K>, rows: Seq<usize>, key: K)
    ensures
        accumulated(t, SelectItemKind::CountAll, rows_with(keys, rows, key)) == Ok::<
            AggView,
            Seq<char>,
        >(AggView { count_all: occurrences(keys, key), ..nothing_seen() }),
    decreases keys.len(),
{
    if keys.len() > 0 {
        let front = keys.drop_last();
        law_group_count(t, front, rows, key);
        if keys.last() == key {
            assert(rows_with(keys, rows, key).drop_last() =~= rows_with(front, rows, key));
        }
    }
}

/// Plain grouping adds up for each group the values of the rows that have its key, as
/// the kernels do.
pub proof fn law_group_sum<K>(
    t: Table,
    e: Expr,
    keys: Seq<K>,
    rows: Seq<usize>,
    vals: Seq<i64>,
    key: K,
)
    requires
        keys.len() <= rows.len(),
        forall|i: int|
            0 <= i < keys.len() ==> int_of(t, e, (#[trigger] rows[i]) as int) == Ok::<
                i64,
                Seq<char>,
            >(vals[i]),
    ensures
        match accumulated(t, SelectItemKind::Sum(e), rows_with(keys, rows, key)) {
            Ok(a) => or_zero(a.sum) == sum_at(keys, vals, key),
            Err(_) => false,
        },
    decreases keys.len(),
{
    if keys.len() > 0 {
        let front = keys.drop_last();
        law_group_sum(t, e, front, rows, vals, key);
        if keys.last() == key {
            assert(rows_with(keys, rows, key).drop_last() =~= rows_with(front, rows, key));
            assert(rows_with(keys, rows, key).last() == rows[keys.len() - 1]);
        }
    }
}

/// The average of a group is the sum of the values of the rows that have its key over
/// their number, as the kernels have it.
pub proof fn law_group_average<K>(
    t: Table,
    e: Expr,
    keys: Seq<K>,
    rows: Seq<usize>,
    vals: Seq<i64>,
    key: K,
)
    requires
        keys.len() <= rows.len(),
        forall|i: int|
            0 <= i < keys.len() ==> int_of(t, e, (#[trigger] rows[i]) as int) == Ok::<
                i64,
                Seq<char>,
            >(vals[i]),
    ensures
        match accumulated(t, SelectItemKind::Avg(e), rows_with(keys, rows, key)) {
            Ok(a) => or_zero(a.avg_sum) == sum_at(keys, vals, key) && a.avg_count == occurrences(
                keys,
                key,
            ),
            Err(_) => false,
        },
    decreases keys.len(),
{
    if keys.len() > 0 {
        let front = keys.drop_last();
        law_group_average(t, e, front, rows, vals, key);
        if keys.last() == key {
            assert(rows_with(keys, rows, key).drop_last() =~= rows_with(front, rows, key));
            assert(rows_with(keys, rows, key).last() == rows[keys.len() - 1]);
        }
    }
}

/// Plain grouping tells apart, for each group, the numbers of a column on the rows that
/// have its key, as the kernels do.
pub proof fn law_group_distinct<K>(
    t: Table,
    e: Expr,
    keys: Seq<K>,
    rows: Seq<usize>,
    vals: Seq<i64>,
    key: K,
)
    requires
        keys.len() <= rows.len(),
        forall|i: int|
            0 <= i < keys.len() ==> mark_of(t, e, (#[trigger] rows[i]) as int) == Ok::<
                Mark,
                Seq<char>,
            >(Mark::Number(vals[i])),
    ensures
        match accumulated(t, SelectItemKind::CountDistinct(e), rows_with(keys, rows, key)) {
            Ok(a) => members(a.count_distinct_i64) == distinct_at(keys, vals, key),
            Err(_) => false,
        },
    decreases keys.len(),
{
    if keys.len() > 0 {
        let front = keys.drop_last();
        law_group_distinct(t, e, front, rows, vals, key);
        if keys.last() == key {
            assert(rows_with(keys, rows, key).drop_last() =~= rows_with(front, rows, key));
            assert(rows_with(keys, rows, key).last() == rows[keys.len() - 1]);
        }
    }
}

pub proof fn lemma_rows_have_key<K>(keys: Seq<K>, rows: Seq<usize>, key: K, i: int)
    requires
        keys.len() <= rows.len(),
        0 <= i < rows_with(keys, rows, key).len(),
    ensures
        exists|j: int|
            0 <= j < keys.len() && keys[j] == key && #[trigger] rows[j] == rows_with(
                keys,
                rows,
                key,
            )[i],
    decreases keys.len(),
{
    if keys.len() > 0 {
        let front = keys.drop_last();
        let was = rows_with(front, rows, key);
        if i < was.len() {
            lemma_rows_have_key(front, rows, key, i);
            let j = choose|j: int|
                0 <= j < front.len() && front[j] == key && #[trigger] rows[j] == was[i];
            assert(keys[j] == key && rows[j] == rows_with(keys, rows, key)[i]);
        } else {
            let j = keys.len() - 1;
            assert(keys[j] == key && rows[j] == rows_with(keys, rows, key)[i]);
        }
    }
}

/// Whether a query counts the rows of each value of a column.
pub open spec fn counts_values(q: ParsedQuery, name: Seq<char>) -> bool {
    &&& q.group_by@.len() == 1
    &&& column_name(resolved(q.group_by@[0], q.select_items@)) == Some(name)
    &&& q.select_items@.len() == 2
    &&& q.select_items@[0].kind matches SelectItemKind::Column(e) && column_name(e) == Some(name)
    &&& stands_for(q, 0, 0)
    &&& q.select_items@[1].kind is CountAll
    &&& q.having is None
}

/// The keys of rows that have one text each.
pub open spec fn single_keys(rows: Seq<usize>, f: spec_fn(usize) -> Seq<char>) -> Seq<
    Seq<Seq<char>>,
> {
    mapped(rows, |r: usize| seq![f(r)])
}

/// Whether rows are grouped by a text.
pub open spec fn keyed_by(
    t: Table,
    q: ParsedQuery,
    rows: Seq<usize>,
    f: spec_fn(usize) -> Seq<char>,
) -> bool {
    forall|i: int|
        0 <= i < rows.len() ==> yields(
            key_of(t, resolved(q.group_by@[0], q.select_items@), (#[trigger] rows[i]) as int),
            f(rows[i]),
        )
}

proof fn lemma_single_keyed(
    t: Table,
    q: ParsedQuery,
    name: Seq<char>,
    rows: Seq<usize>,
    f: spec_fn(usize) -> Seq<char>,
)
    requires
        counts_values(q, name),
        keyed_by(t, q, rows, f),
    ensures
        keyed(t, q, rows) == (single_keys(rows, f), None::<Seq<char>>),
        rows_fault(t, q.select_items@, rows) is None,
    decreases rows.len(),
{
    if rows.len() == 0 {
        assert(single_keys(rows, f) =~= Seq::<Seq<Seq<char>>>::empty());
    } else {
        let front = rows.drop_last();
        assert forall|i: int| 0 <= i < front.len() implies #[trigger] front[i] == rows[i] by {}
        lemma_single_keyed(t, q, name, front, f);
        let row = rows.last();
        assert(rows[rows.len() - 1] == row);
        reveal_with_fuel(row_key, 2);
        assert(Seq::<Seq<char>>::empty().push(f(row)) =~= seq![f(row)]);
        assert(row_key(t, q, row as int, 1) == Ok::<Seq<Seq<char>>, Seq<char>>(seq![f(row)]));
        assert(single_keys(rows, f) =~= single_keys(front, f).push(seq![f(row)]));
        reveal_with_fuel(items_fault, 3);
        assert(items_fault(t, q.select_items@, row as int, 2) is None);
    }
}

proof fn lemma_single_groups(
    t: Table,
    q: ParsedQuery,
    name: Seq<char>,
    rows: Seq<usize>,
    f: spec_fn(usize) -> Seq<char>,
    n: nat,
)
    requires
        counts_values(q, name),
        keyed_by(t, q, rows, f),
        rows.len() <= u64::MAX,
        n <= first_seen(single_keys(rows, f)).len(),
    ensures
        yields(
            group_rows(t, q, single_keys(rows, f), rows, n),
            keys_with_counts(
                first_seen(single_keys(rows, f)),
                tallied(single_keys(rows, f)),
            ).take(n as int),
        ),
    decreases n,
{
    let keys = single_keys(rows, f);
    let all = keys_with_counts(first_seen(keys), tallied(keys));
    if n == 0 {
        assert(all.take(0) =~= Seq::<Seq<CellView>>::empty());
    } else {
        lemma_single_groups(t, q, name, rows, f, (n - 1) as nat);
        let key = first_seen(keys)[n - 1];
        lemma_first_seen_distinct(keys);
        assert(first_seen(keys).contains(key));
        lemma_rows_with(keys, rows, key);
        lemma_rows_have_key(keys, rows, key, 0);
        let row = rows_with(keys, rows, key)[0];
        let j = choose|j: int|
            0 <= j < keys.len() && keys[j] == key && #[trigger] rows[j] == row;
        assert(keys[j] == seq![f(rows[j])]);
        assert(key[0] == f(row));
        let states = states_of(t, q.select_items@, keys, rows, key);
        law_group_count(t, keys, rows, key);
        lemma_occurrences(keys, key);
        assert(states[1].count_all == occurrences(keys, key));
        assert(yields(
            key_of(t, resolved(q.group_by@[0], q.select_items@), rows[j] as int),
            f(rows[j]),
        ));
        reveal_with_fuel(key_shown, 2);
        assert(key_shown(q, 0, 1) == Some(0usize));
        assert(key_shown(q, 1, 1) is None);
        reveal_with_fuel(group_row, 3);
        assert(tallied(keys)[n - 1] == occurrences(keys, key));
        assert(key =~= seq![key[0]]);
        assert(group_row(t, q, row, states, 2)->Ok_0 =~= with_count(key, tallied(keys)[n - 1]));
        assert(all.take(n as int) =~= all.take(n - 1).push(all[n - 1]));
    }
}

proof fn lemma_single_plain(
    t: Table,
    q: ParsedQuery,
    name: Seq<char>,
    rows: Seq<usize>,
    f: spec_fn(usize) -> Seq<char>,
)
    requires
        counts_values(q, name),
        keyed_by(t, q, rows, f),
        rows.len() <= u64::MAX,
    ensures
        yields(
            plainly_grouped(t, q, rows),
            keys_with_counts(
                first_seen(single_keys(rows, f)),
                tallied(single_keys(rows, f)),
            ),
        ),
{
    let keys = single_keys(rows, f);
    let all = keys_with_counts(first_seen(keys), tallied(keys));
    lemma_single_keyed(t, q, name, rows, f);
    assert(rows.take(keys.len() as int) =~= rows);
    lemma_single_groups(t, q, name, rows, f, first_seen(keys).len());
    assert(all.take(first_seen(keys).len() as int) =~= all);
}

/// Counting the rows of each text of a column is plain grouping: the kernels and plain
/// grouping show the same rows.
pub proof fn law_text_counts_plain(
    t: Table,
    q: ParsedQuery,
    name: Seq<char>,
    v: Seq<Seq<char>>,
    rows: Seq<usize>,
)
    requires
        counts_values(q, name),
        yields(column_of(t, name), ColumnView::Utf8(v)),
        rows.len() <= u64::MAX,
    ensures
        yields(
            plainly_grouped(t, q, rows),
            keys_with_counts(first_seen(phrases(v, rows)), tallied(phrases(v, rows))),
        ),
{
    let f = |r: usize| v[r as int];
    assert(single_keys(rows, f) =~= phrases(v, rows));
    lemma_single_plain(t, q, name, rows, f);
}

/// Counting the rows of each number of a column of integers is plain grouping: the
/// kernels and plain grouping show the same rows.
pub proof fn law_number_counts_plain(
    t: Table,
    q: ParsedQuery,
    name: Seq<char>,
    c: ColumnView,
    rows: Seq<usize>,
)
    requires
        counts_values(q, name),
        yields(column_of(t, name), c),
        plain_ints(c),
        rows.len() <= u64::MAX,
    ensures
        ({
            let keys = mapped(rows, |r: usize| seq![decimal(col_int(c, r as int) as int)]);
            yields(plainly_grouped(t, q, rows), keys_with_counts(first_seen(keys), tallied(keys)))
        }),
{
    let f = |r: usize| decimal(col_int(c, r as int) as int);
    let keys = mapped(rows, |r: usize| seq![decimal(col_int(c, r as int) as int)]);
    assert(single_keys(rows, f) =~= keys);
    lemma_single_plain(t, q, name, rows, f);
}

} // verus!
