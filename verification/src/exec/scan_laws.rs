//! What the rows of a scan are, and the order that they are in.
use crate::error::yields;
use crate::exec::filter::filtered;
use crate::exec::mask_util::{lemma_selected, selected};
use crate::exec::order_laws::is_page;
use crate::exec::result::{shown, ResultView};
use crate::exec::scan::{
    cell_text, projected_text, scan_answer, scan_keys, scan_text, scan_values, scan_width, scanned,
    ScanView,
};
use crate::exec::scan_fast::{
    column_order_result, equal_rows, int_eq_result, matching_rows, ordered_by, ordered_rows, short,
    star_rows, url_like, url_pattern,
};
use crate::exec::scan_order::{
    best_of, comes_first, law_scan_order_total, lemma_sorted_len, number_key, scan_leq, PartView,
};
use crate::exec::scan_stream::{hits_from, time_leq};
use crate::exec::sorting::lemma_distinct;
use crate::expr::eval::{bool_of, col_int, column_of, pattern_text, text_of};
use crate::expr::like_laws::is_like;
use crate::sql::ast::{BinaryOperator, Expr, Literal, ParsedQuery, SelectItemKind, SelectProjection};
use crate::sql::query::{column_name, label};
use crate::storage::column::ColumnView;
use crate::storage::pod::{lemma_pod_round_trip, pod_bytes, pod_values};
use crate::storage::table::{declared_names, Table};
use crate::storage::utf8_col::{entry_bytes, lemma_text_body_reads, text_body, texts_fit};
use crate::text::{decimal, law_numeral_read_back, parsed_i64, text_less};
use vstd::prelude::*;
use vstd::relations::total_ordering;
use vstd::utf8::{decode_utf8_encode_utf8, encode_utf8_decode_utf8};

verus! {

/// A scan shows, for each selected row and each column of the result, the text of the
/// projection on the row, or of the column where all are asked for; and beside it the texts
/// of the expressions of the order, each with the direction that the query gives it.
pub proof fn law_scan_rows(t: Table, q: ParsedQuery, n: nat, s: ScanView, mask: Seq<bool>, i: int, j: int)
    requires
        yields(scan_answer(t, q, n), s),
        yields(filtered(t, q.where_expr, n), mask),
        0 <= i < selected(mask).len(),
    ensures
        s.rows.len() == selected(mask).len(),
        s.keys.len() == selected(mask).len(),
        s.order.len() == q.order_by@.len(),
        s.limit == q.limit,
        s.offset == q.offset,
        q.select_all ==> s.columns == declared_names(t.declared()) && s.rows[i].len()
            == declared_names(t.declared()).len(),
        q.select_all && 0 <= j < s.rows[i].len() ==> yields(
            cell_text(t, declared_names(t.declared())[j], selected(mask)[i] as int),
            s.rows[i][j],
        ),
        !q.select_all ==> s.columns.len() == q.select_items@.len() && s.rows[i].len()
            == q.select_items@.len(),
        !q.select_all && 0 <= j < s.rows[i].len() ==> s.columns[j] == label(q.select_items@[j])
            && yields(
            projected_text(t, q.select_items@[j], selected(mask)[i] as int),
            s.rows[i][j],
        ),
        s.keys[i].len() == q.order_by@.len(),
        0 <= j < q.order_by@.len() && q.order_by@.len() <= usize::MAX ==> s.order[j].0 == j
            && s.order[j].1 == q.order_by@[j].1 && yields(
            scan_text(t, q.order_by@[j].0, selected(mask)[i] as int),
            s.keys[i][j],
        ),
{
    let rows = selected(mask);
    lemma_scanned(t, q, rows, i);
    lemma_scan_values(t, q, rows[i] as int, scan_width(t, q), j);
    lemma_scan_keys(t, q, rows[i] as int, q.order_by@.len(), j);
}

proof fn lemma_scanned(t: Table, q: ParsedQuery, rows: Seq<usize>, i: int)
    requires
        scanned(t, q, rows) is Ok,
    ensures
        scanned(t, q, rows)->Ok_0.0.len() == rows.len(),
        scanned(t, q, rows)->Ok_0.1.len() == rows.len(),
        0 <= i < rows.len() ==> yields(
            scan_values(t, q, rows[i] as int, scan_width(t, q)),
            scanned(t, q, rows)->Ok_0.0[i],
        ),
        0 <= i < rows.len() ==> yields(
            scan_keys(t, q, rows[i] as int, q.order_by@.len()),
            scanned(t, q, rows)->Ok_0.1[i],
        ),
    decreases rows.len(),
{
    if rows.len() > 0 {
        lemma_scanned(t, q, rows.drop_last(), i);
    }
}

proof fn lemma_scan_values(t: Table, q: ParsedQuery, row: int, k: nat, j: int)
    requires
        scan_values(t, q, row, k) is Ok,
    ensures
        scan_values(t, q, row, k)->Ok_0.len() == k,
        0 <= j < k ==> yields(
            if q.select_all {
                cell_text(t, declared_names(t.declared())[j], row)
            } else {
                projected_text(t, q.select_items@[j], row)
            },
            scan_values(t, q, row, k)->Ok_0[j],
        ),
    decreases k,
{
    if k > 0 {
        lemma_scan_values(t, q, row, (k - 1) as nat, j);
    }
}

proof fn lemma_scan_keys(t: Table, q: ParsedQuery, row: int, k: nat, j: int)
    requires
        scan_keys(t, q, row, k) is Ok,
    ensures
        scan_keys(t, q, row, k)->Ok_0.len() == k,
        0 <= j < k ==> yields(
            scan_text(t, q.order_by@[j].0, row),
            scan_keys(t, q, row, k)->Ok_0[j],
        ),
    decreases k,
{
    if k > 0 {
        lemma_scan_keys(t, q, row, (k - 1) as nat, j);
    }
}

/// A scan shows a text as it is, and a number, a day or a time of a column as a numeral.
pub proof fn law_scan_text(t: Table, e: Expr, c: ColumnView, row: int)
    requires
        column_name(e) is Some,
        yields(column_of(t, column_name(e)->Some_0), c),
    ensures
        c matches ColumnView::Utf8(v) ==> yields(scan_text(t, e, row), v[row]),
        !(c is Utf8) ==> yields(scan_text(t, e, row), decimal(col_int(c, row) as int)),
        scan_text(t, Expr::Nested(Box::new(e)), row) == scan_text(t, e, row),
        forall|p: SelectProjection|
            #![trigger projected_text(t, p, row)]
            p.kind == SelectItemKind::Column(e) ==> projected_text(t, p, row) == scan_text(
                t,
                e,
                row,
            ),
{
    reveal_with_fuel(scan_text, 2);
}

/// Whether one row comes before another by a part of an order, in its direction.
pub open spec fn part_ahead(part: (PartView, bool), a: int, b: int) -> bool {
    if part.1 {
        part.0.less(b, a)
    } else {
        part.0.less(a, b)
    }
}

/// Whether a row comes before another at a part of the order, and neither comes before the
/// other at all earlier parts.
pub open spec fn first_at_part(parts: Seq<(PartView, bool)>, a: int, b: int, k: int) -> bool {
    &&& 0 <= k < parts.len()
    &&& part_ahead(parts[k], a, b)
    &&& forall|i: int|
        0 <= i < k ==> !(#[trigger] parts[i]).0.less(a, b) && !parts[i].0.less(b, a)
}

/// Whether a row comes before another at some part of the order, and neither comes before
/// the other at all earlier parts.
pub open spec fn ahead_by_parts(parts: Seq<(PartView, bool)>, a: int, b: int) -> bool {
    exists|k: int| #[trigger] first_at_part(parts, a, b, k)
}

/// Rows are ordered by all parts of an order, each in its own direction: the first part at
/// which they differ decides.
pub proof fn law_parts_by_first_difference(parts: Seq<(PartView, bool)>, a: int, b: int)
    ensures
        comes_first(parts, a, b) <==> ahead_by_parts(parts, a, b),
    decreases parts.len(),
{
    if parts.len() > 0 {
        let rest = parts.skip(1);
        law_parts_by_first_difference(rest, a, b);
        let p = parts[0].0;
        if part_ahead(parts[0], a, b) {
            assert(first_at_part(parts, a, b, 0));
        }
        if !p.less(a, b) && !p.less(b, a) && ahead_by_parts(rest, a, b) {
            let k = choose|k: int| #[trigger] first_at_part(rest, a, b, k);
            assert(rest[k] == parts[k + 1]);
            assert forall|i: int| 0 <= i < k + 1 implies !(#[trigger] parts[i]).0.less(a, b)
                && !parts[i].0.less(b, a) by {
                if i > 0 {
                    assert(rest[i - 1] == parts[i]);
                }
            }
            assert(first_at_part(parts, a, b, k + 1));
        }
        if ahead_by_parts(parts, a, b) {
            let k = choose|k: int| #[trigger] first_at_part(parts, a, b, k);
            if k > 0 {
                assert(!parts[0].0.less(a, b));
                assert(rest[k - 1] == parts[k]);
                assert forall|i: int| 0 <= i < k - 1 implies !(#[trigger] rest[i]).0.less(a, b)
                    && !rest[i].0.less(b, a) by {
                    assert(rest[i] == parts[i + 1]);
                }
                assert(first_at_part(rest, a, b, k - 1));
            }
        }
    }
}

/// Values of a part are compared as texts where they are texts, and else as numbers; where
/// numbers are asked for, a text counts as the number that it is a numeral of, or as zero.
pub proof fn law_part_less(c: ColumnView, a: int, b: int, x: i64)
    ensures
        c matches ColumnView::Utf8(v) ==> PartView::Cells(c).less(a, b) == text_less(v[a], v[b])
            && PartView::Texts(c).less(a, b) == text_less(v[a], v[b]),
        !(c is Utf8) ==> PartView::Cells(c).less(a, b) == (col_int(c, a) < col_int(c, b))
            && PartView::Numbers(c).less(a, b) == (col_int(c, a) < col_int(c, b)),
        c matches ColumnView::Utf8(v) ==> v[a] == decimal(x as int) ==> number_key(c, a) == x,
        c matches ColumnView::Utf8(v) ==> parsed_i64(v[a]) is None ==> number_key(c, a) == 0,
        c is Utf8 ==> PartView::Numbers(c).less(a, b) == (number_key(c, a) < number_key(c, b)),
{
    law_numeral_read_back(x as int);
}

/// Whether no later row of a list comes before an earlier one by the parts of an order, and
/// rows between which the order does not decide stand as they stood.
pub open spec fn sorted_by_parts(s: Seq<usize>, parts: Seq<(PartView, bool)>) -> bool {
    forall|p: int, q: int|
        #![trigger s[p], s[q]]
        0 <= p < q < s.len() ==> !ahead_by_parts(parts, s[q] as int, s[p] as int) && (
        !ahead_by_parts(parts, s[p] as int, s[q] as int) ==> s[p] < s[q])
}

/// Whether two lists have the same members, each once.
pub open spec fn same_rows(a: Seq<usize>, b: Seq<usize>) -> bool {
    &&& a.len() == b.len()
    &&& a.no_duplicates()
    &&& b.no_duplicates()
    &&& forall|x: usize| #[trigger] a.contains(x) <==> b.contains(x)
}

/// The rows of a query in the order of some columns are a page of all its rows in that
/// order.
pub proof fn law_ordered_rows(q: ParsedQuery, rows: Seq<usize>, parts: Seq<(PartView, bool)>) -> (all:
    Seq<usize>)
    requires
        rows.no_duplicates(),
    ensures
        same_rows(all, rows),
        sorted_by_parts(all, parts),
        is_page(ordered_rows(q, rows, parts), all, q.limit, q.offset),
{
    let leq = scan_leq(parts);
    law_scan_order_total(parts);
    lemma_sorted_len(rows, leq);
    let all = rows.sort_by(leq);
    lemma_distinct(rows, all);
    assert forall|x: usize| #[trigger] all.contains(x) <==> rows.contains(x) by {
        vstd::seq_lib::to_multiset_contains(all, x);
        vstd::seq_lib::to_multiset_contains(rows, x);
    }
    assert forall|p: int, q: int|
        #![trigger all[p], all[q]]
        0 <= p < q < all.len() implies !ahead_by_parts(parts, all[q] as int, all[p] as int) && (
    !ahead_by_parts(parts, all[p] as int, all[q] as int) ==> all[p] < all[q]) by {
        let (a, b) = (all[p] as int, all[q] as int);
        assert(leq(all[p], all[q]));
        law_parts_by_first_difference(parts, a, b);
        law_parts_by_first_difference(parts, b, a);
        assert(all[p] != all[q]);
        if comes_first(parts, b, a) {
            assert(leq(all[q], all[p]));
        }
    }
    all
}

/// The condition of a query for everything about the addresses that match a pattern holds
/// on the rows that are taken, and on no others.
pub proof fn law_matching_rows(t: Table, e: Expr, urls: Seq<Seq<char>>, p: Seq<char>, row: int)
    requires
        url_like(e),
        yields(url_pattern(e), p),
        yields(column_of(t, "URL"@), ColumnView::Utf8(urls)),
    ensures
        yields(bool_of(t, e, row), is_like(urls[row], p)),
    decreases e,
{
    match e {
        Expr::Nested(x) => {
            law_matching_rows(t, *x, urls, p, row);
        },
        Expr::Like { negated, expr, pattern } => {
            assert(text_of(t, *expr, row) == Ok::<Seq<char>, Seq<char>>(urls[row]));
            assert(pattern_text(*pattern) == Ok::<Seq<char>, Seq<char>>(p));
        },
        _ => {},
    }
}

/// A row is taken by a pattern for addresses if and only if its address is like the pattern.
pub proof fn law_matching_rows_exactly(urls: Seq<Seq<char>>, p: Seq<char>, n: nat, row: usize)
    requires
        n <= usize::MAX,
    ensures
        matching_rows(urls, p, n).contains(row) <==> row < n && is_like(urls[row as int], p),
{
    use_selected(
        Seq::new(
            n,
            |i: int|
                crate::expr::matching::like(
                    vstd::utf8::encode_utf8(urls[i]),
                    vstd::utf8::encode_utf8(p),
                ),
        ),
        row,
    );
}

proof fn use_selected(mask: Seq<bool>, row: usize)
    requires
        mask.len() <= usize::MAX,
    ensures
        selected(mask).contains(row) <==> row < mask.len() && mask[row as int],
{
    crate::exec::mask_util::law_selected_exactly(mask, row);
}

/// The rows of a column of 64-bit numbers that are to equal a number are those on which the
/// condition holds, each with its number.
pub proof fn law_equal_rows(t: Table, q: ParsedQuery, n: nat, v: Seq<i64>, x: i64)
    requires
        !q.select_all,
        q.select_items@.len() == 1,
        q.order_by@.len() == 0,
        q.limit is None,
        q.offset is None,
        n <= usize::MAX,
        q.select_items@[0].kind is Column,
        column_name(q.select_items@[0].kind->Column_0) is Some,
        yields(
            column_of(t, column_name(q.select_items@[0].kind->Column_0)->Some_0),
            ColumnView::Int64(v),
        ),
        q.where_expr matches Some(Expr::BinaryOp { left, op: BinaryOperator::Eq, right })
            && column_name(*left) == column_name(q.select_items@[0].kind->Column_0)
            && (*right matches Expr::Value(Literal::Number(s)) && s@ == decimal(x as int)),
    ensures
        int_eq_result(t, q, n) matches Ok(Some(r)) && {
            &&& r.columns == seq![label(q.select_items@[0])]
            &&& forall|i: int| 0 <= i < r.rows.len() ==> #[trigger] r.rows[i] == seq![
                shown(decimal(x as int)),
            ]
            &&& r.rows.len() == equal_rows(ColumnView::Int64(v), x, n).len()
        },
        forall|row: usize| #[trigger]
            equal_rows(ColumnView::Int64(v), x, n).contains(row) <==> row < n && v[row as int] == x,
{
    law_numeral_read_back(x as int);
    let c = ColumnView::Int64(v);
    let mask = Seq::new(n, |i: int| col_int(c, i) == x);
    assert forall|row: usize| #[trigger] equal_rows(c, x, n).contains(row) <==> row < n
        && v[row as int] == x by {
        use_selected(mask, row);
    }
    let rows = equal_rows(c, x, n);
    let r = int_eq_result(t, q, n)->Ok_0->Some_0;
    assert forall|i: int| 0 <= i < r.rows.len() implies #[trigger] r.rows[i] == seq![
        shown(decimal(x as int)),
    ] by {
        assert(rows.contains(rows[i]));
        assert(v[rows[i] as int] == x);
    }
}

/// The column of a part of an order.
pub open spec fn part_column(p: PartView) -> ColumnView {
    match p {
        PartView::Cells(c) => c,
        PartView::Numbers(c) => c,
        PartView::Texts(c) => c,
    }
}

/// A scan for one column in an order shows the column on the selected rows, in the order of
/// the columns that the query names, each in the direction that it gives.
pub proof fn law_column_order(t: Table, q: ParsedQuery, n: nat, r: ResultView, mask: Seq<bool>) -> (
    parts: Seq<(PartView, bool)>)
    requires
        yields(column_order_result(t, q, n), Some(r)),
        yields(filtered(t, q.where_expr, n), mask),
    ensures
        parts.len() == q.order_by@.len(),
        forall|k: int|
            0 <= k < parts.len() ==> (#[trigger] parts[k]).1 == q.order_by@[k].1 && yields(
                column_of(t, ordered_by(q.order_by@[k].0)),
                part_column(parts[k].0),
            ),
        r.columns == seq![label(q.select_items@[0])],
        r.rows.len() == ordered_rows(q, selected(mask), parts).len(),
        forall|i: int|
            0 <= i < r.rows.len() ==> #[trigger] r.rows[i] == seq![
                shown(
                    column_of(
                        t,
                        column_name(q.select_items@[0].kind->Column_0)->Some_0,
                    )->Ok_0.cell_text(ordered_rows(q, selected(mask), parts)[i] as int),
                ),
            ],
{
    let name = column_name(q.select_items@[0].kind->Column_0)->Some_0;
    let c = column_of(t, name)->Ok_0;
    let o = column_of(t, ordered_by(q.order_by@[0].0))->Ok_0;
    if q.order_by@.len() == 1 {
        if ordered_by(q.order_by@[0].0) == name {
            seq![(PartView::Cells(c), q.order_by@[0].1)]
        } else if short(q, n) {
            seq![(PartView::Numbers(o), q.order_by@[0].1)]
        } else {
            seq![(PartView::Cells(o), q.order_by@[0].1)]
        }
    } else if short(q, n) {
        seq![(PartView::Numbers(o), q.order_by@[0].1), (PartView::Texts(c), q.order_by@[1].1)]
    } else {
        seq![(PartView::Cells(o), q.order_by@[0].1), (PartView::Cells(c), q.order_by@[1].1)]
    }
}

/// The rows of a query for everything about the addresses that match a pattern are a page of
/// the rows with such an address, no later one of which has an earlier time than one before
/// it.
pub proof fn law_star_rows(
    t: Table,
    q: ParsedQuery,
    n: nat,
    rows: Seq<usize>,
    urls: Seq<Seq<char>>,
    times: Seq<i64>,
    p: Seq<char>,
) -> (all: Seq<usize>)
    requires
        yields(star_rows(t, q, n), Some(rows)),
        yields(column_of(t, "URL"@), ColumnView::Utf8(urls)),
        yields(column_of(t, "EventTime"@), ColumnView::Timestamp(times)),
        yields(url_pattern(q.where_expr->Some_0), p),
        n <= usize::MAX,
    ensures
        same_rows(all, matching_rows(urls, p, n)),
        forall|i: int, j: int|
            #![trigger all[i], all[j]]
            0 <= i < j < all.len() ==> times[all[i] as int] <= times[all[j] as int],
        is_page(rows, all, q.limit, q.offset),
{
    let c = ColumnView::Timestamp(times);
    let m = matching_rows(urls, p, n);
    let part = if short(q, n) {
        PartView::Numbers(c)
    } else {
        PartView::Cells(c)
    };
    let parts = seq![(part, false)];
    lemma_selected(
        Seq::new(
            n,
            |i: int|
                crate::expr::matching::like(
                    vstd::utf8::encode_utf8(urls[i]),
                    vstd::utf8::encode_utf8(p),
                ),
        ),
    );
    assert(m.no_duplicates());
    let all = law_ordered_rows(q, m, parts);
    assert forall|i: int, j: int|
        #![trigger all[i], all[j]]
        0 <= i < j < all.len() implies times[all[i] as int] <= times[all[j] as int] by {
        let (a, b) = (all[i] as int, all[j] as int);
        if times[b] < times[a] {
            assert(first_at_part(parts, b, a, 0));
        }
    }
    all
}

/// The earliest of timed rows are the first of all of them in the order of their times, and
/// of equal times of their numbers.
pub proof fn law_earliest_rows(hits: Seq<(i64, usize)>, need: nat) -> (all: Seq<(i64, usize)>)
    ensures
        all.to_multiset() == hits.to_multiset(),
        all.len() == hits.len(),
        forall|i: int, j: int|
            #![trigger all[i], all[j]]
            0 <= i < j < all.len() ==> all[i].0 <= all[j].0 && (all[i].0 == all[j].0 ==> all[i].1
                <= all[j].1),
        best_of(hits, time_leq(), need) == all.take(
            if need <= hits.len() {
                need as int
            } else {
                hits.len() as int
            },
        ),
{
    let leq = time_leq();
    assert(total_ordering(leq));
    lemma_sorted_len(hits, leq);
    let all = hits.sort_by(leq);
    assert forall|i: int, j: int|
        #![trigger all[i], all[j]]
        0 <= i < j < all.len() implies all[i].0 <= all[j].0 && (all[i].0 == all[j].0 ==> all[i].1
        <= all[j].1) by {
        assert(leq(all[i], all[j]));
    }
    all
}

/// The rows that are found in a block are those whose address is like the pattern, each with
/// its time, in the order of the rows.
pub proof fn law_block_rows_found(
    urls: Seq<Seq<char>>,
    times: Seq<i64>,
    p: Seq<char>,
    start: int,
    k: int,
) -> (from: Seq<int>)
    requires
        0 <= k <= urls.len(),
        times.len() == urls.len(),
        texts_fit(urls),
        0 <= start,
        start + urls.len() <= usize::MAX,
    ensures
        ({
            let hits = hits_from(
                text_body(urls),
                pod_bytes(times),
                p,
                start,
                k,
                urls.len() as int,
                text_body(urls.take(k)).len() as int,
            );
            &&& hits is Ok
            &&& hits->Ok_0.len() == from.len()
            &&& forall|i: int|
                0 <= i < from.len() ==> (#[trigger] hits->Ok_0[i]) == (
                    times[from[i]],
                    (start + from[i]) as usize,
                )
        }),
        forall|i: int|
            0 <= i < from.len() ==> k <= #[trigger] from[i] < urls.len() && is_like(urls[from[i]], p),
        forall|i: int, j: int|
            #![trigger from[i], from[j]]
            0 <= i < j < from.len() ==> from[i] < from[j],
        forall|x: int|
            k <= x < urls.len() && is_like(#[trigger] urls[x], p) ==> from.contains(x),
    decreases urls.len() - k,
{
    if k == urls.len() {
        Seq::empty()
    } else {
        lemma_text_body_reads(urls, k);
        let rest = law_block_rows_found(urls, times, p, start, k + 1);
        let body = text_body(urls);
        let pos = text_body(urls.take(k)).len() as int;
        encode_utf8_decode_utf8(urls[k]);
        decode_utf8_encode_utf8(entry_bytes(body, pos));
        lemma_pod_round_trip(times, Seq::empty());
        assert(pod_bytes(times) + Seq::<u8>::empty() =~= pod_bytes(times));
        assert(pod_values::<i64>(pod_bytes(times), times.len())[k] == times[k]);
        let from = if is_like(urls[k], p) {
            seq![k] + rest
        } else {
            rest
        };
        assert forall|x: int| k <= x < urls.len() && is_like(#[trigger] urls[x], p) implies
            from.contains(x) by {
            if x == k {
                assert(from[0] == k);
            } else {
                assert(rest.contains(x));
                let i = choose|i: int| 0 <= i < rest.len() && rest[i] == x;
                assert(from[if is_like(urls[k], p) {
                    i + 1
                } else {
                    i
                }] == x);
            }
        }
        from
    }
}

} // verus!
