//! The dashboard: rows of one counter, a range of dates and one referer, by address
//! and date.
use crate::error::{fails, yields, Error};
use crate::exec::agg_sort::{runs, sorted_keys, top_runs};
use crate::exec::column_slice::as_int_cols;
use crate::exec::filter::{build_filter_mask, filtered};
use crate::exec::group::covered_rows;
use crate::exec::group_columnar::{
    dashboard_q41_topk, mask_selected_pair_topk, pair_top, q41_keys,
};
use crate::exec::group_fused_pair::{pack_rows, pair_keys, pair_texts, unpack_pair_keys};
use crate::exec::kernel::{
    any_column, bind, by_count_desc, date_column, dates_of, group_id_name, group_name, i16_column,
    i16s_of, i32_column, i32s_of, i64_column, i64s_of, is_count_form, orders_by_count_desc,
    shows_counts,
};
use crate::exec::mask_util::selected;
use crate::exec::result::{
    attempt, cell_rows, cells, counted, headings, labels, number_cell, offset_of, query_offset,
    shown, Cell, CellView, QueryResult, ResultView,
};
use crate::exec::simd_scan::{DashboardColumns, DashboardData, Q41Pred};
use crate::expr::eval::{column_of, literal_int, value_to_i64};
use crate::expr::time::{date_literal, parse_date_lit};
use crate::sql::ast::{BinaryOperator, Expr, Literal, ParsedQuery};
use crate::sql::query::{column_name, column_ref};
use crate::storage::column::{ColumnData, ColumnView};
use crate::storage::table::Table;
use crate::storage::zones::{matching_ranges, ZoneIndex};
use crate::text::str_eq;
use vstd::prelude::*;

verus! {

/// The parts of a condition that all have to hold.
pub open spec fn flattened(e: Expr) -> Seq<Expr>
    decreases e,
{
    match e {
        Expr::BinaryOp { left, op: BinaryOperator::And, right } => flattened(*left) + flattened(
            *right,
        ),
        Expr::Nested(inner) => flattened(*inner),
        _ => seq![e],
    }
}

/// The expressions behind references.
pub open spec fn referred(v: Seq<&Expr>) -> Seq<Expr> {
    Seq::new(v.len(), |i: int| *v[i])
}

/// The parts of a condition that all have to hold.
pub fn flatten_and<'a>(expr: &'a Expr) -> (parts: Vec<&'a Expr>)
    ensures
        referred(parts@) == flattened(*expr),
    decreases *expr,
{
    match expr {
        Expr::BinaryOp { left, op: BinaryOperator::And, right } => {
            let mut v = flatten_and(left);
            let mut w = flatten_and(right);
            let ghost a = v@;
            let ghost b = w@;
            v.append(&mut w);
            assert(referred(v@) =~= referred(a) + referred(b));
            v
        },
        Expr::Nested(inner) => flatten_and(inner),
        _ => {
            let mut v: Vec<&'a Expr> = Vec::new();
            v.push(expr);
            assert(referred(v@) =~= seq![*expr]);
            v
        },
    }
}

/// A counter, a first date and a last date, as far as a condition names them.
#[derive(Clone, Copy)]
pub struct DateRange {
    pub counter: Option<i32>,
    pub min_date: Option<i32>,
    pub max_date: Option<i32>,
}

/// The date that a text literal gives.
pub open spec fn literal_date(v: Literal) -> Option<i32> {
    match v {
        Literal::SingleQuotedString(s) => match date_literal(s@) {
            Ok(d) => Some(d),
            Err(_) => None,
        },
        Literal::DoubleQuotedString(s) => match date_literal(s@) {
            Ok(d) => Some(d),
            Err(_) => None,
        },
        _ => None,
    }
}

/// The date that a text literal gives.
pub fn date_of_literal(v: &Literal) -> (r: Option<i32>)
    ensures
        r == literal_date(*v),
{
    match v {
        Literal::SingleQuotedString(s) => match parse_date_lit(s.as_str()) {
            Ok(d) => Some(d),
            Err(_) => None,
        },
        Literal::DoubleQuotedString(s) => match parse_date_lit(s.as_str()) {
            Ok(d) => Some(d),
            Err(_) => None,
        },
        _ => None,
    }
}

/// What a comparison of a column with a literal adds.
pub open spec fn compared(name: Seq<char>, op: BinaryOperator, v: Literal, found: DateRange) -> DateRange {
    if name == "CounterID"@ {
        match (op, literal_int(v)) {
            (BinaryOperator::Eq, Ok(x)) => DateRange { counter: Some(x as i32), ..found },
            _ => found,
        }
    } else if name == "EventDate"@ {
        match (op, literal_date(v)) {
            (BinaryOperator::GtEq, Some(d)) => DateRange { min_date: Some(d), ..found },
            (BinaryOperator::LtEq, Some(d)) => DateRange { max_date: Some(d), ..found },
            _ => found,
        }
    } else {
        found
    }
}

/// What a condition adds to a counter and a range of dates.
pub open spec fn dated(e: Expr, found: DateRange) -> DateRange
    decreases e,
{
    match e {
        Expr::BinaryOp { left, op: BinaryOperator::And, right } => dated(
            *right,
            dated(*left, found),
        ),
        Expr::BinaryOp { left, op, right } => match (column_name(*left), *right) {
            (Some(name), Expr::Value(v)) => compared(name, op, v, found),
            _ => found,
        },
        Expr::Nested(inner) => dated(*inner, found),
        _ => found,
    }
}

/// What a condition adds to a counter and a range of dates.
pub fn collect_counter_date(expr: &Expr, found: DateRange) -> (r: DateRange)
    ensures
        r == dated(*expr, found),
    decreases *expr,
{
    match expr {
        Expr::BinaryOp { left, op, right } => {
            if let BinaryOperator::And = op {
                let first = collect_counter_date(left, found);
                return collect_counter_date(right, first);
            }
            let (name, v) = match (column_ref(left), &**right) {
                (Some(name), Expr::Value(v)) => (name, v),
                _ => {
                    return found;
                },
            };
            proof {
                reveal_strlit("CounterID");
                reveal_strlit("EventDate");
            }
            if str_eq(name, "CounterID") {
                if let BinaryOperator::Eq = op {
                    if let Ok(x) = value_to_i64(v) {
                        return DateRange { counter: Some(x as i32), ..found };
                    }
                }
                found
            } else if str_eq(name, "EventDate") {
                match (op, date_of_literal(v)) {
                    (BinaryOperator::GtEq, Some(d)) => DateRange { min_date: Some(d), ..found },
                    (BinaryOperator::LtEq, Some(d)) => DateRange { max_date: Some(d), ..found },
                    _ => found,
                }
            } else {
                found
            }
        },
        Expr::Nested(inner) => collect_counter_date(inner, found),
        _ => found,
    }
}

/// The counter and the range of dates that a condition names, if it names all three.
pub open spec fn counter_dates(e: Expr) -> Option<(i32, i32, i32)> {
    match dated(e, DateRange { counter: None, min_date: None, max_date: None }) {
        DateRange { counter: Some(c), min_date: Some(a), max_date: Some(b) } => Some((c, a, b)),
        _ => None,
    }
}

/// The counter and the range of dates that a condition names, if it names all three.
pub fn extract_counter_date_range(expr: &Expr) -> (r: Option<(i32, i32, i32)>)
    ensures
        r == counter_dates(*expr),
{
    let start = DateRange { counter: None, min_date: None, max_date: None };
    let found = collect_counter_date(expr, start);
    match (found.counter, found.min_date, found.max_date) {
        (Some(c), Some(a), Some(b)) => Some((c, a, b)),
        _ => None,
    }
}

/// The number that a condition says a column equals.
pub open spec fn equals_int(e: Expr, col: Seq<char>) -> Option<i64> {
    match e {
        Expr::BinaryOp { left, op: BinaryOperator::Eq, right } => match (column_name(*left), *right) {
            (Some(name), Expr::Value(v)) => if name == col {
                match literal_int(v) {
                    Ok(x) => Some(x),
                    Err(_) => None,
                }
            } else {
                None
            },
            _ => None,
        },
        _ => None,
    }
}

/// The number that a condition says a column equals.
pub fn extract_eq_i64(expr: &Expr, col: &str) -> (r: Option<i64>)
    ensures
        r == equals_int(*expr, col@),
{
    match expr {
        Expr::BinaryOp { left, op: BinaryOperator::Eq, right } => match (column_ref(left), &**right) {
            (Some(name), Expr::Value(v)) => {
                if str_eq(name, col) {
                    match value_to_i64(v) {
                        Ok(x) => Some(x),
                        Err(_) => None,
                    }
                } else {
                    None
                }
            },
            _ => None,
        },
        _ => None,
    }
}

/// The number that a condition says a 16-bit column equals.
pub fn extract_eq_i16(expr: &Expr, col: &str) -> (r: Option<i16>)
    ensures
        r == (match equals_int(*expr, col@) {
            Some(x) => Some(x as i16),
            None => None::<i16>,
        }),
{
    match extract_eq_i64(expr, col) {
        Some(x) => Some(x as i16),
        None => None,
    }
}

/// The first `n` numbers of a list, if they all are numbers.
pub open spec fn listed(list: Seq<Expr>, n: nat) -> Option<Seq<i16>>
    decreases n,
{
    if n == 0 {
        Some(Seq::empty())
    } else {
        match (listed(list, (n - 1) as nat), list[n - 1]) {
            (Some(front), Expr::Value(v)) => match literal_int(v) {
                Ok(x) => Some(front.push(x as i16)),
                Err(_) => None,
            },
            _ => None,
        }
    }
}

proof fn lemma_listed(list: Seq<Expr>, i: nat, n: nat)
    requires
        i <= n,
        listed(list, i) is None,
    ensures
        listed(list, n) is None,
    decreases n,
{
    if i < n {
        lemma_listed(list, i, (n - 1) as nat);
    }
}

/// The numbers that a condition says a column is among.
pub open spec fn among(e: Expr, col: Seq<char>) -> Option<Seq<i16>> {
    match e {
        Expr::InList { expr, list, negated } => if !negated && column_name(*expr) == Some(col) {
            listed(list@, list@.len())
        } else {
            None
        },
        _ => None,
    }
}

/// The numbers that a condition says a column is among.
pub fn extract_in_i16(expr: &Expr, col: &str) -> (r: Option<Vec<i16>>)
    ensures
        match r {
            Some(v) => among(*expr, col@) == Some(v@),
            None => among(*expr, col@) is None,
        },
{
    match expr {
        Expr::InList { expr: inner, list, negated } => {
            let named = match column_ref(inner) {
                Some(name) => str_eq(name, col),
                None => false,
            };
            if *negated || !named {
                return None;
            }
            let mut v: Vec<i16> = Vec::new();
            let mut i: usize = 0;
            assert(v@ =~= Seq::<i16>::empty());
            while i < list.len()
                invariant
                    i <= list@.len(),
                    *expr == (Expr::InList { expr: *inner, list: *list, negated: *negated }),
                    !*negated,
                    column_name(**inner) == Some(col@),
                    listed(list@, i as nat) == Some(v@),
                decreases list@.len() - i,
            {
                let next = match &list[i] {
                    Expr::Value(x) => match value_to_i64(x) {
                        Ok(n) => Some(n),
                        Err(_) => None,
                    },
                    _ => None,
                };
                match next {
                    Some(n) => {
                        v.push(n as i16);
                    },
                    None => {
                        proof {
                            lemma_listed(list@, (i + 1) as nat, list@.len());
                        }
                        return None;
                    },
                }
                i = i + 1;
            }
            Some(v)
        },
        _ => None,
    }
}

/// What the parts of a dashboard condition say.
pub struct DashboardView {
    pub range: Option<(i32, i32, i32)>,
    pub refresh: Option<i16>,
    pub traffic: Option<Seq<i16>>,
    pub referer: Option<i64>,
}

/// What one more part of a dashboard condition adds, if it can be a part of one.
pub open spec fn part_added(e: Expr, v: DashboardView) -> Option<DashboardView> {
    if counter_dates(e) is Some {
        Some(DashboardView { range: counter_dates(e), ..v })
    } else if equals_int(e, "IsRefresh"@) is Some {
        Some(DashboardView { refresh: Some(equals_int(e, "IsRefresh"@)->Some_0 as i16), ..v })
    } else if among(e, "TraficSourceID"@) is Some {
        Some(DashboardView { traffic: among(e, "TraficSourceID"@), ..v })
    } else if equals_int(e, "RefererHash"@) is Some {
        Some(DashboardView { referer: equals_int(e, "RefererHash"@), ..v })
    } else {
        None
    }
}

/// What the first `n` parts of a dashboard condition say, if they can be parts of one.
pub open spec fn parts_added(parts: Seq<Expr>, n: nat) -> Option<DashboardView>
    decreases n,
{
    if n == 0 {
        Some(DashboardView { range: None, refresh: None, traffic: None, referer: None })
    } else {
        match parts_added(parts, (n - 1) as nat) {
            None => None,
            Some(v) => part_added(parts[n - 1], v),
        }
    }
}

proof fn lemma_parts_added(parts: Seq<Expr>, i: nat, n: nat)
    requires
        i <= n,
        parts_added(parts, i) is None,
    ensures
        parts_added(parts, n) is None,
    decreases n,
{
    if i < n {
        lemma_parts_added(parts, i, (n - 1) as nat);
    }
}

/// Whether numbers are those of the two traffic sources of the dashboard.
pub open spec fn two_sources(v: Seq<i16>) -> bool {
    &&& forall|i: int| 0 <= i < v.len() ==> (#[trigger] v[i]) == -1 || v[i] == 6
    &&& exists|i: int| 0 <= i < v.len() && (#[trigger] v[i]) == -1
    &&& exists|i: int| 0 <= i < v.len() && (#[trigger] v[i]) == 6
}

fn are_two_sources(v: &Vec<i16>) -> (r: bool)
    ensures
        r == two_sources(v@),
{
    let mut minus = false;
    let mut six = false;
    let mut i: usize = 0;
    while i < v.len()
        invariant
            i <= v@.len(),
            forall|k: int| 0 <= k < i ==> (#[trigger] v@[k]) == -1 || v@[k] == 6,
            minus <==> exists|k: int| 0 <= k < i && (#[trigger] v@[k]) == -1,
            six <==> exists|k: int| 0 <= k < i && (#[trigger] v@[k]) == 6,
        decreases v@.len() - i,
    {
        let x: i16 = v[i];
        if x == -1 {
            assert(v@[i as int] == -1);
            minus = true;
        } else if x == 6 {
            assert(v@[i as int] == 6);
            six = true;
        } else {
            assert(v@[i as int] != -1 && v@[i as int] != 6);
            return false;
        }
        i = i + 1;
    }
    minus && six
}

/// What a row of the dashboard has to meet, if the condition is that of the dashboard.
pub open spec fn dashboard(condition: Option<Expr>) -> Option<Q41Pred> {
    match condition {
        None => None,
        Some(e) => match parts_added(flattened(e), flattened(e).len()) {
            Some(
                DashboardView {
                    range: Some((counter, min_date, max_date)),
                    refresh: Some(is_refresh),
                    traffic: Some(t),
                    referer: Some(referer_hash),
                },
            ) => if two_sources(t) {
                Some(Q41Pred { counter, min_date, max_date, is_refresh, referer_hash })
            } else {
                None
            },
            _ => None,
        },
    }
}

/// What a row of the dashboard has to meet, if the condition is that of the dashboard.
pub fn parse_q41_where(condition: &Option<Expr>) -> (r: Option<Q41Pred>)
    ensures
        r == dashboard(*condition),
{
    let expr = match condition {
        Some(e) => e,
        None => {
            return None;
        },
    };
    let parts = flatten_and(expr);
    let ghost all = flattened(*expr);
    let mut range: Option<(i32, i32, i32)> = None;
    let mut refresh: Option<i16> = None;
    let mut traffic: Option<Vec<i16>> = None;
    let mut referer: Option<i64> = None;
    let ghost mut view = DashboardView { range: None, refresh: None, traffic: None, referer: None };
    let mut i: usize = 0;
    while i < parts.len()
        invariant
            i <= parts@.len(),
            all == referred(parts@),
            all == flattened(*expr),
            *condition == Some(*expr),
            parts_added(all, i as nat) == Some(view),
            view.range == range,
            view.refresh == refresh,
            view.referer == referer,
            match traffic {
                Some(v) => view.traffic == Some(v@),
                None => view.traffic is None,
            },
        decreases parts@.len() - i,
    {
        let part = parts[i];
        assert(all[i as int] == *part);
        let found_range = extract_counter_date_range(part);
        let found_refresh = extract_eq_i16(part, "IsRefresh");
        let found_traffic = extract_in_i16(part, "TraficSourceID");
        let found_referer = extract_eq_i64(part, "RefererHash");
        if found_range.is_some() {
            range = found_range;
        } else if found_refresh.is_some() {
            refresh = found_refresh;
        } else if found_traffic.is_some() {
            traffic = found_traffic;
        } else if found_referer.is_some() {
            referer = found_referer;
        } else {
            proof {
                lemma_parts_added(all, (i + 1) as nat, all.len());
            }
            return None;
        }
        proof {
            view = part_added(*part, view)->Some_0;
        }
        i = i + 1;
    }
    match (range, refresh, traffic, referer) {
        (Some((counter, min_date, max_date)), Some(is_refresh), Some(t), Some(referer_hash)) => {
            if are_two_sources(&t) {
                Some(Q41Pred { counter, min_date, max_date, is_refresh, referer_hash })
            } else {
                None
            }
        },
        _ => None,
    }
}

/// The limit of a query, or ten.
pub open spec fn limit_or_ten(q: ParsedQuery) -> usize {
    match q.limit {
        Some(l) => l as usize,
        None => 10,
    }
}

/// The limit of a query, or ten.
pub fn limit_or_default(parsed: &ParsedQuery) -> (n: usize)
    ensures
        n == limit_or_ten(*parsed),
{
    match parsed.limit {
        Some(l) => l as usize,
        None => 10,
    }
}

/// Counted pairs as rows.
pub open spec fn counted_pairs(c1: ColumnView, c2: ColumnView, entries: Seq<(u128, u64)>) -> Result<
    Seq<Seq<CellView>>,
    Seq<char>,
>
    decreases entries.len(),
{
    if entries.len() == 0 {
        Ok(Seq::empty())
    } else {
        match counted_pairs(c1, c2, entries.drop_last()) {
            Err(m) => Err(m),
            Ok(out) => match pair_texts(c1, c2, entries.last().0) {
                Err(m) => Err(m),
                Ok((a, b)) => Ok(
                    out.push(seq![shown(a), shown(b), counted(entries.last().1 as int)]),
                ),
            },
        }
    }
}

proof fn lemma_counted_pairs_fault(
    c1: ColumnView,
    c2: ColumnView,
    entries: Seq<(u128, u64)>,
    i: int,
)
    requires
        0 <= i <= entries.len(),
        counted_pairs(c1, c2, entries.take(i)) is Err,
    ensures
        counted_pairs(c1, c2, entries) == counted_pairs(c1, c2, entries.take(i)),
    decreases entries.len() - i,
{
    if i == entries.len() {
        assert(entries.take(i) =~= entries);
    } else {
        assert(entries.take(i + 1).drop_last() =~= entries.take(i));
        lemma_counted_pairs_fault(c1, c2, entries, i + 1);
    }
}

/// Counted pairs as rows.
pub fn show_counted_pairs(c1: &ColumnData, c2: &ColumnData, entries: &Vec<(u128, u64)>) -> (r: Result<
    Vec<Vec<Cell>>,
    Error,
>)
    ensures
        match r {
            Ok(v) => yields(counted_pairs(c1@, c2@, entries@), cell_rows(v@)),
            Err(e) => fails(counted_pairs(c1@, c2@, entries@), e@),
        },
{
    let mut out: Vec<Vec<Cell>> = Vec::new();
    let mut i: usize = 0;
    assert(cell_rows(out@) =~= Seq::<Seq<CellView>>::empty());
    assert(entries@.take(0) =~= Seq::<(u128, u64)>::empty());
    while i < entries.len()
        invariant
            i <= entries@.len(),
            yields(counted_pairs(c1@, c2@, entries@.take(i as int)), cell_rows(out@)),
        decreases entries@.len() - i,
    {
        assert(entries@.take(i + 1).drop_last() =~= entries@.take(i as int));
        let e: (u128, u64) = entries[i];
        match unpack_pair_keys(c1, c2, e.0) {
            Err(m) => {
                proof {
                    lemma_counted_pairs_fault(c1@, c2@, entries@, i + 1);
                }
                return Err(m);
            },
            Ok((a, b)) => {
                let mut row: Vec<Cell> = Vec::new();
                row.push(Cell::Text(a));
                row.push(Cell::Text(b));
                row.push(number_cell(e.1 as i128));
                assert(cells(row@) =~= seq![shown(a@), shown(b@), counted(e.1 as int)]);
                let ghost sofar = out@;
                out.push(row);
                assert(cell_rows(out@) =~= cell_rows(sofar).push(cells(row@)));
            },
        }
        i = i + 1;
    }
    assert(entries@.take(i as int) =~= entries@);
    Ok(out)
}

/// Whether a query counts rows by address hash and date, most frequent first, with a
/// limit.
pub open spec fn q41_shape(q: ParsedQuery) -> bool {
    &&& q.group_by@.len() == 2
    &&& by_count_desc(q)
    &&& (group_name(q.group_by@[0], q) == Some("URLHash"@) && group_name(q.group_by@[1], q) == Some(
        "EventDate"@,
    )) || (group_name(q.group_by@[0], q) == Some("EventDate"@) && group_name(q.group_by@[1], q)
        == Some("URLHash"@))
    &&& shows_counts(q)
    &&& q.limit is Some
    &&& dashboard(q.where_expr) is Some
}

/// What a row of the dashboard has to meet, and whether the address comes first, if
/// the query counts rows by address hash and date.
pub fn q41_plan(parsed: &ParsedQuery) -> (r: Option<(Q41Pred, bool)>)
    ensures
        match r {
            Some((pred, high)) => q41_shape(*parsed) && dashboard(parsed.where_expr) == Some(pred)
                && high == (group_name(parsed.group_by@[0], *parsed) == Some("URLHash"@)),
            None => !q41_shape(*parsed),
        },
{
    if parsed.group_by.len() != 2 || !orders_by_count_desc(parsed) {
        return None;
    }
    let (a, b) = match (
        group_id_name(&parsed.group_by[0], parsed),
        group_id_name(&parsed.group_by[1], parsed),
    ) {
        (Some(a), Some(b)) => (a, b),
        _ => {
            return None;
        },
    };
    let high = str_eq(a, "URLHash");
    let forward = high && str_eq(b, "EventDate");
    let backward = str_eq(a, "EventDate") && str_eq(b, "URLHash");
    if !forward && !backward {
        return None;
    }
    if !is_count_form(parsed) || parsed.limit.is_none() {
        return None;
    }
    match parse_q41_where(&parsed.where_expr) {
        Some(pred) => Some((pred, high)),
        None => None,
    }
}

/// The most frequent keys of the dashboard: from the zones that may match where there
/// is an index, else from all rows that meet the condition.
pub open spec fn q41_entries(
    t: Table,
    q: ParsedQuery,
    n: nat,
    c1: ColumnView,
    c2: ColumnView,
    cols: DashboardData,
    urls: Seq<i64>,
) -> Result<Seq<(u128, u64)>, Seq<char>> {
    let pred = dashboard(q.where_expr)->Some_0;
    let high = group_name(q.group_by@[0], q) == Some("URLHash"@);
    match t.index() {
        Some(z) => {
            let ranges = matching_ranges(
                z.zones@,
                z.zones@.len() as int,
                n as int,
                pred.counter,
                pred.min_date,
                pred.max_date,
            );
            Ok(
                top_runs(
                    runs(sorted_keys(q41_keys(cols, urls, pred, ranges, high))),
                    limit_or_ten(q),
                    query_offset(q),
                ),
            )
        },
        None => match filtered(t, q.where_expr, n) {
            Err(m) => Err(m),
            Ok(mask) => Ok(
                pair_top(
                    pair_keys(c1, c2, selected(mask)),
                    limit_or_ten(q),
                    query_offset(q),
                ),
            ),
        },
    }
}

/// What counting the rows of the dashboard by address hash and date comes to.
pub open spec fn q41_result(t: Table, q: ParsedQuery, n: nat) -> Result<
    Option<ResultView>,
    Seq<char>,
>
{
    if !q41_shape(q) {
        Ok(None)
    } else {
        match (
            column_of(t, group_name(q.group_by@[0], q)->Some_0),
            column_of(t, group_name(q.group_by@[1], q)->Some_0),
        ) {
            (Err(m), _) => Err(m),
            (_, Err(m)) => Err(m),
            (Ok(c1), Ok(c2)) => if c1 is Utf8 {
                Err("k1"@)
            } else if c2 is Utf8 {
                Err("k2"@)
            } else {
                bind(
                    dashboard_data(t),
                    |d: (DashboardData, Seq<i64>)|
                        match q41_entries(t, q, n, c1, c2, d.0, d.1) {
                            Err(m) => Err(m),
                            Ok(entries) => match counted_pairs(c1, c2, entries) {
                                Err(m) => Err(m),
                                Ok(rows) => Ok(
                                    Some(ResultView { columns: labels(q.select_items@), rows }),
                                ),
                            },
                        },
                )
            },
        }
    }
}

/// The columns of the dashboard, and the hashes of the addresses.
pub open spec fn dashboard_data(t: Table) -> Result<Option<(DashboardData, Seq<i64>)>, Seq<char>> {
    bind(
        i32s_of(t, "CounterID"@),
        |counters: Seq<i32>|
            bind(
                dates_of(t, "EventDate"@),
                |dates: Seq<i32>|
                    bind(
                        i16s_of(t, "IsRefresh"@),
                        |refresh: Seq<i16>|
                            bind(
                                i16s_of(t, "TraficSourceID"@),
                                |traffic: Seq<i16>|
                                    bind(
                                        i64s_of(t, "RefererHash"@),
                                        |referer: Seq<i64>|
                                            bind(
                                                i64s_of(t, "URLHash"@),
                                                |urls: Seq<i64>|
                                                    Ok(
                                                        Some(
                                                            (
                                                                DashboardData {
                                                                    referer,
                                                                    counters,
                                                                    dates,
                                                                    refresh,
                                                                    traffic,
                                                                },
                                                                urls,
                                                            ),
                                                        ),
                                                    ),
                                            ),
                                    ),
                            ),
                    ),
            ),
    )
}

/// The ranges of zones lie within the rows.
proof fn lemma_ranges_within(
    z: ZoneIndex,
    upto: int,
    rows: usize,
    counter: i32,
    min_date: i32,
    max_date: i32,
)
    requires
        0 <= upto <= z.zones@.len(),
    ensures
        forall|i: int|
            0 <= i < matching_ranges(z.zones@, upto, rows as int, counter, min_date, max_date).len()
                ==> (#[trigger] matching_ranges(
                z.zones@,
                upto,
                rows as int,
                counter,
                min_date,
                max_date,
            )[i]).0 <= matching_ranges(
                z.zones@,
                upto,
                rows as int,
                counter,
                min_date,
                max_date,
            )[i].1 <= rows,
    decreases upto,
{
    if upto > 0 {
        lemma_ranges_within(z, upto - 1, rows, counter, min_date, max_date);
        let front = matching_ranges(z.zones@, upto - 1, rows as int, counter, min_date, max_date);
        let all = matching_ranges(z.zones@, upto, rows as int, counter, min_date, max_date);
        assert forall|i: int| 0 <= i < all.len() implies (#[trigger] all[i]).0 <= all[i].1
            <= rows by {
            if i < front.len() {
                assert(all[i] == front[i]);
                assert(front[i].0 <= front[i].1 <= rows);
            }
        }
    }
}

/// Counts the rows of the dashboard by address hash and date, if that is what the query
/// asks for.
pub fn try_fused_q41(table: &Table, parsed: &ParsedQuery, row_count: usize) -> (r: Result<
    Option<QueryResult>,
    Error,
>)
    requires
        table.wf(),
        table.holds_rows(row_count as int),
    ensures
        attempt(r) == q41_result(*table, *parsed, row_count as nat),
{
    let plan = match q41_plan(parsed) {
        Some(n) => n,
        None => {
            return Ok(None);
        },
    };
    let (pred, high) = plan;
    let k1 = match group_id_name(&parsed.group_by[0], parsed) {
        Some(n) => n,
        None => {
            return Ok(None);
        },
    };
    let k2 = match group_id_name(&parsed.group_by[1], parsed) {
        Some(n) => n,
        None => {
            return Ok(None);
        },
    };
    let c1 = match any_column(table, k1, row_count) {
        Err(e) => {
            return Err(e);
        },
        Ok(c) => c,
    };
    let c2 = match any_column(table, k2, row_count) {
        Err(e) => {
            return Err(e);
        },
        Ok(c) => c,
    };
    if as_int_cols(c1).is_none() {
        return Err(Error::msg("k1"));
    }
    if as_int_cols(c2).is_none() {
        return Err(Error::msg("k2"));
    }
    let counters = match i32_column(table, "CounterID", row_count) {
        Err(e) => {
            return Err(e);
        },
        Ok(None) => {
            return Ok(None);
        },
        Ok(Some(c)) => c,
    };
    let dates = match date_column(table, "EventDate", row_count) {
        Err(e) => {
            return Err(e);
        },
        Ok(None) => {
            return Ok(None);
        },
        Ok(Some(c)) => c,
    };
    let refresh = match i16_column(table, "IsRefresh", row_count) {
        Err(e) => {
            return Err(e);
        },
        Ok(None) => {
            return Ok(None);
        },
        Ok(Some(c)) => c,
    };
    let traffic = match i16_column(table, "TraficSourceID", row_count) {
        Err(e) => {
            return Err(e);
        },
        Ok(None) => {
            return Ok(None);
        },
        Ok(Some(c)) => c,
    };
    let referer = match i64_column(table, "RefererHash", row_count) {
        Err(e) => {
            return Err(e);
        },
        Ok(None) => {
            return Ok(None);
        },
        Ok(Some(c)) => c,
    };
    let urls = match i64_column(table, "URLHash", row_count) {
        Err(e) => {
            return Err(e);
        },
        Ok(None) => {
            return Ok(None);
        },
        Ok(Some(c)) => c,
    };
    let cols = DashboardColumns { referer, counters, dates, refresh, traffic };
    proof {
        assert(yields(dashboard_data(*table), Some((cols@, urls@))));
    }
    let limit: usize = limit_or_default(parsed);
    let offset: usize = offset_of(parsed);
    let entries = match table.zones() {
        Some(z) => {
            let ranges = z.dashboard_matching_ranges(
                row_count,
                pred.counter,
                pred.min_date,
                pred.max_date,
            );
            proof {
                lemma_ranges_within(
                    *z,
                    z.zones@.len() as int,
                    row_count,
                    pred.counter,
                    pred.min_date,
                    pred.max_date,
                );
            }
            dashboard_q41_topk(cols, urls, pred, &ranges, row_count, high, limit, offset)
        },
        None => {
            let mask = match build_filter_mask(table, &parsed.where_expr, row_count) {
                Err(e) => {
                    return Err(e);
                },
                Ok(c) => c,
            };
            let rows = covered_rows(table, &mask);
            let keys = match pack_rows(c1, c2, &rows, row_count) {
                Some(k) => k,
                None => {
                    return Err(Error::msg("k1"));
                },
            };
            mask_selected_pair_topk(&keys, limit, offset)
        },
    };
    match show_counted_pairs(c1, c2, &entries) {
        Err(e) => Err(e),
        Ok(rows) => Ok(Some(QueryResult { columns: headings(parsed), rows })),
    }
}

/// Without a limit a page has ten rows.
pub proof fn law_ten_rows(q: ParsedQuery)
    ensures
        q.limit matches Some(l) ==> l <= usize::MAX ==> limit_or_ten(q) == l,
        q.limit is None ==> limit_or_ten(q) == 10,
{
}

} // verus!
