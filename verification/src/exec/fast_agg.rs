//! Aggregates over the whole table.
use crate::error::{fails, yields, Error};
use crate::exec::filter::{build_filter_mask, filtered};
use crate::exec::group::covered_rows;
use crate::exec::group_fused_pair::count_up;
use crate::exec::group_fused_region::is_count;
use crate::exec::group_fused_text::{phrase_keys, phrases};
use crate::exec::grouping::group_texts;
use crate::exec::hash::{
    first_seen, int_members, int_set_insert, int_set_len, lemma_first_seen_distinct, new_int_set,
    text_lists,
};
use crate::exec::group_near_unique::or_else;
use crate::exec::kernel::{any_column, bind, mapped, text_column, texts_of};
use crate::exec::mask_util::selected;
use crate::exec::result::{
    attempt, cell_rows, cells, counted, headings, labels, number_cell, shown, Cell, CellView,
    QueryResult, ResultView,
};
use crate::exec::simd_count::{
    count_i16_ne_zero, count_i32_ne_zero, count_i64_ne_zero, how_many,
};
use crate::exec::sorting::{all_numbers, counts_rows};
use crate::expr::eval::{col_i64_at, col_int, column_of};
use crate::expr::matching::{eval_like_match, like};
use crate::expr::time::{format_date_days, ymd_text, MAX_DAY, MIN_DAY};
use crate::sql::ast::{BinaryOperator, Expr, Literal, ParsedQuery, SelectItemKind, SelectProjection};
use crate::sql::query::{column_name, column_ref};
use crate::storage::column::{ColumnData, ColumnView};
use crate::storage::table::Table;
use crate::storage::utf8_col::Utf8Column;
use crate::storage::zones::{adv_total, Zone, ZoneIndex, ZONE_VERSION_V1};
use crate::text::{decimal, int_text, str_eq};
use ahash::AHashSet;
use vstd::prelude::*;
use vstd::utf8::encode_utf8;

verus! {

/// The sum of the numbers of rows.
pub open spec fn row_sum(c: ColumnView, rows: Seq<usize>) -> int
    decreases rows.len(),
{
    if rows.len() == 0 {
        0
    } else {
        row_sum(c, rows.drop_last()) + col_int(c, rows.last() as int)
    }
}

/// Whether a column holds plain integers.
pub open spec fn plain_ints(c: ColumnView) -> bool {
    c is Int16 || c is Int32 || c is Int64
}

fn holds_plain_ints(c: &ColumnData) -> (r: bool)
    ensures
        r == plain_ints(c@),
{
    match c {
        ColumnData::Int16(_) => true,
        ColumnData::Int32(_) => true,
        ColumnData::Int64(_) => true,
        _ => false,
    }
}

/// The sum of a column over rows.
pub open spec fn column_sum(t: Table, name: Seq<char>, rows: Seq<usize>) -> Result<int, Seq<char>> {
    match column_of(t, name) {
        Err(m) => Err(m),
        Ok(c) => if plain_ints(c) {
            Ok(row_sum(c, rows))
        } else {
            Err("sum on non-int column"@)
        },
    }
}

/// The sum of a column over rows.
pub fn sum_column_masked(table: &Table, name: &str, rows: &Vec<usize>, row_count: usize) -> (r: Result<
    i128,
    Error,
>)
    requires
        table.wf(),
        table.holds_rows(row_count as int),
        forall|i: int| 0 <= i < rows@.len() ==> (#[trigger] rows@[i]) < row_count,
    ensures
        match r {
            Ok(s) => yields(column_sum(*table, name@, rows@), s as int) && s > i128::MIN,
            Err(e) => fails(column_sum(*table, name@, rows@), e@),
        },
{
    let c = match any_column(table, name, row_count) {
        Err(e) => {
            return Err(e);
        },
        Ok(c) => c,
    };
    if !holds_plain_ints(c) {
        return Err(Error::msg("sum on non-int column"));
    }
    let total: usize = rows.len();
    let mut s: i128 = 0;
    let mut i: usize = 0;
    assert(rows@.take(0) =~= Seq::<usize>::empty());
    while i < total
        invariant
            i <= total == rows@.len(),
            c@.len() >= row_count,
            forall|i: int| 0 <= i < rows@.len() ==> (#[trigger] rows@[i]) < row_count,
            s == row_sum(c@, rows@.take(i as int)),
            -0x8000_0000_0000_0000 * i <= s <= 0x8000_0000_0000_0000 * i,
        decreases total - i,
    {
        assert(rows@.take(i + 1).drop_last() =~= rows@.take(i as int));
        assert(rows@[i as int] < row_count);
        s = s + col_i64_at(c, rows[i]) as i128;
        i = i + 1;
    }
    assert(rows@.take(i as int) =~= rows@);
    Ok(s)
}

/// How many different members there are.
pub open spec fn different<K>(s: Seq<K>) -> nat {
    s.to_set().len()
}

/// The distinct members are as many as there are different ones.
proof fn lemma_different<K>(s: Seq<K>)
    ensures
        first_seen(s).len() == different(s),
{
    lemma_first_seen_distinct(s);
    first_seen(s).unique_seq_to_set();
    assert(first_seen(s).to_set() =~= s.to_set()) by {
        assert forall|k: K| first_seen(s).to_set().contains(k) == s.to_set().contains(k) by {
            assert(first_seen(s).contains(k) <==> s.contains(k));
        }
    }
}

/// How many different values a column has on rows, if they can be counted.
pub open spec fn column_different(t: Table, name: Seq<char>, rows: Seq<usize>) -> Option<nat> {
    match column_of(t, name) {
        Err(_) => None,
        Ok(ColumnView::Utf8(v)) => Some(different(phrases(v, rows))),
        Ok(c) => if plain_ints(c) {
            Some(different(mapped(rows, |r: usize| col_int(c, r as int))))
        } else {
            None
        },
    }
}

/// How many different texts a column has on rows.
fn different_texts(v: &Utf8Column, rows: &Vec<usize>, row_count: usize) -> (n: usize)
    requires
        v.wf(),
        v@.len() >= row_count,
        forall|i: int| 0 <= i < rows@.len() ==> (#[trigger] rows@[i]) < row_count,
    ensures
        n == different(phrases(v@, rows@)),
{
    let keys = phrase_keys(v, rows, row_count);
    let ghost all = text_lists(keys@);
    let (index, ids) = group_texts(keys);
    proof {
        lemma_different(all);
    }
    index.len()
}

/// How many different numbers a column has on rows.
fn different_ints(c: &ColumnData, rows: &Vec<usize>, row_count: usize) -> (n: usize)
    requires
        c@.len() >= row_count,
        forall|i: int| 0 <= i < rows@.len() ==> (#[trigger] rows@[i]) < row_count,
    ensures
        n == different(mapped(rows@, |r: usize| col_int(c@, r as int))),
{
    let ghost all = mapped(rows@, |r: usize| col_int(c@, r as int));
    let mut set: AHashSet<i64> = new_int_set();
    let mut i: usize = 0;
    assert(int_members(set) =~= all.take(0).to_set());
    while i < rows.len()
        invariant
            i <= rows@.len(),
            c@.len() >= row_count,
            forall|i: int| 0 <= i < rows@.len() ==> (#[trigger] rows@[i]) < row_count,
            all == mapped(rows@, |r: usize| col_int(c@, r as int)),
            int_members(set) == all.take(i as int).to_set(),
        decreases rows@.len() - i,
    {
        assert(rows@[i as int] < row_count);
        let v: i64 = col_i64_at(c, rows[i]);
        int_set_insert(&mut set, v);
        proof {
            let a = all.take(i as int);
            let b = all.take(i + 1);
            assert(b =~= a.push(v));
            assert(b.to_set() =~= a.to_set().insert(v)) by {
                assert forall|k: i64| b.to_set().contains(k) == a.to_set().insert(v).contains(k) by {
                    if a.contains(k) {
                        let j = choose|j: int| 0 <= j < a.len() && a[j] == k;
                        assert(b[j] == k);
                    }
                    assert(b[i as int] == v);
                    if b.contains(k) && k != v {
                        let j = choose|j: int| 0 <= j < b.len() && b[j] == k;
                        assert(a[j] == k);
                    }
                }
            }
        }
        i = i + 1;
    }
    assert(all.take(i as int) =~= all);
    int_set_len(&set)
}

/// How many different values a column has on rows, if they can be counted.
pub fn count_distinct_col_masked(table: &Table, name: &str, rows: &Vec<usize>, row_count: usize) -> (r:
    Option<u64>)
    requires
        table.wf(),
        table.holds_rows(row_count as int),
        forall|i: int| 0 <= i < rows@.len() ==> (#[trigger] rows@[i]) < row_count,
    ensures
        match r {
            Some(n) => column_different(*table, name@, rows@) == Some(n as nat),
            None => column_different(*table, name@, rows@) is None,
        },
{
    match any_column(table, name, row_count) {
        Err(_) => None,
        Ok(c) => match c {
            ColumnData::Utf8(v) => Some(different_texts(v, rows, row_count) as u64),
            _ => {
                if holds_plain_ints(c) {
                    Some(different_ints(c, rows, row_count) as u64)
                } else {
                    None
                }
            },
        },
    }
}

/// The smallest or largest number of rows.
pub open spec fn row_extreme(c: ColumnView, rows: Seq<usize>, is_max: bool) -> Option<i64>
    decreases rows.len(),
{
    if rows.len() == 0 {
        None
    } else {
        let x = col_int(c, rows.last() as int);
        match row_extreme(c, rows.drop_last(), is_max) {
            None => Some(x),
            Some(cur) => if (is_max && x > cur) || (!is_max && x < cur) {
                Some(x)
            } else {
                Some(cur)
            },
        }
    }
}

/// The extreme number of rows is among them, and none is more extreme.
pub proof fn law_row_extreme(c: ColumnView, rows: Seq<usize>, is_max: bool, i: int)
    requires
        0 <= i < rows.len(),
    ensures
        row_extreme(c, rows, is_max) is Some,
        is_max ==> col_int(c, rows[i] as int) <= row_extreme(c, rows, is_max)->Some_0,
        !is_max ==> col_int(c, rows[i] as int) >= row_extreme(c, rows, is_max)->Some_0,
        exists|k: int|
            0 <= k < rows.len() && row_extreme(c, rows, is_max) == Some(
                col_int(c, #[trigger] rows[k] as int),
            ),
    decreases rows.len(),
{
    let front = rows.drop_last();
    let last = rows.len() - 1;
    assert(rows[last] == rows.last());
    if front.len() > 0 {
        let j = if i < last {
            i
        } else {
            0
        };
        law_row_extreme(c, front, is_max, j);
        let k = choose|k: int|
            0 <= k < front.len() && row_extreme(c, front, is_max) == Some(
                col_int(c, #[trigger] front[k] as int),
            );
        assert(rows[k] == front[k]);
    }
}

/// The smallest or largest value of a column of dates or 64-bit numbers, as it is
/// shown.
pub open spec fn column_extreme(t: Table, e: Expr, rows: Seq<usize>, is_max: bool) -> Result<
    Option<Seq<char>>,
    Seq<char>,
> {
    match column_name(e) {
        None => Ok(None),
        Some(name) => match column_of(t, name) {
            Err(_) => Ok(None),
            Ok(c) => match (c, row_extreme(c, rows, is_max)) {
                (ColumnView::Date(_), Some(v)) => if MIN_DAY <= (v as i32) <= MAX_DAY {
                    Ok(Some(ymd_text(v as i32)))
                } else {
                    Err("date out of range"@)
                },
                (ColumnView::Int64(_), Some(v)) => Ok(Some(decimal(v as int))),
                _ => Ok(None),
            },
        },
    }
}

/// The smallest or largest value of a column of dates or 64-bit numbers, as it is
/// shown.
pub fn minmax_column_masked(
    table: &Table,
    expr: &Expr,
    rows: &Vec<usize>,
    row_count: usize,
    is_max: bool,
) -> (r: Result<Option<String>, Error>)
    requires
        table.wf(),
        table.holds_rows(row_count as int),
        forall|i: int| 0 <= i < rows@.len() ==> (#[trigger] rows@[i]) < row_count,
    ensures
        match r {
            Ok(Some(s)) => yields(column_extreme(*table, *expr, rows@, is_max), Some(s@)),
            Ok(None) => yields(column_extreme(*table, *expr, rows@, is_max), None),
            Err(e) => fails(column_extreme(*table, *expr, rows@, is_max), e@),
        },
{
    let name = match column_ref(expr) {
        Some(n) => n,
        None => {
            return Ok(None);
        },
    };
    let c = match any_column(table, name, row_count) {
        Err(_) => {
            return Ok(None);
        },
        Ok(c) => c,
    };
    let mut best: Option<i64> = None;
    let mut i: usize = 0;
    assert(rows@.take(0) =~= Seq::<usize>::empty());
    while i < rows.len()
        invariant
            i <= rows@.len(),
            c@.len() >= row_count,
            forall|i: int| 0 <= i < rows@.len() ==> (#[trigger] rows@[i]) < row_count,
            best == row_extreme(c@, rows@.take(i as int), is_max),
        decreases rows@.len() - i,
    {
        assert(rows@.take(i + 1).drop_last() =~= rows@.take(i as int));
        assert(rows@[i as int] < row_count);
        let x: i64 = col_i64_at(c, rows[i]);
        match best {
            None => {
                best = Some(x);
            },
            Some(cur) => {
                if (is_max && x > cur) || (!is_max && x < cur) {
                    best = Some(x);
                }
            },
        }
        i = i + 1;
    }
    assert(rows@.take(i as int) =~= rows@);
    match (c, best) {
        (ColumnData::Date(_), Some(v)) => {
            let day: i32 = v as i32;
            if MIN_DAY <= day && day <= MAX_DAY {
                Ok(Some(format_date_days(day)))
            } else {
                Err(Error::msg("date out of range"))
            }
        },
        (ColumnData::Int64(_), Some(v)) => Ok(Some(int_text(v as i128))),
        _ => Ok(None),
    }
}

/// The column that a condition says is not zero.
pub open spec fn not_zero(condition: Option<Expr>) -> Option<Seq<char>> {
    match condition {
        Some(Expr::BinaryOp { left, op: BinaryOperator::NotEq, right }) => match (
            column_name(*left),
            *right,
        ) {
            (Some(name), Expr::Value(Literal::Number(z))) => if z@ == "0"@ {
                Some(name)
            } else {
                None
            },
            _ => None,
        },
        _ => None,
    }
}

fn find_not_zero(condition: &Option<Expr>) -> (r: Option<&str>)
    ensures
        match r {
            Some(s) => not_zero(*condition) == Some(s@),
            None => not_zero(*condition) is None,
        },
{
    match condition {
        Some(Expr::BinaryOp { left, op: BinaryOperator::NotEq, right }) => match (
            column_ref(left),
            &**right,
        ) {
            (Some(name), Expr::Value(Literal::Number(z))) => {
                if str_eq(z.as_str(), "0") {
                    Some(name)
                } else {
                    None
                }
            },
            _ => None,
        },
        _ => None,
    }
}

/// How many of the first `n` rows of a column of integers are not zero.
pub open spec fn nonzero_in(c: ColumnView, n: nat) -> Option<nat> {
    match c {
        ColumnView::Int16(v) => Some(how_many(v.take(n as int), |x: i16| x != 0)),
        ColumnView::Int32(v) => Some(how_many(v.take(n as int), |x: i32| x != 0)),
        ColumnView::Int64(v) => Some(how_many(v.take(n as int), |x: i64| x != 0)),
        _ => None,
    }
}

/// The number of rows with an advertising engine that an index keeps.
pub open spec fn kept_total(t: Table, name: Seq<char>) -> Option<ZoneIndex> {
    match t.index() {
        Some(z) => if name == "AdvEngineID"@ && z.version >= ZONE_VERSION_V1 {
            Some(z)
        } else {
            None
        },
        None => None,
    }
}

/// How many rows meet a condition that a column is not zero: from the index where that
/// keeps the number.
pub open spec fn nonzero_rows(t: Table, condition: Option<Expr>, n: nat) -> Result<
    Option<nat>,
    Seq<char>,
> {
    match not_zero(condition) {
        None => Ok(None),
        Some(name) => match kept_total(t, name) {
            Some(z) => if z.zones@.len() > 0xFFFF_FFFF {
                Err("arithmetic overflow"@)
            } else {
                Ok(Some(adv_total(z.zones@)))
            },
            None => match column_of(t, name) {
                Err(m) => Err(m),
                Ok(c) => Ok(nonzero_in(c, n)),
            },
        },
    }
}

proof fn lemma_adv_total_bound(zones: Seq<Zone>)
    ensures
        adv_total(zones) <= zones.len() * 0xFFFF_FFFF,
    decreases zones.len(),
{
    if zones.len() > 0 {
        lemma_adv_total_bound(zones.drop_last());
    }
}

/// How many rows meet a condition that a column is not zero.
pub fn try_count_int_nonzero(table: &Table, condition: &Option<Expr>, row_count: usize) -> (r: Result<
    Option<u64>,
    Error,
>)
    requires
        table.wf(),
        table.holds_rows(row_count as int),
    ensures
        match r {
            Ok(Some(k)) => yields(
                nonzero_rows(*table, *condition, row_count as nat),
                Some(k as nat),
            ),
            Ok(None) => yields(nonzero_rows(*table, *condition, row_count as nat), None),
            Err(e) => fails(nonzero_rows(*table, *condition, row_count as nat), e@),
        },
{
    let name = match find_not_zero(condition) {
        Some(n) => n,
        None => {
            return Ok(None);
        },
    };
    if str_eq(name, "AdvEngineID") {
        if let Some(z) = table.zones() {
            if z.version >= ZONE_VERSION_V1 {
                if z.zones.len() as u64 > 0xFFFF_FFFF {
                    return Err(Error::msg("arithmetic overflow"));
                }
                proof {
                    lemma_adv_total_bound(z.zones@);
                    assert(z.zones@.len() * 0xFFFF_FFFF <= 0xFFFF_FFFF * 0xFFFF_FFFF)
                        by (nonlinear_arith)
                        requires
                            z.zones@.len() <= 0xFFFF_FFFF,
                    ;
                }
                return Ok(z.count_adv_nonzero_total());
            }
        }
    }
    let c = match any_column(table, name, row_count) {
        Err(e) => {
            return Err(e);
        },
        Ok(c) => c,
    };
    match c {
        ColumnData::Int16(v) => {
            let part = vstd::slice::slice_subrange(v.as_slice(), 0, row_count);
            assert(part@ =~= v@.take(row_count as int));
            Ok(Some(count_i16_ne_zero(part)))
        },
        ColumnData::Int32(v) => {
            let part = vstd::slice::slice_subrange(v.as_slice(), 0, row_count);
            assert(part@ =~= v@.take(row_count as int));
            Ok(Some(count_i32_ne_zero(part)))
        },
        ColumnData::Int64(v) => {
            let part = vstd::slice::slice_subrange(v.as_slice(), 0, row_count);
            assert(part@ =~= v@.take(row_count as int));
            Ok(Some(count_i64_ne_zero(part)))
        },
        _ => Ok(None),
    }
}

/// The column and the pattern of a condition that texts are like a pattern.
pub open spec fn liked(condition: Option<Expr>) -> Option<(Seq<char>, Seq<char>)> {
    match condition {
        Some(Expr::Like { negated, expr, pattern }) => if negated {
            None
        } else {
            match (column_name(*expr), *pattern) {
                (Some(name), Expr::Value(Literal::SingleQuotedString(p))) => Some((name, p@)),
                (Some(name), Expr::Value(Literal::DoubleQuotedString(p))) => Some((name, p@)),
                _ => None,
            }
        },
        _ => None,
    }
}

fn find_liked(condition: &Option<Expr>) -> (r: Option<(&str, &str)>)
    ensures
        match r {
            Some((a, b)) => liked(*condition) == Some((a@, b@)),
            None => liked(*condition) is None,
        },
{
    match condition {
        Some(Expr::Like { negated, expr, pattern }) => {
            if *negated {
                return None;
            }
            match (column_ref(expr), &**pattern) {
                (Some(name), Expr::Value(Literal::SingleQuotedString(p))) => Some(
                    (name, p.as_str()),
                ),
                (Some(name), Expr::Value(Literal::DoubleQuotedString(p))) => Some(
                    (name, p.as_str()),
                ),
                _ => None,
            }
        },
        _ => None,
    }
}

/// How many of the first rows have a text that is like a pattern.
pub open spec fn like_rows(t: Table, condition: Option<Expr>, n: nat) -> Result<
    Option<nat>,
    Seq<char>,
> {
    match liked(condition) {
        None => Ok(None),
        Some((name, p)) => bind(
            texts_of(t, name),
            |v: Seq<Seq<char>>|
                Ok(
                    Some(
                        how_many(
                            v.take(n as int),
                            |s: Seq<char>| like(encode_utf8(s), encode_utf8(p)),
                        ),
                    ),
                ),
        ),
    }
}

/// How many of the first rows have a text that is like a pattern.
pub fn try_count_utf8_like(table: &Table, condition: &Option<Expr>, row_count: usize) -> (r: Result<
    Option<u64>,
    Error,
>)
    requires
        table.wf(),
        table.holds_rows(row_count as int),
    ensures
        match r {
            Ok(Some(k)) => yields(like_rows(*table, *condition, row_count as nat), Some(k as nat)),
            Ok(None) => yields(like_rows(*table, *condition, row_count as nat), None),
            Err(e) => fails(like_rows(*table, *condition, row_count as nat), e@),
        },
{
    let found = match find_liked(condition) {
        Some(n) => n,
        None => {
            return Ok(None);
        },
    };
    let (name, pattern) = found;
    let v = match text_column(table, name, row_count) {
        Err(e) => {
            return Err(e);
        },
        Ok(None) => {
            return Ok(None);
        },
        Ok(Some(c)) => c,
    };
    let ghost p = |s: Seq<char>| like(encode_utf8(s), encode_utf8(pattern@));
    let mut k: u64 = 0;
    let mut i: usize = 0;
    assert(v@.take(0) =~= Seq::<Seq<char>>::empty());
    while i < row_count
        invariant
            i <= row_count <= v@.len(),
            v.wf(),
            p == (|s: Seq<char>| like(encode_utf8(s), encode_utf8(pattern@))),
            k <= i,
            k == how_many(v@.take(i as int), p),
        decreases row_count - i,
    {
        assert(v@.take(i + 1).drop_last() =~= v@.take(i as int));
        assert(v.row_ok(i as int));
        if eval_like_match(v.get(i), pattern) {
            k = k + 1;
        }
        i = i + 1;
    }
    Ok(Some(k))
}

/// The number of different search phrases, if that is all that a query asks for.
pub open spec fn phrase_cell(t: Table, q: ParsedQuery, n: nat) -> Result<Option<CellView>, Seq<char>> {
    match q.select_items@[0].kind {
        SelectItemKind::CountDistinct(e) => if q.where_expr is None && column_name(e) == Some(
            "SearchPhrase"@,
        ) {
            bind(
                texts_of(t, "SearchPhrase"@),
                |v: Seq<Seq<char>>|
                    Ok(Some(counted(different(phrases(v, all_numbers(n))) as int))),
            )
        } else {
            Ok(None)
        },
        _ => Ok(None),
    }
}

/// What a step that yields one value comes to.
pub open spec fn cell_attempt(r: Result<Option<Cell>, Error>) -> Result<Option<CellView>, Seq<char>> {
    match r {
        Err(e) => Err(e@),
        Ok(None) => Ok(None),
        Ok(Some(c)) => Ok(Some(c@)),
    }
}

/// The number of different search phrases, if that is all that a query asks for.
pub fn try_count_distinct_searchphrase(table: &Table, parsed: &ParsedQuery, row_count: usize) -> (r:
    Result<Option<Cell>, Error>)
    requires
        table.wf(),
        table.holds_rows(row_count as int),
        parsed.select_items@.len() > 0,
    ensures
        cell_attempt(r) == phrase_cell(*table, *parsed, row_count as nat),
{
    match &parsed.select_items[0].kind {
        SelectItemKind::CountDistinct(e) => {
            let named = match column_ref(e) {
                Some(s) => str_eq(s, "SearchPhrase"),
                None => false,
            };
            if parsed.where_expr.is_some() || !named {
                return Ok(None);
            }
            let v = match text_column(table, "SearchPhrase", row_count) {
                Err(e) => {
                    return Err(e);
                },
                Ok(None) => {
                    return Ok(None);
                },
                Ok(Some(c)) => c,
            };
            let all = count_up(row_count);
            let k: usize = different_texts(v, &all, row_count);
            Ok(Some(number_cell(k as i128)))
        },
        _ => Ok(None),
    }
}

/// The value of one projection over rows, if it can be had quickly.
pub open spec fn item_cell(t: Table, kind: SelectItemKind, rows: Seq<usize>) -> Result<
    Option<CellView>,
    Seq<char>,
> {
    match kind {
        SelectItemKind::CountAll => Ok(Some(counted(rows.len() as int))),
        SelectItemKind::Count(_) => Ok(Some(counted(rows.len() as int))),
        SelectItemKind::Sum(e) => match column_name(e) {
            Some(name) => match column_sum(t, name, rows) {
                Ok(s) => Ok(Some(counted(s))),
                Err(_) => Ok(None),
            },
            None => Ok(None),
        },
        SelectItemKind::Avg(e) => match column_name(e) {
            Some(name) => match column_sum(t, name, rows) {
                Ok(s) => if rows.len() > 0 {
                    Ok(Some(CellView::Ratio { sum: s, count: rows.len() }))
                } else {
                    Ok(None)
                },
                Err(_) => Ok(None),
            },
            None => Ok(None),
        },
        SelectItemKind::CountDistinct(e) => match column_name(e) {
            Some(name) => match column_different(t, name, rows) {
                Some(k) => Ok(Some(counted(k as int))),
                None => Ok(None),
            },
            None => Ok(None),
        },
        SelectItemKind::Min(e) => extreme_cell(t, e, rows, false),
        SelectItemKind::Max(e) => extreme_cell(t, e, rows, true),
        _ => Ok(None),
    }
}

/// The smallest or largest value as a value of a result.
pub open spec fn extreme_cell(t: Table, e: Expr, rows: Seq<usize>, is_max: bool) -> Result<
    Option<CellView>,
    Seq<char>,
> {
    match column_extreme(t, e, rows, is_max) {
        Err(m) => Err(m),
        Ok(None) => Ok(None),
        Ok(Some(s)) => Ok(Some(shown(s))),
    }
}

fn show_extreme(
    table: &Table,
    e: &Expr,
    rows: &Vec<usize>,
    row_count: usize,
    is_max: bool,
) -> (r: Result<Option<Cell>, Error>)
    requires
        table.wf(),
        table.holds_rows(row_count as int),
        forall|i: int| 0 <= i < rows@.len() ==> (#[trigger] rows@[i]) < row_count,
    ensures
        cell_attempt(r) == extreme_cell(*table, *e, rows@, is_max),
{
    match minmax_column_masked(table, e, rows, row_count, is_max) {
        Err(m) => Err(m),
        Ok(None) => Ok(None),
        Ok(Some(s)) => Ok(Some(Cell::Text(s))),
    }
}

fn show_item(table: &Table, kind: &SelectItemKind, rows: &Vec<usize>, row_count: usize) -> (r: Result<
    Option<Cell>,
    Error,
>)
    requires
        table.wf(),
        table.holds_rows(row_count as int),
        forall|i: int| 0 <= i < rows@.len() ==> (#[trigger] rows@[i]) < row_count,
    ensures
        cell_attempt(r) == item_cell(*table, *kind, rows@),
{
    let total: usize = rows.len();
    match kind {
        SelectItemKind::CountAll => Ok(Some(number_cell(total as i128))),
        SelectItemKind::Count(_) => Ok(Some(number_cell(total as i128))),
        SelectItemKind::Sum(e) => match column_ref(e) {
            Some(name) => match sum_column_masked(table, name, rows, row_count) {
                Ok(s) => Ok(Some(number_cell(s))),
                Err(_) => Ok(None),
            },
            None => Ok(None),
        },
        SelectItemKind::Avg(e) => match column_ref(e) {
            Some(name) => match sum_column_masked(table, name, rows, row_count) {
                Ok(s) => {
                    if total > 0 {
                        Ok(Some(Cell::Ratio { sum: s, count: total as u64 }))
                    } else {
                        Ok(None)
                    }
                },
                Err(_) => Ok(None),
            },
            None => Ok(None),
        },
        SelectItemKind::CountDistinct(e) => match column_ref(e) {
            Some(name) => match count_distinct_col_masked(table, name, rows, row_count) {
                Some(k) => Ok(Some(number_cell(k as i128))),
                None => Ok(None),
            },
            None => Ok(None),
        },
        SelectItemKind::Min(e) => show_extreme(table, e, rows, row_count, false),
        SelectItemKind::Max(e) => show_extreme(table, e, rows, row_count, true),
        _ => Ok(None),
    }
}

/// The value that a query with one projection asks for, if it can be had quickly.
pub open spec fn single_cell(t: Table, q: ParsedQuery, n: nat) -> Result<Option<CellView>, Seq<char>> {
    let p = q.select_items@[0];
    match phrase_cell(t, q, n) {
        Ok(None) => if q.where_expr is None && counts_rows(p) {
            Ok(Some(counted(n as int)))
        } else {
            match nonzero_rows(t, q.where_expr, n) {
                Err(m) => Err(m),
                Ok(a) => if a is Some && counts_rows(p) {
                    Ok(Some(counted(a->Some_0 as int)))
                } else {
                    match like_rows(t, q.where_expr, n) {
                        Err(m) => Err(m),
                        Ok(b) => if b is Some && counts_rows(p) {
                            Ok(Some(counted(b->Some_0 as int)))
                        } else {
                            match filtered(t, q.where_expr, n) {
                                Err(m) => Err(m),
                                Ok(mask) => item_cell(t, p.kind, selected(mask)),
                            }
                        },
                    }
                },
            }
        },
        r => r,
    }
}

fn show_single(table: &Table, parsed: &ParsedQuery, row_count: usize) -> (r: Result<
    Option<Cell>,
    Error,
>)
    requires
        table.wf(),
        table.holds_rows(row_count as int),
        parsed.select_items@.len() > 0,
    ensures
        cell_attempt(r) == single_cell(*table, *parsed, row_count as nat),
{
    match try_count_distinct_searchphrase(table, parsed, row_count) {
        Err(e) => {
            return Err(e);
        },
        Ok(Some(c)) => {
            return Ok(Some(c));
        },
        Ok(None) => {},
    }
    let p = &parsed.select_items[0];
    let counts = is_count(p);
    if parsed.where_expr.is_none() && counts {
        return Ok(Some(number_cell(row_count as i128)));
    }
    match try_count_int_nonzero(table, &parsed.where_expr, row_count) {
        Err(e) => {
            return Err(e);
        },
        Ok(Some(k)) => {
            if counts {
                return Ok(Some(number_cell(k as i128)));
            }
        },
        Ok(None) => {},
    }
    match try_count_utf8_like(table, &parsed.where_expr, row_count) {
        Err(e) => {
            return Err(e);
        },
        Ok(Some(k)) => {
            if counts {
                return Ok(Some(number_cell(k as i128)));
            }
        },
        Ok(None) => {},
    }
    let mask = match build_filter_mask(table, &parsed.where_expr, row_count) {
        Err(e) => {
            return Err(e);
        },
        Ok(c) => c,
    };
    let rows = covered_rows(table, &mask);
    show_item(table, &p.kind, &rows, row_count)
}

/// Whether a projection is a count, or a sum, an average or a number of different
/// values of a column.
pub open spec fn simple(kind: SelectItemKind) -> bool {
    match kind {
        SelectItemKind::CountAll => true,
        SelectItemKind::Count(_) => true,
        SelectItemKind::Sum(e) => column_name(e) is Some,
        SelectItemKind::Avg(e) => column_name(e) is Some,
        SelectItemKind::CountDistinct(e) => column_name(e) is Some,
        _ => false,
    }
}

/// Whether a projection is a count, or a sum, an average or a number of different
/// values of a column.
pub fn is_simple(kind: &SelectItemKind) -> (r: bool)
    ensures
        r == simple(*kind),
{
    match kind {
        SelectItemKind::CountAll => true,
        SelectItemKind::Count(_) => true,
        SelectItemKind::Sum(e) => column_ref(e).is_some(),
        SelectItemKind::Avg(e) => column_ref(e).is_some(),
        SelectItemKind::CountDistinct(e) => column_ref(e).is_some(),
        _ => false,
    }
}

/// The value of a simple projection over rows.
pub open spec fn simple_cell(t: Table, kind: SelectItemKind, rows: Seq<usize>) -> Result<
    CellView,
    Seq<char>,
> {
    match kind {
        SelectItemKind::Sum(e) => match column_sum(t, column_name(e)->Some_0, rows) {
            Ok(s) => Ok(counted(s)),
            Err(m) => Err(m),
        },
        SelectItemKind::Avg(e) => match column_sum(t, column_name(e)->Some_0, rows) {
            Ok(s) => Ok(
                CellView::Ratio {
                    sum: s,
                    count: if rows.len() == 0 {
                        1
                    } else {
                        rows.len()
                    },
                },
            ),
            Err(m) => Err(m),
        },
        SelectItemKind::CountDistinct(e) => match column_different(
            t,
            column_name(e)->Some_0,
            rows,
        ) {
            Some(k) => Ok(counted(k as int)),
            None => Err("count distinct"@),
        },
        _ => Ok(counted(rows.len() as int)),
    }
}

fn show_simple(table: &Table, kind: &SelectItemKind, rows: &Vec<usize>, row_count: usize) -> (r: Result<
    Cell,
    Error,
>)
    requires
        table.wf(),
        table.holds_rows(row_count as int),
        forall|i: int| 0 <= i < rows@.len() ==> (#[trigger] rows@[i]) < row_count,
        simple(*kind),
    ensures
        match r {
            Ok(c) => yields(simple_cell(*table, *kind, rows@), c@),
            Err(e) => fails(simple_cell(*table, *kind, rows@), e@),
        },
{
    let total: usize = rows.len();
    match kind {
        SelectItemKind::Sum(e) => {
            let name = column_ref(e).unwrap();
            match sum_column_masked(table, name, rows, row_count) {
                Ok(s) => Ok(number_cell(s)),
                Err(m) => Err(m),
            }
        },
        SelectItemKind::Avg(e) => {
            let name = column_ref(e).unwrap();
            match sum_column_masked(table, name, rows, row_count) {
                Ok(s) => {
                    let count: u64 = if total == 0 {
                        1
                    } else {
                        total as u64
                    };
                    Ok(Cell::Ratio { sum: s, count })
                },
                Err(m) => Err(m),
            }
        },
        SelectItemKind::CountDistinct(e) => {
            let name = column_ref(e).unwrap();
            match count_distinct_col_masked(table, name, rows, row_count) {
                Some(k) => Ok(number_cell(k as i128)),
                None => Err(Error::msg("count distinct")),
            }
        },
        _ => Ok(number_cell(total as i128)),
    }
}

/// The values of the first `k` projections over rows.
pub open spec fn simple_cells(
    t: Table,
    items: Seq<SelectProjection>,
    rows: Seq<usize>,
    k: nat,
) -> Result<Seq<CellView>, Seq<char>>
    decreases k,
{
    if k == 0 {
        Ok(Seq::empty())
    } else {
        match simple_cells(t, items, rows, (k - 1) as nat) {
            Err(m) => Err(m),
            Ok(front) => match simple_cell(t, items[k - 1].kind, rows) {
                Err(m) => Err(m),
                Ok(c) => Ok(front.push(c)),
            },
        }
    }
}

proof fn lemma_simple_cells_fault(
    t: Table,
    items: Seq<SelectProjection>,
    rows: Seq<usize>,
    i: nat,
    k: nat,
)
    requires
        i <= k,
        simple_cells(t, items, rows, i) is Err,
    ensures
        simple_cells(t, items, rows, k) == simple_cells(t, items, rows, i),
    decreases k,
{
    if i < k {
        lemma_simple_cells_fault(t, items, rows, i, (k - 1) as nat);
    }
}

/// The values of simple projections, in one row.
pub open spec fn simple_row(t: Table, q: ParsedQuery, n: nat) -> Result<
    Option<ResultView>,
    Seq<char>,
> {
    match filtered(t, q.where_expr, n) {
        Err(m) => Err(m),
        Ok(mask) => match simple_cells(
            t,
            q.select_items@,
            selected(mask),
            q.select_items@.len(),
        ) {
            Err(m) => Err(m),
            Ok(row) => Ok(Some(ResultView { columns: labels(q.select_items@), rows: seq![row] })),
        },
    }
}

/// Whether all projections are simple.
pub open spec fn all_simple(items: Seq<SelectProjection>) -> bool {
    forall|i: int| 0 <= i < items.len() ==> simple((#[trigger] items[i]).kind)
}

fn show_simple_row(table: &Table, parsed: &ParsedQuery, row_count: usize) -> (r: Result<
    Option<QueryResult>,
    Error,
>)
    requires
        table.wf(),
        table.holds_rows(row_count as int),
        all_simple(parsed.select_items@),
    ensures
        attempt(r) == simple_row(*table, *parsed, row_count as nat),
{
    let mask = match build_filter_mask(table, &parsed.where_expr, row_count) {
        Err(e) => {
            return Err(e);
        },
        Ok(c) => c,
    };
    let rows = covered_rows(table, &mask);
    let items = &parsed.select_items;
    let mut row: Vec<Cell> = Vec::new();
    let mut i: usize = 0;
    assert(cells(row@) =~= Seq::<CellView>::empty());
    while i < items.len()
        invariant
            i <= items@.len(),
            *items == parsed.select_items,
            table.wf(),
            table.holds_rows(row_count as int),
            all_simple(items@),
            yields(filtered(*table, parsed.where_expr, row_count as nat), mask@),
            rows@ == selected(mask@),
            forall|i: int| 0 <= i < rows@.len() ==> (#[trigger] rows@[i]) < row_count,
            yields(simple_cells(*table, items@, rows@, i as nat), cells(row@)),
        decreases items@.len() - i,
    {
        assert(simple(items@[i as int].kind));
        match show_simple(table, &items[i].kind, &rows, row_count) {
            Err(e) => {
                proof {
                    lemma_simple_cells_fault(*table, items@, rows@, (i + 1) as nat, items@.len());
                }
                return Err(e);
            },
            Ok(c) => {
                let ghost sofar = row@;
                row.push(c);
                assert(cells(row@) =~= cells(sofar).push(c@));
            },
        }
        i = i + 1;
    }
    let mut out: Vec<Vec<Cell>> = Vec::new();
    out.push(row);
    assert(cell_rows(out@) =~= seq![cells(row@)]);
    Ok(Some(QueryResult { columns: headings(parsed), rows: out }))
}

/// What asking for several simple projections comes to.
pub open spec fn multi_result(t: Table, q: ParsedQuery, n: nat) -> Result<
    Option<ResultView>,
    Seq<char>,
>
{
    if all_simple(q.select_items@) {
        simple_row(t, q, n)
    } else {
        Ok(None)
    }
}

/// Several simple projections, if that is what the query asks for.
pub fn try_execute_global_multi(table: &Table, parsed: &ParsedQuery, row_count: usize) -> (r: Result<
    Option<QueryResult>,
    Error,
>)
    requires
        table.wf(),
        table.holds_rows(row_count as int),
    ensures
        attempt(r) == multi_result(*table, *parsed, row_count as nat),
{
    let items = &parsed.select_items;
    let mut i: usize = 0;
    while i < items.len()
        invariant
            i <= items@.len(),
            *items == parsed.select_items,
            forall|k: int| 0 <= k < i ==> simple((#[trigger] items@[k]).kind),
        decreases items@.len() - i,
    {
        if !is_simple(&items[i].kind) {
            assert(!simple(items@[i as int].kind));
            return Ok(None);
        }
        i = i + 1;
    }
    show_simple_row(table, parsed, row_count)
}

/// Whether a projection is a number of different values of a column; an error if it
/// is one of something else.
pub open spec fn distinct_item(p: SelectProjection) -> Result<bool, Seq<char>> {
    match p.kind {
        SelectItemKind::CountDistinct(e) => if column_name(e) is Some {
            Ok(true)
        } else {
            Err("col"@)
        },
        _ => Ok(false),
    }
}

fn is_distinct_item(p: &SelectProjection) -> (r: Result<bool, Error>)
    ensures
        match r {
            Ok(b) => yields(distinct_item(*p), b),
            Err(e) => fails(distinct_item(*p), e@),
        },
{
    match &p.kind {
        SelectItemKind::CountDistinct(e) => {
            if column_ref(e).is_some() {
                Ok(true)
            } else {
                Err(Error::msg("col"))
            }
        },
        _ => Ok(false),
    }
}

/// What asking for two numbers of different values comes to.
pub open spec fn two_distinct_result(t: Table, q: ParsedQuery, n: nat) -> Result<
    Option<ResultView>,
    Seq<char>,
>
{
    if q.select_items@.len() != 2 {
        Ok(None)
    } else {
        match (distinct_item(q.select_items@[0]), distinct_item(q.select_items@[1])) {
            (Err(m), _) => Err(m),
            (Ok(false), _) => Ok(None),
            (Ok(true), Err(m)) => Err(m),
            (Ok(true), Ok(false)) => Ok(None),
            (Ok(true), Ok(true)) => simple_row(t, q, n),
        }
    }
}

/// Two numbers of different values, if that is what the query asks for.
pub fn try_execute_global_multi_distinct(table: &Table, parsed: &ParsedQuery, row_count: usize) -> (r: Result<
    Option<QueryResult>,
    Error,
>)
    requires
        table.wf(),
        table.holds_rows(row_count as int),
    ensures
        attempt(r) == two_distinct_result(*table, *parsed, row_count as nat),
{
    if parsed.select_items.len() != 2 {
        return Ok(None);
    }
    let first = match is_distinct_item(&parsed.select_items[0]) {
        Err(e) => {
            return Err(e);
        },
        Ok(c) => c,
    };
    if !first {
        return Ok(None);
    }
    let second = match is_distinct_item(&parsed.select_items[1]) {
        Err(e) => {
            return Err(e);
        },
        Ok(c) => c,
    };
    if !second {
        return Ok(None);
    }
    show_simple_row(table, parsed, row_count)
}

/// The projections for the smallest and the largest value, if a query asks for one of
/// each.
pub open spec fn least_and_most(items: Seq<SelectProjection>) -> Option<(int, int)> {
    if items.len() != 2 {
        None
    } else if items[0].kind is Min && items[1].kind is Max {
        Some((0, 1))
    } else if items[0].kind is Max && items[1].kind is Min {
        Some((1, 0))
    } else {
        None
    }
}

/// What asking for a smallest and a largest value comes to: the values stand in the
/// order of the projections.
pub open spec fn minmax_result(t: Table, q: ParsedQuery, n: nat) -> Result<
    Option<ResultView>,
    Seq<char>,
>
{
    match least_and_most(q.select_items@) {
        None => Ok(None),
        Some((a, b)) => match filtered(t, q.where_expr, n) {
            Err(m) => Err(m),
            Ok(mask) => bind(
                extreme_cell(t, q.select_items@[a].kind->Min_0, selected(mask), false),
                |lo: CellView|
                    bind(
                        extreme_cell(t, q.select_items@[b].kind->Max_0, selected(mask), true),
                        |hi: CellView|
                            Ok(
                                Some(
                                    ResultView {
                                        columns: labels(q.select_items@),
                                        rows: seq![
                                            if a < b {
                                                seq![lo, hi]
                                            } else {
                                                seq![hi, lo]
                                            },
                                        ],
                                    },
                                ),
                            ),
                    ),
            ),
        },
    }
}

/// A smallest and a largest value, if that is what the query asks for.
pub fn try_execute_global_minmax_pair(table: &Table, parsed: &ParsedQuery, row_count: usize) -> (r: Result<
    Option<QueryResult>,
    Error,
>)
    requires
        table.wf(),
        table.holds_rows(row_count as int),
    ensures
        attempt(r) == minmax_result(*table, *parsed, row_count as nat),
{
    if parsed.select_items.len() != 2 {
        return Ok(None);
    }
    let (a, b): (usize, usize) = match (&parsed.select_items[0].kind, &parsed.select_items[1].kind) {
        (SelectItemKind::Min(_), SelectItemKind::Max(_)) => (0, 1),
        (SelectItemKind::Max(_), SelectItemKind::Min(_)) => (1, 0),
        _ => {
            return Ok(None);
        },
    };
    let (least, most) = match (&parsed.select_items[a].kind, &parsed.select_items[b].kind) {
        (SelectItemKind::Min(x), SelectItemKind::Max(y)) => (x, y),
        _ => {
            return Ok(None);
        },
    };
    let mask = match build_filter_mask(table, &parsed.where_expr, row_count) {
        Err(e) => {
            return Err(e);
        },
        Ok(c) => c,
    };
    let rows = covered_rows(table, &mask);
    let lo = match show_extreme(table, least, &rows, row_count, false) {
        Err(e) => {
            return Err(e);
        },
        Ok(None) => {
            return Ok(None);
        },
        Ok(Some(c)) => c,
    };
    let hi = match show_extreme(table, most, &rows, row_count, true) {
        Err(e) => {
            return Err(e);
        },
        Ok(None) => {
            return Ok(None);
        },
        Ok(Some(c)) => c,
    };
    let ghost want = if a < b {
        seq![lo@, hi@]
    } else {
        seq![hi@, lo@]
    };
    let mut row: Vec<Cell> = Vec::new();
    if a < b {
        row.push(lo);
        row.push(hi);
    } else {
        row.push(hi);
        row.push(lo);
    }
    let mut out: Vec<Vec<Cell>> = Vec::new();
    out.push(row);
    proof {
        assert(cells(row@) =~= want);
        assert(cell_rows(out@) =~= seq![cells(row@)]);
    }
    Ok(Some(QueryResult { columns: headings(parsed), rows: out }))
}

/// What aggregates over the whole table come to.
pub open spec fn global_result(t: Table, q: ParsedQuery, n: nat) -> Result<
    Option<ResultView>,
    Seq<char>,
>
{
    if q.group_by@.len() > 0 || q.select_items@.len() == 0 {
        Ok(None)
    } else if q.select_items@.len() > 1 {
        or_else(
            minmax_result(t, q, n),
            or_else(two_distinct_result(t, q, n), multi_result(t, q, n)),
        )
    } else {
        match single_cell(t, q, n) {
            Err(m) => Err(m),
            Ok(None) => Ok(None),
            Ok(Some(c)) => Ok(
                Some(ResultView { columns: labels(q.select_items@), rows: seq![seq![c]] }),
            ),
        }
    }
}

/// Aggregates over the whole table, if they can be had quickly.
pub fn try_execute_global(table: &Table, parsed: &ParsedQuery, row_count: usize) -> (r: Result<
    Option<QueryResult>,
    Error,
>)
    requires
        table.wf(),
        table.holds_rows(row_count as int),
    ensures
        attempt(r) == global_result(*table, *parsed, row_count as nat),
{
    if parsed.group_by.len() > 0 || parsed.select_items.len() == 0 {
        return Ok(None);
    }
    if parsed.select_items.len() > 1 {
        match try_execute_global_minmax_pair(table, parsed, row_count) {
            Err(e) => {
                return Err(e);
            },
            Ok(Some(r)) => {
                return Ok(Some(r));
            },
            Ok(None) => {},
        }
        match try_execute_global_multi_distinct(table, parsed, row_count) {
            Err(e) => {
                return Err(e);
            },
            Ok(Some(r)) => {
                return Ok(Some(r));
            },
            Ok(None) => {},
        }
        return try_execute_global_multi(table, parsed, row_count);
    }
    let c = match show_single(table, parsed, row_count) {
        Err(e) => {
            return Err(e);
        },
        Ok(None) => {
            return Ok(None);
        },
        Ok(Some(c)) => c,
    };
    let mut row: Vec<Cell> = Vec::new();
    row.push(c);
    let mut out: Vec<Vec<Cell>> = Vec::new();
    out.push(row);
    proof {
        assert(cells(row@) =~= seq![c@]);
        assert(cell_rows(out@) =~= seq![cells(row@)]);
    }
    Ok(Some(QueryResult { columns: headings(parsed), rows: out }))
}

} // verus!
