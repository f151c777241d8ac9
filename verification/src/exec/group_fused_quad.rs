//! GROUP BY four integers, and by an address with its three predecessors.
use crate::error::Error;
use crate::exec::agg_heap::top_counts_u128_key;
use crate::exec::group::{is_identifier, is_name, resolve_group_expr, resolved};
use crate::exec::group_fused_pair::{top_pair_numbers, wants_top};
use crate::exec::group_int::{
    is_int_type, is_number, is_numeral, pack_parts, packed, unpack_key, unpacked,
};
use crate::exec::group_near_unique::{is_plain_type, plain_type};
use crate::exec::grouping::{count_ints, tallied};
use crate::exec::hash::first_seen;
use crate::exec::kernel::{
    choose_rows, count_sorted, finish_count_sorted_scan, is_count_form, orders_by_count_desc,
    shows_counts, with_rows,
};
use crate::exec::result::{
    attempt, cell_rows, cells, counted, empty_result, headings, labels, limit_of, number_cell,
    offset_of, Cell, CellView, QueryResult, ResultView,
};
use crate::exec::sorting::{pick_rows, picked_rows};
use crate::expr::eval::{col_i64_at, col_int, column_of, literal_int, value_to_i64};
use crate::sql::ast::{BinaryOperator, Expr, Literal, ParsedQuery};
use crate::storage::column::{ColumnData, ColumnView};
use crate::storage::table::{declared_type, Table};
use crate::text::str_eq;
use vstd::prelude::*;

verus! {

/// Whether an expression can be one of four packed keys.
pub open spec fn quad_part(t: Table, e: Expr) -> bool {
    match e {
        Expr::Identifier(s) => match declared_type(t.declared(), s@) {
            Some(ty) => plain_type(ty),
            None => false,
        },
        Expr::BinaryOp { left, op: BinaryOperator::Minus, right } => is_number(*right)
            && *left is Identifier,
        _ => false,
    }
}

/// Whether an expression can be one of four packed keys.
pub fn is_quad_part(table: &Table, e: &Expr) -> (r: bool)
    ensures
        r == quad_part(*table, *e),
{
    match e {
        Expr::Identifier(s) => match table.column_type(s.as_str()) {
            Some(ty) => is_plain_type(ty),
            None => false,
        },
        Expr::BinaryOp { left, op: BinaryOperator::Minus, right } => {
            let named = match &**left {
                Expr::Identifier(_) => true,
                _ => false,
            };
            is_numeral(right) && named
        },
        _ => false,
    }
}

/// The number of a row of an integer or date column.
pub open spec fn plain_int(c: ColumnView, row: int) -> Option<i64> {
    if is_int_type(c.column_type()) {
        Some(col_int(c, row))
    } else {
        None
    }
}

/// The number that a key has on a row, if it has one.
pub open spec fn quad_value(t: Table, e: Expr, row: int) -> Option<i64>
    decreases e,
{
    match e {
        Expr::Identifier(s) => match column_of(t, s@) {
            Err(_) => None,
            Ok(c) => plain_int(c, row),
        },
        Expr::BinaryOp { left, op: BinaryOperator::Minus, right } => match (
            quad_value(t, *left, row),
            *right,
        ) {
            (Some(l), Expr::Value(v)) => match (v, literal_int(v)) {
                (Literal::Number(_), Ok(r)) => if i64::MIN <= l - r <= i64::MAX {
                    Some((l - r) as i64)
                } else {
                    None
                },
                _ => None,
            },
            _ => None,
        },
        _ => None,
    }
}

/// The number that a key has on a row, if it has one.
pub fn eval_int_key(table: &Table, expr: &Expr, row: usize) -> (r: Option<i64>)
    requires
        table.wf(),
        table.covers_row(row as int),
    ensures
        r == quad_value(*table, *expr, row as int),
    decreases *expr,
{
    match expr {
        Expr::Identifier(s) => match table.column(s.as_str()) {
            Err(_) => None,
            Ok(c) => {
                proof {
                    table.lemma_covers(s@, row as int);
                }
                match c {
                    ColumnData::Timestamp(_) => None,
                    ColumnData::Utf8(_) => None,
                    _ => Some(col_i64_at(c, row)),
                }
            },
        },
        Expr::BinaryOp { left, op: BinaryOperator::Minus, right } => match eval_int_key(
            table,
            left,
            row,
        ) {
            None => None,
            Some(l) => match &**right {
                Expr::Value(v) => match v {
                    Literal::Number(_) => match value_to_i64(v) {
                        Ok(r) => l.checked_sub(r),
                        Err(_) => None,
                    },
                    _ => None,
                },
                _ => None,
            },
        },
        _ => None,
    }
}

/// The first `n` keys of a row, if it has them all.
pub open spec fn quad_values(t: Table, q: ParsedQuery, row: int, n: nat) -> Option<Seq<i64>>
    decreases n,
{
    if n == 0 {
        Some(Seq::empty())
    } else {
        match quad_values(t, q, row, (n - 1) as nat) {
            None => None,
            Some(front) => match quad_value(
                t,
                resolved(q.group_by@[n - 1], q.select_items@),
                row,
            ) {
                None => None,
                Some(v) => Some(front.push(v)),
            },
        }
    }
}

proof fn lemma_quad_values(t: Table, q: ParsedQuery, row: int, i: nat, n: nat)
    requires
        i <= n,
        quad_values(t, q, row, i) is None,
    ensures
        quad_values(t, q, row, n) is None,
    decreases n,
{
    if i < n {
        lemma_quad_values(t, q, row, i, (n - 1) as nat);
    }
}

/// Whether all numbers have at most 32 bits.
pub open spec fn all_narrow(v: Seq<i64>) -> bool {
    forall|i: int| 0 <= i < v.len() ==> i32::MIN <= #[trigger] v[i] <= i32::MAX
}

/// The packed key of a row, if it has one: all keys have to fit in it whole.
pub open spec fn quad_key(t: Table, q: ParsedQuery, row: int) -> Option<u128> {
    match quad_values(t, q, row, q.group_by@.len()) {
        None => None,
        Some(v) => if all_narrow(v) {
            Some(packed(v))
        } else {
            None
        },
    }
}

/// The packed key of a row, if it has one.
pub fn pack4(table: &Table, parsed: &ParsedQuery, row: usize) -> (r: Option<u128>)
    requires
        table.wf(),
        table.covers_row(row as int),
        parsed.group_by@.len() == 4,
    ensures
        r == quad_key(*table, *parsed, row as int),
{
    let mut parts: Vec<i64> = Vec::new();
    let mut narrow = true;
    let mut i: usize = 0;
    assert(parts@ =~= Seq::<i64>::empty());
    while i < 4
        invariant
            i <= 4,
            parsed.group_by@.len() == 4,
            table.wf(),
            table.covers_row(row as int),
            quad_values(*table, *parsed, row as int, i as nat) == Some(parts@),
            parts@.len() == i,
            narrow == all_narrow(parts@),
        decreases 4 - i,
    {
        let e = resolve_group_expr(&parsed.group_by[i], &parsed.select_items);
        match eval_int_key(table, e, row) {
            None => {
                proof {
                    lemma_quad_values(*table, *parsed, row as int, (i + 1) as nat, 4);
                }
                return None;
            },
            Some(v) => {
                let ghost sofar = parts@;
                let whole = i32::MIN as i64 <= v && v <= i32::MAX as i64;
                parts.push(v);
                proof {
                    assert(parts@[i as int] == v);
                    if all_narrow(parts@) {
                        assert forall|k: int| 0 <= k < sofar.len() implies i32::MIN
                            <= #[trigger] sofar[k] <= i32::MAX by {
                            assert(parts@[k] == sofar[k]);
                        }
                    }
                }
                narrow = narrow && whole;
            },
        }
        i = i + 1;
    }
    if narrow {
        Some(pack_parts(&parts))
    } else {
        None
    }
}

/// The packed keys of rows, if each has one.
pub open spec fn quad_keys(t: Table, q: ParsedQuery, rows: Seq<usize>) -> Option<Seq<u128>>
    decreases rows.len(),
{
    if rows.len() == 0 {
        Some(Seq::empty())
    } else {
        match (quad_keys(t, q, rows.drop_last()), quad_key(t, q, rows.last() as int)) {
            (Some(front), Some(k)) => Some(front.push(k)),
            _ => None,
        }
    }
}

/// Where a row has no packed key, the rows have none.
proof fn lemma_quad_keys(t: Table, q: ParsedQuery, rows: Seq<usize>, i: int)
    requires
        0 <= i < rows.len(),
        quad_key(t, q, rows[i] as int) is None,
    ensures
        quad_keys(t, q, rows) is None,
    decreases rows.len(),
{
    if i < rows.len() - 1 {
        lemma_quad_keys(t, q, rows.drop_last(), i);
    }
}

/// The packed keys of rows, if each has one.
fn pack_quads(table: &Table, parsed: &ParsedQuery, rows: &Vec<usize>) -> (r: Option<Vec<u128>>)
    requires
        table.wf(),
        parsed.group_by@.len() == 4,
        forall|i: int| 0 <= i < rows@.len() ==> table.covers_row((#[trigger] rows@[i]) as int),
    ensures
        match r {
            Some(keys) => quad_keys(*table, *parsed, rows@) == Some(keys@),
            None => quad_keys(*table, *parsed, rows@) is None,
        },
{
    let mut keys: Vec<u128> = Vec::new();
    let mut i: usize = 0;
    assert(rows@.take(0) =~= Seq::<usize>::empty());
    assert(keys@ =~= Seq::<u128>::empty());
    while i < rows.len()
        invariant
            i <= rows@.len(),
            table.wf(),
            parsed.group_by@.len() == 4,
            forall|i: int| 0 <= i < rows@.len() ==> table.covers_row((#[trigger] rows@[i]) as int),
            quad_keys(*table, *parsed, rows@.take(i as int)) == Some(keys@),
        decreases rows@.len() - i,
    {
        assert(rows@.take(i + 1).drop_last() =~= rows@.take(i as int));
        assert(table.covers_row(rows@[i as int] as int));
        match pack4(table, parsed, rows[i]) {
            Some(k) => {
                keys.push(k);
            },
            None => {
                proof {
                    lemma_quad_keys(*table, *parsed, rows@, i as int);
                }
                return None;
            },
        }
        i = i + 1;
    }
    assert(rows@.take(i as int) =~= rows@);
    Some(keys)
}

/// An address less a small number, without a sign and wrapping around.
pub open spec fn less_by(ip: i32, n: u32) -> u32 {
    (ip as u32).wrapping_sub(n)
}

/// An address and its three predecessors in one key.
pub open spec fn ip_quad(ip: i32) -> u128 {
    (ip as u32) as u128 | ((less_by(ip, 1) as u128) << 32u128) | ((less_by(ip, 2) as u128)
        << 64u128) | ((less_by(ip, 3) as u128) << 96u128)
}

/// An address and its three predecessors in one key.
pub fn pack_clientip_quad(ip: i32) -> (k: u128)
    ensures
        k == ip_quad(ip),
{
    let u: u32 = ip as u32;
    let w1: u128 = u.wrapping_sub(1) as u128;
    let w2: u128 = u.wrapping_sub(2) as u128;
    let w3: u128 = u.wrapping_sub(3) as u128;
    u as u128 | (w1 << 32u128) | (w2 << 64u128) | (w3 << 96u128)
}

/// The four numbers in a key.
pub open spec fn quad_numbers(key: u128) -> Seq<i64> {
    seq![unpacked(key, 4, 0), unpacked(key, 4, 1), unpacked(key, 4, 2), unpacked(key, 4, 3)]
}

/// The four numbers in a key.
pub fn unpack_clientip_quad(key: u128) -> (v: [i64; 4])
    ensures
        v@ == quad_numbers(key),
{
    let v = [unpack_key(key, 4, 0), unpack_key(key, 4, 1), unpack_key(key, 4, 2), unpack_key(key, 4, 3)];
    assert(v@ =~= quad_numbers(key));
    v
}

/// The four numbers in the key of an address are the address and its predecessors,
/// wrapping around.
pub proof fn law_quad_unpacks(ip: i32)
    ensures
        quad_numbers(ip_quad(ip)) == seq![
            ip as i64,
            (less_by(ip, 1) as i32) as i64,
            (less_by(ip, 2) as i32) as i64,
            (less_by(ip, 3) as i32) as i64,
        ],
{
    let k = ip_quad(ip);
    let a = ip as u32;
    let b = less_by(ip, 1);
    let c = less_by(ip, 2);
    let d = less_by(ip, 3);
    assert((((k >> 0u128) & 0xFFFF_FFFF) as i32) == ip && (((k >> 32u128) & 0xFFFF_FFFF) as i32)
        == b as i32 && (((k >> 64u128) & 0xFFFF_FFFF) as i32) == c as i32 && (((k >> 96u128)
        & 0xFFFF_FFFF) as i32) == d as i32) by (bit_vector)
        requires
            k == a as u128 | ((b as u128) << 32u128) | ((c as u128) << 64u128) | ((d as u128)
                << 96u128),
            a == ip as u32,
    ;
    assert(quad_numbers(k) =~= seq![
        ip as i64,
        (b as i32) as i64,
        (c as i32) as i64,
        (d as i32) as i64,
    ]);
}

/// Different addresses have different keys.
pub proof fn law_quad_injective(a: i32, b: i32)
    requires
        ip_quad(a) == ip_quad(b),
    ensures
        a == b,
{
    law_quad_unpacks(a);
    law_quad_unpacks(b);
    assert(quad_numbers(ip_quad(a))[0] == a as i64);
    assert(quad_numbers(ip_quad(b))[0] == b as i64);
}

/// Whether an expression is the address or the address less a number.
pub open spec fn about_ip(e: Expr) -> bool {
    match e {
        Expr::Identifier(s) => s@ == "ClientIP"@,
        Expr::BinaryOp { left, op: BinaryOperator::Minus, right } => is_name(*left, "ClientIP"@)
            && is_number(*right),
        _ => false,
    }
}

/// Whether an expression is the address or the address less a number.
pub fn is_clientip_minus(e: &Expr) -> (r: bool)
    ensures
        r == about_ip(*e),
{
    match e {
        Expr::Identifier(_) => is_identifier(e, "ClientIP"),
        Expr::BinaryOp { left, op: BinaryOperator::Minus, right } => is_identifier(left, "ClientIP")
            && is_numeral(right),
        _ => false,
    }
}

/// Whether all grouping expressions are about the address.
pub open spec fn groups_ip(q: ParsedQuery) -> bool {
    forall|i: int|
        0 <= i < q.group_by@.len() ==> about_ip(
            resolved(#[trigger] q.group_by@[i], q.select_items@),
        )
}

/// Whether all grouping expressions are about the address.
pub fn is_clientip_quad_group(parsed: &ParsedQuery) -> (r: bool)
    ensures
        r == groups_ip(*parsed),
{
    let mut i: usize = 0;
    while i < parsed.group_by.len()
        invariant
            i <= parsed.group_by@.len(),
            forall|k: int|
                0 <= k < i ==> about_ip(
                    resolved(#[trigger] parsed.group_by@[k], parsed.select_items@),
                ),
        decreases parsed.group_by@.len() - i,
    {
        let e = resolve_group_expr(&parsed.group_by[i], &parsed.select_items);
        if !is_clientip_minus(e) {
            assert(!about_ip(resolved(parsed.group_by@[i as int], parsed.select_items@)));
            return false;
        }
        i = i + 1;
    }
    true
}

/// Whether an expression is the address less a number that is written out.
pub open spec fn ip_less(e: Expr, n: Seq<char>) -> bool {
    match e {
        Expr::BinaryOp { left, op: BinaryOperator::Minus, right } => is_name(*left, "ClientIP"@)
            && match *right {
            Expr::Value(Literal::Number(s)) => s@ == n,
            _ => false,
        },
        _ => false,
    }
}

fn is_ip_less(e: &Expr, n: &str) -> (r: bool)
    ensures
        r == ip_less(*e, n@),
{
    match e {
        Expr::BinaryOp { left, op: BinaryOperator::Minus, right } => {
            let named = is_identifier(left, "ClientIP");
            match &**right {
                Expr::Value(Literal::Number(s)) => named && str_eq(s.as_str(), n),
                _ => false,
            }
        },
        _ => false,
    }
}

/// Whether a query groups by the address and its three predecessors, in this order.
pub open spec fn groups_ip_chain(q: ParsedQuery) -> bool {
    &&& q.group_by@.len() == 4
    &&& is_name(resolved(q.group_by@[0], q.select_items@), "ClientIP"@)
    &&& ip_less(resolved(q.group_by@[1], q.select_items@), "1"@)
    &&& ip_less(resolved(q.group_by@[2], q.select_items@), "2"@)
    &&& ip_less(resolved(q.group_by@[3], q.select_items@), "3"@)
}

/// Whether a query groups by the address and its three predecessors, in this order.
pub fn is_clientip_chain(parsed: &ParsedQuery) -> (r: bool)
    ensures
        r == groups_ip_chain(*parsed),
{
    parsed.group_by.len() == 4 && is_identifier(
        resolve_group_expr(&parsed.group_by[0], &parsed.select_items),
        "ClientIP",
    ) && is_ip_less(resolve_group_expr(&parsed.group_by[1], &parsed.select_items), "1")
        && is_ip_less(resolve_group_expr(&parsed.group_by[2], &parsed.select_items), "2")
        && is_ip_less(resolve_group_expr(&parsed.group_by[3], &parsed.select_items), "3")
}

/// Whether all grouping expressions can be packed.
pub open spec fn groups_quad(t: Table, q: ParsedQuery) -> bool {
    forall|i: int|
        0 <= i < q.group_by@.len() ==> quad_part(
            t,
            resolved(#[trigger] q.group_by@[i], q.select_items@),
        )
}

/// Whether all grouping expressions can be packed.
pub fn is_quad_group(table: &Table, parsed: &ParsedQuery) -> (r: bool)
    ensures
        r == groups_quad(*table, *parsed),
{
    let mut i: usize = 0;
    while i < parsed.group_by.len()
        invariant
            i <= parsed.group_by@.len(),
            forall|k: int|
                0 <= k < i ==> quad_part(
                    *table,
                    resolved(#[trigger] parsed.group_by@[k], parsed.select_items@),
                ),
        decreases parsed.group_by@.len() - i,
    {
        let e = resolve_group_expr(&parsed.group_by[i], &parsed.select_items);
        if !is_quad_part(table, e) {
            assert(!quad_part(
                *table,
                resolved(parsed.group_by@[i as int], parsed.select_items@),
            ));
            return false;
        }
        i = i + 1;
    }
    true
}

/// A key of four numbers with its count, as a row.
pub open spec fn quad_row(key: u128, count: u64) -> Seq<CellView> {
    seq![
        counted(quad_numbers(key)[0] as int),
        counted(quad_numbers(key)[1] as int),
        counted(quad_numbers(key)[2] as int),
        counted(quad_numbers(key)[3] as int),
        counted(count as int),
    ]
}

/// A key of four numbers with its count, as a row.
pub fn show_quad(key: u128, count: u64) -> (row: Vec<Cell>)
    ensures
        cells(row@) == quad_row(key, count),
{
    let v = unpack_clientip_quad(key);
    let mut row: Vec<Cell> = Vec::new();
    row.push(number_cell(v[0] as i128));
    row.push(number_cell(v[1] as i128));
    row.push(number_cell(v[2] as i128));
    row.push(number_cell(v[3] as i128));
    row.push(number_cell(count as i128));
    assert(cells(row@) =~= quad_row(key, count));
    row
}

/// Keys of four numbers with their counts, as rows.
pub open spec fn quad_rows(keys: Seq<u128>, counts: Seq<u64>) -> Seq<Seq<CellView>> {
    Seq::new(keys.len(), |g: int| quad_row(keys[g], counts[g]))
}

fn show_quads(keys: &Vec<u128>, counts: &Vec<u64>) -> (rows: Vec<Vec<Cell>>)
    requires
        keys@.len() == counts@.len(),
    ensures
        cell_rows(rows@) == quad_rows(keys@, counts@),
        rows@.len() == keys@.len(),
{
    let mut rows: Vec<Vec<Cell>> = Vec::new();
    let mut g: usize = 0;
    while g < keys.len()
        invariant
            g <= keys@.len() == counts@.len(),
            rows@.len() == g,
            forall|k: int| 0 <= k < g ==> cells((#[trigger] rows@[k])@) == quad_row(keys@[k], counts@[k]),
        decreases keys@.len() - g,
    {
        rows.push(show_quad(keys[g], counts[g]));
        g = g + 1;
    }
    assert(cell_rows(rows@) =~= quad_rows(keys@, counts@));
    rows
}

/// Rows counted by keys of four numbers: the most frequent, if the query asks for
/// them, by count and then by key; else all by count.
pub open spec fn quads_counted(q: ParsedQuery, keys: Seq<u128>) -> ResultView {
    let rows = quad_rows(first_seen(keys), tallied(keys));
    if wants_top(q) {
        ResultView {
            columns: labels(q.select_items@),
            rows: picked_rows(rows, top_pair_numbers(q, keys)),
        }
    } else {
        count_sorted(q, tallied(keys), rows)
    }
}

/// Rows counted by keys of four numbers.
pub fn count_quads(parsed: &ParsedQuery, keys: &Vec<u128>) -> (r: QueryResult)
    ensures
        r@ == quads_counted(*parsed, keys@),
{
    let (index, counts) = count_ints(keys);
    let rows = show_quads(index.all(), &counts);
    let limit: usize = limit_of(parsed);
    if limit < usize::MAX && orders_by_count_desc(parsed) {
        let t = top_counts_u128_key(&counts, index.all(), limit, offset_of(parsed));
        return QueryResult { columns: headings(parsed), rows: pick_rows(&rows, &t) };
    }
    finish_count_sorted_scan(parsed, &counts, &rows)
}

/// What counting rows by four integers comes to: it is left to another way if the keys
/// of some row do not fit in one.
pub open spec fn int4_result(t: Table, q: ParsedQuery, n: nat) -> Result<
    Option<ResultView>,
    Seq<char>,
>
{
    if q.group_by@.len() != 4 || !shows_counts(q) || !groups_quad(t, q) {
        Ok(None)
    } else {
        with_rows(
            t,
            q,
            n,
            |rows: Seq<usize>|
                match quad_keys(t, q, rows) {
                    None => Ok(None),
                    Some(keys) => Ok(Some(quads_counted(q, keys))),
                },
        )
    }
}

/// Counts rows by four integers, if that is what the query asks for.
pub fn try_fused_int4_count(table: &Table, parsed: &ParsedQuery, row_count: usize) -> (r: Result<
    Option<QueryResult>,
    Error,
>)
    requires
        table.wf(),
        table.holds_rows(row_count as int),
    ensures
        attempt(r) == int4_result(*table, *parsed, row_count as nat),
{
    if parsed.group_by.len() != 4 || !is_count_form(parsed) {
        return Ok(None);
    }
    if !is_quad_group(table, parsed) {
        return Ok(None);
    }
    let rows = match choose_rows(table, parsed, row_count) {
        Err(e) => {
            return Err(e);
        },
        Ok(None) => {
            return Ok(Some(empty_result(parsed)));
        },
        Ok(Some(r)) => r,
    };
    match pack_quads(table, parsed, &rows) {
        Some(keys) => Ok(Some(count_quads(parsed, &keys))),
        None => Ok(None),
    }
}

} // verus!
