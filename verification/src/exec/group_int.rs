//! GROUP BY on one to four integer expressions, packed into one key.
use crate::error::{fails, outcome, text_outcome, yields, Error};
use crate::exec::agg_heap::{pair_first, pair_second};
use crate::exec::aggregate::{finished, or_zero, AggState, AggView};
use crate::exec::column_slice::{pack_two, pair_key};
use crate::exec::filter::{build_mask, masked};
use crate::exec::group::{
    attempted, covered_rows, eval_proj_at_row, fill_groups, first_rows, group_passes,
    is_group_key_proj, lemma_rows_with, passes_group, proj_text, resolve_group_expr, resolved,
    rows_fault, rows_with, shows_key, state_views, states_of, Answer, AnswerView,
};
use crate::exec::grouping::{count_groups, group_ints};
use crate::exec::hash::{first_seen, lemma_first_seen_distinct, occurrences};
use crate::exec::kernel::{has_leading_keys, keys_lead};
use crate::exec::mask_util::selected;
use crate::exec::result::{
    cell_rows, cells, empty_result, headings, no_rows, shown, Cell, CellView,
};
use crate::exec::sorting::{to_sort, Unsorted};
use crate::expr::eval::{
    col_i64_at, col_int, column_of, literal_int, quotient, remainder, value_to_i64,
};
use crate::expr::time::{format_date_days, minute_of_hour, ymd_text, MAX_DAY, MIN_DAY};
use crate::sql::ast::{BinaryOperator, DateTimeField, Expr, Literal, ParsedQuery, SelectItemKind};
use crate::sql::query::{column_name, column_ref};
use crate::storage::column::{ColumnData, ColumnType, ColumnView};
use crate::storage::table::{declared_type, Table};
use crate::text::{decimal, int_text, law_numeral_read_back};
use vstd::prelude::*;

verus! {

/// The most integer expressions that fit in one key.
pub const MAX_PACKED_KEYS: usize = 4;

/// Whether a type is one of integers or dates.
pub open spec fn is_int_type(ty: ColumnType) -> bool {
    ty == ColumnType::Int16 || ty == ColumnType::Int32 || ty == ColumnType::Int64 || ty
        == ColumnType::Date
}

/// Whether a type is one of integers or dates.
pub fn int_typed(ty: ColumnType) -> (r: bool)
    ensures
        r == is_int_type(ty),
{
    match ty {
        ColumnType::Int16 => true,
        ColumnType::Int32 => true,
        ColumnType::Int64 => true,
        ColumnType::Date => true,
        _ => false,
    }
}

/// Whether an expression is a number.
pub open spec fn is_number(e: Expr) -> bool {
    match e {
        Expr::Value(Literal::Number(_)) => true,
        _ => false,
    }
}

/// Whether an expression is a number.
pub fn is_numeral(e: &Expr) -> (r: bool)
    ensures
        r == is_number(*e),
{
    match e {
        Expr::Value(Literal::Number(_)) => true,
        _ => false,
    }
}

/// Whether an expression can be part of a packed key.
pub open spec fn packable(t: Table, e: Expr) -> Result<bool, Seq<char>>
    decreases e,
{
    match e {
        Expr::Identifier(s) => match declared_type(t.declared(), s@) {
            None => Err("column "@ + s@),
            Some(ty) => Ok(is_int_type(ty)),
        },
        Expr::BinaryOp { left, op: BinaryOperator::Minus, right } => match packable(t, *left) {
            Err(m) => Err(m),
            Ok(b) => Ok(b && is_number(*right)),
        },
        Expr::Extract { field: DateTimeField::Minute, expr } => match *expr {
            Expr::Identifier(s) => Ok(
                declared_type(t.declared(), s@) == Some(ColumnType::Timestamp),
            ),
            _ => Ok(false),
        },
        _ => Ok(is_number(e)),
    }
}

/// Whether an expression can be part of a packed key.
pub fn is_int_group_expr(table: &Table, expr: &Expr) -> (r: Result<bool, Error>)
    ensures
        outcome(r) == packable(*table, *expr),
    decreases *expr,
{
    match expr {
        Expr::Identifier(s) => match table.column_type(s.as_str()) {
            None => {
                let mut m = String::from_str("column ");
                m.append(s.as_str());
                Err(Error::Msg(m))
            },
            Some(ty) => Ok(int_typed(ty)),
        },
        Expr::BinaryOp { left, op: BinaryOperator::Minus, right } => match is_int_group_expr(
            table,
            left,
        ) {
            Err(e) => Err(e),
            Ok(b) => Ok(b && is_numeral(right)),
        },
        Expr::Extract { field: DateTimeField::Minute, expr: inner } => match &**inner {
            Expr::Identifier(s) => match table.column_type(s.as_str()) {
                Some(ColumnType::Timestamp) => Ok(true),
                _ => Ok(false),
            },
            _ => Ok(false),
        },
        _ => Ok(is_numeral(expr)),
    }
}

/// Whether the first `n` grouping expressions can be packed.
pub open spec fn all_packable(t: Table, q: ParsedQuery, n: nat) -> Result<bool, Seq<char>>
    decreases n,
{
    if n == 0 {
        Ok(true)
    } else {
        match all_packable(t, q, (n - 1) as nat) {
            Ok(true) => packable(t, resolved(q.group_by@[n - 1], q.select_items@)),
            r => r,
        }
    }
}

proof fn lemma_all_packable(t: Table, q: ParsedQuery, i: nat, n: nat)
    requires
        i <= n,
        !(all_packable(t, q, i) matches Ok(true)),
    ensures
        all_packable(t, q, n) == all_packable(t, q, i),
    decreases n,
{
    if i < n {
        lemma_all_packable(t, q, i, (n - 1) as nat);
    }
}

/// Whether a query groups by one to four expressions that can be packed.
pub open spec fn int_plan(t: Table, q: ParsedQuery) -> Result<bool, Seq<char>> {
    if q.group_by@.len() == 0 || q.group_by@.len() > MAX_PACKED_KEYS {
        Ok(false)
    } else {
        all_packable(t, q, q.group_by@.len())
    }
}

/// Whether a query groups by one to four expressions that can be packed.
pub fn plan_int_group(table: &Table, parsed: &ParsedQuery) -> (r: Result<bool, Error>)
    ensures
        outcome(r) == int_plan(*table, *parsed),
{
    let total: usize = parsed.group_by.len();
    if total == 0 || total > MAX_PACKED_KEYS {
        return Ok(false);
    }
    let mut i: usize = 0;
    while i < total
        invariant
            i <= total == parsed.group_by@.len(),
            0 < total <= MAX_PACKED_KEYS,
            all_packable(*table, *parsed, i as nat) matches Ok(true),
        decreases total - i,
    {
        let e = resolve_group_expr(&parsed.group_by[i], &parsed.select_items);
        let ok = is_int_group_expr(table, e);
        match ok {
            Ok(true) => {},
            _ => {
                proof {
                    lemma_all_packable(*table, *parsed, (i + 1) as nat, total as nat);
                }
                return ok;
            },
        }
        i = i + 1;
    }
    Ok(true)
}

/// The number of a row of an integer or date column, zero in other columns.
pub open spec fn int_key(c: ColumnView, row: int) -> i64 {
    if is_int_type(c.column_type()) {
        col_int(c, row)
    } else {
        0
    }
}

/// The part of a packed key that an expression gives on a row.
pub open spec fn key_int(t: Table, e: Expr, row: int) -> Result<i64, Seq<char>>
    decreases e,
{
    match e {
        Expr::Identifier(s) => match column_of(t, s@) {
            Err(m) => Err(m),
            Ok(c) => Ok(int_key(c, row)),
        },
        Expr::BinaryOp { left, op: BinaryOperator::Minus, right } => match key_int(t, *left, row) {
            Err(m) => Err(m),
            Ok(l) => match if is_number(*right) {
                literal_int(right->Value_0)
            } else {
                key_int(t, *right, row)
            } {
                Err(m) => Err(m),
                Ok(r) => if i64::MIN <= l - r <= i64::MAX {
                    Ok((l - r) as i64)
                } else {
                    Err("arithmetic overflow"@)
                },
            },
        },
        Expr::Value(Literal::Number(_)) => literal_int(e->Value_0),
        Expr::Extract { field: DateTimeField::Minute, expr } => match *expr {
            Expr::Identifier(s) => match column_of(t, s@) {
                Err(m) => Err(m),
                Ok(c) => Ok(
                    match c {
                        ColumnView::Timestamp(v) => remainder(
                            quotient(quotient(v[row], 1_000_000), 60),
                            60,
                        ),
                        _ => 0,
                    },
                ),
            },
            _ => Err("extract col"@),
        },
        _ => Err("int group key"@),
    }
}

/// The number of a row of an integer or date column, zero in other columns.
fn i64_key_at(col: &ColumnData, row: usize) -> (v: i64)
    requires
        row < col@.len(),
    ensures
        v == int_key(col@, row as int),
{
    match col {
        ColumnData::Timestamp(_) => 0,
        _ => col_i64_at(col, row),
    }
}

/// The part of a packed key that an expression gives on a row.
pub fn eval_int_group_key(table: &Table, expr: &Expr, row: usize) -> (r: Result<i64, Error>)
    requires
        table.wf(),
        table.covers_row(row as int),
    ensures
        outcome(r) == key_int(*table, *expr, row as int),
    decreases *expr,
{
    match expr {
        Expr::Identifier(s) => match table.column(s.as_str()) {
            Err(e) => Err(e),
            Ok(c) => {
                proof {
                    table.lemma_covers(s@, row as int);
                }
                Ok(i64_key_at(c, row))
            },
        },
        Expr::BinaryOp { left, op: BinaryOperator::Minus, right } => match eval_int_group_key(
            table,
            left,
            row,
        ) {
            Err(e) => Err(e),
            Ok(l) => {
                let right_value = match &**right {
                    Expr::Value(Literal::Number(n)) => {
                        let v = Literal::Number(n.clone());
                        value_to_i64(&v)
                    },
                    _ => eval_int_group_key(table, right, row),
                };
                match right_value {
                    Err(e) => Err(e),
                    Ok(r) => match l.checked_sub(r) {
                        Some(v) => Ok(v),
                        None => Err(Error::msg("arithmetic overflow")),
                    },
                }
            },
        },
        Expr::Value(v) => match v {
            Literal::Number(_) => value_to_i64(v),
            _ => Err(Error::msg("int group key")),
        },
        Expr::Extract { field: DateTimeField::Minute, expr: inner } => match &**inner {
            Expr::Identifier(s) => match table.column(s.as_str()) {
                Err(e) => Err(e),
                Ok(c) => {
                    proof {
                        table.lemma_covers(s@, row as int);
                    }
                    match c {
                        ColumnData::Timestamp(v) => {
                            let secs: Option<i64> = v.get(row).checked_div(1_000_000);
                            let mins: Option<i64> = secs.unwrap().checked_div(60);
                            let part: Option<i64> = mins.unwrap().checked_rem(60);
                            Ok(part.unwrap())
                        },
                        _ => Ok(0),
                    }
                },
            },
            _ => Err(Error::msg("extract col")),
        },
        _ => Err(Error::msg("int group key")),
    }
}

/// A key of several parts, 32 bits of each.
pub open spec fn quarters(parts: Seq<i64>) -> u128
    decreases parts.len(),
{
    if parts.len() == 0 {
        0
    } else {
        quarters(parts.drop_last()) | (((parts.last() as u32) as u128) << (32 * (parts.len() - 1)) as u128)
    }
}

/// The parts of a key in one: one part as it is, two parts whole, more parts with 32
/// bits each.
pub open spec fn packed(parts: Seq<i64>) -> u128 {
    if parts.len() == 1 {
        parts[0] as u128
    } else if parts.len() == 2 {
        pair_key(parts[0], parts[1])
    } else {
        quarters(parts)
    }
}

/// The first `n` parts of the key of a row.
pub open spec fn key_ints(t: Table, q: ParsedQuery, row: int, n: nat) -> Result<
    Seq<i64>,
    Seq<char>,
>
    decreases n,
{
    if n == 0 {
        Ok(Seq::empty())
    } else {
        match key_ints(t, q, row, (n - 1) as nat) {
            Err(m) => Err(m),
            Ok(k) => match key_int(t, resolved(q.group_by@[n - 1], q.select_items@), row) {
                Err(m) => Err(m),
                Ok(v) => Ok(k.push(v)),
            },
        }
    }
}

proof fn lemma_key_ints_fault(t: Table, q: ParsedQuery, row: int, i: nat, n: nat)
    requires
        i <= n,
        key_ints(t, q, row, i) is Err,
    ensures
        key_ints(t, q, row, n) == key_ints(t, q, row, i),
    decreases n,
{
    if i < n {
        lemma_key_ints_fault(t, q, row, i, (n - 1) as nat);
    }
}

/// The packed key of a row.
pub open spec fn row_pack(t: Table, q: ParsedQuery, row: int) -> Result<u128, Seq<char>> {
    match key_ints(t, q, row, q.group_by@.len()) {
        Err(m) => Err(m),
        Ok(parts) => Ok(packed(parts)),
    }
}

/// The parts of a key in one.
pub fn pack_parts(parts: &Vec<i64>) -> (key: u128)
    requires
        1 <= parts@.len() <= MAX_PACKED_KEYS,
    ensures
        key == packed(parts@),
{
    if parts.len() == 1 {
        return parts[0] as u128;
    }
    if parts.len() == 2 {
        return pack_two(parts[0], parts[1]);
    }
    let mut key: u128 = 0;
    let mut i: usize = 0;
    assert(parts@.take(0) =~= Seq::<i64>::empty());
    while i < parts.len()
        invariant
            i <= parts@.len() <= MAX_PACKED_KEYS,
            key == quarters(parts@.take(i as int)),
        decreases parts@.len() - i,
    {
        assert(parts@.take(i + 1).drop_last() =~= parts@.take(i as int));
        let v: u32 = parts[i] as u32;
        let shift: u128 = 32 * i as u128;
        key = key | ((v as u128) << shift);
        i = i + 1;
    }
    assert(parts@.take(i as int) =~= parts@);
    key
}

/// The packed key of a row.
pub fn pack_key(table: &Table, parsed: &ParsedQuery, row: usize) -> (r: Result<u128, Error>)
    requires
        table.wf(),
        table.covers_row(row as int),
        1 <= parsed.group_by@.len() <= MAX_PACKED_KEYS,
    ensures
        outcome(r) == row_pack(*table, *parsed, row as int),
{
    let mut parts: Vec<i64> = Vec::new();
    let mut i: usize = 0;
    assert(parts@ =~= Seq::<i64>::empty());
    while i < parsed.group_by.len()
        invariant
            i <= parsed.group_by@.len(),
            table.wf(),
            table.covers_row(row as int),
            yields(key_ints(*table, *parsed, row as int, i as nat), parts@),
            parts@.len() == i,
        decreases parsed.group_by@.len() - i,
    {
        let e = resolve_group_expr(&parsed.group_by[i], &parsed.select_items);
        match eval_int_group_key(table, e, row) {
            Err(e) => {
                proof {
                    lemma_key_ints_fault(
                        *table,
                        *parsed,
                        row as int,
                        (i + 1) as nat,
                        parsed.group_by@.len(),
                    );
                }
                return Err(e);
            },
            Ok(v) => {
                parts.push(v);
            },
        }
        i = i + 1;
    }
    Ok(pack_parts(&parts))
}

/// A part of a packed key.
pub open spec fn unpacked(key: u128, parts: nat, i: int) -> i64 {
    if parts == 1 {
        key as i64
    } else if parts == 2 {
        if i == 0 {
            pair_first(key)
        } else {
            pair_second(key)
        }
    } else {
        ((((key >> (32 * i) as u128) & 0xFFFF_FFFF) as i32)) as i64
    }
}

/// A part of a packed key.
pub fn unpack_key(key: u128, parts: usize, i: usize) -> (v: i64)
    requires
        1 <= parts <= MAX_PACKED_KEYS,
        i < parts,
    ensures
        v == unpacked(key, parts as nat, i as int),
{
    if parts == 1 {
        key as i64
    } else if parts == 2 {
        if i == 0 {
            (key >> 64) as i64
        } else {
            key as i64
        }
    } else {
        let shift: u128 = 32 * i as u128;
        (((key >> shift) & 0xFFFF_FFFF) as i32) as i64
    }
}

/// One part can be taken out of the key that it was packed into.
pub proof fn law_single_unpacks(a: i64)
    ensures
        unpacked(packed(seq![a]), 1, 0) == a,
{
    assert((a as u128) as i64 == a) by (bit_vector);
}

/// Three or four parts can be taken out of the key that they were packed into, if
/// each fits in 32 bits.
pub proof fn law_quarters_unpack(a: i32, b: i32, c: i32, d: i32)
    ensures
        unpacked(packed(seq![a as i64, b as i64, c as i64]), 3, 0) == a,
        unpacked(packed(seq![a as i64, b as i64, c as i64]), 3, 1) == b,
        unpacked(packed(seq![a as i64, b as i64, c as i64]), 3, 2) == c,
        unpacked(packed(seq![a as i64, b as i64, c as i64, d as i64]), 4, 0) == a,
        unpacked(packed(seq![a as i64, b as i64, c as i64, d as i64]), 4, 1) == b,
        unpacked(packed(seq![a as i64, b as i64, c as i64, d as i64]), 4, 2) == c,
        unpacked(packed(seq![a as i64, b as i64, c as i64, d as i64]), 4, 3) == d,
{
    let (p, q, r, s) = (a as i64, b as i64, c as i64, d as i64);
    let three = seq![p, q, r];
    let four = seq![p, q, r, s];
    reveal_with_fuel(quarters, 5);
    assert(four.drop_last() =~= three);
    assert(three.drop_last() =~= seq![p, q]);
    assert(seq![p, q].drop_last() =~= seq![p]);
    assert(seq![p].drop_last() =~= Seq::<i64>::empty());
    let k1: u128 = 0u128 | (((p as u32) as u128) << 0u128);
    let k2: u128 = k1 | (((q as u32) as u128) << 32u128);
    let k3: u128 = k2 | (((r as u32) as u128) << 64u128);
    let k4: u128 = k3 | (((s as u32) as u128) << 96u128);
    assert(quarters(three) == k3);
    assert(quarters(four) == k4);
    assert(((((k3 >> 0u128) & 0xFFFF_FFFF) as i32)) as i64 == a && ((((k3 >> 32u128)
        & 0xFFFF_FFFF) as i32)) as i64 == b && ((((k3 >> 64u128) & 0xFFFF_FFFF) as i32)) as i64
        == c) by (bit_vector)
        requires
            k1 == 0u128 | (((p as u32) as u128) << 0u128),
            k2 == k1 | (((q as u32) as u128) << 32u128),
            k3 == k2 | (((r as u32) as u128) << 64u128),
            p == a as i64,
            q == b as i64,
            r == c as i64,
    ;
    assert(((((k4 >> 0u128) & 0xFFFF_FFFF) as i32)) as i64 == a && ((((k4 >> 32u128)
        & 0xFFFF_FFFF) as i32)) as i64 == b && ((((k4 >> 64u128) & 0xFFFF_FFFF) as i32)) as i64
        == c && ((((k4 >> 96u128) & 0xFFFF_FFFF) as i32)) as i64 == d) by (bit_vector)
        requires
            k1 == 0u128 | (((p as u32) as u128) << 0u128),
            k2 == k1 | (((q as u32) as u128) << 32u128),
            k3 == k2 | (((r as u32) as u128) << 64u128),
            k4 == k3 | (((s as u32) as u128) << 96u128),
            p == a as i64,
            q == b as i64,
            r == c as i64,
            s == d as i64,
    ;
}

/// A part of a key as it is shown: a date where the grouping names a date column.
pub open spec fn part_text(t: Table, e: Expr, v: i64) -> Result<Seq<char>, Seq<char>> {
    match column_name(e) {
        Some(name) => if t.has(name) && t.col(name) is Date {
            let day = if i32::MIN <= v <= i32::MAX {
                v as i32
            } else {
                0i32
            };
            if MIN_DAY <= day <= MAX_DAY {
                Ok(ymd_text(day))
            } else {
                Err("date out of range"@)
            }
        } else {
            Ok(decimal(v as int))
        },
        None => Ok(decimal(v as int)),
    }
}

/// A part of a key as it is shown.
pub fn format_packed_group_key(table: &Table, expr: &Expr, v: i64) -> (r: Result<String, Error>)
    requires
        table.wf(),
    ensures
        text_outcome(r) == part_text(*table, *expr, v),
{
    if let Some(name) = column_ref(expr) {
        if let Ok(ColumnData::Date(_)) = table.column(name) {
            let day: i32 = if i32::MIN as i64 <= v && v <= i32::MAX as i64 {
                v as i32
            } else {
                0
            };
            if MIN_DAY <= day && day <= MAX_DAY {
                return Ok(format_date_days(day));
            }
            return Err(Error::msg("date out of range"));
        }
    }
    Ok(int_text(v as i128))
}

/// How many of the first `n` projections show a grouping expression.
pub open spec fn keys_before(q: ParsedQuery, n: nat) -> nat
    decreases n,
{
    if n == 0 {
        0
    } else {
        keys_before(q, (n - 1) as nat) + if shows_key(q.select_items@[n - 1], q.group_by@) {
            1nat
        } else {
            0nat
        }
    }
}

/// There are no fewer key projections among more projections.
pub proof fn lemma_keys_before(q: ParsedQuery, i: nat, n: nat)
    requires
        i <= n,
    ensures
        keys_before(q, i) <= keys_before(q, n),
    decreases n,
{
    if i < n {
        lemma_keys_before(q, i, (n - 1) as nat);
    }
}

/// The value of the projection number `k` for a group.
pub open spec fn int_value(
    t: Table,
    q: ParsedQuery,
    k: int,
    key: u128,
    row: usize,
    state: AggView,
) -> Result<CellView, Seq<char>> {
    let p = q.select_items@[k];
    let done = match finished(state, p.kind, Seq::empty(), Some(t)) {
        Err(m) => Err(m),
        Ok(v) => Ok(v.1),
    };
    if shows_key(p, q.group_by@) {
        let i = keys_before(q, k as nat) as int;
        match part_text(
            t,
            resolved(q.group_by@[i], q.select_items@),
            unpacked(key, q.group_by@.len(), i),
        ) {
            Err(m) => Err(m),
            Ok(s) => if p.kind is Other || p.kind is Column {
                Ok(shown(s))
            } else {
                done
            },
        }
    } else if p.kind is Other {
        match proj_text(t, p, row as int) {
            Err(m) => Err(m),
            Ok(s) => Ok(shown(s)),
        }
    } else {
        done
    }
}

/// The first `n` values of the row that is shown for a group.
pub open spec fn int_row(
    t: Table,
    q: ParsedQuery,
    key: u128,
    row: usize,
    states: Seq<AggView>,
    n: nat,
) -> Result<Seq<CellView>, Seq<char>>
    decreases n,
{
    if n == 0 {
        Ok(Seq::empty())
    } else {
        match int_row(t, q, key, row, states, (n - 1) as nat) {
            Err(m) => Err(m),
            Ok(cells) => match int_value(t, q, n - 1, key, row, states[n - 1]) {
                Err(m) => Err(m),
                Ok(c) => Ok(cells.push(c)),
            },
        }
    }
}

proof fn lemma_int_row_fault(
    t: Table,
    q: ParsedQuery,
    key: u128,
    row: usize,
    states: Seq<AggView>,
    i: nat,
    n: nat,
)
    requires
        i <= n,
        int_row(t, q, key, row, states, i) is Err,
    ensures
        int_row(t, q, key, row, states, n) == int_row(t, q, key, row, states, i),
    decreases n,
{
    if i < n {
        lemma_int_row_fault(t, q, key, row, states, i, (n - 1) as nat);
    }
}

/// The row that is shown for a group.
fn show_int_group(
    table: &Table,
    parsed: &ParsedQuery,
    key: u128,
    row: usize,
    states: &Vec<AggState>,
) -> (r: Result<Vec<Cell>, Error>)
    requires
        table.wf(),
        table.covers_row(row as int),
        1 <= parsed.group_by@.len() <= MAX_PACKED_KEYS,
        keys_before(*parsed, parsed.select_items@.len()) <= parsed.group_by@.len(),
        states@.len() == parsed.select_items@.len(),
        forall|k: int| 0 <= k < states@.len() ==> or_zero((#[trigger] states@[k])@.sum) > i128::MIN,
    ensures
        match r {
            Ok(v) => yields(
                int_row(
                    *table,
                    *parsed,
                    key,
                    row,
                    state_views(states@),
                    parsed.select_items@.len(),
                ),
                cells(v@),
            ) && v@.len() == parsed.select_items@.len(),
            Err(e) => fails(
                int_row(
                    *table,
                    *parsed,
                    key,
                    row,
                    state_views(states@),
                    parsed.select_items@.len(),
                ),
                e@,
            ),
        },
{
    let mut v: Vec<Cell> = Vec::new();
    let mut used: usize = 0;
    let mut k: usize = 0;
    assert(cells(v@) =~= Seq::<CellView>::empty());
    while k < parsed.select_items.len()
        invariant
            k <= parsed.select_items@.len(),
            table.wf(),
            table.covers_row(row as int),
            1 <= parsed.group_by@.len() <= MAX_PACKED_KEYS,
            keys_before(*parsed, parsed.select_items@.len()) <= parsed.group_by@.len(),
            states@.len() == parsed.select_items@.len(),
            forall|k: int|
                0 <= k < states@.len() ==> or_zero((#[trigger] states@[k])@.sum) > i128::MIN,
            v@.len() == k,
            used == keys_before(*parsed, k as nat),
            yields(
                int_row(*table, *parsed, key, row, state_views(states@), k as nat),
                cells(v@),
            ),
        decreases parsed.select_items@.len() - k,
    {
        let proj = &parsed.select_items[k];
        proof {
            assert(or_zero(states@[k as int]@.sum) > i128::MIN);
            assert(state_views(states@)[k as int] == states@[k as int]@);
            lemma_keys_before(*parsed, (k + 1) as nat, parsed.select_items@.len());
        }
        let is_key = is_group_key_proj(proj, &parsed.group_by);
        let is_other = match &proj.kind {
            SelectItemKind::Other(_) => true,
            _ => false,
        };
        let is_column = match &proj.kind {
            SelectItemKind::Column(_) => true,
            _ => false,
        };
        let text: Result<Option<String>, Error> = if is_key {
            let part: i64 = unpack_key(key, parsed.group_by.len(), used);
            let e = resolve_group_expr(&parsed.group_by[used], &parsed.select_items);
            let t = format_packed_group_key(table, e, part);
            used = used + 1;
            match t {
                Err(e) => Err(e),
                Ok(s) => if is_other || is_column {
                    Ok(Some(s))
                } else {
                    Ok(None)
                },
            }
        } else if is_other {
            match eval_proj_at_row(table, proj, row) {
                Err(e) => Err(e),
                Ok(s) => Ok(Some(s)),
            }
        } else {
            Ok(None)
        };
        let cell: Result<Cell, Error> = match text {
            Err(e) => Err(e),
            Ok(Some(s)) => Ok(Cell::Text(s)),
            Ok(None) => match states[k].finish(&proj.kind, None, Some(table)) {
                Err(e) => Err(e),
                Ok((_, c)) => Ok(c),
            },
        };
        match cell {
            Err(e) => {
                proof {
                    lemma_int_row_fault(
                        *table,
                        *parsed,
                        key,
                        row,
                        state_views(states@),
                        (k + 1) as nat,
                        parsed.select_items@.len(),
                    );
                }
                return Err(e);
            },
            Ok(c) => {
                let ghost sofar = v@;
                v.push(c);
                assert(cells(v@) =~= cells(sofar).push(c@));
            },
        }
        k = k + 1;
    }
    Ok(v)
}

/// The rows that are shown for the first `n` groups.
pub open spec fn int_rows(
    t: Table,
    q: ParsedQuery,
    keys: Seq<u128>,
    rows: Seq<usize>,
    n: nat,
) -> Result<Seq<Seq<CellView>>, Seq<char>>
    decreases n,
{
    if n == 0 {
        Ok(Seq::empty())
    } else {
        match int_rows(t, q, keys, rows, (n - 1) as nat) {
            Err(m) => Err(m),
            Ok(out) => {
                let key = first_seen(keys)[n - 1];
                let states = states_of(t, q.select_items@, keys, rows, key);
                if group_passes(q.having, occurrences(keys, key)) {
                    match int_row(
                        t,
                        q,
                        key,
                        rows_with(keys, rows, key)[0],
                        states,
                        q.select_items@.len(),
                    ) {
                        Err(m) => Err(m),
                        Ok(r) => Ok(out.push(r)),
                    }
                } else {
                    Ok(out)
                }
            },
        }
    }
}

proof fn lemma_int_rows_fault(
    t: Table,
    q: ParsedQuery,
    keys: Seq<u128>,
    rows: Seq<usize>,
    i: nat,
    n: nat,
)
    requires
        i <= n,
        int_rows(t, q, keys, rows, i) is Err,
    ensures
        int_rows(t, q, keys, rows, n) == int_rows(t, q, keys, rows, i),
    decreases n,
{
    if i < n {
        lemma_int_rows_fault(t, q, keys, rows, i, (n - 1) as nat);
    }
}

/// The packed keys of rows up to the first that has none, and why it has none.
pub open spec fn int_keyed(t: Table, q: ParsedQuery, rows: Seq<usize>) -> (
    Seq<u128>,
    Option<Seq<char>>,
)
    decreases rows.len(),
{
    if rows.len() == 0 {
        (Seq::empty(), None)
    } else {
        let before = int_keyed(t, q, rows.drop_last());
        if before.1 is Some {
            before
        } else {
            match row_pack(t, q, rows.last() as int) {
                Err(m) => (before.0, Some(m)),
                Ok(k) => (before.0.push(k), None),
            }
        }
    }
}

proof fn lemma_int_keyed_fault(t: Table, q: ParsedQuery, rows: Seq<usize>, i: int)
    requires
        0 <= i <= rows.len(),
        int_keyed(t, q, rows.take(i)).1 is Some,
    ensures
        int_keyed(t, q, rows) == int_keyed(t, q, rows.take(i)),
    decreases rows.len() - i,
{
    if i == rows.len() {
        assert(rows.take(i) =~= rows);
    } else {
        assert(rows.take(i + 1).drop_last() =~= rows.take(i));
        lemma_int_keyed_fault(t, q, rows, i + 1);
    }
}

/// Grouping rows by packed keys. The first fault decides, row by row: first of the
/// key, then of the aggregates.
pub open spec fn int_grouped(t: Table, q: ParsedQuery, rows: Seq<usize>) -> Result<
    Seq<Seq<CellView>>,
    Seq<char>,
> {
    let (keys, fault) = int_keyed(t, q, rows);
    match rows_fault(t, q.select_items@, rows.take(keys.len() as int)) {
        Some(m) => Err(m),
        None => match fault {
            Some(m) => Err(m),
            None => int_rows(t, q, keys, rows, first_seen(keys).len()),
        },
    }
}

/// Whether all numbers of an expression have at most 32 bits.
pub open spec fn narrow_part(t: Table, e: Expr) -> bool {
    match e {
        Expr::Identifier(s) => match declared_type(t.declared(), s@) {
            Some(ty) => ty == ColumnType::Int16 || ty == ColumnType::Int32 || ty
                == ColumnType::Date,
            None => false,
        },
        Expr::Extract { .. } => true,
        _ => false,
    }
}

fn is_narrow_part(table: &Table, e: &Expr) -> (r: bool)
    ensures
        r == narrow_part(*table, *e),
{
    match e {
        Expr::Identifier(s) => match table.column_type(s.as_str()) {
            Some(ColumnType::Int16) => true,
            Some(ColumnType::Int32) => true,
            Some(ColumnType::Date) => true,
            _ => false,
        },
        Expr::Extract { .. } => true,
        _ => false,
    }
}

/// Whether the keys of a query can be packed whole: more than two share the bits of a
/// key, so that each may have at most 32.
pub open spec fn packs_whole(t: Table, q: ParsedQuery) -> bool {
    q.group_by@.len() <= 2 || forall|i: int|
        0 <= i < q.group_by@.len() ==> narrow_part(
            t,
            resolved(#[trigger] q.group_by@[i], q.select_items@),
        )
}

fn can_pack_whole(table: &Table, parsed: &ParsedQuery) -> (r: bool)
    ensures
        r == packs_whole(*table, *parsed),
{
    if parsed.group_by.len() <= 2 {
        return true;
    }
    let mut i: usize = 0;
    while i < parsed.group_by.len()
        invariant
            i <= parsed.group_by@.len(),
            parsed.group_by@.len() > 2,
            forall|k: int|
                0 <= k < i ==> narrow_part(
                    *table,
                    resolved(#[trigger] parsed.group_by@[k], parsed.select_items@),
                ),
        decreases parsed.group_by@.len() - i,
    {
        let e = resolve_group_expr(&parsed.group_by[i], &parsed.select_items);
        if !is_narrow_part(table, e) {
            assert(!narrow_part(
                *table,
                resolved(parsed.group_by@[i as int], parsed.select_items@),
            ));
            return false;
        }
        i = i + 1;
    }
    true
}

/// Whether a query shows its keys first and nowhere else, and these can be packed whole.
pub open spec fn int_form(t: Table, q: ParsedQuery) -> bool {
    &&& keys_lead(q)
    &&& keys_before(q, q.select_items@.len()) == q.group_by@.len()
    &&& packs_whole(t, q)
}

/// How many projections show a grouping expression.
pub fn count_key_projections(parsed: &ParsedQuery) -> (n: usize)
    ensures
        n == keys_before(*parsed, parsed.select_items@.len()),
{
    let mut n: usize = 0;
    let mut i: usize = 0;
    while i < parsed.select_items.len()
        invariant
            i <= parsed.select_items@.len(),
            n == keys_before(*parsed, i as nat),
            n <= i,
        decreases parsed.select_items@.len() - i,
    {
        if is_group_key_proj(&parsed.select_items[i], &parsed.group_by) {
            n = n + 1;
        }
        i = i + 1;
    }
    n
}

/// What grouping by integers comes to.
pub open spec fn int_answer(t: Table, q: ParsedQuery, n: nat) -> Result<
    Option<AnswerView>,
    Seq<char>,
> {
    match int_plan(t, q) {
        Err(m) => Err(m),
        Ok(false) => Ok(None),
        Ok(true) => if !int_form(t, q) {
            Ok(None)
        } else {
            match masked(t, q, n) {
                Err(m) => Err(m),
                Ok(None) => Ok(Some(AnswerView::Done(no_rows(q)))),
                Ok(Some(mask)) => match int_grouped(t, q, selected(mask)) {
                    Err(m) => Err(m),
                    Ok(rows) => Ok(Some(AnswerView::Sort(to_sort(q, rows)))),
                },
            }
        },
    }
}

/// The rows that are shown for the groups.
fn finish_groups(
    table: &Table,
    parsed: &ParsedQuery,
    keys: &Vec<u128>,
    rows: &Vec<usize>,
    fault: Option<Error>,
) -> (r: Result<Vec<Vec<Cell>>, Error>)
    requires
        table.wf(),
        1 <= parsed.group_by@.len() <= MAX_PACKED_KEYS,
        keys_before(*parsed, parsed.select_items@.len()) <= parsed.group_by@.len(),
        rows@.len() == keys@.len(),
        forall|i: int| 0 <= i < rows@.len() ==> table.covers_row((#[trigger] rows@[i]) as int),
    ensures
        match (r, rows_fault(*table, parsed.select_items@, rows@)) {
            (Ok(v), None) => {
                &&& fault is None
                &&& yields(
                    int_rows(*table, *parsed, keys@, rows@, first_seen(keys@).len()),
                    cell_rows(v@),
                )
                &&& forall|i: int|
                    0 <= i < v@.len() ==> (#[trigger] v@[i])@.len() == parsed.select_items@.len()
            },
            (Err(e), Some(m)) => e@ == m,
            (Err(e), None) => match fault {
                Some(f) => e@ == f@,
                None => fails(
                    int_rows(*table, *parsed, keys@, rows@, first_seen(keys@).len()),
                    e@,
                ),
            },
            _ => false,
        },
{
    let (index, ids) = group_ints(keys);
    let n: usize = index.len();
    let ghost seen = index@;
    proof {
        lemma_first_seen_distinct(keys@);
    }
    let states = match fill_groups::<u128>(
        table,
        &parsed.select_items,
        rows,
        &ids,
        n,
        Ghost(seen),
        Ghost(keys@),
    ) {
        Ok(s) => s,
        Err(e) => {
            return Err(e);
        },
    };
    if let Some(f) = fault {
        return Err(f);
    }
    proof {
        assert forall|g: int| 0 <= g < n implies keys@.contains(#[trigger] seen[g]) by {
            assert(seen.contains(seen[g]));
        }
    }
    let samples = first_rows::<u128>(rows, &ids, n, Ghost(seen), Ghost(keys@));
    let counts = count_groups::<u128>(n, &ids, Ghost(seen), Ghost(keys@));
    let mut out: Vec<Vec<Cell>> = Vec::new();
    let mut g: usize = 0;
    assert(cell_rows(out@) =~= Seq::<Seq<CellView>>::empty());
    while g < n
        invariant
            g <= n,
            fault is None,
            seen == first_seen(keys@),
            index@ == seen,
            n == seen.len(),
            table.wf(),
            1 <= parsed.group_by@.len() <= MAX_PACKED_KEYS,
            keys_before(*parsed, parsed.select_items@.len()) <= parsed.group_by@.len(),
            rows@.len() == keys@.len(),
            rows_fault(*table, parsed.select_items@, rows@) is None,
            forall|i: int|
                0 <= i < rows@.len() ==> table.covers_row((#[trigger] rows@[i]) as int),
            forall|g: int| 0 <= g < n ==> keys@.contains(#[trigger] seen[g]),
            states@.len() == n,
            samples@.len() == n,
            forall|g: int|
                0 <= g < n ==> #[trigger] samples@[g] == rows_with(keys@, rows@, seen[g])[0],
            counts@.len() == n,
            forall|g: int| 0 <= g < n ==> #[trigger] counts@[g] == occurrences(keys@, seen[g]),
            forall|g: int|
                0 <= g < n ==> state_views((#[trigger] states@[g])@) == states_of(
                    *table,
                    parsed.select_items@,
                    keys@,
                    rows@,
                    seen[g],
                ) && states@[g]@.len() == parsed.select_items@.len() && forall|k: int|
                    0 <= k < parsed.select_items@.len() ==> or_zero(
                        (#[trigger] states@[g]@[k])@.sum,
                    ) > i128::MIN,
            yields(int_rows(*table, *parsed, keys@, rows@, g as nat), cell_rows(out@)),
            forall|i: int|
                0 <= i < out@.len() ==> (#[trigger] out@[i])@.len() == parsed.select_items@.len(),
        decreases n - g,
    {
        let group = &states[g];
        assert(state_views(states@[g as int]@) == states_of(
            *table,
            parsed.select_items@,
            keys@,
            rows@,
            seen[g as int],
        ));
        if passes_group(&parsed.having, counts[g]) {
            let row: usize = samples[g];
            let key: u128 = index.key(g);
            proof {
                assert(keys@.contains(seen[g as int]));
                lemma_rows_with(keys@, rows@, seen[g as int]);
                let w = rows_with(keys@, rows@, seen[g as int]);
                assert(rows@.contains(w[0]));
                let i = choose|i: int| 0 <= i < rows@.len() && rows@[i] == w[0];
                assert(table.covers_row(rows@[i] as int));
            }
            match show_int_group(table, parsed, key, row, group) {
                Err(e) => {
                    proof {
                        lemma_int_rows_fault(
                            *table,
                            *parsed,
                            keys@,
                            rows@,
                            (g + 1) as nat,
                            n as nat,
                        );
                    }
                    return Err(e);
                },
                Ok(v) => {
                    let ghost sofar = out@;
                    out.push(v);
                    assert(cell_rows(out@) =~= cell_rows(sofar).push(cells(v@)));
                },
            }
        }
        g = g + 1;
    }
    Ok(out)
}

/// Groups by one to four integer expressions, if that is what the query asks for.
pub fn try_execute_grouped_int(table: &Table, parsed: &ParsedQuery, row_count: usize) -> (r: Result<
    Option<Answer>,
    Error,
>)
    requires
        table.wf(),
        table.holds_rows(row_count as int),
    ensures
        attempted(r) == int_answer(*table, *parsed, row_count as nat),
        r matches Ok(Some(a)) ==> a.wf(),
{
    match plan_int_group(table, parsed) {
        Err(e) => {
            return Err(e);
        },
        Ok(false) => {
            return Ok(None);
        },
        Ok(true) => {},
    }
    if !has_leading_keys(parsed) || count_key_projections(parsed) != parsed.group_by.len()
        || !can_pack_whole(table, parsed) {
        return Ok(None);
    }
    let mask = match build_mask(table, parsed, row_count) {
        Err(e) => {
            return Err(e);
        },
        Ok(None) => {
            return Ok(Some(Answer::Done(empty_result(parsed))));
        },
        Ok(Some(m)) => m,
    };
    let rows = covered_rows(table, &mask);
    let mut keys: Vec<u128> = Vec::new();
    let mut good: Vec<usize> = Vec::new();
    let mut fault: Option<Error> = None;
    let mut i: usize = 0;
    proof {
        assert(rows@.take(0) =~= Seq::<usize>::empty());
        assert(keys@ =~= Seq::<u128>::empty());
    }
    while i < rows.len() && fault.is_none()
        invariant
            i <= rows@.len(),
            table.wf(),
            1 <= parsed.group_by@.len() <= MAX_PACKED_KEYS,
            forall|i: int|
                0 <= i < rows@.len() ==> table.covers_row((#[trigger] rows@[i]) as int),
            keys@ == int_keyed(*table, *parsed, rows@.take(i as int)).0,
            match fault {
                Some(e) => int_keyed(*table, *parsed, rows@.take(i as int)).1 == Some(e@),
                None => int_keyed(*table, *parsed, rows@.take(i as int)).1 is None && good@.len()
                    == i,
            },
            good@.len() == keys@.len() <= i,
            good@ == rows@.take(good@.len() as int),
        decreases rows@.len() - i,
    {
        assert(rows@.take(i + 1).drop_last() =~= rows@.take(i as int));
        assert(table.covers_row(rows@[i as int] as int));
        match pack_key(table, parsed, rows[i]) {
            Err(e) => {
                fault = Some(e);
            },
            Ok(k) => {
                keys.push(k);
                good.push(rows[i]);
                assert(good@ =~= rows@.take(good@.len() as int));
            },
        }
        i = i + 1;
    }
    proof {
        if fault is Some {
            lemma_int_keyed_fault(*table, *parsed, rows@, i as int);
        } else {
            assert(rows@.take(i as int) =~= rows@);
            assert(good@ =~= rows@);
        }
        assert forall|i: int| 0 <= i < good@.len() implies table.covers_row(
            (#[trigger] good@[i]) as int,
        ) by {
            assert(good@[i] == rows@[i]);
        }
    }
    match finish_groups(table, parsed, &keys, &good, fault) {
        Err(e) => Err(e),
        Ok(out) => Ok(Some(Answer::Sort(Unsorted::of_query(parsed, headings(parsed), out)))),
    }
}

/// A part of an integer key is the number of its column, the number that a literal says, the
/// difference of two parts, or the minute of the hour of a time.
pub proof fn law_key_int(t: Table, l: Expr, r: Expr, row: int, x: i64, y: i64)
    ensures
        yields(key_int(t, l, row), x) && yields(key_int(t, r, row), y) && i64::MIN <= x - y
            <= i64::MAX ==> yields(
            key_int(
                t,
                Expr::BinaryOp {
                    left: Box::new(l),
                    op: BinaryOperator::Minus,
                    right: Box::new(r),
                },
                row,
            ),
            (x - y) as i64,
        ),
        l matches Expr::Value(Literal::Number(s)) ==> s@ == decimal(x as int) ==> yields(
            key_int(t, l, row),
            x,
        ),
        l matches Expr::Identifier(s) ==> {
            &&& forall|v: Seq<i64>|
                #[trigger] yields(column_of(t, s@), ColumnView::Int64(v)) ==> yields(
                    key_int(t, l, row),
                    v[row],
                )
            &&& forall|v: Seq<i32>|
                #[trigger] yields(column_of(t, s@), ColumnView::Int32(v)) ==> yields(
                    key_int(t, l, row),
                    v[row] as i64,
                )
            &&& forall|v: Seq<i16>|
                #[trigger] yields(column_of(t, s@), ColumnView::Int16(v)) ==> yields(
                    key_int(t, l, row),
                    v[row] as i64,
                )
            &&& forall|v: Seq<i64>|
                #[trigger] yields(column_of(t, s@), ColumnView::Timestamp(v)) && v[row] >= 0
                    ==> yields(
                    key_int(
                        t,
                        Expr::Extract { field: DateTimeField::Minute, expr: Box::new(l) },
                        row,
                    ),
                    minute_of_hour(v[row] as int) as i64,
                )
        },
{
    law_numeral_read_back(x as int);
}

} // verus!
