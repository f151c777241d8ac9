//! Masks for the common shapes of conditions, column by column.
use crate::error::{fails, yields, Error};
use crate::exec::filter::filtered;
use crate::exec::group_fused_q41::{flatten_and, flattened, referred, DateRange};
use crate::exec::hash::{int_members, int_set_contains, int_set_insert, new_int_set};
use crate::exec::kernel::any_column;
use crate::expr::eval::{
    col_int, col_i64_at, col_text, col_utf8_at, column_of, compare_i64, compare_ints,
    is_date_string, is_quoted, literal_int, literal_text, looks_like_date, value_to_i64,
};
use crate::expr::matching::{eval_like_match, like};
use crate::expr::time::{date_literal, parse_date_lit};
use crate::sql::ast::{BinaryOperator, Expr, Literal};
use crate::sql::query::{column_name, column_ref};
use crate::storage::column::{ColumnData, ColumnView};
use crate::storage::table::Table;
use crate::storage::zones::{pruned, zone_of, Zone, ZoneIndex, ZONE_VERSION_V1};
use crate::text::str_eq;
use ahash::AHashSet;
use vstd::prelude::*;
use vstd::utf8::encode_utf8;

verus! {

/// Whether a comparison of two numbers holds; an operator that does not compare holds
/// of none.
pub open spec fn compares(op: BinaryOperator, l: int, r: int) -> bool {
    match compare_ints(op, l, r) {
        Ok(b) => b,
        Err(_) => false,
    }
}

/// Whether a comparison of two numbers holds.
pub fn compares_i64(l: i64, r: i64, op: &BinaryOperator) -> (b: bool)
    ensures
        b == compares(*op, l as int, r as int),
{
    match compare_i64(l, r, op) {
        Ok(b) => b,
        Err(_) => false,
    }
}

/// A number cut down to the width of a column of numbers.
pub open spec fn fitted(c: ColumnView, lit: i64) -> Option<i64> {
    match c {
        ColumnView::Int64(_) => Some(lit),
        ColumnView::Int32(_) => Some((lit as i32) as i64),
        ColumnView::Int16(_) => Some((lit as i16) as i64),
        _ => None,
    }
}

/// A number cut down to the width of a column of numbers.
pub fn fit_literal(col: &ColumnData, lit: i64) -> (r: Option<i64>)
    ensures
        r == fitted(col@, lit),
{
    match col {
        ColumnData::Int64(_) => Some(lit),
        ColumnData::Int32(_) => Some(#[verifier::truncate] (lit as i32) as i64),
        ColumnData::Int16(_) => Some(#[verifier::truncate] (lit as i16) as i64),
        _ => None,
    }
}

/// What a value of a column has to meet.
pub enum Test<'a> {
    /// A comparison with a number.
    Int { op: &'a BinaryOperator, lit: i64 },
    /// A comparison with a day.
    Day { op: &'a BinaryOperator, day: i32 },
    /// A comparison with a text.
    Text { op: &'a BinaryOperator, text: &'a str },
    /// A pattern.
    Like { pattern: &'a str, negated: bool },
    /// A set of numbers.
    Among { set: AHashSet<i64>, negated: bool },
}

impl<'a> Test<'a> {
    /// Whether the value in a row of a column meets the test.
    pub open spec fn passes(self, c: ColumnView, row: int) -> bool {
        match self {
            Test::Int { op, lit } => match fitted(c, lit) {
                Some(x) => compares(*op, col_int(c, row) as int, x as int),
                None => false,
            },
            Test::Day { op, day } => c is Date && compares(
                *op,
                col_int(c, row) as int,
                day as int,
            ),
            Test::Text { op, text } => c is Utf8 && match *op {
                BinaryOperator::Eq => col_text(c, row) == text@,
                BinaryOperator::NotEq => col_text(c, row) != text@,
                _ => false,
            },
            Test::Like { pattern, negated } => c is Utf8 && negated != like(
                encode_utf8(col_text(c, row)),
                encode_utf8(pattern@),
            ),
            Test::Among { set, negated } => (c is Int64 || c is Int32 || c is Int16) && negated
                != int_members(set).contains(col_int(c, row)),
        }
    }

    /// The rows of a column that meet the test.
    pub open spec fn mask(self, c: ColumnView, n: nat) -> Seq<bool> {
        Seq::new(n, |i: int| self.passes(c, i))
    }

    /// Tests the value in a row of a column.
    pub fn eval(&self, col: &ColumnData, row: usize) -> (r: bool)
        requires
            col.wf(),
            row < col@.len(),
        ensures
            r == self.passes(col@, row as int),
    {
        match self {
            Test::Int { op, lit } => match fit_literal(col, *lit) {
                Some(x) => compares_i64(col_i64_at(col, row), x, op),
                None => false,
            },
            Test::Day { op, day } => match col {
                ColumnData::Date(_) => compares_i64(col_i64_at(col, row), *day as i64, op),
                _ => false,
            },
            Test::Text { op, text } => match col {
                ColumnData::Utf8(_) => match op {
                    BinaryOperator::Eq => str_eq(col_utf8_at(col, row), text),
                    BinaryOperator::NotEq => !str_eq(col_utf8_at(col, row), text),
                    _ => false,
                },
                _ => false,
            },
            Test::Like { pattern, negated } => match col {
                ColumnData::Utf8(_) => *negated != eval_like_match(col_utf8_at(col, row), pattern),
                _ => false,
            },
            Test::Among { set, negated } => match col {
                ColumnData::Int64(_) | ColumnData::Int32(_) | ColumnData::Int16(_) => *negated
                    != int_set_contains(set, col_i64_at(col, row)),
                _ => false,
            },
        }
    }

    /// The rows of a column that meet the test.
    pub fn fill(&self, col: &ColumnData, row_count: usize) -> (mask: Vec<bool>)
        requires
            col.wf(),
            row_count <= col@.len(),
        ensures
            mask@ == self.mask(col@, row_count as nat),
    {
        let mut mask: Vec<bool> = Vec::with_capacity(row_count);
        let mut i: usize = 0;
        while i < row_count
            invariant
                i <= row_count,
                col.wf(),
                row_count <= col@.len(),
                mask@.len() == i,
                forall|k: int| 0 <= k < i ==> #[trigger] mask@[k] == self.passes(col@, k),
            decreases row_count - i,
        {
            mask.push(self.eval(col, i));
            i = i + 1;
        }
        mask
    }
}

/// What a mask that may not apply comes to.
pub open spec fn mask_outcome(r: Result<Option<Vec<bool>>, Error>) -> Result<
    Option<Seq<bool>>,
    Seq<char>,
> {
    match r {
        Err(e) => Err(e@),
        Ok(None) => Ok(None),
        Ok(Some(v)) => Ok(Some(v@)),
    }
}

/// The rows on which a comparison of a column with a literal holds.
pub open spec fn comparison_mask(t: Table, left: Expr, op: BinaryOperator, right: Expr, n: nat) -> Result<
    Option<Seq<bool>>,
    Seq<char>,
> {
    match (column_name(left), right) {
        (Some(name), Expr::Value(v)) => match column_of(t, name) {
            Err(m) => Err(m),
            Ok(c) => if looks_like_date(v) {
                match v {
                    Literal::SingleQuotedString(s) => match date_literal(s@) {
                        Err(m) => Err(m),
                        Ok(d) => Ok(
                            Some(
                                Seq::new(
                                    n,
                                    |i: int|
                                        c is Date && compares(op, col_int(c, i) as int, d as int),
                                ),
                            ),
                        ),
                    },
                    _ => Ok(None),
                }
            } else {
                match literal_int(v) {
                    Ok(x) => Ok(
                        Some(
                            Seq::new(
                                n,
                                |i: int|
                                    match fitted(c, x) {
                                        Some(y) => compares(op, col_int(c, i) as int, y as int),
                                        None => false,
                                    },
                            ),
                        ),
                    ),
                    Err(_) => if is_quoted(v) && (op is Eq || op is NotEq) {
                        Ok(
                            Some(
                                Seq::new(
                                    n,
                                    |i: int|
                                        c is Utf8 && (op is Eq) == (col_text(c, i) == literal_text(
                                            v,
                                        )->Ok_0),
                                ),
                            ),
                        )
                    } else {
                        Ok(None)
                    },
                }
            },
        },
        _ => Ok(None),
    }
}

/// The text between the quotes of a literal.
fn quoted_str(v: &Literal) -> (r: Option<&str>)
    ensures
        match r {
            Some(s) => is_quoted(*v) && yields(literal_text(*v), s@),
            None => !is_quoted(*v),
        },
{
    match v {
        Literal::SingleQuotedString(s) => Some(s.as_str()),
        Literal::DoubleQuotedString(s) => Some(s.as_str()),
        Literal::EscapedStringLiteral(s) => Some(s.as_str()),
        _ => None,
    }
}

/// The rows on which a comparison of a column with a literal holds.
pub fn try_comparison_mask(
    table: &Table,
    left: &Expr,
    op: &BinaryOperator,
    right: &Expr,
    row_count: usize,
) -> (r: Result<Option<Vec<bool>>, Error>)
    requires
        table.wf(),
        table.holds_rows(row_count as int),
    ensures
        mask_outcome(r) == comparison_mask(*table, *left, *op, *right, row_count as nat),
{
    let (name, v) = match (column_ref(left), right) {
        (Some(name), Expr::Value(v)) => (name, v),
        _ => {
            return Ok(None);
        },
    };
    let col = match any_column(table, name, row_count) {
        Ok(c) => c,
        Err(e) => {
            return Err(e);
        },
    };
    let ghost want = comparison_mask(*table, *left, *op, *right, row_count as nat);
    if is_date_string(v) {
        return match v {
            Literal::SingleQuotedString(s) => match parse_date_lit(s.as_str()) {
                Err(e) => Err(e),
                Ok(d) => {
                    let test = Test::Day { op, day: d };
                    let mask = test.fill(col, row_count);
                    assert(mask@ =~= want->Ok_0->Some_0);
                    Ok(Some(mask))
                },
            },
            _ => Ok(None),
        };
    }
    if let Ok(x) = value_to_i64(v) {
        let test = Test::Int { op, lit: x };
        let mask = test.fill(col, row_count);
        assert(mask@ =~= want->Ok_0->Some_0);
        return Ok(Some(mask));
    }
    match (quoted_str(v), op) {
        (Some(s), BinaryOperator::Eq) | (Some(s), BinaryOperator::NotEq) => {
            let test = Test::Text { op, text: s };
            let mask = test.fill(col, row_count);
            assert(mask@ =~= want->Ok_0->Some_0);
            Ok(Some(mask))
        },
        _ => Ok(None),
    }
}

/// The rows whose text matches a pattern, or does not.
pub open spec fn pattern_mask(t: Table, inner: Expr, pattern: Expr, negated: bool, n: nat) -> Option<
    Seq<bool>,
> {
    match (column_name(inner), pattern) {
        (Some(name), Expr::Value(v)) => match column_of(t, name) {
            Ok(ColumnView::Utf8(data)) => if is_quoted(v) {
                Some(
                    Seq::new(
                        n,
                        |i: int|
                            negated != like(
                                encode_utf8(data[i]),
                                encode_utf8(literal_text(v)->Ok_0),
                            ),
                    ),
                )
            } else {
                None
            },
            _ => None,
        },
        _ => None,
    }
}

/// The rows whose text matches a pattern, or does not.
pub fn try_like_mask(
    table: &Table,
    inner: &Expr,
    pattern: &Expr,
    negated: bool,
    row_count: usize,
) -> (r: Option<Vec<bool>>)
    requires
        table.wf(),
        table.holds_rows(row_count as int),
    ensures
        match r {
            Some(mask) => pattern_mask(*table, *inner, *pattern, negated, row_count as nat) == Some(
                mask@,
            ),
            None => pattern_mask(*table, *inner, *pattern, negated, row_count as nat) is None,
        },
{
    let (name, v) = match (column_ref(inner), pattern) {
        (Some(name), Expr::Value(v)) => (name, v),
        _ => {
            return None;
        },
    };
    let col = match any_column(table, name, row_count) {
        Ok(c) => c,
        Err(_) => {
            return None;
        },
    };
    match (col, quoted_str(v)) {
        (ColumnData::Utf8(_), Some(s)) => {
            let test = Test::Like { pattern: s, negated };
            let mask = test.fill(col, row_count);
            assert(mask@ =~= pattern_mask(
                *table,
                *inner,
                *pattern,
                negated,
                row_count as nat,
            )->Some_0);
            Some(mask)
        },
        _ => None,
    }
}

/// The first `k` numbers of a list; nothing where one is no literal.
pub open spec fn list_numbers(list: Seq<Expr>, k: nat) -> Result<Option<Seq<i64>>, Seq<char>>
    decreases k,
{
    if k == 0 {
        Ok(Some(Seq::empty()))
    } else {
        match list_numbers(list, (k - 1) as nat) {
            Err(m) => Err(m),
            Ok(None) => Ok(None),
            Ok(Some(front)) => match list[k - 1] {
                Expr::Value(v) => match literal_int(v) {
                    Err(m) => Err(m),
                    Ok(x) => Ok(Some(front.push(x))),
                },
                _ => Ok(None),
            },
        }
    }
}

proof fn lemma_list_numbers_stop(list: Seq<Expr>, i: nat, k: nat)
    requires
        i <= k,
        !(list_numbers(list, i) matches Ok(Some(_))),
    ensures
        list_numbers(list, k) == list_numbers(list, i),
    decreases k,
{
    if i < k {
        lemma_list_numbers_stop(list, i, (k - 1) as nat);
    }
}

proof fn lemma_list_numbers_len(list: Seq<Expr>, k: nat)
    ensures
        list_numbers(list, k) matches Ok(Some(v)) ==> v.len() == k,
    decreases k,
{
    if k > 0 {
        lemma_list_numbers_len(list, (k - 1) as nat);
    }
}

/// The numbers of a list; nothing where one is no literal.
fn read_list(list: &Vec<Expr>) -> (r: Result<Option<Vec<i64>>, Error>)
    ensures
        match r {
            Err(e) => fails(list_numbers(list@, list@.len()), e@),
            Ok(None) => yields(list_numbers(list@, list@.len()), None),
            Ok(Some(v)) => yields(list_numbers(list@, list@.len()), Some(v@)),
        },
{
    let mut v: Vec<i64> = Vec::new();
    let mut i: usize = 0;
    assert(v@ =~= Seq::<i64>::empty());
    while i < list.len()
        invariant
            i <= list@.len(),
            yields(list_numbers(list@, i as nat), Some(v@)),
        decreases list@.len() - i,
    {
        match &list[i] {
            Expr::Value(lit) => match value_to_i64(lit) {
                Err(e) => {
                    proof {
                        lemma_list_numbers_stop(list@, (i + 1) as nat, list@.len());
                    }
                    return Err(e);
                },
                Ok(x) => {
                    v.push(x);
                },
            },
            _ => {
                proof {
                    lemma_list_numbers_stop(list@, (i + 1) as nat, list@.len());
                }
                return Ok(None);
            },
        }
        i = i + 1;
    }
    Ok(Some(v))
}

/// Whether one of some numbers, cut down to a column's width, is a value.
pub open spec fn among(c: ColumnView, lits: Seq<i64>, v: i64) -> bool {
    exists|k: int| 0 <= k < lits.len() && fitted(c, #[trigger] lits[k]) == Some(v)
}

/// The rows whose number is in a list, or is not.
pub open spec fn list_mask(t: Table, e: Expr, list: Seq<Expr>, negated: bool, n: nat) -> Result<
    Option<Seq<bool>>,
    Seq<char>,
> {
    match column_name(e) {
        None => Ok(None),
        Some(name) => match column_of(t, name) {
            Err(_) => Ok(None),
            Ok(c) => match list_numbers(list, list.len()) {
                Err(m) => Err(m),
                Ok(None) => Ok(None),
                Ok(Some(lits)) => if c is Int64 || c is Int32 || c is Int16 {
                    Ok(Some(Seq::new(n, |i: int| negated != among(c, lits, col_int(c, i)))))
                } else {
                    Ok(None)
                },
            },
        },
    }
}

/// Numbers cut down to a column's width.
fn literal_set(col: &ColumnData, lits: &Vec<i64>) -> (set: AHashSet<i64>)
    ensures
        forall|v: i64| #[trigger] int_members(set).contains(v) <==> among(col@, lits@, v),
{
    let mut set = new_int_set();
    let mut i: usize = 0;
    while i < lits.len()
        invariant
            i <= lits@.len(),
            forall|v: i64| #[trigger]
                int_members(set).contains(v) <==> among(col@, lits@.take(i as int), v),
        decreases lits@.len() - i,
    {
        let ghost before = lits@.take(i as int);
        let ghost after = lits@.take(i + 1);
        let ghost held = int_members(set);
        if let Some(x) = fit_literal(col, lits[i]) {
            int_set_insert(&mut set, x);
        }
        proof {
            assert forall|v: i64| #[trigger] int_members(set).contains(v) <==> among(
                col@,
                after,
                v,
            ) by {
                assert(held.contains(v) <==> among(col@, before, v));
                if among(col@, after, v) {
                    let k = choose|k: int|
                        0 <= k < after.len() && fitted(col@, #[trigger] after[k]) == Some(v);
                    if k < i {
                        assert(before[k] == after[k]);
                    }
                }
                if among(col@, before, v) {
                    let k = choose|k: int|
                        0 <= k < before.len() && fitted(col@, #[trigger] before[k]) == Some(v);
                    assert(after[k] == before[k]);
                }
                assert(after[i as int] == lits@[i as int]);
            }
        }
        i = i + 1;
    }
    assert(lits@.take(i as int) =~= lits@);
    set
}

/// The rows whose number is in a list, or is not.
pub fn try_in_list_mask(
    table: &Table,
    expr: &Expr,
    list: &Vec<Expr>,
    negated: bool,
    row_count: usize,
) -> (r: Result<Option<Vec<bool>>, Error>)
    requires
        table.wf(),
        table.holds_rows(row_count as int),
    ensures
        mask_outcome(r) == list_mask(*table, *expr, list@, negated, row_count as nat),
{
    let name = match column_ref(expr) {
        Some(name) => name,
        None => {
            return Ok(None);
        },
    };
    let col = match any_column(table, name, row_count) {
        Ok(c) => c,
        Err(_) => {
            return Ok(None);
        },
    };
    let lits = match read_list(list) {
        Err(e) => {
            return Err(e);
        },
        Ok(None) => {
            return Ok(None);
        },
        Ok(Some(v)) => v,
    };
    match col {
        ColumnData::Int64(_) | ColumnData::Int32(_) | ColumnData::Int16(_) => {
            let test = Test::Among { set: literal_set(col, &lits), negated };
            let mask = test.fill(col, row_count);
            assert(mask@ =~= list_mask(
                *table,
                *expr,
                list@,
                negated,
                row_count as nat,
            )->Ok_0->Some_0);
            Ok(Some(mask))
        },
        _ => Ok(None),
    }
}

/// The rows that two masks both have.
pub open spec fn both(a: Seq<bool>, b: Seq<bool>) -> Seq<bool> {
    Seq::new(a.len(), |i: int| a[i] && b[i])
}

/// The rows that one of two masks has.
pub open spec fn either(a: Seq<bool>, b: Seq<bool>) -> Seq<bool> {
    Seq::new(a.len(), |i: int| a[i] || b[i])
}

/// Keeps the rows of a mask that another has too.
pub fn and_masks_inplace(a: &mut Vec<bool>, b: &Vec<bool>)
    requires
        old(a)@.len() == b@.len(),
    ensures
        final(a)@ == both(old(a)@, b@),
{
    let mut i: usize = 0;
    let n: usize = a.len();
    while i < n
        invariant
            i <= n == old(a)@.len() == b@.len(),
            a@.len() == n,
            forall|k: int| 0 <= k < i ==> #[trigger] a@[k] == (old(a)@[k] && b@[k]),
            forall|k: int| i <= k < n ==> #[trigger] a@[k] == old(a)@[k],
        decreases n - i,
    {
        if !b[i] {
            a.set(i, false);
        }
        i = i + 1;
    }
    assert(a@ =~= both(old(a)@, b@));
}

/// Adds the rows of another mask to a mask.
pub fn or_masks_inplace(a: &mut Vec<bool>, b: &Vec<bool>)
    requires
        old(a)@.len() == b@.len(),
    ensures
        final(a)@ == either(old(a)@, b@),
{
    let mut i: usize = 0;
    let n: usize = a.len();
    while i < n
        invariant
            i <= n == old(a)@.len() == b@.len(),
            a@.len() == n,
            forall|k: int| 0 <= k < i ==> #[trigger] a@[k] == (old(a)@[k] || b@[k]),
            forall|k: int| i <= k < n ==> #[trigger] a@[k] == old(a)@[k],
        decreases n - i,
    {
        if b[i] {
            a.set(i, true);
        }
        i = i + 1;
    }
    assert(a@ =~= either(old(a)@, b@));
}

/// The rows on which a condition holds, where its parts are all of the common shapes.
pub open spec fn shaped_mask(t: Table, e: Expr, n: nat) -> Result<Option<Seq<bool>>, Seq<char>>
    decreases e,
{
    match e {
        Expr::BinaryOp { left, op, right } => match op {
            BinaryOperator::And => match shaped_mask(t, *left, n) {
                Err(m) => Err(m),
                Ok(None) => Ok(None),
                Ok(Some(l)) => match shaped_mask(t, *right, n) {
                    Err(m) => Err(m),
                    Ok(None) => Ok(None),
                    Ok(Some(r)) => Ok(Some(both(l, r))),
                },
            },
            BinaryOperator::Or => match shaped_mask(t, *left, n) {
                Err(m) => Err(m),
                Ok(None) => Ok(None),
                Ok(Some(l)) => match shaped_mask(t, *right, n) {
                    Err(m) => Err(m),
                    Ok(None) => Ok(None),
                    Ok(Some(r)) => Ok(Some(either(l, r))),
                },
            },
            _ => comparison_mask(t, *left, op, *right, n),
        },
        Expr::Like { negated, expr, pattern } => Ok(pattern_mask(t, *expr, *pattern, negated, n)),
        Expr::InList { expr, list, negated } => list_mask(t, *expr, list@, negated, n),
        Expr::Nested(inner) => shaped_mask(t, *inner, n),
        _ => Ok(None),
    }
}

proof fn lemma_shaped_len(t: Table, e: Expr, n: nat)
    ensures
        shaped_mask(t, e, n) matches Ok(Some(mask)) ==> mask.len() == n,
    decreases e,
{
    match e {
        Expr::BinaryOp { left, op, right } => {
            lemma_shaped_len(t, *left, n);
            lemma_shaped_len(t, *right, n);
        },
        Expr::Nested(inner) => {
            lemma_shaped_len(t, *inner, n);
        },
        _ => {},
    }
}

/// The rows on which a condition holds, where its parts are all of the common shapes.
pub fn try_build_mask(table: &Table, expr: &Expr, row_count: usize) -> (r: Result<
    Option<Vec<bool>>,
    Error,
>)
    requires
        table.wf(),
        table.holds_rows(row_count as int),
    ensures
        mask_outcome(r) == shaped_mask(*table, *expr, row_count as nat),
        r matches Ok(Some(mask)) ==> mask@.len() == row_count,
    decreases *expr,
{
    proof {
        lemma_shaped_len(*table, *expr, row_count as nat);
    }
    match expr {
        Expr::BinaryOp { left, op, right } => match op {
            BinaryOperator::And => {
                let mut l = match try_build_mask(table, left, row_count) {
                    Err(e) => {
                        return Err(e);
                    },
                    Ok(None) => {
                        return Ok(None);
                    },
                    Ok(Some(m)) => m,
                };
                let r = match try_build_mask(table, right, row_count) {
                    Err(e) => {
                        return Err(e);
                    },
                    Ok(None) => {
                        return Ok(None);
                    },
                    Ok(Some(m)) => m,
                };
                and_masks_inplace(&mut l, &r);
                Ok(Some(l))
            },
            BinaryOperator::Or => {
                let mut l = match try_build_mask(table, left, row_count) {
                    Err(e) => {
                        return Err(e);
                    },
                    Ok(None) => {
                        return Ok(None);
                    },
                    Ok(Some(m)) => m,
                };
                let r = match try_build_mask(table, right, row_count) {
                    Err(e) => {
                        return Err(e);
                    },
                    Ok(None) => {
                        return Ok(None);
                    },
                    Ok(Some(m)) => m,
                };
                or_masks_inplace(&mut l, &r);
                Ok(Some(l))
            },
            _ => try_comparison_mask(table, left, op, right, row_count),
        },
        Expr::Like { negated, expr: inner, pattern } => Ok(
            try_like_mask(table, inner, pattern, *negated, row_count),
        ),
        Expr::InList { expr: inner, list, negated } => try_in_list_mask(
            table,
            inner,
            list,
            *negated,
            row_count,
        ),
        Expr::Nested(inner) => try_build_mask(table, inner, row_count),
        _ => Ok(None),
    }
}

/// What a comparison of a column with a literal adds to a counter and a range of dates.
pub open spec fn noted(name: Seq<char>, op: BinaryOperator, v: Literal, found: DateRange) -> DateRange {
    if name == "CounterID"@ {
        match (op, literal_int(v)) {
            (BinaryOperator::Eq, Ok(x)) => DateRange { counter: Some(x as i32), ..found },
            _ => found,
        }
    } else if name == "EventDate"@ && looks_like_date(v) {
        match v {
            Literal::SingleQuotedString(s) => match (op, date_literal(s@)) {
                (BinaryOperator::GtEq, Ok(d)) => DateRange { min_date: Some(d), ..found },
                (BinaryOperator::LtEq, Ok(d)) => DateRange { max_date: Some(d), ..found },
                _ => found,
            },
            _ => found,
        }
    } else {
        found
    }
}

/// What a condition adds to a counter and a range of dates.
pub open spec fn ranged(e: Expr, found: DateRange) -> DateRange
    decreases e,
{
    match e {
        Expr::BinaryOp { left, op: BinaryOperator::And, right } => ranged(
            *right,
            ranged(*left, found),
        ),
        Expr::BinaryOp { left, op, right } => match (column_name(*left), *right) {
            (Some(name), Expr::Value(v)) => noted(name, op, v, found),
            _ => found,
        },
        Expr::Nested(inner) => ranged(*inner, found),
        _ => found,
    }
}

/// What a condition adds to a counter and a range of dates.
pub fn collect_counter_date(expr: &Expr, found: DateRange) -> (r: DateRange)
    ensures
        r == ranged(*expr, found),
    decreases *expr,
{
    match expr {
        Expr::BinaryOp { left, op, right } => {
            if let BinaryOperator::And = op {
                let first = collect_counter_date(left, found);
                return collect_counter_date(right, first);
            }
            let (name, v) = match (column_ref(left), &**right) {
                (Some(name), Expr::Value(v)) => (name, v),
                _ => {
                    return found;
                },
            };
            if str_eq(name, "CounterID") {
                if let BinaryOperator::Eq = op {
                    if let Ok(x) = value_to_i64(v) {
                        return DateRange { counter: Some(x as i32), ..found };
                    }
                }
                found
            } else if str_eq(name, "EventDate") && is_date_string(v) {
                let day = match v {
                    Literal::SingleQuotedString(s) => parse_date_lit(s.as_str()),
                    _ => {
                        return found;
                    },
                };
                match (op, day) {
                    (BinaryOperator::GtEq, Ok(d)) => DateRange { min_date: Some(d), ..found },
                    (BinaryOperator::LtEq, Ok(d)) => DateRange { max_date: Some(d), ..found },
                    _ => found,
                }
            } else {
                found
            }
        },
        Expr::Nested(inner) => collect_counter_date(inner, found),
        _ => found,
    }
}

/// The counter and the range of dates that a condition names, if it names all three.
pub open spec fn date_range(e: Expr) -> Option<(i32, i32, i32)> {
    match ranged(e, DateRange { counter: None, min_date: None, max_date: None }) {
        DateRange { counter: Some(c), min_date: Some(a), max_date: Some(b) } => Some((c, a, b)),
        _ => None,
    }
}

/// The counter and the range of dates that a condition names, if it names all three.
pub fn extract_counter_date_range(expr: &Expr) -> (r: Option<(i32, i32, i32)>)
    ensures
        r == date_range(*expr),
{
    let start = DateRange { counter: None, min_date: None, max_date: None };
    let found = collect_counter_date(expr, start);
    match (found.counter, found.min_date, found.max_date) {
        (Some(c), Some(a), Some(b)) => Some((c, a, b)),
        _ => None,
    }
}

/// Whether a condition is a test that can be taken row by row with others.
pub open spec fn fusible(t: Table, e: Expr) -> bool {
    match e {
        Expr::Like { expr, pattern, .. } => match (column_name(*expr), *pattern) {
            (Some(name), Expr::Value(v)) => is_quoted(v) && match column_of(t, name) {
                Ok(c) => c is Utf8,
                Err(_) => false,
            },
            _ => false,
        },
        Expr::BinaryOp { left, op: BinaryOperator::NotEq, right } => match (
            column_name(*left),
            *right,
        ) {
            (Some(name), Expr::Value(v)) => match column_of(t, name) {
                Err(_) => false,
                Ok(c) => if is_quoted(v) {
                    literal_text(v)->Ok_0.len() == 0 && c is Utf8
                } else {
                    literal_int(v) == Ok::<i64, Seq<char>>(0) && fitted(c, 0) is Some
                },
            },
            _ => false,
        },
        _ => false,
    }
}

/// Whether such a condition holds on a row.
pub open spec fn fused_holds(t: Table, e: Expr, row: int) -> bool {
    match e {
        Expr::Like { negated, expr, pattern } => negated != like(
            encode_utf8(col_text(t.col(column_name(*expr)->Some_0), row)),
            encode_utf8(literal_text(pattern->Value_0)->Ok_0),
        ),
        Expr::BinaryOp { left, op, right } => if is_quoted(right->Value_0) {
            col_text(t.col(column_name(*left)->Some_0), row).len() > 0
        } else {
            col_int(t.col(column_name(*left)->Some_0), row) != 0
        },
        _ => false,
    }
}

/// A test of a column that is in memory.
pub struct FusedPred<'a> {
    pub col: &'a ColumnData,
    pub test: Test<'a>,
}

/// The test that a condition makes, if it can be taken row by row with others.
pub fn compile_fused_pred<'a>(table: &'a Table, expr: &'a Expr, row_count: usize) -> (r: Option<
    FusedPred<'a>,
>)
    requires
        table.wf(),
        table.holds_rows(row_count as int),
    ensures
        r is Some == fusible(*table, *expr),
        r matches Some(p) ==> p.col.wf() && row_count <= p.col@.len() && forall|row: int|
            #![trigger p.test.passes(p.col@, row)]
            p.test.passes(p.col@, row) == fused_holds(*table, *expr, row),
{
    match expr {
        Expr::Like { negated, expr: inner, pattern } => {
            let (name, v) = match (column_ref(inner), &**pattern) {
                (Some(name), Expr::Value(v)) => (name, v),
                _ => {
                    return None;
                },
            };
            match (any_column(table, name, row_count), quoted_str(v)) {
                (Ok(col), Some(s)) => match col {
                    ColumnData::Utf8(_) => Some(
                        FusedPred { col, test: Test::Like { pattern: s, negated: *negated } },
                    ),
                    _ => None,
                },
                _ => None,
            }
        },
        Expr::BinaryOp { left, op, right } => {
            if let BinaryOperator::NotEq = op {
            } else {
                return None;
            }
            let (name, v) = match (column_ref(left), &**right) {
                (Some(name), Expr::Value(v)) => (name, v),
                _ => {
                    return None;
                },
            };
            let col = match any_column(table, name, row_count) {
                Ok(c) => c,
                Err(_) => {
                    return None;
                },
            };
            match quoted_str(v) {
                Some(s) => {
                    if !s.is_empty() {
                        return None;
                    }
                    proof {
                        assert forall|row: int| #[trigger]
                            col_text(col@, row).len() == 0 implies col_text(col@, row) == s@ by {
                            assert(col_text(col@, row) =~= s@);
                        }
                    }
                    match col {
                        ColumnData::Utf8(_) => Some(
                            FusedPred { col, test: Test::Text { op, text: s } },
                        ),
                        _ => None,
                    }
                },
                None => match value_to_i64(v) {
                    Ok(x) => if x == 0 && fit_literal(col, 0).is_some() {
                        assert(fitted(col@, 0) == Some(0i64));
                        Some(FusedPred { col, test: Test::Int { op, lit: 0 } })
                    } else {
                        None
                    },
                    Err(_) => None,
                },
            }
        },
        _ => None,
    }
}

/// Whether a part of a condition names a counter and a range of dates.
pub open spec fn some_range(parts: Seq<Expr>) -> bool {
    exists|i: int| 0 <= i < parts.len() && date_range(#[trigger] parts[i]) is Some
}

/// Whether all parts of a condition hold on a row.
pub open spec fn all_hold(t: Table, parts: Seq<Expr>, row: int) -> bool {
    forall|k: int| 0 <= k < parts.len() ==> fused_holds(t, #[trigger] parts[k], row)
}

/// The rows on which a condition of several tests holds.
pub open spec fn fused_mask(t: Table, e: Expr, n: nat) -> Option<Seq<bool>> {
    let parts = flattened(e);
    if parts.len() < 2 || some_range(parts) || exists|i: int|
        0 <= i < parts.len() && !fusible(t, #[trigger] parts[i]) {
        None
    } else {
        Some(Seq::new(n, |i: int| all_hold(t, parts, i)))
    }
}

/// Tests one row.
fn eval_all(
    preds: &Vec<FusedPred<'_>>,
    row: usize,
    Ghost(t): Ghost<Table>,
    Ghost(parts): Ghost<Seq<Expr>>,
) -> (r: bool)
    requires
        preds@.len() == parts.len(),
        forall|k: int|
            0 <= k < preds@.len() ==> (#[trigger] preds@[k]).col.wf() && row < preds@[k].col@.len()
                && preds@[k].test.passes(preds@[k].col@, row as int) == fused_holds(
                t,
                parts[k],
                row as int,
            ),
    ensures
        r == all_hold(t, parts, row as int),
{
    let mut i: usize = 0;
    while i < preds.len()
        invariant
            i <= preds@.len() == parts.len(),
            forall|k: int|
                0 <= k < preds@.len() ==> (#[trigger] preds@[k]).col.wf() && row
                    < preds@[k].col@.len() && preds@[k].test.passes(preds@[k].col@, row as int)
                    == fused_holds(t, parts[k], row as int),
            forall|k: int| 0 <= k < i ==> fused_holds(t, #[trigger] parts[k], row as int),
        decreases preds@.len() - i,
    {
        let p = &preds[i];
        if !p.test.eval(p.col, row) {
            assert(!fused_holds(t, parts[i as int], row as int));
            return false;
        }
        i = i + 1;
    }
    true
}

/// The rows on which a condition of several tests holds.
pub fn try_build_mask_and_fused(table: &Table, expr: &Expr, row_count: usize) -> (r: Option<
    Vec<bool>,
>)
    requires
        table.wf(),
        table.holds_rows(row_count as int),
    ensures
        match r {
            Some(mask) => fused_mask(*table, *expr, row_count as nat) == Some(mask@),
            None => fused_mask(*table, *expr, row_count as nat) is None,
        },
{
    let parts = flatten_and(expr);
    let ghost all = flattened(*expr);
    if parts.len() < 2 {
        return None;
    }
    let mut preds: Vec<FusedPred<'_>> = Vec::with_capacity(parts.len());
    let mut i: usize = 0;
    while i < parts.len()
        invariant
            i <= parts@.len(),
            referred(parts@) == all,
            all == flattened(*expr),
            forall|k: int| 0 <= k < i ==> date_range(#[trigger] all[k]) is None,
        decreases parts@.len() - i,
    {
        assert(all[i as int] == *parts@[i as int]);
        if extract_counter_date_range(parts[i]).is_some() {
            assert(date_range(all[i as int]) is Some);
            return None;
        }
        i = i + 1;
    }
    let mut j: usize = 0;
    while j < parts.len()
        invariant
            j <= parts@.len(),
            referred(parts@) == all,
            all == flattened(*expr),
            table.wf(),
            table.holds_rows(row_count as int),
            preds@.len() == j,
            forall|k: int| 0 <= k < j ==> fusible(*table, #[trigger] all[k]),
            forall|k: int|
                0 <= k < j ==> (#[trigger] preds@[k]).col.wf() && row_count <= preds@[k].col@.len(),
            forall|k: int, row: int|
                0 <= k < j ==> #[trigger] preds@[k].test.passes(preds@[k].col@, row)
                    == fused_holds(*table, all[k], row),
        decreases parts@.len() - j,
    {
        assert(all[j as int] == *parts@[j as int]);
        match compile_fused_pred(table, parts[j], row_count) {
            None => {
                assert(!fusible(*table, all[j as int]));
                return None;
            },
            Some(p) => {
                preds.push(p);
            },
        }
        j = j + 1;
    }
    let mut mask: Vec<bool> = Vec::with_capacity(row_count);
    let mut row: usize = 0;
    while row < row_count
        invariant
            row <= row_count,
            preds@.len() == all.len(),
            forall|k: int|
                0 <= k < preds@.len() ==> (#[trigger] preds@[k]).col.wf() && row_count
                    <= preds@[k].col@.len(),
            forall|k: int, row: int|
                0 <= k < preds@.len() ==> #[trigger] preds@[k].test.passes(preds@[k].col@, row)
                    == fused_holds(*table, all[k], row),
            mask@.len() == row,
            forall|k: int| 0 <= k < row ==> #[trigger] mask@[k] == all_hold(*table, all, k),
        decreases row_count - row,
    {
        mask.push(eval_all(&preds, row, Ghost(*table), Ghost(all)));
        row = row + 1;
    }
    assert(mask@ =~= Seq::new(row_count as nat, |i: int| all_hold(*table, all, i)));
    Some(mask)
}

/// Whether a condition asks for a nonzero advertising engine.
pub open spec fn adv_condition(e: Expr) -> bool
    decreases e,
{
    match e {
        Expr::BinaryOp { left, op, right } => match op {
            BinaryOperator::NotEq => column_name(*left) == Some("AdvEngineID"@) && match *right {
                Expr::Value(Literal::Number(n)) => n@ == "0"@,
                _ => false,
            },
            BinaryOperator::And => adv_condition(*left) || adv_condition(*right),
            _ => false,
        },
        Expr::Nested(inner) => adv_condition(*inner),
        _ => false,
    }
}

/// Whether a condition asks for a nonzero advertising engine.
pub fn is_adv_ne_zero(expr: &Expr) -> (r: bool)
    ensures
        r == adv_condition(*expr),
    decreases *expr,
{
    match expr {
        Expr::BinaryOp { left, op, right } => match op {
            BinaryOperator::NotEq => {
                let named = match column_ref(left) {
                    Some(name) => str_eq(name, "AdvEngineID"),
                    None => false,
                };
                let zero = match &**right {
                    Expr::Value(Literal::Number(n)) => str_eq(n.as_str(), "0"),
                    _ => false,
                };
                named && zero
            },
            BinaryOperator::And => is_adv_ne_zero(left) || is_adv_ne_zero(right),
            _ => false,
        },
        Expr::Nested(inner) => is_adv_ne_zero(inner),
        _ => false,
    }
}

/// A mask without the rows of zones that a condition on the counter and the date rules
/// out.
pub open spec fn range_pruned(t: Table, e: Expr, mask: Seq<bool>) -> Seq<bool> {
    match (t.index(), date_range(e)) {
        (Some(ix), Some((c, a, b))) => pruned(mask, ix.zones@, |z: Zone| z.may_match(c, a, b)),
        _ => mask,
    }
}

/// A mask without the rows of zones that a condition on the advertising engine rules
/// out.
pub open spec fn adv_pruned(t: Table, e: Expr, mask: Seq<bool>) -> Seq<bool> {
    match t.index() {
        Some(ix) => if adv_condition(e) && ix.version >= ZONE_VERSION_V1 {
            pruned(mask, ix.zones@, |z: Zone| z.may_have_adv())
        } else {
            mask
        },
        None => mask,
    }
}

/// Clears the rows of zones that a condition on the counter and the date rules out.
pub fn try_zone_prune(table: &Table, expr: &Expr, mask: &mut Vec<bool>)
    ensures
        final(mask)@ == range_pruned(*table, *expr, old(mask)@),
{
    if let Some(zones) = table.zones() {
        if let Some((counter, min_date, max_date)) = extract_counter_date_range(expr) {
            zones.apply_dashboard_prune(mask, counter, min_date, max_date);
        }
    }
}

/// Clears the rows of zones that a condition on the advertising engine rules out.
pub fn try_adv_zone_prune(table: &Table, expr: &Expr, mask: &mut Vec<bool>)
    ensures
        final(mask)@ == adv_pruned(*table, *expr, old(mask)@),
{
    if is_adv_ne_zero(expr) {
        if let Some(zones) = table.zones() {
            zones.apply_adv_ne_zero_prune(mask);
        }
    }
}

/// The first range that a part of a condition names.
pub open spec fn first_range(parts: Seq<Expr>) -> Option<(i32, i32, i32)>
    decreases parts.len(),
{
    if parts.len() == 0 {
        None
    } else {
        match first_range(parts.drop_last()) {
            Some(r) => Some(r),
            None => date_range(parts.last()),
        }
    }
}

/// The first range that a part of a condition names.
fn find_range(parts: &Vec<&Expr>) -> (r: Option<(i32, i32, i32)>)
    ensures
        r == first_range(referred(parts@)),
{
    let ghost all = referred(parts@);
    let mut found: Option<(i32, i32, i32)> = None;
    let mut i: usize = 0;
    assert(all.take(0) =~= Seq::<Expr>::empty());
    while i < parts.len()
        invariant
            i <= parts@.len(),
            all == referred(parts@),
            found == first_range(all.take(i as int)),
        decreases parts@.len() - i,
    {
        assert(all.take(i + 1).drop_last() =~= all.take(i as int));
        assert(all[i as int] == *parts@[i as int]);
        if found.is_none() {
            found = extract_counter_date_range(parts[i]);
        }
        i = i + 1;
    }
    assert(all.take(i as int) =~= all);
    found
}

/// The rows of zones that may hold a counter within a range of dates.
pub open spec fn zone_rows(ix: ZoneIndex, n: nat, c: i32, a: i32, b: i32) -> Seq<bool> {
    Seq::new(
        n,
        |r: int| zone_of(r) < ix.zones@.len() && ix.zones@[zone_of(r)].may_match(c, a, b),
    )
}

/// The rows of a mask on which the first `k` parts of a condition hold that name no
/// range.
pub open spec fn parts_mask(t: Table, parts: Seq<Expr>, start: Seq<bool>, k: nat) -> Result<
    Option<Seq<bool>>,
    Seq<char>,
>
    decreases k,
{
    if k == 0 {
        Ok(Some(start))
    } else {
        match parts_mask(t, parts, start, (k - 1) as nat) {
            Err(m) => Err(m),
            Ok(None) => Ok(None),
            Ok(Some(mask)) => if date_range(parts[k - 1]) is Some {
                Ok(Some(mask))
            } else {
                match shaped_mask(t, parts[k - 1], start.len()) {
                    Err(m) => Err(m),
                    Ok(None) => Ok(None),
                    Ok(Some(sub)) => Ok(Some(both(mask, sub))),
                }
            },
        }
    }
}

proof fn lemma_parts_mask_stop(t: Table, parts: Seq<Expr>, start: Seq<bool>, i: nat, k: nat)
    requires
        i <= k,
        !(parts_mask(t, parts, start, i) matches Ok(Some(_))),
    ensures
        parts_mask(t, parts, start, k) == parts_mask(t, parts, start, i),
    decreases k,
{
    if i < k {
        lemma_parts_mask_stop(t, parts, start, i, (k - 1) as nat);
    }
}

/// The rows on which a condition holds, from the zones that may hold its counter within
/// its range of dates.
pub open spec fn sparse_mask(t: Table, e: Expr, n: nat) -> Result<Option<Seq<bool>>, Seq<char>> {
    match (t.index(), first_range(flattened(e))) {
        (Some(ix), Some((c, a, b))) => match parts_mask(
            t,
            flattened(e),
            zone_rows(ix, n, c, a, b),
            flattened(e).len(),
        ) {
            Err(m) => Err(m),
            Ok(None) => Ok(None),
            Ok(Some(mask)) => Ok(Some(adv_pruned(t, e, mask))),
        },
        _ => Ok(None),
    }
}

/// The rows on which a condition holds, from the zones that may hold its counter within
/// its range of dates.
pub fn try_build_mask_dashboard_sparse(table: &Table, expr: &Expr, row_count: usize) -> (r: Result<
    Option<Vec<bool>>,
    Error,
>)
    requires
        table.wf(),
        table.holds_rows(row_count as int),
    ensures
        mask_outcome(r) == sparse_mask(*table, *expr, row_count as nat),
{
    let zones = match table.zones() {
        Some(z) => z,
        None => {
            return Ok(None);
        },
    };
    let parts = flatten_and(expr);
    let ghost all = flattened(*expr);
    let (counter, min_date, max_date) = match find_range(&parts) {
        Some(r) => r,
        None => {
            return Ok(None);
        },
    };
    let mut mask = zones.build_sparse_dashboard_mask(row_count, counter, min_date, max_date);
    let ghost start = zone_rows(*zones, row_count as nat, counter, min_date, max_date);
    assert(mask@ =~= start);
    let mut i: usize = 0;
    while i < parts.len()
        invariant
            i <= parts@.len(),
            all == referred(parts@),
            all == flattened(*expr),
            table.wf(),
            table.holds_rows(row_count as int),
            table.index() == Some(*zones),
            first_range(all) == Some((counter, min_date, max_date)),
            start == zone_rows(*zones, row_count as nat, counter, min_date, max_date),
            mask@.len() == row_count,
            yields(parts_mask(*table, all, start, i as nat), Some(mask@)),
        decreases parts@.len() - i,
    {
        assert(all[i as int] == *parts@[i as int]);
        if extract_counter_date_range(parts[i]).is_none() {
            match try_build_mask(table, parts[i], row_count) {
                Err(e) => {
                    proof {
                        lemma_parts_mask_stop(*table, all, start, (i + 1) as nat, all.len());
                    }
                    return Err(e);
                },
                Ok(None) => {
                    proof {
                        lemma_parts_mask_stop(*table, all, start, (i + 1) as nat, all.len());
                    }
                    return Ok(None);
                },
                Ok(Some(sub)) => {
                    and_masks_inplace(&mut mask, &sub);
                },
            }
        }
        i = i + 1;
    }
    try_adv_zone_prune(table, expr, &mut mask);
    Ok(Some(mask))
}

/// The rows on which a condition holds, by the quickest way that applies, without those
/// that the zones rule out.
pub open spec fn quick_mask(t: Table, condition: Option<Expr>, n: nat) -> Result<
    Seq<bool>,
    Seq<char>,
> {
    match condition {
        None => filtered(t, None, n),
        Some(e) => match sparse_mask(t, e, n) {
            Err(m) => Err(m),
            Ok(Some(mask)) => Ok(mask),
            Ok(None) => match dense_mask(t, e, n) {
                Err(m) => Err(m),
                Ok(mask) => Ok(adv_pruned(t, e, range_pruned(t, e, mask))),
            },
        },
    }
}

/// The rows on which a condition holds, by the quickest way that goes through all rows.
pub open spec fn dense_mask(t: Table, e: Expr, n: nat) -> Result<Seq<bool>, Seq<char>> {
    match fused_mask(t, e, n) {
        Some(mask) => Ok(mask),
        None => match shaped_mask(t, e, n) {
            Err(m) => Err(m),
            Ok(Some(mask)) => Ok(mask),
            Ok(None) => filtered(t, Some(e), n),
        },
    }
}

/// The rows on which a condition holds, by the quickest way that goes through all rows.
fn build_dense_mask(table: &Table, where_expr: &Option<Expr>, expr: &Expr, row_count: usize) -> (r:
    Result<Vec<bool>, Error>)
    requires
        table.wf(),
        table.holds_rows(row_count as int),
        *where_expr == Some(*expr),
    ensures
        match r {
            Ok(mask) => yields(dense_mask(*table, *expr, row_count as nat), mask@),
            Err(e) => fails(dense_mask(*table, *expr, row_count as nat), e@),
        },
{
    if let Some(mask) = try_build_mask_and_fused(table, expr, row_count) {
        return Ok(mask);
    }
    match try_build_mask(table, expr, row_count) {
        Err(e) => {
            return Err(e);
        },
        Ok(Some(mask)) => {
            return Ok(mask);
        },
        Ok(None) => {},
    }
    crate::exec::filter::build_filter_mask(table, where_expr, row_count)
}

/// The rows on which a condition holds, by the quickest way that applies, without those
/// that the zones rule out.
pub fn build_filter_mask(table: &Table, where_expr: &Option<Expr>, row_count: usize) -> (r: Result<
    Vec<bool>,
    Error,
>)
    requires
        table.wf(),
        table.holds_rows(row_count as int),
    ensures
        match r {
            Ok(mask) => yields(quick_mask(*table, *where_expr, row_count as nat), mask@),
            Err(e) => fails(quick_mask(*table, *where_expr, row_count as nat), e@),
        },
{
    let expr = match where_expr {
        None => {
            return crate::exec::filter::build_filter_mask(table, where_expr, row_count);
        },
        Some(e) => e,
    };
    match try_build_mask_dashboard_sparse(table, expr, row_count) {
        Err(e) => {
            return Err(e);
        },
        Ok(Some(mask)) => {
            return Ok(mask);
        },
        Ok(None) => {},
    }
    let mut mask = match build_dense_mask(table, where_expr, expr, row_count) {
        Ok(m) => m,
        Err(e) => {
            return Err(e);
        },
    };
    try_zone_prune(table, expr, &mut mask);
    try_adv_zone_prune(table, expr, &mut mask);
    Ok(mask)
}

} // verus!
