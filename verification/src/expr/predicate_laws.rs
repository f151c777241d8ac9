//! What expressions and conditions mean on a row.
use crate::error::yields;
use crate::expr::eval::{
    arithmetic, bool_of, bucket_start, bucket_text, case_choice, col_compared, col_int, column_of, found_in,
    function_int, int_of, is_quoted, literal_text, looks_like_date, text_of, time_part,
};
use crate::expr::like_laws::is_like;
use crate::expr::time::{date_literal, timestamp_text};
use crate::sql::ast::{
    BinaryOperator, DateTimeField, Expr, Function, FunctionArg, Literal, UnaryOperator,
};
use crate::sql::query::column_name;
use crate::storage::column::ColumnView;
use crate::storage::table::Table;
use crate::text::{decimal, law_numeral_read_back, lowercased, text_less, uppercased};
use vstd::prelude::*;
use vstd::utf8::encode_utf8;

verus! {

/// Two expressions with an operator between them.
pub open spec fn joined(left: Expr, op: BinaryOperator, right: Expr) -> Expr {
    Expr::BinaryOp { left: Box::new(left), op, right: Box::new(right) }
}

/// `AND` holds where both conditions hold, `OR` where one of them does, `NOT` where the
/// condition does not, and brackets change nothing.
pub proof fn law_connectives(t: Table, a: Expr, b: Expr, row: int, x: bool, y: bool)
    requires
        yields(bool_of(t, a, row), x),
        yields(bool_of(t, b, row), y),
    ensures
        yields(bool_of(t, joined(a, BinaryOperator::And, b), row), x && y),
        yields(bool_of(t, joined(a, BinaryOperator::Or, b), row), x || y),
        yields(
            bool_of(t, Expr::UnaryOp { op: UnaryOperator::Not, expr: Box::new(a) }, row),
            !x,
        ),
        yields(bool_of(t, Expr::Nested(Box::new(a)), row), x),
{
    reveal_with_fuel(bool_of, 2);
}

/// A condition that decides a connective by itself does so whatever the other one comes to.
pub proof fn law_short_circuit(t: Table, a: Expr, b: Expr, row: int)
    ensures
        yields(bool_of(t, a, row), false) ==> yields(
            bool_of(t, joined(a, BinaryOperator::And, b), row),
            false,
        ),
        yields(bool_of(t, a, row), true) ==> yields(
            bool_of(t, joined(a, BinaryOperator::Or, b), row),
            true,
        ),
        bool_of(t, a, row) is Err ==> bool_of(t, joined(a, BinaryOperator::And, b), row)
            == bool_of(t, a, row) && bool_of(t, joined(a, BinaryOperator::Or, b), row) == bool_of(
            t,
            a,
            row,
        ),
{
    reveal_with_fuel(bool_of, 2);
}

/// A literal truth value is that truth value, and nothing is missing.
pub proof fn law_constants(t: Table, a: Expr, row: int, b: bool)
    ensures
        yields(bool_of(t, Expr::Value(Literal::Boolean(b)), row), b),
        yields(bool_of(t, Expr::IsNull(Box::new(a)), row), false),
{
}

/// A column beside a numeral, on either side of it, is compared as a number.
pub proof fn law_number_comparison(t: Table, e: Expr, lit: Literal, row: int, x: i64, v: i64)
    requires
        column_name(e) is Some,
        column_of(t, column_name(e)->Some_0) is Ok,
        x == col_int(column_of(t, column_name(e)->Some_0)->Ok_0, row),
        lit matches Literal::Number(n) && n@ == decimal(v as int),
    ensures
        yields(bool_of(t, joined(e, BinaryOperator::Eq, Expr::Value(lit)), row), x == v),
        yields(bool_of(t, joined(e, BinaryOperator::NotEq, Expr::Value(lit)), row), x != v),
        yields(bool_of(t, joined(e, BinaryOperator::Lt, Expr::Value(lit)), row), x < v),
        yields(bool_of(t, joined(e, BinaryOperator::LtEq, Expr::Value(lit)), row), x <= v),
        yields(bool_of(t, joined(e, BinaryOperator::Gt, Expr::Value(lit)), row), x > v),
        yields(bool_of(t, joined(e, BinaryOperator::GtEq, Expr::Value(lit)), row), x >= v),
        yields(bool_of(t, joined(Expr::Value(lit), BinaryOperator::Eq, e), row), v == x),
        yields(bool_of(t, joined(Expr::Value(lit), BinaryOperator::NotEq, e), row), v != x),
        yields(bool_of(t, joined(Expr::Value(lit), BinaryOperator::Lt, e), row), v < x),
        yields(bool_of(t, joined(Expr::Value(lit), BinaryOperator::LtEq, e), row), v <= x),
        yields(bool_of(t, joined(Expr::Value(lit), BinaryOperator::Gt, e), row), v > x),
        yields(bool_of(t, joined(Expr::Value(lit), BinaryOperator::GtEq, e), row), v >= x),
{
    law_numeral_read_back(v as int);
}

/// A column beside a date in quotes, on either side of it, is compared with the day.
pub proof fn law_date_comparison(t: Table, e: Expr, lit: Literal, row: int, x: i64, d: i32)
    requires
        column_name(e) is Some,
        column_of(t, column_name(e)->Some_0) is Ok,
        x == col_int(column_of(t, column_name(e)->Some_0)->Ok_0, row),
        looks_like_date(lit),
        lit matches Literal::SingleQuotedString(s) && yields(date_literal(s@), d),
    ensures
        yields(bool_of(t, joined(e, BinaryOperator::Eq, Expr::Value(lit)), row), x == d),
        yields(bool_of(t, joined(e, BinaryOperator::NotEq, Expr::Value(lit)), row), x != d),
        yields(bool_of(t, joined(e, BinaryOperator::Lt, Expr::Value(lit)), row), x < d),
        yields(bool_of(t, joined(e, BinaryOperator::LtEq, Expr::Value(lit)), row), x <= d),
        yields(bool_of(t, joined(e, BinaryOperator::Gt, Expr::Value(lit)), row), x > d),
        yields(bool_of(t, joined(e, BinaryOperator::GtEq, Expr::Value(lit)), row), x >= d),
        yields(bool_of(t, joined(Expr::Value(lit), BinaryOperator::Eq, e), row), d == x),
        yields(bool_of(t, joined(Expr::Value(lit), BinaryOperator::NotEq, e), row), d != x),
        yields(bool_of(t, joined(Expr::Value(lit), BinaryOperator::Lt, e), row), d < x),
        yields(bool_of(t, joined(Expr::Value(lit), BinaryOperator::LtEq, e), row), d <= x),
        yields(bool_of(t, joined(Expr::Value(lit), BinaryOperator::Gt, e), row), d > x),
        yields(bool_of(t, joined(Expr::Value(lit), BinaryOperator::GtEq, e), row), d >= x),
{
}

/// A column beside another text in quotes, on either side of it, is compared as a text: what
/// comes before is less, and what neither comes before nor behind is equal.
pub proof fn law_text_comparison(
    t: Table,
    e: Expr,
    lit: Literal,
    row: int,
    x: Seq<char>,
    s: Seq<char>,
)
    requires
        column_name(e) is Some,
        column_of(t, column_name(e)->Some_0) is Ok,
        x == col_compared(column_of(t, column_name(e)->Some_0)->Ok_0, row),
        is_quoted(lit),
        !looks_like_date(lit),
        yields(literal_text(lit), s),
    ensures
        yields(bool_of(t, joined(e, BinaryOperator::Eq, Expr::Value(lit)), row), x == s),
        yields(bool_of(t, joined(e, BinaryOperator::NotEq, Expr::Value(lit)), row), x != s),
        yields(
            bool_of(t, joined(e, BinaryOperator::Lt, Expr::Value(lit)), row),
            text_less(x, s),
        ),
        yields(
            bool_of(t, joined(e, BinaryOperator::LtEq, Expr::Value(lit)), row),
            text_less(x, s) || x == s,
        ),
        yields(
            bool_of(t, joined(e, BinaryOperator::Gt, Expr::Value(lit)), row),
            text_less(s, x),
        ),
        yields(
            bool_of(t, joined(e, BinaryOperator::GtEq, Expr::Value(lit)), row),
            text_less(s, x) || s == x,
        ),
        yields(bool_of(t, joined(Expr::Value(lit), BinaryOperator::Eq, e), row), s == x),
        yields(bool_of(t, joined(Expr::Value(lit), BinaryOperator::NotEq, e), row), s != x),
        yields(
            bool_of(t, joined(Expr::Value(lit), BinaryOperator::Lt, e), row),
            text_less(s, x),
        ),
        yields(
            bool_of(t, joined(Expr::Value(lit), BinaryOperator::LtEq, e), row),
            text_less(s, x) || s == x,
        ),
        yields(
            bool_of(t, joined(Expr::Value(lit), BinaryOperator::Gt, e), row),
            text_less(x, s),
        ),
        yields(
            bool_of(t, joined(Expr::Value(lit), BinaryOperator::GtEq, e), row),
            text_less(x, s) || x == s,
        ),
{
    crate::exec::agg_topk::lemma_text_order(x, s, x);
    crate::exec::agg_topk::lemma_text_order(s, x, s);
    vstd::utf8::encode_utf8_decode_utf8(x);
    crate::text::lemma_encode_injective(x, s);
    crate::text::lemma_bytes_less_total(
        vstd::utf8::encode_utf8(x),
        vstd::utf8::encode_utf8(s),
    );
}

/// Two expressions with numbers, neither of them a literal, are compared as numbers by the
/// operators that order.
pub proof fn law_numbers_ordered(t: Table, a: Expr, b: Expr, row: int, x: i64, y: i64)
    requires
        !(a is Value) && !(b is Value),
        yields(int_of(t, a, row), x),
        yields(int_of(t, b, row), y),
    ensures
        yields(bool_of(t, joined(a, BinaryOperator::Lt, b), row), x < y),
        yields(bool_of(t, joined(a, BinaryOperator::LtEq, b), row), x <= y),
        yields(bool_of(t, joined(a, BinaryOperator::Gt, b), row), x > y),
        yields(bool_of(t, joined(a, BinaryOperator::GtEq, b), row), x >= y),
        text_of(t, a, row) is Err || text_of(t, b, row) is Err ==> yields(
            bool_of(t, joined(a, BinaryOperator::Eq, b), row),
            x == y,
        ) && yields(bool_of(t, joined(a, BinaryOperator::NotEq, b), row), x != y),
{
}

/// Two expressions with texts, neither of them a literal, are equal where the texts are.
pub proof fn law_texts_equal(t: Table, a: Expr, b: Expr, row: int, x: Seq<char>, y: Seq<char>)
    requires
        !(a is Value) && !(b is Value),
        yields(text_of(t, a, row), x),
        yields(text_of(t, b, row), y),
    ensures
        yields(bool_of(t, joined(a, BinaryOperator::Eq, b), row), x == y),
        yields(bool_of(t, joined(a, BinaryOperator::NotEq, b), row), x != y),
{
}

/// `LIKE` holds where the text is like the pattern and `NOT LIKE` where it is not; `ILIKE`
/// asks the same of the texts in lower case.
pub proof fn law_like(
    t: Table,
    e: Expr,
    lit: Literal,
    row: int,
    negated: bool,
    s: Seq<char>,
    p: Seq<char>,
)
    requires
        yields(text_of(t, e, row), s),
        yields(literal_text(lit), p),
    ensures
        yields(
            bool_of(
                t,
                Expr::Like {
                    negated,
                    expr: Box::new(e),
                    pattern: Box::new(Expr::Value(lit)),
                },
                row,
            ),
            if negated {
                !is_like(s, p)
            } else {
                is_like(s, p)
            },
        ),
        yields(
            bool_of(
                t,
                Expr::ILike {
                    negated,
                    expr: Box::new(e),
                    pattern: Box::new(Expr::Value(lit)),
                },
                row,
            ),
            if negated {
                !is_like(lowercased(s), lowercased(p))
            } else {
                is_like(lowercased(s), lowercased(p))
            },
        ),
{
}

/// `IN` holds where the number is one of those of the list, and `NOT IN` where it is none.
pub proof fn law_in_list(t: Table, e: Expr, row: int, v: i64, values: Seq<i64>)
    requires
        e is InList,
        yields(int_of(t, *e->InList_expr, row), v),
        values.len() == e->InList_list@.len(),
        forall|i: int|
            0 <= i < values.len() ==> yields(
                int_of(t, e->InList_list@[i], row),
                #[trigger] values[i],
            ),
    ensures
        yields(bool_of(t, e, row), e->InList_negated != values.contains(v)),
{
    lemma_found(t, e, row, v, values, 0);
    if values.contains(v) {
        let k = choose|k: int| 0 <= k < values.len() && values[k] == v;
        assert(0 <= k < values.len() && values[k] == v);
    }
}

proof fn lemma_found(t: Table, e: Expr, row: int, v: i64, values: Seq<i64>, i: int)
    requires
        e is InList,
        0 <= i <= values.len(),
        values.len() == e->InList_list@.len(),
        forall|i: int|
            0 <= i < values.len() ==> yields(
                int_of(t, e->InList_list@[i], row),
                #[trigger] values[i],
            ),
    ensures
        yields(
            found_in(t, e, i, v, row),
            exists|k: int| i <= k < values.len() && #[trigger] values[k] == v,
        ),
    decreases values.len() - i,
{
    if i < values.len() {
        assert(yields(int_of(t, e->InList_list@[i], row), values[i]));
        lemma_found(t, e, row, v, values, i + 1);
        if values[i] != v && exists|k: int| i <= k < values.len() && #[trigger] values[k] == v {
            let k = choose|k: int| i <= k < values.len() && #[trigger] values[k] == v;
            assert(i + 1 <= k < values.len() && values[k] == v);
        }
    }
}

/// A choice comes to the result beside the first condition that holds.
pub proof fn law_case_first(t: Table, e: Expr, row: int, i: int)
    requires
        e is Case,
        e->Case_operand is None,
        0 <= i < e->Case_conditions@.len(),
        i < e->Case_results@.len(),
        forall|k: int|
            0 <= k < i ==> yields(bool_of(t, #[trigger] e->Case_conditions@[k], row), false),
        yields(bool_of(t, e->Case_conditions@[i], row), true),
    ensures
        int_of(t, e, row) == int_of(t, e->Case_results@[i], row),
        text_of(t, e, row) == text_of(t, e->Case_results@[i], row),
{
    lemma_case_from(t, e, row, 0, i);
}

proof fn lemma_case_from(t: Table, e: Expr, row: int, k: int, i: int)
    requires
        e is Case,
        0 <= k <= i < e->Case_conditions@.len(),
        i < e->Case_results@.len(),
        forall|k: int|
            0 <= k < i ==> yields(bool_of(t, #[trigger] e->Case_conditions@[k], row), false),
        yields(bool_of(t, e->Case_conditions@[i], row), true),
    ensures
        yields(case_choice(t, e, k, row), Some(i)),
    decreases i - k,
{
    if k < i {
        assert(yields(bool_of(t, e->Case_conditions@[k], row), false));
        lemma_case_from(t, e, row, k + 1, i);
    }
}

/// A choice of which no condition holds comes to the result for the rest; without one, to
/// zero or the empty text.
pub proof fn law_case_rest(t: Table, e: Expr, row: int)
    requires
        e is Case,
        e->Case_operand is None,
        e->Case_conditions@.len() == e->Case_results@.len(),
        forall|k: int|
            0 <= k < e->Case_conditions@.len() ==> yields(
                bool_of(t, #[trigger] e->Case_conditions@[k], row),
                false,
            ),
    ensures
        e->Case_else_result matches Some(x) ==> int_of(t, e, row) == int_of(t, *x, row) && text_of(
            t,
            e,
            row,
        ) == text_of(t, *x, row),
        e->Case_else_result is None ==> yields(int_of(t, e, row), 0i64) && yields(
            text_of(t, e, row),
            Seq::<char>::empty(),
        ),
{
    lemma_case_none(t, e, row, 0);
}

proof fn lemma_case_none(t: Table, e: Expr, row: int, k: int)
    requires
        e is Case,
        0 <= k <= e->Case_conditions@.len(),
        e->Case_conditions@.len() == e->Case_results@.len(),
        forall|k: int|
            0 <= k < e->Case_conditions@.len() ==> yields(
                bool_of(t, #[trigger] e->Case_conditions@[k], row),
                false,
            ),
    ensures
        yields(case_choice(t, e, k, row), None),
    decreases e->Case_conditions@.len() - k,
{
    if k < e->Case_conditions@.len() {
        assert(yields(bool_of(t, e->Case_conditions@[k], row), false));
        lemma_case_none(t, e, row, k + 1);
    }
}

/// Sums, differences and products are exact where they fit, and else the number nearest to
/// them that fits.
pub proof fn law_arithmetic(t: Table, a: Expr, b: Expr, row: int, x: i64, y: i64, v: i64)
    requires
        yields(int_of(t, a, row), x),
        yields(int_of(t, b, row), y),
    ensures
        yields(int_of(t, joined(a, BinaryOperator::Plus, b), row), v) ==> nearest(x + y, v),
        yields(int_of(t, joined(a, BinaryOperator::Minus, b), row), v) ==> nearest(x - y, v),
        yields(int_of(t, joined(a, BinaryOperator::Multiply, b), row), v) ==> nearest(x * y, v),
        int_of(t, joined(a, BinaryOperator::Plus, b), row) is Ok,
        int_of(t, joined(a, BinaryOperator::Minus, b), row) is Ok,
        int_of(t, joined(a, BinaryOperator::Multiply, b), row) is Ok,
        x != i64::MIN ==> yields(
            int_of(t, Expr::UnaryOp { op: UnaryOperator::Minus, expr: Box::new(a) }, row),
            (0 - x) as i64,
        ),
        int_of(t, Expr::Nested(Box::new(a)), row) == int_of(t, a, row),
        int_of(t, Expr::Cast { expr: Box::new(a) }, row) == int_of(t, a, row),
{
    reveal_with_fuel(int_of, 2);
}

/// Whether a number is the one nearest to another among those that fit.
pub open spec fn nearest(exact: int, v: i64) -> bool {
    &&& i64::MIN <= exact <= i64::MAX ==> v == exact
    &&& exact > i64::MAX ==> v == i64::MAX
    &&& exact < i64::MIN ==> v == i64::MIN
}

/// A quotient, times the divisor, is as near to the dividend as the divisor allows, and not
/// beyond it; over zero it is zero.
pub proof fn law_division(x: i64, y: i64)
    requires
        !(x == i64::MIN && y == -1),
    ensures
        y == 0 ==> yields(arithmetic(BinaryOperator::Divide, x, y), 0i64),
        arithmetic(BinaryOperator::Divide, x, y) is Ok,
        y != 0 ==> ({
            let rest = x - arithmetic(BinaryOperator::Divide, x, y)->Ok_0 * y;
            &&& x >= 0 ==> 0 <= rest
            &&& x <= 0 ==> rest <= 0
            &&& y > 0 ==> -y < rest < y
            &&& y < 0 ==> y < rest < -y
        }),
{
    if y != 0 {
        let (a, d) = (x as int, y as int);
        let m = if d > 0 {
            d
        } else {
            -d
        };
        let p = if a >= 0 {
            a
        } else {
            -a
        };
        let q = p / m;
        assert(q * m <= p < q * m + m && 0 <= q <= p) by (nonlinear_arith)
            requires
                q == p / m,
                m > 0,
                p >= 0,
        ;
        let r = arithmetic(BinaryOperator::Divide, x, y);
        if a == 0 {
            assert(q == 0) by (nonlinear_arith)
                requires
                    q * m <= p,
                    p == 0,
                    q >= 0,
                    m > 0,
            ;
        }
        assert((-q) * d == -(q * d) && q * (-d) == -(q * d) && (-q) * (-d) == q * d)
            by (nonlinear_arith);
        if d == 1 || d == -1 {
            assert(q == p) by (nonlinear_arith)
                requires
                    q == p / m,
                    m == 1,
            ;
        } else {
            assert(2 * q <= p) by (nonlinear_arith)
                requires
                    q * m <= p,
                    m >= 2,
                    q >= 0,
            ;
        }
        if (a >= 0) == (d > 0) || a == 0 {
            assert(r == Ok::<i64, Seq<char>>(q as i64));
        } else {
            assert(r == Ok::<i64, Seq<char>>((-q) as i64));
        }
    }
}

/// The day, the hour and the minute of a time, with the seconds of the minute, give back its
/// seconds.
pub proof fn law_time_parts(micros: i64) -> (second: int)
    requires
        micros >= 0,
    ensures
        micros / 1_000_000 == time_part(DateTimeField::Day, micros) * 86_400 + time_part(
            DateTimeField::Hour,
            micros,
        ) * 3_600 + time_part(DateTimeField::Minute, micros) * 60 + second,
        0 <= second < 60,
        0 <= time_part(DateTimeField::Minute, micros) < 60,
        0 <= time_part(DateTimeField::Hour, micros) < 24,
        0 <= time_part(DateTimeField::Day, micros),
{
    let s = (micros / 1_000_000) as int;
    assert(micros as int / 60_000_000 == s / 60);
    assert(s / 3_600 / 24 == s / 86_400);
    assert(s / 60 / 60 == s / 3_600);
    assert(s / 3_600 % 24 == s / 3_600 - 24 * (s / 86_400));
    assert(s / 60 % 60 == s / 60 - 60 * (s / 3_600));
    s % 60
}

/// The start of the bucket of a time is a whole number of units, less than a unit away from
/// the time and not on the other side of it from zero.
pub proof fn law_bucket_start(unit: Seq<char>, micros: i64, length: int)
    requires
        lowercased(unit) == "minute"@ && length == 60 * 1_000_000 || lowercased(unit) == "hour"@
            && length == 3_600 * 1_000_000 || lowercased(unit) == "day"@ && length == 86_400
            * 1_000_000,
    ensures
        match bucket_start(unit, micros) {
            Ok(b) => {
                &&& b as int % length == 0
                &&& micros >= 0 ==> b <= micros < b + length
                &&& micros <= 0 ==> b - length < micros <= b
            },
            Err(_) => false,
        },
{
    reveal_strlit("minute");
    reveal_strlit("hour");
    reveal_strlit("day");
    assert("minute"@.len() == 6 && "hour"@.len() == 4 && "day"@.len() == 3);
    let a = if micros >= 0 {
        micros as int
    } else {
        -(micros as int)
    };
    let s = a / 1_000_000;
    assert(0 <= s <= a);
    assert(s / 60 * 60 * 1_000_000 <= a < s / 60 * 60 * 1_000_000 + 60 * 1_000_000);
    assert(s / 3_600 * 3_600 * 1_000_000 <= a < s / 3_600 * 3_600 * 1_000_000 + 3_600 * 1_000_000);
    assert(s / 86_400 * 86_400 * 1_000_000 <= a < s / 86_400 * 86_400 * 1_000_000 + 86_400
        * 1_000_000);
}

/// The text of a text column is that of the row, that of a quoted literal is what stands
/// between the quotes, and that of a calculation is its number.
pub proof fn law_texts(t: Table, e: Expr, row: int, rows: Seq<Seq<char>>, s: String, v: i64)
    ensures
        column_name(e) is Some && (e is Identifier || e is CompoundIdentifier) && yields(
            column_of(t, column_name(e)->Some_0),
            ColumnView::Utf8(rows),
        ) ==> yields(text_of(t, e, row), rows[row]),
        yields(text_of(t, Expr::Value(Literal::SingleQuotedString(s)), row), s@),
        e is BinaryOp && yields(int_of(t, e, row), v) ==> yields(
            text_of(t, e, row),
            decimal(v as int),
        ),
        text_of(t, Expr::Nested(Box::new(e)), row) == text_of(t, e, row),
{
}

/// The length of a text is the number of its bytes.
pub proof fn law_length(t: Table, f: Function, x: Expr, row: int, s: Seq<char>)
    requires
        uppercased(f.name@) == "LENGTH"@,
        f.args is List,
        f.args->args@.len() > 0,
        f.args->args@[0] == FunctionArg::Expr(x),
        yields(text_of(t, x, row), s),
        encode_utf8(s).len() <= i64::MAX,
    ensures
        int_of(t, Expr::Function(f), row) matches Ok(n) && n == encode_utf8(s).len(),
{
    assert(yields(function_int(t, f, row), encode_utf8(s).len() as i64));
}

/// A time bucket is shown as the time of its beginning seven hours behind UTC.
pub proof fn law_bucket_text(micros: i64, shown: i64)
    requires
        shown == micros - 7 * 3_600 * 1_000_000,
    ensures
        yields(bucket_text(micros), timestamp_text(shown)),
{
}

} // verus!
