//! Evaluation of expressions on the rows of a table.
use crate::error::{outcome, text_outcome, Error};
use crate::expr::matching::{
    asks_host, eval_like_match, host_of, like, pattern_asks_host, referer_host, regex_replaced,
    regexp_replace,
};
use crate::expr::time::{
    date_literal, event_time_minute_of_hour, format_date_days, format_timestamp_micros,
    format_timestamp_micros_trunc, minute_of_hour, parse_date_lit, timestamp_text, ymd_text,
    BUCKET_ZONE_MICROS, MAX_DAY, MIN_DAY,
};
use crate::sql::ast::{
    BinaryOperator, DateTimeField, Expr, Function, FunctionArg, FunctionArguments, Literal,
    UnaryOperator,
};
use crate::sql::query::{column_name, column_ref};
use crate::storage::column::{ColumnData, ColumnView};
use crate::storage::table::Table;
use crate::text::{
    decimal, int_text, lowercased, parse_i64, parsed_i64, str_eq, str_less, text_less, to_lowercase,
    to_uppercase, uppercased,
};
use vstd::prelude::*;
use vstd::utf8::encode_utf8;

verus! {

/// The number nearest to `v` that fits.
pub open spec fn clamped(v: int) -> i64 {
    if v < i64::MIN {
        i64::MIN
    } else if v > i64::MAX {
        i64::MAX
    } else {
        v as i64
    }
}

fn clamp(v: i128) -> (r: i64)
    ensures
        r == clamped(v as int),
{
    if v < i64::MIN as i128 {
        i64::MIN
    } else if v > i64::MAX as i128 {
        i64::MAX
    } else {
        v as i64
    }
}

/// What is reported where a number leaves its range.
pub open spec fn overflow_text() -> Seq<char> {
    "arithmetic overflow"@
}

/// Arithmetic on two numbers: sums and products stay within range, division
/// by zero is zero.
pub open spec fn arithmetic(op: BinaryOperator, l: i64, r: i64) -> Result<i64, Seq<char>> {
    match op {
        BinaryOperator::Plus => Ok(clamped(l + r)),
        BinaryOperator::Minus => Ok(clamped(l - r)),
        BinaryOperator::Multiply => Ok(clamped(l * r)),
        BinaryOperator::Divide => if r == 0 {
            Ok(0)
        } else {
            match l.checked_div(r) {
                Some(q) => Ok(q),
                None => Err(overflow_text()),
            }
        },
        _ => Err("unsupported numeric op"@),
    }
}

fn apply_arithmetic(op: &BinaryOperator, l: i64, r: i64) -> (v: Result<i64, Error>)
    ensures
        outcome(v) == arithmetic(*op, l, r),
{
    match op {
        BinaryOperator::Plus => Ok(clamp(l as i128 + r as i128)),
        BinaryOperator::Minus => Ok(clamp(l as i128 - r as i128)),
        BinaryOperator::Multiply => {
            proof {
                let a = l as int;
                let b = r as int;
                assert(-0x4000_0000_0000_0000_0000_0000_0000_0000 <= a * b
                    <= 0x4000_0000_0000_0000_0000_0000_0000_0000) by (nonlinear_arith)
                    requires
                        -0x8000_0000_0000_0000 <= a <= 0x7fff_ffff_ffff_ffff,
                        -0x8000_0000_0000_0000 <= b <= 0x7fff_ffff_ffff_ffff,
                ;
            }
            Ok(clamp(l as i128 * r as i128))
        },
        BinaryOperator::Divide => if r == 0 {
            Ok(0)
        } else {
            match l.checked_div(r) {
                Some(q) => Ok(q),
                None => Err(Error::msg("arithmetic overflow")),
            }
        },
        _ => Err(Error::msg("unsupported numeric op")),
    }
}

/// A comparison of two numbers.
pub open spec fn compare_ints(op: BinaryOperator, l: int, r: int) -> Result<bool, Seq<char>> {
    match op {
        BinaryOperator::Eq => Ok(l == r),
        BinaryOperator::NotEq => Ok(l != r),
        BinaryOperator::Gt => Ok(l > r),
        BinaryOperator::GtEq => Ok(l >= r),
        BinaryOperator::Lt => Ok(l < r),
        BinaryOperator::LtEq => Ok(l <= r),
        _ => Err("unsupported compare op"@),
    }
}

/// A comparison of two texts.
pub open spec fn compare_texts(op: BinaryOperator, l: Seq<char>, r: Seq<char>) -> Result<
    bool,
    Seq<char>,
> {
    match op {
        BinaryOperator::Eq => Ok(l == r),
        BinaryOperator::NotEq => Ok(l != r),
        BinaryOperator::Gt => Ok(text_less(r, l)),
        BinaryOperator::GtEq => Ok(!text_less(l, r)),
        BinaryOperator::Lt => Ok(text_less(l, r)),
        BinaryOperator::LtEq => Ok(!text_less(r, l)),
        _ => Err("unsupported compare op"@),
    }
}

/// Compares two numbers.
pub fn compare_i64(l: i64, r: i64, op: &BinaryOperator) -> (v: Result<bool, Error>)
    ensures
        outcome(v) == compare_ints(*op, l as int, r as int),
{
    match op {
        BinaryOperator::Eq => Ok(l == r),
        BinaryOperator::NotEq => Ok(l != r),
        BinaryOperator::Gt => Ok(l > r),
        BinaryOperator::GtEq => Ok(l >= r),
        BinaryOperator::Lt => Ok(l < r),
        BinaryOperator::LtEq => Ok(l <= r),
        _ => Err(Error::msg("unsupported compare op")),
    }
}

/// Compares two texts.
pub fn compare_str(l: &str, r: &str, op: &BinaryOperator) -> (v: Result<bool, Error>)
    ensures
        outcome(v) == compare_texts(*op, l@, r@),
{
    match op {
        BinaryOperator::Eq => Ok(str_eq(l, r)),
        BinaryOperator::NotEq => Ok(!str_eq(l, r)),
        BinaryOperator::Gt => Ok(str_less(r, l)),
        BinaryOperator::GtEq => Ok(!str_less(l, r)),
        BinaryOperator::Lt => Ok(str_less(l, r)),
        BinaryOperator::LtEq => Ok(!str_less(r, l)),
        _ => Err(Error::msg("unsupported compare op")),
    }
}

/// Whether an operator compares.
pub open spec fn is_comparison(op: BinaryOperator) -> bool {
    op is Eq || op is NotEq || op is Gt || op is GtEq || op is Lt || op is LtEq
}

/// The number that a literal stands for.
pub open spec fn literal_int(v: Literal) -> Result<i64, Seq<char>> {
    match v {
        Literal::Number(n) => match parsed_i64(n@) {
            Some(x) => Ok(x),
            None => Err("bad number "@ + n@),
        },
        _ => Err("expected number"@),
    }
}

/// The number that a literal stands for.
pub fn value_to_i64(v: &Literal) -> (r: Result<i64, Error>)
    ensures
        outcome(r) == literal_int(*v),
{
    match v {
        Literal::Number(n) => match parse_i64(n.as_str()) {
            Some(x) => Ok(x),
            None => {
                let mut m = String::from_str("bad number ");
                m.append(n.as_str());
                Err(Error::Msg(m))
            },
        },
        _ => Err(Error::msg("expected number")),
    }
}

/// The text that a literal stands for; a number is its numeral.
pub open spec fn literal_text(v: Literal) -> Result<Seq<char>, Seq<char>> {
    match v {
        Literal::SingleQuotedString(s) => Ok(s@),
        Literal::DoubleQuotedString(s) => Ok(s@),
        Literal::EscapedStringLiteral(s) => Ok(s@),
        Literal::Number(n) => Ok(n@),
        _ => Err("expected string literal"@),
    }
}

/// The text that a literal stands for; a number is its numeral.
pub fn value_to_string(v: &Literal) -> (r: Result<String, Error>)
    ensures
        text_outcome(r) == literal_text(*v),
{
    match v {
        Literal::SingleQuotedString(s) => Ok(s.clone()),
        Literal::DoubleQuotedString(s) => Ok(s.clone()),
        Literal::EscapedStringLiteral(s) => Ok(s.clone()),
        Literal::Number(n) => Ok(n.clone()),
        _ => Err(Error::msg("expected string literal")),
    }
}

/// Whether a literal is quoted.
pub open spec fn is_quoted(v: Literal) -> bool {
    v is SingleQuotedString || v is DoubleQuotedString || v is EscapedStringLiteral
}

/// Tests for a quoted literal.
pub fn is_string_value(v: &Literal) -> (r: bool)
    ensures
        r == is_quoted(*v),
{
    match v {
        Literal::SingleQuotedString(_) => true,
        Literal::DoubleQuotedString(_) => true,
        Literal::EscapedStringLiteral(_) => true,
        _ => false,
    }
}

/// Whether a literal looks like a date: ten bytes with a dash behind the fourth.
pub open spec fn looks_like_date(v: Literal) -> bool {
    match v {
        Literal::SingleQuotedString(s) => encode_utf8(s@).len() == 10 && encode_utf8(s@)[4] == 45,
        _ => false,
    }
}

/// Tests for a literal that looks like a date.
pub fn is_date_string(v: &Literal) -> (r: bool)
    ensures
        r == looks_like_date(*v),
{
    match v {
        Literal::SingleQuotedString(s) => {
            let b = s.as_str().as_bytes();
            b.len() == 10 && b[4] == 45
        },
        _ => false,
    }
}

/// The number in one row of a column; zero in a text column.
pub open spec fn col_int(c: ColumnView, row: int) -> i64 {
    match c {
        ColumnView::Int64(v) => v[row],
        ColumnView::Int32(v) => v[row] as i64,
        ColumnView::Int16(v) => v[row] as i64,
        ColumnView::Date(v) => v[row] as i64,
        ColumnView::Timestamp(v) => v[row],
        ColumnView::Utf8(_) => 0,
    }
}

/// The text in one row of a column; empty in a column of numbers.
pub open spec fn col_text(c: ColumnView, row: int) -> Seq<char> {
    match c {
        ColumnView::Utf8(v) => v[row],
        _ => Seq::empty(),
    }
}

/// The text by which one row of a column is compared.
pub open spec fn col_compared(c: ColumnView, row: int) -> Seq<char> {
    match c {
        ColumnView::Utf8(v) => v[row],
        _ => decimal(col_int(c, row) as int),
    }
}

/// The number in one row of a column; zero in a text column.
pub fn col_i64_at(col: &ColumnData, row: usize) -> (v: i64)
    requires
        row < col@.len(),
    ensures
        v == col_int(col@, row as int),
{
    match col {
        ColumnData::Int64(v) => v.get(row),
        ColumnData::Int32(v) => v.get(row) as i64,
        ColumnData::Int16(v) => v.get(row) as i64,
        ColumnData::Date(v) => v.get(row) as i64,
        ColumnData::Timestamp(v) => v.get(row),
        ColumnData::Utf8(_) => 0,
    }
}

/// The text in one row of a column; empty in a column of numbers.
pub fn col_utf8_at(col: &ColumnData, row: usize) -> (s: &str)
    requires
        row < col@.len(),
        col.wf(),
    ensures
        s@ == col_text(col@, row as int),
{
    match col {
        ColumnData::Utf8(v) => {
            assert(v.row_ok(row as int));
            v.get(row)
        },
        _ => {
            proof {
                reveal_strlit("");
                assert(""@ =~= Seq::<char>::empty());
            }
            ""
        },
    }
}

fn col_compare_str(col: &ColumnData, row: usize) -> (s: String)
    requires
        row < col@.len(),
        col.wf(),
    ensures
        s@ == col_compared(col@, row as int),
{
    match col {
        ColumnData::Utf8(v) => {
            assert(v.row_ok(row as int));
            String::from_str(v.get(row))
        },
        _ => int_text(col_i64_at(col, row) as i128),
    }
}

/// A column of a table, or the message that it is not loaded.
pub open spec fn column_of(t: Table, name: Seq<char>) -> Result<ColumnView, Seq<char>> {
    if t.has(name) {
        Ok(t.col(name))
    } else {
        Err("column '"@ + name + "' not loaded"@)
    }
}

/// An argument of a function that is a plain expression.
pub open spec fn arg_expr(f: Function, i: int) -> Result<Expr, Seq<char>> {
    match f.args {
        FunctionArguments::List { args, .. } => if i < args@.len() {
            match args@[i] {
                FunctionArg::Expr(e) => Ok(e),
                _ => Err("expected expr arg"@),
            }
        } else {
            Err("expected expr arg"@)
        },
        _ => Err("expected function args"@),
    }
}

/// An argument of a function that is a name, bare or in single quotes.
pub open spec fn arg_name(f: Function, i: int) -> Result<Seq<char>, Seq<char>> {
    match arg_expr(f, i) {
        Err(m) => Err(m),
        Ok(Expr::Identifier(s)) => Ok(s@),
        Ok(Expr::Value(Literal::SingleQuotedString(s))) => Ok(s@),
        Ok(_) => Err("expected ident"@),
    }
}

/// An argument of a function that is a literal.
pub open spec fn arg_literal(f: Function, i: int, complaint: Seq<char>) -> Result<
    Seq<char>,
    Seq<char>,
> {
    match arg_expr(f, i) {
        Err(m) => Err(m),
        Ok(Expr::Value(v)) => literal_text(v),
        Ok(_) => Err(complaint),
    }
}

fn extract_expr<'a>(f: &'a Function, i: usize) -> (r: Result<&'a Expr, Error>)
    ensures
        match r {
            Ok(e) => arg_expr(*f, i as int) == Ok::<Expr, Seq<char>>(*e) && decreases_to!(*f => *e),
            Err(e) => arg_expr(*f, i as int) == Err::<Expr, Seq<char>>(e@),
        },
{
    match &f.args {
        FunctionArguments::List { args, .. } => {
            if i < args.len() {
                match &args[i] {
                    FunctionArg::Expr(e) => {
                        assert(decreases_to!(*f => f.args));
                        assert(decreases_to!(f.args => args@));
                        assert(decreases_to!(args@ => args@[i as int]));
                        assert(decreases_to!(args@[i as int] => *e));
                        Ok(e)
                    },
                    _ => Err(Error::msg("expected expr arg")),
                }
            } else {
                Err(Error::msg("expected expr arg"))
            }
        },
        _ => Err(Error::msg("expected function args")),
    }
}

fn extract_ident(f: &Function, i: usize) -> (r: Result<String, Error>)
    ensures
        text_outcome(r) == arg_name(*f, i as int),
{
    match extract_expr(f, i) {
        Err(e) => Err(e),
        Ok(Expr::Identifier(s)) => Ok(s.clone()),
        Ok(Expr::Value(Literal::SingleQuotedString(s))) => Ok(s.clone()),
        Ok(_) => Err(Error::msg("expected ident")),
    }
}

/// The text of an argument that is a literal.
pub fn extract_literal(f: &Function, i: usize, complaint: &str) -> (r: Result<String, Error>)
    ensures
        text_outcome(r) == arg_literal(*f, i as int, complaint@),
{
    match extract_expr(f, i) {
        Err(e) => Err(e),
        Ok(Expr::Value(v)) => value_to_string(v),
        Ok(_) => Err(Error::msg(complaint)),
    }
}

/// The text of a `LIKE` pattern.
pub open spec fn pattern_text(e: Expr) -> Result<Seq<char>, Seq<char>> {
    match e {
        Expr::Value(v) => literal_text(v),
        _ => Err("LIKE needs string literal"@),
    }
}

fn pattern_as_str(pattern: &Expr) -> (r: Result<String, Error>)
    ensures
        text_outcome(r) == pattern_text(*pattern),
{
    match pattern {
        Expr::Value(v) => value_to_string(v),
        _ => Err(Error::msg("LIKE needs string literal")),
    }
}

/// The quotient of a division towards zero by a positive number.
pub open spec fn quotient(a: i64, b: i64) -> i64 {
    a.checked_div(b)->Some_0
}

/// The remainder of a division towards zero by a positive number.
pub open spec fn remainder(a: i64, b: i64) -> i64 {
    a.checked_rem(b)->Some_0
}

fn divide(a: i64, b: i64) -> (q: i64)
    requires
        b == 60 || b == 3_600 || b == 86_400 || b == 1_000_000,
    ensures
        q == quotient(a, b),
        q as int * b <= 0x7fff_ffff_ffff_ffff,
        q as int * b >= -0x8000_0000_0000_0000,
{
    let r = a.checked_div(b);
    assert(r is Some);
    r.unwrap()
}

/// A part of a time in microseconds.
pub open spec fn time_part(field: DateTimeField, micros: i64) -> i64 {
    let secs = quotient(micros, 1_000_000);
    match field {
        DateTimeField::Minute => minute_of_hour(micros as int) as i64,
        DateTimeField::Hour => remainder(quotient(secs, 3_600), 24),
        DateTimeField::Day => quotient(secs, 86_400),
        DateTimeField::Month => 0,
        DateTimeField::Year => 0,
        DateTimeField::Other => quotient(secs, 60),
    }
}

fn part_of_time(field: &DateTimeField, micros: i64) -> (v: i64)
    ensures
        v == time_part(*field, micros),
{
    let secs: i64 = divide(micros, 1_000_000);
    match field {
        DateTimeField::Minute => event_time_minute_of_hour(micros),
        DateTimeField::Hour => {
            let r = divide(secs, 3_600).checked_rem(24);
            r.unwrap()
        },
        DateTimeField::Day => divide(secs, 86_400),
        DateTimeField::Month => 0,
        DateTimeField::Year => 0,
        DateTimeField::Other => divide(secs, 60),
    }
}

/// The start of the bucket of a time, both in microseconds, for a unit.
pub open spec fn bucket_start(unit: Seq<char>, micros: i64) -> Result<i64, Seq<char>> {
    let secs = quotient(micros, 1_000_000);
    let low = lowercased(unit);
    if low == "minute"@ {
        Ok((quotient(secs, 60) * 60 * 1_000_000) as i64)
    } else if low == "hour"@ {
        Ok((quotient(secs, 3_600) * 3_600 * 1_000_000) as i64)
    } else if low == "day"@ {
        Ok((quotient(secs, 86_400) * 86_400 * 1_000_000) as i64)
    } else {
        Err("unsupported DATE_TRUNC "@ + unit)
    }
}

fn bucket_of(unit: &str, micros: i64) -> (r: Result<i64, Error>)
    ensures
        outcome(r) == bucket_start(unit@, micros),
{
    let secs: i64 = divide(micros, 1_000_000);
    let low = to_lowercase(unit);
    let step: i64 = if str_eq(low.as_str(), "minute") {
        60
    } else if str_eq(low.as_str(), "hour") {
        3_600
    } else if str_eq(low.as_str(), "day") {
        86_400
    } else {
        let mut m = String::from_str("unsupported DATE_TRUNC ");
        m.append(unit);
        return Err(Error::Msg(m));
    };
    let q: i64 = divide(secs, step);
    let bucket: i64 = q * step;
    assert(secs >= 0 ==> 0 <= bucket <= secs);
    assert(secs <= 0 ==> secs <= bucket <= 0);
    Ok(bucket * 1_000_000)
}

/// The number that an expression stands for on a row.
pub open spec fn int_of(t: Table, e: Expr, row: int) -> Result<i64, Seq<char>>
    decreases e, 1int, 0int,
{
    match e {
        Expr::Value(v) => literal_int(v),
        Expr::Identifier(_) | Expr::CompoundIdentifier(_) => match column_name(e) {
            None => Err("expected column"@),
            Some(name) => match column_of(t, name) {
                Err(m) => Err(m),
                Ok(c) => Ok(col_int(c, row)),
            },
        },
        Expr::BinaryOp { left, op, right } => match int_of(t, *left, row) {
            Err(m) => Err(m),
            Ok(l) => match int_of(t, *right, row) {
                Err(m) => Err(m),
                Ok(r) => arithmetic(op, l, r),
            },
        },
        Expr::UnaryOp { op, expr } => match op {
            UnaryOperator::Minus => match int_of(t, *expr, row) {
                Err(m) => Err(m),
                Ok(v) => if v == i64::MIN {
                    Err(overflow_text())
                } else {
                    Ok((-v) as i64)
                },
            },
            _ => Err("unsupported numeric expr"@),
        },
        Expr::Nested(x) => int_of(t, *x, row),
        Expr::Cast { expr } => int_of(t, *expr, row),
        Expr::Extract { field, expr } => match int_of(t, *expr, row) {
            Err(m) => Err(m),
            Ok(v) => Ok(time_part(field, v)),
        },
        Expr::Function(f) => function_int(t, f, row),
        Expr::Case { operand, conditions, results, else_result } => match operand {
            Some(x) => int_of(t, *x, row),
            None => match case_choice(t, e, 0, row) {
                Err(m) => Err(m),
                Ok(Some(i)) => if 0 <= i < results@.len() {
                    int_of(t, results@[i], row)
                } else {
                    Ok(0)
                },
                Ok(None) => match else_result {
                    Some(x) => int_of(t, *x, row),
                    None => Ok(0),
                },
            },
        },
        _ => Err("unsupported numeric expr"@),
    }
}

/// The first branch of a `CASE`, from branch `i` on, whose condition holds.
pub open spec fn case_choice(t: Table, e: Expr, i: int, row: int) -> Result<Option<int>, Seq<char>>
    decreases e, 0int, case_len(e) - i,
{
    match e {
        Expr::Case { conditions, results, .. } => if 0 <= i < conditions@.len() && i
            < results@.len() {
            match bool_of(t, conditions@[i], row) {
                Err(m) => Err(m),
                Ok(true) => Ok(Some(i)),
                Ok(false) => case_choice(t, e, i + 1, row),
            }
        } else {
            Ok(None)
        },
        _ => Ok(None),
    }
}

/// The number of conditions of a `CASE`.
pub open spec fn case_len(e: Expr) -> int {
    match e {
        Expr::Case { conditions, .. } => conditions@.len() as int,
        _ => 0,
    }
}

/// The number that a function call stands for on a row.
pub open spec fn function_int(t: Table, f: Function, row: int) -> Result<i64, Seq<char>>
    decreases f, 0int, 0int,
{
    let name = uppercased(f.name@);
    if name == "LENGTH"@ {
        match f.args {
            FunctionArguments::List { args, .. } => if args@.len() > 0 {
                match args@[0] {
                    FunctionArg::Expr(x) => match text_of(t, x, row) {
                        Err(m) => Err(m),
                        Ok(s) => Ok(encode_utf8(s).len() as i64),
                    },
                    _ => Err("expected expr arg"@),
                }
            } else {
                Err("expected expr arg"@)
            },
            _ => Err("expected function args"@),
        }
    } else if name == "DATE_TRUNC"@ {
        match arg_name(f, 0) {
            Err(m) => Err(m),
            Ok(unit) => match f.args {
                FunctionArguments::List { args, .. } => if args@.len() > 1 {
                    match args@[1] {
                        FunctionArg::Expr(x) => match int_of(t, x, row) {
                            Err(m) => Err(m),
                            Ok(v) => bucket_start(unit, v),
                        },
                        _ => Err("expected expr arg"@),
                    }
                } else {
                    Err("expected expr arg"@)
                },
                _ => Err("expected function args"@),
            },
        }
    } else {
        Err("unsupported function "@ + name)
    }
}

/// The text that a `REGEXP_REPLACE` call stands for on a row.
pub open spec fn replace_text(t: Table, f: Function, row: int) -> Result<Seq<char>, Seq<char>>
    decreases f, 0int, 0int,
{
    match f.args {
        FunctionArguments::List { args, .. } => if args@.len() > 0 {
            match args@[0] {
                FunctionArg::Expr(x) => match text_of(t, x, row) {
                    Err(m) => Err(m),
                    Ok(input) => match arg_literal(f, 1, "expected pattern literal"@) {
                        Err(m) => Err(m),
                        Ok(pattern) => if asks_host(pattern) {
                            Ok(host_of(input))
                        } else {
                            match arg_literal(f, 2, "expected replacement literal"@) {
                                Err(m) => Err(m),
                                Ok(by) => regex_replaced(pattern, input, by),
                            }
                        },
                    },
                },
                _ => Err("expected expr arg"@),
            }
        } else {
            Err("expected expr arg"@)
        },
        _ => Err("expected function args"@),
    }
}

/// The text of a time bucket.
pub open spec fn bucket_text(micros: i64) -> Result<Seq<char>, Seq<char>> {
    if micros < i64::MIN + BUCKET_ZONE_MICROS {
        Err(overflow_text())
    } else {
        Ok(timestamp_text((micros - BUCKET_ZONE_MICROS) as i64))
    }
}

fn show_bucket(micros: i64) -> (r: Result<String, Error>)
    ensures
        text_outcome(r) == bucket_text(micros),
{
    if micros < i64::MIN + BUCKET_ZONE_MICROS {
        Err(Error::msg("arithmetic overflow"))
    } else {
        Ok(format_timestamp_micros_trunc(micros))
    }
}

/// The text that an expression stands for on a row.
pub open spec fn text_of(t: Table, e: Expr, row: int) -> Result<Seq<char>, Seq<char>>
    decreases e, 2int, 0int,
{
    match e {
        Expr::Value(v) => literal_text(v),
        Expr::Identifier(_) | Expr::CompoundIdentifier(_) => match column_name(e) {
            None => Err("expected column"@),
            Some(name) => match column_of(t, name) {
                Err(m) => Err(m),
                Ok(c) => Ok(col_text(c, row)),
            },
        },
        Expr::Function(f) => {
            let name = uppercased(f.name@);
            if name == "REGEXP_REPLACE"@ {
                replace_text(t, f, row)
            } else if name == "DATE_TRUNC"@ {
                match function_int(t, f, row) {
                    Err(m) => Err(m),
                    Ok(v) => bucket_text(v),
                }
            } else {
                Err("unsupported string function "@ + name)
            }
        },
        Expr::Case { operand, conditions, results, else_result } => match operand {
            Some(x) => text_of(t, *x, row),
            None => match case_choice(t, e, 0, row) {
                Err(m) => Err(m),
                Ok(Some(i)) => if 0 <= i < results@.len() {
                    text_of(t, results@[i], row)
                } else {
                    Ok(Seq::empty())
                },
                Ok(None) => match else_result {
                    Some(x) => text_of(t, *x, row),
                    None => Ok(Seq::empty()),
                },
            },
        },
        Expr::BinaryOp { .. } => match int_of(t, e, row) {
            Err(m) => Err(m),
            Ok(v) => Ok(decimal(v as int)),
        },
        Expr::Nested(x) => text_of(t, *x, row),
        _ => Err("unsupported string expr"@),
    }
}

/// A comparison of a column with a literal on its right, where the literal
/// decides how; nothing where it does not.
pub open spec fn column_against(
    t: Table,
    name: Seq<char>,
    lit: Literal,
    op: BinaryOperator,
    row: int,
    column_first: bool,
) -> Option<Result<bool, Seq<char>>> {
    match column_of(t, name) {
        Err(m) => Some(Err(m)),
        Ok(c) => if looks_like_date(lit) {
            match lit {
                Literal::SingleQuotedString(s) => match date_literal(s@) {
                    Err(m) => Some(Err(m)),
                    Ok(d) => Some(
                        if column_first {
                            compare_ints(op, col_int(c, row) as int, d as int)
                        } else {
                            compare_ints(op, d as int, col_int(c, row) as int)
                        },
                    ),
                },
                _ => None,
            }
        } else if is_quoted(lit) {
            match literal_text(lit) {
                Err(m) => Some(Err(m)),
                Ok(s) => Some(
                    if column_first {
                        compare_texts(op, col_compared(c, row), s)
                    } else {
                        compare_texts(op, s, col_compared(c, row))
                    },
                ),
            }
        } else {
            match literal_int(lit) {
                Err(_) => None,
                Ok(v) => Some(
                    if column_first {
                        compare_ints(op, col_int(c, row) as int, v as int)
                    } else {
                        compare_ints(op, v as int, col_int(c, row) as int)
                    },
                ),
            }
        },
    }
}

/// What a comparison with a literal decides by itself.
pub open spec fn literal_comparison(
    t: Table,
    left: Expr,
    right: Expr,
    op: BinaryOperator,
    row: int,
) -> Option<Result<bool, Seq<char>>> {
    let first = match (column_name(left), right) {
        (Some(name), Expr::Value(v)) => column_against(t, name, v, op, row, true),
        _ => None,
    };
    match first {
        Some(r) => Some(r),
        None => match (left, column_name(right)) {
            (Expr::Value(v), Some(name)) => column_against(t, name, v, op, row, false),
            _ => None,
        },
    }
}

/// Whether some of the expressions of a list, from `i` on, is a number.
pub open spec fn found_in(t: Table, e: Expr, i: int, v: i64, row: int) -> Result<bool, Seq<char>>
    decreases e, 0int, list_len(e) - i,
{
    match e {
        Expr::InList { list, .. } => if 0 <= i < list@.len() {
            match int_of(t, list@[i], row) {
                Err(m) => Err(m),
                Ok(x) => if x == v {
                    Ok(true)
                } else {
                    found_in(t, e, i + 1, v, row)
                },
            }
        } else {
            Ok(false)
        },
        _ => Ok(false),
    }
}

/// The length of the list of an `IN`.
pub open spec fn list_len(e: Expr) -> int {
    match e {
        Expr::InList { list, .. } => list@.len() as int,
        _ => 0,
    }
}

/// Whether a predicate holds on a row.
pub open spec fn bool_of(t: Table, e: Expr, row: int) -> Result<bool, Seq<char>>
    decreases e, 2int, 0int,
{
    match e {
        Expr::BinaryOp { left, op, right } => match op {
            BinaryOperator::And => match bool_of(t, *left, row) {
                Err(m) => Err(m),
                Ok(false) => Ok(false),
                Ok(true) => bool_of(t, *right, row),
            },
            BinaryOperator::Or => match bool_of(t, *left, row) {
                Err(m) => Err(m),
                Ok(true) => Ok(true),
                Ok(false) => bool_of(t, *right, row),
            },
            _ => if is_comparison(op) {
                match literal_comparison(t, *left, *right, op, row) {
                    Some(r) => r,
                    None => if (op is Eq || op is NotEq) && text_of(t, *left, row) is Ok && text_of(
                        t,
                        *right,
                        row,
                    ) is Ok {
                        compare_texts(
                            op,
                            text_of(t, *left, row)->Ok_0,
                            text_of(t, *right, row)->Ok_0,
                        )
                    } else {
                        match int_of(t, *left, row) {
                            Err(m) => Err(m),
                            Ok(l) => match int_of(t, *right, row) {
                                Err(m) => Err(m),
                                Ok(r) => compare_ints(op, l as int, r as int),
                            },
                        }
                    },
                }
            } else {
                Err("unsupported bool op"@)
            },
        },
        Expr::Like { negated, expr, pattern } => match text_of(t, *expr, row) {
            Err(m) => Err(m),
            Ok(s) => match pattern_text(*pattern) {
                Err(m) => Err(m),
                Ok(p) => Ok(negated != like(encode_utf8(s), encode_utf8(p))),
            },
        },
        Expr::ILike { negated, expr, pattern } => match text_of(t, *expr, row) {
            Err(m) => Err(m),
            Ok(s) => match pattern_text(*pattern) {
                Err(m) => Err(m),
                Ok(p) => Ok(
                    negated != like(encode_utf8(lowercased(s)), encode_utf8(lowercased(p))),
                ),
            },
        },
        Expr::UnaryOp { op, expr } => match op {
            UnaryOperator::Not => match bool_of(t, *expr, row) {
                Err(m) => Err(m),
                Ok(b) => Ok(!b),
            },
            _ => Err("unsupported predicate"@),
        },
        Expr::Nested(x) => bool_of(t, *x, row),
        Expr::InList { expr, list, negated } => match int_of(t, *expr, row) {
            Err(m) => Err(m),
            Ok(v) => match found_in(t, e, 0, v, row) {
                Err(m) => Err(m),
                Ok(found) => Ok(negated != found),
            },
        },
        Expr::IsNull(_) => Ok(false),
        Expr::Value(v) => match v {
            Literal::Boolean(b) => Ok(b),
            _ => Err("unsupported predicate"@),
        },
        _ => Err("unsupported predicate"@),
    }
}

/// The text of one row of a column in a grouping key: dates and times are
/// written out.
pub open spec fn col_shown(c: ColumnView, row: int) -> Result<Seq<char>, Seq<char>> {
    match c {
        ColumnView::Utf8(v) => Ok(v[row]),
        ColumnView::Date(v) => if MIN_DAY <= v[row] <= MAX_DAY {
            Ok(ymd_text(v[row]))
        } else {
            Err("date out of range"@)
        },
        ColumnView::Timestamp(v) => Ok(timestamp_text(v[row])),
        _ => Ok(decimal(col_int(c, row) as int)),
    }
}

/// Whether the value of an expression on a row is a text, be it empty: a quoted literal, a
/// column of texts, a text function, or a `CASE` that comes to one of these.
pub open spec fn gives_text(t: Table, e: Expr, row: int) -> bool
    decreases e,
{
    match e {
        Expr::Value(v) => is_quoted(v),
        Expr::Identifier(_) | Expr::CompoundIdentifier(_) => match column_name(e) {
            None => false,
            Some(name) => match column_of(t, name) {
                Err(_) => false,
                Ok(c) => c is Utf8,
            },
        },
        Expr::Function(f) => uppercased(f.name@) == "REGEXP_REPLACE"@ || uppercased(f.name@)
            == "DATE_TRUNC"@,
        Expr::Case { operand, conditions, results, else_result } => match operand {
            Some(x) => gives_text(t, *x, row),
            None => match case_choice(t, e, 0, row) {
                Err(_) => false,
                Ok(Some(i)) => if 0 <= i < results@.len() {
                    gives_text(t, results@[i], row)
                } else {
                    false
                },
                Ok(None) => match else_result {
                    Some(x) => gives_text(t, *x, row),
                    None => false,
                },
            },
        },
        Expr::Nested(x) => gives_text(t, *x, row),
        _ => false,
    }
}

/// The grouping key that an expression stands for on a row.
pub open spec fn key_of(t: Table, e: Expr, row: int) -> Result<Seq<char>, Seq<char>> {
    match e {
        Expr::Value(Literal::Number(n)) => Ok(n@),
        Expr::Function(f) if uppercased(f.name@) == "DATE_TRUNC"@ => match function_int(t, f, row) {
            Err(m) => Err(m),
            Ok(v) => bucket_text(v),
        },
        Expr::Function(f) if uppercased(f.name@) == "REGEXP_REPLACE"@ => replace_text(t, f, row),
        Expr::Extract { field, expr } => match int_of(t, *expr, row) {
            Err(m) => Err(m),
            Ok(v) => Ok(decimal(time_part(field, v) as int)),
        },
        Expr::Identifier(_) | Expr::CompoundIdentifier(_) => match column_name(e) {
            None => Err("expected column"@),
            Some(name) => match column_of(t, name) {
                Err(m) => Err(m),
                Ok(c) => col_shown(c, row),
            },
        },
        _ => match text_of(t, e, row) {
            Ok(s) if s.len() > 0 || gives_text(t, e, row) => Ok(s),
            _ => match int_of(t, e, row) {
                Err(m) => Err(m),
                Ok(v) => Ok(decimal(v as int)),
            },
        },
    }
}

/// The number in one row of a column of a table.
fn named_int(table: &Table, expr: &Expr, row: usize) -> (r: Result<i64, Error>)
    requires
        table.wf(),
        table.covers_row(row as int),
        expr is Identifier || expr is CompoundIdentifier,
    ensures
        outcome(r) == int_of(*table, *expr, row as int),
{
    match column_ref(expr) {
        None => Err(Error::msg("expected column")),
        Some(name) => match table.column(name) {
            Err(e) => Err(e),
            Ok(c) => {
                proof {
                    table.lemma_covers(name@, row as int);
                }
                Ok(col_i64_at(c, row))
            },
        },
    }
}

/// Evaluates an expression as a number.
pub fn eval_i64(table: &Table, expr: &Expr, row: usize) -> (r: Result<i64, Error>)
    requires
        table.wf(),
        table.covers_row(row as int),
    ensures
        outcome(r) == int_of(*table, *expr, row as int),
    decreases *expr, 1int, 0int,
{
    match expr {
        Expr::Value(v) => value_to_i64(v),
        Expr::Identifier(_) => named_int(table, expr, row),
        Expr::CompoundIdentifier(_) => named_int(table, expr, row),
        Expr::BinaryOp { left, op, right } => match eval_i64(table, left, row) {
            Err(e) => Err(e),
            Ok(l) => match eval_i64(table, right, row) {
                Err(e) => Err(e),
                Ok(r) => apply_arithmetic(op, l, r),
            },
        },
        Expr::UnaryOp { op, expr: inner } => match op {
            UnaryOperator::Minus => match eval_i64(table, inner, row) {
                Err(e) => Err(e),
                Ok(v) => if v == i64::MIN {
                    Err(Error::msg("arithmetic overflow"))
                } else {
                    Ok(-v)
                },
            },
            _ => Err(Error::msg("unsupported numeric expr")),
        },
        Expr::Nested(inner) => eval_i64(table, inner, row),
        Expr::Cast { expr: inner } => eval_i64(table, inner, row),
        Expr::Extract { field, expr: inner } => match eval_i64(table, inner, row) {
            Err(e) => Err(e),
            Ok(v) => Ok(part_of_time(field, v)),
        },
        Expr::Function(f) => eval_function_i64(table, f, row),
        Expr::Case { operand, conditions, results, else_result } => {
            if let Some(x) = operand {
                return eval_i64(table, x, row);
            }
            match choose_branch(table, expr, row) {
                Err(e) => Err(e),
                Ok(Some(i)) => {
                    assert(decreases_to!(*expr => results@[i as int]));
                    eval_i64(table, &results[i], row)
                },
                Ok(None) => match else_result {
                    Some(x) => eval_i64(table, x, row),
                    None => Ok(0),
                },
            }
        },
        _ => Err(Error::msg("unsupported numeric expr")),
    }
}

/// Finds the first branch of a `CASE` whose condition holds.
fn choose_branch(table: &Table, expr: &Expr, row: usize) -> (r: Result<Option<usize>, Error>)
    requires
        table.wf(),
        table.covers_row(row as int),
        expr is Case,
    ensures
        match r {
            Ok(Some(i)) => case_choice(*table, *expr, 0, row as int) == Ok::<
                Option<int>,
                Seq<char>,
            >(Some(i as int)) && i < expr->results@.len(),
            Ok(None) => case_choice(*table, *expr, 0, row as int) == Ok::<Option<int>, Seq<char>>(
                None,
            ),
            Err(e) => case_choice(*table, *expr, 0, row as int) == Err::<Option<int>, Seq<char>>(
                e@,
            ),
        },
    decreases *expr, 0int, 0int,
{
    match expr {
        Expr::Case { conditions, results, .. } => {
            let mut i: usize = 0;
            while i < conditions.len() && i < results.len()
                invariant
                    table.wf(),
                    table.covers_row(row as int),
                    *expr matches Expr::Case { conditions: c, results: r, .. } && c == *conditions
                        && r == *results,
                    i <= conditions@.len(),
                    i <= results@.len(),
                    case_choice(*table, *expr, 0, row as int) == case_choice(
                        *table,
                        *expr,
                        i as int,
                        row as int,
                    ),
                decreases conditions@.len() - i,
            {
                assert(decreases_to!(*expr => conditions@[i as int]));
                match eval_bool(table, &conditions[i], row) {
                    Err(e) => {
                        return Err(e);
                    },
                    Ok(true) => {
                        return Ok(Some(i));
                    },
                    Ok(false) => {},
                }
                i = i + 1;
            }
            Ok(None)
        },
        _ => Ok(None),
    }
}

/// Evaluates a function call as a number.
fn eval_function_i64(table: &Table, f: &Function, row: usize) -> (r: Result<i64, Error>)
    requires
        table.wf(),
        table.covers_row(row as int),
    ensures
        outcome(r) == function_int(*table, *f, row as int),
    decreases *f, 0int, 0int,
{
    let name = to_uppercase(f.name.as_str());
    if str_eq(name.as_str(), "LENGTH") {
        match extract_expr(f, 0) {
            Err(e) => Err(e),
            Ok(x) => match eval_string(table, x, row) {
                Err(e) => Err(e),
                Ok(s) => Ok(s.as_str().as_bytes().len() as i64),
            },
        }
    } else if str_eq(name.as_str(), "DATE_TRUNC") {
        match extract_ident(f, 0) {
            Err(e) => Err(e),
            Ok(unit) => match extract_expr(f, 1) {
                Err(e) => Err(e),
                Ok(x) => match eval_i64(table, x, row) {
                    Err(e) => Err(e),
                    Ok(v) => bucket_of(unit.as_str(), v),
                },
            },
        }
    } else {
        let mut m = String::from_str("unsupported function ");
        m.append(name.as_str());
        Err(Error::Msg(m))
    }
}

/// Evaluates a `REGEXP_REPLACE` call.
fn eval_regexp_replace(table: &Table, f: &Function, row: usize) -> (r: Result<String, Error>)
    requires
        table.wf(),
        table.covers_row(row as int),
    ensures
        text_outcome(r) == replace_text(*table, *f, row as int),
    decreases *f, 0int, 0int,
{
    match extract_expr(f, 0) {
        Err(e) => Err(e),
        Ok(x) => match eval_string(table, x, row) {
            Err(e) => Err(e),
            Ok(input) => match extract_literal(f, 1, "expected pattern literal") {
                Err(e) => Err(e),
                Ok(pattern) => if pattern_asks_host(pattern.as_str()) {
                    Ok(referer_host(input.as_str()))
                } else {
                    match extract_literal(f, 2, "expected replacement literal") {
                        Err(e) => Err(e),
                        Ok(by) => regexp_replace(pattern.as_str(), input.as_str(), by.as_str()),
                    }
                },
            },
        },
    }
}

fn named_text(table: &Table, expr: &Expr, row: usize) -> (r: Result<String, Error>)
    requires
        table.wf(),
        table.covers_row(row as int),
        expr is Identifier || expr is CompoundIdentifier,
    ensures
        text_outcome(r) == text_of(*table, *expr, row as int),
{
    match column_ref(expr) {
        None => Err(Error::msg("expected column")),
        Some(name) => match table.column(name) {
            Err(e) => Err(e),
            Ok(c) => {
                proof {
                    table.lemma_covers(name@, row as int);
                }
                Ok(String::from_str(col_utf8_at(c, row)))
            },
        },
    }
}

/// Evaluates an expression as text.
pub fn eval_string(table: &Table, expr: &Expr, row: usize) -> (r: Result<String, Error>)
    requires
        table.wf(),
        table.covers_row(row as int),
    ensures
        text_outcome(r) == text_of(*table, *expr, row as int),
    decreases *expr, 2int, 0int,
{
    match expr {
        Expr::Value(v) => value_to_string(v),
        Expr::Identifier(_) => named_text(table, expr, row),
        Expr::CompoundIdentifier(_) => named_text(table, expr, row),
        Expr::Function(f) => {
            let name = to_uppercase(f.name.as_str());
            if str_eq(name.as_str(), "REGEXP_REPLACE") {
                eval_regexp_replace(table, f, row)
            } else if str_eq(name.as_str(), "DATE_TRUNC") {
                match eval_function_i64(table, f, row) {
                    Err(e) => Err(e),
                    Ok(v) => show_bucket(v),
                }
            } else {
                let mut m = String::from_str("unsupported string function ");
                m.append(name.as_str());
                Err(Error::Msg(m))
            }
        },
        Expr::Case { operand, conditions, results, else_result } => {
            if let Some(x) = operand {
                return eval_string(table, x, row);
            }
            match choose_branch(table, expr, row) {
                Err(e) => Err(e),
                Ok(Some(i)) => {
                    assert(decreases_to!(*expr => results@[i as int]));
                    eval_string(table, &results[i], row)
                },
                Ok(None) => match else_result {
                    Some(x) => eval_string(table, x, row),
                    None => Ok(String::new()),
                },
            }
        },
        Expr::BinaryOp { .. } => match eval_i64(table, expr, row) {
            Err(e) => Err(e),
            Ok(v) => Ok(int_text(v as i128)),
        },
        Expr::Nested(inner) => eval_string(table, inner, row),
        _ => Err(Error::msg("unsupported string expr")),
    }
}

fn compare_column(
    table: &Table,
    name: &str,
    lit: &Literal,
    op: &BinaryOperator,
    row: usize,
    column_first: bool,
) -> (r: Option<Result<bool, Error>>)
    requires
        table.wf(),
        table.covers_row(row as int),
    ensures
        match r {
            Some(v) => column_against(*table, name@, *lit, *op, row as int, column_first) == Some(
                outcome(v),
            ),
            None => column_against(*table, name@, *lit, *op, row as int, column_first) is None,
        },
{
    let col = match table.column(name) {
        Ok(c) => c,
        Err(e) => {
            return Some(Err(e));
        },
    };
    proof {
        table.lemma_covers(name@, row as int);
    }
    if is_date_string(lit) {
        match lit {
            Literal::SingleQuotedString(s) => match parse_date_lit(s.as_str()) {
                Err(e) => Some(Err(e)),
                Ok(d) => Some(
                    if column_first {
                        compare_i64(col_i64_at(col, row), d as i64, op)
                    } else {
                        compare_i64(d as i64, col_i64_at(col, row), op)
                    },
                ),
            },
            _ => None,
        }
    } else if is_string_value(lit) {
        match value_to_string(lit) {
            Err(e) => Some(Err(e)),
            Ok(s) => Some(
                if column_first {
                    compare_str(col_compare_str(col, row).as_str(), s.as_str(), op)
                } else {
                    compare_str(s.as_str(), col_compare_str(col, row).as_str(), op)
                },
            ),
        }
    } else {
        match value_to_i64(lit) {
            Err(_) => None,
            Ok(v) => Some(
                if column_first {
                    compare_i64(col_i64_at(col, row), v, op)
                } else {
                    compare_i64(v, col_i64_at(col, row), op)
                },
            ),
        }
    }
}

fn compare_literal(
    table: &Table,
    left: &Expr,
    right: &Expr,
    op: &BinaryOperator,
    row: usize,
) -> (r: Option<Result<bool, Error>>)
    requires
        table.wf(),
        table.covers_row(row as int),
    ensures
        match r {
            Some(v) => literal_comparison(*table, *left, *right, *op, row as int) == Some(
                outcome(v),
            ),
            None => literal_comparison(*table, *left, *right, *op, row as int) is None,
        },
{
    if let (Some(name), Expr::Value(v)) = (column_ref(left), right) {
        let r = compare_column(table, name, v, op, row, true);
        if r.is_some() {
            return r;
        }
    }
    if let (Expr::Value(v), Some(name)) = (left, column_ref(right)) {
        return compare_column(table, name, v, op, row, false);
    }
    None
}

/// Looks for a number among the expressions of an `IN` list.
fn look_in_list(table: &Table, expr: &Expr, v: i64, row: usize) -> (r: Result<bool, Error>)
    requires
        table.wf(),
        table.covers_row(row as int),
        expr is InList,
    ensures
        outcome(r) == found_in(*table, *expr, 0, v, row as int),
    decreases *expr, 0int, 0int,
{
    match expr {
        Expr::InList { list, .. } => {
            let mut i: usize = 0;
            while i < list.len()
                invariant
                    table.wf(),
                    table.covers_row(row as int),
                    *expr matches Expr::InList { list: l, .. } && l == *list,
                    i <= list@.len(),
                    found_in(*table, *expr, 0, v, row as int) == found_in(
                        *table,
                        *expr,
                        i as int,
                        v,
                        row as int,
                    ),
                decreases list@.len() - i,
            {
                assert(decreases_to!(*expr => list@[i as int]));
                match eval_i64(table, &list[i], row) {
                    Err(e) => {
                        return Err(e);
                    },
                    Ok(x) => {
                        if x == v {
                            return Ok(true);
                        }
                    },
                }
                i = i + 1;
            }
            Ok(false)
        },
        _ => Ok(false),
    }
}

/// Evaluates a predicate.
pub fn eval_bool(table: &Table, expr: &Expr, row: usize) -> (r: Result<bool, Error>)
    requires
        table.wf(),
        table.covers_row(row as int),
    ensures
        outcome(r) == bool_of(*table, *expr, row as int),
    decreases *expr, 2int, 0int,
{
    match expr {
        Expr::BinaryOp { left, op, right } => match op {
            BinaryOperator::And => match eval_bool(table, left, row) {
                Err(e) => Err(e),
                Ok(false) => Ok(false),
                Ok(true) => eval_bool(table, right, row),
            },
            BinaryOperator::Or => match eval_bool(table, left, row) {
                Err(e) => Err(e),
                Ok(true) => Ok(true),
                Ok(false) => eval_bool(table, right, row),
            },
            BinaryOperator::Plus => Err(Error::msg("unsupported bool op")),
            BinaryOperator::Minus => Err(Error::msg("unsupported bool op")),
            BinaryOperator::Multiply => Err(Error::msg("unsupported bool op")),
            BinaryOperator::Divide => Err(Error::msg("unsupported bool op")),
            BinaryOperator::Other => Err(Error::msg("unsupported bool op")),
            _ => {
                if let Some(r) = compare_literal(table, left, right, op, row) {
                    return r;
                }
                let by_text = match op {
                    BinaryOperator::Eq => true,
                    BinaryOperator::NotEq => true,
                    _ => false,
                };
                if by_text {
                    let l = eval_string(table, left, row);
                    let r = eval_string(table, right, row);
                    if let (Ok(a), Ok(b)) = (l, r) {
                        return compare_str(a.as_str(), b.as_str(), op);
                    }
                }
                match eval_i64(table, left, row) {
                    Err(e) => Err(e),
                    Ok(l) => match eval_i64(table, right, row) {
                        Err(e) => Err(e),
                        Ok(r) => compare_i64(l, r, op),
                    },
                }
            },
        },
        Expr::Like { negated, expr: inner, pattern } => match eval_string(table, inner, row) {
            Err(e) => Err(e),
            Ok(s) => match pattern_as_str(pattern) {
                Err(e) => Err(e),
                Ok(p) => Ok(*negated != eval_like_match(s.as_str(), p.as_str())),
            },
        },
        Expr::ILike { negated, expr: inner, pattern } => match eval_string(table, inner, row) {
            Err(e) => Err(e),
            Ok(s) => match pattern_as_str(pattern) {
                Err(e) => Err(e),
                Ok(p) => {
                    let hay = to_lowercase(s.as_str());
                    let pat = to_lowercase(p.as_str());
                    Ok(*negated != eval_like_match(hay.as_str(), pat.as_str()))
                },
            },
        },
        Expr::UnaryOp { op, expr: inner } => match op {
            UnaryOperator::Not => match eval_bool(table, inner, row) {
                Err(e) => Err(e),
                Ok(b) => Ok(!b),
            },
            _ => Err(Error::msg("unsupported predicate")),
        },
        Expr::Nested(inner) => eval_bool(table, inner, row),
        Expr::InList { expr: inner, list, negated } => match eval_i64(table, inner, row) {
            Err(e) => Err(e),
            Ok(v) => match look_in_list(table, expr, v, row) {
                Err(e) => Err(e),
                Ok(found) => Ok(*negated != found),
            },
        },
        Expr::IsNull(_) => Ok(false),
        Expr::Value(v) => match v {
            Literal::Boolean(b) => Ok(*b),
            _ => Err(Error::msg("unsupported predicate")),
        },
        _ => Err(Error::msg("unsupported predicate")),
    }
}

/// Shows one row of a column in a grouping key.
pub fn show_column(col: &ColumnData, row: usize) -> (r: Result<String, Error>)
    requires
        row < col@.len(),
        col.wf(),
    ensures
        text_outcome(r) == col_shown(col@, row as int),
{
    match col {
        ColumnData::Utf8(_) => Ok(String::from_str(col_utf8_at(col, row))),
        ColumnData::Date(v) => {
            let d: i32 = v.get(row);
            if MIN_DAY <= d && d <= MAX_DAY {
                Ok(format_date_days(d))
            } else {
                Err(Error::msg("date out of range"))
            }
        },
        ColumnData::Timestamp(v) => Ok(format_timestamp_micros(v.get(row))),
        _ => Ok(int_text(col_i64_at(col, row) as i128)),
    }
}

/// Evaluates an expression as a grouping key.
pub fn eval_group_key(table: &Table, expr: &Expr, row: usize) -> (r: Result<String, Error>)
    requires
        table.wf(),
        table.covers_row(row as int),
    ensures
        text_outcome(r) == key_of(*table, *expr, row as int),
{
    match expr {
        Expr::Value(Literal::Number(n)) => {
            return Ok(n.clone());
        },
        Expr::Function(f) => {
            let name = to_uppercase(f.name.as_str());
            if str_eq(name.as_str(), "DATE_TRUNC") {
                return match eval_function_i64(table, f, row) {
                    Err(e) => Err(e),
                    Ok(v) => show_bucket(v),
                };
            }
            if str_eq(name.as_str(), "REGEXP_REPLACE") {
                return eval_regexp_replace(table, f, row);
            }
        },
        Expr::Extract { field, expr: inner } => {
            return match eval_i64(table, inner, row) {
                Err(e) => Err(e),
                Ok(v) => Ok(int_text(part_of_time(field, v) as i128)),
            };
        },
        _ => {},
    }
    let named = match expr {
        Expr::Identifier(_) => true,
        Expr::CompoundIdentifier(_) => true,
        _ => false,
    };
    if named {
        return match column_ref(expr) {
            None => Err(Error::msg("expected column")),
            Some(name) => match table.column(name) {
                Err(e) => Err(e),
                Ok(c) => {
                    proof {
                        table.lemma_covers(name@, row as int);
                    }
                    show_column(c, row)
                },
            },
        };
    }
    if let Ok(s) = eval_string(table, expr, row) {
        if !s.as_str().is_empty() || is_text_value(table, expr, row) {
            return Ok(s);
        }
    }
    match eval_i64(table, expr, row) {
        Err(e) => Err(e),
        Ok(v) => Ok(int_text(v as i128)),
    }
}

/// Whether an expression names a column of texts.
fn names_text(table: &Table, expr: &Expr) -> (r: bool)
    requires
        table.wf(),
    ensures
        r == match column_name(*expr) {
            None => false,
            Some(name) => match column_of(*table, name) {
                Err(_) => false,
                Ok(c) => c is Utf8,
            },
        },
{
    match column_ref(expr) {
        None => false,
        Some(name) => match table.column(name) {
            Err(_) => false,
            Ok(c) => match c {
                ColumnData::Utf8(_) => true,
                _ => false,
            },
        },
    }
}

/// Whether the value of an expression on a row is a text, be it empty.
pub fn is_text_value(table: &Table, expr: &Expr, row: usize) -> (r: bool)
    requires
        table.wf(),
        table.covers_row(row as int),
    ensures
        r == gives_text(*table, *expr, row as int),
    decreases *expr,
{
    match expr {
        Expr::Value(v) => is_string_value(v),
        Expr::Identifier(_) => names_text(table, expr),
        Expr::CompoundIdentifier(_) => names_text(table, expr),
        Expr::Function(f) => {
            let name = to_uppercase(f.name.as_str());
            str_eq(name.as_str(), "REGEXP_REPLACE") || str_eq(name.as_str(), "DATE_TRUNC")
        },
        Expr::Case { operand, conditions, results, else_result } => {
            if let Some(x) = operand {
                return is_text_value(table, x, row);
            }
            match choose_branch(table, expr, row) {
                Err(_) => false,
                Ok(Some(i)) => {
                    assert(decreases_to!(*expr => results@[i as int]));
                    is_text_value(table, &results[i], row)
                },
                Ok(None) => match else_result {
                    Some(x) => is_text_value(table, x, row),
                    None => false,
                },
            }
        },
        Expr::Nested(inner) => is_text_value(table, inner, row),
        _ => false,
    }
}

} // verus!
