//! Whether two expressions are written alike.
use crate::sql::ast::{
    BinaryOperator, DateTimeField, Expr, Function, FunctionArg, FunctionArguments, Literal,
    UnaryOperator,
};
use crate::text::str_eq;
use vstd::prelude::*;

verus! {

/// Whether two literals are written alike.
pub open spec fn same_literal(a: Literal, b: Literal) -> bool {
    match (a, b) {
        (Literal::Number(x), Literal::Number(y)) => x@ == y@,
        (Literal::SingleQuotedString(x), Literal::SingleQuotedString(y)) => x@ == y@,
        (Literal::DoubleQuotedString(x), Literal::DoubleQuotedString(y)) => x@ == y@,
        (Literal::EscapedStringLiteral(x), Literal::EscapedStringLiteral(y)) => x@ == y@,
        (Literal::Boolean(x), Literal::Boolean(y)) => x == y,
        _ => false,
    }
}

/// Whether two lists of names are the same.
pub open spec fn same_names(a: Seq<String>, b: Seq<String>) -> bool {
    a.len() == b.len() && forall|i: int| 0 <= i < a.len() ==> (#[trigger] a[i])@ == b[i]@
}

/// Whether two lists of expressions are written alike.
pub open spec fn same_exprs(a: Seq<Expr>, b: Seq<Expr>) -> bool
    decreases a,
{
    a.len() == b.len() && forall|i: int| 0 <= i < a.len() ==> same_expr(#[trigger] a[i], b[i])
}

/// Whether two arguments are written alike.
pub open spec fn same_arg(a: FunctionArg, b: FunctionArg) -> bool
    decreases a,
{
    match (a, b) {
        (FunctionArg::Expr(x), FunctionArg::Expr(y)) => same_expr(x, y),
        (FunctionArg::Wildcard, FunctionArg::Wildcard) => true,
        _ => false,
    }
}

/// Whether two function calls are written alike.
pub open spec fn same_function(a: Function, b: Function) -> bool
    decreases a,
{
    a.name@ == b.name@ && match (a.args, b.args) {
        (FunctionArguments::Absent, FunctionArguments::Absent) => true,
        (
            FunctionArguments::List { distinct: d, args: x },
            FunctionArguments::List { distinct: e, args: y },
        ) => d == e && x@.len() == y@.len() && forall|i: int|
            0 <= i < x@.len() ==> same_arg(#[trigger] x@[i], y@[i]),
        _ => false,
    }
}

/// Whether two optional expressions are written alike.
pub open spec fn same_optional(a: Option<Box<Expr>>, b: Option<Box<Expr>>) -> bool
    decreases a,
{
    match (a, b) {
        (Some(x), Some(y)) => same_expr(*x, *y),
        (None, None) => true,
        _ => false,
    }
}

/// Whether two expressions are written alike. Parts that are not taken apart are
/// like no others.
pub open spec fn same_expr(a: Expr, b: Expr) -> bool
    decreases a,
{
    match (a, b) {
        (Expr::Identifier(x), Expr::Identifier(y)) => x@ == y@,
        (Expr::CompoundIdentifier(x), Expr::CompoundIdentifier(y)) => same_names(x@, y@),
        (Expr::Value(x), Expr::Value(y)) => same_literal(x, y),
        (
            Expr::BinaryOp { left: l, op: o, right: r },
            Expr::BinaryOp { left: m, op: p, right: s },
        ) => same_expr(*l, *m) && o == p && !(o is Other) && same_expr(*r, *s),
        (Expr::UnaryOp { op: o, expr: x }, Expr::UnaryOp { op: p, expr: y }) => o == p && !(
        o is Other) && same_expr(*x, *y),
        (Expr::Nested(x), Expr::Nested(y)) => same_expr(*x, *y),
        (
            Expr::Like { negated: n, expr: x, pattern: p },
            Expr::Like { negated: m, expr: y, pattern: q },
        ) => n == m && same_expr(*x, *y) && same_expr(*p, *q),
        (
            Expr::ILike { negated: n, expr: x, pattern: p },
            Expr::ILike { negated: m, expr: y, pattern: q },
        ) => n == m && same_expr(*x, *y) && same_expr(*p, *q),
        (
            Expr::InList { expr: x, list: v, negated: n },
            Expr::InList { expr: y, list: w, negated: m },
        ) => n == m && same_expr(*x, *y) && same_exprs(v@, w@),
        (Expr::Function(f), Expr::Function(g)) => same_function(f, g),
        (
            Expr::Case { operand: o, conditions: c, results: r, else_result: e },
            Expr::Case { operand: p, conditions: d, results: s, else_result: f },
        ) => same_optional(o, p) && same_exprs(c@, d@) && same_exprs(r@, s@) && same_optional(e, f),
        (Expr::Extract { field: f, expr: x }, Expr::Extract { field: g, expr: y }) => f == g && !(
        f is Other) && same_expr(*x, *y),
        (Expr::IsNull(x), Expr::IsNull(y)) => same_expr(*x, *y),
        _ => false,
    }
}

fn literals_alike(a: &Literal, b: &Literal) -> (r: bool)
    ensures
        r == same_literal(*a, *b),
{
    match (a, b) {
        (Literal::Number(x), Literal::Number(y)) => str_eq(x.as_str(), y.as_str()),
        (Literal::SingleQuotedString(x), Literal::SingleQuotedString(y)) => str_eq(
            x.as_str(),
            y.as_str(),
        ),
        (Literal::DoubleQuotedString(x), Literal::DoubleQuotedString(y)) => str_eq(
            x.as_str(),
            y.as_str(),
        ),
        (Literal::EscapedStringLiteral(x), Literal::EscapedStringLiteral(y)) => str_eq(
            x.as_str(),
            y.as_str(),
        ),
        (Literal::Boolean(x), Literal::Boolean(y)) => *x == *y,
        _ => false,
    }
}

fn operators_alike(a: &BinaryOperator, b: &BinaryOperator) -> (r: bool)
    ensures
        r == (*a == *b && !(*a is Other)),
{
    match (a, b) {
        (BinaryOperator::Plus, BinaryOperator::Plus) => true,
        (BinaryOperator::Minus, BinaryOperator::Minus) => true,
        (BinaryOperator::Multiply, BinaryOperator::Multiply) => true,
        (BinaryOperator::Divide, BinaryOperator::Divide) => true,
        (BinaryOperator::Gt, BinaryOperator::Gt) => true,
        (BinaryOperator::Lt, BinaryOperator::Lt) => true,
        (BinaryOperator::GtEq, BinaryOperator::GtEq) => true,
        (BinaryOperator::LtEq, BinaryOperator::LtEq) => true,
        (BinaryOperator::Eq, BinaryOperator::Eq) => true,
        (BinaryOperator::NotEq, BinaryOperator::NotEq) => true,
        (BinaryOperator::And, BinaryOperator::And) => true,
        (BinaryOperator::Or, BinaryOperator::Or) => true,
        _ => false,
    }
}

fn unary_alike(a: &UnaryOperator, b: &UnaryOperator) -> (r: bool)
    ensures
        r == (*a == *b && !(*a is Other)),
{
    match (a, b) {
        (UnaryOperator::Minus, UnaryOperator::Minus) => true,
        (UnaryOperator::Not, UnaryOperator::Not) => true,
        _ => false,
    }
}

fn fields_alike(a: &DateTimeField, b: &DateTimeField) -> (r: bool)
    ensures
        r == (*a == *b && !(*a is Other)),
{
    match (a, b) {
        (DateTimeField::Minute, DateTimeField::Minute) => true,
        (DateTimeField::Hour, DateTimeField::Hour) => true,
        (DateTimeField::Day, DateTimeField::Day) => true,
        (DateTimeField::Month, DateTimeField::Month) => true,
        (DateTimeField::Year, DateTimeField::Year) => true,
        _ => false,
    }
}

fn names_alike(a: &Vec<String>, b: &Vec<String>) -> (r: bool)
    ensures
        r == same_names(a@, b@),
{
    if a.len() != b.len() {
        return false;
    }
    let mut i: usize = 0;
    while i < a.len()
        invariant
            i <= a@.len() == b@.len(),
            forall|k: int| 0 <= k < i ==> (#[trigger] a@[k])@ == b@[k]@,
        decreases a@.len() - i,
    {
        if !str_eq(a[i].as_str(), b[i].as_str()) {
            return false;
        }
        i = i + 1;
    }
    true
}

fn lists_alike(a: &Vec<Expr>, b: &Vec<Expr>) -> (r: bool)
    ensures
        r == same_exprs(a@, b@),
    decreases a@,
{
    if a.len() != b.len() {
        return false;
    }
    let mut i: usize = 0;
    while i < a.len()
        invariant
            i <= a@.len() == b@.len(),
            forall|k: int| 0 <= k < i ==> same_expr(#[trigger] a@[k], b@[k]),
        decreases a@.len() - i,
    {
        assert(decreases_to!(a@ => a@[i as int]));
        if !exprs_alike(&a[i], &b[i]) {
            return false;
        }
        i = i + 1;
    }
    true
}

fn functions_alike(a: &Function, b: &Function) -> (r: bool)
    ensures
        r == same_function(*a, *b),
    decreases *a,
{
    if !str_eq(a.name.as_str(), b.name.as_str()) {
        return false;
    }
    match (&a.args, &b.args) {
        (FunctionArguments::Absent, FunctionArguments::Absent) => true,
        (
            FunctionArguments::List { distinct: d, args: x },
            FunctionArguments::List { distinct: e, args: y },
        ) => {
            if *d != *e || x.len() != y.len() {
                return false;
            }
            let mut i: usize = 0;
            while i < x.len()
                invariant
                    a.args matches FunctionArguments::List { args: v, .. } && v == *x,
                    b.args matches FunctionArguments::List { args: w, .. } && w == *y,
                    i <= x@.len() == y@.len(),
                    forall|k: int| 0 <= k < i ==> same_arg(#[trigger] x@[k], y@[k]),
                decreases x@.len() - i,
            {
                assert(decreases_to!(*a => x@[i as int]));
                let alike = match (&x[i], &y[i]) {
                    (FunctionArg::Expr(p), FunctionArg::Expr(q)) => {
                        assert(decreases_to!(x@[i as int] => *p));
                        exprs_alike(p, q)
                    },
                    (FunctionArg::Wildcard, FunctionArg::Wildcard) => true,
                    _ => false,
                };
                if !alike {
                    assert(!same_arg(x@[i as int], y@[i as int]));
                    return false;
                }
                i = i + 1;
            }
            true
        },
        _ => false,
    }
}

fn optionals_alike(a: &Option<Box<Expr>>, b: &Option<Box<Expr>>) -> (r: bool)
    ensures
        r == same_optional(*a, *b),
    decreases *a,
{
    match (a, b) {
        (Some(x), Some(y)) => exprs_alike(x, y),
        (None, None) => true,
        _ => false,
    }
}

/// Whether two expressions are written alike.
pub fn exprs_alike(a: &Expr, b: &Expr) -> (r: bool)
    ensures
        r == same_expr(*a, *b),
    decreases *a,
{
    match (a, b) {
        (Expr::Identifier(x), Expr::Identifier(y)) => str_eq(x.as_str(), y.as_str()),
        (Expr::CompoundIdentifier(x), Expr::CompoundIdentifier(y)) => names_alike(x, y),
        (Expr::Value(x), Expr::Value(y)) => literals_alike(x, y),
        (
            Expr::BinaryOp { left: l, op: o, right: r },
            Expr::BinaryOp { left: m, op: p, right: s },
        ) => exprs_alike(l, m) && operators_alike(o, p) && exprs_alike(r, s),
        (Expr::UnaryOp { op: o, expr: x }, Expr::UnaryOp { op: p, expr: y }) => unary_alike(o, p)
            && exprs_alike(x, y),
        (Expr::Nested(x), Expr::Nested(y)) => exprs_alike(x, y),
        (
            Expr::Like { negated: n, expr: x, pattern: p },
            Expr::Like { negated: m, expr: y, pattern: q },
        ) => *n == *m && exprs_alike(x, y) && exprs_alike(p, q),
        (
            Expr::ILike { negated: n, expr: x, pattern: p },
            Expr::ILike { negated: m, expr: y, pattern: q },
        ) => *n == *m && exprs_alike(x, y) && exprs_alike(p, q),
        (
            Expr::InList { expr: x, list: v, negated: n },
            Expr::InList { expr: y, list: w, negated: m },
        ) => *n == *m && exprs_alike(x, y) && {
            assert(decreases_to!(*a => v@));
            lists_alike(v, w)
        },
        (Expr::Function(f), Expr::Function(g)) => functions_alike(f, g),
        (
            Expr::Case { operand: o, conditions: c, results: r, else_result: e },
            Expr::Case { operand: p, conditions: d, results: s, else_result: f },
        ) => {
            assert(decreases_to!(*a => c@));
            assert(decreases_to!(*a => r@));
            optionals_alike(o, p) && lists_alike(c, d) && lists_alike(r, s) && optionals_alike(e, f)
        },
        (Expr::Extract { field: f, expr: x }, Expr::Extract { field: g, expr: y }) => fields_alike(
            f,
            g,
        ) && exprs_alike(x, y),
        (Expr::IsNull(x), Expr::IsNull(y)) => exprs_alike(x, y),
        _ => false,
    }
}

} // verus!
