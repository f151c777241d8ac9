//! Expressions that are alike.
use crate::expr::eval::{
    arg_literal, arg_name, bool_of, case_choice, case_len, found_in, function_int, int_of,
    list_len, replace_text, text_of,
};
use crate::sql::ast::{BinaryOperator, Expr, Function, FunctionArg, FunctionArguments, Literal};
use crate::sql::query::column_name;
use crate::sql::same::{
    same_arg, same_expr, same_exprs, same_function, same_literal, same_names, same_optional,
};
use crate::storage::table::Table;
use vstd::prelude::*;

verus! {

/// Expressions that are alike come to the same on every row of every table.
pub proof fn law_alike_evaluate(t: Table, a: Expr, b: Expr, row: int)
    requires
        same_expr(a, b),
    ensures
        int_of(t, a, row) == int_of(t, b, row),
        text_of(t, a, row) == text_of(t, b, row),
        bool_of(t, a, row) == bool_of(t, b, row),
    decreases a, 1int, 0int,
{
    lemma_names_alike(a, b);
    match (a, b) {
        (Expr::Value(x), Expr::Value(y)) => {
            lemma_literals_alike(x, y);
        },
        (
            Expr::BinaryOp { left: l, op: o, right: r },
            Expr::BinaryOp { left: m, op: p, right: s },
        ) => {
            law_alike_evaluate(t, *l, *m, row);
            law_alike_evaluate(t, *r, *s, row);
            lemma_names_alike(*l, *m);
            lemma_names_alike(*r, *s);
        },
        (Expr::UnaryOp { op: o, expr: x }, Expr::UnaryOp { op: p, expr: y }) => {
            law_alike_evaluate(t, *x, *y, row);
        },
        (Expr::Nested(x), Expr::Nested(y)) => {
            law_alike_evaluate(t, *x, *y, row);
        },
        (
            Expr::Like { negated: n, expr: x, pattern: p },
            Expr::Like { negated: m, expr: y, pattern: q },
        ) => {
            law_alike_evaluate(t, *x, *y, row);
            lemma_names_alike(*p, *q);
        },
        (
            Expr::ILike { negated: n, expr: x, pattern: p },
            Expr::ILike { negated: m, expr: y, pattern: q },
        ) => {
            law_alike_evaluate(t, *x, *y, row);
            lemma_names_alike(*p, *q);
        },
        (
            Expr::InList { expr: x, list: v, negated: n },
            Expr::InList { expr: y, list: w, negated: m },
        ) => {
            law_alike_evaluate(t, *x, *y, row);
            assert(same_exprs(v@, w@));
            if int_of(t, *x, row) is Ok {
                lemma_found_alike(t, a, b, 0, int_of(t, *x, row)->Ok_0, row);
            }
        },
        (Expr::Function(f), Expr::Function(g)) => {
            assert(same_function(f, g));
            lemma_functions_alike(t, f, g, row);
        },
        (
            Expr::Case { operand: o, conditions: c, results: r, else_result: e },
            Expr::Case { operand: p, conditions: d, results: s, else_result: f },
        ) => {
            lemma_choice_alike(t, a, b, 0, row);
            assert(same_optional(o, p) && same_optional(e, f));
            assert(same_exprs(c@, d@) && same_exprs(r@, s@));
            if let (Some(x), Some(y)) = (o, p) {
                law_alike_evaluate(t, *x, *y, row);
            }
            if let (Some(x), Some(y)) = (e, f) {
                law_alike_evaluate(t, *x, *y, row);
            }
            assert forall|i: int| 0 <= i < r@.len() implies int_of(t, #[trigger] r@[i], row)
                == int_of(t, s@[i], row) && text_of(t, r@[i], row) == text_of(t, s@[i], row) by {
                assert(same_expr(r@[i], s@[i]));
                law_alike_evaluate(t, r@[i], s@[i], row);
            }
        },
        (Expr::Extract { field: f, expr: x }, Expr::Extract { field: g, expr: y }) => {
            law_alike_evaluate(t, *x, *y, row);
        },
        (Expr::IsNull(x), Expr::IsNull(y)) => {
            law_alike_evaluate(t, *x, *y, row);
        },
        _ => {},
    }
}

/// Literals that are alike have the same value.
proof fn lemma_literals_alike(x: Literal, y: Literal)
    requires
        same_literal(x, y),
    ensures
        crate::expr::eval::literal_int(x) == crate::expr::eval::literal_int(y),
        crate::expr::eval::literal_text(x) == crate::expr::eval::literal_text(y),
{
}

/// Expressions that are alike name the same column and are the same kind of literal.
proof fn lemma_names_alike(a: Expr, b: Expr)
    requires
        same_expr(a, b),
    ensures
        column_name(a) == column_name(b),
        a is Value == b is Value,
        a is Value ==> same_literal(a->Value_0, b->Value_0),
        a is Nested == b is Nested,
        a is Nested ==> same_expr(*a->Nested_0, *b->Nested_0),
    decreases a,
{
    match (a, b) {
        (Expr::CompoundIdentifier(x), Expr::CompoundIdentifier(y)) => {
            assert(same_names(x@, y@));
            if x@.len() > 0 {
                assert(x@[x@.len() - 1]@ == y@[y@.len() - 1]@);
            }
        },
        (Expr::Nested(x), Expr::Nested(y)) => {
            lemma_names_alike(*x, *y);
        },
        _ => {},
    }
}

proof fn lemma_found_alike(t: Table, a: Expr, b: Expr, i: int, v: i64, row: int)
    requires
        same_expr(a, b),
        a is InList,
        0 <= i,
    ensures
        found_in(t, a, i, v, row) == found_in(t, b, i, v, row),
    decreases a, 0int, list_len(a) - i,
{
    match (a, b) {
        (Expr::InList { list: v1, .. }, Expr::InList { list: w1, .. }) => {
            assert(same_exprs(v1@, w1@));
            if i < v1@.len() {
                assert(same_expr(v1@[i], w1@[i]));
                law_alike_evaluate(t, v1@[i], w1@[i], row);
                lemma_found_alike(t, a, b, i + 1, v, row);
            }
        },
        _ => {},
    }
}

proof fn lemma_choice_alike(t: Table, a: Expr, b: Expr, i: int, row: int)
    requires
        same_expr(a, b),
        a is Case,
        0 <= i,
    ensures
        case_choice(t, a, i, row) == case_choice(t, b, i, row),
    decreases a, 0int, case_len(a) - i,
{
    match (a, b) {
        (
            Expr::Case { conditions: c, results: r, .. },
            Expr::Case { conditions: d, results: s, .. },
        ) => {
            assert(same_exprs(c@, d@) && same_exprs(r@, s@));
            if i < c@.len() && i < r@.len() {
                assert(same_expr(c@[i], d@[i]));
                law_alike_evaluate(t, c@[i], d@[i], row);
                lemma_choice_alike(t, a, b, i + 1, row);
            }
        },
        _ => {},
    }
}

proof fn lemma_functions_alike(t: Table, f: Function, g: Function, row: int)
    requires
        same_function(f, g),
    ensures
        function_int(t, f, row) == function_int(t, g, row),
        replace_text(t, f, row) == replace_text(t, g, row),
    decreases f, 0int, 0int,
{
    match (f.args, g.args) {
        (FunctionArguments::List { args: x, .. }, FunctionArguments::List { args: y, .. }) => {
            assert forall|i: int| 0 <= i < x@.len() implies #[trigger] args_come_alike(
                t,
                x@[i],
                y@[i],
                row,
            ) by {
                assert(same_arg(x@[i], y@[i]));
                match (x@[i], y@[i]) {
                    (FunctionArg::Expr(u), FunctionArg::Expr(v)) => {
                        law_alike_evaluate(t, u, v, row);
                        lemma_names_alike(u, v);
                    },
                    _ => {},
                }
            }
            if x@.len() > 0 {
                assert(args_come_alike(t, x@[0], y@[0], row));
            }
            if x@.len() > 1 {
                assert(args_come_alike(t, x@[1], y@[1], row));
            }
            if x@.len() > 2 {
                assert(args_come_alike(t, x@[2], y@[2], row));
            }
            assert(arg_name(f, 0) == arg_name(g, 0));
            assert(arg_literal(f, 1, "expected pattern literal"@) == arg_literal(
                g,
                1,
                "expected pattern literal"@,
            ));
            assert(arg_literal(f, 2, "expected replacement literal"@) == arg_literal(
                g,
                2,
                "expected replacement literal"@,
            ));
        },
        _ => {},
    }
}

spec fn args_come_alike(t: Table, x: FunctionArg, y: FunctionArg, row: int) -> bool {
    match (x, y) {
        (FunctionArg::Expr(u), FunctionArg::Expr(v)) => {
            &&& int_of(t, u, row) == int_of(t, v, row)
            &&& text_of(t, u, row) == text_of(t, v, row)
            &&& column_name(u) == column_name(v)
            &&& u is Value == v is Value
            &&& u is Value ==> same_literal(u->Value_0, v->Value_0)
        },
        (FunctionArg::Wildcard, FunctionArg::Wildcard) => true,
        _ => false,
    }
}

/// What is alike is so in both directions.
pub proof fn law_alike_both_ways(a: Expr, b: Expr)
    requires
        same_expr(a, b),
    ensures
        same_expr(b, a),
    decreases a,
{
    match (a, b) {
        (
            Expr::BinaryOp { left: l, op: o, right: r },
            Expr::BinaryOp { left: m, op: p, right: s },
        ) => {
            law_alike_both_ways(*l, *m);
            law_alike_both_ways(*r, *s);
        },
        (Expr::UnaryOp { op: o, expr: x }, Expr::UnaryOp { op: p, expr: y }) => {
            law_alike_both_ways(*x, *y);
        },
        (Expr::Nested(x), Expr::Nested(y)) | (Expr::IsNull(x), Expr::IsNull(y)) => {
            law_alike_both_ways(*x, *y);
        },
        (
            Expr::Like { negated: n, expr: x, pattern: p },
            Expr::Like { negated: m, expr: y, pattern: q },
        ) => {
            law_alike_both_ways(*x, *y);
            law_alike_both_ways(*p, *q);
        },
        (
            Expr::ILike { negated: n, expr: x, pattern: p },
            Expr::ILike { negated: m, expr: y, pattern: q },
        ) => {
            law_alike_both_ways(*x, *y);
            law_alike_both_ways(*p, *q);
        },
        (
            Expr::InList { expr: x, list: v, negated: n },
            Expr::InList { expr: y, list: w, negated: m },
        ) => {
            law_alike_both_ways(*x, *y);
            assert(same_exprs(v@, w@));
            assert forall|i: int| 0 <= i < w@.len() implies same_expr(#[trigger] w@[i], v@[i]) by {
                assert(same_expr(v@[i], w@[i]));
                law_alike_both_ways(v@[i], w@[i]);
            }
            assert(same_exprs(w@, v@));
        },
        (Expr::Function(f), Expr::Function(g)) => {
            assert(same_function(f, g));
            match (f.args, g.args) {
                (
                    FunctionArguments::List { distinct: d, args: x },
                    FunctionArguments::List { distinct: e, args: y },
                ) => {
                    assert forall|i: int| 0 <= i < y@.len() implies same_arg(
                        #[trigger] y@[i],
                        x@[i],
                    ) by {
                        assert(same_arg(x@[i], y@[i]));
                        match (x@[i], y@[i]) {
                            (FunctionArg::Expr(u), FunctionArg::Expr(v)) => {
                                law_alike_both_ways(u, v);
                            },
                            _ => {},
                        }
                    }
                },
                _ => {},
            }
            assert(same_function(g, f));
        },
        (
            Expr::Case { operand: o, conditions: c, results: r, else_result: e },
            Expr::Case { operand: p, conditions: d, results: s, else_result: f },
        ) => {
            assert(same_optional(o, p) && same_optional(e, f));
            assert(same_exprs(c@, d@) && same_exprs(r@, s@));
            if let (Some(x), Some(y)) = (o, p) {
                law_alike_both_ways(*x, *y);
            }
            if let (Some(x), Some(y)) = (e, f) {
                law_alike_both_ways(*x, *y);
            }
            assert(same_optional(p, o));
            assert(same_optional(f, e));
            assert forall|i: int| 0 <= i < d@.len() implies same_expr(#[trigger] d@[i], c@[i]) by {
                assert(same_expr(c@[i], d@[i]));
                law_alike_both_ways(c@[i], d@[i]);
            }
            assert forall|i: int| 0 <= i < s@.len() implies same_expr(#[trigger] s@[i], r@[i]) by {
                assert(same_expr(r@[i], s@[i]));
                law_alike_both_ways(r@[i], s@[i]);
            }
            assert(same_exprs(d@, c@));
            assert(same_exprs(s@, r@));
        },
        (Expr::Extract { field: f, expr: x }, Expr::Extract { field: g, expr: y }) => {
            law_alike_both_ways(*x, *y);
        },
        _ => {},
    }
}

/// Names, numbers, texts and truth values are like themselves.
pub proof fn law_alike_itself(a: Expr)
    requires
        a is Identifier || a is CompoundIdentifier || a is Value && !(a->Value_0 is Other),
    ensures
        same_expr(a, a),
{
}

/// What is made in the same way of parts that are alike is alike, and only that.
pub proof fn law_alike_made_alike(
    a: Expr,
    b: Expr,
    c: Expr,
    d: Expr,
    o: BinaryOperator,
    p: BinaryOperator,
    n: bool,
    m: bool,
)
    requires
        !(o is Other),
    ensures
        same_expr(Expr::Nested(Box::new(a)), Expr::Nested(Box::new(b))) <==> same_expr(a, b),
        same_expr(
            Expr::BinaryOp { left: Box::new(a), op: o, right: Box::new(c) },
            Expr::BinaryOp { left: Box::new(b), op: p, right: Box::new(d) },
        ) <==> same_expr(a, b) && same_expr(c, d) && o == p,
        same_expr(
            Expr::Like { negated: n, expr: Box::new(a), pattern: Box::new(c) },
            Expr::Like { negated: m, expr: Box::new(b), pattern: Box::new(d) },
        ) <==> same_expr(a, b) && same_expr(c, d) && n == m,
        !same_expr(a, Expr::Nested(Box::new(b))) || a is Nested,
{
}

} // verus!
