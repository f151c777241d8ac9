//! What evaluation depends on.
use crate::expr::eval::{
    bool_of, case_choice, case_len, found_in, function_int, gives_text, int_of, key_of, list_len,
    replace_text, text_of,
};
use crate::sql::ast::{Expr, Function, FunctionArg, FunctionArguments, ParsedQuery};
use crate::sql::columns::{arg_mentions, function_mentions, mentions, query_mentions};
use crate::sql::query::column_name;
use crate::storage::table::Table;
use vstd::prelude::*;

verus! {

/// Whether two tables have the same values in the columns that an expression
/// refers to.
pub open spec fn agree(a: Table, b: Table, e: Expr) -> bool {
    forall|n: Seq<char>| #[trigger] mentions(e, n) ==> same_column(a, b, n)
}

/// Whether two tables have the same values in a column.
pub open spec fn same_column(a: Table, b: Table, n: Seq<char>) -> bool {
    a.has(n) == b.has(n) && (a.has(n) ==> a.col(n) == b.col(n))
}

proof fn lemma_agree_part(a: Table, b: Table, e: Expr, x: Expr)
    requires
        agree(a, b, e),
        forall|n: Seq<char>| mentions(x, n) ==> mentions(e, n),
    ensures
        agree(a, b, x),
{
    assert forall|n: Seq<char>| #[trigger] mentions(x, n) implies same_column(a, b, n) by {
        assert(mentions(e, n));
    }
}

proof fn lemma_named(a: Table, b: Table, e: Expr)
    requires
        agree(a, b, e),
        e is Identifier || e is CompoundIdentifier,
        column_name(e) is Some,
    ensures
        same_column(a, b, column_name(e)->Some_0),
{
    assert(mentions(e, column_name(e)->Some_0));
}

/// An expression has the same value on a row of two tables that have the same
/// values in the columns it refers to: loading those columns is enough.
pub proof fn law_evaluation_reads_mentioned(a: Table, b: Table, e: Expr, row: int)
    requires
        agree(a, b, e),
    ensures
        int_of(a, e, row) == int_of(b, e, row),
        text_of(a, e, row) == text_of(b, e, row),
        bool_of(a, e, row) == bool_of(b, e, row),
        gives_text(a, e, row) == gives_text(b, e, row),
        key_of(a, e, row) == key_of(b, e, row),
    decreases e, 1int, 0int,
{
    match e {
        Expr::Identifier(_) => {
            lemma_named(a, b, e);
        },
        Expr::CompoundIdentifier(_) => {
            if column_name(e) is Some {
                lemma_named(a, b, e);
            }
        },
        Expr::BinaryOp { left, op, right } => {
            lemma_agree_part(a, b, e, *left);
            lemma_agree_part(a, b, e, *right);
            law_evaluation_reads_mentioned(a, b, *left, row);
            law_evaluation_reads_mentioned(a, b, *right, row);
            if column_name(*left) is Some {
                lemma_named(a, b, *left);
            }
            if column_name(*right) is Some {
                lemma_named(a, b, *right);
            }
        },
        Expr::UnaryOp { op, expr } => {
            lemma_agree_part(a, b, e, *expr);
            law_evaluation_reads_mentioned(a, b, *expr, row);
        },
        Expr::Nested(x) => {
            lemma_agree_part(a, b, e, *x);
            law_evaluation_reads_mentioned(a, b, *x, row);
        },
        Expr::Cast { expr } => {
            lemma_agree_part(a, b, e, *expr);
            law_evaluation_reads_mentioned(a, b, *expr, row);
        },
        Expr::Like { expr, .. } => {
            lemma_agree_part(a, b, e, *expr);
            law_evaluation_reads_mentioned(a, b, *expr, row);
        },
        Expr::ILike { expr, .. } => {
            lemma_agree_part(a, b, e, *expr);
            law_evaluation_reads_mentioned(a, b, *expr, row);
        },
        Expr::InList { expr, list, .. } => {
            lemma_agree_part(a, b, e, *expr);
            law_evaluation_reads_mentioned(a, b, *expr, row);
            if int_of(a, *expr, row) is Ok {
                lemma_found_in(a, b, e, 0, int_of(a, *expr, row)->Ok_0, row);
            }
        },
        Expr::Function(f) => {
            assert forall|n: Seq<char>| #[trigger] function_mentions(f, n) implies same_column(
                a,
                b,
                n,
            ) by {
                assert(mentions(e, n));
            }
            lemma_function(a, b, f, row);
        },
        Expr::Case { operand, conditions, results, else_result } => {
            lemma_case_choice(a, b, e, 0, row);
            if let Some(x) = operand {
                lemma_agree_part(a, b, e, *x);
                law_evaluation_reads_mentioned(a, b, *x, row);
            }
            if let Some(x) = else_result {
                lemma_agree_part(a, b, e, *x);
                law_evaluation_reads_mentioned(a, b, *x, row);
            }
            assert forall|i: int| 0 <= i < results@.len() implies int_of(
                a,
                #[trigger] results@[i],
                row,
            ) == int_of(b, results@[i], row) && text_of(a, results@[i], row) == text_of(
                b,
                results@[i],
                row,
            ) && gives_text(a, results@[i], row) == gives_text(b, results@[i], row) by {
                lemma_agree_part(a, b, e, results@[i]);
                law_evaluation_reads_mentioned(a, b, results@[i], row);
            }
        },
        Expr::Extract { expr, .. } => {
            lemma_agree_part(a, b, e, *expr);
            law_evaluation_reads_mentioned(a, b, *expr, row);
        },
        _ => {},
    }
}

proof fn lemma_found_in(a: Table, b: Table, e: Expr, i: int, v: i64, row: int)
    requires
        agree(a, b, e),
        e is InList,
        0 <= i,
    ensures
        found_in(a, e, i, v, row) == found_in(b, e, i, v, row),
    decreases e, 0int, list_len(e) - i,
{
    match e {
        Expr::InList { list, .. } => {
            if i < list@.len() {
                lemma_agree_part(a, b, e, list@[i]);
                law_evaluation_reads_mentioned(a, b, list@[i], row);
                lemma_found_in(a, b, e, i + 1, v, row);
            }
        },
        _ => {},
    }
}

proof fn lemma_case_choice(a: Table, b: Table, e: Expr, i: int, row: int)
    requires
        agree(a, b, e),
        e is Case,
        0 <= i,
    ensures
        case_choice(a, e, i, row) == case_choice(b, e, i, row),
    decreases e, 0int, case_len(e) - i,
{
    match e {
        Expr::Case { conditions, results, .. } => {
            if i < conditions@.len() && i < results@.len() {
                lemma_agree_part(a, b, e, conditions@[i]);
                law_evaluation_reads_mentioned(a, b, conditions@[i], row);
                lemma_case_choice(a, b, e, i + 1, row);
            }
        },
        _ => {},
    }
}

proof fn lemma_function(a: Table, b: Table, f: Function, row: int)
    requires
        forall|n: Seq<char>| #[trigger] function_mentions(f, n) ==> same_column(a, b, n),
    ensures
        function_int(a, f, row) == function_int(b, f, row),
        replace_text(a, f, row) == replace_text(b, f, row),
    decreases f, 0int, 0int,
{
    match f.args {
        FunctionArguments::List { args, .. } => {
            assert forall|i: int| 0 <= i < args@.len() implies #[trigger] arg_same(
                a,
                b,
                args@[i],
                row,
            ) by {
                match args@[i] {
                    FunctionArg::Expr(x) => {
                        assert forall|n: Seq<char>| #[trigger] mentions(x, n) implies same_column(
                            a,
                            b,
                            n,
                        ) by {
                            assert(arg_mentions(args@[i], n));
                            assert(function_mentions(f, n));
                        }
                        law_evaluation_reads_mentioned(a, b, x, row);
                    },
                    _ => {},
                }
            }
            if args@.len() > 0 {
                assert(arg_same(a, b, args@[0], row));
            }
            if args@.len() > 1 {
                assert(arg_same(a, b, args@[1], row));
            }
        },
        _ => {},
    }
}

spec fn arg_same(a: Table, b: Table, arg: FunctionArg, row: int) -> bool {
    match arg {
        FunctionArg::Expr(x) => int_of(a, x, row) == int_of(b, x, row) && text_of(a, x, row)
            == text_of(b, x, row),
        _ => true,
    }
}

/// The filter of a query has the same value on a row of two tables that have
/// the same values in the columns that the query refers to.
pub proof fn law_filter_reads_referenced(a: Table, b: Table, q: ParsedQuery, row: int)
    requires
        forall|n: Seq<char>| #[trigger] query_mentions(q, n) ==> same_column(a, b, n),
        q.where_expr is Some,
    ensures
        bool_of(a, q.where_expr->Some_0, row) == bool_of(b, q.where_expr->Some_0, row),
{
    let e = q.where_expr->Some_0;
    assert forall|n: Seq<char>| #[trigger] mentions(e, n) implies same_column(a, b, n) by {
        assert(query_mentions(q, n));
    }
    law_evaluation_reads_mentioned(a, b, e, row);
}

} // verus!
