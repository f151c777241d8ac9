//! HAVING COUNT(*) > N.
use crate::sql::ast::{BinaryOperator, Expr, Literal};
use crate::text::{parse_u64, parsed_u64, str_eq, to_uppercase, uppercased};
use vstd::prelude::*;

verus! {

/// The number that a count has to exceed, if the condition is `COUNT(..) > N`.
pub open spec fn count_threshold(e: Expr) -> Option<u64> {
    match e {
        Expr::BinaryOp { left, op: BinaryOperator::Gt, right } => match (*left, *right) {
            (Expr::Function(f), Expr::Value(Literal::Number(n))) => if uppercased(f.name@)
                == "COUNT"@ {
                parsed_u64(n@)
            } else {
                None
            },
            _ => None,
        },
        _ => None,
    }
}

/// The number that a count has to exceed, if the condition is `COUNT(..) > N`.
pub fn having_threshold(e: &Expr) -> (r: Option<u64>)
    ensures
        r == count_threshold(*e),
{
    match e {
        Expr::BinaryOp { left, op, right } => match op {
            BinaryOperator::Gt => match &**left {
                Expr::Function(f) => match &**right {
                    Expr::Value(Literal::Number(n)) => {
                        let upper = to_uppercase(f.name.as_str());
                        if str_eq(upper.as_str(), "COUNT") {
                            parse_u64(n.as_str())
                        } else {
                            None
                        }
                    },
                    _ => None,
                },
                _ => None,
            },
            _ => None,
        },
        _ => None,
    }
}

/// The number that a count has to exceed, if there is such a condition.
pub open spec fn threshold_of(having: Option<Expr>) -> Option<u64> {
    match having {
        Some(e) => count_threshold(e),
        None => None,
    }
}

/// The number that a count has to exceed, if there is such a condition.
pub fn parse_having_count_gt(having: &Option<Expr>) -> (r: Option<u64>)
    ensures
        r == threshold_of(*having),
{
    match having {
        Some(e) => having_threshold(e),
        None => None,
    }
}

/// Whether a group of a number of rows meets the condition.
pub open spec fn passes(e: Expr, count: nat) -> bool {
    match count_threshold(e) {
        Some(n) => count > n,
        None => true,
    }
}

/// Whether a group with at most so many rows can meet the condition.
pub open spec fn can_match(e: Expr, rows: u64) -> bool {
    match count_threshold(e) {
        Some(n) => n < rows,
        None => true,
    }
}

/// Whether a group with at most so many rows can meet the condition.
pub fn having_can_match(having: &Expr, max_rows_in_any_group: u64) -> (r: bool)
    ensures
        r == can_match(*having, max_rows_in_any_group),
{
    match having_threshold(having) {
        Some(n) => n < max_rows_in_any_group,
        None => true,
    }
}

/// Where no group can meet the condition, none does.
pub proof fn law_having_shortcut(e: Expr, rows: u64, count: nat)
    requires
        !can_match(e, rows),
        count <= rows,
    ensures
        !passes(e, count),
{
}

} // verus!
