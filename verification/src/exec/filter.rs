//! The rows that a WHERE clause selects.
use crate::error::{fails, outcome, yields, Error};
use crate::exec::having::{can_match, having_can_match};
use crate::exec::mask_util::{lemma_selected, selected, selected_indices};
use crate::expr::eval::{bool_of, eval_bool};
use crate::sql::ast::{Expr, ParsedQuery};
use crate::storage::table::Table;
use vstd::prelude::*;

verus! {

/// For each of the first `n` rows whether the condition holds, or why the first
/// row on which it cannot be decided is that.
pub open spec fn filtered(t: Table, condition: Option<Expr>, n: nat) -> Result<Seq<bool>, Seq<char>>
    decreases n,
{
    match condition {
        None => Ok(Seq::new(n, |i: int| true)),
        Some(e) => if n == 0 {
            Ok(Seq::empty())
        } else {
            match filtered(t, condition, (n - 1) as nat) {
                Err(m) => Err(m),
                Ok(mask) => match bool_of(t, e, n - 1) {
                    Err(m) => Err(m),
                    Ok(b) => Ok(mask.push(b)),
                },
            }
        },
    }
}

/// A mask has one entry for each row.
pub proof fn lemma_filtered_len(t: Table, condition: Option<Expr>, n: nat)
    ensures
        filtered(t, condition, n) matches Ok(mask) ==> mask.len() == n,
    decreases n,
{
    if n > 0 {
        lemma_filtered_len(t, condition, (n - 1) as nat);
    }
}

proof fn lemma_filtered_fault(t: Table, condition: Option<Expr>, i: nat, n: nat)
    requires
        i <= n,
        filtered(t, condition, i) is Err,
    ensures
        filtered(t, condition, n) == filtered(t, condition, i),
    decreases n,
{
    if i < n {
        lemma_filtered_fault(t, condition, i, (n - 1) as nat);
    }
}

/// A row is selected if and only if the condition holds on it.
pub proof fn law_filter_selects(t: Table, e: Expr, n: nat, row: int)
    requires
        filtered(t, Some(e), n) is Ok,
        0 <= row < n,
    ensures
        yields(bool_of(t, e, row), filtered(t, Some(e), n)->Ok_0[row]),
    decreases n,
{
    lemma_filtered_len(t, Some(e), n);
    lemma_filtered_len(t, Some(e), (n - 1) as nat);
    if row < n - 1 {
        law_filter_selects(t, e, (n - 1) as nat, row);
    }
}

/// For each row whether the condition holds.
pub fn build_filter_mask(table: &Table, where_expr: &Option<Expr>, row_count: usize) -> (r: Result<
    Vec<bool>,
    Error,
>)
    requires
        table.wf(),
        table.holds_rows(row_count as int),
    ensures
        match r {
            Ok(mask) => yields(filtered(*table, *where_expr, row_count as nat), mask@) && mask@.len()
                == row_count,
            Err(e) => fails(filtered(*table, *where_expr, row_count as nat), e@),
        },
{
    let mut mask: Vec<bool> = Vec::new();
    let mut i: usize = 0;
    match where_expr {
        None => {
            while i < row_count
                invariant
                    i <= row_count,
                    mask@ =~= Seq::new(i as nat, |k: int| true),
                decreases row_count - i,
            {
                mask.push(true);
                i = i + 1;
            }
            Ok(mask)
        },
        Some(expr) => {
            assert(mask@ =~= Seq::<bool>::empty());
            while i < row_count
                invariant
                    i <= row_count,
                    table.wf(),
                    table.holds_rows(row_count as int),
                    *where_expr == Some(*expr),
                    yields(filtered(*table, *where_expr, i as nat), mask@),
                    mask@.len() == i,
                decreases row_count - i,
            {
                assert(table.covers_row(i as int));
                match eval_bool(table, expr, i) {
                    Err(e) => {
                        proof {
                            lemma_filtered_fault(
                                *table,
                                *where_expr,
                                (i + 1) as nat,
                                row_count as nat,
                            );
                        }
                        return Err(e);
                    },
                    Ok(b) => {
                        mask.push(b);
                    },
                }
                i = i + 1;
            }
            Ok(mask)
        },
    }
}

/// The condition on groups, on data that is not grouped.
pub fn eval_having_bool(table: &Table, expr: &Expr, row: usize, mask: &[bool]) -> (r: Result<
    bool,
    Error,
>)
    ensures
        fails(outcome(r), "HAVING eval not in filter"@),
{
    let _ = (table, expr, row, mask);
    Err(Error::msg("HAVING eval not in filter"))
}

/// The larger of a number and one.
pub open spec fn at_least_one(n: nat) -> u64 {
    if n == 0 {
        1u64
    } else {
        n as u64
    }
}

/// The mask of a query, unless no group of the rows that it selects can meet the
/// condition on groups.
pub open spec fn masked(t: Table, q: ParsedQuery, n: nat) -> Result<Option<Seq<bool>>, Seq<char>> {
    match filtered(t, q.where_expr, n) {
        Err(m) => Err(m),
        Ok(mask) => match q.having {
            Some(h) if !can_match(h, at_least_one(selected(mask).len())) => Ok(None),
            _ => Ok(Some(mask)),
        },
    }
}

/// The mask of a query, unless no group of the rows that it selects can meet the
/// condition on groups.
pub fn build_mask(table: &Table, parsed: &ParsedQuery, row_count: usize) -> (r: Result<
    Option<Vec<bool>>,
    Error,
>)
    requires
        table.wf(),
        table.holds_rows(row_count as int),
    ensures
        match r {
            Ok(Some(mask)) => yields(masked(*table, *parsed, row_count as nat), Some(mask@))
                && mask@.len() == row_count,
            Ok(None) => yields(masked(*table, *parsed, row_count as nat), None),
            Err(e) => fails(masked(*table, *parsed, row_count as nat), e@),
        },
{
    let mask = match build_filter_mask(table, &parsed.where_expr, row_count) {
        Ok(m) => m,
        Err(e) => {
            return Err(e);
        },
    };
    if let Some(h) = &parsed.having {
        let rows: usize = selected_indices(mask.as_slice()).len();
        proof {
            lemma_selected(mask@);
        }
        let most: u64 = if rows == 0 {
            1
        } else {
            rows as u64
        };
        if !having_can_match(h, most) {
            return Ok(None);
        }
    }
    Ok(Some(mask))
}

} // verus!
