//! Many sums of one column with small numbers added.
use crate::error::{fails, yields, Error};
use crate::exec::group::{is_identifier, is_name};
use crate::exec::kernel::{bind, i16_column, i16s_of};
use crate::exec::result::{
    attempt, cell_rows, cells, counted, headings, labels, number_cell, Cell, CellView, QueryResult,
    ResultView,
};
use crate::sql::ast::{BinaryOperator, Expr, Literal, ParsedQuery, SelectItemKind, SelectProjection};
use crate::storage::pod::PodStorage;
use crate::storage::table::Table;
use crate::text::{decimal, law_numeral_read_back, parse_i64, parsed_i64};
use vstd::prelude::*;

verus! {

/// Whether a query asks for ten sums or more and for nothing else.
pub open spec fn many_sums(q: ParsedQuery) -> bool {
    &&& q.group_by@.len() == 0
    &&& q.where_expr is None
    &&& q.select_items@.len() >= 10
    &&& forall|i: int| 0 <= i < q.select_items@.len() ==> (#[trigger] q.select_items@[i]).kind is Sum
}

/// Whether a query asks for ten sums or more and for nothing else.
pub fn is_many_sums(parsed: &ParsedQuery) -> (r: bool)
    ensures
        r == many_sums(*parsed),
{
    if parsed.group_by.len() != 0 || parsed.where_expr.is_some() || parsed.select_items.len() < 10 {
        return false;
    }
    let items = &parsed.select_items;
    let mut i: usize = 0;
    while i < items.len()
        invariant
            i <= items@.len(),
            *items == parsed.select_items,
            forall|k: int| 0 <= k < i ==> (#[trigger] items@[k]).kind is Sum,
        decreases items@.len() - i,
    {
        match &items[i].kind {
            SelectItemKind::Sum(_) => {},
            _ => {
                assert(!(items@[i as int].kind is Sum));
                return false;
            },
        }
        i = i + 1;
    }
    true
}

/// A small number that a text gives.
pub open spec fn parsed_i16(s: Seq<char>) -> Option<i16> {
    match parsed_i64(s) {
        Some(v) => if i16::MIN <= v <= i16::MAX {
            Some(v as i16)
        } else {
            None
        },
        None => None,
    }
}

/// The number that a sum adds to the width: a literal beside it.
pub open spec fn added(e: Expr) -> Result<i16, Seq<char>> {
    if is_name(e, "ResolutionWidth"@) {
        Ok(0)
    } else {
        match e {
            Expr::BinaryOp { left, op: BinaryOperator::Plus, right } => match (*left, *right) {
                (Expr::Identifier(s), Expr::Value(Literal::Number(k))) => if s@
                    == "ResolutionWidth"@ {
                    small_number(k@)
                } else {
                    Err("expected ResolutionWidth + k"@)
                },
                (Expr::Value(Literal::Number(k)), Expr::Identifier(s)) => if s@
                    == "ResolutionWidth"@ {
                    small_number(k@)
                } else {
                    Err("expected ResolutionWidth + k"@)
                },
                _ => Err("expected ResolutionWidth + k"@),
            },
            _ => Err("expected plus"@),
        }
    }
}

/// A small number that a text gives.
pub open spec fn small_number(s: Seq<char>) -> Result<i16, Seq<char>> {
    match parsed_i16(s) {
        Some(v) => Ok(v),
        None => Err("bad k"@),
    }
}

fn parse_small(s: &str) -> (r: Result<i16, Error>)
    ensures
        match r {
            Ok(v) => yields(small_number(s@), v),
            Err(e) => fails(small_number(s@), e@),
        },
{
    match parse_i64(s) {
        Some(v) => {
            if v >= -32_768 && v <= 32_767 {
                return Ok(v as i16);
            }
            Err(Error::msg("bad k"))
        },
        None => Err(Error::msg("bad k")),
    }
}

/// The number that a sum adds to the width.
pub fn parse_resolution_plus_k(expr: &Expr) -> (r: Result<i16, Error>)
    ensures
        match r {
            Ok(v) => yields(added(*expr), v),
            Err(e) => fails(added(*expr), e@),
        },
{
    if is_identifier(expr, "ResolutionWidth") {
        return Ok(0);
    }
    match expr {
        Expr::BinaryOp { left, op: BinaryOperator::Plus, right } => match (&**left, &**right) {
            (Expr::Identifier(_), Expr::Value(Literal::Number(k))) => {
                if is_identifier(left, "ResolutionWidth") {
                    parse_small(k.as_str())
                } else {
                    Err(Error::msg("expected ResolutionWidth + k"))
                }
            },
            (Expr::Value(Literal::Number(k)), Expr::Identifier(_)) => {
                if is_identifier(right, "ResolutionWidth") {
                    parse_small(k.as_str())
                } else {
                    Err(Error::msg("expected ResolutionWidth + k"))
                }
            },
            _ => Err(Error::msg("expected ResolutionWidth + k")),
        },
        _ => Err(Error::msg("expected plus")),
    }
}

/// The sum over the first `n` widths with a number added to each.
pub open spec fn width_sum(w: Seq<i16>, k: i16, n: nat) -> int
    decreases n,
{
    if n == 0 {
        0
    } else {
        width_sum(w, k, (n - 1) as nat) + w[n - 1] + k
    }
}

fn sum_widths(w: &PodStorage<i16>, k: i16, n: usize) -> (s: i128)
    requires
        w@.len() >= n,
    ensures
        s == width_sum(w@, k, n as nat),
        s > i128::MIN,
{
    let mut s: i128 = 0;
    let mut i: usize = 0;
    while i < n
        invariant
            i <= n <= w@.len(),
            s == width_sum(w@, k, i as nat),
            -0x10000 * i <= s <= 0x10000 * i,
        decreases n - i,
    {
        s = s + (w.get(i) as i128 + k as i128);
        i = i + 1;
    }
    s
}

/// The first `k` sums.
pub open spec fn width_sums(items: Seq<SelectProjection>, w: Seq<i16>, n: nat, k: nat) -> Result<
    Seq<CellView>,
    Seq<char>,
>
    decreases k,
{
    if k == 0 {
        Ok(Seq::empty())
    } else {
        match width_sums(items, w, n, (k - 1) as nat) {
            Err(m) => Err(m),
            Ok(front) => match added(items[k - 1].kind->Sum_0) {
                Err(m) => Err(m),
                Ok(x) => Ok(front.push(counted(width_sum(w, x, n)))),
            },
        }
    }
}

proof fn lemma_width_sums_fault(items: Seq<SelectProjection>, w: Seq<i16>, n: nat, i: nat, k: nat)
    requires
        i <= k,
        width_sums(items, w, n, i) is Err,
    ensures
        width_sums(items, w, n, k) == width_sums(items, w, n, i),
    decreases k,
{
    if i < k {
        lemma_width_sums_fault(items, w, n, i, (k - 1) as nat);
    }
}

/// What many sums of the width come to.
pub open spec fn sums_result(t: Table, q: ParsedQuery, n: nat) -> Result<
    Option<ResultView>,
    Seq<char>,
>
{
    if !many_sums(q) {
        Ok(None)
    } else {
        bind(
            i16s_of(t, "ResolutionWidth"@),
            |w: Seq<i16>|
                match width_sums(q.select_items@, w, n, q.select_items@.len()) {
                    Err(m) => Err(m),
                    Ok(row) => Ok(
                        Some(ResultView { columns: labels(q.select_items@), rows: seq![row] }),
                    ),
                },
        )
    }
}

/// Many sums of the width, if that is what the query asks for.
pub fn try_execute_q29(table: &Table, parsed: &ParsedQuery, row_count: usize) -> (r: Result<
    Option<QueryResult>,
    Error,
>)
    requires
        table.wf(),
        table.holds_rows(row_count as int),
    ensures
        attempt(r) == sums_result(*table, *parsed, row_count as nat),
{
    if !is_many_sums(parsed) {
        return Ok(None);
    }
    let w = match i16_column(table, "ResolutionWidth", row_count) {
        Err(e) => {
            return Err(e);
        },
        Ok(None) => {
            return Ok(None);
        },
        Ok(Some(c)) => c,
    };
    let items = &parsed.select_items;
    let mut row: Vec<Cell> = Vec::new();
    let mut i: usize = 0;
    assert(cells(row@) =~= Seq::<CellView>::empty());
    while i < items.len()
        invariant
            i <= items@.len(),
            *items == parsed.select_items,
            many_sums(*parsed),
            w@.len() >= row_count,
            yields(i16s_of(*table, "ResolutionWidth"@), Some(w@)),
            yields(width_sums(items@, w@, row_count as nat, i as nat), cells(row@)),
        decreases items@.len() - i,
    {
        assert(items@[i as int].kind is Sum);
        let k = match &items[i].kind {
            SelectItemKind::Sum(e) => parse_resolution_plus_k(e),
            _ => Err(Error::msg("expected sum")),
        };
        match k {
            Err(e) => {
                proof {
                    lemma_width_sums_fault(
                        items@,
                        w@,
                        row_count as nat,
                        (i + 1) as nat,
                        items@.len(),
                    );
                }
                return Err(e);
            },
            Ok(x) => {
                let ghost sofar = row@;
                let c = number_cell(sum_widths(w, x, row_count));
                row.push(c);
                assert(cells(row@) =~= cells(sofar).push(c@));
            },
        }
        i = i + 1;
    }
    let mut out: Vec<Vec<Cell>> = Vec::new();
    out.push(row);
    assert(cell_rows(out@) =~= seq![cells(row@)]);
    Ok(Some(QueryResult { columns: headings(parsed), rows: out }))
}

/// The sum of widths with a number added to each is their sum and that number for each.
pub proof fn law_added_sum(w: Seq<i16>, k: i16, n: nat)
    requires
        n <= w.len(),
    ensures
        width_sum(w, 0, n) == w.take(n as int).fold_left(0int, |sum: int, v: i16| sum + v),
        width_sum(w, k, n) == width_sum(w, 0, n) + k * n,
    decreases n,
{
    let f = |sum: int, v: i16| sum + v;
    let front = w.take(n as int);
    if n > 0 {
        law_added_sum(w, k, (n - 1) as nat);
        assert(front.drop_last() =~= w.take(n - 1));
        assert(front.last() == w[n - 1]);
        assert(k * n == k * (n - 1) + k) by (nonlinear_arith);
    }
}

/// Many sums stand in one row, each in its place: the sum of the widths, and for a sum of
/// the width and a number that number as often as there are rows besides.
pub proof fn law_many_sums(t: Table, q: ParsedQuery, n: nat, r: ResultView, w: Seq<i16>, i: int, k: i16)
    requires
        yields(sums_result(t, q, n), Some(r)),
        yields(i16s_of(t, "ResolutionWidth"@), Some(w)),
        n <= w.len(),
        0 <= i < q.select_items@.len(),
    ensures
        r.rows.len() == 1,
        r.rows[0].len() == q.select_items@.len(),
        adds(q.select_items@[i].kind->Sum_0, k) ==> r.rows[0][i] == counted(
            w.take(n as int).fold_left(0int, |sum: int, v: i16| sum + v) + k * n,
        ),
{
    let items = q.select_items@;
    law_added_sum(w, k, n);
    law_numeral_read_back(k as int);
    lemma_width_sums(items, w, n, items.len(), i);
    assert(items[i].kind is Sum);
    if adds(items[i].kind->Sum_0, k) {
        assert(yields(added(items[i].kind->Sum_0), k));
    }
}

/// Whether an expression is the width with a number added to it.
pub open spec fn adds(e: Expr, k: i16) -> bool {
    ||| k == 0 && e is Identifier && e->Identifier_0@ == "ResolutionWidth"@
    ||| exists|x: String, d: String|
        #![trigger plus(Expr::Identifier(x), Expr::Value(Literal::Number(d)))]
        x@ == "ResolutionWidth"@ && d@ == decimal(k as int) && (e == plus(
            Expr::Identifier(x),
            Expr::Value(Literal::Number(d)),
        ) || e == plus(Expr::Value(Literal::Number(d)), Expr::Identifier(x)))
}

/// The sum of two expressions.
pub open spec fn plus(a: Expr, b: Expr) -> Expr {
    Expr::BinaryOp { left: Box::new(a), op: BinaryOperator::Plus, right: Box::new(b) }
}

proof fn lemma_width_sums(items: Seq<SelectProjection>, w: Seq<i16>, n: nat, k: nat, i: int)
    requires
        width_sums(items, w, n, k) is Ok,
        k <= items.len(),
    ensures
        width_sums(items, w, n, k)->Ok_0.len() == k,
        0 <= i < k ==> added(items[i].kind->Sum_0) is Ok && width_sums(items, w, n, k)->Ok_0[i]
            == counted(width_sum(w, added(items[i].kind->Sum_0)->Ok_0, n)),
    decreases k,
{
    if k > 0 {
        lemma_width_sums(items, w, n, (k - 1) as nat, i);
    }
}

} // verus!
