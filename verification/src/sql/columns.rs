//! The columns that a query refers to.
use crate::error::Error;
use crate::sql::ast::{Expr, Function, FunctionArg, FunctionArguments, ParsedQuery, SelectItemKind};
use crate::sql::query::{column_name, column_ref, parse_query, query_read};
use crate::sql::tree::statements_of;
use crate::text::str_eq;
use vstd::prelude::*;

verus! {

/// Whether an expression refers to a column. A `LIKE` pattern is a literal and
/// refers to none.
pub open spec fn mentions(e: Expr, name: Seq<char>) -> bool
    decreases e,
{
    match e {
        Expr::Identifier(_) => column_name(e) == Some(name),
        Expr::CompoundIdentifier(_) => column_name(e) == Some(name),
        Expr::BinaryOp { left, right, .. } => mentions(*left, name) || mentions(*right, name),
        Expr::UnaryOp { expr, .. } => mentions(*expr, name),
        Expr::Nested(x) => mentions(*x, name),
        Expr::Cast { expr } => mentions(*expr, name),
        Expr::Like { expr, .. } => mentions(*expr, name),
        Expr::ILike { expr, .. } => mentions(*expr, name),
        Expr::InList { expr, list, .. } => mentions(*expr, name) || exists|i: int|
            0 <= i < list@.len() && mentions(#[trigger] list@[i], name),
        Expr::Function(f) => function_mentions(f, name),
        Expr::Case { operand, conditions, results, else_result } => {
            ||| operand matches Some(x) && mentions(*x, name)
            ||| exists|i: int| 0 <= i < conditions@.len() && mentions(#[trigger] conditions@[i], name)
            ||| exists|i: int| 0 <= i < results@.len() && mentions(#[trigger] results@[i], name)
            ||| else_result matches Some(x) && mentions(*x, name)
        },
        Expr::Extract { expr, .. } => mentions(*expr, name),
        Expr::IsNull(x) => mentions(*x, name),
        Expr::Value(_) => false,
        Expr::Other => false,
    }
}

/// Whether an argument of a function refers to a column.
pub open spec fn function_mentions(f: Function, name: Seq<char>) -> bool
    decreases f,
{
    match f.args {
        FunctionArguments::List { args, .. } => exists|i: int|
            0 <= i < args@.len() && arg_mentions(#[trigger] args@[i], name),
        _ => false,
    }
}

/// Whether an argument refers to a column.
pub open spec fn arg_mentions(a: FunctionArg, name: Seq<char>) -> bool
    decreases a,
{
    match a {
        FunctionArg::Expr(e) => mentions(e, name),
        _ => false,
    }
}

/// Whether a projection refers to a column.
pub open spec fn kind_mentions(kind: SelectItemKind, name: Seq<char>) -> bool {
    match kind {
        SelectItemKind::CountAll => false,
        SelectItemKind::Sum(e) => mentions(e, name),
        SelectItemKind::Avg(e) => mentions(e, name),
        SelectItemKind::Count(e) => mentions(e, name),
        SelectItemKind::CountDistinct(e) => mentions(e, name),
        SelectItemKind::Min(e) => mentions(e, name),
        SelectItemKind::Max(e) => mentions(e, name),
        SelectItemKind::Column(e) => mentions(e, name),
        SelectItemKind::Other(e) => mentions(e, name),
    }
}

/// Whether a query refers to a column, in its select list, its filter, its
/// grouping, its group filter or its order.
pub open spec fn query_mentions(q: ParsedQuery, name: Seq<char>) -> bool {
    ||| exists|i: int|
        0 <= i < q.select_items@.len() && kind_mentions((#[trigger] q.select_items@[i]).kind, name)
    ||| q.where_expr matches Some(e) && mentions(e, name)
    ||| exists|i: int| 0 <= i < q.group_by@.len() && mentions(#[trigger] q.group_by@[i], name)
    ||| q.having matches Some(e) && mentions(e, name)
    ||| exists|i: int| 0 <= i < q.order_by@.len() && mentions((#[trigger] q.order_by@[i]).0, name)
}

/// Whether a list of names holds a name.
pub open spec fn holds(cols: Seq<String>, name: Seq<char>) -> bool {
    exists|i: int| 0 <= i < cols.len() && (#[trigger] cols[i])@ == name
}

/// Whether no name is in a list twice.
pub open spec fn distinct_names(cols: Seq<String>) -> bool {
    forall|i: int, j: int|
        0 <= i < j < cols.len() ==> (#[trigger] cols[i])@ != (#[trigger] cols[j])@
}

/// Whether a list has grown by the names that `p` selects.
pub open spec fn grown(before: Seq<String>, after: Seq<String>, p: spec_fn(Seq<char>) -> bool) -> bool {
    forall|n: Seq<char>| #[trigger] holds(after, n) <==> holds(before, n) || p(n)
}

/// Whether a list of names holds a name.
pub fn holds_name(cols: &Vec<String>, name: &str) -> (r: bool)
    ensures
        r == holds(cols@, name@),
{
    let mut i: usize = 0;
    while i < cols.len()
        invariant
            i <= cols@.len(),
            forall|k: int| 0 <= k < i ==> (#[trigger] cols@[k])@ != name@,
        decreases cols@.len() - i,
    {
        if str_eq(cols[i].as_str(), name) {
            return true;
        }
        i = i + 1;
    }
    false
}

fn insert_name(cols: &mut Vec<String>, name: &str)
    requires
        distinct_names(old(cols)@),
    ensures
        distinct_names(final(cols)@),
        grown(old(cols)@, final(cols)@, |n: Seq<char>| n == name@),
{
    if holds_name(cols, name) {
        return;
    }
    let ghost before = cols@;
    cols.push(String::from_str(name));
    proof {
        assert(cols@[before.len() as int]@ == name@);
        assert forall|n: Seq<char>| #[trigger] holds(cols@, n) <==> holds(before, n) || n == name@ by {
            if holds(before, n) {
                let k = choose|k: int| 0 <= k < before.len() && (#[trigger] before[k])@ == n;
                assert(cols@[k]@ == n);
            }
            if holds(cols@, n) {
                let k = choose|k: int| 0 <= k < cols@.len() && (#[trigger] cols@[k])@ == n;
                if k < before.len() {
                    assert(before[k]@ == n);
                }
            }
        }
    }
}

fn collect_exprs(list: &Vec<Expr>, cols: &mut Vec<String>)
    requires
        distinct_names(old(cols)@),
    ensures
        distinct_names(final(cols)@),
        grown(
            old(cols)@,
            final(cols)@,
            |n: Seq<char>| exists|i: int| 0 <= i < list@.len() && mentions(#[trigger] list@[i], n),
        ),
    decreases list@,
{
    let mut i: usize = 0;
    while i < list.len()
        invariant
            i <= list@.len(),
            distinct_names(cols@),
            forall|n: Seq<char>| #[trigger]
                holds(cols@, n) <==> holds(old(cols)@, n) || exists|k: int|
                    0 <= k < i && mentions(#[trigger] list@[k], n),
        decreases list@.len() - i,
    {
        assert(decreases_to!(list@ => list@[i as int]));
        collect_expr(&list[i], cols);
        i = i + 1;
    }
}

fn collect_function(f: &Function, cols: &mut Vec<String>)
    requires
        distinct_names(old(cols)@),
    ensures
        distinct_names(final(cols)@),
        grown(old(cols)@, final(cols)@, |n: Seq<char>| function_mentions(*f, n)),
    decreases *f,
{
    match &f.args {
        FunctionArguments::List { args, .. } => {
            let mut i: usize = 0;
            while i < args.len()
                invariant
                    f.args matches FunctionArguments::List { args: a, .. } && a == *args,
                    i <= args@.len(),
                    distinct_names(cols@),
                    forall|n: Seq<char>| #[trigger]
                        holds(cols@, n) <==> holds(old(cols)@, n) || exists|k: int|
                            0 <= k < i && arg_mentions(#[trigger] args@[k], n),
                decreases args@.len() - i,
            {
                match &args[i] {
                    FunctionArg::Expr(e) => {
                        assert(decreases_to!(*f => f.args));
                        assert(decreases_to!(f.args => args@));
                        assert(decreases_to!(args@ => args@[i as int]));
                        assert(decreases_to!(args@[i as int] => *e));
                        collect_expr(e, cols);
                        assert(forall|n: Seq<char>|
                            arg_mentions(args@[i as int], n) == mentions(*e, n));
                    },
                    _ => {
                        assert(forall|n: Seq<char>| !arg_mentions(args@[i as int], n));
                    },
                }
                i = i + 1;
            }
        },
        _ => {},
    }
}

/// Adds the columns that an expression refers to.
fn collect_expr(expr: &Expr, cols: &mut Vec<String>)
    requires
        distinct_names(old(cols)@),
    ensures
        distinct_names(final(cols)@),
        grown(old(cols)@, final(cols)@, |n: Seq<char>| mentions(*expr, n)),
    decreases *expr,
{
    match expr {
        Expr::Identifier(_) => {
            if let Some(n) = column_ref(expr) {
                insert_name(cols, n);
            }
        },
        Expr::CompoundIdentifier(_) => {
            if let Some(n) = column_ref(expr) {
                insert_name(cols, n);
            }
        },
        Expr::BinaryOp { left, right, .. } => {
            collect_expr(left, cols);
            collect_expr(right, cols);
        },
        Expr::UnaryOp { expr: inner, .. } => collect_expr(inner, cols),
        Expr::Nested(inner) => collect_expr(inner, cols),
        Expr::Cast { expr: inner } => collect_expr(inner, cols),
        Expr::Like { expr: inner, .. } => collect_expr(inner, cols),
        Expr::ILike { expr: inner, .. } => collect_expr(inner, cols),
        Expr::InList { expr: inner, list, .. } => {
            collect_expr(inner, cols);
            assert(decreases_to!(*expr => list@));
            collect_exprs(list, cols);
        },
        Expr::Function(f) => collect_function(f, cols),
        Expr::Case { operand, conditions, results, else_result } => {
            if let Some(x) = operand {
                collect_expr(x, cols);
            }
            assert(decreases_to!(*expr => conditions@));
            collect_exprs(conditions, cols);
            assert(decreases_to!(*expr => results@));
            collect_exprs(results, cols);
            if let Some(x) = else_result {
                collect_expr(x, cols);
            }
        },
        Expr::Extract { expr: inner, .. } => collect_expr(inner, cols),
        Expr::IsNull(inner) => collect_expr(inner, cols),
        Expr::Value(_) => {},
        Expr::Other => {},
    }
}

fn collect_select_kind(kind: &SelectItemKind, cols: &mut Vec<String>)
    requires
        distinct_names(old(cols)@),
    ensures
        distinct_names(final(cols)@),
        grown(old(cols)@, final(cols)@, |n: Seq<char>| kind_mentions(*kind, n)),
{
    match kind {
        SelectItemKind::CountAll => {},
        SelectItemKind::Sum(e) => collect_expr(e, cols),
        SelectItemKind::Avg(e) => collect_expr(e, cols),
        SelectItemKind::Count(e) => collect_expr(e, cols),
        SelectItemKind::CountDistinct(e) => collect_expr(e, cols),
        SelectItemKind::Min(e) => collect_expr(e, cols),
        SelectItemKind::Max(e) => collect_expr(e, cols),
        SelectItemKind::Column(e) => collect_expr(e, cols),
        SelectItemKind::Other(e) => collect_expr(e, cols),
    }
}

/// Whether a list of names is the answer to which columns a query needs; no
/// list stands for all of them, where the query selects `*` or names none.
pub open spec fn needs(q: ParsedQuery, cols: Option<Vec<String>>) -> bool {
    match cols {
        Some(v) => {
            &&& !q.select_all
            &&& v@.len() > 0
            &&& distinct_names(v@)
            &&& forall|n: Seq<char>| #[trigger] holds(v@, n) <==> query_mentions(q, n)
        },
        None => q.select_all || forall|n: Seq<char>| !query_mentions(q, n),
    }
}

/// The columns that a query refers to, each once; nothing where it needs all.
pub fn referenced_columns(parsed: &ParsedQuery) -> (r: Option<Vec<String>>)
    ensures
        needs(*parsed, r),
{
    if parsed.select_all {
        return None;
    }
    let mut cols: Vec<String> = Vec::new();
    let mut i: usize = 0;
    while i < parsed.select_items.len()
        invariant
            i <= parsed.select_items@.len(),
            distinct_names(cols@),
            forall|n: Seq<char>| #[trigger]
                holds(cols@, n) <==> exists|k: int|
                    0 <= k < i && kind_mentions((#[trigger] parsed.select_items@[k]).kind, n),
        decreases parsed.select_items@.len() - i,
    {
        collect_select_kind(&parsed.select_items[i].kind, &mut cols);
        i = i + 1;
    }
    if let Some(w) = &parsed.where_expr {
        collect_expr(w, &mut cols);
    }
    collect_exprs(&parsed.group_by, &mut cols);
    if let Some(h) = &parsed.having {
        collect_expr(h, &mut cols);
    }
    let ghost before = cols@;
    let mut j: usize = 0;
    while j < parsed.order_by.len()
        invariant
            j <= parsed.order_by@.len(),
            distinct_names(cols@),
            forall|n: Seq<char>| #[trigger]
                holds(cols@, n) <==> holds(before, n) || exists|k: int|
                    0 <= k < j && mentions((#[trigger] parsed.order_by@[k]).0, n),
        decreases parsed.order_by@.len() - j,
    {
        collect_expr(&parsed.order_by[j].0, &mut cols);
        j = j + 1;
    }
    proof {
        assert(forall|n: Seq<char>| #[trigger] holds(cols@, n) <==> query_mentions(*parsed, n));
        if cols@.len() == 0 {
            assert forall|n: Seq<char>| !query_mentions(*parsed, n) by {
                assert(!holds(cols@, n));
            }
        }
    }
    if cols.len() == 0 {
        return None;
    }
    Some(cols)
}

/// The columns that an SQL text refers to, each once; nothing where it needs
/// all. Fails as [`parse_query`] does.
pub fn referenced_columns_for_sql(sql: &str) -> (r: Result<Option<Vec<String>>, Error>)
    ensures
        match statements_of(sql@) {
            Err(m) => r is Err && r->Err_0 is SqlParse && r->Err_0@ == m,
            Ok(t) => match r {
                Ok(cols) => exists|q: ParsedQuery|
                    query_read(t, Ok::<ParsedQuery, Error>(q)) && #[trigger] needs(q, cols),
                Err(e) => query_read(t, Err::<ParsedQuery, Error>(e)),
            },
        },
{
    match parse_query(sql) {
        Ok(q) => {
            let cols = referenced_columns(&q);
            Ok(cols)
        },
        Err(e) => Err(e),
    }
}

} // verus!
