//! GROUP BY the host of a referring address.
use crate::error::Error;
use crate::exec::filter::{build_mask, masked};
use crate::exec::group::{
    attempted, covered_rows, grouped, is_identifier, is_name, resolve_group_expr, resolved,
    show_groups, Answer, AnswerView,
};
use crate::exec::grouping::group_texts;
use crate::exec::hash::text_lists;
use crate::exec::mask_util::selected;
use crate::exec::result::{empty_result, headings, no_rows};
use crate::exec::sorting::{alias_is, has_alias, to_sort, Unsorted};
use crate::expr::eval::{arg_literal, column_of, extract_literal};
use crate::expr::matching::{asks_host, host_of, pattern_asks_host, referer_host};
use crate::sql::ast::{
    Expr, Function, FunctionArg, FunctionArguments, ParsedQuery, SelectItemKind, SelectProjection,
};
use crate::storage::column::{ColumnData, ColumnView};
use crate::storage::table::Table;
use crate::text::{str_eq, texts, to_uppercase, uppercased};
use vstd::prelude::*;

verus! {

/// The first argument of a function, if it is a plain expression.
pub open spec fn leading_arg(f: Function) -> Option<Expr> {
    match f.args {
        FunctionArguments::List { args, .. } => if args@.len() > 0 {
            match args@[0] {
                FunctionArg::Expr(e) => Some(e),
                _ => None,
            }
        } else {
            None
        },
        _ => None,
    }
}

/// The first argument of a function, if it is a plain expression.
pub fn extract_function_arg0(f: &Function) -> (r: Option<&Expr>)
    ensures
        match r {
            Some(e) => leading_arg(*f) == Some(*e),
            None => leading_arg(*f) is None,
        },
{
    match &f.args {
        FunctionArguments::List { args, .. } => if args.len() > 0 {
            match &args[0] {
                FunctionArg::Expr(e) => Some(e),
                _ => None,
            }
        } else {
            None
        },
        _ => None,
    }
}

/// Whether an expression calls a function on a column.
pub open spec fn calls_on(e: Expr, function: Seq<char>, column: Seq<char>) -> bool {
    match e {
        Expr::Function(f) => uppercased(f.name@) == function && match leading_arg(f) {
            Some(a) => is_name(a, column),
            None => false,
        },
        _ => false,
    }
}

/// Whether an expression calls a function on a column.
pub fn is_call_on(e: &Expr, function: &str, column: &str) -> (r: bool)
    ensures
        r == calls_on(*e, function@, column@),
{
    match e {
        Expr::Function(f) => {
            let upper = to_uppercase(f.name.as_str());
            if !str_eq(upper.as_str(), function) {
                return false;
            }
            match extract_function_arg0(f) {
                Some(a) => is_identifier(a, column),
                None => false,
            }
        },
        _ => false,
    }
}

/// Whether an expression takes the host out of the referring address.
pub open spec fn takes_host(e: Expr) -> bool {
    calls_on(e, "REGEXP_REPLACE"@, "Referer"@) && match e {
        Expr::Function(f) => match arg_literal(f, 1, "expected pattern literal"@) {
            Ok(p) => asks_host(p),
            Err(_) => false,
        },
        _ => false,
    }
}

/// Whether an expression takes the host out of the referring address.
pub fn is_referer_regexp_expr(e: &Expr) -> (r: bool)
    ensures
        r == takes_host(*e),
{
    if !is_call_on(e, "REGEXP_REPLACE", "Referer") {
        return false;
    }
    match e {
        Expr::Function(f) => match extract_literal(f, 1, "expected pattern literal") {
            Ok(p) => pattern_asks_host(p.as_str()),
            Err(_) => false,
        },
        _ => false,
    }
}

/// Whether a projection takes the host out of the referring address and has an
/// alias.
pub open spec fn host_alias(p: SelectProjection, name: Seq<char>) -> bool {
    has_alias(p, name) && match p.kind {
        SelectItemKind::Other(e) => takes_host(e),
        _ => false,
    }
}

/// Whether a projection takes the host out of the referring address and has an
/// alias.
pub fn is_host_alias(p: &SelectProjection, name: &str) -> (r: bool)
    ensures
        r == host_alias(*p, name@),
{
    alias_is(p, name) && match &p.kind {
        SelectItemKind::Other(e) => is_referer_regexp_expr(e),
        _ => false,
    }
}

/// Whether some projection takes the host out of the referring address and has an
/// alias.
pub open spec fn any_host_alias(items: Seq<SelectProjection>, name: Seq<char>) -> bool {
    exists|i: int| 0 <= i < items.len() && host_alias(#[trigger] items[i], name)
}

/// Whether some projection takes the host out of the referring address and has an
/// alias.
pub fn has_host_alias(items: &Vec<SelectProjection>, name: &str) -> (r: bool)
    ensures
        r == any_host_alias(items@, name@),
{
    let mut i: usize = 0;
    while i < items.len()
        invariant
            i <= items@.len(),
            forall|k: int| 0 <= k < i ==> !host_alias(#[trigger] items@[k], name@),
        decreases items@.len() - i,
    {
        if is_host_alias(&items[i], name) {
            return true;
        }
        i = i + 1;
    }
    false
}

/// Whether a query groups by the host of the referring address.
pub open spec fn groups_by_host(q: ParsedQuery) -> bool {
    q.group_by@.len() == 1 && {
        let e = resolved(q.group_by@[0], q.select_items@);
        takes_host(e) || match e {
            Expr::Identifier(s) => any_host_alias(q.select_items@, s@),
            _ => false,
        }
    }
}

/// Whether a query groups by the host of the referring address.
pub fn is_referrer_host_group(parsed: &ParsedQuery) -> (r: bool)
    ensures
        r == groups_by_host(*parsed),
{
    if parsed.group_by.len() != 1 {
        return false;
    }
    let e = resolve_group_expr(&parsed.group_by[0], &parsed.select_items);
    if is_referer_regexp_expr(e) {
        return true;
    }
    match e {
        Expr::Identifier(s) => has_host_alias(&parsed.select_items, s.as_str()),
        _ => false,
    }
}

/// The hosts of rows, as keys.
pub open spec fn host_keys(referers: Seq<Seq<char>>, rows: Seq<usize>) -> Seq<Seq<Seq<char>>> {
    Seq::new(rows.len(), |i: int| seq![host_of(referers[rows[i] as int])])
}

/// What grouping by host comes to.
pub open spec fn host_answer(t: Table, q: ParsedQuery, n: nat) -> Result<
    Option<AnswerView>,
    Seq<char>,
> {
    if !groups_by_host(q) || (q.order_by@.len() > 0 && q.select_items@.len() == 0) {
        Ok(None)
    } else {
        match masked(t, q, n) {
            Err(m) => Err(m),
            Ok(None) => Ok(Some(AnswerView::Done(no_rows(q)))),
            Ok(Some(mask)) => match column_of(t, "Referer"@) {
                Err(m) => Err(m),
                Ok(ColumnView::Utf8(referers)) => match grouped(
                    t,
                    q,
                    host_keys(referers, selected(mask)),
                    selected(mask),
                ) {
                    Err(m) => Err(m),
                    Ok(rows) => Ok(Some(AnswerView::Sort(to_sort(q, rows)))),
                },
                Ok(_) => Ok(None),
            },
        }
    }
}

/// Groups by the host of the referring address, if that is what the query asks for.
pub fn try_execute_grouped_referrer(table: &Table, parsed: &ParsedQuery, row_count: usize) -> (r:
    Result<Option<Answer>, Error>)
    requires
        table.wf(),
        table.holds_rows(row_count as int),
    ensures
        attempted(r) == host_answer(*table, *parsed, row_count as nat),
        r matches Ok(Some(a)) ==> a.wf(),
{
    if !is_referrer_host_group(parsed) || (parsed.order_by.len() > 0 && parsed.select_items.len()
        == 0) {
        return Ok(None);
    }
    let mask = match build_mask(table, parsed, row_count) {
        Err(e) => {
            return Err(e);
        },
        Ok(None) => {
            return Ok(Some(Answer::Done(empty_result(parsed))));
        },
        Ok(Some(m)) => m,
    };
    let col = match table.column("Referer") {
        Err(e) => {
            return Err(e);
        },
        Ok(c) => c,
    };
    proof {
        if row_count > 0 {
            assert(table.covers_row(row_count - 1));
            table.lemma_covers("Referer"@, row_count - 1);
        }
    }
    let data = match col {
        ColumnData::Utf8(d) => d,
        _ => {
            return Ok(None);
        },
    };
    let rows = covered_rows(table, &mask);
    let mut keys: Vec<Vec<String>> = Vec::new();
    let mut i: usize = 0;
    assert(text_lists(keys@) =~= host_keys(data@, rows@.take(0)));
    while i < rows.len()
        invariant
            i <= rows@.len(),
            data.wf(),
            row_count <= data@.len(),
            forall|i: int| 0 <= i < rows@.len() ==> (#[trigger] rows@[i]) < row_count,
            text_lists(keys@) == host_keys(data@, rows@.take(i as int)),
        decreases rows@.len() - i,
    {
        let row: usize = rows[i];
        assert(rows@[i as int] < row_count);
        assert(data.row_ok(row as int));
        let mut key: Vec<String> = Vec::new();
        key.push(referer_host(data.get(row)));
        let ghost sofar = keys@;
        let ghost k = seq![host_of(data@[row as int])];
        assert(texts(key@) =~= k);
        keys.push(key);
        assert(text_lists(keys@) =~= text_lists(sofar).push(k));
        assert(host_keys(data@, rows@.take(i + 1)) =~= host_keys(
            data@,
            rows@.take(i as int),
        ).push(k));
        i = i + 1;
    }
    assert(rows@.take(i as int) =~= rows@);
    let ghost all = text_lists(keys@);
    let (index, ids) = group_texts(keys);
    match show_groups::<Seq<Seq<char>>>(table, parsed, &rows, &ids, index.len(), Ghost(all)) {
        Err(e) => Err(e),
        Ok(out) => Ok(Some(Answer::Sort(Unsorted::of_query(parsed, headings(parsed), out)))),
    }
}

} // verus!
