//! GROUP BY on one or two text columns.
use crate::error::{yields, Error};
use crate::exec::filter::{build_mask, masked};
use crate::exec::group::{
    attempted, covered_rows, grouped, resolve_group_expr, resolved, show_groups, Answer,
    AnswerView,
};
use crate::exec::grouping::group_texts;
use crate::exec::hash::text_lists;
use crate::exec::mask_util::selected;
use crate::exec::result::{empty_result, headings, no_rows};
use crate::exec::sorting::{to_sort, Unsorted};
use crate::expr::eval::{col_text, col_utf8_at, column_of};
use crate::sql::ast::{Expr, Literal, ParsedQuery};
use crate::storage::column::{ColumnData, ColumnType, ColumnView};
use crate::storage::table::{declared_type, Table};
use crate::text::{str_eq, texts};
use vstd::prelude::*;

verus! {

/// Whether an expression is the number one, which makes no groups.
pub open spec fn is_one(e: Expr) -> bool {
    match e {
        Expr::Value(Literal::Number(n)) => n@ == "1"@,
        _ => false,
    }
}

/// Whether an expression is the number one.
pub fn is_literal_one(e: &Expr) -> (r: bool)
    ensures
        r == is_one(*e),
{
    match e {
        Expr::Value(Literal::Number(n)) => str_eq(n.as_str(), "1"),
        _ => false,
    }
}

/// The text columns among the first `n` grouping expressions, if they are all text
/// columns or the number one.
pub open spec fn text_columns(t: Table, q: ParsedQuery, n: nat) -> Result<
    Option<Seq<Seq<char>>>,
    Seq<char>,
>
    decreases n,
{
    if n == 0 {
        Ok(Some(Seq::empty()))
    } else {
        match text_columns(t, q, (n - 1) as nat) {
            Err(m) => Err(m),
            Ok(None) => Ok(None),
            Ok(Some(names)) => match resolved(q.group_by@[n - 1], q.select_items@) {
                Expr::Identifier(s) => match declared_type(t.declared(), s@) {
                    None => Err("column "@ + s@),
                    Some(ty) => if ty == ColumnType::Utf8 {
                        Ok(Some(names.push(s@)))
                    } else {
                        Ok(None)
                    },
                },
                e => if is_one(e) {
                    Ok(Some(names))
                } else {
                    Ok(None)
                },
            },
        }
    }
}

/// The text columns that a query groups by, if it groups by one or two and nothing
/// else.
pub open spec fn utf8_plan(t: Table, q: ParsedQuery) -> Result<Option<Seq<Seq<char>>>, Seq<char>> {
    if q.group_by@.len() == 0 || q.group_by@.len() > 2 {
        Ok(None)
    } else {
        match text_columns(t, q, q.group_by@.len()) {
            Ok(Some(names)) if names.len() == 0 => Ok(None),
            r => r,
        }
    }
}

proof fn lemma_text_columns(t: Table, q: ParsedQuery, i: nat, n: nat)
    requires
        i <= n,
        !(text_columns(t, q, i) matches Ok(Some(_))),
    ensures
        text_columns(t, q, n) == text_columns(t, q, i),
    decreases n,
{
    if i < n {
        lemma_text_columns(t, q, i, (n - 1) as nat);
    }
}

/// What a list of names that may not be there comes to.
pub open spec fn planned(r: Result<Option<Vec<String>>, Error>) -> Result<
    Option<Seq<Seq<char>>>,
    Seq<char>,
> {
    match r {
        Err(e) => Err(e@),
        Ok(None) => Ok(None),
        Ok(Some(v)) => Ok(Some(texts(v@))),
    }
}

/// The text columns that a query groups by, if it groups by one or two and nothing
/// else.
pub fn plan_utf8_group(table: &Table, parsed: &ParsedQuery) -> (r: Result<Option<Vec<String>>, Error>)
    ensures
        planned(r) == utf8_plan(*table, *parsed),
        r matches Ok(Some(v)) ==> 1 <= v@.len() <= 2,
{
    let total: usize = parsed.group_by.len();
    if total == 0 || total > 2 {
        return Ok(None);
    }
    let mut names: Vec<String> = Vec::new();
    let mut i: usize = 0;
    assert(texts(names@) =~= Seq::<Seq<char>>::empty());
    while i < total
        invariant
            i <= total == parsed.group_by@.len(),
            total <= 2,
            total > 0,
            names@.len() <= i,
            yields(text_columns(*table, *parsed, i as nat), Some(texts(names@))),
        decreases total - i,
    {
        let e = resolve_group_expr(&parsed.group_by[i], &parsed.select_items);
        let ghost sofar = names@;
        match e {
            Expr::Identifier(s) => match table.column_type(s.as_str()) {
                None => {
                    let mut m = String::from_str("column ");
                    m.append(s.as_str());
                    proof {
                        lemma_text_columns(*table, *parsed, (i + 1) as nat, total as nat);
                    }
                    return Err(Error::Msg(m));
                },
                Some(ty) => {
                    if ty != ColumnType::Utf8 {
                        proof {
                            lemma_text_columns(*table, *parsed, (i + 1) as nat, total as nat);
                        }
                        return Ok(None);
                    }
                    names.push(s.clone());
                    assert(texts(names@) =~= texts(sofar).push(s@));
                },
            },
            _ => {
                if !is_literal_one(e) {
                    proof {
                        lemma_text_columns(*table, *parsed, (i + 1) as nat, total as nat);
                    }
                    return Ok(None);
                }
            },
        }
        i = i + 1;
    }
    if names.len() == 0 {
        assert(texts(names@).len() == 0);
        return Ok(None);
    }
    Ok(Some(names))
}

/// The values of columns, or why the first that is not in memory is not there.
pub open spec fn columns_of(t: Table, names: Seq<Seq<char>>) -> Result<Seq<ColumnView>, Seq<char>>
    decreases names.len(),
{
    if names.len() == 0 {
        Ok(Seq::empty())
    } else {
        match columns_of(t, names.drop_last()) {
            Err(m) => Err(m),
            Ok(cols) => match column_of(t, names.last()) {
                Err(m) => Err(m),
                Ok(c) => Ok(cols.push(c)),
            },
        }
    }
}

/// The key of a row: its texts.
pub open spec fn text_key(cols: Seq<ColumnView>, row: int) -> Seq<Seq<char>> {
    Seq::new(cols.len(), |i: int| col_text(cols[i], row))
}

/// The keys of rows.
pub open spec fn text_row_keys(cols: Seq<ColumnView>, rows: Seq<usize>) -> Seq<Seq<Seq<char>>> {
    Seq::new(rows.len(), |i: int| text_key(cols, rows[i] as int))
}

/// The key of a row.
pub fn key_parts(cols: &Vec<&ColumnData>, row: usize) -> (key: Vec<String>)
    requires
        forall|i: int| 0 <= i < cols@.len() ==> (#[trigger] cols@[i]).wf() && row < cols@[i]@.len(),
    ensures
        texts(key@) == text_key(views_of(cols@), row as int),
{
    let mut key: Vec<String> = Vec::new();
    let mut i: usize = 0;
    while i < cols.len()
        invariant
            i <= cols@.len(),
            forall|i: int|
                0 <= i < cols@.len() ==> (#[trigger] cols@[i]).wf() && row < cols@[i]@.len(),
            key@.len() == i,
            forall|k: int| 0 <= k < i ==> (#[trigger] key@[k])@ == col_text(cols@[k]@, row as int),
        decreases cols@.len() - i,
    {
        assert(cols@[i as int].wf());
        key.push(String::from_str(col_utf8_at(cols[i], row)));
        i = i + 1;
    }
    assert(texts(key@) =~= text_key(views_of(cols@), row as int));
    key
}

/// The values of columns.
pub open spec fn views_of(cols: Seq<&ColumnData>) -> Seq<ColumnView> {
    Seq::new(cols.len(), |i: int| cols[i]@)
}

/// What grouping by text columns comes to.
pub open spec fn utf8_answer(t: Table, q: ParsedQuery, n: nat) -> Result<
    Option<AnswerView>,
    Seq<char>,
> {
    match utf8_plan(t, q) {
        Err(m) => Err(m),
        Ok(None) => Ok(None),
        Ok(Some(names)) => if q.order_by@.len() > 0 && q.select_items@.len() == 0 {
            Ok(None)
        } else {
            match masked(t, q, n) {
                Err(m) => Err(m),
                Ok(None) => Ok(Some(AnswerView::Done(no_rows(q)))),
                Ok(Some(mask)) => match columns_of(t, names) {
                    Err(m) => Err(m),
                    Ok(cols) => match grouped(
                        t,
                        q,
                        text_row_keys(cols, selected(mask)),
                        selected(mask),
                    ) {
                        Err(m) => Err(m),
                        Ok(rows) => Ok(Some(AnswerView::Sort(to_sort(q, rows)))),
                    },
                },
            }
        },
    }
}

/// Groups by one or two text columns, if that is what the query asks for.
pub fn try_execute_grouped_utf8(table: &Table, parsed: &ParsedQuery, row_count: usize) -> (r: Result<
    Option<Answer>,
    Error,
>)
    requires
        table.wf(),
        table.holds_rows(row_count as int),
    ensures
        attempted(r) == utf8_answer(*table, *parsed, row_count as nat),
        r matches Ok(Some(a)) ==> a.wf(),
{
    let names = match plan_utf8_group(table, parsed) {
        Err(e) => {
            return Err(e);
        },
        Ok(None) => {
            return Ok(None);
        },
        Ok(Some(v)) => v,
    };
    if parsed.order_by.len() > 0 && parsed.select_items.len() == 0 {
        return Ok(None);
    }
    let mask = match build_mask(table, parsed, row_count) {
        Err(e) => {
            return Err(e);
        },
        Ok(None) => {
            return Ok(Some(Answer::Done(empty_result(parsed))));
        },
        Ok(Some(m)) => m,
    };
    let ghost list = texts(names@);
    let mut cols: Vec<&ColumnData> = Vec::new();
    let mut j: usize = 0;
    proof {
        assert(list.take(0) =~= Seq::<Seq<char>>::empty());
        assert(views_of(cols@) =~= Seq::<ColumnView>::empty());
    }
    while j < names.len()
        invariant
            j <= names@.len(),
            list == texts(names@),
            table.wf(),
            table.holds_rows(row_count as int),
            utf8_plan(*table, *parsed) == Ok::<Option<Seq<Seq<char>>>, Seq<char>>(Some(list)),
            parsed.order_by@.len() == 0 || parsed.select_items@.len() > 0,
            yields(masked(*table, *parsed, row_count as nat), Some(mask@)),
            yields(columns_of(*table, list.take(j as int)), views_of(cols@)),
            cols@.len() == j,
            forall|i: int|
                0 <= i < cols@.len() ==> (#[trigger] cols@[i]).wf() && row_count <= cols@[i]@.len(),
        decreases names@.len() - j,
    {
        assert(list.take(j + 1).drop_last() =~= list.take(j as int));
        assert(list.take(j + 1).last() == names@[j as int]@);
        match table.column(names[j].as_str()) {
            Err(e) => {
                proof {
                    lemma_columns_fault(*table, list, j + 1);
                }
                return Err(e);
            },
            Ok(c) => {
                proof {
                    if row_count > 0 {
                        assert(table.covers_row(row_count - 1));
                        table.lemma_covers(names@[j as int]@, row_count - 1);
                    }
                }
                let ghost sofar = cols@;
                cols.push(c);
                assert(views_of(cols@) =~= views_of(sofar).push(c@));
            },
        }
        j = j + 1;
    }
    assert(list.take(j as int) =~= list);
    let rows = covered_rows(table, &mask);
    let mut keys: Vec<Vec<String>> = Vec::new();
    let mut i: usize = 0;
    assert(text_lists(keys@) =~= text_row_keys(views_of(cols@), rows@.take(0)));
    while i < rows.len()
        invariant
            i <= rows@.len(),
            forall|i: int|
                0 <= i < cols@.len() ==> (#[trigger] cols@[i]).wf() && row_count <= cols@[i]@.len(),
            forall|i: int| 0 <= i < rows@.len() ==> (#[trigger] rows@[i]) < row_count,
            text_lists(keys@) == text_row_keys(views_of(cols@), rows@.take(i as int)),
        decreases rows@.len() - i,
    {
        let row: usize = rows[i];
        assert(rows@[i as int] < row_count);
        let key = key_parts(&cols, row);
        let ghost sofar = keys@;
        keys.push(key);
        assert(text_lists(keys@) =~= text_lists(sofar).push(
            text_key(views_of(cols@), row as int),
        ));
        assert(text_row_keys(views_of(cols@), rows@.take(i + 1)) =~= text_row_keys(
            views_of(cols@),
            rows@.take(i as int),
        ).push(text_key(views_of(cols@), row as int)));
        i = i + 1;
    }
    assert(rows@.take(i as int) =~= rows@);
    let ghost all = text_lists(keys@);
    let (index, ids) = group_texts(keys);
    match show_groups::<Seq<Seq<char>>>(table, parsed, &rows, &ids, index.len(), Ghost(all)) {
        Err(e) => Err(e),
        Ok(out) => Ok(Some(Answer::Sort(Unsorted::of_query(parsed, headings(parsed), out)))),
    }
}

proof fn lemma_columns_fault(t: Table, names: Seq<Seq<char>>, i: int)
    requires
        0 <= i <= names.len(),
        columns_of(t, names.take(i)) is Err,
    ensures
        columns_of(t, names) == columns_of(t, names.take(i)),
    decreases names.len() - i,
{
    if i == names.len() {
        assert(names.take(i) =~= names);
    } else {
        assert(names.take(i + 1).drop_last() =~= names.take(i));
        lemma_columns_fault(t, names, i + 1);
    }
}

} // verus!
