//! Different users by a text column.
use crate::error::Error;
use crate::exec::group_fused_region::{counts_different_one, names_column};
use crate::exec::group_fused_text::{distinct_and_sort, distinct_texts, phrase_keys, phrases};
use crate::exec::kernel::{
    bind, choose_rows, group_id_name, group_name, i64_column, i64s_of, int_values,
    is_different_form, mapped, shows_different, text_column, texts_of, with_rows,
};
use crate::exec::result::{attempt, empty_result, QueryResult, ResultView};
use crate::sql::ast::{ParsedQuery, SelectItemKind, SelectProjection};
use crate::storage::column::ColumnType;
use crate::storage::table::{declared_type, Table};
use vstd::prelude::*;

verus! {

/// Whether all projections are columns and counts of different users, with one of the
/// latter.
pub open spec fn counts_users(items: Seq<SelectProjection>) -> bool {
    &&& forall|i: int|
        0 <= i < items.len() ==> (#[trigger] items[i]).kind is Column || counts_different_one(
            items[i],
            "UserID"@,
        )
    &&& exists|i: int| 0 <= i < items.len() && (#[trigger] items[i]).kind is CountDistinct
}

/// Whether all projections are columns and counts of different users, with one of the
/// latter.
pub fn is_user_count(items: &Vec<SelectProjection>) -> (r: bool)
    ensures
        r == counts_users(items@),
{
    let mut found = false;
    let mut i: usize = 0;
    while i < items.len()
        invariant
            i <= items@.len(),
            forall|k: int|
                0 <= k < i ==> (#[trigger] items@[k]).kind is Column || counts_different_one(
                    items@[k],
                    "UserID"@,
                ),
            found <==> exists|k: int| 0 <= k < i && (#[trigger] items@[k]).kind is CountDistinct,
        decreases items@.len() - i,
    {
        match &items[i].kind {
            SelectItemKind::CountDistinct(e) => {
                if !names_column(e, "UserID") {
                    assert(!counts_different_one(items@[i as int], "UserID"@));
                    return false;
                }
                assert(items@[i as int].kind is CountDistinct);
                found = true;
            },
            SelectItemKind::Column(_) => {},
            _ => {
                assert(!(items@[i as int].kind is Column));
                return false;
            },
        }
        i = i + 1;
    }
    found
}

/// Whether a query counts different users by a text column.
pub open spec fn q11_shape(t: Table, q: ParsedQuery) -> bool {
    &&& q.group_by@.len() == 1
    &&& group_name(q.group_by@[0], q) is Some
    &&& declared_type(t.declared(), group_name(q.group_by@[0], q)->Some_0) == Some(ColumnType::Utf8)
    &&& shows_different(q)
    &&& counts_users(q.select_items@)
}

/// What counting different users by a text column comes to.
pub open spec fn q11_result(t: Table, q: ParsedQuery, n: nat) -> Result<
    Option<ResultView>,
    Seq<char>,
>
{
    if !q11_shape(t, q) {
        Ok(None)
    } else {
        bind(
            texts_of(t, group_name(q.group_by@[0], q)->Some_0),
            |strs: Seq<Seq<char>>|
                bind(
                    i64s_of(t, "UserID"@),
                    |users: Seq<i64>|
                        with_rows(
                            t,
                            q,
                            n,
                            |rows: Seq<usize>|
                                Ok(
                                    Some(
                                        distinct_texts(
                                            q,
                                            phrases(strs, rows),
                                            mapped(rows, |r: usize| users[r as int]),
                                        ),
                                    ),
                                ),
                        ),
                ),
        )
    }
}

/// Counts different users by a text column, if that is what the query asks for.
pub fn try_fused_utf8_one_distinct(table: &Table, parsed: &ParsedQuery, row_count: usize) -> (r: Result<
    Option<QueryResult>,
    Error,
>)
    requires
        table.wf(),
        table.holds_rows(row_count as int),
    ensures
        attempt(r) == q11_result(*table, *parsed, row_count as nat),
{
    if parsed.group_by.len() != 1 {
        return Ok(None);
    }
    let name = match group_id_name(&parsed.group_by[0], parsed) {
        Some(n) => n,
        None => {
            return Ok(None);
        },
    };
    let is_text = match table.column_type(name) {
        Some(ColumnType::Utf8) => true,
        _ => false,
    };
    if !is_text || !is_different_form(parsed) || !is_user_count(&parsed.select_items) {
        return Ok(None);
    }
    let strs = match text_column(table, name, row_count) {
        Err(e) => {
            return Err(e);
        },
        Ok(None) => {
            return Ok(None);
        },
        Ok(Some(c)) => c,
    };
    let users = match i64_column(table, "UserID", row_count) {
        Err(e) => {
            return Err(e);
        },
        Ok(None) => {
            return Ok(None);
        },
        Ok(Some(c)) => c,
    };
    let rows = match choose_rows(table, parsed, row_count) {
        Err(e) => {
            return Err(e);
        },
        Ok(None) => {
            return Ok(Some(empty_result(parsed)));
        },
        Ok(Some(r)) => r,
    };
    let keys = phrase_keys(strs, &rows, row_count);
    let ghost value = |r: usize| users@[r as int];
    let value_at = |r: usize| -> (k: i64)
        requires
            row_count > r,
        ensures
            k == value(r),
    { users.get(r) };
    let vals = int_values(&rows, value_at, Ghost(value));
    Ok(Some(distinct_and_sort(parsed, keys, &vals)))
}

} // verus!
