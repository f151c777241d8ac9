//! GROUP BY text columns, alone or with an integer.
use crate::error::Error;
use crate::exec::group::{resolve_group_expr, resolved};
use crate::exec::group_near_unique::{is_plain_type, plain_type};
use crate::exec::group_utf8::{is_literal_one, is_one};
use crate::exec::grouping::{distinct_at, distinct_groups, group_texts};
use crate::exec::hash::{first_seen, lemma_first_seen_distinct, text_lists};
use crate::exec::kernel::{
    bind, choose_rows, count_and_sort, count_sorted, counted_texts,
    distinct_column, find_distinct_column, finish_count_sorted_scan, group_id_name, group_name,
    i16_column, i16s_of, i64_column, i64s_of, int_values, is_count_form, is_different_form, keys_with_counts, mapped, one_text,
    show_keys_with_counts, shows_counts, shows_different, text_column, text_keys, texts_of, two_texts, with_rows,
};
use crate::exec::result::{attempt, cell_rows, empty_result, QueryResult, ResultView};
use crate::sql::ast::{Expr, ParsedQuery};
use crate::storage::column::ColumnType;
use crate::storage::table::{declared_type, Table};
use crate::storage::utf8_col::Utf8Column;
use crate::text::{decimal, int_text, texts};
use vstd::prelude::*;

verus! {

/// What counting rows by a 64-bit column comes to.
pub open spec fn int64_count_result(t: Table, q: ParsedQuery, n: nat) -> Result<
    Option<ResultView>,
    Seq<char>,
> {
    if q.group_by@.len() != 1 || group_name(q.group_by@[0], q) is None || declared_type(
        t.declared(),
        group_name(q.group_by@[0], q)->Some_0,
    ) != Some(ColumnType::Int64) || !shows_counts(q) {
        Ok(None)
    } else {
        bind(
            i64s_of(t, group_name(q.group_by@[0], q)->Some_0),
            |data: Seq<i64>|
                with_rows(
                    t,
                    q,
                    n,
                    |rows: Seq<usize>|
                        Ok(
                            Some(
                                counted_texts(
                                    q,
                                    mapped(rows, |r: usize| seq![decimal(data[r as int] as int)]),
                                ),
                            ),
                        ),
                ),
        )
    }
}

/// Counts rows by a 64-bit column, if that is what the query asks for.
pub fn try_fused_int64_count(table: &Table, parsed: &ParsedQuery, row_count: usize) -> (r: Result<
    Option<QueryResult>,
    Error,
>)
    requires
        table.wf(),
        table.holds_rows(row_count as int),
    ensures
        attempt(r) == int64_count_result(*table, *parsed, row_count as nat),
{
    if parsed.group_by.len() != 1 {
        return Ok(None);
    }
    let name = match group_id_name(&parsed.group_by[0], parsed) {
        Some(n) => n,
        None => {
            return Ok(None);
        },
    };
    match table.column_type(name) {
        Some(ColumnType::Int64) => {},
        _ => {
            return Ok(None);
        },
    }
    if !is_count_form(parsed) {
        return Ok(None);
    }
    let data = match i64_column(table, name, row_count) {
        Err(e) => {
            return Err(e);
        },
        Ok(None) => {
            return Ok(None);
        },
        Ok(Some(d)) => d,
    };
    let rows = match choose_rows(table, parsed, row_count) {
        Err(e) => {
            return Err(e);
        },
        Ok(None) => {
            return Ok(Some(empty_result(parsed)));
        },
        Ok(Some(r)) => r,
    };
    let ghost key = |r: usize| seq![decimal(data@[r as int] as int)];
    let key_at = |r: usize| -> (k: Vec<String>)
        requires
            row_count > r,
        ensures
            texts(k@) == key(r),
    { one_text(int_text(data.get(r) as i128)) };
    let keys = text_keys(&rows, key_at, Ghost(key));
    Ok(Some(count_and_sort(parsed, keys)))
}

/// The number of different values that stand with each distinct key.
pub open spec fn distinct_counts<K>(keys: Seq<K>, vals: Seq<i64>) -> Seq<u64> {
    Seq::new(
        first_seen(keys).len(),
        |g: int| distinct_at(keys, vals, first_seen(keys)[g]).len() as u64,
    )
}

/// How many different values stand with each key of texts, most first.
pub open spec fn distinct_texts(q: ParsedQuery, keys: Seq<Seq<Seq<char>>>, vals: Seq<i64>) -> ResultView {
    count_sorted(
        q,
        distinct_counts(keys, vals),
        keys_with_counts(first_seen(keys), distinct_counts(keys, vals)),
    )
}

/// How many different values stand with each key of texts, most first.
pub fn distinct_and_sort(parsed: &ParsedQuery, keys: Vec<Vec<String>>, vals: &Vec<i64>) -> (r: QueryResult)
    requires
        keys@.len() == vals@.len(),
    ensures
        r@ == distinct_texts(*parsed, text_lists(keys@), vals@),
{
    let ghost all = text_lists(keys@);
    let (index, ids) = group_texts(keys);
    proof {
        lemma_first_seen_distinct(all);
    }
    let counts = distinct_groups::<Seq<Seq<char>>>(
        index.len(),
        &ids,
        vals,
        Ghost(index@),
        Ghost(all),
    );
    assert(counts@ =~= distinct_counts(all, vals@));
    let rows = show_keys_with_counts(&index, &counts);
    assert(cell_rows(rows@).len() == counts@.len());
    finish_count_sorted_scan(parsed, &counts, &rows)
}

/// The integer column and the text column that a query groups by, if it groups by
/// these in this order; the integer column is of 16 bits if only that is wanted.
pub open spec fn int_and_text(t: Table, q: ParsedQuery, narrow: bool) -> Option<
    (Seq<char>, Seq<char>),
> {
    if q.group_by@.len() != 2 {
        None
    } else {
        match (group_name(q.group_by@[0], q), group_name(q.group_by@[1], q)) {
            (Some(a), Some(b)) => match (
                declared_type(t.declared(), a),
                declared_type(t.declared(), b),
            ) {
                (Some(x), Some(y)) => if fits(x, narrow) && y == ColumnType::Utf8 {
                    Some((a, b))
                } else {
                    None
                },
                _ => None,
            },
            _ => None,
        }
    }
}

/// Whether a type is one of integers, or of 16-bit integers if only those are
/// wanted.
pub open spec fn fits(ty: ColumnType, narrow: bool) -> bool {
    if narrow {
        ty == ColumnType::Int16
    } else {
        plain_type(ty)
    }
}

fn type_fits(ty: ColumnType, narrow: bool) -> (r: bool)
    ensures
        r == fits(ty, narrow),
{
    if narrow {
        ty == ColumnType::Int16
    } else {
        is_plain_type(ty)
    }
}

/// The integer column and the text column that a query groups by, if it groups by
/// these in this order.
pub fn split_int_utf8_keys<'a>(table: &'a Table, parsed: &'a ParsedQuery, narrow: bool) -> (r: Option<
    (&'a str, &'a str),
>)
    ensures
        match r {
            Some((a, b)) => int_and_text(*table, *parsed, narrow) == Some((a@, b@)),
            None => int_and_text(*table, *parsed, narrow) is None,
        },
{
    if parsed.group_by.len() != 2 {
        return None;
    }
    let (a, b) = match (
        group_id_name(&parsed.group_by[0], parsed),
        group_id_name(&parsed.group_by[1], parsed),
    ) {
        (Some(a), Some(b)) => (a, b),
        _ => {
            return None;
        },
    };
    let (x, y) = match (table.column_type(a), table.column_type(b)) {
        (Some(x), Some(y)) => (x, y),
        _ => {
            return None;
        },
    };
    if type_fits(x, narrow) && y == ColumnType::Utf8 {
        Some((a, b))
    } else {
        None
    }
}

/// The column of 64-bit numbers whose different values a query counts, if it shows
/// only its keys and that number.
pub open spec fn distinct_ints(t: Table, q: ParsedQuery) -> Option<Seq<char>> {
    match distinct_column(q.select_items@) {
        Some(n) => if shows_different(q) && declared_type(t.declared(), n) == Some(ColumnType::Int64) {
            Some(n)
        } else {
            None
        },
        None => None,
    }
}

/// The column of 64-bit numbers whose different values a query counts, if it shows
/// only its keys and that number.
pub fn find_distinct_ints<'a>(table: &'a Table, parsed: &'a ParsedQuery) -> (r: Option<&'a str>)
    ensures
        match r {
            Some(s) => distinct_ints(*table, *parsed) == Some(s@),
            None => distinct_ints(*table, *parsed) is None,
        },
{
    if !is_different_form(parsed) {
        return None;
    }
    match find_distinct_column(&parsed.select_items) {
        Some(n) => match table.column_type(n) {
            Some(ColumnType::Int64) => Some(n),
            _ => None,
        },
        None => None,
    }
}

/// What counting different users by a 16-bit column and a text column comes to.
pub open spec fn int16_utf8_distinct_result(t: Table, q: ParsedQuery, n: nat) -> Result<
    Option<ResultView>,
    Seq<char>,
> {
    match (int_and_text(t, q, true), distinct_ints(t, q)) {
        (Some((a, b)), Some(d)) => bind(
            i16s_of(t, a),
            |ints: Seq<i16>|
                bind(
                    texts_of(t, b),
                    |strs: Seq<Seq<char>>|
                        bind(
                            i64s_of(t, d),
                            |users: Seq<i64>|
                                with_rows(
                                    t,
                                    q,
                                    n,
                                    |rows: Seq<usize>|
                                        Ok(
                                            Some(
                                                distinct_texts(
                                                    q,
                                                    mapped(
                                                        rows,
                                                        |r: usize|
                                                            seq![
                                                                decimal(ints[r as int] as int),
                                                                strs[r as int],
                                                            ],
                                                    ),
                                                    mapped(rows, |r: usize| users[r as int]),
                                                ),
                                            ),
                                        ),
                                ),
                        ),
                ),
        ),
        _ => Ok(None),
    }
}

/// Counts different users by a 16-bit column and a text column, if that is what the
/// query asks for.
pub fn try_fused_int16_utf8_distinct(table: &Table, parsed: &ParsedQuery, row_count: usize) -> (r:
    Result<Option<QueryResult>, Error>)
    requires
        table.wf(),
        table.holds_rows(row_count as int),
    ensures
        attempt(r) == int16_utf8_distinct_result(*table, *parsed, row_count as nat),
{
    let (a, b) = match split_int_utf8_keys(table, parsed, true) {
        Some(p) => p,
        None => {
            return Ok(None);
        },
    };
    let d = match find_distinct_ints(table, parsed) {
        Some(n) => n,
        None => {
            return Ok(None);
        },
    };
    let ints = match i16_column(table, a, row_count) {
        Err(e) => {
            return Err(e);
        },
        Ok(None) => {
            return Ok(None);
        },
        Ok(Some(c)) => c,
    };
    let strs = match text_column(table, b, row_count) {
        Err(e) => {
            return Err(e);
        },
        Ok(None) => {
            return Ok(None);
        },
        Ok(Some(c)) => c,
    };
    let users = match i64_column(table, d, row_count) {
        Err(e) => {
            return Err(e);
        },
        Ok(None) => {
            return Ok(None);
        },
        Ok(Some(c)) => c,
    };
    let rows = match choose_rows(table, parsed, row_count) {
        Err(e) => {
            return Err(e);
        },
        Ok(None) => {
            return Ok(Some(empty_result(parsed)));
        },
        Ok(Some(r)) => r,
    };
    let ghost key = |r: usize| seq![decimal(ints@[r as int] as int), strs@[r as int]];
    let key_at = |r: usize| -> (k: Vec<String>)
        requires
            row_count > r,
        ensures
            texts(k@) == key(r),
    {
        assert(strs.row_ok(r as int));
        two_texts(int_text(ints.get(r) as i128), String::from_str(strs.get(r)))
    };
    let keys = text_keys(&rows, key_at, Ghost(key));
    let ghost value = |r: usize| users@[r as int];
    let value_at = |r: usize| -> (v: i64)
        requires
            row_count > r,
        ensures
            v == value(r),
    { users.get(r) };
    let vals = int_values(&rows, value_at, Ghost(value));
    assert(text_lists(keys@).len() == vals@.len());
    Ok(Some(distinct_and_sort(parsed, keys, &vals)))
}

/// The text columns that a query groups by, if it groups by two.
pub open spec fn two_text_columns(t: Table, q: ParsedQuery) -> Option<(Seq<char>, Seq<char>)> {
    if q.group_by@.len() != 2 {
        None
    } else {
        match (group_name(q.group_by@[0], q), group_name(q.group_by@[1], q)) {
            (Some(a), Some(b)) => if declared_type(t.declared(), a) == Some(ColumnType::Utf8)
                && declared_type(t.declared(), b) == Some(ColumnType::Utf8) {
                Some((a, b))
            } else {
                None
            },
            _ => None,
        }
    }
}

/// What counting different users by two text columns comes to.
pub open spec fn utf8_pair_distinct_result(t: Table, q: ParsedQuery, n: nat) -> Result<
    Option<ResultView>,
    Seq<char>,
> {
    match (two_text_columns(t, q), distinct_ints(t, q)) {
        (Some((a, b)), Some(d)) => bind(
            texts_of(t, a),
            |firsts: Seq<Seq<char>>|
                bind(
                    texts_of(t, b),
                    |seconds: Seq<Seq<char>>|
                        bind(
                            i64s_of(t, d),
                            |users: Seq<i64>|
                                with_rows(
                                    t,
                                    q,
                                    n,
                                    |rows: Seq<usize>|
                                        Ok(
                                            Some(
                                                distinct_texts(
                                                    q,
                                                    mapped(
                                                        rows,
                                                        |r: usize|
                                                            seq![
                                                                firsts[r as int],
                                                                seconds[r as int],
                                                            ],
                                                    ),
                                                    mapped(rows, |r: usize| users[r as int]),
                                                ),
                                            ),
                                        ),
                                ),
                        ),
                ),
        ),
        _ => Ok(None),
    }
}

/// Counts different users by two text columns, if that is what the query asks for.
pub fn try_fused_utf8_pair_distinct(table: &Table, parsed: &ParsedQuery, row_count: usize) -> (r: Result<
    Option<QueryResult>,
    Error,
>)
    requires
        table.wf(),
        table.holds_rows(row_count as int),
    ensures
        attempt(r) == utf8_pair_distinct_result(*table, *parsed, row_count as nat),
{
    if parsed.group_by.len() != 2 {
        return Ok(None);
    }
    let (a, b) = match (
        group_id_name(&parsed.group_by[0], parsed),
        group_id_name(&parsed.group_by[1], parsed),
    ) {
        (Some(a), Some(b)) => (a, b),
        _ => {
            return Ok(None);
        },
    };
    match (table.column_type(a), table.column_type(b)) {
        (Some(ColumnType::Utf8), Some(ColumnType::Utf8)) => {},
        _ => {
            return Ok(None);
        },
    }
    let d = match find_distinct_ints(table, parsed) {
        Some(n) => n,
        None => {
            return Ok(None);
        },
    };
    let firsts = match text_column(table, a, row_count) {
        Err(e) => {
            return Err(e);
        },
        Ok(None) => {
            return Ok(None);
        },
        Ok(Some(c)) => c,
    };
    let seconds = match text_column(table, b, row_count) {
        Err(e) => {
            return Err(e);
        },
        Ok(None) => {
            return Ok(None);
        },
        Ok(Some(c)) => c,
    };
    let users = match i64_column(table, d, row_count) {
        Err(e) => {
            return Err(e);
        },
        Ok(None) => {
            return Ok(None);
        },
        Ok(Some(c)) => c,
    };
    let rows = match choose_rows(table, parsed, row_count) {
        Err(e) => {
            return Err(e);
        },
        Ok(None) => {
            return Ok(Some(empty_result(parsed)));
        },
        Ok(Some(r)) => r,
    };
    let ghost key = |r: usize| seq![firsts@[r as int], seconds@[r as int]];
    let key_at = |r: usize| -> (k: Vec<String>)
        requires
            row_count > r,
        ensures
            texts(k@) == key(r),
    {
        assert(firsts.row_ok(r as int));
        assert(seconds.row_ok(r as int));
        two_texts(String::from_str(firsts.get(r)), String::from_str(seconds.get(r)))
    };
    let keys = text_keys(&rows, key_at, Ghost(key));
    let ghost value = |r: usize| users@[r as int];
    let value_at = |r: usize| -> (v: i64)
        requires
            row_count > r,
        ensures
            v == value(r),
    { users.get(r) };
    let vals = int_values(&rows, value_at, Ghost(value));
    assert(text_lists(keys@).len() == vals@.len());
    Ok(Some(distinct_and_sort(parsed, keys, &vals)))
}

/// The text columns among the first `n` grouping expressions: how many, and the last.
/// Nothing, if there is another expression among them than text columns and the
/// number one.
pub open spec fn text_groupings(t: Table, q: ParsedQuery, n: nat) -> Option<(nat, Seq<char>)>
    decreases n,
{
    if n == 0 {
        Some((0, Seq::empty()))
    } else {
        match text_groupings(t, q, (n - 1) as nat) {
            None => None,
            Some((k, last)) => match resolved(q.group_by@[n - 1], q.select_items@) {
                Expr::Identifier(s) => if declared_type(t.declared(), s@) == Some(
                    ColumnType::Utf8,
                ) {
                    Some((k + 1, s@))
                } else {
                    None
                },
                e => if is_one(e) {
                    Some((k, last))
                } else {
                    None
                },
            },
        }
    }
}

/// The one text column that a query groups by, if there is but one.
pub open spec fn one_text_column(t: Table, q: ParsedQuery) -> Option<Seq<char>> {
    match text_groupings(t, q, q.group_by@.len()) {
        Some((k, name)) if k == 1 => Some(name),
        _ => None,
    }
}

proof fn lemma_text_groupings(t: Table, q: ParsedQuery, i: nat, n: nat)
    requires
        i <= n,
        text_groupings(t, q, i) is None,
    ensures
        text_groupings(t, q, n) is None,
    decreases n,
{
    if i < n {
        lemma_text_groupings(t, q, i, (n - 1) as nat);
    }
}

/// The one text column that a query groups by, if there is but one.
pub fn utf8_group_col<'a>(parsed: &'a ParsedQuery, table: &'a Table) -> (r: Option<&'a str>)
    ensures
        match r {
            Some(s) => one_text_column(*table, *parsed) == Some(s@),
            None => one_text_column(*table, *parsed) is None,
        },
{
    let mut found: usize = 0;
    let mut name: &'a str = "";
    let mut i: usize = 0;
    proof {
        reveal_strlit("");
        assert(""@ =~= Seq::<char>::empty());
    }
    while i < parsed.group_by.len()
        invariant
            i <= parsed.group_by@.len(),
            found <= i,
            text_groupings(*table, *parsed, i as nat) == Some((found as nat, name@)),
        decreases parsed.group_by@.len() - i,
    {
        let e: &'a Expr = resolve_group_expr(&parsed.group_by[i], &parsed.select_items);
        match e {
            Expr::Identifier(s) => match table.column_type(s.as_str()) {
                Some(ColumnType::Utf8) => {
                    found = found + 1;
                    name = s.as_str();
                },
                _ => {
                    proof {
                        lemma_text_groupings(
                            *table,
                            *parsed,
                            (i + 1) as nat,
                            parsed.group_by@.len(),
                        );
                    }
                    return None;
                },
            },
            _ => {
                if !is_literal_one(e) {
                    proof {
                        lemma_text_groupings(
                            *table,
                            *parsed,
                            (i + 1) as nat,
                            parsed.group_by@.len(),
                        );
                    }
                    return None;
                }
            },
        }
        i = i + 1;
    }
    if found == 1 {
        Some(name)
    } else {
        None
    }
}

/// What counting different numbers by a text column comes to.
pub open spec fn utf8_distinct_result(t: Table, q: ParsedQuery, n: nat) -> Result<
    Option<ResultView>,
    Seq<char>,
> {
    match (one_text_column(t, q), distinct_ints(t, q)) {
        (Some(a), Some(d)) => if q.select_items@.len() != 2 {
            Ok(None)
        } else {
            bind(
                texts_of(t, a),
                |strs: Seq<Seq<char>>|
                    bind(
                        i64s_of(t, d),
                        |vals: Seq<i64>|
                            with_rows(
                                t,
                                q,
                                n,
                                |rows: Seq<usize>|
                                    Ok(
                                        Some(
                                            distinct_texts(
                                                q,
                                                phrases(strs, rows),
                                                mapped(rows, |r: usize| vals[r as int]),
                                            ),
                                        ),
                                    ),
                            ),
                    ),
            )
        },
        _ => Ok(None),
    }
}

/// The texts of rows, as keys.
pub open spec fn phrases(strs: Seq<Seq<char>>, rows: Seq<usize>) -> Seq<Seq<Seq<char>>> {
    mapped(rows, |r: usize| seq![strs[r as int]])
}

/// The texts of rows, as keys.
pub fn phrase_keys(strs: &Utf8Column, rows: &Vec<usize>, row_count: usize) -> (keys: Vec<Vec<String>>)
    requires
        strs.wf(),
        strs@.len() >= row_count,
        forall|i: int| 0 <= i < rows@.len() ==> (#[trigger] rows@[i]) < row_count,
    ensures
        text_lists(keys@) == phrases(strs@, rows@),
        keys@.len() == rows@.len(),
{
    let ghost key = |r: usize| seq![strs@[r as int]];
    let key_at = |r: usize| -> (k: Vec<String>)
        requires
            row_count > r,
        ensures
            texts(k@) == key(r),
    {
        assert(strs.row_ok(r as int));
        one_text(String::from_str(strs.get(r)))
    };
    let keys = text_keys(rows, key_at, Ghost(key));
    assert(text_lists(keys@).len() == rows@.len());
    keys
}

/// Counts different numbers by a text column, if that is what the query asks for.
pub fn try_fused_utf8_count_distinct_i64(table: &Table, parsed: &ParsedQuery, row_count: usize) -> (r:
    Result<Option<QueryResult>, Error>)
    requires
        table.wf(),
        table.holds_rows(row_count as int),
    ensures
        attempt(r) == utf8_distinct_result(*table, *parsed, row_count as nat),
{
    let a = match utf8_group_col(parsed, table) {
        Some(n) => n,
        None => {
            return Ok(None);
        },
    };
    let d = match find_distinct_ints(table, parsed) {
        Some(n) => n,
        None => {
            return Ok(None);
        },
    };
    if parsed.select_items.len() != 2 {
        return Ok(None);
    }
    let strs = match text_column(table, a, row_count) {
        Err(e) => {
            return Err(e);
        },
        Ok(None) => {
            return Ok(None);
        },
        Ok(Some(c)) => c,
    };
    let nums = match i64_column(table, d, row_count) {
        Err(e) => {
            return Err(e);
        },
        Ok(None) => {
            return Ok(None);
        },
        Ok(Some(c)) => c,
    };
    let rows = match choose_rows(table, parsed, row_count) {
        Err(e) => {
            return Err(e);
        },
        Ok(None) => {
            return Ok(Some(empty_result(parsed)));
        },
        Ok(Some(r)) => r,
    };
    let keys = phrase_keys(strs, &rows, row_count);
    let ghost value = |r: usize| nums@[r as int];
    let value_at = |r: usize| -> (v: i64)
        requires
            row_count > r,
        ensures
            v == value(r),
    { nums.get(r) };
    let vals = int_values(&rows, value_at, Ghost(value));
    Ok(Some(distinct_and_sort(parsed, keys, &vals)))
}

} // verus!
