//! Rows by minute, in the order of time.
use crate::error::{fails, yields, Error};
use crate::exec::agg_heap::{before, lemma_before_total, lemma_members, ranks, window};
use crate::exec::group::{is_identifier, is_name, resolve_group_expr, resolved};
use crate::exec::group_fused_pair::count_up;
use crate::exec::group_fused_q41::{limit_or_default, limit_or_ten};
use crate::exec::group_fused_region::is_count;
use crate::exec::grouping::{count_ints, tallied};
use crate::exec::hash::first_seen;
use crate::exec::kernel::{
    bind, choose_rows, has_leading_keys, int_keys, keys_lead, mapped, time_column, times_of,
    with_rows,
};
use crate::exec::order::sort_numbers;
use crate::exec::result::{
    attempt, cell_rows, cells, counted, empty_result, headings, labels, number_cell, offset_of,
    query_offset, shown, Cell, CellView, QueryResult, ResultView,
};
use crate::exec::sorting::{all_numbers, counts_rows, order_column, resolve_order_column};
use crate::expr::eval::quotient;
use crate::expr::time::{format_timestamp_micros_trunc, timestamp_text, BUCKET_ZONE_MICROS};
use crate::sql::ast::{
    Expr, Function, FunctionArg, FunctionArguments, Literal, ParsedQuery,
};
use crate::storage::table::Table;
use crate::text::{str_chars, str_eq, to_uppercase, uppercased};
use vstd::prelude::*;

verus! {

/// Whether two characters are alike but for the size of English letters.
pub open spec fn letters_alike(a: char, b: char) -> bool {
    ||| a == b
    ||| ('A' <= a <= 'Z' && b as u32 == a as u32 + 32)
    ||| ('A' <= b <= 'Z' && a as u32 == b as u32 + 32)
}

/// Whether two texts are alike but for the size of English letters.
pub open spec fn texts_alike(a: Seq<char>, b: Seq<char>) -> bool {
    &&& a.len() == b.len()
    &&& forall|i: int| 0 <= i < a.len() ==> letters_alike(#[trigger] a[i], b[i])
}

/// Whether two texts are alike but for the size of English letters.
pub fn eq_ignore_ascii_case(a: &str, b: &str) -> (r: bool)
    ensures
        r == texts_alike(a@, b@),
{
    let x = str_chars(a);
    let y = str_chars(b);
    if x.len() != y.len() {
        return false;
    }
    let mut i: usize = 0;
    while i < x.len()
        invariant
            i <= x@.len() == y@.len(),
            x@ == a@,
            y@ == b@,
            forall|k: int| 0 <= k < i ==> letters_alike(#[trigger] x@[k], y@[k]),
        decreases x@.len() - i,
    {
        let p: char = x[i];
        let q: char = y[i];
        let alike = p == q || ('A' <= p && p <= 'Z' && q as u32 == p as u32 + 32) || ('A' <= q && q
            <= 'Z' && p as u32 == q as u32 + 32);
        if !alike {
            assert(!letters_alike(x@[i as int], y@[i as int]));
            return false;
        }
        i = i + 1;
    }
    true
}

/// Whether an argument names the minute as a unit.
pub open spec fn names_minute(a: FunctionArg) -> bool {
    match a {
        FunctionArg::Expr(Expr::Identifier(s)) => texts_alike(s@, "minute"@),
        FunctionArg::Expr(Expr::Value(Literal::SingleQuotedString(s))) => texts_alike(
            s@,
            "minute"@,
        ),
        _ => false,
    }
}

/// Whether an argument is the time column.
pub open spec fn names_time(a: FunctionArg) -> bool {
    match a {
        FunctionArg::Expr(e) => is_name(e, "EventTime"@),
        _ => false,
    }
}

/// Whether an expression is the time column cut down to the minute.
pub open spec fn cuts_to_minute(e: Expr) -> bool {
    match e {
        Expr::Function(f) => uppercased(f.name@) == "DATE_TRUNC"@ && match f.args {
            FunctionArguments::List { args, .. } => args@.len() >= 2 && names_minute(args@[0])
                && names_time(args@[1]),
            _ => false,
        },
        _ => false,
    }
}

/// Whether an expression is the time column cut down to the minute.
pub fn is_date_trunc_minute_event_time(expr: &Expr) -> (r: bool)
    ensures
        r == cuts_to_minute(*expr),
{
    match expr {
        Expr::Function(f) => {
            let upper = to_uppercase(f.name.as_str());
            if !str_eq(upper.as_str(), "DATE_TRUNC") {
                return false;
            }
            match &f.args {
                FunctionArguments::List { args, .. } => {
                    if args.len() < 2 {
                        return false;
                    }
                    let unit = match &args[0] {
                        FunctionArg::Expr(Expr::Identifier(s)) => eq_ignore_ascii_case(
                            s.as_str(),
                            "minute",
                        ),
                        FunctionArg::Expr(Expr::Value(Literal::SingleQuotedString(s))) =>
                        eq_ignore_ascii_case(s.as_str(), "minute"),
                        _ => false,
                    };
                    let col = match &args[1] {
                        FunctionArg::Expr(e) => is_identifier(e, "EventTime"),
                        _ => false,
                    };
                    unit && col
                },
                _ => false,
            }
        },
        _ => false,
    }
}

/// Whether a query asks for no order, or for the order of time.
pub open spec fn sorts_by_minute(q: ParsedQuery) -> bool {
    ||| q.order_by@.len() == 0
    ||| q.order_by@.len() == 1 && !q.order_by@[0].1 && (cuts_to_minute(q.order_by@[0].0)
        || order_column(q.order_by@[0].0, labels(q.select_items@), q.select_items@) == Some(
        0usize,
    ))
}

/// Whether a query counts rows by minute, in the order of time, with a limit.
pub open spec fn q43_shape(q: ParsedQuery) -> bool {
    &&& q.group_by@.len() == 1
    &&& q.having is None
    &&& q.limit is Some
    &&& cuts_to_minute(resolved(q.group_by@[0], q.select_items@))
    &&& q.select_items@.len() == 2
    &&& keys_lead(q)
    &&& counts_rows(q.select_items@[1])
    &&& sorts_by_minute(q)
}

/// Whether a query counts rows by minute, in the order of time, with a limit.
pub fn is_q43_shape(parsed: &ParsedQuery) -> (r: bool)
    ensures
        r == q43_shape(*parsed),
{
    if parsed.group_by.len() != 1 || parsed.having.is_some() || parsed.limit.is_none()
        || parsed.select_items.len() != 2 {
        return false;
    }
    let e = resolve_group_expr(&parsed.group_by[0], &parsed.select_items);
    let sorted = if parsed.order_by.len() == 0 {
        true
    } else if parsed.order_by.len() == 1 && !parsed.order_by[0].1 {
        let by = &parsed.order_by[0].0;
        let first = match resolve_order_column(by, &headings(parsed), &parsed.select_items) {
            Some(c) => c == 0,
            None => false,
        };
        first || is_date_trunc_minute_event_time(by)
    } else {
        false
    };
    sorted && is_count(&parsed.select_items[1]) && is_date_trunc_minute_event_time(e)
        && has_leading_keys(parsed)
}

/// The number of the minute of a time.
pub open spec fn minute_number(micros: i64) -> i64 {
    (quotient(micros, 1_000_000) as int / 60) as i64
}

/// The number of the minute of a time.
pub fn minute_of(micros: i64) -> (m: i64)
    ensures
        m == minute_number(micros),
{
    let secs: Option<i64> = micros.checked_div(1_000_000);
    let minute: Option<i64> = secs.unwrap().checked_div_euclid(60);
    minute.unwrap()
}

/// The start of a minute as text.
pub open spec fn minute_text(m: i64) -> Result<Seq<char>, Seq<char>> {
    if m * 60_000_000 < i64::MIN + BUCKET_ZONE_MICROS || m * 60_000_000 > i64::MAX {
        Err("arithmetic overflow"@)
    } else {
        Ok(timestamp_text((m * 60_000_000 - BUCKET_ZONE_MICROS) as i64))
    }
}

fn show_minute(m: i64) -> (r: Result<String, Error>)
    ensures
        match r {
            Ok(s) => yields(minute_text(m), s@),
            Err(e) => fails(minute_text(m), e@),
        },
{
    let start: i128 = m as i128 * 60_000_000;
    if start < i64::MIN as i128 + BUCKET_ZONE_MICROS as i128 || start > i64::MAX as i128 {
        return Err(Error::msg("arithmetic overflow"));
    }
    Ok(format_timestamp_micros_trunc(start as i64))
}

/// The minutes of rows, as keys.
pub open spec fn minute_keys(times: Seq<i64>, rows: Seq<usize>) -> Seq<u128> {
    mapped(rows, |r: usize| minute_number(times[r as int]) as u128)
}

/// The minute behind a key.
pub open spec fn key_minute(k: u128) -> i64 {
    k as i64
}

/// The minute behind a key is that of the time that the key was made of.
pub proof fn law_minute_key(m: i64)
    ensures
        key_minute(m as u128) == m,
{
    assert((m as u128) as i64 == m) by (bit_vector);
}

/// Earlier minutes come first.
pub open spec fn earlier(keys: Seq<u128>) -> spec_fn(usize, usize) -> bool {
    |a: usize, b: usize| key_minute(keys[a as int]) < key_minute(keys[b as int])
}

/// The minutes in the order of time, from the offset of the query on.
pub open spec fn minutes_shown(q: ParsedQuery, keys: Seq<u128>) -> Seq<usize> {
    window(
        all_numbers(first_seen(keys).len()).sort_by(before(earlier(first_seen(keys)))),
        limit_or_ten(q) as nat,
        query_offset(q) as nat,
    )
}

/// Minutes with the numbers of their rows.
pub open spec fn minute_rows(keys: Seq<u128>, numbers: Seq<usize>) -> Result<
    Seq<Seq<CellView>>,
    Seq<char>,
>
    decreases numbers.len(),
{
    if numbers.len() == 0 {
        Ok(Seq::empty())
    } else {
        match minute_rows(keys, numbers.drop_last()) {
            Err(m) => Err(m),
            Ok(out) => {
                let g = numbers.last() as int;
                match minute_text(key_minute(first_seen(keys)[g])) {
                    Err(m) => Err(m),
                    Ok(s) => Ok(out.push(seq![shown(s), counted(tallied(keys)[g] as int)])),
                }
            },
        }
    }
}

proof fn lemma_minute_rows_fault(keys: Seq<u128>, numbers: Seq<usize>, i: int)
    requires
        0 <= i <= numbers.len(),
        minute_rows(keys, numbers.take(i)) is Err,
    ensures
        minute_rows(keys, numbers) == minute_rows(keys, numbers.take(i)),
    decreases numbers.len() - i,
{
    if i == numbers.len() {
        assert(numbers.take(i) =~= numbers);
    } else {
        assert(numbers.take(i + 1).drop_last() =~= numbers.take(i));
        lemma_minute_rows_fault(keys, numbers, i + 1);
    }
}

/// What counting rows by minute comes to.
pub open spec fn q43_result(t: Table, q: ParsedQuery, n: nat) -> Result<
    Option<ResultView>,
    Seq<char>,
>
{
    if !q43_shape(q) {
        Ok(None)
    } else {
        bind(
            times_of(t, "EventTime"@),
            |times: Seq<i64>|
                with_rows(
                    t,
                    q,
                    n,
                    |rows: Seq<usize>|
                        match minute_rows(
                            minute_keys(times, rows),
                            minutes_shown(q, minute_keys(times, rows)),
                        ) {
                            Err(m) => Err(m),
                            Ok(out) => Ok(
                                Some(ResultView { columns: labels(q.select_items@), rows: out }),
                            ),
                        },
                ),
        )
    }
}

/// The part of some numbers that begins at an offset and has at most a given length.
pub fn numbers_window(v: &Vec<usize>, limit: usize, offset: usize) -> (out: Vec<usize>)
    ensures
        out@ == window(v@, limit as nat, offset as nat),
{
    let mut out: Vec<usize> = Vec::new();
    let mut j: usize = offset;
    while j < v.len() && j - offset < limit
        invariant
            offset <= j,
            j <= v@.len() || j == offset,
            out@ =~= window(v@, (j - offset) as nat, offset as nat),
            j - offset <= limit,
        decreases v@.len() - j,
    {
        out.push(v[j]);
        j = j + 1;
    }
    assert(out@ =~= window(v@, limit as nat, offset as nat));
    out
}

/// Minutes with the numbers of their rows.
fn show_minutes(
    seen: &Vec<u128>,
    counts: &Vec<u64>,
    numbers: &Vec<usize>,
    Ghost(keys): Ghost<Seq<u128>>,
) -> (r: Result<Vec<Vec<Cell>>, Error>)
    requires
        seen@ == first_seen(keys),
        counts@ == tallied(keys),
        forall|k: int| 0 <= k < numbers@.len() ==> (#[trigger] numbers@[k]) < seen@.len(),
    ensures
        match r {
            Ok(v) => yields(minute_rows(keys, numbers@), cell_rows(v@)),
            Err(e) => fails(minute_rows(keys, numbers@), e@),
        },
{
    let mut out: Vec<Vec<Cell>> = Vec::new();
    let mut i: usize = 0;
    assert(cell_rows(out@) =~= Seq::<Seq<CellView>>::empty());
    assert(numbers@.take(0) =~= Seq::<usize>::empty());
    while i < numbers.len()
        invariant
            i <= numbers@.len(),
            seen@ == first_seen(keys),
            counts@ == tallied(keys),
            forall|k: int| 0 <= k < numbers@.len() ==> (#[trigger] numbers@[k]) < seen@.len(),
            yields(minute_rows(keys, numbers@.take(i as int)), cell_rows(out@)),
        decreases numbers@.len() - i,
    {
        assert(numbers@.take(i + 1).drop_last() =~= numbers@.take(i as int));
        assert(numbers@[i as int] < seen@.len());
        let g: usize = numbers[i];
        match show_minute(seen[g] as i64) {
            Err(e) => {
                proof {
                    lemma_minute_rows_fault(keys, numbers@, i + 1);
                }
                return Err(e);
            },
            Ok(s) => {
                let mut row: Vec<Cell> = Vec::new();
                row.push(Cell::Text(s));
                row.push(number_cell(counts[g] as i128));
                assert(cells(row@) =~= seq![shown(s@), counted(counts@[g as int] as int)]);
                let ghost sofar = out@;
                out.push(row);
                assert(cell_rows(out@) =~= cell_rows(sofar).push(cells(row@)));
            },
        }
        i = i + 1;
    }
    assert(numbers@.take(i as int) =~= numbers@);
    Ok(out)
}

/// Counts rows by minute, if that is what the query asks for.
pub fn try_fused_q43(table: &Table, parsed: &ParsedQuery, row_count: usize) -> (r: Result<
    Option<QueryResult>,
    Error,
>)
    requires
        table.wf(),
        table.holds_rows(row_count as int),
    ensures
        attempt(r) == q43_result(*table, *parsed, row_count as nat),
{
    if !is_q43_shape(parsed) {
        return Ok(None);
    }
    let times = match time_column(table, "EventTime", row_count) {
        Err(e) => {
            return Err(e);
        },
        Ok(None) => {
            return Ok(None);
        },
        Ok(Some(c)) => c,
    };
    let rows = match choose_rows(table, parsed, row_count) {
        Err(e) => {
            return Err(e);
        },
        Ok(None) => {
            return Ok(Some(empty_result(parsed)));
        },
        Ok(Some(r)) => r,
    };
    let ghost key = |r: usize| minute_number(times@[r as int]) as u128;
    let key_at = |r: usize| -> (k: u128)
        requires
            row_count > r,
        ensures
            k == key(r),
    { minute_of(times.get(r)) as u128 };
    let keys = int_keys(&rows, key_at, Ghost(key));
    let (index, counts) = count_ints(&keys);
    let n: usize = index.len();
    let seen = index.all();
    let ghost rule = earlier(seen@);
    let ghost leq = before(rule);
    proof {
        assert(ranks(rule));
        lemma_before_total(rule);
    }
    let all = count_up(n);
    let compare = |a: usize, b: usize| -> (r: bool)
        requires
            n > a,
            n > b,
        ensures
            r == leq(a, b),
    {
        let x: i64 = seen[a] as i64;
        let y: i64 = seen[b] as i64;
        x < y || (!(y < x) && a <= b)
    };
    proof {
        assert forall|x: usize| all@.contains(x) implies x < n by {}
    }
    let sorted = sort_numbers(&all, compare, Ghost(leq));
    proof {
        lemma_members(all@, sorted@, n);
    }
    let numbers = numbers_window(&sorted, limit_or_default(parsed), offset_of(parsed));
    assert forall|k: int| 0 <= k < numbers@.len() implies (#[trigger] numbers@[k]) < n by {
        assert(sorted@[k + query_offset(*parsed)] < n);
    }
    match show_minutes(seen, &counts, &numbers, Ghost(keys@)) {
        Err(e) => Err(e),
        Ok(out) => Ok(Some(QueryResult { columns: headings(parsed), rows: out })),
    }
}

/// Minutes come in the order of time: those that are shown are a page of all minutes, none of
/// which is earlier than one before it.
pub proof fn law_minutes_in_order(q: ParsedQuery, keys: Seq<u128>) -> (all: Seq<usize>)
    requires
        first_seen(keys).len() <= usize::MAX,
    ensures
        crate::exec::order_laws::arranges(all, first_seen(keys).len()),
        forall|x: int, y: int|
            #![trigger all[x], all[y]]
            0 <= x < y < all.len() ==> key_minute(first_seen(keys)[all[x] as int]) <= key_minute(
                first_seen(keys)[all[y] as int],
            ),
        crate::exec::top_laws::is_part(
            minutes_shown(q, keys),
            all,
            limit_or_ten(q),
            query_offset(q),
        ),
{
    crate::exec::top_laws::law_ranked_page(
        earlier(first_seen(keys)),
        first_seen(keys).len(),
        limit_or_ten(q),
        query_offset(q),
    )
}

/// The minute of a time begins less than a minute before its second, or with it.
pub proof fn law_minute_number(micros: i64)
    requires
        micros >= 0,
    ensures
        minute_number(micros) * 60_000_000 <= micros < (minute_number(micros) + 1) * 60_000_000,
{
    let s = (micros / 1_000_000) as int;
    assert(quotient(micros, 1_000_000) == s);
}

/// A minute is shown as the time of its beginning seven hours behind UTC.
pub proof fn law_minute_text(m: i64, at: i64)
    requires
        at == m * 60_000_000 - 7 * 3_600 * 1_000_000,
        m * 60_000_000 <= i64::MAX,
    ensures
        yields(minute_text(m), timestamp_text(at)),
{
}

/// The rows of minutes show each minute with the number of its keys.
pub proof fn law_minute_rows(keys: Seq<u128>, numbers: Seq<usize>, i: int)
    requires
        minute_rows(keys, numbers) is Ok,
    ensures
        minute_rows(keys, numbers)->Ok_0.len() == numbers.len(),
        0 <= i < numbers.len() ==> {
            let g = numbers[i] as int;
            minute_text(key_minute(first_seen(keys)[g])) matches Ok(s) && minute_rows(
                keys,
                numbers,
            )->Ok_0[i] == seq![shown(s), counted(tallied(keys)[g] as int)]
        },
    decreases numbers.len(),
{
    if numbers.len() > 0 {
        law_minute_rows(keys, numbers.drop_last(), i);
    }
}

} // verus!
