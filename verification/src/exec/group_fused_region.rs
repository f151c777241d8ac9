//! GROUP BY one column with several aggregates.
use crate::error::Error;
use crate::exec::agg_heap::{before, lemma_before_total, lemma_members, ranks, window};
use crate::exec::agg_topk::lemma_text_order;
use crate::exec::group_fused_text::distinct_counts;
use crate::exec::group_referrer::{calls_on, is_call_on};
use crate::exec::grouping::{
    count_groups, distinct_groups, group_texts, sum_at, sum_groups, tallied,
};
use crate::exec::hash::{
    first_seen, lemma_first_seen_distinct, lemma_occurrences, text_lists, TextIndex,
};
use crate::exec::having::{parse_having_count_gt, threshold_of};
use crate::exec::kernel::{
    any_column, bind, choose_rows, count_sorted, finish_count_sorted_scan, group_id_name,
    group_name, i16_column, i16s_of, i32_column, i32s_of, i64_column, i64s_of, int_values,
    is_keys_then, keys_then, mapped, one_text, text_column, text_keys, texts_of, with_rows,
};
use crate::exec::order::sort_numbers;
use crate::exec::ratio::{lemma_ratio_order, ratio_is_less, ratio_less};
use crate::exec::result::{
    attempt, cell_rows, cells, counted, empty_result, headings, labels, limit_of, number_cell,
    offset_of, query_limit, query_offset, shown, Cell, CellView, QueryResult, ResultView,
};
use crate::exec::sorting::counts_rows;
use crate::expr::eval::column_of;
use crate::sql::ast::{Expr, ParsedQuery, SelectItemKind, SelectProjection};
use crate::sql::query::{column_name, column_ref};
use crate::storage::column::{ColumnData, ColumnView};
use crate::storage::table::Table;
use crate::text::{decimal, int_text, str_eq, str_less, text_less, texts};
use vstd::prelude::*;
use vstd::utf8::encode_utf8;

verus! {

/// Whether a projection adds up a column.
pub open spec fn sums_one(p: SelectProjection, name: Seq<char>) -> bool {
    p.kind is Sum && column_name(p.kind->Sum_0) == Some(name)
}

/// Whether a projection averages a column.
pub open spec fn averages_one(p: SelectProjection, name: Seq<char>) -> bool {
    p.kind is Avg && column_name(p.kind->Avg_0) == Some(name)
}

/// Whether a projection counts the different values of a column.
pub open spec fn counts_different_one(p: SelectProjection, name: Seq<char>) -> bool {
    p.kind is CountDistinct && column_name(p.kind->CountDistinct_0) == Some(name)
}

/// Whether an expression names a column.
pub fn names_column(e: &Expr, name: &str) -> (r: bool)
    ensures
        r == (column_name(*e) == Some(name@)),
{
    match column_ref(e) {
        Some(s) => str_eq(s, name),
        None => false,
    }
}

/// Whether a projection adds up a column.
pub fn is_sum_of(p: &SelectProjection, name: &str) -> (r: bool)
    ensures
        r == sums_one(*p, name@),
{
    match &p.kind {
        SelectItemKind::Sum(e) => names_column(e, name),
        _ => false,
    }
}

/// Whether a projection averages a column.
pub fn is_average_of(p: &SelectProjection, name: &str) -> (r: bool)
    ensures
        r == averages_one(*p, name@),
{
    match &p.kind {
        SelectItemKind::Avg(e) => names_column(e, name),
        _ => false,
    }
}

/// Whether a projection counts the different values of a column.
pub fn is_distinct_of(p: &SelectProjection, name: &str) -> (r: bool)
    ensures
        r == counts_different_one(*p, name@),
{
    match &p.kind {
        SelectItemKind::CountDistinct(e) => names_column(e, name),
        _ => false,
    }
}

/// Whether a projection counts rows.
pub fn is_count(p: &SelectProjection) -> (r: bool)
    ensures
        r == counts_rows(*p),
{
    match &p.kind {
        SelectItemKind::CountAll => true,
        SelectItemKind::Count(_) => true,
        _ => false,
    }
}

/// Whether a query shows regions, each with a sum, its count, an average and the number
/// of different users, sorted by the count if at all.
pub open spec fn region_shape(q: ParsedQuery) -> bool {
    &&& q.group_by@.len() == 1
    &&& group_name(q.group_by@[0], q) == Some("RegionID"@)
    &&& q.having is None
    &&& keys_then(q, 4, 1)
    &&& sums_one(q.select_items@[1], "AdvEngineID"@)
    &&& counts_rows(q.select_items@[2])
    &&& averages_one(q.select_items@[3], "ResolutionWidth"@)
    &&& counts_different_one(q.select_items@[4], "UserID"@)
}

/// Whether a query shows regions, each with a sum, its count, an average and the number
/// of different users, sorted by the count if at all.
pub fn is_region_shape(parsed: &ParsedQuery) -> (r: bool)
    ensures
        r == region_shape(*parsed),
{
    if parsed.group_by.len() != 1 || parsed.having.is_some() || !is_keys_then(parsed, 4, 1) {
        return false;
    }
    match group_id_name(&parsed.group_by[0], parsed) {
        Some(n) => str_eq(n, "RegionID") && is_sum_of(&parsed.select_items[1], "AdvEngineID")
            && is_count(&parsed.select_items[2]) && is_average_of(
            &parsed.select_items[3],
            "ResolutionWidth",
        ) && is_distinct_of(&parsed.select_items[4], "UserID"),
        None => false,
    }
}

/// What is added up, averaged and counted for each key.
pub struct Totals {
    pub summed: Seq<i64>,
    pub averaged: Seq<i64>,
    pub users: Seq<i64>,
}

impl Totals {
    /// The row of a group: its key, a sum, its count, an average and the number of
    /// different users.
    pub open spec fn row(self, keys: Seq<Seq<Seq<char>>>, g: int) -> Seq<CellView> {
        let key = first_seen(keys)[g];
        seq![
            shown(key[0]),
            counted(sum_at(keys, self.summed, key)),
            counted(tallied(keys)[g] as int),
            CellView::Ratio {
                sum: sum_at(keys, self.averaged, key),
                count: tallied(keys)[g] as nat,
            },
            counted(distinct_counts(keys, self.users)[g] as int),
        ]
    }

    /// The rows of all groups.
    pub open spec fn rows(self, keys: Seq<Seq<Seq<char>>>) -> Seq<Seq<CellView>> {
        Seq::new(first_seen(keys).len(), |g: int| self.row(keys, g))
    }
}

/// The keys of rows by the numbers of a column.
pub open spec fn number_keys(v: spec_fn(usize) -> int, rows: Seq<usize>) -> Seq<Seq<Seq<char>>> {
    mapped(rows, |r: usize| seq![decimal(v(r))])
}

/// What the sums, averages and users by region come to.
pub open spec fn region_result(t: Table, q: ParsedQuery, n: nat) -> Result<
    Option<ResultView>,
    Seq<char>,
>
{
    if !region_shape(q) {
        Ok(None)
    } else {
        bind(
            i32s_of(t, "RegionID"@),
            |regions: Seq<i32>|
                bind(
                    i16s_of(t, "AdvEngineID"@),
                    |adv: Seq<i16>|
                        bind(
                            i16s_of(t, "ResolutionWidth"@),
                            |width: Seq<i16>|
                                bind(
                                    i64s_of(t, "UserID"@),
                                    |users: Seq<i64>|
                                        with_rows(
                                            t,
                                            q,
                                            n,
                                            |rows: Seq<usize>|
                                                Ok(
                                                    Some(region_rows(q, regions, adv, width, users, rows)),
                                                ),
                                        ),
                                ),
                        ),
                ),
        )
    }
}

/// The sums, averages and users of rows by region.
pub open spec fn region_rows(
    q: ParsedQuery,
    regions: Seq<i32>,
    adv: Seq<i16>,
    width: Seq<i16>,
    users: Seq<i64>,
    rows: Seq<usize>,
) -> ResultView {
    let keys = number_keys(|r: usize| regions[r as int] as int, rows);
    let totals = Totals {
        summed: mapped(rows, |r: usize| adv[r as int] as i64),
        averaged: mapped(rows, |r: usize| width[r as int] as i64),
        users: mapped(rows, |r: usize| users[r as int]),
    };
    count_sorted(q, tallied(keys), totals.rows(keys))
}

/// The rows of all groups.
fn show_totals(
    index: &TextIndex,
    counts: &Vec<u64>,
    sums: &Vec<i128>,
    averages: &Vec<i128>,
    users: &Vec<u64>,
    Ghost(keys): Ghost<Seq<Seq<Seq<char>>>>,
    Ghost(totals): Ghost<Totals>,
) -> (rows: Vec<Vec<Cell>>)
    requires
        index@ == first_seen(keys),
        counts@ == tallied(keys),
        users@ == distinct_counts(keys, totals.users),
        sums@.len() == index@.len(),
        averages@.len() == index@.len(),
        forall|g: int|
            0 <= g < index@.len() ==> (#[trigger] index@[g]).len() == 1,
        forall|g: int|
            0 <= g < index@.len() ==> (#[trigger] sums@[g]) == sum_at(keys, totals.summed, index@[g])
                && sums@[g] > i128::MIN,
        forall|g: int|
            0 <= g < index@.len() ==> (#[trigger] averages@[g]) == sum_at(
                keys,
                totals.averaged,
                index@[g],
            ),
    ensures
        cell_rows(rows@) == totals.rows(keys),
        rows@.len() == counts@.len(),
{
    let mut rows: Vec<Vec<Cell>> = Vec::new();
    let n: usize = index.len();
    let mut g: usize = 0;
    while g < n
        invariant
            g <= n == index@.len(),
            index@ == first_seen(keys),
            counts@ == tallied(keys),
            users@ == distinct_counts(keys, totals.users),
            sums@.len() == index@.len(),
            averages@.len() == index@.len(),
            forall|g: int|
                0 <= g < index@.len() ==> (#[trigger] index@[g]).len() == 1,
            forall|g: int|
                0 <= g < index@.len() ==> (#[trigger] sums@[g]) == sum_at(
                    keys,
                    totals.summed,
                    index@[g],
                ) && sums@[g] > i128::MIN,
            forall|g: int|
                0 <= g < index@.len() ==> (#[trigger] averages@[g]) == sum_at(
                    keys,
                    totals.averaged,
                    index@[g],
                ),
            rows@.len() == g,
            forall|k: int| 0 <= k < g ==> cells((#[trigger] rows@[k])@) == totals.row(keys, k),
        decreases n - g,
    {
        let key = index.key(g);
        assert(index@[g as int].len() == 1);
        assert(texts(key@).len() == 1);
        assert(texts(key@)[0] == key@[0]@);
        assert(sums@[g as int] == sum_at(keys, totals.summed, index@[g as int]));
        assert(averages@[g as int] == sum_at(keys, totals.averaged, index@[g as int]));
        let mut row: Vec<Cell> = Vec::new();
        row.push(Cell::Text(key[0].clone()));
        row.push(number_cell(sums[g]));
        row.push(number_cell(counts[g] as i128));
        row.push(Cell::Ratio { sum: averages[g], count: counts[g] });
        row.push(number_cell(users[g] as i128));
        assert(cells(row@) =~= totals.row(keys, g as int));
        rows.push(row);
        g = g + 1;
    }
    assert(cell_rows(rows@) =~= totals.rows(keys));
    rows
}

/// Distinct keys of one text each have one text.
pub proof fn lemma_one_text(keys: Seq<Seq<Seq<char>>>)
    requires
        forall|i: int| 0 <= i < keys.len() ==> (#[trigger] keys[i]).len() == 1,
    ensures
        forall|g: int|
            0 <= g < first_seen(keys).len() ==> (#[trigger] first_seen(keys)[g]).len() == 1,
{
    lemma_first_seen_distinct(keys);
    assert forall|g: int| 0 <= g < first_seen(keys).len() implies (
    #[trigger] first_seen(keys)[g]).len() == 1 by {
        assert(first_seen(keys).contains(first_seen(keys)[g]));
        let j = choose|j: int| 0 <= j < keys.len() && keys[j] == first_seen(keys)[g];
        assert(keys[j].len() == 1);
    }
}

/// The sums, averages and users by region, if that is what the query asks for.
pub fn try_fused_region_aggs(table: &Table, parsed: &ParsedQuery, row_count: usize) -> (r: Result<
    Option<QueryResult>,
    Error,
>)
    requires
        table.wf(),
        table.holds_rows(row_count as int),
    ensures
        attempt(r) == region_result(*table, *parsed, row_count as nat),
{
    if !is_region_shape(parsed) {
        return Ok(None);
    }
    let regions = match i32_column(table, "RegionID", row_count) {
        Err(e) => {
            return Err(e);
        },
        Ok(None) => {
            return Ok(None);
        },
        Ok(Some(c)) => c,
    };
    let adv = match i16_column(table, "AdvEngineID", row_count) {
        Err(e) => {
            return Err(e);
        },
        Ok(None) => {
            return Ok(None);
        },
        Ok(Some(c)) => c,
    };
    let width = match i16_column(table, "ResolutionWidth", row_count) {
        Err(e) => {
            return Err(e);
        },
        Ok(None) => {
            return Ok(None);
        },
        Ok(Some(c)) => c,
    };
    let users = match i64_column(table, "UserID", row_count) {
        Err(e) => {
            return Err(e);
        },
        Ok(None) => {
            return Ok(None);
        },
        Ok(Some(c)) => c,
    };
    let rows = match choose_rows(table, parsed, row_count) {
        Err(e) => {
            return Err(e);
        },
        Ok(None) => {
            return Ok(Some(empty_result(parsed)));
        },
        Ok(Some(r)) => r,
    };
    let ghost key = |r: usize| seq![decimal(regions@[r as int] as int)];
    let ghost sf = |r: usize| adv@[r as int] as i64;
    let ghost af = |r: usize| width@[r as int] as i64;
    let ghost uf = |r: usize| users@[r as int];
    let key_at = |r: usize| -> (k: Vec<String>)
        requires
            row_count > r,
        ensures
            texts(k@) == key(r),
    { one_text(int_text(regions.get(r) as i128)) };
    let sum_of = |r: usize| -> (k: i64)
        requires
            row_count > r,
        ensures
            k == sf(r),
    { adv.get(r) as i64 };
    let average_of = |r: usize| -> (k: i64)
        requires
            row_count > r,
        ensures
            k == af(r),
    { width.get(r) as i64 };
    let user_of = |r: usize| -> (k: i64)
        requires
            row_count > r,
        ensures
            k == uf(r),
    { users.get(r) };
    let keys = text_keys(&rows, key_at, Ghost(key));
    let sv = int_values(&rows, sum_of, Ghost(sf));
    let av = int_values(&rows, average_of, Ghost(af));
    let uv = int_values(&rows, user_of, Ghost(uf));
    let ghost all = text_lists(keys@);
    let ghost totals = Totals { summed: sv@, averaged: av@, users: uv@ };
    let (index, ids) = group_texts(keys);
    let n: usize = index.len();
    proof {
        lemma_first_seen_distinct(all);
        assert(all =~= number_keys(|r: usize| regions@[r as int] as int, rows@));
        assert forall|i: int| 0 <= i < all.len() implies (#[trigger] all[i]).len() == 1 by {
            assert(all[i] == key(rows@[i]));
        }
        lemma_one_text(all);
    }
    let counts = count_groups::<Seq<Seq<char>>>(n, &ids, Ghost(index@), Ghost(all));
    let sums = sum_groups::<Seq<Seq<char>>>(n, &ids, &sv, Ghost(index@), Ghost(all));
    let averages = sum_groups::<Seq<Seq<char>>>(n, &ids, &av, Ghost(index@), Ghost(all));
    let people = distinct_groups::<Seq<Seq<char>>>(n, &ids, &uv, Ghost(index@), Ghost(all));
    proof {
        assert forall|g: int| 0 <= g < n implies (#[trigger] sums@[g]) > i128::MIN by {
            assert(sums@[g] >= -0x7fff_ffff_ffff_ffff_ffff_ffff_ffff_ffff);
        }
        assert(people@ =~= distinct_counts(all, uv@));
    }
    let out = show_totals(&index, &counts, &sums, &averages, &people, Ghost(all), Ghost(totals));
    let result = finish_count_sorted_scan(parsed, &counts, &out);
    assert(result@ == region_rows(*parsed, regions@, adv@, width@, users@, rows@));
    Ok(Some(result))
}

/// Whether a projection averages the length of the address.
pub open spec fn averages_length(p: SelectProjection) -> bool {
    p.kind is Avg && calls_on(p.kind->Avg_0, "LENGTH"@, "URL"@)
}

/// Whether a query shows counters, each with the average length of its addresses and its
/// count, for counters with more than some number of rows, sorted by the average if at
/// all.
pub open spec fn counter_shape(q: ParsedQuery) -> bool {
    &&& q.group_by@.len() == 1
    &&& group_name(q.group_by@[0], q) == Some("CounterID"@)
    &&& threshold_of(q.having) is Some
    &&& keys_then(q, 2, 0)
    &&& averages_length(q.select_items@[1])
    &&& counts_rows(q.select_items@[2])
}

/// The largest count that is too small, if the query averages the length of the
/// address by counter.
pub fn counter_threshold(parsed: &ParsedQuery) -> (r: Option<u64>)
    ensures
        match r {
            Some(n) => counter_shape(*parsed) && threshold_of(parsed.having) == Some(n),
            None => !counter_shape(*parsed),
        },
{
    if parsed.group_by.len() != 1 || !is_keys_then(parsed, 2, 0) {
        return None;
    }
    match group_id_name(&parsed.group_by[0], parsed) {
        Some(n) => {
            if !str_eq(n, "CounterID") {
                return None;
            }
        },
        None => {
            return None;
        },
    }
    let average = match &parsed.select_items[1].kind {
        SelectItemKind::Avg(e) => is_call_on(e, "LENGTH", "URL"),
        _ => false,
    };
    if !average || !is_count(&parsed.select_items[2]) {
        return None;
    }
    parse_having_count_gt(&parsed.having)
}

/// A count as a denominator.
pub open spec fn divisor(n: u64) -> int {
    if n == 0 {
        1
    } else {
        n as int
    }
}

/// Groups with a larger average are better, and of equal averages the smaller text.
pub open spec fn by_average(
    sums: Seq<int>,
    counts: Seq<u64>,
    names: Seq<Seq<char>>,
) -> spec_fn(usize, usize) -> bool {
    |a: usize, b: usize|
        {
            let (x, m) = (sums[a as int], divisor(counts[a as int]));
            let (y, n) = (sums[b as int], divisor(counts[b as int]));
            ratio_less(y, n, x, m) || (!ratio_less(x, m, y, n) && text_less(
                names[a as int],
                names[b as int],
            ))
        }
}

/// Averages and texts rank groups.
pub proof fn lemma_average_ranks(sums: Seq<int>, counts: Seq<u64>, names: Seq<Seq<char>>)
    ensures
        ranks(by_average(sums, counts, names)),
{
    let better = by_average(sums, counts, names);
    assert forall|a: usize, b: usize| #[trigger] better(a, b) implies !better(b, a) by {
        lemma_text_order(names[a as int], names[b as int], names[b as int]);
        lemma_ratio_order(
            sums[a as int],
            divisor(counts[a as int]),
            sums[b as int],
            divisor(counts[b as int]),
            sums[b as int],
            divisor(counts[b as int]),
        );
        lemma_ratio_order(
            sums[b as int],
            divisor(counts[b as int]),
            sums[a as int],
            divisor(counts[a as int]),
            sums[a as int],
            divisor(counts[a as int]),
        );
    }
    assert forall|a: usize, b: usize, c: usize| #[trigger] better(a, c) implies #[trigger] better(
        a,
        b,
    ) || better(b, c) by {
        let (x, m) = (sums[a as int], divisor(counts[a as int]));
        let (y, n) = (sums[b as int], divisor(counts[b as int]));
        let (z, o) = (sums[c as int], divisor(counts[c as int]));
        lemma_text_order(names[a as int], names[b as int], names[c as int]);
        lemma_ratio_order(x, m, y, n, z, o);
        lemma_ratio_order(z, o, y, n, x, m);
        lemma_ratio_order(y, n, x, m, z, o);
        lemma_ratio_order(y, n, z, o, x, m);
        lemma_ratio_order(x, m, z, o, y, n);
        lemma_ratio_order(z, o, x, m, y, n);
    }
}

/// The counters with more rows than the threshold, by number.
pub open spec fn frequent(counts: Seq<u64>, threshold: u64, n: nat) -> Seq<usize>
    decreases n,
{
    if n == 0 {
        Seq::empty()
    } else if counts[n - 1] > threshold {
        frequent(counts, threshold, (n - 1) as nat).push((n - 1) as usize)
    } else {
        frequent(counts, threshold, (n - 1) as nat)
    }
}

/// The row of a counter: its number, the average length and its count.
pub open spec fn average_row(keys: Seq<Seq<Seq<char>>>, lengths: Seq<i64>, g: int) -> Seq<CellView> {
    let key = first_seen(keys)[g];
    seq![
        shown(key[0]),
        CellView::Ratio { sum: sum_at(keys, lengths, key), count: tallied(keys)[g] as nat },
        counted(tallied(keys)[g] as int),
    ]
}

/// Which groups are better than others.
pub open spec fn average_order(keys: Seq<Seq<Seq<char>>>, lengths: Seq<i64>) -> spec_fn(
    usize,
    usize,
) -> bool {
    by_average(
        Seq::new(first_seen(keys).len(), |g: int| sum_at(keys, lengths, first_seen(keys)[g])),
        tallied(keys),
        Seq::new(first_seen(keys).len(), |g: int| first_seen(keys)[g][0]),
    )
}

/// Groups with their averages, as rows.
pub open spec fn average_rows(
    keys: Seq<Seq<Seq<char>>>,
    vals: Seq<i64>,
    numbers: Seq<usize>,
) -> Seq<Seq<CellView>> {
    Seq::new(numbers.len(), |i: int| average_row(keys, vals, numbers[i] as int))
}

/// The numbers of counters that are narrow enough.
pub open spec fn counter_numbers(c: ColumnView) -> Option<spec_fn(usize) -> int> {
    match c {
        ColumnView::Int32(v) => Some(|r: usize| v[r as int] as int),
        ColumnView::Int16(v) => Some(|r: usize| v[r as int] as int),
        _ => None,
    }
}

/// The average length of the address by counter.
pub open spec fn counter_averages(
    q: ParsedQuery,
    number: spec_fn(usize) -> int,
    urls: Seq<Seq<char>>,
    rows: Seq<usize>,
) -> ResultView {
    let keys = number_keys(number, rows);
    let lengths = url_lengths(urls, rows);
    ResultView {
        columns: labels(q.select_items@),
        rows: average_rows(
            keys,
            lengths,
            best_averages(
                keys,
                lengths,
                threshold_of(q.having)->Some_0,
                query_limit(q),
                query_offset(q),
            ),
        ),
    }
}

/// The lengths of the addresses of rows, in bytes.
pub open spec fn url_lengths(urls: Seq<Seq<char>>, rows: Seq<usize>) -> Seq<i64> {
    mapped(rows, |r: usize| encode_utf8(urls[r as int]).len() as i64)
}

/// What the average length of the address by counter comes to.
pub open spec fn counter_result(t: Table, q: ParsedQuery, n: nat) -> Result<
    Option<ResultView>,
    Seq<char>,
>
{
    if !counter_shape(q) {
        Ok(None)
    } else {
        match column_of(t, "CounterID"@) {
            Err(m) => Err(m),
            Ok(c) => bind(
                texts_of(t, "URL"@),
                |urls: Seq<Seq<char>>|
                    with_rows(
                        t,
                        q,
                        n,
                        |rows: Seq<usize>|
                            match counter_numbers(c) {
                                None => Ok(None),
                                Some(number) => Ok(Some(counter_averages(q, number, urls, rows))),
                            },
                    ),
            ),
        }
    }
}

/// The counters with more rows than the threshold are counters.
pub proof fn lemma_frequent(counts: Seq<u64>, threshold: u64, n: nat)
    requires
        n <= usize::MAX,
    ensures
        forall|i: int|
            0 <= i < frequent(counts, threshold, n).len() ==> (#[trigger] frequent(
                counts,
                threshold,
                n,
            )[i]) < n,
    decreases n,
{
    if n > 0 {
        lemma_frequent(counts, threshold, (n - 1) as nat);
        let front = frequent(counts, threshold, (n - 1) as nat);
        assert forall|i: int| 0 <= i < frequent(counts, threshold, n).len() implies (
        #[trigger] frequent(counts, threshold, n)[i]) < n by {
            if i < front.len() {
                assert(front[i] < n - 1);
            }
        }
    }
}

/// The groups with more rows than the threshold, the largest average first.
pub open spec fn best_averages(
    keys: Seq<Seq<Seq<char>>>,
    vals: Seq<i64>,
    threshold: u64,
    limit: usize,
    offset: usize,
) -> Seq<usize> {
    window(
        frequent(tallied(keys), threshold, tallied(keys).len()).sort_by(
            before(average_order(keys, vals)),
        ),
        limit as nat,
        offset as nat,
    )
}

/// The groups with more rows than the threshold, the largest average first.
pub fn rank_averages(
    index: &TextIndex,
    counts: &Vec<u64>,
    sums: &Vec<i128>,
    threshold: u64,
    limit: usize,
    offset: usize,
    Ghost(keys): Ghost<Seq<Seq<Seq<char>>>>,
    Ghost(vals): Ghost<Seq<i64>>,
) -> (out: Vec<usize>)
    requires
        index@ == first_seen(keys),
        counts@ == tallied(keys),
        sums@.len() == index@.len(),
        forall|g: int| 0 <= g < index@.len() ==> (#[trigger] index@[g]).len() == 1,
        forall|g: int|
            0 <= g < index@.len() ==> (#[trigger] sums@[g]) == sum_at(keys, vals, index@[g]),
        forall|g: int| 0 <= g < counts@.len() ==> (#[trigger] counts@[g]) > 0,
    ensures
        out@ == best_averages(keys, vals, threshold, limit, offset),
        forall|k: int| 0 <= k < out@.len() ==> (#[trigger] out@[k]) < index@.len(),
{
    let n: usize = index.len();
    let mut names: Vec<String> = Vec::new();
    let mut kept: Vec<usize> = Vec::new();
    let mut g: usize = 0;
    while g < n
        invariant
            g <= n == index@.len(),
            counts@.len() == n,
            forall|g: int| 0 <= g < index@.len() ==> (#[trigger] index@[g]).len() == 1,
            names@.len() == g,
            forall|k: int| 0 <= k < g ==> (#[trigger] names@[k])@ == index@[k][0],
            kept@ == frequent(counts@, threshold, g as nat),
        decreases n - g,
    {
        let key = index.key(g);
        assert(index@[g as int].len() == 1);
        assert(texts(key@).len() == 1);
        assert(texts(key@)[0] == key@[0]@);
        names.push(key[0].clone());
        if counts[g] > threshold {
            kept.push(g);
        }
        g = g + 1;
    }
    let ghost all_sums = Seq::new(n as nat, |g: int| sum_at(keys, vals, first_seen(keys)[g]));
    let ghost all_names = Seq::new(n as nat, |g: int| first_seen(keys)[g][0]);
    let ghost better = average_order(keys, vals);
    let ghost leq = before(better);
    proof {
        assert(better == by_average(all_sums, counts@, all_names));
        lemma_average_ranks(all_sums, counts@, all_names);
        lemma_before_total(better);
        lemma_frequent(counts@, threshold, n as nat);
        assert forall|x: usize| kept@.contains(x) implies x < n by {
            let j = choose|j: int| 0 <= j < kept@.len() && kept@[j] == x;
            assert(kept@[j] < n);
        }
    }
    let compare = |a: usize, b: usize| -> (r: bool)
        requires
            n > a,
            n > b,
        ensures
            r == leq(a, b),
    {
        let up = ratio_is_less(sums[b], counts[b], sums[a], counts[a]);
        let down = ratio_is_less(sums[a], counts[a], sums[b], counts[b]);
        let first = str_less(names[a].as_str(), names[b].as_str());
        let second = str_less(names[b].as_str(), names[a].as_str());
        let ab = up || (!down && first);
        let ba = down || (!up && second);
        ab || (!ba && a <= b)
    };
    let sorted = sort_numbers(&kept, compare, Ghost(leq));
    proof {
        lemma_members(kept@, sorted@, n);
    }
    let mut out: Vec<usize> = Vec::new();
    let mut j: usize = offset;
    while j < sorted.len() && j - offset < limit
        invariant
            offset <= j,
            j <= sorted@.len() || j == offset,
            out@ =~= window(sorted@, (j - offset) as nat, offset as nat),
            j - offset <= limit,
            forall|k: int| 0 <= k < sorted@.len() ==> (#[trigger] sorted@[k]) < n,
            forall|k: int| 0 <= k < out@.len() ==> (#[trigger] out@[k]) < n,
        decreases sorted@.len() - j,
    {
        assert(sorted@[j as int] < n);
        out.push(sorted[j]);
        j = j + 1;
    }
    assert(out@ =~= window(sorted@, limit as nat, offset as nat));
    out
}

/// Groups with their averages, as rows.
fn show_averages(
    index: &TextIndex,
    counts: &Vec<u64>,
    sums: &Vec<i128>,
    numbers: &Vec<usize>,
    Ghost(keys): Ghost<Seq<Seq<Seq<char>>>>,
    Ghost(vals): Ghost<Seq<i64>>,
) -> (rows: Vec<Vec<Cell>>)
    requires
        index@ == first_seen(keys),
        counts@ == tallied(keys),
        sums@.len() == index@.len(),
        forall|g: int| 0 <= g < index@.len() ==> (#[trigger] index@[g]).len() == 1,
        forall|g: int|
            0 <= g < index@.len() ==> (#[trigger] sums@[g]) == sum_at(keys, vals, index@[g]),
        forall|k: int| 0 <= k < numbers@.len() ==> (#[trigger] numbers@[k]) < index@.len(),
    ensures
        cell_rows(rows@) == average_rows(keys, vals, numbers@),
{
    let mut rows: Vec<Vec<Cell>> = Vec::new();
    let mut j: usize = 0;
    while j < numbers.len()
        invariant
            j <= numbers@.len(),
            index@ == first_seen(keys),
            counts@ == tallied(keys),
            sums@.len() == index@.len(),
            forall|g: int| 0 <= g < index@.len() ==> (#[trigger] index@[g]).len() == 1,
            forall|g: int|
                0 <= g < index@.len() ==> (#[trigger] sums@[g]) == sum_at(keys, vals, index@[g]),
            forall|k: int| 0 <= k < numbers@.len() ==> (#[trigger] numbers@[k]) < index@.len(),
            rows@.len() == j,
            forall|k: int|
                0 <= k < j ==> cells((#[trigger] rows@[k])@) == average_row(
                    keys,
                    vals,
                    numbers@[k] as int,
                ),
        decreases numbers@.len() - j,
    {
        assert(numbers@[j as int] < index@.len());
        let g: usize = numbers[j];
        let key = index.key(g);
        assert(index@[g as int].len() == 1);
        assert(texts(key@).len() == 1);
        assert(texts(key@)[0] == key@[0]@);
        assert(sums@[g as int] == sum_at(keys, vals, index@[g as int]));
        let mut row: Vec<Cell> = Vec::new();
        row.push(Cell::Text(key[0].clone()));
        row.push(Cell::Ratio { sum: sums[g], count: counts[g] });
        row.push(number_cell(counts[g] as i128));
        assert(cells(row@) =~= average_row(keys, vals, g as int));
        rows.push(row);
        j = j + 1;
    }
    assert(cell_rows(rows@) =~= average_rows(keys, vals, numbers@));
    rows
}

/// The average length of the address by counter, if that is what the query asks for.
pub fn try_fused_counter_avg_url_len(table: &Table, parsed: &ParsedQuery, row_count: usize) -> (r: Result<
    Option<QueryResult>,
    Error,
>)
    requires
        table.wf(),
        table.holds_rows(row_count as int),
    ensures
        attempt(r) == counter_result(*table, *parsed, row_count as nat),
{
    let threshold = match counter_threshold(parsed) {
        Some(n) => n,
        None => {
            return Ok(None);
        },
    };
    let counter = match any_column(table, "CounterID", row_count) {
        Err(e) => {
            return Err(e);
        },
        Ok(c) => c,
    };
    let urls = match text_column(table, "URL", row_count) {
        Err(e) => {
            return Err(e);
        },
        Ok(None) => {
            return Ok(None);
        },
        Ok(Some(c)) => c,
    };
    let rows = match choose_rows(table, parsed, row_count) {
        Err(e) => {
            return Err(e);
        },
        Ok(None) => {
            return Ok(Some(empty_result(parsed)));
        },
        Ok(Some(r)) => r,
    };
    let ghost number = counter_numbers(counter@)->Some_0;
    let ghost key = |r: usize| seq![decimal(number(r))];
    let keys = match counter {
        ColumnData::Int32(v) => {
            let key_at = |r: usize| -> (k: Vec<String>)
                requires
                    row_count > r,
                ensures
                    texts(k@) == key(r),
            { one_text(int_text(v.get(r) as i128)) };
            text_keys(&rows, key_at, Ghost(key))
        },
        ColumnData::Int16(v) => {
            let key_at = |r: usize| -> (k: Vec<String>)
                requires
                    row_count > r,
                ensures
                    texts(k@) == key(r),
            { one_text(int_text(v.get(r) as i128)) };
            text_keys(&rows, key_at, Ghost(key))
        },
        _ => {
            return Ok(None);
        },
    };
    let ghost all = text_lists(keys@);
    let ghost length = |r: usize| encode_utf8(urls@[r as int]).len() as i64;
    let length_of = |r: usize| -> (k: i64)
        requires
            row_count > r,
        ensures
            k == length(r),
    {
        assert(urls.row_ok(r as int));
        urls.get(r).as_bytes().len() as i64
    };
    let lengths = int_values(&rows, length_of, Ghost(length));
    let (index, ids) = group_texts(keys);
    let n: usize = index.len();
    proof {
        lemma_first_seen_distinct(all);
        assert(all =~= number_keys(number, rows@));
        assert forall|i: int| 0 <= i < all.len() implies (#[trigger] all[i]).len() == 1 by {
            assert(all[i] == key(rows@[i]));
        }
        lemma_one_text(all);
    }
    let counts = count_groups::<Seq<Seq<char>>>(n, &ids, Ghost(index@), Ghost(all));
    let sums = sum_groups::<Seq<Seq<char>>>(n, &ids, &lengths, Ghost(index@), Ghost(all));
    proof {
        assert forall|g: int| 0 <= g < counts@.len() implies (#[trigger] counts@[g]) > 0 by {
            assert(index@.contains(index@[g]));
            lemma_occurrences(all, index@[g]);
        }
        assert(lengths@ =~= url_lengths(urls@, rows@));
    }
    let numbers = rank_averages(
        &index,
        &counts,
        &sums,
        threshold,
        limit_of(parsed),
        offset_of(parsed),
        Ghost(all),
        Ghost(lengths@),
    );
    let out = show_averages(&index, &counts, &sums, &numbers, Ghost(all), Ghost(lengths@));
    Ok(Some(QueryResult { columns: headings(parsed), rows: out }))
}

} // verus!
