//! GROUP BY small integers, each with a bucket of its own.
use crate::error::Error;
use crate::exec::agg_heap::{before, by_count, lemma_before_total, lemma_members, ranks, window};
use crate::exec::filter::{build_filter_mask, filtered};
use crate::exec::group::covered_rows;
use crate::exec::group_fused_pair::count_up;
use crate::exec::group_fused_q43::numbers_window;
use crate::exec::group_fused_region::{
    counts_different_one, is_distinct_of, is_region_shape, number_keys, region_shape,
};
use crate::exec::group_near_unique::or_else;
use crate::exec::grouping::{
    count_groups, distinct_at, distinct_groups, numbered, sum_at, sum_groups,
};
use crate::exec::hash::{occurrences, text_lists};
use crate::exec::kernel::{
    bind, choose_rows, count_and_sort, count_sorted, counted_texts, finish_count_sorted_scan,
    group_id_name, group_name, i16_column, i16s_of, i32_column, i64_column, i64s_of, int_values,
    is_count_form, is_different_form, mapped, one_text, shows_counts, shows_different, text_keys,
    with_rows,
};
use crate::exec::mask_util::selected;
use crate::exec::order::sort_numbers;
use crate::exec::result::{
    attempt, cell_rows, cells, counted, empty_result, headings, labels, limit_of, number_cell,
    offset_of, query_limit, query_offset, Cell, CellView, QueryResult, ResultView,
};
use crate::exec::sorting::{all_numbers, pick_rows, picked_rows};
use crate::expr::eval::column_of;
use crate::sql::ast::ParsedQuery;
use crate::storage::column::ColumnView;
use crate::storage::pod::PodStorage;
use crate::storage::table::Table;
use crate::text::{decimal, int_text, str_eq, texts};
use vstd::prelude::*;

verus! {

/// The most buckets that are kept.
pub const MAX_DIRECT_BUCKETS: usize = 65_536;

/// What counting rows by advertising engine comes to.
pub open spec fn adv_result(t: Table, q: ParsedQuery, n: nat) -> Result<
    Option<ResultView>,
    Seq<char>,
>
{
    if q.group_by@.len() != 1 || group_name(q.group_by@[0], q) != Some("AdvEngineID"@)
        || !shows_counts(q) {
        Ok(None)
    } else {
        bind(
            i16s_of(t, "AdvEngineID"@),
            |v: Seq<i16>|
                with_rows(
                    t,
                    q,
                    n,
                    |rows: Seq<usize>|
                        Ok(
                            Some(
                                counted_texts(
                                    q,
                                    number_keys(|r: usize| v[r as int] as int, rows),
                                ),
                            ),
                        ),
                ),
        )
    }
}

/// Counts rows by advertising engine, if that is what the query asks for.
pub fn try_adv_engineid_group(table: &Table, parsed: &ParsedQuery, row_count: usize) -> (r: Result<
    Option<QueryResult>,
    Error,
>)
    requires
        table.wf(),
        table.holds_rows(row_count as int),
    ensures
        attempt(r) == adv_result(*table, *parsed, row_count as nat),
{
    if parsed.group_by.len() != 1 {
        return Ok(None);
    }
    let name = match group_id_name(&parsed.group_by[0], parsed) {
        Some(n) => n,
        None => {
            return Ok(None);
        },
    };
    if !str_eq(name, "AdvEngineID") || !is_count_form(parsed) {
        return Ok(None);
    }
    let adv = match i16_column(table, "AdvEngineID", row_count) {
        Err(e) => {
            return Err(e);
        },
        Ok(None) => {
            return Ok(None);
        },
        Ok(Some(c)) => c,
    };
    let rows = match choose_rows(table, parsed, row_count) {
        Err(e) => {
            return Err(e);
        },
        Ok(None) => {
            return Ok(Some(empty_result(parsed)));
        },
        Ok(Some(r)) => r,
    };
    let ghost key = |r: usize| seq![decimal(adv@[r as int] as int)];
    let key_at = |r: usize| -> (k: Vec<String>)
        requires
            row_count > r,
        ensures
            texts(k@) == key(r),
    { one_text(int_text(adv.get(r) as i128)) };
    let keys = text_keys(&rows, key_at, Ghost(key));
    assert(text_lists(keys@) =~= number_keys(|r: usize| adv@[r as int] as int, rows@));
    Ok(Some(count_and_sort(parsed, keys)))
}

/// The largest of the first `n` numbers, or zero if that is larger.
pub open spec fn largest(v: Seq<i32>, n: nat) -> int
    decreases n,
{
    if n == 0 {
        0
    } else {
        let front = largest(v, (n - 1) as nat);
        if v[n - 1] > front {
            v[n - 1] as int
        } else {
            front
        }
    }
}

/// No number is larger than the largest.
pub proof fn law_largest(v: Seq<i32>, n: nat, i: int)
    requires
        0 <= i < n,
    ensures
        v[i] <= largest(v, n),
    decreases n,
{
    if i < n - 1 {
        law_largest(v, (n - 1) as nat, i);
    }
}

/// How many buckets the numbers of a column need, if those are not too many.
pub open spec fn bucket_count(v: Seq<i32>, n: nat) -> Option<nat> {
    if largest(v, n) + 1 > MAX_DIRECT_BUCKETS {
        None
    } else {
        Some((largest(v, n) + 1) as nat)
    }
}

/// How many buckets the numbers of a column need, if those are not too many.
pub fn direct_bucket_count(v: &PodStorage<i32>, row_count: usize) -> (r: Option<usize>)
    requires
        v@.len() >= row_count,
    ensures
        match r {
            Some(b) => bucket_count(v@, row_count as nat) == Some(b as nat) && b >= 1,
            None => bucket_count(v@, row_count as nat) is None,
        },
{
    let mut m: i32 = 0;
    let mut i: usize = 0;
    while i < row_count
        invariant
            i <= row_count <= v@.len(),
            m == largest(v@, i as nat),
            m >= 0,
        decreases row_count - i,
    {
        let x: i32 = v.get(i);
        if x > m {
            m = x;
        }
        i = i + 1;
    }
    if m as u64 >= MAX_DIRECT_BUCKETS as u64 {
        None
    } else {
        Some(m as usize + 1)
    }
}

/// Whether none of the first `n` numbers is negative.
pub open spec fn none_negative(v: Seq<i32>, n: nat) -> bool {
    forall|i: int| 0 <= i < n ==> #[trigger] v[i] >= 0
}

/// Whether none of the first numbers is negative.
fn has_none_negative(v: &PodStorage<i32>, row_count: usize) -> (r: bool)
    requires
        v@.len() >= row_count,
    ensures
        r == none_negative(v@, row_count as nat),
{
    let mut i: usize = 0;
    while i < row_count
        invariant
            i <= row_count <= v@.len(),
            forall|k: int| 0 <= k < i ==> #[trigger] v@[k] >= 0,
        decreases row_count - i,
    {
        if v.get(i) < 0 {
            assert(v@[i as int] < 0);
            return false;
        }
        i = i + 1;
    }
    true
}

/// The numbers of rows.
pub open spec fn region_numbers(v: Seq<i32>, rows: Seq<usize>) -> Seq<int> {
    mapped(rows, |r: usize| v[r as int] as int)
}

/// The numbers below `n` that appear, in order.
pub open spec fn filled(keys: Seq<int>, n: nat) -> Seq<usize>
    decreases n,
{
    if n == 0 {
        Seq::empty()
    } else if occurrences(keys, n - 1) > 0 {
        filled(keys, (n - 1) as nat).push((n - 1) as usize)
    } else {
        filled(keys, (n - 1) as nat)
    }
}

/// The numbers of the buckets.
pub open spec fn buckets(n: nat) -> Seq<int> {
    Seq::new(n, |b: int| b)
}

/// Filled buckets with the numbers of different users.
pub open spec fn users_by_bucket(keys: Seq<int>, users: Seq<i64>, n: nat) -> Seq<u64> {
    Seq::new(
        filled(keys, n).len(),
        |i: int| distinct_at(keys, users, filled(keys, n)[i] as int).len() as u64,
    )
}

/// Filled buckets with the numbers of different users, as rows.
pub open spec fn user_rows(keys: Seq<int>, users: Seq<i64>, n: nat) -> Seq<Seq<CellView>> {
    Seq::new(
        filled(keys, n).len(),
        |i: int|
            seq![
                counted(filled(keys, n)[i] as int),
                counted(users_by_bucket(keys, users, n)[i] as int),
            ],
    )
}

/// The different users of rows by region.
pub open spec fn region_users(
    q: ParsedQuery,
    regions: Seq<i32>,
    users: Seq<i64>,
    rows: Seq<usize>,
    n: nat,
) -> ResultView {
    let keys = region_numbers(regions, rows);
    let vals = mapped(rows, |r: usize| users[r as int]);
    count_sorted(q, users_by_bucket(keys, vals, n), user_rows(keys, vals, n))
}

/// The column of regions, if its numbers are small and none of them is negative.
pub open spec fn small_regions(t: Table, n: nat) -> Option<(Seq<i32>, nat)> {
    match column_of(t, "RegionID"@) {
        Ok(ColumnView::Int32(v)) => match bucket_count(v, n) {
            Some(b) => if none_negative(v, n) {
                Some((v, b))
            } else {
                None
            },
            None => None,
        },
        _ => None,
    }
}

/// The column of regions, if its numbers are small and none of them is negative.
fn find_small_regions<'a>(table: &'a Table, row_count: usize) -> (r: Option<
    (&'a PodStorage<i32>, usize),
>)
    requires
        table.wf(),
        table.holds_rows(row_count as int),
    ensures
        match r {
            Some((v, b)) => small_regions(*table, row_count as nat) == Some((v@, b as nat))
                && v@.len() >= row_count && b >= 1 && bucket_count(v@, row_count as nat) == Some(
                b as nat,
            ) && none_negative(v@, row_count as nat),
            None => small_regions(*table, row_count as nat) is None,
        },
{
    match i32_column(table, "RegionID", row_count) {
        Ok(Some(v)) => match direct_bucket_count(v, row_count) {
            Some(b) => if has_none_negative(v, row_count) {
                Some((v, b))
            } else {
                None
            },
            None => None,
        },
        _ => None,
    }
}

/// What counting different users by region comes to.
pub open spec fn region_users_result(t: Table, q: ParsedQuery, n: nat) -> Result<
    Option<ResultView>,
    Seq<char>,
>
{
    if q.group_by@.len() != 1 || group_name(q.group_by@[0], q) != Some("RegionID"@)
        || !shows_different(q) || !counts_different_one(q.select_items@[1], "UserID"@) {
        Ok(None)
    } else {
        match small_regions(t, n) {
            None => Ok(None),
            Some((regions, b)) => bind(
                i64s_of(t, "UserID"@),
                |users: Seq<i64>|
                    match filtered(t, q.where_expr, n) {
                        Err(m) => Err(m),
                        Ok(mask) => Ok(
                            Some(region_users(q, regions, users, selected(mask), b)),
                        ),
                    },
            ),
        }
    }
}

/// The numbers of the buckets of rows.
fn bucket_ids(v: &PodStorage<i32>, rows: &Vec<usize>, row_count: usize, n: usize) -> (ids: Vec<usize>)
    requires
        v@.len() >= row_count,
        bucket_count(v@, row_count as nat) == Some(n as nat),
        none_negative(v@, row_count as nat),
        forall|i: int| 0 <= i < rows@.len() ==> (#[trigger] rows@[i]) < row_count,
    ensures
        numbered(buckets(n as nat), region_numbers(v@, rows@), ids@),
{
    let mut ids: Vec<usize> = Vec::new();
    let mut i: usize = 0;
    while i < rows.len()
        invariant
            i <= rows@.len(),
            v@.len() >= row_count,
            bucket_count(v@, row_count as nat) == Some(n as nat),
            none_negative(v@, row_count as nat),
            forall|i: int| 0 <= i < rows@.len() ==> (#[trigger] rows@[i]) < row_count,
            ids@.len() == i,
            forall|k: int|
                0 <= k < i ==> (#[trigger] ids@[k]) < n && ids@[k] == v@[rows@[k] as int],
        decreases rows@.len() - i,
    {
        let r: usize = rows[i];
        assert(rows@[i as int] < row_count);
        proof {
            law_largest(v@, row_count as nat, r as int);
        }
        ids.push(v.get(r) as usize);
        i = i + 1;
    }
    proof {
        let seen = buckets(n as nat);
        let keys = region_numbers(v@, rows@);
        assert forall|j: int| 0 <= j < ids@.len() implies (#[trigger] ids@[j]) < seen.len()
            && seen[ids@[j] as int] == keys[j] by {}
    }
    ids
}

/// The buckets that are filled, in order.
fn find_filled(counts: &Vec<u64>, Ghost(keys): Ghost<Seq<int>>) -> (out: Vec<usize>)
    requires
        forall|g: int| 0 <= g < counts@.len() ==> #[trigger] counts@[g] == occurrences(keys, g),
    ensures
        out@ == filled(keys, counts@.len()),
        forall|i: int| 0 <= i < out@.len() ==> (#[trigger] out@[i]) < counts@.len(),
{
    let mut out: Vec<usize> = Vec::new();
    let mut b: usize = 0;
    while b < counts.len()
        invariant
            b <= counts@.len(),
            forall|g: int| 0 <= g < counts@.len() ==> #[trigger] counts@[g] == occurrences(keys, g),
            out@ == filled(keys, b as nat),
            forall|i: int| 0 <= i < out@.len() ==> (#[trigger] out@[i]) < b,
        decreases counts@.len() - b,
    {
        assert(counts@[b as int] == occurrences(keys, b as int));
        if counts[b] > 0 {
            out.push(b);
        }
        b = b + 1;
    }
    out
}

/// Counts different users by region, if that is what the query asks for.
pub fn try_regionid_count_distinct(table: &Table, parsed: &ParsedQuery, row_count: usize) -> (r: Result<
    Option<QueryResult>,
    Error,
>)
    requires
        table.wf(),
        table.holds_rows(row_count as int),
    ensures
        attempt(r) == region_users_result(*table, *parsed, row_count as nat),
{
    if parsed.group_by.len() != 1 {
        return Ok(None);
    }
    let name = match group_id_name(&parsed.group_by[0], parsed) {
        Some(n) => n,
        None => {
            return Ok(None);
        },
    };
    if !str_eq(name, "RegionID") || !is_different_form(parsed) || !is_distinct_of(
        &parsed.select_items[1],
        "UserID",
    ) {
        return Ok(None);
    }
    let small = match find_small_regions(table, row_count) {
        Some(n) => n,
        None => {
            return Ok(None);
        },
    };
    let (regions, n) = small;
    let users = match i64_column(table, "UserID", row_count) {
        Err(e) => {
            return Err(e);
        },
        Ok(None) => {
            return Ok(None);
        },
        Ok(Some(c)) => c,
    };
    let mask = match build_filter_mask(table, &parsed.where_expr, row_count) {
        Err(e) => {
            return Err(e);
        },
        Ok(c) => c,
    };
    let rows = covered_rows(table, &mask);
    let ids = bucket_ids(regions, &rows, row_count, n);
    let ghost keys = region_numbers(regions@, rows@);
    let ghost value = |r: usize| users@[r as int];
    let value_at = |r: usize| -> (k: i64)
        requires
            row_count > r,
        ensures
            k == value(r),
    { users.get(r) };
    let vals = int_values(&rows, value_at, Ghost(value));
    let ghost seen = buckets(n as nat);
    let counts = count_groups::<int>(n, &ids, Ghost(seen), Ghost(keys));
    let people = distinct_groups::<int>(n, &ids, &vals, Ghost(seen), Ghost(keys));
    proof {
        assert forall|g: int| 0 <= g < counts@.len() implies #[trigger] counts@[g] == occurrences(
            keys,
            g,
        ) by {
            assert(seen[g] == g);
        }
    }
    let found = find_filled(&counts, Ghost(keys));
    let mut numbers: Vec<u64> = Vec::new();
    let mut out: Vec<Vec<Cell>> = Vec::new();
    let mut i: usize = 0;
    while i < found.len()
        invariant
            i <= found@.len(),
            found@ == filled(keys, n as nat),
            seen == buckets(n as nat),
            people@.len() == n,
            forall|k: int| 0 <= k < found@.len() ==> (#[trigger] found@[k]) < n,
            forall|g: int|
                0 <= g < n ==> #[trigger] people@[g] == distinct_at(keys, vals@, seen[g]).len(),
            numbers@.len() == i,
            forall|k: int|
                0 <= k < i ==> (#[trigger] numbers@[k]) == users_by_bucket(keys, vals@, n as nat)[k],
            out@.len() == i,
            forall|k: int|
                0 <= k < i ==> cells((#[trigger] out@[k])@) == user_rows(keys, vals@, n as nat)[k],
        decreases found@.len() - i,
    {
        assert(found@[i as int] < n);
        let b: usize = found[i];
        assert(people@[b as int] == distinct_at(keys, vals@, seen[b as int]).len());
        let mut row: Vec<Cell> = Vec::new();
        row.push(number_cell(b as i128));
        row.push(number_cell(people[b] as i128));
        assert(users_by_bucket(keys, vals@, n as nat)[i as int] == people@[b as int]);
        assert(cells(row@) =~= user_rows(keys, vals@, n as nat)[i as int]);
        out.push(row);
        numbers.push(people[b]);
        i = i + 1;
    }
    assert(numbers@ =~= users_by_bucket(keys, vals@, n as nat));
    assert(cell_rows(out@) =~= user_rows(keys, vals@, n as nat));
    let result = finish_count_sorted_scan(parsed, &numbers, &out);
    assert(result@ == region_users(*parsed, regions@, users@, rows@, n as nat));
    Ok(Some(result))
}

/// What is added up, averaged and counted for each region.
pub struct RegionData {
    pub regions: Seq<i32>,
    pub adv: Seq<i16>,
    pub width: Seq<i16>,
    pub users: Seq<i64>,
}

impl RegionData {
    /// The regions of rows.
    pub open spec fn keys(self, rows: Seq<usize>) -> Seq<int> {
        region_numbers(self.regions, rows)
    }

    /// The row of a region: its number, a sum, its count, an average and the number of
    /// different users.
    pub open spec fn row(self, rows: Seq<usize>, b: int) -> Seq<CellView> {
        let keys = self.keys(rows);
        let n = occurrences(keys, b);
        seq![
            counted(b),
            counted(sum_at(keys, mapped(rows, |r: usize| self.adv[r as int] as i64), b)),
            counted(n as int),
            CellView::Ratio {
                sum: sum_at(keys, mapped(rows, |r: usize| self.width[r as int] as i64), b),
                count: n,
            },
            counted(
                distinct_at(keys, mapped(rows, |r: usize| self.users[r as int]), b).len() as int,
            ),
        ]
    }

    /// The counts of the regions that appear, in order.
    pub open spec fn counts(self, rows: Seq<usize>, n: nat) -> Seq<u64> {
        let f = filled(self.keys(rows), n);
        Seq::new(f.len(), |i: int| occurrences(self.keys(rows), f[i] as int) as u64)
    }

    /// The rows of the regions that appear, in order.
    pub open spec fn rows(self, rows: Seq<usize>, n: nat) -> Seq<Seq<CellView>> {
        let f = filled(self.keys(rows), n);
        Seq::new(f.len(), |i: int| self.row(rows, f[i] as int))
    }

    /// The regions with the most rows first, from the offset of the query on; equally
    /// frequent regions by their numbers.
    pub open spec fn ranked(self, q: ParsedQuery, rows: Seq<usize>, n: nat) -> ResultView {
        let counts = self.counts(rows, n);
        ResultView {
            columns: labels(q.select_items@),
            rows: picked_rows(
                self.rows(rows, n),
                window(
                    all_numbers(counts.len()).sort_by(before(by_count(counts))),
                    query_limit(q) as nat,
                    query_offset(q) as nat,
                ),
            ),
        }
    }
}

/// What the sums, averages and users by region come to.
pub open spec fn region_aggs_result(t: Table, q: ParsedQuery, n: nat) -> Result<
    Option<ResultView>,
    Seq<char>,
>
{
    if !region_shape(q) {
        Ok(None)
    } else {
        match small_regions(t, n) {
            None => Ok(None),
            Some((regions, b)) => bind(
                i16s_of(t, "AdvEngineID"@),
                |adv: Seq<i16>|
                    bind(
                        i16s_of(t, "ResolutionWidth"@),
                        |width: Seq<i16>|
                            bind(
                                i64s_of(t, "UserID"@),
                                |users: Seq<i64>|
                                    match filtered(t, q.where_expr, n) {
                                        Err(m) => Err(m),
                                        Ok(mask) => Ok(
                                            Some(
                                                RegionData { regions, adv, width, users }.ranked(
                                                    q,
                                                    selected(mask),
                                                    b,
                                                ),
                                            ),
                                        ),
                                    },
                            ),
                    ),
            ),
        }
    }
}

/// The rows with the largest counts first, from an offset on; of equal counts the
/// earlier.
pub fn rank_rows(counts: &Vec<u64>, limit: usize, offset: usize) -> (out: Vec<usize>)
    ensures
        out@ == window(
            all_numbers(counts@.len()).sort_by(before(by_count(counts@))),
            limit as nat,
            offset as nat,
        ),
        forall|k: int| 0 <= k < out@.len() ==> (#[trigger] out@[k]) < counts@.len(),
{
    let n: usize = counts.len();
    let ghost rule = by_count(counts@);
    let ghost leq = before(rule);
    proof {
        assert(ranks(rule));
        lemma_before_total(rule);
    }
    let all = count_up(n);
    let compare = |a: usize, b: usize| -> (r: bool)
        requires
            n > a,
            n > b,
        ensures
            r == leq(a, b),
    { counts[a] > counts[b] || (!(counts[b] > counts[a]) && a <= b) };
    proof {
        assert forall|x: usize| all@.contains(x) implies x < n by {}
    }
    let sorted = sort_numbers(&all, compare, Ghost(leq));
    proof {
        lemma_members(all@, sorted@, n);
    }
    let out = numbers_window(&sorted, limit, offset);
    assert forall|k: int| 0 <= k < out@.len() implies (#[trigger] out@[k]) < n by {
        assert(sorted@[k + offset] < n);
    }
    out
}

/// The rows of the regions that appear.
fn show_regions(
    found: &Vec<usize>,
    counts: &Vec<u64>,
    sums: &Vec<i128>,
    averages: &Vec<i128>,
    people: &Vec<u64>,
    Ghost(data): Ghost<RegionData>,
    Ghost(rows): Ghost<Seq<usize>>,
    Ghost(adv): Ghost<Seq<i64>>,
    Ghost(width): Ghost<Seq<i64>>,
    Ghost(users): Ghost<Seq<i64>>,
) -> (r: (Vec<u64>, Vec<Vec<Cell>>))
    requires
        found@ == filled(data.keys(rows), counts@.len()),
        adv == mapped(rows, |r: usize| data.adv[r as int] as i64),
        width == mapped(rows, |r: usize| data.width[r as int] as i64),
        users == mapped(rows, |r: usize| data.users[r as int]),
        sums@.len() == counts@.len(),
        averages@.len() == counts@.len(),
        people@.len() == counts@.len(),
        forall|i: int| 0 <= i < found@.len() ==> (#[trigger] found@[i]) < counts@.len(),
        forall|g: int|
            0 <= g < counts@.len() ==> #[trigger] counts@[g] == occurrences(data.keys(rows), g),
        forall|g: int|
            0 <= g < counts@.len() ==> (#[trigger] sums@[g]) == sum_at(data.keys(rows), adv, g)
                && sums@[g] > i128::MIN,
        forall|g: int|
            0 <= g < counts@.len() ==> #[trigger] averages@[g] == sum_at(
                data.keys(rows),
                width,
                g,
            ),
        forall|g: int|
            0 <= g < counts@.len() ==> #[trigger] people@[g] == distinct_at(
                data.keys(rows),
                users,
                g,
            ).len(),
    ensures
        r.0@ == data.counts(rows, counts@.len()),
        cell_rows(r.1@) == data.rows(rows, counts@.len()),
        r.0@.len() == r.1@.len(),
{
    let mut numbers: Vec<u64> = Vec::new();
    let mut out: Vec<Vec<Cell>> = Vec::new();
    let ghost n = counts@.len();
    let mut i: usize = 0;
    while i < found.len()
        invariant
            i <= found@.len(),
            n == counts@.len(),
            found@ == filled(data.keys(rows), n),
            adv == mapped(rows, |r: usize| data.adv[r as int] as i64),
            width == mapped(rows, |r: usize| data.width[r as int] as i64),
            users == mapped(rows, |r: usize| data.users[r as int]),
            sums@.len() == n,
            averages@.len() == n,
            people@.len() == n,
            forall|i: int| 0 <= i < found@.len() ==> (#[trigger] found@[i]) < n,
            forall|g: int|
                0 <= g < n ==> #[trigger] counts@[g] == occurrences(data.keys(rows), g),
            forall|g: int|
                0 <= g < n ==> (#[trigger] sums@[g]) == sum_at(data.keys(rows), adv, g)
                    && sums@[g] > i128::MIN,
            forall|g: int|
                0 <= g < n ==> #[trigger] averages@[g] == sum_at(data.keys(rows), width, g),
            forall|g: int|
                0 <= g < n ==> #[trigger] people@[g] == distinct_at(
                    data.keys(rows),
                    users,
                    g,
                ).len(),
            numbers@.len() == i,
            forall|k: int| 0 <= k < i ==> (#[trigger] numbers@[k]) == data.counts(rows, n)[k],
            out@.len() == i,
            forall|k: int| 0 <= k < i ==> cells((#[trigger] out@[k])@) == data.rows(rows, n)[k],
        decreases found@.len() - i,
    {
        assert(found@[i as int] < n);
        let b: usize = found[i];
        assert(counts@[b as int] == occurrences(data.keys(rows), b as int));
        assert(sums@[b as int] == sum_at(data.keys(rows), adv, b as int));
        assert(averages@[b as int] == sum_at(data.keys(rows), width, b as int));
        assert(people@[b as int] == distinct_at(data.keys(rows), users, b as int).len());
        let mut row: Vec<Cell> = Vec::new();
        row.push(number_cell(b as i128));
        row.push(number_cell(sums[b]));
        row.push(number_cell(counts[b] as i128));
        row.push(Cell::Ratio { sum: averages[b], count: counts[b] });
        row.push(number_cell(people[b] as i128));
        assert(cells(row@) =~= data.row(rows, b as int));
        out.push(row);
        numbers.push(counts[b]);
        i = i + 1;
    }
    assert(numbers@ =~= data.counts(rows, n));
    assert(cell_rows(out@) =~= data.rows(rows, n));
    (numbers, out)
}

/// The sums, averages and users by region, if that is what the query asks for.
pub fn try_regionid_multi_agg(table: &Table, parsed: &ParsedQuery, row_count: usize) -> (r: Result<
    Option<QueryResult>,
    Error,
>)
    requires
        table.wf(),
        table.holds_rows(row_count as int),
    ensures
        attempt(r) == region_aggs_result(*table, *parsed, row_count as nat),
{
    if !is_region_shape(parsed) {
        return Ok(None);
    }
    let small = match find_small_regions(table, row_count) {
        Some(n) => n,
        None => {
            return Ok(None);
        },
    };
    let (regions, n) = small;
    let adv = match i16_column(table, "AdvEngineID", row_count) {
        Err(e) => {
            return Err(e);
        },
        Ok(None) => {
            return Ok(None);
        },
        Ok(Some(c)) => c,
    };
    let width = match i16_column(table, "ResolutionWidth", row_count) {
        Err(e) => {
            return Err(e);
        },
        Ok(None) => {
            return Ok(None);
        },
        Ok(Some(c)) => c,
    };
    let users = match i64_column(table, "UserID", row_count) {
        Err(e) => {
            return Err(e);
        },
        Ok(None) => {
            return Ok(None);
        },
        Ok(Some(c)) => c,
    };
    let mask = match build_filter_mask(table, &parsed.where_expr, row_count) {
        Err(e) => {
            return Err(e);
        },
        Ok(c) => c,
    };
    let rows = covered_rows(table, &mask);
    let ids = bucket_ids(regions, &rows, row_count, n);
    let ghost data = RegionData {
        regions: regions@,
        adv: adv@,
        width: width@,
        users: users@,
    };
    let ghost keys = data.keys(rows@);
    let ghost sf = |r: usize| data.adv[r as int] as i64;
    let ghost af = |r: usize| data.width[r as int] as i64;
    let ghost uf = |r: usize| data.users[r as int];
    let sum_of = |r: usize| -> (k: i64)
        requires
            row_count > r,
        ensures
            k == sf(r),
    { adv.get(r) as i64 };
    let average_of = |r: usize| -> (k: i64)
        requires
            row_count > r,
        ensures
            k == af(r),
    { width.get(r) as i64 };
    let user_of = |r: usize| -> (k: i64)
        requires
            row_count > r,
        ensures
            k == uf(r),
    { users.get(r) };
    let sv = int_values(&rows, sum_of, Ghost(sf));
    let av = int_values(&rows, average_of, Ghost(af));
    let uv = int_values(&rows, user_of, Ghost(uf));
    let ghost seen = buckets(n as nat);
    let counts = count_groups::<int>(n, &ids, Ghost(seen), Ghost(keys));
    let sums = sum_groups::<int>(n, &ids, &sv, Ghost(seen), Ghost(keys));
    let averages = sum_groups::<int>(n, &ids, &av, Ghost(seen), Ghost(keys));
    let people = distinct_groups::<int>(n, &ids, &uv, Ghost(seen), Ghost(keys));
    proof {
        assert forall|g: int| 0 <= g < counts@.len() implies #[trigger] counts@[g] == occurrences(
            keys,
            g,
        ) by {
            assert(seen[g] == g);
        }
        assert forall|g: int| 0 <= g < counts@.len() implies (#[trigger] sums@[g]) == sum_at(
            keys,
            sv@,
            g,
        ) && sums@[g] > i128::MIN by {
            assert(seen[g] == g);
            assert(sums@[g] >= -0x7fff_ffff_ffff_ffff_ffff_ffff_ffff_ffff);
        }
        assert forall|g: int| 0 <= g < counts@.len() implies #[trigger] averages@[g] == sum_at(
            keys,
            av@,
            g,
        ) by {
            assert(seen[g] == g);
        }
        assert forall|g: int| 0 <= g < counts@.len() implies #[trigger] people@[g] == distinct_at(
            keys,
            uv@,
            g,
        ).len() by {
            assert(seen[g] == g);
        }
    }
    let found = find_filled(&counts, Ghost(keys));
    let (numbers, out) = show_regions(
        &found,
        &counts,
        &sums,
        &averages,
        &people,
        Ghost(data),
        Ghost(rows@),
        Ghost(sv@),
        Ghost(av@),
        Ghost(uv@),
    );
    let t = rank_rows(&numbers, limit_of(parsed), offset_of(parsed));
    let result = QueryResult { columns: headings(parsed), rows: pick_rows(&out, &t) };
    assert(result@ == data.ranked(*parsed, rows@, n as nat));
    Ok(Some(result))
}

/// What the ways with buckets come to.
pub open spec fn group_direct_result(t: Table, q: ParsedQuery, n: nat) -> Result<
    Option<ResultView>,
    Seq<char>,
>
{
    or_else(
        adv_result(t, q, n),
        or_else(region_users_result(t, q, n), region_aggs_result(t, q, n)),
    )
}

/// Groups by small integers with buckets, if that is what the query asks for.
pub fn try_execute_group_direct(table: &Table, parsed: &ParsedQuery, row_count: usize) -> (r: Result<
    Option<QueryResult>,
    Error,
>)
    requires
        table.wf(),
        table.holds_rows(row_count as int),
    ensures
        attempt(r) == group_direct_result(*table, *parsed, row_count as nat),
{
    match try_adv_engineid_group(table, parsed, row_count) {
        Err(e) => {
            return Err(e);
        },
        Ok(Some(r)) => {
            return Ok(Some(r));
        },
        Ok(None) => {},
    }
    match try_regionid_count_distinct(table, parsed, row_count) {
        Err(e) => {
            return Err(e);
        },
        Ok(Some(r)) => {
            return Ok(Some(r));
        },
        Ok(None) => {},
    }
    try_regionid_multi_agg(table, parsed, row_count)
}

} // verus!
