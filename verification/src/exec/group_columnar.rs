//! The most frequent keys of whole columns.
use crate::exec::agg_heap::{by_count_and_pair, top, top_counts_u128_key, top_items};
use crate::exec::agg_sort::{
    runs, sorted_keys, sorted_topk_i32, sorted_topk_u128, top_runs, unsigned_ip, unsigned_ips,
};
use crate::exec::group_fused_quad::{ip_quad, pack_clientip_quad};
use crate::exec::grouping::{count_ints, tallied};
use crate::exec::hash::first_seen;
use crate::exec::simd_scan::{DashboardColumns, DashboardData, Q41Pred};
use crate::storage::pod::PodStorage;
use vstd::prelude::*;

verus! {

/// From how many addresses on it can pay to count them by hashing.
pub const Q36_HASH_THRESHOLD: usize = 1_000_000;

/// How many addresses are looked at, at most, to see whether they repeat.
pub const SAMPLE_ROWS: usize = 65_536;

/// How the most frequent addresses were found.
#[derive(Clone, Copy, Debug)]
pub enum TopkMode {
    Empty,
    Hash,
    Sort,
}

/// How the most frequent addresses were found, and on what grounds.
#[derive(Clone, Copy, Debug)]
pub struct Q36TopkStats {
    pub mode: TopkMode,
    /// How many addresses were looked at.
    pub sampled: usize,
    /// How many different ones were among them.
    pub unique: usize,
    /// How many different addresses were counted, if that is known.
    pub groups_counted: Option<usize>,
}

/// How many addresses are looked at.
pub open spec fn sample_len(ips: Seq<i32>) -> nat {
    if ips.len() < SAMPLE_ROWS {
        ips.len()
    } else {
        SAMPLE_ROWS as nat
    }
}

/// The addresses that are looked at, evenly spread.
pub open spec fn sample(ips: Seq<i32>) -> Seq<u128> {
    Seq::new(
        sample_len(ips),
        |i: int| unsigned_ip(ips[i * (ips.len() as int / sample_len(ips) as int)]),
    )
}

/// Whether enough addresses repeat for hashing: at most nine tenths are different.
pub open spec fn repeats(ips: Seq<i32>) -> bool {
    10 * first_seen(sample(ips)).len() <= 9 * sample_len(ips)
}

/// An address without its sign.
pub fn ip_key(ip: i32) -> (k: u128)
    ensures
        k == unsigned_ip(ip),
{
    let wide: i64 = ip as i64;
    if ip >= 0 {
        wide as u128
    } else {
        (wide + 0x1_0000_0000) as u128
    }
}

/// How many different addresses are among those that are looked at, and how many
/// those are.
pub fn estimated_unique(ips: &[i32]) -> (r: (usize, usize))
    requires
        ips@.len() > 0,
    ensures
        r.0 == first_seen(sample(ips@)).len(),
        r.1 == sample_len(ips@),
{
    let total: usize = ips.len();
    let target: usize = if total < SAMPLE_ROWS {
        total
    } else {
        SAMPLE_ROWS
    };
    let step: usize = total / target;
    let mut keys: Vec<u128> = Vec::new();
    let mut i: usize = 0;
    while i < target
        invariant
            i <= target <= total == ips@.len(),
            target > 0,
            target == sample_len(ips@),
            step == total / target,
            keys@.len() == i,
            forall|k: int| 0 <= k < i ==> (#[trigger] keys@[k]) == sample(ips@)[k],
        decreases target - i,
    {
        proof {
            vstd::arithmetic::div_mod::lemma_fundamental_div_mod(total as int, target as int);
            assert(target * step <= total);
            assert(i * step < total) by (nonlinear_arith)
                requires
                    0 <= i < target,
                    0 <= step,
                    target * step <= total,
                    total > 0,
            ;
        }
        let at: usize = i * step;
        keys.push(ip_key(ips[at]));
        i = i + 1;
    }
    assert(keys@ =~= sample(ips@));
    let (index, counts) = count_ints(&keys);
    (index.len(), target)
}

/// An address with its sign.
pub open spec fn signed_ip(k: u128) -> i32 {
    (k as u32) as i32
}

/// Addresses that appear more often are better, and of equally frequent ones the
/// smaller, with its sign.
pub open spec fn by_count_and_ip(counts: Seq<u64>, keys: Seq<u128>) -> spec_fn(usize, usize) -> bool {
    |a: usize, b: usize|
        counts[a as int] > counts[b as int] || (counts[a as int] == counts[b as int] && signed_ip(
            keys[a as int],
        ) < signed_ip(keys[b as int]))
}

/// The most frequent addresses, counted by hashing.
pub open spec fn hashed_top(ips: Seq<i32>, limit: usize, offset: usize) -> Seq<(u128, u64)> {
    let keys = unsigned_ips(ips);
    let t = top(
        by_count_and_ip(tallied(keys), first_seen(keys)),
        tallied(keys).len(),
        limit,
        offset,
    );
    Seq::new(
        t.len(),
        |i: int| (ip_quad(signed_ip(first_seen(keys)[t[i] as int])), tallied(keys)[t[i] as int]),
    )
}

/// The most frequent addresses, counted by sorting.
pub open spec fn sorted_top(ips: Seq<i32>, limit: usize, offset: usize) -> Seq<(u128, u64)> {
    let t = top_runs(runs(sorted_keys(unsigned_ips(ips))), limit, offset);
    Seq::new(t.len(), |i: int| (ip_quad(signed_ip(t[i].0)), t[i].1))
}

/// The most frequent addresses with their predecessors: counted by hashing where
/// there are many and enough of them repeat, else by sorting.
pub open spec fn quad_top(ips: Seq<i32>, limit: usize, offset: usize) -> Seq<(u128, u64)> {
    if ips.len() == 0 || limit == 0 {
        Seq::empty()
    } else if ips.len() >= Q36_HASH_THRESHOLD && repeats(ips) && hashed_top(
        ips,
        limit,
        offset,
    ).len() > 0 {
        hashed_top(ips, limit, offset)
    } else {
        sorted_top(ips, limit, offset)
    }
}

/// The most frequent addresses, counted by hashing, and how many different ones there
/// are.
pub fn clientip_topk_hash(ips: &[i32], limit: usize, offset: usize) -> (r: (Vec<(u128, u64)>, usize))
    ensures
        r.0@ == hashed_top(ips@, limit, offset),
        r.1 == first_seen(unsigned_ips(ips@)).len(),
{
    let mut keys: Vec<u128> = Vec::new();
    let mut i: usize = 0;
    while i < ips.len()
        invariant
            i <= ips@.len(),
            keys@.len() == i,
            forall|k: int| 0 <= k < i ==> (#[trigger] keys@[k]) == unsigned_ip(ips@[k]),
        decreases ips@.len() - i,
    {
        keys.push(ip_key(ips[i]));
        i = i + 1;
    }
    assert(keys@ =~= unsigned_ips(ips@));
    let (index, counts) = count_ints(&keys);
    let n: usize = index.len();
    let seen = index.all();
    let ghost rule = by_count_and_ip(counts@, seen@);
    let better = |a: usize, b: usize| -> (r: bool)
        requires
            n > a,
            n > b,
        ensures
            r == rule(a, b),
    {
        let x: i32 = (seen[a] as u32) as i32;
        let y: i32 = (seen[b] as u32) as i32;
        counts[a] > counts[b] || (counts[a] == counts[b] && x < y)
    };
    let t = top_items(n, limit, offset, better, Ghost(rule));
    let mut out: Vec<(u128, u64)> = Vec::new();
    let mut j: usize = 0;
    while j < t.len()
        invariant
            j <= t@.len(),
            seen@.len() == n == counts@.len(),
            forall|i: int| 0 <= i < t@.len() ==> (#[trigger] t@[i]) < n,
            out@.len() == j,
            forall|k: int|
                0 <= k < j ==> (#[trigger] out@[k]) == (
                    ip_quad(signed_ip(seen@[t@[k] as int])),
                    counts@[t@[k] as int],
                ),
        decreases t@.len() - j,
    {
        assert(t@[j as int] < n);
        let g: usize = t[j];
        let ip: i32 = (seen[g] as u32) as i32;
        out.push((pack_clientip_quad(ip), counts[g]));
        j = j + 1;
    }
    assert(out@ =~= hashed_top(ips@, limit, offset));
    (out, n)
}

/// The most frequent addresses with their predecessors, and how they were found.
pub fn clientip_quad_topk_with_stats(ips: &[i32], limit: usize, offset: usize) -> (r: (
    Vec<(u128, u64)>,
    Q36TopkStats,
))
    ensures
        r.0@ == quad_top(ips@, limit, offset),
        r.1.mode is Empty <==> ips@.len() == 0 || limit == 0,
        r.1.mode is Hash ==> r.0@ == hashed_top(ips@, limit, offset) && r.1.groups_counted == Some(
            first_seen(unsigned_ips(ips@)).len() as usize,
        ),
        r.1.mode is Sort ==> r.0@ == sorted_top(ips@, limit, offset) && r.1.groups_counted is None,
        !(r.1.mode is Empty) ==> r.1.sampled == sample_len(ips@) && r.1.unique == first_seen(
            sample(ips@),
        ).len(),
{
    if ips.len() == 0 || limit == 0 {
        let none: Vec<(u128, u64)> = Vec::new();
        let stats = Q36TopkStats {
            mode: TopkMode::Empty,
            sampled: 0,
            unique: 0,
            groups_counted: Some(0),
        };
        return (none, stats);
    }
    let (unique, sampled) = estimated_unique(ips);
    let repeated = 10 * unique as u128 <= 9 * sampled as u128;
    if ips.len() >= Q36_HASH_THRESHOLD && repeated {
        let (t, groups) = clientip_topk_hash(ips, limit, offset);
        if t.len() > 0 {
            let stats = Q36TopkStats {
                mode: TopkMode::Hash,
                sampled,
                unique,
                groups_counted: Some(groups),
            };
            return (t, stats);
        }
    }
    let t = sorted_topk_i32(ips, limit, offset);
    let mut out: Vec<(u128, u64)> = Vec::new();
    let mut j: usize = 0;
    while j < t.len()
        invariant
            j <= t@.len(),
            out@.len() == j,
            forall|k: int|
                0 <= k < j ==> (#[trigger] out@[k]) == (ip_quad(t@[k].0 as i32), t@[k].1),
        decreases t@.len() - j,
    {
        let e: (u32, u64) = t[j];
        out.push((pack_clientip_quad(e.0 as i32), e.1));
        j = j + 1;
    }
    assert(out@ =~= sorted_top(ips@, limit, offset));
    let stats = Q36TopkStats { mode: TopkMode::Sort, sampled, unique, groups_counted: None };
    (out, stats)
}

/// An address hash and a date in one key.
pub open spec fn q41_pair(url: i64, date: i32, url_high: bool) -> u128 {
    if url_high {
        ((url as u128) << 64) | ((date as u32) as u128)
    } else {
        (((date as i64) as u128) << 64) | ((url as u64) as u128)
    }
}

/// An address hash and a date in one key.
pub fn pack_q41_pair(url: i64, date: i32, url_high: bool) -> (k: u128)
    ensures
        k == q41_pair(url, date, url_high),
{
    if url_high {
        ((url as u128) << 64) | ((date as u32) as u128)
    } else {
        (((date as i64) as u128) << 64) | ((url as u64) as u128)
    }
}

/// The address hash and the date can be taken out of their key again.
pub proof fn law_q41_unpacks(url: i64, date: i32)
    ensures
        (q41_pair(url, date, true) >> 64) as i64 == url,
        (q41_pair(url, date, true) as i64) as i32 == date,
        (q41_pair(url, date, false) >> 64) as i64 == date,
        q41_pair(url, date, false) as i64 == url,
{
    assert(((((url as u128) << 64) | ((date as u32) as u128)) >> 64) as i64 == url) by (bit_vector);
    assert(((((url as u128) << 64) | ((date as u32) as u128)) as i64) as i32 == date)
        by (bit_vector);
    assert((((((date as i64) as u128) << 64) | ((url as u64) as u128)) >> 64) as i64 == date)
        by (bit_vector);
    assert(((((date as i64) as u128) << 64) | ((url as u64) as u128)) as i64 == url)
        by (bit_vector);
}

/// The keys of the rows of some ranges that meet the conditions of the dashboard.
pub open spec fn q41_keys(
    cols: DashboardData,
    urls: Seq<i64>,
    pred: Q41Pred,
    ranges: Seq<(usize, usize)>,
    url_high: bool,
) -> Seq<u128> {
    let rows = cols.spans(pred, ranges);
    Seq::new(
        rows.len(),
        |i: int| q41_pair(urls[rows[i] as int], cols.dates[rows[i] as int], url_high),
    )
}

/// The keys of the rows of some ranges that meet the conditions of the dashboard.
pub fn collect_q41_keys(
    cols: DashboardColumns<'_>,
    urls: &PodStorage<i64>,
    pred: Q41Pred,
    ranges: &Vec<(usize, usize)>,
    row_count: usize,
    url_high: bool,
) -> (keys: Vec<u128>)
    requires
        cols@.hold(row_count as int),
        urls@.len() >= row_count,
        forall|i: int|
            0 <= i < ranges@.len() && (#[trigger] ranges@[i]).0 < ranges@[i].1 ==> ranges@[i].1
                <= row_count,
    ensures
        keys@ == q41_keys(cols@, urls@, pred, ranges@, url_high),
{
    let rows = cols.scan_ranges(pred, ranges, row_count);
    let mut keys: Vec<u128> = Vec::new();
    let mut i: usize = 0;
    while i < rows.len()
        invariant
            i <= rows@.len(),
            cols@.hold(row_count as int),
            urls@.len() >= row_count,
            forall|i: int| 0 <= i < rows@.len() ==> (#[trigger] rows@[i]) < row_count,
            keys@.len() == i,
            forall|k: int|
                0 <= k < i ==> (#[trigger] keys@[k]) == q41_pair(
                    urls@[rows@[k] as int],
                    cols.dates@[rows@[k] as int],
                    url_high,
                ),
        decreases rows@.len() - i,
    {
        assert(rows@[i as int] < row_count);
        let r: usize = rows[i];
        keys.push(pack_q41_pair(urls.get(r), cols.dates.get(r), url_high));
        i = i + 1;
    }
    assert(keys@ =~= q41_keys(cols@, urls@, pred, ranges@, url_high));
    keys
}

/// Where the last of some ranges ends, leaving out ranges without rows.
fn end_of_ranges(ranges: &Vec<(usize, usize)>) -> (end: usize)
    ensures
        forall|i: int|
            0 <= i < ranges@.len() && (#[trigger] ranges@[i]).0 < ranges@[i].1 ==> ranges@[i].1
                <= end,
        end == 0 || exists|i: int|
            0 <= i < ranges@.len() && (#[trigger] ranges@[i]).0 < ranges@[i].1 && ranges@[i].1
                == end,
{
    let mut end: usize = 0;
    let mut i: usize = 0;
    while i < ranges.len()
        invariant
            i <= ranges@.len(),
            forall|k: int|
                0 <= k < i && (#[trigger] ranges@[k]).0 < ranges@[k].1 ==> ranges@[k].1 <= end,
            end == 0 || exists|k: int|
                0 <= k < i && (#[trigger] ranges@[k]).0 < ranges@[k].1 && ranges@[k].1 == end,
        decreases ranges@.len() - i,
    {
        let r: (usize, usize) = ranges[i];
        if r.0 < r.1 && r.1 > end {
            end = r.1;
            assert(ranges@[i as int].1 == end);
        }
        i = i + 1;
    }
    end
}

/// The most frequent keys of the rows of some ranges that meet the conditions of the
/// dashboard; of equally frequent keys the smaller comes first. The number of rows of
/// the table does not matter.
pub fn dashboard_q41_topk(
    cols: DashboardColumns<'_>,
    urls: &PodStorage<i64>,
    pred: Q41Pred,
    ranges: &Vec<(usize, usize)>,
    _row_count: usize,
    url_high: bool,
    limit: usize,
    offset: usize,
) -> (out: Vec<(u128, u64)>)
    requires
        forall|i: int|
            0 <= i < ranges@.len() && (#[trigger] ranges@[i]).0 < ranges@[i].1 ==> cols@.hold(
                ranges@[i].1 as int,
            ) && urls@.len() >= ranges@[i].1,
    ensures
        out@ == top_runs(
            runs(sorted_keys(q41_keys(cols@, urls@, pred, ranges@, url_high))),
            limit,
            offset,
        ),
{
    let end: usize = end_of_ranges(ranges);
    let keys = collect_q41_keys(cols, urls, pred, ranges, end, url_high);
    sorted_topk_u128(&keys, limit, offset)
}

/// The most frequent keys; of equally frequent keys the smaller pair comes first.
pub open spec fn pair_top(keys: Seq<u128>, limit: usize, offset: usize) -> Seq<(u128, u64)> {
    let t = top(
        by_count_and_pair(tallied(keys), first_seen(keys)),
        tallied(keys).len(),
        limit,
        offset,
    );
    Seq::new(t.len(), |i: int| (first_seen(keys)[t[i] as int], tallied(keys)[t[i] as int]))
}

/// The most frequent keys; of equally frequent keys the smaller pair comes first.
pub fn mask_selected_pair_topk(keys: &Vec<u128>, limit: usize, offset: usize) -> (out: Vec<
    (u128, u64),
>)
    ensures
        out@ == pair_top(keys@, limit, offset),
{
    let (index, counts) = count_ints(keys);
    let seen = index.all();
    let t = top_counts_u128_key(&counts, seen, limit, offset);
    let mut out: Vec<(u128, u64)> = Vec::new();
    let mut j: usize = 0;
    while j < t.len()
        invariant
            j <= t@.len(),
            seen@.len() == counts@.len(),
            forall|i: int| 0 <= i < t@.len() ==> (#[trigger] t@[i]) < counts@.len(),
            out@.len() == j,
            forall|k: int|
                0 <= k < j ==> (#[trigger] out@[k]) == (
                    seen@[t@[k] as int],
                    counts@[t@[k] as int],
                ),
        decreases t@.len() - j,
    {
        assert(t@[j as int] < counts@.len());
        let g: usize = t[j];
        out.push((seen[g], counts[g]));
        j = j + 1;
    }
    assert(out@ =~= pair_top(keys@, limit, offset));
    out
}

} // verus!
