//! What is grouped by regions or advertising engines is rows of plain grouping.
use crate::error::yields;
use crate::exec::agg_heap::{before, by_count, lemma_before_total, window};
use crate::exec::filter::{filtered, lemma_filtered_len};
use crate::exec::group::keyed;
use crate::exec::group_direct::{
    adv_result, filled, law_largest, region_aggs_result, region_numbers, region_users, region_users_result,
    small_regions, user_rows, users_by_bucket, RegionData,
};
use crate::exec::group_fused_region::{
    number_keys, region_result, region_rows, region_shape, Totals,
};
use crate::exec::grouping::{distinct_at, lemma_distinct_at, sum_at, tallied};
use crate::exec::hash::{first_seen, lemma_first_seen_distinct, lemma_occurrences, occurrences};
use crate::exec::kernel::{
    chosen, count_sorted, counted_texts, i16s_of, i32s_of, i64s_of, mapped, shows_counts,
    shows_different, with_count,
};
use crate::exec::kernel_rows::{
    among, distinct_values, lemma_agree, lemma_column_ints, lemma_counted_texts_plain,
    lemma_distinct_row, lemma_one_column, lemma_sorted_among,
};
use crate::exec::mask_util::{lemma_selected, selected};
use crate::exec::order_laws::arranges;
use crate::exec::page_laws::{
    is_best_page, is_best_page_of, lemma_count_sorted_page, lemma_counted_texts_page, lemma_group_is,
    lemma_groups_len, lemma_list_arranges, lemma_rearranged_count_sorted,
    lemma_rearranged_page,
};
use crate::exec::plain_rows::{
    agree, group_cells, lemma_average_cell, lemma_count_cell, lemma_distinct_cell,
    lemma_first_place, lemma_plain_shows, lemma_sum_cell, lemma_text_keyed, parts_of, plain_rows,
    text_keyed,
};
use crate::exec::result::{counted, query_limit, query_offset, shown, CellView, ResultView};
use crate::exec::sorting::all_numbers;
use crate::exec::top_laws::law_ranked_page;
use crate::sql::ast::ParsedQuery;
use crate::storage::column::ColumnView;
use crate::storage::table::Table;
use crate::text::law_decimal_injective;
use vstd::prelude::*;

verus! {

/// The keys of texts that rows are counted by.
proof fn lemma_adv(t: Table, q: ParsedQuery, n: nat, rows: Seq<usize>, r: ResultView) -> (keys: Seq<
    Seq<Seq<char>>,
>)
    requires
        yields(chosen(t, q, n), Some(rows)),
        yields(adv_result(t, q, n), Some(r)),
    ensures
        r == counted_texts(q, keys),
        text_keyed(t, q, rows, keys),
        shows_counts(q),
{
    let v = i16s_of(t, "AdvEngineID"@)->Ok_0->Some_0;
    let keys = number_keys(|r: usize| v[r as int] as int, rows);
    lemma_one_column(t, q, rows, ColumnView::Int16(v), keys);
    keys
}

/// What counts rows by advertising engine shows rows of plain grouping.
pub proof fn law_adv_plain(
    t: Table,
    q: ParsedQuery,
    n: nat,
    rows: Seq<usize>,
    out: Seq<Seq<CellView>>,
    r: ResultView,
)
    requires
        yields(chosen(t, q, n), Some(rows)),
        rows.len() <= usize::MAX,
        yields(adv_result(t, q, n), Some(r)),
        plain_rows(t, q, rows, out),
    ensures
        among(r.rows, out),
        is_best_page(q, r.rows, out, q.group_by@.len() as int),
{
    let keys = lemma_adv(t, q, n, rows, r);
    lemma_counted_texts_plain(t, q, rows, out, keys);
    lemma_counted_texts_page(t, q, rows, out, keys);
}

/// Whether values are those that a query sums, averages and counts the different ones of
/// by region, on rows.
pub open spec fn region_totals(t: Table, rows: Seq<usize>, totals: Totals) -> bool {
    match (i16s_of(t, "AdvEngineID"@), i16s_of(t, "ResolutionWidth"@), i64s_of(t, "UserID"@)) {
        (Ok(Some(adv)), Ok(Some(width)), Ok(Some(users))) => {
            &&& totals.summed == mapped(rows, |r: usize| adv[r as int] as i64)
            &&& totals.averaged == mapped(rows, |r: usize| width[r as int] as i64)
            &&& totals.users == mapped(rows, |r: usize| users[r as int])
        },
        _ => false,
    }
}

/// A row with a sum, a count, an average and a number of different users shows the group of
/// a row.
proof fn lemma_region_cells(
    t: Table,
    q: ParsedQuery,
    rows: Seq<usize>,
    totals: Totals,
    i: int,
    want: Seq<CellView>,
)
    requires
        region_shape(q),
        region_totals(t, rows, totals),
        keyed(t, q, rows).0.len() == rows.len(),
        0 <= i < rows.len(),
        ({
            let keys = keyed(t, q, rows).0;
            let count = occurrences(keys, keys[i]);
            want == seq![
                shown(keys[i][0]),
                counted(sum_at(keys, totals.summed, keys[i])),
                counted(count as int),
                CellView::Ratio { sum: sum_at(keys, totals.averaged, keys[i]), count },
                counted(distinct_at(keys, totals.users, keys[i]).len() as int),
            ]
        }),
    ensures
        group_cells(t, q, rows, i, want),
{
    let adv = i16s_of(t, "AdvEngineID"@)->Ok_0->Some_0;
    let width = i16s_of(t, "ResolutionWidth"@)->Ok_0->Some_0;
    lemma_column_ints(t, q.select_items@[1].kind->Sum_0, rows, ColumnView::Int16(adv));
    lemma_sum_cell(t, q, rows, i, 1, totals.summed);
    lemma_count_cell(t, q, rows, i, 2);
    lemma_column_ints(t, q.select_items@[3].kind->Avg_0, rows, ColumnView::Int16(width));
    lemma_average_cell(t, q, rows, i, 3, totals.averaged);
    lemma_distinct_cell(t, q, rows, i, 4, totals.users);
}

/// The rows of regions are rows of plain grouping.
proof fn lemma_totals_plain(
    t: Table,
    q: ParsedQuery,
    rows: Seq<usize>,
    out: Seq<Seq<CellView>>,
    totals: Totals,
    keys: Seq<Seq<Seq<char>>>,
)
    requires
        plain_rows(t, q, rows, out),
        rows.len() <= usize::MAX,
        region_shape(q),
        region_totals(t, rows, totals),
        text_keyed(t, q, rows, keys),
    ensures
        among(totals.rows(keys), out),
        totals.rows(keys) == out,
        forall|g: int| 0 <= g < out.len() ==> (#[trigger] out[g])[2] == counted(
            tallied(keys)[g] as int,
        ),
{
    lemma_text_keyed(t, q, rows, out, keys);
    let all = totals.rows(keys);
    lemma_groups_len(t, q, rows, out, keys);
    assert forall|g: int| 0 <= g < all.len() implies out.contains(#[trigger] all[g]) && all[g]
        == out[g] && all[g][2] == counted(tallied(keys)[g] as int) by {
        let i = lemma_first_place(keys, g);
        lemma_occurrences(keys, keys[i]);
        lemma_distinct_at(keys, totals.users, keys[i]);
        lemma_region_cells(t, q, rows, totals, i, all[g]);
        lemma_plain_shows(t, q, rows, out, i, all[g]);
        lemma_group_is(t, q, rows, out, keys, g, i, all[g]);
    }
    assert(all =~= out);
}

/// The keys and values that rows are grouped by and of.
proof fn lemma_region(t: Table, q: ParsedQuery, n: nat, rows: Seq<usize>, r: ResultView) -> (k: (
    Seq<Seq<Seq<char>>>,
    Totals,
))
    requires
        yields(chosen(t, q, n), Some(rows)),
        yields(region_result(t, q, n), Some(r)),
    ensures
        region_shape(q),
        text_keyed(t, q, rows, k.0),
        region_totals(t, rows, k.1),
        r == count_sorted(q, tallied(k.0), k.1.rows(k.0)),
{
    let regions = i32s_of(t, "RegionID"@)->Ok_0->Some_0;
    let adv = i16s_of(t, "AdvEngineID"@)->Ok_0->Some_0;
    let width = i16s_of(t, "ResolutionWidth"@)->Ok_0->Some_0;
    let users = i64s_of(t, "UserID"@)->Ok_0->Some_0;
    let keys = number_keys(|r: usize| regions[r as int] as int, rows);
    let totals = Totals {
        summed: mapped(rows, |r: usize| adv[r as int] as i64),
        averaged: mapped(rows, |r: usize| width[r as int] as i64),
        users: mapped(rows, |r: usize| users[r as int]),
    };
    assert(r == region_rows(q, regions, adv, width, users, rows));
    lemma_one_column(t, q, rows, ColumnView::Int32(regions), keys);
    (keys, totals)
}

/// What sums, counts and averages by region shows rows of plain grouping.
pub proof fn law_region_plain(
    t: Table,
    q: ParsedQuery,
    n: nat,
    rows: Seq<usize>,
    out: Seq<Seq<CellView>>,
    r: ResultView,
)
    requires
        yields(chosen(t, q, n), Some(rows)),
        rows.len() <= usize::MAX,
        yields(region_result(t, q, n), Some(r)),
        plain_rows(t, q, rows, out),
    ensures
        among(r.rows, out),
        is_best_page(q, r.rows, out, 2),
{
    let (keys, totals) = lemma_region(t, q, n, rows, r);
    lemma_totals_plain(t, q, rows, out, totals, keys);
    lemma_first_seen_distinct(keys);
    lemma_sorted_among(q, tallied(keys), totals.rows(keys), out);
    lemma_count_sorted_page(q, tallied(keys), out, 2);
}

/// A filled bucket is that of some row.
proof fn lemma_filled(keys: Seq<int>, n: nat, p: int) -> (i: int)
    requires
        n <= usize::MAX,
        0 <= p < filled(keys, n).len(),
    ensures
        0 <= i < keys.len(),
        keys[i] == filled(keys, n)[p],
    decreases n,
{
    let front = filled(keys, (n - 1) as nat);
    if p < front.len() {
        assert(filled(keys, n)[p] == front[p]);
        lemma_filled(keys, (n - 1) as nat, p)
    } else {
        lemma_occurrences(keys, n - 1);
        choose|i: int| 0 <= i < keys.len() && keys[i] == n - 1
    }
}

/// There are no more filled buckets than buckets.
proof fn lemma_filled_len(keys: Seq<int>, n: nat)
    ensures
        filled(keys, n).len() <= n,
    decreases n,
{
    if n > 0 {
        lemma_filled_len(keys, (n - 1) as nat);
    }
}

/// The filled buckets are those of the keys, each once, where all keys have a bucket.
proof fn lemma_filled_arrange(keys: Seq<int>, n: nat) -> (places: Seq<usize>)
    requires
        n <= usize::MAX,
        keys.len() <= usize::MAX,
        forall|i: int| 0 <= i < keys.len() ==> 0 <= #[trigger] keys[i] < n,
    ensures
        filled(keys, n).len() == first_seen(keys).len(),
        arranges(places, first_seen(keys).len()),
        forall|p: int|
            0 <= p < places.len() ==> first_seen(keys)[(#[trigger] places[p]) as int] == filled(
                keys,
                n,
            )[p],
{
    let f = filled(keys, n);
    let list = Seq::new(f.len(), |p: int| f[p] as int);
    lemma_filled_members(keys, n);
    assert forall|k: int| #[trigger] list.contains(k) <==> keys.contains(k) by {
        lemma_occurrences(keys, k);
        if list.contains(k) {
            let p = choose|p: int| 0 <= p < list.len() && list[p] == k;
            let i = lemma_filled(keys, n, p);
            assert(keys[i] == k);
        }
        if keys.contains(k) {
            let i = choose|i: int| 0 <= i < keys.len() && keys[i] == k;
            assert(0 <= keys[i] < n);
            assert(f.contains(k as usize));
            let p = choose|p: int| 0 <= p < f.len() && f[p] == k as usize;
            assert(list[p] == k);
        }
    }
    lemma_list_arranges(keys, list)
}

/// A bucket is filled if and only if its key appears; the buckets are in order.
proof fn lemma_filled_members(keys: Seq<int>, n: nat)
    requires
        n <= usize::MAX,
    ensures
        filled(keys, n).no_duplicates(),
        forall|b: usize| #[trigger]
            filled(keys, n).contains(b) <==> b < n && occurrences(keys, b as int) > 0,
    decreases n,
{
    if n > 0 {
        let m = (n - 1) as nat;
        lemma_filled_members(keys, m);
        let (was, now) = (filled(keys, m), filled(keys, n));
        assert forall|b: usize| #[trigger] now.contains(b) <==> b < n && occurrences(
            keys,
            b as int,
        ) > 0 by {
            if now.contains(b) {
                let i = choose|i: int| 0 <= i < now.len() && now[i] == b;
                if i < was.len() {
                    assert(was[i] == b);
                    assert(was.contains(b));
                }
            }
            if b < n && occurrences(keys, b as int) > 0 {
                if b < m {
                    assert(was.contains(b));
                    let i = choose|i: int| 0 <= i < was.len() && was[i] == b;
                    assert(now[i] == b);
                } else {
                    assert(now[was.len() as int] == b);
                }
            }
        }
        assert forall|i: int, j: int| 0 <= i < now.len() && 0 <= j < now.len() && i != j implies
            now[i] != now[j] by {
            if i < was.len() && j < was.len() {
                assert(was[i] != was[j]);
            } else if i < was.len() {
                assert(was.contains(was[i]));
            } else {
                assert(was.contains(was[j]));
            }
        }
    }
}

/// The numbers of regions are the same just where their texts are.
proof fn lemma_regions_agree(regions: Seq<i32>, rows: Seq<usize>)
    ensures
        agree(
            region_numbers(regions, rows),
            number_keys(|r: usize| regions[r as int] as int, rows),
        ),
{
    let keys = region_numbers(regions, rows);
    let all = number_keys(|r: usize| regions[r as int] as int, rows);
    assert forall|i: int, k: int| 0 <= i < keys.len() && 0 <= k < keys.len() implies (
    #[trigger] keys[i] == #[trigger] keys[k] <==> all[i] == all[k]) by {
        if all[i] == all[k] {
            assert(all[i][0] == all[k][0]);
            law_decimal_injective(keys[i], keys[k]);
        }
    }
}

/// Regions with their different users are rows of plain grouping.
proof fn lemma_user_rows_plain(
    t: Table,
    q: ParsedQuery,
    rows: Seq<usize>,
    out: Seq<Seq<CellView>>,
    regions: Seq<i32>,
    vals: Seq<i64>,
    n: nat,
)
    requires
        plain_rows(t, q, rows, out),
        rows.len() <= usize::MAX,
        n <= usize::MAX,
        q.group_by@.len() == 1,
        shows_different(q),
        text_keyed(t, q, rows, number_keys(|r: usize| regions[r as int] as int, rows)),
        distinct_values(t, q, rows, vals),
    ensures
        among(user_rows(region_numbers(regions, rows), vals, n), out),
{
    let keys = region_numbers(regions, rows);
    let texts = number_keys(|r: usize| regions[r as int] as int, rows);
    let all = user_rows(keys, vals, n);
    lemma_text_keyed(t, q, rows, out, texts);
    lemma_regions_agree(regions, rows);
    assert forall|p: int| 0 <= p < all.len() implies out.contains(#[trigger] all[p]) by {
        let i = lemma_filled(keys, n, p);
        lemma_agree(keys, texts, i, vals);
        assert(parts_of(t, q, rows[i] as int, texts[i]));
        lemma_distinct_row(t, q, rows, vals, i);
        let different = distinct_at(texts, vals, texts[i]).len();
        assert(all[p] =~= with_count(texts[i], different as u64));
        lemma_plain_shows(t, q, rows, out, i, all[p]);
    }
}

/// Regions with their different users are a page of plain grouping, by descending number.
proof fn lemma_user_rows_page(
    t: Table,
    q: ParsedQuery,
    rows: Seq<usize>,
    out: Seq<Seq<CellView>>,
    regions: Seq<i32>,
    vals: Seq<i64>,
    n: nat,
)
    requires
        plain_rows(t, q, rows, out),
        rows.len() <= usize::MAX,
        n <= usize::MAX,
        q.group_by@.len() == 1,
        shows_different(q),
        text_keyed(t, q, rows, number_keys(|r: usize| regions[r as int] as int, rows)),
        distinct_values(t, q, rows, vals),
        forall|i: int| 0 <= i < rows.len() ==> 0 <= regions[(#[trigger] rows[i]) as int] < n,
    ensures
        is_best_page(
            q,
            count_sorted(
                q,
                users_by_bucket(region_numbers(regions, rows), vals, n),
                user_rows(region_numbers(regions, rows), vals, n),
            ).rows,
            out,
            1,
        ),
{
    let keys = region_numbers(regions, rows);
    let texts = number_keys(|r: usize| regions[r as int] as int, rows);
    let all = user_rows(keys, vals, n);
    lemma_text_keyed(t, q, rows, out, texts);
    lemma_regions_agree(regions, rows);
    assert forall|i: int| 0 <= i < keys.len() implies 0 <= #[trigger] keys[i] < n by {
        assert(keys[i] == regions[rows[i] as int]);
    }
    let places = lemma_filled_arrange(keys, n);
    let counts = users_by_bucket(keys, vals, n);
    lemma_groups_len(t, q, rows, out, keys);
    lemma_filled_len(keys, n);
    assert forall|p: int| 0 <= p < all.len() implies #[trigger] all[p]
        == out[places[p] as int] && all[p][1] == counted(counts[p] as int) by {
        let i = lemma_filled(keys, n, p);
        lemma_agree(keys, texts, i, vals);
        assert(parts_of(t, q, rows[i] as int, texts[i]));
        lemma_distinct_row(t, q, rows, vals, i);
        let different = distinct_at(texts, vals, texts[i]).len();
        assert(all[p] =~= with_count(texts[i], different as u64));
        assert(places[p] < first_seen(keys).len());
        lemma_group_is(t, q, rows, out, keys, places[p] as int, i, all[p]);
    }
    lemma_rearranged_count_sorted(q, counts, all, out, places, 1);
}

/// The regions of selected rows have a bucket each.
proof fn lemma_small_regions(t: Table, q: ParsedQuery, n: nat, rows: Seq<usize>)
    requires
        n <= usize::MAX,
        small_regions(t, n) is Some,
        filtered(t, q.where_expr, n) is Ok,
        rows == selected(filtered(t, q.where_expr, n)->Ok_0),
    ensures
        forall|i: int|
            0 <= i < rows.len() ==> 0 <= small_regions(t, n)->Some_0.0[(#[trigger] rows[i]) as int]
                < small_regions(t, n)->Some_0.1,
{
    let (v, b) = small_regions(t, n)->Some_0;
    let mask = filtered(t, q.where_expr, n)->Ok_0;
    lemma_filtered_len(t, q.where_expr, n);
    lemma_selected(mask);
    assert forall|i: int| 0 <= i < rows.len() implies 0 <= v[(#[trigger] rows[i]) as int] < b by {
        assert(selected(mask)[i] < mask.len());
        law_largest(v, n, rows[i] as int);
        assert(v[rows[i] as int] >= 0);
    }
}

/// The columns that different users are counted by and of.
proof fn lemma_region_users(t: Table, q: ParsedQuery, n: nat, rows: Seq<usize>, r: ResultView) -> (k: (
    Seq<i32>,
    Seq<i64>,
    nat,
))
    requires
        yields(chosen(t, q, n), Some(rows)),
        yields(region_users_result(t, q, n), Some(r)),
    ensures
        q.group_by@.len() == 1,
        shows_different(q),
        k.2 <= usize::MAX,
        n <= usize::MAX ==> forall|i: int|
            0 <= i < rows.len() ==> 0 <= k.0[(#[trigger] rows[i]) as int] < k.2,
        text_keyed(t, q, rows, number_keys(|r: usize| k.0[r as int] as int, rows)),
        distinct_values(t, q, rows, k.1),
        r == count_sorted(
            q,
            users_by_bucket(region_numbers(k.0, rows), k.1, k.2),
            user_rows(region_numbers(k.0, rows), k.1, k.2),
        ),
{
    let (regions, b) = small_regions(t, n)->Some_0;
    let users = i64s_of(t, "UserID"@)->Ok_0->Some_0;
    let vals = mapped(rows, |r: usize| users[r as int]);
    let keys = number_keys(|r: usize| regions[r as int] as int, rows);
    assert(rows == selected(filtered(t, q.where_expr, n)->Ok_0));
    assert(r == region_users(q, regions, users, rows, b));
    assert(q.select_items@.last() == q.select_items@[1]);
    lemma_one_column(t, q, rows, ColumnView::Int32(regions), keys);
    if n <= usize::MAX {
        lemma_small_regions(t, q, n, rows);
    }
    (regions, vals, b)
}

/// What counts different users by region shows rows of plain grouping.
pub proof fn law_region_users_plain(
    t: Table,
    q: ParsedQuery,
    n: nat,
    rows: Seq<usize>,
    out: Seq<Seq<CellView>>,
    r: ResultView,
)
    requires
        yields(chosen(t, q, n), Some(rows)),
        rows.len() <= usize::MAX,
        yields(region_users_result(t, q, n), Some(r)),
        plain_rows(t, q, rows, out),
    ensures
        among(r.rows, out),
        n <= usize::MAX ==> is_best_page(q, r.rows, out, 1),
{
    let (regions, vals, b) = lemma_region_users(t, q, n, rows, r);
    let keys = region_numbers(regions, rows);
    lemma_user_rows_plain(t, q, rows, out, regions, vals, b);
    if n <= usize::MAX {
        lemma_user_rows_page(t, q, rows, out, regions, vals, b);
    }
    lemma_filled_len(keys, b);
    lemma_sorted_among(q, users_by_bucket(keys, vals, b), user_rows(keys, vals, b), out);
}

/// The rows of regions in buckets are rows of plain grouping.
proof fn lemma_buckets_plain(
    t: Table,
    q: ParsedQuery,
    rows: Seq<usize>,
    out: Seq<Seq<CellView>>,
    data: RegionData,
    n: nat,
)
    requires
        plain_rows(t, q, rows, out),
        rows.len() <= usize::MAX,
        n <= usize::MAX,
        region_shape(q),
        text_keyed(t, q, rows, number_keys(|r: usize| data.regions[r as int] as int, rows)),
        yields(i16s_of(t, "AdvEngineID"@), Some(data.adv)),
        yields(i16s_of(t, "ResolutionWidth"@), Some(data.width)),
        yields(i64s_of(t, "UserID"@), Some(data.users)),
    ensures
        among(data.rows(rows, n), out),
{
    let keys = data.keys(rows);
    let texts = number_keys(|r: usize| data.regions[r as int] as int, rows);
    let totals = Totals {
        summed: mapped(rows, |r: usize| data.adv[r as int] as i64),
        averaged: mapped(rows, |r: usize| data.width[r as int] as i64),
        users: mapped(rows, |r: usize| data.users[r as int]),
    };
    let all = data.rows(rows, n);
    lemma_text_keyed(t, q, rows, out, texts);
    lemma_regions_agree(data.regions, rows);
    assert forall|p: int| 0 <= p < all.len() implies out.contains(#[trigger] all[p]) by {
        let i = lemma_filled(keys, n, p);
        lemma_agree(keys, texts, i, totals.summed);
        lemma_agree(keys, texts, i, totals.averaged);
        lemma_agree(keys, texts, i, totals.users);
        lemma_region_cells(t, q, rows, totals, i, all[p]);
        lemma_plain_shows(t, q, rows, out, i, all[p]);
    }
}

/// The rows of regions in buckets are a page of plain grouping, by descending count.
proof fn lemma_buckets_page(
    t: Table,
    q: ParsedQuery,
    rows: Seq<usize>,
    out: Seq<Seq<CellView>>,
    data: RegionData,
    n: nat,
)
    requires
        plain_rows(t, q, rows, out),
        rows.len() <= usize::MAX,
        n <= usize::MAX,
        region_shape(q),
        forall|i: int| 0 <= i < rows.len() ==> 0 <= data.regions[(#[trigger] rows[i]) as int] < n,
        text_keyed(t, q, rows, number_keys(|r: usize| data.regions[r as int] as int, rows)),
        yields(i16s_of(t, "AdvEngineID"@), Some(data.adv)),
        yields(i16s_of(t, "ResolutionWidth"@), Some(data.width)),
        yields(i64s_of(t, "UserID"@), Some(data.users)),
    ensures
        is_best_page(q, data.ranked(q, rows, n).rows, out, 2),
{
    let keys = data.keys(rows);
    let texts = number_keys(|r: usize| data.regions[r as int] as int, rows);
    let totals = Totals {
        summed: mapped(rows, |r: usize| data.adv[r as int] as i64),
        averaged: mapped(rows, |r: usize| data.width[r as int] as i64),
        users: mapped(rows, |r: usize| data.users[r as int]),
    };
    let all = data.rows(rows, n);
    lemma_text_keyed(t, q, rows, out, texts);
    lemma_regions_agree(data.regions, rows);
    assert forall|i: int| 0 <= i < keys.len() implies 0 <= #[trigger] keys[i] < n by {
        assert(keys[i] == data.regions[rows[i] as int]);
    }
    let places = lemma_filled_arrange(keys, n);
    let counts = data.counts(rows, n);
    lemma_groups_len(t, q, rows, out, keys);
    lemma_filled_len(keys, n);
    assert forall|p: int| 0 <= p < all.len() implies #[trigger] all[p] == out[places[p] as int]
        && all[p][2] == counted(counts[p] as int) by {
        let i = lemma_filled(keys, n, p);
        lemma_agree(keys, texts, i, totals.summed);
        lemma_agree(keys, texts, i, totals.averaged);
        lemma_agree(keys, texts, i, totals.users);
        lemma_region_cells(t, q, rows, totals, i, all[p]);
        lemma_occurrences(keys, keys[i]);
        assert(places[p] < first_seen(keys).len());
        lemma_group_is(t, q, rows, out, keys, places[p] as int, i, all[p]);
    }
    let numbers = law_ranked_page(
        by_count(counts),
        counts.len(),
        query_limit(q),
        query_offset(q),
    );
    let r = data.ranked(q, rows, n).rows;
    assert forall|g: int| 0 <= g < all.len() implies (#[trigger] all[g])[2] == counted(
        counts[g] as int,
    ) by {}
    assert(is_best_page_of(q, r, all, 2, numbers, counts));
    lemma_rearranged_page(q, counts, all, out, places, 2, numbers, r);
}

/// The columns that rows are grouped by and of.
proof fn lemma_region_aggs(t: Table, q: ParsedQuery, n: nat, rows: Seq<usize>, r: ResultView) -> (k: (
    RegionData,
    nat,
))
    requires
        yields(chosen(t, q, n), Some(rows)),
        yields(region_aggs_result(t, q, n), Some(r)),
    ensures
        region_shape(q),
        k.1 <= usize::MAX,
        n <= usize::MAX ==> forall|i: int|
            0 <= i < rows.len() ==> 0 <= k.0.regions[(#[trigger] rows[i]) as int] < k.1,
        text_keyed(t, q, rows, number_keys(|r: usize| k.0.regions[r as int] as int, rows)),
        yields(i16s_of(t, "AdvEngineID"@), Some(k.0.adv)),
        yields(i16s_of(t, "ResolutionWidth"@), Some(k.0.width)),
        yields(i64s_of(t, "UserID"@), Some(k.0.users)),
        r == k.0.ranked(q, rows, k.1),
{
    let (regions, b) = small_regions(t, n)->Some_0;
    let data = RegionData {
        regions,
        adv: i16s_of(t, "AdvEngineID"@)->Ok_0->Some_0,
        width: i16s_of(t, "ResolutionWidth"@)->Ok_0->Some_0,
        users: i64s_of(t, "UserID"@)->Ok_0->Some_0,
    };
    assert(rows == selected(filtered(t, q.where_expr, n)->Ok_0));
    assert(r == data.ranked(q, rows, b));
    lemma_one_column(
        t,
        q,
        rows,
        ColumnView::Int32(regions),
        number_keys(|r: usize| data.regions[r as int] as int, rows),
    );
    if n <= usize::MAX {
        lemma_small_regions(t, q, n, rows);
    }
    (data, b)
}

/// What sums, counts and averages by region in buckets shows rows of plain grouping.
pub proof fn law_region_aggs_plain(
    t: Table,
    q: ParsedQuery,
    n: nat,
    rows: Seq<usize>,
    out: Seq<Seq<CellView>>,
    r: ResultView,
)
    requires
        yields(chosen(t, q, n), Some(rows)),
        rows.len() <= usize::MAX,
        yields(region_aggs_result(t, q, n), Some(r)),
        plain_rows(t, q, rows, out),
    ensures
        among(r.rows, out),
        n <= usize::MAX ==> is_best_page(q, r.rows, out, 2),
{
    let (data, b) = lemma_region_aggs(t, q, n, rows, r);
    lemma_buckets_plain(t, q, rows, out, data, b);
    if n <= usize::MAX {
        lemma_buckets_page(t, q, rows, out, data, b);
    }
    let counts = data.counts(rows, b);
    lemma_filled_len(data.keys(rows), b);
    let numbers = all_numbers(counts.len());
    lemma_before_total(by_count(counts));
    numbers.lemma_sort_by_ensures(before(by_count(counts)));
    let sorted = numbers.sort_by(before(by_count(counts)));
    let picked = r.rows;
    assert forall|p: int| 0 <= p < picked.len() implies out.contains(#[trigger] picked[p]) by {
        let k = window(sorted, query_limit(q) as nat, query_offset(q) as nat)[p];
        assert(sorted.contains(k)) by {
            assert(k == sorted[p + query_offset(q)]);
        }
        if !numbers.contains(k) {
            assert(!sorted.contains(k));
        }
        let j = choose|j: int| 0 <= j < numbers.len() && numbers[j] == k;
        assert(k < counts.len());
        assert(picked[p] == data.rows(rows, b)[k as int]);
    }
}

} // verus!
