//! What averages lengths by counter or host, and what groups by host, is rows of plain
//! grouping.
use crate::error::yields;
use crate::exec::agg_heap::{before, lemma_before_total};
use crate::exec::group::{grouped, keyed, resolved, AnswerView};
use crate::exec::group_fused_q22::least_row;
use crate::exec::group_fused_q29::{host_cells, host_keys, hosts_ranked, q29_result, q29_shape};
use crate::exec::group_fused_region::{
    average_order, average_row, best_averages, counter_averages, counter_numbers, counter_result,
    counter_shape, frequent, lemma_average_ranks, lemma_frequent, number_keys, url_lengths,
};
use crate::exec::group_referrer::{calls_on, host_answer, leading_arg, takes_host};
use crate::exec::grouping::{sum_at, tallied};
use crate::exec::hash::{first_seen, lemma_first_seen_distinct, lemma_occurrences, occurrences};
use crate::exec::having::threshold_of;
use crate::exec::kernel::{chosen, texts_of};
use crate::exec::kernel_rows::{among, answer_rows, lemma_one_column};
use crate::exec::plain_rows::{
    agree, group_cells, key_part, lemma_average_cell, lemma_count_cell, lemma_first_place,
    lemma_least_cell, lemma_plain_shows, lemma_text_keyed, parts_of, plain_rows, text_keyed,
};
use crate::exec::result::{counted, query_limit, query_offset, shown, CellView, ResultView};
use crate::exec::text_laws::lemma_plain_groups;
use crate::exec::top_laws::{is_part, lemma_sorted};
use crate::expr::eval::{column_of, function_int, int_of, text_of};
use crate::expr::matching::host_of;
use crate::sql::ast::{Expr, ParsedQuery};
use crate::storage::table::Table;
use crate::text::text_less;
use vstd::prelude::*;

verus! {

/// The length of a text column is that of its texts.
proof fn lemma_lengths(t: Table, e: Expr, rows: Seq<usize>, name: Seq<char>, strs: Seq<Seq<char>>)
    requires
        calls_on(e, "LENGTH"@, name),
        yields(texts_of(t, name), Some(strs)),
    ensures
        forall|k: int|
            0 <= k < rows.len() ==> yields(
                int_of(t, e, (#[trigger] rows[k]) as int),
                url_lengths(strs, rows)[k],
            ),
{
    reveal_with_fuel(int_of, 3);
    reveal_with_fuel(function_int, 3);
    reveal_with_fuel(text_of, 3);
    let lengths = url_lengths(strs, rows);
    assert forall|k: int| 0 <= k < rows.len() implies yields(
        int_of(t, e, (#[trigger] rows[k]) as int),
        lengths[k],
    ) by {
        let row = rows[k] as int;
        match e {
            Expr::Function(f) => {
                let x = leading_arg(f)->Some_0;
                assert(yields(text_of(t, x, row), strs[row]));
                assert(int_of(t, e, row) == function_int(t, f, row));
            },
            _ => {},
        }
    }
}

/// The groups with the largest averages are groups with enough rows.
proof fn lemma_best_averages(
    keys: Seq<Seq<Seq<char>>>,
    vals: Seq<i64>,
    threshold: u64,
    limit: usize,
    offset: usize,
    p: int,
)
    requires
        keys.len() <= usize::MAX,
        0 <= p < best_averages(keys, vals, threshold, limit, offset).len(),
    ensures
        ({
            let g = best_averages(keys, vals, threshold, limit, offset)[p];
            g < first_seen(keys).len() && tallied(keys)[g as int] > threshold
        }),
{
    lemma_first_seen_distinct(keys);
    let counts = tallied(keys);
    let many = frequent(counts, threshold, counts.len());
    let rule = average_order(keys, vals);
    lemma_average_ranks(
        Seq::new(first_seen(keys).len(), |g: int| sum_at(keys, vals, first_seen(keys)[g])),
        counts,
        Seq::new(first_seen(keys).len(), |g: int| first_seen(keys)[g][0]),
    );
    lemma_before_total(rule);
    many.lemma_sort_by_ensures(before(rule));
    let sorted = many.sort_by(before(rule));
    let g = best_averages(keys, vals, threshold, limit, offset)[p];
    assert(sorted.contains(g)) by {
        assert(g == sorted[p + offset]);
    }
    if !many.contains(g) {
        assert(!sorted.contains(g));
    }
    let j = choose|j: int| 0 <= j < many.len() && many[j] == g;
    lemma_frequent(counts, threshold, counts.len());
    assert(many[j] < counts.len());
    lemma_frequent_enough(counts, threshold, counts.len(), j);
}

/// Groups with more rows than the threshold have more rows than it.
proof fn lemma_frequent_enough(counts: Seq<u64>, threshold: u64, n: nat, j: int)
    requires
        n <= counts.len(),
        n <= usize::MAX,
        0 <= j < frequent(counts, threshold, n).len(),
    ensures
        counts[frequent(counts, threshold, n)[j] as int] > threshold,
    decreases n,
{
    let front = frequent(counts, threshold, (n - 1) as nat);
    if j < front.len() {
        assert(frequent(counts, threshold, n)[j] == front[j]);
        lemma_frequent_enough(counts, threshold, (n - 1) as nat, j);
    }
}

/// A group has enough rows if and only if it has more rows than the threshold.
proof fn lemma_frequent_exactly(counts: Seq<u64>, threshold: u64, n: nat)
    requires
        n <= counts.len(),
        n <= usize::MAX,
    ensures
        frequent(counts, threshold, n).no_duplicates(),
        forall|g: usize| #[trigger]
            frequent(counts, threshold, n).contains(g) <==> g < n && counts[g as int] > threshold,
    decreases n,
{
    if n > 0 {
        let m = (n - 1) as nat;
        lemma_frequent_exactly(counts, threshold, m);
        let (was, now) = (frequent(counts, threshold, m), frequent(counts, threshold, n));
        assert forall|g: usize| #[trigger] now.contains(g) <==> g < n && counts[g as int]
            > threshold by {
            if now.contains(g) {
                let i = choose|i: int| 0 <= i < now.len() && now[i] == g;
                if i < was.len() {
                    assert(was[i] == g);
                    assert(was.contains(g));
                }
            }
            if g < n && counts[g as int] > threshold {
                if g < m {
                    assert(was.contains(g));
                    let i = choose|i: int| 0 <= i < was.len() && was[i] == g;
                    assert(now[i] == g);
                } else {
                    assert(now[was.len() as int] == g);
                }
            }
        }
        assert forall|i: int, j: int| 0 <= i < now.len() && 0 <= j < now.len() && i != j implies
            now[i] != now[j] by {
            if i < was.len() && j < was.len() {
                assert(was[i] != was[j]);
            } else if i < was.len() {
                assert(was.contains(was[i]));
            } else {
                assert(was.contains(was[j]));
            }
        }
    }
}

/// The groups with the largest averages are a page of exactly those groups that have more
/// rows than the threshold, in the order of their averages: no sum over a count is larger
/// than an earlier one, and where two are equal no text comes before an earlier one.
pub proof fn law_best_averages(
    keys: Seq<Seq<Seq<char>>>,
    vals: Seq<i64>,
    threshold: u64,
    limit: usize,
    offset: usize,
) -> (all: Seq<usize>)
    requires
        keys.len() <= usize::MAX,
    ensures
        all.no_duplicates(),
        forall|g: usize| #[trigger]
            all.contains(g) <==> g < first_seen(keys).len() && occurrences(
                keys,
                first_seen(keys)[g as int],
            ) > threshold,
        forall|x: int, y: int|
            #![trigger all[x], all[y]]
            0 <= x < y < all.len() ==> {
                let (a, b) = (first_seen(keys)[all[x] as int], first_seen(keys)[all[y] as int]);
                let (m, n) = (occurrences(keys, a), occurrences(keys, b));
                &&& sum_at(keys, vals, a) * n >= sum_at(keys, vals, b) * m
                &&& sum_at(keys, vals, a) * n == sum_at(keys, vals, b) * m ==> !text_less(
                    b[0],
                    a[0],
                )
            },
        is_part(best_averages(keys, vals, threshold, limit, offset), all, limit, offset),
{
    lemma_first_seen_distinct(keys);
    let f = first_seen(keys);
    let counts = tallied(keys);
    let many = frequent(counts, threshold, counts.len());
    let rule = average_order(keys, vals);
    lemma_average_ranks(
        Seq::new(f.len(), |g: int| sum_at(keys, vals, f[g])),
        counts,
        Seq::new(f.len(), |g: int| f[g][0]),
    );
    lemma_before_total(rule);
    lemma_frequent_exactly(counts, threshold, counts.len());
    lemma_sorted(many, before(rule));
    let all = many.sort_by(before(rule));
    assert forall|g: usize| #[trigger] all.contains(g) <==> g < f.len() && occurrences(
        keys,
        f[g as int],
    ) > threshold by {
        assert(all.contains(g) <==> many.contains(g));
        if g < f.len() {
            lemma_occurrences(keys, f[g as int]);
            assert(counts[g as int] == occurrences(keys, f[g as int]));
        }
    }
    assert forall|x: int, y: int|
        #![trigger all[x], all[y]]
        0 <= x < y < all.len() implies {
        let (a, b) = (f[all[x] as int], f[all[y] as int]);
        let (m, n) = (occurrences(keys, a), occurrences(keys, b));
        &&& sum_at(keys, vals, a) * n >= sum_at(keys, vals, b) * m
        &&& sum_at(keys, vals, a) * n == sum_at(keys, vals, b) * m ==> !text_less(b[0], a[0])
    } by {
        let (a, b) = (f[all[x] as int], f[all[y] as int]);
        assert(all.contains(all[x]) && all.contains(all[y]));
        lemma_occurrences(keys, a);
        lemma_occurrences(keys, b);
        assert(counts[all[x] as int] == occurrences(keys, a));
        assert(counts[all[y] as int] == occurrences(keys, b));
        assert(before(rule)(all[x], all[y]));
        assert(all[x] != all[y]);
        assert(!rule(all[y], all[x])) by {
            assert(rule(all[x], all[y]) ==> !rule(all[y], all[x]));
        }
    }
    all
}

/// A row with an average length and a count shows the group of a row.
proof fn lemma_counter_cells(
    t: Table,
    q: ParsedQuery,
    rows: Seq<usize>,
    urls: Seq<Seq<char>>,
    i: int,
    want: Seq<CellView>,
)
    requires
        counter_shape(q),
        yields(texts_of(t, "URL"@), Some(urls)),
        keyed(t, q, rows).0.len() == rows.len(),
        0 <= i < rows.len(),
        ({
            let keys = keyed(t, q, rows).0;
            let count = occurrences(keys, keys[i]);
            want == seq![
                shown(keys[i][0]),
                CellView::Ratio { sum: sum_at(keys, url_lengths(urls, rows), keys[i]), count },
                counted(count as int),
            ]
        }),
    ensures
        group_cells(t, q, rows, i, want),
{
    lemma_lengths(t, q.select_items@[1].kind->Avg_0, rows, "URL"@, urls);
    lemma_average_cell(t, q, rows, i, 1, url_lengths(urls, rows));
    lemma_count_cell(t, q, rows, i, 2);
}

/// The counters with the largest average lengths are rows of plain grouping.
proof fn lemma_counters_plain(
    t: Table,
    q: ParsedQuery,
    rows: Seq<usize>,
    out: Seq<Seq<CellView>>,
    number: spec_fn(usize) -> int,
    urls: Seq<Seq<char>>,
)
    requires
        plain_rows(t, q, rows, out),
        rows.len() <= usize::MAX,
        counter_shape(q),
        yields(texts_of(t, "URL"@), Some(urls)),
        text_keyed(t, q, rows, number_keys(number, rows)),
    ensures
        among(counter_averages(q, number, urls, rows).rows, out),
{
    let keys = number_keys(number, rows);
    let lengths = url_lengths(urls, rows);
    let threshold = threshold_of(q.having)->Some_0;
    let all = counter_averages(q, number, urls, rows).rows;
    lemma_text_keyed(t, q, rows, out, keys);
    assert forall|p: int| 0 <= p < all.len() implies out.contains(#[trigger] all[p]) by {
        lemma_best_averages(keys, lengths, threshold, query_limit(q), query_offset(q), p);
        let g = best_averages(keys, lengths, threshold, query_limit(q), query_offset(q))[p] as int;
        let i = lemma_first_place(keys, g);
        lemma_occurrences(keys, keys[i]);
        assert(all[p] == average_row(keys, lengths, g));
        lemma_counter_cells(t, q, rows, urls, i, all[p]);
        lemma_plain_shows(t, q, rows, out, i, all[p]);
    }
}

/// The columns that lengths are averaged by and of.
proof fn lemma_counter(t: Table, q: ParsedQuery, n: nat, rows: Seq<usize>, r: ResultView) -> (k: (
    spec_fn(usize) -> int,
    Seq<Seq<char>>,
))
    requires
        yields(chosen(t, q, n), Some(rows)),
        yields(counter_result(t, q, n), Some(r)),
    ensures
        counter_shape(q),
        yields(texts_of(t, "URL"@), Some(k.1)),
        text_keyed(t, q, rows, number_keys(k.0, rows)),
        r == counter_averages(q, k.0, k.1, rows),
{
    let c = column_of(t, "CounterID"@)->Ok_0;
    let urls = texts_of(t, "URL"@)->Ok_0->Some_0;
    let number = counter_numbers(c)->Some_0;
    lemma_one_column(t, q, rows, c, number_keys(number, rows));
    (number, urls)
}

/// What averages the lengths of addresses by counter shows rows of plain grouping.
pub proof fn law_counter_plain(
    t: Table,
    q: ParsedQuery,
    n: nat,
    rows: Seq<usize>,
    out: Seq<Seq<CellView>>,
    r: ResultView,
)
    requires
        yields(chosen(t, q, n), Some(rows)),
        rows.len() <= usize::MAX,
        yields(counter_result(t, q, n), Some(r)),
        plain_rows(t, q, rows, out),
    ensures
        among(r.rows, out),
{
    let (number, urls) = lemma_counter(t, q, n, rows, r);
    lemma_counters_plain(t, q, rows, out, number, urls);
}

/// Whether a query groups by an expression that takes the host, or by an alias that stands
/// for it.
pub open spec fn groups_host(q: ParsedQuery) -> bool {
    q.group_by@.len() == 1 && takes_host(resolved(q.group_by@[0], q.select_items@))
}

/// The hosts of referers are the keys of rows that are grouped by these.
proof fn lemma_host_keyed(t: Table, q: ParsedQuery, rows: Seq<usize>, strs: Seq<Seq<char>>)
    requires
        groups_host(q),
        yields(texts_of(t, "Referer"@), Some(strs)),
    ensures
        text_keyed(t, q, rows, host_keys(strs, rows)),
{
    let keys = host_keys(strs, rows);
    assert forall|i: int| 0 <= i < rows.len() implies parts_of(
        t,
        q,
        rows[i] as int,
        #[trigger] keys[i],
    ) by {
        lemma_host_part(t, q, rows[i] as int, strs);
    }
}

/// The text of a host is the host.
proof fn lemma_host_part(t: Table, q: ParsedQuery, row: int, strs: Seq<Seq<char>>)
    requires
        groups_host(q),
        yields(texts_of(t, "Referer"@), Some(strs)),
    ensures
        key_part(t, q, row, 0, host_of(strs[row])),
{
    reveal(key_part);
    reveal_with_fuel(text_of, 2);
    reveal_strlit("REGEXP_REPLACE");
    reveal_strlit("DATE_TRUNC");
    assert("REGEXP_REPLACE"@ != "DATE_TRUNC"@) by {
        assert("REGEXP_REPLACE"@.len() != "DATE_TRUNC"@.len());
    }
}

/// A row with an average length, a count and a smallest referer shows the group of a row.
proof fn lemma_host_cells(
    t: Table,
    q: ParsedQuery,
    rows: Seq<usize>,
    strs: Seq<Seq<char>>,
    i: int,
    want: Seq<CellView>,
)
    requires
        q29_shape(q),
        yields(texts_of(t, "Referer"@), Some(strs)),
        keyed(t, q, rows).0.len() == rows.len(),
        0 <= i < rows.len(),
        ({
            let keys = keyed(t, q, rows).0;
            let count = occurrences(keys, keys[i]);
            want == seq![
                shown(keys[i][0]),
                CellView::Ratio { sum: sum_at(keys, url_lengths(strs, rows), keys[i]), count },
                counted(count as int),
                shown(strs[least_row(keys, rows, strs, keys[i])->Some_0 as int]),
            ]
        }),
    ensures
        group_cells(t, q, rows, i, want),
{
    lemma_lengths(t, q.select_items@[1].kind->Avg_0, rows, "Referer"@, strs);
    lemma_average_cell(t, q, rows, i, 1, url_lengths(strs, rows));
    lemma_count_cell(t, q, rows, i, 2);
    lemma_least_cell(t, q, rows, i, 3, strs);
}

/// The hosts with the largest average lengths are rows of plain grouping.
proof fn lemma_hosts_plain(
    t: Table,
    q: ParsedQuery,
    rows: Seq<usize>,
    out: Seq<Seq<CellView>>,
    strs: Seq<Seq<char>>,
)
    requires
        plain_rows(t, q, rows, out),
        rows.len() <= usize::MAX,
        q29_shape(q),
        threshold_of(q.having) is Some,
        yields(texts_of(t, "Referer"@), Some(strs)),
        text_keyed(t, q, rows, host_keys(strs, rows)),
    ensures
        among(hosts_ranked(q, strs, rows).rows, out),
{
    let keys = host_keys(strs, rows);
    let lengths = url_lengths(strs, rows);
    let threshold = threshold_of(q.having)->Some_0;
    let all = hosts_ranked(q, strs, rows).rows;
    lemma_text_keyed(t, q, rows, out, keys);
    assert forall|p: int| 0 <= p < all.len() implies out.contains(#[trigger] all[p]) by {
        lemma_best_averages(keys, lengths, threshold, query_limit(q), query_offset(q), p);
        let g = best_averages(keys, lengths, threshold, query_limit(q), query_offset(q))[p] as int;
        let i = lemma_first_place(keys, g);
        lemma_occurrences(keys, keys[i]);
        assert(all[p] == host_cells(strs, rows, g));
        lemma_host_cells(t, q, rows, strs, i, all[p]);
        lemma_plain_shows(t, q, rows, out, i, all[p]);
    }
}

/// What averages the lengths of referers by host shows rows of plain grouping, unless the
/// host is an alias that another projection has before it.
pub proof fn law_host_averages_plain(
    t: Table,
    q: ParsedQuery,
    n: nat,
    rows: Seq<usize>,
    out: Seq<Seq<CellView>>,
    r: ResultView,
)
    requires
        groups_host(q),
        yields(chosen(t, q, n), Some(rows)),
        rows.len() <= usize::MAX,
        yields(q29_result(t, q, n), Some(r)),
        plain_rows(t, q, rows, out),
    ensures
        among(r.rows, out),
{
    let strs = texts_of(t, "Referer"@)->Ok_0->Some_0;
    lemma_host_keyed(t, q, rows, strs);
    lemma_hosts_plain(t, q, rows, out, strs);
}

/// The referers that grouping by host takes the hosts of.
proof fn lemma_host_answer(t: Table, q: ParsedQuery, n: nat, rows: Seq<usize>, a: AnswerView) -> (strs:
    Seq<Seq<char>>)
    requires
        yields(chosen(t, q, n), Some(rows)),
        yields(host_answer(t, q, n), Some(a)),
    ensures
        yields(texts_of(t, "Referer"@), Some(strs)),
        yields(grouped(t, q, host_keys(strs, rows), rows), answer_rows(a)),
{
    let strs = texts_of(t, "Referer"@)->Ok_0->Some_0;
    assert(host_keys(strs, rows) =~= crate::exec::group_referrer::host_keys(strs, rows));
    strs
}

/// What groups by host shows the rows of plain grouping, all of them and in the same order,
/// unless the host is an alias that another projection has before it.
pub proof fn law_host_groups_plain(
    t: Table,
    q: ParsedQuery,
    n: nat,
    rows: Seq<usize>,
    out: Seq<Seq<CellView>>,
    a: AnswerView,
)
    requires
        groups_host(q),
        yields(chosen(t, q, n), Some(rows)),
        yields(host_answer(t, q, n), Some(a)),
        plain_rows(t, q, rows, out),
    ensures
        answer_rows(a) == out,
{
    let strs = lemma_host_answer(t, q, n, rows, a);
    let keys = host_keys(strs, rows);
    lemma_host_keyed(t, q, rows, strs);
    lemma_text_keyed(t, q, rows, out, keys);
    assert(agree(keys, keyed(t, q, rows).0));
    lemma_plain_groups(t, q, rows, out, keys, answer_rows(a));
}

} // verus!
