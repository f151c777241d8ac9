//! What is grouped by texts, alone or with integers, is rows of plain grouping.
use crate::error::yields;
use crate::exec::agg_heap::window;
use crate::exec::agg_sort::{runs, sorted_keys, top_runs, widened};
use crate::exec::group::{grouped, keyed, resolved, AnswerView};
use crate::exec::group_fused_pair::wants_top;
use crate::exec::group_fused_phrase::{
    frequent_pairs, frequent_triples, in_order, int_utf8_count_answer, int_utf8_grouped, numbers_of,
    pair_text_keys, q19_keys, q19_result, takes_minute, triple_text_keys, user_minute_phrases,
    user_phrase_pairs,
};
use crate::exec::group_fused_q11::q11_result;
use crate::exec::group_fused_q22::{least_row, least_rows, q22_result, q22_shape};
use crate::exec::group_fused_text::{
    distinct_ints, distinct_texts, int16_utf8_distinct_result, int64_count_result, int_and_text,
    one_text_column, phrases, text_groupings, two_text_columns, utf8_distinct_result,
    utf8_pair_distinct_result,
};
use crate::exec::group_int::int_key;
use crate::exec::group_utf8::{columns_of, text_columns, text_key, text_row_keys, utf8_answer, utf8_plan};
use crate::exec::grouping::tallied;
use crate::exec::hash::{
    first_seen, lemma_first_seen_distinct, lemma_occurrences, occurrences, place,
};
use crate::exec::kernel::{
    chosen, count_sorted, counted_texts, group_name, i16s_of, i64s_of, mapped, shows_counts,
    shows_different, texts_of, times_of, with_count,
};
use crate::exec::kernel_rows::{
    among, answer_rows, as_declared, distinct_values, groups_column, lemma_count_row_plain,
    lemma_counted_texts_plain, lemma_distinct_texts_plain, lemma_in_order_plain, lemma_one_column,
    lemma_sorted_among, lemma_top_runs_count, lemma_two_columns,
};
use crate::exec::page_laws::{
    is_best_page, lemma_count_sorted_page, lemma_counted_texts_page, lemma_distinct_texts_page,
    lemma_group_is, lemma_groups_len, lemma_in_order_is_plain, lemma_text_runs_page,
};
use crate::exec::plain_rows::{
    agree, group_cells, key_part, lemma_count_cell, lemma_first_place, lemma_group_rows_agree,
    lemma_key_parts, lemma_least_cell, lemma_matching, lemma_named_part, lemma_plain_keyed,
    lemma_plain_shows, lemma_text_keyed, matching, parts_of, plain_rows,
    text_keyed,
};
use crate::exec::result::{counted, query_limit, query_offset, shown, CellView, ResultView};
use crate::exec::sorting::to_sort;
use crate::expr::eval::{column_of, int_of};
use crate::expr::time::minute_of_hour;
use crate::sql::ast::{Expr, ParsedQuery};
use crate::storage::column::ColumnView;
use crate::storage::table::Table;
use crate::text::{decimal, law_decimal_injective};
use vstd::prelude::*;

verus! {

/// A row with a smallest address and a count shows the group of a row.
proof fn lemma_least_shown(
    t: Table,
    q: ParsedQuery,
    rows: Seq<usize>,
    urls: Seq<Seq<char>>,
    i: int,
    want: Seq<CellView>,
)
    requires
        keyed(t, q, rows).0.len() == rows.len() <= usize::MAX,
        0 <= i < rows.len(),
        q22_shape(q),
        yields(texts_of(t, "URL"@), Some(urls)),
        ({
            let keys = keyed(t, q, rows).0;
            want == seq![
                shown(keys[i][0]),
                shown(urls[least_row(keys, rows, urls, keys[i])->Some_0 as int]),
                counted(occurrences(keys, keys[i]) as int),
            ]
        }),
    ensures
        group_cells(t, q, rows, i, want),
{
    lemma_least_cell(t, q, rows, i, 1, urls);
    lemma_count_cell(t, q, rows, i, 2);
}

/// Phrases with their smallest address and their count are rows of plain grouping.
proof fn lemma_least_rows_plain(
    t: Table,
    q: ParsedQuery,
    rows: Seq<usize>,
    out: Seq<Seq<CellView>>,
    keys: Seq<Seq<Seq<char>>>,
    urls: Seq<Seq<char>>,
)
    requires
        plain_rows(t, q, rows, out),
        rows.len() <= usize::MAX,
        q22_shape(q),
        yields(texts_of(t, "URL"@), Some(urls)),
        text_keyed(t, q, rows, keys),
    ensures
        among(least_rows(keys, rows, urls), out),
        least_rows(keys, rows, urls) == out,
        forall|g: int| 0 <= g < out.len() ==> (#[trigger] out[g])[2] == counted(
            tallied(keys)[g] as int,
        ),
{
    lemma_text_keyed(t, q, rows, out, keys);
    let all = least_rows(keys, rows, urls);
    lemma_groups_len(t, q, rows, out, keys);
    assert forall|g: int| 0 <= g < all.len() implies out.contains(#[trigger] all[g]) && all[g]
        == out[g] && all[g][2] == counted(tallied(keys)[g] as int) by {
        let i = lemma_first_place(keys, g);
        lemma_occurrences(keys, keys[i]);
        lemma_least_shown(t, q, rows, urls, i, all[g]);
        lemma_plain_shows(t, q, rows, out, i, all[g]);
        lemma_group_is(t, q, rows, out, keys, g, i, all[g]);
    }
    assert(all =~= out);
}

/// The keys and the values that different users are counted by and of.
proof fn lemma_int16_text_distinct(
    t: Table,
    q: ParsedQuery,
    n: nat,
    rows: Seq<usize>,
    r: ResultView,
) -> (k: (Seq<Seq<Seq<char>>>, Seq<i64>))
    requires
        yields(chosen(t, q, n), Some(rows)),
        yields(int16_utf8_distinct_result(t, q, n), Some(r)),
    ensures
        r == distinct_texts(q, k.0, k.1),
        text_keyed(t, q, rows, k.0),
        shows_different(q),
        distinct_values(t, q, rows, k.1),
{
    let (a, b) = int_and_text(t, q, true)->Some_0;
    let d = distinct_ints(t, q)->Some_0;
    let ints = i16s_of(t, a)->Ok_0->Some_0;
    let strs = texts_of(t, b)->Ok_0->Some_0;
    let users = i64s_of(t, d)->Ok_0->Some_0;
    let keys = mapped(rows, |r: usize| seq![decimal(ints[r as int] as int), strs[r as int]]);
    let vals = mapped(rows, |r: usize| users[r as int]);
    assert(r == distinct_texts(q, keys, vals));
    lemma_two_columns(t, q, rows, ColumnView::Int16(ints), ColumnView::Utf8(strs), keys);
    (keys, vals)
}

/// What counts different users by a 16-bit column and a text column shows rows of plain
/// grouping.
pub proof fn law_int16_text_distinct_plain(
    t: Table,
    q: ParsedQuery,
    n: nat,
    rows: Seq<usize>,
    out: Seq<Seq<CellView>>,
    r: ResultView,
)
    requires
        yields(chosen(t, q, n), Some(rows)),
        rows.len() <= usize::MAX,
        yields(int16_utf8_distinct_result(t, q, n), Some(r)),
        plain_rows(t, q, rows, out),
    ensures
        among(r.rows, out),
        is_best_page(q, r.rows, out, q.group_by@.len() as int),
{
    let (keys, vals) = lemma_int16_text_distinct(t, q, n, rows, r);
    lemma_distinct_texts_plain(t, q, rows, out, keys, vals);
    lemma_distinct_texts_page(t, q, rows, out, keys, vals);
}

/// The keys and the values that different users are counted by and of.
proof fn lemma_text_pair_distinct(
    t: Table,
    q: ParsedQuery,
    n: nat,
    rows: Seq<usize>,
    r: ResultView,
) -> (k: (Seq<Seq<Seq<char>>>, Seq<i64>))
    requires
        yields(chosen(t, q, n), Some(rows)),
        yields(utf8_pair_distinct_result(t, q, n), Some(r)),
    ensures
        r == distinct_texts(q, k.0, k.1),
        text_keyed(t, q, rows, k.0),
        shows_different(q),
        distinct_values(t, q, rows, k.1),
{
    let (a, b) = two_text_columns(t, q)->Some_0;
    let d = distinct_ints(t, q)->Some_0;
    let firsts = texts_of(t, a)->Ok_0->Some_0;
    let seconds = texts_of(t, b)->Ok_0->Some_0;
    let users = i64s_of(t, d)->Ok_0->Some_0;
    let keys = mapped(rows, |r: usize| seq![firsts[r as int], seconds[r as int]]);
    let vals = mapped(rows, |r: usize| users[r as int]);
    assert(r == distinct_texts(q, keys, vals));
    lemma_two_columns(t, q, rows, ColumnView::Utf8(firsts), ColumnView::Utf8(seconds), keys);
    (keys, vals)
}

/// What counts different users by two text columns shows rows of plain grouping.
pub proof fn law_text_pair_distinct_plain(
    t: Table,
    q: ParsedQuery,
    n: nat,
    rows: Seq<usize>,
    out: Seq<Seq<CellView>>,
    r: ResultView,
)
    requires
        yields(chosen(t, q, n), Some(rows)),
        rows.len() <= usize::MAX,
        yields(utf8_pair_distinct_result(t, q, n), Some(r)),
        plain_rows(t, q, rows, out),
    ensures
        among(r.rows, out),
        is_best_page(q, r.rows, out, q.group_by@.len() as int),
{
    let (keys, vals) = lemma_text_pair_distinct(t, q, n, rows, r);
    lemma_distinct_texts_plain(t, q, rows, out, keys, vals);
    lemma_distinct_texts_page(t, q, rows, out, keys, vals);
}

/// Whether a query groups by the column of phrases, and by nothing else that goes by its
/// name.
pub open spec fn names_phrase(q: ParsedQuery) -> bool {
    group_name(q.group_by@[0], q) == Some("SearchPhrase"@)
}

/// The addresses that the smallest of are shown with phrases.
proof fn lemma_least_text(
    t: Table,
    q: ParsedQuery,
    n: nat,
    rows: Seq<usize>,
    r: ResultView,
) -> (k: (Seq<Seq<Seq<char>>>, Seq<Seq<char>>))
    requires
        names_phrase(q),
        yields(chosen(t, q, n), Some(rows)),
        yields(q22_result(t, q, n), Some(r)),
    ensures
        r == count_sorted(q, tallied(k.0), least_rows(k.0, rows, k.1)),
        q22_shape(q),
        yields(texts_of(t, "URL"@), Some(k.1)),
        text_keyed(t, q, rows, k.0),
{
    let strs = texts_of(t, "SearchPhrase"@)->Ok_0->Some_0;
    let urls = texts_of(t, "URL"@)->Ok_0->Some_0;
    let keys = phrases(strs, rows);
    lemma_one_column(t, q, rows, ColumnView::Utf8(strs), keys);
    (keys, urls)
}

/// What shows phrases with their smallest address shows rows of plain grouping, unless
/// another column has the name of the phrases as an alias.
pub proof fn law_least_text_plain(
    t: Table,
    q: ParsedQuery,
    n: nat,
    rows: Seq<usize>,
    out: Seq<Seq<CellView>>,
    r: ResultView,
)
    requires
        names_phrase(q),
        yields(chosen(t, q, n), Some(rows)),
        rows.len() <= usize::MAX,
        yields(q22_result(t, q, n), Some(r)),
        plain_rows(t, q, rows, out),
    ensures
        among(r.rows, out),
        is_best_page(q, r.rows, out, 2),
{
    let (keys, urls) = lemma_least_text(t, q, n, rows, r);
    lemma_least_rows_plain(t, q, rows, out, keys, urls);
    lemma_first_seen_distinct(keys);
    lemma_sorted_among(q, tallied(keys), least_rows(keys, rows, urls), out);
    lemma_count_sorted_page(q, tallied(keys), out, 2);
}

/// A user and the number of a phrase stand together just where the texts of both do.
proof fn lemma_user_phrases_agree(
    users: spec_fn(usize) -> i64,
    strs: Seq<Seq<char>>,
    rows: Seq<usize>,
    i: int,
)
    requires
        rows.len() <= usize::MAX,
        0 <= i < rows.len(),
    ensures
        ({
            let wide = widened(user_phrase_pairs(users, strs, rows));
            &&& matching(
                wide,
                wide[i],
                pair_text_keys(users, strs, rows),
                pair_text_keys(users, strs, rows)[i],
            )
            &&& wide[i].0 == users(rows[i])
            &&& 0 <= wide[i].2 < first_seen(phrases(strs, rows)).len()
            &&& first_seen(phrases(strs, rows))[wide[i].2 as int][0] == strs[rows[i] as int]
        }),
{
    let wide = widened(user_phrase_pairs(users, strs, rows));
    let keys = pair_text_keys(users, strs, rows);
    let texts = phrases(strs, rows);
    lemma_phrase_number(texts, i);
    assert(texts[i][0] == strs[rows[i] as int]);
    assert forall|k: int| 0 <= k < wide.len() implies (#[trigger] wide[k] == wide[i] <==> keys[k]
        == keys[i]) by {
        lemma_phrase_number(texts, k);
        assert(texts[k][0] == strs[rows[k] as int]);
        if keys[k] == keys[i] {
            assert(keys[k][0] == keys[i][0] && keys[k][1] == keys[i][1]);
            law_decimal_injective(users(rows[k]) as int, users(rows[i]) as int);
            assert(texts[k] =~= texts[i]);
        }
        if wide[k] == wide[i] {
            assert(texts[k] == texts[i]);
            assert(keys[k] =~= keys[i]);
        }
    }
}

/// The number of a key is the place of the key.
proof fn lemma_phrase_number(keys: Seq<Seq<Seq<char>>>, i: int)
    requires
        keys.len() <= usize::MAX,
        0 <= i < keys.len(),
    ensures
        0 <= (numbers_of(keys)[i] as u64) < first_seen(keys).len(),
        first_seen(keys)[(numbers_of(keys)[i] as u64) as int] == keys[i],
{
    lemma_first_seen_distinct(keys);
    assert(keys.contains(keys[i]));
    assert(first_seen(keys).contains(keys[i]));
    let p = place(first_seen(keys), keys[i]);
    assert(0 <= p < first_seen(keys).len() && first_seen(keys)[p] == keys[i]);
}

/// The most frequent pairs of a number and a text are rows of plain grouping.
proof fn lemma_frequent_pairs_plain(
    t: Table,
    q: ParsedQuery,
    rows: Seq<usize>,
    out: Seq<Seq<CellView>>,
    users: spec_fn(usize) -> i64,
    strs: Seq<Seq<char>>,
    limit: usize,
    offset: usize,
)
    requires
        plain_rows(t, q, rows, out),
        rows.len() <= usize::MAX,
        q.group_by@.len() == 2,
        shows_counts(q),
        text_keyed(t, q, rows, pair_text_keys(users, strs, rows)),
    ensures
        among(frequent_pairs(users, strs, rows, limit, offset), out),
{
    let keys = pair_text_keys(users, strs, rows);
    let wide = widened(user_phrase_pairs(users, strs, rows));
    let best = top_runs(runs(sorted_keys(wide)), limit, offset);
    let all = frequent_pairs(users, strs, rows, limit, offset);
    lemma_text_keyed(t, q, rows, out, keys);
    assert forall|p: int| 0 <= p < all.len() implies out.contains(#[trigger] all[p]) by {
        lemma_top_runs_count(wide, limit, offset, p);
        let i = choose|i: int| 0 <= i < wide.len() && wide[i] == best[p].0;
        lemma_user_phrases_agree(users, strs, rows, i);
        lemma_matching(wide, wide[i], keys, keys[i], Seq::empty(), Seq::empty(), Seq::empty());
        lemma_count_row_plain(t, q, rows, out, i, best[p].1);
        assert(all[p] =~= with_count(keys[i], best[p].1));
    }
}

/// What is counted by a number and a text is rows of plain grouping.
proof fn lemma_int_text_plain(
    t: Table,
    q: ParsedQuery,
    rows: Seq<usize>,
    out: Seq<Seq<CellView>>,
    users: spec_fn(usize) -> i64,
    strs: Seq<Seq<char>>,
    a: AnswerView,
)
    requires
        plain_rows(t, q, rows, out),
        rows.len() <= usize::MAX,
        q.group_by@.len() == 2,
        shows_counts(q),
        text_keyed(t, q, rows, pair_text_keys(users, strs, rows)),
        yields(int_utf8_grouped(q, users, strs, rows), Some(a)),
    ensures
        among(answer_rows(a), out),
{
    let keys = pair_text_keys(users, strs, rows);
    lemma_in_order_plain(t, q, rows, out, keys);
    if wants_top(q) {
        lemma_frequent_pairs_plain(
            t,
            q,
            rows,
            out,
            users,
            strs,
            query_limit(q),
            query_offset(q),
        );
    } else if q.order_by@.len() == 0 {
        let part = answer_rows(a);
        assert forall|p: int| 0 <= p < part.len() implies out.contains(#[trigger] part[p]) by {
            assert(part[p] == in_order(keys)[p + query_offset(q)]);
        }
    }
}

/// The most frequent pairs are a page of all pairs, by descending count.
proof fn lemma_frequent_pairs_page(
    q: ParsedQuery,
    users: spec_fn(usize) -> i64,
    strs: Seq<Seq<char>>,
    rows: Seq<usize>,
)
    requires
        rows.len() <= usize::MAX,
    ensures
        is_best_page(
            q,
            frequent_pairs(users, strs, rows, query_limit(q), query_offset(q)),
            in_order(pair_text_keys(users, strs, rows)),
            2,
        ),
{
    let keys = pair_text_keys(users, strs, rows);
    let wide = widened(user_phrase_pairs(users, strs, rows));
    let best = top_runs(runs(sorted_keys(wide)), query_limit(q), query_offset(q));
    let all = frequent_pairs(users, strs, rows, query_limit(q), query_offset(q));
    assert forall|i: int, k: int| 0 <= i < wide.len() && 0 <= k < wide.len() implies (
    #[trigger] wide[i] == #[trigger] wide[k] <==> keys[i] == keys[k]) by {
        lemma_user_phrases_agree(users, strs, rows, k);
    }
    assert forall|p: int, i: int|
        #![trigger all[p], keys[i]]
        0 <= p < all.len() && 0 <= i < wide.len() && wide[i] == best[p].0 implies all[p]
        == with_count(keys[i], best[p].1) by {
        lemma_user_phrases_agree(users, strs, rows, i);
        assert(all[p] =~= with_count(keys[i], best[p].1));
    }
    lemma_text_runs_page(q, wide, keys, all, 2);
}

/// The columns that rows are counted by.
proof fn lemma_int_text_count(t: Table, q: ParsedQuery, n: nat, rows: Seq<usize>, a: AnswerView) -> (k:
    (spec_fn(usize) -> i64, Seq<Seq<char>>))
    requires
        as_declared(t),
        yields(chosen(t, q, n), Some(rows)),
        yields(int_utf8_count_answer(t, q, n), Some(a)),
    ensures
        q.group_by@.len() == 2,
        shows_counts(q),
        text_keyed(t, q, rows, pair_text_keys(k.0, k.1, rows)),
        yields(int_utf8_grouped(q, k.0, k.1, rows), Some(a)),
{
    let (first, second) = int_and_text(t, q, false)->Some_0;
    assert(t.has(first));
    let c = column_of(t, first)->Ok_0;
    let strs = texts_of(t, second)->Ok_0->Some_0;
    let users = |r: usize| int_key(c, r as int);
    lemma_two_columns(
        t,
        q,
        rows,
        c,
        ColumnView::Utf8(strs),
        pair_text_keys(users, strs, rows),
    );
    (users, strs)
}

/// What counts rows by an integer column and a text column shows rows of plain grouping.
pub proof fn law_int_text_count_plain(
    t: Table,
    q: ParsedQuery,
    n: nat,
    rows: Seq<usize>,
    out: Seq<Seq<CellView>>,
    a: AnswerView,
)
    requires
        as_declared(t),
        yields(chosen(t, q, n), Some(rows)),
        rows.len() <= usize::MAX,
        yields(int_utf8_count_answer(t, q, n), Some(a)),
        plain_rows(t, q, rows, out),
    ensures
        among(answer_rows(a), out),
        match a {
            AnswerView::Done(r) => if wants_top(q) {
                is_best_page(q, r.rows, out, 2)
            } else {
                q.order_by@.len() == 0 && r.rows == window(
                    out,
                    query_limit(q) as nat,
                    query_offset(q) as nat,
                )
            },
            AnswerView::Sort(u) => u == to_sort(q, out),
        },
{
    let (users, strs) = lemma_int_text_count(t, q, n, rows, a);
    lemma_int_text_plain(t, q, rows, out, users, strs, a);
    lemma_frequent_pairs_page(q, users, strs, rows);
    lemma_in_order_is_plain(t, q, rows, out, pair_text_keys(users, strs, rows));
}

/// The keys and the values that are counted by and of.
proof fn lemma_text_distinct(
    t: Table,
    q: ParsedQuery,
    n: nat,
    rows: Seq<usize>,
    r: ResultView,
) -> (k: (Seq<Seq<Seq<char>>>, Seq<i64>))
    requires
        yields(chosen(t, q, n), Some(rows)),
        yields(utf8_distinct_result(t, q, n), Some(r)),
    ensures
        r == distinct_texts(q, k.0, k.1),
        text_keyed(t, q, rows, k.0),
        shows_different(q),
        distinct_values(t, q, rows, k.1),
{
    reveal_with_fuel(text_groupings, 2);
    let a = one_text_column(t, q)->Some_0;
    let d = distinct_ints(t, q)->Some_0;
    let strs = texts_of(t, a)->Ok_0->Some_0;
    let data = i64s_of(t, d)->Ok_0->Some_0;
    let keys = phrases(strs, rows);
    let vals = mapped(rows, |r: usize| data[r as int]);
    assert(r == distinct_texts(q, keys, vals));
    assert(groups_column(t, q, 0, ColumnView::Utf8(strs)));
    lemma_one_column(t, q, rows, ColumnView::Utf8(strs), keys);
    (keys, vals)
}

/// What counts the different values of a column by a text column shows rows of plain
/// grouping.
pub proof fn law_text_distinct_plain(
    t: Table,
    q: ParsedQuery,
    n: nat,
    rows: Seq<usize>,
    out: Seq<Seq<CellView>>,
    r: ResultView,
)
    requires
        yields(chosen(t, q, n), Some(rows)),
        rows.len() <= usize::MAX,
        yields(utf8_distinct_result(t, q, n), Some(r)),
        plain_rows(t, q, rows, out),
    ensures
        among(r.rows, out),
        is_best_page(q, r.rows, out, q.group_by@.len() as int),
{
    let (keys, vals) = lemma_text_distinct(t, q, n, rows, r);
    lemma_distinct_texts_plain(t, q, rows, out, keys, vals);
    lemma_distinct_texts_page(t, q, rows, out, keys, vals);
}

/// The keys of texts that rows are counted by.
proof fn lemma_int64_count(t: Table, q: ParsedQuery, n: nat, rows: Seq<usize>, r: ResultView) -> (keys:
    Seq<Seq<Seq<char>>>)
    requires
        yields(chosen(t, q, n), Some(rows)),
        yields(int64_count_result(t, q, n), Some(r)),
    ensures
        r == counted_texts(q, keys),
        text_keyed(t, q, rows, keys),
        shows_counts(q),
{
    let data = i64s_of(t, group_name(q.group_by@[0], q)->Some_0)->Ok_0->Some_0;
    let keys = mapped(rows, |r: usize| seq![decimal(data[r as int] as int)]);
    lemma_one_column(t, q, rows, ColumnView::Int64(data), keys);
    keys
}

/// What counts rows by a 64-bit column shows rows of plain grouping.
pub proof fn law_int64_count_plain(
    t: Table,
    q: ParsedQuery,
    n: nat,
    rows: Seq<usize>,
    out: Seq<Seq<CellView>>,
    r: ResultView,
)
    requires
        yields(chosen(t, q, n), Some(rows)),
        rows.len() <= usize::MAX,
        yields(int64_count_result(t, q, n), Some(r)),
        plain_rows(t, q, rows, out),
    ensures
        among(r.rows, out),
        is_best_page(q, r.rows, out, q.group_by@.len() as int),
{
    let keys = lemma_int64_count(t, q, n, rows, r);
    lemma_counted_texts_plain(t, q, rows, out, keys);
    lemma_counted_texts_page(t, q, rows, out, keys);
}

/// The texts of a user, a minute and a phrase are the keys of rows that are grouped by
/// these.
proof fn lemma_triple_keyed(
    t: Table,
    q: ParsedQuery,
    rows: Seq<usize>,
    users: Seq<i64>,
    times: Seq<i64>,
    strs: Seq<Seq<char>>,
)
    requires
        q19_keys(q),
        yields(i64s_of(t, "UserID"@), Some(users)),
        yields(times_of(t, "EventTime"@), Some(times)),
        yields(texts_of(t, "SearchPhrase"@), Some(strs)),
    ensures
        text_keyed(t, q, rows, triple_text_keys(users, times, strs, rows)),
{
    let keys = triple_text_keys(users, times, strs, rows);
    assert forall|i: int| 0 <= i < rows.len() implies parts_of(
        t,
        q,
        rows[i] as int,
        #[trigger] keys[i],
    ) by {
        let row = rows[i] as int;
        lemma_named_part(t, q, row, 0, ColumnView::Int64(users), keys[i][0]);
        lemma_named_part(t, q, row, 2, ColumnView::Utf8(strs), keys[i][2]);
        lemma_minute_part(t, q, row, times);
    }
}

/// The text of a minute is its numeral.
proof fn lemma_minute_part(t: Table, q: ParsedQuery, row: int, times: Seq<i64>)
    requires
        takes_minute(resolved(q.group_by@[1], q.select_items@)),
        yields(times_of(t, "EventTime"@), Some(times)),
    ensures
        key_part(t, q, row, 1, decimal(minute_of_hour(times[row] as int))),
{
    reveal(key_part);
    reveal_with_fuel(int_of, 2);
    match resolved(q.group_by@[1], q.select_items@) {
        Expr::Extract { field, expr } => {
            assert(yields(int_of(t, *expr, row), times[row]));
        },
        _ => {},
    }
}

/// A user, a minute and the number of a phrase stand together just where the texts of all
/// do.
proof fn lemma_triples_agree(
    users: Seq<i64>,
    times: Seq<i64>,
    strs: Seq<Seq<char>>,
    rows: Seq<usize>,
    i: int,
)
    requires
        rows.len() <= usize::MAX,
        0 <= i < rows.len(),
    ensures
        ({
            let wide = user_minute_phrases(users, times, strs, rows);
            &&& matching(
                wide,
                wide[i],
                triple_text_keys(users, times, strs, rows),
                triple_text_keys(users, times, strs, rows)[i],
            )
            &&& wide[i].0 == users[rows[i] as int]
            &&& wide[i].1 == minute_of_hour(times[rows[i] as int] as int)
            &&& 0 <= wide[i].2 < first_seen(phrases(strs, rows)).len()
            &&& first_seen(phrases(strs, rows))[wide[i].2 as int][0] == strs[rows[i] as int]
        }),
{
    let wide = user_minute_phrases(users, times, strs, rows);
    let keys = triple_text_keys(users, times, strs, rows);
    let texts = phrases(strs, rows);
    lemma_phrase_number(texts, i);
    assert(texts[i][0] == strs[rows[i] as int]);
    assert forall|k: int| 0 <= k < wide.len() implies (#[trigger] wide[k] == wide[i] <==> keys[k]
        == keys[i]) by {
        lemma_phrase_number(texts, k);
        assert(texts[k][0] == strs[rows[k] as int]);
        if keys[k] == keys[i] {
            assert(keys[k][0] == keys[i][0] && keys[k][1] == keys[i][1] && keys[k][2]
                == keys[i][2]);
            law_decimal_injective(users[rows[k] as int] as int, users[rows[i] as int] as int);
            law_decimal_injective(
                minute_of_hour(times[rows[k] as int] as int),
                minute_of_hour(times[rows[i] as int] as int),
            );
            assert(texts[k] =~= texts[i]);
        }
        if wide[k] == wide[i] {
            assert(texts[k] == texts[i]);
            assert(keys[k] =~= keys[i]);
        }
    }
}

/// The most frequent triples of a user, a minute and a phrase are rows of plain grouping.
proof fn lemma_frequent_triples_plain(
    t: Table,
    q: ParsedQuery,
    rows: Seq<usize>,
    out: Seq<Seq<CellView>>,
    users: Seq<i64>,
    times: Seq<i64>,
    strs: Seq<Seq<char>>,
    limit: usize,
    offset: usize,
)
    requires
        plain_rows(t, q, rows, out),
        rows.len() <= usize::MAX,
        q.group_by@.len() == 3,
        shows_counts(q),
        text_keyed(t, q, rows, triple_text_keys(users, times, strs, rows)),
    ensures
        among(frequent_triples(users, times, strs, rows, limit, offset), out),
{
    let keys = triple_text_keys(users, times, strs, rows);
    let wide = user_minute_phrases(users, times, strs, rows);
    let best = top_runs(runs(sorted_keys(wide)), limit, offset);
    let all = frequent_triples(users, times, strs, rows, limit, offset);
    lemma_text_keyed(t, q, rows, out, keys);
    assert forall|p: int| 0 <= p < all.len() implies out.contains(#[trigger] all[p]) by {
        lemma_top_runs_count(wide, limit, offset, p);
        let i = choose|i: int| 0 <= i < wide.len() && wide[i] == best[p].0;
        lemma_triples_agree(users, times, strs, rows, i);
        lemma_matching(wide, wide[i], keys, keys[i], Seq::empty(), Seq::empty(), Seq::empty());
        lemma_count_row_plain(t, q, rows, out, i, best[p].1);
        assert(all[p] =~= with_count(keys[i], best[p].1));
    }
}

/// The most frequent triples are a page of all triples, by descending count.
proof fn lemma_frequent_triples_page(
    q: ParsedQuery,
    users: Seq<i64>,
    times: Seq<i64>,
    strs: Seq<Seq<char>>,
    rows: Seq<usize>,
)
    requires
        rows.len() <= usize::MAX,
    ensures
        is_best_page(
            q,
            frequent_triples(users, times, strs, rows, query_limit(q), query_offset(q)),
            in_order(triple_text_keys(users, times, strs, rows)),
            3,
        ),
{
    let keys = triple_text_keys(users, times, strs, rows);
    let wide = user_minute_phrases(users, times, strs, rows);
    let best = top_runs(runs(sorted_keys(wide)), query_limit(q), query_offset(q));
    let all = frequent_triples(users, times, strs, rows, query_limit(q), query_offset(q));
    assert forall|i: int, k: int| 0 <= i < wide.len() && 0 <= k < wide.len() implies (
    #[trigger] wide[i] == #[trigger] wide[k] <==> keys[i] == keys[k]) by {
        lemma_triples_agree(users, times, strs, rows, k);
    }
    assert forall|p: int, i: int|
        #![trigger all[p], keys[i]]
        0 <= p < all.len() && 0 <= i < wide.len() && wide[i] == best[p].0 implies all[p]
        == with_count(keys[i], best[p].1) by {
        lemma_triples_agree(users, times, strs, rows, i);
        assert(all[p] =~= with_count(keys[i], best[p].1));
    }
    lemma_text_runs_page(q, wide, keys, all, 3);
}

/// The columns that rows are counted by.
proof fn lemma_triple_count(t: Table, q: ParsedQuery, n: nat, rows: Seq<usize>, r: ResultView) -> (k: (
    Seq<i64>,
    Seq<i64>,
    Seq<Seq<char>>,
))
    requires
        yields(chosen(t, q, n), Some(rows)),
        yields(q19_result(t, q, n), Some(r)),
    ensures
        q19_keys(q),
        text_keyed(t, q, rows, triple_text_keys(k.0, k.1, k.2, rows)),
        r.rows == if wants_top(q) {
            frequent_triples(k.0, k.1, k.2, rows, query_limit(q), query_offset(q))
        } else {
            counted_texts(q, triple_text_keys(k.0, k.1, k.2, rows)).rows
        },
{
    let users = i64s_of(t, "UserID"@)->Ok_0->Some_0;
    let strs = texts_of(t, "SearchPhrase"@)->Ok_0->Some_0;
    let times = times_of(t, "EventTime"@)->Ok_0->Some_0;
    lemma_triple_keyed(t, q, rows, users, times, strs);
    (users, times, strs)
}

/// What counts rows by user, minute and phrase shows rows of plain grouping.
pub proof fn law_minute_count_plain(
    t: Table,
    q: ParsedQuery,
    n: nat,
    rows: Seq<usize>,
    out: Seq<Seq<CellView>>,
    r: ResultView,
)
    requires
        yields(chosen(t, q, n), Some(rows)),
        rows.len() <= usize::MAX,
        yields(q19_result(t, q, n), Some(r)),
        plain_rows(t, q, rows, out),
    ensures
        among(r.rows, out),
        is_best_page(q, r.rows, out, q.group_by@.len() as int),
{
    let (users, times, strs) = lemma_triple_count(t, q, n, rows, r);
    let keys = triple_text_keys(users, times, strs, rows);
    if wants_top(q) {
        lemma_frequent_triples_page(q, users, times, strs, rows);
        lemma_in_order_is_plain(t, q, rows, out, keys);
        lemma_frequent_triples_plain(
            t,
            q,
            rows,
            out,
            users,
            times,
            strs,
            query_limit(q),
            query_offset(q),
        );
    } else {
        lemma_counted_texts_plain(t, q, rows, out, keys);
        lemma_counted_texts_page(t, q, rows, out, keys);
    }
}

/// The keys and the users that are counted by and of.
proof fn lemma_user_distinct(
    t: Table,
    q: ParsedQuery,
    n: nat,
    rows: Seq<usize>,
    r: ResultView,
) -> (k: (Seq<Seq<Seq<char>>>, Seq<i64>))
    requires
        yields(chosen(t, q, n), Some(rows)),
        yields(q11_result(t, q, n), Some(r)),
    ensures
        r == distinct_texts(q, k.0, k.1),
        text_keyed(t, q, rows, k.0),
        shows_different(q),
        distinct_values(t, q, rows, k.1),
{
    let strs = texts_of(t, group_name(q.group_by@[0], q)->Some_0)->Ok_0->Some_0;
    let users = i64s_of(t, "UserID"@)->Ok_0->Some_0;
    let keys = phrases(strs, rows);
    let vals = mapped(rows, |r: usize| users[r as int]);
    assert(r == distinct_texts(q, keys, vals));
    assert(q.select_items@.last() == q.select_items@[1]);
    lemma_one_column(t, q, rows, ColumnView::Utf8(strs), keys);
    (keys, vals)
}

/// What counts different users by a text column shows rows of plain grouping.
pub proof fn law_user_distinct_plain(
    t: Table,
    q: ParsedQuery,
    n: nat,
    rows: Seq<usize>,
    out: Seq<Seq<CellView>>,
    r: ResultView,
)
    requires
        yields(chosen(t, q, n), Some(rows)),
        rows.len() <= usize::MAX,
        yields(q11_result(t, q, n), Some(r)),
        plain_rows(t, q, rows, out),
    ensures
        among(r.rows, out),
        is_best_page(q, r.rows, out, q.group_by@.len() as int),
{
    let (keys, vals) = lemma_user_distinct(t, q, n, rows, r);
    lemma_distinct_texts_plain(t, q, rows, out, keys, vals);
    lemma_distinct_texts_page(t, q, rows, out, keys, vals);
}

/// Two rows have the same texts in some columns just where they have the same keys, if the
/// columns are all that the rows are grouped by beside the number one.
proof fn lemma_text_parts(
    t: Table,
    q: ParsedQuery,
    n: nat,
    a: int,
    b: int,
    first: Seq<Seq<char>>,
    second: Seq<Seq<char>>,
)
    requires
        as_declared(t),
        n <= q.group_by@.len(),
        text_columns(t, q, n) matches Ok(Some(names)) && columns_of(t, names) is Ok,
        parts_of(t, q, a, first),
        parts_of(t, q, b, second),
    ensures
        ({
            let cols = columns_of(t, text_columns(t, q, n)->Ok_0->Some_0)->Ok_0;
            &&& cols.len() == text_columns(t, q, n)->Ok_0->Some_0.len()
            &&& (text_key(cols, a) == text_key(cols, b) <==> forall|j: int|
                0 <= j < n ==> first[j] == second[j])
        }),
    decreases n,
{
    let names = text_columns(t, q, n)->Ok_0->Some_0;
    let cols = columns_of(t, names)->Ok_0;
    if n == 0 {
        assert(text_key(cols, a) =~= text_key(cols, b));
    } else {
        let m = (n - 1) as nat;
        let old_names = text_columns(t, q, m)->Ok_0->Some_0;
        assert(key_part(t, q, a, n - 1, first[n - 1]));
        assert(key_part(t, q, b, n - 1, second[n - 1]));
        match resolved(q.group_by@[n - 1], q.select_items@) {
            Expr::Identifier(s) => {
                assert(names.drop_last() =~= old_names);
                lemma_text_parts(t, q, m, a, b, first, second);
                let old_cols = columns_of(t, old_names)->Ok_0;
                let c = column_of(t, s@)->Ok_0;
                assert(t.has(s@));
                assert(cols == old_cols.push(c));
                lemma_named_part(t, q, a, n - 1, c, first[n - 1]);
                lemma_named_part(t, q, b, n - 1, c, second[n - 1]);
                if text_key(cols, a) == text_key(cols, b) {
                    assert forall|i: int| 0 <= i < old_cols.len() implies #[trigger] text_key(
                        old_cols,
                        a,
                    )[i] == text_key(old_cols, b)[i] by {
                        assert(text_key(cols, a)[i] == text_key(cols, b)[i]);
                    }
                    assert(text_key(old_cols, a) =~= text_key(old_cols, b));
                    assert(text_key(cols, a)[cols.len() - 1] == text_key(cols, b)[cols.len() - 1]);
                }
                if forall|j: int| 0 <= j < n ==> first[j] == second[j] {
                    assert forall|i: int| 0 <= i < cols.len() implies #[trigger] text_key(
                        cols,
                        a,
                    )[i] == text_key(cols, b)[i] by {
                        if i < old_cols.len() {
                            assert(text_key(old_cols, a)[i] == text_key(old_cols, b)[i]);
                        } else {
                            assert(first[n - 1] == second[n - 1]);
                        }
                    }
                    assert(text_key(cols, a) =~= text_key(cols, b));
                }
            },
            _ => {
                lemma_text_parts(t, q, m, a, b, first, second);
                assert(first[n - 1] == second[n - 1]) by {
                    reveal(key_part);
                }
            },
        }
    }
}

/// The keys of text columns are the same just where those of plain grouping are.
proof fn lemma_text_rows_agree(
    t: Table,
    q: ParsedQuery,
    rows: Seq<usize>,
    out: Seq<Seq<CellView>>,
    names: Seq<Seq<char>>,
    cols: Seq<ColumnView>,
)
    requires
        as_declared(t),
        plain_rows(t, q, rows, out),
        yields(text_columns(t, q, q.group_by@.len()), Some(names)),
        yields(columns_of(t, names), cols),
    ensures
        agree(text_row_keys(cols, rows), keyed(t, q, rows).0),
{
    let keys = text_row_keys(cols, rows);
    let all = keyed(t, q, rows).0;
    lemma_plain_keyed(t, q, rows, out);
    assert forall|i: int, k: int| 0 <= i < keys.len() && 0 <= k < keys.len() implies (
    #[trigger] keys[i] == #[trigger] keys[k] <==> all[i] == all[k]) by {
        lemma_key_parts(t, q, rows, out, i);
        lemma_key_parts(t, q, rows, out, k);
        lemma_text_parts(
            t,
            q,
            q.group_by@.len(),
            rows[i] as int,
            rows[k] as int,
            all[i],
            all[k],
        );
        if keys[i] == keys[k] {
            assert(all[i] =~= all[k]);
        }
    }
}

/// The rows that grouping by text columns comes to.
proof fn lemma_text_answer(t: Table, q: ParsedQuery, n: nat, rows: Seq<usize>, a: AnswerView) -> (k: (
    Seq<Seq<char>>,
    Seq<ColumnView>,
))
    requires
        yields(chosen(t, q, n), Some(rows)),
        yields(utf8_answer(t, q, n), Some(a)),
    ensures
        yields(text_columns(t, q, q.group_by@.len()), Some(k.0)),
        yields(columns_of(t, k.0), k.1),
        yields(grouped(t, q, text_row_keys(k.1, rows), rows), answer_rows(a)),
{
    let names = utf8_plan(t, q)->Ok_0->Some_0;
    let cols = columns_of(t, names)->Ok_0;
    (names, cols)
}

/// What groups by text columns shows the rows of plain grouping, all of them and in the same
/// order.
pub proof fn law_text_groups_plain(
    t: Table,
    q: ParsedQuery,
    n: nat,
    rows: Seq<usize>,
    out: Seq<Seq<CellView>>,
    a: AnswerView,
)
    requires
        as_declared(t),
        yields(chosen(t, q, n), Some(rows)),
        yields(utf8_answer(t, q, n), Some(a)),
        plain_rows(t, q, rows, out),
    ensures
        answer_rows(a) == out,
{
    let (names, cols) = lemma_text_answer(t, q, n, rows, a);
    lemma_text_rows_agree(t, q, rows, out, names, cols);
    lemma_plain_groups(t, q, rows, out, text_row_keys(cols, rows), answer_rows(a));
}

/// Grouping by keys that are the same in the same places as those of plain grouping comes to
/// its rows.
pub proof fn lemma_plain_groups<K>(
    t: Table,
    q: ParsedQuery,
    rows: Seq<usize>,
    out: Seq<Seq<CellView>>,
    keys: Seq<K>,
    all: Seq<Seq<CellView>>,
)
    requires
        plain_rows(t, q, rows, out),
        agree(keys, keyed(t, q, rows).0),
        yields(grouped(t, q, keys, rows), all),
    ensures
        all == out,
{
    lemma_group_rows_agree(t, q, keys, keyed(t, q, rows).0, rows, first_seen(keys).len());
    reveal(plain_rows);
}

} // verus!
