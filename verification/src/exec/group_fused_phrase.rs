//! GROUP BY a text column with or without users and minutes: the most frequent.
use crate::error::Error;
use crate::exec::agg_heap::{by_count, kept, lemma_kept, ranks, room_for, top, window};
use crate::exec::agg_sort::{
    runs, sorted_keys, sorted_topk_user_minute_phrase, sorted_topk_user_phrase, top_runs, widened,
};
use crate::exec::agg_topk::{
    bumped, by_count_and_text, entry_counts, picked, pruned_entries, streamed, StreamingTopK,
};
use crate::exec::group::{attempted, is_identifier, is_name, resolve_group_expr, resolved, Answer, AnswerView};
use crate::exec::group_fused_pair::wants_top;
use crate::exec::group_fused_text::{
    int_and_text, one_text_column, phrase_keys, phrases, split_int_utf8_keys, utf8_group_col,
};
use crate::exec::group_int::int_key;
use crate::exec::group_utf8::{is_literal_one, is_one};
use crate::exec::grouping::{count_texts, group_texts, numbered, tallied};
use crate::exec::hash::{first_seen, lemma_first_seen_distinct, place, text_lists};
use crate::exec::kernel::{
    any_column, bind, by_count_desc, choose_rows, chosen, count_and_sort,
    counted_texts, i64_column, i64s_of, is_count_form, keys_with_counts, mapped,
    orders_by_count_desc, show_keys_with_counts, shows_counts, text_column, text_keys, texts_of, three_texts,
    time_column, times_of, two_texts, with_rows,
};
use crate::exec::result::{
    attempt, cell_rows, cells, counted, empty_result, headings, labels, limit_of, no_rows,
    number_cell, offset_of, query_limit, query_offset, shown, text_cell, Cell, CellView,
    QueryResult, ResultView,
};
use crate::exec::sorting::{sortable, to_sort, Unsorted};
use crate::expr::eval::{col_i64_at, column_of};
use crate::expr::time::{event_time_minute_of_hour, minute_of_hour};
use crate::sql::ast::{DateTimeField, Expr, ParsedQuery};
use crate::storage::column::{ColumnData, ColumnType};
use crate::storage::pod::PodStorage;
use crate::storage::table::{declared_type, Table};
use crate::storage::utf8_col::Utf8Column;
use crate::text::{decimal, digits, int_text, texts};
use vstd::prelude::*;

verus! {

/// For each key its number among the distinct keys.
pub open spec fn numbers_of<K>(keys: Seq<K>) -> Seq<u128> {
    Seq::new(keys.len(), |i: int| place(first_seen(keys), keys[i]) as u128)
}

/// A number that a key has is its place.
pub proof fn lemma_place<K>(keys: Seq<K>, ids: Seq<usize>, i: int)
    requires
        numbered(first_seen(keys), keys, ids),
        0 <= i < ids.len(),
    ensures
        place(first_seen(keys), keys[i]) == ids[i],
{
    lemma_first_seen_distinct(keys);
    let seen = first_seen(keys);
    assert(seen[ids[i] as int] == keys[i]);
    let p = place(seen, keys[i]);
    assert(0 <= p < seen.len() && seen[p] == keys[i]);
}

/// Streamed counts are counts of keys that came, and no larger than there were keys.
pub proof fn lemma_streamed<K>(keys: Seq<K>, limit: usize, offset: usize, factor: usize)
    requires
        keys.len() <= usize::MAX,
    ensures
        streamed(keys, limit, offset, factor).len() <= keys.len(),
        forall|i: int|
            0 <= i < streamed(keys, limit, offset, factor).len() ==> (
            #[trigger] streamed(keys, limit, offset, factor)[i]).1 <= keys.len() && keys.contains(
                streamed(keys, limit, offset, factor)[i].0,
            ),
    decreases keys.len(),
{
    if keys.len() > 0 {
        let front = keys.drop_last();
        lemma_streamed(front, limit, offset, factor);
        let e = streamed(front, limit, offset, factor);
        let key = keys.last();
        let more = bumped(e, key);
        let room = room_for(limit, offset);
        assert(keys[keys.len() - 1] == key);
        assert forall|i: int| 0 <= i < more.len() implies (#[trigger] more[i]).1 <= keys.len()
            && keys.contains(more[i].0) by {
            if i < e.len() {
                assert(e[i].1 <= front.len());
                assert(front.contains(e[i].0));
                let j = choose|j: int| 0 <= j < front.len() && front[j] == e[i].0;
                assert(keys[j] == e[i].0);
            }
        }
        if room > 0 && more.len() > room * factor {
            let rule = by_count(entry_counts(more));
            assert(ranks(rule));
            lemma_kept(rule, more.len(), room);
            let k = kept(rule, more.len(), room);
            let p = pruned_entries(more, room);
            assert forall|i: int| 0 <= i < p.len() implies (#[trigger] p[i]).1 <= keys.len()
                && keys.contains(p[i].0) by {
                assert(k[i] < more.len());
                assert(p[i] == more[k[i] as int]);
            }
        }
    }
}

/// Counts keys that come one after another, cutting the counts down when they are too
/// many.
pub fn stream_counts(ids: &Vec<u128>, limit: usize, offset: usize, factor: usize) -> (t: StreamingTopK)
    requires
        factor >= 4,
    ensures
        t.wf(),
        t.settings() == (limit, offset, factor),
        t@ == streamed(ids@, limit, offset, factor),
{
    let mut t = StreamingTopK::with_prune_factor(limit, offset, factor);
    let n: usize = ids.len();
    let mut i: usize = 0;
    assert(ids@.take(0) =~= Seq::<u128>::empty());
    while i < n
        invariant
            i <= n == ids@.len(),
            t.wf(),
            t.settings() == (limit, offset, factor),
            t@ == streamed(ids@.take(i as int), limit, offset, factor),
        decreases n - i,
    {
        assert(ids@.take(i + 1).drop_last() =~= ids@.take(i as int));
        proof {
            lemma_streamed(ids@.take(i as int), limit, offset, factor);
            assert forall|k: int| 0 <= k < t@.len() implies (#[trigger] t@[k]).1 < u64::MAX by {}
        }
        t.inc(ids[i]);
        i = i + 1;
    }
    assert(ids@.take(i as int) =~= ids@);
    t
}

/// The texts that counted keys stand for.
pub open spec fn entry_texts(entries: Seq<(u128, u64)>, seen: Seq<Seq<Seq<char>>>) -> Seq<Seq<char>> {
    Seq::new(entries.len(), |i: int| seen[entries[i].0 as int][0])
}

/// Counted keys as rows.
pub open spec fn entry_rows(entries: Seq<(u128, u64)>, seen: Seq<Seq<Seq<char>>>) -> Seq<
    Seq<CellView>,
> {
    Seq::new(
        entries.len(),
        |i: int| seq![shown(seen[entries[i].0 as int][0]), counted(entries[i].1 as int)],
    )
}

/// The most frequent texts, each with its count: counted one after another, and
/// where frequent texts crowd out others, only as frequent as they were since. Equally
/// frequent texts come in their order, if ties are to be told apart.
pub open spec fn frequent_texts(
    keys: Seq<Seq<Seq<char>>>,
    limit: usize,
    offset: usize,
    factor: usize,
    ties: bool,
) -> Seq<Seq<CellView>> {
    let seen = first_seen(keys);
    let entries = streamed(numbers_of(keys), limit, offset, factor);
    let counts = entry_counts(entries);
    let rule = if ties {
        by_count_and_text(counts, entry_texts(entries, seen))
    } else {
        by_count(counts)
    };
    entry_rows(picked(entries, top(rule, entries.len(), limit, offset)), seen)
}

/// The most frequent texts, each with its count.
pub fn utf8_count_topk_by_hash(
    keys: Vec<Vec<String>>,
    limit: usize,
    offset: usize,
    factor: usize,
    tie_utf8: bool,
) -> (rows: Vec<Vec<Cell>>)
    requires
        factor >= 4,
        forall|i: int| 0 <= i < keys@.len() ==> (#[trigger] keys@[i])@.len() == 1,
    ensures
        cell_rows(rows@) == frequent_texts(text_lists(keys@), limit, offset, factor, tie_utf8),
        forall|i: int| 0 <= i < rows@.len() ==> (#[trigger] rows@[i])@.len() == 2,
{
    let ghost all = text_lists(keys@);
    let total: usize = keys.len();
    let (index, ids) = group_texts(keys);
    let ghost seen = index@;
    let known: usize = index.len();
    let mut nums: Vec<u128> = Vec::new();
    let mut i: usize = 0;
    while i < ids.len()
        invariant
            i <= ids@.len(),
            seen == first_seen(all),
            numbered(seen, all, ids@),
            nums@.len() == i,
            forall|k: int| 0 <= k < i ==> #[trigger] nums@[k] == ids@[k],
        decreases ids@.len() - i,
    {
        nums.push(ids[i] as u128);
        i = i + 1;
    }
    proof {
        assert forall|k: int| 0 <= k < nums@.len() implies nums@[k] == numbers_of(all)[k] by {
            lemma_place(all, ids@, k);
        }
        assert(nums@ =~= numbers_of(all));
        assert(all.len() == total);
        lemma_streamed(nums@, limit, offset, factor);
        lemma_first_seen_distinct(all);
        assert forall|g: int| 0 <= g < seen.len() implies (#[trigger] seen[g]).len() == 1 by {
            assert(seen.contains(seen[g]));
            let j = choose|j: int| 0 <= j < all.len() && all[j] == seen[g];
            assert(keys@[j]@.len() == 1);
        }
    }
    let t = stream_counts(&nums, limit, offset, factor);
    let ghost entries = t@;
    proof {
        assert forall|k: int| 0 <= k < entries.len() implies (#[trigger] entries[k]).0
            < seen.len() by {
            assert(nums@.contains(entries[k].0));
            let j = choose|j: int| 0 <= j < nums@.len() && nums@[j] == entries[k].0;
            assert(ids@[j] < seen.len());
        }
    }
    let mut ties: Vec<String> = Vec::new();
    let n: usize = t.len();
    let mut k: usize = 0;
    while k < n
        invariant
            k <= n == t@.len(),
            t.wf(),
            entries == t@,
            index@ == seen,
            known == seen.len(),
            forall|k: int| 0 <= k < entries.len() ==> (#[trigger] entries[k]).0 < seen.len(),
            forall|g: int| 0 <= g < seen.len() ==> (#[trigger] seen[g]).len() == 1,
            ties@.len() == k,
            forall|j: int| 0 <= j < k ==> (#[trigger] ties@[j])@ == seen[entries[j].0 as int][0],
        decreases n - k,
    {
        let e: (u128, u64) = t.entry(k);
        assert(entries[k as int].0 < seen.len());
        let key = index.key(e.0 as usize);
        assert(texts(key@).len() == 1);
        assert(texts(key@)[0] == key@[0]@);
        ties.push(key[0].clone());
        k = k + 1;
    }
    assert(texts(ties@) =~= entry_texts(entries, seen));
    let best = if tie_utf8 {
        t.finish_with_tie_key(&ties)
    } else {
        t.finish()
    };
    proof {
        let rule = if tie_utf8 {
            by_count_and_text(entry_counts(entries), entry_texts(entries, seen))
        } else {
            by_count(entry_counts(entries))
        };
        if tie_utf8 {
            crate::exec::agg_topk::lemma_count_and_text_ranks(
                entry_counts(entries),
                entry_texts(entries, seen),
            );
        }
        assert(ranks(rule));
        crate::exec::agg_heap::lemma_top(rule, entries.len(), limit, offset);
        assert forall|j: int| 0 <= j < best@.len() implies (#[trigger] best@[j]).0 < seen.len() by {
            let w = top(rule, entries.len(), limit, offset);
            assert(w[j] < entries.len());
            assert(best@[j] == entries[w[j] as int]);
        }
    }
    let mut rows: Vec<Vec<Cell>> = Vec::new();
    let mut m: usize = 0;
    while m < best.len()
        invariant
            m <= best@.len(),
            index@ == seen,
            known == seen.len(),
            forall|j: int| 0 <= j < best@.len() ==> (#[trigger] best@[j]).0 < seen.len(),
            forall|g: int| 0 <= g < seen.len() ==> (#[trigger] seen[g]).len() == 1,
            rows@.len() == m,
            forall|i: int| 0 <= i < rows@.len() ==> (#[trigger] rows@[i])@.len() == 2,
            forall|j: int|
                0 <= j < m ==> cells((#[trigger] rows@[j])@) == entry_rows(best@, seen)[j],
        decreases best@.len() - m,
    {
        let e: (u128, u64) = best[m];
        assert(best@[m as int].0 < seen.len());
        let key = index.key(e.0 as usize);
        assert(texts(key@).len() == 1);
        assert(texts(key@)[0] == key@[0]@);
        let mut row: Vec<Cell> = Vec::new();
        row.push(text_cell(key[0].as_str()));
        row.push(number_cell(e.1 as i128));
        assert(cells(row@) =~= entry_rows(best@, seen)[m as int]);
        rows.push(row);
        m = m + 1;
    }
    assert(cell_rows(rows@) =~= entry_rows(best@, seen));
    rows
}

/// What counting rows by a text column comes to.
pub open spec fn utf8_count_result(t: Table, q: ParsedQuery, n: nat) -> Result<
    Option<ResultView>,
    Seq<char>,
> {
    match one_text_column(t, q) {
        None => Ok(None),
        Some(name) => if q.group_by@.len() != 1 || !shows_counts(q) {
            Ok(None)
        } else {
            bind(
                texts_of(t, name),
                |strs: Seq<Seq<char>>|
                    with_rows(
                        t,
                        q,
                        n,
                        |rows: Seq<usize>|
                            Ok(
                                Some(
                                    if query_limit(q) < usize::MAX && !t.info().demo_near_unique {
                                        ResultView {
                                            columns: labels(q.select_items@),
                                            rows: frequent_texts(
                                                phrases(strs, rows),
                                                query_limit(q),
                                                query_offset(q),
                                                if by_count_desc(q) {
                                                    32
                                                } else {
                                                    64
                                                },
                                                by_count_desc(q),
                                            ),
                                        }
                                    } else {
                                        counted_texts(q, phrases(strs, rows))
                                    },
                                ),
                            ),
                    ),
            )
        },
    }
}

/// Single texts are single.
proof fn lemma_single(keys: Seq<Vec<String>>, strs: Seq<Seq<char>>, rows: Seq<usize>)
    requires
        text_lists(keys) == phrases(strs, rows),
    ensures
        forall|i: int| 0 <= i < keys.len() ==> (#[trigger] keys[i])@.len() == 1,
{
    assert(text_lists(keys).len() == rows.len());
    assert forall|i: int| 0 <= i < keys.len() implies (#[trigger] keys[i])@.len() == 1 by {
        assert(text_lists(keys)[i] == texts(keys[i]@));
        assert(phrases(strs, rows)[i] == seq![strs[rows[i] as int]]);
    }
}

/// Counts rows by a text column, if that is what the query asks for.
pub fn try_fused_utf8_count(table: &Table, parsed: &ParsedQuery, row_count: usize) -> (r: Result<
    Option<QueryResult>,
    Error,
>)
    requires
        table.wf(),
        table.holds_rows(row_count as int),
    ensures
        attempt(r) == utf8_count_result(*table, *parsed, row_count as nat),
{
    let name = match utf8_group_col(parsed, table) {
        Some(n) => n,
        None => {
            return Ok(None);
        },
    };
    if parsed.group_by.len() != 1 || !is_count_form(parsed) {
        return Ok(None);
    }
    let strs = match text_column(table, name, row_count) {
        Err(e) => {
            return Err(e);
        },
        Ok(None) => {
            return Ok(None);
        },
        Ok(Some(c)) => c,
    };
    let rows = match choose_rows(table, parsed, row_count) {
        Err(e) => {
            return Err(e);
        },
        Ok(None) => {
            return Ok(Some(empty_result(parsed)));
        },
        Ok(Some(r)) => r,
    };
    let keys = phrase_keys(strs, &rows, row_count);
    let limit: usize = limit_of(parsed);
    if limit < usize::MAX && !table.demo_near_unique() {
        proof {
            lemma_single(keys@, strs@, rows@);
        }
        let ordered = orders_by_count_desc(parsed);
        let factor: usize = if ordered {
            32
        } else {
            64
        };
        let out = utf8_count_topk_by_hash(keys, limit, offset_of(parsed), factor, ordered);
        return Ok(Some(QueryResult { columns: headings(parsed), rows: out }));
    }
    Ok(Some(count_and_sort(parsed, keys)))
}

/// Whether a grouping expression is the number one.
pub open spec fn groups_one(q: ParsedQuery, i: int) -> bool {
    is_one(resolved(q.group_by@[i], q.select_items@))
}

/// Whether a grouping expression is the address column.
pub open spec fn groups_url(t: Table, q: ParsedQuery, i: int) -> bool {
    is_name(resolved(q.group_by@[i], q.select_items@), "URL"@) && declared_type(
        t.declared(),
        "URL"@,
    ) == Some(ColumnType::Utf8)
}

/// Whether a query shows the number one and the address with their counts, most
/// frequent first, with a limit.
pub open spec fn q35_shape(t: Table, q: ParsedQuery) -> bool {
    &&& q.group_by@.len() == 2
    &&& groups_one(q, 0)
    &&& groups_url(t, q, 1)
    &&& shows_counts(q)
    &&& by_count_desc(q)
    &&& q.limit is Some
}

/// Whether a query shows the number one and the address with their counts, most
/// frequent first, with a limit.
pub fn is_q35_shape(parsed: &ParsedQuery, table: &Table) -> (r: bool)
    ensures
        r == q35_shape(*table, *parsed),
{
    if parsed.group_by.len() != 2 {
        return false;
    }
    let a = resolve_group_expr(&parsed.group_by[0], &parsed.select_items);
    let b = resolve_group_expr(&parsed.group_by[1], &parsed.select_items);
    let typed = match table.column_type("URL") {
        Some(ColumnType::Utf8) => true,
        _ => false,
    };
    typed && is_literal_one(a) && is_identifier(b, "URL") && is_count_form(parsed)
        && orders_by_count_desc(parsed) && parsed.limit.is_some()
}

/// Rows with the number one before them.
pub open spec fn with_one(rows: Seq<Seq<CellView>>) -> Seq<Seq<CellView>> {
    Seq::new(rows.len(), |i: int| seq![shown("1"@)] + rows[i])
}

/// What counting rows by the number one and the address comes to.
pub open spec fn q35_result(t: Table, q: ParsedQuery, n: nat) -> Result<
    Option<ResultView>,
    Seq<char>,
> {
    if !q35_shape(t, q) {
        Ok(None)
    } else {
        bind(
            texts_of(t, "URL"@),
            |urls: Seq<Seq<char>>|
                with_rows(
                    t,
                    q,
                    n,
                    |rows: Seq<usize>|
                        Ok(
                            Some(
                                ResultView {
                                    columns: labels(q.select_items@),
                                    rows: with_one(
                                        frequent_texts(
                                            phrases(urls, rows),
                                            query_limit(q),
                                            query_offset(q),
                                            32,
                                            true,
                                        ),
                                    ),
                                },
                            ),
                        ),
                ),
        )
    }
}

/// Puts the number one before rows.
pub fn prefix_one(rows: Vec<Vec<Cell>>) -> (out: Vec<Vec<Cell>>)
    ensures
        cell_rows(out@) == with_one(cell_rows(rows@)),
{
    let mut out: Vec<Vec<Cell>> = Vec::new();
    let mut i: usize = 0;
    while i < rows.len()
        invariant
            i <= rows@.len(),
            out@.len() == i,
            forall|k: int|
                0 <= k < i ==> cells((#[trigger] out@[k])@) == seq![shown("1"@)] + cells(
                    rows@[k]@,
                ),
        decreases rows@.len() - i,
    {
        let mut row: Vec<Cell> = Vec::new();
        row.push(text_cell("1"));
        let mut rest = crate::exec::sorting::copy_row(&rows[i]);
        let ghost tail = rest@;
        row.append(&mut rest);
        assert(cells(row@) =~= seq![shown("1"@)] + cells(tail));
        out.push(row);
        i = i + 1;
    }
    assert(cell_rows(out@) =~= with_one(cell_rows(rows@)));
    out
}

/// Counts rows by the number one and the address, if that is what the query asks for.
pub fn try_fused_q35(table: &Table, parsed: &ParsedQuery, row_count: usize) -> (r: Result<
    Option<QueryResult>,
    Error,
>)
    requires
        table.wf(),
        table.holds_rows(row_count as int),
    ensures
        attempt(r) == q35_result(*table, *parsed, row_count as nat),
{
    if !is_q35_shape(parsed, table) {
        return Ok(None);
    }
    let urls = match text_column(table, "URL", row_count) {
        Err(e) => {
            return Err(e);
        },
        Ok(None) => {
            return Ok(None);
        },
        Ok(Some(c)) => c,
    };
    let rows = match choose_rows(table, parsed, row_count) {
        Err(e) => {
            return Err(e);
        },
        Ok(None) => {
            return Ok(Some(empty_result(parsed)));
        },
        Ok(Some(r)) => r,
    };
    let keys = phrase_keys(urls, &rows, row_count);
    proof {
        lemma_single(keys@, urls@, rows@);
    }
    let out = utf8_count_topk_by_hash(keys, limit_of(parsed), offset_of(parsed), 32, true);
    Ok(Some(QueryResult { columns: headings(parsed), rows: prefix_one(out) }))
}

/// The pairs of a user and the number of a phrase, row by row.
pub open spec fn user_phrase_pairs(
    users: spec_fn(usize) -> i64,
    strs: Seq<Seq<char>>,
    rows: Seq<usize>,
) -> Seq<(i64, u64)> {
    Seq::new(
        rows.len(),
        |i: int| (users(rows[i]), numbers_of(phrases(strs, rows))[i] as u64),
    )
}

/// The most frequent pairs of a user and a phrase, most frequent first; of equally
/// frequent pairs the smaller user first, and then the phrase that came first.
pub open spec fn frequent_pairs(
    users: spec_fn(usize) -> i64,
    strs: Seq<Seq<char>>,
    rows: Seq<usize>,
    limit: usize,
    offset: usize,
) -> Seq<Seq<CellView>> {
    let best = top_runs(
        runs(sorted_keys(widened(user_phrase_pairs(users, strs, rows)))),
        limit,
        offset,
    );
    Seq::new(
        best.len(),
        |i: int|
            seq![
                counted(best[i].0.0 as int),
                shown(first_seen(phrases(strs, rows))[best[i].0.2 as int][0]),
                counted(best[i].1 as int),
            ],
    )
}

/// The keys of the longest runs are keys of the sequence.
proof fn lemma_top_runs_members<K>(keys: Seq<K>, limit: usize, offset: usize)
    requires
        keys.len() <= usize::MAX,
    ensures
        forall|i: int|
            0 <= i < top_runs(runs(keys), limit, offset).len() ==> keys.contains(
                (#[trigger] top_runs(runs(keys), limit, offset)[i]).0,
            ),
{
    let r = runs(keys);
    lemma_runs_members(keys);
    let rule = by_count(crate::exec::agg_sort::run_counts(r));
    assert(ranks(rule));
    crate::exec::agg_heap::lemma_top(rule, r.len(), limit, offset);
    let t = top(rule, r.len(), limit, offset);
    assert forall|i: int| 0 <= i < top_runs(r, limit, offset).len() implies keys.contains(
        (#[trigger] top_runs(r, limit, offset)[i]).0,
    ) by {
        assert(t[i] < r.len());
        assert(keys.contains(r[t[i] as int].0));
    }
}

/// There are no more runs than keys, and their keys are those of the sequence.
pub proof fn lemma_runs_members<K>(keys: Seq<K>)
    ensures
        runs(keys).len() <= keys.len(),
        forall|i: int| 0 <= i < runs(keys).len() ==> keys.contains((#[trigger] runs(keys)[i]).0),
    decreases keys.len(),
{
    if keys.len() > 0 {
        let front = keys.drop_last();
        lemma_runs_members(front);
        let r = runs(front);
        assert(keys[keys.len() - 1] == keys.last());
        assert forall|i: int| 0 <= i < runs(keys).len() implies keys.contains(
            (#[trigger] runs(keys)[i]).0,
        ) by {
            if i < r.len() {
                assert(front.contains(r[i].0));
                let j = choose|j: int| 0 <= j < front.len() && front[j] == r[i].0;
                assert(keys[j] == r[i].0);
            }
        }
    }
}

/// Sorted triples have the members of the triples.
proof fn lemma_sorted_members(keys: Seq<(i64, i64, u64)>, k: (i64, i64, u64))
    requires
        sorted_keys(keys).contains(k),
    ensures
        keys.contains(k),
{
    crate::exec::agg_sort::lemma_key_order::<(i64, i64, u64)>();
    let leq = crate::exec::agg_sort::key_order::<(i64, i64, u64)>();
    keys.lemma_sort_by_ensures(leq);
    if !keys.contains(k) {
        assert(!keys.sort_by(leq).contains(k));
    }
}

/// Sorted triples are as many as the triples.
proof fn lemma_sorted_len(keys: Seq<(i64, i64, u64)>)
    ensures
        sorted_keys(keys).len() == keys.len(),
{
    broadcast use vstd::seq_lib::group_to_multiset_ensures;

    crate::exec::agg_sort::lemma_key_order::<(i64, i64, u64)>();
    let leq = crate::exec::agg_sort::key_order::<(i64, i64, u64)>();
    keys.lemma_sort_by_ensures(leq);
    assert(keys.to_multiset().len() == keys.len());
    assert(keys.sort_by(leq).to_multiset().len() == keys.sort_by(leq).len());
}

/// The most frequent pairs of a user and a phrase.
pub fn user_phrase_topk_by_sort(
    users: &Vec<i64>,
    keys: Vec<Vec<String>>,
    limit: usize,
    offset: usize,
    Ghost(user): Ghost<spec_fn(usize) -> i64>,
    Ghost(strs): Ghost<Seq<Seq<char>>>,
    Ghost(rows): Ghost<Seq<usize>>,
) -> (out: Vec<Vec<Cell>>)
    requires
        users@ == mapped(rows, user),
        text_lists(keys@) == phrases(strs, rows),
    ensures
        cell_rows(out@) == frequent_pairs(user, strs, rows, limit, offset),
{
    let ghost all = text_lists(keys@);
    proof {
        lemma_single(keys@, strs, rows);
        lemma_first_seen_distinct(all);
    }
    let ghost given = keys@;
    let (index, ids) = group_texts(keys);
    let ghost seen = index@;
    let known: usize = index.len();
    let mut pairs: Vec<(i64, u64)> = Vec::new();
    let mut i: usize = 0;
    assert(all.len() == rows.len());
    while i < ids.len()
        invariant
            i <= ids@.len(),
            ids@.len() == rows.len(),
            users@ == mapped(rows, user),
            all == phrases(strs, rows),
            seen == first_seen(all),
            numbered(seen, all, ids@),
            pairs@.len() == i,
            forall|k: int|
                0 <= k < i ==> #[trigger] pairs@[k] == (users@[k], ids@[k] as u64),
        decreases ids@.len() - i,
    {
        pairs.push((users[i], ids[i] as u64));
        i = i + 1;
    }
    let ghost spec_pairs = user_phrase_pairs(user, strs, rows);
    proof {
        assert forall|k: int| 0 <= k < pairs@.len() implies pairs@[k] == spec_pairs[k] by {
            lemma_place(all, ids@, k);
        }
        assert(pairs@ =~= spec_pairs);
    }
    let best = sorted_topk_user_phrase(&pairs, limit, offset);
    let ghost wide = widened(pairs@);
    let ghost list = top_runs(runs(sorted_keys(wide)), limit, offset);
    proof {
        lemma_sorted_len(wide);
        lemma_top_runs_members(sorted_keys(wide), limit, offset);
        assert forall|k: int| 0 <= k < list.len() implies (#[trigger] list[k]).0.2
            < seen.len() by {
            assert(sorted_keys(wide).contains(list[k].0));
            lemma_sorted_members(wide, list[k].0);
            let j = choose|j: int| 0 <= j < wide.len() && wide[j] == list[k].0;
            assert(ids@[j] < seen.len());
        }
        assert forall|g: int| 0 <= g < seen.len() implies (#[trigger] seen[g]).len() == 1 by {
            assert(seen.contains(seen[g]));
            let j = choose|j: int| 0 <= j < all.len() && all[j] == seen[g];
            assert(given[j]@.len() == 1);
        }
    }
    let mut out: Vec<Vec<Cell>> = Vec::new();
    let mut m: usize = 0;
    let ghost want = frequent_pairs(user, strs, rows, limit, offset);
    while m < best.len()
        invariant
            m <= best@.len(),
            best@.len() == list.len() == want.len(),
            index@ == seen,
            known == seen.len(),
            seen == first_seen(phrases(strs, rows)),
            pairs@ == user_phrase_pairs(user, strs, rows),
            list == top_runs(runs(sorted_keys(widened(pairs@))), limit, offset),
            want == frequent_pairs(user, strs, rows, limit, offset),
            forall|k: int|
                0 <= k < best@.len() ==> #[trigger] best@[k] == (
                    (list[k].0.0, list[k].0.2),
                    list[k].1,
                ),
            forall|k: int| 0 <= k < list.len() ==> (#[trigger] list[k]).0.2 < seen.len(),
            forall|g: int| 0 <= g < seen.len() ==> (#[trigger] seen[g]).len() == 1,
            out@.len() == m,
            forall|j: int| 0 <= j < m ==> cells((#[trigger] out@[j])@) == want[j],
        decreases best@.len() - m,
    {
        let e: ((i64, u64), u64) = best[m];
        assert(list[m as int].0.2 < seen.len());
        let key = index.key((e.0).1 as usize);
        assert(texts(key@).len() == 1);
        assert(texts(key@)[0] == key@[0]@);
        let mut row: Vec<Cell> = Vec::new();
        row.push(number_cell((e.0).0 as i128));
        row.push(text_cell(key[0].as_str()));
        row.push(number_cell(e.1 as i128));
        assert(cells(row@) =~= want[m as int]);
        out.push(row);
        m = m + 1;
    }
    assert(cell_rows(out@) =~= want);
    out
}

/// The pairs of a user and a phrase of rows, as keys of texts.
pub open spec fn pair_text_keys(
    users: spec_fn(usize) -> i64,
    strs: Seq<Seq<char>>,
    rows: Seq<usize>,
) -> Seq<Seq<Seq<char>>> {
    mapped(rows, |r: usize| seq![decimal(users(r) as int), strs[r as int]])
}

/// Keys with their counts, in the order in which they first appear.
pub open spec fn in_order(keys: Seq<Seq<Seq<char>>>) -> Seq<Seq<CellView>> {
    keys_with_counts(first_seen(keys), tallied(keys))
}

/// What counting rows by an integer column and a text column comes to.
pub open spec fn int_utf8_count_answer(t: Table, q: ParsedQuery, n: nat) -> Result<
    Option<AnswerView>,
    Seq<char>,
> {
    match int_and_text(t, q, false) {
        None => Ok(None),
        Some((a, b)) => if !shows_counts(q) {
            Ok(None)
        } else {
            match column_of(t, a) {
                Err(m) => Err(m),
                Ok(c) => bind(
                    texts_of(t, b),
                    |strs: Seq<Seq<char>>|
                        match chosen(t, q, n) {
                            Err(m) => Err(m),
                            Ok(None) => Ok(Some(AnswerView::Done(no_rows(q)))),
                            Ok(Some(rows)) => int_utf8_grouped(
                                q,
                                |r: usize| int_key(c, r as int),
                                strs,
                                rows,
                            ),
                        },
                ),
            }
        },
    }
}

/// What counting rows by a number and a text comes to: the most frequent if the query
/// asks for them, else all in the order in which they appear or as it sorts them.
pub open spec fn int_utf8_grouped(
    q: ParsedQuery,
    users: spec_fn(usize) -> i64,
    strs: Seq<Seq<char>>,
    rows: Seq<usize>,
) -> Result<Option<AnswerView>, Seq<char>> {
    let keys = pair_text_keys(users, strs, rows);
    if wants_top(q) {
        Ok(
            Some(
                AnswerView::Done(
                    ResultView {
                        columns: labels(q.select_items@),
                        rows: frequent_pairs(users, strs, rows, query_limit(q), query_offset(q)),
                    },
                ),
            ),
        )
    } else if q.order_by@.len() == 0 {
        Ok(
            Some(
                AnswerView::Done(
                    ResultView {
                        columns: labels(q.select_items@),
                        rows: window(
                            in_order(keys),
                            query_limit(q) as nat,
                            query_offset(q) as nat,
                        ),
                    },
                ),
            ),
        )
    } else if sortable(q, 3) {
        Ok(Some(AnswerView::Sort(to_sort(q, in_order(keys)))))
    } else {
        Err("order column not in the result"@)
    }
}

/// The part of rows that begins at an offset and has at most a given length.
pub fn rows_window(rows: &Vec<Vec<Cell>>, limit: usize, offset: usize) -> (out: Vec<Vec<Cell>>)
    ensures
        cell_rows(out@) == window(cell_rows(rows@), limit as nat, offset as nat),
{
    let mut out: Vec<Vec<Cell>> = Vec::new();
    let mut j: usize = offset;
    assert(cell_rows(out@) =~= window(cell_rows(rows@), 0, offset as nat));
    while j < rows.len() && j - offset < limit
        invariant
            offset <= j,
            j <= rows@.len() || j == offset,
            cell_rows(out@) =~= window(cell_rows(rows@), (j - offset) as nat, offset as nat),
            j - offset <= limit,
        decreases rows@.len() - j,
    {
        let ghost sofar = out@;
        out.push(crate::exec::sorting::copy_row(&rows[j]));
        assert(cell_rows(out@) =~= cell_rows(sofar).push(cells(rows@[j as int]@)));
        j = j + 1;
    }
    assert(window(cell_rows(rows@), (j - offset) as nat, offset as nat) =~= window(
        cell_rows(rows@),
        limit as nat,
        offset as nat,
    ));
    out
}

/// The number of a row of an integer or date column, zero in other columns.
pub fn int_key_at(col: &ColumnData, row: usize) -> (v: i64)
    requires
        row < col@.len(),
    ensures
        v == int_key(col@, row as int),
{
    match col {
        ColumnData::Timestamp(_) => 0,
        _ => col_i64_at(col, row),
    }
}

/// Counts rows by an integer column and a text column, if that is what the query asks
/// for.
pub fn try_fused_int_utf8_count(table: &Table, parsed: &ParsedQuery, row_count: usize) -> (r: Result<
    Option<Answer>,
    Error,
>)
    requires
        table.wf(),
        table.holds_rows(row_count as int),
    ensures
        attempted(r) == int_utf8_count_answer(*table, *parsed, row_count as nat),
        r matches Ok(Some(a)) ==> a.wf(),
{
    let (a, b) = match split_int_utf8_keys(table, parsed, false) {
        Some(p) => p,
        None => {
            return Ok(None);
        },
    };
    if !is_count_form(parsed) {
        return Ok(None);
    }
    let ints = match any_column(table, a, row_count) {
        Err(e) => {
            return Err(e);
        },
        Ok(c) => c,
    };
    let strs = match text_column(table, b, row_count) {
        Err(e) => {
            return Err(e);
        },
        Ok(None) => {
            return Ok(None);
        },
        Ok(Some(c)) => c,
    };
    let rows = match choose_rows(table, parsed, row_count) {
        Err(e) => {
            return Err(e);
        },
        Ok(None) => {
            return Ok(Some(Answer::Done(empty_result(parsed))));
        },
        Ok(Some(r)) => r,
    };
    let ghost user = |r: usize| int_key(ints@, r as int);
    let limit: usize = limit_of(parsed);
    let offset: usize = offset_of(parsed);
    if limit < usize::MAX && orders_by_count_desc(parsed) {
        let keys = phrase_keys(strs, &rows, row_count);
        let user_at = |r: usize| -> (v: i64)
            requires
                row_count > r,
            ensures
                v == user(r),
        { int_key_at(ints, r) };
        let users = crate::exec::kernel::int_values(&rows, user_at, Ghost(user));
        let out = user_phrase_topk_by_sort(
            &users,
            keys,
            limit,
            offset,
            Ghost(user),
            Ghost(strs@),
            Ghost(rows@),
        );
        return Ok(Some(Answer::Done(QueryResult { columns: headings(parsed), rows: out })));
    }
    let ghost key = |r: usize| seq![decimal(user(r) as int), strs@[r as int]];
    let key_at = |r: usize| -> (k: Vec<String>)
        requires
            row_count > r,
        ensures
            texts(k@) == key(r),
    {
        assert(strs.row_ok(r as int));
        two_texts(int_text(int_key_at(ints, r) as i128), String::from_str(strs.get(r)))
    };
    let keys = text_keys(&rows, key_at, Ghost(key));
    let ghost all = text_lists(keys@);
    assert(all =~= pair_text_keys(user, strs@, rows@));
    let (index, counts) = count_texts(keys);
    let out = show_keys_with_counts(&index, &counts);
    assert(cell_rows(out@) == in_order(all));
    if parsed.order_by.len() == 0 {
        let part = rows_window(&out, limit, offset);
        return Ok(Some(Answer::Done(QueryResult { columns: headings(parsed), rows: part })));
    }
    proof {
        lemma_key_widths(all, rows@, key, 2);
        assert forall|i: int| 0 <= i < out@.len() implies (#[trigger] out@[i])@.len() == 3 by {
            assert(cell_rows(out@)[i] == cells(out@[i]@));
            assert(first_seen(all)[i].len() == 2);
        }
    }
    match Unsorted::of_width(parsed, out, 3) {
        Some(u) => Ok(Some(Answer::Sort(u))),
        None => Err(Error::msg("order column not in the result")),
    }
}

/// Distinct keys have the length that all keys have.
pub proof fn lemma_key_widths(
    keys: Seq<Seq<Seq<char>>>,
    rows: Seq<usize>,
    key: spec_fn(usize) -> Seq<Seq<char>>,
    width: nat,
)
    requires
        keys == mapped(rows, key),
        forall|r: usize| (#[trigger] key(r)).len() == width,
    ensures
        forall|g: int| 0 <= g < first_seen(keys).len() ==> (#[trigger] first_seen(keys)[g]).len() == width,
{
    lemma_first_seen_distinct(keys);
    assert forall|g: int| 0 <= g < first_seen(keys).len() implies (
    #[trigger] first_seen(keys)[g]).len() == width by {
        assert(first_seen(keys).contains(first_seen(keys)[g]));
        let j = choose|j: int| 0 <= j < keys.len() && keys[j] == first_seen(keys)[g];
        assert(keys[j] == key(rows[j]));
    }
}

/// Whether an expression takes the minute of the time of the event.
pub open spec fn takes_minute(e: Expr) -> bool {
    match e {
        Expr::Extract { field, expr } => field is Minute && is_name(*expr, "EventTime"@),
        _ => false,
    }
}

/// Whether a query groups by user, minute and phrase, and shows these with their counts.
pub open spec fn q19_keys(q: ParsedQuery) -> bool {
    &&& q.group_by@.len() == 3
    &&& is_name(resolved(q.group_by@[0], q.select_items@), "UserID"@)
    &&& takes_minute(resolved(q.group_by@[1], q.select_items@))
    &&& is_name(resolved(q.group_by@[2], q.select_items@), "SearchPhrase"@)
    &&& shows_counts(q)
}

/// Whether a query groups by user, minute and phrase, and shows these with their counts.
pub fn q19_group_keys(parsed: &ParsedQuery) -> (r: bool)
    ensures
        r == q19_keys(*parsed),
{
    if parsed.group_by.len() != 3 {
        return false;
    }
    let a = resolve_group_expr(&parsed.group_by[0], &parsed.select_items);
    let b = resolve_group_expr(&parsed.group_by[1], &parsed.select_items);
    let c = resolve_group_expr(&parsed.group_by[2], &parsed.select_items);
    let minute = match b {
        Expr::Extract { field, expr } => match field {
            DateTimeField::Minute => is_identifier(expr, "EventTime"),
            _ => false,
        },
        _ => false,
    };
    minute && is_identifier(a, "UserID") && is_identifier(c, "SearchPhrase") && is_count_form(
        parsed,
    )
}

/// The triples of a user, a minute and the number of a phrase, row by row.
pub open spec fn user_minute_phrases(
    users: Seq<i64>,
    times: Seq<i64>,
    strs: Seq<Seq<char>>,
    rows: Seq<usize>,
) -> Seq<(i64, i64, u64)> {
    Seq::new(
        rows.len(),
        |i: int|
            (
                users[rows[i] as int],
                minute_of_hour(times[rows[i] as int] as int) as i64,
                numbers_of(phrases(strs, rows))[i] as u64,
            ),
    )
}

/// The most frequent triples of a user, a minute and a phrase, most frequent first; of
/// equally frequent ones the smaller user first, then the smaller minute, and then the
/// phrase that came first.
pub open spec fn frequent_triples(
    users: Seq<i64>,
    times: Seq<i64>,
    strs: Seq<Seq<char>>,
    rows: Seq<usize>,
    limit: usize,
    offset: usize,
) -> Seq<Seq<CellView>> {
    let best = top_runs(
        runs(sorted_keys(user_minute_phrases(users, times, strs, rows))),
        limit,
        offset,
    );
    Seq::new(
        best.len(),
        |i: int|
            seq![
                counted(best[i].0.0 as int),
                counted(best[i].0.1 as int),
                shown(first_seen(phrases(strs, rows))[best[i].0.2 as int][0]),
                counted(best[i].1 as int),
            ],
    )
}

/// The triples of a user, a minute and a phrase of rows, as keys of texts.
pub open spec fn triple_text_keys(
    users: Seq<i64>,
    times: Seq<i64>,
    strs: Seq<Seq<char>>,
    rows: Seq<usize>,
) -> Seq<Seq<Seq<char>>> {
    mapped(
        rows,
        |r: usize|
            seq![
                decimal(users[r as int] as int),
                decimal(minute_of_hour(times[r as int] as int)),
                strs[r as int],
            ],
    )
}

/// What counting rows by user, minute and phrase comes to.
pub open spec fn q19_result(t: Table, q: ParsedQuery, n: nat) -> Result<
    Option<ResultView>,
    Seq<char>,
> {
    if !q19_keys(q) {
        Ok(None)
    } else {
        bind(
            i64s_of(t, "UserID"@),
            |users: Seq<i64>|
                bind(
                    texts_of(t, "SearchPhrase"@),
                    |strs: Seq<Seq<char>>|
                        bind(
                            times_of(t, "EventTime"@),
                            |times: Seq<i64>|
                                with_rows(
                                    t,
                                    q,
                                    n,
                                    |rows: Seq<usize>|
                                        Ok(
                                            Some(
                                                if wants_top(q) {
                                                    ResultView {
                                                        columns: labels(q.select_items@),
                                                        rows: frequent_triples(
                                                            users,
                                                            times,
                                                            strs,
                                                            rows,
                                                            query_limit(q),
                                                            query_offset(q),
                                                        ),
                                                    }
                                                } else {
                                                    counted_texts(
                                                        q,
                                                        triple_text_keys(
                                                            users,
                                                            times,
                                                            strs,
                                                            rows,
                                                        ),
                                                    )
                                                },
                                            ),
                                        ),
                                ),
                        ),
                ),
        )
    }
}

/// The most frequent triples of a user, a minute and a phrase.
fn user_minute_phrase_topk_by_sort(
    users: &PodStorage<i64>,
    times: &PodStorage<i64>,
    strs: &Utf8Column,
    rows: &Vec<usize>,
    row_count: usize,
    limit: usize,
    offset: usize,
) -> (out: Vec<Vec<Cell>>)
    requires
        users@.len() >= row_count,
        times@.len() >= row_count,
        strs@.len() >= row_count,
        strs.wf(),
        forall|i: int| 0 <= i < rows@.len() ==> (#[trigger] rows@[i]) < row_count,
    ensures
        cell_rows(out@) == frequent_triples(users@, times@, strs@, rows@, limit, offset),
{
    let keys = phrase_keys(strs, rows, row_count);
    let ghost all = text_lists(keys@);
    proof {
        lemma_single(keys@, strs@, rows@);
        lemma_first_seen_distinct(all);
    }
    let ghost given = keys@;
    let (index, ids) = group_texts(keys);
    let ghost seen = index@;
    let known: usize = index.len();
    let mut triples: Vec<(i64, i64, u64)> = Vec::new();
    let mut i: usize = 0;
    while i < ids.len()
        invariant
            i <= ids@.len(),
            ids@.len() == rows@.len(),
            users@.len() >= row_count,
            times@.len() >= row_count,
            forall|i: int| 0 <= i < rows@.len() ==> (#[trigger] rows@[i]) < row_count,
            triples@.len() == i,
            forall|k: int|
                0 <= k < i ==> #[trigger] triples@[k] == (
                    users@[rows@[k] as int],
                    minute_of_hour(times@[rows@[k] as int] as int) as i64,
                    ids@[k] as u64,
                ),
        decreases ids@.len() - i,
    {
        let row: usize = rows[i];
        assert(rows@[i as int] < row_count);
        triples.push((users.get(row), event_time_minute_of_hour(times.get(row)), ids[i] as u64));
        i = i + 1;
    }
    let ghost spec_triples = user_minute_phrases(users@, times@, strs@, rows@);
    proof {
        assert forall|k: int| 0 <= k < triples@.len() implies triples@[k] == spec_triples[k] by {
            lemma_place(all, ids@, k);
        }
        assert(triples@ =~= spec_triples);
    }
    let best = sorted_topk_user_minute_phrase(triples, limit, offset);
    let ghost list = top_runs(runs(sorted_keys(spec_triples)), limit, offset);
    proof {
        lemma_sorted_len(spec_triples);
        lemma_top_runs_members(sorted_keys(spec_triples), limit, offset);
        assert forall|k: int| 0 <= k < list.len() implies (#[trigger] list[k]).0.2
            < seen.len() by {
            assert(sorted_keys(spec_triples).contains(list[k].0));
            lemma_sorted_members(spec_triples, list[k].0);
            let j = choose|j: int| 0 <= j < spec_triples.len() && spec_triples[j] == list[k].0;
            lemma_place(all, ids@, j);
            assert(ids@[j] < seen.len());
        }
        assert forall|g: int| 0 <= g < seen.len() implies (#[trigger] seen[g]).len() == 1 by {
            assert(seen.contains(seen[g]));
            let j = choose|j: int| 0 <= j < all.len() && all[j] == seen[g];
            assert(given[j]@.len() == 1);
        }
    }
    let mut out: Vec<Vec<Cell>> = Vec::new();
    let mut m: usize = 0;
    let ghost want = frequent_triples(users@, times@, strs@, rows@, limit, offset);
    while m < best.len()
        invariant
            m <= best@.len(),
            best@ == list,
            list.len() == want.len(),
            index@ == seen,
            known == seen.len(),
            seen == first_seen(phrases(strs@, rows@)),
            list == top_runs(
                runs(sorted_keys(user_minute_phrases(users@, times@, strs@, rows@))),
                limit,
                offset,
            ),
            want == frequent_triples(users@, times@, strs@, rows@, limit, offset),
            forall|k: int| 0 <= k < list.len() ==> (#[trigger] list[k]).0.2 < seen.len(),
            forall|g: int| 0 <= g < seen.len() ==> (#[trigger] seen[g]).len() == 1,
            out@.len() == m,
            forall|j: int| 0 <= j < m ==> cells((#[trigger] out@[j])@) == want[j],
        decreases best@.len() - m,
    {
        let e: ((i64, i64, u64), u64) = best[m];
        assert(list[m as int].0.2 < seen.len());
        let key = index.key((e.0).2 as usize);
        assert(texts(key@).len() == 1);
        assert(texts(key@)[0] == key@[0]@);
        let mut row: Vec<Cell> = Vec::new();
        row.push(number_cell((e.0).0 as i128));
        row.push(number_cell((e.0).1 as i128));
        row.push(text_cell(key[0].as_str()));
        row.push(number_cell(e.1 as i128));
        assert(cells(row@) =~= want[m as int]);
        out.push(row);
        m = m + 1;
    }
    assert(cell_rows(out@) =~= want);
    out
}

/// Counts rows by user, minute and phrase, if that is what the query asks for.
pub fn try_fused_q19(table: &Table, parsed: &ParsedQuery, row_count: usize) -> (r: Result<
    Option<QueryResult>,
    Error,
>)
    requires
        table.wf(),
        table.holds_rows(row_count as int),
    ensures
        attempt(r) == q19_result(*table, *parsed, row_count as nat),
{
    if !q19_group_keys(parsed) {
        return Ok(None);
    }
    let users = match i64_column(table, "UserID", row_count) {
        Err(e) => {
            return Err(e);
        },
        Ok(None) => {
            return Ok(None);
        },
        Ok(Some(c)) => c,
    };
    let strs = match text_column(table, "SearchPhrase", row_count) {
        Err(e) => {
            return Err(e);
        },
        Ok(None) => {
            return Ok(None);
        },
        Ok(Some(c)) => c,
    };
    let times = match time_column(table, "EventTime", row_count) {
        Err(e) => {
            return Err(e);
        },
        Ok(None) => {
            return Ok(None);
        },
        Ok(Some(c)) => c,
    };
    let rows = match choose_rows(table, parsed, row_count) {
        Err(e) => {
            return Err(e);
        },
        Ok(None) => {
            return Ok(Some(empty_result(parsed)));
        },
        Ok(Some(r)) => r,
    };
    let limit: usize = limit_of(parsed);
    if limit < usize::MAX && orders_by_count_desc(parsed) {
        let out = user_minute_phrase_topk_by_sort(
            users,
            times,
            strs,
            &rows,
            row_count,
            limit,
            offset_of(parsed),
        );
        return Ok(Some(QueryResult { columns: headings(parsed), rows: out }));
    }
    let ghost key = |r: usize|
        seq![
            decimal(users@[r as int] as int),
            decimal(minute_of_hour(times@[r as int] as int)),
            strs@[r as int],
        ];
    let key_at = |r: usize| -> (k: Vec<String>)
        requires
            row_count > r,
        ensures
            texts(k@) == key(r),
    {
        assert(strs.row_ok(r as int));
        three_texts(
            int_text(users.get(r) as i128),
            int_text(event_time_minute_of_hour(times.get(r)) as i128),
            String::from_str(strs.get(r)),
        )
    };
    let keys = text_keys(&rows, key_at, Ghost(key));
    assert(text_lists(keys@) =~= triple_text_keys(users@, times@, strs@, rows@));
    Ok(Some(count_and_sort(parsed, keys)))
}

/// Where a query groups by the number one besides, that number stands in front of each row
/// and nothing else changes.
pub proof fn law_one_in_front(rows: Seq<Seq<CellView>>, i: int)
    ensures
        with_one(rows).len() == rows.len(),
        0 <= i < rows.len() ==> with_one(rows)[i][0] == counted(1) && with_one(rows)[i].skip(1)
            == rows[i],
{
    reveal_strlit("1");
    assert("1"@ =~= decimal(1)) by {
        reveal_with_fuel(digits, 2);
    }
    if 0 <= i < rows.len() {
        assert(with_one(rows)[i].skip(1) =~= rows[i]);
    }
}

} // verus!
