//! Search phrases with their smallest address.
use crate::error::Error;
use crate::exec::group::{is_identifier, is_name};
use crate::exec::group_fused_region::{is_count, lemma_one_text, names_column};
use crate::exec::group_fused_text::{phrase_keys, phrases};
use crate::exec::grouping::{count_groups, group_texts, numbered, tallied};
use crate::exec::hash::{first_seen, lemma_first_seen_distinct, text_lists};
use crate::exec::kernel::{
    bind, choose_rows, count_sorted, finish_count_sorted_scan, is_keys_then, keys_then,
    text_column, texts_of, with_rows,
};
use crate::exec::result::{
    attempt, cell_rows, cells, counted, empty_result, number_cell, shown, text_cell, Cell,
    CellView, QueryResult, ResultView,
};
use crate::exec::sorting::counts_rows;
use crate::sql::ast::{ParsedQuery, SelectItemKind, SelectProjection};
use crate::sql::query::column_name;
use crate::storage::table::Table;
use crate::storage::utf8_col::Utf8Column;
use crate::text::{str_less, text_less, texts};
use vstd::prelude::*;

verus! {

/// The row with the smallest text among the rows of a key; of equal texts the first.
pub open spec fn least_row<K>(keys: Seq<K>, rows: Seq<usize>, strs: Seq<Seq<char>>, key: K) -> Option<usize>
    decreases keys.len(),
{
    if keys.len() == 0 {
        None
    } else {
        let front = least_row(keys.drop_last(), rows, strs, key);
        let r = rows[keys.len() - 1];
        if keys.last() != key {
            front
        } else {
            match front {
                None => Some(r),
                Some(m) => if text_less(strs[r as int], strs[m as int]) {
                    Some(r)
                } else {
                    front
                },
            }
        }
    }
}

/// No row of a key has a smaller text than its least row, and the least row is one of
/// its rows.
pub proof fn law_least_row<K>(keys: Seq<K>, rows: Seq<usize>, strs: Seq<Seq<char>>, key: K)
    requires
        keys.len() == rows.len(),
        keys.contains(key),
    ensures
        least_row(keys, rows, strs, key) is Some,
        exists|i: int|
            0 <= i < keys.len() && (#[trigger] keys[i]) == key && least_row(keys, rows, strs, key)
                == Some(rows[i]),
        forall|i: int|
            0 <= i < keys.len() && (#[trigger] keys[i]) == key ==> !text_less(
                strs[rows[i] as int],
                strs[least_row(keys, rows, strs, key)->Some_0 as int],
            ),
    decreases keys.len(),
{
    let front = keys.drop_last();
    let short = rows.drop_last();
    let last = keys.len() - 1;
    lemma_least_prefix(front, short, rows, strs, key);
    if front.contains(key) {
        law_least_row(front, short, strs, key);
        let m = least_row(front, short, strs, key)->Some_0;
        let w = choose|i: int|
            0 <= i < front.len() && (#[trigger] front[i]) == key && least_row(
                front,
                short,
                strs,
                key,
            ) == Some(short[i]);
        assert(keys[w] == key && rows[w] == m);
        assert forall|i: int| 0 <= i < keys.len() && (#[trigger] keys[i]) == key implies !text_less(
            strs[rows[i] as int],
            strs[least_row(keys, rows, strs, key)->Some_0 as int],
        ) by {
            let r = rows[last];
            crate::exec::agg_topk::lemma_text_order(
                strs[rows[i] as int],
                strs[m as int],
                strs[r as int],
            );
            crate::exec::agg_topk::lemma_text_order(
                strs[rows[i] as int],
                strs[r as int],
                strs[m as int],
            );
            crate::exec::agg_topk::lemma_text_order(
                strs[r as int],
                strs[r as int],
                strs[r as int],
            );
            if i < last {
                assert(front[i] == key);
                assert(short[i] == rows[i]);
            }
        }
        if least_row(keys, rows, strs, key) == Some(rows[last]) && keys[last] == key {
            assert(keys[last] == key);
        } else {
            assert(least_row(keys, rows, strs, key) == Some(rows[w]));
        }
    } else {
        assert(keys[last] == key) by {
            let i = choose|i: int| 0 <= i < keys.len() && keys[i] == key;
            if i < last {
                assert(front[i] == key);
                assert(front.contains(key));
            }
        }
        lemma_least_none(front, short, strs, key);
        assert(least_row(keys, rows, strs, key) == Some(rows[last]));
        assert forall|i: int| 0 <= i < keys.len() && (#[trigger] keys[i]) == key implies !text_less(
            strs[rows[i] as int],
            strs[rows[last] as int],
        ) by {
            if i < last {
                assert(front[i] == key);
                assert(front.contains(key));
            }
            crate::exec::agg_topk::lemma_text_order(
                strs[rows[last] as int],
                strs[rows[last] as int],
                strs[rows[last] as int],
            );
        }
    }
}

proof fn lemma_least_none<K>(keys: Seq<K>, rows: Seq<usize>, strs: Seq<Seq<char>>, key: K)
    requires
        !keys.contains(key),
    ensures
        least_row(keys, rows, strs, key) is None,
    decreases keys.len(),
{
    if keys.len() > 0 {
        let front = keys.drop_last();
        assert(keys[keys.len() - 1] == keys.last());
        assert(!front.contains(key)) by {
            if front.contains(key) {
                let i = choose|i: int| 0 <= i < front.len() && front[i] == key;
                assert(keys[i] == key);
            }
        }
        lemma_least_none(front, rows, strs, key);
    }
}

proof fn lemma_least_prefix<K>(
    keys: Seq<K>,
    a: Seq<usize>,
    b: Seq<usize>,
    strs: Seq<Seq<char>>,
    key: K,
)
    requires
        forall|j: int| 0 <= j < keys.len() ==> a[j] == b[j],
    ensures
        least_row(keys, a, strs, key) == least_row(keys, b, strs, key),
    decreases keys.len(),
{
    if keys.len() > 0 {
        lemma_least_prefix(keys.drop_last(), a, b, strs, key);
    }
}

/// Whether a projection is the smallest address.
pub open spec fn least_url(p: SelectProjection) -> bool {
    p.kind is Min && column_name(p.kind->Min_0) == Some("URL"@)
}

/// Whether a projection is the smallest address.
pub fn is_least_url(p: &SelectProjection) -> (r: bool)
    ensures
        r == least_url(*p),
{
    match &p.kind {
        SelectItemKind::Min(e) => names_column(e, "URL"),
        _ => false,
    }
}

/// Whether a query shows search phrases, each with its smallest address and its count,
/// sorted by the count if at all, and has no condition on groups.
pub open spec fn q22_shape(q: ParsedQuery) -> bool {
    &&& q.group_by@.len() == 1
    &&& is_name(q.group_by@[0], "SearchPhrase"@)
    &&& q.having is None
    &&& keys_then(q, 2, 1)
    &&& least_url(q.select_items@[1])
    &&& counts_rows(q.select_items@[2])
}

/// Whether a query shows search phrases, each with its smallest address and its count,
/// sorted by the count if at all, and has no condition on groups.
pub fn is_q22_shape(parsed: &ParsedQuery) -> (r: bool)
    ensures
        r == q22_shape(*parsed),
{
    parsed.group_by.len() == 1 && is_identifier(&parsed.group_by[0], "SearchPhrase")
        && parsed.having.is_none() && is_keys_then(parsed, 2, 1) && is_least_url(
        &parsed.select_items[1],
    ) && is_count(&parsed.select_items[2])
}

/// The row of a phrase: the phrase, its smallest address and its count.
pub open spec fn least_cells(
    keys: Seq<Seq<Seq<char>>>,
    rows: Seq<usize>,
    urls: Seq<Seq<char>>,
    g: int,
) -> Seq<CellView> {
    let key = first_seen(keys)[g];
    seq![
        shown(key[0]),
        shown(urls[least_row(keys, rows, urls, key)->Some_0 as int]),
        counted(tallied(keys)[g] as int),
    ]
}

/// The rows of all phrases.
pub open spec fn least_rows(keys: Seq<Seq<Seq<char>>>, rows: Seq<usize>, urls: Seq<Seq<char>>) -> Seq<
    Seq<CellView>,
> {
    Seq::new(first_seen(keys).len(), |g: int| least_cells(keys, rows, urls, g))
}

/// What asking for search phrases with their smallest address comes to.
pub open spec fn q22_result(t: Table, q: ParsedQuery, n: nat) -> Result<
    Option<ResultView>,
    Seq<char>,
>
{
    if !q22_shape(q) {
        Ok(None)
    } else {
        bind(
            texts_of(t, "SearchPhrase"@),
            |strs: Seq<Seq<char>>|
                bind(
                    texts_of(t, "URL"@),
                    |urls: Seq<Seq<char>>|
                        with_rows(
                            t,
                            q,
                            n,
                            |rows: Seq<usize>|
                                Ok(
                                    Some(
                                        count_sorted(
                                            q,
                                            tallied(phrases(strs, rows)),
                                            least_rows(phrases(strs, rows), rows, urls),
                                        ),
                                    ),
                                ),
                        ),
                ),
        )
    }
}

/// The row with the smallest text for each of the numbered keys.
pub fn least_groups<K>(
    n: usize,
    ids: &Vec<usize>,
    rows: &Vec<usize>,
    strs: &Utf8Column,
    row_count: usize,
    Ghost(seen): Ghost<Seq<K>>,
    Ghost(keys): Ghost<Seq<K>>,
) -> (out: Vec<Option<usize>>)
    requires
        n == seen.len(),
        seen.no_duplicates(),
        numbered(seen, keys, ids@),
        rows@.len() == ids@.len(),
        strs.wf(),
        strs@.len() >= row_count,
        forall|i: int| 0 <= i < rows@.len() ==> (#[trigger] rows@[i]) < row_count,
    ensures
        out@.len() == n,
        forall|g: int|
            0 <= g < n ==> #[trigger] out@[g] == least_row(keys, rows@, strs@, seen[g]),
        forall|g: int|
            0 <= g < n ==> (#[trigger] out@[g] matches Some(r) ==> r < row_count),
{
    let mut out: Vec<Option<usize>> = Vec::new();
    let mut g: usize = 0;
    while g < n
        invariant
            g <= n,
            out@.len() == g,
            forall|k: int| 0 <= k < g ==> (#[trigger] out@[k]) is None,
        decreases n - g,
    {
        out.push(None);
        g = g + 1;
    }
    let mut i: usize = 0;
    while i < ids.len()
        invariant
            i <= ids@.len(),
            n == seen.len(),
            seen.no_duplicates(),
            numbered(seen, keys, ids@),
            rows@.len() == ids@.len(),
            strs.wf(),
            strs@.len() >= row_count,
            forall|i: int| 0 <= i < rows@.len() ==> (#[trigger] rows@[i]) < row_count,
            out@.len() == n,
            forall|g: int|
                0 <= g < n ==> #[trigger] out@[g] == least_row(
                    keys.take(i as int),
                    rows@,
                    strs@,
                    seen[g],
                ),
            forall|g: int|
                0 <= g < n ==> (#[trigger] out@[g] matches Some(r) ==> r < row_count),
        decreases ids@.len() - i,
    {
        let id: usize = ids[i];
        let r: usize = rows[i];
        assert(rows@[i as int] < row_count);
        assert(ids@[i as int] < seen.len());
        proof {
            assert(keys.take(i + 1).drop_last() =~= keys.take(i as int));
            assert(keys.take(i + 1).last() == seen[id as int]);
        }
        let replace = match out[id] {
            None => true,
            Some(m) => {
                assert(strs.row_ok(r as int));
                assert(out@[id as int] matches Some(x) ==> x < row_count);
                assert(strs.row_ok(m as int));
                str_less(strs.get(r), strs.get(m))
            },
        };
        let ghost before = out@;
        if replace {
            out.set(id, Some(r));
        }
        proof {
            assert forall|g: int| 0 <= g < n implies #[trigger] out@[g] == least_row(
                keys.take(i + 1),
                rows@,
                strs@,
                seen[g],
            ) by {
                assert(before[g] == least_row(keys.take(i as int), rows@, strs@, seen[g]));
                if g != id {
                    assert(seen[g] != seen[id as int]);
                }
            }
        }
        i = i + 1;
    }
    assert(keys.take(i as int) =~= keys);
    out
}

/// Search phrases with their smallest address, if that is what the query asks for.
pub fn try_fused_q22(table: &Table, parsed: &ParsedQuery, row_count: usize) -> (r: Result<
    Option<QueryResult>,
    Error,
>)
    requires
        table.wf(),
        table.holds_rows(row_count as int),
    ensures
        attempt(r) == q22_result(*table, *parsed, row_count as nat),
{
    if !is_q22_shape(parsed) {
        return Ok(None);
    }
    let strs = match text_column(table, "SearchPhrase", row_count) {
        Err(e) => {
            return Err(e);
        },
        Ok(None) => {
            return Ok(None);
        },
        Ok(Some(c)) => c,
    };
    let urls = match text_column(table, "URL", row_count) {
        Err(e) => {
            return Err(e);
        },
        Ok(None) => {
            return Ok(None);
        },
        Ok(Some(c)) => c,
    };
    let rows = match choose_rows(table, parsed, row_count) {
        Err(e) => {
            return Err(e);
        },
        Ok(None) => {
            return Ok(Some(empty_result(parsed)));
        },
        Ok(Some(r)) => r,
    };
    let keys = phrase_keys(strs, &rows, row_count);
    let ghost all = text_lists(keys@);
    let (index, ids) = group_texts(keys);
    let n: usize = index.len();
    proof {
        lemma_first_seen_distinct(all);
        assert(all.len() == rows@.len());
        assert forall|i: int| 0 <= i < all.len() implies (#[trigger] all[i]).len() == 1 by {
            assert(all[i] == seq![strs@[rows@[i] as int]]);
        }
        lemma_one_text(all);
    }
    let counts = count_groups::<Seq<Seq<char>>>(n, &ids, Ghost(index@), Ghost(all));
    let least = least_groups::<Seq<Seq<char>>>(
        n,
        &ids,
        &rows,
        urls,
        row_count,
        Ghost(index@),
        Ghost(all),
    );
    let mut out: Vec<Vec<Cell>> = Vec::new();
    let mut g: usize = 0;
    while g < n
        invariant
            g <= n == index@.len(),
            index@ == first_seen(all),
            counts@ == tallied(all),
            all.len() == rows@.len(),
            urls.wf(),
            urls@.len() >= row_count,
            least@.len() == n,
            forall|g: int|
                0 <= g < n ==> #[trigger] least@[g] == least_row(all, rows@, urls@, index@[g]),
            forall|g: int|
                0 <= g < n ==> (#[trigger] least@[g] matches Some(r) ==> r < row_count),
            forall|g: int| 0 <= g < index@.len() ==> (#[trigger] index@[g]).len() == 1,
            out@.len() == g,
            forall|k: int|
                0 <= k < g ==> cells((#[trigger] out@[k])@) == least_cells(all, rows@, urls@, k),
        decreases n - g,
    {
        let key = index.key(g);
        assert(index@[g as int].len() == 1);
        assert(texts(key@).len() == 1);
        assert(texts(key@)[0] == key@[0]@);
        proof {
            lemma_first_seen_distinct(all);
            assert(first_seen(all).contains(first_seen(all)[g as int]));
            law_least_row(all, rows@, urls@, index@[g as int]);
            assert(least@[g as int] == least_row(all, rows@, urls@, index@[g as int]));
        }
        let at: usize = least[g].unwrap();
        assert(least@[g as int] matches Some(r) ==> r < row_count);
        assert(urls.row_ok(at as int));
        let mut row: Vec<Cell> = Vec::new();
        row.push(Cell::Text(key[0].clone()));
        row.push(text_cell(urls.get(at)));
        row.push(number_cell(counts[g] as i128));
        assert(cells(row@) =~= least_cells(all, rows@, urls@, g as int));
        out.push(row);
        g = g + 1;
    }
    assert(cell_rows(out@) =~= least_rows(all, rows@, urls@));
    Ok(Some(finish_count_sorted_scan(parsed, &counts, &out)))
}

} // verus!
