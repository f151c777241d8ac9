//! Hosts of referers with the average length, the count and the smallest referer.
use crate::error::Error;
use crate::exec::group::{is_identifier, is_name};
use crate::exec::group_fused_q22::{law_least_row, least_groups, least_row};
use crate::exec::group_fused_region::{
    best_averages, is_count, lemma_one_text, rank_averages, url_lengths,
};
use crate::exec::group_referrer::{
    calls_on, groups_by_host, is_call_on, is_referrer_host_group,
};
use crate::exec::grouping::{count_groups, group_texts, sum_at, sum_groups, tallied};
use crate::exec::hash::{
    first_seen, lemma_first_seen_distinct, lemma_occurrences, text_lists, TextIndex,
};
use crate::exec::having::{parse_having_count_gt, threshold_of};
use crate::exec::kernel::{
    bind, choose_rows, int_values, is_keys_then, keys_then, mapped, one_text, text_column,
    text_keys, texts_of, with_rows,
};
use crate::exec::result::{
    attempt, cell_rows, cells, counted, empty_result, headings, labels, limit_of, number_cell,
    offset_of, query_limit, query_offset, shown, text_cell, Cell, CellView, QueryResult, ResultView,
};
use crate::exec::sorting::counts_rows;
use crate::expr::matching::{host_of, referer_host};
use crate::sql::ast::{ParsedQuery, SelectItemKind, SelectProjection};
use crate::storage::table::Table;
use crate::storage::utf8_col::Utf8Column;
use crate::text::texts;
use vstd::prelude::*;
use vstd::utf8::encode_utf8;

verus! {

/// Whether a projection averages the length of the referer.
pub open spec fn averages_referer(p: SelectProjection) -> bool {
    p.kind is Avg && calls_on(p.kind->Avg_0, "LENGTH"@, "Referer"@)
}

/// Whether a projection is the smallest referer.
pub open spec fn least_referer(p: SelectProjection) -> bool {
    p.kind is Min && is_name(p.kind->Min_0, "Referer"@)
}

/// Whether a query shows hosts, each with the average length of its referers, their count
/// and the smallest, sorted by the average if at all, with a limit.
pub open spec fn q29_shape(q: ParsedQuery) -> bool {
    &&& groups_by_host(q)
    &&& q.limit is Some
    &&& keys_then(q, 3, 0)
    &&& q.group_by@.len() == 1
    &&& averages_referer(q.select_items@[1])
    &&& counts_rows(q.select_items@[2])
    &&& least_referer(q.select_items@[3])
}

/// Whether a query shows hosts, each with the average length of its referers, their count
/// and the smallest, sorted by the average if at all, with a limit.
pub fn is_q29_shape(parsed: &ParsedQuery) -> (r: bool)
    ensures
        r == q29_shape(*parsed),
{
    if !is_referrer_host_group(parsed) || parsed.limit.is_none() || !is_keys_then(parsed, 3, 0)
        || parsed.group_by.len() != 1 {
        return false;
    }
    let average = match &parsed.select_items[1].kind {
        SelectItemKind::Avg(e) => is_call_on(e, "LENGTH", "Referer"),
        _ => false,
    };
    let least = match &parsed.select_items[3].kind {
        SelectItemKind::Min(e) => is_identifier(e, "Referer"),
        _ => false,
    };
    average && least && is_count(&parsed.select_items[2])
}

/// The hosts of rows, as keys.
pub open spec fn host_keys(strs: Seq<Seq<char>>, rows: Seq<usize>) -> Seq<Seq<Seq<char>>> {
    mapped(rows, |r: usize| seq![host_of(strs[r as int])])
}

/// The row of a host: the host, the average length, the count and the smallest
/// referer.
pub open spec fn host_cells(strs: Seq<Seq<char>>, rows: Seq<usize>, g: int) -> Seq<CellView> {
    let keys = host_keys(strs, rows);
    let key = first_seen(keys)[g];
    seq![
        shown(key[0]),
        CellView::Ratio {
            sum: sum_at(keys, url_lengths(strs, rows), key),
            count: tallied(keys)[g] as nat,
        },
        counted(tallied(keys)[g] as int),
        shown(strs[least_row(keys, rows, strs, key)->Some_0 as int]),
    ]
}

/// Hosts with their averages.
pub open spec fn host_rows(strs: Seq<Seq<char>>, rows: Seq<usize>, numbers: Seq<usize>) -> Seq<
    Seq<CellView>,
> {
    Seq::new(numbers.len(), |i: int| host_cells(strs, rows, numbers[i] as int))
}

/// Hosts with more referers than the threshold, the largest average first.
pub open spec fn hosts_ranked(q: ParsedQuery, strs: Seq<Seq<char>>, rows: Seq<usize>) -> ResultView {
    ResultView {
        columns: labels(q.select_items@),
        rows: host_rows(
            strs,
            rows,
            best_averages(
                host_keys(strs, rows),
                url_lengths(strs, rows),
                threshold_of(q.having)->Some_0,
                query_limit(q),
                query_offset(q),
            ),
        ),
    }
}

/// What asking for hosts with the average length of their referers comes to.
pub open spec fn q29_result(t: Table, q: ParsedQuery, n: nat) -> Result<
    Option<ResultView>,
    Seq<char>,
>
{
    if !q29_shape(q) || threshold_of(q.having) is None {
        Ok(None)
    } else {
        bind(
            texts_of(t, "Referer"@),
            |strs: Seq<Seq<char>>|
                with_rows(
                    t,
                    q,
                    n,
                    |rows: Seq<usize>| Ok(Some(hosts_ranked(q, strs, rows))),
                ),
        )
    }
}

/// Hosts with their averages.
fn show_hosts(
    index: &TextIndex,
    counts: &Vec<u64>,
    sums: &Vec<i128>,
    least: &Vec<Option<usize>>,
    numbers: &Vec<usize>,
    referer: &Utf8Column,
    Ghost(rows): Ghost<Seq<usize>>,
) -> (out: Vec<Vec<Cell>>)
    requires
        referer.wf(),
        index@ == first_seen(host_keys(referer@, rows)),
        counts@ == tallied(host_keys(referer@, rows)),
        sums@.len() == index@.len(),
        least@.len() == index@.len(),
        forall|g: int| 0 <= g < index@.len() ==> (#[trigger] index@[g]).len() == 1,
        forall|g: int|
            0 <= g < index@.len() ==> (#[trigger] sums@[g]) == sum_at(
                host_keys(referer@, rows),
                url_lengths(referer@, rows),
                index@[g],
            ),
        forall|g: int|
            0 <= g < index@.len() ==> (#[trigger] least@[g]) == least_row(
                host_keys(referer@, rows),
                rows,
                referer@,
                index@[g],
            ),
        forall|g: int|
            0 <= g < index@.len() ==> (#[trigger] least@[g]) is Some && least@[g]->Some_0
                < referer@.len(),
        forall|k: int| 0 <= k < numbers@.len() ==> (#[trigger] numbers@[k]) < index@.len(),
    ensures
        cell_rows(out@) == host_rows(referer@, rows, numbers@),
{
    let mut out: Vec<Vec<Cell>> = Vec::new();
    let mut j: usize = 0;
    let ghost keys = host_keys(referer@, rows);
    let ghost vals = url_lengths(referer@, rows);
    while j < numbers.len()
        invariant
            j <= numbers@.len(),
            referer.wf(),
            keys == host_keys(referer@, rows),
            vals == url_lengths(referer@, rows),
            index@ == first_seen(keys),
            counts@ == tallied(keys),
            sums@.len() == index@.len(),
            least@.len() == index@.len(),
            forall|g: int| 0 <= g < index@.len() ==> (#[trigger] index@[g]).len() == 1,
            forall|g: int|
                0 <= g < index@.len() ==> (#[trigger] sums@[g]) == sum_at(keys, vals, index@[g]),
            forall|g: int|
                0 <= g < index@.len() ==> (#[trigger] least@[g]) == least_row(
                    keys,
                    rows,
                    referer@,
                    index@[g],
                ),
            forall|g: int|
                0 <= g < index@.len() ==> (#[trigger] least@[g]) is Some && least@[g]->Some_0
                    < referer@.len(),
            forall|k: int| 0 <= k < numbers@.len() ==> (#[trigger] numbers@[k]) < index@.len(),
            out@.len() == j,
            forall|k: int|
                0 <= k < j ==> cells((#[trigger] out@[k])@) == host_cells(
                    referer@,
                    rows,
                    numbers@[k] as int,
                ),
        decreases numbers@.len() - j,
    {
        assert(numbers@[j as int] < index@.len());
        let g: usize = numbers[j];
        let key = index.key(g);
        assert(index@[g as int].len() == 1);
        assert(texts(key@).len() == 1);
        assert(texts(key@)[0] == key@[0]@);
        assert(sums@[g as int] == sum_at(keys, vals, index@[g as int]));
        assert(least@[g as int] is Some);
        let at: usize = least[g].unwrap();
        assert(referer.row_ok(at as int));
        let mut row: Vec<Cell> = Vec::new();
        row.push(Cell::Text(key[0].clone()));
        row.push(Cell::Ratio { sum: sums[g], count: counts[g] });
        row.push(number_cell(counts[g] as i128));
        row.push(text_cell(referer.get(at)));
        assert(cells(row@) =~= host_cells(referer@, rows, g as int));
        out.push(row);
        j = j + 1;
    }
    assert(cell_rows(out@) =~= host_rows(referer@, rows, numbers@));
    out
}

/// Hosts with the average length of their referers, if that is what the query asks
/// for.
pub fn try_fused_q29(table: &Table, parsed: &ParsedQuery, row_count: usize) -> (r: Result<
    Option<QueryResult>,
    Error,
>)
    requires
        table.wf(),
        table.holds_rows(row_count as int),
    ensures
        attempt(r) == q29_result(*table, *parsed, row_count as nat),
{
    if !is_q29_shape(parsed) {
        return Ok(None);
    }
    let threshold = match parse_having_count_gt(&parsed.having) {
        Some(n) => n,
        None => {
            return Ok(None);
        },
    };
    let referer = match text_column(table, "Referer", row_count) {
        Err(e) => {
            return Err(e);
        },
        Ok(None) => {
            return Ok(None);
        },
        Ok(Some(c)) => c,
    };
    let rows = match choose_rows(table, parsed, row_count) {
        Err(e) => {
            return Err(e);
        },
        Ok(None) => {
            return Ok(Some(empty_result(parsed)));
        },
        Ok(Some(r)) => r,
    };
    let ghost key = |r: usize| seq![host_of(referer@[r as int])];
    let key_at = |r: usize| -> (k: Vec<String>)
        requires
            row_count > r,
        ensures
            texts(k@) == key(r),
    {
        assert(referer.row_ok(r as int));
        one_text(referer_host(referer.get(r)))
    };
    let ghost length = |r: usize| encode_utf8(referer@[r as int]).len() as i64;
    let length_of = |r: usize| -> (k: i64)
        requires
            row_count > r,
        ensures
            k == length(r),
    {
        assert(referer.row_ok(r as int));
        referer.get(r).as_bytes().len() as i64
    };
    let keys = text_keys(&rows, key_at, Ghost(key));
    let lengths = int_values(&rows, length_of, Ghost(length));
    let ghost all = text_lists(keys@);
    let (index, ids) = group_texts(keys);
    let n: usize = index.len();
    proof {
        lemma_first_seen_distinct(all);
        assert(all =~= host_keys(referer@, rows@));
        assert(lengths@ =~= url_lengths(referer@, rows@));
        assert forall|i: int| 0 <= i < all.len() implies (#[trigger] all[i]).len() == 1 by {
            assert(all[i] == key(rows@[i]));
        }
        lemma_one_text(all);
    }
    let counts = count_groups::<Seq<Seq<char>>>(n, &ids, Ghost(index@), Ghost(all));
    let sums = sum_groups::<Seq<Seq<char>>>(n, &ids, &lengths, Ghost(index@), Ghost(all));
    let least = least_groups::<Seq<Seq<char>>>(
        n,
        &ids,
        &rows,
        referer,
        row_count,
        Ghost(index@),
        Ghost(all),
    );
    proof {
        assert forall|g: int| 0 <= g < counts@.len() implies (#[trigger] counts@[g]) > 0 by {
            assert(index@.contains(index@[g]));
            lemma_occurrences(all, index@[g]);
        }
        assert forall|g: int| 0 <= g < n implies (#[trigger] least@[g]) is Some
            && least@[g]->Some_0 < referer@.len() by {
            assert(index@.contains(index@[g]));
            law_least_row(all, rows@, referer@, index@[g]);
            assert(least@[g] == least_row(all, rows@, referer@, index@[g]));
            assert(least@[g] matches Some(r) ==> r < row_count);
        }
    }
    let limit: usize = limit_of(parsed);
    let numbers = rank_averages(
        &index,
        &counts,
        &sums,
        threshold,
        limit,
        offset_of(parsed),
        Ghost(all),
        Ghost(lengths@),
    );
    let out = show_hosts(&index, &counts, &sums, &least, &numbers, referer, Ghost(rows@));
    let result = QueryResult { columns: headings(parsed), rows: out };
    assert(result@ == hosts_ranked(*parsed, referer@, rows@));
    Ok(Some(result))
}

} // verus!
