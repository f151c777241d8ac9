//! Traffic by source and address.
use crate::error::Error;
use crate::exec::agg_heap::{by_count, lemma_top, ranks, top};
use crate::exec::agg_topk::{entry_counts, picked, streamed};
use crate::exec::group::{is_identifier, is_name, resolve_group_expr, resolved};
use crate::exec::group_fused_phrase::{
    lemma_place, lemma_streamed, numbers_of, stream_counts,
};
use crate::exec::grouping::group_texts;
use crate::exec::hash::{first_seen, text_lists};
use crate::exec::kernel::{
    bind, choose_rows, i16_column, i16s_of, is_count_form, mapped, show_texts, shows_counts,
    text_column, text_keys, texts_of, with_count, with_rows,
};
use crate::exec::result::{
    attempt, cell_rows, cells, counted, empty_result, headings, labels, limit_of, number_cell,
    offset_of, query_limit, query_offset, Cell, CellView, QueryResult, ResultView,
};
use crate::sql::ast::{BinaryOperator, Expr, Literal, ParsedQuery};
use crate::storage::table::Table;
use crate::text::{decimal, int_text, str_eq, texts};
use vstd::prelude::*;

verus! {

/// Counted keys as rows.
pub open spec fn keyed_entries(entries: Seq<(u128, u64)>, seen: Seq<Seq<Seq<char>>>) -> Seq<
    Seq<CellView>,
> {
    Seq::new(entries.len(), |i: int| with_count(seen[entries[i].0 as int], entries[i].1))
}

/// The most frequent keys with their counts: counted one after another, and where
/// frequent keys crowd out others, only as frequent as they were since.
pub open spec fn frequent_keys(
    keys: Seq<Seq<Seq<char>>>,
    limit: usize,
    offset: usize,
    factor: usize,
) -> Seq<Seq<CellView>> {
    let entries = streamed(numbers_of(keys), limit, offset, factor);
    let best = picked(
        entries,
        top(by_count(entry_counts(entries)), entries.len(), limit, offset),
    );
    keyed_entries(best, first_seen(keys))
}

/// The most frequent keys with their counts.
pub fn stream_keys(keys: Vec<Vec<String>>, limit: usize, offset: usize, factor: usize) -> (rows: Vec<
    Vec<Cell>,
>)
    requires
        factor >= 4,
    ensures
        cell_rows(rows@) == frequent_keys(text_lists(keys@), limit, offset, factor),
{
    let ghost all = text_lists(keys@);
    let total: usize = keys.len();
    let (index, ids) = group_texts(keys);
    let ghost seen = index@;
    let known: usize = index.len();
    let mut nums: Vec<u128> = Vec::new();
    let mut i: usize = 0;
    while i < ids.len()
        invariant
            i <= ids@.len(),
            nums@.len() == i,
            forall|k: int| 0 <= k < i ==> #[trigger] nums@[k] == ids@[k],
        decreases ids@.len() - i,
    {
        nums.push(ids[i] as u128);
        i = i + 1;
    }
    proof {
        assert forall|k: int| 0 <= k < nums@.len() implies nums@[k] == numbers_of(all)[k] by {
            lemma_place(all, ids@, k);
        }
        assert(nums@ =~= numbers_of(all));
        assert(all.len() == total);
        lemma_streamed(nums@, limit, offset, factor);
    }
    let t = stream_counts(&nums, limit, offset, factor);
    let ghost entries = t@;
    let best = t.finish();
    proof {
        let rule = by_count(entry_counts(entries));
        assert(ranks(rule));
        lemma_top(rule, entries.len(), limit, offset);
        assert forall|k: int| 0 <= k < best@.len() implies (#[trigger] best@[k]).0 < seen.len() by {
            let w = top(rule, entries.len(), limit, offset);
            assert(w[k] < entries.len());
            assert(best@[k] == entries[w[k] as int]);
            assert(nums@.contains(entries[w[k] as int].0));
            let j = choose|j: int| 0 <= j < nums@.len() && nums@[j] == entries[w[k] as int].0;
            assert(ids@[j] < seen.len());
        }
    }
    let mut rows: Vec<Vec<Cell>> = Vec::new();
    let mut m: usize = 0;
    while m < best.len()
        invariant
            m <= best@.len(),
            index@ == seen,
            known == seen.len(),
            forall|k: int| 0 <= k < best@.len() ==> (#[trigger] best@[k]).0 < seen.len(),
            rows@.len() == m,
            forall|j: int|
                0 <= j < m ==> cells((#[trigger] rows@[j])@) == keyed_entries(best@, seen)[j],
        decreases best@.len() - m,
    {
        let e: (u128, u64) = best[m];
        assert(best@[m as int].0 < seen.len());
        let mut row = show_texts(index.key(e.0 as usize));
        let ghost sofar = row@;
        row.push(number_cell(e.1 as i128));
        assert(cells(row@) =~= cells(sofar).push(counted(e.1 as int)));
        rows.push(row);
        m = m + 1;
    }
    assert(cell_rows(rows@) =~= keyed_entries(best@, seen));
    rows
}

/// Whether an expression asks whether a column is zero.
pub open spec fn is_zero(e: Expr, name: Seq<char>) -> bool {
    match e {
        Expr::BinaryOp { left, op: BinaryOperator::Eq, right } => is_name(*left, name)
            && match *right {
            Expr::Value(Literal::Number(s)) => s@ == "0"@,
            _ => false,
        },
        _ => false,
    }
}

fn asks_zero(e: &Expr, name: &str) -> (r: bool)
    ensures
        r == is_zero(*e, name@),
{
    match e {
        Expr::BinaryOp { left, op: BinaryOperator::Eq, right } => {
            let named = is_identifier(left, name);
            match &**right {
                Expr::Value(Literal::Number(s)) => named && str_eq(s.as_str(), "0"),
                _ => false,
            }
        },
        _ => false,
    }
}

/// Whether an expression asks whether neither a search engine nor an advertisement
/// brought the visit.
pub open spec fn is_direct(e: Expr) -> bool
    decreases e,
{
    match e {
        Expr::Nested(x) => is_direct(*x),
        Expr::BinaryOp { left, op: BinaryOperator::And, right } => is_zero(
            *left,
            "SearchEngineID"@,
        ) && is_zero(*right, "AdvEngineID"@),
        _ => false,
    }
}

fn asks_direct(e: &Expr) -> (r: bool)
    ensures
        r == is_direct(*e),
    decreases *e,
{
    match e {
        Expr::Nested(x) => asks_direct(x),
        Expr::BinaryOp { left, op: BinaryOperator::And, right } => asks_zero(
            left,
            "SearchEngineID",
        ) && asks_zero(right, "AdvEngineID"),
        _ => false,
    }
}

/// Whether an expression is an empty text.
pub open spec fn is_blank(e: Expr) -> bool {
    match e {
        Expr::Value(Literal::SingleQuotedString(s)) => s@ == ""@,
        _ => false,
    }
}

/// Whether an expression is an empty text.
pub fn is_blank_text(e: &Expr) -> (r: bool)
    ensures
        r == is_blank(*e),
{
    match e {
        Expr::Value(Literal::SingleQuotedString(s)) => str_eq(s.as_str(), ""),
        _ => false,
    }
}

/// Whether an expression gives the source: the referer where neither a search engine nor
/// an advertisement brought the visit, else nothing.
pub open spec fn gives_source(e: Expr) -> bool {
    match e {
        Expr::Case { operand, conditions, results, else_result } => {
            &&& operand is None
            &&& conditions@.len() == 1
            &&& is_direct(conditions@[0])
            &&& results@.len() == 1
            &&& is_name(results@[0], "Referer"@)
            &&& else_result is Some
            &&& is_blank(*else_result->Some_0)
        },
        _ => false,
    }
}

fn is_source(e: &Expr) -> (r: bool)
    ensures
        r == gives_source(*e),
{
    match e {
        Expr::Case { operand, conditions, results, else_result } => {
            let otherwise = match else_result {
                Some(x) => is_blank_text(x),
                None => false,
            };
            operand.is_none() && conditions.len() == 1 && results.len() == 1 && asks_direct(
                &conditions[0],
            ) && is_identifier(&results[0], "Referer") && otherwise
        },
        _ => false,
    }
}

/// Whether a query counts rows by the numbers of the traffic, its source and the
/// address, and shows these with their counts.
pub open spec fn q40_shape(q: ParsedQuery) -> bool {
    &&& q.group_by@.len() == 5
    &&& is_name(resolved(q.group_by@[0], q.select_items@), "TraficSourceID"@)
    &&& is_name(resolved(q.group_by@[1], q.select_items@), "SearchEngineID"@)
    &&& is_name(resolved(q.group_by@[2], q.select_items@), "AdvEngineID"@)
    &&& gives_source(resolved(q.group_by@[3], q.select_items@))
    &&& is_name(resolved(q.group_by@[4], q.select_items@), "URL"@)
    &&& shows_counts(q)
    &&& q.limit is Some
}

/// Whether a query counts rows by the numbers of the traffic, its source and the
/// address, and shows these with their counts.
pub fn is_q40_shape(parsed: &ParsedQuery) -> (r: bool)
    ensures
        r == q40_shape(*parsed),
{
    if parsed.group_by.len() != 5 || parsed.limit.is_none() {
        return false;
    }
    let items = &parsed.select_items;
    is_identifier(resolve_group_expr(&parsed.group_by[0], items), "TraficSourceID")
        && is_identifier(resolve_group_expr(&parsed.group_by[1], items), "SearchEngineID")
        && is_identifier(resolve_group_expr(&parsed.group_by[2], items), "AdvEngineID")
        && is_source(resolve_group_expr(&parsed.group_by[3], items)) && is_identifier(
        resolve_group_expr(&parsed.group_by[4], items),
        "URL",
    ) && is_count_form(parsed)
}

/// The columns of the traffic.
pub struct Traffic {
    pub source: Seq<i16>,
    pub search: Seq<i16>,
    pub adv: Seq<i16>,
    pub referer: Seq<Seq<char>>,
    pub url: Seq<Seq<char>>,
}

impl Traffic {
    /// The key of a row: the referer counts only where neither a search engine nor an
    /// advertisement brought the visit.
    pub open spec fn key(self, r: int) -> Seq<Seq<char>> {
        seq![
            decimal(self.source[r] as int),
            decimal(self.search[r] as int),
            decimal(self.adv[r] as int),
            if self.search[r] == 0 && self.adv[r] == 0 {
                self.referer[r]
            } else {
                ""@
            },
            self.url[r],
        ]
    }
}

/// What counting the traffic comes to.
pub open spec fn q40_result(t: Table, q: ParsedQuery, n: nat) -> Result<
    Option<ResultView>,
    Seq<char>,
>
{
    if !q40_shape(q) {
        Ok(None)
    } else {
        bind(
            i16s_of(t, "TraficSourceID"@),
            |source: Seq<i16>|
                bind(
                    i16s_of(t, "SearchEngineID"@),
                    |search: Seq<i16>|
                        bind(
                            i16s_of(t, "AdvEngineID"@),
                            |adv: Seq<i16>|
                                bind(
                                    texts_of(t, "Referer"@),
                                    |referer: Seq<Seq<char>>|
                                        bind(
                                            texts_of(t, "URL"@),
                                            |url: Seq<Seq<char>>|
                                                with_rows(
                                                    t,
                                                    q,
                                                    n,
                                                    |rows: Seq<usize>|
                                                        Ok(
                                                            Some(
                                                                traffic_rows(
                                                                    q,
                                                                    Traffic {
                                                                        source,
                                                                        search,
                                                                        adv,
                                                                        referer,
                                                                        url,
                                                                    },
                                                                    rows,
                                                                ),
                                                            ),
                                                        ),
                                                ),
                                        ),
                                ),
                        ),
                ),
        )
    }
}

/// The traffic of rows, most frequent first.
pub open spec fn traffic_rows(q: ParsedQuery, v: Traffic, rows: Seq<usize>) -> ResultView {
    ResultView {
        columns: labels(q.select_items@),
        rows: frequent_keys(
            mapped(rows, |r: usize| v.key(r as int)),
            query_limit(q),
            query_offset(q),
            32,
        ),
    }
}

/// Counts the traffic, if that is what the query asks for.
pub fn try_fused_q40(table: &Table, parsed: &ParsedQuery, row_count: usize) -> (r: Result<
    Option<QueryResult>,
    Error,
>)
    requires
        table.wf(),
        table.holds_rows(row_count as int),
    ensures
        attempt(r) == q40_result(*table, *parsed, row_count as nat),
{
    if !is_q40_shape(parsed) {
        return Ok(None);
    }
    let source = match i16_column(table, "TraficSourceID", row_count) {
        Err(e) => {
            return Err(e);
        },
        Ok(None) => {
            return Ok(None);
        },
        Ok(Some(c)) => c,
    };
    let search = match i16_column(table, "SearchEngineID", row_count) {
        Err(e) => {
            return Err(e);
        },
        Ok(None) => {
            return Ok(None);
        },
        Ok(Some(c)) => c,
    };
    let adv = match i16_column(table, "AdvEngineID", row_count) {
        Err(e) => {
            return Err(e);
        },
        Ok(None) => {
            return Ok(None);
        },
        Ok(Some(c)) => c,
    };
    let referer = match text_column(table, "Referer", row_count) {
        Err(e) => {
            return Err(e);
        },
        Ok(None) => {
            return Ok(None);
        },
        Ok(Some(c)) => c,
    };
    let url = match text_column(table, "URL", row_count) {
        Err(e) => {
            return Err(e);
        },
        Ok(None) => {
            return Ok(None);
        },
        Ok(Some(c)) => c,
    };
    let rows = match choose_rows(table, parsed, row_count) {
        Err(e) => {
            return Err(e);
        },
        Ok(None) => {
            return Ok(Some(empty_result(parsed)));
        },
        Ok(Some(r)) => r,
    };
    let ghost v = Traffic {
        source: source@,
        search: search@,
        adv: adv@,
        referer: referer@,
        url: url@,
    };
    let ghost key = |r: usize| v.key(r as int);
    let key_at = |r: usize| -> (k: Vec<String>)
        requires
            row_count > r,
        ensures
            texts(k@) == key(r),
    {
        assert(referer.row_ok(r as int));
        assert(url.row_ok(r as int));
        let s: i16 = search.get(r);
        let a: i16 = adv.get(r);
        let from = if s == 0 && a == 0 {
            referer.get(r)
        } else {
            ""
        };
        five_texts(
            int_text(source.get(r) as i128),
            int_text(s as i128),
            int_text(a as i128),
            String::from_str(from),
            String::from_str(url.get(r)),
        )
    };
    let keys = text_keys(&rows, key_at, Ghost(key));
    let out = stream_keys(keys, limit_of(parsed), offset_of(parsed), 32);
    let result = QueryResult { columns: headings(parsed), rows: out };
    assert(result@ == traffic_rows(*parsed, v, rows@));
    Ok(Some(result))
}

/// A list of five texts.
fn five_texts(a: String, b: String, c: String, d: String, e: String) -> (v: Vec<String>)
    ensures
        texts(v@) == seq![a@, b@, c@, d@, e@],
{
    let mut v: Vec<String> = Vec::new();
    v.push(a);
    v.push(b);
    v.push(c);
    v.push(d);
    v.push(e);
    assert(texts(v@) =~= seq![a@, b@, c@, d@, e@]);
    v
}

} // verus!
