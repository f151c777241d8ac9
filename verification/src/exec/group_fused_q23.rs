//! Search phrases of pages about one engine that are not its own, with their smallest
//! address and title, their count and their different users.
use crate::error::{fails, yields, Error};
use crate::exec::agg_heap::{top_counts, top, by_count};
use crate::exec::group::{is_identifier, is_name};
use crate::exec::group_fused_q22::{is_least_url, law_least_row, least_groups, least_row, least_url};
use crate::exec::group_fused_q40::{is_blank, is_blank_text};
use crate::exec::group_fused_region::{is_count, lemma_one_text, names_column};
use crate::exec::group_fused_text::{phrase_keys, phrases};
use crate::exec::grouping::{count_groups, distinct_at, distinct_groups, group_texts, tallied};
use crate::exec::hash::{first_seen, lemma_first_seen_distinct, text_lists};
use crate::exec::kernel::{is_keys_then, keys_then};
use crate::exec::mask_util::selected;
use crate::exec::result::{
    attempt, cell_rows, cells, counted, headings, labels, limit_of, number_cell, offset_of,
    query_limit, query_offset, shown, text_cell, Cell, CellView, QueryResult, ResultView,
};
use crate::exec::sorting::counts_rows;
use crate::expr::matching::{occurs, str_contains};
use crate::sql::ast::{
    BinaryOperator, Expr, Literal, ParsedQuery, SelectItemKind, SelectProjection,
};
use crate::sql::query::column_name;
use crate::storage::column::sidecar_of;
use crate::storage::column_stream::{
    numbers_scanned, texts_scanned, Int64ColumnScan, Utf8ColumnScan,
};
use crate::storage::table::{file_of, file_sidecar, find_file, ColumnFile};
use crate::text::{join3, str_eq, texts};
use vstd::prelude::*;
use vstd::utf8::encode_utf8;

verus! {

/// Whether a projection is the smallest title.
pub open spec fn least_title(p: SelectProjection) -> bool {
    p.kind is Min && column_name(p.kind->Min_0) == Some("Title"@)
}

/// Whether a projection is the number of different users.
pub open spec fn users_counted(p: SelectProjection) -> bool {
    p.kind is CountDistinct && column_name(p.kind->CountDistinct_0) == Some("UserID"@)
}

/// Whether an expression compares a column with a pattern.
pub open spec fn likens(e: Expr, name: Seq<char>, text: Seq<char>, not: bool) -> bool {
    match e {
        Expr::Like { negated, expr, pattern } => negated == not && is_name(*expr, name)
            && match *pattern {
            Expr::Value(Literal::SingleQuotedString(s)) => s@ == text,
            _ => false,
        },
        _ => false,
    }
}

fn is_likened(e: &Expr, name: &str, text: &str, not: bool) -> (r: bool)
    ensures
        r == likens(*e, name@, text@, not),
{
    match e {
        Expr::Like { negated, expr, pattern } => {
            let named = *negated == not && is_identifier(expr, name);
            match &**pattern {
                Expr::Value(Literal::SingleQuotedString(s)) => named && str_eq(s.as_str(), text),
                _ => false,
            }
        },
        _ => false,
    }
}

/// Whether an expression asks for phrases that are not empty.
pub open spec fn phrase_given(e: Expr) -> bool {
    match e {
        Expr::BinaryOp { left, op: BinaryOperator::NotEq, right } => is_name(
            *left,
            "SearchPhrase"@,
        ) && is_blank(*right),
        _ => false,
    }
}

fn is_phrase_given(e: &Expr) -> (r: bool)
    ensures
        r == phrase_given(*e),
{
    match e {
        Expr::BinaryOp { left, op: BinaryOperator::NotEq, right } => is_identifier(
            left,
            "SearchPhrase",
        ) && is_blank_text(right),
        _ => false,
    }
}

/// Whether a condition asks for pages about the engine that are not its own and were
/// searched for.
pub open spec fn asks_about_engine(e: Expr) -> bool {
    match e {
        Expr::BinaryOp { left, op: BinaryOperator::And, right } => phrase_given(*right)
            && match *left {
            Expr::BinaryOp { left: a, op: BinaryOperator::And, right: b } => likens(
                *a,
                "Title"@,
                "%Google%"@,
                false,
            ) && likens(*b, "URL"@, "%.google.%"@, true),
            _ => false,
        },
        _ => false,
    }
}

fn is_about_engine(e: &Expr) -> (r: bool)
    ensures
        r == asks_about_engine(*e),
{
    match e {
        Expr::BinaryOp { left, op: BinaryOperator::And, right } => {
            let given = is_phrase_given(right);
            match &**left {
                Expr::BinaryOp { left: a, op: BinaryOperator::And, right: b } => given
                    && is_likened(a, "Title", "%Google%", false) && is_likened(
                    b,
                    "URL",
                    "%.google.%",
                    true,
                ),
                _ => false,
            }
        },
        _ => false,
    }
}

/// Whether a query shows search phrases of pages about the engine, each with its smallest
/// address and title, its count and its different users, sorted by the count if at all,
/// and has no condition on groups.
pub open spec fn q23_shape(q: ParsedQuery) -> bool {
    &&& q.group_by@.len() == 1
    &&& is_name(q.group_by@[0], "SearchPhrase"@)
    &&& q.where_expr is Some
    &&& asks_about_engine(q.where_expr->Some_0)
    &&& q.having is None
    &&& keys_then(q, 4, 2)
    &&& least_url(q.select_items@[1])
    &&& least_title(q.select_items@[2])
    &&& counts_rows(q.select_items@[3])
    &&& users_counted(q.select_items@[4])
}

/// Whether a query shows search phrases of pages about the engine, each with its smallest
/// address and title, its count and its different users, sorted by the count if at all,
/// and has no condition on groups.
pub fn is_q23_shape(parsed: &ParsedQuery) -> (r: bool)
    ensures
        r == q23_shape(*parsed),
{
    if parsed.group_by.len() != 1 || !is_identifier(&parsed.group_by[0], "SearchPhrase")
        || parsed.having.is_some() || !is_keys_then(parsed, 4, 2) {
        return false;
    }
    let asked = match &parsed.where_expr {
        Some(e) => is_about_engine(e),
        None => false,
    };
    let title = match &parsed.select_items[2].kind {
        SelectItemKind::Min(e) => names_column(e, "Title"),
        _ => false,
    };
    let users = match &parsed.select_items[4].kind {
        SelectItemKind::CountDistinct(e) => names_column(e, "UserID"),
        _ => false,
    };
    asked && title && users && is_least_url(&parsed.select_items[1]) && is_count(&parsed.select_items[3])
}

/// Whether a page is about the engine, is not one of its own, and was searched for.
pub open spec fn about_engine(title: Seq<char>, url: Seq<char>, phrase: Seq<char>) -> bool {
    &&& occurs(encode_utf8(title), encode_utf8("Google"@))
    &&& !occurs(encode_utf8(url), encode_utf8(".google."@))
    &&& phrase.len() > 0
}

/// The rows of such pages.
pub open spec fn engine_rows(
    titles: Seq<Seq<char>>,
    urls: Seq<Seq<char>>,
    phrases: Seq<Seq<char>>,
    n: nat,
) -> Seq<usize> {
    selected(Seq::new(n, |i: int| about_engine(titles[i], urls[i], phrases[i])))
}

/// The rows of such pages.
pub fn build_q23_rows(
    title: &Utf8ColumnScan,
    url: &Utf8ColumnScan,
    phrase: &Utf8ColumnScan,
    row_count: usize,
) -> (rows: Vec<usize>)
    requires
        title.wf(),
        url.wf(),
        phrase.wf(),
        row_count <= title@.len(),
        row_count <= url@.len(),
        row_count <= phrase@.len(),
    ensures
        rows@ == engine_rows(title@, url@, phrase@, row_count as nat),
        forall|i: int| 0 <= i < rows@.len() ==> (#[trigger] rows@[i]) < row_count,
{
    let ghost mask = Seq::new(
        row_count as nat,
        |i: int| about_engine(title@[i], url@[i], phrase@[i]),
    );
    let mut rows: Vec<usize> = Vec::new();
    let mut i: usize = 0;
    assert(mask.take(0) =~= Seq::<bool>::empty());
    assert(rows@ =~= selected(mask.take(0)));
    while i < row_count
        invariant
            i <= row_count,
            title.wf(),
            url.wf(),
            phrase.wf(),
            row_count <= title@.len(),
            row_count <= url@.len(),
            row_count <= phrase@.len(),
            mask == Seq::new(
                row_count as nat,
                |i: int| about_engine(title@[i], url@[i], phrase@[i]),
            ),
            rows@ == selected(mask.take(i as int)),
            forall|k: int| 0 <= k < rows@.len() ==> (#[trigger] rows@[k]) < i,
        decreases row_count - i,
    {
        assert(mask.take(i + 1).drop_last() =~= mask.take(i as int));
        assert(mask.take(i + 1).last() == mask[i as int]);
        if str_contains(title.str_at(i), "Google") && !str_contains(url.str_at(i), ".google.")
            && !phrase.str_at(i).is_empty() {
            rows.push(i);
        }
        i = i + 1;
    }
    assert(mask.take(i as int) =~= mask);
    rows
}

/// The values of the users of rows.
pub open spec fn users_at(users: Seq<i64>, rows: Seq<usize>) -> Seq<i64> {
    Seq::new(rows.len(), |i: int| users[rows[i] as int])
}

/// The row of a phrase.
pub open spec fn q23_cells(
    keys: Seq<Seq<Seq<char>>>,
    rows: Seq<usize>,
    urls: Seq<Seq<char>>,
    titles: Seq<Seq<char>>,
    users: Seq<i64>,
    g: int,
) -> Seq<CellView> {
    let key = first_seen(keys)[g];
    seq![
        shown(key[0]),
        shown(urls[least_row(keys, rows, urls, key)->Some_0 as int]),
        shown(titles[least_row(keys, rows, titles, key)->Some_0 as int]),
        counted(tallied(keys)[g] as int),
        counted(distinct_at(keys, users_at(users, rows), key).len() as int),
    ]
}

/// The rows of the most frequent phrases.
pub open spec fn q23_rows(
    rows: Seq<usize>,
    phrase: Seq<Seq<char>>,
    urls: Seq<Seq<char>>,
    titles: Seq<Seq<char>>,
    users: Seq<i64>,
    limit: usize,
    offset: usize,
) -> Seq<Seq<CellView>> {
    let keys = phrases(phrase, rows);
    let best = top(by_count(tallied(keys)), tallied(keys).len(), limit, offset);
    Seq::new(best.len(), |i: int| q23_cells(keys, rows, urls, titles, users, best[i] as int))
}

/// The users of rows.
fn users_of_rows(users: &Int64ColumnScan, rows: &Vec<usize>) -> (vals: Vec<i64>)
    requires
        forall|i: int| 0 <= i < rows@.len() ==> (#[trigger] rows@[i]) < users@.len(),
    ensures
        vals@ == users_at(users@, rows@),
{
    let mut vals: Vec<i64> = Vec::new();
    let mut i: usize = 0;
    while i < rows.len()
        invariant
            i <= rows@.len(),
            forall|i: int| 0 <= i < rows@.len() ==> (#[trigger] rows@[i]) < users@.len(),
            vals@.len() == i,
            forall|k: int| 0 <= k < i ==> #[trigger] vals@[k] == users@[rows@[k] as int],
        decreases rows@.len() - i,
    {
        vals.push(users.at(rows[i]));
        i = i + 1;
    }
    assert(vals@ =~= users_at(users@, rows@));
    vals
}

/// The rows of the most frequent phrases.
pub fn pass2_top_details(
    rows: &Vec<usize>,
    phrase: &Utf8ColumnScan,
    url: &Utf8ColumnScan,
    title: &Utf8ColumnScan,
    users: &Int64ColumnScan,
    row_count: usize,
    limit: usize,
    offset: usize,
) -> (out: Vec<Vec<Cell>>)
    requires
        title.wf(),
        url.wf(),
        phrase.wf(),
        row_count <= title@.len(),
        row_count <= url@.len(),
        row_count <= phrase@.len(),
        row_count <= users@.len(),
        forall|i: int| 0 <= i < rows@.len() ==> (#[trigger] rows@[i]) < row_count,
    ensures
        cell_rows(out@) == q23_rows(rows@, phrase@, url@, title@, users@, limit, offset),
{
    let strs = phrase.as_column();
    let urls = url.as_column();
    let titles = title.as_column();
    let keys = phrase_keys(strs, rows, row_count);
    let ghost all = text_lists(keys@);
    let (index, ids) = group_texts(keys);
    let n: usize = index.len();
    proof {
        lemma_first_seen_distinct(all);
        assert(all.len() == rows@.len());
        assert forall|i: int| 0 <= i < all.len() implies (#[trigger] all[i]).len() == 1 by {
            assert(all[i] == seq![strs@[rows@[i] as int]]);
        }
        lemma_one_text(all);
    }
    let counts = count_groups::<Seq<Seq<char>>>(n, &ids, Ghost(index@), Ghost(all));
    let least = least_groups::<Seq<Seq<char>>>(
        n,
        &ids,
        rows,
        urls,
        row_count,
        Ghost(index@),
        Ghost(all),
    );
    let first = least_groups::<Seq<Seq<char>>>(
        n,
        &ids,
        rows,
        titles,
        row_count,
        Ghost(index@),
        Ghost(all),
    );
    let vals = users_of_rows(users, rows);
    let different = distinct_groups::<Seq<Seq<char>>>(
        n,
        &ids,
        &vals,
        Ghost(index@),
        Ghost(all),
    );
    assert(counts@ =~= tallied(all));
    let best = top_counts(&counts, limit, offset);
    let mut out: Vec<Vec<Cell>> = Vec::new();
    let mut b: usize = 0;
    while b < best.len()
        invariant
            b <= best@.len(),
            n == index@.len(),
            index@ == first_seen(all),
            counts@ == tallied(all),
            all.len() == rows@.len(),
            urls.wf(),
            urls@ == url@,
            urls@.len() >= row_count,
            titles.wf(),
            titles@ == title@,
            titles@.len() >= row_count,
            vals@ == users_at(users@, rows@),
            least@.len() == n,
            first@.len() == n,
            different@.len() == n,
            forall|g: int|
                0 <= g < n ==> #[trigger] least@[g] == least_row(all, rows@, urls@, index@[g]),
            forall|g: int|
                0 <= g < n ==> (#[trigger] least@[g] matches Some(r) ==> r < row_count),
            forall|g: int|
                0 <= g < n ==> #[trigger] first@[g] == least_row(all, rows@, titles@, index@[g]),
            forall|g: int|
                0 <= g < n ==> (#[trigger] first@[g] matches Some(r) ==> r < row_count),
            forall|g: int|
                0 <= g < n ==> #[trigger] different@[g] == distinct_at(
                    all,
                    vals@,
                    index@[g],
                ).len(),
            forall|g: int| 0 <= g < index@.len() ==> (#[trigger] index@[g]).len() == 1,
            forall|i: int| 0 <= i < best@.len() ==> (#[trigger] best@[i]) < n,
            out@.len() == b,
            forall|k: int|
                0 <= k < b ==> cells((#[trigger] out@[k])@) == q23_cells(
                    all,
                    rows@,
                    url@,
                    title@,
                    users@,
                    best@[k] as int,
                ),
        decreases best@.len() - b,
    {
        let g: usize = best[b];
        assert(best@[b as int] < n);
        let key = index.key(g);
        assert(index@[g as int].len() == 1);
        assert(texts(key@).len() == 1);
        assert(texts(key@)[0] == key@[0]@);
        proof {
            lemma_first_seen_distinct(all);
            assert(first_seen(all).contains(first_seen(all)[g as int]));
            law_least_row(all, rows@, urls@, index@[g as int]);
            law_least_row(all, rows@, titles@, index@[g as int]);
            assert(least@[g as int] == least_row(all, rows@, urls@, index@[g as int]));
            assert(first@[g as int] == least_row(all, rows@, titles@, index@[g as int]));
        }
        let at: usize = least[g].unwrap();
        let top_title: usize = first[g].unwrap();
        assert(least@[g as int] matches Some(r) ==> r < row_count);
        assert(first@[g as int] matches Some(r) ==> r < row_count);
        assert(urls.row_ok(at as int));
        assert(titles.row_ok(top_title as int));
        let mut row: Vec<Cell> = Vec::new();
        row.push(Cell::Text(key[0].clone()));
        row.push(text_cell(urls.get(at)));
        row.push(text_cell(titles.get(top_title)));
        row.push(number_cell(counts[g] as i128));
        row.push(number_cell(different[g] as i128));
        assert(cells(row@) =~= q23_cells(all, rows@, url@, title@, users@, g as int));
        out.push(row);
        b = b + 1;
    }
    assert(cell_rows(out@) =~= q23_rows(
        rows@,
        phrase@,
        url@,
        title@,
        users@,
        limit,
        offset,
    ));
    out
}

/// The texts of a column of at least so many rows, out of its file.
pub open spec fn stored_texts(files: Seq<ColumnFile>, name: Seq<char>, n: nat) -> Result<
    Seq<Seq<char>>,
    Seq<char>,
> {
    match file_of(files, name) {
        None => Err("column file missing: "@ + name),
        Some(f) => match texts_scanned(f.data@, file_sidecar(f)) {
            Err(m) => Err(m),
            Ok(v) => if v.len() < n {
                Err("column shorter than the table"@)
            } else {
                Ok(v)
            },
        },
    }
}

/// The numbers of a column of at least so many rows, out of its file.
pub open spec fn stored_numbers(files: Seq<ColumnFile>, name: Seq<char>, n: nat) -> Result<
    Seq<i64>,
    Seq<char>,
> {
    match file_of(files, name) {
        None => Err("column file missing: "@ + name),
        Some(f) => match numbers_scanned(f.data@) {
            Err(m) => Err(m),
            Ok(v) => if v.len() < n {
                Err("column shorter than the table"@)
            } else {
                Ok(v)
            },
        },
    }
}

/// The failure to find the file of a column.
pub fn missing_file(name: &str) -> (e: Error)
    ensures
        e@ == "column file missing: "@ + name@,
{
    let m = join3("column file missing: ", name, "");
    proof {
        reveal_strlit("");
        assert(m@ =~= "column file missing: "@ + name@);
    }
    Error::Msg(m)
}

/// The texts of a column of at least so many rows, out of its file.
pub fn open_texts(files: &Vec<ColumnFile>, name: &str, row_count: usize) -> (r: Result<
    Utf8ColumnScan,
    Error,
>)
    ensures
        match r {
            Ok(s) => s.wf() && row_count <= s@.len() && yields(
                stored_texts(files@, name@, row_count as nat),
                s@,
            ),
            Err(e) => fails(stored_texts(files@, name@, row_count as nat), e@),
        },
{
    let file = match find_file(files, name) {
        Some(i) => &files[i],
        None => {
            return Err(missing_file(name));
        },
    };
    let idx: Option<&[u8]> = match &file.idx {
        Some(d) => Some(d.as_slice()),
        None => None,
    };
    assert(sidecar_of(idx) == file_sidecar(*file));
    match Utf8ColumnScan::open(file.data.as_slice(), idx) {
        Err(e) => Err(e),
        Ok(s) => if s.len() < row_count {
            Err(Error::msg("column shorter than the table"))
        } else {
            Ok(s)
        },
    }
}

/// The numbers of a column of at least so many rows, out of its file.
pub fn open_numbers(files: &Vec<ColumnFile>, name: &str, row_count: usize) -> (r: Result<
    Int64ColumnScan,
    Error,
>)
    ensures
        match r {
            Ok(s) => row_count <= s@.len() && yields(
                stored_numbers(files@, name@, row_count as nat),
                s@,
            ),
            Err(e) => fails(stored_numbers(files@, name@, row_count as nat), e@),
        },
{
    let file = match find_file(files, name) {
        Some(i) => &files[i],
        None => {
            return Err(missing_file(name));
        },
    };
    match Int64ColumnScan::open(file.data.as_slice()) {
        Err(e) => Err(e),
        Ok(s) => if s.as_slice().len() < row_count {
            Err(Error::msg("column shorter than the table"))
        } else {
            Ok(s)
        },
    }
}

/// What asking for such phrases comes to. The users are read only where there are
/// phrases.
pub open spec fn q23_result(files: Seq<ColumnFile>, q: ParsedQuery, n: nat) -> Result<
    Option<ResultView>,
    Seq<char>,
> {
    if !q23_shape(q) {
        Ok(None)
    } else {
        match stored_texts(files, "Title"@, n) {
            Err(m) => Err(m),
            Ok(titles) => match stored_texts(files, "URL"@, n) {
                Err(m) => Err(m),
                Ok(urls) => match stored_texts(files, "SearchPhrase"@, n) {
                    Err(m) => Err(m),
                    Ok(phrase) => {
                        let rows = engine_rows(titles, urls, phrase, n);
                        if rows.len() == 0 {
                            Ok(
                                Some(
                                    ResultView {
                                        columns: labels(q.select_items@),
                                        rows: Seq::empty(),
                                    },
                                ),
                            )
                        } else {
                            match stored_numbers(files, "UserID"@, n) {
                                Err(m) => Err(m),
                                Ok(users) => Ok(
                                    Some(
                                        ResultView {
                                            columns: labels(q.select_items@),
                                            rows: q23_rows(
                                                rows,
                                                phrase,
                                                urls,
                                                titles,
                                                users,
                                                query_limit(q),
                                                query_offset(q),
                                            ),
                                        },
                                    ),
                                ),
                            }
                        }
                    },
                },
            },
        }
    }
}

/// Search phrases with their smallest address and title, their count and their different
/// users, out of the files of the columns, if that is what the query asks for.
pub fn try_fused_q23_streaming(files: &Vec<ColumnFile>, parsed: &ParsedQuery, row_count: usize) -> (r:
    Result<Option<QueryResult>, Error>)
    ensures
        attempt(r) == q23_result(files@, *parsed, row_count as nat),
{
    if !is_q23_shape(parsed) {
        return Ok(None);
    }
    let title = match open_texts(files, "Title", row_count) {
        Ok(s) => s,
        Err(e) => {
            return Err(e);
        },
    };
    let url = match open_texts(files, "URL", row_count) {
        Ok(s) => s,
        Err(e) => {
            return Err(e);
        },
    };
    let phrase = match open_texts(files, "SearchPhrase", row_count) {
        Ok(s) => s,
        Err(e) => {
            return Err(e);
        },
    };
    let rows = build_q23_rows(&title, &url, &phrase, row_count);
    if rows.len() == 0 {
        let r = QueryResult { columns: headings(parsed), rows: Vec::new() };
        assert(r@.rows =~= Seq::<Seq<CellView>>::empty());
        return Ok(Some(r));
    }
    let users = match open_numbers(files, "UserID", row_count) {
        Ok(s) => s,
        Err(e) => {
            return Err(e);
        },
    };
    let out = pass2_top_details(
        &rows,
        &phrase,
        &url,
        &title,
        &users,
        row_count,
        limit_of(parsed),
        offset_of(parsed),
    );
    Ok(Some(QueryResult { columns: headings(parsed), rows: out }))
}

} // verus!
