//! Pages about a search engine, and where visits come from.
use crate::error::yields;
use crate::exec::agg_heap::{by_count, top};
use crate::exec::group_fused_q22::{law_least_row, least_row};
use crate::exec::group_fused_q23::{
    about_engine, asks_about_engine, engine_rows, q23_cells, q23_rows, users_at,
};
use crate::exec::group_fused_q40::{gives_source, is_direct, is_zero, Traffic};
use crate::exec::group_fused_text::phrases;
use crate::exec::grouping::{distinct_at, tallied};
use crate::exec::hash::{
    first_seen, lemma_first_seen_distinct, lemma_occurrences, occurrences,
};
use crate::exec::mask_util::{law_selected_exactly, selected};
use crate::exec::order_laws::arranges;
use crate::exec::result::{counted, shown};
use crate::exec::top_laws::{is_part, law_most_frequent};
use crate::expr::eval::{bool_of, column_of, text_of};
use crate::expr::like_laws::{law_like_within, lemma_holds};
use crate::expr::predicate_laws::{
    joined, law_case_first, law_case_rest, law_connectives, law_like, law_number_comparison,
    law_text_comparison, law_texts,
};
use crate::sql::ast::{BinaryOperator, Expr};
use crate::storage::column::ColumnView;
use crate::storage::table::Table;
use crate::text::{decimal, text_less};
use vstd::prelude::*;
use vstd::utf8::encode_utf8;

verus! {

/// The condition that pages about the engine are told by holds just on the rows of such pages:
/// those whose title has its name, whose address does not, and that were searched for.
pub proof fn law_engine_condition(
    t: Table,
    e: Expr,
    row: int,
    titles: Seq<Seq<char>>,
    urls: Seq<Seq<char>>,
    phrase: Seq<Seq<char>>,
)
    requires
        asks_about_engine(e),
        yields(column_of(t, "Title"@), ColumnView::Utf8(titles)),
        yields(column_of(t, "URL"@), ColumnView::Utf8(urls)),
        yields(column_of(t, "SearchPhrase"@), ColumnView::Utf8(phrase)),
    ensures
        yields(bool_of(t, e, row), about_engine(titles[row], urls[row], phrase[row])),
{
    let both = *e->BinaryOp_left;
    let given = *e->BinaryOp_right;
    let a = *both->BinaryOp_left;
    let b = *both->BinaryOp_right;
    reveal_strlit("%Google%");
    reveal_strlit("Google");
    reveal_strlit("%.google.%");
    reveal_strlit(".google.");
    reveal_strlit("");
    assert("%Google%"@ =~= seq!['%'] + "Google"@ + seq!['%']);
    assert("%.google.%"@ =~= seq!['%'] + ".google."@ + seq!['%']);
    law_like_within(titles[row], "Google"@);
    lemma_holds(titles[row], "Google"@);
    law_like_within(urls[row], ".google."@);
    lemma_holds(urls[row], ".google."@);
    let x = *a->Like_expr;
    let y = *b->Like_expr;
    let l = (*a->Like_pattern)->Value_0;
    let m = (*b->Like_pattern)->Value_0;
    law_texts(t, x, row, titles, l->SingleQuotedString_0, 0);
    law_texts(t, y, row, urls, m->SingleQuotedString_0, 0);
    law_like(t, x, l, row, false, titles[row], "%Google%"@);
    law_like(t, y, m, row, true, urls[row], "%.google.%"@);
    let p = *given->BinaryOp_left;
    let q = (*given->BinaryOp_right)->Value_0;
    assert(q->SingleQuotedString_0@ =~= Seq::<char>::empty());
    assert(encode_utf8(Seq::<char>::empty()).len() == 0);
    law_text_comparison(t, p, q, row, phrase[row], Seq::empty());
    assert(given == joined(p, BinaryOperator::NotEq, Expr::Value(q)));
    assert(phrase[row] == Seq::<char>::empty() <==> phrase[row].len() == 0) by {
        if phrase[row].len() == 0 {
            assert(phrase[row] =~= Seq::<char>::empty());
        }
    }
    let in_title = occurs_in(titles[row], "Google"@);
    let in_url = occurs_in(urls[row], ".google."@);
    law_connectives(t, a, b, row, in_title, !in_url);
    assert(both == joined(a, BinaryOperator::And, b));
    law_connectives(t, both, given, row, in_title && !in_url, phrase[row].len() > 0);
    assert(e == joined(both, BinaryOperator::And, given));
}

spec fn occurs_in(h: Seq<char>, s: Seq<char>) -> bool {
    crate::expr::matching::occurs(encode_utf8(h), encode_utf8(s))
}

/// The rows of pages about the engine are all of them and no others.
pub proof fn law_engine_rows(
    titles: Seq<Seq<char>>,
    urls: Seq<Seq<char>>,
    phrase: Seq<Seq<char>>,
    n: nat,
    row: usize,
)
    requires
        n <= usize::MAX,
    ensures
        engine_rows(titles, urls, phrase, n).contains(row) <==> row < n && about_engine(
            titles[row as int],
            urls[row as int],
            phrase[row as int],
        ),
{
    let mask = Seq::new(n, |i: int| about_engine(titles[i], urls[i], phrase[i]));
    law_selected_exactly(mask, row);
    assert(engine_rows(titles, urls, phrase, n) == selected(mask));
}

/// The row of a phrase shows the phrase, the smallest address and the smallest title of its
/// rows, how many they are, and how many different users they have.
pub proof fn law_engine_group(
    rows: Seq<usize>,
    phrase: Seq<Seq<char>>,
    urls: Seq<Seq<char>>,
    titles: Seq<Seq<char>>,
    users: Seq<i64>,
    g: int,
) -> (at: (int, int))
    requires
        0 <= g < first_seen(phrases(phrase, rows)).len(),
        rows.len() <= u64::MAX,
    ensures
        ({
            let keys = phrases(phrase, rows);
            let key = first_seen(keys)[g];
            let r = q23_cells(keys, rows, urls, titles, users, g);
            &&& 0 <= at.0 < rows.len() && keys[at.0] == key
            &&& 0 <= at.1 < rows.len() && keys[at.1] == key
            &&& r.len() == 5
            &&& r[0] == shown(phrase[rows[at.0] as int])
            &&& r[1] == shown(urls[rows[at.0] as int])
            &&& r[2] == shown(titles[rows[at.1] as int])
            &&& r[3] == counted(occurrences(keys, key) as int)
            &&& r[4] == counted(distinct_at(keys, users_at(users, rows), key).len() as int)
            &&& forall|i: int|
                0 <= i < rows.len() && #[trigger] keys[i] == key ==> !text_less(
                    urls[rows[i] as int],
                    urls[rows[at.0] as int],
                ) && !text_less(titles[rows[i] as int], titles[rows[at.1] as int])
        }),
{
    let keys = phrases(phrase, rows);
    let key = first_seen(keys)[g];
    lemma_first_seen_distinct(keys);
    assert(first_seen(keys).contains(key));
    law_least_row(keys, rows, urls, key);
    law_least_row(keys, rows, titles, key);
    lemma_occurrences(keys, key);
    let a = choose|i: int|
        0 <= i < keys.len() && (#[trigger] keys[i]) == key && least_row(keys, rows, urls, key)
            == Some(rows[i]);
    let b = choose|i: int|
        0 <= i < keys.len() && (#[trigger] keys[i]) == key && least_row(keys, rows, titles, key)
            == Some(rows[i]);
    assert(keys[a][0] == phrase[rows[a] as int]);
    (a, b)
}

/// The phrases come most frequent first, and those that are shown are a page of all.
pub proof fn law_engine_page(
    rows: Seq<usize>,
    phrase: Seq<Seq<char>>,
    urls: Seq<Seq<char>>,
    titles: Seq<Seq<char>>,
    users: Seq<i64>,
    limit: usize,
    offset: usize,
) -> (all: Seq<usize>)
    requires
        first_seen(phrases(phrase, rows)).len() <= usize::MAX,
    ensures
        arranges(all, first_seen(phrases(phrase, rows)).len()),
        forall|p: int, q: int|
            #![trigger all[p], all[q]]
            0 <= p < q < all.len() ==> tallied(phrases(phrase, rows))[all[p] as int] >= tallied(
                phrases(phrase, rows),
            )[all[q] as int],
        ({
            let keys = phrases(phrase, rows);
            let r = q23_rows(rows, phrase, urls, titles, users, limit, offset);
            &&& r.len() == if offset >= all.len() {
                0
            } else if limit <= all.len() - offset {
                limit as int
            } else {
                all.len() - offset
            }
            &&& forall|i: int|
                0 <= i < r.len() ==> #[trigger] r[i] == q23_cells(
                    keys,
                    rows,
                    urls,
                    titles,
                    users,
                    all[offset + i] as int,
                )
        }),
{
    let keys = phrases(phrase, rows);
    let all = law_most_frequent(tallied(keys), limit, offset);
    let best = top(by_count(tallied(keys)), tallied(keys).len(), limit, offset);
    let r = q23_rows(rows, phrase, urls, titles, users, limit, offset);
    assert(is_part(best, all, limit, offset));
    assert forall|i: int| 0 <= i < r.len() implies #[trigger] r[i] == q23_cells(
        keys,
        rows,
        urls,
        titles,
        users,
        all[offset + i] as int,
    ) by {
        assert(best[i] == all[offset + i]);
    }
    all
}

proof fn lemma_zero(t: Table, e: Expr, name: Seq<char>, row: int, v: Seq<i16>)
    requires
        is_zero(e, name),
        yields(column_of(t, name), ColumnView::Int16(v)),
    ensures
        yields(bool_of(t, e, row), v[row] == 0),
{
    let a = *e->BinaryOp_left;
    let l = (*e->BinaryOp_right)->Value_0;
    reveal_strlit("0");
    assert("0"@ =~= decimal(0)) by {
        reveal_with_fuel(crate::text::digits, 2);
    }
    law_number_comparison(t, a, l, row, v[row] as i64, 0);
    assert(e == joined(a, BinaryOperator::Eq, Expr::Value(l)));
}

proof fn lemma_direct(t: Table, e: Expr, row: int, search: Seq<i16>, adv: Seq<i16>)
    requires
        is_direct(e),
        yields(column_of(t, "SearchEngineID"@), ColumnView::Int16(search)),
        yields(column_of(t, "AdvEngineID"@), ColumnView::Int16(adv)),
    ensures
        yields(bool_of(t, e, row), search[row] == 0 && adv[row] == 0),
    decreases e,
{
    match e {
        Expr::Nested(x) => {
            lemma_direct(t, *x, row, search, adv);
            let holds = search[row] == 0 && adv[row] == 0;
            law_connectives(t, *x, *x, row, holds, holds);
            assert(e == Expr::Nested(Box::new(*x)));
        },
        Expr::BinaryOp { left, op, right } => {
            lemma_zero(t, *left, "SearchEngineID"@, row, search);
            lemma_zero(t, *right, "AdvEngineID"@, row, adv);
            law_connectives(t, *left, *right, row, search[row] == 0, adv[row] == 0);
            assert(e == joined(*left, BinaryOperator::And, *right));
        },
        _ => {},
    }
}

/// The source in the key of a visit is what the expression for it comes to on its row.
pub proof fn law_traffic_source(t: Table, e: Expr, v: Traffic, row: int)
    requires
        gives_source(e),
        yields(column_of(t, "SearchEngineID"@), ColumnView::Int16(v.search)),
        yields(column_of(t, "AdvEngineID"@), ColumnView::Int16(v.adv)),
        yields(column_of(t, "Referer"@), ColumnView::Utf8(v.referer)),
    ensures
        yields(text_of(t, e, row), v.key(row)[3]),
        v.key(row)[0] == decimal(v.source[row] as int),
        v.key(row)[1] == decimal(v.search[row] as int),
        v.key(row)[2] == decimal(v.adv[row] as int),
        v.key(row)[4] == v.url[row],
{
    let c = e->Case_conditions@[0];
    lemma_direct(t, c, row, v.search, v.adv);
    let other = *e->Case_else_result->Some_0;
    let s = other->Value_0->SingleQuotedString_0;
    law_texts(t, e->Case_results@[0], row, v.referer, s, 0);
    if v.search[row] == 0 && v.adv[row] == 0 {
        law_case_first(t, e, row, 0);
    } else {
        law_case_rest(t, e, row);
    }
}

} // verus!
