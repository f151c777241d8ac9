//! Shorter ways to aggregates over all rows come to what the aggregates come to.
use crate::error::yields;
use crate::exec::aggregate::{accumulated, finished, members, or_zero};
use crate::exec::fast_agg::{
    column_different, column_sum, different, liked, nonzero_in, not_zero, plain_ints,
};
use crate::exec::filter::filtered;
use crate::exec::group_fused_text::phrases;
use crate::exec::kernel::mapped;
use crate::exec::mask_util::selected;
use crate::exec::result::counted;
use crate::exec::simd_count::how_many;
use crate::expr::eval::{bool_of, col_int, column_of, pattern_text, text_of};
use crate::expr::matching::like;
use crate::sql::ast::{Expr, SelectItemKind};
use crate::sql::query::column_name;
use crate::storage::column::ColumnView;
use crate::storage::table::Table;
use crate::text::{digits_value, parsed_i64};
use vstd::prelude::*;
use vstd::utf8::encode_utf8;

verus! {

/// The sum of a column of integers is the sum that the aggregate function comes to.
pub proof fn law_column_sum(t: Table, e: Expr, rows: Seq<usize>)
    requires
        column_name(e) is Some,
        column_sum(t, column_name(e)->Some_0, rows) is Ok,
    ensures
        match accumulated(t, SelectItemKind::Sum(e), rows) {
            Ok(a) => yields(column_sum(t, column_name(e)->Some_0, rows), or_zero(a.sum)),
            Err(_) => false,
        },
    decreases rows.len(),
{
    if rows.len() > 0 {
        law_column_sum(t, e, rows.drop_last());
    }
}

proof fn lemma_numbers_met(t: Table, e: Expr, c: ColumnView, rows: Seq<usize>)
    requires
        column_name(e) is Some,
        yields(column_of(t, column_name(e)->Some_0), c),
        plain_ints(c),
    ensures
        match accumulated(t, SelectItemKind::CountDistinct(e), rows) {
            Ok(a) => {
                &&& members(a.count_distinct_i64) == mapped(
                    rows,
                    |r: usize| col_int(c, r as int),
                ).to_set()
                &&& a.count_distinct_i64 is None ==> rows.len() == 0
                &&& a.count_distinct is None
            },
            Err(_) => false,
        },
    decreases rows.len(),
{
    let f = |r: usize| col_int(c, r as int);
    let all = mapped(rows, f);
    if rows.len() == 0 {
        assert(all.to_set() =~= Set::<i64>::empty());
    } else {
        lemma_numbers_met(t, e, c, rows.drop_last());
        let front = mapped(rows.drop_last(), f);
        assert(all =~= front.push(f(rows.last())));
        assert(all.to_set() =~= front.to_set().insert(f(rows.last()))) by {
            assert forall|x: i64| all.to_set().contains(x) == front.to_set().insert(
                f(rows.last()),
            ).contains(x) by {
                if front.contains(x) {
                    let i = choose|i: int| 0 <= i < front.len() && front[i] == x;
                    assert(all[i] == x);
                }
                if x == f(rows.last()) {
                    assert(all[all.len() - 1] == x);
                }
                if all.contains(x) {
                    let i = choose|i: int| 0 <= i < all.len() && all[i] == x;
                    if i < front.len() {
                        assert(front[i] == x);
                    }
                }
            }
        }
    }
}

proof fn lemma_texts_met(t: Table, e: Expr, v: Seq<Seq<char>>, rows: Seq<usize>)
    requires
        column_name(e) is Some,
        yields(column_of(t, column_name(e)->Some_0), ColumnView::Utf8(v)),
    ensures
        match accumulated(t, SelectItemKind::CountDistinct(e), rows) {
            Ok(a) => {
                &&& members(a.count_distinct).finite()
                &&& members(a.count_distinct).len() == different(phrases(v, rows))
                &&& forall|s: Seq<char>| #[trigger]
                    members(a.count_distinct).contains(s) == phrases(v, rows).contains(seq![s])
                &&& a.count_distinct is None ==> rows.len() == 0
                &&& a.count_distinct_i64 is None
            },
            Err(_) => false,
        },
    decreases rows.len(),
{
    let all = phrases(v, rows);
    if rows.len() == 0 {
        assert(all.to_set() =~= Set::<Seq<Seq<char>>>::empty());
    } else {
        lemma_texts_met(t, e, v, rows.drop_last());
        let front = phrases(v, rows.drop_last());
        let s = v[rows.last() as int];
        let was = members(
            accumulated(t, SelectItemKind::CountDistinct(e), rows.drop_last())->Ok_0.count_distinct,
        );
        assert(all =~= front.push(seq![s]));
        assert forall|k: Seq<Seq<char>>| #[trigger] all.contains(k) == (front.contains(k) || k
            == seq![s]) by {
            if front.contains(k) {
                let i = choose|i: int| 0 <= i < front.len() && front[i] == k;
                assert(all[i] == k);
            }
            if k == seq![s] {
                assert(all[all.len() - 1] == k);
            }
            if all.contains(k) {
                let i = choose|i: int| 0 <= i < all.len() && all[i] == k;
                if i < front.len() {
                    assert(front[i] == k);
                }
            }
        }
        assert(all.to_set() =~= front.to_set().insert(seq![s]));
        assert(front.to_set().finite()) by {
            vstd::seq_lib::seq_to_set_is_finite(front);
        }
        assert(was.contains(s) == front.to_set().contains(seq![s]));
        assert forall|x: Seq<char>| #[trigger] was.insert(s).contains(x) == all.contains(
            seq![x],
        ) by {
            assert(was.contains(x) == front.contains(seq![x]));
            assert(seq![x][0] == x && seq![s][0] == s);
        }
    }
}

/// The number of different values of a column is what the aggregate function comes to.
pub proof fn law_column_different(t: Table, e: Expr, rows: Seq<usize>)
    requires
        column_name(e) is Some,
        column_different(t, column_name(e)->Some_0, rows) is Some,
    ensures
        match accumulated(t, SelectItemKind::CountDistinct(e), rows) {
            Ok(a) => yields(
                finished(a, SelectItemKind::CountDistinct(e), Seq::empty(), Some(t)),
                (
                    "count(distinct)"@,
                    counted(column_different(t, column_name(e)->Some_0, rows)->Some_0 as int),
                ),
            ),
            Err(_) => false,
        },
{
    match column_of(t, column_name(e)->Some_0) {
        Ok(ColumnView::Utf8(v)) => {
            lemma_texts_met(t, e, v, rows);
            if rows.len() == 0 {
                assert(phrases(v, rows).to_set() =~= Set::<Seq<Seq<char>>>::empty());
            }
        },
        Ok(c) => {
            lemma_numbers_met(t, e, c, rows);
            if rows.len() == 0 {
                assert(mapped(rows, |r: usize| col_int(c, r as int)).to_set() =~= Set::<
                    i64,
                >::empty());
            }
        },
        Err(_) => {},
    }
}

proof fn lemma_zero_literal()
    ensures
        parsed_i64("0"@) == Some(0i64),
{
    reveal_strlit("0");
    let s = "0"@;
    assert(s.drop_last().len() == 0);
    assert(digits_value(s.drop_last()) == 0);
    assert(digits_value(s) == 0);
}

/// The rows of which a column of integers is counted as not zero are as many as the
/// filter selects.
pub proof fn law_nonzero_count(t: Table, e: Expr, c: ColumnView, n: nat)
    requires
        not_zero(Some(e)) is Some,
        yields(column_of(t, not_zero(Some(e))->Some_0), c),
        nonzero_in(c, n) is Some,
        n <= c.len(),
    ensures
        match filtered(t, Some(e), n) {
            Ok(mask) => selected(mask).len() == nonzero_in(c, n)->Some_0,
            Err(_) => false,
        },
    decreases n,
{
    if n > 0 {
        let k = (n - 1) as nat;
        law_nonzero_count(t, e, c, k);
        lemma_zero_literal();
        assert(bool_of(t, e, k as int) == Ok::<bool, Seq<char>>(col_int(c, k as int) != 0));
        let was = filtered(t, Some(e), k)->Ok_0;
        let now = filtered(t, Some(e), n)->Ok_0;
        assert(now.drop_last() =~= was);
        match c {
            ColumnView::Int16(v) => {
                assert(v.take(n as int).drop_last() =~= v.take(k as int));
            },
            ColumnView::Int32(v) => {
                assert(v.take(n as int).drop_last() =~= v.take(k as int));
            },
            ColumnView::Int64(v) => {
                assert(v.take(n as int).drop_last() =~= v.take(k as int));
            },
            _ => {},
        }
    } else {
        match c {
            ColumnView::Int16(v) => {
                assert(v.take(0).len() == 0);
            },
            ColumnView::Int32(v) => {
                assert(v.take(0).len() == 0);
            },
            ColumnView::Int64(v) => {
                assert(v.take(0).len() == 0);
            },
            _ => {},
        }
    }
}

/// The rows whose text is counted as like a pattern are as many as the filter selects.
pub proof fn law_like_count(t: Table, e: Expr, v: Seq<Seq<char>>, n: nat)
    requires
        liked(Some(e)) is Some,
        yields(column_of(t, liked(Some(e))->Some_0.0), ColumnView::Utf8(v)),
        n <= v.len(),
    ensures
        match filtered(t, Some(e), n) {
            Ok(mask) => selected(mask).len() == how_many(
                v.take(n as int),
                |s: Seq<char>| like(encode_utf8(s), encode_utf8(liked(Some(e))->Some_0.1)),
            ),
            Err(_) => false,
        },
    decreases n,
{
    if n > 0 {
        let k = (n - 1) as nat;
        law_like_count(t, e, v, k);
        let was = filtered(t, Some(e), k)->Ok_0;
        let now = filtered(t, Some(e), n)->Ok_0;
        match e {
            Expr::Like { negated, expr, pattern } => {
                assert(text_of(t, *expr, k as int) == Ok::<Seq<char>, Seq<char>>(v[k as int]));
                assert(pattern_text(*pattern) == Ok::<Seq<char>, Seq<char>>(
                    liked(Some(e))->Some_0.1,
                ));
            },
            _ => {},
        }
        assert(bool_of(t, e, k as int) == Ok::<bool, Seq<char>>(
            like(encode_utf8(v[k as int]), encode_utf8(liked(Some(e))->Some_0.1)),
        ));
        assert(now.drop_last() =~= was);
        assert(v.take(n as int).drop_last() =~= v.take(k as int));
    } else {
        assert(v.take(0).len() == 0);
    }
}

} // verus!
