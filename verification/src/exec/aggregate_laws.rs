//! What aggregate functions come to, in terms of the values on the rows.
use crate::error::yields;
use crate::exec::aggregate::{
    accumulated, finished, global_value, is_date_column, mark_of, members, or_zero, Mark,
};
use crate::exec::mask_util::selected;
use crate::exec::result::{counted, shown, CellView};
use crate::expr::eval::{gives_text, int_of, text_of};
use crate::expr::time::{ymd_text, MAX_DAY, MIN_DAY};
use crate::sql::ast::{Expr, SelectItemKind};
use crate::storage::table::Table;
use crate::text::text_less;
use vstd::prelude::*;

verus! {

/// The sum of numbers.
pub open spec fn total(values: Seq<i64>) -> int {
    values.fold_left(0int, |sum: int, v: i64| sum + v)
}

/// Whether numbers are those of an expression, row by row.
pub open spec fn numbers_on(t: Table, e: Expr, rows: Seq<usize>, values: Seq<i64>) -> bool {
    &&& values.len() == rows.len()
    &&& forall|i: int|
        0 <= i < rows.len() ==> yields(int_of(t, e, rows[i] as int), #[trigger] values[i])
}

/// Whether texts are those of an expression, row by row.
pub open spec fn texts_on(t: Table, e: Expr, rows: Seq<usize>, values: Seq<Seq<char>>) -> bool {
    &&& values.len() == rows.len()
    &&& forall|i: int| 0 <= i < rows.len() ==> gives_text(t, e, (#[trigger] rows[i]) as int)
    &&& forall|i: int|
        0 <= i < rows.len() ==> yields(text_of(t, e, rows[i] as int), #[trigger] values[i])
}

/// Whether an aggregate function over rows comes to a value.
pub open spec fn comes_to(t: Table, item: SelectItemKind, rows: Seq<usize>, c: CellView) -> bool {
    match accumulated(t, item, rows) {
        Err(_) => false,
        Ok(a) => match finished(a, item, Seq::empty(), Some(t)) {
            Err(_) => false,
            Ok((_, x)) => x == c,
        },
    }
}

/// The value over the rows that a mask selects is the value over these rows.
pub proof fn law_selected_value(t: Table, item: SelectItemKind, mask: Seq<bool>, c: CellView)
    ensures
        (global_value(t, item, mask) matches Ok((_, x)) && x == c) <==> comes_to(
            t,
            item,
            selected(mask),
            c,
        ),
{
}

/// A count is the number of rows.
pub proof fn law_count(t: Table, item: SelectItemKind, rows: Seq<usize>)
    requires
        item is CountAll || item is Count,
    ensures
        comes_to(t, item, rows, counted(rows.len() as int)),
{
    lemma_counted(t, item, rows);
}

proof fn lemma_counted(t: Table, item: SelectItemKind, rows: Seq<usize>)
    requires
        item is CountAll || item is Count,
    ensures
        accumulated(t, item, rows) matches Ok(a) && a.count_all == rows.len(),
    decreases rows.len(),
{
    if rows.len() > 0 {
        lemma_counted(t, item, rows.drop_last());
    }
}

proof fn lemma_numbers_front(t: Table, e: Expr, rows: Seq<usize>, values: Seq<i64>)
    requires
        numbers_on(t, e, rows, values),
        rows.len() > 0,
    ensures
        numbers_on(t, e, rows.drop_last(), values.drop_last()),
        yields(int_of(t, e, rows.last() as int), values.last()),
{
    let (r, v) = (rows.drop_last(), values.drop_last());
    assert forall|i: int| 0 <= i < r.len() implies yields(
        int_of(t, e, r[i] as int),
        #[trigger] v[i],
    ) by {
        assert(v[i] == values[i] && r[i] == rows[i]);
    }
    assert(values[rows.len() - 1] == values.last());
}

/// A sum is the sum of the numbers on the rows.
pub proof fn law_sum(t: Table, e: Expr, rows: Seq<usize>, values: Seq<i64>)
    requires
        numbers_on(t, e, rows, values),
    ensures
        comes_to(t, SelectItemKind::Sum(e), rows, counted(total(values))),
{
    lemma_summed(t, e, rows, values);
}

proof fn lemma_summed(t: Table, e: Expr, rows: Seq<usize>, values: Seq<i64>)
    requires
        numbers_on(t, e, rows, values),
    ensures
        accumulated(t, SelectItemKind::Sum(e), rows) matches Ok(a) && or_zero(a.sum) == total(values),
    decreases rows.len(),
{
    if rows.len() > 0 {
        lemma_numbers_front(t, e, rows, values);
        lemma_summed(t, e, rows.drop_last(), values.drop_last());
    }
}

/// An average is the sum of the numbers on the rows over the number of the rows; over no
/// rows it is zero.
pub proof fn law_average(t: Table, e: Expr, rows: Seq<usize>, values: Seq<i64>)
    requires
        numbers_on(t, e, rows, values),
    ensures
        rows.len() > 0 ==> comes_to(
            t,
            SelectItemKind::Avg(e),
            rows,
            CellView::Ratio { sum: total(values), count: rows.len() },
        ),
        rows.len() == 0 ==> comes_to(
            t,
            SelectItemKind::Avg(e),
            rows,
            CellView::Ratio { sum: 0, count: 1 },
        ),
{
    lemma_averaged(t, e, rows, values);
}

proof fn lemma_averaged(t: Table, e: Expr, rows: Seq<usize>, values: Seq<i64>)
    requires
        numbers_on(t, e, rows, values),
    ensures
        accumulated(t, SelectItemKind::Avg(e), rows) matches Ok(a) && or_zero(a.avg_sum) == total(
            values,
        ) && a.avg_count == rows.len(),
    decreases rows.len(),
{
    if rows.len() > 0 {
        lemma_numbers_front(t, e, rows, values);
        lemma_averaged(t, e, rows.drop_last(), values.drop_last());
    }
}

/// An aggregate function of an expression that has no value on some row has none.
pub proof fn law_no_value(t: Table, item: SelectItemKind, rows: Seq<usize>, i: int, c: CellView)
    requires
        0 <= i < rows.len(),
        item matches SelectItemKind::Sum(e) ==> int_of(t, e, rows[i] as int) is Err,
        item matches SelectItemKind::Avg(e) ==> int_of(t, e, rows[i] as int) is Err,
        item is Sum || item is Avg,
    ensures
        !comes_to(t, item, rows, c),
{
    lemma_no_value(t, item, rows, i);
}

proof fn lemma_no_value(t: Table, item: SelectItemKind, rows: Seq<usize>, i: int)
    requires
        0 <= i < rows.len(),
        item matches SelectItemKind::Sum(e) ==> int_of(t, e, rows[i] as int) is Err,
        item matches SelectItemKind::Avg(e) ==> int_of(t, e, rows[i] as int) is Err,
        item is Sum || item is Avg,
    ensures
        accumulated(t, item, rows) is Err,
    decreases rows.len(),
{
    if i < rows.len() - 1 {
        assert(rows.drop_last()[i] == rows[i]);
        lemma_no_value(t, item, rows.drop_last(), i);
    }
}

/// A number as the value of an expression: of a column of dates the date, else the numeral.
pub open spec fn number_cell_of(t: Table, e: Expr, v: i64) -> CellView {
    if is_date_column(Some(t), e) {
        shown(ymd_text(v as i32))
    } else {
        counted(v as int)
    }
}

/// A minimum of numbers is one of the numbers on the rows, and none of them is smaller.
pub proof fn law_minimum(t: Table, e: Expr, rows: Seq<usize>, values: Seq<i64>) -> (v: i64)
    requires
        numbers_on(t, e, rows, values),
        rows.len() > 0,
        forall|i: int| 0 <= i < rows.len() ==> !gives_text(t, e, (#[trigger] rows[i]) as int),
    ensures
        values.contains(v),
        forall|i: int| 0 <= i < values.len() ==> v <= #[trigger] values[i],
        (is_date_column(Some(t), e) ==> MIN_DAY <= (v as i32) <= MAX_DAY) ==> comes_to(
            t,
            SelectItemKind::Min(e),
            rows,
            number_cell_of(t, e, v),
        ),
{
    lemma_minimum(t, e, rows, values);
    let a = accumulated(t, SelectItemKind::Min(e), rows)->Ok_0;
    a.min_i64->Some_0
}

proof fn lemma_minimum(t: Table, e: Expr, rows: Seq<usize>, values: Seq<i64>)
    requires
        numbers_on(t, e, rows, values),
        forall|i: int| 0 <= i < rows.len() ==> !gives_text(t, e, (#[trigger] rows[i]) as int),
    ensures
        accumulated(t, SelectItemKind::Min(e), rows) matches Ok(a) && a.min_str is None && (
        a.min_i64 is Some <==> rows.len() > 0) && (rows.len() > 0 ==> values.contains(
            a.min_i64->Some_0,
        ) && forall|i: int| 0 <= i < values.len() ==> a.min_i64->Some_0 <= #[trigger] values[i]),
    decreases rows.len(),
{
    if rows.len() > 0 {
        lemma_numbers_front(t, e, rows, values);
        let (r, v) = (rows.drop_last(), values.drop_last());
        assert forall|i: int| 0 <= i < r.len() implies !gives_text(
            t,
            e,
            (#[trigger] r[i]) as int,
        ) by {
            assert(r[i] == rows[i]);
        }
        lemma_minimum(t, e, r, v);
        assert(rows[rows.len() - 1] == rows.last());
        let b = accumulated(t, SelectItemKind::Min(e), r)->Ok_0;
        let a = accumulated(t, SelectItemKind::Min(e), rows)->Ok_0;
        assert(values[values.len() - 1] == values.last());
        if r.len() > 0 {
            let k = choose|k: int| 0 <= k < v.len() && v[k] == b.min_i64->Some_0;
            assert(values[k] == v[k]);
        }
        assert forall|i: int| 0 <= i < values.len() implies a.min_i64->Some_0
            <= #[trigger] values[i] by {
            if i < v.len() {
                assert(v[i] == values[i]);
            }
        }
    }
}

/// A maximum of numbers is one of the numbers on the rows, and none of them is larger.
pub proof fn law_maximum(t: Table, e: Expr, rows: Seq<usize>, values: Seq<i64>) -> (v: i64)
    requires
        numbers_on(t, e, rows, values),
        rows.len() > 0,
        forall|i: int| 0 <= i < rows.len() ==> !gives_text(t, e, (#[trigger] rows[i]) as int),
    ensures
        values.contains(v),
        forall|i: int| 0 <= i < values.len() ==> v >= #[trigger] values[i],
        (is_date_column(Some(t), e) ==> MIN_DAY <= (v as i32) <= MAX_DAY) ==> comes_to(
            t,
            SelectItemKind::Max(e),
            rows,
            number_cell_of(t, e, v),
        ),
{
    lemma_maximum(t, e, rows, values);
    let a = accumulated(t, SelectItemKind::Max(e), rows)->Ok_0;
    a.max_i64->Some_0
}

proof fn lemma_maximum(t: Table, e: Expr, rows: Seq<usize>, values: Seq<i64>)
    requires
        numbers_on(t, e, rows, values),
        forall|i: int| 0 <= i < rows.len() ==> !gives_text(t, e, (#[trigger] rows[i]) as int),
    ensures
        accumulated(t, SelectItemKind::Max(e), rows) matches Ok(a) && a.max_str is None && (
        a.max_i64 is Some <==> rows.len() > 0) && (rows.len() > 0 ==> values.contains(
            a.max_i64->Some_0,
        ) && forall|i: int| 0 <= i < values.len() ==> a.max_i64->Some_0 >= #[trigger] values[i]),
    decreases rows.len(),
{
    if rows.len() > 0 {
        lemma_numbers_front(t, e, rows, values);
        let (r, v) = (rows.drop_last(), values.drop_last());
        assert forall|i: int| 0 <= i < r.len() implies !gives_text(
            t,
            e,
            (#[trigger] r[i]) as int,
        ) by {
            assert(r[i] == rows[i]);
        }
        lemma_maximum(t, e, r, v);
        assert(rows[rows.len() - 1] == rows.last());
        let b = accumulated(t, SelectItemKind::Max(e), r)->Ok_0;
        let a = accumulated(t, SelectItemKind::Max(e), rows)->Ok_0;
        assert(values[values.len() - 1] == values.last());
        if r.len() > 0 {
            let k = choose|k: int| 0 <= k < v.len() && v[k] == b.max_i64->Some_0;
            assert(values[k] == v[k]);
        }
        assert forall|i: int| 0 <= i < values.len() implies a.max_i64->Some_0
            >= #[trigger] values[i] by {
            if i < v.len() {
                assert(v[i] == values[i]);
            }
        }
    }
}

proof fn lemma_texts_front(t: Table, e: Expr, rows: Seq<usize>, values: Seq<Seq<char>>)
    requires
        texts_on(t, e, rows, values),
        rows.len() > 0,
    ensures
        texts_on(t, e, rows.drop_last(), values.drop_last()),
        gives_text(t, e, rows.last() as int),
        yields(text_of(t, e, rows.last() as int), values.last()),
{
    let (r, v) = (rows.drop_last(), values.drop_last());
    assert forall|i: int| 0 <= i < r.len() implies yields(
        text_of(t, e, r[i] as int),
        #[trigger] v[i],
    ) by {
        assert(v[i] == values[i]);
        assert(r[i] == rows[i]);
    }
    assert forall|i: int| 0 <= i < r.len() implies gives_text(t, e, (#[trigger] r[i]) as int) by {
        assert(r[i] == rows[i]);
    }
    assert(rows[rows.len() - 1] == rows.last());
    assert(values[rows.len() - 1] == values.last());
}

/// A minimum of texts is one of the texts on the rows, and none of them comes before it.
pub proof fn law_first_text(t: Table, e: Expr, rows: Seq<usize>, values: Seq<Seq<char>>) -> (s: Seq<
    char,
>)
    requires
        texts_on(t, e, rows, values),
        rows.len() > 0,
    ensures
        values.contains(s),
        forall|i: int| 0 <= i < values.len() ==> !text_less(#[trigger] values[i], s),
        comes_to(t, SelectItemKind::Min(e), rows, shown(s)),
{
    lemma_first_text(t, e, rows, values);
    let a = accumulated(t, SelectItemKind::Min(e), rows)->Ok_0;
    a.min_str->Some_0
}

proof fn lemma_first_text(t: Table, e: Expr, rows: Seq<usize>, values: Seq<Seq<char>>)
    requires
        texts_on(t, e, rows, values),
    ensures
        accumulated(t, SelectItemKind::Min(e), rows) matches Ok(a) && (a.min_str is Some
            <==> rows.len() > 0) && (rows.len() > 0 ==> values.contains(a.min_str->Some_0)
            && forall|i: int|
            0 <= i < values.len() ==> !text_less(#[trigger] values[i], a.min_str->Some_0)),
    decreases rows.len(),
{
    if rows.len() > 0 {
        lemma_texts_front(t, e, rows, values);
        let (r, v) = (rows.drop_last(), values.drop_last());
        lemma_first_text(t, e, r, v);
        let b = accumulated(t, SelectItemKind::Min(e), r)->Ok_0;
        let a = accumulated(t, SelectItemKind::Min(e), rows)->Ok_0;
        let x = values.last();
        assert(values[values.len() - 1] == x);
        crate::exec::agg_topk::lemma_text_order(x, x, x);
        if r.len() > 0 {
            let k = choose|k: int| 0 <= k < v.len() && v[k] == b.min_str->Some_0;
            assert(values[k] == v[k]);
        }
        assert forall|i: int| 0 <= i < values.len() implies !text_less(
            #[trigger] values[i],
            a.min_str->Some_0,
        ) by {
            if i < v.len() {
                assert(v[i] == values[i]);
                crate::exec::agg_topk::lemma_text_order(v[i], x, b.min_str->Some_0);
            }
        }
    }
}

/// A maximum of texts is one of the texts on the rows, and none of them comes behind it.
pub proof fn law_last_text(t: Table, e: Expr, rows: Seq<usize>, values: Seq<Seq<char>>) -> (s: Seq<
    char,
>)
    requires
        texts_on(t, e, rows, values),
        rows.len() > 0,
    ensures
        values.contains(s),
        forall|i: int| 0 <= i < values.len() ==> !text_less(s, #[trigger] values[i]),
        comes_to(t, SelectItemKind::Max(e), rows, shown(s)),
{
    lemma_last_text(t, e, rows, values);
    let a = accumulated(t, SelectItemKind::Max(e), rows)->Ok_0;
    a.max_str->Some_0
}

proof fn lemma_last_text(t: Table, e: Expr, rows: Seq<usize>, values: Seq<Seq<char>>)
    requires
        texts_on(t, e, rows, values),
    ensures
        accumulated(t, SelectItemKind::Max(e), rows) matches Ok(a) && (a.max_str is Some
            <==> rows.len() > 0) && (rows.len() > 0 ==> values.contains(a.max_str->Some_0)
            && forall|i: int|
            0 <= i < values.len() ==> !text_less(a.max_str->Some_0, #[trigger] values[i])),
    decreases rows.len(),
{
    if rows.len() > 0 {
        lemma_texts_front(t, e, rows, values);
        let (r, v) = (rows.drop_last(), values.drop_last());
        lemma_last_text(t, e, r, v);
        let b = accumulated(t, SelectItemKind::Max(e), r)->Ok_0;
        let a = accumulated(t, SelectItemKind::Max(e), rows)->Ok_0;
        let x = values.last();
        assert(values[values.len() - 1] == x);
        crate::exec::agg_topk::lemma_text_order(x, x, x);
        if r.len() > 0 {
            let k = choose|k: int| 0 <= k < v.len() && v[k] == b.max_str->Some_0;
            assert(values[k] == v[k]);
        }
        assert forall|i: int| 0 <= i < values.len() implies !text_less(
            a.max_str->Some_0,
            #[trigger] values[i],
        ) by {
            if i < v.len() {
                assert(v[i] == values[i]);
                crate::exec::agg_topk::lemma_text_order(b.max_str->Some_0, x, v[i]);
            }
        }
    }
}

/// The members of a sequence with one more.
proof fn lemma_one_more<A>(s: Seq<A>)
    requires
        s.len() > 0,
    ensures
        s.to_set() == s.drop_last().to_set().insert(s.last()),
        s.drop_last().to_set().finite(),
{
    vstd::seq_lib::seq_to_set_is_finite(s.drop_last());
    let r = s.drop_last();
    assert forall|x: A| s.to_set().contains(x) == r.to_set().insert(s.last()).contains(x) by {
        if s.contains(x) {
            let i = choose|i: int| 0 <= i < s.len() && s[i] == x;
            if i < r.len() {
                assert(r[i] == x);
            }
        }
        if r.contains(x) {
            let i = choose|i: int| 0 <= i < r.len() && r[i] == x;
            assert(s[i] == x);
        }
        if x == s.last() {
            assert(s[s.len() - 1] == x);
        }
    }
    assert(s.to_set() =~= r.to_set().insert(s.last()));
}

/// A count of different values is the number of different numbers on the rows, where the
/// expression is a column of numbers.
pub proof fn law_different_numbers(t: Table, e: Expr, rows: Seq<usize>, values: Seq<i64>)
    requires
        values.len() == rows.len(),
        forall|i: int|
            0 <= i < rows.len() ==> yields(
                mark_of(t, e, rows[i] as int),
                Mark::Number(#[trigger] values[i]),
            ),
    ensures
        comes_to(
            t,
            SelectItemKind::CountDistinct(e),
            rows,
            counted(values.to_set().len() as int),
        ),
{
    lemma_different_numbers(t, e, rows, values);
    if rows.len() == 0 {
        assert(values.to_set() =~= Set::<i64>::empty());
    }
}

proof fn lemma_different_numbers(t: Table, e: Expr, rows: Seq<usize>, values: Seq<i64>)
    requires
        values.len() == rows.len(),
        forall|i: int|
            0 <= i < rows.len() ==> yields(
                mark_of(t, e, rows[i] as int),
                Mark::Number(#[trigger] values[i]),
            ),
    ensures
        accumulated(t, SelectItemKind::CountDistinct(e), rows) matches Ok(a) && members(
            a.count_distinct_i64,
        ) == values.to_set() && (a.count_distinct_i64 is None <==> rows.len() == 0)
            && a.count_distinct is None,
    decreases rows.len(),
{
    if rows.len() > 0 {
        let (r, v) = (rows.drop_last(), values.drop_last());
        assert forall|i: int| 0 <= i < r.len() implies yields(
            mark_of(t, e, r[i] as int),
            Mark::Number(#[trigger] v[i]),
        ) by {
            assert(v[i] == values[i] && r[i] == rows[i]);
        }
        assert(values[rows.len() - 1] == values.last());
        lemma_different_numbers(t, e, r, v);
        lemma_one_more(values);
    } else {
        assert(values.to_set() =~= Set::<i64>::empty());
    }
}

/// A count of different values is the number of different texts on the rows, where the
/// expression is a column of texts; of another expression, of different numerals.
pub proof fn law_different_texts(t: Table, e: Expr, rows: Seq<usize>, values: Seq<Seq<char>>)
    requires
        values.len() == rows.len(),
        forall|i: int|
            0 <= i < rows.len() ==> yields(
                mark_of(t, e, rows[i] as int),
                Mark::Text(#[trigger] values[i]),
            ),
    ensures
        comes_to(
            t,
            SelectItemKind::CountDistinct(e),
            rows,
            counted(values.to_set().len() as int),
        ),
{
    lemma_different_texts(t, e, rows, values);
    if rows.len() == 0 {
        assert(values.to_set() =~= Set::<Seq<char>>::empty());
    }
}

proof fn lemma_different_texts(t: Table, e: Expr, rows: Seq<usize>, values: Seq<Seq<char>>)
    requires
        values.len() == rows.len(),
        forall|i: int|
            0 <= i < rows.len() ==> yields(
                mark_of(t, e, rows[i] as int),
                Mark::Text(#[trigger] values[i]),
            ),
    ensures
        accumulated(t, SelectItemKind::CountDistinct(e), rows) matches Ok(a) && members(
            a.count_distinct,
        ) == values.to_set() && (a.count_distinct is None <==> rows.len() == 0)
            && a.count_distinct_i64 is None,
    decreases rows.len(),
{
    if rows.len() > 0 {
        let (r, v) = (rows.drop_last(), values.drop_last());
        assert forall|i: int| 0 <= i < r.len() implies yields(
            mark_of(t, e, r[i] as int),
            Mark::Text(#[trigger] v[i]),
        ) by {
            assert(v[i] == values[i] && r[i] == rows[i]);
        }
        assert(values[rows.len() - 1] == values.last());
        lemma_different_texts(t, e, r, v);
        lemma_one_more(values);
    } else {
        assert(values.to_set() =~= Set::<Seq<char>>::empty());
    }
}

} // verus!
