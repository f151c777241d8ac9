//! The quick masks select the rows that the plain filter selects.
use crate::error::yields;
use crate::exec::filter::{filtered, lemma_filtered_len};
use crate::exec::filter_fast::{
    adv_condition, adv_pruned, all_hold, among, comparison_mask, date_range, dense_mask,
    first_range, fitted, fused_holds, fused_mask, fusible, list_mask, list_numbers, pattern_mask,
    quick_mask, range_pruned, ranged, shaped_mask, sparse_mask,
};
use crate::exec::group_fused_q41::{flattened, DateRange};
use crate::expr::eval::{
    bool_of, col_int, col_text, found_in, int_of, is_comparison, is_quoted, literal_int,
    literal_text, looks_like_date, text_of,
};
use crate::expr::time::date_literal;
use crate::sql::ast::{BinaryOperator, Expr, Literal};
use crate::sql::query::column_name;
use crate::storage::column::ColumnView;
use crate::storage::table::Table;
use crate::storage::zones::{
    law_adv_prune_sound, law_dashboard_prune_sound, pruned, zone_source, Zone, ZoneSource,
};
use crate::text::{all_digits, digits_value, parsed_i64};
use vstd::prelude::*;

verus! {

/// Whether the numbers all fit into a column.
pub open spec fn all_fit(c: ColumnView, lits: Seq<i64>) -> bool {
    forall|k: int| 0 <= k < lits.len() ==> fitted(c, #[trigger] lits[k]) == Some(lits[k])
}

/// Whether a comparison of a column with a literal is one of like with like: a day
/// with a date, a number with a column that it fits into, or a text with a text.
pub open spec fn apt_comparison(t: Table, left: Expr, op: BinaryOperator, right: Expr) -> bool {
    match (column_name(left), right) {
        (Some(name), Expr::Value(v)) => t.has(name) && if looks_like_date(v) {
            t.col(name) is Date && is_comparison(op) && match v {
                Literal::SingleQuotedString(s) => date_literal(s@) is Ok,
                _ => false,
            }
        } else {
            match literal_int(v) {
                Ok(x) => is_comparison(op) && fitted(t.col(name), x) == Some(x),
                Err(_) => is_quoted(v) && t.col(name) is Utf8 && (op is Eq || op is NotEq),
            }
        },
        _ => false,
    }
}

/// Whether all parts of a condition are of the common shapes, and compare like with
/// like.
pub open spec fn apt(t: Table, e: Expr) -> bool
    decreases e,
{
    match e {
        Expr::BinaryOp { left, op, right } => if op is And || op is Or {
            apt(t, *left) && apt(t, *right)
        } else {
            apt_comparison(t, *left, op, *right)
        },
        Expr::Like { expr, pattern, .. } => match (column_name(*expr), *pattern) {
            (Some(name), Expr::Value(v)) => t.has(name) && t.col(name) is Utf8 && is_quoted(v),
            _ => false,
        },
        Expr::InList { expr, list, .. } => match column_name(*expr) {
            Some(name) => t.has(name) && fitted(t.col(name), 0) is Some && match list_numbers(
                list@,
                list@.len(),
            ) {
                Ok(Some(lits)) => all_fit(t.col(name), lits),
                _ => false,
            },
            None => false,
        },
        Expr::Nested(inner) => apt(t, *inner),
        _ => false,
    }
}

/// Whether a mask says of each row whether a condition holds on it.
pub open spec fn decides(t: Table, e: Expr, mask: Seq<bool>) -> bool {
    forall|row: int| 0 <= row < mask.len() ==> yields(bool_of(t, e, row), #[trigger] mask[row])
}

proof fn lemma_list_numbers(list: Seq<Expr>, k: nat)
    requires
        k <= list.len(),
        list_numbers(list, k) matches Ok(Some(_)),
    ensures
        ({
            let lits = list_numbers(list, k)->Ok_0->Some_0;
            &&& lits.len() == k
            &&& forall|i: int|
                0 <= i < k ==> match #[trigger] list[i] {
                    Expr::Value(v) => yields(literal_int(v), lits[i]),
                    _ => false,
                }
        }),
    decreases k,
{
    if k > 0 {
        lemma_list_numbers(list, (k - 1) as nat);
    }
}

proof fn lemma_found_in(t: Table, e: Expr, lits: Seq<i64>, i: int, v: i64, row: int)
    requires
        e matches Expr::InList { list, .. } && list@.len() == lits.len() && (forall|k: int|
            0 <= k < lits.len() ==> match #[trigger] list@[k] {
                Expr::Value(x) => yields(literal_int(x), lits[k]),
                _ => false,
            }),
        0 <= i <= lits.len(),
    ensures
        yields(found_in(t, e, i, v, row), exists|k: int| i <= k < lits.len() && lits[k] == v),
    decreases lits.len() - i,
{
    if i < lits.len() {
        lemma_found_in(t, e, lits, i + 1, v, row);
        let list = e->InList_list;
        assert(yields(int_of(t, list@[i], row), lits[i]));
        if lits[i] != v {
            if exists|k: int| i <= k < lits.len() && lits[k] == v {
                let k = choose|k: int| i <= k < lits.len() && lits[k] == v;
                assert(i + 1 <= k < lits.len() && lits[k] == v);
            }
        }
    }
}

/// The mask of a condition whose parts compare like with like says of each row whether
/// the condition holds on it.
pub proof fn law_shaped_mask_decides(t: Table, e: Expr, n: nat)
    requires
        apt(t, e),
    ensures
        shaped_mask(t, e, n) matches Ok(Some(mask)) && mask.len() == n && decides(t, e, mask),
    decreases e,
{
    match e {
        Expr::BinaryOp { left, op, right } => {
            if op is And || op is Or {
                law_shaped_mask_decides(t, *left, n);
                law_shaped_mask_decides(t, *right, n);
                let l = shaped_mask(t, *left, n)->Ok_0->Some_0;
                let r = shaped_mask(t, *right, n)->Ok_0->Some_0;
                let mask = shaped_mask(t, e, n)->Ok_0->Some_0;
                assert forall|row: int| 0 <= row < mask.len() implies yields(
                    bool_of(t, e, row),
                    #[trigger] mask[row],
                ) by {
                    assert(yields(bool_of(t, *left, row), l[row]));
                    assert(yields(bool_of(t, *right, row), r[row]));
                }
            } else {
                let mask = comparison_mask(t, *left, op, *right, n)->Ok_0->Some_0;
                assert forall|row: int| 0 <= row < mask.len() implies yields(
                    bool_of(t, e, row),
                    #[trigger] mask[row],
                ) by {}
            }
        },
        Expr::Like { negated, expr, pattern } => {
            let mask = pattern_mask(t, *expr, *pattern, negated, n)->Some_0;
            assert forall|row: int| 0 <= row < mask.len() implies yields(
                bool_of(t, e, row),
                #[trigger] mask[row],
            ) by {
                assert(text_of(t, *expr, row) is Ok);
            }
        },
        Expr::InList { expr, list, negated } => {
            lemma_list_numbers(list@, list@.len());
            let lits = list_numbers(list@, list@.len())->Ok_0->Some_0;
            let c = t.col(column_name(*expr)->Some_0);
            let mask = list_mask(t, *expr, list@, negated, n)->Ok_0->Some_0;
            assert forall|row: int| 0 <= row < mask.len() implies yields(
                bool_of(t, e, row),
                #[trigger] mask[row],
            ) by {
                let v = col_int(c, row);
                assert(yields(int_of(t, *expr, row), v));
                lemma_found_in(t, e, lits, 0, v, row);
                if among(c, lits, v) {
                    let k = choose|k: int|
                        0 <= k < lits.len() && fitted(c, #[trigger] lits[k]) == Some(v);
                    assert(lits[k] == v);
                }
                if exists|k: int| 0 <= k < lits.len() && lits[k] == v {
                    let k = choose|k: int| 0 <= k < lits.len() && lits[k] == v;
                    assert(fitted(c, lits[k]) == Some(v));
                }
            }
        },
        Expr::Nested(inner) => {
            law_shaped_mask_decides(t, *inner, n);
            let mask = shaped_mask(t, *inner, n)->Ok_0->Some_0;
            assert forall|row: int| 0 <= row < mask.len() implies yields(
                bool_of(t, e, row),
                #[trigger] mask[row],
            ) by {
                assert(yields(bool_of(t, *inner, row), mask[row]));
            }
        },
        _ => {},
    }
}

pub proof fn lemma_fused_part(t: Table, e: Expr, row: int)
    requires
        fusible(t, e),
    ensures
        yields(bool_of(t, e, row), fused_holds(t, e, row)),
{
    match e {
        Expr::Like { negated, expr, pattern } => {
            assert(text_of(t, *expr, row) is Ok);
        },
        Expr::BinaryOp { left, op, right } => {
            let v = right->Value_0;
            let c = t.col(column_name(*left)->Some_0);
            if is_quoted(v) {
                let s = literal_text(v)->Ok_0;
                assert(s =~= Seq::<char>::empty());
                if col_text(c, row).len() == 0 {
                    assert(col_text(c, row) =~= s);
                }
                assert(!looks_like_date(v)) by {
                    if let Literal::SingleQuotedString(x) = v {
                        assert(vstd::utf8::encode_utf8(x@).len() == 0);
                    }
                }
            }
        },
        _ => {},
    }
}

proof fn lemma_fused_parts(t: Table, e: Expr, row: int)
    requires
        forall|i: int| 0 <= i < flattened(e).len() ==> fusible(t, #[trigger] flattened(e)[i]),
    ensures
        yields(bool_of(t, e, row), all_hold(t, flattened(e), row)),
    decreases e,
{
    match e {
        Expr::BinaryOp { left, op: BinaryOperator::And, right } => {
            let a = flattened(*left);
            let b = flattened(*right);
            let all = flattened(e);
            assert forall|i: int| 0 <= i < a.len() implies fusible(t, #[trigger] a[i]) by {
                assert(all[i] == a[i]);
            }
            assert forall|i: int| 0 <= i < b.len() implies fusible(t, #[trigger] b[i]) by {
                assert(all[a.len() + i] == b[i]);
            }
            lemma_fused_parts(t, *left, row);
            lemma_fused_parts(t, *right, row);
            if all_hold(t, a, row) && all_hold(t, b, row) {
                assert forall|k: int| 0 <= k < all.len() implies fused_holds(
                    t,
                    #[trigger] all[k],
                    row,
                ) by {
                    if k < a.len() {
                        assert(all[k] == a[k]);
                    } else {
                        assert(all[k] == b[k - a.len()]);
                    }
                }
            }
            if all_hold(t, all, row) {
                assert forall|k: int| 0 <= k < a.len() implies fused_holds(
                    t,
                    #[trigger] a[k],
                    row,
                ) by {
                    assert(all[k] == a[k]);
                }
                assert forall|k: int| 0 <= k < b.len() implies fused_holds(
                    t,
                    #[trigger] b[k],
                    row,
                ) by {
                    assert(all[a.len() + k] == b[k]);
                }
            }
        },
        Expr::Nested(inner) => {
            lemma_fused_parts(t, *inner, row);
        },
        _ => {
            assert(flattened(e)[0] == e);
            lemma_fused_part(t, e, row);
        },
    }
}

/// The mask of a condition of several tests says of each row whether the condition
/// holds on it.
pub proof fn law_fused_mask_decides(t: Table, e: Expr, n: nat)
    requires
        fused_mask(t, e, n) is Some,
    ensures
        fused_mask(t, e, n)->Some_0.len() == n,
        decides(t, e, fused_mask(t, e, n)->Some_0),
{
    let mask = fused_mask(t, e, n)->Some_0;
    assert forall|row: int| 0 <= row < mask.len() implies yields(
        bool_of(t, e, row),
        #[trigger] mask[row],
    ) by {
        lemma_fused_parts(t, e, row);
    }
}

/// A mask that says of each row whether a condition holds on it is the plain filter's.
pub proof fn law_deciding_mask(t: Table, e: Expr, mask: Seq<bool>)
    requires
        decides(t, e, mask),
    ensures
        yields(filtered(t, Some(e), mask.len()), mask),
    decreases mask.len(),
{
    if mask.len() > 0 {
        let front = mask.drop_last();
        assert forall|row: int| 0 <= row < front.len() implies yields(
            bool_of(t, e, row),
            #[trigger] front[row],
        ) by {
            assert(mask[row] == front[row]);
        }
        law_deciding_mask(t, e, front);
        assert(yields(bool_of(t, e, mask.len() - 1), mask[mask.len() - 1]));
        assert(front.push(mask.last()) =~= mask);
    } else {
        assert(mask =~= Seq::<bool>::empty());
    }
}

proof fn lemma_no_range(e: Expr, i: int)
    requires
        0 <= i < flattened(e).len(),
    ensures
        date_range(flattened(e)[i]) is None,
    decreases e,
{
    match e {
        Expr::BinaryOp { left, op: BinaryOperator::And, right } => {
            let a = flattened(*left);
            if i < a.len() {
                lemma_no_range(*left, i);
            } else {
                lemma_no_range(*right, i - a.len());
            }
        },
        Expr::Nested(inner) => {
            lemma_no_range(*inner, i);
        },
        _ => {
            assert(flattened(e)[i] == e);
        },
    }
}

proof fn lemma_no_first_range(parts: Seq<Expr>)
    requires
        forall|i: int| 0 <= i < parts.len() ==> date_range(#[trigger] parts[i]) is None,
    ensures
        first_range(parts) is None,
    decreases parts.len(),
{
    if parts.len() > 0 {
        let front = parts.drop_last();
        assert forall|i: int| 0 <= i < front.len() implies date_range(
            #[trigger] front[i],
        ) is None by {
            assert(parts[i] == front[i]);
        }
        lemma_no_first_range(front);
        assert(date_range(parts[parts.len() - 1]) is None);
    }
}

/// Whether a row has the counter and a date in the range, as far as they are known.
pub open spec fn within_range(src: ZoneSource, found: DateRange, row: int) -> bool {
    &&& found.counter matches Some(c) ==> src.counters[row] == c
    &&& found.min_date matches Some(a) ==> a <= src.dates[row]
    &&& found.max_date matches Some(b) ==> src.dates[row] <= b
}

proof fn lemma_ranged(t: Table, src: ZoneSource, e: Expr, found: DateRange, row: int)
    requires
        zone_source(t) == Some(src),
        yields(bool_of(t, e, row), true),
        within_range(src, found, row),
    ensures
        within_range(src, ranged(e, found), row),
    decreases e,
{
    match e {
        Expr::BinaryOp { left, op: BinaryOperator::And, right } => {
            lemma_ranged(t, src, *left, found, row);
            lemma_ranged(t, src, *right, ranged(*left, found), row);
        },
        Expr::BinaryOp { left, op, right } => {
            if let (Some(name), Expr::Value(v)) = (column_name(*left), *right) {
                if name == "CounterID"@ {
                    if let (BinaryOperator::Eq, Ok(x)) = (op, literal_int(v)) {
                        assert(col_int(t.col(name), row) == x);
                        assert(src.counters[row] as i64 == x);
                    }
                } else if name == "EventDate"@ && looks_like_date(v) {
                    if let Literal::SingleQuotedString(s) = v {
                        if date_literal(s@) is Ok {
                            assert(col_int(t.col(name), row) == src.dates[row]);
                        }
                    }
                }
            }
        },
        Expr::Nested(inner) => {
            lemma_ranged(t, src, *inner, found, row);
        },
        _ => {},
    }
}

proof fn lemma_zero()
    ensures
        parsed_i64("0"@) == Some(0i64),
{
    reveal_strlit("0");
    reveal_with_fuel(digits_value, 2);
    let s = "0"@;
    assert(s.len() == 1 && s[0] == '0');
    assert(all_digits(s));
    assert(s.drop_last().len() == 0);
}

proof fn lemma_adv(t: Table, e: Expr, row: int)
    requires
        adv_condition(e),
        yields(bool_of(t, e, row), true),
    ensures
        t.has("AdvEngineID"@),
        col_int(t.col("AdvEngineID"@), row) != 0,
    decreases e,
{
    match e {
        Expr::BinaryOp { left, op: BinaryOperator::NotEq, right } => {
            lemma_zero();
        },
        Expr::BinaryOp { left, op: BinaryOperator::And, right } => {
            if adv_condition(*left) {
                lemma_adv(t, *left, row);
            } else {
                lemma_adv(t, *right, row);
            }
        },
        Expr::Nested(inner) => {
            lemma_adv(t, *inner, row);
        },
        _ => {},
    }
}

/// Whether a table has no index, or one that was built from its columns and covers the
/// rows.
pub open spec fn well_indexed(t: Table, n: nat) -> bool {
    match (t.index(), zone_source(t)) {
        (None, _) => true,
        (Some(ix), Some(src)) => ix.indexes(src) && n <= src.rows() && src.rows() <= usize::MAX && (
        t.has("AdvEngineID"@) ==> src.adv is Some),
        _ => false,
    }
}

proof fn lemma_prune_keeps(t: Table, e: Expr, mask: Seq<bool>)
    requires
        well_indexed(t, mask.len()),
        decides(t, e, mask),
    ensures
        adv_pruned(t, e, range_pruned(t, e, mask)) == mask,
{
    if let (Some(ix), Some(src)) = (t.index(), zone_source(t)) {
        let pad = Seq::new(src.rows() as nat, |r: int| true);
        assert forall|row: int| 0 <= row < mask.len() && mask[row] implies range_pruned(
            t,
            e,
            mask,
        )[row] && adv_pruned(t, e, mask)[row] by {
            assert(yields(bool_of(t, e, row), mask[row]));
            if let Some((c, a, b)) = date_range(e) {
                lemma_ranged(
                    t,
                    src,
                    e,
                    DateRange { counter: None, min_date: None, max_date: None },
                    row,
                );
                law_dashboard_prune_sound(ix, src, pad, row, c, a, b);
            }
            if adv_condition(e) {
                lemma_adv(t, e, row);
                law_adv_prune_sound(ix, src, pad, row);
                assert(pruned(pad, ix.zones@, |z: Zone| z.may_have_adv())[row] == pad[row]);
            }
        }
        assert(range_pruned(t, e, mask) =~= mask);
        assert(adv_pruned(t, e, mask) =~= mask);
    }
}

/// The quick mask of a condition on a table whose index was built from its columns is
/// the mask of the plain filter, where the quick ways compare like with like or do not
/// apply.
pub proof fn law_quick_mask_agrees(t: Table, e: Expr, n: nat)
    requires
        well_indexed(t, n),
        apt(t, e) || fused_mask(t, e, n) is Some || yields(shaped_mask(t, e, n), None),
    ensures
        quick_mask(t, Some(e), n) == filtered(t, Some(e), n),
{
    assert forall|i: int| 0 <= i < flattened(e).len() implies date_range(
        #[trigger] flattened(e)[i],
    ) is None by {
        lemma_no_range(e, i);
    }
    lemma_no_first_range(flattened(e));
    assert(yields(sparse_mask(t, e, n), None));
    if fused_mask(t, e, n) is Some {
        law_fused_mask_decides(t, e, n);
        law_deciding_mask(t, e, fused_mask(t, e, n)->Some_0);
    } else if apt(t, e) {
        law_shaped_mask_decides(t, e, n);
        law_deciding_mask(t, e, shaped_mask(t, e, n)->Ok_0->Some_0);
    }
    assert(dense_mask(t, e, n) == filtered(t, Some(e), n));
    if let Ok(mask) = filtered(t, Some(e), n) {
        lemma_filtered_len(t, Some(e), n);
        assert forall|row: int| 0 <= row < mask.len() implies yields(
            bool_of(t, e, row),
            #[trigger] mask[row],
        ) by {
            crate::exec::filter::law_filter_selects(t, e, n, row);
        }
        lemma_prune_keeps(t, e, mask);
    }
}

} // verus!
