//! The special ways of grouping come to rows of plain grouping.
use crate::error::yields;
use crate::exec::average_laws::{
    groups_host, law_counter_plain, law_host_averages_plain, law_host_groups_plain,
};
use crate::exec::group::AnswerView;
use crate::exec::group_fused::{done, special_answer};
use crate::exec::group_direct::{adv_result, region_aggs_result, region_users_result};
use crate::exec::group_fused_pair::{pair_aggs_answer, pair_count_result};
use crate::exec::group_fused_phrase::{int_utf8_count_answer, q19_result};
use crate::exec::group_fused_q11::q11_result;
use crate::exec::group_fused_q22::q22_result;
use crate::exec::group_fused_q29::q29_result;
use crate::exec::group_fused_q36::q36_result;
use crate::exec::group_fused_quad::int4_result;
use crate::exec::group_fused_region::{counter_result, region_result};
use crate::exec::group_fused_text::{
    int16_utf8_distinct_result, int64_count_result, utf8_distinct_result, utf8_pair_distinct_result,
};
use crate::exec::group_int::int_answer;
use crate::exec::group_referrer::host_answer;
use crate::exec::group_sorted::{growing_result, sorted_result};
use crate::exec::group_utf8::utf8_answer;
use crate::exec::int_laws::{groups_columns, law_int_groups_plain, then_aggregates};
use crate::exec::kernel::chosen;
use crate::exec::kernel_rows::{among, answer_rows, as_declared};
use crate::exec::packed_laws::{
    key_days_differ, law_ip_count_plain, law_pair_count_plain, law_pair_sums_plain,
    law_quad_count_plain, sums_numbers,
};
use crate::exec::plain_rows::plain_rows;
use crate::exec::region_laws::{
    law_adv_plain, law_region_aggs_plain, law_region_plain, law_region_users_plain,
};
use crate::exec::result::CellView;
use crate::exec::sorted_laws::{law_growing_count_plain, law_sorted_count_plain};
use crate::exec::text_laws::{
    law_int16_text_distinct_plain, law_int64_count_plain, law_int_text_count_plain,
    law_least_text_plain, law_minute_count_plain, law_text_distinct_plain, law_text_groups_plain,
    law_text_pair_distinct_plain, law_user_distinct_plain, names_phrase,
};
use crate::sql::ast::ParsedQuery;
use crate::storage::table::Table;
use vstd::prelude::*;

verus! {

/// Whether an answer is that of one of the ways that group by the numbers of one column.
pub open spec fn from_numbers(t: Table, q: ParsedQuery, n: nat, a: AnswerView) -> bool {
    ||| yields(done(adv_result(t, q, n)), Some(a))
    ||| yields(done(region_users_result(t, q, n)), Some(a))
    ||| yields(done(region_aggs_result(t, q, n)), Some(a))
    ||| yields(done(region_result(t, q, n)), Some(a))
    ||| yields(done(growing_result(t, q, n)), Some(a))
    ||| yields(done(sorted_result(t, q, n)), Some(a))
    ||| yields(done(int64_count_result(t, q, n)), Some(a))
}

/// Whether an answer is that of one of the ways that count by pairs or by four integers, or
/// of the one that groups by up to four integer columns and shows aggregates behind them.
pub open spec fn from_packed(t: Table, q: ParsedQuery, n: nat, a: AnswerView) -> bool {
    ||| yields(done(pair_count_result(t, q, n)), Some(a))
    ||| yields(pair_aggs_answer(t, q, n), Some(a))
    ||| yields(done(int4_result(t, q, n)), Some(a))
    ||| yields(done(q36_result(t, q, n)), Some(a))
    ||| groups_columns(q) && then_aggregates(q) && yields(int_answer(t, q, n), Some(a))
}

/// Whether an answer is that of one of the ways that group by texts, alone or with
/// integers.
pub open spec fn from_texts(t: Table, q: ParsedQuery, n: nat, a: AnswerView) -> bool {
    ||| yields(utf8_answer(t, q, n), Some(a))
    ||| yields(int_utf8_count_answer(t, q, n), Some(a))
    ||| yields(done(int16_utf8_distinct_result(t, q, n)), Some(a))
    ||| yields(done(utf8_pair_distinct_result(t, q, n)), Some(a))
    ||| yields(done(utf8_distinct_result(t, q, n)), Some(a))
    ||| yields(done(q11_result(t, q, n)), Some(a))
    ||| yields(done(q19_result(t, q, n)), Some(a))
    ||| names_phrase(q) && yields(done(q22_result(t, q, n)), Some(a))
}

proof fn lemma_numbers_plain(
    t: Table,
    q: ParsedQuery,
    n: nat,
    rows: Seq<usize>,
    out: Seq<Seq<CellView>>,
    a: AnswerView,
)
    requires
        n <= usize::MAX,
        t.holds_rows(n as int),
        yields(chosen(t, q, n), Some(rows)),
        rows.len() <= usize::MAX,
        from_numbers(t, q, n, a),
        plain_rows(t, q, rows, out),
    ensures
        among(answer_rows(a), out),
{
    let r = a->Done_0;
    if yields(done(adv_result(t, q, n)), Some(a)) {
        law_adv_plain(t, q, n, rows, out, r);
    } else if yields(done(region_users_result(t, q, n)), Some(a)) {
        law_region_users_plain(t, q, n, rows, out, r);
    } else if yields(done(region_aggs_result(t, q, n)), Some(a)) {
        law_region_aggs_plain(t, q, n, rows, out, r);
    } else if yields(done(region_result(t, q, n)), Some(a)) {
        law_region_plain(t, q, n, rows, out, r);
    } else if yields(done(growing_result(t, q, n)), Some(a)) {
        law_growing_count_plain(t, q, n, rows, out, r);
    } else if yields(done(sorted_result(t, q, n)), Some(a)) {
        law_sorted_count_plain(t, q, n, rows, out, r);
    } else {
        law_int64_count_plain(t, q, n, rows, out, r);
    }
}

proof fn lemma_packed_plain(
    t: Table,
    q: ParsedQuery,
    n: nat,
    rows: Seq<usize>,
    out: Seq<Seq<CellView>>,
    a: AnswerView,
)
    requires
        as_declared(t),
        n <= usize::MAX,
        t.holds_rows(n as int),
        yields(chosen(t, q, n), Some(rows)),
        rows.len() <= usize::MAX,
        key_days_differ(t, q, rows),
        sums_numbers(t, q),
        from_packed(t, q, n, a),
        plain_rows(t, q, rows, out),
    ensures
        among(answer_rows(a), out),
{
    if yields(pair_aggs_answer(t, q, n), Some(a)) {
        law_pair_sums_plain(t, q, n, rows, out, a);
    } else if groups_columns(q) && then_aggregates(q) && yields(int_answer(t, q, n), Some(a)) {
        law_int_groups_plain(t, q, n, rows, out, a);
    } else {
        let r = a->Done_0;
        if yields(done(pair_count_result(t, q, n)), Some(a)) {
            law_pair_count_plain(t, q, n, rows, out, r);
        } else if yields(done(int4_result(t, q, n)), Some(a)) {
            law_quad_count_plain(t, q, n, rows, out, r);
        } else {
            law_ip_count_plain(t, q, n, rows, out, r);
        }
    }
}

proof fn lemma_texts_plain(
    t: Table,
    q: ParsedQuery,
    n: nat,
    rows: Seq<usize>,
    out: Seq<Seq<CellView>>,
    a: AnswerView,
)
    requires
        as_declared(t),
        yields(chosen(t, q, n), Some(rows)),
        rows.len() <= usize::MAX,
        from_texts(t, q, n, a),
        plain_rows(t, q, rows, out),
    ensures
        among(answer_rows(a), out),
{
    if yields(utf8_answer(t, q, n), Some(a)) {
        law_text_groups_plain(t, q, n, rows, out, a);
        assert forall|p: int| 0 <= p < out.len() implies out.contains(#[trigger] out[p]) by {}
    } else if yields(int_utf8_count_answer(t, q, n), Some(a)) {
        law_int_text_count_plain(t, q, n, rows, out, a);
    } else {
        let r = a->Done_0;
        if yields(done(int16_utf8_distinct_result(t, q, n)), Some(a)) {
            law_int16_text_distinct_plain(t, q, n, rows, out, r);
        } else if yields(done(utf8_pair_distinct_result(t, q, n)), Some(a)) {
            law_text_pair_distinct_plain(t, q, n, rows, out, r);
        } else if yields(done(utf8_distinct_result(t, q, n)), Some(a)) {
            law_text_distinct_plain(t, q, n, rows, out, r);
        } else if yields(done(q11_result(t, q, n)), Some(a)) {
            law_user_distinct_plain(t, q, n, rows, out, r);
        } else if yields(done(q19_result(t, q, n)), Some(a)) {
            law_minute_count_plain(t, q, n, rows, out, r);
        } else {
            law_least_text_plain(t, q, n, rows, out, r);
        }
    }
}

/// Whether an answer is that of one of the ways that average lengths by counter or group by
/// host, if the query names the host by no alias that another projection has before it.
pub open spec fn from_lengths(t: Table, q: ParsedQuery, n: nat, a: AnswerView) -> bool {
    ||| yields(done(counter_result(t, q, n)), Some(a))
    ||| groups_host(q) && yields(done(q29_result(t, q, n)), Some(a))
    ||| groups_host(q) && yields(host_answer(t, q, n), Some(a))
}

/// Where a query is answered by the numbers of one column, by pairs, by four integers, by up
/// to four integer columns, by texts, by texts with integers, by pairs of texts, by smallest
/// texts, by average lengths or by hosts, every row of the answer is a row of plain grouping
/// of the same selected rows.
pub proof fn law_special_plain(
    t: Table,
    q: ParsedQuery,
    n: nat,
    rows: Seq<usize>,
    out: Seq<Seq<CellView>>,
    a: AnswerView,
)
    requires
        as_declared(t),
        n <= usize::MAX,
        t.holds_rows(n as int),
        yields(chosen(t, q, n), Some(rows)),
        rows.len() <= usize::MAX,
        key_days_differ(t, q, rows),
        sums_numbers(t, q),
        yields(special_answer(t, q, n), Some(a)),
        from_numbers(t, q, n, a) || from_packed(t, q, n, a) || from_texts(t, q, n, a)
            || from_lengths(t, q, n, a),
        plain_rows(t, q, rows, out),
    ensures
        among(answer_rows(a), out),
{
    if from_numbers(t, q, n, a) {
        lemma_numbers_plain(t, q, n, rows, out, a);
    } else if from_packed(t, q, n, a) {
        lemma_packed_plain(t, q, n, rows, out, a);
    } else if from_texts(t, q, n, a) {
        lemma_texts_plain(t, q, n, rows, out, a);
    } else {
        lemma_lengths_plain(t, q, n, rows, out, a);
    }
}

proof fn lemma_lengths_plain(
    t: Table,
    q: ParsedQuery,
    n: nat,
    rows: Seq<usize>,
    out: Seq<Seq<CellView>>,
    a: AnswerView,
)
    requires
        yields(chosen(t, q, n), Some(rows)),
        rows.len() <= usize::MAX,
        from_lengths(t, q, n, a),
        plain_rows(t, q, rows, out),
    ensures
        among(answer_rows(a), out),
{
    if yields(done(counter_result(t, q, n)), Some(a)) {
        law_counter_plain(t, q, n, rows, out, a->Done_0);
    } else if yields(done(q29_result(t, q, n)), Some(a)) {
        law_host_averages_plain(t, q, n, rows, out, a->Done_0);
    } else {
        law_host_groups_plain(t, q, n, rows, out, a);
        assert forall|p: int| 0 <= p < out.len() implies out.contains(#[trigger] out[p]) by {}
    }
}

} // verus!
