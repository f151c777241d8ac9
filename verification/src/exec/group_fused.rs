//! The special ways of grouping, one after another.
use crate::error::Error;
use crate::exec::group::{
    answered, attempted, group_plain, plain_answer, Answer, AnswerView,
};
use crate::exec::group_direct::{group_direct_result, try_execute_group_direct};
use crate::exec::group_fused_pair::{
    pair_aggs_answer, pair_count_result, try_fused_int_pair_aggs, try_fused_int_pair_count,
};
use crate::exec::group_fused_phrase::{
    int_utf8_count_answer, q19_result, q35_result, try_fused_int_utf8_count, try_fused_q19,
    try_fused_q35, try_fused_utf8_count, utf8_count_result,
};
use crate::exec::group_fused_q11::{q11_result, try_fused_utf8_one_distinct};
use crate::exec::group_fused_q22::{q22_result, try_fused_q22};
use crate::exec::group_fused_q29::{q29_result, try_fused_q29};
use crate::exec::group_fused_q36::{q36_result, try_fused_q36};
use crate::exec::group_fused_q40::{q40_result, try_fused_q40};
use crate::exec::group_fused_q41::{q41_result, try_fused_q41};
use crate::exec::group_fused_q43::{q43_result, try_fused_q43};
use crate::exec::group_fused_quad::{int4_result, try_fused_int4_count};
use crate::exec::group_fused_region::{
    counter_result, region_result, try_fused_counter_avg_url_len, try_fused_region_aggs,
};
use crate::exec::group_fused_text::{
    int16_utf8_distinct_result, int64_count_result, try_fused_int16_utf8_distinct,
    try_fused_int64_count, try_fused_utf8_count_distinct_i64, try_fused_utf8_pair_distinct,
    utf8_distinct_result, utf8_pair_distinct_result,
};
use crate::exec::group_int::{int_answer, try_execute_grouped_int};
use crate::exec::group_near_unique::{near_unique_result, or_else, try_execute_near_unique};
use crate::exec::group_referrer::{host_answer, try_execute_grouped_referrer};
use crate::exec::group_sorted::{group_sorted_result, try_execute_group_sorted};
use crate::exec::group_utf8::{try_execute_grouped_utf8, utf8_answer};
use crate::exec::result::ResultView;
use crate::sql::ast::ParsedQuery;
use crate::storage::table::Table;
use vstd::prelude::*;

verus! {

/// A result as an answer.
pub open spec fn done(r: Result<Option<ResultView>, Seq<char>>) -> Result<
    Option<AnswerView>,
    Seq<char>,
> {
    match r {
        Err(m) => Err(m),
        Ok(None) => Ok(None),
        Ok(Some(v)) => Ok(Some(AnswerView::Done(v))),
    }
}

/// The first of two ways that applies.
pub open spec fn or_answer(
    a: Result<Option<AnswerView>, Seq<char>>,
    b: Result<Option<AnswerView>, Seq<char>>,
) -> Result<Option<AnswerView>, Seq<char>> {
    match a {
        Ok(None) => b,
        _ => a,
    }
}

/// What the ways that yield a whole result come to, up to pairs of integers.
pub open spec fn fused_result(t: Table, q: ParsedQuery, n: nat) -> Result<
    Option<ResultView>,
    Seq<char>,
>
{
    or_else(
        q29_result(t, q, n),
        or_else(
            q43_result(t, q, n),
            or_else(
                q36_result(t, q, n),
                or_else(
                    q41_result(t, q, n),
                    or_else(
                        q40_result(t, q, n),
                        or_else(
                            q22_result(t, q, n),
                            or_else(q11_result(t, q, n), fused_result_two(t, q, n)),
                        ),
                    ),
                ),
            ),
        ),
    )
}

/// What the later ways that yield a whole result come to, up to pairs of integers.
pub open spec fn fused_result_two(t: Table, q: ParsedQuery, n: nat) -> Result<
    Option<ResultView>,
    Seq<char>,
>
{
    or_else(
        int4_result(t, q, n),
        or_else(
            q19_result(t, q, n),
            or_else(
                q35_result(t, q, n),
                or_else(
                    int64_count_result(t, q, n),
                    or_else(
                        int16_utf8_distinct_result(t, q, n),
                        or_else(
                            utf8_pair_distinct_result(t, q, n),
                            or_else(
                                region_result(t, q, n),
                                or_else(counter_result(t, q, n), pair_count_result(t, q, n)),
                            ),
                        ),
                    ),
                ),
            ),
        ),
    )
}

/// What the special ways of grouping come to.
pub open spec fn fused_answer(t: Table, q: ParsedQuery, n: nat) -> Result<
    Option<AnswerView>,
    Seq<char>,
>
{
    or_answer(
        done(fused_result(t, q, n)),
        or_answer(
            pair_aggs_answer(t, q, n),
            or_answer(
                done(utf8_count_result(t, q, n)),
                or_answer(
                    int_utf8_count_answer(t, q, n),
                    done(utf8_distinct_result(t, q, n)),
                ),
            ),
        ),
    )
}

/// The special ways of grouping, one after another.
pub fn try_execute_group_fused(table: &Table, parsed: &ParsedQuery, row_count: usize) -> (r: Result<
    Option<Answer>,
    Error,
>)
    requires
        table.wf(),
        table.holds_rows(row_count as int),
    ensures
        attempted(r) == fused_answer(*table, *parsed, row_count as nat),
        r matches Ok(Some(a)) ==> a.wf(),
{
    match try_fused_q29(table, parsed, row_count) {
        Err(e) => {
            return Err(e);
        },
        Ok(Some(r)) => {
            return Ok(Some(Answer::Done(r)));
        },
        Ok(None) => {},
    }
    match try_fused_q43(table, parsed, row_count) {
        Err(e) => {
            return Err(e);
        },
        Ok(Some(r)) => {
            return Ok(Some(Answer::Done(r)));
        },
        Ok(None) => {},
    }
    match try_fused_q36(table, parsed, row_count) {
        Err(e) => {
            return Err(e);
        },
        Ok(Some(r)) => {
            return Ok(Some(Answer::Done(r)));
        },
        Ok(None) => {},
    }
    match try_fused_q41(table, parsed, row_count) {
        Err(e) => {
            return Err(e);
        },
        Ok(Some(r)) => {
            return Ok(Some(Answer::Done(r)));
        },
        Ok(None) => {},
    }
    match try_fused_q40(table, parsed, row_count) {
        Err(e) => {
            return Err(e);
        },
        Ok(Some(r)) => {
            return Ok(Some(Answer::Done(r)));
        },
        Ok(None) => {},
    }
    match try_fused_q22(table, parsed, row_count) {
        Err(e) => {
            return Err(e);
        },
        Ok(Some(r)) => {
            return Ok(Some(Answer::Done(r)));
        },
        Ok(None) => {},
    }
    match try_fused_utf8_one_distinct(table, parsed, row_count) {
        Err(e) => {
            return Err(e);
        },
        Ok(Some(r)) => {
            return Ok(Some(Answer::Done(r)));
        },
        Ok(None) => {},
    }
    match try_fused_int4_count(table, parsed, row_count) {
        Err(e) => {
            return Err(e);
        },
        Ok(Some(r)) => {
            return Ok(Some(Answer::Done(r)));
        },
        Ok(None) => {},
    }
    match try_fused_q19(table, parsed, row_count) {
        Err(e) => {
            return Err(e);
        },
        Ok(Some(r)) => {
            return Ok(Some(Answer::Done(r)));
        },
        Ok(None) => {},
    }
    match try_fused_q35(table, parsed, row_count) {
        Err(e) => {
            return Err(e);
        },
        Ok(Some(r)) => {
            return Ok(Some(Answer::Done(r)));
        },
        Ok(None) => {},
    }
    match try_fused_int64_count(table, parsed, row_count) {
        Err(e) => {
            return Err(e);
        },
        Ok(Some(r)) => {
            return Ok(Some(Answer::Done(r)));
        },
        Ok(None) => {},
    }
    match try_fused_int16_utf8_distinct(table, parsed, row_count) {
        Err(e) => {
            return Err(e);
        },
        Ok(Some(r)) => {
            return Ok(Some(Answer::Done(r)));
        },
        Ok(None) => {},
    }
    match try_fused_utf8_pair_distinct(table, parsed, row_count) {
        Err(e) => {
            return Err(e);
        },
        Ok(Some(r)) => {
            return Ok(Some(Answer::Done(r)));
        },
        Ok(None) => {},
    }
    match try_fused_region_aggs(table, parsed, row_count) {
        Err(e) => {
            return Err(e);
        },
        Ok(Some(r)) => {
            return Ok(Some(Answer::Done(r)));
        },
        Ok(None) => {},
    }
    match try_fused_counter_avg_url_len(table, parsed, row_count) {
        Err(e) => {
            return Err(e);
        },
        Ok(Some(r)) => {
            return Ok(Some(Answer::Done(r)));
        },
        Ok(None) => {},
    }
    match try_fused_int_pair_count(table, parsed, row_count) {
        Err(e) => {
            return Err(e);
        },
        Ok(Some(r)) => {
            return Ok(Some(Answer::Done(r)));
        },
        Ok(None) => {},
    }
    match try_fused_int_pair_aggs(table, parsed, row_count) {
        Err(e) => {
            return Err(e);
        },
        Ok(Some(r)) => {
            return Ok(Some(r));
        },
        Ok(None) => {},
    }
    match try_fused_utf8_count(table, parsed, row_count) {
        Err(e) => {
            return Err(e);
        },
        Ok(Some(r)) => {
            return Ok(Some(Answer::Done(r)));
        },
        Ok(None) => {},
    }
    match try_fused_int_utf8_count(table, parsed, row_count) {
        Err(e) => {
            return Err(e);
        },
        Ok(Some(r)) => {
            return Ok(Some(r));
        },
        Ok(None) => {},
    }
    match try_fused_utf8_count_distinct_i64(table, parsed, row_count) {
        Err(e) => Err(e),
        Ok(Some(r)) => Ok(Some(Answer::Done(r))),
        Ok(None) => Ok(None),
    }
}

/// What a query with groups comes to: with a limit the first way that applies, and else
/// grouping by the texts of the keys.
pub open spec fn grouped_answer(t: Table, q: ParsedQuery, n: nat) -> Result<AnswerView, Seq<char>> {
    if q.limit is None {
        plain_answer(t, q, n)
    } else {
        match special_answer(t, q, n) {
            Err(m) => Err(m),
            Ok(Some(a)) => Ok(a),
            Ok(None) => plain_answer(t, q, n),
        }
    }
}

/// What the ways of grouping before the plain one come to.
pub open spec fn special_answer(t: Table, q: ParsedQuery, n: nat) -> Result<
    Option<AnswerView>,
    Seq<char>,
>
{
    or_answer(
        done(near_unique_result(t, q, n)),
        or_answer(
            done(group_direct_result(t, q, n)),
            or_answer(
                done(group_sorted_result(t, q, n)),
                or_answer(
                    fused_answer(t, q, n),
                    or_answer(
                        host_answer(t, q, n),
                        or_answer(utf8_answer(t, q, n), int_answer(t, q, n)),
                    ),
                ),
            ),
        ),
    )
}

fn try_special(table: &Table, parsed: &ParsedQuery, row_count: usize) -> (r: Result<
    Option<Answer>,
    Error,
>)
    requires
        table.wf(),
        table.holds_rows(row_count as int),
    ensures
        attempted(r) == special_answer(*table, *parsed, row_count as nat),
        r matches Ok(Some(a)) ==> a.wf(),
{
    match try_execute_near_unique(table, parsed, row_count) {
        Err(e) => {
            return Err(e);
        },
        Ok(Some(r)) => {
            return Ok(Some(Answer::Done(r)));
        },
        Ok(None) => {},
    }
    match try_execute_group_direct(table, parsed, row_count) {
        Err(e) => {
            return Err(e);
        },
        Ok(Some(r)) => {
            return Ok(Some(Answer::Done(r)));
        },
        Ok(None) => {},
    }
    match try_execute_group_sorted(table, parsed, row_count) {
        Err(e) => {
            return Err(e);
        },
        Ok(Some(r)) => {
            return Ok(Some(Answer::Done(r)));
        },
        Ok(None) => {},
    }
    match try_execute_group_fused(table, parsed, row_count) {
        Err(e) => {
            return Err(e);
        },
        Ok(Some(r)) => {
            return Ok(Some(r));
        },
        Ok(None) => {},
    }
    match try_execute_grouped_referrer(table, parsed, row_count) {
        Err(e) => {
            return Err(e);
        },
        Ok(Some(r)) => {
            return Ok(Some(r));
        },
        Ok(None) => {},
    }
    match try_execute_grouped_utf8(table, parsed, row_count) {
        Err(e) => {
            return Err(e);
        },
        Ok(Some(r)) => {
            return Ok(Some(r));
        },
        Ok(None) => {},
    }
    try_execute_grouped_int(table, parsed, row_count)
}

/// Groups the rows of a table as a query asks for.
pub fn execute_grouped(table: &Table, parsed: &ParsedQuery, row_count: usize) -> (r: Result<
    Answer,
    Error,
>)
    requires
        table.wf(),
        table.holds_rows(row_count as int),
    ensures
        answered(r) == grouped_answer(*table, *parsed, row_count as nat),
        r matches Ok(a) ==> a.wf(),
{
    if parsed.limit.is_none() {
        return group_plain(table, parsed, row_count);
    }
    match try_special(table, parsed, row_count) {
        Err(e) => Err(e),
        Ok(Some(a)) => Ok(a),
        Ok(None) => group_plain(table, parsed, row_count),
    }
}

} // verus!
