//! What grouping shows: every group once, with its rows counted.
use crate::error::yields;
use crate::exec::aggregate::AggView;
use crate::exec::filter::filtered;
use crate::exec::group::{
    group_row, group_rows, group_value, key_shown, keyed, lemma_key_shown, lemma_rows_with,
    plainly_grouped, resolved, row_key, rows_with, states_of, AnswerView,
};
use crate::exec::group_fused::grouped_answer;
use crate::exec::hash::{
    first_seen, law_tally_total, lemma_first_seen_distinct, occurrences, tally, total,
};
use crate::exec::mask_util::selected;
use crate::exec::plain_laws::{law_group_count, lemma_rows_have_key};
use crate::exec::result::{counted, shown, CellView};
use crate::exec::sorting::{picked_rows, to_sort};
use crate::expr::eval::key_of;
use crate::sql::ast::{Expr, ParsedQuery};
use crate::storage::table::Table;
use vstd::prelude::*;
use vstd::set_lib::{lemma_int_range, lemma_len_subset, set_int_range};

verus! {

/// The values of the row of a group are those of its projections.
pub proof fn lemma_group_row_values(
    t: Table,
    q: ParsedQuery,
    row: usize,
    states: Seq<AggView>,
    n: nat,
    j: int,
)
    requires
        group_row(t, q, row, states, n) is Ok,
        0 <= j < n,
    ensures
        group_row(t, q, row, states, n)->Ok_0.len() == n,
        yields(group_value(t, q, j, row, states[j]), group_row(t, q, row, states, n)->Ok_0[j]),
    decreases n,
{
    if j < n - 1 {
        lemma_group_row_values(t, q, row, states, (n - 1) as nat, j);
    } else {
        lemma_group_row_len(t, q, row, states, (n - 1) as nat);
    }
}

/// The row of a group has a value for each projection.
pub proof fn lemma_group_row_len(t: Table, q: ParsedQuery, row: usize, states: Seq<AggView>, n: nat)
    requires
        group_row(t, q, row, states, n) is Ok,
    ensures
        group_row(t, q, row, states, n)->Ok_0.len() == n,
    decreases n,
{
    if n > 0 {
        lemma_group_row_len(t, q, row, states, (n - 1) as nat);
    }
}

/// Without a condition on groups there is a row for each of them.
proof fn lemma_group_rows_each(
    t: Table,
    q: ParsedQuery,
    keys: Seq<Seq<Seq<char>>>,
    rows: Seq<usize>,
    n: nat,
)
    requires
        q.having is None,
        group_rows(t, q, keys, rows, n) is Ok,
    ensures
        group_rows(t, q, keys, rows, n)->Ok_0.len() == n,
        forall|g: int|
            0 <= g < n ==> yields(
                group_row(
                    t,
                    q,
                    rows_with(keys, rows, first_seen(keys)[g])[0],
                    states_of(t, q.select_items@, keys, rows, first_seen(keys)[g]),
                    q.select_items@.len(),
                ),
                #[trigger] group_rows(t, q, keys, rows, n)->Ok_0[g],
            ),
    decreases n,
{
    if n > 0 {
        lemma_group_rows_each(t, q, keys, rows, (n - 1) as nat);
        let front = group_rows(t, q, keys, rows, (n - 1) as nat)->Ok_0;
        let all = group_rows(t, q, keys, rows, n)->Ok_0;
        assert(all.drop_last() =~= front);
        assert forall|g: int| 0 <= g < n implies yields(
            group_row(
                t,
                q,
                rows_with(keys, rows, first_seen(keys)[g])[0],
                states_of(t, q.select_items@, keys, rows, first_seen(keys)[g]),
                q.select_items@.len(),
            ),
            #[trigger] all[g],
        ) by {
            if g < n - 1 {
                assert(all[g] == front[g]);
            }
        }
    }
}

/// The key of a row has the texts of the grouping expressions.
pub proof fn lemma_row_key_parts(t: Table, q: ParsedQuery, row: int, n: nat)
    requires
        row_key(t, q, row, n) is Ok,
    ensures
        row_key(t, q, row, n)->Ok_0.len() == n,
        forall|i: int|
            0 <= i < n ==> yields(
                key_of(t, resolved(q.group_by@[i], q.select_items@), row),
                #[trigger] row_key(t, q, row, n)->Ok_0[i],
            ),
    decreases n,
{
    if n > 0 {
        lemma_row_key_parts(t, q, row, (n - 1) as nat);
        let front = row_key(t, q, row, (n - 1) as nat)->Ok_0;
        let all = row_key(t, q, row, n)->Ok_0;
        assert forall|i: int| 0 <= i < n implies yields(
            key_of(t, resolved(q.group_by@[i], q.select_items@), row),
            #[trigger] all[i],
        ) by {
            if i < n - 1 {
                assert(all[i] == front[i]);
            }
        }
    }
}

/// Where no row is at fault, each has its key.
pub proof fn lemma_keyed_rows(t: Table, q: ParsedQuery, rows: Seq<usize>)
    requires
        keyed(t, q, rows).1 is None,
    ensures
        keyed(t, q, rows).0.len() == rows.len(),
        forall|i: int|
            0 <= i < rows.len() ==> yields(
                row_key(t, q, rows[i] as int, q.group_by@.len()),
                #[trigger] keyed(t, q, rows).0[i],
            ),
    decreases rows.len(),
{
    if rows.len() > 0 {
        let front = rows.drop_last();
        lemma_keyed_rows(t, q, front);
        let all = keyed(t, q, rows).0;
        assert forall|i: int| 0 <= i < rows.len() implies yields(
            row_key(t, q, rows[i] as int, q.group_by@.len()),
            #[trigger] all[i],
        ) by {
            if i < rows.len() - 1 {
                assert(all[i] == keyed(t, q, front).0[i]);
                assert(front[i] == rows[i]);
            }
        }
    }
}

/// Whether two keys of a query are the same: one key, or the same column twice.
pub open spec fn one_key(q: ParsedQuery, i: int, k: int) -> bool {
    i == k || match (
        resolved(q.group_by@[i], q.select_items@),
        resolved(q.group_by@[k], q.select_items@),
    ) {
        (Expr::Identifier(a), Expr::Identifier(b)) => a@ == b@,
        _ => false,
    }
}

/// Whether some projection of a query shows one of its keys.
pub open spec fn shows_key_number(q: ParsedQuery, i: int) -> bool {
    exists|j: int|
        0 <= j < q.select_items@.len() && match #[trigger] key_shown(q, j, q.group_by@.len()) {
            Some(k) => one_key(q, i, k as int),
            None => false,
        }
}

/// Whether the projections of a query show each of its keys.
pub open spec fn shows_all_keys(q: ParsedQuery) -> bool {
    forall|i: int| 0 <= i < q.group_by@.len() ==> #[trigger] shows_key_number(q, i)
}

/// Whether a row of a result shows a key.
pub open spec fn row_shows(q: ParsedQuery, row: Seq<CellView>, key: Seq<Seq<char>>) -> bool {
    forall|j: int|
        0 <= j < q.select_items@.len() ==> match #[trigger] key_shown(q, j, q.group_by@.len()) {
            Some(i) => row[j] == shown(key[i as int]),
            None => true,
        }
}

/// Whether two rows of a result show the same keys.
pub open spec fn same_keys(q: ParsedQuery, a: Seq<CellView>, b: Seq<CellView>) -> bool {
    forall|j: int|
        0 <= j < q.select_items@.len() && #[trigger] key_shown(q, j, q.group_by@.len()) is Some
            ==> a[j] == b[j]
}

/// Whether rows show given counts in one column.
pub open spec fn shows_numbers(rows: Seq<Seq<CellView>>, c: int, counts: Seq<nat>) -> bool {
    &&& counts.len() == rows.len()
    &&& forall|g: int| 0 <= g < rows.len() ==> (#[trigger] rows[g])[c] == counted(counts[g] as int)
}

proof fn lemma_group_cells(
    t: Table,
    q: ParsedQuery,
    rows: Seq<usize>,
    out: Seq<Seq<CellView>>,
    g: int,
)
    requires
        q.having is None,
        yields(plainly_grouped(t, q, rows), out),
        0 <= g < out.len(),
    ensures
        ({
            let keys = keyed(t, q, rows).0;
            &&& out.len() == first_seen(keys).len()
            &&& keys.len() == rows.len()
            &&& out[g].len() == q.select_items@.len()
            &&& first_seen(keys)[g].len() == q.group_by@.len()
            &&& row_shows(q, out[g], first_seen(keys)[g])
            &&& exists|row: int|
                yields(#[trigger] row_key(t, q, row, q.group_by@.len()), first_seen(keys)[g])
            &&& forall|c: int|
                0 <= c < q.select_items@.len() && (#[trigger] q.select_items@[c]).kind is CountAll
                    ==> out[g][c] == counted(occurrences(keys, first_seen(keys)[g]) as int)
        }),
{
    let keys = keyed(t, q, rows).0;
    lemma_keyed_rows(t, q, rows);
    assert(rows.take(keys.len() as int) =~= rows);
    lemma_group_rows_each(t, q, keys, rows, first_seen(keys).len());
    lemma_first_seen_distinct(keys);
    let key = first_seen(keys)[g];
    assert(first_seen(keys).contains(key));
    lemma_rows_with(keys, rows, key);
    lemma_rows_have_key(keys, rows, key, 0);
    let row = rows_with(keys, rows, key)[0];
    let i = choose|i: int| 0 <= i < keys.len() && keys[i] == key && #[trigger] rows[i] == row;
    assert(yields(row_key(t, q, rows[i] as int, q.group_by@.len()), keys[i]));
    lemma_row_key_parts(t, q, row as int, q.group_by@.len());
    let states = states_of(t, q.select_items@, keys, rows, key);
    assert(yields(group_row(t, q, row, states, q.select_items@.len()), out[g]));
    lemma_group_row_len(t, q, row, states, q.select_items@.len());
    assert forall|j: int| 0 <= j < q.select_items@.len() implies match #[trigger] key_shown(
        q,
        j,
        q.group_by@.len(),
    ) {
        Some(k) => out[g][j] == shown(key[k as int]),
        None => true,
    } by {
        lemma_group_row_values(t, q, row, states, q.select_items@.len(), j);
        lemma_key_shown(q, j, q.group_by@.len());
        match key_shown(q, j, q.group_by@.len()) {
            Some(k) => {
                assert(yields(
                    key_of(t, resolved(q.group_by@[k as int], q.select_items@), row as int),
                    key[k as int],
                ));
            },
            None => {},
        }
    }
    assert forall|c: int|
        0 <= c < q.select_items@.len() && (
        #[trigger] q.select_items@[c]).kind is CountAll implies out[g][c] == counted(
        occurrences(keys, key) as int,
    ) by {
        lemma_group_row_values(t, q, row, states, q.select_items@.len(), c);
        law_group_count(t, keys, rows, key);
        lemma_count_not_key(q, c, q.group_by@.len());
    }
}

/// The parts of a key for the same column are the same.
proof fn lemma_one_key(t: Table, q: ParsedQuery, key: Seq<Seq<char>>, i: int, k: int)
    requires
        exists|row: int| yields(#[trigger] row_key(t, q, row, q.group_by@.len()), key),
        0 <= i < q.group_by@.len(),
        0 <= k < q.group_by@.len(),
        one_key(q, i, k),
    ensures
        key[i] == key[k],
{
    let row = choose|row: int| yields(#[trigger] row_key(t, q, row, q.group_by@.len()), key);
    lemma_row_key_parts(t, q, row, q.group_by@.len());
    assert(yields(key_of(t, resolved(q.group_by@[i], q.select_items@), row), key[i]));
    assert(yields(key_of(t, resolved(q.group_by@[k], q.select_items@), row), key[k]));
}

proof fn lemma_count_not_key(q: ParsedQuery, c: int, n: nat)
    requires
        q.select_items@[c].kind is CountAll,
    ensures
        key_shown(q, c, n) is None,
    decreases n,
{
    if n > 0 {
        lemma_count_not_key(q, c, (n - 1) as nat);
    }
}

/// Whether numbers are those below `n`, each once.
pub open spec fn permutes(numbers: Seq<usize>, n: nat) -> bool {
    &&& numbers.len() == n
    &&& numbers.no_duplicates()
    &&& forall|i: int| 0 <= i < numbers.len() ==> (#[trigger] numbers[i]) < n
}

/// Each number below `n` is among numbers that are those below `n`.
proof fn lemma_permutes_all(numbers: Seq<usize>, n: nat, x: int)
    requires
        permutes(numbers, n),
        0 <= x < n,
    ensures
        exists|p: int| 0 <= p < numbers.len() && #[trigger] numbers[p] == x,
{
    let ints = Seq::new(n, |i: int| numbers[i] as int);
    assert(ints.no_duplicates()) by {
        assert forall|i: int, j: int| 0 <= i < j < n implies ints[i] != ints[j] by {
            assert(numbers[i] != numbers[j]);
        }
    }
    if !ints.contains(x) {
        ints.unique_seq_to_set();
        lemma_int_range(0, n as int);
        let rest = set_int_range(0, n as int).remove(x);
        assert forall|k: int| ints.to_set().contains(k) implies rest.contains(k) by {
            let i = choose|i: int| 0 <= i < ints.len() && ints[i] == k;
            assert(numbers[i] < n);
        }
        lemma_len_subset(ints.to_set(), rest);
    }
    let p = choose|p: int| 0 <= p < ints.len() && ints[p] == x;
    assert(numbers[p] == x);
}

proof fn lemma_total_remove(s: Seq<nat>, p: int)
    requires
        0 <= p < s.len(),
    ensures
        total(s) == total(s.remove(p)) + s[p],
    decreases s.len(),
{
    if p == s.len() - 1 {
        assert(s.remove(p) =~= s.drop_last());
    } else {
        lemma_total_remove(s.drop_last(), p);
        assert(s.remove(p).drop_last() =~= s.drop_last().remove(p));
    }
}

/// The sum of counts does not depend on their order.
proof fn lemma_total_permuted(counts: Seq<nat>, numbers: Seq<usize>)
    requires
        permutes(numbers, counts.len()),
    ensures
        total(Seq::new(numbers.len(), |i: int| counts[numbers[i] as int])) == total(counts),
    decreases counts.len(),
{
    let picked = Seq::new(numbers.len(), |i: int| counts[numbers[i] as int]);
    if counts.len() > 0 {
        let last = counts.len() - 1;
        lemma_permutes_all(numbers, counts.len(), last);
        let p = choose|p: int| 0 <= p < numbers.len() && #[trigger] numbers[p] == last;
        let rest = numbers.remove(p);
        let front = counts.drop_last();
        assert forall|i: int| 0 <= i < rest.len() implies (#[trigger] rest[i]) < front.len() by {
            let k = if i < p {
                i
            } else {
                i + 1
            };
            assert(rest[i] == numbers[k] && k != p);
            assert(numbers[k] != numbers[p]);
        }
        assert(rest.no_duplicates()) by {
            assert forall|i: int, j: int| 0 <= i < j < rest.len() implies rest[i] != rest[j] by {
                let a = if i < p {
                    i
                } else {
                    i + 1
                };
                let b = if j < p {
                    j
                } else {
                    j + 1
                };
                assert(numbers[a] != numbers[b]);
            }
        }
        lemma_total_permuted(front, rest);
        lemma_total_remove(picked, p);
        assert(picked.remove(p) =~= Seq::new(rest.len(), |i: int| front[rest[i] as int]));
    } else {
        assert(picked =~= counts);
    }
}

/// Grouping comes to rows that show different keys, one of them for the keys of every
/// row that meets the WHERE condition, and the counts add up to the number of those rows.
proof fn lemma_groups_are_complete(
    t: Table,
    q: ParsedQuery,
    n: nat,
    mask: Seq<bool>,
    c: int,
    out: Seq<Seq<CellView>>,
)
    requires
        q.group_by@.len() > 0,
        q.having is None,
        q.limit is None,
        shows_all_keys(q),
        0 <= c < q.select_items@.len(),
        q.select_items@[c].kind is CountAll,
        yields(filtered(t, q.where_expr, n), mask),
        yields(grouped_answer(t, q, n), AnswerView::Sort(to_sort(q, out))),
    ensures
        forall|a: int, b: int|
            0 <= a < b < out.len() ==> !same_keys(q, #[trigger] out[a], #[trigger] out[b]),
        forall|i: int|
            0 <= i < selected(mask).len() ==> exists|g: int|
                0 <= g < out.len() && row_key(
                    t,
                    q,
                    (#[trigger] selected(mask)[i]) as int,
                    q.group_by@.len(),
                ) is Ok && row_shows(
                    q,
                    #[trigger] out[g],
                    row_key(t, q, selected(mask)[i] as int, q.group_by@.len())->Ok_0,
                ),
        exists|counts: Seq<nat>|
            #[trigger] shows_numbers(out, c, counts) && total(counts) == selected(mask).len(),
{
    assert(q.group_by.len() == q.group_by@.len());
    let rows = selected(mask);
    let keys = keyed(t, q, rows).0;
    let seen = first_seen(keys);
    assert(yields(plainly_grouped(t, q, rows), out));
    lemma_keyed_rows(t, q, rows);
    assert(rows.take(keys.len() as int) =~= rows);
    lemma_group_rows_each(t, q, keys, rows, seen.len());
    lemma_first_seen_distinct(keys);
    assert forall|a: int, b: int| 0 <= a < b < out.len() implies !same_keys(
        q,
        #[trigger] out[a],
        #[trigger] out[b],
    ) by {
        lemma_group_cells(t, q, rows, out, a);
        lemma_group_cells(t, q, rows, out, b);
        if same_keys(q, out[a], out[b]) {
            assert forall|i: int| 0 <= i < q.group_by@.len() implies seen[a][i] == seen[b][i] by {
                assert(shows_key_number(q, i));
                let j = choose|j: int|
                    0 <= j < q.select_items@.len() && match #[trigger] key_shown(
                        q,
                        j,
                        q.group_by@.len(),
                    ) {
                        Some(k) => one_key(q, i, k as int),
                        None => false,
                    };
                let k = key_shown(q, j, q.group_by@.len())->Some_0 as int;
                lemma_key_shown(q, j, q.group_by@.len());
                assert(out[a][j] == out[b][j]);
                assert(out[a][j] == shown(seen[a][k]));
                assert(out[b][j] == shown(seen[b][k]));
                lemma_one_key(t, q, seen[a], i, k);
                lemma_one_key(t, q, seen[b], i, k);
            }
            assert(seen[a] =~= seen[b]);
        }
    }
    assert forall|i: int| 0 <= i < rows.len() implies exists|g: int|
        0 <= g < out.len() && row_key(t, q, (#[trigger] rows[i]) as int, q.group_by@.len()) is Ok
            && row_shows(
            q,
            #[trigger] out[g],
            row_key(t, q, rows[i] as int, q.group_by@.len())->Ok_0,
        ) by {
        assert(yields(row_key(t, q, rows[i] as int, q.group_by@.len()), keys[i]));
        assert(keys.contains(keys[i]));
        assert(seen.contains(keys[i]));
        let g = choose|g: int| 0 <= g < seen.len() && seen[g] == keys[i];
        lemma_group_cells(t, q, rows, out, g);
        assert(row_shows(q, out[g], keys[i]));
    }
    let counts = tally(keys);
    law_tally_total(keys);
    assert forall|g: int| 0 <= g < out.len() implies (#[trigger] out[g])[c] == counted(
        counts[g] as int,
    ) by {
        lemma_group_cells(t, q, rows, out, g);
    }
    assert(shows_numbers(out, c, counts));
}

/// Grouping loses and merges nothing. A query that shows all its keys and COUNT(*),
/// without a condition on groups, a limit or an offset, comes to rows that show different
/// keys, one of them for the keys of every row that meets the WHERE condition, and the
/// counts add up to the number of those rows, in whatever order the rows are sorted.
pub proof fn law_groups_are_complete(
    t: Table,
    q: ParsedQuery,
    n: nat,
    mask: Seq<bool>,
    c: int,
    groups: Seq<Seq<CellView>>,
    numbers: Seq<usize>,
)
    requires
        q.group_by@.len() > 0,
        q.having is None,
        q.limit is None,
        q.offset is None,
        shows_all_keys(q),
        0 <= c < q.select_items@.len(),
        q.select_items@[c].kind is CountAll,
        yields(filtered(t, q.where_expr, n), mask),
        yields(grouped_answer(t, q, n), AnswerView::Sort(to_sort(q, groups))),
        permutes(numbers, groups.len()),
    ensures
        ({
            let out = picked_rows(groups, numbers);
            &&& forall|a: int, b: int|
                0 <= a < b < out.len() ==> !same_keys(q, #[trigger] out[a], #[trigger] out[b])
            &&& forall|i: int|
                0 <= i < selected(mask).len() ==> exists|g: int|
                    0 <= g < out.len() && row_key(
                        t,
                        q,
                        (#[trigger] selected(mask)[i]) as int,
                        q.group_by@.len(),
                    ) is Ok && row_shows(
                        q,
                        #[trigger] out[g],
                        row_key(t, q, selected(mask)[i] as int, q.group_by@.len())->Ok_0,
                    )
            &&& exists|counts: Seq<nat>|
                #[trigger] shows_numbers(out, c, counts) && total(counts) == selected(mask).len()
        }),
{
    lemma_groups_are_complete(t, q, n, mask, c, groups);
    let out = picked_rows(groups, numbers);
    assert forall|a: int, b: int| 0 <= a < b < out.len() implies !same_keys(
        q,
        #[trigger] out[a],
        #[trigger] out[b],
    ) by {
        let x = numbers[a] as int;
        let y = numbers[b] as int;
        assert(x != y);
        if x < y {
            assert(!same_keys(q, groups[x], groups[y]));
        } else {
            assert(!same_keys(q, groups[y], groups[x]));
        }
    }
    assert forall|i: int| 0 <= i < selected(mask).len() implies exists|g: int|
        0 <= g < out.len() && row_key(
            t,
            q,
            (#[trigger] selected(mask)[i]) as int,
            q.group_by@.len(),
        ) is Ok && row_shows(
            q,
            #[trigger] out[g],
            row_key(t, q, selected(mask)[i] as int, q.group_by@.len())->Ok_0,
        ) by {
        let g = choose|g: int|
            0 <= g < groups.len() && row_shows(
                q,
                #[trigger] groups[g],
                row_key(t, q, selected(mask)[i] as int, q.group_by@.len())->Ok_0,
            );
        lemma_permutes_all(numbers, groups.len(), g);
        let p = choose|p: int| 0 <= p < numbers.len() && #[trigger] numbers[p] == g;
        assert(out[p] == groups[g]);
    }
    let counts = choose|counts: Seq<nat>|
        #[trigger] shows_numbers(groups, c, counts) && total(counts) == selected(mask).len();
    let picked = Seq::new(numbers.len(), |i: int| counts[numbers[i] as int]);
    lemma_total_permuted(counts, numbers);
    assert forall|g: int| 0 <= g < out.len() implies (#[trigger] out[g])[c] == counted(
        picked[g] as int,
    ) by {
        assert(out[g] == groups[numbers[g] as int]);
    }
    assert(shows_numbers(out, c, picked));
}

} // verus!
