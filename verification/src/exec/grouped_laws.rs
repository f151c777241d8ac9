//! What grouping means, in terms of the rows.
use crate::error::yields;
use crate::exec::aggregate::accumulated;
use crate::exec::aggregate_laws::comes_to;
use crate::exec::group::{
    group_passes, group_row, group_rows, is_agg, item_fault, items_fault, key_shown, keyed,
    plainly_grouped, resolved, row_key, rows_fault, rows_with, stands_for, states_of,
};
use crate::exec::group_laws::{
    lemma_group_row_len, lemma_group_row_values, lemma_keyed_rows, lemma_row_key_parts,
};
use crate::exec::hash::{
    first_seen, lemma_first_seen_distinct, lemma_occurrences, noted, occurrences,
};
use crate::exec::having::passes;
use crate::exec::plain_rows::{lemma_aggregate_no_key, plain_rows, row_of_key};
use crate::exec::result::{shown, CellView};
use crate::expr::eval::key_of;
use crate::sql::ast::{BinaryOperator, Expr, Function, Literal, ParsedQuery, SelectItemKind, SelectProjection};
use crate::storage::table::Table;
use crate::text::{decimal, law_numeral_read_back, uppercased};
use vstd::prelude::*;

verus! {

/// Whether two rows have the same texts for all grouping expressions of a query.
pub open spec fn together(t: Table, q: ParsedQuery, r: usize, s: usize) -> bool {
    forall|i: int|
        0 <= i < q.group_by@.len() ==> key_of(
            t,
            resolved(#[trigger] q.group_by@[i], q.select_items@),
            r as int,
        ) == key_of(t, resolved(q.group_by@[i], q.select_items@), s as int)
}

/// The rows that are grouped with a row.
pub open spec fn group_of(t: Table, q: ParsedQuery, rows: Seq<usize>, r: usize) -> Seq<usize> {
    rows.filter(|s: usize| together(t, q, r, s))
}

/// Whether a condition on groups lets a group of so many rows pass.
pub open spec fn lets_pass(q: ParsedQuery, size: nat) -> bool {
    q.having is None || passes(q.having->Some_0, size)
}

/// `HAVING COUNT(..) > n` lets those groups pass that have more than `n` rows.
pub proof fn law_having_count(e: Expr, f: Function, numeral: String, n: u64, size: nat)
    requires
        uppercased(f.name@) == "COUNT"@,
        numeral@ == decimal(n as int),
        e == (Expr::BinaryOp {
            left: Box::new(Expr::Function(f)),
            op: BinaryOperator::Gt,
            right: Box::new(Expr::Value(Literal::Number(numeral))),
        }),
    ensures
        passes(e, size) <==> size > n,
{
    law_numeral_read_back(n as int);
}

/// The places among the first `n` keys of those whose groups pass.
spec fn passing<K>(q: ParsedQuery, keys: Seq<K>, n: nat) -> Seq<int>
    decreases n,
{
    if n == 0 {
        Seq::empty()
    } else if group_passes(q.having, occurrences(keys, first_seen(keys)[n - 1])) {
        passing(q, keys, (n - 1) as nat).push(n - 1)
    } else {
        passing(q, keys, (n - 1) as nat)
    }
}

proof fn lemma_passing<K>(q: ParsedQuery, keys: Seq<K>, n: nat)
    ensures
        forall|k: int|
            0 <= k < passing(q, keys, n).len() ==> 0 <= #[trigger] passing(q, keys, n)[k] < n
                && group_passes(
                q.having,
                occurrences(keys, first_seen(keys)[passing(q, keys, n)[k]]),
            ),
        forall|k: int, l: int|
            0 <= k < l < passing(q, keys, n).len() ==> #[trigger] passing(q, keys, n)[k]
                < #[trigger] passing(q, keys, n)[l],
        forall|g: int|
            0 <= g < n && group_passes(q.having, occurrences(keys, #[trigger] first_seen(keys)[g]))
                ==> passing(q, keys, n).contains(g),
    decreases n,
{
    if n > 0 {
        let m = (n - 1) as nat;
        lemma_passing(q, keys, m);
        let (was, now) = (passing(q, keys, m), passing(q, keys, n));
        assert forall|g: int|
            0 <= g < n && group_passes(
                q.having,
                occurrences(keys, #[trigger] first_seen(keys)[g]),
            ) implies now.contains(g) by {
            if g < m {
                assert(was.contains(g));
                let k = choose|k: int| 0 <= k < was.len() && was[k] == g;
                assert(now[k] == g);
            } else {
                assert(now[was.len() as int] == g);
            }
        }
    }
}

/// The rows that are shown are those of the groups that pass.
proof fn lemma_shown<K>(t: Table, q: ParsedQuery, keys: Seq<K>, rows: Seq<usize>, n: nat)
    requires
        group_rows(t, q, keys, rows, n) is Ok,
    ensures
        group_rows(t, q, keys, rows, n)->Ok_0.len() == passing(q, keys, n).len(),
        forall|k: int|
            0 <= k < passing(q, keys, n).len() ==> yields(
                group_row(
                    t,
                    q,
                    rows_with(keys, rows, first_seen(keys)[passing(q, keys, n)[k]])[0],
                    states_of(
                        t,
                        q.select_items@,
                        keys,
                        rows,
                        first_seen(keys)[passing(q, keys, n)[k]],
                    ),
                    q.select_items@.len(),
                ),
                #[trigger] group_rows(t, q, keys, rows, n)->Ok_0[k],
            ),
    decreases n,
{
    if n > 0 {
        let m = (n - 1) as nat;
        lemma_shown(t, q, keys, rows, m);
        let (was, now) = (group_rows(t, q, keys, rows, m)->Ok_0, group_rows(
            t,
            q,
            keys,
            rows,
            n,
        )->Ok_0);
        assert forall|k: int| 0 <= k < passing(q, keys, n).len() implies yields(
            group_row(
                t,
                q,
                rows_with(keys, rows, first_seen(keys)[passing(q, keys, n)[k]])[0],
                states_of(
                    t,
                    q.select_items@,
                    keys,
                    rows,
                    first_seen(keys)[passing(q, keys, n)[k]],
                ),
                q.select_items@.len(),
            ),
            #[trigger] now[k],
        ) by {
            if k < was.len() {
                assert(now[k] == was[k]);
                assert(passing(q, keys, n)[k] == passing(q, keys, m)[k]);
            }
        }
    }
}

/// The rows that have a key depend on as many rows as there are keys.
proof fn lemma_rows_with_front<K>(keys: Seq<K>, a: Seq<usize>, b: Seq<usize>, key: K)
    requires
        keys.len() <= a.len(),
        keys.len() <= b.len(),
        forall|i: int| 0 <= i < keys.len() ==> #[trigger] a[i] == b[i],
    ensures
        rows_with(keys, a, key) == rows_with(keys, b, key),
    decreases keys.len(),
{
    if keys.len() > 0 {
        lemma_rows_with_front(keys.drop_last(), a, b, key);
        assert(a[keys.len() - 1] == b[keys.len() - 1]);
    }
}

/// The rows that have a key are those for which a test that tells the key holds.
proof fn lemma_rows_with_filter<K>(
    keys: Seq<K>,
    rows: Seq<usize>,
    key: K,
    test: spec_fn(usize) -> bool,
)
    requires
        keys.len() == rows.len(),
        forall|i: int| 0 <= i < rows.len() ==> test(#[trigger] rows[i]) == (keys[i] == key),
    ensures
        rows_with(keys, rows, key) == rows.filter(test),
        occurrences(keys, key) == rows.filter(test).len(),
    decreases keys.len(),
{
    reveal(Seq::filter);
    if keys.len() > 0 {
        let (k, r) = (keys.drop_last(), rows.drop_last());
        assert forall|i: int| 0 <= i < r.len() implies test(#[trigger] r[i]) == (k[i] == key) by {
            assert(r[i] == rows[i]);
        }
        lemma_rows_with_filter(k, r, key, test);
        lemma_rows_with_front(k, r, rows, key);
        assert(rows[rows.len() - 1] == rows.last());
    }
}

/// Whether a row stands beside a key.
spec fn has_row<K>(keys: Seq<K>, rows: Seq<usize>, key: K, r: usize) -> bool {
    exists|k: int| 0 <= k < keys.len() && keys[k] == key && #[trigger] rows[k] == r
}

/// The rows that have a key are as many as it appears, and stand beside it.
proof fn lemma_rows_with_members<K>(keys: Seq<K>, rows: Seq<usize>, key: K)
    requires
        keys.len() <= rows.len(),
    ensures
        rows_with(keys, rows, key).len() == occurrences(keys, key),
        forall|i: int|
            0 <= i < rows_with(keys, rows, key).len() ==> has_row(
                keys,
                rows,
                key,
                #[trigger] rows_with(keys, rows, key)[i],
            ),
    decreases keys.len(),
{
    if keys.len() > 0 {
        let front = keys.drop_last();
        lemma_rows_with_members(front, rows, key);
        let (was, now) = (rows_with(front, rows, key), rows_with(keys, rows, key));
        assert forall|i: int| 0 <= i < now.len() implies has_row(
            keys,
            rows,
            key,
            #[trigger] now[i],
        ) by {
            if i < was.len() {
                assert(now[i] == was[i]);
                assert(has_row(front, rows, key, was[i]));
                let k = choose|k: int|
                    0 <= k < front.len() && front[k] == key && #[trigger] rows[k] == was[i];
                assert(keys[k] == key && rows[k] == now[i]);
            } else {
                assert(rows[keys.len() - 1] == now[i]);
            }
        }
    }
}

/// Groups are led by rows in the order of the rows.
proof fn lemma_leaders<K>(keys: Seq<K>, rows: Seq<usize>)
    requires
        keys.len() <= rows.len(),
        forall|i: int, j: int| 0 <= i < j < rows.len() ==> #[trigger] rows[i] < #[trigger] rows[j],
    ensures
        forall|g: int, h: int|
            0 <= g < h < first_seen(keys).len() ==> rows_with(
                keys,
                rows,
                #[trigger] first_seen(keys)[g],
            )[0] < rows_with(keys, rows, #[trigger] first_seen(keys)[h])[0],
    decreases keys.len(),
{
    if keys.len() > 0 {
        let front = keys.drop_last();
        let last = keys.last();
        lemma_leaders(front, rows);
        lemma_first_seen_distinct(front);
        let (was, now) = (first_seen(front), first_seen(keys));
        assert(now == noted(was, last));
        assert forall|g: int| 0 <= g < was.len() implies rows_with(
            keys,
            rows,
            #[trigger] was[g],
        )[0] == rows_with(front, rows, was[g])[0] && rows_with(front, rows, was[g]).len() > 0 by {
            assert(was.contains(was[g]));
            lemma_occurrences(front, was[g]);
            lemma_rows_with_members(front, rows, was[g]);
        }
        assert forall|g: int, h: int| 0 <= g < h < now.len() implies rows_with(
            keys,
            rows,
            #[trigger] now[g],
        )[0] < rows_with(keys, rows, #[trigger] now[h])[0] by {
            assert(now[g] == was[g]);
            if h < was.len() {
                assert(now[h] == was[h]);
            } else {
                assert(now[h] == last);
                assert(!was.contains(last));
                lemma_occurrences(front, last);
                lemma_rows_with_members(front, rows, last);
                lemma_rows_with_members(front, rows, was[g]);
                assert(rows_with(keys, rows, last)[0] == rows[keys.len() - 1]);
                let x = rows_with(front, rows, was[g])[0];
                assert(has_row(front, rows, was[g], x));
                let k = choose|k: int|
                    0 <= k < front.len() && front[k] == was[g] && #[trigger] rows[k] == x;
                assert(rows[k] < rows[keys.len() - 1]);
            }
        }
    }
}

/// Where no row is at fault, the aggregates of rows have a value.
proof fn lemma_no_fault(t: Table, items: Seq<SelectProjection>, rows: Seq<usize>, i: int, j: int)
    requires
        rows_fault(t, items, rows) is None,
        0 <= i < rows.len(),
        0 <= j < items.len(),
    ensures
        item_fault(t, items[j].kind, rows[i] as int) is None,
    decreases rows.len(),
{
    if i < rows.len() - 1 {
        lemma_no_fault(t, items, rows.drop_last(), i, j);
    } else {
        lemma_items_no_fault(t, items, rows.last() as int, items.len(), j);
    }
}

proof fn lemma_items_no_fault(t: Table, items: Seq<SelectProjection>, row: int, n: nat, j: int)
    requires
        items_fault(t, items, row, n) is None,
        0 <= j < n,
    ensures
        item_fault(t, items[j].kind, row) is None,
    decreases n,
{
    if j < n - 1 {
        lemma_items_no_fault(t, items, row, (n - 1) as nat, j);
    }
}

proof fn lemma_accumulates(t: Table, kind: SelectItemKind, rows: Seq<usize>)
    requires
        forall|i: int| 0 <= i < rows.len() ==> item_fault(t, kind, (#[trigger] rows[i]) as int) is None,
    ensures
        accumulated(t, kind, rows) is Ok,
    decreases rows.len(),
{
    if rows.len() > 0 {
        let front = rows.drop_last();
        assert forall|i: int| 0 <= i < front.len() implies item_fault(
            t,
            kind,
            (#[trigger] front[i]) as int,
        ) is None by {
            assert(front[i] == rows[i]);
        }
        lemma_accumulates(t, kind, front);
        assert(item_fault(t, kind, rows[rows.len() - 1] as int) is None);
    }
}

/// Whether a row of a result is that of a group: with the aggregate functions over the rows
/// of the group, and the texts of the grouping expressions on them.
pub open spec fn shows_group(
    t: Table,
    q: ParsedQuery,
    group: Seq<usize>,
    cells: Seq<CellView>,
) -> bool {
    &&& cells.len() == q.select_items@.len()
    &&& forall|j: int|
        0 <= j < q.select_items@.len() && is_agg((#[trigger] q.select_items@[j]).kind) ==> comes_to(
            t,
            q.select_items@[j].kind,
            group,
            cells[j],
        )
    &&& forall|j: int, i: int|
        #![trigger q.select_items@[j], q.group_by@[i]]
        0 <= j < q.select_items@.len() && 0 <= i < q.group_by@.len() && stands_for(q, j, i) && (
        forall|k: int| 0 <= k < i ==> !stands_for(q, j, k)) ==> (key_of(
            t,
            resolved(q.group_by@[i], q.select_items@),
            group[0] as int,
        ) matches Ok(s) && cells[j] == shown(s))
}

/// The key that a projection shows is the first that it stands for.
proof fn lemma_first_shown(q: ParsedQuery, j: int, i: int, n: nat)
    requires
        0 <= i < n <= usize::MAX,
        stands_for(q, j, i),
        forall|k: int| 0 <= k < i ==> !stands_for(q, j, k),
    ensures
        key_shown(q, j, n) == Some(i as usize),
    decreases n,
{
    if i < n - 1 {
        lemma_first_shown(q, j, i, (n - 1) as nat);
    } else {
        lemma_none_shown(q, j, i as nat);
    }
}

proof fn lemma_none_shown(q: ParsedQuery, j: int, n: nat)
    requires
        forall|k: int| 0 <= k < n ==> !stands_for(q, j, k),
    ensures
        key_shown(q, j, n) is None,
    decreases n,
{
    if n > 0 {
        lemma_none_shown(q, j, (n - 1) as nat);
    }
}

/// The row that is shown for a group.
proof fn lemma_shows_group(
    t: Table,
    q: ParsedQuery,
    keys: Seq<Seq<Seq<char>>>,
    rows: Seq<usize>,
    key: Seq<Seq<char>>,
    cells: Seq<CellView>,
)
    requires
        keys.len() == rows.len(),
        keys.contains(key),
        rows_fault(t, q.select_items@, rows) is None,
        q.group_by@.len() <= usize::MAX,
        yields(
            group_row(
                t,
                q,
                rows_with(keys, rows, key)[0],
                states_of(t, q.select_items@, keys, rows, key),
                q.select_items@.len(),
            ),
            cells,
        ),
    ensures
        shows_group(t, q, rows_with(keys, rows, key), cells),
{
    let group = rows_with(keys, rows, key);
    let states = states_of(t, q.select_items@, keys, rows, key);
    let n = q.select_items@.len();
    lemma_group_row_len(t, q, group[0], states, n);
    lemma_rows_with_members(keys, rows, key);
    assert forall|j: int|
        0 <= j < n && is_agg((#[trigger] q.select_items@[j]).kind) implies comes_to(
        t,
        q.select_items@[j].kind,
        group,
        cells[j],
    ) by {
        let kind = q.select_items@[j].kind;
        lemma_group_row_values(t, q, group[0], states, n, j);
        lemma_aggregate_no_key(q, j, q.group_by@.len());
        assert forall|i: int| 0 <= i < group.len() implies item_fault(
            t,
            kind,
            (#[trigger] group[i]) as int,
        ) is None by {
            assert(has_row(keys, rows, key, group[i]));
            let k = choose|k: int|
                0 <= k < keys.len() && keys[k] == key && #[trigger] rows[k] == group[i];
            lemma_no_fault(t, q.select_items@, rows, k, j);
        }
        lemma_accumulates(t, kind, group);
        assert(states[j] == accumulated(t, kind, group)->Ok_0);
    }
    assert forall|j: int, i: int|
        #![trigger q.select_items@[j], q.group_by@[i]]
        0 <= j < q.select_items@.len() && 0 <= i < q.group_by@.len() && stands_for(q, j, i) && (
        forall|k: int| 0 <= k < i ==> !stands_for(q, j, k)) implies (key_of(
        t,
        resolved(q.group_by@[i], q.select_items@),
        group[0] as int,
    ) matches Ok(s) && cells[j] == shown(s)) by {
        lemma_group_row_values(t, q, group[0], states, n, j);
        lemma_first_shown(q, j, i, q.group_by@.len());
    }
}

/// Keys are the same where rows are grouped together.
proof fn lemma_together(t: Table, q: ParsedQuery, r: usize, s: usize)
    requires
        row_key(t, q, r as int, q.group_by@.len()) is Ok,
        row_key(t, q, s as int, q.group_by@.len()) is Ok,
    ensures
        together(t, q, r, s) <==> row_key(t, q, r as int, q.group_by@.len()) == row_key(
            t,
            q,
            s as int,
            q.group_by@.len(),
        ),
{
    let n = q.group_by@.len();
    lemma_row_key_parts(t, q, r as int, n);
    lemma_row_key_parts(t, q, s as int, n);
    let (a, b) = (row_key(t, q, r as int, n)->Ok_0, row_key(t, q, s as int, n)->Ok_0);
    if together(t, q, r, s) {
        assert forall|i: int| 0 <= i < n implies a[i] == b[i] by {
            let e = resolved(q.group_by@[i], q.select_items@);
            assert(yields(key_of(t, e, r as int), a[i]));
            assert(yields(key_of(t, e, s as int), b[i]));
        }
        assert(a =~= b);
    }
    if a == b {
        assert forall|i: int| 0 <= i < q.group_by@.len() implies key_of(
            t,
            resolved(#[trigger] q.group_by@[i], q.select_items@),
            r as int,
        ) == key_of(t, resolved(q.group_by@[i], q.select_items@), s as int) by {
            assert(yields(
                key_of(t, resolved(q.group_by@[i], q.select_items@), r as int),
                a[i],
            ));
            assert(yields(
                key_of(t, resolved(q.group_by@[i], q.select_items@), s as int),
                b[i],
            ));
        }
    }
}

/// The rows with the key of a row are those that are grouped with it.
proof fn lemma_group_of(t: Table, q: ParsedQuery, keys: Seq<Seq<Seq<char>>>, rows: Seq<usize>, i: int)
    requires
        keys.len() == rows.len(),
        0 <= i < rows.len(),
        forall|k: int|
            0 <= k < rows.len() ==> yields(
                row_key(t, q, rows[k] as int, q.group_by@.len()),
                #[trigger] keys[k],
            ),
    ensures
        rows_with(keys, rows, keys[i]) == group_of(t, q, rows, rows[i]),
        occurrences(keys, keys[i]) == group_of(t, q, rows, rows[i]).len(),
{
    let r = rows[i];
    let test = |s: usize| together(t, q, r, s);
    assert(yields(row_key(t, q, rows[i] as int, q.group_by@.len()), keys[i]));
    assert forall|k: int| 0 <= k < rows.len() implies test(#[trigger] rows[k]) == (keys[k]
        == keys[i]) by {
        assert(yields(row_key(t, q, rows[k] as int, q.group_by@.len()), keys[k]));
        lemma_together(t, q, r, rows[k]);
    }
    lemma_rows_with_filter(keys, rows, keys[i], test);
}

/// Grouping rows puts together exactly the rows that have the same texts for all grouping
/// expressions. There is one row of the result for each group that the condition on groups
/// lets pass, in the order in which the groups first appear; it shows the aggregate functions
/// over the rows of the group, and the texts of the grouping expressions on them.
pub proof fn law_groups(t: Table, q: ParsedQuery, rows: Seq<usize>, out: Seq<Seq<CellView>>) -> (
    leaders: Seq<usize>)
    requires
        yields(plainly_grouped(t, q, rows), out),
        q.group_by@.len() <= usize::MAX,
        forall|i: int, j: int| 0 <= i < j < rows.len() ==> #[trigger] rows[i] < #[trigger] rows[j],
    ensures
        leaders.len() == out.len(),
        forall|k: int|
            0 <= k < leaders.len() ==> {
                &&& rows.contains(#[trigger] leaders[k])
                &&& group_of(t, q, rows, leaders[k]).len() > 0
                &&& group_of(t, q, rows, leaders[k])[0] == leaders[k]
                &&& lets_pass(q, group_of(t, q, rows, leaders[k]).len())
                &&& shows_group(t, q, group_of(t, q, rows, leaders[k]), out[k])
            },
        forall|k: int, l: int|
            0 <= k < l < leaders.len() ==> #[trigger] leaders[k] < #[trigger] leaders[l]
                && !together(t, q, leaders[k], leaders[l]),
        forall|i: int|
            0 <= i < rows.len() && lets_pass(q, group_of(t, q, rows, #[trigger] rows[i]).len())
                ==> exists|k: int|
                0 <= k < leaders.len() && together(t, q, #[trigger] leaders[k], rows[i]),
{
    let keys = keyed(t, q, rows).0;
    let n = first_seen(keys).len();
    lemma_keyed_rows(t, q, rows);
    assert(rows.take(keys.len() as int) =~= rows);
    lemma_shown(t, q, keys, rows, n);
    lemma_passing(q, keys, n);
    lemma_first_seen_distinct(keys);
    lemma_leaders(keys, rows);
    let f = first_seen(keys);
    let pass = passing(q, keys, n);
    let leaders = Seq::new(out.len(), |k: int| rows_with(keys, rows, f[pass[k]])[0]);
    assert forall|k: int| 0 <= k < leaders.len() implies {
        &&& rows.contains(#[trigger] leaders[k])
        &&& rows_with(keys, rows, f[pass[k]]) == group_of(t, q, rows, leaders[k])
        &&& group_of(t, q, rows, leaders[k]).len() > 0
        &&& lets_pass(q, group_of(t, q, rows, leaders[k]).len())
        &&& shows_group(t, q, group_of(t, q, rows, leaders[k]), out[k])
        &&& yields(row_key(t, q, leaders[k] as int, q.group_by@.len()), f[pass[k]])
    } by {
        let key = f[pass[k]];
        assert(f.contains(key));
        lemma_occurrences(keys, key);
        lemma_rows_with_members(keys, rows, key);
        assert(has_row(keys, rows, key, rows_with(keys, rows, key)[0]));
        let i = choose|i: int|
            0 <= i < keys.len() && keys[i] == key && #[trigger] rows[i] == rows_with(
                keys,
                rows,
                key,
            )[0];
        lemma_group_of(t, q, keys, rows, i);
        assert(yields(row_key(t, q, rows[i] as int, q.group_by@.len()), keys[i]));
        assert(out[k] == group_rows(t, q, keys, rows, n)->Ok_0[k]);
        lemma_shows_group(t, q, keys, rows, key, out[k]);
    }
    assert forall|k: int, l: int| 0 <= k < l < leaders.len() implies #[trigger] leaders[k]
        < #[trigger] leaders[l] && !together(t, q, leaders[k], leaders[l]) by {
        assert(pass[k] < pass[l]);
        assert(f[pass[k]] != f[pass[l]]);
        lemma_together(t, q, leaders[k], leaders[l]);
    }
    assert forall|i: int|
        0 <= i < rows.len() && lets_pass(
            q,
            group_of(t, q, rows, #[trigger] rows[i]).len(),
        ) implies exists|k: int|
        0 <= k < leaders.len() && together(t, q, #[trigger] leaders[k], rows[i]) by {
        lemma_group_of(t, q, keys, rows, i);
        assert(keys.contains(keys[i]));
        assert(f.contains(keys[i]));
        let g = choose|g: int| 0 <= g < f.len() && f[g] == keys[i];
        assert(group_passes(q.having, occurrences(keys, f[g])));
        assert(pass.contains(g));
        let k = choose|k: int| 0 <= k < pass.len() && pass[k] == g;
        assert(yields(row_key(t, q, rows[i] as int, q.group_by@.len()), keys[i]));
        lemma_together(t, q, leaders[k], rows[i]);
    }
    leaders
}

/// Without a condition on groups plain grouping shows one row for each key, in the order in
/// which the keys appear.
pub proof fn lemma_plain_each(
    t: Table,
    q: ParsedQuery,
    rows: Seq<usize>,
    out: Seq<Seq<CellView>>,
    g: int,
) -> (row: usize)
    requires
        plain_rows(t, q, rows, out),
        q.having is None,
    ensures
        keyed(t, q, rows).0.len() == rows.len(),
        out.len() == first_seen(keyed(t, q, rows).0).len(),
        0 <= g < out.len() ==> row_of_key(
            t,
            q,
            row,
            states_of(
                t,
                q.select_items@,
                keyed(t, q, rows).0,
                rows,
                first_seen(keyed(t, q, rows).0)[g],
            ),
            first_seen(keyed(t, q, rows).0)[g],
            out[g],
        ),
{
    reveal(plain_rows);
    let keys = keyed(t, q, rows).0;
    let n = first_seen(keys).len();
    lemma_keyed_rows(t, q, rows);
    lemma_shown(t, q, keys, rows, n);
    lemma_all_passing(q, keys, n);
    let key = first_seen(keys)[g];
    let row = rows_with(keys, rows, key)[0];
    if 0 <= g < out.len() {
        lemma_first_seen_distinct(keys);
        assert(first_seen(keys).contains(key));
        lemma_occurrences(keys, key);
        lemma_rows_with_members(keys, rows, key);
        assert(has_row(keys, rows, key, row));
        let i = choose|i: int| 0 <= i < keys.len() && keys[i] == key && #[trigger] rows[i] == row;
        assert(yields(row_key(t, q, rows[i] as int, q.group_by@.len()), keys[i]));
        assert(passing(q, keys, n)[g] == g);
        assert(yields(
            group_row(
                t,
                q,
                rows_with(keys, rows, first_seen(keys)[passing(q, keys, n)[g]])[0],
                states_of(
                    t,
                    q.select_items@,
                    keys,
                    rows,
                    first_seen(keys)[passing(q, keys, n)[g]],
                ),
                q.select_items@.len(),
            ),
            group_rows(t, q, keys, rows, n)->Ok_0[g],
        ));
    }
    row
}

proof fn lemma_all_passing<K>(q: ParsedQuery, keys: Seq<K>, n: nat)
    requires
        q.having is None,
    ensures
        passing(q, keys, n).len() == n,
        forall|g: int| 0 <= g < n ==> #[trigger] passing(q, keys, n)[g] == g,
    decreases n,
{
    if n > 0 {
        lemma_all_passing(q, keys, (n - 1) as nat);
    }
}

} // verus!
