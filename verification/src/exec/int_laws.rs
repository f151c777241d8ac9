//! What is grouped by one to four integer columns is rows of plain grouping.
use crate::error::yields;
use crate::exec::aggregate::AggView;
use crate::exec::column_slice::law_pair_unpacks;
use crate::exec::group::{
    group_passes, key_shown, keyed, resolved, rows_with, shows_key, states_of, AnswerView,
};
use crate::exec::group_int::{
    all_packable, int_answer, int_form, int_grouped, int_keyed, int_row, int_rows, int_value,
    is_int_type, key_ints, keys_before, law_quarters_unpack, law_single_unpacks, narrow_part,
    packable, packed, packs_whole, part_text, row_pack, unpacked,
};
use crate::exec::hash::{first_seen, occurrences};
use crate::exec::kernel::{chosen, group_name, keys_lead};
use crate::exec::kernel_rows::{among, answer_rows, as_declared, groups_column, lemma_agree};
use crate::exec::packed_laws::{key_days_differ, lemma_texts_tell};
use crate::exec::plain_rows::{
    aggregate_cell, agree, group_cells, group_states, is_aggregate, key_part,
    lemma_aggregate_no_key, lemma_first_place, lemma_key_parts, lemma_named_part, lemma_plain_keyed,
    lemma_plain_shows, lemma_rows_match, plain_rows,
};
use crate::exec::result::{shown, CellView};
use crate::expr::eval::{col_int, col_shown, column_of};
use crate::sql::ast::ParsedQuery;
use crate::storage::column::ColumnView;
use crate::storage::table::Table;
use vstd::prelude::*;

verus! {

/// Whether a query groups by columns that it names.
pub open spec fn groups_columns(q: ParsedQuery) -> bool {
    forall|j: int| 0 <= j < q.group_by@.len() ==> group_name(#[trigger] q.group_by@[j], q) is Some
}

/// Whether a query shows its keys by the names that it groups by, and behind them only
/// aggregates that have no such name.
pub open spec fn then_aggregates(q: ParsedQuery) -> bool {
    forall|k: int|
        0 <= k < q.select_items@.len() ==> {
            &&& shows_key(#[trigger] q.select_items@[k], q.group_by@) <==> k < q.group_by@.len()
            &&& k >= q.group_by@.len() ==> is_aggregate(q.select_items@[k].kind)
        }
}

/// The column that a query groups by at some place.
pub open spec fn key_column(t: Table, q: ParsedQuery, j: int) -> ColumnView {
    column_of(t, group_name(q.group_by@[j], q)->Some_0)->Ok_0
}

/// Among projections that begin with the keys, as many as there are show keys.
proof fn lemma_keys_count(q: ParsedQuery, n: nat)
    requires
        then_aggregates(q),
        n <= q.group_by@.len() <= q.select_items@.len(),
    ensures
        keys_before(q, n) == n,
    decreases n,
{
    if n > 0 {
        lemma_keys_count(q, (n - 1) as nat);
        assert(shows_key(q.select_items@[n - 1], q.group_by@));
    }
}

/// Whether a query groups by an integer column in memory that has a number on a row.
pub open spec fn int_part(t: Table, q: ParsedQuery, row: int, j: int, v: i64) -> bool {
    &&& groups_column(t, q, j, key_column(t, q, j))
    &&& is_int_type(key_column(t, q, j).column_type())
    &&& v == col_int(key_column(t, q, j), row)
}

/// Whether the first keys of a row are numbers of integer columns in memory.
pub open spec fn int_parts(t: Table, q: ParsedQuery, row: int, parts: Seq<i64>) -> bool {
    forall|j: int| 0 <= j < parts.len() ==> #[trigger] int_part(t, q, row, j, parts[j])
}

/// Each of the expressions that can be packed is packable.
proof fn lemma_packable(t: Table, q: ParsedQuery, n: nat, j: int)
    requires
        all_packable(t, q, n) == Ok::<bool, Seq<char>>(true),
        0 <= j < n,
    ensures
        packable(t, resolved(q.group_by@[j], q.select_items@)) == Ok::<
            bool,
            Seq<char>,
        >(true),
    decreases n,
{
    if j < n - 1 {
        lemma_packable(t, q, (n - 1) as nat, j);
    }
}

/// The parts of the packed key of a row are the numbers of its columns.
proof fn lemma_key_ints_each(t: Table, q: ParsedQuery, row: int, n: nat)
    requires
        as_declared(t),
        groups_columns(q),
        all_packable(t, q, q.group_by@.len()) == Ok::<bool, Seq<char>>(true),
        n <= q.group_by@.len(),
        key_ints(t, q, row, n) is Ok,
    ensures
        key_ints(t, q, row, n)->Ok_0.len() == n,
        int_parts(t, q, row, key_ints(t, q, row, n)->Ok_0),
    decreases n,
{
    if n > 0 {
        lemma_key_ints_each(t, q, row, (n - 1) as nat);
        let front = key_ints(t, q, row, (n - 1) as nat)->Ok_0;
        let all = key_ints(t, q, row, n)->Ok_0;
        assert forall|j: int| 0 <= j < all.len() implies #[trigger] int_part(
            t,
            q,
            row,
            j,
            all[j],
        ) by {
            if j < n - 1 {
                assert(all[j] == front[j]);
                assert(int_part(t, q, row, j, front[j]));
            } else {
                lemma_packable(t, q, q.group_by@.len(), j);
                let name = group_name(q.group_by@[j], q)->Some_0;
                assert(t.has(name));
            }
        }
    }
}

/// The parts of a packed key can be taken out of it.
proof fn lemma_unpacked(t: Table, q: ParsedQuery, row: int, parts: Seq<i64>, j: int)
    requires
        as_declared(t),
        groups_columns(q),
        1 <= q.group_by@.len() <= 4,
        packs_whole(t, q),
        parts.len() == q.group_by@.len(),
        int_parts(t, q, row, parts),
        0 <= j < parts.len(),
    ensures
        unpacked(packed(parts), parts.len(), j) == parts[j],
{
    if parts.len() == 1 {
        law_single_unpacks(parts[0]);
        assert(parts =~= seq![parts[0]]);
    } else if parts.len() == 2 {
        law_pair_unpacks(parts[0], parts[1]);
    } else {
        lemma_narrow(t, q, row, parts, 0);
        lemma_narrow(t, q, row, parts, 1);
        lemma_narrow(t, q, row, parts, 2);
        if parts.len() == 3 {
            law_quarters_unpack(parts[0] as i32, parts[1] as i32, parts[2] as i32, 0);
            assert(parts =~= seq![
                (parts[0] as i32) as i64,
                (parts[1] as i32) as i64,
                (parts[2] as i32) as i64,
            ]);
        } else {
            lemma_narrow(t, q, row, parts, 3);
            law_quarters_unpack(
                parts[0] as i32,
                parts[1] as i32,
                parts[2] as i32,
                parts[3] as i32,
            );
            assert(parts =~= seq![
                (parts[0] as i32) as i64,
                (parts[1] as i32) as i64,
                (parts[2] as i32) as i64,
                (parts[3] as i32) as i64,
            ]);
        }
    }
}

/// The parts of a key of more than two have at most 32 bits.
proof fn lemma_narrow(t: Table, q: ParsedQuery, row: int, parts: Seq<i64>, j: int)
    requires
        as_declared(t),
        groups_columns(q),
        q.group_by@.len() > 2,
        packs_whole(t, q),
        parts.len() == q.group_by@.len(),
        int_parts(t, q, row, parts),
        0 <= j < parts.len(),
    ensures
        i32::MIN <= parts[j] <= i32::MAX,
{
    assert(narrow_part(t, resolved(q.group_by@[j], q.select_items@)));
    assert(int_part(t, q, row, j, parts[j]));
    assert(t.has(group_name(q.group_by@[j], q)->Some_0));
}

/// Where no row is at fault, each has its packed key.
proof fn lemma_int_keyed_each(t: Table, q: ParsedQuery, rows: Seq<usize>)
    requires
        int_keyed(t, q, rows).1 is None,
    ensures
        int_keyed(t, q, rows).0.len() == rows.len(),
        forall|i: int|
            0 <= i < rows.len() ==> yields(
                row_pack(t, q, rows[i] as int),
                #[trigger] int_keyed(t, q, rows).0[i],
            ),
    decreases rows.len(),
{
    if rows.len() > 0 {
        let front = rows.drop_last();
        lemma_int_keyed_each(t, q, front);
        let all = int_keyed(t, q, rows).0;
        assert forall|i: int| 0 <= i < rows.len() implies yields(
            row_pack(t, q, rows[i] as int),
            #[trigger] all[i],
        ) by {
            if i < rows.len() - 1 {
                assert(all[i] == int_keyed(t, q, front).0[i]);
                assert(front[i] == rows[i]);
            }
        }
    }
}

/// Whether a query groups by one to four integer columns, and shows these and then
/// aggregates.
pub open spec fn int_columns(t: Table, q: ParsedQuery) -> bool {
    &&& 1 <= q.group_by@.len() <= 4
    &&& groups_columns(q)
    &&& then_aggregates(q)
    &&& all_packable(t, q, q.group_by@.len()) == Ok::<bool, Seq<char>>(true)
    &&& keys_lead(q)
    &&& packs_whole(t, q)
}

/// The text of a key of a row is that of its column.
proof fn lemma_int_text(
    t: Table,
    q: ParsedQuery,
    rows: Seq<usize>,
    out: Seq<Seq<CellView>>,
    i: int,
    j: int,
)
    requires
        plain_rows(t, q, rows, out),
        0 <= i < rows.len(),
        0 <= j < q.group_by@.len(),
        groups_column(t, q, j, key_column(t, q, j)),
    ensures
        keyed(t, q, rows).0.len() == rows.len(),
        keyed(t, q, rows).0[i].len() == q.group_by@.len(),
        yields(col_shown(key_column(t, q, j), rows[i] as int), keyed(t, q, rows).0[i][j]),
{
    let key = keyed(t, q, rows).0[i];
    lemma_key_parts(t, q, rows, out, i);
    assert(key_part(t, q, rows[i] as int, j, key[j]));
    lemma_named_part(t, q, rows[i] as int, j, key_column(t, q, j), key[j]);
}

/// The packed keys of integer columns are the same just where their texts are.
proof fn lemma_ints_agree(
    t: Table,
    q: ParsedQuery,
    rows: Seq<usize>,
    out: Seq<Seq<CellView>>,
)
    requires
        as_declared(t),
        int_columns(t, q),
        plain_rows(t, q, rows, out),
        key_days_differ(t, q, rows),
        int_keyed(t, q, rows).1 is None,
    ensures
        agree(int_keyed(t, q, rows).0, keyed(t, q, rows).0),
{
    let keys = int_keyed(t, q, rows).0;
    let all = keyed(t, q, rows).0;
    let n = q.group_by@.len();
    lemma_int_keyed_each(t, q, rows);
    lemma_plain_keyed(t, q, rows, out);
    assert forall|i: int, k: int| 0 <= i < keys.len() && 0 <= k < keys.len() implies (
    #[trigger] keys[i] == #[trigger] keys[k] <==> all[i] == all[k]) by {
        let a = key_ints(t, q, rows[i] as int, n)->Ok_0;
        let b = key_ints(t, q, rows[k] as int, n)->Ok_0;
        assert(yields(row_pack(t, q, rows[i] as int), int_keyed(t, q, rows).0[i]));
        assert(yields(row_pack(t, q, rows[k] as int), int_keyed(t, q, rows).0[k]));
        lemma_key_ints_each(t, q, rows[i] as int, n);
        lemma_key_ints_each(t, q, rows[k] as int, n);
        assert(keys[i] == packed(a) && keys[k] == packed(b));
        assert forall|j: int| 0 <= j < n implies (a[j] == b[j] <==> all[i][j] == all[k][j]) by {
            let c = key_column(t, q, j);
            assert(int_part(t, q, rows[i] as int, j, a[j]));
            assert(int_part(t, q, rows[k] as int, j, b[j]));
            assert(groups_column(t, q, j, c));
            lemma_int_text(t, q, rows, out, i, j);
            lemma_int_text(t, q, rows, out, k, j);
            lemma_texts_tell(c, rows, i, k);
        }
        assert(int_part(t, q, rows[i] as int, 0, a[0]));
        lemma_int_text(t, q, rows, out, i, 0);
        lemma_int_text(t, q, rows, out, k, 0);
        if keys[i] == keys[k] {
            assert forall|j: int| 0 <= j < n implies a[j] == b[j] by {
                lemma_unpacked(t, q, rows[i] as int, a, j);
                lemma_unpacked(t, q, rows[k] as int, b, j);
            }
            assert forall|j: int| 0 <= j < n implies all[i][j] == all[k][j] by {
                assert(a[j] == b[j]);
            }
            assert(all[i] =~= all[k]);
        }
        if all[i] == all[k] {
            assert(a =~= b);
        }
    }
}

/// The values of the row of a group of integers are those of its projections.
proof fn lemma_int_row_values(
    t: Table,
    q: ParsedQuery,
    key: u128,
    row: usize,
    states: Seq<AggView>,
    n: nat,
)
    requires
        int_row(t, q, key, row, states, n) is Ok,
    ensures
        int_row(t, q, key, row, states, n)->Ok_0.len() == n,
        forall|k: int|
            0 <= k < n ==> yields(
                int_value(t, q, k, key, row, states[k]),
                #[trigger] int_row(t, q, key, row, states, n)->Ok_0[k],
            ),
    decreases n,
{
    if n > 0 {
        lemma_int_row_values(t, q, key, row, states, (n - 1) as nat);
        let front = int_row(t, q, key, row, states, (n - 1) as nat)->Ok_0;
        let all = int_row(t, q, key, row, states, n)->Ok_0;
        assert forall|k: int| 0 <= k < n implies yields(
            int_value(t, q, k, key, row, states[k]),
            #[trigger] all[k],
        ) by {
            if k < n - 1 {
                assert(all[k] == front[k]);
            }
        }
    }
}

/// A number of an integer column is shown as the column shows it.
proof fn lemma_part_text(t: Table, q: ParsedQuery, row: int, j: int, text: Seq<char>)
    requires
        groups_columns(q),
        0 <= j < q.group_by@.len(),
        int_part(t, q, row, j, col_int(key_column(t, q, j), row)),
        yields(col_shown(key_column(t, q, j), row), text),
    ensures
        yields(
            part_text(
                t,
                resolved(q.group_by@[j], q.select_items@),
                col_int(key_column(t, q, j), row),
            ),
            text,
        ),
{
    assert(group_name(q.group_by@[j], q) is Some);
}

/// A key of a group of integers is shown as its text.
proof fn lemma_int_value_key(
    t: Table,
    q: ParsedQuery,
    j: int,
    key: u128,
    row: usize,
    state: AggView,
    v: i64,
    text: Seq<char>,
    cell: CellView,
)
    requires
        0 <= j < q.group_by@.len() <= q.select_items@.len(),
        shows_key(q.select_items@[j], q.group_by@),
        !is_aggregate(q.select_items@[j].kind),
        keys_before(q, j as nat) == j,
        unpacked(key, q.group_by@.len(), j) == v,
        yields(part_text(t, resolved(q.group_by@[j], q.select_items@), v), text),
        yields(int_value(t, q, j, key, row, state), cell),
    ensures
        cell == shown(text),
{
}

/// A key that is shown for a group of integers is the text of the key.
proof fn lemma_int_key_cell(
    t: Table,
    q: ParsedQuery,
    rows: Seq<usize>,
    out: Seq<Seq<CellView>>,
    i: int,
    row: usize,
    state: AggView,
    j: int,
    cell: CellView,
)
    requires
        as_declared(t),
        int_columns(t, q),
        plain_rows(t, q, rows, out),
        key_days_differ(t, q, rows),
        int_keyed(t, q, rows).1 is None,
        0 <= i < rows.len(),
        0 <= j < q.group_by@.len(),
        yields(int_value(t, q, j, int_keyed(t, q, rows).0[i], row, state), cell),
    ensures
        cell == shown(keyed(t, q, rows).0[i][j]),
{
    let n = q.group_by@.len();
    let parts = key_ints(t, q, rows[i] as int, n)->Ok_0;
    let c = key_column(t, q, j);
    lemma_int_keyed_each(t, q, rows);
    assert(yields(row_pack(t, q, rows[i] as int), int_keyed(t, q, rows).0[i]));
    lemma_key_ints_each(t, q, rows[i] as int, n);
    lemma_unpacked(t, q, rows[i] as int, parts, j);
    assert(int_part(t, q, rows[i] as int, j, parts[j]));
    lemma_int_text(t, q, rows, out, i, j);
    lemma_part_text(t, q, rows[i] as int, j, keyed(t, q, rows).0[i][j]);
    lemma_keys_count(q, j as nat);
    assert(shows_key(q.select_items@[j], q.group_by@));
    assert(key_shown(q, j, n) == Some(j as usize));
    if is_aggregate(q.select_items@[j].kind) {
        lemma_aggregate_no_key(q, j, n);
    }
    lemma_int_value_key(
        t,
        q,
        j,
        int_keyed(t, q, rows).0[i],
        row,
        state,
        parts[j],
        keyed(t, q, rows).0[i][j],
        cell,
    );
}

/// The row of a group of integers shows the group of a row.
proof fn lemma_int_cells(
    t: Table,
    q: ParsedQuery,
    rows: Seq<usize>,
    out: Seq<Seq<CellView>>,
    i: int,
    row: usize,
    want: Seq<CellView>,
)
    requires
        as_declared(t),
        int_columns(t, q),
        plain_rows(t, q, rows, out),
        key_days_differ(t, q, rows),
        int_keyed(t, q, rows).1 is None,
        agree(int_keyed(t, q, rows).0, keyed(t, q, rows).0),
        0 <= i < rows.len(),
        yields(
            int_row(
                t,
                q,
                int_keyed(t, q, rows).0[i],
                row,
                states_of(
                    t,
                    q.select_items@,
                    int_keyed(t, q, rows).0,
                    rows,
                    int_keyed(t, q, rows).0[i],
                ),
                q.select_items@.len(),
            ),
            want,
        ),
    ensures
        group_cells(t, q, rows, i, want),
{
    let keys = int_keyed(t, q, rows).0;
    let all = keyed(t, q, rows).0;
    let items = q.select_items@;
    let states = states_of(t, items, keys, rows, keys[i]);
    lemma_plain_keyed(t, q, rows, out);
    assert forall|k: int| 0 <= k < keys.len() implies (#[trigger] keys[k] == keys[i] <==> all[k]
        == all[i]) by {
        assert(keys[k] == keys[i] <==> all[k] == all[i]);
    }
    lemma_rows_match(keys, keys[i], all, all[i], rows);
    assert(states =~= group_states(t, q, rows, i));
    lemma_int_row_values(t, q, keys[i], row, states, items.len());
    let cells = int_row(t, q, keys[i], row, states, items.len())->Ok_0;
    assert forall|j: int| 0 <= j < q.group_by@.len() implies #[trigger] want[j] == shown(
        all[i][j],
    ) by {
        assert(yields(int_value(t, q, j, keys[i], row, states[j]), cells[j]));
        lemma_int_key_cell(t, q, rows, out, i, row, states[j], j, want[j]);
    }
    assert forall|j: int| q.group_by@.len() <= j < want.len() implies #[trigger] aggregate_cell(
        t,
        q,
        rows,
        i,
        j,
        want[j],
    ) by {
        reveal(aggregate_cell);
        assert(yields(int_value(t, q, j, keys[i], row, states[j]), cells[j]));
        assert(!shows_key(items[j], q.group_by@));
    }
}

/// The rows of groups of integers are rows of plain grouping.
proof fn lemma_int_rows_plain(
    t: Table,
    q: ParsedQuery,
    rows: Seq<usize>,
    out: Seq<Seq<CellView>>,
    n: nat,
)
    requires
        as_declared(t),
        int_columns(t, q),
        plain_rows(t, q, rows, out),
        key_days_differ(t, q, rows),
        int_keyed(t, q, rows).1 is None,
        agree(int_keyed(t, q, rows).0, keyed(t, q, rows).0),
        n <= first_seen(int_keyed(t, q, rows).0).len(),
        int_rows(t, q, int_keyed(t, q, rows).0, rows, n) is Ok,
    ensures
        among(int_rows(t, q, int_keyed(t, q, rows).0, rows, n)->Ok_0, out),
    decreases n,
{
    if n > 0 {
        let keys = int_keyed(t, q, rows).0;
        lemma_int_rows_plain(t, q, rows, out, (n - 1) as nat);
        let front = int_rows(t, q, keys, rows, (n - 1) as nat)->Ok_0;
        let all = int_rows(t, q, keys, rows, n)->Ok_0;
        lemma_plain_keyed(t, q, rows, out);
        let i = lemma_first_place(keys, n - 1);
        if group_passes(q.having, occurrences(keys, keys[i])) {
            lemma_agree(keys, keyed(t, q, rows).0, i, Seq::empty());
            let want = all[all.len() - 1];
            lemma_int_cells(t, q, rows, out, i, rows_with(keys, rows, keys[i])[0], want);
            lemma_plain_shows(t, q, rows, out, i, want);
            assert forall|p: int| 0 <= p < all.len() implies out.contains(#[trigger] all[p]) by {
                if p < front.len() {
                    assert(all[p] == front[p]);
                }
            }
        }
    }
}

/// The rows that grouping by integers comes to.
proof fn lemma_int_answer(t: Table, q: ParsedQuery, n: nat, rows: Seq<usize>, a: AnswerView)
    requires
        groups_columns(q),
        then_aggregates(q),
        yields(chosen(t, q, n), Some(rows)),
        yields(int_answer(t, q, n), Some(a)),
    ensures
        int_columns(t, q),
        int_keyed(t, q, rows).1 is None,
        yields(
            int_rows(
                t,
                q,
                int_keyed(t, q, rows).0,
                rows,
                first_seen(int_keyed(t, q, rows).0).len(),
            ),
            answer_rows(a),
        ),
{
    assert(int_form(t, q));
    assert(yields(int_grouped(t, q, rows), answer_rows(a)));
}

/// What groups by one to four integer columns, and shows these and then aggregates, shows
/// rows of plain grouping.
pub proof fn law_int_groups_plain(
    t: Table,
    q: ParsedQuery,
    n: nat,
    rows: Seq<usize>,
    out: Seq<Seq<CellView>>,
    a: AnswerView,
)
    requires
        as_declared(t),
        groups_columns(q),
        then_aggregates(q),
        yields(chosen(t, q, n), Some(rows)),
        key_days_differ(t, q, rows),
        yields(int_answer(t, q, n), Some(a)),
        plain_rows(t, q, rows, out),
    ensures
        among(answer_rows(a), out),
{
    lemma_int_answer(t, q, n, rows, a);
    lemma_ints_agree(t, q, rows, out);
    lemma_int_rows_plain(t, q, rows, out, first_seen(int_keyed(t, q, rows).0).len());
}

} // verus!
