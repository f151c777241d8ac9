//! The rows of plain grouping, each found by a row of its group.
use crate::error::yields;
use crate::exec::aggregate::{accumulated, finished, mark_of, nothing_seen, AggView, Mark};
use crate::exec::group::{
    group_passes, group_row, group_rows, key_shown, keyed, lemma_rows_with, plainly_grouped,
    resolved, row_key, rows_with, states_of,
};
use crate::exec::group_fused_q22::{law_least_row, least_row};
use crate::exec::group_laws::{
    lemma_group_row_len, lemma_group_row_values, lemma_keyed_rows, lemma_row_key_parts,
};
use crate::exec::grouping::{distinct_at, sum_at};
use crate::exec::hash::{first_seen, lemma_first_seen_distinct, lemma_occurrences, occurrences};
use crate::exec::kernel::{group_name, keys_lead};
use crate::exec::plain_laws::{
    law_group_average, law_group_count, law_group_distinct, law_group_sum, lemma_rows_have_key,
};
use crate::exec::result::{counted, shown, CellView};
use crate::exec::sorting::counts_rows;
use crate::expr::eval::{col_shown, column_of, gives_text, int_of, key_of, text_of};
use crate::sql::ast::{Expr, ParsedQuery, SelectItemKind};
use crate::sql::query::column_name;
use crate::storage::column::ColumnView;
use crate::storage::table::Table;
use vstd::prelude::*;

verus! {

/// Whether a key stands in a list of keys just where another stands in another list.
pub open spec fn matching<K, L>(a: Seq<K>, x: K, b: Seq<L>, y: L) -> bool {
    &&& a.len() == b.len()
    &&& forall|i: int| 0 <= i < a.len() ==> (#[trigger] a[i] == x <==> b[i] == y)
}

/// Keys that stand in the same places have the same counts, sums, values and least rows.
pub proof fn lemma_matching<K, L>(
    a: Seq<K>,
    x: K,
    b: Seq<L>,
    y: L,
    vals: Seq<i64>,
    rows: Seq<usize>,
    strs: Seq<Seq<char>>,
)
    requires
        matching(a, x, b, y),
    ensures
        occurrences(a, x) == occurrences(b, y),
        sum_at(a, vals, x) == sum_at(b, vals, y),
        distinct_at(a, vals, x) == distinct_at(b, vals, y),
        least_row(a, rows, strs, x) == least_row(b, rows, strs, y),
    decreases a.len(),
{
    if a.len() > 0 {
        let c = a.drop_last();
        let d = b.drop_last();
        assert forall|i: int| 0 <= i < c.len() implies (#[trigger] c[i] == x <==> d[i] == y) by {
            assert(a[i] == c[i] && b[i] == d[i]);
        }
        lemma_matching(c, x, d, y, vals, rows, strs);
        assert(a[a.len() - 1] == x <==> b[b.len() - 1] == y);
    }
}

/// There is a row for every group that meets the condition on groups.
proof fn lemma_group_has_row(
    t: Table,
    q: ParsedQuery,
    keys: Seq<Seq<Seq<char>>>,
    rows: Seq<usize>,
    n: nat,
    g: int,
)
    requires
        group_rows(t, q, keys, rows, n) is Ok,
        0 <= g < n,
        group_passes(q.having, occurrences(keys, first_seen(keys)[g])),
    ensures
        exists|p: int|
            0 <= p < group_rows(t, q, keys, rows, n)->Ok_0.len() && yields(
                group_row(
                    t,
                    q,
                    rows_with(keys, rows, first_seen(keys)[g])[0],
                    states_of(t, q.select_items@, keys, rows, first_seen(keys)[g]),
                    q.select_items@.len(),
                ),
                #[trigger] group_rows(t, q, keys, rows, n)->Ok_0[p],
            ),
    decreases n,
{
    let all = group_rows(t, q, keys, rows, n)->Ok_0;
    let front = group_rows(t, q, keys, rows, (n - 1) as nat)->Ok_0;
    if g < n - 1 {
        lemma_group_has_row(t, q, keys, rows, (n - 1) as nat, g);
        let want = group_row(
            t,
            q,
            rows_with(keys, rows, first_seen(keys)[g])[0],
            states_of(t, q.select_items@, keys, rows, first_seen(keys)[g]),
            q.select_items@.len(),
        );
        let p = choose|p: int| 0 <= p < front.len() && yields(want, #[trigger] front[p]);
        assert(all[p] == front[p]);
    } else {
        assert(all[front.len() as int] == all.last());
    }
}

/// Whether a projection is an aggregate function.
pub open spec fn is_aggregate(kind: SelectItemKind) -> bool {
    !(kind is Column) && !(kind is Other)
}

/// An aggregate function shows no key.
pub proof fn lemma_aggregate_no_key(q: ParsedQuery, j: int, n: nat)
    requires
        is_aggregate(q.select_items@[j].kind),
    ensures
        key_shown(q, j, n) is None,
    decreases n,
{
    if n > 0 {
        lemma_aggregate_no_key(q, j, (n - 1) as nat);
    }
}

/// The aggregates of the group of a row.
pub open spec fn group_states(t: Table, q: ParsedQuery, rows: Seq<usize>, i: int) -> Seq<AggView> {
    let keys = keyed(t, q, rows).0;
    states_of(t, q.select_items@, keys, rows, keys[i])
}

/// Whether a value is that of an aggregate function for the group of a row.
#[verifier::opaque]
pub open spec fn aggregate_cell(
    t: Table,
    q: ParsedQuery,
    rows: Seq<usize>,
    i: int,
    j: int,
    cell: CellView,
) -> bool {
    is_aggregate(q.select_items@[j].kind) && match finished(
        group_states(t, q, rows, i)[j],
        q.select_items@[j].kind,
        Seq::empty(),
        Some(t),
    ) {
        Ok(v) => v.1 == cell,
        Err(_) => false,
    }
}

/// Whether values are those of the group of a row: its keys and behind them its
/// aggregates.
pub open spec fn group_cells(
    t: Table,
    q: ParsedQuery,
    rows: Seq<usize>,
    i: int,
    want: Seq<CellView>,
) -> bool {
    &&& want.len() == q.select_items@.len()
    &&& forall|j: int|
        0 <= j < q.group_by@.len() ==> #[trigger] want[j] == shown(keyed(t, q, rows).0[i][j])
    &&& forall|j: int|
        q.group_by@.len() <= j < want.len() ==> #[trigger] aggregate_cell(
            t,
            q,
            rows,
            i,
            j,
            want[j],
        )
}

/// Whether plain grouping comes to rows.
#[verifier::opaque]
pub open spec fn plain_rows(
    t: Table,
    q: ParsedQuery,
    rows: Seq<usize>,
    out: Seq<Seq<CellView>>,
) -> bool {
    yields(plainly_grouped(t, q, rows), out)
}

/// Whether a row of plain grouping is that of a key, made from one of the rows that have
/// the key.
pub open spec fn row_of_key(
    t: Table,
    q: ParsedQuery,
    row: usize,
    states: Seq<AggView>,
    key: Seq<Seq<char>>,
    cells: Seq<CellView>,
) -> bool {
    &&& yields(row_key(t, q, row as int, q.group_by@.len()), key)
    &&& yields(group_row(t, q, row, states, q.select_items@.len()), cells)
}

/// There is a row of plain grouping for the group of every row, if it meets the
/// condition on groups.
proof fn lemma_group_of_row(
    t: Table,
    q: ParsedQuery,
    rows: Seq<usize>,
    out: Seq<Seq<CellView>>,
    i: int,
) -> (r: (int, usize))
    requires
        plain_rows(t, q, rows, out),
        0 <= i < rows.len(),
        group_passes(q.having, occurrences(keyed(t, q, rows).0, keyed(t, q, rows).0[i])),
    ensures
        keyed(t, q, rows).0.len() == rows.len(),
        0 <= r.0 < out.len(),
        row_of_key(t, q, r.1, group_states(t, q, rows, i), keyed(t, q, rows).0[i], out[r.0]),
{
    reveal(plain_rows);
    let keys = keyed(t, q, rows).0;
    lemma_keyed_rows(t, q, rows);
    let key = keys[i];
    lemma_first_seen_distinct(keys);
    assert(keys.contains(key));
    assert(first_seen(keys).contains(key));
    let g = choose|g: int| 0 <= g < first_seen(keys).len() && first_seen(keys)[g] == key;
    lemma_group_has_row(t, q, keys, rows, first_seen(keys).len(), g);
    lemma_rows_with(keys, rows, key);
    lemma_rows_have_key(keys, rows, key, 0);
    let row = rows_with(keys, rows, key)[0];
    let k = choose|k: int| 0 <= k < keys.len() && keys[k] == key && #[trigger] rows[k] == row;
    assert(yields(row_key(t, q, rows[k] as int, q.group_by@.len()), keys[k]));
    let states = states_of(t, q.select_items@, keys, rows, key);
    let p = choose|p: int|
        0 <= p < out.len() && yields(
            group_row(t, q, row, states, q.select_items@.len()),
            #[trigger] out[p],
        );
    (p, row)
}

/// The row of a key has the values of its group.
pub proof fn lemma_cells_of_key(
    t: Table,
    q: ParsedQuery,
    rows: Seq<usize>,
    i: int,
    row: usize,
    cells: Seq<CellView>,
    want: Seq<CellView>,
    j: int,
)
    requires
        row_of_key(t, q, row, group_states(t, q, rows, i), keyed(t, q, rows).0[i], cells),
        keys_lead(q),
        group_cells(t, q, rows, i, want),
        0 <= j < q.select_items@.len(),
    ensures
        cells.len() == want.len(),
        cells[j] == want[j],
{
    let n = q.select_items@.len();
    let groups = q.group_by@.len();
    let states = group_states(t, q, rows, i);
    lemma_group_row_len(t, q, row, states, n);
    lemma_group_row_values(t, q, row, states, n, j);
    lemma_row_key_parts(t, q, row as int, groups);
    if j < groups {
        let key = keyed(t, q, rows).0[i];
        assert(key_shown(q, j, groups) == Some(j as usize));
        assert(q.group_by.len() == groups);
        assert(yields(
            key_of(t, resolved(q.group_by@[j], q.select_items@), row as int),
            row_key(t, q, row as int, groups)->Ok_0[j],
        ));
        assert(want[j] == shown(key[j]));
    } else {
        assert(aggregate_cell(t, q, rows, i, j, want[j]));
        reveal(aggregate_cell);
        lemma_aggregate_no_key(q, j, groups);
    }
}

/// Where keys lead, plain grouping shows the keys and the aggregates of the group of
/// every row, if it meets the condition on groups.
pub proof fn lemma_plain_shows(
    t: Table,
    q: ParsedQuery,
    rows: Seq<usize>,
    out: Seq<Seq<CellView>>,
    i: int,
    want: Seq<CellView>,
)
    requires
        plain_rows(t, q, rows, out),
        keys_lead(q),
        0 <= i < rows.len(),
        group_passes(q.having, occurrences(keyed(t, q, rows).0, keyed(t, q, rows).0[i])),
        group_cells(t, q, rows, i, want),
    ensures
        out.contains(want),
{
    let (p, row) = lemma_group_of_row(t, q, rows, out, i);
    if q.select_items@.len() > 0 {
        lemma_cells_of_key(t, q, rows, i, row, out[p], want, 0);
    } else {
        lemma_group_row_len(t, q, row, group_states(t, q, rows, i), 0);
    }
    assert forall|j: int| 0 <= j < want.len() implies out[p][j] == want[j] by {
        lemma_cells_of_key(t, q, rows, i, row, out[p], want, j);
    }
    assert(out[p] =~= want);
}

/// A count of rows shows how many rows have the key.
pub proof fn lemma_count_cell(t: Table, q: ParsedQuery, rows: Seq<usize>, i: int, j: int)
    requires
        0 <= j < q.select_items@.len(),
        counts_rows(q.select_items@[j]),
    ensures
        aggregate_cell(
            t,
            q,
            rows,
            i,
            j,
            counted(occurrences(keyed(t, q, rows).0, keyed(t, q, rows).0[i]) as int),
        ),
{
    reveal(aggregate_cell);
    let keys = keyed(t, q, rows).0;
    let kind = q.select_items@[j].kind;
    law_group_count(t, keys, rows, keys[i]);
    lemma_counts_alike(t, kind, rows_with(keys, rows, keys[i]));
}

proof fn lemma_counts_alike(t: Table, kind: SelectItemKind, rows: Seq<usize>)
    requires
        kind is CountAll || kind is Count,
    ensures
        accumulated(t, kind, rows) == accumulated(t, SelectItemKind::CountAll, rows),
    decreases rows.len(),
{
    if rows.len() > 0 {
        lemma_counts_alike(t, kind, rows.drop_last());
    }
}

/// A sum shows the sum of the values that stand with the key.
pub proof fn lemma_sum_cell(
    t: Table,
    q: ParsedQuery,
    rows: Seq<usize>,
    i: int,
    j: int,
    vals: Seq<i64>,
)
    requires
        keyed(t, q, rows).0.len() == rows.len(),
        0 <= j < q.select_items@.len(),
        q.select_items@[j].kind is Sum,
        forall|k: int|
            0 <= k < rows.len() ==> yields(
                int_of(t, q.select_items@[j].kind->Sum_0, (#[trigger] rows[k]) as int),
                vals[k],
            ),
    ensures
        aggregate_cell(
            t,
            q,
            rows,
            i,
            j,
            counted(sum_at(keyed(t, q, rows).0, vals, keyed(t, q, rows).0[i])),
        ),
{
    reveal(aggregate_cell);
    let keys = keyed(t, q, rows).0;
    law_group_sum(t, q.select_items@[j].kind->Sum_0, keys, rows, vals, keys[i]);
}

/// An average shows the sum of the values that stand with the key over their number.
pub proof fn lemma_average_cell(
    t: Table,
    q: ParsedQuery,
    rows: Seq<usize>,
    i: int,
    j: int,
    vals: Seq<i64>,
)
    requires
        keyed(t, q, rows).0.len() == rows.len(),
        0 <= i < rows.len(),
        0 <= j < q.select_items@.len(),
        q.select_items@[j].kind is Avg,
        forall|k: int|
            0 <= k < rows.len() ==> yields(
                int_of(t, q.select_items@[j].kind->Avg_0, (#[trigger] rows[k]) as int),
                vals[k],
            ),
    ensures
        aggregate_cell(
            t,
            q,
            rows,
            i,
            j,
            (CellView::Ratio { sum: sum_at(keyed(t, q, rows).0, vals, keyed(t, q, rows).0[i]), count: occurrences(keyed(t, q, rows).0, keyed(t, q, rows).0[i]) }),
        ),
{
    reveal(aggregate_cell);
    let keys = keyed(t, q, rows).0;
    law_group_average(t, q.select_items@[j].kind->Avg_0, keys, rows, vals, keys[i]);
    assert(keys.contains(keys[i]));
    lemma_occurrences(keys, keys[i]);
}

/// A count of different values shows how many different values stand with the key.
pub proof fn lemma_distinct_cell(
    t: Table,
    q: ParsedQuery,
    rows: Seq<usize>,
    i: int,
    j: int,
    vals: Seq<i64>,
)
    requires
        keyed(t, q, rows).0.len() == rows.len(),
        0 <= i < rows.len(),
        0 <= j < q.select_items@.len(),
        q.select_items@[j].kind is CountDistinct,
        vals.len() == rows.len(),
        forall|k: int|
            0 <= k < rows.len() ==> yields(
                mark_of(t, q.select_items@[j].kind->CountDistinct_0, (#[trigger] rows[k]) as int),
                Mark::Number(vals[k]),
            ),
    ensures
        aggregate_cell(
            t,
            q,
            rows,
            i,
            j,
            counted(distinct_at(keyed(t, q, rows).0, vals, keyed(t, q, rows).0[i]).len() as int),
        ),
{
    reveal(aggregate_cell);
    let keys = keyed(t, q, rows).0;
    let e = q.select_items@[j].kind->CountDistinct_0;
    law_group_distinct(t, e, keys, rows, vals, keys[i]);
    crate::exec::grouping::law_distinct_at(keys, vals, keys[i], vals[i]);
    assert(distinct_at(keys, vals, keys[i]).contains(vals[i]));
}

/// The least text of a group is the text of the least row of its key.
proof fn lemma_least_accumulated<K>(
    t: Table,
    e: Expr,
    keys: Seq<K>,
    rows: Seq<usize>,
    strs: Seq<Seq<char>>,
    key: K,
)
    requires
        keys.len() <= rows.len(),
        forall|k: int|
            0 <= k < keys.len() ==> gives_text(t, e, (#[trigger] rows[k]) as int) && yields(
                text_of(t, e, rows[k] as int),
                strs[rows[k] as int],
            ),
    ensures
        match accumulated(t, SelectItemKind::Min(e), rows_with(keys, rows, key)) {
            Ok(a) => match least_row(keys, rows, strs, key) {
                Some(r) => a.min_str == Some(strs[r as int]),
                None => a == nothing_seen(),
            },
            Err(_) => false,
        },
    decreases keys.len(),
{
    if keys.len() > 0 {
        let front = keys.drop_last();
        lemma_least_accumulated(t, e, front, rows, strs, key);
        if keys.last() == key {
            assert(rows_with(keys, rows, key).drop_last() =~= rows_with(front, rows, key));
            assert(rows_with(keys, rows, key).last() == rows[keys.len() - 1]);
        }
    }
}

/// The least text of a column shows the text of the least row of the key.
pub proof fn lemma_least_cell(
    t: Table,
    q: ParsedQuery,
    rows: Seq<usize>,
    i: int,
    j: int,
    strs: Seq<Seq<char>>,
)
    requires
        keyed(t, q, rows).0.len() == rows.len(),
        0 <= i < rows.len(),
        0 <= j < q.select_items@.len(),
        q.select_items@[j].kind is Min,
        column_name(q.select_items@[j].kind->Min_0) is Some,
        yields(
            column_of(t, column_name(q.select_items@[j].kind->Min_0)->Some_0),
            ColumnView::Utf8(strs),
        ),
    ensures
        aggregate_cell(
            t,
            q,
            rows,
            i,
            j,
            shown(strs[least_row(keyed(t, q, rows).0, rows, strs, keyed(t, q, rows).0[i])->Some_0 as int]),
        ),
{
    reveal(aggregate_cell);
    let keys = keyed(t, q, rows).0;
    let e = q.select_items@[j].kind->Min_0;
    assert forall|k: int| 0 <= k < keys.len() implies gives_text(t, e, (#[trigger] rows[k]) as int)
        && yields(text_of(t, e, rows[k] as int), strs[rows[k] as int]) by {}
    lemma_least_accumulated(t, e, keys, rows, strs, keys[i]);
    assert(keys.contains(keys[i]));
    law_least_row(keys, rows, strs, keys[i]);
}

/// Whether a text is that of a grouping expression on a row.
#[verifier::opaque]
pub open spec fn key_part(t: Table, q: ParsedQuery, row: int, j: int, text: Seq<char>) -> bool {
    yields(key_of(t, resolved(q.group_by@[j], q.select_items@), row), text)
}

/// Whether a key has the texts of the grouping expressions on a row.
pub open spec fn parts_of(t: Table, q: ParsedQuery, row: int, key: Seq<Seq<char>>) -> bool {
    &&& key.len() == q.group_by@.len()
    &&& forall|j: int| 0 <= j < q.group_by@.len() ==> #[trigger] key_part(t, q, row, j, key[j])
}

/// A grouping expression has one text on a row.
pub proof fn lemma_one_part(
    t: Table,
    q: ParsedQuery,
    row: int,
    j: int,
    a: Seq<char>,
    b: Seq<char>,
)
    requires
        key_part(t, q, row, j, a),
        key_part(t, q, row, j, b),
    ensures
        a == b,
{
    reveal(key_part);
}

proof fn lemma_parts_of(t: Table, q: ParsedQuery, row: int, key: Seq<Seq<char>>)
    requires
        yields(row_key(t, q, row, q.group_by@.len()), key),
    ensures
        parts_of(t, q, row, key),
{
    reveal(key_part);
    lemma_row_key_parts(t, q, row, q.group_by@.len());
    let parts = row_key(t, q, row, q.group_by@.len())->Ok_0;
    assert(parts == key);
    assert forall|j: int| 0 <= j < q.group_by@.len() implies #[trigger] key_part(
        t,
        q,
        row,
        j,
        key[j],
    ) by {
        assert(yields(key_of(t, resolved(q.group_by@[j], q.select_items@), row), parts[j]));
    }
}

/// Where plain grouping succeeds, the key of each row has the texts of the grouping
/// expressions on it.
pub proof fn lemma_key_parts(
    t: Table,
    q: ParsedQuery,
    rows: Seq<usize>,
    out: Seq<Seq<CellView>>,
    i: int,
)
    requires
        plain_rows(t, q, rows, out),
        0 <= i < rows.len(),
    ensures
        keyed(t, q, rows).0.len() == rows.len(),
        parts_of(t, q, rows[i] as int, keyed(t, q, rows).0[i]),
{
    reveal(plain_rows);
    lemma_keyed_rows(t, q, rows);
    let key = keyed(t, q, rows).0[i];
    lemma_parts_of(t, q, rows[i] as int, key);
}

/// Where plain grouping succeeds, each row has a key.
pub proof fn lemma_plain_keyed(
    t: Table,
    q: ParsedQuery,
    rows: Seq<usize>,
    out: Seq<Seq<CellView>>,
)
    requires
        plain_rows(t, q, rows, out),
    ensures
        keyed(t, q, rows).0.len() == rows.len(),
{
    reveal(plain_rows);
    lemma_keyed_rows(t, q, rows);
}

/// Whether keys are the texts of the grouping expressions on rows.
pub open spec fn text_keyed(
    t: Table,
    q: ParsedQuery,
    rows: Seq<usize>,
    keys: Seq<Seq<Seq<char>>>,
) -> bool {
    &&& keys.len() == rows.len()
    &&& forall|i: int|
        0 <= i < rows.len() ==> parts_of(t, q, rows[i] as int, #[trigger] keys[i])
}

/// Keys that are the texts of the grouping expressions are those of plain grouping.
pub proof fn lemma_text_keyed(
    t: Table,
    q: ParsedQuery,
    rows: Seq<usize>,
    out: Seq<Seq<CellView>>,
    keys: Seq<Seq<Seq<char>>>,
)
    requires
        plain_rows(t, q, rows, out),
        text_keyed(t, q, rows, keys),
    ensures
        keys == keyed(t, q, rows).0,
{
    let all = keyed(t, q, rows).0;
    lemma_plain_keyed(t, q, rows, out);
    assert forall|i: int| 0 <= i < rows.len() implies keys[i] == all[i] by {
        lemma_key_parts(t, q, rows, out, i);
        assert forall|j: int| 0 <= j < q.group_by@.len() implies keys[i][j] == all[i][j] by {
            assert(key_part(t, q, rows[i] as int, j, keys[i][j]));
            assert(key_part(t, q, rows[i] as int, j, all[i][j]));
            lemma_one_part(t, q, rows[i] as int, j, keys[i][j], all[i][j]);
        }
        assert(keys[i] =~= all[i]);
    }
    assert(keys =~= all);
}

/// The text of a grouping expression that names a column is that of the column.
pub proof fn lemma_named_part(t: Table, q: ParsedQuery, row: int, j: int, c: ColumnView, text: Seq<char>)
    requires
        group_name(q.group_by@[j], q) is Some,
        yields(column_of(t, group_name(q.group_by@[j], q)->Some_0), c),
    ensures
        key_part(t, q, row, j, text) == yields(col_shown(c, row), text),
{
    reveal(key_part);
}

/// Each of the different keys stands somewhere.
pub proof fn lemma_first_place<K>(keys: Seq<K>, g: int) -> (i: int)
    requires
        0 <= g < first_seen(keys).len(),
    ensures
        0 <= i < keys.len(),
        keys[i] == first_seen(keys)[g],
        first_seen(keys).len() <= keys.len(),
{
    lemma_first_seen_distinct(keys);
    assert(first_seen(keys).contains(first_seen(keys)[g]));
    choose|i: int| 0 <= i < keys.len() && keys[i] == first_seen(keys)[g]
}

/// Whether keys are the same in the same places.
pub open spec fn agree<K, L>(a: Seq<K>, b: Seq<L>) -> bool {
    &&& a.len() == b.len()
    &&& forall|i: int, k: int|
        0 <= i < a.len() && 0 <= k < a.len() ==> (#[trigger] a[i] == #[trigger] a[k] <==> b[i]
            == b[k])
}

/// Keys that are the same in the same places are different keys in the same order.
pub proof fn lemma_first_seen_agree<K, L>(a: Seq<K>, b: Seq<L>)
    requires
        agree(a, b),
    ensures
        first_seen(a).len() == first_seen(b).len(),
        forall|g: int|
            0 <= g < first_seen(a).len() ==> same_place(
                a,
                b,
                #[trigger] first_seen(a)[g],
                first_seen(b)[g],
            ),
    decreases a.len(),
{
    if a.len() > 0 {
        let c = a.drop_last();
        let d = b.drop_last();
        let last = a.len() - 1;
        assert forall|i: int, k: int| 0 <= i < c.len() && 0 <= k < c.len() implies (#[trigger] c[i]
            == #[trigger] c[k] <==> d[i] == d[k]) by {
            assert(a[i] == a[k] <==> b[i] == b[k]);
        }
        lemma_first_seen_agree(c, d);
        lemma_first_seen_distinct(c);
        lemma_first_seen_distinct(d);
        if c.contains(a[last]) {
            let i = choose|i: int| 0 <= i < c.len() && c[i] == a[last];
            assert(a[i] == a[last]);
            assert(d[i] == b[last]);
            assert(d.contains(b[last]));
        }
        if d.contains(b[last]) {
            let i = choose|i: int| 0 <= i < d.len() && d[i] == b[last];
            assert(a[i] == a[last]);
            assert(c[i] == a[last]);
            assert(c.contains(a[last]));
        }
        assert(first_seen(c).contains(a[last]) <==> first_seen(d).contains(b[last]));
        assert forall|g: int| 0 <= g < first_seen(a).len() implies same_place(
            a,
            b,
            #[trigger] first_seen(a)[g],
            first_seen(b)[g],
        ) by {
            if g < first_seen(c).len() {
                assert(same_place(c, d, first_seen(c)[g], first_seen(d)[g]));
                let i = choose|i: int|
                    0 <= i < c.len() && #[trigger] c[i] == first_seen(c)[g] && d[i]
                        == first_seen(d)[g];
                assert(a[i] == first_seen(a)[g] && b[i] == first_seen(b)[g]);
            } else {
                assert(a[last] == first_seen(a)[g] && b[last] == first_seen(b)[g]);
            }
        }
    }
}

/// Whether two keys stand in one place.
pub open spec fn same_place<K, L>(a: Seq<K>, b: Seq<L>, x: K, y: L) -> bool {
    exists|i: int| 0 <= i < a.len() && #[trigger] a[i] == x && b[i] == y
}

/// Keys that stand in the same places have the same rows.
pub proof fn lemma_rows_match<K, L>(a: Seq<K>, x: K, b: Seq<L>, y: L, rows: Seq<usize>)
    requires
        matching(a, x, b, y),
    ensures
        rows_with(a, rows, x) == rows_with(b, rows, y),
    decreases a.len(),
{
    if a.len() > 0 {
        let c = a.drop_last();
        let d = b.drop_last();
        assert forall|i: int| 0 <= i < c.len() implies (#[trigger] c[i] == x <==> d[i] == y) by {
            assert(a[i] == c[i] && b[i] == d[i]);
        }
        lemma_rows_match(c, x, d, y, rows);
        assert(a[a.len() - 1] == x <==> b[b.len() - 1] == y);
    }
}

/// Grouping by keys that are the same in the same places comes to the same rows.
pub proof fn lemma_group_rows_agree<K, L>(
    t: Table,
    q: ParsedQuery,
    a: Seq<K>,
    b: Seq<L>,
    rows: Seq<usize>,
    n: nat,
)
    requires
        agree(a, b),
        n <= first_seen(a).len(),
    ensures
        first_seen(a).len() == first_seen(b).len(),
        group_rows(t, q, a, rows, n) == group_rows(t, q, b, rows, n),
    decreases n,
{
    lemma_first_seen_agree(a, b);
    if n > 0 {
        lemma_group_rows_agree(t, q, a, b, rows, (n - 1) as nat);
        let x = first_seen(a)[n - 1];
        let y = first_seen(b)[n - 1];
        assert(same_place(a, b, x, y));
        let i = choose|i: int| 0 <= i < a.len() && #[trigger] a[i] == x && b[i] == y;
        assert forall|k: int| 0 <= k < a.len() implies (#[trigger] a[k] == x <==> b[k] == y) by {
            assert(a[k] == a[i] <==> b[k] == b[i]);
        }
        lemma_rows_match(a, x, b, y, rows);
        lemma_matching(a, x, b, y, Seq::empty(), Seq::empty(), Seq::empty());
        assert(states_of(t, q.select_items@, a, rows, x) =~= states_of(
            t,
            q.select_items@,
            b,
            rows,
            y,
        ));
    }
}

} // verus!
