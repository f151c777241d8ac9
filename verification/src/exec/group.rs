//! GROUP BY: rows with equal keys, the aggregates over them, and the rows that are
//! shown for them.
use crate::error::{fails, text_outcome, yields, Error};
use crate::exec::agg_heap::window;
use crate::exec::aggregate::{
    accumulated, finished, lemma_within, nothing_seen, or_zero, updated, within, AggState, AggView,
};
use crate::exec::filter::{build_mask, masked};
use crate::exec::group_fused_phrase::rows_window;
use crate::exec::grouping::{count_groups, group_texts, numbered};
use crate::exec::hash::{first_seen, lemma_first_seen_distinct, occurrences, text_lists};
use crate::exec::having::{having_threshold, passes};
use crate::exec::mask_util::{lemma_selected, selected, selected_indices};
use crate::exec::result::{
    cell_rows, cells, empty_result, headings, labels, limit_of, no_rows, offset_of, query_limit,
    query_offset, shown, Cell, CellView, QueryResult, ResultView,
};
use crate::exec::sorting::{alias_position, find_alias, to_sort, Unsorted, UnsortedView};
use crate::expr::eval::{
    eval_group_key, eval_i64, eval_string, gives_text, int_of, is_text_value, key_of, text_of,
};
use crate::sql::ast::{Expr, ParsedQuery, SelectItemKind, SelectProjection};
use crate::sql::same::{exprs_alike, same_expr};
use crate::storage::table::Table;
use crate::text::{decimal, int_text, str_eq, texts};
use vstd::prelude::*;

verus! {

/// What a query comes to: a result, or rows that are still to be sorted.
pub enum Answer {
    Done(QueryResult),
    Sort(Unsorted),
}

/// What a query comes to.
pub enum AnswerView {
    Done(ResultView),
    Sort(UnsortedView),
}

impl View for Answer {
    type V = AnswerView;

    open spec fn view(&self) -> AnswerView {
        match self {
            Answer::Done(r) => AnswerView::Done(r@),
            Answer::Sort(u) => AnswerView::Sort(u@),
        }
    }
}

impl Answer {
    /// Whether rows that are to be sorted can be.
    pub open spec fn wf(&self) -> bool {
        match self {
            Answer::Done(_) => true,
            Answer::Sort(u) => u.wf(),
        }
    }
}

/// What a query comes to, or why it fails.
pub open spec fn answered(r: Result<Answer, Error>) -> Result<AnswerView, Seq<char>> {
    match r {
        Ok(a) => Ok(a@),
        Err(e) => Err(e@),
    }
}

/// What a kernel that may not apply comes to.
pub open spec fn attempted(r: Result<Option<Answer>, Error>) -> Result<
    Option<AnswerView>,
    Seq<char>,
> {
    match r {
        Ok(Some(a)) => Ok(Some(a@)),
        Ok(None) => Ok(None),
        Err(e) => Err(e@),
    }
}

/// Whether a projection is an aggregate function.
pub open spec fn is_agg(kind: SelectItemKind) -> bool {
    !(kind is Column || kind is Other)
}

/// Whether a projection is an aggregate function.
pub fn is_aggregate(kind: &SelectItemKind) -> (r: bool)
    ensures
        r == is_agg(*kind),
{
    match kind {
        SelectItemKind::Column(_) => false,
        SelectItemKind::Other(_) => false,
        _ => true,
    }
}

/// Whether an expression is an identifier with a name.
pub open spec fn is_name(e: Expr, name: Seq<char>) -> bool {
    match e {
        Expr::Identifier(s) => s@ == name,
        _ => false,
    }
}

/// Whether an expression is an identifier with a name.
pub fn is_identifier(e: &Expr, name: &str) -> (r: bool)
    ensures
        r == is_name(*e, name@),
{
    match e {
        Expr::Identifier(s) => str_eq(s.as_str(), name),
        _ => false,
    }
}

/// Whether a projection shows a grouping expression: it is the same expression, or
/// the grouping names its alias.
pub open spec fn shows_key(p: SelectProjection, group_by: Seq<Expr>) -> bool {
    match p.kind {
        SelectItemKind::Column(e) => exists|i: int|
            0 <= i < group_by.len() && same_expr(#[trigger] group_by[i], e),
        _ => match p.alias {
            Some(a) => exists|i: int| 0 <= i < group_by.len() && is_name(#[trigger] group_by[i], a@),
            None => false,
        },
    }
}

/// Whether a projection shows a grouping expression.
pub fn is_group_key_proj(proj: &SelectProjection, group_by: &Vec<Expr>) -> (r: bool)
    ensures
        r == shows_key(*proj, group_by@),
{
    let mut i: usize = 0;
    if let SelectItemKind::Column(e) = &proj.kind {
        while i < group_by.len()
            invariant
                i <= group_by@.len(),
                proj.kind == SelectItemKind::Column(*e),
                forall|k: int| 0 <= k < i ==> !same_expr(#[trigger] group_by@[k], *e),
            decreases group_by@.len() - i,
        {
            if exprs_alike(&group_by[i], e) {
                return true;
            }
            i = i + 1;
        }
        return false;
    }
    if let Some(a) = &proj.alias {
        while i < group_by.len()
            invariant
                i <= group_by@.len(),
                !(proj.kind is Column),
                proj.alias == Some(*a),
                forall|k: int| 0 <= k < i ==> !is_name(#[trigger] group_by@[k], a@),
            decreases group_by@.len() - i,
        {
            if is_identifier(&group_by[i], a.as_str()) {
                return true;
            }
            i = i + 1;
        }
    }
    false
}

/// The expression that a grouping expression stands for: an alias stands for the
/// column or expression that has it.
pub open spec fn resolved(e: Expr, items: Seq<SelectProjection>) -> Expr {
    match e {
        Expr::Identifier(s) => match alias_position(items, s@) {
            Some(i) => match items[i as int].kind {
                SelectItemKind::Column(x) => x,
                SelectItemKind::Other(x) => x,
                _ => e,
            },
            None => e,
        },
        _ => e,
    }
}

/// The expression that a grouping expression stands for.
pub fn resolve_group_expr<'a>(expr: &'a Expr, projections: &'a Vec<SelectProjection>) -> (r: &'a Expr)
    ensures
        *r == resolved(*expr, projections@),
{
    if let Expr::Identifier(s) = expr {
        if let Some(i) = find_alias(projections, s.as_str()) {
            return match &projections[i].kind {
                SelectItemKind::Column(x) => x,
                SelectItemKind::Other(x) => x,
                _ => expr,
            };
        }
    }
    expr
}

/// The text of a projection that is a column or an expression, on a row: as a text,
/// or as a number where there is no text.
pub open spec fn proj_text(t: Table, p: SelectProjection, row: int) -> Result<Seq<char>, Seq<char>> {
    match p.kind {
        SelectItemKind::Column(e) | SelectItemKind::Other(e) => match text_of(t, e, row) {
            Ok(s) if s.len() > 0 || gives_text(t, e, row) => Ok(s),
            _ => match int_of(t, e, row) {
                Err(m) => Err(m),
                Ok(v) => Ok(decimal(v as int)),
            },
        },
        _ => Err("expected projection expr"@),
    }
}

/// The text of a projection that is a column or an expression, on a row.
pub fn eval_proj_at_row(table: &Table, proj: &SelectProjection, row: usize) -> (r: Result<
    String,
    Error,
>)
    requires
        table.wf(),
        table.covers_row(row as int),
    ensures
        text_outcome(r) == proj_text(*table, *proj, row as int),
{
    let e = match &proj.kind {
        SelectItemKind::Column(e) => e,
        SelectItemKind::Other(e) => e,
        _ => {
            return Err(Error::msg("expected projection expr"));
        },
    };
    if let Ok(s) = eval_string(table, e, row) {
        let empty = str_eq(s.as_str(), "");
        proof {
            reveal_strlit("");
            assert(s@.len() == 0 ==> s@ =~= ""@);
        }
        if !empty || is_text_value(table, e, row) {
            return Ok(s);
        }
    }
    match eval_i64(table, e, row) {
        Err(e) => Err(e),
        Ok(v) => Ok(int_text(v as i128)),
    }
}

/// The rows that have a key.
pub open spec fn rows_with<K>(keys: Seq<K>, rows: Seq<usize>, key: K) -> Seq<usize>
    decreases keys.len(),
{
    if keys.len() == 0 {
        Seq::empty()
    } else if keys.last() == key {
        rows_with(keys.drop_last(), rows, key).push(rows[keys.len() - 1])
    } else {
        rows_with(keys.drop_last(), rows, key)
    }
}

/// A key that occurs has rows, all of them among the rows.
pub proof fn lemma_rows_with<K>(keys: Seq<K>, rows: Seq<usize>, key: K)
    requires
        keys.len() == rows.len(),
    ensures
        rows_with(keys, rows, key).len() <= keys.len(),
        keys.contains(key) ==> rows_with(keys, rows, key).len() > 0,
        forall|i: int|
            0 <= i < rows_with(keys, rows, key).len() ==> rows.contains(
                #[trigger] rows_with(keys, rows, key)[i],
            ),
    decreases keys.len(),
{
    if keys.len() > 0 {
        let front = keys.drop_last();
        let short = rows.drop_last();
        lemma_rows_with(front, short, key);
        lemma_rows_prefix(front, short, rows, key);
        if keys.contains(key) {
            let j = choose|j: int| 0 <= j < keys.len() && keys[j] == key;
            if j < front.len() {
                assert(front[j] == key);
            }
        }
        let now = rows_with(keys, rows, key);
        let was = rows_with(front, rows, key);
        assert forall|i: int| 0 <= i < now.len() implies rows.contains(#[trigger] now[i]) by {
            if i < was.len() {
                assert(short.contains(was[i]));
                let j = choose|j: int| 0 <= j < short.len() && short[j] == was[i];
                assert(rows[j] == was[i]);
            } else {
                assert(rows[keys.len() - 1] == now[i]);
            }
        }
    }
}

proof fn lemma_rows_prefix<K>(keys: Seq<K>, a: Seq<usize>, b: Seq<usize>, key: K)
    requires
        forall|j: int| 0 <= j < keys.len() ==> a[j] == b[j],
    ensures
        rows_with(keys, a, key) == rows_with(keys, b, key),
    decreases keys.len(),
{
    if keys.len() > 0 {
        lemma_rows_prefix(keys.drop_last(), a, b, key);
    }
}

/// Why an aggregate cannot take a row in, if it cannot. What it has seen before does
/// not matter.
pub open spec fn item_fault(t: Table, item: SelectItemKind, row: int) -> Option<Seq<char>> {
    match updated(nothing_seen(), t, item, row) {
        Err(m) => Some(m),
        Ok(_) => None,
    }
}

/// The first fault among the first `n` aggregates on a row.
pub open spec fn items_fault(t: Table, items: Seq<SelectProjection>, row: int, n: nat) -> Option<
    Seq<char>,
>
    decreases n,
{
    if n == 0 {
        None
    } else {
        match items_fault(t, items, row, (n - 1) as nat) {
            Some(m) => Some(m),
            None => item_fault(t, items[n - 1].kind, row),
        }
    }
}

/// The first fault of an aggregate on any of the rows.
pub open spec fn rows_fault(t: Table, items: Seq<SelectProjection>, rows: Seq<usize>) -> Option<
    Seq<char>,
>
    decreases rows.len(),
{
    if rows.len() == 0 {
        None
    } else {
        match rows_fault(t, items, rows.drop_last()) {
            Some(m) => Some(m),
            None => items_fault(t, items, rows.last() as int, items.len()),
        }
    }
}

proof fn lemma_items_fault(t: Table, items: Seq<SelectProjection>, row: int, i: nat, n: nat)
    requires
        i <= n,
        items_fault(t, items, row, i) is Some,
    ensures
        items_fault(t, items, row, n) == items_fault(t, items, row, i),
    decreases n,
{
    if i < n {
        lemma_items_fault(t, items, row, i, (n - 1) as nat);
    }
}

proof fn lemma_rows_fault(t: Table, items: Seq<SelectProjection>, rows: Seq<usize>, i: int)
    requires
        0 <= i <= rows.len(),
        rows_fault(t, items, rows.take(i)) is Some,
    ensures
        rows_fault(t, items, rows) == rows_fault(t, items, rows.take(i)),
    decreases rows.len() - i,
{
    if i == rows.len() {
        assert(rows.take(i) =~= rows);
    } else {
        assert(rows.take(i + 1).drop_last() =~= rows.take(i));
        lemma_rows_fault(t, items, rows, i + 1);
    }
}

/// The aggregates over the rows that have a key.
pub open spec fn states_of<K>(
    t: Table,
    items: Seq<SelectProjection>,
    keys: Seq<K>,
    rows: Seq<usize>,
    key: K,
) -> Seq<AggView> {
    Seq::new(
        items.len(),
        |k: int| accumulated(t, items[k].kind, rows_with(keys, rows, key))->Ok_0,
    )
}

/// The states of one group.
pub open spec fn state_views(states: Seq<AggState>) -> Seq<AggView> {
    Seq::new(states.len(), |k: int| states[k]@)
}

/// Accumulators that have seen nothing, one for each projection.
fn fresh_states(n: usize) -> (v: Vec<AggState>)
    ensures
        v@.len() == n,
        forall|k: int| 0 <= k < n ==> (#[trigger] v@[k])@ == nothing_seen(),
{
    let mut v: Vec<AggState> = Vec::new();
    let mut i: usize = 0;
    while i < n
        invariant
            i <= n,
            v@.len() == i,
            forall|k: int| 0 <= k < i ==> (#[trigger] v@[k])@ == nothing_seen(),
        decreases n - i,
    {
        v.push(AggState::new());
        i = i + 1;
    }
    v
}

/// Takes a row into the accumulators of its group.
fn take_row(
    states: &mut Vec<AggState>,
    table: &Table,
    items: &Vec<SelectProjection>,
    row: usize,
    Ghost(n): Ghost<nat>,
) -> (r: Result<(), Error>)
    requires
        old(states)@.len() == items@.len(),
        n < usize::MAX,
        forall|k: int| 0 <= k < items@.len() ==> within((#[trigger] old(states)@[k])@, n),
        table.wf(),
        table.covers_row(row as int),
    ensures
        final(states)@.len() == items@.len(),
        match r {
            Ok(_) => {
                &&& items_fault(*table, items@, row as int, items@.len()) is None
                &&& forall|k: int|
                    0 <= k < items@.len() ==> yields(
                        updated(old(states)@[k]@, *table, items@[k].kind, row as int),
                        (#[trigger] final(states)@[k])@,
                    ) && within(final(states)@[k]@, n + 1)
            },
            Err(e) => items_fault(*table, items@, row as int, items@.len()) == Some(e@),
        },
{
    let mut k: usize = 0;
    while k < items.len()
        invariant
            k <= items@.len(),
            n < usize::MAX,
            states@.len() == items@.len() == old(states)@.len(),
            table.wf(),
            table.covers_row(row as int),
            forall|j: int| 0 <= j < items@.len() ==> within((#[trigger] old(states)@[j])@, n),
            items_fault(*table, items@, row as int, k as nat) is None,
            forall|j: int|
                0 <= j < k ==> yields(
                    updated(old(states)@[j]@, *table, items@[j].kind, row as int),
                    (#[trigger] states@[j])@,
                ) && within(states@[j]@, n + 1),
            forall|j: int| k <= j < items@.len() ==> #[trigger] states@[j] == old(states)@[j],
        decreases items@.len() - k,
    {
        proof {
            assert(states@[k as int] == old(states)@[k as int]);
            lemma_within(states@[k as int]@, *table, items@[k as int].kind, row as int, n);
        }
        let ghost before = states@;
        let state = &mut states[k];
        let done = state.update(table, &items[k].kind, row);
        if let Err(e) = done {
            proof {
                lemma_items_fault(*table, items@, row as int, (k + 1) as nat, items@.len());
            }
            return Err(e);
        }
        proof {
            assert forall|j: int| 0 <= j < k implies #[trigger] states@[j] == before[j] by {}
        }
        k = k + 1;
    }
    Ok(())
}

/// The aggregates over the rows of each group.
pub fn fill_groups<K>(
    table: &Table,
    items: &Vec<SelectProjection>,
    rows: &Vec<usize>,
    ids: &Vec<usize>,
    n: usize,
    Ghost(seen): Ghost<Seq<K>>,
    Ghost(keys): Ghost<Seq<K>>,
) -> (r: Result<Vec<Vec<AggState>>, Error>)
    requires
        n == seen.len(),
        seen.no_duplicates(),
        numbered(seen, keys, ids@),
        rows@.len() == ids@.len(),
        table.wf(),
        forall|i: int| 0 <= i < rows@.len() ==> table.covers_row((#[trigger] rows@[i]) as int),
    ensures
        match r {
            Ok(states) => {
                &&& rows_fault(*table, items@, rows@) is None
                &&& states@.len() == n
                &&& forall|g: int|
                    0 <= g < n ==> state_views((#[trigger] states@[g])@) == states_of(
                        *table,
                        items@,
                        keys,
                        rows@,
                        seen[g],
                    ) && states@[g]@.len() == items@.len() && forall|k: int|
                        0 <= k < items@.len() ==> or_zero((#[trigger] states@[g]@[k])@.sum)
                            > i128::MIN
            },
            Err(e) => rows_fault(*table, items@, rows@) == Some(e@),
        },
{
    let mut states: Vec<Vec<AggState>> = Vec::new();
    let mut g: usize = 0;
    while g < n
        invariant
            g <= n,
            states@.len() == g,
            forall|j: int|
                0 <= j < g ==> (#[trigger] states@[j])@.len() == items@.len() && forall|k: int|
                    0 <= k < items@.len() ==> (#[trigger] states@[j]@[k])@ == nothing_seen(),
        decreases n - g,
    {
        states.push(fresh_states(items.len()));
        g = g + 1;
    }
    let total: usize = rows.len();
    let mut i: usize = 0;
    assert(rows@.take(0) =~= Seq::<usize>::empty());
    assert(keys.take(0) =~= Seq::<K>::empty());
    while i < rows.len()
        invariant
            i <= rows@.len(),
            total == rows@.len(),
            n == seen.len(),
            seen.no_duplicates(),
            numbered(seen, keys, ids@),
            rows@.len() == ids@.len(),
            table.wf(),
            forall|i: int|
                0 <= i < rows@.len() ==> table.covers_row((#[trigger] rows@[i]) as int),
            rows_fault(*table, items@, rows@.take(i as int)) is None,
            states@.len() == n,
            forall|j: int|
                0 <= j < n ==> (#[trigger] states@[j])@.len() == items@.len() && forall|k: int|
                    0 <= k < items@.len() ==> within((#[trigger] states@[j]@[k])@, i as nat)
                        && yields(
                        accumulated(
                            *table,
                            items@[k].kind,
                            rows_with(keys.take(i as int), rows@, seen[j]),
                        ),
                        states@[j]@[k]@,
                    ),
        decreases rows@.len() - i,
    {
        let id: usize = ids[i];
        let row: usize = rows[i];
        proof {
            assert(rows@.take(i + 1).drop_last() =~= rows@.take(i as int));
            assert(keys.take(i + 1).drop_last() =~= keys.take(i as int));
            assert(keys.take(i + 1).last() == seen[id as int]);
            assert(states@[id as int]@.len() == items@.len());
            assert forall|k: int| 0 <= k < items@.len() implies within(
                (#[trigger] states@[id as int]@[k])@,
                i as nat,
            ) by {}
        }
        let ghost before = states@;
        let slot = &mut states[id];
        let done = take_row(slot, table, items, row, Ghost(i as nat));
        if let Err(e) = done {
            proof {
                lemma_rows_fault(*table, items@, rows@, i + 1);
            }
            return Err(e);
        }
        proof {
            assert forall|j: int| 0 <= j < n implies (#[trigger] states@[j])@.len() == items@.len()
                && forall|k: int|
                0 <= k < items@.len() ==> within((#[trigger] states@[j]@[k])@, (i + 1) as nat)
                    && yields(
                    accumulated(
                        *table,
                        items@[k].kind,
                        rows_with(keys.take(i + 1), rows@, seen[j]),
                    ),
                    states@[j]@[k]@,
                ) by {
                assert(before[j]@.len() == items@.len());
                if j != id {
                    assert(states@[j] == before[j]);
                    assert(seen[j] != seen[id as int]);
                    assert forall|k: int| 0 <= k < items@.len() implies within(
                        (#[trigger] states@[j]@[k])@,
                        (i + 1) as nat,
                    ) && yields(
                        accumulated(
                            *table,
                            items@[k].kind,
                            rows_with(keys.take(i + 1), rows@, seen[j]),
                        ),
                        states@[j]@[k]@,
                    ) by {
                        assert(within(before[j]@[k]@, i as nat));
                    }
                } else {
                    let w = rows_with(keys.take(i as int), rows@, seen[j]);
                    let v = rows_with(keys.take(i + 1), rows@, seen[j]);
                    assert(v == w.push(row));
                    assert(v.drop_last() =~= w);
                    assert forall|k: int| 0 <= k < items@.len() implies within(
                        (#[trigger] states@[j]@[k])@,
                        (i + 1) as nat,
                    ) && yields(
                        accumulated(*table, items@[k].kind, v),
                        states@[j]@[k]@,
                    ) by {
                        assert(within(before[j]@[k]@, i as nat));
                    }
                }
            }
        }
        i = i + 1;
    }
    proof {
        assert(rows@.take(i as int) =~= rows@);
        assert(keys.take(i as int) =~= keys);
        assert forall|j: int| 0 <= j < n implies state_views((#[trigger] states@[j])@) == states_of(
            *table,
            items@,
            keys,
            rows@,
            seen[j],
        ) && states@[j]@.len() == items@.len() && forall|k: int|
            0 <= k < items@.len() ==> or_zero((#[trigger] states@[j]@[k])@.sum) > i128::MIN by {
            assert(state_views(states@[j]@) =~= states_of(*table, items@, keys, rows@, seen[j]));
        }
    }
    Ok(states)
}

/// The first row of each group.
pub fn first_rows<K>(
    rows: &Vec<usize>,
    ids: &Vec<usize>,
    n: usize,
    Ghost(seen): Ghost<Seq<K>>,
    Ghost(keys): Ghost<Seq<K>>,
) -> (out: Vec<usize>)
    requires
        n == seen.len(),
        seen.no_duplicates(),
        numbered(seen, keys, ids@),
        rows@.len() == ids@.len(),
        forall|g: int| 0 <= g < n ==> keys.contains(#[trigger] seen[g]),
    ensures
        out@.len() == n,
        forall|g: int| 0 <= g < n ==> #[trigger] out@[g] == rows_with(keys, rows@, seen[g])[0],
{
    let mut out: Vec<usize> = Vec::new();
    let mut taken: Vec<bool> = Vec::new();
    let mut g: usize = 0;
    while g < n
        invariant
            g <= n,
            out@.len() == g,
            taken@.len() == g,
            forall|j: int| 0 <= j < g ==> !#[trigger] taken@[j],
        decreases n - g,
    {
        out.push(0);
        taken.push(false);
        g = g + 1;
    }
    let mut i: usize = 0;
    while i < rows.len()
        invariant
            i <= rows@.len(),
            n == seen.len(),
            seen.no_duplicates(),
            numbered(seen, keys, ids@),
            rows@.len() == ids@.len(),
            out@.len() == n,
            taken@.len() == n,
            forall|j: int|
                0 <= j < n ==> ((#[trigger] taken@[j]) <==> rows_with(
                    keys.take(i as int),
                    rows@,
                    seen[j],
                ).len() > 0),
            forall|j: int|
                0 <= j < n && #[trigger] taken@[j] ==> out@[j] == rows_with(
                    keys.take(i as int),
                    rows@,
                    seen[j],
                )[0],
        decreases rows@.len() - i,
    {
        let id: usize = ids[i];
        proof {
            assert(keys.take(i + 1).drop_last() =~= keys.take(i as int));
            assert(keys.take(i + 1).last() == seen[id as int]);
        }
        if !taken[id] {
            taken.set(id, true);
            out.set(id, rows[i]);
        }
        i = i + 1;
    }
    proof {
        assert(keys.take(i as int) =~= keys);
        assert forall|g: int| 0 <= g < n implies #[trigger] out@[g] == rows_with(
            keys,
            rows@,
            seen[g],
        )[0] by {
            assert(keys.contains(seen[g]));
            lemma_rows_with(keys, rows@, seen[g]);
            assert(taken@[g]);
        }
    }
    out
}

/// Whether a group with a number of rows meets the condition on groups.
pub open spec fn group_passes(having: Option<Expr>, rows: nat) -> bool {
    match having {
        None => true,
        Some(h) => passes(h, rows),
    }
}

/// Whether a group with a number of rows meets the condition on groups.
pub fn passes_group(having: &Option<Expr>, rows: u64) -> (r: bool)
    ensures
        r == group_passes(*having, rows as nat),
{
    match having {
        None => true,
        Some(h) => match having_threshold(h) {
            Some(n) => rows > n,
            None => true,
        },
    }
}

/// Whether a projection is what a grouping expression stands for.
pub open spec fn stands_for(q: ParsedQuery, j: int, i: int) -> bool {
    match q.select_items@[j].kind {
        SelectItemKind::Column(e) | SelectItemKind::Other(e) => {
            ||| same_expr(resolved(q.group_by@[i], q.select_items@), e)
            ||| match q.group_by@[i] {
                Expr::Identifier(s) => alias_position(q.select_items@, s@) == Some(j as usize),
                _ => false,
            }
        },
        _ => false,
    }
}

/// The first of the first `n` grouping expressions that a projection shows.
pub open spec fn key_shown(q: ParsedQuery, j: int, n: nat) -> Option<usize>
    decreases n,
{
    if n == 0 {
        None
    } else {
        match key_shown(q, j, (n - 1) as nat) {
            Some(i) => Some(i),
            None => if stands_for(q, j, n - 1) {
                Some((n - 1) as usize)
            } else {
                None
            },
        }
    }
}

/// A shown key is one of the keys.
pub proof fn lemma_key_shown(q: ParsedQuery, j: int, n: nat)
    ensures
        key_shown(q, j, n) matches Some(i) ==> i < n,
    decreases n,
{
    if n > 0 {
        lemma_key_shown(q, j, (n - 1) as nat);
    }
}

/// The grouping expression that a projection shows, if it shows one.
pub fn find_key_shown(parsed: &ParsedQuery, j: usize) -> (r: Option<usize>)
    requires
        j < parsed.select_items@.len(),
    ensures
        r == key_shown(*parsed, j as int, parsed.group_by@.len()),
        r matches Some(i) ==> i < parsed.group_by@.len(),
{
    let mut found: Option<usize> = None;
    let mut i: usize = 0;
    while i < parsed.group_by.len()
        invariant
            i <= parsed.group_by@.len(),
            j < parsed.select_items@.len(),
            found == key_shown(*parsed, j as int, i as nat),
            found matches Some(k) ==> k < i,
        decreases parsed.group_by@.len() - i,
    {
        if found.is_none() {
            let stands = match &parsed.select_items[j].kind {
                SelectItemKind::Column(e) => stands_behind(parsed, e, j, i),
                SelectItemKind::Other(e) => stands_behind(parsed, e, j, i),
                _ => false,
            };
            assert(stands == stands_for(*parsed, j as int, i as int));
            if stands {
                found = Some(i);
            }
        }
        i = i + 1;
    }
    found
}

fn stands_behind(parsed: &ParsedQuery, e: &Expr, j: usize, i: usize) -> (r: bool)
    requires
        i < parsed.group_by@.len(),
    ensures
        r == (same_expr(resolved(parsed.group_by@[i as int], parsed.select_items@), *e) || match parsed.group_by@[i as int] {
            Expr::Identifier(s) => alias_position(parsed.select_items@, s@) == Some(j),
            _ => false,
        }),
{
    if exprs_alike(resolve_group_expr(&parsed.group_by[i], &parsed.select_items), e) {
        return true;
    }
    if let Expr::Identifier(s) = &parsed.group_by[i] {
        return match find_alias(&parsed.select_items, s.as_str()) {
            Some(k) => k == j,
            None => false,
        };
    }
    false
}

/// The value of a projection for a group, of which a row is known: the text of the key
/// that it shows, or the aggregate.
pub open spec fn group_value(
    t: Table,
    q: ParsedQuery,
    j: int,
    row: usize,
    state: AggView,
) -> Result<CellView, Seq<char>> {
    let p = q.select_items@[j];
    if key_shown(q, j, q.group_by@.len()) is Some {
        let i = key_shown(q, j, q.group_by@.len())->Some_0;
        match key_of(t, resolved(q.group_by@[i as int], q.select_items@), row as int) {
            Err(m) => Err(m),
            Ok(s) => Ok(shown(s)),
        }
    } else if p.kind is Other {
        match proj_text(t, p, row as int) {
            Err(m) => Err(m),
            Ok(s) => Ok(shown(s)),
        }
    } else {
        match finished(state, p.kind, Seq::empty(), Some(t)) {
            Err(m) => Err(m),
            Ok(v) => Ok(v.1),
        }
    }
}

/// The first `n` values of the row that is shown for a group.
pub open spec fn group_row(
    t: Table,
    q: ParsedQuery,
    row: usize,
    states: Seq<AggView>,
    n: nat,
) -> Result<Seq<CellView>, Seq<char>>
    decreases n,
{
    if n == 0 {
        Ok(Seq::empty())
    } else {
        match group_row(t, q, row, states, (n - 1) as nat) {
            Err(m) => Err(m),
            Ok(cells) => match group_value(t, q, n - 1, row, states[n - 1]) {
                Err(m) => Err(m),
                Ok(c) => Ok(cells.push(c)),
            },
        }
    }
}

proof fn lemma_group_row_fault(
    t: Table,
    q: ParsedQuery,
    row: usize,
    states: Seq<AggView>,
    i: nat,
    n: nat,
)
    requires
        i <= n,
        group_row(t, q, row, states, i) is Err,
    ensures
        group_row(t, q, row, states, n) == group_row(t, q, row, states, i),
    decreases n,
{
    if i < n {
        lemma_group_row_fault(t, q, row, states, i, (n - 1) as nat);
    }
}

/// The value of a projection for a group.
fn show_value(
    table: &Table,
    parsed: &ParsedQuery,
    j: usize,
    row: usize,
    state: &AggState,
) -> (r: Result<Cell, Error>)
    requires
        j < parsed.select_items@.len(),
        table.wf(),
        table.covers_row(row as int),
        or_zero(state@.sum) > i128::MIN,
    ensures
        match r {
            Ok(c) => yields(group_value(*table, *parsed, j as int, row, state@), c@),
            Err(e) => fails(group_value(*table, *parsed, j as int, row, state@), e@),
        },
{
    if let Some(i) = find_key_shown(parsed, j) {
        let e = resolve_group_expr(&parsed.group_by[i], &parsed.select_items);
        return match eval_group_key(table, e, row) {
            Err(e) => Err(e),
            Ok(s) => Ok(Cell::Text(s)),
        };
    }
    let proj = &parsed.select_items[j];
    let as_text = match &proj.kind {
        SelectItemKind::Other(_) => true,
        _ => false,
    };
    if as_text {
        match eval_proj_at_row(table, proj, row) {
            Err(e) => Err(e),
            Ok(s) => Ok(Cell::Text(s)),
        }
    } else {
        match state.finish(&proj.kind, None, Some(table)) {
            Err(e) => Err(e),
            Ok((_, c)) => Ok(c),
        }
    }
}

/// The row that is shown for a group.
pub fn show_group(table: &Table, parsed: &ParsedQuery, row: usize, states: &Vec<AggState>) -> (r:
    Result<Vec<Cell>, Error>)
    requires
        table.wf(),
        table.covers_row(row as int),
        states@.len() == parsed.select_items@.len(),
        forall|k: int| 0 <= k < states@.len() ==> or_zero((#[trigger] states@[k])@.sum) > i128::MIN,
    ensures
        match r {
            Ok(v) => yields(
                group_row(*table, *parsed, row, state_views(states@), parsed.select_items@.len()),
                cells(v@),
            ) && v@.len() == parsed.select_items@.len(),
            Err(e) => fails(
                group_row(*table, *parsed, row, state_views(states@), parsed.select_items@.len()),
                e@,
            ),
        },
{
    let mut v: Vec<Cell> = Vec::new();
    let mut k: usize = 0;
    assert(cells(v@) =~= Seq::<CellView>::empty());
    while k < parsed.select_items.len()
        invariant
            k <= parsed.select_items@.len(),
            table.wf(),
            table.covers_row(row as int),
            states@.len() == parsed.select_items@.len(),
            forall|k: int|
                0 <= k < states@.len() ==> or_zero((#[trigger] states@[k])@.sum) > i128::MIN,
            v@.len() == k,
            yields(
                group_row(*table, *parsed, row, state_views(states@), k as nat),
                cells(v@),
            ),
        decreases parsed.select_items@.len() - k,
    {
        assert(or_zero(states@[k as int]@.sum) > i128::MIN);
        assert(state_views(states@)[k as int] == states@[k as int]@);
        match show_value(table, parsed, k, row, &states[k]) {
            Err(e) => {
                proof {
                    lemma_group_row_fault(
                        *table,
                        *parsed,
                        row,
                        state_views(states@),
                        (k + 1) as nat,
                        parsed.select_items@.len(),
                    );
                }
                return Err(e);
            },
            Ok(c) => {
                let ghost sofar = v@;
                v.push(c);
                assert(cells(v@) =~= cells(sofar).push(c@));
            },
        }
        k = k + 1;
    }
    Ok(v)
}

/// The rows that are shown for the first `n` groups.
pub open spec fn group_rows<K>(
    t: Table,
    q: ParsedQuery,
    keys: Seq<K>,
    rows: Seq<usize>,
    n: nat,
) -> Result<Seq<Seq<CellView>>, Seq<char>>
    decreases n,
{
    if n == 0 {
        Ok(Seq::empty())
    } else {
        match group_rows(t, q, keys, rows, (n - 1) as nat) {
            Err(m) => Err(m),
            Ok(out) => {
                let key = first_seen(keys)[n - 1];
                let states = states_of(t, q.select_items@, keys, rows, key);
                if group_passes(q.having, occurrences(keys, key)) {
                    match group_row(
                        t,
                        q,
                        rows_with(keys, rows, key)[0],
                        states,
                        q.select_items@.len(),
                    ) {
                        Err(m) => Err(m),
                        Ok(r) => Ok(out.push(r)),
                    }
                } else {
                    Ok(out)
                }
            },
        }
    }
}

proof fn lemma_group_rows_fault<K>(
    t: Table,
    q: ParsedQuery,
    keys: Seq<K>,
    rows: Seq<usize>,
    i: nat,
    n: nat,
)
    requires
        i <= n,
        group_rows(t, q, keys, rows, i) is Err,
    ensures
        group_rows(t, q, keys, rows, n) == group_rows(t, q, keys, rows, i),
    decreases n,
{
    if i < n {
        lemma_group_rows_fault(t, q, keys, rows, i, (n - 1) as nat);
    }
}

/// What grouping rows by their keys comes to.
pub open spec fn grouped<K>(t: Table, q: ParsedQuery, keys: Seq<K>, rows: Seq<usize>) -> Result<
    Seq<Seq<CellView>>,
    Seq<char>,
> {
    match rows_fault(t, q.select_items@, rows) {
        Some(m) => Err(m),
        None => group_rows(t, q, keys, rows, first_seen(keys).len()),
    }
}

/// Groups rows by their numbered keys, and gives the rows that are shown for the
/// groups.
pub fn show_groups<K>(
    table: &Table,
    parsed: &ParsedQuery,
    rows: &Vec<usize>,
    ids: &Vec<usize>,
    n: usize,
    Ghost(keys): Ghost<Seq<K>>,
) -> (r: Result<Vec<Vec<Cell>>, Error>)
    requires
        n == first_seen(keys).len(),
        numbered(first_seen(keys), keys, ids@),
        rows@.len() == ids@.len(),
        table.wf(),
        forall|i: int| 0 <= i < rows@.len() ==> table.covers_row((#[trigger] rows@[i]) as int),
    ensures
        match r {
            Ok(v) => yields(grouped(*table, *parsed, keys, rows@), cell_rows(v@)) && forall|i: int|
                0 <= i < v@.len() ==> (#[trigger] v@[i])@.len() == parsed.select_items@.len(),
            Err(e) => fails(grouped(*table, *parsed, keys, rows@), e@),
        },
{
    let ghost seen = first_seen(keys);
    proof {
        lemma_first_seen_distinct(keys);
    }
    let states = match fill_groups::<K>(
        table,
        &parsed.select_items,
        rows,
        ids,
        n,
        Ghost(seen),
        Ghost(keys),
    ) {
        Ok(s) => s,
        Err(e) => {
            return Err(e);
        },
    };
    proof {
        assert forall|g: int| 0 <= g < n implies keys.contains(#[trigger] seen[g]) by {
            assert(seen.contains(seen[g]));
        }
    }
    let samples = first_rows::<K>(rows, ids, n, Ghost(seen), Ghost(keys));
    let counts = count_groups::<K>(n, ids, Ghost(seen), Ghost(keys));
    let mut out: Vec<Vec<Cell>> = Vec::new();
    let mut g: usize = 0;
    assert(cell_rows(out@) =~= Seq::<Seq<CellView>>::empty());
    while g < n
        invariant
            g <= n,
            seen == first_seen(keys),
            n == seen.len(),
            table.wf(),
            rows@.len() == keys.len(),
            rows_fault(*table, parsed.select_items@, rows@) is None,
            forall|i: int|
                0 <= i < rows@.len() ==> table.covers_row((#[trigger] rows@[i]) as int),
            forall|g: int| 0 <= g < n ==> keys.contains(#[trigger] seen[g]),
            states@.len() == n,
            samples@.len() == n,
            forall|g: int|
                0 <= g < n ==> #[trigger] samples@[g] == rows_with(keys, rows@, seen[g])[0],
            counts@.len() == n,
            forall|g: int| 0 <= g < n ==> #[trigger] counts@[g] == occurrences(keys, seen[g]),
            forall|g: int|
                0 <= g < n ==> state_views((#[trigger] states@[g])@) == states_of(
                    *table,
                    parsed.select_items@,
                    keys,
                    rows@,
                    seen[g],
                ) && states@[g]@.len() == parsed.select_items@.len() && forall|k: int|
                    0 <= k < parsed.select_items@.len() ==> or_zero(
                        (#[trigger] states@[g]@[k])@.sum,
                    ) > i128::MIN,
            yields(group_rows(*table, *parsed, keys, rows@, g as nat), cell_rows(out@)),
            forall|i: int|
                0 <= i < out@.len() ==> (#[trigger] out@[i])@.len() == parsed.select_items@.len(),
        decreases n - g,
    {
        let group = &states[g];
        assert(state_views(states@[g as int]@) == states_of(
            *table,
            parsed.select_items@,
            keys,
            rows@,
            seen[g as int],
        ));
        if passes_group(&parsed.having, counts[g]) {
            let row: usize = samples[g];
            proof {
                assert(keys.contains(seen[g as int]));
                lemma_rows_with(keys, rows@, seen[g as int]);
                let w = rows_with(keys, rows@, seen[g as int]);
                assert(rows@.contains(w[0]));
                let i = choose|i: int| 0 <= i < rows@.len() && rows@[i] == w[0];
                assert(table.covers_row(rows@[i] as int));
            }
            match show_group(table, parsed, row, group) {
                Err(e) => {
                    proof {
                        lemma_group_rows_fault(
                            *table,
                            *parsed,
                            keys,
                            rows@,
                            (g + 1) as nat,
                            n as nat,
                        );
                    }
                    return Err(e);
                },
                Ok(v) => {
                    let ghost sofar = out@;
                    out.push(v);
                    assert(cell_rows(out@) =~= cell_rows(sofar).push(cells(v@)));
                },
            }
        }
        g = g + 1;
    }
    Ok(out)
}

/// The first `n` texts of the key of a row.
pub open spec fn row_key(t: Table, q: ParsedQuery, row: int, n: nat) -> Result<
    Seq<Seq<char>>,
    Seq<char>,
>
    decreases n,
{
    if n == 0 {
        Ok(Seq::empty())
    } else {
        match row_key(t, q, row, (n - 1) as nat) {
            Err(m) => Err(m),
            Ok(k) => match key_of(t, resolved(q.group_by@[n - 1], q.select_items@), row) {
                Err(m) => Err(m),
                Ok(s) => Ok(k.push(s)),
            },
        }
    }
}

proof fn lemma_row_key_fault(t: Table, q: ParsedQuery, row: int, i: nat, n: nat)
    requires
        i <= n,
        row_key(t, q, row, i) is Err,
    ensures
        row_key(t, q, row, n) == row_key(t, q, row, i),
    decreases n,
{
    if i < n {
        lemma_row_key_fault(t, q, row, i, (n - 1) as nat);
    }
}

/// The key of a row.
fn eval_row_key(table: &Table, parsed: &ParsedQuery, row: usize) -> (r: Result<Vec<String>, Error>)
    requires
        table.wf(),
        table.covers_row(row as int),
    ensures
        match r {
            Ok(k) => yields(
                row_key(*table, *parsed, row as int, parsed.group_by@.len()),
                texts(k@),
            ),
            Err(e) => fails(row_key(*table, *parsed, row as int, parsed.group_by@.len()), e@),
        },
{
    let mut key: Vec<String> = Vec::new();
    let mut j: usize = 0;
    assert(texts(key@) =~= Seq::<Seq<char>>::empty());
    while j < parsed.group_by.len()
        invariant
            j <= parsed.group_by@.len(),
            table.wf(),
            table.covers_row(row as int),
            yields(row_key(*table, *parsed, row as int, j as nat), texts(key@)),
        decreases parsed.group_by@.len() - j,
    {
        let e = resolve_group_expr(&parsed.group_by[j], &parsed.select_items);
        match eval_group_key(table, e, row) {
            Err(e) => {
                proof {
                    lemma_row_key_fault(
                        *table,
                        *parsed,
                        row as int,
                        (j + 1) as nat,
                        parsed.group_by@.len(),
                    );
                }
                return Err(e);
            },
            Ok(s) => {
                let ghost sofar = key@;
                key.push(s);
                assert(texts(key@) =~= texts(sofar).push(s@));
            },
        }
        j = j + 1;
    }
    Ok(key)
}

/// The keys of rows up to the first that has none, and why it has none.
pub open spec fn keyed(t: Table, q: ParsedQuery, rows: Seq<usize>) -> (
    Seq<Seq<Seq<char>>>,
    Option<Seq<char>>,
)
    decreases rows.len(),
{
    if rows.len() == 0 {
        (Seq::empty(), None)
    } else {
        let before = keyed(t, q, rows.drop_last());
        if before.1 is Some {
            before
        } else {
            match row_key(t, q, rows.last() as int, q.group_by@.len()) {
                Err(m) => (before.0, Some(m)),
                Ok(k) => (before.0.push(k), None),
            }
        }
    }
}

proof fn lemma_keyed_fault(t: Table, q: ParsedQuery, rows: Seq<usize>, i: int)
    requires
        0 <= i <= rows.len(),
        keyed(t, q, rows.take(i)).1 is Some,
    ensures
        keyed(t, q, rows) == keyed(t, q, rows.take(i)),
    decreases rows.len() - i,
{
    if i == rows.len() {
        assert(rows.take(i) =~= rows);
    } else {
        assert(rows.take(i + 1).drop_last() =~= rows.take(i));
        lemma_keyed_fault(t, q, rows, i + 1);
    }
}

/// Grouping rows by the texts of their keys. The first fault decides, row by row:
/// first of the key, then of the aggregates.
pub open spec fn plainly_grouped(t: Table, q: ParsedQuery, rows: Seq<usize>) -> Result<
    Seq<Seq<CellView>>,
    Seq<char>,
> {
    let (keys, fault) = keyed(t, q, rows);
    match rows_fault(t, q.select_items@, rows.take(keys.len() as int)) {
        Some(m) => Err(m),
        None => match fault {
            Some(m) => Err(m),
            None => group_rows(t, q, keys, rows, first_seen(keys).len()),
        },
    }
}

/// What a grouping query comes to when no shorter way applies. An order of rows without
/// columns can only be given to at most one.
pub open spec fn plain_answer(t: Table, q: ParsedQuery, n: nat) -> Result<AnswerView, Seq<char>> {
    match masked(t, q, n) {
        Err(m) => Err(m),
        Ok(None) => Ok(AnswerView::Done(no_rows(q))),
        Ok(Some(mask)) => match plainly_grouped(t, q, selected(mask)) {
            Err(m) => Err(m),
            Ok(rows) => if q.order_by@.len() > 0 && q.select_items@.len() == 0 {
                if rows.len() <= 1 {
                    Ok(
                        AnswerView::Done(
                            ResultView {
                                columns: labels(q.select_items@),
                                rows: window(rows, query_limit(q) as nat, query_offset(q) as nat),
                            },
                        ),
                    )
                } else {
                    Err("order column not in the result"@)
                }
            } else {
                Ok(AnswerView::Sort(to_sort(q, rows)))
            },
        },
    }
}

/// The rows that a mask selects, all of them covered by a table.
pub fn covered_rows(table: &Table, mask: &Vec<bool>) -> (rows: Vec<usize>)
    requires
        table.holds_rows(mask@.len() as int),
    ensures
        rows@ == selected(mask@),
        forall|i: int| 0 <= i < rows@.len() ==> table.covers_row((#[trigger] rows@[i]) as int),
        forall|i: int| 0 <= i < rows@.len() ==> (#[trigger] rows@[i]) < mask@.len(),
{
    let rows = selected_indices(mask.as_slice());
    let n: usize = mask.len();
    proof {
        assert(n == mask@.len());
        lemma_selected(mask@);
        assert forall|i: int| 0 <= i < rows@.len() implies table.covers_row(
            (#[trigger] rows@[i]) as int,
        ) by {}
    }
    rows
}

/// Groups the rows that a query selects by the texts of their keys.
pub fn group_plain(table: &Table, parsed: &ParsedQuery, row_count: usize) -> (r: Result<
    Answer,
    Error,
>)
    requires
        table.wf(),
        table.holds_rows(row_count as int),
    ensures
        answered(r) == plain_answer(*table, *parsed, row_count as nat),
        r matches Ok(a) ==> a.wf(),
{
    let mask = match build_mask(table, parsed, row_count) {
        Err(e) => {
            return Err(e);
        },
        Ok(None) => {
            return Ok(Answer::Done(empty_result(parsed)));
        },
        Ok(Some(m)) => m,
    };
    let rows = covered_rows(table, &mask);
    let mut keys: Vec<Vec<String>> = Vec::new();
    let mut good: Vec<usize> = Vec::new();
    let mut fault: Option<Error> = None;
    let mut i: usize = 0;
    proof {
        assert(rows@.take(0) =~= Seq::<usize>::empty());
        assert(text_lists(keys@) =~= Seq::<Seq<Seq<char>>>::empty());
    }
    while i < rows.len() && fault.is_none()
        invariant
            i <= rows@.len(),
            table.wf(),
            forall|i: int|
                0 <= i < rows@.len() ==> table.covers_row((#[trigger] rows@[i]) as int),
            text_lists(keys@) == keyed(*table, *parsed, rows@.take(i as int)).0,
            match fault {
                Some(e) => keyed(*table, *parsed, rows@.take(i as int)).1 == Some(e@),
                None => keyed(*table, *parsed, rows@.take(i as int)).1 is None && good@.len() == i,
            },
            good@.len() == keys@.len() <= i,
            good@ == rows@.take(good@.len() as int),
        decreases rows@.len() - i,
    {
        assert(rows@.take(i + 1).drop_last() =~= rows@.take(i as int));
        assert(table.covers_row(rows@[i as int] as int));
        match eval_row_key(table, parsed, rows[i]) {
            Err(e) => {
                fault = Some(e);
            },
            Ok(k) => {
                let ghost sofar = keys@;
                keys.push(k);
                good.push(rows[i]);
                assert(text_lists(keys@) =~= text_lists(sofar).push(texts(k@)));
                assert(good@ =~= rows@.take(good@.len() as int));
            },
        }
        i = i + 1;
    }
    let ghost all = text_lists(keys@);
    proof {
        if fault is Some {
            lemma_keyed_fault(*table, *parsed, rows@, i as int);
        } else {
            assert(rows@.take(i as int) =~= rows@);
        }
        assert forall|i: int| 0 <= i < good@.len() implies table.covers_row(
            (#[trigger] good@[i]) as int,
        ) by {
            assert(good@[i] == rows@[i]);
        }
    }
    let (index, ids) = group_texts(keys);
    if let Some(e) = fault {
        proof {
            lemma_first_seen_distinct(all);
        }
        match fill_groups::<Seq<Seq<char>>>(
            table,
            &parsed.select_items,
            &good,
            &ids,
            index.len(),
            Ghost(index@),
            Ghost(all),
        ) {
            Err(f) => {
                return Err(f);
            },
            Ok(_) => {
                return Err(e);
            },
        }
    }
    assert(good@ =~= rows@);
    match show_groups::<Seq<Seq<char>>>(table, parsed, &good, &ids, index.len(), Ghost(all)) {
        Err(e) => Err(e),
        Ok(out) => {
            if parsed.order_by.len() > 0 && parsed.select_items.len() == 0 {
                if out.len() > 1 {
                    return Err(Error::msg("order column not in the result"));
                }
                let shown = rows_window(&out, limit_of(parsed), offset_of(parsed));
                return Ok(Answer::Done(QueryResult { columns: headings(parsed), rows: shown }));
            }
            Ok(Answer::Sort(Unsorted::of_query(parsed, headings(parsed), out)))
        },
    }
}

} // verus!
