//! SELECT without grouping: the rows of a table, one after another.
use crate::error::{fails, text_outcome, yields, Error};
use crate::exec::filter::{build_filter_mask, filtered};
use crate::exec::group::covered_rows;
use crate::exec::group_fused_pair::count_up;
use crate::exec::hash::{copy_texts, text_lists};
use crate::exec::mask_util::selected;
use crate::exec::result::{cells, headings, labels, Cell, CellView, QueryResult, ResultView};
use crate::exec::kernel::{all_shown, show_texts};
use crate::exec::sorting::{
    all_numbers, apply_limit_offset, key_rows, limited, picked_rows, rectangular, row_order,
    sort_row_numbers, SortKey,
};
use crate::expr::eval::{
    col_shown, column_of, eval_i64, eval_string, int_of, show_column, text_of,
};
use crate::sql::ast::{Expr, ParsedQuery, SelectItemKind, SelectProjection};
use crate::sql::query::{column_name, column_ref};
use crate::storage::column::ColumnData;
use crate::storage::table::{declared_names, Table};
use crate::text::{decimal, int_text, texts};
use vstd::prelude::*;
use vstd::relations::total_ordering;

verus! {

/// The text of an expression on a row: of a column of numbers the number, of another
/// expression its text, and where it has none its number.
pub open spec fn scan_text(t: Table, e: Expr, row: int) -> Result<Seq<char>, Seq<char>>
    decreases e,
{
    match e {
        Expr::Nested(inner) => scan_text(t, *inner, row),
        _ => match column_name(e) {
            Some(name) => match column_of(t, name) {
                Err(m) => Err(m),
                Ok(c) => Ok(c.cell_text(row)),
            },
            None => match text_of(t, e, row) {
                Ok(s) => Ok(s),
                Err(_) => match int_of(t, e, row) {
                    Ok(v) => Ok(decimal(v as int)),
                    Err(m) => Err(m),
                },
            },
        },
    }
}

/// The text of an expression on a row.
pub fn eval_scan_text(table: &Table, e: &Expr, row: usize) -> (r: Result<String, Error>)
    requires
        table.wf(),
        table.covers_row(row as int),
    ensures
        text_outcome(r) == scan_text(*table, *e, row as int),
    decreases *e,
{
    if let Expr::Nested(inner) = e {
        return eval_scan_text(table, inner, row);
    }
    if let Some(name) = column_ref(e) {
        return match table.column(name) {
            Err(m) => Err(m),
            Ok(c) => {
                proof {
                    table.lemma_covers(name@, row as int);
                }
                Ok(ColumnData::cell_to_string(c, row))
            },
        };
    }
    match eval_string(table, e, row) {
        Ok(s) => Ok(s),
        Err(_) => match eval_i64(table, e, row) {
            Ok(v) => Ok(int_text(v as i128)),
            Err(m) => Err(m),
        },
    }
}

/// The text of a projection on a row.
pub open spec fn projected_text(t: Table, p: SelectProjection, row: int) -> Result<
    Seq<char>,
    Seq<char>,
> {
    match p.kind {
        SelectItemKind::Column(e) => scan_text(t, e, row),
        SelectItemKind::Other(e) => scan_text(t, e, row),
        _ => Err("scan projection must be column expr"@),
    }
}

/// The text of a projection on a row.
pub fn eval_projection(table: &Table, proj: &SelectProjection, row: usize) -> (r: Result<
    String,
    Error,
>)
    requires
        table.wf(),
        table.covers_row(row as int),
    ensures
        text_outcome(r) == projected_text(*table, *proj, row as int),
{
    match &proj.kind {
        SelectItemKind::Column(e) => eval_scan_text(table, e, row),
        SelectItemKind::Other(e) => eval_scan_text(table, e, row),
        _ => Err(Error::msg("scan projection must be column expr")),
    }
}

/// The text of a column on a row.
pub open spec fn cell_text(t: Table, name: Seq<char>, row: int) -> Result<Seq<char>, Seq<char>> {
    match column_of(t, name) {
        Err(m) => Err(m),
        Ok(c) => col_shown(c, row),
    }
}

/// A value of a column as it is shown and grouped by.
pub fn col_key(col: &ColumnData, row: usize) -> (r: Result<String, Error>)
    requires
        col.wf(),
        row < col@.len(),
    ensures
        text_outcome(r) == col_shown(col@, row as int),
{
    show_column(col, row)
}

/// The text of a column on a row.
pub fn cell_at(table: &Table, name: &str, row: usize) -> (r: Result<String, Error>)
    requires
        table.wf(),
        table.covers_row(row as int),
    ensures
        text_outcome(r) == cell_text(*table, name@, row as int),
{
    match table.column(name) {
        Err(e) => Err(e),
        Ok(c) => {
            proof {
                table.lemma_covers(name@, row as int);
            }
            col_key(c, row)
        },
    }
}

/// The first `k` values of a row: of all columns, or of the projections.
pub open spec fn scan_values(t: Table, q: ParsedQuery, row: int, k: nat) -> Result<
    Seq<Seq<char>>,
    Seq<char>,
>
    decreases k,
{
    if k == 0 {
        Ok(Seq::empty())
    } else {
        match scan_values(t, q, row, (k - 1) as nat) {
            Err(m) => Err(m),
            Ok(front) => match if q.select_all {
                cell_text(t, declared_names(t.declared())[k - 1], row)
            } else {
                projected_text(t, q.select_items@[k - 1], row)
            } {
                Err(m) => Err(m),
                Ok(s) => Ok(front.push(s)),
            },
        }
    }
}

/// How many values a row has.
pub open spec fn scan_width(t: Table, q: ParsedQuery) -> nat {
    if q.select_all {
        declared_names(t.declared()).len()
    } else {
        q.select_items@.len()
    }
}

/// The headings of a scan.
pub open spec fn scan_columns(t: Table, q: ParsedQuery) -> Seq<Seq<char>> {
    if q.select_all {
        declared_names(t.declared())
    } else {
        labels(q.select_items@)
    }
}

proof fn lemma_scan_values_fault(t: Table, q: ParsedQuery, row: int, i: nat, k: nat)
    requires
        i <= k,
        scan_values(t, q, row, i) is Err,
    ensures
        scan_values(t, q, row, k) == scan_values(t, q, row, i),
    decreases k,
{
    if i < k {
        lemma_scan_values_fault(t, q, row, i, (k - 1) as nat);
    }
}

/// The first `k` texts that a row is sorted by.
pub open spec fn scan_keys(t: Table, q: ParsedQuery, row: int, k: nat) -> Result<
    Seq<Seq<char>>,
    Seq<char>,
>
    decreases k,
{
    if k == 0 {
        Ok(Seq::empty())
    } else {
        match scan_keys(t, q, row, (k - 1) as nat) {
            Err(m) => Err(m),
            Ok(front) => match scan_text(t, q.order_by@[k - 1].0, row) {
                Err(m) => Err(m),
                Ok(s) => Ok(front.push(s)),
            },
        }
    }
}

proof fn lemma_scan_keys_fault(t: Table, q: ParsedQuery, row: int, i: nat, k: nat)
    requires
        i <= k,
        scan_keys(t, q, row, i) is Err,
    ensures
        scan_keys(t, q, row, k) == scan_keys(t, q, row, i),
    decreases k,
{
    if i < k {
        lemma_scan_keys_fault(t, q, row, i, (k - 1) as nat);
    }
}

/// The values of a row.
fn row_values(table: &Table, parsed: &ParsedQuery, names: &Vec<String>, row: usize) -> (r: Result<
    Vec<String>,
    Error,
>)
    requires
        table.wf(),
        table.covers_row(row as int),
        texts(names@) == declared_names(table.declared()),
    ensures
        match r {
            Ok(v) => yields(
                scan_values(*table, *parsed, row as int, scan_width(*table, *parsed)),
                texts(v@),
            ),
            Err(e) => fails(
                scan_values(*table, *parsed, row as int, scan_width(*table, *parsed)),
                e@,
            ),
        },
{
    let width: usize = if parsed.select_all {
        names.len()
    } else {
        parsed.select_items.len()
    };
    proof {
        assert(texts(names@).len() == names@.len());
    }
    let mut v: Vec<String> = Vec::new();
    let mut i: usize = 0;
    assert(texts(v@) =~= Seq::<Seq<char>>::empty());
    while i < width
        invariant
            i <= width == scan_width(*table, *parsed),
            table.wf(),
            table.covers_row(row as int),
            texts(names@) == declared_names(table.declared()),
            texts(names@).len() == names@.len(),
            parsed.select_all ==> width == names@.len(),
            !parsed.select_all ==> width == parsed.select_items@.len(),
            yields(scan_values(*table, *parsed, row as int, i as nat), texts(v@)),
        decreases width - i,
    {
        let next = if parsed.select_all {
            assert(texts(names@)[i as int] == names@[i as int]@);
            cell_at(table, names[i].as_str(), row)
        } else {
            eval_projection(table, &parsed.select_items[i], row)
        };
        match next {
            Err(e) => {
                proof {
                    lemma_scan_values_fault(
                        *table,
                        *parsed,
                        row as int,
                        (i + 1) as nat,
                        width as nat,
                    );
                }
                return Err(e);
            },
            Ok(s) => {
                let ghost sofar = v@;
                v.push(s);
                assert(texts(v@) =~= texts(sofar).push(s@));
            },
        }
        i = i + 1;
    }
    Ok(v)
}

/// The texts that a row is sorted by.
fn sort_keys(table: &Table, order_by: &Vec<(Expr, bool)>, row: usize, Ghost(q): Ghost<
    ParsedQuery,
>) -> (r: Result<Vec<String>, Error>)
    requires
        table.wf(),
        table.covers_row(row as int),
        *order_by == q.order_by,
    ensures
        match r {
            Ok(v) => yields(scan_keys(*table, q, row as int, order_by@.len()), texts(v@)) && v@.len()
                == order_by@.len(),
            Err(e) => fails(scan_keys(*table, q, row as int, order_by@.len()), e@),
        },
{
    let mut v: Vec<String> = Vec::new();
    let mut i: usize = 0;
    assert(texts(v@) =~= Seq::<Seq<char>>::empty());
    while i < order_by.len()
        invariant
            i <= order_by@.len(),
            table.wf(),
            table.covers_row(row as int),
            *order_by == q.order_by,
            v@.len() == i,
            yields(scan_keys(*table, q, row as int, i as nat), texts(v@)),
        decreases order_by@.len() - i,
    {
        match eval_scan_text(table, &order_by[i].0, row) {
            Err(e) => {
                proof {
                    lemma_scan_keys_fault(*table, q, row as int, (i + 1) as nat, order_by@.len());
                }
                return Err(e);
            },
            Ok(s) => {
                let ghost sofar = v@;
                v.push(s);
                assert(texts(v@) =~= texts(sofar).push(s@));
            },
        }
        i = i + 1;
    }
    Ok(v)
}

/// The values of rows, each with the texts that it is sorted by.
pub open spec fn scanned(t: Table, q: ParsedQuery, rows: Seq<usize>) -> Result<
    (Seq<Seq<Seq<char>>>, Seq<Seq<Seq<char>>>),
    Seq<char>,
>
    decreases rows.len(),
{
    if rows.len() == 0 {
        Ok((Seq::empty(), Seq::empty()))
    } else {
        match scanned(t, q, rows.drop_last()) {
            Err(m) => Err(m),
            Ok((values, keys)) => match (
                scan_values(t, q, rows.last() as int, scan_width(t, q)),
                scan_keys(t, q, rows.last() as int, q.order_by@.len()),
            ) {
                (Err(m), _) => Err(m),
                (_, Err(m)) => Err(m),
                (Ok(v), Ok(k)) => Ok((values.push(v), keys.push(k))),
            },
        }
    }
}

proof fn lemma_scanned_fault(t: Table, q: ParsedQuery, rows: Seq<usize>, i: int)
    requires
        0 <= i <= rows.len(),
        scanned(t, q, rows.take(i)) is Err,
    ensures
        scanned(t, q, rows) == scanned(t, q, rows.take(i)),
    decreases rows.len() - i,
{
    if i == rows.len() {
        assert(rows.take(i) =~= rows);
    } else {
        assert(rows.take(i + 1).drop_last() =~= rows.take(i));
        lemma_scanned_fault(t, q, rows, i + 1);
    }
}

/// The rows of a scan, with what they are sorted by.
pub struct Scan {
    pub columns: Vec<String>,
    pub rows: Vec<Vec<String>>,
    /// The texts that each row is sorted by.
    pub keys: Vec<Vec<String>>,
    /// The order, with whether it is descending.
    pub order: Vec<(usize, bool)>,
    pub limit: Option<u64>,
    pub offset: Option<u64>,
}

/// The rows of a scan, with what they are sorted by.
pub struct ScanView {
    pub columns: Seq<Seq<char>>,
    pub rows: Seq<Seq<Seq<char>>>,
    pub keys: Seq<Seq<Seq<char>>>,
    pub order: Seq<(usize, bool)>,
    pub limit: Option<u64>,
    pub offset: Option<u64>,
}

impl View for Scan {
    type V = ScanView;

    open spec fn view(&self) -> ScanView {
        ScanView {
            columns: texts(self.columns@),
            rows: text_lists(self.rows@),
            keys: text_lists(self.keys@),
            order: self.order@,
            limit: self.limit,
            offset: self.offset,
        }
    }
}

impl Scan {
    /// Whether every row has a text for each part of the order.
    pub open spec fn wf(&self) -> bool {
        &&& self.keys@.len() == self.rows@.len()
        &&& rectangular_texts(self.keys@, self.order@.len())
        &&& forall|i: int| 0 <= i < self.order@.len() ==> (#[trigger] self.order@[i]).0 == i
    }
}

/// Whether all rows have so many texts.
pub open spec fn rectangular_texts(keys: Seq<Vec<String>>, width: nat) -> bool {
    forall|i: int| 0 <= i < keys.len() ==> (#[trigger] keys[i])@.len() == width
}

/// The order of a scan, part by part.
pub open spec fn scan_order(q: ParsedQuery) -> Seq<(usize, bool)> {
    Seq::new(q.order_by@.len(), |i: int| (i as usize, q.order_by@[i].1))
}

/// What a scan comes to.
pub open spec fn scan_answer(t: Table, q: ParsedQuery, n: nat) -> Result<ScanView, Seq<char>> {
    match filtered(t, q.where_expr, n) {
        Err(m) => Err(m),
        Ok(mask) => match scanned(t, q, selected(mask)) {
            Err(m) => Err(m),
            Ok((rows, keys)) => Ok(
                ScanView {
                    columns: scan_columns(t, q),
                    rows,
                    keys,
                    order: scan_order(q),
                    limit: q.limit,
                    offset: q.offset,
                },
            ),
        },
    }
}

/// The values of rows, each with the texts that it is sorted by.
fn scan_rows(table: &Table, parsed: &ParsedQuery, names: &Vec<String>, rows: &Vec<usize>) -> (r: Result<
    (Vec<Vec<String>>, Vec<Vec<String>>),
    Error,
>)
    requires
        table.wf(),
        texts(names@) == declared_names(table.declared()),
        forall|i: int| 0 <= i < rows@.len() ==> table.covers_row((#[trigger] rows@[i]) as int),
    ensures
        match r {
            Ok((v, k)) => yields(
                scanned(*table, *parsed, rows@),
                (text_lists(v@), text_lists(k@)),
            ) && v@.len() == k@.len() && rectangular_texts(k@, parsed.order_by@.len()),
            Err(e) => fails(scanned(*table, *parsed, rows@), e@),
        },
{
    let mut values: Vec<Vec<String>> = Vec::new();
    let mut keys: Vec<Vec<String>> = Vec::new();
    let mut i: usize = 0;
    assert(rows@.take(0) =~= Seq::<usize>::empty());
    assert(text_lists(values@) =~= Seq::<Seq<Seq<char>>>::empty());
    assert(text_lists(keys@) =~= Seq::<Seq<Seq<char>>>::empty());
    while i < rows.len()
        invariant
            i <= rows@.len(),
            table.wf(),
            texts(names@) == declared_names(table.declared()),
            forall|i: int| 0 <= i < rows@.len() ==> table.covers_row((#[trigger] rows@[i]) as int),
            values@.len() == keys@.len(),
            rectangular_texts(keys@, parsed.order_by@.len()),
            yields(
                scanned(*table, *parsed, rows@.take(i as int)),
                (text_lists(values@), text_lists(keys@)),
            ),
        decreases rows@.len() - i,
    {
        assert(rows@.take(i + 1).drop_last() =~= rows@.take(i as int));
        assert(table.covers_row(rows@[i as int] as int));
        let r: usize = rows[i];
        let v = match row_values(table, parsed, names, r) {
            Err(e) => {
                proof {
                    lemma_scanned_fault(*table, *parsed, rows@, i + 1);
                }
                return Err(e);
            },
            Ok(v) => v,
        };
        let k = match sort_keys(table, &parsed.order_by, r, Ghost(*parsed)) {
            Err(e) => {
                proof {
                    lemma_scanned_fault(*table, *parsed, rows@, i + 1);
                }
                return Err(e);
            },
            Ok(k) => k,
        };
        let ghost a = values@;
        let ghost b = keys@;
        values.push(v);
        keys.push(k);
        proof {
            assert(text_lists(values@) =~= text_lists(a).push(texts(v@)));
            assert(text_lists(keys@) =~= text_lists(b).push(texts(k@)));
        }
        i = i + 1;
    }
    assert(rows@.take(i as int) =~= rows@);
    Ok((values, keys))
}

/// The rows of a table that a query selects, with what they are sorted by.
pub fn execute_scan(table: &Table, parsed: &ParsedQuery, row_count: usize) -> (r: Result<Scan, Error>)
    requires
        table.wf(),
        table.holds_rows(row_count as int),
    ensures
        match r {
            Ok(s) => yields(scan_answer(*table, *parsed, row_count as nat), s@) && s.wf(),
            Err(e) => fails(scan_answer(*table, *parsed, row_count as nat), e@),
        },
{
    let mask = match build_filter_mask(table, &parsed.where_expr, row_count) {
        Err(e) => {
            return Err(e);
        },
        Ok(c) => c,
    };
    let rows = covered_rows(table, &mask);
    let names = table.column_names();
    let (values, keys) = match scan_rows(table, parsed, &names, &rows) {
        Err(e) => {
            return Err(e);
        },
        Ok(p) => p,
    };
    let mut order: Vec<(usize, bool)> = Vec::new();
    let mut i: usize = 0;
    while i < parsed.order_by.len()
        invariant
            i <= parsed.order_by@.len(),
            order@.len() == i,
            forall|k: int|
                0 <= k < i ==> (#[trigger] order@[k]) == (k as usize, parsed.order_by@[k].1),
        decreases parsed.order_by@.len() - i,
    {
        order.push((i, parsed.order_by[i].1));
        i = i + 1;
    }
    assert(order@ =~= scan_order(*parsed));
    let columns = if parsed.select_all {
        names
    } else {
        headings(parsed)
    };
    Ok(
        Scan {
            columns,
            rows: values,
            keys,
            order,
            limit: parsed.limit,
            offset: parsed.offset,
        },
    )
}

/// Rows of texts as rows of values.
pub open spec fn shown_rows(rows: Seq<Seq<Seq<char>>>) -> Seq<Seq<CellView>> {
    Seq::new(rows.len(), |i: int| all_shown(rows[i]))
}

/// The numbers of the rows of a scan, in order.
pub open spec fn scan_numbers(s: ScanView, keys: Seq<Seq<crate::exec::sorting::KeyView>>) -> Seq<usize> {
    limited(
        if s.order.len() == 0 {
            all_numbers(s.rows.len())
        } else {
            all_numbers(s.rows.len()).sort_by(row_order(keys, s.order))
        },
        s.limit,
        s.offset,
    )
}

/// The rows of a scan in order, cut down to what the limit and the offset leave; the
/// keys are the texts that the rows are sorted by, with the numbers that they stand
/// for. Whatever the keys, the rows are distinct rows of those that there are; where
/// the keys are in a consistent order, the rows are in it.
pub fn finish_scan(s: &Scan, keys: &Vec<Vec<SortKey>>) -> (r: QueryResult)
    requires
        s.wf(),
        keys@.len() == s.rows@.len(),
        rectangular(keys@, s.order@.len()),
    ensures
        s.order@.len() > 0 ==> total_ordering(row_order(key_rows(keys@), s.order@)) ==> r@ == (
        ResultView {
            columns: s@.columns,
            rows: picked_rows(shown_rows(s@.rows), scan_numbers(s@, key_rows(keys@))),
        }),
        s.order@.len() == 0 ==> r@ == (ResultView {
            columns: s@.columns,
            rows: picked_rows(shown_rows(s@.rows), scan_numbers(s@, key_rows(keys@))),
        }),
        r@.columns == s@.columns,
        exists|numbers: Seq<usize>|
            {
                &&& r@.rows == #[trigger] picked_rows(shown_rows(s@.rows), numbers)
                &&& numbers.no_duplicates()
                &&& forall|i: int| 0 <= i < numbers.len() ==> numbers[i] < s.rows@.len()
                &&& numbers.len() == limited(all_numbers(s.rows@.len()), s.limit, s.offset).len()
            },
{
    let all = count_up(s.rows.len());
    let sorted = if s.order.len() == 0 {
        all
    } else {
        let v = sort_row_numbers(&all, keys, &s.order, s.order.len());
        proof {
            assert(all@.no_duplicates());
            crate::exec::sorting::lemma_distinct(all@, v@);
        }
        v
    };
    let numbers = apply_limit_offset(&sorted, s.limit, s.offset);
    let mut rows: Vec<Vec<Cell>> = Vec::new();
    let mut i: usize = 0;
    while i < numbers.len()
        invariant
            i <= numbers@.len(),
            forall|k: int| 0 <= k < numbers@.len() ==> (#[trigger] numbers@[k]) < s.rows@.len(),
            rows@.len() == i,
            forall|k: int|
                0 <= k < i ==> cells((#[trigger] rows@[k])@) == all_shown(
                    texts(s.rows@[numbers@[k] as int]@),
                ),
        decreases numbers@.len() - i,
    {
        assert(numbers@[i as int] < s.rows@.len());
        rows.push(show_texts(&s.rows[numbers[i]]));
        i = i + 1;
    }
    let r = QueryResult { columns: copy_texts(&s.columns), rows };
    assert(r@.rows =~= picked_rows(shown_rows(s@.rows), numbers@));
    r
}

} // verus!
