//! Accumulators of the aggregate functions.
use crate::error::{fails, outcome, yields, Error};
use crate::exec::hash::{
    int_members, int_set_insert, int_set_len, new_int_set, new_text_set, text_members,
    text_set_insert, text_set_len,
};
use crate::exec::having::{having_threshold, passes};
use crate::exec::mask_util::{lemma_selected, selected, selected_indices};
use crate::exec::result::{counted, number_cell, shown, text_cell, Cell, CellView};
use crate::expr::eval::{
    col_i64_at, col_int, col_utf8_at, column_of, eval_i64, eval_string, gives_text, int_of,
    is_text_value, text_of,
};
use crate::expr::time::{format_date_days, ymd_text, MAX_DAY, MIN_DAY};
use crate::sql::ast::{Expr, SelectItemKind};
use crate::sql::query::{column_name, column_ref};
use crate::storage::column::{ColumnData, ColumnView};
use crate::storage::table::Table;
use crate::text::{decimal, int_text, str_less, text_less};
use ahash::AHashSet;
use vstd::prelude::*;

verus! {

/// What an aggregate function has seen so far.
pub struct AggState {
    pub count_all: u64,
    pub sum: Option<i128>,
    pub avg_sum: Option<i128>,
    pub avg_count: u64,
    pub count_distinct: Option<AHashSet<String>>,
    pub count_distinct_i64: Option<AHashSet<i64>>,
    pub min_i64: Option<i64>,
    pub max_i64: Option<i64>,
    pub min_str: Option<String>,
    pub max_str: Option<String>,
}

/// What an aggregate function has seen so far.
pub struct AggView {
    pub count_all: nat,
    pub sum: Option<int>,
    pub avg_sum: Option<int>,
    pub avg_count: nat,
    pub count_distinct: Option<Set<Seq<char>>>,
    pub count_distinct_i64: Option<Set<i64>>,
    pub min_i64: Option<i64>,
    pub max_i64: Option<i64>,
    pub min_str: Option<Seq<char>>,
    pub max_str: Option<Seq<char>>,
}

/// A text that may be missing.
pub open spec fn maybe_text(s: Option<String>) -> Option<Seq<char>> {
    match s {
        Some(s) => Some(s@),
        None => None,
    }
}

/// A number that may be missing.
pub open spec fn maybe_int(v: Option<i128>) -> Option<int> {
    match v {
        Some(v) => Some(v as int),
        None => None,
    }
}

impl View for AggState {
    type V = AggView;

    open spec fn view(&self) -> AggView {
        AggView {
            count_all: self.count_all as nat,
            sum: maybe_int(self.sum),
            avg_sum: maybe_int(self.avg_sum),
            avg_count: self.avg_count as nat,
            count_distinct: match self.count_distinct {
                Some(s) => Some(text_members(s)),
                None => None,
            },
            count_distinct_i64: match self.count_distinct_i64 {
                Some(s) => Some(int_members(s)),
                None => None,
            },
            min_i64: self.min_i64,
            max_i64: self.max_i64,
            min_str: maybe_text(self.min_str),
            max_str: maybe_text(self.max_str),
        }
    }
}

/// Nothing seen.
pub open spec fn nothing_seen() -> AggView {
    AggView {
        count_all: 0,
        sum: None,
        avg_sum: None,
        avg_count: 0,
        count_distinct: None,
        count_distinct_i64: None,
        min_i64: None,
        max_i64: None,
        min_str: None,
        max_str: None,
    }
}

/// A number, or zero.
pub open spec fn or_zero(v: Option<int>) -> int {
    match v {
        Some(v) => v,
        None => 0,
    }
}

/// The smaller of a text and one that may be missing.
pub open spec fn lesser_text(a: Option<Seq<char>>, s: Seq<char>) -> Option<Seq<char>> {
    match a {
        Some(c) if !text_less(s, c) => Some(c),
        _ => Some(s),
    }
}

/// The larger of a text and one that may be missing.
pub open spec fn greater_text(a: Option<Seq<char>>, s: Seq<char>) -> Option<Seq<char>> {
    match a {
        Some(c) if !text_less(c, s) => Some(c),
        _ => Some(s),
    }
}

/// The smaller of a number and one that may be missing.
pub open spec fn lesser(a: Option<i64>, v: i64) -> Option<i64> {
    match a {
        Some(c) if c <= v => Some(c),
        _ => Some(v),
    }
}

/// The larger of a number and one that may be missing.
pub open spec fn greater(a: Option<i64>, v: i64) -> Option<i64> {
    match a {
        Some(c) if c >= v => Some(c),
        _ => Some(v),
    }
}

/// Members of a set that may be missing.
pub open spec fn members<T>(s: Option<Set<T>>) -> Set<T> {
    match s {
        Some(s) => s,
        None => Set::empty(),
    }
}

/// What tells values of an expression apart: a number, or a text.
pub enum Mark {
    Number(i64),
    Text(Seq<char>),
}

/// What tells the value of an expression on a row apart from others: the number
/// of a column of numbers, the text of a column of texts, and the digits of any
/// other expression.
pub open spec fn mark_of(t: Table, e: Expr, row: int) -> Result<Mark, Seq<char>> {
    match column_name(e) {
        Some(name) => match column_of(t, name) {
            Err(m) => Err(m),
            Ok(c) => match c {
                ColumnView::Utf8(v) => Ok(Mark::Text(v[row])),
                _ => Ok(Mark::Number(col_int(c, row))),
            },
        },
        None => match int_of(t, e, row) {
            Err(m) => Err(m),
            Ok(v) => Ok(Mark::Text(decimal(v as int))),
        },
    }
}

/// An accumulator after one more row.
pub open spec fn updated(a: AggView, t: Table, item: SelectItemKind, row: int) -> Result<
    AggView,
    Seq<char>,
> {
    match item {
        SelectItemKind::CountAll => Ok(AggView { count_all: a.count_all + 1, ..a }),
        SelectItemKind::Count(_) => Ok(AggView { count_all: a.count_all + 1, ..a }),
        SelectItemKind::Sum(e) => match int_of(t, e, row) {
            Err(m) => Err(m),
            Ok(v) => Ok(AggView { sum: Some(or_zero(a.sum) + v), ..a }),
        },
        SelectItemKind::Avg(e) => match int_of(t, e, row) {
            Err(m) => Err(m),
            Ok(v) => Ok(
                AggView { avg_sum: Some(or_zero(a.avg_sum) + v), avg_count: a.avg_count + 1, ..a },
            ),
        },
        SelectItemKind::CountDistinct(e) => match mark_of(t, e, row) {
            Err(m) => Err(m),
            Ok(Mark::Number(v)) => Ok(
                AggView { count_distinct_i64: Some(members(a.count_distinct_i64).insert(v)), ..a },
            ),
            Ok(Mark::Text(s)) => Ok(
                AggView { count_distinct: Some(members(a.count_distinct).insert(s)), ..a },
            ),
        },
        SelectItemKind::Min(e) => match text_of(t, e, row) {
            Ok(s) if gives_text(t, e, row) => Ok(
                AggView { min_str: lesser_text(a.min_str, s), ..a },
            ),
            _ => match int_of(t, e, row) {
                Err(m) => Err(m),
                Ok(v) => Ok(AggView { min_i64: lesser(a.min_i64, v), ..a }),
            },
        },
        SelectItemKind::Max(e) => match text_of(t, e, row) {
            Ok(s) if gives_text(t, e, row) => Ok(
                AggView { max_str: greater_text(a.max_str, s), ..a },
            ),
            _ => match int_of(t, e, row) {
                Err(m) => Err(m),
                Ok(v) => Ok(AggView { max_i64: greater(a.max_i64, v), ..a }),
            },
        },
        SelectItemKind::Column(_) => Ok(a),
        SelectItemKind::Other(_) => Ok(a),
    }
}

/// Whether an accumulator has seen at most so many rows.
pub open spec fn within(a: AggView, n: nat) -> bool {
    &&& a.count_all <= n
    &&& a.avg_count <= n
    &&& -0x8000_0000_0000_0000 * n <= or_zero(a.sum) <= 0x8000_0000_0000_0000 * n
    &&& -0x8000_0000_0000_0000 * n <= or_zero(a.avg_sum) <= 0x8000_0000_0000_0000 * n
}

/// One more row is one more row.
pub proof fn lemma_within(a: AggView, t: Table, item: SelectItemKind, row: int, n: nat)
    requires
        within(a, n),
    ensures
        updated(a, t, item, row) matches Ok(b) ==> within(b, n + 1),
{
}

/// A date in the column that an expression names.
pub open spec fn is_date_column(t: Option<Table>, e: Expr) -> bool {
    match (t, column_name(e)) {
        (Some(t), Some(name)) => match column_of(t, name) {
            Ok(c) => c is Date,
            Err(_) => false,
        },
        _ => false,
    }
}

/// An extreme value as it is shown.
pub open spec fn extreme(
    text: Option<Seq<char>>,
    number: Option<i64>,
    e: Expr,
    t: Option<Table>,
) -> Result<CellView, Seq<char>> {
    match text {
        Some(s) => Ok(shown(s)),
        None => {
            let v = match number {
                Some(v) => v,
                None => 0,
            };
            if is_date_column(t, e) {
                if MIN_DAY <= (v as i32) <= MAX_DAY {
                    Ok(shown(ymd_text(v as i32)))
                } else {
                    Err("date out of range"@)
                }
            } else {
                Ok(counted(v as int))
            }
        },
    }
}

/// A text, or nothing.
pub open spec fn or_empty(s: Option<&str>) -> Seq<char> {
    match s {
        Some(s) => s@,
        None => Seq::empty(),
    }
}

/// The value of an aggregate function, with its short name.
pub open spec fn finished(
    a: AggView,
    item: SelectItemKind,
    key: Seq<char>,
    t: Option<Table>,
) -> Result<(Seq<char>, CellView), Seq<char>> {
    match item {
        SelectItemKind::Column(_) => Ok(("col"@, shown(key))),
        SelectItemKind::Other(_) => Ok(("col"@, shown(key))),
        SelectItemKind::CountAll => Ok(("count()"@, counted(a.count_all as int))),
        SelectItemKind::Count(_) => Ok(("count()"@, counted(a.count_all as int))),
        SelectItemKind::Sum(_) => Ok(("sum"@, counted(or_zero(a.sum)))),
        SelectItemKind::Avg(_) => Ok(
            (
                "avg"@,
                CellView::Ratio {
                    sum: or_zero(a.avg_sum),
                    count: if a.avg_count == 0 {
                        1
                    } else {
                        a.avg_count
                    },
                },
            ),
        ),
        SelectItemKind::CountDistinct(_) => Ok(
            (
                "count(distinct)"@,
                counted(
                    match (a.count_distinct_i64, a.count_distinct) {
                        (Some(s), _) => s.len() as int,
                        (None, Some(s)) => s.len() as int,
                        (None, None) => 0,
                    },
                ),
            ),
        ),
        SelectItemKind::Min(e) => match extreme(a.min_str, a.min_i64, e, t) {
            Err(m) => Err(m),
            Ok(c) => Ok(("min"@, c)),
        },
        SelectItemKind::Max(e) => match extreme(a.max_str, a.max_i64, e, t) {
            Err(m) => Err(m),
            Ok(c) => Ok(("max"@, c)),
        },
    }
}

/// A table that may be missing.
pub open spec fn maybe_table(t: Option<&Table>) -> Option<Table> {
    match t {
        Some(t) => Some(*t),
        None => None,
    }
}

impl AggState {
    /// An accumulator that has seen nothing.
    pub fn new() -> (a: Self)
        ensures
            a@ == nothing_seen(),
    {
        AggState {
            count_all: 0,
            sum: None,
            avg_sum: None,
            avg_count: 0,
            count_distinct: None,
            count_distinct_i64: None,
            min_i64: None,
            max_i64: None,
            min_str: None,
            max_str: None,
        }
    }

    /// Whether one more row can be counted and summed.
    pub open spec fn fits(&self) -> bool {
        &&& self.count_all < u64::MAX
        &&& self.avg_count < u64::MAX
        &&& i128::MIN + 0x8000_0000_0000_0000 <= or_zero(self@.sum) <= i128::MAX
            - 0x8000_0000_0000_0000
        &&& i128::MIN + 0x8000_0000_0000_0000 <= or_zero(self@.avg_sum) <= i128::MAX
            - 0x8000_0000_0000_0000
    }

    /// Takes one more row in.
    pub fn update(&mut self, table: &Table, item: &SelectItemKind, row: usize) -> (r: Result<
        (),
        Error,
    >)
        requires
            old(self).fits(),
            table.wf(),
            table.covers_row(row as int),
        ensures
            match r {
                Ok(_) => yields(updated(old(self)@, *table, *item, row as int), final(self)@),
                Err(e) => fails(updated(old(self)@, *table, *item, row as int), e@)
                    && *final(self) == *old(self),
            },
    {
        match item {
            SelectItemKind::CountAll => {
                self.count_all = self.count_all + 1;
            },
            SelectItemKind::Count(_) => {
                self.count_all = self.count_all + 1;
            },
            SelectItemKind::Sum(expr) => match eval_i64(table, expr, row) {
                Err(e) => {
                    return Err(e);
                },
                Ok(v) => {
                    let base: i128 = match self.sum {
                        Some(s) => s,
                        None => 0,
                    };
                    self.sum = Some(base + v as i128);
                },
            },
            SelectItemKind::Avg(expr) => match eval_i64(table, expr, row) {
                Err(e) => {
                    return Err(e);
                },
                Ok(v) => {
                    let base: i128 = match self.avg_sum {
                        Some(s) => s,
                        None => 0,
                    };
                    self.avg_sum = Some(base + v as i128);
                    self.avg_count = self.avg_count + 1;
                },
            },
            SelectItemKind::CountDistinct(expr) => {
                if let Some(name) = column_ref(expr) {
                    match table.column(name) {
                        Err(e) => {
                            return Err(e);
                        },
                        Ok(col) => {
                            proof {
                                table.lemma_covers(name@, row as int);
                            }
                            if let ColumnData::Utf8(_) = col {
                                let key = String::from_str(col_utf8_at(col, row));
                                self.note_text(key);
                            } else {
                                let v: i64 = col_i64_at(col, row);
                                self.note_int(v);
                            }
                        },
                    }
                } else {
                    match eval_i64(table, expr, row) {
                        Err(e) => {
                            return Err(e);
                        },
                        Ok(v) => {
                            self.note_text(int_text(v as i128));
                        },
                    }
                }
            },
            SelectItemKind::Min(expr) => match text_value(table, expr, row) {
                Some(s) => {
                    let keep = match &self.min_str {
                        Some(c) => !str_less(s.as_str(), c.as_str()),
                        None => false,
                    };
                    if !keep {
                        self.min_str = Some(s);
                    }
                },
                None => match eval_i64(table, expr, row) {
                    Err(e) => {
                        return Err(e);
                    },
                    Ok(v) => {
                        let keep = match self.min_i64 {
                            Some(c) => c <= v,
                            None => false,
                        };
                        if !keep {
                            self.min_i64 = Some(v);
                        }
                    },
                },
            },
            SelectItemKind::Max(expr) => match text_value(table, expr, row) {
                Some(s) => {
                    let keep = match &self.max_str {
                        Some(c) => !str_less(c.as_str(), s.as_str()),
                        None => false,
                    };
                    if !keep {
                        self.max_str = Some(s);
                    }
                },
                None => match eval_i64(table, expr, row) {
                    Err(e) => {
                        return Err(e);
                    },
                    Ok(v) => {
                        let keep = match self.max_i64 {
                            Some(c) => c >= v,
                            None => false,
                        };
                        if !keep {
                            self.max_i64 = Some(v);
                        }
                    },
                },
            },
            SelectItemKind::Column(_) => {},
            SelectItemKind::Other(_) => {},
        }
        Ok(())
    }

    /// Notes a number that was seen.
    fn note_int(&mut self, v: i64)
        ensures
            final(self)@ == (AggView {
                count_distinct_i64: Some(members(old(self)@.count_distinct_i64).insert(v)),
                ..old(self)@
            }),
    {
        let mut set = match self.count_distinct_i64.take() {
            Some(s) => s,
            None => new_int_set(),
        };
        int_set_insert(&mut set, v);
        self.count_distinct_i64 = Some(set);
    }

    /// Notes a text that was seen.
    fn note_text(&mut self, s: String)
        ensures
            final(self)@ == (AggView {
                count_distinct: Some(members(old(self)@.count_distinct).insert(s@)),
                ..old(self)@
            }),
    {
        let mut set = match self.count_distinct.take() {
            Some(s) => s,
            None => new_text_set(),
        };
        text_set_insert(&mut set, s);
        self.count_distinct = Some(set);
    }

    /// The value of the aggregate function, with its short name.
    pub fn finish(&self, item: &SelectItemKind, key_value: Option<&str>, table: Option<&Table>) -> (r:
        Result<(String, Cell), Error>)
        requires
            or_zero(self@.sum) > i128::MIN,
            table matches Some(t) ==> t.wf(),
        ensures
            match r {
                Ok((n, c)) => yields(
                    finished(self@, *item, or_empty(key_value), maybe_table(table)),
                    (n@, c@),
                ),
                Err(e) => fails(
                    finished(self@, *item, or_empty(key_value), maybe_table(table)),
                    e@,
                ),
            },
    {
        match item {
            SelectItemKind::Column(_) | SelectItemKind::Other(_) => {
                let s = match key_value {
                    Some(s) => text_cell(s),
                    None => {
                        proof {
                            reveal_strlit("");
                            assert(""@ =~= Seq::<char>::empty());
                        }
                        text_cell("")
                    },
                };
                Ok((String::from_str("col"), s))
            },
            SelectItemKind::CountAll | SelectItemKind::Count(_) => Ok(
                (String::from_str("count()"), number_cell(self.count_all as i128)),
            ),
            SelectItemKind::Sum(_) => {
                let v: i128 = match self.sum {
                    Some(s) => s,
                    None => 0,
                };
                Ok((String::from_str("sum"), number_cell(v)))
            },
            SelectItemKind::Avg(_) => {
                let v: i128 = match self.avg_sum {
                    Some(s) => s,
                    None => 0,
                };
                let n: u64 = if self.avg_count == 0 {
                    1
                } else {
                    self.avg_count
                };
                Ok((String::from_str("avg"), Cell::Ratio { sum: v, count: n }))
            },
            SelectItemKind::CountDistinct(_) => {
                let n: usize = match &self.count_distinct_i64 {
                    Some(s) => int_set_len(s),
                    None => match &self.count_distinct {
                        Some(s) => text_set_len(s),
                        None => 0,
                    },
                };
                Ok((String::from_str("count(distinct)"), number_cell(n as i128)))
            },
            SelectItemKind::Min(expr) => match show_extreme(
                &self.min_str,
                self.min_i64,
                expr,
                table,
            ) {
                Err(e) => Err(e),
                Ok(c) => Ok((String::from_str("min"), c)),
            },
            SelectItemKind::Max(expr) => match show_extreme(
                &self.max_str,
                self.max_i64,
                expr,
                table,
            ) {
                Err(e) => Err(e),
                Ok(c) => Ok((String::from_str("max"), c)),
            },
        }
    }

    /// Whether the group meets the condition `COUNT(..) > N`; other conditions are
    /// met by every group.
    pub fn passes_having(&self, expr: &Expr) -> (r: Result<bool, Error>)
        ensures
            yields(outcome(r), passes(*expr, self@.count_all)),
    {
        match having_threshold(expr) {
            Some(n) => Ok(self.count_all > n),
            None => Ok(true),
        }
    }
}

/// The text that an expression comes to on a row, if it comes to one.
fn text_value(table: &Table, expr: &Expr, row: usize) -> (r: Option<String>)
    requires
        table.wf(),
        table.covers_row(row as int),
    ensures
        match (r, text_of(*table, *expr, row as int)) {
            (Some(s), Ok(v)) => gives_text(*table, *expr, row as int) && s@ == v,
            (Some(_), Err(_)) => false,
            (None, Ok(_)) => !gives_text(*table, *expr, row as int),
            (None, Err(_)) => true,
        },
{
    if !is_text_value(table, expr, row) {
        return None;
    }
    match eval_string(table, expr, row) {
        Ok(s) => Some(s),
        Err(_) => None,
    }
}

/// Whether an expression names a column of dates.
fn names_dates(table: Option<&Table>, expr: &Expr) -> (r: bool)
    requires
        table matches Some(t) ==> t.wf(),
    ensures
        r == is_date_column(maybe_table(table), *expr),
{
    match table {
        None => false,
        Some(t) => match column_ref(expr) {
            None => false,
            Some(name) => match t.column(name) {
                Ok(c) => match c {
                    ColumnData::Date(_) => true,
                    _ => false,
                },
                Err(_) => false,
            },
        },
    }
}

/// An extreme value as it is shown.
fn show_extreme(
    text: &Option<String>,
    number: Option<i64>,
    expr: &Expr,
    table: Option<&Table>,
) -> (r: Result<Cell, Error>)
    requires
        table matches Some(t) ==> t.wf(),
    ensures
        match r {
            Ok(c) => yields(extreme(maybe_text(*text), number, *expr, maybe_table(table)), c@),
            Err(e) => fails(extreme(maybe_text(*text), number, *expr, maybe_table(table)), e@),
        },
{
    if let Some(s) = text {
        return Ok(text_cell(s.as_str()));
    }
    let v: i64 = match number {
        Some(v) => v,
        None => 0,
    };
    if names_dates(table, expr) {
        let day: i32 = v as i32;
        if MIN_DAY <= day && day <= MAX_DAY {
            Ok(Cell::Text(format_date_days(day)))
        } else {
            Err(Error::msg("date out of range"))
        }
    } else {
        Ok(number_cell(v as i128))
    }
}

/// An accumulator after several rows.
pub open spec fn accumulated(t: Table, item: SelectItemKind, rows: Seq<usize>) -> Result<
    AggView,
    Seq<char>,
>
    decreases rows.len(),
{
    if rows.len() == 0 {
        Ok(nothing_seen())
    } else {
        match accumulated(t, item, rows.drop_last()) {
            Err(m) => Err(m),
            Ok(a) => updated(a, t, item, rows.last() as int),
        }
    }
}

proof fn lemma_accumulated_fault(t: Table, item: SelectItemKind, rows: Seq<usize>, i: int)
    requires
        0 <= i <= rows.len(),
        accumulated(t, item, rows.take(i)) is Err,
    ensures
        accumulated(t, item, rows) == accumulated(t, item, rows.take(i)),
    decreases rows.len() - i,
{
    if i == rows.len() {
        assert(rows.take(i) =~= rows);
    } else {
        assert(rows.take(i + 1).drop_last() =~= rows.take(i));
        lemma_accumulated_fault(t, item, rows, i + 1);
    }
}

/// The value of an aggregate function over the rows that a mask selects.
pub open spec fn global_value(t: Table, item: SelectItemKind, mask: Seq<bool>) -> Result<
    (Seq<char>, CellView),
    Seq<char>,
> {
    match accumulated(t, item, selected(mask)) {
        Err(m) => Err(m),
        Ok(a) => finished(a, item, Seq::empty(), Some(t)),
    }
}

/// The value of an aggregate function over the rows that a mask selects, with its
/// short name.
pub fn eval_global_select(table: &Table, item: &SelectItemKind, mask: &[bool]) -> (r: Result<
    (String, Cell),
    Error,
>)
    requires
        table.wf(),
        table.holds_rows(mask@.len() as int),
    ensures
        match r {
            Ok((n, c)) => yields(global_value(*table, *item, mask@), (n@, c@)),
            Err(e) => fails(global_value(*table, *item, mask@), e@),
        },
{
    let total: usize = mask.len();
    let rows = selected_indices(mask);
    let n: usize = rows.len();
    proof {
        assert(total == mask@.len());
        lemma_selected(mask@);
        assert(rows@.take(0) =~= Seq::<usize>::empty());
    }
    let mut state = AggState::new();
    let mut i: usize = 0;
    while i < n
        invariant
            i <= n == rows@.len(),
            rows@ == selected(mask@),
            table.wf(),
            table.holds_rows(mask@.len() as int),
            forall|k: int| 0 <= k < rows@.len() ==> #[trigger] rows@[k] < mask@.len(),
            yields(accumulated(*table, *item, rows@.take(i as int)), state@),
            within(state@, i as nat),
        decreases n - i,
    {
        assert(rows@.take(i + 1).drop_last() =~= rows@.take(i as int));
        assert(table.covers_row(rows@[i as int] as int));
        proof {
            lemma_within(state@, *table, *item, rows@[i as int] as int, i as nat);
        }
        match state.update(table, item, rows[i]) {
            Err(e) => {
                proof {
                    lemma_accumulated_fault(*table, *item, rows@, i + 1);
                }
                return Err(e);
            },
            Ok(_) => {},
        }
        i = i + 1;
    }
    assert(rows@.take(i as int) =~= rows@);
    state.finish(item, None, Some(table))
}

} // verus!
