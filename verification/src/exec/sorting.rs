//! The order of result rows.
//!
//! Values that read as numbers are compared as numbers and others as texts. What
//! number a text stands for is found by the caller, who hands over for each value
//! its text and a rank that orders numbers.
use crate::exec::agg_heap::{lemma_members, window};
use crate::exec::order::sort_numbers;
use crate::exec::result::{cell_rows, cells, headings, labels, Cell, CellView, QueryResult, ResultView};
use crate::sql::ast::{Expr, ParsedQuery, SelectItemKind, SelectProjection};
use crate::sql::query::{column_name, column_ref};
use crate::text::{str_eq, str_less, text_less, texts, to_uppercase, uppercased};
use vstd::prelude::*;
use vstd::relations::total_ordering;

verus! {

/// The number that a text stands for.
#[derive(Clone, Copy)]
pub enum Number {
    /// The text is not a number.
    Absent,
    /// A number with this rank among all numbers.
    Ranked(i64),
    /// A number that is in no order with any other.
    Unordered,
}

/// What a value is compared by.
pub struct SortKey {
    pub text: String,
    pub number: Number,
}

/// What a value is compared by.
pub struct KeyView {
    pub text: Seq<char>,
    pub number: Number,
}

impl View for SortKey {
    type V = KeyView;

    open spec fn view(&self) -> KeyView {
        KeyView { text: self.text@, number: self.number }
    }
}

/// The keys of each of several rows.
pub open spec fn key_rows(keys: Seq<Vec<SortKey>>) -> Seq<Seq<KeyView>> {
    Seq::new(keys.len(), |i: int| row_keys(keys[i]@))
}

/// The keys of a row.
pub open spec fn row_keys(keys: Seq<SortKey>) -> Seq<KeyView> {
    Seq::new(keys.len(), |i: int| keys[i]@)
}

/// Whether a value comes before another: as a number, if both are numbers, else as
/// a text.
pub open spec fn key_less(a: KeyView, b: KeyView) -> bool {
    match (a.number, b.number) {
        (Number::Ranked(x), Number::Ranked(y)) => x < y,
        (Number::Absent, _) => text_less(a.text, b.text),
        (_, Number::Absent) => text_less(a.text, b.text),
        _ => false,
    }
}

/// Whether a value comes before another.
pub fn compare_cell(a: &SortKey, b: &SortKey) -> (r: bool)
    ensures
        r == key_less(a@, b@),
{
    match (a.number, b.number) {
        (Number::Ranked(x), Number::Ranked(y)) => x < y,
        (Number::Absent, _) => str_less(a.text.as_str(), b.text.as_str()),
        (_, Number::Absent) => str_less(a.text.as_str(), b.text.as_str()),
        _ => false,
    }
}

/// Whether a row comes before another: by the first column of the order in which
/// they differ.
pub open spec fn row_less(a: Seq<KeyView>, b: Seq<KeyView>, order: Seq<(usize, bool)>) -> bool
    decreases order.len(),
{
    if order.len() == 0 {
        false
    } else {
        let c = order[0].0 as int;
        let (x, y) = if order[0].1 {
            (b[c], a[c])
        } else {
            (a[c], b[c])
        };
        if key_less(x, y) {
            true
        } else if key_less(y, x) {
            false
        } else {
            row_less(a, b, order.skip(1))
        }
    }
}

/// The order of rows: by the columns of the order, and otherwise as they stood.
pub open spec fn row_order(keys: Seq<Seq<KeyView>>, order: Seq<(usize, bool)>) -> spec_fn(
    usize,
    usize,
) -> bool {
    |a: usize, b: usize|
        if a < keys.len() && b < keys.len() {
            row_less(keys[a as int], keys[b as int], order) || (!row_less(
                keys[b as int],
                keys[a as int],
                order,
            ) && a <= b)
        } else {
            a <= b
        }
}

/// Whether the keys of a column are all numbers or all other texts.
pub open spec fn uniform(keys: Seq<Seq<KeyView>>, c: int) -> bool {
    ||| forall|r: int| 0 <= r < keys.len() ==> (#[trigger] keys[r])[c].number is Ranked
    ||| forall|r: int| 0 <= r < keys.len() ==> (#[trigger] keys[r])[c].number is Absent
}

/// Keys that are all numbers or all other texts rank rows.
proof fn lemma_row_less(
    keys: Seq<Seq<KeyView>>,
    order: Seq<(usize, bool)>,
    a: int,
    b: int,
    c: int,
)
    requires
        0 <= a < keys.len(),
        0 <= b < keys.len(),
        0 <= c < keys.len(),
        forall|i: int| 0 <= i < order.len() ==> uniform(keys, (#[trigger] order[i]).0 as int),
    ensures
        row_less(keys[a], keys[b], order) ==> !row_less(keys[b], keys[a], order),
        row_less(keys[a], keys[c], order) ==> row_less(keys[a], keys[b], order) || row_less(
            keys[b],
            keys[c],
            order,
        ),
    decreases order.len(),
{
    if order.len() > 0 {
        let k = order[0].0 as int;
        assert(uniform(keys, order[0].0 as int));
        let rest = order.skip(1);
        assert forall|i: int| 0 <= i < rest.len() implies uniform(
            keys,
            (#[trigger] rest[i]).0 as int,
        ) by {
            assert(rest[i] == order[i + 1]);
        }
        lemma_row_less(keys, rest, a, b, c);
        let (x, y, z) = (keys[a][k], keys[b][k], keys[c][k]);
        crate::exec::agg_topk::lemma_text_order(x.text, y.text, z.text);
        crate::exec::agg_topk::lemma_text_order(z.text, y.text, x.text);
        crate::exec::agg_topk::lemma_text_order(y.text, x.text, z.text);
        crate::exec::agg_topk::lemma_text_order(x.text, z.text, y.text);
        crate::exec::agg_topk::lemma_text_order(y.text, z.text, x.text);
        crate::exec::agg_topk::lemma_text_order(z.text, x.text, y.text);
    }
}

/// Rows whose keys are, column by column, all numbers or all other texts are in a
/// consistent order.
pub proof fn law_uniform_keys_order(keys: Seq<Seq<KeyView>>, order: Seq<(usize, bool)>)
    requires
        forall|i: int| 0 <= i < order.len() ==> uniform(keys, (#[trigger] order[i]).0 as int),
    ensures
        total_ordering(row_order(keys, order)),
{
    let leq = row_order(keys, order);
    assert forall|a: usize, b: usize| #[trigger] leq(a, b) || #[trigger] leq(b, a) by {
        if a < keys.len() && b < keys.len() {
            lemma_row_less(keys, order, a as int, b as int, a as int);
        }
    }
    assert forall|a: usize| #[trigger] leq(a, a) by {
        if a < keys.len() {
            lemma_row_less(keys, order, a as int, a as int, a as int);
        }
    }
    assert forall|a: usize, b: usize| #[trigger] leq(a, b) && #[trigger] leq(b, a) implies a == b by {
        if a < keys.len() && b < keys.len() {
            lemma_row_less(keys, order, a as int, b as int, a as int);
        }
    }
    assert forall|a: usize, b: usize, c: usize| #[trigger] leq(a, b) && #[trigger] leq(
        b,
        c,
    ) implies leq(a, c) by {
        if a < keys.len() && b < keys.len() && c < keys.len() {
            lemma_row_less(keys, order, a as int, b as int, c as int);
            lemma_row_less(keys, order, c as int, b as int, a as int);
            lemma_row_less(keys, order, b as int, a as int, c as int);
            lemma_row_less(keys, order, b as int, c as int, a as int);
            lemma_row_less(keys, order, a as int, c as int, b as int);
            lemma_row_less(keys, order, c as int, a as int, b as int);
        }
    }
}

/// Whether a row comes before another.
fn rows_less(a: &Vec<SortKey>, b: &Vec<SortKey>, order: &Vec<(usize, bool)>, width: usize) -> (r: bool)
    requires
        a@.len() == width,
        b@.len() == width,
        forall|i: int| 0 <= i < order@.len() ==> (#[trigger] order@[i]).0 < width,
    ensures
        r == row_less(row_keys(a@), row_keys(b@), order@),
{
    let mut i: usize = 0;
    assert(order@.skip(0) =~= order@);
    while i < order.len()
        invariant
            i <= order@.len(),
            a@.len() == width,
            b@.len() == width,
            forall|i: int| 0 <= i < order@.len() ==> (#[trigger] order@[i]).0 < width,
            row_less(row_keys(a@), row_keys(b@), order@) == row_less(
                row_keys(a@),
                row_keys(b@),
                order@.skip(i as int),
            ),
        decreases order@.len() - i,
    {
        let c: usize = order[i].0;
        let desc = order[i].1;
        proof {
            assert(order@[i as int].0 < width);
            let rest = order@.skip(i as int);
            assert(rest[0] == order@[i as int]);
            assert(rest.skip(1) =~= order@.skip(i + 1));
        }
        let (x, y) = if desc {
            (&b[c], &a[c])
        } else {
            (&a[c], &b[c])
        };
        if compare_cell(x, y) {
            return true;
        }
        if compare_cell(y, x) {
            return false;
        }
        i = i + 1;
    }
    false
}

/// Whether every row has a key for each of so many columns.
pub open spec fn rectangular(keys: Seq<Vec<SortKey>>, width: nat) -> bool {
    forall|i: int| 0 <= i < keys.len() ==> (#[trigger] keys[i])@.len() == width
}

/// Sorts row numbers. Whatever the keys, the same rows come out; where the keys
/// are in a consistent order, the rows come out in it.
pub fn sort_row_numbers(
    numbers: &Vec<usize>,
    keys: &Vec<Vec<SortKey>>,
    order: &Vec<(usize, bool)>,
    width: usize,
) -> (out: Vec<usize>)
    requires
        rectangular(keys@, width as nat),
        forall|i: int| 0 <= i < order@.len() ==> (#[trigger] order@[i]).0 < width,
        forall|i: int| 0 <= i < numbers@.len() ==> #[trigger] numbers@[i] < keys@.len(),
    ensures
        out@.to_multiset() == numbers@.to_multiset(),
        out@.len() == numbers@.len(),
        forall|i: int| 0 <= i < out@.len() ==> #[trigger] out@[i] < keys@.len(),
        total_ordering(row_order(key_rows(keys@), order@)) ==> out@ == numbers@.sort_by(
            row_order(key_rows(keys@), order@),
        ),
{
    let ghost leq = row_order(key_rows(keys@), order@);
    let n: usize = keys.len();
    let compare = |a: usize, b: usize| -> (r: bool)
        requires
            n > a,
            n > b,
        ensures
            r == leq(a, b),
    {
        assert(keys@[a as int]@.len() == width);
        assert(keys@[b as int]@.len() == width);
        rows_less(&keys[a], &keys[b], order, width) || (!rows_less(
            &keys[b],
            &keys[a],
            order,
            width,
        ) && a <= b)
    };
    proof {
        assert forall|x: usize, y: usize|
            numbers@.contains(x) && numbers@.contains(y) implies #[trigger] compare.requires(
            (x, y),
        ) by {
            let i = choose|i: int| 0 <= i < numbers@.len() && numbers@[i] == x;
            let j = choose|j: int| 0 <= j < numbers@.len() && numbers@[j] == y;
            assert(numbers@[i] < n && numbers@[j] < n);
        }
    }
    let out = sort_numbers(numbers, compare, Ghost(leq));
    proof {
        lemma_members(numbers@, out@, n);
    }
    out
}

/// The place of the first name in a list that is the given one.
pub open spec fn position(names: Seq<Seq<char>>, name: Seq<char>) -> Option<usize>
    decreases names.len(),
{
    if names.len() == 0 {
        None
    } else {
        match position(names.drop_last(), name) {
            Some(i) => Some(i),
            None => if names.last() == name {
                Some((names.len() - 1) as usize)
            } else {
                None
            },
        }
    }
}

/// A place is in the list.
pub proof fn lemma_position(names: Seq<Seq<char>>, name: Seq<char>)
    requires
        names.len() <= usize::MAX,
    ensures
        position(names, name) matches Some(i) ==> i < names.len() && names[i as int] == name,
    decreases names.len(),
{
    if names.len() > 0 {
        lemma_position(names.drop_last(), name);
    }
}

/// The place of the first name in a list that is the given one.
pub fn find_position(names: &Vec<String>, name: &str) -> (r: Option<usize>)
    ensures
        r == position(texts(names@), name@),
        r matches Some(i) ==> i < names@.len(),
{
    let mut found: Option<usize> = None;
    let ghost all = texts(names@);
    let mut i: usize = 0;
    assert(all.take(0) =~= Seq::<Seq<char>>::empty());
    while i < names.len()
        invariant
            i <= names@.len(),
            all == texts(names@),
            found == position(all.take(i as int), name@),
            found matches Some(k) ==> k < i,
        decreases names@.len() - i,
    {
        assert(all.take(i + 1).drop_last() =~= all.take(i as int));
        if found.is_none() && str_eq(names[i].as_str(), name) {
            found = Some(i);
        }
        i = i + 1;
    }
    assert(all.take(i as int) =~= all);
    found
}

/// The aliases of projections; one without has none.
pub open spec fn has_alias(p: SelectProjection, name: Seq<char>) -> bool {
    match p.alias {
        Some(a) => a@ == name,
        None => false,
    }
}

/// The first projection with an alias.
pub open spec fn alias_position(items: Seq<SelectProjection>, name: Seq<char>) -> Option<usize>
    decreases items.len(),
{
    if items.len() == 0 {
        None
    } else {
        match alias_position(items.drop_last(), name) {
            Some(i) => Some(i),
            None => if has_alias(items.last(), name) {
                Some((items.len() - 1) as usize)
            } else {
                None
            },
        }
    }
}

/// Whether a projection has an alias.
pub fn alias_is(p: &SelectProjection, name: &str) -> (r: bool)
    ensures
        r == has_alias(*p, name@),
{
    match &p.alias {
        Some(a) => str_eq(a.as_str(), name),
        None => false,
    }
}

/// The first projection with an alias.
pub fn find_alias(items: &Vec<SelectProjection>, name: &str) -> (r: Option<usize>)
    ensures
        r == alias_position(items@, name@),
        r matches Some(i) ==> i < items@.len() && has_alias(items@[i as int], name@),
{
    let mut found: Option<usize> = None;
    let mut i: usize = 0;
    assert(items@.take(0) =~= Seq::<SelectProjection>::empty());
    while i < items.len()
        invariant
            i <= items@.len(),
            found == alias_position(items@.take(i as int), name@),
            found matches Some(k) ==> k < i && has_alias(items@[k as int], name@),
        decreases items@.len() - i,
    {
        assert(items@.take(i + 1).drop_last() =~= items@.take(i as int));
        if found.is_none() && alias_is(&items[i], name) {
            found = Some(i);
        }
        i = i + 1;
    }
    assert(items@.take(i as int) =~= items@);
    found
}

/// The name of the function that an expression calls, in upper case.
pub open spec fn called(e: Expr) -> Option<Seq<char>> {
    match e {
        Expr::Function(f) => Some(uppercased(f.name@)),
        _ => None,
    }
}

/// The name of the function that an expression calls, in upper case.
pub fn called_function(e: &Expr) -> (r: Option<String>)
    ensures
        match r {
            Some(s) => called(*e) == Some(s@),
            None => called(*e) is None,
        },
{
    match e {
        Expr::Function(f) => Some(to_uppercase(f.name.as_str())),
        _ => None,
    }
}

/// The column that an order expression stands for.
pub open spec fn order_column(
    e: Expr,
    columns: Seq<Seq<char>>,
    items: Seq<SelectProjection>,
) -> Option<usize> {
    let named = match e {
        Expr::Identifier(s) => position(columns, s@),
        _ => None,
    };
    let counts = if called(e) == Some("COUNT"@) {
        position(columns, "count()"@)
    } else {
        None
    };
    let trunc = if called(e) == Some("DATE_TRUNC"@) {
        position(columns, "M"@)
    } else {
        None
    };
    let column = match column_name(e) {
        Some(n) => position(columns, n),
        None => None,
    };
    let alias = match e {
        Expr::Identifier(s) => alias_position(items, s@),
        _ => None,
    };
    if named is Some {
        named
    } else if counts is Some {
        counts
    } else if trunc is Some {
        trunc
    } else if column is Some {
        column
    } else {
        alias
    }
}

/// The column that an order expression stands for.
pub fn resolve_order_column(
    expr: &Expr,
    columns: &Vec<String>,
    projections: &Vec<SelectProjection>,
) -> (r: Option<usize>)
    requires
        columns@.len() == projections@.len(),
    ensures
        r == order_column(*expr, texts(columns@), projections@),
        r matches Some(i) ==> i < columns@.len(),
{
    if let Expr::Identifier(s) = expr {
        let p = find_position(columns, s.as_str());
        if p.is_some() {
            return p;
        }
    }
    if let Some(f) = called_function(expr) {
        if str_eq(f.as_str(), "COUNT") {
            let p = find_position(columns, "count()");
            if p.is_some() {
                return p;
            }
        }
        if str_eq(f.as_str(), "DATE_TRUNC") {
            let p = find_position(columns, "M");
            if p.is_some() {
                return p;
            }
        }
    }
    if let Some(n) = column_ref(expr) {
        let p = find_position(columns, n);
        if p.is_some() {
            return p;
        }
    }
    if let Expr::Identifier(s) = expr {
        return find_alias(projections, s.as_str());
    }
    None
}

/// Whether a projection counts rows.
pub open spec fn counts_rows(p: SelectProjection) -> bool {
    p.kind is CountAll || p.kind is Count
}

/// The first projection that counts rows.
pub open spec fn count_position(items: Seq<SelectProjection>) -> Option<usize>
    decreases items.len(),
{
    if items.len() == 0 {
        None
    } else {
        match count_position(items.drop_last()) {
            Some(i) => Some(i),
            None => if counts_rows(items.last()) {
                Some((items.len() - 1) as usize)
            } else {
                None
            },
        }
    }
}

/// The first projection that counts rows.
pub fn find_count(items: &Vec<SelectProjection>) -> (r: Option<usize>)
    ensures
        r == count_position(items@),
        r matches Some(i) ==> i < items@.len(),
{
    let mut found: Option<usize> = None;
    let mut i: usize = 0;
    assert(items@.take(0) =~= Seq::<SelectProjection>::empty());
    while i < items.len()
        invariant
            i <= items@.len(),
            found == count_position(items@.take(i as int)),
            found matches Some(k) ==> k < i,
        decreases items@.len() - i,
    {
        assert(items@.take(i + 1).drop_last() =~= items@.take(i as int));
        let counts = match &items[i].kind {
            SelectItemKind::CountAll => true,
            SelectItemKind::Count(_) => true,
            _ => false,
        };
        if found.is_none() && counts {
            found = Some(i);
        }
        i = i + 1;
    }
    assert(items@.take(i as int) =~= items@);
    found
}

/// The column that the first order expression stands for, when rows are cut down
/// before they are sorted.
pub open spec fn first_order_column(
    q: ParsedQuery,
    columns: Seq<Seq<char>>,
) -> Option<usize> {
    if q.order_by@.len() == 0 {
        None
    } else {
        let e = q.order_by@[0].0;
        let named = match e {
            Expr::Identifier(s) => match position(columns, s@) {
                Some(i) => Some(i),
                None => alias_position(q.select_items@, s@),
            },
            _ => None,
        };
        let counts = if called(e) == Some("COUNT"@) {
            match position(columns, "count()"@) {
                Some(i) => Some(i),
                None => count_position(q.select_items@),
            }
        } else {
            None
        };
        if named is Some {
            named
        } else if counts is Some {
            counts
        } else {
            match column_name(e) {
                Some(n) => position(columns, n),
                None => None,
            }
        }
    }
}

/// The column that the first order expression stands for, when rows are cut down
/// before they are sorted.
pub fn resolve_first_order_column(parsed: &ParsedQuery, columns: &Vec<String>) -> (r: Option<usize>)
    requires
        columns@.len() == parsed.select_items@.len(),
    ensures
        r == first_order_column(*parsed, texts(columns@)),
        r matches Some(i) ==> i < columns@.len(),
{
    if parsed.order_by.len() == 0 {
        return None;
    }
    let expr = &parsed.order_by[0].0;
    if let Expr::Identifier(s) = expr {
        let p = find_position(columns, s.as_str());
        if p.is_some() {
            return p;
        }
        let p = find_alias(&parsed.select_items, s.as_str());
        if p.is_some() {
            return p;
        }
    }
    if let Some(f) = called_function(expr) {
        if str_eq(f.as_str(), "COUNT") {
            let p = find_position(columns, "count()");
            if p.is_some() {
                return p;
            }
            let p = find_count(&parsed.select_items);
            if p.is_some() {
                return p;
            }
        }
    }
    match column_ref(expr) {
        Some(n) => find_position(columns, n),
        None => None,
    }
}

/// Rows in no order yet, and the order that they are to be in.
pub struct Unsorted {
    pub columns: Vec<String>,
    /// How many values a row has.
    pub width: usize,
    pub rows: Vec<Vec<Cell>>,
    /// The columns to sort by, each with whether it is descending.
    pub order: Vec<(usize, bool)>,
    /// The column by which the rows are cut down first, and whether it is
    /// descending.
    pub cut: Option<(usize, bool)>,
    pub limit: Option<u64>,
    pub offset: Option<u64>,
}

/// Rows in no order yet, and the order that they are to be in.
pub struct UnsortedView {
    pub columns: Seq<Seq<char>>,
    pub rows: Seq<Seq<CellView>>,
    pub order: Seq<(usize, bool)>,
    pub cut: Option<(usize, bool)>,
    pub limit: Option<u64>,
    pub offset: Option<u64>,
}

impl View for Unsorted {
    type V = UnsortedView;

    open spec fn view(&self) -> UnsortedView {
        UnsortedView {
            columns: texts(self.columns@),
            rows: cell_rows(self.rows@),
            order: self.order@,
            cut: self.cut,
            limit: self.limit,
            offset: self.offset,
        }
    }
}

/// The columns that a query is sorted by: where an expression stands for none, the
/// first.
pub open spec fn order_columns(q: ParsedQuery) -> Seq<(usize, bool)> {
    Seq::new(
        q.order_by@.len(),
        |i: int|
            (
                match order_column(q.order_by@[i].0, labels(q.select_items@), q.select_items@) {
                    Some(c) => c,
                    None => 0,
                },
                q.order_by@[i].1,
            ),
    )
}

/// The column by which the rows of a query are cut down.
pub open spec fn cut_column(q: ParsedQuery) -> Option<(usize, bool)> {
    match first_order_column(q, labels(q.select_items@)) {
        Some(c) => Some((c, q.order_by@[0].1)),
        None => None,
    }
}

/// Rows with the order that a query asks for.
pub open spec fn to_sort(q: ParsedQuery, rows: Seq<Seq<CellView>>) -> UnsortedView {
    UnsortedView {
        columns: labels(q.select_items@),
        rows,
        order: order_columns(q),
        cut: cut_column(q),
        limit: q.limit,
        offset: q.offset,
    }
}

/// Whether the columns of the order that a query asks for are among so many values.
pub open spec fn sortable(q: ParsedQuery, width: nat) -> bool {
    &&& forall|i: int| 0 <= i < order_columns(q).len() ==> (#[trigger] order_columns(q)[i]).0 < width
    &&& cut_column(q) matches Some((c, _)) ==> c < width
}

impl Unsorted {
    /// Whether every row has as many values as there should be, and the columns of
    /// the order are among them.
    pub open spec fn wf(&self) -> bool {
        &&& forall|i: int|
            0 <= i < self.order@.len() ==> (#[trigger] self.order@[i]).0 < self.width
        &&& self.cut matches Some((c, _)) ==> c < self.width
        &&& forall|i: int|
            0 <= i < self.rows@.len() ==> (#[trigger] self.rows@[i])@.len() == self.width
    }

    /// Rows of a given width with the order that a query asks for, if the columns of
    /// the order are among their values.
    pub fn of_width(parsed: &ParsedQuery, rows: Vec<Vec<Cell>>, width: usize) -> (u: Option<Self>)
        requires
            forall|i: int| 0 <= i < rows@.len() ==> (#[trigger] rows@[i])@.len() == width,
        ensures
            match u {
                Some(u) => u@ == to_sort(*parsed, cell_rows(rows@)) && u.wf() && sortable(
                    *parsed,
                    width as nat,
                ),
                None => !sortable(*parsed, width as nat),
            },
    {
        let columns = headings(parsed);
        let mut order: Vec<(usize, bool)> = Vec::new();
        let mut i: usize = 0;
        while i < parsed.order_by.len()
            invariant
                i <= parsed.order_by@.len(),
                columns@.len() == parsed.select_items@.len(),
                texts(columns@) == labels(parsed.select_items@),
                order@ =~= order_columns(*parsed).take(i as int),
                forall|k: int| 0 <= k < i ==> (#[trigger] order@[k]).0 < width,
            decreases parsed.order_by@.len() - i,
        {
            let c: usize = match resolve_order_column(
                &parsed.order_by[i].0,
                &columns,
                &parsed.select_items,
            ) {
                Some(c) => c,
                None => 0,
            };
            if c >= width {
                assert(order_columns(*parsed)[i as int].0 >= width);
                return None;
            }
            order.push((c, parsed.order_by[i].1));
            i = i + 1;
        }
        assert(order_columns(*parsed).take(i as int) =~= order_columns(*parsed));
        let cut = match resolve_first_order_column(parsed, &columns) {
            Some(c) => {
                if c >= width {
                    return None;
                }
                Some((c, parsed.order_by[0].1))
            },
            None => None,
        };
        Some(
            Unsorted { columns, width, rows, order, cut, limit: parsed.limit, offset: parsed.offset },
        )
    }

    /// Rows with the order that a query asks for.
    pub fn of_query(parsed: &ParsedQuery, columns: Vec<String>, rows: Vec<Vec<Cell>>) -> (u: Self)
        requires
            texts(columns@) == labels(parsed.select_items@),
            columns@.len() == parsed.select_items@.len(),
            parsed.order_by@.len() > 0 ==> parsed.select_items@.len() > 0,
            forall|i: int| 0 <= i < rows@.len() ==> (#[trigger] rows@[i])@.len() == columns@.len(),
        ensures
            u@ == to_sort(*parsed, cell_rows(rows@)),
            u.wf(),
    {
        let mut order: Vec<(usize, bool)> = Vec::new();
        let mut i: usize = 0;
        while i < parsed.order_by.len()
            invariant
                i <= parsed.order_by@.len(),
                parsed.order_by@.len() > 0 ==> columns@.len() > 0,
                columns@.len() == parsed.select_items@.len(),
                texts(columns@) == labels(parsed.select_items@),
                order@ =~= order_columns(*parsed).take(i as int),
                forall|k: int| 0 <= k < i ==> (#[trigger] order@[k]).0 < columns@.len(),
            decreases parsed.order_by@.len() - i,
        {
            let c: usize = match resolve_order_column(
                &parsed.order_by[i].0,
                &columns,
                &parsed.select_items,
            ) {
                Some(c) => c,
                None => 0,
            };
            order.push((c, parsed.order_by[i].1));
            i = i + 1;
        }
        assert(order_columns(*parsed).take(i as int) =~= order_columns(*parsed));
        let cut = match resolve_first_order_column(parsed, &columns) {
            Some(c) => Some((c, parsed.order_by[0].1)),
            None => None,
        };
        let width: usize = columns.len();
        Unsorted { columns, width, rows, order, cut, limit: parsed.limit, offset: parsed.offset }
    }
}

/// All numbers below `n`.
pub open spec fn all_numbers(n: nat) -> Seq<usize> {
    Seq::new(n, |i: int| i as usize)
}

/// How many rows a limit and an offset ask for.
pub open spec fn needed(limit: u64, offset: Option<u64>) -> nat {
    (limit as usize) as nat + match offset {
        Some(o) => (o as usize) as nat,
        None => 0,
    }
}

/// Whether there are so many rows that they are cut down before they are sorted.
pub open spec fn cuts(u: UnsortedView) -> bool {
    match (u.limit, u.cut) {
        (Some(l), Some(_)) => u.rows.len() > needed(l, u.offset) * 4,
        _ => false,
    }
}

/// The order by which rows are cut down.
pub open spec fn cut_order(u: UnsortedView, keys: Seq<Seq<KeyView>>) -> spec_fn(
    usize,
    usize,
) -> bool {
    row_order(keys, seq![u.cut->Some_0])
}

/// The rows that are sorted: all, or as many as are needed of those that come first
/// by one column.
pub open spec fn cut_rows(u: UnsortedView, keys: Seq<Seq<KeyView>>) -> Seq<usize> {
    if cuts(u) {
        all_numbers(u.rows.len()).sort_by(cut_order(u, keys)).take(
            needed(u.limit->Some_0, u.offset) as int,
        )
    } else {
        all_numbers(u.rows.len())
    }
}

/// The part of the rows that a limit and an offset leave.
pub open spec fn limited<T>(s: Seq<T>, limit: Option<u64>, offset: Option<u64>) -> Seq<T> {
    window(
        s,
        match limit {
            Some(l) => (l as usize) as nat,
            None => s.len(),
        },
        match offset {
            Some(o) => (o as usize) as nat,
            None => 0,
        },
    )
}

/// The numbers of the rows that are returned, in order.
pub open spec fn returned(u: UnsortedView, keys: Seq<Seq<KeyView>>) -> Seq<usize> {
    let base = cut_rows(u, keys);
    limited(
        if u.order.len() == 0 {
            base
        } else {
            base.sort_by(row_order(keys, u.order))
        },
        u.limit,
        u.offset,
    )
}

/// Whether the keys are in a consistent order, for all sorting that is done.
pub open spec fn orderly(u: UnsortedView, keys: Seq<Seq<KeyView>>) -> bool {
    &&& cuts(u) ==> total_ordering(cut_order(u, keys))
    &&& u.order.len() > 0 ==> total_ordering(row_order(keys, u.order))
}

/// Rows, picked by their numbers.
pub open spec fn picked_rows(rows: Seq<Seq<CellView>>, numbers: Seq<usize>) -> Seq<Seq<CellView>> {
    Seq::new(numbers.len(), |i: int| rows[numbers[i] as int])
}

/// Copies a value.
pub fn copy_cell(c: &Cell) -> (r: Cell)
    ensures
        r@ == c@,
{
    match c {
        Cell::Text(s) => Cell::Text(s.clone()),
        Cell::Ratio { sum, count } => Cell::Ratio { sum: *sum, count: *count },
    }
}

/// Copies a row.
pub fn copy_row(row: &Vec<Cell>) -> (out: Vec<Cell>)
    ensures
        cells(out@) == cells(row@),
        out@.len() == row@.len(),
{
    let mut out: Vec<Cell> = Vec::new();
    let mut i: usize = 0;
    while i < row.len()
        invariant
            i <= row@.len(),
            out@.len() == i,
            forall|k: int| 0 <= k < i ==> (#[trigger] out@[k])@ == row@[k]@,
        decreases row@.len() - i,
    {
        out.push(copy_cell(&row[i]));
        i = i + 1;
    }
    assert(cells(out@) =~= cells(row@));
    out
}

/// Copies rows, picked by their numbers.
pub fn pick_rows(rows: &Vec<Vec<Cell>>, numbers: &Vec<usize>) -> (out: Vec<Vec<Cell>>)
    requires
        forall|i: int| 0 <= i < numbers@.len() ==> #[trigger] numbers@[i] < rows@.len(),
    ensures
        cell_rows(out@) == picked_rows(cell_rows(rows@), numbers@),
        out@.len() == numbers@.len(),
        forall|i: int|
            0 <= i < out@.len() ==> (#[trigger] out@[i])@.len() == rows@[numbers@[i] as int]@.len(),
{
    let mut out: Vec<Vec<Cell>> = Vec::new();
    let mut i: usize = 0;
    while i < numbers.len()
        invariant
            i <= numbers@.len(),
            out@.len() == i,
            forall|k: int| 0 <= k < numbers@.len() ==> #[trigger] numbers@[k] < rows@.len(),
            forall|k: int|
                0 <= k < i ==> cells((#[trigger] out@[k])@) == cells(rows@[numbers@[k] as int]@),
            forall|k: int|
                0 <= k < i ==> (#[trigger] out@[k])@.len() == rows@[numbers@[k] as int]@.len(),
        decreases numbers@.len() - i,
    {
        assert(numbers@[i as int] < rows@.len());
        out.push(copy_row(&rows[numbers[i]]));
        i = i + 1;
    }
    assert(cell_rows(out@) =~= picked_rows(cell_rows(rows@), numbers@));
    out
}

/// The part of a list that a limit and an offset leave.
pub fn apply_limit_offset(numbers: &Vec<usize>, limit: Option<u64>, offset: Option<u64>) -> (out: Vec<
    usize,
>)
    ensures
        out@ == limited(numbers@, limit, offset),
{
    let from: usize = match offset {
        Some(o) => o as usize,
        None => 0,
    };
    let most: usize = match limit {
        Some(l) => l as usize,
        None => numbers.len(),
    };
    let mut out: Vec<usize> = Vec::new();
    let mut j: usize = from;
    while j < numbers.len() && j - from < most
        invariant
            from <= j,
            j <= numbers@.len() || j == from,
            out@ =~= window(numbers@, (j - from) as nat, from as nat),
            j - from <= most,
        decreases numbers@.len() - j,
    {
        out.push(numbers[j]);
        j = j + 1;
    }
    assert(out@ =~= window(numbers@, most as nat, from as nat));
    out
}

/// The numbers of the rows that are sorted. If a query has an order and a limit and
/// there are many more rows than it needs, only those stay that come first by the
/// first column of the order.
pub fn truncate_to_top_k(u: &Unsorted, keys: &Vec<Vec<SortKey>>) -> (out: Vec<usize>)
    requires
        u.wf(),
        keys@.len() == u.rows@.len(),
        rectangular(keys@, u.width as nat),
    ensures
        orderly(u@, key_rows(keys@)) ==> out@ == cut_rows(u@, key_rows(keys@)),
        out@.len() == if cuts(u@) {
            needed(u.limit->Some_0, u.offset)
        } else {
            u.rows@.len()
        },
        forall|i: int| 0 <= i < out@.len() ==> #[trigger] out@[i] < u.rows@.len(),
        out@.no_duplicates(),
{
    let n: usize = u.rows.len();
    let mut all: Vec<usize> = Vec::new();
    let mut i: usize = 0;
    while i < n
        invariant
            i <= n,
            all@ =~= all_numbers(i as nat),
        decreases n - i,
    {
        all.push(i);
        i = i + 1;
    }
    let (limit, cut) = match (u.limit, u.cut) {
        (Some(l), Some(c)) => (l as usize, c),
        _ => {
            return all;
        },
    };
    let from: usize = match u.offset {
        Some(o) => o as usize,
        None => 0,
    };
    let need: u128 = limit as u128 + from as u128;
    if n as u128 <= need * 4 {
        return all;
    }
    let mut order: Vec<(usize, bool)> = Vec::new();
    order.push(cut);
    assert(order@ =~= seq![cut]);
    let sorted = sort_row_numbers(&all, keys, &order, u.width);
    proof {
        assert(all@.no_duplicates());
        lemma_distinct(all@, sorted@);
    }
    let need: usize = need as usize;
    let out = vstd::slice::slice_to_vec(&sorted.as_slice()[0..need]);
    assert(out@ =~= sorted@.take(need as int));
    out
}

/// Numbers with the same members are distinct together.
pub proof fn lemma_distinct(a: Seq<usize>, b: Seq<usize>)
    requires
        a.no_duplicates(),
        a.to_multiset() == b.to_multiset(),
    ensures
        b.no_duplicates(),
{
    a.lemma_multiset_has_no_duplicates();
    b.lemma_multiset_has_no_duplicates_conv();
}

/// The rows in order, cut down to what the limit and the offset leave. Whatever the
/// keys, the rows are distinct rows of those that there are; where the keys are in a
/// consistent order, the rows are in it.
pub fn finish_sort(u: &Unsorted, keys: &Vec<Vec<SortKey>>) -> (r: QueryResult)
    requires
        u.wf(),
        keys@.len() == u.rows@.len(),
        rectangular(keys@, u.width as nat),
    ensures
        orderly(u@, key_rows(keys@)) ==> r@ == (ResultView {
            columns: u@.columns,
            rows: picked_rows(u@.rows, returned(u@, key_rows(keys@))),
        }),
        r@.columns == u@.columns,
        exists|numbers: Seq<usize>|
            {
                &&& r@.rows == #[trigger] picked_rows(u@.rows, numbers)
                &&& numbers.no_duplicates()
                &&& forall|i: int| 0 <= i < numbers.len() ==> numbers[i] < u.rows@.len()
                &&& numbers.len() == limited(
                    all_numbers(
                        if cuts(u@) {
                            needed(u.limit->Some_0, u.offset)
                        } else {
                            u.rows@.len()
                        },
                    ),
                    u.limit,
                    u.offset,
                ).len()
            },
{
    let base = truncate_to_top_k(u, keys);
    let sorted = if u.order.len() == 0 {
        base
    } else {
        let s = sort_row_numbers(&base, keys, &u.order, u.width);
        proof {
            lemma_distinct(base@, s@);
        }
        s
    };
    let numbers = apply_limit_offset(&sorted, u.limit, u.offset);
    let rows = pick_rows(&u.rows, &numbers);
    let mut columns: Vec<String> = crate::exec::hash::copy_texts(&u.columns);
    let r = QueryResult { columns, rows };
    assert(r@.rows == picked_rows(u@.rows, numbers@));
    r
}

} // verus!
