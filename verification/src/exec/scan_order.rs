//! The first rows of many in an order on columns, without sorting them all.
use crate::exec::agg_heap::{before, lemma_before_total, ranks};
use crate::exec::agg_topk::lemma_text_order;
use crate::exec::order::sort_numbers;
use crate::expr::eval::{col_i64_at, col_int, col_text, col_utf8_at};
use crate::storage::column::{ColumnData, ColumnView};
use crate::storage::zones::{zone_of, ZoneIndex, ZONE_ROWS};
use crate::text::{parse_i64, parsed_i64, str_less, text_less};
use vstd::prelude::*;
use vstd::relations::{sorted_by, total_ordering};
use vstd::seq_lib::lemma_sorted_unique;

verus! {

/// What rows are ordered by: a column's values, the numbers that a column's values stand
/// for, or a column's texts.
pub enum Part<'a> {
    Cells(&'a ColumnData),
    Numbers(&'a ColumnData),
    Texts(&'a ColumnData),
}

/// What rows are ordered by.
pub enum PartView {
    Cells(ColumnView),
    Numbers(ColumnView),
    Texts(ColumnView),
}

impl<'a> View for Part<'a> {
    type V = PartView;

    open spec fn view(&self) -> PartView {
        match self {
            Part::Cells(c) => PartView::Cells(c@),
            Part::Numbers(c) => PartView::Numbers(c@),
            Part::Texts(c) => PartView::Texts(c@),
        }
    }
}

/// The number that a value stands for: a text that is no number stands for zero.
pub open spec fn number_key(c: ColumnView, row: int) -> i64 {
    match c {
        ColumnView::Utf8(v) => match parsed_i64(v[row]) {
            Some(x) => x,
            None => 0,
        },
        _ => col_int(c, row),
    }
}

/// The number that a value stands for.
pub fn key_i64_at(col: &ColumnData, row: usize) -> (k: i64)
    requires
        col.wf(),
        row < col@.len(),
    ensures
        k == number_key(col@, row as int),
{
    match col {
        ColumnData::Utf8(_) => match parse_i64(col_utf8_at(col, row)) {
            Some(x) => x,
            None => 0,
        },
        _ => col_i64_at(col, row),
    }
}

impl PartView {
    /// Whether one row comes before another.
    pub open spec fn less(self, a: int, b: int) -> bool {
        match self {
            PartView::Cells(c) => match c {
                ColumnView::Utf8(v) => text_less(v[a], v[b]),
                _ => col_int(c, a) < col_int(c, b),
            },
            PartView::Numbers(c) => number_key(c, a) < number_key(c, b),
            PartView::Texts(c) => text_less(col_text(c, a), col_text(c, b)),
        }
    }

    proof fn lemma_less(self, a: int, b: int, c: int)
        ensures
            self.less(a, b) ==> !self.less(b, a),
            self.less(a, c) ==> self.less(a, b) || self.less(b, c),
    {
        match self {
            PartView::Cells(ColumnView::Utf8(v)) => {
                lemma_text_order(v[a], v[b], v[c]);
            },
            PartView::Texts(x) => {
                lemma_text_order(col_text(x, a), col_text(x, b), col_text(x, c));
            },
            _ => {},
        }
    }
}

impl<'a> Part<'a> {
    /// Whether the column has rows enough.
    pub open spec fn holds(self, n: int) -> bool {
        match self {
            Part::Cells(c) => c.wf() && n <= c@.len(),
            Part::Numbers(c) => c.wf() && n <= c@.len(),
            Part::Texts(c) => c.wf() && n <= c@.len(),
        }
    }

    /// Whether one row comes before another.
    pub fn less(&self, a: usize, b: usize) -> (r: bool)
        requires
            self.holds(a + 1),
            self.holds(b + 1),
        ensures
            r == self@.less(a as int, b as int),
    {
        match self {
            Part::Cells(c) => match c {
                ColumnData::Utf8(_) => str_less(col_utf8_at(c, a), col_utf8_at(c, b)),
                _ => col_i64_at(c, a) < col_i64_at(c, b),
            },
            Part::Numbers(c) => key_i64_at(c, a) < key_i64_at(c, b),
            Part::Texts(c) => str_less(col_utf8_at(c, a), col_utf8_at(c, b)),
        }
    }
}

/// The parts of an order, each with whether it is descending.
pub open spec fn part_views(parts: Seq<(Part<'_>, bool)>) -> Seq<(PartView, bool)> {
    Seq::new(parts.len(), |i: int| (parts[i].0@, parts[i].1))
}

/// Whether one row comes before another by the parts of an order, one after the other.
pub open spec fn comes_first(parts: Seq<(PartView, bool)>, a: int, b: int) -> bool
    decreases parts.len(),
{
    if parts.len() == 0 {
        false
    } else {
        let (p, desc) = parts[0];
        let (x, y) = if desc {
            (b, a)
        } else {
            (a, b)
        };
        p.less(x, y) || (!p.less(y, x) && comes_first(parts.skip(1), a, b))
    }
}

proof fn lemma_comes_first(parts: Seq<(PartView, bool)>, a: int, b: int, c: int)
    ensures
        comes_first(parts, a, b) ==> !comes_first(parts, b, a),
        comes_first(parts, a, c) ==> comes_first(parts, a, b) || comes_first(parts, b, c),
    decreases parts.len(),
{
    if parts.len() > 0 {
        lemma_comes_first(parts.skip(1), a, b, c);
        let p = parts[0].0;
        p.lemma_less(a, b, c);
        p.lemma_less(b, a, c);
        p.lemma_less(a, c, b);
        p.lemma_less(c, a, b);
        p.lemma_less(b, c, a);
        p.lemma_less(c, b, a);
    }
}

/// The order of rows: by the parts, and otherwise earlier rows first.
pub open spec fn scan_leq(parts: Seq<(PartView, bool)>) -> spec_fn(usize, usize) -> bool {
    before(|a: usize, b: usize| comes_first(parts, a as int, b as int))
}

/// The order of rows is total.
pub proof fn law_scan_order_total(parts: Seq<(PartView, bool)>)
    ensures
        total_ordering(scan_leq(parts)),
{
    let better = |a: usize, b: usize| comes_first(parts, a as int, b as int);
    assert forall|a: usize, b: usize| #[trigger] better(a, b) implies !better(b, a) by {
        lemma_comes_first(parts, a as int, b as int, b as int);
    }
    assert forall|a: usize, b: usize, c: usize| #[trigger] better(a, c) implies #[trigger] better(
        a,
        b,
    ) || better(b, c) by {
        lemma_comes_first(parts, a as int, b as int, c as int);
    }
    assert(ranks(better));
    lemma_before_total(better);
}

/// Whether the columns of an order have rows enough.
pub open spec fn parts_hold(parts: Seq<(Part<'_>, bool)>, n: int) -> bool {
    forall|i: int| 0 <= i < parts.len() ==> (#[trigger] parts[i]).0.holds(n)
}

/// Whether one row comes before another by the parts of an order.
pub fn row_comes_first(parts: &Vec<(Part<'_>, bool)>, a: usize, b: usize) -> (r: bool)
    requires
        parts_hold(parts@, a + 1),
        parts_hold(parts@, b + 1),
    ensures
        r == comes_first(part_views(parts@), a as int, b as int),
{
    let ghost all = part_views(parts@);
    let mut i: usize = 0;
    assert(all.skip(0) =~= all);
    while i < parts.len()
        invariant
            i <= parts@.len(),
            all == part_views(parts@),
            parts_hold(parts@, a + 1),
            parts_hold(parts@, b + 1),
            comes_first(all, a as int, b as int) == comes_first(
                all.skip(i as int),
                a as int,
                b as int,
            ),
        decreases parts@.len() - i,
    {
        proof {
            assert(all.skip(i as int)[0] == all[i as int]);
            assert(all.skip(i as int).skip(1) =~= all.skip(i + 1));
            assert(parts@[i as int].0.holds(a + 1));
            assert(parts@[i as int].0.holds(b + 1));
        }
        let desc = parts[i].1;
        let x: usize = if desc {
            b
        } else {
            a
        };
        let y: usize = if desc {
            a
        } else {
            b
        };
        if parts[i].0.less(x, y) {
            return true;
        }
        if parts[i].0.less(y, x) {
            return false;
        }
        i = i + 1;
    }
    false
}

/// Rows in order.
pub fn sort_rows(rows: &Vec<usize>, parts: &Vec<(Part<'_>, bool)>, row_count: usize) -> (out: Vec<
    usize,
>)
    requires
        parts_hold(parts@, row_count as int),
        forall|i: int| 0 <= i < rows@.len() ==> (#[trigger] rows@[i]) < row_count,
    ensures
        out@ == rows@.sort_by(scan_leq(part_views(parts@))),
{
    proof {
        law_scan_order_total(part_views(parts@));
    }
    let leq = |a: usize, b: usize| -> (r: bool)
        requires
            row_count > a,
            row_count > b,
        ensures
            r == scan_leq(part_views(parts@))(a, b),
        {
            row_comes_first(parts, a, b) || (!row_comes_first(parts, b, a) && a <= b)
        };
    sort_numbers(rows, leq, Ghost(scan_leq(part_views(parts@))))
}

/// The first rows of some in an order, at most so many.
pub open spec fn best_of<T>(seen: Seq<T>, leq: spec_fn(T, T) -> bool, need: nat) -> Seq<T> {
    seen.sort_by(leq).take(
        if need <= seen.len() {
            need as int
        } else {
            seen.len() as int
        },
    )
}

pub proof fn lemma_sorted_len<T>(seen: Seq<T>, leq: spec_fn(T, T) -> bool)
    requires
        total_ordering(leq),
    ensures
        seen.sort_by(leq).len() == seen.len(),
        sorted_by(seen.sort_by(leq), leq),
        seen.sort_by(leq).to_multiset() == seen.to_multiset(),
{
    broadcast use vstd::seq_lib::group_to_multiset_ensures;

    seen.lemma_sort_by_ensures(leq);
    assert(seen.to_multiset().len() == seen.len());
    assert(seen.sort_by(leq).to_multiset().len() == seen.sort_by(leq).len());
}

/// Where a row goes into rows in order.
pub open spec fn goes_at<T>(sorted: Seq<T>, leq: spec_fn(T, T) -> bool, row: T, p: int) -> bool {
    &&& 0 <= p <= sorted.len()
    &&& forall|k: int| 0 <= k < p ==> leq(#[trigger] sorted[k], row)
    &&& forall|k: int| p <= k < sorted.len() ==> leq(row, #[trigger] sorted[k])
}

pub proof fn lemma_inserted<T>(seen: Seq<T>, leq: spec_fn(T, T) -> bool, row: T, p: int)
    requires
        total_ordering(leq),
        goes_at(seen.sort_by(leq), leq, row, p),
    ensures
        seen.push(row).sort_by(leq) == seen.sort_by(leq).insert(p, row),
{
    broadcast use vstd::seq_lib::group_to_multiset_ensures;

    lemma_sorted_len(seen, leq);
    lemma_sorted_len(seen.push(row), leq);
    let s = seen.sort_by(leq);
    let t = s.insert(p, row);
    assert(t.to_multiset() =~= seen.push(row).to_multiset());
    assert forall|i: int, j: int| 0 <= i < j < t.len() implies #[trigger] leq(t[i], t[j]) by {
        if i < p && j > p {
            assert(leq(s[i], s[j - 1]));
        } else if i < p && j < p {
            assert(leq(s[i], s[j]));
        } else if i > p {
            assert(leq(s[i - 1], s[j - 1]));
        } else if j == p {
            assert(leq(s[i], row));
        } else {
            assert(leq(row, s[j - 1]));
        }
    }
    assert(sorted_by(t, leq));
    lemma_sorted_unique(t, seen.push(row).sort_by(leq), leq);
}

/// Where a row goes into all rows in order, if it goes into the first of them there.
pub proof fn lemma_goes_at<T>(
    seen: Seq<T>,
    leq: spec_fn(T, T) -> bool,
    need: nat,
    row: T,
    p: int,
)
    requires
        total_ordering(leq),
        goes_at(best_of(seen, leq, need), leq, row, p),
        p < best_of(seen, leq, need).len() || seen.len() <= need,
    ensures
        goes_at(seen.sort_by(leq), leq, row, p),
{
    lemma_sorted_len(seen, leq);
    let s = seen.sort_by(leq);
    let b = best_of(seen, leq, need);
    assert forall|k: int| 0 <= k < p implies leq(#[trigger] s[k], row) by {
        assert(leq(b[k], row));
    }
    assert forall|k: int| p <= k < s.len() implies leq(row, #[trigger] s[k]) by {
        if k < b.len() {
            assert(leq(row, b[k]));
        } else {
            assert(leq(row, b[p]));
            assert(leq(s[p], s[k]));
        }
    }
}

/// A row that comes behind the last of the best, when there is no room, is left out.
pub proof fn lemma_left_out<T>(seen: Seq<T>, leq: spec_fn(T, T) -> bool, need: nat, row: T)
    requires
        total_ordering(leq),
        seen.len() >= need,
        need > 0 ==> leq(best_of(seen, leq, need).last(), row),
    ensures
        best_of(seen.push(row), leq, need) == best_of(seen, leq, need),
{
    lemma_sorted_len(seen, leq);
    lemma_sorted_len(seen.push(row), leq);
    let s = seen.sort_by(leq);
    let p = lemma_place(s, leq, row);
    lemma_inserted(seen, leq, row, p);
    let t = seen.push(row).sort_by(leq);
    if need > 0 {
        assert(best_of(seen, leq, need).last() == s[need - 1]);
        if p < need {
            assert(leq(row, s[p]));
            assert(p == need - 1 || leq(s[p], s[need - 1]));
            assert(leq(row, s[need - 1]));
            assert(row == s[need - 1]);
            assert forall|k: int| p <= k < need implies s[k] == row by {
                assert(leq(row, s[k]));
                assert(k == need - 1 || leq(s[k], s[need - 1]));
            }
        }
    }
    assert(best_of(seen.push(row), leq, need) =~= best_of(seen, leq, need));
}

/// There is a place where a row goes.
proof fn lemma_place<T>(s: Seq<T>, leq: spec_fn(T, T) -> bool, row: T) -> (p: int)
    requires
        total_ordering(leq),
        sorted_by(s, leq),
    ensures
        goes_at(s, leq, row, p),
    decreases s.len(),
{
    if s.len() == 0 {
        0
    } else if leq(s.last(), row) {
        assert forall|k: int| 0 <= k < s.len() implies leq(#[trigger] s[k], row) by {
            assert(k == s.len() - 1 || leq(s[k], s[s.len() - 1]));
        }
        s.len() as int
    } else {
        let front = s.drop_last();
        assert forall|i: int, j: int| 0 <= i < j < front.len() implies #[trigger] leq(
            front[i],
            front[j],
        ) by {
            assert(leq(s[i], s[j]));
        }
        let p = lemma_place(front, leq, row);
        assert forall|k: int| 0 <= k < p implies leq(#[trigger] s[k], row) by {
            assert(leq(front[k], row));
        }
        assert forall|k: int| p <= k < s.len() implies leq(row, #[trigger] s[k]) by {
            if k < front.len() {
                assert(leq(row, front[k]));
            }
        }
        p
    }
}

/// Takes a row among the best, if it is one of them.
pub fn push_topk(
    best: &mut Vec<usize>,
    parts: &Vec<(Part<'_>, bool)>,
    need: usize,
    row: usize,
    Ghost(seen): Ghost<Seq<usize>>,
)
    requires
        old(best)@ == best_of(seen, scan_leq(part_views(parts@)), need as nat),
        parts_hold(parts@, row + 1),
        forall|i: int| 0 <= i < old(best)@.len() ==> parts_hold(parts@, #[trigger] old(best)@[i] + 1),
    ensures
        final(best)@ == best_of(seen.push(row), scan_leq(part_views(parts@)), need as nat),
        forall|i: int|
            0 <= i < final(best)@.len() ==> (#[trigger] final(best)@[i]) == row || old(
                best,
            )@.contains(final(best)@[i]),
{
    let ghost leq = scan_leq(part_views(parts@));
    let ghost b = best@;
    proof {
        law_scan_order_total(part_views(parts@));
        lemma_sorted_len(seen, leq);
        lemma_sorted_len(seen.push(row), leq);
    }
    let mut p: usize = best.len();
    while p > 0 && (row_comes_first(parts, row, best[p - 1]) || (!row_comes_first(
        parts,
        best[p - 1],
        row,
    ) && row < best[p - 1]))
        invariant
            p <= best@.len(),
            best@ == b,
            leq == scan_leq(part_views(parts@)),
            total_ordering(leq),
            parts_hold(parts@, row + 1),
            forall|i: int| 0 <= i < best@.len() ==> parts_hold(parts@, #[trigger] best@[i] + 1),
            forall|k: int| p <= k < best@.len() ==> leq(row, #[trigger] best@[k]),
        decreases p,
    {
        p = p - 1;
    }
    proof {
        assert(sorted_by(b, leq)) by {
            let s = seen.sort_by(leq);
            assert forall|i: int, j: int| 0 <= i < j < b.len() implies #[trigger] leq(
                b[i],
                b[j],
            ) by {
                assert(leq(s[i], s[j]));
            }
        }
        assert forall|k: int| 0 <= k < p implies leq(#[trigger] b[k], row) by {
            assert(leq(b[p - 1], row));
            assert(k == p - 1 || leq(b[k], b[p - 1]));
        }
        assert(goes_at(b, leq, row, p as int));
    }
    if p == best.len() && best.len() == need {
        proof {
            if need > 0 {
                assert(leq(b[p - 1], row));
            }
            lemma_left_out(seen, leq, need as nat, row);
        }
        assert forall|i: int| 0 <= i < best@.len() implies b.contains(#[trigger] best@[i]) by {}
        return;
    }
    proof {
        lemma_goes_at(seen, leq, need as nat, row, p as int);
        lemma_inserted(seen, leq, row, p as int);
    }
    best.insert(p, row);
    let ghost grown = best@;
    if best.len() > need {
        best.pop();
    }
    proof {
        assert(best@ =~= best_of(seen.push(row), leq, need as nat));
        assert forall|i: int| 0 <= i < best@.len() implies (#[trigger] best@[i]) == row
            || b.contains(best@[i]) by {
            assert(best@[i] == grown[i]);
            if i < p {
                assert(grown[i] == b[i]);
            } else if i > p {
                assert(grown[i] == b[i - 1]);
            }
        }
    }
}

/// Which rows stay.
pub enum Keep<'a> {
    /// Those of a mask.
    Mask(&'a Vec<bool>),
    /// Those with a text in a column.
    Nonempty(&'a ColumnData),
}

impl<'a> Keep<'a> {
    /// Whether a row stays.
    pub open spec fn keeps(self, row: int) -> bool {
        match self {
            Keep::Mask(m) => m@[row],
            Keep::Nonempty(c) => col_text(c@, row).len() > 0,
        }
    }

    /// Whether there are rows enough.
    pub open spec fn holds(self, n: int) -> bool {
        match self {
            Keep::Mask(m) => n <= m@.len(),
            Keep::Nonempty(c) => c.wf() && n <= c@.len(),
        }
    }

    /// Whether a row stays.
    pub fn row_ok(&self, row: usize) -> (r: bool)
        requires
            self.holds(row + 1),
        ensures
            r == self.keeps(row as int),
    {
        match self {
            Keep::Mask(m) => m[row],
            Keep::Nonempty(c) => {
                !col_utf8_at(c, row).is_empty()
            },
        }
    }
}

/// The rows from `from` up to `to` that stay, ascending.
pub open spec fn staying(keep: Keep<'_>, from: int, to: int) -> Seq<usize>
    decreases to - from,
{
    if to <= from {
        Seq::empty()
    } else if keep.keeps(to - 1) {
        staying(keep, from, to - 1).push((to - 1) as usize)
    } else {
        staying(keep, from, to - 1)
    }
}

/// The rows that stay in two runs of rows are those that stay in both.
pub proof fn lemma_staying_split(keep: Keep<'_>, a: int, b: int, c: int)
    requires
        a <= b <= c,
    ensures
        staying(keep, a, c) == staying(keep, a, b) + staying(keep, b, c),
    decreases c - b,
{
    if b == c {
        assert(staying(keep, a, c) =~= staying(keep, a, b) + staying(keep, b, c));
    } else {
        lemma_staying_split(keep, a, b, c - 1);
        assert(staying(keep, a, c) =~= staying(keep, a, b) + staying(keep, b, c));
    }
}

/// Rows that stay are rows of the run.
pub proof fn lemma_staying(keep: Keep<'_>, from: int, to: int)
    requires
        0 <= from,
        to <= usize::MAX,
    ensures
        forall|i: int|
            0 <= i < staying(keep, from, to).len() ==> from <= (#[trigger] staying(keep, from, to)[i])
                < to && keep.keeps(staying(keep, from, to)[i] as int),
    decreases to - from,
{
    if from < to {
        lemma_staying(keep, from, to - 1);
        let front = staying(keep, from, to - 1);
        assert forall|i: int| 0 <= i < staying(keep, from, to).len() implies from <= (
        #[trigger] staying(keep, from, to)[i]) < to && keep.keeps(
            staying(keep, from, to)[i] as int,
        ) by {
            if i < front.len() {
                assert(staying(keep, from, to)[i] == front[i]);
            }
        }
    }
}

/// Takes the rows of a run that stay among the best.
fn push_run(
    best: &mut Vec<usize>,
    parts: &Vec<(Part<'_>, bool)>,
    need: usize,
    keep: &Keep<'_>,
    from: usize,
    to: usize,
)
    requires
        from <= to,
        keep.holds(to as int),
        parts_hold(parts@, to as int),
        old(best)@ == best_of(
            staying(*keep, 0, from as int),
            scan_leq(part_views(parts@)),
            need as nat,
        ),
        forall|i: int| 0 <= i < old(best)@.len() ==> (#[trigger] old(best)@[i]) < from,
    ensures
        final(best)@ == best_of(
            staying(*keep, 0, to as int),
            scan_leq(part_views(parts@)),
            need as nat,
        ),
        forall|i: int| 0 <= i < final(best)@.len() ==> (#[trigger] final(best)@[i]) < to,
{
    let mut i: usize = from;
    while i < to
        invariant
            from <= i <= to,
            keep.holds(to as int),
            parts_hold(parts@, to as int),
            best@ == best_of(
                staying(*keep, 0, i as int),
                scan_leq(part_views(parts@)),
                need as nat,
            ),
            forall|k: int| 0 <= k < best@.len() ==> (#[trigger] best@[k]) < i,
        decreases to - i,
    {
        if keep.row_ok(i) {
            proof {
                assert forall|k: int| 0 <= k < best@.len() implies parts_hold(
                    parts@,
                    #[trigger] best@[k] + 1,
                ) by {
                    assert forall|m: int| 0 <= m < parts@.len() implies (#[trigger] parts@[m]).0.holds(
                        best@[k] + 1,
                    ) by {
                        assert(parts@[m].0.holds(to as int));
                    }
                }
                assert forall|m: int| 0 <= m < parts@.len() implies (#[trigger] parts@[m]).0.holds(
                    i + 1,
                ) by {
                    assert(parts@[m].0.holds(to as int));
                }
            }
            push_topk(best, parts, need, i, Ghost(staying(*keep, 0, i as int)));
        }
        i = i + 1;
    }
}

/// The first rows that stay, in order.
pub fn streaming_topk(
    parts: &Vec<(Part<'_>, bool)>,
    need: usize,
    keep: &Keep<'_>,
    row_count: usize,
) -> (best: Vec<usize>)
    requires
        keep.holds(row_count as int),
        parts_hold(parts@, row_count as int),
    ensures
        best@ == best_of(
            staying(*keep, 0, row_count as int),
            scan_leq(part_views(parts@)),
            need as nat,
        ),
        forall|i: int| 0 <= i < best@.len() ==> (#[trigger] best@[i]) < row_count,
{
    let mut best: Vec<usize> = Vec::new();
    proof {
        law_scan_order_total(part_views(parts@));
        lemma_sorted_len(Seq::<usize>::empty(), scan_leq(part_views(parts@)));
        assert(best@ =~= best_of(
            staying(*keep, 0, 0),
            scan_leq(part_views(parts@)),
            need as nat,
        ));
    }
    push_run(&mut best, parts, need, keep, 0, row_count);
    best
}

/// Whether the event times of the first rows lie within the bounds of their zones.
pub open spec fn bounds_hold(ix: ZoneIndex, times: Seq<i64>, n: int) -> bool {
    forall|r: int|
        0 <= r < n ==> zone_of(r) < ix.zones@.len() && ix.zones@[zone_of(r)].min_event_time <= (
        #[trigger] times[r]) <= ix.zones@[zone_of(r)].max_event_time
}

/// Whether the event times of the first rows lie within the bounds of their zones.
pub fn check_bounds(zones: &ZoneIndex, times: &[i64], row_count: usize) -> (r: bool)
    requires
        row_count <= times@.len(),
    ensures
        r == bounds_hold(*zones, times@, row_count as int),
{
    let mut i: usize = 0;
    while i < row_count
        invariant
            i <= row_count <= times@.len(),
            bounds_hold(*zones, times@, i as int),
        decreases row_count - i,
    {
        let z: usize = i / ZONE_ROWS;
        if z >= zones.zones.len() || zones.zones[z].min_event_time > times[i]
            || zones.zones[z].max_event_time < times[i] {
            assert(zone_of(i as int) == z);
            assert(!bounds_hold(*zones, times@, row_count as int)) by {
                let t = times@[i as int];
            }
            return false;
        }
        i = i + 1;
    }
    true
}

/// Whether an order begins with the event time, ascending.
pub open spec fn by_time(parts: Seq<(PartView, bool)>, times: Seq<i64>) -> bool {
    parts.len() > 0 && !parts[0].1 && match parts[0].0 {
        PartView::Cells(ColumnView::Timestamp(v)) => v == times,
        PartView::Numbers(ColumnView::Timestamp(v)) => v == times,
        _ => false,
    }
}

/// A run of rows that all come behind the last of the best, when there is no room, is
/// left out.
proof fn lemma_skip(
    parts: Seq<(PartView, bool)>,
    times: Seq<i64>,
    keep: Keep<'_>,
    need: nat,
    from: int,
    to: int,
)
    requires
        0 <= from <= to <= usize::MAX,
        by_time(parts, times),
        need > 0,
        best_of(staying(keep, 0, from), scan_leq(parts), need).len() == need,
        forall|r: int|
            from <= r < to ==> (#[trigger] times[r]) > times[best_of(
                staying(keep, 0, from),
                scan_leq(parts),
                need,
            ).last() as int],
    ensures
        best_of(staying(keep, 0, to), scan_leq(parts), need) == best_of(
            staying(keep, 0, from),
            scan_leq(parts),
            need,
        ),
    decreases to - from,
{
    if from < to {
        lemma_skip(parts, times, keep, need, from, to - 1);
        law_scan_order_total(parts);
        let seen = staying(keep, 0, to - 1);
        let best = best_of(seen, scan_leq(parts), need);
        lemma_sorted_len(seen, scan_leq(parts));
        lemma_sorted_len(staying(keep, 0, from), scan_leq(parts));
        if keep.keeps(to - 1) {
            let row = (to - 1) as usize;
            assert(times[row as int] > times[best.last() as int]);
            assert(comes_first(parts, best.last() as int, row as int));
            lemma_left_out(seen, scan_leq(parts), need, row);
        }
    }
}

/// The first rows that stay, in an order that begins with the event time. Zones whose
/// rows all come too late are passed over.
pub fn streaming_topk_zoned(
    zones: &ZoneIndex,
    times: &[i64],
    parts: &Vec<(Part<'_>, bool)>,
    need: usize,
    keep: &Keep<'_>,
    row_count: usize,
) -> (best: Vec<usize>)
    requires
        keep.holds(row_count as int),
        parts_hold(parts@, row_count as int),
        row_count <= times@.len(),
        bounds_hold(*zones, times@, row_count as int),
        by_time(part_views(parts@), times@),
        need > 0,
    ensures
        best@ == best_of(
            staying(*keep, 0, row_count as int),
            scan_leq(part_views(parts@)),
            need as nat,
        ),
        forall|i: int| 0 <= i < best@.len() ==> (#[trigger] best@[i]) < row_count,
{
    let ghost order = part_views(parts@);
    let mut best: Vec<usize> = Vec::new();
    proof {
        law_scan_order_total(order);
        lemma_sorted_len(Seq::<usize>::empty(), scan_leq(order));
        assert(best@ =~= best_of(staying(*keep, 0, 0), scan_leq(order), need as nat));
    }
    let mut row: usize = 0;
    let mut z: usize = 0;
    while row < row_count
        invariant
            row <= row_count <= times@.len(),
            row == (if z * ZONE_ROWS <= row_count { z * ZONE_ROWS } else { row_count as int }),
            order == part_views(parts@),
            keep.holds(row_count as int),
            parts_hold(parts@, row_count as int),
            bounds_hold(*zones, times@, row_count as int),
            by_time(order, times@),
            need > 0,
            best@ == best_of(staying(*keep, 0, row as int), scan_leq(order), need as nat),
            forall|i: int| 0 <= i < best@.len() ==> (#[trigger] best@[i]) < row,
            z <= zones.zones@.len(),
        decreases row_count - row,
    {
        let end: usize = if row_count - row > ZONE_ROWS {
            row + ZONE_ROWS
        } else {
            row_count
        };
        proof {
            assert(zone_of(row as int) == z);
            let t = times@[row as int];
            assert(z < zones.zones@.len());
        }
        let late = if best.len() == need {
            zones.zones[z].min_event_time > times[best[best.len() - 1]]
        } else {
            false
        };
        if late {
            proof {
                assert forall|r: int| row <= r < end implies (#[trigger] times@[r])
                    > times@[best@.last() as int] by {
                    assert(zone_of(r) == z);
                }
                lemma_skip(order, times@, *keep, need as nat, row as int, end as int);
            }
        } else {
            proof {
                assert forall|m: int| 0 <= m < parts@.len() implies (#[trigger] parts@[m]).0.holds(
                    end as int,
                ) by {
                    assert(parts@[m].0.holds(row_count as int));
                }
            }
            push_run(&mut best, parts, need, keep, row, end);
        }
        row = end;
        z = z + 1;
    }
    best
}

/// Whether the bounds of the zones do not decrease.
pub open spec fn monotonic(ix: ZoneIndex) -> bool {
    forall|i: int|
        0 <= i < ix.zones@.len() - 1 ==> (#[trigger] ix.zones@[i]).max_event_time <= ix.zones@[i
            + 1].min_event_time
}

proof fn lemma_later_zones(ix: ZoneIndex, times: Seq<i64>, n: int, z: int, r: int)
    requires
        monotonic(ix),
        bounds_hold(ix, times, n),
        0 <= z <= zone_of(r),
        0 <= r < n,
    ensures
        ix.zones@[z].min_event_time <= times[r],
    decreases zone_of(r) - z,
{
    let t = times[r];
    assert(zone_of(r) < ix.zones@.len());
    if z < zone_of(r) {
        let first = z * ZONE_ROWS;
        assert(zone_of(first) == z);
        let next = (z + 1) * ZONE_ROWS;
        let u = times[first];
        assert(ix.zones@[z].min_event_time <= u <= ix.zones@[z].max_event_time);
        assert(ix.zones@[z].max_event_time <= ix.zones@[z + 1].min_event_time);
        lemma_later_zones(ix, times, n, z + 1, r);
    }
}

/// The first rows that stay, in an order that begins with the event time, of zones whose
/// bounds do not decrease. The scan ends at the first zone whose rows come too late.
pub fn forward_scan_until(
    zones: &ZoneIndex,
    times: &[i64],
    parts: &Vec<(Part<'_>, bool)>,
    need: usize,
    keep: &Keep<'_>,
    row_count: usize,
) -> (best: Vec<usize>)
    requires
        keep.holds(row_count as int),
        parts_hold(parts@, row_count as int),
        row_count <= times@.len(),
        bounds_hold(*zones, times@, row_count as int),
        monotonic(*zones),
        by_time(part_views(parts@), times@),
        need > 0,
    ensures
        best@ == best_of(
            staying(*keep, 0, row_count as int),
            scan_leq(part_views(parts@)),
            need as nat,
        ),
        forall|i: int| 0 <= i < best@.len() ==> (#[trigger] best@[i]) < row_count,
{
    let ghost order = part_views(parts@);
    let mut best: Vec<usize> = Vec::new();
    proof {
        law_scan_order_total(order);
        lemma_sorted_len(Seq::<usize>::empty(), scan_leq(order));
        assert(best@ =~= best_of(staying(*keep, 0, 0), scan_leq(order), need as nat));
    }
    let mut row: usize = 0;
    let mut z: usize = 0;
    while row < row_count
        invariant
            row <= row_count <= times@.len(),
            row == (if z * ZONE_ROWS <= row_count { z * ZONE_ROWS } else { row_count as int }),
            order == part_views(parts@),
            keep.holds(row_count as int),
            parts_hold(parts@, row_count as int),
            bounds_hold(*zones, times@, row_count as int),
            monotonic(*zones),
            by_time(order, times@),
            need > 0,
            best@ == best_of(staying(*keep, 0, row as int), scan_leq(order), need as nat),
            forall|i: int| 0 <= i < best@.len() ==> (#[trigger] best@[i]) < row,
            z <= zones.zones@.len(),
        decreases row_count - row,
    {
        let end: usize = if row_count - row > ZONE_ROWS {
            row + ZONE_ROWS
        } else {
            row_count
        };
        proof {
            assert(zone_of(row as int) == z);
            let t = times@[row as int];
            assert(z < zones.zones@.len());
        }
        if best.len() == need && zones.zones[z].min_event_time > times[best[best.len() - 1]] {
            proof {
                assert forall|r: int| row <= r < row_count implies (#[trigger] times@[r])
                    > times@[best@.last() as int] by {
                    assert(z <= zone_of(r));
                    lemma_later_zones(*zones, times@, row_count as int, z as int, r);
                }
                lemma_skip(order, times@, *keep, need as nat, row as int, row_count as int);
            }
            return best;
        }
        proof {
            assert forall|m: int| 0 <= m < parts@.len() implies (#[trigger] parts@[m]).0.holds(
                end as int,
            ) by {
                assert(parts@[m].0.holds(row_count as int));
            }
        }
        push_run(&mut best, parts, need, keep, row, end);
        row = end;
        z = z + 1;
    }
    best
}

} // verus!
