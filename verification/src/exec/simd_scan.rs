//! Scans of several columns at once.
use crate::storage::pod::PodStorage;
use vstd::prelude::*;

verus! {

/// How many rows a scan takes at a time.
pub const BLOCK: usize = 8192;

/// Numbers in the order in which a scan visits them.
pub fn for_each_i32_wide(slice: &[i32]) -> (visited: Vec<i32>)
    ensures
        visited@ == slice@,
{
    let mut visited: Vec<i32> = Vec::new();
    let mut i: usize = 0;
    while i < slice.len()
        invariant
            i <= slice@.len(),
            visited@ =~= slice@.take(i as int),
        decreases slice@.len() - i,
    {
        visited.push(slice[i]);
        i = i + 1;
    }
    assert(slice@.take(i as int) =~= slice@);
    visited
}

/// What a row of the dashboard has to meet.
#[derive(Clone, Copy)]
pub struct Q41Pred {
    pub counter: i32,
    pub min_date: i32,
    pub max_date: i32,
    pub is_refresh: i16,
    pub referer_hash: i64,
}

/// The columns that the conditions of the dashboard are about.
#[derive(Clone, Copy)]
pub struct DashboardColumns<'a> {
    pub referer: &'a PodStorage<i64>,
    pub counters: &'a PodStorage<i32>,
    pub dates: &'a PodStorage<i32>,
    pub refresh: &'a PodStorage<i16>,
    pub traffic: &'a PodStorage<i16>,
}

/// The columns that the conditions of the dashboard are about.
pub struct DashboardData {
    pub referer: Seq<i64>,
    pub counters: Seq<i32>,
    pub dates: Seq<i32>,
    pub refresh: Seq<i16>,
    pub traffic: Seq<i16>,
}

impl<'a> View for DashboardColumns<'a> {
    type V = DashboardData;

    open spec fn view(&self) -> DashboardData {
        DashboardData {
            referer: self.referer@,
            counters: self.counters@,
            dates: self.dates@,
            refresh: self.refresh@,
            traffic: self.traffic@,
        }
    }
}

impl DashboardData {
    /// Whether all columns have a number of rows.
    pub open spec fn hold(self, n: int) -> bool {
        &&& self.referer.len() >= n
        &&& self.counters.len() >= n
        &&& self.dates.len() >= n
        &&& self.refresh.len() >= n
        &&& self.traffic.len() >= n
    }

    /// Whether a row meets the conditions.
    pub open spec fn meets(self, pred: Q41Pred, row: int) -> bool {
        &&& self.referer[row] == pred.referer_hash
        &&& self.counters[row] == pred.counter
        &&& pred.min_date <= self.dates[row] <= pred.max_date
        &&& self.refresh[row] == pred.is_refresh
        &&& self.traffic[row] == -1 || self.traffic[row] == 6
    }

    /// The rows of a range that meet the conditions, in order.
    pub open spec fn span(self, pred: Q41Pred, from: int, to: int) -> Seq<usize>
        decreases to - from,
    {
        if to <= from {
            Seq::empty()
        } else if self.meets(pred, to - 1) {
            self.span(pred, from, to - 1).push((to - 1) as usize)
        } else {
            self.span(pred, from, to - 1)
        }
    }

    /// The rows of several ranges that meet the conditions.
    pub open spec fn spans(self, pred: Q41Pred, ranges: Seq<(usize, usize)>) -> Seq<usize>
        decreases ranges.len(),
    {
        if ranges.len() == 0 {
            Seq::empty()
        } else {
            self.spans(pred, ranges.drop_last()) + self.span(
                pred,
                ranges.last().0 as int,
                ranges.last().1 as int,
            )
        }
    }

    /// A row of a range is found if and only if it meets the conditions.
    pub proof fn law_span_finds(self, pred: Q41Pred, from: int, to: int, row: usize)
        requires
            0 <= from <= to <= usize::MAX,
        ensures
            self.span(pred, from, to).contains(row) <==> from <= row < to && self.meets(
                pred,
                row as int,
            ),
        decreases to - from,
    {
        if from < to {
            self.law_span_finds(pred, from, to - 1, row);
            let front = self.span(pred, from, to - 1);
            let all = self.span(pred, from, to);
            if all.contains(row) {
                let i = choose|i: int| 0 <= i < all.len() && all[i] == row;
                if i < front.len() {
                    assert(front[i] == row);
                    assert(front.contains(row));
                }
            }
            if from <= row < to && self.meets(pred, row as int) {
                if row == to - 1 {
                    assert(all[all.len() - 1] == row);
                } else {
                    let i = choose|i: int| 0 <= i < front.len() && front[i] == row;
                    assert(all[i] == row);
                }
            }
        }
    }

    proof fn lemma_spans_join(self, pred: Q41Pred, a: int, b: int, c: int)
        requires
            a <= b <= c,
        ensures
            self.span(pred, a, c) == self.span(pred, a, b) + self.span(pred, b, c),
        decreases c - b,
    {
        if b < c {
            self.lemma_spans_join(pred, a, b, c - 1);
            assert(self.span(pred, a, c) =~= self.span(pred, a, b) + self.span(pred, b, c));
        } else {
            assert(self.span(pred, a, c) =~= self.span(pred, a, b) + self.span(pred, b, c));
        }
    }

    proof fn lemma_span_rows(self, pred: Q41Pred, from: int, to: int, bound: int)
        requires
            0 <= from,
            to <= bound <= usize::MAX,
        ensures
            forall|i: int|
                0 <= i < self.span(pred, from, to).len() ==> (#[trigger] self.span(
                    pred,
                    from,
                    to,
                )[i]) < bound,
        decreases to - from,
    {
        if from < to {
            self.lemma_span_rows(pred, from, to - 1, bound);
            let front = self.span(pred, from, to - 1);
            assert forall|i: int| 0 <= i < self.span(pred, from, to).len() implies (
            #[trigger] self.span(pred, from, to)[i]) < bound by {
                if i < front.len() {
                    assert(front[i] < bound);
                }
            }
        }
    }

}

impl<'a> DashboardColumns<'a> {
    /// Whether a row meets the conditions.
    pub fn q41_row_ok(&self, pred: Q41Pred, row: usize) -> (r: bool)
        requires
            self@.hold(row + 1),
        ensures
            r == self@.meets(pred, row as int),
    {
        if self.referer.get(row) != pred.referer_hash || self.counters.get(row) != pred.counter {
            return false;
        }
        let d: i32 = self.dates.get(row);
        let t: i16 = self.traffic.get(row);
        d >= pred.min_date && d <= pred.max_date && self.refresh.get(row) == pred.is_refresh && (t
            == -1 || t == 6)
    }

    /// Adds the rows of a block that meet the conditions.
    pub fn scan_q41_block(&self, pred: Q41Pred, start: usize, end: usize, out: &mut Vec<usize>)
        requires
            start < end ==> self@.hold(end as int),
        ensures
            final(out)@ == old(out)@ + self@.span(pred, start as int, end as int),
    {
        let ghost given = out@;
        if start >= end {
            assert(out@ =~= given + self@.span(pred, start as int, end as int));
            return;
        }
        let mut i: usize = start;
        assert(out@ =~= given + self@.span(pred, start as int, start as int));
        while i < end
            invariant
                start <= i <= end,
                self@.hold(end as int),
                out@ == given + self@.span(pred, start as int, i as int),
            decreases end - i,
        {
            let ghost sofar = out@;
            if self.q41_row_ok(pred, i) {
                out.push(i);
                assert(out@ =~= given + self@.span(pred, start as int, i as int).push(i));
            }
            i = i + 1;
        }
    }

    /// Adds the rows of a range that meet the conditions, block by block. A range that
    /// ends before it begins has no rows.
    pub fn for_each_q41_zone_match(
        &self,
        pred: Q41Pred,
        start: usize,
        end: usize,
        out: &mut Vec<usize>,
    )
        requires
            start < end ==> self@.hold(end as int),
        ensures
            final(out)@ == old(out)@ + self@.span(pred, start as int, end as int),
    {
        let ghost given = out@;
        if start >= end {
            assert(out@ =~= given + self@.span(pred, start as int, end as int));
            return;
        }
        let mut i: usize = start;
        assert(out@ =~= given + self@.span(pred, start as int, start as int));
        while i < end
            invariant
                start <= i <= end,
                self@.hold(end as int),
                out@ == given + self@.span(pred, start as int, i as int),
            decreases end - i,
        {
            let block_end: usize = if end - i > BLOCK {
                i + BLOCK
            } else {
                end
            };
            self.scan_q41_block(pred, i, block_end, out);
            proof {
                self@.lemma_spans_join(pred, start as int, i as int, block_end as int);
                assert(out@ =~= given + self@.span(pred, start as int, block_end as int));
            }
            i = block_end;
        }
    }

    /// The rows of several ranges that meet the conditions.
    pub fn scan_ranges(&self, pred: Q41Pred, ranges: &Vec<(usize, usize)>, row_count: usize) -> (rows:
        Vec<usize>)
        requires
            self@.hold(row_count as int),
            forall|i: int|
                0 <= i < ranges@.len() && (#[trigger] ranges@[i]).0 < ranges@[i].1 ==> ranges@[i].1
                    <= row_count,
        ensures
            rows@ == self@.spans(pred, ranges@),
            forall|i: int| 0 <= i < rows@.len() ==> (#[trigger] rows@[i]) < row_count,
    {
        let mut rows: Vec<usize> = Vec::new();
        let mut i: usize = 0;
        assert(ranges@.take(0) =~= Seq::<(usize, usize)>::empty());
        while i < ranges.len()
            invariant
                i <= ranges@.len(),
                self@.hold(row_count as int),
                forall|i: int|
                    0 <= i < ranges@.len() && (#[trigger] ranges@[i]).0 < ranges@[i].1
                        ==> ranges@[i].1 <= row_count,
                rows@ == self@.spans(pred, ranges@.take(i as int)),
                forall|i: int| 0 <= i < rows@.len() ==> (#[trigger] rows@[i]) < row_count,
            decreases ranges@.len() - i,
        {
            assert(ranges@.take(i + 1).drop_last() =~= ranges@.take(i as int));
            assert(ranges@[i as int].0 < ranges@[i as int].1 ==> ranges@[i as int].1 <= row_count);
            let r: (usize, usize) = ranges[i];
            let ghost sofar = rows@;
            self.for_each_q41_zone_match(pred, r.0, r.1, &mut rows);
            proof {
                if r.0 < r.1 {
                    self@.lemma_span_rows(pred, r.0 as int, r.1 as int, row_count as int);
                }
                assert forall|k: int| 0 <= k < rows@.len() implies (#[trigger] rows@[k])
                    < row_count by {
                    if k >= sofar.len() {
                        assert(rows@[k] == self@.span(pred, r.0 as int, r.1 as int)[k
                            - sofar.len()]);
                    }
                }
            }
            i = i + 1;
        }
        assert(ranges@.take(i as int) =~= ranges@);
        rows
    }
}

} // verus!
