//! Zone index: bounds of the key columns over runs of rows, used to skip runs
//! that cannot match a filter.
use crate::storage::column::{ColumnData, ColumnView};
use crate::storage::table::Table;
use vstd::prelude::*;

verus! {

/// The number of rows that a zone covers.
pub const ZONE_ROWS: usize = 8192;

/// First version with advertising-engine counts.
pub const ZONE_VERSION_V1: u32 = 1;

/// First version with event-time bounds.
pub const ZONE_VERSION_V2: u32 = 2;

/// The bounds of one run of rows.
#[derive(Debug, Clone, Copy)]
pub struct Zone {
    pub min_counter: i32,
    pub max_counter: i32,
    pub min_date: i32,
    pub max_date: i32,
    /// Rows of the zone whose `AdvEngineID` is not zero.
    pub adv_nonzero: u32,
    pub min_adv: i16,
    pub max_adv: i16,
    /// Bounds of `EventTime`; the lower above the upper where they are unknown.
    pub min_event_time: i64,
    pub max_event_time: i64,
}

/// The lower event-time bound of a zone that has none.
pub fn event_time_min_unknown() -> (v: i64)
    ensures
        v == i64::MAX,
{
    i64::MAX
}

/// The upper event-time bound of a zone that has none.
pub fn event_time_max_unknown() -> (v: i64)
    ensures
        v == i64::MIN,
{
    i64::MIN
}

/// The lower advertising-engine bound of a zone that has none.
pub fn adv_min_unknown() -> (v: i16)
    ensures
        v == i16::MIN,
{
    i16::MIN
}

/// The upper advertising-engine bound of a zone that has none.
pub fn adv_max_unknown() -> (v: i16)
    ensures
        v == i16::MAX,
{
    i16::MAX
}

/// The zones of a table, in row order.
pub struct ZoneIndex {
    pub version: u32,
    pub zones: Vec<Zone>,
}

impl Zone {
    /// Whether the bounds leave room for a row with this counter and a date in range.
    pub open spec fn may_match(self, counter: i32, min_date: i32, max_date: i32) -> bool {
        &&& self.min_counter <= counter <= self.max_counter
        &&& self.max_date >= min_date
        &&& self.min_date <= max_date
    }

    /// Whether the bounds leave room for a nonzero advertising engine.
    pub open spec fn may_have_adv(self) -> bool {
        exists|v: i16| #[trigger] self.admits_adv(v) && v != 0
    }

    /// Whether an advertising engine lies within the bounds.
    pub open spec fn admits_adv(self, v: i16) -> bool {
        self.min_adv <= v <= self.max_adv
    }

    fn matches_dashboard(&self, counter: i32, min_date: i32, max_date: i32) -> (r: bool)
        ensures
            r == self.may_match(counter, min_date, max_date),
    {
        self.max_counter >= counter && self.min_counter <= counter && self.max_date >= min_date
            && self.min_date <= max_date
    }

    fn has_adv(&self) -> (r: bool)
        ensures
            r == self.may_have_adv(),
    {
        let r = self.min_adv <= self.max_adv && (self.min_adv != 0 || self.max_adv != 0);
        proof {
            if r {
                if self.min_adv != 0 {
                    let v = self.min_adv;
                    assert(self.admits_adv(v));
                } else {
                    let v = self.max_adv;
                    assert(self.admits_adv(v));
                }
            }
        }
        r
    }
}

/// `lo` and `hi` are the least and the greatest of `at(from)` to `at(to - 1)`.
pub open spec fn exact_bounds(
    at: spec_fn(int) -> int,
    from: int,
    to: int,
    lo: int,
    hi: int,
) -> bool {
    &&& forall|k: int| from <= k < to ==> lo <= #[trigger] at(k) <= hi
    &&& exists|k: int| from <= k < to && #[trigger] at(k) == lo
    &&& exists|k: int| from <= k < to && #[trigger] at(k) == hi
}

fn bounds_i32(v: &[i32], from: usize, to: usize) -> (r: (i32, i32))
    requires
        from < to <= v@.len(),
    ensures
        exact_bounds(|k: int| v@[k] as int, from as int, to as int, r.0 as int, r.1 as int),
{
    let ghost at = |k: int| v@[k] as int;
    let mut lo: i32 = v[from];
    let mut hi: i32 = v[from];
    let mut i: usize = from + 1;
    assert(at(from as int) == lo);
    while i < to
        invariant
            at == (|k: int| v@[k] as int),
            from < i <= to <= v@.len(),
            exact_bounds(at, from as int, i as int, lo as int, hi as int),
        decreases to - i,
    {
        let x: i32 = v[i];
        assert(at(i as int) == x);
        if x < lo {
            lo = x;
        }
        if x > hi {
            hi = x;
        }
        i = i + 1;
    }
    (lo, hi)
}

fn bounds_i16(v: &[i16], from: usize, to: usize) -> (r: (i16, i16))
    requires
        from < to <= v@.len(),
    ensures
        exact_bounds(|k: int| v@[k] as int, from as int, to as int, r.0 as int, r.1 as int),
{
    let ghost at = |k: int| v@[k] as int;
    let mut lo: i16 = v[from];
    let mut hi: i16 = v[from];
    let mut i: usize = from + 1;
    assert(at(from as int) == lo);
    while i < to
        invariant
            at == (|k: int| v@[k] as int),
            from < i <= to <= v@.len(),
            exact_bounds(at, from as int, i as int, lo as int, hi as int),
        decreases to - i,
    {
        let x: i16 = v[i];
        assert(at(i as int) == x);
        if x < lo {
            lo = x;
        }
        if x > hi {
            hi = x;
        }
        i = i + 1;
    }
    (lo, hi)
}

fn bounds_i64(v: &[i64], from: usize, to: usize) -> (r: (i64, i64))
    requires
        from < to <= v@.len(),
    ensures
        exact_bounds(|k: int| v@[k] as int, from as int, to as int, r.0 as int, r.1 as int),
{
    let ghost at = |k: int| v@[k] as int;
    let mut lo: i64 = v[from];
    let mut hi: i64 = v[from];
    let mut i: usize = from + 1;
    assert(at(from as int) == lo);
    while i < to
        invariant
            at == (|k: int| v@[k] as int),
            from < i <= to <= v@.len(),
            exact_bounds(at, from as int, i as int, lo as int, hi as int),
        decreases to - i,
    {
        let x: i64 = v[i];
        assert(at(i as int) == x);
        if x < lo {
            lo = x;
        }
        if x > hi {
            hi = x;
        }
        i = i + 1;
    }
    (lo, hi)
}

/// The number of nonzero values from `from` up to `to`.
pub open spec fn nonzero_count(v: Seq<i16>, from: int, to: int) -> nat
    decreases to - from,
{
    if to <= from {
        0
    } else {
        nonzero_count(v, from, to - 1) + if v[to - 1] != 0 {
            1nat
        } else {
            0nat
        }
    }
}

proof fn lemma_nonzero_count_split(v: Seq<i16>, a: int, b: int, c: int)
    requires
        a <= b <= c,
    ensures
        nonzero_count(v, a, c) == nonzero_count(v, a, b) + nonzero_count(v, b, c),
    decreases c - b,
{
    if b < c {
        lemma_nonzero_count_split(v, a, b, c - 1);
    }
}

/// The key columns that a zone index is built from.
pub struct ZoneSource {
    pub counters: Seq<i32>,
    pub dates: Seq<i32>,
    pub adv: Option<Seq<i16>>,
    pub times: Option<Seq<i64>>,
    pub has_adv: bool,
    pub has_times: bool,
}

impl ZoneSource {
    /// The number of rows covered by the index.
    pub open spec fn rows(self) -> int {
        if self.counters.len() <= self.dates.len() {
            self.counters.len() as int
        } else {
            self.dates.len() as int
        }
    }

    /// Whether the optional columns reach as far as the zones need them.
    pub open spec fn reaches(self) -> bool {
        &&& self.adv matches Some(a) ==> a.len() >= self.rows()
        &&& self.times matches Some(t) ==> self.rows() > 0 ==> t.len() >= zone_of(self.rows() - 1) * ZONE_ROWS
    }

    /// Whether a zone holds the exact bounds of the rows from `from` up to `to`.
    pub open spec fn summarises(self, zone: Zone, from: int, to: int) -> bool {
        &&& exact_bounds(
            |k: int| self.counters[k] as int,
            from,
            to,
            zone.min_counter as int,
            zone.max_counter as int,
        )
        &&& exact_bounds(
            |k: int| self.dates[k] as int,
            from,
            to,
            zone.min_date as int,
            zone.max_date as int,
        )
        &&& match self.adv {
            Some(a) => {
                &&& exact_bounds(
                    |k: int| a[k] as int,
                    from,
                    to,
                    zone.min_adv as int,
                    zone.max_adv as int,
                )
                &&& zone.adv_nonzero == nonzero_count(a, from, to)
            },
            None => zone.min_adv == 0 && zone.max_adv == 0 && zone.adv_nonzero == 0,
        }
        &&& match self.times {
            Some(t) => {
                let end = if to <= t.len() { to } else { t.len() as int };
                if from < end {
                    exact_bounds(
                        |k: int| t[k] as int,
                        from,
                        end,
                        zone.min_event_time as int,
                        zone.max_event_time as int,
                    )
                } else {
                    zone.min_event_time == i64::MAX && zone.max_event_time == i64::MIN
                }
            },
            None => zone.min_event_time == i64::MAX && zone.max_event_time == i64::MIN,
        }
    }
}

/// The zone that a row belongs to.
pub open spec fn zone_of(row: int) -> int {
    row / (ZONE_ROWS as int)
}

/// Where zone `i` of a run of `n` rows ends.
pub open spec fn zone_end(i: int, n: int) -> int {
    if (i + 1) * ZONE_ROWS <= n {
        (i + 1) * ZONE_ROWS
    } else {
        n
    }
}

/// The key columns of a table, if it has the two that an index needs.
pub open spec fn zone_source(table: Table) -> Option<ZoneSource> {
    if table.has("CounterID"@) && table.has("EventDate"@) {
        match (table.col("CounterID"@), table.col("EventDate"@)) {
            (ColumnView::Int32(counters), ColumnView::Date(dates)) => Some(
                ZoneSource {
                    counters,
                    dates,
                    adv: if table.has("AdvEngineID"@) {
                        match table.col("AdvEngineID"@) {
                            ColumnView::Int16(a) => Some(a),
                            _ => None,
                        }
                    } else {
                        None
                    },
                    times: if table.has("EventTime"@) {
                        match table.col("EventTime"@) {
                            ColumnView::Timestamp(t) => Some(t),
                            _ => None,
                        }
                    } else {
                        None
                    },
                    has_adv: table.has("AdvEngineID"@),
                    has_times: table.has("EventTime"@),
                },
            ),
            _ => None,
        }
    } else {
        None
    }
}

impl ZoneIndex {
    /// Whether this is the index of these columns.
    pub open spec fn indexes(self, src: ZoneSource) -> bool {
        let n = src.rows();
        &&& n > 0
        &&& (self.zones@.len() - 1) * ZONE_ROWS < n <= self.zones@.len() * ZONE_ROWS
        &&& forall|i: int|
            0 <= i < self.zones@.len() ==> src.summarises(
                #[trigger] self.zones@[i],
                i * ZONE_ROWS,
                zone_end(i, n),
            )
        &&& self.version == (if src.has_times {
            ZONE_VERSION_V2
        } else if src.has_adv {
            ZONE_VERSION_V1
        } else {
            0
        })
    }

    /// Builds the index of a table. There is one where the table has a loaded
    /// counter column and a loaded date column, and rows.
    pub fn build(table: &Table) -> (r: Option<Self>)
        requires
            table.wf(),
            zone_source(*table) matches Some(src) ==> src.reaches(),
        ensures
            match zone_source(*table) {
                Some(src) if src.rows() > 0 => r is Some && r->Some_0.indexes(src),
                _ => r is None,
            },
    {
        let counter = match table.column("CounterID") {
            Ok(c) => c,
            Err(_) => {
                return None;
            },
        };
        let date = match table.column("EventDate") {
            Ok(c) => c,
            Err(_) => {
                return None;
            },
        };
        let adv = table.column("AdvEngineID");
        let event_time = table.column("EventTime");
        let has_adv = adv.is_ok();
        let has_times = event_time.is_ok();
        let adv_col: Option<&[i16]> = match adv {
            Ok(ColumnData::Int16(a)) => Some(a.as_slice()),
            _ => None,
        };
        let time_col: Option<&[i64]> = match event_time {
            Ok(ColumnData::Timestamp(t)) => Some(t.as_slice()),
            _ => None,
        };
        let (counters, dates): (&[i32], &[i32]) = match (counter, date) {
            (ColumnData::Int32(c), ColumnData::Date(d)) => (c.as_slice(), d.as_slice()),
            _ => {
                return None;
            },
        };
        let ghost src = zone_source(*table)->Some_0;
        proof {
            assert(src.counters == counters@);
            assert(src.dates == dates@);
        }
        let n: usize = if counters.len() <= dates.len() {
            counters.len()
        } else {
            dates.len()
        };
        if n == 0 {
            return None;
        }
        let mut zones: Vec<Zone> = Vec::new();
        let mut z: usize = 0;
        while z < n
            invariant
                src.counters == counters@,
                src.dates == dates@,
                match adv_col {
                    Some(a) => src.adv == Some(a@),
                    None => src.adv is None,
                },
                match time_col {
                    Some(t) => src.times == Some(t@),
                    None => src.times is None,
                },
                n == src.rows(),
                n <= counters@.len(),
                n <= dates@.len(),
                src.reaches(),
                z <= n,
                z < n ==> z == zones@.len() * ZONE_ROWS,
                z == n ==> (zones@.len() - 1) * ZONE_ROWS < n <= zones@.len() * ZONE_ROWS,
                n > 0,
                forall|i: int|
                    0 <= i < zones@.len() ==> src.summarises(
                        #[trigger] zones@[i],
                        i * ZONE_ROWS,
                        zone_end(i, n as int),
                    ),
            decreases n - z,
        {
            let end: usize = if n - z > ZONE_ROWS {
                z + ZONE_ROWS
            } else {
                n
            };
            proof {
                let i = zones@.len() as int;
                assert(end == zone_end(i, n as int));
            }
            let (min_counter, max_counter) = bounds_i32(counters, z, end);
            let (min_date, max_date) = bounds_i32(dates, z, end);
            let (min_adv, max_adv, adv_nonzero): (i16, i16, u32) = match adv_col {
                Some(a) => {
                    let (lo, hi) = bounds_i16(a, z, end);
                    let nz: u32 = count_nonzero_i16(a, z, end);
                    (lo, hi, nz)
                },
                None => (0, 0, 0),
            };
            let (min_event_time, max_event_time): (i64, i64) = match time_col {
                Some(t) => {
                    let stop: usize = if end <= t.len() {
                        end
                    } else {
                        t.len()
                    };
                    if z < stop {
                        bounds_i64(t, z, stop)
                    } else {
                        (i64::MAX, i64::MIN)
                    }
                },
                None => (i64::MAX, i64::MIN),
            };
            zones.push(
                Zone {
                    min_counter,
                    max_counter,
                    min_date,
                    max_date,
                    adv_nonzero,
                    min_adv,
                    max_adv,
                    min_event_time,
                    max_event_time,
                },
            );
            z = end;
        }
        let version: u32 = if has_times {
            ZONE_VERSION_V2
        } else if has_adv {
            ZONE_VERSION_V1
        } else {
            0
        };
        Some(ZoneIndex { version, zones })
    }

    /// The number of rows with a nonzero advertising engine, where the index
    /// keeps such counts.
    pub fn count_adv_nonzero_total(&self) -> (r: Option<u64>)
        requires
            adv_total(self.zones@) <= u64::MAX,
        ensures
            r == (if self.version < ZONE_VERSION_V1 {
                None
            } else {
                Some(adv_total(self.zones@) as u64)
            }),
    {
        if self.version < ZONE_VERSION_V1 {
            return None;
        }
        let mut total: u64 = 0;
        let mut i: usize = 0;
        while i < self.zones.len()
            invariant
                i <= self.zones@.len(),
                adv_total(self.zones@) <= u64::MAX,
                total == adv_total(self.zones@.take(i as int)),
            decreases self.zones@.len() - i,
        {
            proof {
                assert(self.zones@.take(i + 1).drop_last() =~= self.zones@.take(i as int));
                lemma_adv_total_grows(self.zones@, i + 1);
            }
            total = total + self.zones[i].adv_nonzero as u64;
            i = i + 1;
        }
        assert(self.zones@.take(i as int) =~= self.zones@);
        Some(total)
    }

    /// The row ranges of the zones that may hold a row of this counter with a
    /// date in range.
    pub fn dashboard_matching_ranges(
        &self,
        row_count: usize,
        counter: i32,
        min_date: i32,
        max_date: i32,
    ) -> (ranges: Vec<(usize, usize)>)
        ensures
            ranges@ == matching_ranges(
                self.zones@,
                self.zones@.len() as int,
                row_count as int,
                counter,
                min_date,
                max_date,
            ),
    {
        let mut ranges: Vec<(usize, usize)> = Vec::new();
        let mut row: usize = 0;
        let mut i: usize = 0;
        let ghost zs = self.zones@;
        while i < self.zones.len() && row < row_count
            invariant
                zs == self.zones@,
                i <= zs.len(),
                row == (if i * ZONE_ROWS <= row_count { i * ZONE_ROWS } else { row_count as int }),
                ranges@ == matching_ranges(
                    zs,
                    i as int,
                    row_count as int,
                    counter,
                    min_date,
                    max_date,
                ),
            decreases zs.len() - i,
        {
            let end: usize = if row_count - row > ZONE_ROWS {
                row + ZONE_ROWS
            } else {
                row_count
            };
            assert(end == zone_end(i as int, row_count as int));
            if self.zones[i].matches_dashboard(counter, min_date, max_date) {
                ranges.push((row, end));
            }
            row = end;
            i = i + 1;
        }
        proof {
            lemma_matching_ranges_stop(zs, i as int, row_count as int, counter, min_date, max_date);
        }
        ranges
    }

    /// A mask that is set exactly in the zones that may hold a row of this
    /// counter with a date in range.
    pub fn build_sparse_dashboard_mask(
        &self,
        row_count: usize,
        counter: i32,
        min_date: i32,
        max_date: i32,
    ) -> (mask: Vec<bool>)
        ensures
            mask@.len() == row_count,
            forall|r: int|
                0 <= r < row_count ==> #[trigger] mask@[r] == (zone_of(r)
                    < self.zones@.len() && self.zones@[zone_of(r)].may_match(
                    counter,
                    min_date,
                    max_date,
                )),
    {
        let mut mask: Vec<bool> = Vec::with_capacity(row_count);
        let mut r: usize = 0;
        while r < row_count
            invariant
                r <= row_count,
                mask@.len() == r,
                forall|k: int|
                    0 <= k < r ==> #[trigger] mask@[k] == (zone_of(k) < self.zones@.len()
                        && self.zones@[zone_of(k)].may_match(
                        counter,
                        min_date,
                        max_date,
                    )),
            decreases row_count - r,
        {
            let z: usize = r / ZONE_ROWS;
            let set = z < self.zones.len() && self.zones[z].matches_dashboard(
                counter,
                min_date,
                max_date,
            );
            mask.push(set);
            r = r + 1;
        }
        mask
    }

    /// Clears the rows of zones that cannot hold a nonzero advertising engine.
    pub fn apply_adv_ne_zero_prune(&self, mask: &mut Vec<bool>)
        ensures
            final(mask)@ == (if self.version < ZONE_VERSION_V1 {
                old(mask)@
            } else {
                pruned(old(mask)@, self.zones@, |z: Zone| z.may_have_adv())
            }),
    {
        if self.version < ZONE_VERSION_V1 {
            return;
        }
        let ghost keep = |z: Zone| z.may_have_adv();
        let n: usize = mask.len();
        let mut r: usize = 0;
        while r < n
            invariant
                keep == (|z: Zone| z.may_have_adv()),
                n == old(mask)@.len(),
                mask@.len() == n,
                r <= n,
                forall|k: int| 0 <= k < r ==> mask@[k] == pruned(old(mask)@, self.zones@, keep)[k],
                forall|k: int| r <= k < n ==> mask@[k] == old(mask)@[k],
            decreases n - r,
        {
            let z: usize = r / ZONE_ROWS;
            if z < self.zones.len() && !self.zones[z].has_adv() {
                mask.set(r, false);
            }
            r = r + 1;
        }
        assert(mask@ =~= pruned(old(mask)@, self.zones@, keep));
    }

    /// Whether the event-time bounds do not decrease from zone to zone.
    pub fn event_time_monotonic_in_row_order(&self) -> (r: bool)
        ensures
            r == (self.version >= ZONE_VERSION_V2 && self.zones@.len() > 0 && forall|i: int|
                0 <= i < self.zones@.len() - 1 ==> (#[trigger] self.zones@[i]).max_event_time
                    <= self.zones@[i + 1].min_event_time),
    {
        if self.version < ZONE_VERSION_V2 || self.zones.len() == 0 {
            return false;
        }
        let mut i: usize = 0;
        while i < self.zones.len() - 1
            invariant
                self.zones@.len() > 0,
                i <= self.zones@.len() - 1,
                forall|k: int|
                    0 <= k < i ==> (#[trigger] self.zones@[k]).max_event_time <= self.zones@[k
                        + 1].min_event_time,
            decreases self.zones@.len() - i,
        {
            if self.zones[i].max_event_time > self.zones[i + 1].min_event_time {
                return false;
            }
            i = i + 1;
        }
        true
    }

    /// Clears the rows of zones that cannot hold a row of this counter with a
    /// date in range.
    pub fn apply_dashboard_prune(
        &self,
        mask: &mut Vec<bool>,
        counter: i32,
        min_date: i32,
        max_date: i32,
    )
        ensures
            final(mask)@ == pruned(
                old(mask)@,
                self.zones@,
                |z: Zone| z.may_match(counter, min_date, max_date),
            ),
    {
        let ghost keep = |z: Zone| z.may_match(counter, min_date, max_date);
        let n: usize = mask.len();
        let mut r: usize = 0;
        while r < n
            invariant
                keep == (|z: Zone| z.may_match(counter, min_date, max_date)),
                n == old(mask)@.len(),
                mask@.len() == n,
                r <= n,
                forall|k: int| 0 <= k < r ==> mask@[k] == pruned(old(mask)@, self.zones@, keep)[k],
                forall|k: int| r <= k < n ==> mask@[k] == old(mask)@[k],
            decreases n - r,
        {
            let z: usize = r / ZONE_ROWS;
            if z < self.zones.len() && !self.zones[z].matches_dashboard(
                counter,
                min_date,
                max_date,
            ) {
                mask.set(r, false);
            }
            r = r + 1;
        }
        assert(mask@ =~= pruned(old(mask)@, self.zones@, keep));
    }
}

fn count_nonzero_i16(v: &[i16], from: usize, to: usize) -> (n: u32)
    requires
        from <= to <= v@.len(),
        to - from <= ZONE_ROWS,
    ensures
        n == nonzero_count(v@, from as int, to as int),
{
    let mut n: u32 = 0;
    let mut i: usize = from;
    while i < to
        invariant
            from <= i <= to <= v@.len(),
            to - from <= ZONE_ROWS,
            n <= i - from,
            n == nonzero_count(v@, from as int, i as int),
        decreases to - i,
    {
        if v[i] != 0 {
            n = n + 1;
        }
        i = i + 1;
    }
    n
}

/// The sum of the nonzero counts of some zones.
pub open spec fn adv_total(zones: Seq<Zone>) -> nat
    decreases zones.len(),
{
    if zones.len() == 0 {
        0
    } else {
        adv_total(zones.drop_last()) + zones.last().adv_nonzero as nat
    }
}

proof fn lemma_adv_total_grows(zones: Seq<Zone>, k: int)
    requires
        0 <= k <= zones.len(),
    ensures
        adv_total(zones.take(k)) <= adv_total(zones),
    decreases zones.len(),
{
    if k < zones.len() {
        assert(zones.drop_last().take(k) =~= zones.take(k));
        lemma_adv_total_grows(zones.drop_last(), k);
    } else {
        assert(zones.take(k) =~= zones);
    }
}

/// The row ranges of the first `upto` zones that may match, up to `rows`.
pub open spec fn matching_ranges(
    zones: Seq<Zone>,
    upto: int,
    rows: int,
    counter: i32,
    min_date: i32,
    max_date: i32,
) -> Seq<(usize, usize)>
    decreases upto,
{
    if upto <= 0 {
        Seq::empty()
    } else {
        let before = matching_ranges(zones, upto - 1, rows, counter, min_date, max_date);
        let i = upto - 1;
        if i * ZONE_ROWS < rows && zones[i].may_match(counter, min_date, max_date) {
            before.push(((i * ZONE_ROWS) as usize, zone_end(i, rows) as usize))
        } else {
            before
        }
    }
}

proof fn lemma_matching_ranges_stop(
    zones: Seq<Zone>,
    i: int,
    rows: int,
    counter: i32,
    min_date: i32,
    max_date: i32,
)
    requires
        0 <= i <= zones.len(),
        i == zones.len() || i * ZONE_ROWS >= rows,
    ensures
        matching_ranges(zones, zones.len() as int, rows, counter, min_date, max_date)
            == matching_ranges(zones, i, rows, counter, min_date, max_date),
{
    lemma_matching_ranges_skip(zones, i, zones.len() as int, rows, counter, min_date, max_date);
}

proof fn lemma_matching_ranges_skip(
    zones: Seq<Zone>,
    i: int,
    j: int,
    rows: int,
    counter: i32,
    min_date: i32,
    max_date: i32,
)
    requires
        0 <= i <= j <= zones.len(),
        i == j || i * ZONE_ROWS >= rows,
    ensures
        matching_ranges(zones, j, rows, counter, min_date, max_date) == matching_ranges(
            zones,
            i,
            rows,
            counter,
            min_date,
            max_date,
        ),
    decreases j - i,
{
    if i < j {
        lemma_matching_ranges_skip(zones, i, j - 1, rows, counter, min_date, max_date);
    }
}

/// Whether a row lies in one of some ranges.
pub open spec fn covers(ranges: Seq<(usize, usize)>, row: int) -> bool {
    exists|k: int| 0 <= k < ranges.len() && (#[trigger] ranges[k]).0 <= row < ranges[k].1
}

/// A mask with the rows of the zones that `keep` refuses cleared. Rows behind
/// the last zone stay as they are.
pub open spec fn pruned(mask: Seq<bool>, zones: Seq<Zone>, keep: spec_fn(Zone) -> bool) -> Seq<bool> {
    Seq::new(
        mask.len(),
        |r: int|
            mask[r] && (zone_of(r) >= zones.len() || keep(zones[zone_of(r)])),
    )
}

proof fn lemma_zone_of_row(ix: ZoneIndex, src: ZoneSource, row: int)
    requires
        ix.indexes(src),
        0 <= row < src.rows(),
    ensures
        ({
            let z = zone_of(row);
            &&& 0 <= z < ix.zones@.len()
            &&& z * ZONE_ROWS <= row < zone_end(z, src.rows())
            &&& src.summarises(ix.zones@[z], z * ZONE_ROWS, zone_end(z, src.rows()))
        }),
{
    let z = zone_of(row);
    assert(0 <= z < ix.zones@.len());
    assert(src.summarises(ix.zones@[z], z * ZONE_ROWS, zone_end(z, src.rows())));
}

/// Pruning by the index of a table never clears a row that the dashboard
/// filter selects, and the sparse mask contains every such row.
pub proof fn law_dashboard_prune_sound(
    ix: ZoneIndex,
    src: ZoneSource,
    mask: Seq<bool>,
    row: int,
    counter: i32,
    min_date: i32,
    max_date: i32,
)
    requires
        ix.indexes(src),
        0 <= row < src.rows(),
        src.rows() <= usize::MAX,
        mask.len() == src.rows(),
        src.counters[row] == counter,
        min_date <= src.dates[row] <= max_date,
    ensures
        pruned(mask, ix.zones@, |z: Zone| z.may_match(counter, min_date, max_date))[row]
            == mask[row],
        zone_of(row) < ix.zones@.len(),
        ix.zones@[zone_of(row)].may_match(counter, min_date, max_date),
        covers(
            matching_ranges(
                ix.zones@,
                ix.zones@.len() as int,
                src.rows(),
                counter,
                min_date,
                max_date,
            ),
            row,
        ),
{
    lemma_zone_of_row(ix, src, row);
    let z = zone_of(row);
    let zone = ix.zones@[z];
    let c = |k: int| src.counters[k] as int;
    let d = |k: int| src.dates[k] as int;
    assert(c(row) == counter);
    assert(zone.min_counter <= c(row) <= zone.max_counter);
    assert(zone.min_date <= d(row) <= zone.max_date);
    lemma_range_listed(
        ix.zones@,
        ix.zones@.len() as int,
        src.rows(),
        counter,
        min_date,
        max_date,
        z,
    );
    let ranges = matching_ranges(
        ix.zones@,
        ix.zones@.len() as int,
        src.rows(),
        counter,
        min_date,
        max_date,
    );
    let pair = ((z * ZONE_ROWS) as usize, zone_end(z, src.rows()) as usize);
    let k = choose|k: int| 0 <= k < ranges.len() && ranges[k] == pair;
    assert(ranges[k].0 <= row < ranges[k].1);
}

proof fn lemma_range_listed(
    zones: Seq<Zone>,
    upto: int,
    rows: int,
    counter: i32,
    min_date: i32,
    max_date: i32,
    z: int,
)
    requires
        0 <= z < upto <= zones.len(),
        z * ZONE_ROWS < rows <= usize::MAX,
        zones[z].may_match(counter, min_date, max_date),
    ensures
        matching_ranges(zones, upto, rows, counter, min_date, max_date).contains(
            ((z * ZONE_ROWS) as usize, zone_end(z, rows) as usize),
        ),
    decreases upto,
{
    let ranges = matching_ranges(zones, upto, rows, counter, min_date, max_date);
    if z == upto - 1 {
        assert(ranges[ranges.len() - 1] == ((z * ZONE_ROWS) as usize, zone_end(z, rows) as usize));
    } else {
        lemma_range_listed(zones, upto - 1, rows, counter, min_date, max_date, z);
        let before = matching_ranges(zones, upto - 1, rows, counter, min_date, max_date);
        let pair = ((z * ZONE_ROWS) as usize, zone_end(z, rows) as usize);
        let k = choose|k: int| 0 <= k < before.len() && before[k] == pair;
        assert(ranges[k] == before[k]);
    }
}

/// Pruning by the index of a table never clears a row whose advertising engine
/// is not zero.
pub proof fn law_adv_prune_sound(ix: ZoneIndex, src: ZoneSource, mask: Seq<bool>, row: int)
    requires
        ix.indexes(src),
        0 <= row < src.rows(),
        mask.len() == src.rows(),
        src.adv matches Some(a) && a[row] != 0,
    ensures
        pruned(mask, ix.zones@, |z: Zone| z.may_have_adv())[row] == mask[row],
{
    lemma_zone_of_row(ix, src, row);
    let z = zone_of(row);
    let zone = ix.zones@[z];
    let a = src.adv->Some_0;
    let at = |k: int| a[k] as int;
    assert(zone.min_adv <= at(row) <= zone.max_adv);
    let v = a[row];
    assert(zone.admits_adv(v));
}

/// The counts kept in the zones of a table add up to its rows with a nonzero
/// advertising engine.
pub proof fn law_adv_total_exact(ix: ZoneIndex, src: ZoneSource)
    requires
        ix.indexes(src),
        src.adv is Some,
    ensures
        adv_total(ix.zones@) == nonzero_count(src.adv->Some_0, 0, src.rows()),
{
    lemma_adv_total_upto(ix, src, ix.zones@.len() as int);
    assert(ix.zones@.take(ix.zones@.len() as int) =~= ix.zones@);
    let last = ix.zones@.len() - 1;
    assert(zone_end(last, src.rows()) == src.rows());
}

proof fn lemma_adv_total_upto(ix: ZoneIndex, src: ZoneSource, k: int)
    requires
        ix.indexes(src),
        src.adv is Some,
        0 <= k <= ix.zones@.len(),
    ensures
        adv_total(ix.zones@.take(k)) == nonzero_count(
            src.adv->Some_0,
            0,
            if k == 0 {
                0
            } else {
                zone_end(k - 1, src.rows())
            },
        ),
    decreases k,
{
    if k > 0 {
        lemma_adv_total_upto(ix, src, k - 1);
        let z = ix.zones@[k - 1];
        assert(ix.zones@.take(k).drop_last() =~= ix.zones@.take(k - 1));
        assert(ix.zones@.take(k).last() == z);
        assert(src.summarises(z, (k - 1) * ZONE_ROWS, zone_end(k - 1, src.rows())));
        assert((k - 1) * ZONE_ROWS <= zone_end(k - 1, src.rows()));
        lemma_nonzero_count_split(
            src.adv->Some_0,
            0,
            (k - 1) * ZONE_ROWS,
            zone_end(k - 1, src.rows()),
        );
    } else {
        assert(ix.zones@.take(0) =~= Seq::<Zone>::empty());
    }
}

/// Where the zone bounds do not decrease, no row of an earlier zone is later
/// than a row of a later zone.
pub proof fn law_monotonic_zones_order_rows(ix: ZoneIndex, src: ZoneSource, a: int, b: int)
    requires
        ix.indexes(src),
        src.times matches Some(t) && t.len() >= src.rows(),
        forall|i: int|
            0 <= i < ix.zones@.len() - 1 ==> (#[trigger] ix.zones@[i]).max_event_time
                <= ix.zones@[i + 1].min_event_time,
        0 <= a < src.rows(),
        0 <= b < src.rows(),
        zone_of(a) < zone_of(b),
    ensures
        src.times->Some_0[a] <= src.times->Some_0[b],
{
    lemma_zone_of_row(ix, src, a);
    lemma_zone_of_row(ix, src, b);
    let t = src.times->Some_0;
    let at = |k: int| t[k] as int;
    let za = zone_of(a);
    let zb = zone_of(b);
    assert(at(a) <= ix.zones@[za].max_event_time);
    assert(ix.zones@[zb].min_event_time <= at(b));
    lemma_zone_chain(ix, src, za, zb);
}

proof fn lemma_zone_chain(ix: ZoneIndex, src: ZoneSource, za: int, zb: int)
    requires
        ix.indexes(src),
        src.times matches Some(t) && t.len() >= src.rows(),
        forall|i: int|
            0 <= i < ix.zones@.len() - 1 ==> (#[trigger] ix.zones@[i]).max_event_time
                <= ix.zones@[i + 1].min_event_time,
        0 <= za < zb < ix.zones@.len(),
    ensures
        ix.zones@[za].max_event_time <= ix.zones@[zb].min_event_time,
    decreases zb - za,
{
    if za + 1 < zb {
        lemma_zone_chain(ix, src, za, zb - 1);
        let m = zb - 1;
        let t = src.times->Some_0;
        let at = |k: int| t[k] as int;
        assert(src.summarises(ix.zones@[m], m * ZONE_ROWS, zone_end(m, src.rows())));
        assert(at(m * ZONE_ROWS) >= ix.zones@[m].min_event_time);
        assert(at(m * ZONE_ROWS) <= ix.zones@[m].max_event_time);
    }
}

} // verus!
