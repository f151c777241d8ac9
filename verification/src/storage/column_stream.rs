//! Columns read out of their files one at a time, without a place in memory.
use crate::error::{fails, yields, Error};
use crate::storage::column::{
    decode_column_payload_from_bytes, file_outcome, payload_count, sidecar_of,
};
use crate::storage::pod::{pod_values, read_pod_slice, Pod, PodStorage};
use crate::storage::table::sound_text;
use crate::storage::utf8_col::{
    entry_is_text, entry_len, entry_ok, entry_text, prefix_at, read_utf8_offsets, Utf8Column,
};
use vstd::prelude::*;

verus! {

/// The places of a number of entries that follow each other from a place on; `None`
/// where a length prefix is cut short.
pub open spec fn counted_offsets(body: Seq<u8>, pos: int, count: nat) -> Option<Seq<u64>>
    decreases count,
{
    if count == 0 {
        Some(Seq::empty())
    } else if pos + 4 > body.len() {
        None
    } else {
        match counted_offsets(body, pos + 4 + entry_len(body, pos), (count - 1) as nat) {
            Some(rest) => Some(seq![pos as u64] + rest),
            None => None,
        }
    }
}

/// The places of a number of entries that follow each other.
pub fn build_sequential_offsets(body: &[u8], row_count: u64) -> (r: Result<Vec<u64>, Error>)
    ensures
        match r {
            Ok(v) => counted_offsets(body@, 0, row_count as nat) == Some(v@),
            Err(e) => counted_offsets(body@, 0, row_count as nat) is None && e@
                == "utf8 payload truncated"@,
        },
{
    let total: usize = body.len();
    let mut offsets: Vec<u64> = Vec::new();
    let mut pos: u64 = 0;
    let mut i: u64 = 0;
    let ghost whole = counted_offsets(body@, 0, row_count as nat);
    proof {
        match whole {
            Some(rest) => {
                assert(Seq::<u64>::empty() + rest =~= rest);
            },
            None => {},
        }
    }
    while i < row_count
        invariant
            i <= row_count,
            total == body@.len(),
            whole == counted_offsets(body@, 0, row_count as nat),
            whole == (match counted_offsets(body@, pos as int, (row_count - i) as nat) {
                Some(rest) => Some(offsets@ + rest),
                None => None,
            }),
        decreases row_count - i,
    {
        let n: u32 = match prefix_at(body, pos) {
            Some(n) => n,
            None => {
                return Err(Error::msg("utf8 payload truncated"));
            },
        };
        let ghost seen = offsets@;
        offsets.push(pos);
        proof {
            match counted_offsets(body@, pos + 4 + n, (row_count - i - 1) as nat) {
                Some(rest) => {
                    assert(seen + (seq![pos] + rest) =~= seen.push(pos) + rest);
                },
                None => {},
            }
        }
        i = i + 1;
        let step: u64 = 4 + n as u64;
        if pos <= u64::MAX - step {
            pos = pos + step;
        } else if i < row_count {
            return Err(Error::msg("utf8 payload truncated"));
        }
    }
    assert(offsets@ + Seq::<u64>::empty() =~= offsets@);
    Ok(offsets)
}

/// The texts of a column's file, one row after another.
pub struct Utf8ColumnScan {
    rows: Utf8Column,
}

/// The places of the rows in a file of texts: those kept beside it, or those found by
/// walking as many entries as there are rows.
pub open spec fn scan_offsets(payload: Seq<u8>, sidecar: Option<Seq<u64>>) -> Option<Seq<u64>> {
    match sidecar {
        Some(o) => Some(o),
        None => counted_offsets(payload.skip(8), 0, payload_count(payload)),
    }
}

/// The texts of a column's file, or why there are none.
pub open spec fn texts_scanned(data: Seq<u8>, sidecar: Option<Seq<u64>>) -> Result<
    Seq<Seq<char>>,
    Seq<char>,
> {
    match file_outcome(data) {
        Err(m) => Err(m),
        Ok((_, payload)) => if payload.len() < 8 {
            Err("column payload truncated"@)
        } else {
            match scan_offsets(payload, sidecar) {
                None => Err("utf8 payload truncated"@),
                Some(offsets) => if sound_text(payload.skip(8), offsets) {
                    Ok(
                        Seq::new(
                            offsets.len(),
                            |i: int| entry_text(payload.skip(8), offsets[i] as int),
                        ),
                    )
                } else {
                    Err("utf8 payload is not valid text"@)
                },
            }
        },
    }
}

impl View for Utf8ColumnScan {
    type V = Seq<Seq<char>>;

    closed spec fn view(&self) -> Seq<Seq<char>> {
        self.rows@
    }
}

impl Utf8ColumnScan {
    /// Whether every row holds valid text.
    pub closed spec fn wf(&self) -> bool {
        self.rows.wf()
    }

    /// Reads the texts out of a column's file and the offset file beside it.
    pub fn open(data: &[u8], idx: Option<&[u8]>) -> (r: Result<Self, Error>)
        ensures
            match r {
                Ok(s) => s.wf() && yields(texts_scanned(data@, sidecar_of(idx)), s@),
                Err(e) => fails(texts_scanned(data@, sidecar_of(idx)), e@),
            },
    {
        let payload = match decode_column_payload_from_bytes(data) {
            Ok((_, p)) => p,
            Err(e) => {
                return Err(e);
            },
        };
        if payload.len() < 8 {
            return Err(Error::msg("column payload truncated"));
        }
        let bytes = payload.as_slice();
        let count: u64 = u64::read_le(&bytes[0..8]);
        let body = &bytes[8..bytes.len()];
        proof {
            assert(payload@.subrange(0, 8) =~= payload@.take(8));
            assert(body@ =~= payload@.skip(8));
        }
        let kept = match idx {
            Some(d) => read_utf8_offsets(d),
            None => None,
        };
        let offsets = match kept {
            Some(o) => o,
            None => match build_sequential_offsets(body, count) {
                Ok(o) => o,
                Err(e) => {
                    return Err(e);
                },
            },
        };
        let ghost places = offsets@;
        let rows = match Utf8Column::from_body_with_sidecar(body, Some(offsets)) {
            Ok(c) => c,
            Err(e) => {
                return Err(e);
            },
        };
        if rows.check() {
            proof {
                assert forall|i: int| 0 <= i < places.len() implies entry_ok(
                    body@,
                    #[trigger] places[i] as int,
                ) && entry_is_text(body@, places[i] as int) by {
                    assert(rows.row_ok(i));
                }
                assert(rows@ =~= Seq::new(
                    places.len(),
                    |i: int| entry_text(payload@.skip(8), places[i] as int),
                ));
            }
            Ok(Utf8ColumnScan { rows })
        } else {
            proof {
                let i = choose|i: int| 0 <= i < rows@.len() && !#[trigger] rows.row_ok(i);
                let o = places[i];
            }
            Err(Error::msg("utf8 payload is not valid text"))
        }
    }

    /// The number of rows.
    pub fn len(&self) -> (n: usize)
        ensures
            n == self@.len(),
    {
        self.rows.len()
    }

    /// The text of a row.
    pub fn str_at(&self, row: usize) -> (s: &str)
        requires
            self.wf(),
            row < self@.len(),
        ensures
            s@ == self@[row as int],
    {
        assert(self.rows.row_ok(row as int));
        self.rows.get(row)
    }

    /// The rows as a column.
    pub fn as_column(&self) -> (c: &Utf8Column)
        requires
            self.wf(),
        ensures
            c.wf(),
            c@ == self@,
    {
        &self.rows
    }
}

/// The numbers of a column's file, one row after another.
pub struct Int64ColumnScan {
    values: PodStorage<i64>,
}

/// The numbers of a column's file, or why there are none.
pub open spec fn numbers_scanned(data: Seq<u8>) -> Result<Seq<i64>, Seq<char>> {
    match file_outcome(data) {
        Err(m) => Err(m),
        Ok((_, payload)) => if payload.len() < 8 || payload_count(payload) * 8 > payload.len() - 8 {
            Err("column payload truncated"@)
        } else {
            Ok(pod_values::<i64>(payload.skip(8), payload_count(payload)))
        },
    }
}

impl View for Int64ColumnScan {
    type V = Seq<i64>;

    closed spec fn view(&self) -> Seq<i64> {
        self.values@
    }
}

impl Int64ColumnScan {
    /// Reads the numbers out of a column's file.
    pub fn open(data: &[u8]) -> (r: Result<Self, Error>)
        ensures
            match r {
                Ok(s) => yields(numbers_scanned(data@), s@),
                Err(e) => fails(numbers_scanned(data@), e@),
            },
    {
        let payload = match decode_column_payload_from_bytes(data) {
            Ok((_, p)) => p,
            Err(e) => {
                return Err(e);
            },
        };
        if payload.len() < 8 {
            return Err(Error::msg("column payload truncated"));
        }
        let bytes = payload.as_slice();
        let count: u64 = u64::read_le(&bytes[0..8]);
        let body = &bytes[8..bytes.len()];
        proof {
            assert(payload@.subrange(0, 8) =~= payload@.take(8));
            assert(body@ =~= payload@.skip(8));
        }
        if count > body.len() as u64 {
            return Err(Error::msg("column payload truncated"));
        }
        match read_pod_slice::<i64>(body, count as usize) {
            Ok(values) => Ok(Int64ColumnScan { values }),
            Err(e) => Err(e),
        }
    }

    /// The number of a row.
    pub fn at(&self, row: usize) -> (v: i64)
        requires
            row < self@.len(),
        ensures
            v == self@[row as int],
    {
        self.values.get(row)
    }

    /// The numbers of all rows.
    pub fn as_slice(&self) -> (s: &[i64])
        ensures
            s@ == self@,
    {
        self.values.as_slice()
    }
}

} // verus!
