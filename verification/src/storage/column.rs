//! Columns, and the files they are kept in.
//!
//! A column file is the magic `CRUN`, a format byte, a type tag, an encoding
//! byte and a payload; files without the format byte are read as raw. The
//! payload is a row count followed by the values, and may be LZ4-compressed.
use crate::error::{fails, outcome, text_outcome, yields, Error};
use crate::storage::pod::{
    lemma_pod_bytes_len, lemma_pod_round_trip, pod_at, pod_bytes, pod_values, read_pod_at,
    read_pod_slice, write_pod_vec, Pod, PodStorage,
};
use crate::storage::utf8_col::{
    cell_outcome, idx_file, idx_offsets, law_offsets_read_back, law_text_read_back,
    read_utf8_offsets, sequential_offsets, text_body, text_offsets, texts_fit, utf8_idx_sidecar,
    utf8_str_at, Utf8Column,
};
use crate::text::{decimal, int_text, texts};
use vstd::prelude::*;
use vstd::utf8::encode_utf8;

verus! {

/// The type of a column.
#[derive(Debug, Clone, Copy, PartialEq, Eq, Structural)]
pub enum ColumnType {
    Int64,
    Int32,
    Int16,
    Utf8,
    Date,
    Timestamp,
}

/// The values of a column.
pub enum ColumnData {
    Int64(PodStorage<i64>),
    Int32(PodStorage<i32>),
    Int16(PodStorage<i16>),
    Utf8(Utf8Column),
    Date(PodStorage<i32>),
    Timestamp(PodStorage<i64>),
}

/// A column as a type and a sequence of values.
pub enum ColumnView {
    Int64(Seq<i64>),
    Int32(Seq<i32>),
    Int16(Seq<i16>),
    Utf8(Seq<Seq<char>>),
    Date(Seq<i32>),
    Timestamp(Seq<i64>),
}

impl ColumnView {
    /// The number of rows.
    pub open spec fn len(self) -> nat {
        match self {
            ColumnView::Int64(v) => v.len(),
            ColumnView::Int32(v) => v.len(),
            ColumnView::Int16(v) => v.len(),
            ColumnView::Utf8(v) => v.len(),
            ColumnView::Date(v) => v.len(),
            ColumnView::Timestamp(v) => v.len(),
        }
    }

    /// The type of the column.
    pub open spec fn column_type(self) -> ColumnType {
        match self {
            ColumnView::Int64(_) => ColumnType::Int64,
            ColumnView::Int32(_) => ColumnType::Int32,
            ColumnView::Int16(_) => ColumnType::Int16,
            ColumnView::Utf8(_) => ColumnType::Utf8,
            ColumnView::Date(_) => ColumnType::Date,
            ColumnView::Timestamp(_) => ColumnType::Timestamp,
        }
    }

    /// The text of one row as it is stored: numbers, dates and times in decimal.
    pub open spec fn cell_text(self, row: int) -> Seq<char> {
        match self {
            ColumnView::Int64(v) => decimal(v[row] as int),
            ColumnView::Int32(v) => decimal(v[row] as int),
            ColumnView::Int16(v) => decimal(v[row] as int),
            ColumnView::Utf8(v) => v[row],
            ColumnView::Date(v) => decimal(v[row] as int),
            ColumnView::Timestamp(v) => decimal(v[row] as int),
        }
    }

    /// The column with the rows of another of the same type behind its own.
    pub open spec fn followed_by(self, other: ColumnView) -> ColumnView {
        match (self, other) {
            (ColumnView::Int64(a), ColumnView::Int64(b)) => ColumnView::Int64(a + b),
            (ColumnView::Int32(a), ColumnView::Int32(b)) => ColumnView::Int32(a + b),
            (ColumnView::Int16(a), ColumnView::Int16(b)) => ColumnView::Int16(a + b),
            (ColumnView::Utf8(a), ColumnView::Utf8(b)) => ColumnView::Utf8(a + b),
            (ColumnView::Date(a), ColumnView::Date(b)) => ColumnView::Date(a + b),
            (ColumnView::Timestamp(a), ColumnView::Timestamp(b)) => ColumnView::Timestamp(a + b),
            _ => self,
        }
    }
}

impl View for ColumnData {
    type V = ColumnView;

    open spec fn view(&self) -> ColumnView {
        match self {
            ColumnData::Int64(v) => ColumnView::Int64(v@),
            ColumnData::Int32(v) => ColumnView::Int32(v@),
            ColumnData::Int16(v) => ColumnView::Int16(v@),
            ColumnData::Utf8(v) => ColumnView::Utf8(v@),
            ColumnData::Date(v) => ColumnView::Date(v@),
            ColumnData::Timestamp(v) => ColumnView::Timestamp(v@),
        }
    }
}

impl ColumnData {
    /// Whether every row of a text column is valid text.
    pub open spec fn wf(&self) -> bool {
        match self {
            ColumnData::Utf8(v) => v.wf(),
            _ => true,
        }
    }

    /// Whether the column can take more values.
    pub open spec fn growable(&self) -> bool {
        match self {
            ColumnData::Int64(v) => v is Owned,
            ColumnData::Int32(v) => v is Owned,
            ColumnData::Int16(v) => v is Owned,
            ColumnData::Utf8(_) => true,
            ColumnData::Date(v) => v is Owned,
            ColumnData::Timestamp(v) => v is Owned,
        }
    }

    /// Tests whether every row of a text column is valid text.
    pub fn check(&self) -> (r: bool)
        ensures
            r == self.wf(),
    {
        match self {
            ColumnData::Utf8(v) => v.check(),
            _ => true,
        }
    }

    /// The 64-bit values of an integer or time column.
    pub fn as_i64_slice(&self) -> (r: Option<&[i64]>)
        ensures
            match self@ {
                ColumnView::Int64(v) => r is Some && r->Some_0@ == v,
                ColumnView::Timestamp(v) => r is Some && r->Some_0@ == v,
                _ => r is None,
            },
    {
        match self {
            ColumnData::Int64(v) => Some(v.as_slice()),
            ColumnData::Timestamp(v) => Some(v.as_slice()),
            _ => None,
        }
    }

    /// The 32-bit values of an integer or date column.
    pub fn as_i32_slice(&self) -> (r: Option<&[i32]>)
        ensures
            match self@ {
                ColumnView::Int32(v) => r is Some && r->Some_0@ == v,
                ColumnView::Date(v) => r is Some && r->Some_0@ == v,
                _ => r is None,
            },
    {
        match self {
            ColumnData::Int32(v) => Some(v.as_slice()),
            ColumnData::Date(v) => Some(v.as_slice()),
            _ => None,
        }
    }

    /// The 16-bit values of an integer column.
    pub fn as_i16_slice(&self) -> (r: Option<&[i16]>)
        ensures
            match self@ {
                ColumnView::Int16(v) => r is Some && r->Some_0@ == v,
                _ => r is None,
            },
    {
        match self {
            ColumnData::Int16(v) => Some(v.as_slice()),
            _ => None,
        }
    }

    /// The number of rows.
    pub fn len(&self) -> (n: usize)
        ensures
            n == self@.len(),
    {
        match self {
            ColumnData::Int64(v) => v.len(),
            ColumnData::Int32(v) => v.len(),
            ColumnData::Int16(v) => v.len(),
            ColumnData::Utf8(v) => v.len(),
            ColumnData::Date(v) => v.len(),
            ColumnData::Timestamp(v) => v.len(),
        }
    }

    /// The type of the column.
    pub fn column_type(&self) -> (t: ColumnType)
        ensures
            t == self@.column_type(),
    {
        match self {
            ColumnData::Int64(_) => ColumnType::Int64,
            ColumnData::Int32(_) => ColumnType::Int32,
            ColumnData::Int16(_) => ColumnType::Int16,
            ColumnData::Utf8(_) => ColumnType::Utf8,
            ColumnData::Date(_) => ColumnType::Date,
            ColumnData::Timestamp(_) => ColumnType::Timestamp,
        }
    }

    /// Appends to a 64-bit integer column.
    pub fn push_i64(&mut self, v: i64) -> (r: Result<(), Error>)
        ensures
            push_outcome(*old(self), old(self)@ is Int64, r),
            r is Ok ==> final(self)@ == ColumnView::Int64(old(self)@->Int64_0.push(v))
                && final(self).growable() && final(self).wf(),
            r is Err ==> *final(self) == *old(self),
    {
        match self {
            ColumnData::Int64(c) => c.push(v),
            _ => Err(Error::msg("type mismatch")),
        }
    }

    /// Appends to a 32-bit integer or date column.
    pub fn push_i32(&mut self, v: i32) -> (r: Result<(), Error>)
        ensures
            push_outcome(*old(self), old(self)@ is Int32 || old(self)@ is Date, r),
            r is Ok ==> final(self)@ == (match old(self)@ {
                ColumnView::Int32(s) => ColumnView::Int32(s.push(v)),
                ColumnView::Date(s) => ColumnView::Date(s.push(v)),
                other => other,
            }) && final(self).growable() && final(self).wf(),
            r is Err ==> *final(self) == *old(self),
    {
        match self {
            ColumnData::Int32(c) => c.push(v),
            ColumnData::Date(c) => c.push(v),
            _ => Err(Error::msg("type mismatch")),
        }
    }

    /// Appends to a 16-bit integer column.
    pub fn push_i16(&mut self, v: i16) -> (r: Result<(), Error>)
        ensures
            push_outcome(*old(self), old(self)@ is Int16, r),
            r is Ok ==> final(self)@ == ColumnView::Int16(old(self)@->Int16_0.push(v))
                && final(self).growable() && final(self).wf(),
            r is Err ==> *final(self) == *old(self),
    {
        match self {
            ColumnData::Int16(c) => c.push(v),
            _ => Err(Error::msg("type mismatch")),
        }
    }

    /// Appends to a text column.
    pub fn push_utf8(&mut self, v: &str) -> (r: Result<(), Error>)
        requires
            old(self).wf(),
            encode_utf8(v@).len() <= u32::MAX,
        ensures
            push_outcome(*old(self), old(self)@ is Utf8, r),
            r is Ok ==> final(self)@ == ColumnView::Utf8(old(self)@->Utf8_0.push(v@))
                && final(self).growable() && final(self).wf(),
            r is Err ==> *final(self) == *old(self),
    {
        match self {
            ColumnData::Utf8(c) => {
                c.push_str(v);
                Ok(())
            },
            _ => Err(Error::msg("type mismatch")),
        }
    }

    /// Appends to a time column.
    pub fn push_timestamp(&mut self, v: i64) -> (r: Result<(), Error>)
        ensures
            push_outcome(*old(self), old(self)@ is Timestamp, r),
            r is Ok ==> final(self)@ == ColumnView::Timestamp(old(self)@->Timestamp_0.push(v))
                && final(self).growable() && final(self).wf(),
            r is Err ==> *final(self) == *old(self),
    {
        match self {
            ColumnData::Timestamp(c) => c.push(v),
            _ => Err(Error::msg("type mismatch")),
        }
    }

    /// The bytes of the column's file and, for a text column, of the offset
    /// file beside it.
    pub fn write_file(&self) -> (r: (Vec<u8>, Option<Vec<u8>>))
        requires
            self.wf(),
            column_fits(self@),
        ensures
            exists|packed: Option<Seq<u8>>|
                {
                    &&& r.0@ == #[trigger] framed(
                        self@.column_type(),
                        column_payload(self@),
                        packed,
                    )
                    &&& packed is Some <==> column_payload(self@).len() > COMPRESS_ABOVE
                    &&& packed matches Some(p) ==> column_payload(self@).len() <= u32::MAX
                        ==> yields(lz4_decompressed(p), column_payload(self@))
                },
            match self@ {
                ColumnView::Utf8(rows) => r.1 is Some && r.1->Some_0@ == idx_file(
                    text_offsets(rows),
                ),
                _ => r.1 is None,
            },
    {
        let (raw, utf8_offsets) = self.encode_payload();
        let idx = match &utf8_offsets {
            Some(o) => Some(utf8_idx_sidecar(o.as_slice())),
            None => None,
        };
        (write_col_payload(self.column_type(), raw.as_slice()), idx)
    }

    /// The payload of the column and, for a text column, the offsets of its rows.
    pub fn encode_payload(&self) -> (r: (Vec<u8>, Option<Vec<u64>>))
        requires
            self.wf(),
            column_fits(self@),
        ensures
            r.0@ == column_payload(self@),
            match self@ {
                ColumnView::Utf8(rows) => r.1 is Some && r.1->Some_0@ == text_offsets(rows),
                _ => r.1 is None,
            },
    {
        let mut raw: Vec<u8> = Vec::new();
        (self.len() as u64).write_le(&mut raw);
        assert(raw@ =~= (self@.len() as u64).encoded());
        match self {
            ColumnData::Int64(v) => {
                write_pod_vec(&mut raw, v.as_slice());
                (raw, None)
            },
            ColumnData::Int32(v) => {
                write_pod_vec(&mut raw, v.as_slice());
                (raw, None)
            },
            ColumnData::Int16(v) => {
                write_pod_vec(&mut raw, v.as_slice());
                (raw, None)
            },
            ColumnData::Date(v) => {
                write_pod_vec(&mut raw, v.as_slice());
                (raw, None)
            },
            ColumnData::Timestamp(v) => {
                write_pod_vec(&mut raw, v.as_slice());
                (raw, None)
            },
            ColumnData::Utf8(v) => {
                let offsets = encode_texts(&mut raw, v);
                (raw, Some(offsets))
            },
        }
    }

    /// Reads a column out of the bytes of its file and, where there is one, of
    /// the offset file beside it.
    pub fn read_file(data: &[u8], idx: Option<&[u8]>) -> (r: Result<ColumnData, Error>)
        ensures
            match file_outcome(data@) {
                Err(m) => r is Err && r->Err_0@ == m,
                Ok((ty, payload)) => payload_read(r, payload, ty, sidecar_of(idx)),
            },
    {
        let (ty, payload) = match decode_column_payload_from_bytes(data) {
            Ok(p) => p,
            Err(e) => {
                return Err(e);
            },
        };
        let sidecar = match idx {
            Some(d) => read_utf8_offsets(d),
            None => None,
        };
        decode_column_payload_typed(payload.as_slice(), ty, sidecar)
    }

    /// Reads the text of some rows without building the whole column.
    pub fn read_cells_at(data: &[u8], idx: Option<&[u8]>, rows: &Vec<usize>) -> (r: Result<
        Vec<String>,
        Error,
    >)
        ensures
            match r {
                Ok(v) => yields(cells_read(data@, sidecar_of(idx), rows@), texts(v@)),
                Err(e) => fails(cells_read(data@, sidecar_of(idx), rows@), e@),
            },
    {
        if rows.len() == 0 {
            let v: Vec<String> = Vec::new();
            assert(texts(v@) =~= Seq::<Seq<char>>::empty());
            return Ok(v);
        }
        let (ty, payload) = match decode_column_payload_from_bytes(data) {
            Ok(p) => p,
            Err(e) => {
                return Err(e);
            },
        };
        let sidecar = match idx {
            Some(d) => if ty == ColumnType::Utf8 {
                read_utf8_offsets(d)
            } else {
                None
            },
            None => None,
        };
        match &sidecar {
            Some(o) => decode_cells_at(payload.as_slice(), ty, rows, Some(o.as_slice())),
            None => decode_cells_at(payload.as_slice(), ty, rows, None),
        }
    }

    /// The text of one row as it is stored.
    pub fn cell_to_string(col: &ColumnData, row: usize) -> (s: String)
        requires
            row < col@.len(),
            col.wf(),
        ensures
            s@ == col@.cell_text(row as int),
    {
        match col {
            ColumnData::Int64(v) => int_text(v.get(row) as i128),
            ColumnData::Int32(v) => int_text(v.get(row) as i128),
            ColumnData::Int16(v) => int_text(v.get(row) as i128),
            ColumnData::Date(v) => int_text(v.get(row) as i128),
            ColumnData::Timestamp(v) => int_text(v.get(row) as i128),
            ColumnData::Utf8(v) => {
                assert(v.row_ok(row as int));
                String::from_str(v.get(row))
            },
        }
    }

    /// Appends every row of another column of the same type.
    pub fn extend_from(&mut self, other: &ColumnData) -> (r: Result<(), Error>)
        requires
            old(self).wf(),
            other.wf(),
        ensures
            final(self).wf(),
            outcome(r) == (if old(self)@.column_type() != other@.column_type() {
                Err("extend_from type mismatch"@)
            } else if !old(self).growable() {
                Err("cannot extend shared column buffer"@)
            } else {
                Ok(())
            }),
            r is Ok ==> final(self)@ == old(self)@.followed_by(other@) && final(self).growable(),
            r is Err ==> *final(self) == *old(self),
    {
        match (self, other) {
            (ColumnData::Int64(d), ColumnData::Int64(s)) => d.extend_from_slice(s.as_slice()),
            (ColumnData::Int32(d), ColumnData::Int32(s)) => d.extend_from_slice(s.as_slice()),
            (ColumnData::Int16(d), ColumnData::Int16(s)) => d.extend_from_slice(s.as_slice()),
            (ColumnData::Date(d), ColumnData::Date(s)) => d.extend_from_slice(s.as_slice()),
            (ColumnData::Timestamp(d), ColumnData::Timestamp(s)) => d.extend_from_slice(
                s.as_slice(),
            ),
            (ColumnData::Utf8(d), ColumnData::Utf8(s)) => {
                d.extend_from(s);
                Ok(())
            },
            _ => Err(Error::msg("extend_from type mismatch")),
        }
    }
}

/// How an append to a column of some type ends.
pub open spec fn push_outcome(col: ColumnData, accepts: bool, r: Result<(), Error>) -> bool {
    outcome(r) == (if !accepts {
        Err("type mismatch"@)
    } else if !col.growable() {
        Err("cannot push into shared column buffer"@)
    } else {
        Ok(())
    })
}

/// The offsets kept in an offset file, if there is a readable one.
pub open spec fn sidecar_of(idx: Option<&[u8]>) -> Option<Seq<u64>> {
    match idx {
        Some(d) => idx_offsets(d@),
        None => None,
    }
}

/// Payloads above this length are compressed.
pub const COMPRESS_ABOVE: usize = 4096;

/// The payload of a column: its row count, then its values.
pub open spec fn column_payload(col: ColumnView) -> Seq<u8> {
    (col.len() as u64).encoded() + match col {
        ColumnView::Int64(v) => pod_bytes(v),
        ColumnView::Int32(v) => pod_bytes(v),
        ColumnView::Int16(v) => pod_bytes(v),
        ColumnView::Utf8(v) => text_body(v),
        ColumnView::Date(v) => pod_bytes(v),
        ColumnView::Timestamp(v) => pod_bytes(v),
    }
}

/// Whether the texts of a column fit their length prefixes.
pub open spec fn column_fits(col: ColumnView) -> bool {
    match col {
        ColumnView::Utf8(v) => texts_fit(v),
        _ => true,
    }
}

fn encode_texts(raw: &mut Vec<u8>, v: &Utf8Column) -> (offsets: Vec<u64>)
    requires
        v.wf(),
        texts_fit(v@),
    ensures
        final(raw)@ == old(raw)@ + text_body(v@),
        offsets@ == text_offsets(v@),
{
    let n: usize = v.len();
    let mut offsets: Vec<u64> = Vec::with_capacity(n);
    let start: usize = raw.len();
    let mut i: usize = 0;
    while i < n
        invariant
            v.wf(),
            texts_fit(v@),
            n == v@.len(),
            n == v.offsets().len(),
            start == old(raw)@.len(),
            i <= n,
            raw@ == old(raw)@ + text_body(v@.take(i as int)),
            offsets@.len() == i,
            forall|k: int|
                0 <= k < i ==> #[trigger] offsets@[k] == text_body(v@.take(k)).len() as u64,
        decreases n - i,
    {
        assert(v.row_ok(i as int));
        let s = v.get(i);
        let here: usize = raw.len() - start;
        offsets.push(here as u64);
        let bytes = s.as_bytes();
        assert(encode_utf8(v@[i as int]).len() <= u32::MAX);
        (bytes.len() as u32).write_le(raw);
        let mut tail: Vec<u8> = vstd::slice::slice_to_vec(bytes);
        raw.append(&mut tail);
        proof {
            assert(v@.take(i + 1).drop_last() =~= v@.take(i as int));
            assert(v@.take(i + 1).last() == s@);
            assert(raw@ =~= old(raw)@ + text_body(v@.take(i + 1)));
        }
        i = i + 1;
    }
    assert(v@.take(i as int) =~= v@);
    assert(offsets@ =~= text_offsets(v@));
    offsets
}

/// The result of LZ4 decompression: the bytes, or the decompressor's message.
pub uninterp spec fn lz4_decompressed(bytes: Seq<u8>) -> Result<Seq<u8>, Seq<char>>;

/// So many bytes of the largest value are a length that does not fit in 32 bits with
/// what may follow them.
pub const LENGTH_OVERFLOW_RUN: usize = 16_843_009;

/// Whether so many bytes of the largest value stand at a place that they are too long a
/// length.
pub open spec fn overflow_run_at(bytes: Seq<u8>, i: int) -> bool {
    &&& 0 <= i
    &&& i + LENGTH_OVERFLOW_RUN <= bytes.len()
    &&& forall|k: int| i <= k < i + LENGTH_OVERFLOW_RUN ==> #[trigger] bytes[k] == 0xFF
}

/// Whether no length in compressed bytes can be too long to be read.
pub open spec fn lengths_fit(bytes: Seq<u8>) -> bool {
    forall|i: int| !#[trigger] overflow_run_at(bytes, i)
}

/// Whether no length in compressed bytes can be too long to be read.
pub fn check_lengths(bytes: &[u8]) -> (r: bool)
    ensures
        r == lengths_fit(bytes@),
{
    let n: usize = bytes.len();
    let mut run: usize = 0;
    let mut i: usize = 0;
    while i < n
        invariant
            run <= i <= n == bytes@.len(),
            run < LENGTH_OVERFLOW_RUN,
            forall|k: int| i - run <= k < i ==> #[trigger] bytes@[k] == 0xFF,
            run < i ==> bytes@[i - run - 1] != 0xFF,
            forall|j: int|
                j + LENGTH_OVERFLOW_RUN <= i ==> !#[trigger] overflow_run_at(bytes@, j),
        decreases n - i,
    {
        if bytes[i] == 0xFF {
            run = run + 1;
        } else {
            run = 0;
        }
        i = i + 1;
        if run == LENGTH_OVERFLOW_RUN {
            assert(overflow_run_at(bytes@, i - run));
            return false;
        }
        assert forall|j: int| j + LENGTH_OVERFLOW_RUN <= i implies !#[trigger] overflow_run_at(
            bytes@,
            j,
        ) by {
            if 0 <= j && j + LENGTH_OVERFLOW_RUN == i {
                assert(bytes@[i - run - 1] != 0xFF);
            }
        }
    }
    true
}

/// `lz4_flex::decompress_size_prepended`: what it returns depends on the bytes
/// alone and is called `lz4_decompressed`. It adds up the bytes of a length in 32 bits
/// without a check, so bytes in which a length may be too long are left out.
#[verifier::external_body]
pub(crate) fn lz4_decompress(bytes: &[u8]) -> (r: Result<Vec<u8>, String>)
    requires
        lengths_fit(bytes@),
    ensures
        match r {
            Ok(v) => yields(lz4_decompressed(bytes@), v@),
            Err(m) => fails(lz4_decompressed(bytes@), m@),
        },
{
    lz4_flex::decompress_size_prepended(bytes).map_err(|e| e.to_string())
}

/// `lz4_flex::compress_prepend_size`: what it returns decompresses to the input
/// again, where the length of the input fits the 32-bit size in front. Nothing
/// is said of the compressed bytes themselves, nor of longer inputs.
#[verifier::external_body]
fn lz4_compress(raw: &[u8]) -> (r: Vec<u8>)
    ensures
        raw@.len() <= u32::MAX ==> yields(lz4_decompressed(r@), raw@),
{
    lz4_flex::compress_prepend_size(raw)
}

/// The first bytes of a column file.
pub open spec fn magic() -> Seq<u8> {
    seq![67u8, 82u8, 85u8, 78u8]
}

/// The tag of a column type.
pub open spec fn type_tag(ty: ColumnType) -> u8 {
    match ty {
        ColumnType::Int64 => 0,
        ColumnType::Int32 => 1,
        ColumnType::Int16 => 2,
        ColumnType::Utf8 => 3,
        ColumnType::Date => 4,
        ColumnType::Timestamp => 5,
    }
}

/// The column type with a tag.
pub open spec fn tagged_type(tag: u8) -> Option<ColumnType> {
    if tag == 0 {
        Some(ColumnType::Int64)
    } else if tag == 1 {
        Some(ColumnType::Int32)
    } else if tag == 2 {
        Some(ColumnType::Int16)
    } else if tag == 3 {
        Some(ColumnType::Utf8)
    } else if tag == 4 {
        Some(ColumnType::Date)
    } else if tag == 5 {
        Some(ColumnType::Timestamp)
    } else {
        None
    }
}

/// The tag of a column type.
pub fn column_type_tag(ty: ColumnType) -> (tag: u8)
    ensures
        tag == type_tag(ty),
{
    match ty {
        ColumnType::Int64 => 0,
        ColumnType::Int32 => 1,
        ColumnType::Int16 => 2,
        ColumnType::Utf8 => 3,
        ColumnType::Date => 4,
        ColumnType::Timestamp => 5,
    }
}

/// The column type with a tag, or an error that names the tag.
pub fn parse_col_type(tag: u8) -> (r: Result<ColumnType, Error>)
    ensures
        outcome(r) == (match tagged_type(tag) {
            Some(ty) => Ok(ty),
            None => Err("unknown column type tag "@ + decimal(tag as int)),
        }),
{
    if tag == 0 {
        Ok(ColumnType::Int64)
    } else if tag == 1 {
        Ok(ColumnType::Int32)
    } else if tag == 2 {
        Ok(ColumnType::Int16)
    } else if tag == 3 {
        Ok(ColumnType::Utf8)
    } else if tag == 4 {
        Ok(ColumnType::Date)
    } else if tag == 5 {
        Ok(ColumnType::Timestamp)
    } else {
        let mut m = String::from_str("unknown column type tag ");
        m.append(int_text(tag as i128).as_str());
        Err(Error::Msg(m))
    }
}

/// A column file around a payload; `packed` is the compressed payload, where
/// compression was tried, and is used only if it is shorter and can be read again.
pub open spec fn framed(ty: ColumnType, raw: Seq<u8>, packed: Option<Seq<u8>>) -> Seq<u8> {
    match packed {
        Some(p) if p.len() < raw.len() && lengths_fit(p) => magic() + seq![1u8, type_tag(ty), 1u8] + p,
        _ => magic() + seq![1u8, type_tag(ty), 0u8] + raw,
    }
}

/// What a column file holds: its type and its payload, or what is wrong with it.
pub open spec fn file_outcome(data: Seq<u8>) -> Result<(ColumnType, Seq<u8>), Seq<char>> {
    if data.len() < 5 {
        Err("column file too short"@)
    } else if data.take(4) != magic() {
        Err("invalid column file magic"@)
    } else if data[4] == 1 && data.len() < 7 {
        Err("column file truncated"@)
    } else {
        let versioned = data[4] == 1;
        let tag = if versioned { data[5] } else { data[4] };
        let packed = versioned && data[6] == 1;
        let body = if versioned { data.skip(7) } else { data.skip(5) };
        match tagged_type(tag) {
            None => Err("unknown column type tag "@ + decimal(tag as int)),
            Some(ty) => if packed && !lengths_fit(body) {
                Err("lz4 decompress: a length is too long"@)
            } else if packed {
                match lz4_decompressed(body) {
                    Ok(payload) => Ok((ty, payload)),
                    Err(m) => Err("lz4 decompress: "@ + m),
                }
            } else {
                Ok((ty, body))
            },
        }
    }
}

/// Puts a payload into a column file.
pub fn frame_payload(ty: ColumnType, raw: &[u8], packed: Option<&[u8]>) -> (out: Vec<u8>)
    ensures
        out@ == framed(
            ty,
            raw@,
            match packed {
                Some(p) => Some(p@),
                None => None,
            },
        ),
{
    let mut out: Vec<u8> = Vec::new();
    out.push(67);
    out.push(82);
    out.push(85);
    out.push(78);
    out.push(1);
    out.push(column_type_tag(ty));
    let shorter = match packed {
        Some(p) => p.len() < raw.len() && check_lengths(p),
        None => false,
    };
    let mut body: Vec<u8> = match packed {
        Some(p) => if shorter {
            vstd::slice::slice_to_vec(p)
        } else {
            vstd::slice::slice_to_vec(raw)
        },
        None => vstd::slice::slice_to_vec(raw),
    };
    if shorter {
        out.push(1);
        assert(out@ =~= magic() + seq![1u8, type_tag(ty), 1u8]);
    } else {
        out.push(0);
        assert(out@ =~= magic() + seq![1u8, type_tag(ty), 0u8]);
    }
    out.append(&mut body);
    out
}

/// Puts a payload into a column file, compressed where that is worth it.
pub fn write_col_payload(ty: ColumnType, raw: &[u8]) -> (out: Vec<u8>)
    ensures
        exists|packed: Option<Seq<u8>>|
            {
                &&& out@ == #[trigger] framed(ty, raw@, packed)
                &&& packed is Some <==> raw@.len() > COMPRESS_ABOVE
                &&& packed matches Some(p) ==> raw@.len() <= u32::MAX ==> yields(lz4_decompressed(p), raw@)
            },
{
    if raw.len() > COMPRESS_ABOVE {
        let packed = lz4_compress(raw);
        let out = frame_payload(ty, raw, Some(packed.as_slice()));
        assert(out@ == framed(ty, raw@, Some(packed@)));
        out
    } else {
        let out = frame_payload(ty, raw, None);
        assert(out@ == framed(ty, raw@, None));
        out
    }
}

/// Takes a column file apart into its type and its payload.
pub fn decode_column_payload_from_bytes(data: &[u8]) -> (r: Result<(ColumnType, Vec<u8>), Error>)
    ensures
        match r {
            Ok((ty, payload)) => yields(file_outcome(data@), (ty, payload@)),
            Err(e) => fails(file_outcome(data@), e@),
        },
{
    if data.len() < 5 {
        return Err(Error::msg("column file too short"));
    }
    proof {
        assert(data@.take(4) =~= seq![data@[0], data@[1], data@[2], data@[3]]);
    }
    if !(data[0] == 67 && data[1] == 82 && data[2] == 85 && data[3] == 78) {
        proof {
            let m = magic();
            assert(m[0] == 67 && m[1] == 82 && m[2] == 85 && m[3] == 78);
            if data@.take(4) == m {
                assert(data@.take(4)[0] == data@[0]);
                assert(data@.take(4)[1] == data@[1]);
                assert(data@.take(4)[2] == data@[2]);
                assert(data@.take(4)[3] == data@[3]);
            }
        }
        return Err(Error::msg("invalid column file magic"));
    }
    let versioned = data[4] == 1;
    if versioned && data.len() < 7 {
        return Err(Error::msg("column file truncated"));
    }
    let tag: u8 = if versioned { data[5] } else { data[4] };
    let packed = versioned && data[6] == 1;
    let from: usize = if versioned { 7 } else { 5 };
    let body = &data[from..data.len()];
    assert(body@ =~= data@.skip(from as int));
    let ty = match parse_col_type(tag) {
        Ok(ty) => ty,
        Err(e) => {
            return Err(e);
        },
    };
    if packed && !check_lengths(body) {
        return Err(Error::msg("lz4 decompress: a length is too long"));
    }
    if packed {
        match lz4_decompress(body) {
            Ok(payload) => Ok((ty, payload)),
            Err(m) => {
                let mut t = String::from_str("lz4 decompress: ");
                t.append(m.as_str());
                Err(Error::Msg(t))
            },
        }
    } else {
        Ok((ty, vstd::slice::slice_to_vec(body)))
    }
}

/// The row count at the head of a payload.
pub open spec fn payload_count(payload: Seq<u8>) -> nat {
    u64::decoded(payload.take(8)) as nat
}

/// The offsets of the rows of a text body: those kept beside it, or those
/// found by walking it.
pub open spec fn body_offsets(body: Seq<u8>, sidecar: Option<Seq<u64>>) -> Option<Seq<u64>> {
    match sidecar {
        Some(o) => Some(o),
        None => sequential_offsets(body, 0),
    }
}

/// The bytes that a value of a column type takes; 0 for text.
pub open spec fn type_width(ty: ColumnType) -> nat {
    match ty {
        ColumnType::Int64 | ColumnType::Timestamp => 8,
        ColumnType::Int32 | ColumnType::Date => 4,
        ColumnType::Int16 => 2,
        ColumnType::Utf8 => 0,
    }
}

/// What is wrong with a payload, if anything.
pub open spec fn payload_fault(payload: Seq<u8>, ty: ColumnType, sidecar: Option<Seq<u64>>) -> Option<
    Seq<char>,
> {
    if payload.len() < 8 {
        Some("column payload truncated"@)
    } else {
        let body = payload.skip(8);
        let count = payload_count(payload);
        if ty == ColumnType::Utf8 {
            match body_offsets(body, sidecar) {
                None => Some("utf8 payload truncated"@),
                Some(o) => if o.len() != count {
                    Some("utf8 row count mismatch"@)
                } else {
                    None
                },
            }
        } else if count * type_width(ty) > body.len() {
            Some("column payload truncated"@)
        } else {
            None
        }
    }
}

/// Whether a column is what a payload without fault holds.
pub open spec fn holds_payload(
    col: ColumnData,
    payload: Seq<u8>,
    ty: ColumnType,
    sidecar: Option<Seq<u64>>,
) -> bool {
    let body = payload.skip(8);
    let count = payload_count(payload);
    &&& col@.column_type() == ty
    &&& match col {
        ColumnData::Int64(v) => v is Shared && v@ == pod_values::<i64>(body, count),
        ColumnData::Int32(v) => v is Shared && v@ == pod_values::<i32>(body, count),
        ColumnData::Int16(v) => v is Shared && v@ == pod_values::<i16>(body, count),
        ColumnData::Date(v) => v is Shared && v@ == pod_values::<i32>(body, count),
        ColumnData::Timestamp(v) => v is Shared && v@ == pod_values::<i64>(body, count),
        ColumnData::Utf8(v) => v.body() == body && Some(v.offsets()) == body_offsets(body, sidecar),
    }
}

/// Whether a result is what reading a payload gives.
pub open spec fn payload_read(
    r: Result<ColumnData, Error>,
    payload: Seq<u8>,
    ty: ColumnType,
    sidecar: Option<Seq<u64>>,
) -> bool {
    match (r, payload_fault(payload, ty, sidecar)) {
        (Ok(c), None) => holds_payload(c, payload, ty, sidecar),
        (Err(e), Some(m)) => e@ == m,
        _ => false,
    }
}

/// Reads a payload of a known type; `sidecar` holds the row offsets of a text
/// column where they were kept beside it.
pub fn decode_column_payload_typed(
    payload: &[u8],
    ty: ColumnType,
    sidecar: Option<Vec<u64>>,
) -> (r: Result<ColumnData, Error>)
    ensures
        payload_read(
            r,
            payload@,
            ty,
            match sidecar {
                Some(o) => Some(o@),
                None => None,
            },
        ),
{
    if payload.len() < 8 {
        return Err(Error::msg("column payload truncated"));
    }
    let ghost kept = match &sidecar {
        Some(o) => Some(o@),
        None => None::<Seq<u64>>,
    };
    let count: u64 = u64::read_le(&payload[0..8]);
    let body = &payload[8..payload.len()];
    assert(payload@.subrange(0, 8) =~= payload@.take(8));
    assert(body@ =~= payload@.skip(8));
    if ty == ColumnType::Utf8 {
        let col = match Utf8Column::from_body_with_sidecar(body, sidecar) {
            Ok(c) => c,
            Err(e) => {
                return Err(e);
            },
        };
        if col.len() as u64 != count {
            return Err(Error::msg("utf8 row count mismatch"));
        }
        let c = ColumnData::Utf8(col);
        assert(holds_payload(c, payload@, ty, kept));
        return Ok(c);
    }
    if count > body.len() as u64 {
        proof {
            let w = type_width(ty) as int;
            assert(count * w >= count) by (nonlinear_arith)
                requires
                    w >= 1,
                    count >= 0,
            ;
        }
        return Err(Error::msg("column payload truncated"));
    }
    let n: usize = count as usize;
    match ty {
        ColumnType::Int64 => match read_pod_slice::<i64>(body, n) {
            Ok(v) => Ok(ColumnData::Int64(v)),
            Err(e) => Err(e),
        },
        ColumnType::Int32 => match read_pod_slice::<i32>(body, n) {
            Ok(v) => Ok(ColumnData::Int32(v)),
            Err(e) => Err(e),
        },
        ColumnType::Int16 => match read_pod_slice::<i16>(body, n) {
            Ok(v) => Ok(ColumnData::Int16(v)),
            Err(e) => Err(e),
        },
        ColumnType::Date => match read_pod_slice::<i32>(body, n) {
            Ok(v) => Ok(ColumnData::Date(v)),
            Err(e) => Err(e),
        },
        ColumnType::Timestamp => match read_pod_slice::<i64>(body, n) {
            Ok(v) => Ok(ColumnData::Timestamp(v)),
            Err(e) => Err(e),
        },
        ColumnType::Utf8 => Err(Error::msg("column payload truncated")),
    }
}

/// The text of one row of a payload body, or what is wrong with it.
pub open spec fn body_cell(
    body: Seq<u8>,
    ty: ColumnType,
    row: nat,
    count: nat,
    offsets: Option<Seq<u64>>,
) -> Result<Seq<char>, Seq<char>> {
    if row >= count {
        Err("row index out of range"@)
    } else if ty == ColumnType::Utf8 {
        cell_outcome(body, offsets, row, count)
    } else if (row + 1) * type_width(ty) > body.len() {
        Err("pod row out of range"@)
    } else {
        match ty {
            ColumnType::Int64 | ColumnType::Timestamp => Ok(
                decimal(pod_at::<i64>(body, row as int) as int),
            ),
            ColumnType::Int32 | ColumnType::Date => Ok(
                decimal(pod_at::<i32>(body, row as int) as int),
            ),
            _ => Ok(decimal(pod_at::<i16>(body, row as int) as int)),
        }
    }
}

/// The texts of some rows of a payload, or the first thing wrong with them.
pub open spec fn payload_cells(
    payload: Seq<u8>,
    ty: ColumnType,
    rows: Seq<usize>,
    offsets: Option<Seq<u64>>,
) -> Result<Seq<Seq<char>>, Seq<char>>
    decreases rows.len(),
{
    if payload.len() < 8 {
        Err("column payload truncated"@)
    } else if rows.len() == 0 {
        Ok(Seq::empty())
    } else {
        match payload_cells(payload, ty, rows.drop_last(), offsets) {
            Err(m) => Err(m),
            Ok(cells) => match body_cell(
                payload.skip(8),
                ty,
                rows.last() as nat,
                payload_count(payload),
                offsets,
            ) {
                Err(m) => Err(m),
                Ok(t) => Ok(cells.push(t)),
            },
        }
    }
}

proof fn lemma_payload_cells_len(
    payload: Seq<u8>,
    ty: ColumnType,
    rows: Seq<usize>,
    offsets: Option<Seq<u64>>,
)
    ensures
        payload_cells(payload, ty, rows, offsets) matches Ok(cells) ==> cells.len() == rows.len(),
    decreases rows.len(),
{
    if payload.len() >= 8 && rows.len() > 0 {
        lemma_payload_cells_len(payload, ty, rows.drop_last(), offsets);
    }
}

/// Every row that is read gives one text.
pub proof fn lemma_cells_len(data: Seq<u8>, sidecar: Option<Seq<u64>>, rows: Seq<usize>)
    ensures
        cells_read(data, sidecar, rows) matches Ok(cells) ==> cells.len() == rows.len(),
{
    if let Ok((ty, payload)) = file_outcome(data) {
        lemma_payload_cells_len(
            payload,
            ty,
            rows,
            if ty == ColumnType::Utf8 {
                sidecar
            } else {
                None
            },
        );
    }
}

/// The texts of some rows of a column file, or the first thing wrong.
pub open spec fn cells_read(data: Seq<u8>, sidecar: Option<Seq<u64>>, rows: Seq<usize>) -> Result<
    Seq<Seq<char>>,
    Seq<char>,
> {
    if rows.len() == 0 {
        Ok(Seq::empty())
    } else {
        match file_outcome(data) {
            Err(m) => Err(m),
            Ok((ty, payload)) => payload_cells(
                payload,
                ty,
                rows,
                if ty == ColumnType::Utf8 {
                    sidecar
                } else {
                    None
                },
            ),
        }
    }
}

proof fn lemma_payload_cells_prefix(
    payload: Seq<u8>,
    ty: ColumnType,
    rows: Seq<usize>,
    offsets: Option<Seq<u64>>,
    k: int,
)
    requires
        0 <= k <= rows.len(),
        payload_cells(payload, ty, rows.take(k), offsets) is Err,
    ensures
        payload_cells(payload, ty, rows, offsets) == payload_cells(
            payload,
            ty,
            rows.take(k),
            offsets,
        ),
    decreases rows.len(),
{
    if k == rows.len() {
        assert(rows.take(k) =~= rows);
    } else {
        assert(rows.drop_last().take(k) =~= rows.take(k));
        lemma_payload_cells_prefix(payload, ty, rows.drop_last(), offsets, k);
    }
}

fn format_cell_at(
    body: &[u8],
    ty: ColumnType,
    row: usize,
    count: u64,
    offsets: Option<&[u64]>,
) -> (r: Result<String, Error>)
    requires
        row < count,
    ensures
        text_outcome(r) == body_cell(
            body@,
            ty,
            row as nat,
            count as nat,
            match offsets {
                Some(o) => Some(o@),
                None => None,
            },
        ),
{
    match ty {
        ColumnType::Int64 | ColumnType::Timestamp => match read_pod_at::<i64>(body, row) {
            Ok(v) => Ok(int_text(v as i128)),
            Err(e) => Err(e),
        },
        ColumnType::Int32 | ColumnType::Date => match read_pod_at::<i32>(body, row) {
            Ok(v) => Ok(int_text(v as i128)),
            Err(e) => Err(e),
        },
        ColumnType::Int16 => match read_pod_at::<i16>(body, row) {
            Ok(v) => Ok(int_text(v as i128)),
            Err(e) => Err(e),
        },
        ColumnType::Utf8 => utf8_str_at(body, offsets, row, count),
    }
}

/// Reads the texts of some rows of a payload.
pub fn decode_cells_at(
    payload: &[u8],
    ty: ColumnType,
    rows: &Vec<usize>,
    offsets: Option<&[u64]>,
) -> (r: Result<Vec<String>, Error>)
    ensures
        ({
            let want = payload_cells(
                payload@,
                ty,
                rows@,
                match offsets {
                    Some(o) => Some(o@),
                    None => None,
                },
            );
            match r {
                Ok(v) => yields(want, texts(v@)),
                Err(e) => fails(want, e@),
            }
        }),
{
    let ghost kept = match offsets {
        Some(o) => Some(o@),
        None => None::<Seq<u64>>,
    };
    if payload.len() < 8 {
        return Err(Error::msg("column payload truncated"));
    }
    let count: u64 = u64::read_le(&payload[0..8]);
    let body = &payload[8..payload.len()];
    assert(payload@.subrange(0, 8) =~= payload@.take(8));
    assert(body@ =~= payload@.skip(8));
    let mut out: Vec<String> = Vec::new();
    let mut i: usize = 0;
    assert(texts(out@) =~= Seq::<Seq<char>>::empty());
    assert(rows@.take(0) =~= Seq::<usize>::empty());
    while i < rows.len()
        invariant
            kept == (match offsets {
                Some(o) => Some(o@),
                None => None::<Seq<u64>>,
            }),
            payload@.len() >= 8,
            body@ == payload@.skip(8),
            count == payload_count(payload@),
            i <= rows@.len(),
            yields(payload_cells(payload@, ty, rows@.take(i as int), kept), texts(out@)),
        decreases rows@.len() - i,
    {
        let row: usize = rows[i];
        assert(rows@.take(i + 1).drop_last() =~= rows@.take(i as int));
        assert(rows@.take(i + 1).last() == row);
        if row as u64 >= count {
            proof {
                lemma_payload_cells_prefix(payload@, ty, rows@, kept, i + 1);
            }
            return Err(Error::msg("row index out of range"));
        }
        match format_cell_at(body, ty, row, count, offsets) {
            Ok(t) => {
                let ghost seen = texts(out@);
                out.push(t);
                assert(texts(out@) =~= seen.push(t@));
            },
            Err(e) => {
                proof {
                    lemma_payload_cells_prefix(payload@, ty, rows@, kept, i + 1);
                }
                return Err(e);
            },
        }
        i = i + 1;
    }
    assert(rows@.take(i as int) =~= rows@);
    Ok(out)
}

/// An empty column of a type.
pub fn empty_column(ty: ColumnType) -> (c: ColumnData)
    ensures
        c.wf(),
        c.growable(),
        c@.len() == 0,
        c@.column_type() == ty,
{
    match ty {
        ColumnType::Int64 => ColumnData::Int64(PodStorage::owned_with_capacity(0)),
        ColumnType::Int32 => ColumnData::Int32(PodStorage::owned_with_capacity(0)),
        ColumnType::Int16 => ColumnData::Int16(PodStorage::owned_with_capacity(0)),
        ColumnType::Utf8 => ColumnData::Utf8(Utf8Column::new()),
        ColumnType::Date => ColumnData::Date(PodStorage::owned_with_capacity(0)),
        ColumnType::Timestamp => ColumnData::Timestamp(PodStorage::owned_with_capacity(0)),
    }
}

/// A column file gives back the type and the payload that were put into it,
/// compressed or not.
pub proof fn law_payload_read_back(ty: ColumnType, raw: Seq<u8>, packed: Option<Seq<u8>>)
    requires
        packed matches Some(p) ==> yields(lz4_decompressed(p), raw),
    ensures
        yields(file_outcome(framed(ty, raw, packed)), (ty, raw)),
{
    let file = framed(ty, raw, packed);
    assert(file.take(4) =~= magic());
    assert(file[4] == 1);
    assert(file[5] == type_tag(ty));
    let shorter = match packed {
        Some(p) => p.len() < raw.len() && lengths_fit(p),
        None => false,
    };
    if shorter {
        assert(file.skip(7) =~= packed->Some_0);
        assert(file[6] == 1);
    } else {
        assert(file.skip(7) =~= raw);
        assert(file[6] == 0);
    }
}

/// What is read from a column file, with or without the offset file beside it,
/// is the column that was written.
pub proof fn law_column_read_back(
    col: ColumnView,
    packed: Option<Seq<u8>>,
    with_sidecar: bool,
    back: Result<ColumnData, Error>,
)
    requires
        column_fits(col),
        col.len() <= u64::MAX,
        column_payload(col).len() <= u64::MAX,
        packed matches Some(p) ==> yields(lz4_decompressed(p), column_payload(col)),
        ({
            let file = framed(col.column_type(), column_payload(col), packed);
            let sidecar = match col {
                ColumnView::Utf8(rows) if with_sidecar => idx_offsets(idx_file(text_offsets(rows))),
                _ => None,
            };
            match file_outcome(file) {
                Err(m) => back is Err && back->Err_0@ == m,
                Ok((ty, payload)) => payload_read(back, payload, ty, sidecar),
            }
        }),
    ensures
        back is Ok,
        back->Ok_0@ == col,
        back->Ok_0.wf(),
{
    let raw = column_payload(col);
    law_payload_read_back(col.column_type(), raw, packed);
    let n = col.len() as u64;
    n.lemma_round_trip();
    assert(raw.take(8) =~= n.encoded());
    let body = raw.skip(8);
    match col {
        ColumnView::Int64(v) => {
            assert(body =~= pod_bytes(v));
            lemma_fixed_body(v, body);
        },
        ColumnView::Int32(v) => {
            assert(body =~= pod_bytes(v));
            lemma_fixed_body(v, body);
        },
        ColumnView::Int16(v) => {
            assert(body =~= pod_bytes(v));
            lemma_fixed_body(v, body);
        },
        ColumnView::Date(v) => {
            assert(body =~= pod_bytes(v));
            lemma_fixed_body(v, body);
        },
        ColumnView::Timestamp(v) => {
            assert(body =~= pod_bytes(v));
            lemma_fixed_body(v, body);
        },
        ColumnView::Utf8(rows) => {
            assert(body =~= text_body(rows));
            law_offsets_read_back(text_offsets(rows));
            crate::storage::utf8_col::lemma_sequential_offsets(rows, 0);
            assert(text_body(rows.take(0)).len() == 0);
            assert(text_offsets(rows).skip(0) =~= text_offsets(rows));
            match back {
                Ok(ColumnData::Utf8(c)) => {
                    law_text_read_back(rows, c);
                },
                _ => {},
            }
        },
    }
}

/// The row offsets that are kept beside a column, if they are.
pub open spec fn sidecar_beside(col: ColumnView, kept: bool) -> Option<Seq<u64>> {
    match col {
        ColumnView::Utf8(rows) if kept => idx_offsets(idx_file(text_offsets(rows))),
        _ => None,
    }
}

/// A payload that was written has its rows, each of them where it was put.
pub proof fn lemma_payload_sound(col: ColumnView, kept: bool)
    requires
        column_fits(col),
        col.len() <= u64::MAX,
        column_payload(col).len() <= u64::MAX,
    ensures
        column_payload(col).len() >= 8,
        payload_count(column_payload(col)) == col.len(),
        payload_fault(column_payload(col), col.column_type(), sidecar_beside(col, kept)) is None,
        match col {
            ColumnView::Int64(v) => pod_values::<i64>(column_payload(col).skip(8), v.len()) == v,
            ColumnView::Int32(v) => pod_values::<i32>(column_payload(col).skip(8), v.len()) == v,
            ColumnView::Int16(v) => pod_values::<i16>(column_payload(col).skip(8), v.len()) == v,
            ColumnView::Date(v) => pod_values::<i32>(column_payload(col).skip(8), v.len()) == v,
            ColumnView::Timestamp(v) => pod_values::<i64>(column_payload(col).skip(8), v.len())
                == v,
            ColumnView::Utf8(rows) => {
                &&& column_payload(col).skip(8) == text_body(rows)
                &&& body_offsets(text_body(rows), sidecar_beside(col, kept)) == Some(
                    text_offsets(rows),
                )
            },
        },
{
    let raw = column_payload(col);
    let n = col.len() as u64;
    n.lemma_round_trip();
    assert(raw.take(8) =~= n.encoded());
    let body = raw.skip(8);
    match col {
        ColumnView::Int64(v) => {
            assert(body =~= pod_bytes(v));
            lemma_fixed_body(v, body);
        },
        ColumnView::Int32(v) => {
            assert(body =~= pod_bytes(v));
            lemma_fixed_body(v, body);
        },
        ColumnView::Int16(v) => {
            assert(body =~= pod_bytes(v));
            lemma_fixed_body(v, body);
        },
        ColumnView::Date(v) => {
            assert(body =~= pod_bytes(v));
            lemma_fixed_body(v, body);
        },
        ColumnView::Timestamp(v) => {
            assert(body =~= pod_bytes(v));
            lemma_fixed_body(v, body);
        },
        ColumnView::Utf8(rows) => {
            assert(body =~= text_body(rows));
            law_offsets_read_back(text_offsets(rows));
            crate::storage::utf8_col::lemma_sequential_offsets(rows, 0);
            assert(text_body(rows.take(0)).len() == 0);
            assert(text_offsets(rows).skip(0) =~= text_offsets(rows));
        },
    }
}

proof fn lemma_fixed_body<T: Pod>(v: Seq<T>, body: Seq<u8>)
    requires
        body == pod_bytes(v),
    ensures
        pod_values::<T>(body, v.len()) == v,
        body.len() == v.len() * T::width(),
{
    lemma_pod_bytes_len(v);
    lemma_pod_round_trip(v, Seq::empty());
    assert(pod_bytes(v) + Seq::<u8>::empty() =~= pod_bytes(v));
}

/// The head of a column file: its sign, the version, a number for the type, which no other
/// type has, and whether what follows is packed. It is where that is shorter, and else follows
/// as it is.
pub proof fn law_file_head(ty: ColumnType, other: ColumnType, raw: Seq<u8>, packed: Option<Seq<u8>>)
    ensures
        framed(ty, raw, packed).take(4) == seq!['C' as u8, 'R' as u8, 'U' as u8, 'N' as u8],
        framed(ty, raw, packed)[4] == 1,
        framed(ty, raw, packed)[5] == type_tag(ty),
        type_tag(ty) == type_tag(other) ==> ty == other,
        packed is None ==> framed(ty, raw, packed)[6] == 0,
        framed(ty, raw, packed)[6] == 0 ==> framed(ty, raw, packed).skip(7) == raw,
        framed(ty, raw, packed)[6] != 0 ==> packed == Some(framed(ty, raw, packed).skip(7))
            && packed->Some_0.len() < raw.len(),
        framed(ty, raw, packed).len() <= 7 + raw.len(),
{
    let f = framed(ty, raw, packed);
    assert(f.take(4) =~= seq!['C' as u8, 'R' as u8, 'U' as u8, 'N' as u8]);
    match packed {
        Some(p) if p.len() < raw.len() && lengths_fit(p) => {
            assert(f.skip(7) =~= p);
        },
        _ => {
            assert(f.skip(7) =~= raw);
        },
    }
}

} // verus!
