//! Columns written chunk by chunk: each chunk becomes bytes to append to staging files,
//! and in the end the staged bytes become a column's file.
use crate::error::{yields, Error};
use crate::storage::column::{
    column_fits, column_payload, file_outcome, frame_payload, framed, law_column_read_back,
    lz4_decompressed, payload_read, write_col_payload, ColumnData, ColumnType, ColumnView,
    COMPRESS_ABOVE,
};
use crate::storage::pod::{
    lemma_pod_bytes_len, lemma_pod_round_trip, pod_bytes, pod_values, write_pod_vec, Pod,
};
use crate::storage::utf8_col::{
    idx_file, idx_offsets, text_body, text_offsets, texts_fit, utf8_idx_sidecar, Utf8Column,
};
use crate::text::{decimal, int_text};
use vstd::prelude::*;
use vstd::utf8::encode_utf8;

verus! {

/// Payloads of text above this length are not compressed.
pub const STREAM_RAW_THRESHOLD: u64 = 268435456;

/// Writes a column chunk by chunk.
pub struct StreamingColumnWriter {
    pub name: String,
    pub col_type: ColumnType,
    pub row_count: u64,
    /// The length of the staged texts.
    pub body_len: u64,
}

/// The bytes that a chunk adds to the staging files.
pub struct StagedChunk {
    /// The values.
    pub body: Vec<u8>,
    /// Where the texts begin; empty for numbers.
    pub offsets: Vec<u8>,
}

/// The values of a column as they are staged.
pub open spec fn staged_body(col: ColumnView) -> Seq<u8> {
    match col {
        ColumnView::Int64(v) => pod_bytes(v),
        ColumnView::Int32(v) => pod_bytes(v),
        ColumnView::Int16(v) => pod_bytes(v),
        ColumnView::Utf8(v) => text_body(v),
        ColumnView::Date(v) => pod_bytes(v),
        ColumnView::Timestamp(v) => pod_bytes(v),
    }
}

/// Where the texts of a chunk begin, behind the texts that are staged already.
pub open spec fn moved(offsets: Seq<u64>, by: u64) -> Seq<u64> {
    Seq::new(offsets.len(), |i: int| (offsets[i] + by) as u64)
}

/// Where the texts of a column begin, as that is staged.
pub open spec fn staged_offsets(col: ColumnView, by: u64) -> Seq<u8> {
    match col {
        ColumnView::Utf8(v) => pod_bytes(moved(text_offsets(v), by)),
        _ => Seq::empty(),
    }
}

/// The message that a column of texts is too long.
pub open spec fn body_exceeded(name: Seq<char>, at: int) -> Seq<char> {
    "utf8 column '"@ + name + "' body exceeded addressable size at "@ + decimal(at) + " bytes"@
}

impl StreamingColumnWriter {
    /// A writer of a column without rows.
    pub fn new(name: &str, ty: ColumnType) -> (w: Self)
        ensures
            w.name@ == name@,
            w.col_type == ty,
            w.row_count == 0,
            w.body_len == 0,
    {
        StreamingColumnWriter {
            name: String::from_str(name),
            col_type: ty,
            row_count: 0,
            body_len: 0,
        }
    }

    /// The bytes that a chunk adds to the staging files. A chunk of another type is
    /// refused, and so are texts that would make the column too long.
    pub fn append(&mut self, chunk: &ColumnData) -> (r: Result<StagedChunk, Error>)
        requires
            chunk.wf(),
            column_fits(chunk@),
            old(self).row_count + chunk@.len() <= u64::MAX,
        ensures
            final(self).name@ == old(self).name@,
            final(self).col_type == old(self).col_type,
            match r {
                Ok(s) => {
                    &&& chunk@.column_type() == old(self).col_type
                    &&& s.body@ == staged_body(chunk@)
                    &&& s.offsets@ == staged_offsets(chunk@, old(self).body_len)
                    &&& final(self).row_count == old(self).row_count + chunk@.len()
                    &&& chunk@ is Utf8 ==> final(self).body_len == old(self).body_len
                        + staged_body(chunk@).len()
                    &&& !(chunk@ is Utf8) ==> final(self).body_len == old(self).body_len
                },
                Err(e) => {
                    &&& *final(self) == *old(self)
                    &&& if chunk@.column_type() != old(self).col_type {
                        e@ == "staging append type mismatch"@
                    } else {
                        &&& chunk@ is Utf8
                        &&& old(self).body_len + staged_body(chunk@).len() > u64::MAX
                        &&& e@ == body_exceeded(old(self).name@, old(self).body_len as int)
                    }
                },
            },
    {
        if chunk.column_type() != self.col_type {
            return Err(Error::msg("staging append type mismatch"));
        }
        let mut body: Vec<u8> = Vec::new();
        let mut offsets: Vec<u8> = Vec::new();
        match chunk {
            ColumnData::Utf8(v) => {
                let places = stage_texts(&mut body, v);
                if body.len() as u64 > u64::MAX - self.body_len {
                    let mut m = String::from_str("utf8 column '");
                    m.append(self.name.as_str());
                    m.append("' body exceeded addressable size at ");
                    m.append(int_text(self.body_len as i128).as_str());
                    m.append(" bytes");
                    return Err(Error::Msg(m));
                }
                let there = move_offsets(&places, self.body_len, body.len(), Ghost(v@));
                write_pod_vec(&mut offsets, there.as_slice());
                assert(offsets@ =~= pod_bytes(there@));
                self.body_len = self.body_len + body.len() as u64;
            },
            ColumnData::Int64(v) => {
                write_pod_vec(&mut body, v.as_slice());
            },
            ColumnData::Int32(v) => {
                write_pod_vec(&mut body, v.as_slice());
            },
            ColumnData::Int16(v) => {
                write_pod_vec(&mut body, v.as_slice());
            },
            ColumnData::Date(v) => {
                write_pod_vec(&mut body, v.as_slice());
            },
            ColumnData::Timestamp(v) => {
                write_pod_vec(&mut body, v.as_slice());
            },
        }
        assert(body@ =~= staged_body(chunk@));
        self.row_count = self.row_count + chunk.len() as u64;
        Ok(StagedChunk { body, offsets })
    }

    /// The column's file, and for texts the offset file beside it, out of the staged
    /// bytes.
    pub fn finalize(&self, body: &[u8], offsets: &[u8]) -> (r: Result<
        (Vec<u8>, Option<Vec<u8>>),
        Error,
    >)
        ensures
            match r {
                Ok((file, idx)) => {
                    &&& staging_fault(*self, offsets@) is None
                    &&& exists|packed: Option<Seq<u8>>|
                        {
                            &&& file@ == #[trigger] framed(
                                self.col_type,
                                staged_payload(*self, body@),
                                packed,
                            )
                            &&& packed is Some <==> compresses(
                                self.col_type,
                                staged_payload(*self, body@).len(),
                            )
                            &&& packed matches Some(p) ==> staged_payload(*self, body@).len()
                                <= u32::MAX ==> yields(
                                lz4_decompressed(p),
                                staged_payload(*self, body@),
                            )
                        }
                    &&& self.col_type == ColumnType::Utf8 ==> idx is Some && idx->Some_0@
                        == idx_file(pod_values::<u64>(offsets@, self.row_count as nat))
                    &&& self.col_type != ColumnType::Utf8 ==> idx is None
                },
                Err(e) => staging_fault(*self, offsets@) == Some(e@),
            },
    {
        let mut raw: Vec<u8> = Vec::new();
        self.row_count.write_le(&mut raw);
        let mut tail: Vec<u8> = vstd::slice::slice_to_vec(body);
        raw.append(&mut tail);
        assert(raw@ =~= staged_payload(*self, body@));
        if self.col_type != ColumnType::Utf8 {
            return Ok((write_col_payload(self.col_type, raw.as_slice()), None));
        }
        let places = match read_staged_offsets(self.name.as_str(), offsets) {
            Ok(p) => p,
            Err(e) => {
                return Err(e);
            },
        };
        if places.len() as u64 != self.row_count {
            let mut m = String::from_str("utf8 column '");
            m.append(self.name.as_str());
            m.append("' row count mismatch: ");
            m.append(int_text(self.row_count as i128).as_str());
            m.append(" rows, ");
            m.append(int_text(places.len() as i128).as_str());
            m.append(" offsets");
            return Err(Error::Msg(m));
        }
        let idx = utf8_idx_sidecar(places.as_slice());
        if raw.len() as u64 > STREAM_RAW_THRESHOLD {
            let file = frame_payload(self.col_type, raw.as_slice(), None);
            assert(file@ == framed(self.col_type, raw@, None));
            Ok((file, Some(idx)))
        } else {
            Ok((write_col_payload(self.col_type, raw.as_slice()), Some(idx)))
        }
    }
}

/// The payload of the staged values: the row count, then the values.
pub open spec fn staged_payload(w: StreamingColumnWriter, body: Seq<u8>) -> Seq<u8> {
    w.row_count.encoded() + body
}

/// Whether a payload is compressed: a long one is, unless it holds texts and is very
/// long.
pub open spec fn compresses(ty: ColumnType, len: nat) -> bool {
    len > COMPRESS_ABOVE && !(ty == ColumnType::Utf8 && len > STREAM_RAW_THRESHOLD)
}

/// What is wrong with the staged offsets of a column, if anything.
pub open spec fn staging_fault(w: StreamingColumnWriter, offsets: Seq<u8>) -> Option<Seq<char>> {
    if w.col_type != ColumnType::Utf8 {
        None
    } else if offsets.len() % 8 != 0 {
        Some(
            "utf8 column '"@ + w.name@ + "' offset staging file size "@ + decimal(
                offsets.len() as int,
            ) + " is not a multiple of 8"@,
        )
    } else if offsets.len() / 8 != w.row_count {
        Some(
            "utf8 column '"@ + w.name@ + "' row count mismatch: "@ + decimal(w.row_count as int)
                + " rows, "@ + decimal((offsets.len() / 8) as int) + " offsets"@,
        )
    } else {
        None
    }
}

/// The texts of a chunk, each with its length, and where they begin.
fn stage_texts(body: &mut Vec<u8>, v: &Utf8Column) -> (places: Vec<u64>)
    requires
        v.wf(),
        texts_fit(v@),
        old(body)@.len() == 0,
    ensures
        final(body)@ == text_body(v@),
        places@ == text_offsets(v@),
        forall|i: int| 0 <= i < places@.len() ==> (#[trigger] places@[i]) <= final(body)@.len(),
{
    let n: usize = v.len();
    let mut places: Vec<u64> = Vec::new();
    let mut i: usize = 0;
    assert(body@ =~= text_body(v@.take(0)));
    while i < n
        invariant
            v.wf(),
            texts_fit(v@),
            n == v@.len(),
            n == v.offsets().len(),
            i <= n,
            body@ == text_body(v@.take(i as int)),
            places@.len() == i,
            forall|k: int|
                0 <= k < i ==> #[trigger] places@[k] == text_body(v@.take(k)).len() as u64,
            forall|k: int| 0 <= k < places@.len() ==> (#[trigger] places@[k]) <= body@.len(),
        decreases n - i,
    {
        assert(v.row_ok(i as int));
        let s = v.get(i);
        places.push(body.len() as u64);
        let bytes = s.as_bytes();
        assert(encode_utf8(v@[i as int]).len() <= u32::MAX);
        (bytes.len() as u32).write_le(body);
        let mut tail: Vec<u8> = vstd::slice::slice_to_vec(bytes);
        body.append(&mut tail);
        proof {
            assert(v@.take(i + 1).drop_last() =~= v@.take(i as int));
            assert(v@.take(i + 1).last() == s@);
            assert(body@ =~= text_body(v@.take(i + 1)));
        }
        i = i + 1;
    }
    assert(v@.take(i as int) =~= v@);
    assert(places@ =~= text_offsets(v@));
    places
}

/// Where texts begin, behind others.
fn move_offsets(places: &Vec<u64>, by: u64, most: usize, Ghost(rows): Ghost<Seq<Seq<char>>>) -> (out: Vec<
    u64,
>)
    requires
        places@ == text_offsets(rows),
        forall|i: int| 0 <= i < places@.len() ==> (#[trigger] places@[i]) <= most,
        by + most <= u64::MAX,
    ensures
        out@ == moved(text_offsets(rows), by),
{
    let mut out: Vec<u64> = Vec::new();
    let mut i: usize = 0;
    while i < places.len()
        invariant
            i <= places@.len(),
            forall|i: int| 0 <= i < places@.len() ==> (#[trigger] places@[i]) <= most,
            by + most <= u64::MAX,
            out@.len() == i,
            forall|k: int| 0 <= k < i ==> #[trigger] out@[k] == places@[k] + by,
        decreases places@.len() - i,
    {
        assert(places@[i as int] <= most);
        out.push(places[i] + by);
        i = i + 1;
    }
    assert(out@ =~= moved(text_offsets(rows), by));
    out
}

/// The offsets that were staged.
fn read_staged_offsets(name: &str, bytes: &[u8]) -> (r: Result<Vec<u64>, Error>)
    ensures
        match r {
            Ok(v) => bytes@.len() % 8 == 0 && v@ == pod_values::<u64>(
                bytes@,
                (bytes@.len() / 8) as nat,
            ),
            Err(e) => bytes@.len() % 8 != 0 && e@ == "utf8 column '"@ + name@
                + "' offset staging file size "@ + decimal(bytes@.len() as int)
                + " is not a multiple of 8"@,
        },
{
    let total: usize = bytes.len();
    if total % 8 != 0 {
        let mut m = String::from_str("utf8 column '");
        m.append(name);
        m.append("' offset staging file size ");
        m.append(int_text(total as i128).as_str());
        m.append(" is not a multiple of 8");
        return Err(Error::Msg(m));
    }
    let n: usize = total / 8;
    let mut v: Vec<u64> = Vec::with_capacity(n);
    let mut i: usize = 0;
    while i < n
        invariant
            i <= n,
            n * 8 <= total,
            total == bytes@.len(),
            v@ == pod_values::<u64>(bytes@, i as nat),
        decreases n - i,
    {
        let off: usize = i * 8;
        v.push(u64::read_le(&bytes[off..off + 8]));
        assert(v@ =~= pod_values::<u64>(bytes@, (i + 1) as nat));
        i = i + 1;
    }
    Ok(v)
}

proof fn lemma_pod_bytes_joined<T: Pod>(a: Seq<T>, b: Seq<T>)
    ensures
        pod_bytes(a + b) == pod_bytes(a) + pod_bytes(b),
    decreases b.len(),
{
    if b.len() == 0 {
        assert(a + b =~= a);
        assert(pod_bytes(a) + pod_bytes(b) =~= pod_bytes(a));
    } else {
        assert((a + b).drop_last() =~= a + b.drop_last());
        lemma_pod_bytes_joined(a, b.drop_last());
        assert(pod_bytes(a + b) =~= pod_bytes(a) + pod_bytes(b));
    }
}

proof fn lemma_text_body_joined(a: Seq<Seq<char>>, b: Seq<Seq<char>>)
    ensures
        text_body(a + b) == text_body(a) + text_body(b),
    decreases b.len(),
{
    if b.len() == 0 {
        assert(a + b =~= a);
        assert(text_body(a) + text_body(b) =~= text_body(a));
    } else {
        assert((a + b).drop_last() =~= a + b.drop_last());
        lemma_text_body_joined(a, b.drop_last());
        assert(text_body(a + b) =~= text_body(a) + text_body(b));
    }
}

/// What two chunks add to the staging files, one after the other, is what they add as
/// one.
pub proof fn law_chunks_join(a: ColumnView, b: ColumnView)
    requires
        a.column_type() == b.column_type(),
        staged_body(a).len() + staged_body(b).len() <= u64::MAX,
    ensures
        staged_body(a.followed_by(b)) == staged_body(a) + staged_body(b),
        staged_offsets(a.followed_by(b), 0) == staged_offsets(a, 0) + staged_offsets(
            b,
            staged_body(a).len() as u64,
        ),
{
    match (a, b) {
        (ColumnView::Int64(x), ColumnView::Int64(y)) => {
            lemma_pod_bytes_joined(x, y);
            assert(Seq::<u8>::empty() + Seq::<u8>::empty() =~= Seq::<u8>::empty());
        },
        (ColumnView::Int32(x), ColumnView::Int32(y)) => {
            lemma_pod_bytes_joined(x, y);
            assert(Seq::<u8>::empty() + Seq::<u8>::empty() =~= Seq::<u8>::empty());
        },
        (ColumnView::Int16(x), ColumnView::Int16(y)) => {
            lemma_pod_bytes_joined(x, y);
            assert(Seq::<u8>::empty() + Seq::<u8>::empty() =~= Seq::<u8>::empty());
        },
        (ColumnView::Date(x), ColumnView::Date(y)) => {
            lemma_pod_bytes_joined(x, y);
            assert(Seq::<u8>::empty() + Seq::<u8>::empty() =~= Seq::<u8>::empty());
        },
        (ColumnView::Timestamp(x), ColumnView::Timestamp(y)) => {
            lemma_pod_bytes_joined(x, y);
            assert(Seq::<u8>::empty() + Seq::<u8>::empty() =~= Seq::<u8>::empty());
        },
        (ColumnView::Utf8(x), ColumnView::Utf8(y)) => {
            lemma_text_body_joined(x, y);
            let n = text_body(x).len() as u64;
            let first = moved(text_offsets(x), 0);
            let second = moved(text_offsets(y), n);
            let whole = moved(text_offsets(x + y), 0);
            assert forall|i: int| 0 <= i < whole.len() implies whole[i] == (first + second)[i] by {
                if i < x.len() {
                    assert((x + y).take(i) =~= x.take(i));
                } else {
                    let k = i - x.len();
                    assert((x + y).take(i) =~= x + y.take(k));
                    lemma_text_body_joined(x, y.take(k));
                    assert(y.take(k) + y.skip(k) =~= y);
                    lemma_text_body_joined(y.take(k), y.skip(k));
                    assert(text_body(y.take(k)).len() <= text_body(y).len());
                }
            }
            assert(whole =~= first + second);
            lemma_pod_bytes_joined(first, second);
        },
        _ => {},
    }
}

/// A column whose staged bytes are those of its chunks is read back as it was.
pub proof fn law_staged_read_back(
    w: StreamingColumnWriter,
    col: ColumnView,
    packed: Option<Seq<u8>>,
    back: Result<ColumnData, Error>,
)
    requires
        column_fits(col),
        col.len() == w.row_count,
        col.column_type() == w.col_type,
        column_payload(col).len() <= u64::MAX,
        packed matches Some(p) ==> yields(lz4_decompressed(p), staged_payload(w, staged_body(col))),
        ({
            let file = framed(w.col_type, staged_payload(w, staged_body(col)), packed);
            let sidecar = match col {
                ColumnView::Utf8(rows) => idx_offsets(
                    idx_file(pod_values::<u64>(staged_offsets(col, 0), w.row_count as nat)),
                ),
                _ => None,
            };
            match file_outcome(file) {
                Err(m) => back is Err && back->Err_0@ == m,
                Ok((ty, payload)) => payload_read(back, payload, ty, sidecar),
            }
        }),
    ensures
        staging_fault(w, staged_offsets(col, 0)) is None,
        back is Ok,
        back->Ok_0@ == col,
        back->Ok_0.wf(),
{
    assert(staged_payload(w, staged_body(col)) == column_payload(col));
    if let ColumnView::Utf8(rows) = col {
        let places = text_offsets(rows);
        assert(moved(places, 0) =~= places);
        lemma_pod_bytes_len(places);
        lemma_pod_round_trip(places, Seq::empty());
        assert(pod_bytes(places) + Seq::<u8>::empty() =~= pod_bytes(places));
    }
    law_column_read_back(col, packed, true, back);
}

} // verus!
