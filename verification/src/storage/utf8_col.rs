//! Contiguous text columns: one body of length-prefixed entries and the
//! offset of each row's entry, scanned without an allocation per row.
use crate::error::{text_outcome, Error};
use crate::storage::pod::{
    arc_slice, lemma_pod_bytes_len, lemma_pod_round_trip, pod_at, pod_bytes, pod_values,
    write_pod_vec, Pod,
};
use std::sync::Arc;
use vstd::prelude::*;
use vstd::utf8::{decode_utf8, encode_utf8, valid_utf8};

verus! {

/// The length prefix of the entry at `pos`.
pub open spec fn entry_len(body: Seq<u8>, pos: int) -> nat {
    u32::decoded(body.subrange(pos, pos + 4)) as nat
}

/// Whether a whole entry lies at `pos`.
pub open spec fn entry_ok(body: Seq<u8>, pos: int) -> bool {
    &&& 0 <= pos
    &&& pos + 4 <= body.len()
    &&& pos + 4 + entry_len(body, pos) <= body.len()
}

/// The bytes of the entry at `pos`, without the length prefix.
pub open spec fn entry_bytes(body: Seq<u8>, pos: int) -> Seq<u8> {
    body.subrange(pos + 4, pos + 4 + entry_len(body, pos))
}

/// Whether a whole entry of valid UTF-8 lies at `pos`.
pub open spec fn entry_is_text(body: Seq<u8>, pos: int) -> bool {
    entry_ok(body, pos) && valid_utf8(entry_bytes(body, pos))
}

/// The text of the entry at `pos`.
pub open spec fn entry_text(body: Seq<u8>, pos: int) -> Seq<char> {
    decode_utf8(entry_bytes(body, pos))
}

/// The message of the standard library's `Utf8Error` for bytes that are not UTF-8.
pub uninterp spec fn utf8_fault(bytes: Seq<u8>) -> Seq<char>;

/// `std::str::from_utf8`: succeeds exactly on valid UTF-8, with the same bytes;
/// the message of its error depends on the bytes alone.
#[verifier::external_body]
pub(crate) fn utf8_text(bytes: &[u8]) -> (r: Result<&str, String>)
    ensures
        match r {
            Ok(s) => valid_utf8(bytes@) && encode_utf8(s@) == bytes@,
            Err(m) => !valid_utf8(bytes@) && m@ == utf8_fault(bytes@),
        },
{
    std::str::from_utf8(bytes).map_err(|e| e.to_string())
}

/// The length prefix of the entry at `pos`, if the prefix fits.
pub(crate) fn prefix_at(body: &[u8], pos: u64) -> (r: Option<u32>)
    ensures
        match r {
            Some(n) => pos + 4 <= body@.len() && n as nat == entry_len(body@, pos as int),
            None => pos + 4 > body@.len(),
        },
{
    let total: usize = body.len();
    if total < 4 || pos > (total - 4) as u64 {
        return None;
    }
    let p: usize = pos as usize;
    Some(u32::read_le(&body[p..p + 4]))
}

/// The bytes of the entry at `pos`, if the whole entry fits.
pub(crate) fn entry_at(body: &[u8], pos: u64) -> (r: Option<&[u8]>)
    ensures
        match r {
            Some(b) => entry_ok(body@, pos as int) && b@ == entry_bytes(body@, pos as int),
            None => !entry_ok(body@, pos as int),
        },
{
    match prefix_at(body, pos) {
        None => None,
        Some(n) => {
            let rest: usize = body.len() - pos as usize - 4;
            if n as u64 > rest as u64 {
                return None;
            }
            let start: usize = pos as usize + 4;
            Some(&body[start..start + n as usize])
        },
    }
}

/// Whether a whole entry of valid UTF-8 lies at `pos`.
fn check_entry(body: &[u8], pos: u64) -> (r: bool)
    ensures
        r == entry_is_text(body@, pos as int),
{
    match entry_at(body, pos) {
        None => false,
        Some(b) => utf8_text(b).is_ok(),
    }
}

/// The text of the entry at `pos`.
pub(crate) fn text_at(body: &[u8], pos: u64) -> (s: &str)
    requires
        entry_is_text(body@, pos as int),
    ensures
        s@ == entry_text(body@, pos as int),
        encode_utf8(s@) == entry_bytes(body@, pos as int),
{
    match entry_at(body, pos) {
        Some(b) => match utf8_text(b) {
            Ok(s) => {
                proof {
                    vstd::utf8::encode_utf8_decode_utf8(s@);
                }
                s
            },
            Err(_) => "",
        },
        None => "",
    }
}

#[allow(inconsistent_fields)]
enum Utf8Storage {
    Building { body: Vec<u8>, offsets: Vec<u64> },
    Frozen { body: Arc<[u8]>, offsets: Arc<[u64]> },
}

/// A column of text.
pub struct Utf8Column {
    storage: Utf8Storage,
}

impl View for Utf8Column {
    type V = Seq<Seq<char>>;

    /// The text of every row.
    open spec fn view(&self) -> Seq<Seq<char>> {
        Seq::new(self.offsets().len(), |i: int| entry_text(self.body(), self.offsets()[i] as int))
    }
}

/// The offsets of entries laid one after the other from `pos` to the end of
/// the body; `None` where the last of them is cut short.
pub open spec fn sequential_offsets(body: Seq<u8>, pos: int) -> Option<Seq<u64>>
    decreases body.len() - pos,
{
    if pos < 0 || pos + 4 > body.len() {
        Some(Seq::empty())
    } else {
        let next = pos + 4 + entry_len(body, pos);
        if next > body.len() {
            None
        } else {
            prepended(seq![pos as u64], sequential_offsets(body, next))
        }
    }
}

/// A sequence put in front of another, if there is one.
pub open spec fn prepended(front: Seq<u64>, rest: Option<Seq<u64>>) -> Option<Seq<u64>> {
    match rest {
        Some(r) => Some(front + r),
        None => None,
    }
}

impl Utf8Column {
    /// The length-prefixed entries.
    pub closed spec fn body(&self) -> Seq<u8> {
        match self.storage {
            Utf8Storage::Building { body, .. } => body@,
            Utf8Storage::Frozen { body, .. } => (*body)@,
        }
    }

    /// Where each row's entry starts in the body.
    pub closed spec fn offsets(&self) -> Seq<u64> {
        match self.storage {
            Utf8Storage::Building { offsets, .. } => offsets@,
            Utf8Storage::Frozen { offsets, .. } => (*offsets)@,
        }
    }

    /// Whether a row points at a whole entry of valid UTF-8.
    pub open spec fn row_ok(&self, row: int) -> bool {
        0 <= row < self.offsets().len() && entry_is_text(self.body(), self.offsets()[row] as int)
    }

    /// Whether every row points at a whole entry of valid UTF-8.
    pub open spec fn wf(&self) -> bool {
        forall|i: int| 0 <= i < self.offsets().len() ==> #[trigger] self.row_ok(i)
    }

    /// An empty column.
    pub fn new() -> (c: Self)
        ensures
            c.wf(),
            c@ == Seq::<Seq<char>>::empty(),
            c.body() == Seq::<u8>::empty(),
            c.offsets() == Seq::<u64>::empty(),
    {
        let c = Utf8Column {
            storage: Utf8Storage::Building { body: Vec::new(), offsets: Vec::new() },
        };
        assert(c@ =~= Seq::<Seq<char>>::empty());
        c
    }

    /// The number of rows.
    pub fn len(&self) -> (n: usize)
        ensures
            n == self@.len(),
            n == self.offsets().len(),
    {
        match &self.storage {
            Utf8Storage::Building { offsets, .. } => offsets.len(),
            Utf8Storage::Frozen { offsets, .. } => (&**offsets).len(),
        }
    }

    /// Whether the column has no rows.
    pub fn is_empty(&self) -> (r: bool)
        ensures
            r == (self@.len() == 0),
    {
        self.len() == 0
    }

    fn body_offsets(&self) -> (r: (&[u8], &[u64]))
        ensures
            r.0@ == self.body(),
            r.1@ == self.offsets(),
    {
        match &self.storage {
            Utf8Storage::Building { body, offsets } => (body.as_slice(), offsets.as_slice()),
            Utf8Storage::Frozen { body, offsets } => (&**body, &**offsets),
        }
    }

    /// Turns a frozen column into one that can grow; the contents stay.
    fn ensure_building(&mut self)
        ensures
            final(self).storage is Building,
            final(self).body() == old(self).body(),
            final(self).offsets() == old(self).offsets(),
    {
        let thawed = match &self.storage {
            Utf8Storage::Building { .. } => None,
            Utf8Storage::Frozen { body, offsets } => Some(
                (vstd::slice::slice_to_vec(&**body), vstd::slice::slice_to_vec(&**offsets)),
            ),
        };
        match thawed {
            None => {},
            Some((body, offsets)) => {
                self.storage = Utf8Storage::Building { body, offsets };
            },
        }
    }

    /// Tests whether every row points at a whole entry of valid UTF-8.
    pub fn check(&self) -> (r: bool)
        ensures
            r == self.wf(),
    {
        let (body, offsets) = self.body_offsets();
        let mut i: usize = 0;
        while i < offsets.len()
            invariant
                body@ == self.body(),
                offsets@ == self.offsets(),
                i <= offsets@.len(),
                forall|k: int| 0 <= k < i ==> #[trigger] self.row_ok(k),
            decreases offsets@.len() - i,
        {
            if !check_entry(body, offsets[i]) {
                assert(!self.row_ok(i as int));
                return false;
            }
            i = i + 1;
        }
        true
    }

    /// The text of one row.
    pub fn get(&self, row: usize) -> (s: &str)
        requires
            self.row_ok(row as int),
        ensures
            s@ == self@[row as int],
            encode_utf8(s@) == entry_bytes(self.body(), self.offsets()[row as int] as int),
    {
        let (body, offsets) = self.body_offsets();
        text_at(body, offsets[row])
    }

    /// Appends one row.
    pub fn push_str(&mut self, s: &str)
        requires
            old(self).wf(),
            encode_utf8(s@).len() <= u32::MAX,
        ensures
            final(self).wf(),
            final(self)@ == old(self)@.push(s@),
            final(self).body() == old(self).body() + text_entry(s@),
            final(self).offsets() == old(self).offsets().push(old(self).body().len() as u64),
    {
        self.ensure_building();
        let ghost before = *self;
        let bytes = s.as_bytes();
        match &mut self.storage {
            Utf8Storage::Building { body, offsets } => {
                offsets.push(body.len() as u64);
                (bytes.len() as u32).write_le(body);
                let mut tail: Vec<u8> = vstd::slice::slice_to_vec(bytes);
                body.append(&mut tail);
                assert(body@ =~= before.body() + text_entry(s@));
            },
            Utf8Storage::Frozen { .. } => {},
        }
        proof {
            assert(self.body() == before.body() + text_entry(s@));
            lemma_pushed(*old(self), *self, s@);
        }
    }

    /// Appends a run of nullable values; a null is stored as the empty text.
    pub fn append_string_array(&mut self, values: &Vec<Option<String>>)
        requires
            old(self).wf(),
            forall|i: int|
                0 <= i < values@.len() ==> encode_utf8(#[trigger] text_or_empty(values@[i])).len()
                    <= u32::MAX,
        ensures
            final(self).wf(),
            final(self)@ == old(self)@ + values@.map_values(|v: Option<String>| text_or_empty(v)),
    {
        let ghost mapped = values@.map_values(|v: Option<String>| text_or_empty(v));
        let mut i: usize = 0;
        assert(old(self)@ =~= old(self)@ + mapped.take(0));
        while i < values.len()
            invariant
                i <= values@.len(),
                mapped == values@.map_values(|v: Option<String>| text_or_empty(v)),
                forall|k: int|
                    0 <= k < values@.len() ==> encode_utf8(
                        #[trigger] text_or_empty(values@[k]),
                    ).len() <= u32::MAX,
                self.wf(),
                self@ == old(self)@ + mapped.take(i as int),
            decreases values@.len() - i,
        {
            let ghost here = text_or_empty(values@[i as int]);
            match &values[i] {
                Some(s) => {
                    self.push_str(s.as_str());
                },
                None => {
                    proof {
                        reveal_strlit("");
                        assert(""@ =~= Seq::<char>::empty());
                    }
                    self.push_str("");
                },
            }
            assert(mapped.take(i + 1) =~= mapped.take(i as int).push(here));
            assert(self@ =~= old(self)@ + mapped.take(i + 1));
            i = i + 1;
        }
        assert(mapped.take(i as int) =~= mapped);
    }

    /// Appends every row of another column.
    pub fn extend_from(&mut self, other: &Self)
        requires
            old(self).wf(),
            other.wf(),
        ensures
            final(self).wf(),
            final(self)@ == old(self)@ + other@,
    {
        if other.is_empty() {
            assert(self@ =~= old(self)@ + other@);
            return;
        }
        self.ensure_building();
        let ghost before = *self;
        let (other_body, other_offsets) = other.body_offsets();
        let ghost shift = before.body().len();
        match &mut self.storage {
            Utf8Storage::Building { body, offsets } => {
                let base: usize = body.len();
                let mut tail: Vec<u8> = vstd::slice::slice_to_vec(other_body);
                body.append(&mut tail);
                let total: usize = body.len();
                let mut i: usize = 0;
                while i < other_offsets.len()
                    invariant
                        base == shift,
                        total == base + other_body@.len(),
                        other_body@ == other.body(),
                        other_offsets@ == other.offsets(),
                        other.wf(),
                        i <= other_offsets@.len(),
                        body@ == before.body() + other.body(),
                        offsets@ == before.offsets() + Seq::new(
                            i as nat,
                            |k: int| (shift + other.offsets()[k]) as u64,
                        ),
                    decreases other_offsets@.len() - i,
                {
                    assert(other.row_ok(i as int));
                    offsets.push(base as u64 + other_offsets[i]);
                    assert(offsets@ =~= before.offsets() + Seq::new(
                        (i + 1) as nat,
                        |k: int| (shift + other.offsets()[k]) as u64,
                    ));
                    i = i + 1;
                }
            },
            Utf8Storage::Frozen { .. } => {},
        }
        proof {
            assert(self.body() == before.body() + other.body());
            let n = before.offsets().len();
            assert forall|i: int| 0 <= i < self.offsets().len() implies #[trigger] self.row_ok(i)
                && self@[i] == (old(self)@ + other@)[i] by {
                if i < n {
                    assert(old(self).row_ok(i));
                    lemma_entry_kept(before.body(), other.body(), before.offsets()[i] as int);
                    assert(self.offsets()[i] == before.offsets()[i]);
                } else {
                    let k = i - n;
                    assert(other.row_ok(k));
                    lemma_entry_shifted(before.body(), other.body(), other.offsets()[k] as int);
                    assert(self.offsets()[i] == (shift + other.offsets()[k]) as u64);
                    assert(shift + other.offsets()[k] <= self.body().len());
                }
            }
            assert forall|i: int| 0 <= i < self@.len() implies #[trigger] self@[i] == (old(self)@
                + other@)[i] by {
                assert(self.row_ok(i));
            }
            assert(self@ =~= old(self)@ + other@);
        }
    }

    /// The text of every row.
    pub fn iter(&self) -> (rows: Vec<&str>)
        requires
            self.wf(),
        ensures
            rows@.len() == self@.len(),
            forall|i: int| 0 <= i < rows@.len() ==> (#[trigger] rows@[i])@ == self@[i],
    {
        let mut rows: Vec<&str> = Vec::new();
        let n: usize = self.len();
        let mut i: usize = 0;
        while i < n
            invariant
                self.wf(),
                n == self@.len(),
                n == self.offsets().len(),
                i <= n,
                rows@.len() == i,
                forall|k: int| 0 <= k < i ==> (#[trigger] rows@[k])@ == self@[k],
            decreases n - i,
        {
            assert(self.row_ok(i as int));
            rows.push(self.get(i));
            i = i + 1;
        }
        rows
    }

    /// A column over a body whose offsets were kept beside it. Where no offsets
    /// were kept the entries are walked from the start.
    pub fn from_body_with_sidecar(body: &[u8], sidecar: Option<Vec<u64>>) -> (r: Result<
        Self,
        Error,
    >)
        ensures
            match sidecar {
                Some(offsets) => r is Ok && r->Ok_0.body() == body@ && r->Ok_0.offsets()
                    == offsets@,
                None => match r {
                    Ok(c) => c.body() == body@ && sequential_offsets(body@, 0) == Some(c.offsets()),
                    Err(e) => sequential_offsets(body@, 0) is None && e@
                        == "utf8 payload truncated"@,
                },
            },
    {
        match sidecar {
            Some(offsets) => Ok(
                Utf8Column {
                    storage: Utf8Storage::Frozen {
                        body: arc_slice(vstd::slice::slice_to_vec(body)),
                        offsets: arc_slice(offsets),
                    },
                },
            ),
            None => Utf8Column::from_sequential_body(body),
        }
    }

    /// A column over entries laid one after the other. Up to three bytes after
    /// the last entry are ignored.
    pub fn from_sequential_body(body: &[u8]) -> (r: Result<Self, Error>)
        ensures
            match r {
                Ok(c) => c.body() == body@ && sequential_offsets(body@, 0) == Some(c.offsets()),
                Err(e) => sequential_offsets(body@, 0) is None && e@ == "utf8 payload truncated"@,
            },
    {
        let mut offsets: Vec<u64> = Vec::new();
        let total: usize = body.len();
        let mut pos: usize = 0;
        assert(prepended(offsets@, sequential_offsets(body@, 0)) == sequential_offsets(body@, 0)) by {
            match sequential_offsets(body@, 0) {
                Some(r) => {
                    assert(Seq::<u64>::empty() + r =~= r);
                },
                None => {},
            }
        }
        while pos <= total && total - pos >= 4
            invariant
                total == body@.len(),
                pos <= total,
                prepended(offsets@, sequential_offsets(body@, pos as int)) == sequential_offsets(
                    body@,
                    0,
                ),
            decreases total - pos,
        {
            let n: u32 = u32::read_le(&body[pos..pos + 4]);
            let rest: usize = total - pos - 4;
            if n as u64 > rest as u64 {
                assert(sequential_offsets(body@, pos as int) is None);
                return Err(Error::msg("utf8 payload truncated"));
            }
            let ghost seen = offsets@;
            offsets.push(pos as u64);
            proof {
                let next = pos + 4 + n;
                match sequential_offsets(body@, next) {
                    Some(r) => {
                        assert(seen + (seq![pos as u64] + r) =~= seen.push(pos as u64) + r);
                    },
                    None => {},
                }
            }
            pos = pos + 4 + n as usize;
        }
        assert(sequential_offsets(body@, pos as int) == Some(Seq::<u64>::empty()));
        assert(offsets@ + Seq::<u64>::empty() =~= offsets@);
        Ok(
            Utf8Column {
                storage: Utf8Storage::Frozen {
                    body: arc_slice(vstd::slice::slice_to_vec(body)),
                    offsets: arc_slice(offsets),
                },
            },
        )
    }
}

impl Default for Utf8Column {
    fn default() -> (c: Self)
        ensures
            c.wf(),
            c@ == Seq::<Seq<char>>::empty(),
    {
        Utf8Column::new()
    }
}

/// The text of a nullable value, a null being the empty text.
pub open spec fn text_or_empty(v: Option<String>) -> Seq<char> {
    match v {
        Some(s) => s@,
        None => Seq::empty(),
    }
}

/// The stored form of one text: its byte length, then its bytes.
pub open spec fn text_entry(s: Seq<char>) -> Seq<u8> {
    (encode_utf8(s).len() as u32).encoded() + encode_utf8(s)
}

/// The stored form of a run of texts.
pub open spec fn text_body(rows: Seq<Seq<char>>) -> Seq<u8>
    decreases rows.len(),
{
    if rows.len() == 0 {
        Seq::empty()
    } else {
        text_body(rows.drop_last()) + text_entry(rows.last())
    }
}

/// Where each of a run of stored texts starts.
pub open spec fn text_offsets(rows: Seq<Seq<char>>) -> Seq<u64> {
    Seq::new(rows.len(), |i: int| text_body(rows.take(i)).len() as u64)
}

/// Whether the length of every text fits its prefix.
pub open spec fn texts_fit(rows: Seq<Seq<char>>) -> bool {
    forall|i: int| 0 <= i < rows.len() ==> encode_utf8(#[trigger] rows[i]).len() <= u32::MAX
}

proof fn lemma_entry_appended(body: Seq<u8>, s: Seq<char>, rest: Seq<u8>)
    requires
        encode_utf8(s).len() <= u32::MAX,
    ensures
        ({
            let all = body + text_entry(s) + rest;
            let pos = body.len() as int;
            &&& entry_is_text(all, pos)
            &&& entry_len(all, pos) == encode_utf8(s).len()
            &&& entry_bytes(all, pos) == encode_utf8(s)
            &&& entry_text(all, pos) == s
        }),
{
    let all = body + text_entry(s) + rest;
    let pos = body.len() as int;
    let n = encode_utf8(s).len() as u32;
    n.lemma_round_trip();
    assert(all.subrange(pos, pos + 4) =~= n.encoded());
    assert(entry_bytes(all, pos) =~= encode_utf8(s));
    vstd::utf8::encode_utf8_valid_utf8(s);
    vstd::utf8::encode_utf8_decode_utf8(s);
}

/// Bytes put behind a body leave its entries as they are.
proof fn lemma_entry_kept(body: Seq<u8>, more: Seq<u8>, pos: int)
    requires
        entry_ok(body, pos),
    ensures
        entry_ok(body + more, pos),
        entry_len(body + more, pos) == entry_len(body, pos),
        entry_bytes(body + more, pos) == entry_bytes(body, pos),
{
    assert((body + more).subrange(pos, pos + 4) =~= body.subrange(pos, pos + 4));
    assert(entry_bytes(body + more, pos) =~= entry_bytes(body, pos));
}

/// Bytes put before a body move its entries without changing them.
proof fn lemma_entry_shifted(front: Seq<u8>, body: Seq<u8>, pos: int)
    requires
        entry_ok(body, pos),
    ensures
        entry_ok(front + body, front.len() + pos),
        entry_len(front + body, front.len() + pos) == entry_len(body, pos),
        entry_bytes(front + body, front.len() + pos) == entry_bytes(body, pos),
{
    let at = front.len() + pos;
    assert((front + body).subrange(at, at + 4) =~= body.subrange(pos, pos + 4));
    assert(entry_bytes(front + body, at) =~= entry_bytes(body, pos));
}

proof fn lemma_pushed(before: Utf8Column, after: Utf8Column, s: Seq<char>)
    requires
        before.wf(),
        encode_utf8(s).len() <= u32::MAX,
        before.body().len() <= u64::MAX,
        after.body() == before.body() + text_entry(s),
        after.offsets() == before.offsets().push(before.body().len() as u64),
    ensures
        after.wf(),
        after@ == before@.push(s),
{
    lemma_entry_appended(before.body(), s, Seq::empty());
    assert(after.body() + Seq::<u8>::empty() =~= after.body());
    assert forall|i: int| 0 <= i < after.offsets().len() implies #[trigger] after.row_ok(i)
        && after@[i] == before@.push(s)[i] by {
        if i < before.offsets().len() {
            assert(before.row_ok(i));
            lemma_entry_kept(before.body(), text_entry(s), before.offsets()[i] as int);
        }
    }
    assert forall|i: int| 0 <= i < after@.len() implies #[trigger] after@[i] == before@.push(
        s,
    )[i] by {
        assert(after.row_ok(i));
    }
    assert(after@ =~= before@.push(s));
}

proof fn lemma_text_body_split(rows: Seq<Seq<char>>, k: int)
    requires
        0 <= k < rows.len(),
    ensures
        exists|rest: Seq<u8>|
            text_body(rows) == #[trigger] (text_body(rows.take(k)) + text_entry(rows[k]) + rest)
                && text_body(rows.take(k + 1)) == text_body(rows.take(k)) + text_entry(rows[k]),
    decreases rows.len(),
{
    assert(rows.take(k + 1).drop_last() =~= rows.take(k));
    assert(rows.take(k + 1).last() == rows[k]);
    let front = text_body(rows.take(k)) + text_entry(rows[k]);
    if k == rows.len() - 1 {
        assert(rows.take(k + 1) =~= rows);
        assert(front + Seq::<u8>::empty() =~= front);
        assert(text_body(rows) == front + Seq::<u8>::empty());
    } else {
        let init = rows.drop_last();
        lemma_text_body_split(init, k);
        assert(init.take(k) =~= rows.take(k));
        let rest = choose|rest: Seq<u8>|
            text_body(init) == #[trigger] (text_body(init.take(k)) + text_entry(init[k]) + rest);
        assert(front + rest + text_entry(rows.last()) =~= front + (rest + text_entry(rows.last())));
        assert(text_body(rows) == front + (rest + text_entry(rows.last())));
    }
}

/// Each stored text is found, whole, at its offset.
pub proof fn lemma_text_body_reads(rows: Seq<Seq<char>>, k: int)
    requires
        0 <= k < rows.len(),
        texts_fit(rows),
    ensures
        ({
            let pos = text_body(rows.take(k)).len() as int;
            &&& entry_is_text(text_body(rows), pos)
            &&& entry_text(text_body(rows), pos) == rows[k]
            &&& pos + 4 + entry_len(text_body(rows), pos) == text_body(rows.take(k + 1)).len()
            &&& text_body(rows.take(k + 1)).len() <= text_body(rows).len()
        }),
{
    lemma_text_body_split(rows, k);
    let front = text_body(rows.take(k));
    let rest = choose|rest: Seq<u8>|
        text_body(rows) == #[trigger] (text_body(rows.take(k)) + text_entry(rows[k]) + rest);
    lemma_entry_appended(front, rows[k], rest);
    (encode_utf8(rows[k]).len() as u32).lemma_round_trip();
}

/// Walking a stored run of texts finds every offset.
pub proof fn lemma_sequential_offsets(rows: Seq<Seq<char>>, k: int)
    requires
        0 <= k <= rows.len(),
        texts_fit(rows),
    ensures
        sequential_offsets(text_body(rows), text_body(rows.take(k)).len() as int) == Some(
            text_offsets(rows).skip(k),
        ),
    decreases rows.len() - k,
{
    if k == rows.len() {
        assert(rows.take(k) =~= rows);
        assert(text_offsets(rows).skip(k) =~= Seq::<u64>::empty());
    } else {
        lemma_text_body_reads(rows, k);
        lemma_sequential_offsets(rows, k + 1);
        let pos = text_body(rows.take(k)).len() as int;
        assert(seq![pos as u64] + text_offsets(rows).skip(k + 1) =~= text_offsets(rows).skip(k));
    }
}

/// What is stored of a run of texts and read back without its offsets is the run.
pub proof fn law_text_read_back(rows: Seq<Seq<char>>, column: Utf8Column)
    requires
        texts_fit(rows),
        text_body(rows).len() <= u64::MAX,
        column.body() == text_body(rows),
        sequential_offsets(text_body(rows), 0) == Some(column.offsets()) || column.offsets()
            == text_offsets(rows),
    ensures
        column.wf(),
        column@ == rows,
{
    lemma_sequential_offsets(rows, 0);
    assert(text_body(rows.take(0)).len() == 0);
    assert(text_offsets(rows).skip(0) =~= text_offsets(rows));
    assert(column.offsets() == text_offsets(rows));
    assert forall|i: int| 0 <= i < rows.len() implies #[trigger] column.row_ok(i) && column@[i]
        == rows[i] by {
        lemma_text_body_reads(rows, i);
    }
    assert forall|i: int| 0 <= i < rows.len() implies #[trigger] column@[i] == rows[i] by {
        assert(column.row_ok(i));
    }
    assert(column@ =~= rows);
}

/// The first bytes of an offset file.
pub open spec fn idx_magic() -> Seq<u8> {
    seq![67u8, 82u8, 85u8, 73u8]
}

/// The offsets that an offset file holds: a magic, a version, a count, then the
/// offsets as 4 (version 1) or 8 bytes (version 2) each.
pub open spec fn idx_offsets(data: Seq<u8>) -> Option<Seq<u64>> {
    if data.len() < 13 || data.take(4) != idx_magic() {
        None
    } else {
        let count = u64::decoded(data.subrange(5, 13)) as nat;
        let body = data.skip(13);
        if data[4] == 1 && count * 4 <= body.len() {
            Some(Seq::new(count, |i: int| pod_at::<u32>(body, i) as u64))
        } else if data[4] == 2 && count * 8 <= body.len() {
            Some(pod_values::<u64>(body, count))
        } else {
            None
        }
    }
}

/// The offset file of a run of offsets.
pub open spec fn idx_file(offsets: Seq<u64>) -> Seq<u8> {
    idx_magic() + seq![2u8] + (offsets.len() as u64).encoded() + pod_bytes(offsets)
}

/// Reads an offset file.
pub fn read_utf8_offsets(data: &[u8]) -> (r: Option<Vec<u64>>)
    ensures
        match r {
            Some(v) => idx_offsets(data@) == Some(v@),
            None => idx_offsets(data@) is None,
        },
{
    if data.len() < 13 {
        return None;
    }
    proof {
        assert(data@.take(4) =~= seq![data@[0], data@[1], data@[2], data@[3]]);
    }
    if !(data[0] == 67 && data[1] == 82 && data[2] == 85 && data[3] == 73) {
        proof {
            assert(idx_magic()[0] == 67 && idx_magic()[1] == 82 && idx_magic()[2] == 85
                && idx_magic()[3] == 73);
            if data@.take(4) == idx_magic() {
                assert(data@.take(4)[0] == data@[0]);
                assert(data@.take(4)[1] == data@[1]);
                assert(data@.take(4)[2] == data@[2]);
                assert(data@.take(4)[3] == data@[3]);
            }
        }
        return None;
    }
    let count: u64 = u64::read_le(&data[5..13]);
    let body = &data[13..data.len()];
    assert(body@ =~= data@.skip(13));
    let version: u8 = data[4];
    let total: usize = body.len();
    if version == 1 {
        if count > (total / 4) as u64 {
            return None;
        }
        let n: usize = count as usize;
        let mut out: Vec<u64> = Vec::with_capacity(n);
        let mut i: usize = 0;
        while i < n
            invariant
                i <= n,
                n * 4 <= total,
                total == body@.len(),
                out@ == Seq::new(i as nat, |k: int| pod_at::<u32>(body@, k) as u64),
            decreases n - i,
        {
            let off: usize = i * 4;
            out.push(u32::read_le(&body[off..off + 4]) as u64);
            assert(out@ =~= Seq::new((i + 1) as nat, |k: int| pod_at::<u32>(body@, k) as u64));
            i = i + 1;
        }
        Some(out)
    } else if version == 2 {
        if count > (total / 8) as u64 {
            return None;
        }
        let n: usize = count as usize;
        let mut out: Vec<u64> = Vec::with_capacity(n);
        let mut i: usize = 0;
        while i < n
            invariant
                i <= n,
                n * 8 <= total,
                total == body@.len(),
                out@ == pod_values::<u64>(body@, i as nat),
            decreases n - i,
        {
            let off: usize = i * 8;
            out.push(u64::read_le(&body[off..off + 8]));
            assert(out@ =~= pod_values::<u64>(body@, (i + 1) as nat));
            i = i + 1;
        }
        Some(out)
    } else {
        None
    }
}

/// The bytes of the offset file of a text column.
pub fn utf8_idx_sidecar(offsets: &[u64]) -> (out: Vec<u8>)
    ensures
        out@ == idx_file(offsets@),
{
    let mut out: Vec<u8> = Vec::new();
    out.push(67);
    out.push(82);
    out.push(85);
    out.push(73);
    out.push(2);
    assert(out@ =~= idx_magic() + seq![2u8]);
    (offsets.len() as u64).write_le(&mut out);
    write_pod_vec(&mut out, offsets);
    out
}

/// Reading an offset file gives back the offsets that were written.
pub proof fn law_offsets_read_back(offsets: Seq<u64>)
    requires
        offsets.len() <= u64::MAX,
    ensures
        idx_offsets(idx_file(offsets)) == Some(offsets),
{
    let file = idx_file(offsets);
    let n = offsets.len() as u64;
    n.lemma_round_trip();
    lemma_pod_bytes_len(offsets);
    lemma_pod_round_trip(offsets, Seq::empty());
    assert(file.take(4) =~= idx_magic());
    assert(file.subrange(5, 13) =~= n.encoded());
    assert(file.skip(13) =~= pod_bytes(offsets));
    assert(pod_bytes(offsets) + Seq::<u8>::empty() =~= pod_bytes(offsets));
}

/// The position of row `row` when entries are walked from `pos`.
pub open spec fn walked(body: Seq<u8>, pos: int, row: nat) -> Option<int>
    decreases row,
{
    if pos + 4 > body.len() {
        None
    } else if row == 0 {
        Some(pos)
    } else {
        walked(body, pos + 4 + entry_len(body, pos), (row - 1) as nat)
    }
}

/// The text of the entry at `pos`, or what is wrong with it.
pub open spec fn entry_outcome(body: Seq<u8>, pos: int) -> Result<Seq<char>, Seq<char>> {
    if !entry_ok(body, pos) {
        Err("utf8 payload truncated"@)
    } else if !valid_utf8(entry_bytes(body, pos)) {
        Err("invalid utf8 in column: "@ + utf8_fault(entry_bytes(body, pos)))
    } else {
        Ok(entry_text(body, pos))
    }
}

/// The text of one row of `count`, found through the offsets where there are
/// any and by walking the entries otherwise.
pub open spec fn cell_outcome(
    body: Seq<u8>,
    offsets: Option<Seq<u64>>,
    row: nat,
    count: nat,
) -> Result<Seq<char>, Seq<char>> {
    match offsets {
        Some(o) => if row >= o.len() {
            Err("row index out of range"@)
        } else {
            entry_outcome(body, o[row as int] as int)
        },
        None => if row >= count {
            if count > 0 && walked(body, 0, (count - 1) as nat) is None {
                Err("utf8 payload truncated"@)
            } else {
                Err("row index out of range"@)
            }
        } else {
            match walked(body, 0, row) {
                None => Err("utf8 payload truncated"@),
                Some(pos) => entry_outcome(body, pos),
            }
        },
    }
}

fn owned_text_at(body: &[u8], pos: u64) -> (r: Result<String, Error>)
    ensures
        text_outcome(r) == entry_outcome(body@, pos as int),
{
    match entry_at(body, pos) {
        None => Err(Error::msg("utf8 payload truncated")),
        Some(b) => match utf8_text(b) {
            Ok(s) => {
                proof {
                    vstd::utf8::encode_utf8_decode_utf8(s@);
                }
                Ok(String::from_str(s))
            },
            Err(m) => {
                let mut t = String::from_str("invalid utf8 in column: ");
                t.append(m.as_str());
                Err(Error::Msg(t))
            },
        },
    }
}

/// Reads the text of one row out of a stored text column.
pub fn utf8_str_at(body: &[u8], offsets: Option<&[u64]>, row: usize, count: u64) -> (r: Result<
    String,
    Error,
>)
    ensures
        text_outcome(r) == cell_outcome(
            body@,
            match offsets {
                Some(o) => Some(o@),
                None => None,
            },
            row as nat,
            count as nat,
        ),
{
    match offsets {
        Some(o) => {
            if row >= o.len() {
                return Err(Error::msg("row index out of range"));
            }
            owned_text_at(body, o[row])
        },
        None => read_utf8_at(body, row, count),
    }
}

proof fn lemma_walked_step(body: Seq<u8>, pos: int, n: nat)
    requires
        walked(body, pos, n) is Some,
    ensures
        walked(body, pos, n + 1) == (match walked(body, pos, n) {
            Some(p) => if p + 4 + entry_len(body, p) + 4 > body.len() {
                None::<int>
            } else {
                Some(p + 4 + entry_len(body, p))
            },
            None => None,
        }),
    decreases n,
{
    reveal_with_fuel(walked, 2);
    if n > 0 {
        lemma_walked_step(body, pos + 4 + entry_len(body, pos), (n - 1) as nat);
    }
}

proof fn lemma_walked_none(body: Seq<u8>, pos: int, n: nat, m: nat)
    requires
        walked(body, pos, n) is None,
        n <= m,
    ensures
        walked(body, pos, m) is None,
    decreases n,
{
    if n > 0 && pos + 4 <= body.len() {
        lemma_walked_none(
            body,
            pos + 4 + entry_len(body, pos),
            (n - 1) as nat,
            (m - 1) as nat,
        );
    }
}

fn read_utf8_at(body: &[u8], row: usize, count: u64) -> (r: Result<String, Error>)
    ensures
        text_outcome(r) == cell_outcome(body@, None, row as nat, count as nat),
{
    let total: u64 = body.len() as u64;
    let mut pos: u64 = 0;
    let mut done: u64 = 0;
    while done < count
        invariant
            total == body@.len(),
            done <= count,
            done <= row,
            pos <= total,
            done > 0 ==> walked(body@, 0, (done - 1) as nat) is Some,
            done > 0 ==> ({
                let p = walked(body@, 0, (done - 1) as nat)->Some_0;
                let next = p + 4 + entry_len(body@, p);
                pos == (if next <= total { next } else { total as int })
            }),
            done == 0 ==> pos == 0,
        decreases count - done,
    {
        proof {
            if done > 0 {
                lemma_walked_step(body@, 0, (done - 1) as nat);
            }
        }
        match prefix_at(body, pos) {
            None => {
                proof {
                    assert(walked(body@, 0, done as nat) is None);
                    if row < count {
                        lemma_walked_none(body@, 0, done as nat, row as nat);
                    } else {
                        lemma_walked_none(body@, 0, done as nat, (count - 1) as nat);
                    }
                }
                return Err(Error::msg("utf8 payload truncated"));
            },
            Some(n) => {
                assert(walked(body@, 0, done as nat) == Some(pos as int));
                if done == row as u64 {
                    return owned_text_at(body, pos);
                }
                pos = if n as u64 > total - pos - 4 {
                    total
                } else {
                    pos + 4 + n as u64
                };
                done = done + 1;
            },
        }
    }
    Err(Error::msg("row index out of range"))
}

} // verus!
