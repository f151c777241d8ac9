//! Fixed-width columns: values as little-endian bytes, and the buffer that
//! holds them, a `Vec` while it is built and an `Arc<[T]>` once read from disk.
use crate::error::Error;
use std::sync::Arc;
use vstd::bytes::{
    spec_u16_from_le_bytes, spec_u16_to_le_bytes, spec_u32_from_le_bytes, spec_u32_to_le_bytes,
    spec_u64_from_le_bytes, spec_u64_to_le_bytes,
};
use vstd::prelude::*;

verus! {

/// A value that is stored as a fixed number of little-endian bytes.
pub trait Pod: Copy {
    /// The number of bytes of a value.
    spec fn width() -> nat;

    /// The bytes of a value.
    spec fn encoded(self) -> Seq<u8>;

    /// The value that `width` bytes stand for.
    spec fn decoded(bytes: Seq<u8>) -> Self;

    /// Reading gives back what was written.
    proof fn lemma_round_trip(self)
        ensures
            self.encoded().len() == Self::width(),
            Self::decoded(self.encoded()) == self,
            1 <= Self::width() <= 8,
    ;

    /// The width is between one and eight bytes.
    proof fn lemma_width()
        ensures
            1 <= Self::width() <= 8,
    ;

    fn byte_width() -> (n: usize)
        ensures
            n == Self::width(),
    ;

    fn write_le(self, out: &mut Vec<u8>)
        ensures
            final(out)@ == old(out)@ + self.encoded(),
    ;

    fn read_le(bytes: &[u8]) -> (v: Self)
        requires
            bytes@.len() == Self::width(),
        ensures
            v == Self::decoded(bytes@),
    ;
}

impl Pod for i64 {
    open spec fn width() -> nat {
        8
    }

    open spec fn encoded(self) -> Seq<u8> {
        spec_u64_to_le_bytes(self as u64)
    }

    open spec fn decoded(bytes: Seq<u8>) -> Self {
        spec_u64_from_le_bytes(bytes) as i64
    }

    proof fn lemma_round_trip(self) {
        vstd::bytes::lemma_auto_spec_u64_to_from_le_bytes();
        assert((self as u64) as i64 == self) by (bit_vector);
    }

    proof fn lemma_width() {
    }

    fn byte_width() -> (n: usize) {
        8
    }

    fn write_le(self, out: &mut Vec<u8>) {
        let mut bytes = vstd::bytes::u64_to_le_bytes(self as u64);
        out.append(&mut bytes);
    }

    fn read_le(bytes: &[u8]) -> (v: Self) {
        vstd::bytes::u64_from_le_bytes(bytes) as i64
    }
}

impl Pod for i32 {
    open spec fn width() -> nat {
        4
    }

    open spec fn encoded(self) -> Seq<u8> {
        spec_u32_to_le_bytes(self as u32)
    }

    open spec fn decoded(bytes: Seq<u8>) -> Self {
        spec_u32_from_le_bytes(bytes) as i32
    }

    proof fn lemma_round_trip(self) {
        vstd::bytes::lemma_auto_spec_u32_to_from_le_bytes();
        assert((self as u32) as i32 == self) by (bit_vector);
    }

    proof fn lemma_width() {
    }

    fn byte_width() -> (n: usize) {
        4
    }

    fn write_le(self, out: &mut Vec<u8>) {
        let mut bytes = vstd::bytes::u32_to_le_bytes(self as u32);
        out.append(&mut bytes);
    }

    fn read_le(bytes: &[u8]) -> (v: Self) {
        vstd::bytes::u32_from_le_bytes(bytes) as i32
    }
}

impl Pod for i16 {
    open spec fn width() -> nat {
        2
    }

    open spec fn encoded(self) -> Seq<u8> {
        spec_u16_to_le_bytes(self as u16)
    }

    open spec fn decoded(bytes: Seq<u8>) -> Self {
        spec_u16_from_le_bytes(bytes) as i16
    }

    proof fn lemma_round_trip(self) {
        vstd::bytes::lemma_auto_spec_u16_to_from_le_bytes();
        assert((self as u16) as i16 == self) by (bit_vector);
    }

    proof fn lemma_width() {
    }

    fn byte_width() -> (n: usize) {
        2
    }

    fn write_le(self, out: &mut Vec<u8>) {
        let mut bytes = vstd::bytes::u16_to_le_bytes(self as u16);
        out.append(&mut bytes);
    }

    fn read_le(bytes: &[u8]) -> (v: Self) {
        vstd::bytes::u16_from_le_bytes(bytes) as i16
    }
}

impl Pod for u64 {
    open spec fn width() -> nat {
        8
    }

    open spec fn encoded(self) -> Seq<u8> {
        spec_u64_to_le_bytes(self)
    }

    open spec fn decoded(bytes: Seq<u8>) -> Self {
        spec_u64_from_le_bytes(bytes)
    }

    proof fn lemma_round_trip(self) {
        vstd::bytes::lemma_auto_spec_u64_to_from_le_bytes();
    }

    proof fn lemma_width() {
    }

    fn byte_width() -> (n: usize) {
        8
    }

    fn write_le(self, out: &mut Vec<u8>) {
        let mut bytes = vstd::bytes::u64_to_le_bytes(self);
        out.append(&mut bytes);
    }

    fn read_le(bytes: &[u8]) -> (v: Self) {
        vstd::bytes::u64_from_le_bytes(bytes)
    }
}

impl Pod for u32 {
    open spec fn width() -> nat {
        4
    }

    open spec fn encoded(self) -> Seq<u8> {
        spec_u32_to_le_bytes(self)
    }

    open spec fn decoded(bytes: Seq<u8>) -> Self {
        spec_u32_from_le_bytes(bytes)
    }

    proof fn lemma_round_trip(self) {
        vstd::bytes::lemma_auto_spec_u32_to_from_le_bytes();
    }

    proof fn lemma_width() {
    }

    fn byte_width() -> (n: usize) {
        4
    }

    fn write_le(self, out: &mut Vec<u8>) {
        let mut bytes = vstd::bytes::u32_to_le_bytes(self);
        out.append(&mut bytes);
    }

    fn read_le(bytes: &[u8]) -> (v: Self) {
        vstd::bytes::u32_from_le_bytes(bytes)
    }
}

/// The bytes of a run of values, one after the other.
pub open spec fn pod_bytes<T: Pod>(values: Seq<T>) -> Seq<u8>
    decreases values.len(),
{
    if values.len() == 0 {
        Seq::empty()
    } else {
        pod_bytes(values.drop_last()) + values.last().encoded()
    }
}

/// The value in slot `row` of a run of values.
pub open spec fn pod_at<T: Pod>(body: Seq<u8>, row: int) -> T {
    T::decoded(body.subrange(row * T::width(), (row + 1) * T::width()))
}

/// The first `count` values of a run of values.
pub open spec fn pod_values<T: Pod>(body: Seq<u8>, count: nat) -> Seq<T> {
    Seq::new(count, |i: int| pod_at::<T>(body, i))
}

/// Every value takes `width` bytes.
pub proof fn lemma_pod_bytes_len<T: Pod>(values: Seq<T>)
    ensures
        pod_bytes(values).len() == values.len() * T::width(),
    decreases values.len(),
{
    if values.len() > 0 {
        lemma_pod_bytes_len(values.drop_last());
        values.last().lemma_round_trip();
        let n = values.len() as int;
        let w = T::width() as int;
        assert((n - 1) * w + w == n * w) by (nonlinear_arith);
    }
}

/// Reading the bytes of a run of values, followed by anything, gives the values back.
pub proof fn lemma_pod_round_trip<T: Pod>(values: Seq<T>, rest: Seq<u8>)
    ensures
        pod_values::<T>(pod_bytes(values) + rest, values.len()) == values,
    decreases values.len(),
{
    let all = pod_bytes(values) + rest;
    assert forall|i: int| 0 <= i < values.len() implies #[trigger] pod_at::<T>(all, i) == values[i] by {
        lemma_pod_slot(values, rest, i);
    }
    assert(pod_values::<T>(all, values.len()) =~= values);
}

proof fn lemma_pod_slot<T: Pod>(values: Seq<T>, rest: Seq<u8>, i: int)
    requires
        0 <= i < values.len(),
    ensures
        pod_at::<T>(pod_bytes(values) + rest, i) == values[i],
    decreases values.len(),
{
    let n = values.len() as int;
    let w = T::width() as int;
    let init = values.drop_last();
    lemma_pod_bytes_len(values);
    lemma_pod_bytes_len(init);
    values.last().lemma_round_trip();
    let all = pod_bytes(values) + rest;
    assert((n - 1) * w + w == n * w) by (nonlinear_arith);
    if i == n - 1 {
        assert(all.subrange((n - 1) * w, n * w) =~= values.last().encoded());
    } else {
        assert(all =~= pod_bytes(init) + (values.last().encoded() + rest));
        lemma_pod_slot(init, values.last().encoded() + rest, i);
    }
}

/// Appends the bytes of a run of values.
pub fn write_pod_vec<T: Pod>(out: &mut Vec<u8>, data: &[T])
    ensures
        final(out)@ == old(out)@ + pod_bytes(data@),
{
    let mut i: usize = 0;
    while i < data.len()
        invariant
            i <= data@.len(),
            out@ == old(out)@ + pod_bytes(data@.take(i as int)),
        decreases data@.len() - i,
    {
        data[i].write_le(out);
        assert(data@.take(i + 1).drop_last() =~= data@.take(i as int));
        assert(out@ =~= old(out)@ + pod_bytes(data@.take(i + 1)));
        i = i + 1;
    }
    assert(data@.take(i as int) =~= data@);
}

/// Reads slot `row` of a run of values.
pub fn read_pod_at<T: Pod>(body: &[u8], row: usize) -> (r: Result<T, Error>)
    ensures
        crate::error::outcome(r) == (if (row + 1) * T::width() > body@.len() {
            Err("pod row out of range"@)
        } else {
            Ok(pod_at::<T>(body@, row as int))
        }),
{
    let w: usize = T::byte_width();
    proof {
        T::lemma_width();
    }
    let slots: usize = body.len() / w;
    proof {
        let n = body@.len() as int;
        let k = slots as int;
        let r1 = row as int + 1;
        let wi = w as int;
        vstd::arithmetic::div_mod::lemma_fundamental_div_mod(n, wi);
        if r1 <= k {
            assert(r1 * wi <= n) by (nonlinear_arith)
                requires
                    r1 <= k,
                    wi >= 1,
                    n == wi * k + n % wi,
                    n % wi >= 0,
            ;
        } else {
            assert(r1 * wi > n) by (nonlinear_arith)
                requires
                    r1 >= k + 1,
                    wi >= 1,
                    n == wi * k + n % wi,
                    n % wi < wi,
            ;
        }
        assert(r1 * wi == row as int * wi + wi) by (nonlinear_arith)
            requires
                r1 == row as int + 1,
        ;
        assert(row as int * wi >= 0) by (nonlinear_arith)
            requires
                row as int >= 0,
                wi >= 1,
        ;
    }
    if row >= slots {
        return Err(Error::msg("pod row out of range"));
    }
    let off: usize = row * w;
    Ok(T::read_le(&body[off..off + w]))
}

/// A fixed-width column: owned while it is built, shared once read from disk.
pub enum PodStorage<T: Copy> {
    Owned(Vec<T>),
    Shared(Arc<[T]>),
}

impl<T: Copy> View for PodStorage<T> {
    type V = Seq<T>;

    open spec fn view(&self) -> Seq<T> {
        match self {
            PodStorage::Owned(v) => v@,
            PodStorage::Shared(a) => (**a)@,
        }
    }
}

/// The standard conversion of a `Vec` into an `Arc` slice (`Arc::from`): the
/// slice holds the items of the vector, in order.
#[verifier::external_body]
pub(crate) fn arc_slice<T: Copy>(v: Vec<T>) -> (r: Arc<[T]>)
    ensures
        (*r)@ == v@,
{
    Arc::from(v)
}

impl<T: Copy> PodStorage<T> {
    /// An empty buffer to build on, with room for `n` values.
    pub fn owned_with_capacity(n: usize) -> (s: Self)
        ensures
            s is Owned,
            s@ == Seq::<T>::empty(),
    {
        PodStorage::Owned(Vec::with_capacity(n))
    }

    /// Appends one value; a shared buffer refuses.
    pub fn push(&mut self, v: T) -> (r: Result<(), Error>)
        ensures
            *old(self) is Owned ==> r is Ok && *final(self) is Owned && final(self)@ == old(
                self,
            )@.push(v),
            *old(self) is Shared ==> *final(self) == *old(self) && crate::error::outcome(r) == Err::<
                (),
                _,
            >("cannot push into shared column buffer"@),
    {
        match self {
            PodStorage::Owned(vec) => {
                vec.push(v);
                Ok(())
            },
            PodStorage::Shared(_) => Err(Error::msg("cannot push into shared column buffer")),
        }
    }

    /// Appends a run of values; a shared buffer refuses.
    pub fn extend_from_slice(&mut self, other: &[T]) -> (r: Result<(), Error>)
        ensures
            *old(self) is Owned ==> r is Ok && *final(self) is Owned && final(self)@ == old(self)@
                + other@,
            *old(self) is Shared ==> *final(self) == *old(self) && crate::error::outcome(r) == Err::<
                (),
                _,
            >("cannot extend shared column buffer"@),
    {
        match self {
            PodStorage::Owned(vec) => {
                let ghost before = vec@;
                let mut i: usize = 0;
                while i < other.len()
                    invariant
                        i <= other@.len(),
                        vec@ == before + other@.take(i as int),
                    decreases other@.len() - i,
                {
                    vec.push(other[i]);
                    assert(vec@ =~= before + other@.take(i + 1));
                    i = i + 1;
                }
                assert(other@.take(i as int) =~= other@);
                Ok(())
            },
            PodStorage::Shared(_) => Err(Error::msg("cannot extend shared column buffer")),
        }
    }

    /// A buffer to build on that already holds the values of `vec`.
    pub fn from_vec(vec: Vec<T>) -> (s: Self)
        ensures
            s is Owned,
            s@ == vec@,
    {
        PodStorage::Owned(vec)
    }

    /// A shared buffer.
    pub fn from_arc(arc: Arc<[T]>) -> (s: Self)
        ensures
            s is Shared,
            s@ == (*arc)@,
    {
        PodStorage::Shared(arc)
    }

    /// The values as a slice.
    pub fn as_slice(&self) -> (r: &[T])
        ensures
            r@ == self@,
    {
        match self {
            PodStorage::Owned(v) => v.as_slice(),
            PodStorage::Shared(a) => &**a,
        }
    }

    /// The number of values.
    pub fn len(&self) -> (n: usize)
        ensures
            n == self@.len(),
    {
        self.as_slice().len()
    }

    /// The value of one row.
    pub fn get(&self, row: usize) -> (v: T)
        requires
            row < self@.len(),
        ensures
            v == self@[row as int],
    {
        self.as_slice()[row]
    }
}

/// Reads the first `count` values of a run into a shared buffer.
pub fn read_pod_slice<T: Pod>(body: &[u8], count: usize) -> (r: Result<PodStorage<T>, Error>)
    ensures
        match r {
            Ok(s) => {
                &&& count * T::width() <= body@.len()
                &&& s is Shared
                &&& s@ == pod_values::<T>(body@, count as nat)
            },
            Err(e) => {
                &&& count * T::width() > body@.len()
                &&& e@ == "column payload truncated"@
            },
        },
{
    let w: usize = T::byte_width();
    proof {
        T::lemma_width();
        let n = body@.len() as int;
        let wi = w as int;
        let c = count as int;
        let k = n / wi;
        vstd::arithmetic::div_mod::lemma_fundamental_div_mod(n, wi);
        if c <= k {
            assert(c * wi <= n) by (nonlinear_arith)
                requires
                    c <= k,
                    wi >= 1,
                    n == wi * k + n % wi,
                    n % wi >= 0,
            ;
        } else {
            assert(c * wi > n) by (nonlinear_arith)
                requires
                    c >= k + 1,
                    wi >= 1,
                    n == wi * k + n % wi,
                    n % wi < wi,
            ;
        }
    }
    let total: usize = body.len();
    if count > total / w {
        return Err(Error::msg("column payload truncated"));
    }
    let mut vec: Vec<T> = Vec::with_capacity(count);
    let mut i: usize = 0;
    while i < count
        invariant
            i <= count,
            w == T::width(),
            1 <= w <= 8,
            total == body@.len(),
            count * T::width() <= body@.len(),
            vec@ == pod_values::<T>(body@, i as nat),
        decreases count - i,
    {
        proof {
            let a = i as int;
            let c = count as int;
            let wi = w as int;
            assert((a + 1) * wi <= c * wi) by (nonlinear_arith)
                requires
                    a + 1 <= c,
                    wi >= 1,
            ;
            assert((a + 1) * wi == a * wi + wi) by (nonlinear_arith);
            assert(a * wi >= 0) by (nonlinear_arith)
                requires
                    a >= 0,
                    wi >= 1,
            ;
        }
        let off: usize = i * w;
        let v: T = T::read_le(&body[off..off + w]);
        vec.push(v);
        assert(vec@ =~= pod_values::<T>(body@, (i + 1) as nat));
        i = i + 1;
    }
    Ok(PodStorage::from_arc(arc_slice(vec)))
}

} // verus!
