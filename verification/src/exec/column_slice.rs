//! Integer columns of any width, and pairs of integers packed into one.
use crate::exec::agg_heap::{pair_first, pair_second};
use crate::expr::eval::col_int;
use crate::storage::column::{ColumnData, ColumnView};
use vstd::prelude::*;

verus! {

/// The values of an integer column.
#[derive(Copy, Clone)]
pub enum IntCols<'a> {
    I16(&'a [i16]),
    I32(&'a [i32]),
    I64(&'a [i64]),
}

/// The numbers of a column.
pub open spec fn column_ints(c: ColumnView) -> Seq<i64> {
    Seq::new(c.len(), |i: int| col_int(c, i))
}

impl<'a> View for IntCols<'a> {
    type V = Seq<i64>;

    open spec fn view(&self) -> Seq<i64> {
        match self {
            IntCols::I16(v) => Seq::new(v@.len(), |i: int| v@[i] as i64),
            IntCols::I32(v) => Seq::new(v@.len(), |i: int| v@[i] as i64),
            IntCols::I64(v) => v@,
        }
    }
}

/// The numbers of a column that is not of text, in the width of the column.
pub fn as_int_cols(col: &ColumnData) -> (r: Option<IntCols<'_>>)
    ensures
        match r {
            Some(v) => !(col@ is Utf8) && v@ == column_ints(col@),
            None => col@ is Utf8,
        },
        match (col@, r) {
            (ColumnView::Int16(v), Some(IntCols::I16(s))) => s@ == v,
            (ColumnView::Int32(v), Some(IntCols::I32(s))) => s@ == v,
            (ColumnView::Date(v), Some(IntCols::I32(s))) => s@ == v,
            (ColumnView::Int64(v), Some(IntCols::I64(s))) => s@ == v,
            (ColumnView::Timestamp(v), Some(IntCols::I64(s))) => s@ == v,
            (ColumnView::Utf8(_), None) => true,
            _ => false,
        },
{
    if let Some(v) = col.as_i16_slice() {
        let c = IntCols::I16(v);
        assert(c@ =~= column_ints(col@));
        return Some(c);
    }
    if let Some(v) = col.as_i32_slice() {
        let c = IntCols::I32(v);
        assert(c@ =~= column_ints(col@));
        return Some(c);
    }
    if let Some(v) = col.as_i64_slice() {
        let c = IntCols::I64(v);
        assert(c@ =~= column_ints(col@));
        return Some(c);
    }
    None
}

/// The number in one row.
pub fn int_at(cols: IntCols<'_>, row: usize) -> (v: i64)
    requires
        row < cols@.len(),
    ensures
        v == cols@[row as int],
{
    match cols {
        IntCols::I16(v) => v[row] as i64,
        IntCols::I32(v) => v[row] as i64,
        IntCols::I64(v) => v[row],
    }
}

/// Two integers in one.
pub open spec fn pair_key(a: i64, b: i64) -> u128 {
    (((a as u64) as u128) << 64) | ((b as u64) as u128)
}

/// Two integers in one.
pub fn pack_two(a: i64, b: i64) -> (k: u128)
    ensures
        k == pair_key(a, b),
{
    (((a as u64) as u128) << 64) | ((b as u64) as u128)
}

/// The numbers of two columns in one row, in one.
pub fn pack_pair(c1: IntCols<'_>, c2: IntCols<'_>, row: usize) -> (k: u128)
    requires
        row < c1@.len(),
        row < c2@.len(),
    ensures
        k == pair_key(c1@[row as int], c2@[row as int]),
{
    pack_two(int_at(c1, row), int_at(c2, row))
}

/// Two integers can be taken out of the one that they were packed into.
pub proof fn law_pair_unpacks(a: i64, b: i64)
    ensures
        pair_first(pair_key(a, b)) == a,
        pair_second(pair_key(a, b)) == b,
{
    assert((((((a as u64) as u128) << 64) | ((b as u64) as u128)) >> 64) as i64 == a)
        by (bit_vector);
    assert(((((a as u64) as u128) << 64) | ((b as u64) as u128)) as i64 == b) by (bit_vector);
}

/// Different pairs are packed differently.
pub proof fn law_pair_injective(a: i64, b: i64, c: i64, d: i64)
    requires
        pair_key(a, b) == pair_key(c, d),
    ensures
        a == c && b == d,
{
    law_pair_unpacks(a, b);
    law_pair_unpacks(c, d);
}

} // verus!
