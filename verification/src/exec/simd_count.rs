//! Counts of values that are not zero or not empty.
use vstd::prelude::*;

verus! {

/// How many members of a sequence meet a condition.
pub open spec fn how_many<T>(s: Seq<T>, p: spec_fn(T) -> bool) -> nat
    decreases s.len(),
{
    if s.len() == 0 {
        0
    } else {
        how_many(s.drop_last(), p) + if p(s.last()) {
            1nat
        } else {
            0nat
        }
    }
}

/// No more members meet a condition than there are.
pub proof fn lemma_how_many<T>(s: Seq<T>, p: spec_fn(T) -> bool)
    ensures
        how_many(s, p) <= s.len(),
    decreases s.len(),
{
    if s.len() > 0 {
        lemma_how_many(s.drop_last(), p);
    }
}

/// Counts the members that meet a condition.
fn count_impl<T, F: Fn(&T) -> bool>(
    slice: &[T],
    pred: F,
    Ghost(p): Ghost<spec_fn(T) -> bool>,
) -> (sum: u64)
    requires
        forall|x: &T| #[trigger] pred.requires((x,)),
        forall|x: &T, r: bool| pred.ensures((x,), r) ==> r == p(*x),
    ensures
        sum == how_many(slice@, p),
{
    let mut sum: u64 = 0;
    let n: usize = slice.len();
    let mut i: usize = 0;
    assert(slice@.take(0) =~= Seq::<T>::empty());
    while i < n
        invariant
            i <= n == slice@.len(),
            sum <= i,
            forall|x: &T| #[trigger] pred.requires((x,)),
            forall|x: &T, r: bool| pred.ensures((x,), r) ==> r == p(*x),
            sum == how_many(slice@.take(i as int), p),
        decreases n - i,
    {
        assert(slice@.take(i + 1).drop_last() =~= slice@.take(i as int));
        if pred(&slice[i]) {
            sum = sum + 1;
        }
        i = i + 1;
    }
    assert(slice@.take(i as int) =~= slice@);
    sum
}

/// Counts the members that are not zero.
pub fn count_i16_ne_zero(slice: &[i16]) -> (n: u64)
    ensures
        n == how_many(slice@, |x: i16| x != 0),
{
    let ghost p = |x: i16| x != 0;
    let pred = |x: &i16| -> (r: bool)
        ensures
            r == p(*x),
    { *x != 0 };
    count_impl(slice, pred, Ghost(p))
}

/// Counts the members that are not zero.
pub fn count_i32_ne_zero(slice: &[i32]) -> (n: u64)
    ensures
        n == how_many(slice@, |x: i32| x != 0),
{
    let ghost p = |x: i32| x != 0;
    let pred = |x: &i32| -> (r: bool)
        ensures
            r == p(*x),
    { *x != 0 };
    count_impl(slice, pred, Ghost(p))
}

/// Counts the members that are not zero.
pub fn count_i64_ne_zero(slice: &[i64]) -> (n: u64)
    ensures
        n == how_many(slice@, |x: i64| x != 0),
{
    let ghost p = |x: i64| x != 0;
    let pred = |x: &i64| -> (r: bool)
        ensures
            r == p(*x),
    { *x != 0 };
    count_impl(slice, pred, Ghost(p))
}

/// Counts the texts that are not empty.
pub fn count_utf8_nonempty(slice: &[String]) -> (n: u64)
    ensures
        n == how_many(slice@, |s: String| s@.len() > 0),
{
    let ghost p = |s: String| s@.len() > 0;
    let pred = |s: &String| -> (r: bool)
        ensures
            r == p(*s),
    {
        let empty = crate::text::str_eq(s.as_str(), "");
        proof {
            reveal_strlit("");
            assert(s@.len() == 0 ==> s@ =~= ""@);
        }
        !empty
    };
    count_impl(slice, pred, Ghost(p))
}

} // verus!
