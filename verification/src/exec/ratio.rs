//! The order of quotients, without dividing.
use vstd::prelude::*;

verus! {

/// Whether a quotient is smaller than another; denominators are positive.
pub open spec fn ratio_less(a: int, b: int, c: int, d: int) -> bool {
    a * d < c * b
}

/// The order of quotients is consistent: what lies between keeps it.
pub proof fn lemma_ratio_order(a: int, b: int, c: int, d: int, e: int, f: int)
    requires
        b > 0,
        d > 0,
        f > 0,
    ensures
        ratio_less(a, b, c, d) ==> !ratio_less(c, d, a, b),
        ratio_less(a, b, e, f) ==> ratio_less(a, b, c, d) || ratio_less(c, d, e, f),
{
    if ratio_less(a, b, e, f) && !ratio_less(a, b, c, d) && !ratio_less(c, d, e, f) {
        // c/d <= a/b and e/f <= c/d, so e/f <= a/b.
        assert(e * b <= a * f) by (nonlinear_arith)
            requires
                b > 0,
                d > 0,
                f > 0,
                c * b <= a * d,
                e * d <= c * f,
        {
            assert(e * d * b <= c * f * b);
            assert(c * b * f <= a * d * f);
            assert(e * b * d <= a * f * d);
        }
    }
}

/// A quotient is compared by its whole part first, and then by what remains.
proof fn lemma_by_parts(a: int, b: int, c: int, d: int)
    requires
        b > 0,
        d > 0,
    ensures
        ratio_less(a, b, c, d) <==> (a / b < c / d || (a / b == c / d && (a % b) * d < (c % d) * b)),
{
    let q1 = a / b;
    let r1 = a % b;
    let q2 = c / d;
    let r2 = c % d;
    vstd::arithmetic::div_mod::lemma_fundamental_div_mod(a, b);
    vstd::arithmetic::div_mod::lemma_fundamental_div_mod(c, d);
    vstd::arithmetic::div_mod::lemma_mod_bound(a, b);
    vstd::arithmetic::div_mod::lemma_mod_bound(c, d);
    assert(c * b - a * d == (q2 - q1) * (b * d) + r2 * b - r1 * d) by (nonlinear_arith)
        requires
            a == b * q1 + r1,
            c == d * q2 + r2,
    ;
    assert(b * d > 0) by (nonlinear_arith)
        requires
            b > 0,
            d > 0,
    ;
    assert(0 <= r2 * b < b * d) by (nonlinear_arith)
        requires
            b > 0,
            0 <= r2 < d,
    ;
    assert(0 <= r1 * d < b * d) by (nonlinear_arith)
        requires
            d > 0,
            0 <= r1 < b,
    ;
    if q1 < q2 {
        assert((q2 - q1) * (b * d) >= b * d) by (nonlinear_arith)
            requires
                q2 - q1 >= 1,
                b * d > 0,
        ;
    } else if q1 > q2 {
        assert((q2 - q1) * (b * d) <= -(b * d)) by (nonlinear_arith)
            requires
                q2 - q1 <= -1,
                b * d > 0,
        ;
    } else {
        assert((q2 - q1) * (b * d) == 0) by (nonlinear_arith)
            requires
                q2 - q1 == 0,
        ;
    }
}

/// A whole part is no larger than what was divided.
proof fn lemma_whole_part(a: int, b: int)
    requires
        b > 0,
        i128::MIN <= a <= i128::MAX,
    ensures
        i128::MIN <= a / b <= i128::MAX,
{
    let q = a / b;
    let r = a % b;
    vstd::arithmetic::div_mod::lemma_fundamental_div_mod(a, b);
    vstd::arithmetic::div_mod::lemma_mod_bound(a, b);
    assert(q >= 0 ==> b * q >= q) by (nonlinear_arith)
        requires
            b >= 1,
    ;
    assert(q < 0 ==> b * q + b <= q + 1) by (nonlinear_arith)
        requires
            b >= 1,
    ;
}

/// Whether a quotient is smaller than another.
pub fn ratio_is_less(a: i128, b: u64, c: i128, d: u64) -> (r: bool)
    requires
        b > 0,
        d > 0,
    ensures
        r == ratio_less(a as int, b as int, c as int, d as int),
{
    let q1: Option<i128> = a.checked_div_euclid(b as i128);
    let q2: Option<i128> = c.checked_div_euclid(d as i128);
    let r1: Option<i128> = a.checked_rem_euclid(b as i128);
    let r2: Option<i128> = c.checked_rem_euclid(d as i128);
    proof {
        lemma_by_parts(a as int, b as int, c as int, d as int);
        lemma_whole_part(a as int, b as int);
        lemma_whole_part(c as int, d as int);
        vstd::arithmetic::div_mod::lemma_mod_bound(a as int, b as int);
        vstd::arithmetic::div_mod::lemma_mod_bound(c as int, d as int);
    }
    match (q1, q2, r1, r2) {
        (Some(q1), Some(q2), Some(r1), Some(r2)) => {
            if q1 != q2 {
                return q1 < q2;
            }
            let x: u64 = r1 as u64;
            let y: u64 = r2 as u64;
            assert(x * d < 0x1_0000_0000_0000_0000_0000_0000_0000_0000) by (nonlinear_arith)
                requires
                    0 <= x <= 0xffff_ffff_ffff_ffff,
                    0 <= d <= 0xffff_ffff_ffff_ffff,
            ;
            assert(y * b < 0x1_0000_0000_0000_0000_0000_0000_0000_0000) by (nonlinear_arith)
                requires
                    0 <= y <= 0xffff_ffff_ffff_ffff,
                    0 <= b <= 0xffff_ffff_ffff_ffff,
            ;
            (x as u128) * (d as u128) < (y as u128) * (b as u128)
        },
        _ => false,
    }
}

} // verus!
