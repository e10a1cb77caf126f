use vstd::prelude::*;

verus! {

use vstd::arithmetic::div_mod::lemma_fundamental_div_mod;
use vstd::arithmetic::div_mod::lemma_fundamental_div_mod_converse;

/// Bound on the operands the division helpers accept; far above every
/// quantity of this crate (microdegrees, millimeters, micro-cost units).
pub const NUM_BOUND: i64 = 0x4000_0000_0000_0000;

/// Floor division of a signed value by a positive divisor; agrees with the
/// mathematical `/` of the contracts (Euclidean division).
pub fn div_floor_i64(a: i64, d: u64) -> (r: i64)
    requires
        0 < d <= NUM_BOUND,
        -NUM_BOUND <= a <= NUM_BOUND,
    ensures
        r == a as int / d as int,
{
    if a >= 0 {
        let q = (a as u64) / d;
        q as i64
    } else {
        let mag = (-a) as u64;
        let q = (mag + (d - 1)) / d;
        proof {
            lemma_fundamental_div_mod((mag + (d - 1)) as int, d as int);
            let qq = (mag + (d - 1)) as int / d as int;
            let rr = (mag + (d - 1)) as int % d as int;
            // a == d * (-qq) + (d - 1 - rr), with the remainder in [0, d)
            assert(a as int == d as int * (-qq) + (d - 1 - rr)) by {
                assert(d as int * (-qq) == -(d as int * qq)) by (nonlinear_arith);
            }
            lemma_fundamental_div_mod_converse(a as int, d as int, -qq, d - 1 - rr);
        }
        -(q as i64)
    }
}

/// `a + (b - a) * i / steps`: the point a fraction `i / steps` of the way
/// from `a` to `b`, rounded toward negative infinity. The result lies
/// between `a` and `b`.
pub fn lerp_i64(a: i64, b: i64, i: u64, steps: u64) -> (r: i64)
    requires
        0 < steps <= 2_000_000,
        i <= steps,
        -0x100_0000_0000 <= a <= 0x100_0000_0000,
        -0x100_0000_0000 <= b <= 0x100_0000_0000,
    ensures
        r == a + (b - a) * i / (steps as int),
        a <= b ==> a <= r <= b,
        b <= a ==> b <= r <= a,
{
    let delta = b - a;
    let ii = i as i64;
    proof {
        assert(-0x200_0000_0000 * 2_000_000 <= delta * ii <= 0x200_0000_0000 * 2_000_000)
            by (nonlinear_arith)
            requires
                -0x200_0000_0000 <= delta <= 0x200_0000_0000,
                0 <= ii <= 2_000_000,
        ;
    }
    let num = delta * ii;
    let off = div_floor_i64(num, steps);
    proof {
        lemma_lerp_bounds(a as int, b as int, i as int, steps as int);
    }
    a + off
}

proof fn lemma_lerp_bounds(a: int, b: int, i: int, steps: int)
    requires
        0 < steps,
        0 <= i <= steps,
    ensures
        a <= b ==> 0 <= (b - a) * i / steps <= b - a,
        b <= a ==> b - a <= (b - a) * i / steps <= 0,
{
    let delta = b - a;
    lemma_fundamental_div_mod(delta * i, steps);
    let q = delta * i / steps;
    let r = delta * i % steps;
    if a <= b {
        assert(0 <= delta * i) by (nonlinear_arith)
            requires
                0 <= delta,
                0 <= i,
        ;
        assert(delta * i <= delta * steps) by (nonlinear_arith)
            requires
                0 <= delta,
                i <= steps,
        ;
        assert(q >= 0) by (nonlinear_arith)
            requires
                steps * q + r == delta * i,
                0 <= delta * i,
                0 <= r < steps,
                0 < steps,
        ;
        assert(q <= delta) by (nonlinear_arith)
            requires
                steps * q + r == delta * i,
                delta * i <= delta * steps,
                0 <= r < steps,
                0 < steps,
        ;
    } else {
        assert(delta * i <= 0) by (nonlinear_arith)
            requires
                delta <= 0,
                0 <= i,
        ;
        assert(delta * steps <= delta * i) by (nonlinear_arith)
            requires
                delta <= 0,
                i <= steps,
        ;
        assert(q <= 0) by (nonlinear_arith)
            requires
                steps * q + r == delta * i,
                delta * i <= 0,
                0 <= r < steps,
                0 < steps,
        ;
        assert(delta <= q) by (nonlinear_arith)
            requires
                steps * q + r == delta * i,
                delta * steps <= delta * i,
                0 <= r < steps,
                0 < steps,
        ;
    }
}

} // verus!
