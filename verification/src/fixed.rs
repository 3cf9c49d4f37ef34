//! The fixed-point number model shared by the whole crate.
//!
//! A scalar quantity is stored as an `i64` holding the quantity times
//! [`SCALE`]. Products are rescaled with truncation toward zero, which keeps
//! magnitudes from growing: `|fx_mul(a, b)| * SCALE <= |a * b|`.

use vstd::prelude::*;

verus! {

/// Raw units per model unit: the fixed-point scale of every scalar.
pub const SCALE: i64 = 1_000_000;

/// Largest magnitude a coordinate handed to the geometry may have
/// (one million model units; the road borders use this as their
/// effectively-infinite vertical extent).
pub const FX_LIM: i64 = 1_000_000_000_000;

/// Largest magnitude [`fx_mul`] accepts: room for a difference of two
/// in-range coordinates and then some.
pub const FX_MUL_LIM: i64 = 3_000_000_000_000;

/// Largest magnitude a car's position may have when a tick starts; leaves
/// room below [`FX_LIM`] for one tick of motion, the body polygon and the
/// sensor rays.
pub const POS_LIM: i64 = 900_000_000_000;

/// Division rounded toward zero, defined for positive divisors.
pub open spec fn div_tz(a: int, b: int) -> int {
    if a >= 0 {
        a / b
    } else {
        -((-a) / b)
    }
}

/// The mathematical value of a fixed-point product: the exact product
/// rescaled, rounded toward zero.
pub open spec fn fxm(a: int, b: int) -> int {
    div_tz(a * b, SCALE as int)
}

/// Interpolation from `a` toward `b` by the fixed-point parameter `t`.
pub open spec fn fxlerp(a: int, b: int, t: int) -> int {
    a + fxm(b - a, t)
}

/// Magnitude of an integer.
pub open spec fn mag(a: int) -> int {
    if a >= 0 {
        a
    } else {
        -a
    }
}

/// Truncation never increases magnitude: `b * |div_tz(a, b)| <= |a|`.
pub proof fn lemma_div_tz_mag(a: int, b: int)
    requires
        b > 0,
    ensures
        0 <= mag(div_tz(a, b)),
        b * mag(div_tz(a, b)) <= mag(a),
{
    if a >= 0 {
        vstd::arithmetic::div_mod::lemma_div_pos_is_pos(a, b);
        vstd::arithmetic::div_mod::lemma_fundamental_div_mod(a, b);
        vstd::arithmetic::div_mod::lemma_mod_pos_bound(a, b);
    } else {
        vstd::arithmetic::div_mod::lemma_div_pos_is_pos(-a, b);
        vstd::arithmetic::div_mod::lemma_fundamental_div_mod(-a, b);
        vstd::arithmetic::div_mod::lemma_mod_pos_bound(-a, b);
    }
}

/// Interpolating with parameter 0 returns the start value, bit for bit.
pub proof fn lemma_lerp_zero(a: int, b: int)
    ensures
        fxlerp(a, b, 0) == a,
{
    assert((b - a) * 0 == 0) by (nonlinear_arith);
    vstd::arithmetic::div_mod::lemma_div_of0(SCALE as int);
}

/// Interpolating with the full parameter returns the target value exactly.
pub proof fn lemma_lerp_full(a: int, b: int)
    ensures
        fxlerp(a, b, SCALE as int) == b,
{
    let d = b - a;
    if d >= 0 {
        vstd::arithmetic::div_mod::lemma_div_multiples_vanish(d, SCALE as int);
        assert(d * (SCALE as int) == (SCALE as int) * d) by (nonlinear_arith);
        assert(d * (SCALE as int) >= 0) by (nonlinear_arith)
            requires
                d >= 0,
                SCALE == 1_000_000i64,
        ;
    } else {
        vstd::arithmetic::div_mod::lemma_div_multiples_vanish(-d, SCALE as int);
        assert(-(d * (SCALE as int)) == (SCALE as int) * (-d)) by (nonlinear_arith);
        assert(d * (SCALE as int) < 0) by (nonlinear_arith)
            requires
                d < 0,
                SCALE == 1_000_000i64,
        ;
    }
}

/// Rescale a wide intermediate by [`SCALE`], rounding toward zero.
pub(crate) fn div_wide_by_scale(a: i128) -> (r: i128)
    requires
        mag(a as int) <= 0x1000_0000_0000_0000_0000_0000_0000_0000,
    ensures
        r == div_tz(a as int, SCALE as int),
{
    let neg: bool = a < 0;
    let m: u128 = if neg {
        (-a) as u128
    } else {
        a as u128
    };
    let q: u128 = m / (SCALE as u128);
    proof {
        vstd::arithmetic::div_mod::lemma_div_is_ordered(
            m as int,
            0x1000_0000_0000_0000_0000_0000_0000_0000,
            SCALE as int,
        );
    }
    if neg {
        -(q as i128)
    } else {
        q as i128
    }
}

/// Fixed-point product of two scalars.
pub fn fx_mul(a: i64, b: i64) -> (r: i64)
    requires
        -FX_MUL_LIM <= a <= FX_MUL_LIM,
        -FX_MUL_LIM <= b <= FX_MUL_LIM,
    ensures
        r == fxm(a as int, b as int),
        (SCALE as int) * mag(r as int) <= mag((a as int) * (b as int)),
{
    let ghost ai: int = a as int;
    let ghost bi: int = b as int;
    let neg: bool = (a < 0) != (b < 0);
    let aa: u128 = if a < 0 {
        (-a) as u128
    } else {
        a as u128
    };
    let bb: u128 = if b < 0 {
        (-b) as u128
    } else {
        b as u128
    };
    proof {
        assert(aa == mag(ai) && bb == mag(bi));
        assert(aa * bb <= (FX_MUL_LIM as int) * (FX_MUL_LIM as int)) by (nonlinear_arith)
            requires
                0 <= aa <= FX_MUL_LIM as int,
                0 <= bb <= FX_MUL_LIM as int,
        ;
    }
    let p: u128 = aa * bb;
    proof {
        assert(ai * bi == if neg {
            -(aa * bb)
        } else {
            aa * bb
        }) by (nonlinear_arith)
            requires
                aa == mag(ai),
                bb == mag(bi),
                neg == ((ai < 0) != (bi < 0)),
        ;
    }
    let q: u128 = p / (SCALE as u128);
    proof {
        vstd::arithmetic::div_mod::lemma_div_is_ordered(
            p as int,
            (FX_MUL_LIM as int) * (FX_MUL_LIM as int),
            SCALE as int,
        );
        assert((FX_MUL_LIM as int) * (FX_MUL_LIM as int) == 9_000_000_000_000_000_000_000_000int);
        assert(q <= 9_000_000_000_000_000_000_000_000int / 1_000_000int);
        lemma_div_tz_mag(ai * bi, SCALE as int);
        assert(q == mag(ai * bi) / (SCALE as int));
        assert(fxm(ai, bi) == if neg {
            -(q as int)
        } else {
            q as int
        });
    }
    if neg {
        -(q as i64)
    } else {
        q as i64
    }
}

} // verus!
