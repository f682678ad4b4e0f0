//! Fixed-point scalar arithmetic.
//!
//! A value of one whole unit (one meter, one radian, one second, one unit of
//! cost) is represented by `SCALE` integer units.  All helpers round toward
//! zero, like hardware signed division, and each executable helper returns
//! exactly the value of its spec-level mirror.

use vstd::prelude::*;
use vstd::arithmetic::div_mod::{lemma_div_is_ordered, lemma_div_nonincreasing, lemma_div_pos_is_pos};

verus! {

/// Fixed-point units per whole unit.
pub const SCALE: i64 = 1_000_000;

/// Largest magnitude accepted by the fixed-point multiply helper.
pub const FX_ARG_MAX: i64 = 2_000_000_000_000;

/// Coordinates handled by the geometry are bounded by one million meters.
pub const POS_LIMIT: i64 = 1_000_000_000_000;

/// Magnitude of an integer.
pub open spec fn abs_int(a: int) -> int {
    if a >= 0 {
        a
    } else {
        -a
    }
}

/// Division rounding toward zero by a positive divisor.
pub open spec fn tdiv(a: int, b: int) -> int
    recommends
        b > 0,
{
    if a >= 0 {
        a / b
    } else {
        -((-a) / b)
    }
}

/// Product of two fixed-point values, rescaled back to fixed point.
pub open spec fn mul_fx_spec(a: int, b: int) -> int {
    tdiv(a * b, SCALE as int)
}

pub proof fn lemma_tdiv_abs(a: int, b: int)
    requires
        b > 0,
    ensures
        abs_int(tdiv(a, b)) == abs_int(a) / b,
        a >= 0 ==> tdiv(a, b) >= 0,
        a <= 0 ==> tdiv(a, b) <= 0,
{
    if a >= 0 {
        lemma_div_pos_is_pos(a, b);
    } else {
        lemma_div_pos_is_pos(-a, b);
    }
}

pub proof fn lemma_tdiv_le(a: int, b: int, m: int)
    requires
        b > 0,
        abs_int(a) <= m,
    ensures
        abs_int(tdiv(a, b)) <= m / b,
{
    lemma_tdiv_abs(a, b);
    lemma_div_is_ordered(abs_int(a), m, b);
}

pub proof fn lemma_mul_fx_bound(a: int, b: int, ma: int, mb: int)
    requires
        abs_int(a) <= ma,
        abs_int(b) <= mb,
    ensures
        abs_int(mul_fx_spec(a, b)) <= (ma * mb) / (SCALE as int),
{
    assert(abs_int(a * b) <= ma * mb) by (nonlinear_arith)
        requires
            abs_int(a) <= ma,
            abs_int(b) <= mb;
    lemma_tdiv_le(a * b, SCALE as int, ma * mb);
}

/// Fixed-point multiply: `a * b / SCALE`, rounded toward zero.
pub fn mul_fx(a: i64, b: i64) -> (r: i64)
    requires
        -FX_ARG_MAX <= a <= FX_ARG_MAX,
        -FX_ARG_MAX <= b <= FX_ARG_MAX,
    ensures
        r == mul_fx_spec(a as int, b as int),
{
    let am: u64 = if a >= 0 {
        a as u64
    } else {
        (-a) as u64
    };
    let bm: u64 = if b >= 0 {
        b as u64
    } else {
        (-b) as u64
    };
    proof {
        assert((am as int) * (bm as int) <= (FX_ARG_MAX as int) * (FX_ARG_MAX as int))
            by (nonlinear_arith)
            requires
                0 <= (am as int) && (am as int) <= FX_ARG_MAX as int,
                0 <= (bm as int) && (bm as int) <= FX_ARG_MAX as int;
    }
    let p: u128 = (am as u128) * (bm as u128);
    let q: u128 = p / (SCALE as u128);
    proof {
        lemma_div_is_ordered(
            p as int,
            (FX_ARG_MAX as int) * (FX_ARG_MAX as int),
            SCALE as int,
        );
        assert((FX_ARG_MAX as int) * (FX_ARG_MAX as int) / (SCALE as int) < i64::MAX as int);
        assert(p as int == abs_int((a as int) * (b as int))) by (nonlinear_arith)
            requires
                am as int == abs_int(a as int),
                bm as int == abs_int(b as int),
                p as int == (am as int) * (bm as int);
    }
    let qi: i64 = q as i64;
    if (a < 0) != (b < 0) {
        proof {
            assert((a as int) * (b as int) <= 0) by (nonlinear_arith)
                requires
                    (a < 0) != (b < 0);
            lemma_tdiv_abs((a as int) * (b as int), SCALE as int);
        }
        -qi
    } else {
        proof {
            assert((a as int) * (b as int) >= 0) by (nonlinear_arith)
                requires
                    (a < 0) == (b < 0);
            lemma_tdiv_abs((a as int) * (b as int), SCALE as int);
        }
        qi
    }
}

/// Quotient of two fixed-point values, as a fixed-point fraction.
pub open spec fn div_fx_spec(a: int, b: int) -> int {
    tdiv(a * SCALE, b)
}

/// Fixed-point divide: `a * SCALE / b`, rounded toward zero.
pub fn div_fx(a: i64, b: i64) -> (r: i64)
    requires
        -FX_ARG_MAX <= a <= FX_ARG_MAX,
        0 < b,
    ensures
        r == div_fx_spec(a as int, b as int),
{
    let am: u64 = if a >= 0 {
        a as u64
    } else {
        (-a) as u64
    };
    proof {
        assert((am as int) * (SCALE as int) <= 2_000_000_000_000_000_000) by (nonlinear_arith)
            requires
                0 <= (am as int) && (am as int) <= FX_ARG_MAX as int;
    }
    let p: u64 = am * (SCALE as u64);
    let q: u64 = p / (b as u64);
    proof {
        lemma_div_is_ordered(p as int, 2_000_000_000_000_000_000, b as int);
        lemma_div_nonincreasing(2_000_000_000_000_000_000, b as int);
        assert(p as int == abs_int((a as int) * (SCALE as int))) by (nonlinear_arith)
            requires
                am as int == abs_int(a as int),
                p as int == (am as int) * (SCALE as int);
        lemma_tdiv_abs((a as int) * (SCALE as int), b as int);
        if a < 0 {
            assert((a as int) * (SCALE as int) < 0) by (nonlinear_arith)
                requires
                    (a as int) < 0;
        } else {
            assert((a as int) * (SCALE as int) >= 0) by (nonlinear_arith)
                requires
                    (a as int) >= 0;
        }
    }
    if a < 0 {
        -(q as i64)
    } else {
        q as i64
    }
}

/// Integer square root, rounded down.
pub fn isqrt_u128(n: u128) -> (r: u64)
    requires
        n < 0x1_0000_0000_0000_0000_0000_0000u128,
    ensures
        (r as int) * (r as int) <= n as int,
        (n as int) < (r as int + 1) * (r as int + 1),
{
    let mut lo: u128 = 0;
    let mut hi: u128 = 0x1_0000_0000_0000u128;
    proof {
        assert((hi as int) * (hi as int) == 0x1_0000_0000_0000_0000_0000_0000);
    }
    while lo + 1 < hi
        invariant
            lo < hi <= 0x1_0000_0000_0000u128,
            (lo as int) * (lo as int) <= n as int,
            (n as int) < (hi as int) * (hi as int),
        decreases hi - lo,
    {
        let mid: u128 = lo + (hi - lo) / 2;
        proof {
            assert(lo < mid < hi);
            assert((mid as int) * (mid as int) < 0x1_0000_0000_0000_0000_0000_0000)
                by (nonlinear_arith)
                requires
                    0 <= (mid as int),
                    (mid as int) < 0x1_0000_0000_0000;
        }
        let sq: u128 = mid * mid;
        if sq <= n {
            lo = mid;
        } else {
            hi = mid;
        }
    }
    proof {
        assert(hi == lo + 1);
    }
    lo as u64
}

} // verus!
