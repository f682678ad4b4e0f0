//! Fixed-point trigonometry.
//!
//! The library defines its own sine and cosine: the angle is reduced to one
//! period, folded onto the first quarter wave, and evaluated there with a
//! ninth-degree polynomial; the result is clamped to one whole unit.  Two
//! further helpers evaluate `sin(u)/u` and `(1 - cos(u))/u`, the arc-offset
//! factors of constant-curvature motion, directly as series so that small
//! swept angles lose no precision.  Every executable function returns exactly
//! the value of its spec-level mirror.

use vstd::prelude::*;
use vstd::arithmetic::div_mod::lemma_div_is_ordered;
use crate::fixed::{abs_int, SCALE};

verus! {

/// One half turn, in fixed-point radians.
pub const PI_FX: i64 = 3_141_592;

/// One full turn; kept at exactly twice `PI_FX` so folding stays in range.
pub const TWO_PI_FX: i64 = 6_283_184;

/// One quarter turn.
pub const HALF_PI_FX: i64 = 1_570_796;

/// Largest angle magnitude accepted by `sin_fx`.
pub const TRIG_ARG_MAX: i64 = 1_100_000_000_000_000;

/// A multiple of `TWO_PI_FX` large enough to shift any accepted angle into
/// the nonnegative range before reduction.
pub const ANGLE_SHIFT: i64 = 1_256_636_800_000_000;

/// Largest swept-angle magnitude accepted by the arc-offset helpers.
pub const STEP_ARG_MAX: i64 = 16_000_000;

/// Polynomial for the quarter wave `0 <= q <= HALF_PI_FX`, clamped to
/// `[0, SCALE]`.
pub open spec fn quarter_sin_spec(q: int) -> int
    recommends
        0 <= q <= HALF_PI_FX,
{
    let q2 = q * q;
    let a = (q * q2) / 6_000_000_000_000;
    let b = (a * q2) / 20_000_000_000_000;
    let c = (b * q2) / 42_000_000_000_000;
    let d = (c * q2) / 72_000_000_000_000;
    let t = q - a + b - c + d;
    if t < 0 {
        0
    } else if t > SCALE {
        SCALE as int
    } else {
        t
    }
}

/// Sine over one period, by folding the reduced angle onto the quarter wave.
pub open spec fn folded_sin_spec(r: int) -> int
    recommends
        0 <= r < TWO_PI_FX,
{
    if r < PI_FX {
        if r <= HALF_PI_FX {
            quarter_sin_spec(r)
        } else {
            quarter_sin_spec(PI_FX - r)
        }
    } else {
        if r - PI_FX <= HALF_PI_FX {
            -quarter_sin_spec(r - PI_FX)
        } else {
            -quarter_sin_spec(PI_FX - (r - PI_FX))
        }
    }
}

pub open spec fn sin_fx_spec(a: int) -> int {
    folded_sin_spec((a + ANGLE_SHIFT) % (TWO_PI_FX as int))
}

pub open spec fn cos_fx_spec(a: int) -> int {
    sin_fx_spec(a + HALF_PI_FX)
}

/// Series for `sin(u)/u`, in whole units of `SCALE`, clamped to one.
pub open spec fn sinc_spec(u: int) -> int
    recommends
        abs_int(u) <= STEP_ARG_MAX,
{
    let m = abs_int(u);
    let m2 = m * m;
    let a = m2 / 6_000_000;
    let b = (a * m2) / 20_000_000_000_000;
    let c = (b * m2) / 42_000_000_000_000;
    let t = SCALE - a + b - c;
    if t < -SCALE {
        -(SCALE as int)
    } else if t > SCALE {
        SCALE as int
    } else {
        t
    }
}

/// Series for `(1 - cos(u))/u`, odd in `u`, clamped to one whole unit.
pub open spec fn cosc_spec(u: int) -> int
    recommends
        abs_int(u) <= STEP_ARG_MAX,
{
    let m = abs_int(u);
    let m2 = m * m;
    let h = m / 2;
    let a = (m * m2) / 24_000_000_000_000;
    let b = (a * m2) / 30_000_000_000_000;
    let t = h - a + b;
    let s = if t < -SCALE {
        -(SCALE as int)
    } else if t > SCALE {
        SCALE as int
    } else {
        t
    };
    if u >= 0 {
        s
    } else {
        -s
    }
}

/// The quarter-wave polynomial, evaluated in unsigned arithmetic.
fn quarter_sin(q: i64) -> (r: i64)
    requires
        0 <= q <= HALF_PI_FX,
    ensures
        r == quarter_sin_spec(q as int),
        0 <= r <= SCALE,
{
    let qu: u64 = q as u64;
    proof {
        assert((qu as int) * (qu as int) <= 2_470_000_000_000) by (nonlinear_arith)
            requires
                0 <= (qu as int) && (qu as int) <= 1_570_796;
    }
    let q2: u64 = qu * qu;
    proof {
        assert((qu as int) * (q2 as int) <= 3_880_000_000_000_000_000) by (nonlinear_arith)
            requires
                0 <= (qu as int) && (qu as int) <= 1_570_796,
                0 <= (q2 as int) && (q2 as int) <= 2_470_000_000_000;
        lemma_div_is_ordered(
            (qu as int) * (q2 as int),
            3_880_000_000_000_000_000,
            6_000_000_000_000,
        );
    }
    let a: u64 = (qu * q2) / 6_000_000_000_000;
    proof {
        assert((a as int) * (q2 as int) <= 1_600_000_000_000_000_000) by (nonlinear_arith)
            requires
                0 <= (a as int) && (a as int) <= 647_000,
                0 <= (q2 as int) && (q2 as int) <= 2_470_000_000_000;
        lemma_div_is_ordered(
            (a as int) * (q2 as int),
            1_600_000_000_000_000_000,
            20_000_000_000_000,
        );
    }
    let b: u64 = (a * q2) / 20_000_000_000_000;
    proof {
        assert((b as int) * (q2 as int) <= 198_000_000_000_000_000) by (nonlinear_arith)
            requires
                0 <= (b as int) && (b as int) <= 80_000,
                0 <= (q2 as int) && (q2 as int) <= 2_470_000_000_000;
        lemma_div_is_ordered(
            (b as int) * (q2 as int),
            198_000_000_000_000_000,
            42_000_000_000_000,
        );
    }
    let c: u64 = (b * q2) / 42_000_000_000_000;
    proof {
        assert((c as int) * (q2 as int) <= 11_650_000_000_000_000) by (nonlinear_arith)
            requires
                0 <= (c as int) && (c as int) <= 4_715,
                0 <= (q2 as int) && (q2 as int) <= 2_470_000_000_000;
        lemma_div_is_ordered(
            (c as int) * (q2 as int),
            11_650_000_000_000_000,
            72_000_000_000_000,
        );
    }
    let d: u64 = (c * q2) / 72_000_000_000_000;
    let t: i64 = q - (a as i64) + (b as i64) - (c as i64) + (d as i64);
    if t < 0 {
        0
    } else if t > SCALE {
        SCALE
    } else {
        t
    }
}

/// Fixed-point sine of any angle within `TRIG_ARG_MAX`.
pub fn sin_fx(a: i64) -> (r: i64)
    requires
        -TRIG_ARG_MAX <= a <= TRIG_ARG_MAX,
    ensures
        r == sin_fx_spec(a as int),
        -SCALE <= r <= SCALE,
{
    let shifted: i64 = a + ANGLE_SHIFT;
    let red: u64 = (shifted as u64) % (TWO_PI_FX as u64);
    let ri: i64 = red as i64;
    proof {
        assert(ri as int == (a + ANGLE_SHIFT) % (TWO_PI_FX as int));
        assert(0 <= (ri as int) && (ri as int) < TWO_PI_FX as int);
    }
    if ri < PI_FX {
        if ri <= HALF_PI_FX {
            quarter_sin(ri)
        } else {
            quarter_sin(PI_FX - ri)
        }
    } else {
        let m: i64 = ri - PI_FX;
        if m <= HALF_PI_FX {
            -quarter_sin(m)
        } else {
            -quarter_sin(PI_FX - m)
        }
    }
}

/// Fixed-point cosine, as the sine shifted by a quarter turn.
pub fn cos_fx(a: i64) -> (r: i64)
    requires
        -TRIG_ARG_MAX + HALF_PI_FX <= a <= TRIG_ARG_MAX - HALF_PI_FX,
    ensures
        r == cos_fx_spec(a as int),
        -SCALE <= r <= SCALE,
{
    sin_fx(a + HALF_PI_FX)
}

/// Arc-offset factor `sin(u)/u` for a swept angle `u`.
pub fn sinc_fx(u: i64) -> (r: i64)
    requires
        -STEP_ARG_MAX <= u <= STEP_ARG_MAX,
    ensures
        r == sinc_spec(u as int),
        -SCALE <= r <= SCALE,
{
    let mu: u64 = if u >= 0 {
        u as u64
    } else {
        (-u) as u64
    };
    proof {
        assert((mu as int) * (mu as int) <= 256_000_000_000_000) by (nonlinear_arith)
            requires
                0 <= (mu as int) && (mu as int) <= 16_000_000;
    }
    let m2: u64 = mu * mu;
    let a: u64 = m2 / 6_000_000;
    proof {
        lemma_div_is_ordered(m2 as int, 256_000_000_000_000, 6_000_000);
        assert((a as int) * (m2 as int) <= 10_930_000_000_000_000_000_000) by (nonlinear_arith)
            requires
                0 <= (a as int) && (a as int) <= 42_670_000,
                0 <= (m2 as int) && (m2 as int) <= 256_000_000_000_000;
        lemma_div_is_ordered(
            (a as int) * (m2 as int),
            10_930_000_000_000_000_000_000,
            20_000_000_000_000,
        );
    }
    let b: u64 = (((a as u128) * (m2 as u128)) / 20_000_000_000_000u128) as u64;
    proof {
        assert((b as int) * (m2 as int) <= 140_000_000_000_000_000_000_000) by (nonlinear_arith)
            requires
                0 <= (b as int) && (b as int) <= 546_500_000,
                0 <= (m2 as int) && (m2 as int) <= 256_000_000_000_000;
        lemma_div_is_ordered(
            (b as int) * (m2 as int),
            140_000_000_000_000_000_000_000,
            42_000_000_000_000,
        );
    }
    let c: u64 = (((b as u128) * (m2 as u128)) / 42_000_000_000_000u128) as u64;
    let t: i64 = SCALE - (a as i64) + (b as i64) - (c as i64);
    if t < -SCALE {
        -SCALE
    } else if t > SCALE {
        SCALE
    } else {
        t
    }
}

/// Arc-offset factor `(1 - cos(u))/u` for a swept angle `u`.
pub fn cosc_fx(u: i64) -> (r: i64)
    requires
        -STEP_ARG_MAX <= u <= STEP_ARG_MAX,
    ensures
        r == cosc_spec(u as int),
        -SCALE <= r <= SCALE,
{
    let mu: u64 = if u >= 0 {
        u as u64
    } else {
        (-u) as u64
    };
    proof {
        assert((mu as int) * (mu as int) <= 256_000_000_000_000) by (nonlinear_arith)
            requires
                0 <= (mu as int) && (mu as int) <= 16_000_000;
    }
    let m2: u64 = mu * mu;
    let h: u64 = mu / 2;
    proof {
        assert((mu as int) * (m2 as int) <= 4_096_000_000_000_000_000_000) by (nonlinear_arith)
            requires
                0 <= (mu as int) && (mu as int) <= 16_000_000,
                0 <= (m2 as int) && (m2 as int) <= 256_000_000_000_000;
        lemma_div_is_ordered(
            (mu as int) * (m2 as int),
            4_096_000_000_000_000_000_000,
            24_000_000_000_000,
        );
    }
    let a: u64 = (((mu as u128) * (m2 as u128)) / 24_000_000_000_000u128) as u64;
    proof {
        assert((a as int) * (m2 as int) <= 43_700_000_000_000_000_000_000) by (nonlinear_arith)
            requires
                0 <= (a as int) && (a as int) <= 170_670_000,
                0 <= (m2 as int) && (m2 as int) <= 256_000_000_000_000;
        lemma_div_is_ordered(
            (a as int) * (m2 as int),
            43_700_000_000_000_000_000_000,
            30_000_000_000_000,
        );
    }
    let b: u64 = (((a as u128) * (m2 as u128)) / 30_000_000_000_000u128) as u64;
    let t: i64 = (h as i64) - (a as i64) + (b as i64);
    let s: i64 = if t < -SCALE {
        -SCALE
    } else if t > SCALE {
        SCALE
    } else {
        t
    };
    if u >= 0 {
        s
    } else {
        -s
    }
}

} // verus!
