//! Fixed-point trigonometry for the arc interpolator.
//!
//! Angles are integers on a grid of `resolution` ticks per radian (the arc
//! interpolator chooses the product of the two planar steps-per-unit
//! values). Sine and cosine are scaled by `TRIG_SCALE` and computed with a
//! quadratic approximation; the inverse tangent uses a first-order
//! polynomial per octant. The grid only shapes the sweep of an arc — the
//! interpolator clamps the endpoint — so the contracts here state the
//! ranges that keep the arithmetic around them exact, not the values.

use vstd::prelude::*;

verus! {

/// Scale of sine and cosine values.
pub const TRIG_SCALE: i64 = 0x4000_0000;

/// Largest angle resolution: the square of the largest axis resolution.
pub const MAX_ANGLE_RESOLUTION: i64 = 1_000_000_000_000;

/// The angle grid's approximation of pi, in ticks.
pub open spec fn spec_pi_ticks(resolution: int) -> int {
    (355 * resolution) / 113
}

/// Pi on the angle grid.
pub fn pi_ticks(resolution: i64) -> (r: i64)
    requires
        1 <= resolution <= MAX_ANGLE_RESOLUTION,
    ensures
        r == spec_pi_ticks(resolution as int),
        3 * resolution <= r <= 4 * resolution,
        r >= 3,
{
    proof {
        vstd::arithmetic::div_mod::lemma_fundamental_div_mod(
            355 * (resolution as int), 113);
        vstd::arithmetic::div_mod::lemma_mod_bound(355 * (resolution as int), 113);
    }
    (355 * resolution) / 113
}

/// Sine of `theta` grid ticks, scaled by `TRIG_SCALE`.
///
/// The angle is reduced modulo one turn, then a quadratic approximation is
/// evaluated on each half-turn. Only the range of the result is promised.
pub fn isin(theta: i64, resolution: i64) -> (r: i64)
    requires
        1 <= resolution <= MAX_ANGLE_RESOLUTION,
        -0x1000_0000_0000_0000 <= theta <= 0x1000_0000_0000_0000,
    ensures
        -TRIG_SCALE <= r <= TRIG_SCALE,
{
    let p = pi_ticks(resolution);
    let turn = 2 * p;
    // reduce to [0, turn)
    let m: u64 = if theta >= 0 {
        (theta as u64) % (turn as u64)
    } else {
        let k = ((-theta) as u64) % (turn as u64);
        if k == 0 {
            0
        } else {
            (turn as u64) - k
        }
    };
    proof {
        vstd::arithmetic::div_mod::lemma_mod_bound(theta as int, turn as int);
        vstd::arithmetic::div_mod::lemma_mod_bound(-(theta as int), turn as int);
    }
    // fold to a half-turn and remember the sign
    let (x, negative): (u64, bool) = if m < (p as u64) {
        (m, false)
    } else {
        (m - (p as u64), true)
    };
    // sin(x) ~ 16 x (p - x) / (5 p^2 - 4 x (p - x)) on [0, p]
    let pu = p as u128;
    let xu = x as u128;
    proof {
        assert(pu * pu <= 4_000_000_000_000u128 * 4_000_000_000_000) by (nonlinear_arith)
            requires pu <= 4_000_000_000_000u128,
        ;
        assert(xu * (pu - xu) <= pu * pu) by (nonlinear_arith)
            requires xu <= pu,
        ;
        assert(4 * (xu * (pu - xu)) <= pu * pu) by (nonlinear_arith)
            requires xu <= pu,
        ;
    }
    let y: u128 = xu * (pu - xu);
    let den: u128 = 5 * (pu * pu) - 4 * y;
    proof {
        assert((16 * y) * (TRIG_SCALE as u128)
            <= (4 * (4_000_000_000_000u128 * 4_000_000_000_000)) * 0x4000_0000)
            by (nonlinear_arith)
            requires 4 * y <= 4_000_000_000_000u128 * 4_000_000_000_000,
        ;
    }
    let num: u128 = (16 * y) * (TRIG_SCALE as u128);
    let q: u128 = if den > 0 {
        num / den
    } else {
        0
    };
    proof {
        if den > 0 {
            assert(num <= (TRIG_SCALE as u128) * den) by (nonlinear_arith)
                requires
                    num == (16 * y) * (TRIG_SCALE as u128),
                    den == 5 * (pu * pu) - 4 * y,
                    4 * y <= pu * pu,
                    den > 0,
            ;
            vstd::arithmetic::div_mod::lemma_multiply_divide_le(
                num as int, den as int, TRIG_SCALE as int);
        }
    }
    let q64 = q as i64;
    if negative {
        -q64
    } else {
        q64
    }
}

/// Cosine of `theta` grid ticks, scaled by `TRIG_SCALE`: the sine a
/// quarter-turn ahead.
pub fn icos(theta: i64, resolution: i64) -> (r: i64)
    requires
        1 <= resolution <= MAX_ANGLE_RESOLUTION,
        -0x800_0000_0000_0000 <= theta <= 0x800_0000_0000_0000,
    ensures
        -TRIG_SCALE <= r <= TRIG_SCALE,
{
    let p = pi_ticks(resolution);
    isin(theta + p / 2, resolution)
}

/// The four-quadrant inverse tangent of `y / x` in grid ticks, within one
/// approximation step of `atan2(y, x) * resolution`, always inside
/// (-4, 4) resolutions of zero.
pub fn iatan2(y: i64, x: i64, resolution: i64) -> (r: i64)
    requires
        1 <= resolution <= MAX_ANGLE_RESOLUTION,
        -0x20_0000_0000_0000 <= y <= 0x20_0000_0000_0000,
        -0x20_0000_0000_0000 <= x <= 0x20_0000_0000_0000,
    ensures
        -4 * resolution <= r <= 4 * resolution,
{
    let p = pi_ticks(resolution);
    let ax: u64 = if x >= 0 { x as u64 } else { (-x) as u64 };
    let ay: u64 = if y >= 0 { y as u64 } else { (-y) as u64 };
    if ax == 0 && ay == 0 {
        return 0;
    }
    // base angle: atan of the smaller over the larger leg, in [0, p/2]
    let (small, large): (u64, u64) = if ay <= ax { (ay, ax) } else { (ax, ay) };
    // atan(z) ~ (pi/4) z + 0.273 z (1 - z), evaluated staged so every
    // intermediate fits unsigned 128-bit arithmetic
    let pi4: u64 = (p / 4) as u64;
    let k273: u64 = ((273 * resolution) / 1000) as u64;
    let lu = large as u128;
    let su = small as u128;
    proof {
        assert((pi4 as u128) * su <= 0x4_0000_0000_0000u128 * 0x20_0000_0000_0000)
            by (nonlinear_arith)
            requires pi4 as u128 <= 0x4_0000_0000_0000u128, su <= 0x20_0000_0000_0000u128,
        ;
        assert((pi4 as u128) * su <= lu * (pi4 as u128)) by (nonlinear_arith)
            requires su <= lu,
        ;
        vstd::arithmetic::div_mod::lemma_multiply_divide_le(
            ((pi4 as u128) * su) as int, lu as int, pi4 as int);
        assert(su * (lu - su) <= lu * lu) by (nonlinear_arith)
            requires su <= lu,
        ;
        assert(lu * lu <= 0x20_0000_0000_0000u128 * 0x20_0000_0000_0000) by (nonlinear_arith)
            requires lu <= 0x20_0000_0000_0000u128,
        ;
        vstd::arithmetic::div_mod::lemma_multiply_divide_le(
            (su * (lu - su)) as int, lu as int, lu as int);
    }
    let t1: u128 = ((pi4 as u128) * su) / lu;
    let w: u128 = (su * (lu - su)) / lu;
    proof {
        assert((k273 as u128) * w <= 0x4_0000_0000_0000u128 * 0x20_0000_0000_0000)
            by (nonlinear_arith)
            requires k273 as u128 <= 0x4_0000_0000_0000u128, w <= 0x20_0000_0000_0000u128,
        ;
        assert((k273 as u128) * w <= lu * (k273 as u128)) by (nonlinear_arith)
            requires w <= lu,
        ;
        vstd::arithmetic::div_mod::lemma_multiply_divide_le(
            ((k273 as u128) * w) as int, lu as int, k273 as int);
    }
    let t2: u128 = ((k273 as u128) * w) / lu;
    let base: u64 = (t1 + t2) as u64;
    // fold the octant back out
    let half_pi: u64 = (p / 2) as u64;
    let angle1: u64 = if ay <= ax {
        base
    } else {
        if base <= half_pi {
            half_pi - base
        } else {
            0
        }
    };
    let magnitude: i64 = if x >= 0 {
        angle1 as i64
    } else {
        if (angle1 as i64) <= p {
            p - angle1 as i64
        } else {
            0
        }
    };
    if y < 0 {
        -magnitude
    } else {
        magnitude
    }
}

} // verus!
