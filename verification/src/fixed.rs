//! Exact fixed-point representation of one axis coordinate.
//!
//! A `FixedResolution` carries the integer step count `raw_value` at a given
//! `resolution` (steps per real-world unit), so a position represents the
//! real value `raw_value / resolution`. Carrying the exact step count through
//! planning keeps equality against a target exact and avoids accumulated
//! rounding error across long programs.

use vstd::prelude::*;
use crate::math::scale_trunc;
use crate::math::scale_trunc_spec;
use crate::MICRO;
use crate::MAX_RESOLUTION;
use crate::MAX_VALUE_MICRO;

verus! {

#[derive(Debug, Clone, Copy, PartialEq, Eq, Structural)]
pub struct FixedResolution {
    pub raw_value: i64,
    pub resolution: i32,
}

/// The raw step count of the real value `value_micro / MICRO` at `resolution`
/// steps per unit, truncated toward zero.
pub open spec fn raw_of(value_micro: int, resolution: int) -> int
    recommends
        1 <= resolution,
{
    scale_trunc_spec(value_micro, resolution, MICRO as int)
}

/// A `FixedResolution` incremented by one raw step, as a mathematical value.
pub open spec fn spec_increment(f: FixedResolution, direction: int) -> FixedResolution {
    FixedResolution { raw_value: (f.raw_value + direction) as i64, resolution: f.resolution }
}

impl FixedResolution {
    /// The position at `value_micro / MICRO` real units, quantized by
    /// truncation toward zero to the axis resolution.
    pub fn from_units(value_micro: i64, resolution: i32) -> (r: FixedResolution)
        requires
            1 <= resolution <= MAX_RESOLUTION,
            -MAX_VALUE_MICRO <= value_micro <= MAX_VALUE_MICRO,
        ensures
            r.raw_value == raw_of(value_micro as int, resolution as int),
            r.resolution == resolution,
            -MAX_VALUE_MICRO <= r.raw_value <= MAX_VALUE_MICRO,
    {
        proof {
            lemma_raw_of_bound(value_micro as int, resolution as int);
        }
        FixedResolution {
            raw_value: scale_trunc(value_micro, resolution as i64, MICRO),
            resolution,
        }
    }

    /// A position one raw step away, in the given direction.
    pub fn increment(&self, direction: i32) -> (r: FixedResolution)
        requires
            direction == 1 || direction == -1,
            i64::MIN < self.raw_value + direction < i64::MAX,
        ensures
            r == spec_increment(*self, direction as int),
    {
        FixedResolution {
            raw_value: self.raw_value + direction as i64,
            resolution: self.resolution,
        }
    }

    /// The sum of two positions; the resolution of the result follows `self`.
    pub fn add(&self, value: FixedResolution) -> (r: FixedResolution)
        requires
            i64::MIN <= self.raw_value + value.raw_value <= i64::MAX,
        ensures
            r.raw_value == self.raw_value + value.raw_value,
            r.resolution == self.resolution,
    {
        FixedResolution {
            raw_value: self.raw_value + value.raw_value,
            resolution: self.resolution,
        }
    }

    /// The difference of two positions; the resolution follows `self`.
    pub fn subtract(&self, value: FixedResolution) -> (r: FixedResolution)
        requires
            i64::MIN <= self.raw_value - value.raw_value <= i64::MAX,
        ensures
            r.raw_value == self.raw_value - value.raw_value,
            r.resolution == self.resolution,
    {
        FixedResolution {
            raw_value: self.raw_value - value.raw_value,
            resolution: self.resolution,
        }
    }

    /// All kinematic comparisons are raw equality.
    pub fn equal(&self, comp: &FixedResolution) -> (r: bool)
        ensures
            r == (self.raw_value == comp.raw_value),
    {
        self.raw_value == comp.raw_value
    }

    pub fn less_than(&self, comp: &FixedResolution) -> (r: bool)
        ensures
            r == (self.raw_value < comp.raw_value),
    {
        self.raw_value < comp.raw_value
    }

    /// The unit step that moves this position toward `next`: `None` when the
    /// raw values already agree, else the sign of the difference.
    pub fn get_direction(&self, next: &FixedResolution) -> (r: Option<i32>)
        ensures
            self.raw_value == next.raw_value ==> r is None,
            self.raw_value < next.raw_value ==> r == Some(1i32),
            self.raw_value > next.raw_value ==> r == Some(-1i32),
    {
        if self.equal(next) {
            None
        } else if self.less_than(next) {
            Some(1)
        } else {
            Some(-1)
        }
    }
}

/// Quantization never enlarges a value: `|raw_of(v, res)| <= |v|` whenever
/// `res <= MICRO`, and in particular the raw value of a bounded coordinate
/// stays bounded.
pub proof fn lemma_raw_of_bound(value_micro: int, resolution: int)
    requires
        1 <= resolution <= MICRO,
        -MAX_VALUE_MICRO <= value_micro <= MAX_VALUE_MICRO,
    ensures
        -MAX_VALUE_MICRO <= raw_of(value_micro, resolution) <= MAX_VALUE_MICRO,
        value_micro >= 0 ==> 0 <= raw_of(value_micro, resolution) <= value_micro,
        value_micro < 0 ==> value_micro <= raw_of(value_micro, resolution) <= 0,
{
    let m = if value_micro >= 0 { value_micro } else { -value_micro };
    assert(m * resolution <= m * (MICRO as int)) by (nonlinear_arith)
        requires 0 <= m, resolution <= MICRO as int,
    ;
    vstd::arithmetic::div_mod::lemma_div_is_ordered(
        m * resolution, m * (MICRO as int), MICRO as int);
    vstd::arithmetic::div_mod::lemma_div_by_multiple(m, MICRO as int);
    vstd::arithmetic::div_mod::lemma_div_pos_is_pos(m * resolution, MICRO as int);
    assert(0 <= m * resolution) by (nonlinear_arith)
        requires 0 <= m, 0 <= resolution,
    ;
}

/// Fixed-point exactness: one raw step forward then one raw step back is the
/// identity on positions.
pub proof fn lemma_increment_roundtrip(f: FixedResolution)
    requires
        f.raw_value < i64::MAX,
    ensures
        spec_increment(spec_increment(f, 1), -1) == f,
{
}

} // verus!
