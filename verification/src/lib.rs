//! Core of a stepper-motor motion controller: a G-code parser, an exact
//! fixed-point coordinate model, line and arc interpolators that emit
//! per-axis unit pulses, and the pulse aggregator that folds those pulses
//! into per-block sync entries for the driver and the visualization sink.

use vstd::prelude::*;

pub mod fixed;
pub mod gcode;
pub mod image;
pub mod machine;
pub mod math;
pub mod trig;

verus! {

/// Upper bound on the steps-per-unit resolution of an axis.
pub const MAX_RESOLUTION: i32 = 1_000_000;

/// Scale of the fractional (micro-unit) representation of real values.
pub const MICRO: i64 = 1_000_000;

/// Bound on coordinate values in micro-units (and so on raw step counts)
/// that keeps every intermediate product of the interpolators inside the
/// machine integer types.
pub const MAX_VALUE_MICRO: i64 = 0x10_0000_0000_0000;

/// Bound on the raw step count of a coordinate a move may target; keeps
/// the squared movement amplitude of a four-axis move inside 128 bits.
pub const RAW_LIMIT: i64 = 0x4000_0000;

} // verus!
