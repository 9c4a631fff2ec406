use simple_machine::fixed::FixedResolution;
use simple_machine::math::{isqrt, isqrt_ceil, scale_trunc};
use simple_machine::trig::{iatan2, icos, isin, pi_ticks, TRIG_SCALE};

#[test]
fn fixed_point_equality_is_raw_equality() {
    let a = FixedResolution::from_units(1_000_000, 100);
    let b = FixedResolution { raw_value: 100, resolution: 1000 };
    assert!(a.equal(&b));
    assert!(!a.less_than(&b));
    assert_eq!(100, a.raw_value);
}

#[test]
fn increment_up_then_down_is_identity() {
    let a = FixedResolution::from_units(2_500_000, 100);
    let b = a.increment(1).increment(-1);
    assert_eq!(a, b);
}

#[test]
fn add_subtract_and_direction() {
    let a = FixedResolution::from_units(1_500_000, 100);
    let b = FixedResolution::from_units(500_000, 100);
    assert_eq!(200, a.add(b).raw_value);
    assert_eq!(100, a.subtract(b).raw_value);
    assert_eq!(Some(1), b.get_direction(&a));
    assert_eq!(Some(-1), a.get_direction(&b));
    assert_eq!(None, a.get_direction(&a));
}

#[test]
fn construction_truncates_toward_zero() {
    assert_eq!(-3, FixedResolution::from_units(-30_000, 100).raw_value);
    assert_eq!(0, FixedResolution::from_units(9_999, 100).raw_value);
    assert_eq!(0, FixedResolution::from_units(-9_999, 100).raw_value);
}

#[test]
fn integer_square_roots() {
    assert_eq!(0, isqrt(0));
    assert_eq!(1, isqrt(3));
    assert_eq!(2, isqrt(4));
    assert_eq!(100, isqrt(10_000));
    assert_eq!(100, isqrt(10_200));
    assert_eq!(100, isqrt_ceil(10_000));
    assert_eq!(101, isqrt_ceil(10_001));
}

#[test]
fn truncating_scaling() {
    assert_eq!(150, scale_trunc(100, 3, 2));
    assert_eq!(-150, scale_trunc(-100, 3, 2));
    assert_eq!(1, scale_trunc(5, 1, 3));
    assert_eq!(-1, scale_trunc(-5, 1, 3));
}

#[test]
fn trig_stays_in_scale_and_tracks_known_angles() {
    let res: i64 = 10_000;
    let p = pi_ticks(res);
    // about pi
    assert!((p - 31_415).abs() <= 2);
    // sine of a quarter turn is close to the full scale
    let s = isin(p / 2, res);
    assert!(s <= TRIG_SCALE);
    assert!(s >= TRIG_SCALE - TRIG_SCALE / 100);
    // sine of a half turn is close to zero
    assert!(isin(p, res).abs() <= TRIG_SCALE / 200);
    // cosine of zero is close to the full scale
    let c = icos(0, res);
    assert!(c >= TRIG_SCALE - TRIG_SCALE / 100);
}

#[test]
fn four_quadrant_arctangent() {
    let res: i64 = 10_000;
    let p = pi_ticks(res);
    // straight down: -pi / 2
    let down = iatan2(-1_000_000, 0, res);
    assert!((down + p / 2).abs() <= 40);
    // straight left: pi
    let left = iatan2(0, -1_000_000, res);
    assert!((left - p).abs() <= 40);
    // up the diagonal: pi / 4
    let diag = iatan2(1_000_000, 1_000_000, res);
    assert!((diag - p / 4).abs() <= 40);
    // origin maps to zero
    assert_eq!(0, iatan2(0, 0, res));
}
