//! Integer square roots and truncating scale arithmetic.
//!
//! Everything kinematic in this crate is integer-quantized, so the few
//! places where the motion model needs a square root (movement amplitude,
//! arc radius) or a truncating multiply-divide (fixed-point construction)
//! use the exact integer forms defined here.

use vstd::prelude::*;

verus! {

/// Floor of the real square root of `n`, defined by its characteristic
/// property `r * r <= n < (r + 1) * (r + 1)`.
pub open spec fn sqrt_floor(n: nat) -> nat
    decreases n,
{
    if n == 0 {
        0
    } else {
        let r = sqrt_floor((n - 1) as nat);
        if (r + 1) * (r + 1) <= n {
            r + 1
        } else {
            r
        }
    }
}

/// `sqrt_floor` really is the floor of the square root.
pub proof fn lemma_sqrt_floor(n: nat)
    ensures
        sqrt_floor(n) * sqrt_floor(n) <= n,
        n < (sqrt_floor(n) + 1) * (sqrt_floor(n) + 1),
    decreases n,
{
    let s = sqrt_floor(n);
    if n == 0 {
        assert(s == 0);
        assert(n < (s + 1) * (s + 1)) by (nonlinear_arith)
            requires s == 0, n == 0,
        ;
    } else {
        let m = (n - 1) as nat;
        let r = sqrt_floor(m);
        lemma_sqrt_floor(m);
        if (r + 1) * (r + 1) <= n {
            assert(s == r + 1);
            assert(n <= (r + 1) * (r + 1));
            assert(s * s <= n && n < (s + 1) * (s + 1)) by (nonlinear_arith)
                requires s == r + 1, (r + 1) * (r + 1) <= n, n <= (r + 1) * (r + 1),
            ;
        } else {
            assert(s == r);
            assert(r * r <= m);
            assert(s * s <= n && n < (s + 1) * (s + 1)) by (nonlinear_arith)
                requires s == r, r * r <= m, m < n, !((r + 1) * (r + 1) <= n),
            ;
        }
    }
}

/// The floor square root is monotone.
pub proof fn lemma_sqrt_floor_monotone(a: nat, b: nat)
    requires
        a <= b,
    ensures
        sqrt_floor(a) <= sqrt_floor(b),
    decreases b,
{
    if a < b {
        lemma_sqrt_floor_monotone(a, (b - 1) as nat);
    }
}

/// Any `r` with `r * r <= n < (r + 1) * (r + 1)` equals `sqrt_floor(n)`.
pub proof fn lemma_sqrt_floor_unique(n: nat, r: nat)
    requires
        r * r <= n,
        n < (r + 1) * (r + 1),
    ensures
        r == sqrt_floor(n),
{
    lemma_sqrt_floor(n);
    let s = sqrt_floor(n);
    if r < s {
        assert((r + 1) * (r + 1) <= s * s) by (nonlinear_arith)
            requires r + 1 <= s,
        ;
    }
    if s < r {
        assert((s + 1) * (s + 1) <= r * r) by (nonlinear_arith)
            requires s + 1 <= r,
        ;
    }
}

/// Floor of the square root of `n`, by bisection.
pub fn isqrt(n: u128) -> (r: u128)
    ensures
        r == sqrt_floor(n as nat),
        r * r <= n,
{
    proof {
        lemma_sqrt_floor(n as nat);
    }
    if n == 0 {
        return 0;
    }
    // Invariant: lo * lo <= n < hi * hi.
    let mut lo: u128 = 0;
    let mut hi: u128 = 0x1_0000_0000_0000_0000;
    proof {
        assert(0x1_0000_0000_0000_0000u128 as nat * 0x1_0000_0000_0000_0000u128 as nat
            > u128::MAX as nat) by (nonlinear_arith);
    }
    while hi - lo > 1
        invariant
            lo < hi,
            lo * lo <= n as nat,
            (n as nat) < hi * hi,
        decreases hi - lo,
    {
        let mid = lo + (hi - lo) / 2;
        let q = u128::MAX / mid;
        proof {
            vstd::arithmetic::div_mod::lemma_fundamental_div_mod(u128::MAX as int, mid as int);
            vstd::arithmetic::div_mod::lemma_mod_bound(u128::MAX as int, mid as int);
        }
        if mid <= q {
            // mid * mid <= mid * q <= u128::MAX, so the square does not overflow
            assert(mid * mid <= mid * q) by (nonlinear_arith)
                requires mid <= q,
            ;
            let sq = mid * mid;
            if sq <= n {
                lo = mid;
            } else {
                hi = mid;
            }
        } else {
            // u128::MAX < mid * (q + 1) <= mid * mid, so n < mid * mid
            assert(mid * q + mid == mid * (q + 1)) by (nonlinear_arith);
            assert(mid * (q + 1) <= mid * mid) by (nonlinear_arith)
                requires q + 1 <= mid,
            ;
            assert((n as nat) < mid * mid);
            hi = mid;
        }
    }
    proof {
        lemma_sqrt_floor_unique(n as nat, lo as nat);
    }
    lo
}

/// The floor square root of a perfect square is its root.
pub proof fn lemma_sqrt_floor_square(d: nat)
    ensures
        sqrt_floor(d * d) == d,
{
    assert(d * d < (d + 1) * (d + 1)) by (nonlinear_arith);
    lemma_sqrt_floor_unique(d * d, d);
}

/// Ceiling of the real square root of `n`.
pub open spec fn sqrt_ceil(n: nat) -> nat {
    if sqrt_floor(n) * sqrt_floor(n) == n {
        sqrt_floor(n)
    } else {
        sqrt_floor(n) + 1
    }
}

/// Ceiling of the square root of `n`.
pub fn isqrt_ceil(n: u128) -> (r: u128)
    requires
        n < u128::MAX,
    ensures
        r == sqrt_ceil(n as nat),
        (n as nat) <= r * r,
{
    let s = isqrt(n);
    proof {
        lemma_sqrt_floor(n as nat);
        assert(s <= s * s) by (nonlinear_arith);
    }
    if s * s == n {
        s
    } else {
        s + 1
    }
}

/// `v * num / den`, truncated toward zero, as a mathematical value.
pub open spec fn scale_trunc_spec(v: int, num: int, den: int) -> int
    recommends
        num >= 1,
        den >= 1,
{
    if v >= 0 {
        (v * num) / den
    } else {
        -(((-v) * num) / den)
    }
}

/// `v * num / den`, truncated toward zero.
pub fn scale_trunc(v: i64, num: i64, den: i64) -> (r: i64)
    requires
        1 <= num,
        1 <= den,
        -0x7fff_ffff_ffff_ffff <= scale_trunc_spec(v as int, num as int, den as int)
            <= 0x7fff_ffff_ffff_ffff,
    ensures
        r == scale_trunc_spec(v as int, num as int, den as int),
{
    if v >= 0 {
        proof {
            assert((v as u128) * (num as u128) <= 0x8000_0000_0000_0000u128
                * 0x8000_0000_0000_0000) by (nonlinear_arith)
                requires v as u128 <= 0x8000_0000_0000_0000u128,
                    num as u128 <= 0x8000_0000_0000_0000u128,
            ;
        }
        let p: u128 = (v as u128) * (num as u128);
        let q: u128 = p / (den as u128);
        q as i64
    } else {
        let m: u128 = if v == i64::MIN {
            0x8000_0000_0000_0000u128
        } else {
            (-v) as u128
        };
        proof {
            assert(m * (num as u128) <= 0x8000_0000_0000_0000u128
                * 0x8000_0000_0000_0000) by (nonlinear_arith)
                requires m <= 0x8000_0000_0000_0000u128,
                    num as u128 <= 0x8000_0000_0000_0000u128,
            ;
        }
        let p: u128 = m * (num as u128);
        let q: u128 = p / (den as u128);
        proof {
            assert(m == -(v as int));
            assert(q <= p) by {
                vstd::arithmetic::div_mod::lemma_div_is_ordered_by_denominator(
                    p as int, 1, den as int);
            }
        }
        -(q as i64)
    }
}

/// Truncating scaling never enlarges a value beyond `|v| * num`.
pub proof fn lemma_scale_trunc_bound(v: int, num: int, den: int)
    requires
        1 <= num,
        1 <= den,
    ensures
        v >= 0 ==> 0 <= scale_trunc_spec(v, num, den) <= v * num,
        v < 0 ==> v * num <= scale_trunc_spec(v, num, den) <= 0,
{
    let m = if v >= 0 { v } else { -v };
    assert(0 <= m * num) by (nonlinear_arith)
        requires 0 <= m, 1 <= num,
    ;
    vstd::arithmetic::div_mod::lemma_div_is_ordered_by_denominator(m * num, 1, den);
    vstd::arithmetic::div_mod::lemma_div_pos_is_pos(m * num, den);
    if v < 0 {
        assert((-v) * num == -(v * num)) by (nonlinear_arith);
    }
}

/// Raw-step offset of one axis after `s` of the `sqrt_ceil(a2)` parametric
/// ticks of a linear move: the floor of `d * s / sqrt(a2)`, where `d` is the
/// axis's total raw movement and `a2` the squared movement amplitude.
pub open spec fn dda_offset(d: nat, s: nat, a2: nat) -> nat
    recommends
        a2 >= 1,
{
    sqrt_floor(((d * s) * (d * s)) / a2)
}

/// `dda_offset` is the floor of `d * s / sqrt(a2)`: its characteristic
/// property is `r * r * a2 <= (d * s)^2 < (r + 1)^2 * a2`.
pub proof fn lemma_dda_offset_monotone(d: nat, s1: nat, s2: nat, a2: nat)
    requires
        a2 >= 1,
        s1 <= s2,
    ensures
        dda_offset(d, s1, a2) <= dda_offset(d, s2, a2),
{
    let p1 = d * s1;
    let p2 = d * s2;
    assert(p1 <= p2) by (nonlinear_arith)
        requires s1 <= s2, p1 == d * s1, p2 == d * s2,
    ;
    assert(p1 * p1 <= p2 * p2) by (nonlinear_arith)
        requires p1 <= p2,
    ;
    vstd::arithmetic::div_mod::lemma_div_is_ordered(
        (p1 * p1) as int, (p2 * p2) as int, a2 as int);
    lemma_sqrt_floor_monotone((p1 * p1) / a2, (p2 * p2) / a2);
}

/// Within a move, an axis's offset never passes its total movement `d`.
pub proof fn lemma_dda_offset_bound(d: nat, s: nat, a2: nat)
    requires
        a2 >= 1,
        d * d <= a2,
        s <= sqrt_ceil(a2),
    ensures
        dda_offset(d, s, a2) <= d,
{
    let n = sqrt_ceil(a2);
    let f = sqrt_floor(a2);
    lemma_sqrt_floor(a2);
    lemma_dda_offset_monotone(d, s, n, a2);
    let p = d * n;
    // d <= f, because d * d <= a2 < (f + 1)^2
    assert(d <= f) by (nonlinear_arith)
        requires d * d <= a2, a2 < (f + 1) * (f + 1),
    ;
    // p * p < (d + 1)^2 * a2
    if f * f == a2 {
        assert(p * p < ((d + 1) * (d + 1)) * a2) by (nonlinear_arith)
            requires p == d * f, f * f == a2, a2 >= 1,
        ;
    } else {
        assert(f * f + 1 <= a2);
        assert(p * p < ((d + 1) * (d + 1)) * a2) by (nonlinear_arith)
            requires p == d * (f + 1), d <= f, f * f + 1 <= a2,
        ;
    }
    // hence (p * p) / a2 < (d + 1)^2, so the square root is at most d
    vstd::arithmetic::div_mod::lemma_multiply_divide_lt(
        (p * p) as int, a2 as int, ((d + 1) * (d + 1)) as int);
    assert((p * p) / a2 < (d + 1) * (d + 1));
    lemma_sqrt_floor((p * p) / a2);
    let r = sqrt_floor((p * p) / a2);
    assert(r <= d) by (nonlinear_arith)
        requires
            r * r <= (p * p) / a2,
            (p * p) / a2 < (d + 1) * (d + 1),
    ;
}

/// At the final parametric tick the offset equals the whole movement.
pub proof fn lemma_dda_offset_final(d: nat, a2: nat)
    requires
        a2 >= 1,
        d * d <= a2,
    ensures
        dda_offset(d, sqrt_ceil(a2), a2) == d,
{
    let n = sqrt_ceil(a2);
    lemma_sqrt_floor(a2);
    let p = d * n;
    // n * n >= a2, so p * p >= d^2 * a2
    assert((n * n) >= a2) by {
        if sqrt_floor(a2) * sqrt_floor(a2) == a2 {
        } else {
            let f = sqrt_floor(a2);
            assert(n == f + 1);
        }
    }
    assert(p * p >= (d * d) * a2) by (nonlinear_arith)
        requires p == d * n, n * n >= a2,
    ;
    vstd::arithmetic::div_mod::lemma_div_by_multiple((d * d) as int, a2 as int);
    vstd::arithmetic::div_mod::lemma_div_is_ordered(
        ((d * d) * a2) as int, (p * p) as int, a2 as int);
    assert((p * p) / a2 >= d * d);
    lemma_sqrt_floor_monotone(d * d, (p * p) / a2);
    lemma_sqrt_floor_square(d);
    lemma_dda_offset_bound(d, n, a2);
}

/// `dda_offset`, computed exactly in integers.
pub fn dda_offset_exec(d: u64, s: u64, a2: u128) -> (r: u64)
    requires
        1 <= a2,
        d <= 0x8000_0000,
        s <= 0x1_0000_0001,
    ensures
        r == dda_offset(d as nat, s as nat, a2 as nat),
{
    proof {
        assert((d as u128) * (s as u128) <= 0x8000_0000u128 * 0x1_0000_0001) by (nonlinear_arith)
            requires d as u128 <= 0x8000_0000u128, s as u128 <= 0x1_0000_0001u128,
        ;
    }
    let p: u128 = (d as u128) * (s as u128);
    proof {
        assert(p * p <= (0x8000_0000u128 * 0x1_0000_0001) * (0x8000_0000u128 * 0x1_0000_0001))
            by (nonlinear_arith)
            requires p <= 0x8000_0000u128 * 0x1_0000_0001,
        ;
    }
    let q: u128 = (p * p) / a2;
    let r = isqrt(q);
    proof {
        // sqrt_floor(q) <= p, because q <= p * p
        vstd::arithmetic::div_mod::lemma_div_is_ordered_by_denominator(
            (p * p) as int, 1, a2 as int);
        lemma_sqrt_floor_monotone(q as nat, (p * p) as nat);
        lemma_sqrt_floor_square(p as nat);
    }
    r as u64
}

} // verus!
