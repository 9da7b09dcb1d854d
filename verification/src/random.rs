//! Random sampling: uniform numbers and vectors, rejection sampling in the
//! unit sphere and the unit disc, and the turn into a hemisphere.
//!
//! A uniform number is a multiple of 2^-53, and a candidate coordinate a
//! multiple of 2^-52, so whether a candidate lies in the unit sphere is
//! decided in whole numbers, without rounding.
use crate::scalar::{unit, Scalar, FRACTION_RANGE};
use crate::vec::Vec3;
use core::ops::Neg;
use vstd::arithmetic::power2::{lemma2_to64, lemma2_to64_rest, lemma_pow2_adds, lemma_pow2_pos, pow2};
use vstd::prelude::*;

verus! {

/// How many candidates a rejection sampler draws before it settles for
/// the origin. A candidate is kept with probability above one half, so
/// that no run gets there.
pub const MAX_ROUNDS: usize = 1024;

/// Sixty-four random bits from `rand::random`, which draws them from the
/// thread-local generator of the rand crate. Nothing is claimed of them.
/// The generator panics where the operating system has no entropy to seed
/// it with; no argument of this library brings that about.
#[verifier::external_body]
fn random_bits() -> (raw: u64) {
    rand::random::<u64>()
}

/// The top fifty-three bits of a word, as a number.
pub open spec fn top_bits(raw: u64) -> int {
    raw as int / 2048
}

/// The value of `unit_interval(raw)`, in the units of `Scalar::value`:
/// the top bits times 2^-53.
pub open spec fn unit_interval_value(raw: u64) -> int {
    top_bits(raw) * pow2(1021)
}

/// The value of `centered(raw)`, in the units of `Scalar::value`: twice
/// the number of the unit interval, less one.
pub open spec fn centered_value(raw: u64) -> int {
    (top_bits(raw) - FRACTION_RANGE) * pow2(1022)
}

/// Every component is a number.
pub open spec fn numbers(v: Vec3) -> bool {
    !v.0.nan() && !v.1.nan() && !v.2.nan()
}

/// The squared length of a vector, in squared units of `Scalar::value`:
/// exact, where the floating-point sum of squares would round.
pub open spec fn norm_squared(v: Vec3) -> int {
    v.0.value() * v.0.value() + v.1.value() * v.1.value() + v.2.value() * v.2.value()
}

/// The vector lies in or on the unit sphere.
pub open spec fn in_unit_ball(v: Vec3) -> bool {
    numbers(v) && norm_squared(v) <= unit() * unit()
}

/// The number in `[0, 1)` that sixty-four bits stand for: their top
/// fifty-three, scaled by 2^-53. Uniform bits give a uniform number.
pub fn unit_interval(raw: u64) -> (u: Scalar)
    ensures
        !u.nan(),
        !u.negative(),
        u.value() == unit_interval_value(raw),
        0 <= u.value() < unit(),
{
    let k: u64 = raw >> 11;
    assert(k == raw / 2048 && k < 0x20_0000_0000_0000) by (bit_vector)
        requires
            k == raw >> 11,
    ;
    proof {
        lemma_pow2_adds(53, 1021);
        lemma2_to64_rest();
        lemma_pow2_pos(1021);
        assert(k * pow2(1021) < 0x20_0000_0000_0000 * pow2(1021)) by (nonlinear_arith)
            requires
                k < 0x20_0000_0000_0000,
                pow2(1021) > 0,
        ;
        assert(0 <= k * pow2(1021)) by (nonlinear_arith);
    }
    Scalar::dyadic(false, k, 1021)
}

/// The number in `[-1, 1)` that sixty-four bits stand for: twice the
/// number of the unit interval, less one, which is exact.
pub fn centered(raw: u64) -> (c: Scalar)
    ensures
        !c.nan(),
        c.negative() == (top_bits(raw) < FRACTION_RANGE),
        c.value() == centered_value(raw),
        -unit() <= c.value() < unit(),
{
    let k: u64 = raw >> 11;
    assert(k == raw / 2048 && k < 0x20_0000_0000_0000) by (bit_vector)
        requires
            k == raw >> 11,
    ;
    let negative = k < FRACTION_RANGE;
    let distance: u64 = if negative {
        FRACTION_RANGE - k
    } else {
        k - FRACTION_RANGE
    };
    proof {
        let p = pow2(1022) as int;
        let d = distance as int;
        lemma_pow2_adds(52, 1022);
        lemma2_to64_rest();
        lemma_pow2_pos(1022);
        assert(0 <= d * p <= FRACTION_RANGE * p && (d < FRACTION_RANGE ==> d * p < FRACTION_RANGE
            * p)) by (nonlinear_arith)
            requires
                0 <= d <= FRACTION_RANGE,
                p > 0,
        ;
        assert((k - FRACTION_RANGE) * p == if negative {
            -(d * p)
        } else {
            d * p
        }) by (nonlinear_arith)
            requires
                d == if negative {
                    FRACTION_RANGE - k
                } else {
                    k - FRACTION_RANGE
                },
        ;
    }
    Scalar::dyadic(negative, distance, 1022)
}

/// A uniform random number in `[0, 1)`.
pub fn scalar() -> (u: Scalar)
    ensures
        !u.nan(),
        0 <= u.value() < unit(),
{
    unit_interval(random_bits())
}

/// A random vector, each component uniform in `[0, 1)`.
pub fn vec3() -> (v: Vec3)
    ensures
        numbers(v),
        0 <= v.0.value() < unit(),
        0 <= v.1.value() < unit(),
        0 <= v.2.value() < unit(),
{
    Vec3(scalar(), scalar(), scalar())
}

/// The square of the distance of the top bits of a word from 2^52: the
/// square of `centered(raw)`, in units of 2^-104.
fn centered_square(raw: u64) -> (sq: u128)
    ensures
        sq == (top_bits(raw) - FRACTION_RANGE) * (top_bits(raw) - FRACTION_RANGE),
        sq <= 0x1_0000_0000_0000_0000_0000_0000_00,
{
    let k: u64 = raw >> 11;
    assert(k == raw / 2048 && k < 0x20_0000_0000_0000) by (bit_vector)
        requires
            k == raw >> 11,
    ;
    let distance: u64 = if k < FRACTION_RANGE {
        FRACTION_RANGE - k
    } else {
        k - FRACTION_RANGE
    };
    let wide: u128 = distance as u128;
    assert(wide * wide <= 0x1_0000_0000_0000_0000_0000_0000_00 && wide * wide == (k
        - FRACTION_RANGE) * (k - FRACTION_RANGE)) by (nonlinear_arith)
        requires
            wide <= 0x10_0000_0000_0000,
            wide == k - FRACTION_RANGE || wide == FRACTION_RANGE - k,
    ;
    wide * wide
}

/// One round of rejection sampling in the unit sphere, from three random
/// words: the candidate `(centered(x), centered(y), centered(z))` of the
/// cube around the sphere is kept where it lies in or on the sphere.
pub fn sphere_candidate(x: u64, y: u64, z: u64) -> (kept: Option<Vec3>)
    ensures
        kept is Some <==> centered_value(x) * centered_value(x) + centered_value(y)
            * centered_value(y) + centered_value(z) * centered_value(z) <= unit() * unit(),
        kept matches Some(v) ==> in_unit_ball(v) && v.0.value() == centered_value(x) && v.1.value()
            == centered_value(y) && v.2.value() == centered_value(z),
{
    let sum: u128 = centered_square(x) + centered_square(y) + centered_square(z);
    let v = Vec3(centered(x), centered(y), centered(z));
    proof {
        let a = top_bits(x) - FRACTION_RANGE;
        let b = top_bits(y) - FRACTION_RANGE;
        let c = top_bits(z) - FRACTION_RANGE;
        let p = pow2(1022) as int;
        lemma_pow2_adds(52, 1022);
        lemma2_to64_rest();
        lemma_pow2_pos(1022);
        assert(unit() == FRACTION_RANGE * p);
        assert((a * p) * (a * p) + (b * p) * (b * p) + (c * p) * (c * p) == (a * a + b * b + c * c)
            * (p * p)) by (nonlinear_arith);
        assert((FRACTION_RANGE * p) * (FRACTION_RANGE * p) == (FRACTION_RANGE * FRACTION_RANGE) * (
        p * p)) by (nonlinear_arith);
        assert(FRACTION_RANGE * FRACTION_RANGE == 0x1_0000_0000_0000_0000_0000_0000_00);
        let s = a * a + b * b + c * c;
        let q = p * p;
        let limit: int = 0x1_0000_0000_0000_0000_0000_0000_00;
        assert(s <= limit <==> s * q <= limit * q) by (nonlinear_arith)
            requires
                q == p * p,
                p > 0,
        ;
    }
    if sum <= 0x1_0000_0000_0000_0000_0000_0000_00 {
        Some(v)
    } else {
        None
    }
}

/// A random point in or on the unit sphere: the first of up to
/// `MAX_ROUNDS` candidates of the surrounding cube that lies there.
pub fn vec3_in_unit_sphere() -> (v: Vec3)
    ensures
        in_unit_ball(v),
{
    let mut round: usize = 0;
    while round < MAX_ROUNDS
        invariant
            round <= MAX_ROUNDS,
        decreases MAX_ROUNDS - round,
    {
        match sphere_candidate(random_bits(), random_bits(), random_bits()) {
            Some(v) => {
                return v;
            },
            None => {},
        }
        round += 1;
    }
    let origin = Vec3::zeros();
    assert(norm_squared(origin) == 0);
    assert(0 <= unit() * unit()) by (nonlinear_arith);
    origin
}

/// A centered number lies in `[-1, 1)`.
pub proof fn lemma_centered_value_range(raw: u64)
    ensures
        -unit() <= centered_value(raw) < unit(),
{
    let a = top_bits(raw) - FRACTION_RANGE;
    let p = pow2(1022) as int;
    lemma_pow2_adds(52, 1022);
    lemma2_to64_rest();
    lemma_pow2_pos(1022);
    assert(-(FRACTION_RANGE * p) <= a * p < FRACTION_RANGE * p) by (nonlinear_arith)
        requires
            -FRACTION_RANGE <= a < FRACTION_RANGE,
            p > 0,
    ;
}

/// One round of rejection sampling in the unit disc of the plane `z = 0`,
/// from two random words: the candidate `(centered(x), centered(y), 0)`
/// of the square around the disc is kept where it lies in or on the unit
/// circle.
pub fn disc_candidate(x: u64, y: u64) -> (kept: Option<Vec3>)
    ensures
        kept is Some <==> centered_value(x) * centered_value(x) + centered_value(y)
            * centered_value(y) <= unit() * unit(),
        kept matches Some(v) ==> in_unit_ball(v) && v.0.value() == centered_value(x) && v.1.value()
            == centered_value(y) && v.2.bits == 0,
{
    let sum: u128 = centered_square(x) + centered_square(y);
    let v = Vec3(centered(x), centered(y), Scalar::zero());
    proof {
        let a = top_bits(x) - FRACTION_RANGE;
        let b = top_bits(y) - FRACTION_RANGE;
        let p = pow2(1022) as int;
        lemma_pow2_adds(52, 1022);
        lemma2_to64_rest();
        lemma_pow2_pos(1022);
        assert(unit() == FRACTION_RANGE * p);
        assert((a * p) * (a * p) + (b * p) * (b * p) == (a * a + b * b) * (p * p))
            by (nonlinear_arith);
        assert((FRACTION_RANGE * p) * (FRACTION_RANGE * p) == (FRACTION_RANGE * FRACTION_RANGE) * (
        p * p)) by (nonlinear_arith);
        assert(FRACTION_RANGE * FRACTION_RANGE == 0x1_0000_0000_0000_0000_0000_0000_00);
        let s = a * a + b * b;
        let q = p * p;
        let limit: int = 0x1_0000_0000_0000_0000_0000_0000_00;
        assert(s <= limit <==> s * q <= limit * q) by (nonlinear_arith)
            requires
                q == p * p,
                p > 0,
        ;
    }
    if sum <= 0x1_0000_0000_0000_0000_0000_0000_00 {
        Some(v)
    } else {
        None
    }
}

/// A random point of the unit disc in the plane `z = 0`: the first of up
/// to `MAX_ROUNDS` candidates of the square around the disc that lies in
/// it. Both coordinates range over `[-1, 1)`.
pub fn vec3_in_unit_disc() -> (v: Vec3)
    ensures
        in_unit_ball(v),
        v.2.bits == 0,
        -unit() <= v.0.value() < unit(),
        -unit() <= v.1.value() < unit(),
{
    let mut round: usize = 0;
    while round < MAX_ROUNDS
        invariant
            round <= MAX_ROUNDS,
        decreases MAX_ROUNDS - round,
    {
        let x = random_bits();
        let y = random_bits();
        match disc_candidate(x, y) {
            Some(v) => {
                proof {
                    lemma_centered_value_range(x);
                    lemma_centered_value_range(y);
                }
                return v;
            },
            None => {},
        }
        round += 1;
    }
    let origin = Vec3::zeros();
    assert(norm_squared(origin) == 0);
    assert(0 <= unit() * unit()) by (nonlinear_arith);
    proof {
        lemma_pow2_pos(1074);
    }
    origin
}

/// A sample turned into the hemisphere about a normal: the sample itself
/// where `sample_dot_normal`, its dot product with the normal, is above
/// zero, else its opposite.
pub fn vec3_in_hemisphere(sample: Vec3, sample_dot_normal: Scalar) -> (v: Vec3)
    ensures
        v == if !sample_dot_normal.nan() && sample_dot_normal.value() > 0 {
            sample
        } else {
            sample.negated()
        },
{
    if sample_dot_normal.gt(Scalar::zero()) {
        sample
    } else {
        sample.neg()
    }
}

} // verus!
