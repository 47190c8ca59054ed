//! Softening keeps distances away from zero: short of overflow, no inverse distance is infinite or
//! no number.

use vstd::prelude::*;
use vstd::arithmetic::mul::*;
use vstd::arithmetic::power2::*;
use crate::binary32;
use crate::binary32::{Binary32, ONE, ZERO};
use crate::bodies;
use crate::bodies::{Body, GRAVITY_SOFTENING};
use crate::bodies_balance;
use crate::magnitude;
use crate::rounding;
use crate::simd_estimate;
use crate::types::{Particle, SimParams};

verus! {

/// The code of a power of two, in units.
proof fn lemma_power_code(k: nat) -> (code: nat)
    requires
        23 <= k <= 276,
    ensures
        code < magnitude::INFINITY,
        magnitude::units(code) == pow2(k),
{
    lemma2_to64();
    let q = (k - 23) as nat;
    magnitude::lemma_assembled(0x80_0000, q);
    lemma_pow2_adds(23, q);
    q * 0x80_0000 + 0x80_0000
}

/// The root of a finite number greater than zero is neither too small nor too large.
proof fn lemma_root_in_range(s: Binary32)
    requires
        s.is_finite(),
        s.value() > 0,
    ensures
        s.root().is_finite(),
        !s.root().is_negative(),
        s.root().units() >= pow2(74),
{
    let n = s.units() * pow2(149);
    let code = magnitude::round_root(n);
    magnitude::lemma_root_exists(n);
    assert(magnitude::units(0) == 0 * pow2(0));
    assert(s.root() == Binary32::signed(false, code)) by {
        reveal(Binary32::root);
    }
    let low = lemma_power_code(74);
    let high = lemma_power_code(213);
    magnitude::lemma_root_exact(low);
    magnitude::lemma_root_exact(high);
    let (a, b) = (
        magnitude::units(low) * magnitude::units(low),
        magnitude::units(high) * magnitude::units(high),
    );
    magnitude::lemma_root_exists(a);
    magnitude::lemma_root_exists(b);
    lemma_pow2_adds(74, 74);
    lemma_pow2_adds(213, 213);
    lemma_pow2_strictly_increases(148, 149);
    assert(pow2(149) <= n) by {
        lemma_mul_inequality(1, s.units() as int, pow2(149) as int);
    }
    assert(n <= pow2(426)) by {
        lemma2_to64();
        magnitude::lemma_units_order(s.magnitude() as nat, magnitude::INFINITY as nat);
        lemma_pow2_adds(23, 254);
        assert(magnitude::units(magnitude::INFINITY as nat) == 0x80_0000 * pow2(254));
        lemma_pow2_adds(277, 149);
        lemma_mul_inequality(s.units() as int, pow2(277) as int, pow2(149) as int);
    }
    magnitude::lemma_root_monotone(a, low, n, code);
    magnitude::lemma_root_monotone(n, code, b, high);
    binary32::lemma_signed(false, code);
    magnitude::lemma_units_order(code, low);
}

/// The inverse of a number that is not too small is finite.
proof fn lemma_inverse_in_range(r: Binary32)
    requires
        r.is_finite(),
        !r.is_negative(),
        r.units() >= pow2(74),
    ensures
        (Binary32::from_bits(ONE) / r).is_finite(),
{
    let one = Binary32::from_bits(ONE);
    let p = pow2(149);
    lemma_pow2_pos(74);
    lemma_pow2_pos(149);
    assert(magnitude::units(0) == 0 * pow2(0));
    assert(one.units() == pow2(149)) by {
        lemma2_to64();
        lemma_pow2_adds(23, 126);
        assert(magnitude::quantum(0x3F80_0000) == 126);
        assert(magnitude::significand(0x3F80_0000) == 0x80_0000);
    }
    let n = p * p;
    let d = r.units();
    let code = magnitude::round(n, d);
    magnitude::lemma_round_exists(n, d);
    assert(one / r == Binary32::signed(false, code)) by {
        reveal(Binary32::spec_euclidean_or_real_div);
    }
    let high = lemma_power_code(224);
    magnitude::lemma_round_exact(high);
    magnitude::lemma_round_exists(pow2(224), 1);
    lemma_pow2_adds(149, 149);
    lemma_pow2_adds(224, 74);
    assert(pow2(224) * pow2(74) <= pow2(224) * d) by {
        lemma_mul_inequality(pow2(74) as int, d as int, pow2(224) as int);
        lemma_mul_is_commutative(pow2(224) as int, pow2(74) as int);
        lemma_mul_is_commutative(pow2(224) as int, d as int);
    }
    magnitude::lemma_round_monotone(n, d, code, pow2(224), 1, high);
    binary32::lemma_signed(false, code);
}

/// The root of a finite number greater than zero, and the inverse of that root, are finite.
pub proof fn law_inverse_roots_are_finite(s: Binary32)
    requires
        s.is_finite(),
        s.value() > 0,
    ensures
        s.root().is_finite(),
        (Binary32::from_bits(ONE) / s.root()).is_finite(),
{
    lemma_root_in_range(s);
    lemma_inverse_in_range(s.root());
}

/// A finite square is not negative.
pub proof fn law_squares_are_not_negative(a: Binary32)
    requires
        (a * a).is_finite(),
    ensures
        (a * a).value() >= 0,
{
    rounding::law_products_are_near(a, a);
    let code = magnitude::round(a.units() * a.units(), pow2(149));
    lemma_pow2_pos(149);
    magnitude::lemma_round_exists(a.units() * a.units(), pow2(149));
    assert(a * a == Binary32::signed(false, code)) by {
        reveal(Binary32::spec_mul);
    }
    binary32::lemma_signed(false, code);
}

/// Adding something that is not negative makes nothing less.
proof fn lemma_sum_is_no_less(a: Binary32, b: Binary32)
    requires
        (a + b).is_finite(),
        b.value() >= 0,
    ensures
        a.is_finite(),
        b.is_finite(),
        (a + b).value() >= a.value(),
{
    let zero = Binary32::from_bits(ZERO);
    rounding::law_sums_are_near(a, b);
    assert(magnitude::units(0) == 0 * pow2(0));
    assert(zero.at_most(b));
    binary32::law_addition_keeps_order(a, zero, b);
    binary32::law_adding_zero(a, zero);
}

/// A softened square of a distance that does not overflow is greater than zero, in whatever order
/// it is added up.
pub proof fn law_softened_squares_are_positive(dx: Binary32, dy: Binary32, softening: Binary32)
    requires
        softening.value() > 0,
    ensures
        (dx * dx + dy * dy + softening).is_finite() ==> (dx * dx + dy * dy + softening).value() > 0,
        (dx * dx + (dy * dy + softening)).is_finite() ==> (dx * dx + (dy * dy + softening)).value()
            > 0,
{
    let (xx, yy) = (dx * dx, dy * dy);
    if (xx + yy + softening).is_finite() {
        rounding::law_sums_are_near(xx + yy, softening);
        rounding::law_sums_are_near(xx, yy);
        law_squares_are_not_negative(dx);
        law_squares_are_not_negative(dy);
        lemma_sum_is_no_less(xx, yy);
        binary32::law_addition_commutes(xx + yy, softening);
        lemma_sum_is_no_less(softening, xx + yy);
    }
    if (xx + (yy + softening)).is_finite() {
        rounding::law_sums_are_near(xx, yy + softening);
        rounding::law_sums_are_near(yy, softening);
        law_squares_are_not_negative(dx);
        law_squares_are_not_negative(dy);
        binary32::law_addition_commutes(yy, softening);
        lemma_sum_is_no_less(softening, yy);
        binary32::law_addition_commutes(xx, yy + softening);
        lemma_sum_is_no_less(yy + softening, xx);
    }
}

/// With softening greater than zero, the inverse distance of two particles of a compute device is
/// finite wherever the softened square of their distance does not overflow: also where the two
/// are in one place.
pub proof fn law_device_inverse_distances_are_finite(a: Particle, b: Particle, params: SimParams)
    requires
        params.softening_squared.value() > 0,
        ({
            let dx = b.x - a.x;
            let dy = b.y - a.y;
            (dx * dx + dy * dy + params.softening_squared).is_finite()
        }),
    ensures
        a.inverse_distance(b, params).is_finite(),
{
    let dx = b.x - a.x;
    let dy = b.y - a.y;
    law_softened_squares_are_positive(dx, dy, params.softening_squared);
    law_inverse_roots_are_finite(dx * dx + dy * dy + params.softening_squared);
}

/// The square of the softening length is greater than zero.
proof fn lemma_softening_is_positive()
    ensures
        bodies::softening_squared().value() > 0,
{
    let three = Binary32::from_bits(GRAVITY_SOFTENING);
    let (zero, one) = (Binary32::from_bits(ZERO), Binary32::from_bits(ONE));
    binary32::law_bits_order_numbers(zero, three);
    binary32::law_bits_order_numbers(one, three);
    assert(magnitude::units(0) == 0 * pow2(0));
    binary32::law_multiplication_keeps_order(three, one, three);
    binary32::law_multiplying_by_one(three);
}

/// The inverse distance of two bodies is finite wherever the softened square of their distance
/// does not overflow, in whatever order it is added up: also where the two are in one place.
pub proof fn law_inverse_distances_are_finite(a: Body, b: Body)
    ensures
        bodies_balance::softened(a, b).is_finite() ==> bodies_balance::softened(
            a,
            b,
        ).root().is_finite() && bodies_balance::inverse_of(
            bodies_balance::softened(a, b),
        ).is_finite(),
        simd_estimate::lane_softened(a, b).is_finite() ==> simd_estimate::lane_softened(
            a,
            b,
        ).root().is_finite() && bodies_balance::inverse_of(
            simd_estimate::lane_softened(a, b),
        ).is_finite(),
{
    let (dx, dy) = a.towards(b);
    lemma_softening_is_positive();
    law_softened_squares_are_positive(dx, dy, bodies::softening_squared());
    if bodies_balance::softened(a, b).is_finite() {
        law_inverse_roots_are_finite(bodies_balance::softened(a, b));
    }
    if simd_estimate::lane_softened(a, b).is_finite() {
        law_inverse_roots_are_finite(simd_estimate::lane_softened(a, b));
    }
}

} // verus!
