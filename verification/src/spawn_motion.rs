//! Where the particles of a fresh cloud start and how they move, in numbers.

use vstd::prelude::*;
use vstd::arithmetic::div_mod::*;
use vstd::arithmetic::power2::*;
use crate::binary32;
use crate::binary32::{Binary32, ONE, ZERO};
use crate::estimate;
use crate::estimate::Estimate;
use crate::numbers;
use crate::numbers::{greater, lesser};
use crate::radii;
use crate::rounding;
use crate::rounding::{least, product, size, slack};
use crate::spawn;
use crate::spawn::{
    Sample, CENTER_CONCENTRATION_STRENGTH, INITIAL_TANGENTIAL_SPEED_MAX,
    INITIAL_TANGENTIAL_SPEED_MIN, SPAWN_RADIUS,
};
use crate::types::Particle;
use crate::verlet::is_near;

verus! {

/// A velocity along an axis, meant to be the sum of two products.
pub open spec fn velocity_estimate(a: Binary32, b: Binary32, c: Binary32, d: Binary32) -> Estimate {
    Estimate::of(a).times(Estimate::of(b)).plus(Estimate::of(c).times(Estimate::of(d)))
}

/// The sum of two products is near the exact one.
proof fn lemma_velocity(a: Binary32, b: Binary32, c: Binary32, d: Binary32)
    ensures
        is_near(
            a * b + c * d,
            product(a.number(), b.number()) + product(c.number(), d.number()),
            velocity_estimate(a, b, c, d).error,
        ),
{
    estimate::law_estimates_hold(Estimate::of(a), Estimate::of(b));
    estimate::law_estimates_hold(Estimate::of(c), Estimate::of(d));
    estimate::law_estimates_hold(
        Estimate::of(a).times(Estimate::of(b)),
        Estimate::of(c).times(Estimate::of(d)),
    );
}

/// A product is near the exact one.
proof fn lemma_product(a: Binary32, b: Binary32)
    ensures
        is_near(a * b, product(a.number(), b.number()), slack(a * b)),
{
    if (a * b).is_finite() {
        estimate::lemma_products_are_near(a, b);
    }
}

/// A particle starts at its distance in its direction. It moves at its tangential speed at a right
/// angle to that, to the right of the way out where it starts clockwise, on a screen whose vertical
/// axis points downward, and to the left otherwise; and at its radial speed outward. Its mass and
/// its brightness are what was drawn.
pub proof fn law_particles_start_in_their_direction(sample: Sample, clockwise: bool)
    requires
        sample.cosine.is_finite(),
        sample.sine.is_finite(),
    ensures
        ({
            let body = sample.body(clockwise);
            let (c, s) = (sample.cosine.number(), sample.sine.number());
            let (t, r) = (sample.tangential_speed.number(), sample.radial_speed.number());
            let turn = if clockwise {
                1 as real
            } else {
                -(1 as real)
            };
            let (right, down) = if clockwise {
                (sample.sine.opposite(), sample.cosine)
            } else {
                (sample.sine, sample.cosine.opposite())
            };
            &&& is_near(body.x, product(c, sample.distance.number()), slack(body.x))
            &&& is_near(body.y, product(s, sample.distance.number()), slack(body.y))
            &&& is_near(
                body.velocity_x,
                product(-(turn * s), t) + product(c, r),
                velocity_estimate(
                    right,
                    sample.tangential_speed,
                    sample.cosine,
                    sample.radial_speed,
                ).error,
            )
            &&& is_near(
                body.velocity_y,
                product(turn * c, t) + product(s, r),
                velocity_estimate(
                    down,
                    sample.tangential_speed,
                    sample.sine,
                    sample.radial_speed,
                ).error,
            )
            &&& body.mass == sample.mass
            &&& body.brightness == sample.brightness
        }),
{
    lemma_product(sample.cosine, sample.distance);
    lemma_product(sample.sine, sample.distance);
    let (back_c, back_s) = (sample.cosine.opposite(), sample.sine.opposite());
    binary32::lemma_opposite(sample.cosine);
    binary32::lemma_opposite(sample.sine);
    estimate::lemma_opposite_numbers(back_c, sample.cosine);
    estimate::lemma_opposite_numbers(back_s, sample.sine);
    let (c, s) = (sample.cosine.number(), sample.sine.number());
    assert(1 as real * c == c && 1 as real * s == s && -(1 as real) * c == -c && -(1 as real) * s
        == -s) by (nonlinear_arith);
    lemma_velocity(back_s, sample.tangential_speed, sample.cosine, sample.radial_speed);
    lemma_velocity(sample.cosine, sample.tangential_speed, sample.sine, sample.radial_speed);
    lemma_velocity(sample.sine, sample.tangential_speed, sample.cosine, sample.radial_speed);
    lemma_velocity(back_c, sample.tangential_speed, sample.sine, sample.radial_speed);
}

/// The first so many particles of a cloud start clockwise and all others counterclockwise, in the
/// order of the samples.
pub proof fn law_the_first_particles_start_clockwise(
    samples: Seq<Sample>,
    clockwise: int,
    position: int,
)
    requires
        0 <= position < samples.len(),
    ensures
        spawn::spawned(samples, clockwise).len() == samples.len(),
        position < clockwise ==> spawn::spawned(samples, clockwise)[position]
            == samples[position].body(true),
        position >= clockwise ==> spawn::spawned(samples, clockwise)[position]
            == samples[position].body(false),
{
}

/// A particle of a compute device starts alive, as the body that it is made of.
pub proof fn law_device_particles_start_alive(sample: Sample, clockwise: bool)
    ensures
        ({
            let particle = Particle::alive_with(sample.body(clockwise));
            &&& particle.alive == 1
            &&& particle.padding == 0
            &&& particle.body() == sample.body(clockwise)
        }),
{
}

/// The distance of a particle from the centre before it is scaled, meant to lie three quarters of
/// the way from the root of the fraction to the biased fraction.
pub open spec fn distance_estimate(fraction: Binary32, biased: Binary32, root: real) -> Estimate {
    let r = radii::root_estimate(fraction, root);
    r.plus(
        Estimate::of(biased).minus(r).times(
            Estimate::of(Binary32::from_bits(CENTER_CONCENTRATION_STRENGTH)),
        ),
    ).times(Estimate::of(Binary32::from_bits(SPAWN_RADIUS)))
}

/// A particle starts at 1200 times a fraction of the way out: three quarters of the way from the
/// root of the random fraction, which spreads particles evenly over the disk, to the biased one.
pub proof fn law_distances_are_concentrated(fraction: Binary32, biased: Binary32, root: real)
    requires
        fraction.is_finite(),
        radii::is_root(root, fraction.number()),
    ensures
        is_near(
            spawn::sample_spawn_distance(fraction, biased),
            product(root + product(biased.number() - root, 3 as real / 4 as real), 1200 as real),
            distance_estimate(fraction, biased, root).error,
        ),
{
    let r = radii::root_estimate(fraction, root);
    let b = Estimate::of(biased);
    let strength = Estimate::of(Binary32::from_bits(CENTER_CONCENTRATION_STRENGTH));
    let radius = Estimate::of(Binary32::from_bits(SPAWN_RADIUS));
    radii::law_roots_are_near_real_roots(fraction, root);
    estimate::law_estimates_hold(b, r);
    estimate::law_estimates_hold(b.minus(r), strength);
    estimate::law_estimates_hold(r, b.minus(r).times(strength));
    estimate::law_estimates_hold(r.plus(b.minus(r).times(strength)), radius);
    lemma2_to64();
    numbers::lemma_bits(CENTER_CONCENTRATION_STRENGTH, 24, 0x100_0000);
    numbers::lemma_bits(SPAWN_RADIUS, 13, 0x2000);
}

/// A tangential speed, meant to be 6 and 14 times the factor.
pub open spec fn speed_estimate(factor: Estimate) -> Estimate {
    let (slow, fast) = (
        Estimate::of(Binary32::from_bits(INITIAL_TANGENTIAL_SPEED_MIN)),
        Estimate::of(Binary32::from_bits(INITIAL_TANGENTIAL_SPEED_MAX)),
    );
    slow.plus(fast.minus(slow).times(factor))
}

/// A tangential speed is near what it is meant to be.
proof fn lemma_speed(factor: Estimate)
    requires
        factor.holds(),
    ensures
        speed_estimate(factor).holds(),
        speed_estimate(factor).computed == spawn::initial_tangential_speed(factor.computed),
        speed_estimate(factor).exact == 6 as real + product(14 as real, factor.exact),
{
    let (slow, fast) = (
        Estimate::of(Binary32::from_bits(INITIAL_TANGENTIAL_SPEED_MIN)),
        Estimate::of(Binary32::from_bits(INITIAL_TANGENTIAL_SPEED_MAX)),
    );
    estimate::law_estimates_hold(fast, slow);
    estimate::law_estimates_hold(fast.minus(slow), factor);
    estimate::law_estimates_hold(slow, fast.minus(slow).times(factor));
    lemma2_to64();
    numbers::lemma_bits(INITIAL_TANGENTIAL_SPEED_MIN, 21, 0x20_0000);
    numbers::lemma_bits(INITIAL_TANGENTIAL_SPEED_MAX, 19, 0x8_0000);
}

/// The tangential speed grows with its factor from 6 at the centre to 20 at the edge.
pub proof fn law_speeds_grow_outward(factor: Binary32)
    ensures
        is_near(
            spawn::initial_tangential_speed(factor),
            6 as real + product(14 as real, factor.number()),
            speed_estimate(Estimate::of(factor)).error,
        ),
{
    lemma_speed(Estimate::of(factor));
}

/// On a graphics device the factor is the root of how far out the particle starts, over 1200.
pub proof fn law_speeds_grow_with_the_root_of_the_distance(distance: Binary32, root: real)
    requires
        distance.is_finite(),
        (distance / Binary32::from_bits(SPAWN_RADIUS)).is_finite(),
        radii::is_root(root, (distance / Binary32::from_bits(SPAWN_RADIUS)).number()),
    ensures
        is_near(
            spawn::initial_tangential_speed((distance / Binary32::from_bits(SPAWN_RADIUS)).root()),
            6 as real + product(14 as real, root),
            speed_estimate(
                radii::root_estimate(distance / Binary32::from_bits(SPAWN_RADIUS), root),
            ).error,
        ),
        size(
            product((distance / Binary32::from_bits(SPAWN_RADIUS)).number(), 1200 as real)
                - distance.number(),
        ) <= product(slack(distance / Binary32::from_bits(SPAWN_RADIUS)), 1200 as real),
{
    let out = distance / Binary32::from_bits(SPAWN_RADIUS);
    radii::law_roots_are_near_real_roots(out, root);
    lemma_speed(radii::root_estimate(out, root));
    lemma2_to64();
    numbers::lemma_bits(SPAWN_RADIUS, 13, 0x2000);
    estimate::lemma_quotients_are_near(distance, Binary32::from_bits(SPAWN_RADIUS));
}

/// The normalized radius is the distance over 1200, up to rounding, from zero to one.
pub proof fn law_radii_are_normalized(distance: Binary32)
    requires
        distance.is_finite(),
        (distance / Binary32::from_bits(SPAWN_RADIUS)).is_finite(),
    ensures
        ({
            let out = distance / Binary32::from_bits(SPAWN_RADIUS);
            &&& out.clamp(Binary32::from_bits(ZERO), Binary32::from_bits(ONE)).number() == lesser(
                greater(out.number(), 0 as real),
                1 as real,
            )
            &&& size(product(out.number(), 1200 as real) - distance.number()) <= product(
                slack(out),
                1200 as real,
            )
        }),
{
    let out = distance / Binary32::from_bits(SPAWN_RADIUS);
    numbers::law_plain_numbers();
    numbers::law_clamped(out, Binary32::from_bits(ZERO), Binary32::from_bits(ONE));
    lemma2_to64();
    numbers::lemma_bits(SPAWN_RADIUS, 13, 0x2000);
    estimate::lemma_quotients_are_near(distance, Binary32::from_bits(SPAWN_RADIUS));
}

/// The whole number nearest to a number lies no more than one half away, as long as there is room
/// for it.
pub proof fn law_nearest_whole_numbers_are_near(number: Binary32, top: nat)
    requires
        number.is_finite(),
        number.number() >= 0 as real,
        number.number() <= top as real,
    ensures
        number.nearest_whole(top) <= top,
        size(number.nearest_whole(top) as real - number.number()) <= 1 as real / 2 as real,
{
    rounding::lemma_least();
    let (u, w) = (number.units(), pow2(149));
    lemma_pow2_pos(149);
    lemma_pow2_unfold(150);
    let e = least();
    let v = number.value() as real;
    if number.is_negative() {
        assert(v * e <= 0 as real) by (nonlinear_arith)
            requires
                v <= 0 as real,
                e > 0 as real,
        ;
    } else {
        let n = (2 * u + w) / (2 * w);
        lemma_fundamental_div_mod((2 * u + w) as int, (2 * w) as int);
        lemma_mod_bound((2 * u + w) as int, (2 * w) as int);
        let rest = (2 * u + w) % (2 * w);
        let (ur, wr, nr, rr) = (u as real, w as real, n as real, rest as real);
        assert((2 * w * n) as real == 2 as real * wr * nr) by (nonlinear_arith)
            requires
                wr == w as real,
                nr == n as real,
        ;
        assert(2 as real * ur + wr == 2 as real * wr * nr + rr);
        let x = ur * e;
        assert(2 as real * x + 1 as real == 2 as real * nr + rr * e) by (nonlinear_arith)
            requires
                2 as real * ur + wr == 2 as real * wr * nr + rr,
                x == ur * e,
                e * wr == 1 as real,
        ;
        assert(0 as real <= rr * e && rr * e < 2 as real) by (nonlinear_arith)
            requires
                0 as real <= rr,
                rr < 2 as real * wr,
                e * wr == 1 as real,
                e > 0 as real,
        ;
        assert(x == number.number());
        assert(nr < top as real + 1 as real);
        assert(n <= top);
    }
}

/// So many particles start clockwise as the fraction of them says, to the nearest whole number, up
/// to rounding.
pub proof fn law_the_share_of_the_clockwise_is_nearest(count: nat, fraction: Binary32)
    requires
        count <= 0x100_0000,
        fraction.is_finite(),
        !fraction.is_negative(),
        fraction.number() <= 1 as real,
    ensures
        size(
            spawn::clockwise_share(count, fraction) as real - product(
                count as real,
                fraction.number(),
            ),
        ) <= 1 as real / 2 as real + slack(Binary32::counted(count) * fraction),
{
    let all = Binary32::counted(count);
    let part = all * fraction;
    numbers::law_counts_are_exact(count);
    numbers::law_plain_numbers();
    let (zero, one) = (Binary32::from_bits(ZERO), Binary32::from_bits(ONE));
    numbers::law_comparisons_order_numbers(fraction, one);
    assert(crate::magnitude::units(0) == 0 * pow2(0));
    assert(zero.at_most(fraction));
    numbers::law_comparisons_order_numbers(zero, all);
    assert(!all.is_negative()) by {
        let code = binary32::lemma_short_magnitude(count, 149);
        crate::magnitude::lemma_round_exact(code);
        binary32::lemma_signed(false, code);
    }
    binary32::law_multiplication_keeps_order(all, fraction, one);
    binary32::law_multiplying_by_one(all);
    binary32::law_multiplication_keeps_order(all, zero, fraction);
    binary32::law_multiplying_by_zero(zero, all);
    binary32::law_multiplication_commutes(zero, all);
    assert(crate::magnitude::units(0) == 0 * pow2(0));
    binary32::law_finite_products_are_numbers(all, fraction);
    assert(part.is_finite()) by {
        if !part.is_finite() {
            crate::magnitude::lemma_units_order(all.magnitude() as nat, part.magnitude() as nat);
            crate::magnitude::lemma_units_order(0, part.magnitude() as nat);
        }
    }
    numbers::law_comparisons_order_numbers(part, all);
    numbers::law_comparisons_order_numbers(zero, part);
    estimate::lemma_products_are_near(all, fraction);
    assert(usize::MAX >= 0x100_0000);
    law_nearest_whole_numbers_are_near(part, usize::MAX as nat);
}

} // verus!
