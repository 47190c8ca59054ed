//! What ranges the particles of a fresh cloud lie in, for whatever is drawn for them.

use vstd::prelude::*;
use vstd::arithmetic::power2::*;
use crate::binary32;
use crate::binary32::{Binary32, ONE, ZERO};
use crate::bodies;
use crate::magnitude;
use crate::spawn;
use crate::spawn::{
    Sample, INITIAL_RADIAL_SPEED_MAX, INITIAL_TANGENTIAL_SPEED_MAX, INITIAL_TANGENTIAL_SPEED_MIN,
    MAX_PARTICLE_MASS, MIN_PARTICLE_BRIGHTNESS, MIN_PARTICLE_MASS, SPAWN_RADIUS,
};
use crate::types::Particle;

verus! {

/// A finite number that is no larger than another one, whatever its sign.
pub open spec fn is_within(x: Binary32, limit: Binary32) -> bool {
    x.is_finite() && x.units() <= limit.units()
}

/// A number lies between two others or is one of them.
pub open spec fn is_between(x: Binary32, low: u32, high: u32) -> bool {
    Binary32::from_bits(low).at_most(x) && x.at_most(Binary32::from_bits(high))
}

impl Sample {
    /// All that was drawn lies in its range.
    pub open spec fn is_drawn(self) -> bool {
        &&& is_within(self.cosine, Binary32::from_bits(ONE))
        &&& is_within(self.sine, Binary32::from_bits(ONE))
        &&& !self.distance.is_negative()
        &&& is_within(self.distance, Binary32::from_bits(SPAWN_RADIUS))
        &&& is_between(
            self.tangential_speed,
            INITIAL_TANGENTIAL_SPEED_MIN,
            INITIAL_TANGENTIAL_SPEED_MAX,
        )
        &&& is_within(self.radial_speed, Binary32::from_bits(INITIAL_RADIAL_SPEED_MAX))
        &&& is_between(self.mass, MIN_PARTICLE_MASS, MAX_PARTICLE_MASS)
        &&& is_between(self.brightness, MIN_PARTICLE_BRIGHTNESS, ONE)
    }
}

/// A number that is not negative and at the most a finite one lies within it.
proof fn lemma_at_most_is_within(x: Binary32, limit: Binary32)
    requires
        !x.is_negative(),
        x.at_most(limit),
        limit.is_finite(),
    ensures
        is_within(x, limit),
{
    binary32::law_at_most_a_finite_number(x, limit);
}

/// A sample lies in its ranges where what it is made of does: a direction, two fractions for the
/// distance, one for the tangential speed, and the draws of the radial speed, the mass and the
/// brightness.
pub proof fn law_draws_in_range_give_samples_in_range(
    cosine: Binary32,
    sine: Binary32,
    fraction: Binary32,
    biased: Binary32,
    factor: Binary32,
    radial_speed: Binary32,
    mass: Binary32,
    brightness: Binary32,
)
    requires
        is_within(cosine, Binary32::from_bits(ONE)),
        is_within(sine, Binary32::from_bits(ONE)),
        !fraction.is_negative() && fraction.at_most(Binary32::from_bits(ONE)),
        !biased.is_negative() && biased.at_most(Binary32::from_bits(ONE)),
        !factor.is_negative() && factor.at_most(Binary32::from_bits(ONE)),
        is_within(radial_speed, Binary32::from_bits(INITIAL_RADIAL_SPEED_MAX)),
        is_between(mass, MIN_PARTICLE_MASS, MAX_PARTICLE_MASS),
        is_between(brightness, MIN_PARTICLE_BRIGHTNESS, ONE),
    ensures
        (Sample {
            cosine,
            sine,
            distance: spawn::sample_spawn_distance(fraction, biased),
            tangential_speed: spawn::initial_tangential_speed(factor),
            radial_speed,
            mass,
            brightness,
        }).is_drawn(),
{
    spawn::law_particles_start_inside_the_disk(fraction, biased);
    lemma_at_most_is_within(
        spawn::sample_spawn_distance(fraction, biased),
        Binary32::from_bits(SPAWN_RADIUS),
    );
    spawn::law_tangential_speed_is_in_range(factor);
}

/// A part of a number is no larger than the number, whatever their signs.
proof fn lemma_part_is_within(part: Binary32, a: Binary32)
    requires
        is_within(part, Binary32::from_bits(ONE)),
        a.is_finite(),
    ensures
        is_within(part * a, a),
{
    let size = if part.is_negative() {
        part.opposite()
    } else {
        part
    };
    binary32::lemma_opposite(part);
    binary32::law_multiplication_commutes(part, a);
    assert(size.at_most(Binary32::from_bits(ONE)));
    binary32::law_parts_are_no_larger(a, size);
    if part.is_negative() {
        binary32::law_products_with_opposites(a, part);
        magnitude::lemma_units_order(
            (a * size).magnitude() as nat,
            (a * part).magnitude() as nat,
        );
    }
}

/// The sum of two numbers within limits lies within the sum of the limits.
proof fn lemma_sum_is_within(a: Binary32, b: Binary32, m: Binary32, n: Binary32)
    requires
        m.is_finite(),
        n.is_finite(),
        !m.is_negative(),
        !n.is_negative(),
        (m + n).is_finite(),
        is_within(a, m),
        is_within(b, n),
    ensures
        is_within(a + b, m + n),
{
    let (p, q) = (m.opposite(), n.opposite());
    binary32::lemma_opposite(m);
    binary32::lemma_opposite(n);
    binary32::law_addition_keeps_order(a, b, n);
    binary32::law_addition_commutes(a, n);
    binary32::law_addition_commutes(m, n);
    binary32::law_addition_keeps_order(n, a, m);
    binary32::law_addition_keeps_order(a, q, b);
    binary32::law_addition_commutes(a, q);
    binary32::law_addition_commutes(p, q);
    binary32::law_addition_keeps_order(q, p, a);
    binary32::lemma_rounded_sum(m, n);
    binary32::lemma_rounded_sum(p, q);
    binary32::lemma_rounded_sum(a, b);
    assert(magnitude::units(0) == 0 * pow2(0));
    magnitude::lemma_round_exact(0);
    assert((p + q).value() == -(m + n).value());
    assert(m.value() >= 0 && n.value() >= 0);
    assert((m + n).value() >= 0);
    magnitude::lemma_units_order(
        (a + b).magnitude() as nat,
        (m + n).magnitude() as nat,
    );
}

/// The largest speeds together are finite.
proof fn lemma_speeds_are_finite()
    ensures
        (Binary32::from_bits(INITIAL_TANGENTIAL_SPEED_MAX) + Binary32::from_bits(
            INITIAL_RADIAL_SPEED_MAX,
        )).is_finite(),
        !(Binary32::from_bits(INITIAL_TANGENTIAL_SPEED_MAX) + Binary32::from_bits(
            INITIAL_RADIAL_SPEED_MAX,
        )).is_nan(),
{
    let (fast, radial) = (
        Binary32::from_bits(INITIAL_TANGENTIAL_SPEED_MAX),
        Binary32::from_bits(INITIAL_RADIAL_SPEED_MAX),
    );
    let zero = Binary32::from_bits(ZERO);
    let twice = Binary32::from_bits(0x4220_0000);
    lemma2_to64();
    lemma_pow2_adds(130, 1);
    assert(fast.units() == 0xA0_0000 * pow2(130));
    assert(twice.units() == 0xA0_0000 * pow2(131));
    binary32::law_bits_order_numbers(radial, fast);
    binary32::law_bits_order_numbers(zero, radial);
    binary32::law_bounded_sums_stay_bounded(fast, radial, twice);
    binary32::lemma_rounded_sum(fast, radial);
    assert(magnitude::units(0) == 0 * pow2(0));
    magnitude::lemma_units_order(
        (fast + radial).magnitude() as nat,
        twice.magnitude() as nat,
    );
}

/// The body that a sample in range describes lies in the disk's square, moves no faster along
/// either axis than the largest speeds together, and has the mass and the brightness that were
/// drawn.
pub proof fn law_drawn_bodies_are_in_range(sample: Sample, clockwise: bool)
    requires
        sample.is_drawn(),
    ensures
        ({
            let body = sample.body(clockwise);
            let limit = Binary32::from_bits(INITIAL_TANGENTIAL_SPEED_MAX) + Binary32::from_bits(
                INITIAL_RADIAL_SPEED_MAX,
            );
            &&& is_within(body.x, Binary32::from_bits(SPAWN_RADIUS))
            &&& is_within(body.y, Binary32::from_bits(SPAWN_RADIUS))
            &&& is_within(body.velocity_x, limit)
            &&& is_within(body.velocity_y, limit)
            &&& is_between(body.mass, MIN_PARTICLE_MASS, MAX_PARTICLE_MASS)
            &&& is_between(body.brightness, MIN_PARTICLE_BRIGHTNESS, ONE)
        }),
{
    let (fast, radial) = (
        Binary32::from_bits(INITIAL_TANGENTIAL_SPEED_MAX),
        Binary32::from_bits(INITIAL_RADIAL_SPEED_MAX),
    );
    let slow = Binary32::from_bits(INITIAL_TANGENTIAL_SPEED_MIN);
    lemma_part_is_within(sample.cosine, sample.distance);
    lemma_part_is_within(sample.sine, sample.distance);
    binary32::law_bits_order_numbers(Binary32::from_bits(ZERO), slow);
    assert(magnitude::units(0) == 0 * pow2(0));
    assert(is_within(sample.tangential_speed, fast)) by {
        magnitude::lemma_units_order(
            sample.tangential_speed.magnitude() as nat,
            fast.magnitude() as nat,
        );
    }
    let (back_c, back_s) = (sample.cosine.opposite(), sample.sine.opposite());
    binary32::lemma_opposite(sample.cosine);
    binary32::lemma_opposite(sample.sine);
    lemma_part_is_within(sample.cosine, sample.tangential_speed);
    lemma_part_is_within(sample.sine, sample.tangential_speed);
    lemma_part_is_within(back_c, sample.tangential_speed);
    lemma_part_is_within(back_s, sample.tangential_speed);
    lemma_part_is_within(sample.cosine, sample.radial_speed);
    lemma_part_is_within(sample.sine, sample.radial_speed);
    lemma_speeds_are_finite();
    let (tx, ty) = if clockwise {
        (back_s, sample.cosine)
    } else {
        (sample.sine, back_c)
    };
    lemma_sum_is_within(
        tx * sample.tangential_speed,
        sample.cosine * sample.radial_speed,
        fast,
        radial,
    );
    lemma_sum_is_within(
        ty * sample.tangential_speed,
        sample.sine * sample.radial_speed,
        fast,
        radial,
    );
}

/// The mass and the brightness of a body lie in the ranges that they are drawn from.
pub open spec fn is_fresh(mass: Binary32, brightness: Binary32) -> bool {
    &&& is_between(mass, MIN_PARTICLE_MASS, MAX_PARTICLE_MASS)
    &&& is_between(brightness, MIN_PARTICLE_BRIGHTNESS, ONE)
}

/// The bodies of a fresh cloud have masses and brightness in range, also when they are seen from
/// their centre of mass.
pub proof fn law_fresh_bodies_are_in_range(samples: Seq<Sample>, clockwise: int, position: int)
    requires
        forall|i: int| 0 <= i < samples.len() ==> (#[trigger] samples[i]).is_drawn(),
        0 <= position < samples.len(),
    ensures
        ({
            let all = spawn::spawned(samples, clockwise);
            let (one, other) = (all[position], bodies::centred(all)[position]);
            &&& is_fresh(one.mass, one.brightness)
            &&& is_fresh(other.mass, other.brightness)
        }),
{
    assert(samples[position].is_drawn());
}

/// The particles of a fresh cloud on a compute device live and have masses and brightness in
/// range.
pub proof fn law_fresh_particles_are_in_range(samples: Seq<Sample>, clockwise: int, position: int)
    requires
        forall|i: int| 0 <= i < samples.len() ==> (#[trigger] samples[i]).is_drawn(),
        0 <= position < samples.len(),
    ensures
        ({
            let all = samples.map(
                |i: int, sample: Sample| Particle::alive_with(sample.body(i < clockwise)),
            );
            let particle = spawn::recentred(all)[position];
            &&& particle.alive == 1
            &&& is_fresh(particle.mass, particle.brightness)
        }),
{
    assert(samples[position].is_drawn());
}

} // verus!
