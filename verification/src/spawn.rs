//! The cloud that a simulation starts from.
//!
//! Random numbers, powers, sines and cosines come from the caller; everything that is computed
//! from them is here.

use vstd::prelude::*;
use vstd::arithmetic::power2::*;
use crate::binary32;
use crate::binary32::{Binary32, ONE, ZERO};
use crate::bodies;
use crate::bodies::{Body, Coordinate};
use crate::types::Particle;

verus! {

/// The radius of the disk that the particles start in: 1200.
pub const SPAWN_RADIUS: u32 = 0x4496_0000;

/// How strongly the cloud is concentrated toward its centre: 0.75, where zero is uniform density
/// over the disk and one is the full bias toward the centre.
pub const CENTER_CONCENTRATION_STRENGTH: u32 = 0x3F40_0000;

/// The exponent of the distribution that is biased toward the centre: 1.4.
pub const CENTER_CONCENTRATION_EXPONENT: u32 = 0x3FB3_3333;

/// The weights of the two directions of rotation on a compute device: 0.8 and 0.2.
pub const DEVICE_CLOCKWISE_ROTATION_WEIGHT: u32 = 0x3F4C_CCCD;

pub const DEVICE_COUNTERCLOCKWISE_ROTATION_WEIGHT: u32 = 0x3E4C_CCCD;

/// The weights of the two directions of rotation elsewhere: one and zero.
pub const CLOCKWISE_ROTATION_WEIGHT: u32 = 0x3F80_0000;

pub const COUNTERCLOCKWISE_ROTATION_WEIGHT: u32 = 0;

/// The tangential speed at the centre: 6.
pub const INITIAL_TANGENTIAL_SPEED_MIN: u32 = 0x40C0_0000;

/// The tangential speed at the edge: 20.
pub const INITIAL_TANGENTIAL_SPEED_MAX: u32 = 0x41A0_0000;

/// The exponent of the tangential speed's increase with the radius on a compute device: one.
pub const DEVICE_TANGENTIAL_SPEED_RADIUS_EXPONENT: u32 = 0x3F80_0000;

/// The exponent of the tangential speed's increase with the radius elsewhere: one half.
pub const INITIAL_TANGENTIAL_SPEED_RADIUS_EXPONENT: u32 = 0x3F00_0000;

/// The largest radial speed: 0.01.
pub const INITIAL_RADIAL_SPEED_MAX: u32 = 0x3C23_D70A;

/// The smallest mass of a particle: 5.
pub const MIN_PARTICLE_MASS: u32 = 0x40A0_0000;

/// The mass that no particle starts with or above: 20.
pub const MAX_PARTICLE_MASS: u32 = 0x41A0_0000;

/// The smallest brightness of a particle: 0.55. The brightness stays below one.
pub const MIN_PARTICLE_BRIGHTNESS: u32 = 0x3F0C_CCCD;

/// What is drawn for one particle.
#[derive(Clone, Copy, Debug, PartialEq)]
pub struct Sample {
    /// The direction of the particle's place.
    pub cosine: Binary32,
    pub sine: Binary32,
    /// How far out it lies.
    pub distance: Binary32,
    pub tangential_speed: Binary32,
    pub radial_speed: Binary32,
    pub mass: Binary32,
    pub brightness: Binary32,
}

/// The distance from the centre for a random fraction and for the same fraction raised to
/// [`CENTER_CONCENTRATION_EXPONENT`].
#[verifier::allow_in_spec]
pub fn sample_spawn_distance(fraction: Binary32, biased: Binary32) -> Binary32
    returns
        (fraction.root() + (biased - fraction.root()) * Binary32::from_bits(
            CENTER_CONCENTRATION_STRENGTH,
        )) * Binary32::from_bits(SPAWN_RADIUS),
{
    let uniform_area_radius = fraction.sqrt();
    let normalized_radius = uniform_area_radius + (biased - uniform_area_radius)
        * Binary32::from_bits(CENTER_CONCENTRATION_STRENGTH);
    normalized_radius * Binary32::from_bits(SPAWN_RADIUS)
}

/// How far out a distance is, from zero at the centre to one at the edge and beyond.
pub fn normalized_radius(distance: Binary32) -> (radius: Binary32)
    ensures
        radius == (distance / Binary32::from_bits(SPAWN_RADIUS)).clamp(
            Binary32::from_bits(ZERO),
            Binary32::from_bits(ONE),
        ),
{
    proof {
        binary32::law_bits_order_numbers(Binary32::from_bits(ZERO), Binary32::from_bits(ONE));
    }
    (distance / Binary32::from_bits(SPAWN_RADIUS)).clamp(
        Binary32::from_bits(ZERO),
        Binary32::from_bits(ONE),
    )
}

/// The tangential speed for a normalized radius raised to the exponent of the speed's increase.
#[verifier::allow_in_spec]
pub fn initial_tangential_speed(radial_speed_factor: Binary32) -> Binary32
    returns
        Binary32::from_bits(INITIAL_TANGENTIAL_SPEED_MIN) + (Binary32::from_bits(
            INITIAL_TANGENTIAL_SPEED_MAX,
        ) - Binary32::from_bits(INITIAL_TANGENTIAL_SPEED_MIN)) * radial_speed_factor,
{
    Binary32::from_bits(INITIAL_TANGENTIAL_SPEED_MIN) + (Binary32::from_bits(
        INITIAL_TANGENTIAL_SPEED_MAX,
    ) - Binary32::from_bits(INITIAL_TANGENTIAL_SPEED_MIN)) * radial_speed_factor
}

/// The share of the particles that starts clockwise, from the weights of the two directions.
pub fn initial_clockwise_fraction(clockwise: Binary32, counterclockwise: Binary32) -> (fraction:
    Binary32)
    requires
        Binary32::from_bits(ZERO).at_most(clockwise),
        Binary32::from_bits(ZERO).at_most(counterclockwise),
        Binary32::from_bits(ZERO).less(clockwise + counterclockwise),
    ensures
        fraction == clockwise / (clockwise + counterclockwise),
{
    let total_weight = clockwise + counterclockwise;
    clockwise / total_weight
}

/// How many of so many particles start clockwise: the nearest whole number.
pub open spec fn clockwise_share(count: nat, fraction: Binary32) -> nat {
    (Binary32::counted(count) * fraction).nearest_whole(usize::MAX as nat)
}

/// How many of so many particles start clockwise.
pub fn clockwise_count(count: usize, fraction: Binary32) -> (clockwise: usize)
    ensures
        clockwise == clockwise_share(count as nat, fraction),
{
    (Binary32::from_usize(count) * fraction).round_to_usize()
}

/// The share of the particles of a compute device that starts clockwise.
pub open spec fn device_clockwise_fraction() -> Binary32 {
    Binary32::from_bits(DEVICE_CLOCKWISE_ROTATION_WEIGHT) / (Binary32::from_bits(
        DEVICE_CLOCKWISE_ROTATION_WEIGHT,
    ) + Binary32::from_bits(DEVICE_COUNTERCLOCKWISE_ROTATION_WEIGHT))
}

/// Whether the particle at a position starts clockwise.
pub fn initial_clockwise(index: usize, count: usize) -> (clockwise: bool)
    ensures
        clockwise == (index < clockwise_share(count as nat, device_clockwise_fraction())),
{
    let weight = Binary32::from_bits(DEVICE_CLOCKWISE_ROTATION_WEIGHT);
    let fraction = weight / (weight + Binary32::from_bits(DEVICE_COUNTERCLOCKWISE_ROTATION_WEIGHT));
    index < clockwise_count(count, fraction)
}

impl Sample {
    /// The body that the sample describes. The vertical axis points downward, so the clockwise
    /// tangent at the right side of the cloud does too.
    pub open spec fn body(self, clockwise: bool) -> Body {
        let (tx, ty) = if clockwise {
            (self.sine.opposite(), self.cosine)
        } else {
            (self.sine, self.cosine.opposite())
        };
        Body {
            x: self.cosine * self.distance,
            y: self.sine * self.distance,
            velocity_x: tx * self.tangential_speed + self.cosine * self.radial_speed,
            velocity_y: ty * self.tangential_speed + self.sine * self.radial_speed,
            mass: self.mass,
            brightness: self.brightness,
        }
    }
}

/// The bodies that the samples describe, the first of them clockwise.
pub open spec fn spawned(samples: Seq<Sample>, clockwise: int) -> Seq<Body> {
    samples.map(|i: int, sample: Sample| sample.body(i < clockwise))
}

/// The body that a sample describes.
pub fn spawn_particle(sample: Sample, clockwise: bool) -> (body: Body)
    ensures
        body == sample.body(clockwise),
{
    let (tangential_x, tangential_y) = if clockwise {
        (sample.sine.negated(), sample.cosine)
    } else {
        (sample.sine, sample.cosine.negated())
    };
    Body {
        x: sample.cosine * sample.distance,
        y: sample.sine * sample.distance,
        velocity_x: tangential_x * sample.tangential_speed + sample.cosine * sample.radial_speed,
        velocity_y: tangential_y * sample.tangential_speed + sample.sine * sample.radial_speed,
        mass: sample.mass,
        brightness: sample.brightness,
    }
}

/// The bodies that the samples describe, the first of them clockwise.
pub fn spawn_particles(samples: &[Sample], clockwise: usize) -> (bodies: Vec<Body>)
    ensures
        bodies@ == spawned(samples@, clockwise as int),
{
    let mut bodies: Vec<Body> = Vec::with_capacity(samples.len());
    let mut i: usize = 0;
    while i < samples.len()
        invariant
            i <= samples.len(),
            bodies@ == spawned(samples@, clockwise as int).take(i as int),
        decreases samples.len() - i,
    {
        bodies.push(spawn_particle(samples[i], i < clockwise));
        i = i + 1;
    }
    bodies
}

impl Particle {
    /// The particle as a body.
    pub open spec fn body(self) -> Body {
        Body {
            x: self.x,
            y: self.y,
            velocity_x: self.vx,
            velocity_y: self.vy,
            mass: self.mass,
            brightness: self.brightness,
        }
    }

    /// The particle with the place, motion and looks of a body.
    pub open spec fn with_body(self, body: Body) -> Particle {
        Particle {
            x: body.x,
            y: body.y,
            vx: body.velocity_x,
            vy: body.velocity_y,
            mass: body.mass,
            brightness: body.brightness,
            ..self
        }
    }

    /// A live particle.
    pub open spec fn alive_with(body: Body) -> Particle {
        Particle { alive: 1, ..Particle::zeroed().with_body(body) }
    }
}

/// The particles as bodies.
pub open spec fn bodies_of(particles: Seq<Particle>) -> Seq<Body> {
    particles.map(|i: int, particle: Particle| particle.body())
}

/// The particle that a sample describes at a position among so many.
pub fn make_particle(sample: Sample, index: usize, count: usize) -> (particle: Particle)
    ensures
        particle == Particle::alive_with(
            sample.body(index < clockwise_share(count as nat, device_clockwise_fraction())),
        ),
{
    let body = spawn_particle(sample, initial_clockwise(index, count));
    Particle {
        x: body.x,
        y: body.y,
        vx: body.velocity_x,
        vy: body.velocity_y,
        mass: body.mass,
        brightness: body.brightness,
        alive: 1,
        padding: 0,
    }
}

/// The particles seen from their centre of mass, at rest with it; unchanged if they weigh nothing.
pub open spec fn recentred(particles: Seq<Particle>) -> Seq<Particle> {
    if bodies::mass_of(bodies_of(particles)).same(Binary32::from_bits(ZERO)) {
        particles
    } else {
        particles.map(
            |i: int, particle: Particle|
                particle.with_body(bodies::centred(bodies_of(particles))[i]),
        )
    }
}

/// Moves the centre of mass to the origin and takes the common velocity away, unless the
/// particles weigh nothing.
pub fn center_reference_frame(particles: &mut Vec<Particle>)
    ensures
        final(particles)@ == recentred(old(particles)@),
{
    let zero = Binary32::from_bits(ZERO);
    let ghost before = particles@;
    let ghost all = bodies_of(before);
    let mut total_mass = zero;
    let mut center_x = zero;
    let mut center_y = zero;
    let mut momentum_x = zero;
    let mut momentum_y = zero;
    let mut i: usize = 0;
    while i < particles.len()
        invariant
            particles@ == before,
            all == bodies_of(before),
            i <= particles.len(),
            total_mass == bodies::mass_of_first(all, i as int),
            center_x == bodies::moment_of_first(all, Coordinate::X, i as int),
            center_y == bodies::moment_of_first(all, Coordinate::Y, i as int),
            momentum_x == bodies::moment_of_first(all, Coordinate::VelocityX, i as int),
            momentum_y == bodies::moment_of_first(all, Coordinate::VelocityY, i as int),
        decreases particles.len() - i,
    {
        let particle = particles[i];
        total_mass = total_mass + particle.mass;
        center_x = center_x + particle.x * particle.mass;
        center_y = center_y + particle.y * particle.mass;
        momentum_x = momentum_x + particle.vx * particle.mass;
        momentum_y = momentum_y + particle.vy * particle.mass;
        i = i + 1;
    }
    if total_mass.same(zero) {
        return;
    }
    let center_x = center_x / total_mass;
    let center_y = center_y / total_mass;
    let momentum_x = momentum_x / total_mass;
    let momentum_y = momentum_y / total_mass;
    let mut i: usize = 0;
    while i < particles.len()
        invariant
            particles.len() == before.len(),
            all == bodies_of(before),
            i <= particles.len(),
            !bodies::mass_of(all).same(Binary32::from_bits(ZERO)),
            center_x == bodies::mean_of(all, Coordinate::X),
            center_y == bodies::mean_of(all, Coordinate::Y),
            momentum_x == bodies::mean_of(all, Coordinate::VelocityX),
            momentum_y == bodies::mean_of(all, Coordinate::VelocityY),
            forall|k: int| 0 <= k < i ==> #[trigger] particles@[k] == recentred(before)[k],
            forall|k: int| i <= k < before.len() ==> #[trigger] particles@[k] == before[k],
        decreases particles.len() - i,
    {
        let particle = particles[i];
        particles[i] = Particle {
            x: particle.x - center_x,
            y: particle.y - center_y,
            vx: particle.vx - momentum_x,
            vy: particle.vy - momentum_y,
            ..particle
        };
        i = i + 1;
    }
    assert(particles@ == recentred(before));
}

/// The particles that a compute device starts with, one for each sample.
pub fn create_particles(samples: &[Sample]) -> (particles: Vec<Particle>)
    ensures
        particles@ == recentred(
            samples@.map(
                |i: int, sample: Sample|
                    Particle::alive_with(
                        sample.body(
                            i < clockwise_share(samples@.len(), device_clockwise_fraction()),
                        ),
                    ),
            ),
        ),
{
    let count = samples.len();
    let ghost all = samples@.map(
        |i: int, sample: Sample|
            Particle::alive_with(
                sample.body(i < clockwise_share(samples@.len(), device_clockwise_fraction())),
            ),
    );
    let mut particles: Vec<Particle> = Vec::with_capacity(count);
    let mut i: usize = 0;
    while i < count
        invariant
            i <= count == samples.len(),
            all == samples@.map(
                |i: int, sample: Sample|
                    Particle::alive_with(
                        sample.body(
                            i < clockwise_share(samples@.len(), device_clockwise_fraction()),
                        ),
                    ),
            ),
            particles@ == all.take(i as int),
        decreases count - i,
    {
        particles.push(make_particle(samples[i], i, count));
        i = i + 1;
    }
    proof {
        assert(particles@ == all);
    }
    center_reference_frame(&mut particles);
    particles
}

/// The settings fit together: the concentration lies between zero and one, its exponent is
/// positive, the speeds are ordered, their exponent is positive, and so is the sum of the weights
/// of the directions.
pub proof fn law_settings_fit_together()
    ensures
        Binary32::from_bits(ZERO).at_most(Binary32::from_bits(CENTER_CONCENTRATION_STRENGTH)),
        Binary32::from_bits(CENTER_CONCENTRATION_STRENGTH).at_most(Binary32::from_bits(ONE)),
        Binary32::from_bits(ZERO).less(Binary32::from_bits(CENTER_CONCENTRATION_EXPONENT)),
        Binary32::from_bits(ZERO).at_most(Binary32::from_bits(INITIAL_TANGENTIAL_SPEED_MIN)),
        Binary32::from_bits(INITIAL_TANGENTIAL_SPEED_MIN).at_most(
            Binary32::from_bits(INITIAL_TANGENTIAL_SPEED_MAX),
        ),
        Binary32::from_bits(ZERO).less(
            Binary32::from_bits(INITIAL_TANGENTIAL_SPEED_RADIUS_EXPONENT),
        ),
        Binary32::from_bits(ZERO).at_most(Binary32::from_bits(CLOCKWISE_ROTATION_WEIGHT)),
        Binary32::from_bits(ZERO).at_most(Binary32::from_bits(COUNTERCLOCKWISE_ROTATION_WEIGHT)),
        Binary32::from_bits(ZERO).less(
            Binary32::from_bits(CLOCKWISE_ROTATION_WEIGHT) + Binary32::from_bits(
                COUNTERCLOCKWISE_ROTATION_WEIGHT,
            ),
        ),
{
    let zero = Binary32::from_bits(ZERO);
    let strength = Binary32::from_bits(CENTER_CONCENTRATION_STRENGTH);
    let slow = Binary32::from_bits(INITIAL_TANGENTIAL_SPEED_MIN);
    let clockwise = Binary32::from_bits(CLOCKWISE_ROTATION_WEIGHT);
    let counterclockwise = Binary32::from_bits(COUNTERCLOCKWISE_ROTATION_WEIGHT);
    binary32::law_bits_order_numbers(zero, strength);
    binary32::law_bits_order_numbers(strength, Binary32::from_bits(ONE));
    binary32::law_bits_order_numbers(zero, Binary32::from_bits(CENTER_CONCENTRATION_EXPONENT));
    binary32::law_bits_order_numbers(zero, slow);
    binary32::law_bits_order_numbers(slow, Binary32::from_bits(INITIAL_TANGENTIAL_SPEED_MAX));
    binary32::law_bits_order_numbers(
        zero,
        Binary32::from_bits(INITIAL_TANGENTIAL_SPEED_RADIUS_EXPONENT),
    );
    binary32::law_bits_order_numbers(zero, clockwise);
    binary32::law_bits_order_numbers(zero, counterclockwise);
    binary32::law_adding_zero(clockwise, counterclockwise);
}

/// The speeds at the centre and at the edge are 14 apart.
proof fn lemma_speed_range()
    ensures
        ({
            let slow = Binary32::from_bits(INITIAL_TANGENTIAL_SPEED_MIN);
            let fast = Binary32::from_bits(INITIAL_TANGENTIAL_SPEED_MAX);
            let range = Binary32::from_bits(0x4160_0000);
            &&& fast - slow == range
            &&& slow + range == fast
        }),
{
    reveal(Binary32::spec_sub);
    let slow = Binary32::from_bits(INITIAL_TANGENTIAL_SPEED_MIN);
    let fast = Binary32::from_bits(INITIAL_TANGENTIAL_SPEED_MAX);
    let range = Binary32::from_bits(0x4160_0000);
    let w = pow2(128);
    lemma2_to64();
    lemma_pow2_adds(128, 1);
    lemma_pow2_adds(128, 2);
    assert(slow.units() == 0xC0_0000 * w);
    assert(fast.units() == 0xA0_0000 * (w * 4));
    assert(range.units() == 0xE0_0000 * (w * 2));
    binary32::law_representable_sums_are_exact(fast, slow.opposite(), range);
    binary32::law_representable_sums_are_exact(slow, range, fast);
}

/// Tangential speeds lie between those at the centre and at the edge.
pub proof fn law_tangential_speed_is_in_range(factor: Binary32)
    requires
        !factor.is_negative(),
        factor.at_most(Binary32::from_bits(ONE)),
    ensures
        Binary32::from_bits(INITIAL_TANGENTIAL_SPEED_MIN).at_most(initial_tangential_speed(factor)),
        initial_tangential_speed(factor).at_most(Binary32::from_bits(INITIAL_TANGENTIAL_SPEED_MAX)),
{
    let slow = Binary32::from_bits(INITIAL_TANGENTIAL_SPEED_MIN);
    let range = Binary32::from_bits(0x4160_0000);
    let (zero, one) = (Binary32::from_bits(ZERO), Binary32::from_bits(ONE));
    binary32::law_at_most_a_finite_number(factor, one);
    binary32::law_bits_order_numbers(zero, factor);
    lemma_speed_range();
    binary32::law_multiplication_keeps_order(range, zero, factor);
    binary32::law_multiplication_keeps_order(range, factor, one);
    binary32::law_multiplying_by_one(range);
    binary32::law_multiplication_commutes(range, zero);
    binary32::law_multiplying_by_zero(zero, range);
    let share = range * factor;
    binary32::law_at_most_a_finite_number(share, range);
    binary32::law_addition_keeps_order(slow, range * zero, share);
    binary32::law_addition_keeps_order(slow, share, range);
    binary32::law_adding_zero(slow, range * zero);
}

/// Particles start inside the disk: distances lie between zero and its radius.
pub proof fn law_particles_start_inside_the_disk(fraction: Binary32, biased: Binary32)
    requires
        !fraction.is_negative(),
        fraction.at_most(Binary32::from_bits(ONE)),
        !biased.is_negative(),
        biased.at_most(Binary32::from_bits(ONE)),
    ensures
        !sample_spawn_distance(fraction, biased).is_negative(),
        sample_spawn_distance(fraction, biased).at_most(Binary32::from_bits(SPAWN_RADIUS)),
{
    let (zero, one) = (Binary32::from_bits(ZERO), Binary32::from_bits(ONE));
    let part = Binary32::from_bits(CENTER_CONCENTRATION_STRENGTH);
    let radius = Binary32::from_bits(SPAWN_RADIUS);
    let r = fraction.root();
    binary32::law_root_of_a_fraction_is_a_fraction(fraction);
    binary32::law_at_most_a_finite_number(r, one);
    binary32::law_at_most_a_finite_number(biased, one);
    let d = biased - r;
    let t = d * part;
    lemma_blend(r, biased);
    let n = r + t;
    binary32::law_at_most_a_finite_number(n, one);
    binary32::law_multiplication_keeps_order(radius, n, one);
    binary32::law_multiplying_by_one(radius);
    binary32::law_multiplication_commutes(n, radius);
}

/// Three quarters of the way from one fraction to another lies a fraction.
proof fn lemma_blend(r: Binary32, b: Binary32)
    requires
        !r.is_negative(),
        r.at_most(Binary32::from_bits(ONE)),
        !b.is_negative(),
        b.at_most(Binary32::from_bits(ONE)),
    ensures
        ({
            let n = r + (b - r) * Binary32::from_bits(CENTER_CONCENTRATION_STRENGTH);
            &&& !n.is_negative()
            &&& n.at_most(Binary32::from_bits(ONE))
        }),
{
    let (zero, one) = (Binary32::from_bits(ZERO), Binary32::from_bits(ONE));
    let part = Binary32::from_bits(CENTER_CONCENTRATION_STRENGTH);
    let back = r.opposite();
    binary32::law_at_most_a_finite_number(r, one);
    binary32::law_at_most_a_finite_number(b, one);
    binary32::law_bits_order_numbers(part, one);
    binary32::lemma_opposite(r);
    assert(crate::magnitude::units(0) == 0 * pow2(0));
    let d = b - r;
    let whole = one - r;
    assert(d == back + b && whole == back + one && whole == one + back) by {
        reveal(Binary32::spec_sub);
        binary32::law_addition_commutes(b, back);
        binary32::law_addition_commutes(one, back);
    }
    binary32::law_addition_keeps_order(back, b, one);
    binary32::law_addition_keeps_order(one, back, zero);
    binary32::law_adding_zero(one, zero);
    binary32::law_addition_keeps_order(back, zero, b);
    binary32::law_adding_zero(back, zero);
    let t = d * part;
    if d.is_negative() {
        // No farther down than to zero.
        assert(d.units() <= r.units());
        assert(d.is_finite()) by {
            crate::magnitude::lemma_units_order(d.magnitude() as nat, r.magnitude() as nat);
        }
        binary32::law_parts_are_no_larger(d, part);
        binary32::law_sums_above_zero_have_no_sign(r, t);
        binary32::law_bounded_sums_stay_bounded(r, t, one);
    } else {
        binary32::law_at_most_a_finite_number(d, one);
        binary32::lemma_three_quarters_fit(r, d);
        binary32::law_sums_above_zero_have_no_sign(r, t);
        binary32::law_bounded_sums_stay_bounded(r, t, one);
    }
}

} // verus!
