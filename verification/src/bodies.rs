//! Bodies of a particle cloud: what they weigh together, where their centre lies, how they pull
//! one another and what they merge into.

use vstd::prelude::*;
use crate::balance;
use crate::binary32;
use crate::binary32::{Binary32, ONE, ZERO};
use crate::collision::particle_radius;
use crate::magnitude::INFINITY;
use crate::merging::Merging;
use crate::rounding;
use crate::rounding::{size, slack};
use crate::types::Particle;

verus! {

/// The gravitational constant, in the units of the simulation: 15.
pub const GRAVITATIONAL_CONSTANT: u32 = 0x4170_0000;

/// The length that keeps the acceleration at small separations finite: 3.
pub const GRAVITY_SOFTENING: u32 = 0x4040_0000;

/// The spacing of numbers above one: two to the minus 23.
pub const EPSILON: u32 = 0x3400_0000;

/// One body.
#[derive(Clone, Copy, Debug, PartialEq)]
pub struct Body {
    pub x: Binary32,
    pub y: Binary32,
    pub velocity_x: Binary32,
    pub velocity_y: Binary32,
    pub mass: Binary32,
    pub brightness: Binary32,
}

/// A coordinate of a body's place or velocity, or its brightness: what bodies that merge weight by
/// their masses.
pub enum Coordinate {
    X,
    Y,
    VelocityX,
    VelocityY,
    Brightness,
}

/// An axis of the plane.
pub enum Axis {
    X,
    Y,
}

impl Axis {
    /// The coordinate of places along the axis.
    pub open spec fn place(self) -> Coordinate {
        match self {
            Axis::X => Coordinate::X,
            Axis::Y => Coordinate::Y,
        }
    }

    /// The coordinate of velocities along the axis.
    pub open spec fn velocity(self) -> Coordinate {
        match self {
            Axis::X => Coordinate::VelocityX,
            Axis::Y => Coordinate::VelocityY,
        }
    }

    /// The one of two coordinates that belongs to the axis.
    pub open spec fn of(self, pair: Pair) -> Binary32 {
        match self {
            Axis::X => pair.0,
            Axis::Y => pair.1,
        }
    }
}

impl Body {
    /// The mean of a property of two bodies, weighted by their masses.
    pub open spec fn weighted(self, mine: Binary32, other: Body, its: Binary32) -> Binary32 {
        (mine * self.mass + its * other.mass) / (self.mass + other.mass)
    }

    /// The displacement to another body.
    pub open spec fn towards(self, other: Body) -> Pair {
        (other.x - self.x, other.y - self.y)
    }
}

impl Merging for Body {
    /// Whether the other body lies no farther away than the two radii reach.
    open spec fn touches(self, other: Body) -> bool {
        let (dx, dy) = self.towards(other);
        let reach = particle_radius(self.mass) + particle_radius(other.mass);
        (dx * dx + dy * dy).at_most(reach * reach)
    }

    /// The body that two bodies become.
    open spec fn merged(self, other: Body) -> Body {
        Body {
            x: self.weighted(self.x, other, other.x),
            y: self.weighted(self.y, other, other.y),
            velocity_x: self.weighted(self.velocity_x, other, other.velocity_x),
            velocity_y: self.weighted(self.velocity_y, other, other.velocity_y),
            mass: self.mass + other.mass,
            brightness: self.weighted(self.brightness, other, other.brightness),
        }
    }

    open spec fn weight(self) -> Binary32 {
        self.mass
    }

    open spec fn along(self, coordinate: Coordinate) -> Binary32 {
        match coordinate {
            Coordinate::X => self.x,
            Coordinate::Y => self.y,
            Coordinate::VelocityX => self.velocity_x,
            Coordinate::VelocityY => self.velocity_y,
            Coordinate::Brightness => self.brightness,
        }
    }

    /// The slack of the quotient times the mass, and that of the weighted sum.
    open spec fn loss(self, other: Body, coordinate: Coordinate) -> real {
        let (mine, its) = (self.along(coordinate), other.along(coordinate));
        size((self.mass + other.mass).number()) * slack(self.weighted(mine, other, its))
            + balance::weighing_error(mine, self.mass, its, other.mass)
    }

    proof fn lemma_weights_add_up(self, other: Body) {
    }

    proof fn lemma_loss(self, other: Body, coordinate: Coordinate) {
        reveal(rounding::product);
        let (mine, its) = (self.along(coordinate), other.along(coordinate));
        let mass = self.mass + other.mass;
        let weighted = mine * self.mass + its * other.mass;
        let mean = self.weighted(mine, other, its);
        assert(self.merged(other).along(coordinate) == mean);
        assert(weighted.is_finite()) by {
            reveal(Binary32::spec_euclidean_or_real_div);
            binary32::lemma_signed(true, INFINITY as nat);
            binary32::lemma_signed(false, INFINITY as nat);
        }
        balance::lemma_weighing(mine, self.mass, its, other.mass);
        rounding::law_quotients_are_near(weighted, mass);
        let (m, q) = (mass.number(), mean.number());
        assert(m * q == q * m && size(m) * slack(mean) == slack(mean) * size(m))
            by (nonlinear_arith);
    }
}

/// The square of the softening length.
pub open spec fn softening_squared() -> Binary32 {
    Binary32::from_bits(GRAVITY_SOFTENING) * Binary32::from_bits(GRAVITY_SOFTENING)
}

/// The factor that turns a displacement and a mass into an acceleration, from the softened square
/// of the distance.
pub open spec fn attraction(softened: Binary32) -> Binary32 {
    let inverse = Binary32::from_bits(ONE) / softened.root();
    Binary32::from_bits(GRAVITATIONAL_CONSTANT) * (inverse * inverse * inverse)
}

/// [`attraction`], computed.
pub fn attraction_factor(softened: Binary32) -> (factor: Binary32)
    ensures
        factor == attraction(softened),
{
    let inverse_distance = Binary32::from_bits(ONE) / softened.sqrt();
    let inverse_distance_cubed = inverse_distance * inverse_distance * inverse_distance;
    Binary32::from_bits(GRAVITATIONAL_CONSTANT) * inverse_distance_cubed
}

/// A pair of coordinates.
pub type Pair = (Binary32, Binary32);

/// The acceleration of one body by a mass at the place of another.
pub open spec fn pull(body: Body, other: Body, mass: Binary32) -> Pair {
    let (dx, dy) = body.towards(other);
    let factor = attraction(dx * dx + dy * dy + softening_squared());
    (dx * factor * mass, dy * factor * mass)
}

/// Coordinates added.
pub open spec fn plus(a: Pair, b: Pair) -> Pair {
    (a.0 + b.0, a.1 + b.1)
}

/// Coordinates taken away.
pub open spec fn minus(a: Pair, b: Pair) -> Pair {
    (a.0 - b.0, a.1 - b.1)
}

/// Both coordinates zero.
pub open spec fn nothing() -> Pair {
    (Binary32::from_bits(ZERO), Binary32::from_bits(ZERO))
}

/// The two bodies merged.
pub fn merge(first: Body, second: Body) -> (merged: Body)
    ensures
        merged == first.merged(second),
{
    let combined_mass = first.mass + second.mass;
    Body {
        x: (first.x * first.mass + second.x * second.mass) / combined_mass,
        y: (first.y * first.mass + second.y * second.mass) / combined_mass,
        velocity_x: (first.velocity_x * first.mass + second.velocity_x * second.mass)
            / combined_mass,
        velocity_y: (first.velocity_y * first.mass + second.velocity_y * second.mass)
            / combined_mass,
        mass: combined_mass,
        brightness: (first.brightness * first.mass + second.brightness * second.mass)
            / combined_mass,
    }
}

/// The masses of the first bodies, added up in order.
pub open spec fn mass_of_first(bodies: Seq<Body>, upto: int) -> Binary32
    decreases upto,
{
    if upto <= 0 {
        Binary32::from_bits(ZERO)
    } else {
        mass_of_first(bodies, upto - 1) + bodies[upto - 1].mass
    }
}

/// The masses of all bodies, added up in order.
pub open spec fn mass_of(bodies: Seq<Body>) -> Binary32 {
    mass_of_first(bodies, bodies.len() as int)
}

/// The largest mass among the first bodies, and no less than zero.
pub open spec fn largest_of_first(bodies: Seq<Body>, upto: int) -> Binary32
    decreases upto,
{
    if upto <= 0 {
        Binary32::from_bits(ZERO)
    } else {
        largest_of_first(bodies, upto - 1).max(bodies[upto - 1].mass)
    }
}

/// A coordinate of the first bodies, weighted by their masses and added up in order.
pub open spec fn moment_of_first(bodies: Seq<Body>, coordinate: Coordinate, upto: int) -> Binary32
    decreases upto,
{
    if upto <= 0 {
        Binary32::from_bits(ZERO)
    } else {
        let body = bodies[upto - 1];
        moment_of_first(bodies, coordinate, upto - 1) + body.along(coordinate) * body.mass
    }
}

/// The mean of a coordinate over all bodies, weighted by their masses.
pub open spec fn mean_of(bodies: Seq<Body>, coordinate: Coordinate) -> Binary32 {
    moment_of_first(bodies, coordinate, bodies.len() as int) / mass_of(bodies)
}

/// The bodies seen from their centre of mass, at rest with it.
pub open spec fn centred(bodies: Seq<Body>) -> Seq<Body> {
    bodies.map(
        |i: int, body: Body|
            Body {
                x: body.x - mean_of(bodies, Coordinate::X),
                y: body.y - mean_of(bodies, Coordinate::Y),
                velocity_x: body.velocity_x - mean_of(bodies, Coordinate::VelocityX),
                velocity_y: body.velocity_y - mean_of(bodies, Coordinate::VelocityY),
                ..body
            },
    )
}

/// Moves the centre of mass to the origin and takes the common velocity away.
pub(crate) fn centre(particles: &mut Vec<Body>, total: Binary32)
    requires
        total == mass_of(old(particles)@),
    ensures
        final(particles)@ == centred(old(particles)@),
{
    let zero = Binary32::from_bits(ZERO);
    let ghost before = particles@;
    let mut weighted_x = zero;
    let mut weighted_y = zero;
    let mut momentum_x = zero;
    let mut momentum_y = zero;
    let mut i: usize = 0;
    while i < particles.len()
        invariant
            particles@ == before,
            i <= particles.len(),
            weighted_x == moment_of_first(before, Coordinate::X, i as int),
            weighted_y == moment_of_first(before, Coordinate::Y, i as int),
            momentum_x == moment_of_first(before, Coordinate::VelocityX, i as int),
            momentum_y == moment_of_first(before, Coordinate::VelocityY, i as int),
        decreases particles.len() - i,
    {
        let particle = particles[i];
        weighted_x = weighted_x + particle.x * particle.mass;
        weighted_y = weighted_y + particle.y * particle.mass;
        momentum_x = momentum_x + particle.velocity_x * particle.mass;
        momentum_y = momentum_y + particle.velocity_y * particle.mass;
        i = i + 1;
    }
    let center_x = weighted_x / total;
    let center_y = weighted_y / total;
    let bulk_velocity_x = momentum_x / total;
    let bulk_velocity_y = momentum_y / total;
    let mut i: usize = 0;
    while i < particles.len()
        invariant
            particles.len() == before.len(),
            i <= particles.len(),
            center_x == mean_of(before, Coordinate::X),
            center_y == mean_of(before, Coordinate::Y),
            bulk_velocity_x == mean_of(before, Coordinate::VelocityX),
            bulk_velocity_y == mean_of(before, Coordinate::VelocityY),
            forall|k: int| 0 <= k < i ==> #[trigger] particles@[k] == centred(before)[k],
            forall|k: int| i <= k < before.len() ==> #[trigger] particles@[k] == before[k],
        decreases particles.len() - i,
    {
        let particle = particles[i];
        particles[i] = Body {
            x: particle.x - center_x,
            y: particle.y - center_y,
            velocity_x: particle.velocity_x - bulk_velocity_x,
            velocity_y: particle.velocity_y - bulk_velocity_y,
            ..particle
        };
        i = i + 1;
    }
    assert(particles@ == centred(before));
}

/// Contact is mutual.
pub proof fn law_contact_is_mutual(a: Body, b: Body)
    ensures
        a.touches(b) == b.touches(a),
{
    binary32::law_difference_has_one_magnitude(a.x, b.x);
    binary32::law_difference_has_one_magnitude(a.y, b.y);
    binary32::law_square_has_no_sign(a.x - b.x, b.x - a.x);
    binary32::law_square_has_no_sign(a.y - b.y, b.y - a.y);
    binary32::law_addition_commutes(particle_radius(a.mass), particle_radius(b.mass));
}

/// The bodies of those of the first particles that live.
pub open spec fn first_live_bodies(particles: Seq<Particle>, upto: int) -> Seq<Body>
    decreases upto,
{
    if upto <= 0 {
        Seq::empty()
    } else {
        let before = first_live_bodies(particles, upto - 1);
        if particles[upto - 1].alive != 0 {
            before.push(particles[upto - 1].body())
        } else {
            before
        }
    }
}

/// The bodies of the particles that live, in order.
pub fn live_bodies(particles: &[Particle]) -> (bodies: Vec<Body>)
    ensures
        bodies@ == first_live_bodies(particles@, particles@.len() as int),
{
    let mut bodies: Vec<Body> = Vec::new();
    let mut i: usize = 0;
    while i < particles.len()
        invariant
            i <= particles.len(),
            bodies@ == first_live_bodies(particles@, i as int),
        decreases particles.len() - i,
    {
        let particle = particles[i];
        if particle.alive != 0 {
            bodies.push(
                Body {
                    x: particle.x,
                    y: particle.y,
                    velocity_x: particle.vx,
                    velocity_y: particle.vy,
                    mass: particle.mass,
                    brightness: particle.brightness,
                },
            );
        }
        i = i + 1;
    }
    bodies
}

} // verus!
