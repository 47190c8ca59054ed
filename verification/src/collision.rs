//! Merging of particles that touch.

use vstd::prelude::*;
use crate::balance;
use crate::binary32;
use crate::binary32::{Binary32, ONE};
use crate::bodies::Coordinate;
use crate::estimate;
use crate::merging;
use crate::merging::Merging;
use crate::rounding;
use crate::rounding::{size, slack};
use crate::types::Particle;

verus! {

/// The radius of a particle of unit mass: 0.45.
pub const PARTICLE_RADIUS_SCALE: u32 = 0x3EE6_6666;

/// The radius of a particle.
#[verifier::allow_in_spec]
pub fn particle_radius(mass: Binary32) -> Binary32
    returns
        Binary32::from_bits(PARTICLE_RADIUS_SCALE) * mass.root(),
{
    Binary32::from_bits(PARTICLE_RADIUS_SCALE) * mass.sqrt()
}

impl Particle {
    /// The mean of a property of two particles, weighted by their masses.
    pub open spec fn weighted(self, mine: Binary32, other: Particle, its: Binary32) -> Binary32 {
        (mine * self.mass + its * other.mass) * (Binary32::from_bits(ONE) / (self.mass
            + other.mass))
    }
}

impl Merging for Particle {
    /// Whether a live particle lies no farther away than the two radii reach.
    open spec fn touches(self, other: Particle) -> bool {
        let dx = other.x - self.x;
        let dy = other.y - self.y;
        let reach = particle_radius(self.mass) + particle_radius(other.mass);
        other.alive != 0 && (dx * dx + dy * dy).at_most(reach * reach)
    }

    /// The live particle that two particles become.
    open spec fn merged(self, other: Particle) -> Particle {
        Particle {
            x: self.weighted(self.x, other, other.x),
            y: self.weighted(self.y, other, other.y),
            vx: self.weighted(self.vx, other, other.vx),
            vy: self.weighted(self.vy, other, other.vy),
            mass: self.mass + other.mass,
            brightness: self.weighted(self.brightness, other, other.brightness),
            alive: 1,
            padding: 0,
        }
    }

    open spec fn weight(self) -> Binary32 {
        self.mass
    }

    open spec fn along(self, coordinate: Coordinate) -> Binary32 {
        match coordinate {
            Coordinate::X => self.x,
            Coordinate::Y => self.y,
            Coordinate::VelocityX => self.vx,
            Coordinate::VelocityY => self.vy,
            Coordinate::Brightness => self.brightness,
        }
    }

    /// The slack of the product and that of the inverse, each times the mass, and that of the
    /// weighted sum.
    open spec fn loss(self, other: Particle, coordinate: Coordinate) -> real {
        let (mine, its) = (self.along(coordinate), other.along(coordinate));
        let mass = self.mass + other.mass;
        let weighted = mine * self.mass + its * other.mass;
        size(mass.number()) * slack(self.weighted(mine, other, its)) + size(weighted.number()) * (
        slack(Binary32::from_bits(ONE) / mass) * size(mass.number()))
            + balance::weighing_error(mine, self.mass, its, other.mass)
    }

    proof fn lemma_weights_add_up(self, other: Particle) {
    }

    proof fn lemma_loss(self, other: Particle, coordinate: Coordinate) {
        reveal(rounding::product);
        let (mine, its) = (self.along(coordinate), other.along(coordinate));
        let one = Binary32::from_bits(ONE);
        let mass = self.mass + other.mass;
        let weighted = mine * self.mass + its * other.mass;
        let inverse = one / mass;
        let mean = self.weighted(mine, other, its);
        assert(self.merged(other).along(coordinate) == mean);
        rounding::law_products_are_near(weighted, inverse);
        balance::lemma_weighing(mine, self.mass, its, other.mass);
        rounding::law_quotients_are_near(one, mass);
        estimate::lemma_one();
        let (m, w, i, q) = (mass.number(), weighted.number(), inverse.number(), mean.number());
        let (a, b) = (q - w * i, i * m - 1 as real);
        assert(m * q - w == m * a + w * b) by (nonlinear_arith)
            requires
                a == q - w * i,
                b == i * m - 1 as real,
        ;
        estimate::lemma_size_of_product(m, a);
        estimate::lemma_size_of_product(w, b);
        assert(size(m) * size(a) <= size(m) * slack(mean)) by (nonlinear_arith)
            requires
                size(a) <= slack(mean),
                size(m) >= 0 as real,
        ;
        assert(size(w) * size(b) <= size(w) * (slack(inverse) * size(m))) by (nonlinear_arith)
            requires
                size(b) <= slack(inverse) * size(m),
                size(w) >= 0 as real,
        ;
    }
}

/// Finds the first particle behind `first_index` that it touches.
pub fn find_collision(particles: &[Particle], first_index: usize) -> (found: Option<usize>)
    requires
        first_index < particles.len(),
    ensures
        match found {
            Some(second) => merging::first_contact(particles@, first_index as int, first_index + 1) == Some(
                second as int,
            ),
            None => merging::first_contact(particles@, first_index as int, first_index + 1) is None,
        },
{
    let first = particles[first_index];
    let first_radius = particle_radius(first.mass);
    let mut second_index: usize = first_index + 1;
    while second_index < particles.len()
        invariant
            first_index < second_index <= particles.len(),
            first == particles[first_index as int],
            first_radius == particle_radius(first.mass),
            merging::first_contact(particles@, first_index as int, first_index + 1) == merging::first_contact(
                particles@,
                first_index as int,
                second_index as int,
            ),
        decreases particles.len() - second_index,
    {
        let second = particles[second_index];
        if second.alive != 0 {
            let dx = second.x - first.x;
            let dy = second.y - first.y;
            let collision_distance = first_radius + particle_radius(second.mass);
            if (dx * dx + dy * dy).at_most(collision_distance * collision_distance) {
                return Some(second_index);
            }
        }
        second_index = second_index + 1;
    }
    None
}

/// Merges the second of two particles into the first and moves the last one into its place.
pub fn merge_pair(particles: &mut Vec<Particle>, first_index: usize, second_index: usize)
    requires
        first_index < old(particles).len(),
        second_index < old(particles).len(),
    ensures
        final(particles)@ == merging::pair_merged(old(particles)@, first_index as int, second_index as int),
{
    let first = particles[first_index];
    let second = particles[second_index];
    let combined_mass = first.mass + second.mass;
    let inverse_mass = Binary32::from_bits(ONE) / combined_mass;
    let merged = Particle {
        x: (first.x * first.mass + second.x * second.mass) * inverse_mass,
        y: (first.y * first.mass + second.y * second.mass) * inverse_mass,
        vx: (first.vx * first.mass + second.vx * second.mass) * inverse_mass,
        vy: (first.vy * first.mass + second.vy * second.mass) * inverse_mass,
        mass: combined_mass,
        brightness: (first.brightness * first.mass + second.brightness * second.mass)
            * inverse_mass,
        alive: 1,
        padding: 0,
    };
    particles[first_index] = merged;
    particles.swap_remove(second_index);
}

/// The live ones among the particles, in order.
pub open spec fn live_of(particles: Seq<Particle>) -> Seq<Particle>
    decreases particles.len(),
{
    if particles.len() == 0 {
        Seq::empty()
    } else {
        let before = live_of(particles.drop_last());
        if particles.last().alive != 0 {
            before.push(particles.last())
        } else {
            before
        }
    }
}

/// Drops the dead particles and keeps the others in order.
pub fn retain_live(particles: &mut Vec<Particle>)
    ensures
        final(particles)@ == live_of(old(particles)@),
{
    let mut live: Vec<Particle> = Vec::with_capacity(particles.len());
    let mut i: usize = 0;
    while i < particles.len()
        invariant
            i <= particles.len(),
            live@ == live_of(particles@.take(i as int)),
        decreases particles.len() - i,
    {
        let particle = particles[i];
        assert(particles@.take(i + 1).drop_last() == particles@.take(i as int));
        if particle.alive != 0 {
            live.push(particle);
        }
        i = i + 1;
    }
    assert(particles@.take(i as int) == particles@);
    *particles = live;
}

/// Drops the dead particles and merges all live ones that touch.
///
/// Positions are taken in ascending order. After each merge the search of a position starts
/// over, since its particle has a new radius, place and mass. What is left is a prefix of live
/// particles without gaps.
pub fn merge_colliding_particles(particles: &mut Vec<Particle>)
    ensures
        final(particles)@ == merging::merged_from(live_of(old(particles)@), 0),
        forall|i: int|
            0 <= i < final(particles)@.len() ==> (#[trigger] final(particles)@[i]).alive != 0,
{
    retain_live(particles);
    let ghost live = particles@;
    let mut first_index: usize = 0;
    while first_index < particles.len()
        invariant
            first_index <= particles.len(),
            merging::merged_from(live, 0) == merging::merged_from(particles@, first_index as int),
        decreases 2 * particles.len() - first_index,
    {
        match find_collision(particles.as_slice(), first_index) {
            Some(second_index) => {
                proof {
                    merging::lemma_contact_bounds(particles@, first_index as int, first_index + 1);
                }
                merge_pair(particles, first_index, second_index);
            },
            None => {
                first_index = first_index + 1;
            },
        }
    }
    proof {
        law_only_the_living_are_left(old(particles)@);
    }
}

/// Contact is mutual between live particles.
pub proof fn law_contact_is_mutual(a: Particle, b: Particle)
    requires
        a.alive != 0,
        b.alive != 0,
    ensures
        a.touches(b) == b.touches(a),
{
    binary32::law_difference_has_one_magnitude(a.x, b.x);
    binary32::law_difference_has_one_magnitude(a.y, b.y);
    binary32::law_square_has_no_sign(a.x - b.x, b.x - a.x);
    binary32::law_square_has_no_sign(a.y - b.y, b.y - a.y);
    binary32::law_addition_commutes(particle_radius(a.mass), particle_radius(b.mass));
}

/// Whatever particles merge, all that are left live: the result is a prefix without gaps.
pub proof fn law_only_the_living_are_left(particles: Seq<Particle>)
    ensures
        merging::all_are(live_of(particles), |particle: Particle| particle.alive != 0),
        merging::all_are(
            merging::merged_from(live_of(particles), 0),
            |particle: Particle| particle.alive != 0,
        ),
{
    lemma_live_particles_live(particles);
    merging::law_merging_keeps_kinds(
        live_of(particles),
        0,
        |particle: Particle| particle.alive != 0,
    );
}

/// The live particles among some live, and there are no more of them.
pub(crate) proof fn lemma_live_particles_live(particles: Seq<Particle>)
    ensures
        live_of(particles).len() <= particles.len(),
        merging::all_are(live_of(particles), |particle: Particle| particle.alive != 0),
    decreases particles.len(),
{
    if particles.len() > 0 {
        lemma_live_particles_live(particles.drop_last());
    }
}

/// Particles that all live are kept as they are.
pub proof fn law_live_particles_are_kept(particles: Seq<Particle>)
    requires
        merging::all_are(particles, |particle: Particle| particle.alive != 0),
    ensures
        live_of(particles) == particles,
    decreases particles.len(),
{
    if particles.len() > 0 {
        let before = particles.drop_last();
        assert forall|i: int| 0 <= i < before.len() implies (#[trigger] before[i]).alive != 0 by {
            assert(before[i] == particles[i]);
        }
        law_live_particles_are_kept(before);
        assert(before.push(particles[particles.len() - 1]) == particles);
    }
}

/// Where particles change in neither life nor mass, neither do the live ones among them.
pub(crate) proof fn lemma_live_masses(a: Seq<Particle>, b: Seq<Particle>)
    requires
        a.len() == b.len(),
        forall|i: int|
            0 <= i < a.len() ==> (#[trigger] a[i]).alive == b[i].alive && a[i].mass == b[i].mass,
    ensures
        live_of(a).len() == live_of(b).len(),
        forall|i: int|
            0 <= i < live_of(a).len() ==> (#[trigger] live_of(a)[i]).mass == live_of(b)[i].mass,
    decreases a.len(),
{
    if a.len() > 0 {
        assert(a[a.len() - 1].alive == b[a.len() - 1].alive);
        lemma_live_masses(a.drop_last(), b.drop_last());
    }
}

} // verus!
