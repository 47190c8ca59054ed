//! A particle cloud for machines without vector arithmetic: every pair of particles is met once,
//! in ascending order.

use vstd::prelude::*;
use crate::binary32::{Binary32, HALF, ZERO};
use crate::bodies;
use crate::bodies::{
    attraction_factor, centre, merge, Body, Coordinate, Pair, EPSILON, GRAVITY_SOFTENING,
};
use crate::collision::particle_radius;
use crate::merging;
use crate::merging::Merging;
use crate::spawn;
use crate::spawn::{clockwise_count, spawn_particles, Sample};

verus! {

/// The number of particles of a cloud, few enough for one thread of a browser.
pub const PARTICLE_COUNT: usize = 2_000;

/// The mass of all particles together.
pub fn total_mass(particles: &[Body]) -> (total: Binary32)
    ensures
        total == bodies::mass_of(particles@),
{
    let mut total = Binary32::from_bits(ZERO);
    let mut i: usize = 0;
    while i < particles.len()
        invariant
            i <= particles.len(),
            total == bodies::mass_of_first(particles@, i as int),
        decreases particles.len() - i,
    {
        total = total + particles[i].mass;
        i = i + 1;
    }
    total
}

/// The largest mass of a particle; zero if there is none.
pub fn largest_mass(particles: &[Body]) -> (largest: Binary32)
    ensures
        largest == bodies::largest_of_first(particles@, particles@.len() as int),
{
    let mut largest = Binary32::from_bits(ZERO);
    let mut i: usize = 0;
    while i < particles.len()
        invariant
            i <= particles.len(),
            largest == bodies::largest_of_first(particles@, i as int),
        decreases particles.len() - i,
    {
        largest = largest.max(particles[i].mass);
        i = i + 1;
    }
    largest
}

/// Whether the particles weigh next to nothing.
pub open spec fn weightless(particles: Seq<Body>) -> bool {
    bodies::mass_of(particles).at_most(Binary32::from_bits(EPSILON))
}

/// The centre of mass; the origin if the particles weigh next to nothing.
pub fn center_of_mass(particles: &[Body]) -> (center: Pair)
    ensures
        center == if weightless(particles@) {
            bodies::nothing()
        } else {
            (
                bodies::mean_of(particles@, Coordinate::X),
                bodies::mean_of(particles@, Coordinate::Y),
            )
        },
{
    let zero = Binary32::from_bits(ZERO);
    let system_mass = total_mass(particles);
    if system_mass.at_most(Binary32::from_bits(EPSILON)) {
        return (zero, zero);
    }
    let mut weighted_x = zero;
    let mut weighted_y = zero;
    let mut i: usize = 0;
    while i < particles.len()
        invariant
            i <= particles.len(),
            weighted_x == bodies::moment_of_first(particles@, Coordinate::X, i as int),
            weighted_y == bodies::moment_of_first(particles@, Coordinate::Y, i as int),
        decreases particles.len() - i,
    {
        let particle = particles[i];
        weighted_x = weighted_x + particle.x * particle.mass;
        weighted_y = weighted_y + particle.y * particle.mass;
        i = i + 1;
    }
    (weighted_x / system_mass, weighted_y / system_mass)
}

/// Moves the centre of mass to the origin and takes the common velocity away, unless the
/// particles weigh next to nothing.
pub fn center_reference_frame(particles: &mut Vec<Body>)
    ensures
        final(particles)@ == if weightless(old(particles)@) {
            old(particles)@
        } else {
            bodies::centred(old(particles)@)
        },
{
    let system_mass = total_mass(particles.as_slice());
    if system_mass.at_most(Binary32::from_bits(EPSILON)) {
        return;
    }
    centre(particles, system_mass);
}

/// The particles that the cloud starts with, one for each sample: the given share of them
/// clockwise, all seen from their centre of mass.
pub fn create_particles(samples: &[Sample], clockwise_fraction: Binary32) -> (particles: Vec<Body>)
    ensures
        particles@ == {
            let all = spawn::spawned(
                samples@,
                spawn::clockwise_share(samples@.len(), clockwise_fraction) as int,
            );
            if weightless(all) {
                all
            } else {
                bodies::centred(all)
            }
        },
{
    let clockwise_count = clockwise_count(samples.len(), clockwise_fraction);
    let mut particles = spawn_particles(samples, clockwise_count);
    center_reference_frame(&mut particles);
    particles
}

/// The acceleration of a particle by the first `upto` particles, all of them before it.
pub open spec fn reacted(particles: Seq<Body>, position: int, upto: int) -> Pair
    decreases upto,
{
    if upto <= 0 {
        bodies::nothing()
    } else {
        let other = particles[upto - 1];
        bodies::minus(
            reacted(particles, position, upto - 1),
            bodies::pull(other, particles[position], other.mass),
        )
    }
}

/// The acceleration of a particle by all those before it and then, in ascending order, by those
/// behind it up to a position.
pub open spec fn attracted(particles: Seq<Body>, position: int, upto: int) -> Pair
    decreases upto,
{
    if upto <= position + 1 || upto <= 0 {
        reacted(particles, position, position)
    } else {
        let other = particles[upto - 1];
        bodies::plus(
            attracted(particles, position, upto - 1),
            bodies::pull(particles[position], other, other.mass),
        )
    }
}

/// The accelerations of all particles by all others.
pub open spec fn accelerations_of(particles: Seq<Body>) -> Seq<Pair> {
    Seq::new(particles.len(), |i: int| attracted(particles, i, particles.len() as int))
}

/// Works out the acceleration of every particle by all others.
pub fn calculate_accelerations(particles: &[Body], accelerations: &mut Vec<Pair>)
    ensures
        final(accelerations)@ == accelerations_of(particles@),
{
    let count = particles.len();
    let zero = Binary32::from_bits(ZERO);
    let softening_squared = Binary32::from_bits(GRAVITY_SOFTENING) * Binary32::from_bits(
        GRAVITY_SOFTENING,
    );
    accelerations.clear();
    let mut i: usize = 0;
    while i < count
        invariant
            i <= count == particles.len(),
            zero == Binary32::from_bits(ZERO),
            accelerations.len() == i,
            forall|k: int| 0 <= k < i ==> #[trigger] accelerations@[k] == reacted(particles@, k, 0),
        decreases count - i,
    {
        accelerations.push((zero, zero));
        i = i + 1;
    }
    let mut first_index: usize = 0;
    while first_index < count
        invariant
            first_index <= count == particles.len(),
            softening_squared == bodies::softening_squared(),
            accelerations.len() == count,
            forall|k: int|
                0 <= k < first_index ==> #[trigger] accelerations@[k] == attracted(
                    particles@,
                    k,
                    count as int,
                ),
            forall|k: int|
                first_index <= k < count ==> #[trigger] accelerations@[k] == reacted(
                    particles@,
                    k,
                    first_index as int,
                ),
        decreases count - first_index,
    {
        let first = particles[first_index];
        let mut second_index: usize = first_index + 1;
        while second_index < count
            invariant
                first_index < second_index <= count == particles.len(),
                softening_squared == bodies::softening_squared(),
                first == particles[first_index as int],
                accelerations.len() == count,
                forall|k: int|
                    0 <= k < first_index ==> #[trigger] accelerations@[k] == attracted(
                        particles@,
                        k,
                        count as int,
                    ),
                accelerations@[first_index as int] == attracted(
                    particles@,
                    first_index as int,
                    second_index as int,
                ),
                forall|k: int|
                    first_index < k < second_index ==> #[trigger] accelerations@[k] == reacted(
                        particles@,
                        k,
                        first_index + 1,
                    ),
                forall|k: int|
                    second_index <= k < count ==> #[trigger] accelerations@[k] == reacted(
                        particles@,
                        k,
                        first_index as int,
                    ),
            decreases count - second_index,
        {
            let second = particles[second_index];
            let displacement_x = second.x - first.x;
            let displacement_y = second.y - first.y;
            let softened_distance_squared = displacement_x * displacement_x + displacement_y
                * displacement_y + softening_squared;
            let common_factor = attraction_factor(softened_distance_squared);
            let (ax, ay) = accelerations[first_index];
            accelerations[first_index] = (
                ax + displacement_x * common_factor * second.mass,
                ay + displacement_y * common_factor * second.mass,
            );
            let (ax, ay) = accelerations[second_index];
            accelerations[second_index] = (
                ax - displacement_x * common_factor * first.mass,
                ay - displacement_y * common_factor * first.mass,
            );
            second_index = second_index + 1;
        }
        first_index = first_index + 1;
    }
}

/// A body after half a step of acceleration.
pub open spec fn kicked(body: Body, by: Pair, dt: Binary32) -> Body {
    let half_dt = dt * Binary32::from_bits(HALF);
    Body {
        velocity_x: body.velocity_x + by.0 * half_dt,
        velocity_y: body.velocity_y + by.1 * half_dt,
        ..body
    }
}

/// A body after it has moved for a whole step.
pub open spec fn moved(body: Body, dt: Binary32) -> Body {
    Body { x: body.x + body.velocity_x * dt, y: body.y + body.velocity_y * dt, ..body }
}

/// The particles after the second half kick, as far as there are accelerations.
pub open spec fn finished(particles: Seq<Body>, accelerations: Seq<Pair>, dt: Binary32) -> Seq<
    Body,
> {
    particles.map(
        |i: int, body: Body|
            if i < accelerations.len() {
                kicked(body, accelerations[i], dt)
            } else {
                body
            },
    )
}

/// The particles after the first half kick and the move, as far as there are accelerations.
pub open spec fn integrated(particles: Seq<Body>, accelerations: Seq<Pair>, dt: Binary32) -> Seq<
    Body,
> {
    particles.map(
        |i: int, body: Body|
            if i < accelerations.len() {
                moved(kicked(body, accelerations[i], dt), dt)
            } else {
                body
            },
    )
}

/// Gives every particle half a step of acceleration and then moves it for the whole step.
pub fn integrate_positions(particles: &mut Vec<Body>, accelerations: &[Pair], dt: Binary32)
    ensures
        final(particles)@ == integrated(old(particles)@, accelerations@, dt),
{
    let half_dt = dt * Binary32::from_bits(HALF);
    let ghost before = particles@;
    let ghost after = integrated(before, accelerations@, dt);
    let mut i: usize = 0;
    while i < particles.len() && i < accelerations.len()
        invariant
            half_dt == dt * Binary32::from_bits(HALF),
            particles.len() == before.len(),
            i <= particles.len(),
            i <= accelerations.len(),
            after == integrated(before, accelerations@, dt),
            forall|k: int| 0 <= k < i ==> #[trigger] particles@[k] == after[k],
            forall|k: int| i <= k < before.len() ==> #[trigger] particles@[k] == before[k],
        decreases particles.len() - i,
    {
        let mut particle = particles[i];
        let (ax, ay) = accelerations[i];
        particle.velocity_x = particle.velocity_x + ax * half_dt;
        particle.velocity_y = particle.velocity_y + ay * half_dt;
        particle.x = particle.x + particle.velocity_x * dt;
        particle.y = particle.y + particle.velocity_y * dt;
        particles[i] = particle;
        i = i + 1;
    }
    assert(particles@ == after);
}

/// Gives every particle half a step of acceleration.
pub fn finish_velocity_update(particles: &mut Vec<Body>, accelerations: &[Pair], dt: Binary32)
    ensures
        final(particles)@ == finished(old(particles)@, accelerations@, dt),
{
    let half_dt = dt * Binary32::from_bits(HALF);
    let ghost before = particles@;
    let ghost after = finished(before, accelerations@, dt);
    let mut i: usize = 0;
    while i < particles.len() && i < accelerations.len()
        invariant
            half_dt == dt * Binary32::from_bits(HALF),
            particles.len() == before.len(),
            i <= particles.len(),
            i <= accelerations.len(),
            after == finished(before, accelerations@, dt),
            forall|k: int| 0 <= k < i ==> #[trigger] particles@[k] == after[k],
            forall|k: int| i <= k < before.len() ==> #[trigger] particles@[k] == before[k],
        decreases particles.len() - i,
    {
        let mut particle = particles[i];
        let (ax, ay) = accelerations[i];
        particle.velocity_x = particle.velocity_x + ax * half_dt;
        particle.velocity_y = particle.velocity_y + ay * half_dt;
        particles[i] = particle;
        i = i + 1;
    }
    assert(particles@ == after);
}

/// Finds the first particle behind `first_index` that it touches.
pub fn find_collision(particles: &[Body], first_index: usize) -> (found: Option<usize>)
    requires
        first_index < particles.len(),
    ensures
        match found {
            Some(second) => merging::first_contact(particles@, first_index as int, first_index + 1)
                == Some(second as int),
            None => merging::first_contact(particles@, first_index as int, first_index + 1) is None,
        },
{
    let first = particles[first_index];
    let first_radius = particle_radius(first.mass);
    let mut second_index: usize = first_index + 1;
    while second_index < particles.len()
        invariant
            first_index < second_index <= particles.len(),
            first == particles[first_index as int],
            first_radius == particle_radius(first.mass),
            merging::first_contact(particles@, first_index as int, first_index + 1)
                == merging::first_contact(particles@, first_index as int, second_index as int),
        decreases particles.len() - second_index,
    {
        let second = particles[second_index];
        let dx = second.x - first.x;
        let dy = second.y - first.y;
        let collision_distance = first_radius + particle_radius(second.mass);
        if (dx * dx + dy * dy).at_most(collision_distance * collision_distance) {
            return Some(second_index);
        }
        second_index = second_index + 1;
    }
    None
}

/// Merges the second of two particles into the first and moves the last one into its place.
pub fn merge_pair(particles: &mut Vec<Body>, first_index: usize, second_index: usize)
    requires
        first_index < old(particles).len(),
        second_index < old(particles).len(),
    ensures
        final(particles)@ == merging::pair_merged(
            old(particles)@,
            first_index as int,
            second_index as int,
        ),
{
    let merged = merge(particles[first_index], particles[second_index]);
    particles[first_index] = merged;
    particles.swap_remove(second_index);
}

/// Merges all particles that touch. The search of a position starts over after each merge.
pub fn merge_colliding_particles(particles: &mut Vec<Body>)
    ensures
        final(particles)@ == merging::merged_from(old(particles)@, 0),
{
    let mut first_index: usize = 0;
    while first_index < particles.len()
        invariant
            first_index <= particles.len(),
            merging::merged_from(old(particles)@, 0) == merging::merged_from(
                particles@,
                first_index as int,
            ),
        decreases 2 * particles.len() - first_index,
    {
        match find_collision(particles.as_slice(), first_index) {
            Some(second_index) => {
                proof {
                    merging::lemma_contact_bounds(particles@, first_index as int, first_index + 1);
                }
                merge_pair(particles, first_index, second_index);
            },
            None => {
                first_index = first_index + 1;
            },
        }
    }
}

/// The particles after the first half kick, the move and the merging.
pub open spec fn drifted(particles: Seq<Body>, dt: Binary32) -> Seq<Body> {
    merging::merged_from(integrated(particles, accelerations_of(particles), dt), 0)
}

/// The particles after one step.
pub open spec fn updated(particles: Seq<Body>, dt: Binary32) -> Seq<Body> {
    let left = drifted(particles, dt);
    finished(left, accelerations_of(left), dt)
}

/// Advances the particles by one step. The array receives the accelerations of those that are
/// left; without particles, nothing changes.
pub fn update_system(particles: &mut Vec<Body>, accelerations: &mut Vec<Pair>, dt: Binary32)
    ensures
        final(particles)@ == updated(old(particles)@, dt),
        final(accelerations)@ == if old(particles)@.len() == 0 {
            old(accelerations)@
        } else {
            accelerations_of(drifted(old(particles)@, dt))
        },
{
    let ghost before = particles@;
    if particles.len() == 0 {
        proof {
            assert(integrated(before, accelerations_of(before), dt) == before);
            assert(drifted(before, dt) == before);
            assert(updated(before, dt) == before);
        }
        return;
    }
    calculate_accelerations(particles.as_slice(), accelerations);
    integrate_positions(particles, accelerations.as_slice(), dt);
    merge_colliding_particles(particles);
    calculate_accelerations(particles.as_slice(), accelerations);
    finish_velocity_update(particles, accelerations.as_slice(), dt);
}

/// A step adds no particles, and it leaves at least one of any.
pub proof fn law_step_adds_no_particles(particles: Seq<Body>, dt: Binary32)
    ensures
        updated(particles, dt).len() <= particles.len(),
        particles.len() > 0 ==> updated(particles, dt).len() > 0,
{
    merging::law_merging_leaves_some(
        integrated(particles, accelerations_of(particles), dt),
        0,
    );
}

/// A step keeps the total mass, exactly, where 24 bits hold every partial sum.
pub proof fn law_step_conserves_mass(particles: Seq<Body>, dt: Binary32, q: nat)
    requires
        q <= 252,
        merging::weights_are_short(particles, q),
    ensures
        merging::total_weight(updated(particles, dt)) == merging::total_weight(particles),
{
    let there = integrated(particles, accelerations_of(particles), dt);
    merging::lemma_total_of_same_weights(there, particles);
    assert forall|i: int| 0 <= i < there.len() implies merging::is_multiple(
        (#[trigger] there[i]).weight(),
        q,
    ) by {
        assert(particles[i].weight() == there[i].weight());
    }
    merging::law_weight_is_conserved(there, 0, q);
    merging::lemma_total_of_same_weights(updated(particles, dt), drifted(particles, dt));
}

} // verus!
