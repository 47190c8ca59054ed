//! A particle cloud laid out for eight-lane arithmetic: one array per property.
//!
//! Each first particle meets the particles behind it eight at a time, as long as there are eight,
//! and the rest one by one. The two ways round differently, so the contracts say which is used
//! where.

use vstd::prelude::*;
use crate::binary32;
use crate::binary32::{Binary32, HALF, ZERO};
use crate::bodies;
use crate::bodies::{attraction_factor, merge, Body, Coordinate, Pair, GRAVITY_SOFTENING};
use crate::collision::{particle_radius, PARTICLE_RADIUS_SCALE};
use crate::merging;
use crate::merging::Merging;
use crate::spawn;
use crate::spawn::{clockwise_count, spawn_particle, Sample};

verus! {

/// The number of particles of a cloud.
pub const PARTICLE_COUNT: usize = 10_000;

/// The number of lanes.
pub const SIMD_LANES: usize = 8;

/// The particles, one array per property.
pub struct Particles {
    x: Vec<Binary32>,
    y: Vec<Binary32>,
    velocity_x: Vec<Binary32>,
    velocity_y: Vec<Binary32>,
    mass: Vec<Binary32>,
    brightness: Vec<Binary32>,
}

impl View for Particles {
    type V = Seq<Body>;

    closed spec fn view(&self) -> Seq<Body> {
        Seq::new(
            self.x.len() as nat,
            |i: int|
                Body {
                    x: self.x@[i],
                    y: self.y@[i],
                    velocity_x: self.velocity_x@[i],
                    velocity_y: self.velocity_y@[i],
                    mass: self.mass@[i],
                    brightness: self.brightness@[i],
                },
        )
    }
}

impl Particles {
    /// All arrays are of one length.
    pub closed spec fn well_formed(&self) -> bool {
        &&& self.y.len() == self.x.len()
        &&& self.velocity_x.len() == self.x.len()
        &&& self.velocity_y.len() == self.x.len()
        &&& self.mass.len() == self.x.len()
        &&& self.brightness.len() == self.x.len()
    }

    /// No particles, with room for some.
    pub fn with_capacity(capacity: usize) -> (particles: Particles)
        ensures
            particles.well_formed(),
            particles@ == Seq::<Body>::empty(),
    {
        Particles {
            x: Vec::with_capacity(capacity),
            y: Vec::with_capacity(capacity),
            velocity_x: Vec::with_capacity(capacity),
            velocity_y: Vec::with_capacity(capacity),
            mass: Vec::with_capacity(capacity),
            brightness: Vec::with_capacity(capacity),
        }
    }

    /// The number of particles.
    pub fn len(&self) -> (count: usize)
        requires
            self.well_formed(),
        ensures
            count == self@.len(),
    {
        self.x.len()
    }

    /// Whether there are no particles.
    pub fn is_empty(&self) -> (empty: bool)
        requires
            self.well_formed(),
        ensures
            empty == (self@.len() == 0),
    {
        self.x.len() == 0
    }

    /// The particle at a position.
    pub fn get(&self, index: usize) -> (body: Body)
        requires
            self.well_formed(),
            index < self@.len(),
        ensures
            body == self@[index as int],
    {
        Body {
            x: self.x[index],
            y: self.y[index],
            velocity_x: self.velocity_x[index],
            velocity_y: self.velocity_y[index],
            mass: self.mass[index],
            brightness: self.brightness[index],
        }
    }

    /// All particles, in order.
    pub fn to_bodies(&self) -> (bodies: Vec<Body>)
        requires
            self.well_formed(),
        ensures
            bodies@ == self@,
    {
        let mut bodies: Vec<Body> = Vec::with_capacity(self.x.len());
        let mut i: usize = 0;
        while i < self.len()
            invariant
                self.well_formed(),
                i <= self@.len(),
                bodies@ == self@.take(i as int),
            decreases self@.len() - i,
        {
            bodies.push(self.get(i));
            i = i + 1;
        }
        bodies
    }

    /// Overwrites the particle at a position.
    pub fn set(&mut self, index: usize, body: Body)
        requires
            old(self).well_formed(),
            index < old(self)@.len(),
        ensures
            final(self).well_formed(),
            final(self)@ == old(self)@.update(index as int, body),
    {
        self.x[index] = body.x;
        self.y[index] = body.y;
        self.velocity_x[index] = body.velocity_x;
        self.velocity_y[index] = body.velocity_y;
        self.mass[index] = body.mass;
        self.brightness[index] = body.brightness;
    }

    /// Adds a particle at the end.
    pub fn push(&mut self, particle: Body)
        requires
            old(self).well_formed(),
        ensures
            final(self).well_formed(),
            final(self)@ == old(self)@.push(particle),
    {
        self.x.push(particle.x);
        self.y.push(particle.y);
        self.velocity_x.push(particle.velocity_x);
        self.velocity_y.push(particle.velocity_y);
        self.mass.push(particle.mass);
        self.brightness.push(particle.brightness);
    }

    /// Takes a particle out and moves the last one into its place.
    pub fn swap_remove(&mut self, index: usize)
        requires
            old(self).well_formed(),
            index < old(self)@.len(),
        ensures
            final(self).well_formed(),
            final(self)@ == merging::without(old(self)@, index as int),
    {
        self.x.swap_remove(index);
        self.y.swap_remove(index);
        self.velocity_x.swap_remove(index);
        self.velocity_y.swap_remove(index);
        self.mass.swap_remove(index);
        self.brightness.swap_remove(index);
    }

    /// The mass of all particles together.
    pub fn total_mass(&self) -> (total: Binary32)
        requires
            self.well_formed(),
        ensures
            total == bodies::mass_of(self@),
    {
        let mut total = Binary32::from_bits(ZERO);
        let mut i: usize = 0;
        while i < self.x.len()
            invariant
                self.well_formed(),
                i <= self.x.len(),
                total == bodies::mass_of_first(self@, i as int),
            decreases self.x.len() - i,
        {
            total = total + self.mass[i];
            i = i + 1;
        }
        total
    }

    /// The largest mass of a particle; zero if there is none.
    pub fn largest_mass(&self) -> (largest: Binary32)
        requires
            self.well_formed(),
        ensures
            largest == bodies::largest_of_first(self@, self@.len() as int),
    {
        let mut largest = Binary32::from_bits(ZERO);
        let mut i: usize = 0;
        while i < self.x.len()
            invariant
                self.well_formed(),
                i <= self.x.len(),
                largest == bodies::largest_of_first(self@, i as int),
            decreases self.x.len() - i,
        {
            largest = largest.max(self.mass[i]);
            i = i + 1;
        }
        largest
    }

    /// The centre of mass; the origin if the particles weigh nothing.
    pub fn center_of_mass(&self) -> (center: (Binary32, Binary32))
        requires
            self.well_formed(),
        ensures
            center == if bodies::mass_of(self@).same(Binary32::from_bits(ZERO)) {
                (Binary32::from_bits(ZERO), Binary32::from_bits(ZERO))
            } else {
                (
                    bodies::mean_of(self@, Coordinate::X),
                    bodies::mean_of(self@, Coordinate::Y),
                )
            },
    {
        let zero = Binary32::from_bits(ZERO);
        let total_mass = self.total_mass();
        if total_mass.same(zero) {
            return (zero, zero);
        }
        let mut weighted_x = zero;
        let mut weighted_y = zero;
        let mut i: usize = 0;
        while i < self.x.len()
            invariant
                self.well_formed(),
                i <= self.x.len(),
                weighted_x == bodies::moment_of_first(self@, Coordinate::X, i as int),
                weighted_y == bodies::moment_of_first(self@, Coordinate::Y, i as int),
            decreases self.x.len() - i,
        {
            weighted_x = weighted_x + self.x[i] * self.mass[i];
            weighted_y = weighted_y + self.y[i] * self.mass[i];
            i = i + 1;
        }
        (weighted_x / total_mass, weighted_y / total_mass)
    }

    /// Moves the centre of mass to the origin and takes the common velocity away, unless the
    /// particles weigh nothing.
    pub fn center_reference_frame(&mut self)
        requires
            old(self).well_formed(),
        ensures
            final(self).well_formed(),
            final(self)@ == if bodies::mass_of(old(self)@).same(Binary32::from_bits(ZERO)) {
                old(self)@
            } else {
                bodies::centred(old(self)@)
            },
    {
        let zero = Binary32::from_bits(ZERO);
        let total_mass = self.total_mass();
        if total_mass.same(zero) {
            return;
        }
        let ghost before = self@;
        let mut weighted_x = zero;
        let mut weighted_y = zero;
        let mut total_momentum_x = zero;
        let mut total_momentum_y = zero;
        let mut i: usize = 0;
        while i < self.x.len()
            invariant
                self.well_formed(),
                self@ == before,
                i <= self.x.len(),
                weighted_x == bodies::moment_of_first(before, Coordinate::X, i as int),
                weighted_y == bodies::moment_of_first(before, Coordinate::Y, i as int),
                total_momentum_x == bodies::moment_of_first(
                    before,
                    Coordinate::VelocityX,
                    i as int,
                ),
                total_momentum_y == bodies::moment_of_first(
                    before,
                    Coordinate::VelocityY,
                    i as int,
                ),
            decreases self.x.len() - i,
        {
            let mass = self.mass[i];
            weighted_x = weighted_x + self.x[i] * mass;
            weighted_y = weighted_y + self.y[i] * mass;
            total_momentum_x = total_momentum_x + self.velocity_x[i] * mass;
            total_momentum_y = total_momentum_y + self.velocity_y[i] * mass;
            i = i + 1;
        }
        let center_x = weighted_x / total_mass;
        let center_y = weighted_y / total_mass;
        let bulk_velocity_x = total_momentum_x / total_mass;
        let bulk_velocity_y = total_momentum_y / total_mass;
        let mut i: usize = 0;
        while i < self.len()
            invariant
                self.well_formed(),
                self@.len() == before.len(),
                i <= self@.len(),
                center_x == bodies::mean_of(before, Coordinate::X),
                center_y == bodies::mean_of(before, Coordinate::Y),
                bulk_velocity_x == bodies::mean_of(before, Coordinate::VelocityX),
                bulk_velocity_y == bodies::mean_of(before, Coordinate::VelocityY),
                forall|k: int| 0 <= k < i ==> #[trigger] self@[k] == bodies::centred(before)[k],
                forall|k: int| i <= k < before.len() ==> #[trigger] self@[k] == before[k],
            decreases self@.len() - i,
        {
            let body = self.get(i);
            self.set(
                i,
                Body {
                    x: body.x - center_x,
                    y: body.y - center_y,
                    velocity_x: body.velocity_x - bulk_velocity_x,
                    velocity_y: body.velocity_y - bulk_velocity_y,
                    ..body
                },
            );
            i = i + 1;
        }
        assert(self@ == bodies::centred(before));
    }
}

/// The particles that the cloud starts with, one for each sample: the given share of them
/// clockwise, all seen from their centre of mass.
pub fn create_particles(samples: &[Sample], clockwise_fraction: Binary32) -> (particles: Particles)
    ensures
        particles.well_formed(),
        particles@ == {
            let all = spawn::spawned(
                samples@,
                spawn::clockwise_share(samples@.len(), clockwise_fraction) as int,
            );
            if bodies::mass_of(all).same(Binary32::from_bits(ZERO)) {
                all
            } else {
                bodies::centred(all)
            }
        },
{
    let clockwise_count = clockwise_count(samples.len(), clockwise_fraction);
    let ghost all = spawn::spawned(samples@, clockwise_count as int);
    let mut particles = Particles::with_capacity(samples.len());
    let mut i: usize = 0;
    while i < samples.len()
        invariant
            i <= samples.len(),
            all == spawn::spawned(samples@, clockwise_count as int),
            particles.well_formed(),
            particles@ == all.take(i as int),
        decreases samples.len() - i,
    {
        particles.push(spawn_particle(samples[i], i < clockwise_count));
        i = i + 1;
    }
    proof {
        assert(particles@ == all);
    }
    particles.center_reference_frame();
    particles
}

/// The first position behind `first` whose particle is met alone.
pub open spec fn lanes_end(first: int, count: int) -> int {
    first + 1 + SIMD_LANES * ((count - first - 1) / SIMD_LANES as int)
}

/// The acceleration of one body by a mass at the place of another, as the lanes compute it.
pub open spec fn lane_pull(body: Body, other: Body, mass: Binary32) -> Pair {
    let (dx, dy) = body.towards(other);
    let factor = bodies::attraction(dx * dx + (dy * dy + bodies::softening_squared())) * mass;
    (dx * factor, dy * factor)
}

/// The acceleration of the particle at `first` by a mass at the place of the one at `second`.
pub open spec fn met(particles: Seq<Body>, first: int, second: int, mass: Binary32) -> Pair {
    if second < lanes_end(first, particles.len() as int) {
        lane_pull(particles[first], particles[second], mass)
    } else {
        bodies::pull(particles[first], particles[second], mass)
    }
}

/// The acceleration of a particle by the first `upto` particles, all of them before it.
pub open spec fn reacted(particles: Seq<Body>, position: int, upto: int) -> Pair
    decreases upto,
{
    if upto <= 0 {
        bodies::nothing()
    } else {
        bodies::minus(
            reacted(particles, position, upto - 1),
            met(particles, upto - 1, position, particles[upto - 1].mass),
        )
    }
}

/// The acceleration that one lane sums up over the first groups behind a particle.
pub open spec fn lane_sum(particles: Seq<Body>, first: int, lane: int, groups: int) -> Pair
    decreases groups,
{
    if groups <= 0 {
        bodies::nothing()
    } else {
        let other = particles[first + 1 + SIMD_LANES * (groups - 1) + lane];
        bodies::plus(
            lane_sum(particles, first, lane, groups - 1),
            lane_pull(particles[first], other, other.mass),
        )
    }
}

/// The acceleration by the particles met alone, up to a position.
pub open spec fn rest_sum(particles: Seq<Body>, first: int, upto: int) -> Pair
    decreases upto,
{
    if upto <= lanes_end(first, particles.len() as int) || upto <= 0 {
        bodies::nothing()
    } else {
        let other = particles[upto - 1];
        bodies::plus(
            rest_sum(particles, first, upto - 1),
            bodies::pull(particles[first], other, other.mass),
        )
    }
}

/// The lanes added up: the halves, then pairs two apart, then neighbours.
pub open spec fn horizontal_sum(lanes: Seq<Binary32>) -> Binary32 {
    ((lanes[0] + lanes[4]) + (lanes[2] + lanes[6])) + ((lanes[1] + lanes[5]) + (lanes[3] + lanes[7]))
}

/// The acceleration of a particle by those behind it.
pub open spec fn attracted(particles: Seq<Body>, first: int) -> Pair {
    let count = particles.len() as int;
    let groups = (count - first - 1) / SIMD_LANES as int;
    let rest = rest_sum(particles, first, count);
    let lanes_x = Seq::new(
        SIMD_LANES as nat,
        |lane: int| lane_sum(particles, first, lane, groups).0,
    );
    let lanes_y = Seq::new(
        SIMD_LANES as nat,
        |lane: int| lane_sum(particles, first, lane, groups).1,
    );
    (horizontal_sum(lanes_x) + rest.0, horizontal_sum(lanes_y) + rest.1)
}

/// The acceleration of a particle by all others.
pub open spec fn acceleration(particles: Seq<Body>, position: int) -> Pair {
    bodies::plus(reacted(particles, position, position), attracted(particles, position))
}

/// The accelerations of all particles along one axis.
pub open spec fn accelerations_x(particles: Seq<Body>) -> Seq<Binary32> {
    Seq::new(particles.len(), |i: int| acceleration(particles, i).0)
}

/// The accelerations of all particles along the other axis.
pub open spec fn accelerations_y(particles: Seq<Body>) -> Seq<Binary32> {
    Seq::new(particles.len(), |i: int| acceleration(particles, i).1)
}

/// The lanes added up.
pub fn horizontal_sum_f32x8(vector: &[Binary32; 8]) -> (sum: Binary32)
    ensures
        sum == horizontal_sum(vector@),
{
    let sum0 = vector[0] + vector[4];
    let sum1 = vector[1] + vector[5];
    let sum2 = vector[2] + vector[6];
    let sum3 = vector[3] + vector[7];
    (sum0 + sum2) + (sum1 + sum3)
}

/// Works out the acceleration of every particle by all others.
pub fn calculate_accelerations_avx2(
    particles: &Particles,
    acceleration_x: &mut Vec<Binary32>,
    acceleration_y: &mut Vec<Binary32>,
)
    requires
        particles.well_formed(),
    ensures
        final(acceleration_x)@ == accelerations_x(particles@),
        final(acceleration_y)@ == accelerations_y(particles@),
{
    let particle_count = particles.len();
    let ghost all = particles@;
    let zero = Binary32::from_bits(ZERO);
    acceleration_x.clear();
    acceleration_y.clear();
    let mut i: usize = 0;
    while i < particle_count
        invariant
            i <= particle_count == all.len(),
            zero == Binary32::from_bits(ZERO),
            acceleration_x.len() == i,
            acceleration_y.len() == i,
            forall|k: int| 0 <= k < i ==> #[trigger] acceleration_x@[k] == reacted(all, k, 0).0,
            forall|k: int| 0 <= k < i ==> #[trigger] acceleration_y@[k] == reacted(all, k, 0).1,
        decreases particle_count - i,
    {
        acceleration_x.push(zero);
        acceleration_y.push(zero);
        i = i + 1;
    }
    let mut first_index: usize = 0;
    while first_index < particle_count
        invariant
            particles.well_formed(),
            particles@ == all,
            first_index <= particle_count == all.len(),
            acceleration_x.len() == particle_count,
            acceleration_y.len() == particle_count,
            forall|k: int|
                0 <= k < first_index ==> #[trigger] acceleration_x@[k] == acceleration(all, k).0,
            forall|k: int|
                0 <= k < first_index ==> #[trigger] acceleration_y@[k] == acceleration(all, k).1,
            forall|k: int|
                first_index <= k < particle_count ==> #[trigger] acceleration_x@[k] == reacted(
                    all,
                    k,
                    first_index as int,
                ).0,
            forall|k: int|
                first_index <= k < particle_count ==> #[trigger] acceleration_y@[k] == reacted(
                    all,
                    k,
                    first_index as int,
                ).1,
        decreases particle_count - first_index,
    {
        let (own_x, own_y) = meet_particles_behind(
            particles,
            first_index,
            acceleration_x,
            acceleration_y,
        );
        acceleration_x[first_index] = acceleration_x[first_index] + own_x;
        acceleration_y[first_index] = acceleration_y[first_index] + own_y;
        first_index = first_index + 1;
    }
}

/// Lets one particle meet all those behind it: hands back its own acceleration and takes the
/// opposite effect off the accelerations of the others.
fn meet_particles_behind(
    particles: &Particles,
    first_index: usize,
    acceleration_x: &mut Vec<Binary32>,
    acceleration_y: &mut Vec<Binary32>,
) -> (own: Pair)
    requires
        particles.well_formed(),
        first_index < particles@.len(),
        old(acceleration_x).len() == particles@.len(),
        old(acceleration_y).len() == particles@.len(),
    ensures
        own == attracted(particles@, first_index as int),
        final(acceleration_x)@ == Seq::new(
            particles@.len(),
            |k: int|
                if k <= first_index {
                    old(acceleration_x)@[k]
                } else {
                    old(acceleration_x)@[k] - met(
                        particles@,
                        first_index as int,
                        k,
                        particles@[first_index as int].mass,
                    ).0
                },
        ),
        final(acceleration_y)@ == Seq::new(
            particles@.len(),
            |k: int|
                if k <= first_index {
                    old(acceleration_y)@[k]
                } else {
                    old(acceleration_y)@[k] - met(
                        particles@,
                        first_index as int,
                        k,
                        particles@[first_index as int].mass,
                    ).1
                },
        ),
{
    let particle_count = particles.len();
    let ghost all = particles@;
    let ghost f = first_index as int;
    let ghost (before_x, before_y) = (acceleration_x@, acceleration_y@);
    let zero = Binary32::from_bits(ZERO);
    let softening_squared = Binary32::from_bits(GRAVITY_SOFTENING) * Binary32::from_bits(
        GRAVITY_SOFTENING,
    );
    let first = particles.get(first_index);
    let mut lanes_x: [Binary32; 8] = [zero; 8];
    let mut lanes_y: [Binary32; 8] = [zero; 8];
    let mut second_index: usize = first_index + 1;
    let ghost mut groups: int = 0;
    while particle_count - second_index >= SIMD_LANES
        invariant
            particles.well_formed(),
            particles@ == all,
            particle_count == all.len(),
            f == first_index,
            first_index < second_index <= particle_count,
            first == all[f],
            softening_squared == bodies::softening_squared(),
            second_index == f + 1 + SIMD_LANES * groups,
            groups >= 0,
            acceleration_x.len() == particle_count,
            acceleration_y.len() == particle_count,
            before_x.len() == particle_count,
            before_y.len() == particle_count,
            forall|lane: int|
                0 <= lane < SIMD_LANES ==> (#[trigger] lanes_x@[lane]) == lane_sum(all, f, lane, groups).0,
            forall|lane: int|
                0 <= lane < SIMD_LANES ==> (#[trigger] lanes_y@[lane]) == lane_sum(all, f, lane, groups).1,
            forall|k: int|
                0 <= k < particle_count ==> #[trigger] acceleration_x@[k] == if f < k < second_index {
                    before_x[k] - met(all, f, k, first.mass).0
                } else {
                    before_x[k]
                },
            forall|k: int|
                0 <= k < particle_count ==> #[trigger] acceleration_y@[k] == if f < k < second_index {
                    before_y[k] - met(all, f, k, first.mass).1
                } else {
                    before_y[k]
                },
        decreases particle_count - second_index,
    {
        let mut lane: usize = 0;
        while lane < SIMD_LANES
            invariant
                particles.well_formed(),
                particles@ == all,
                particle_count == all.len(),
                f == first_index,
                first_index < second_index,
                second_index + SIMD_LANES <= particle_count,
                lane <= SIMD_LANES,
                first == all[f],
                softening_squared == bodies::softening_squared(),
                second_index == f + 1 + SIMD_LANES * groups,
                groups >= 0,
                acceleration_x.len() == particle_count,
                acceleration_y.len() == particle_count,
                before_x.len() == particle_count,
                before_y.len() == particle_count,
                forall|l: int|
                    0 <= l < SIMD_LANES ==> (#[trigger] lanes_x@[l]) == lane_sum(
                        all,
                        f,
                        l,
                        if l < lane {
                            groups + 1
                        } else {
                            groups
                        },
                    ).0,
                forall|l: int|
                    0 <= l < SIMD_LANES ==> (#[trigger] lanes_y@[l]) == lane_sum(
                        all,
                        f,
                        l,
                        if l < lane {
                            groups + 1
                        } else {
                            groups
                        },
                    ).1,
                forall|k: int|
                    0 <= k < particle_count ==> #[trigger] acceleration_x@[k] == if f < k
                        < second_index + lane {
                        before_x[k] - met(all, f, k, first.mass).0
                    } else {
                        before_x[k]
                    },
                forall|k: int|
                    0 <= k < particle_count ==> #[trigger] acceleration_y@[k] == if f < k
                        < second_index + lane {
                        before_y[k] - met(all, f, k, first.mass).1
                    } else {
                        before_y[k]
                    },
            decreases SIMD_LANES - lane,
        {
            let position = second_index + lane;
            let second = particles.get(position);
            let displacement_x = second.x - first.x;
            let displacement_y = second.y - first.y;
            let distance_squared = displacement_x * displacement_x + (displacement_y
                * displacement_y + softening_squared);
            let common_factor = attraction_factor(distance_squared);
            let second_weighted_factor = common_factor * second.mass;
            lanes_x[lane] = lanes_x[lane] + displacement_x * second_weighted_factor;
            lanes_y[lane] = lanes_y[lane] + displacement_y * second_weighted_factor;
            let first_weighted_factor = common_factor * first.mass;
            proof {
                lemma_in_lanes(f, position as int, groups, particle_count as int);
            }
            acceleration_x[position] = acceleration_x[position] - displacement_x
                * first_weighted_factor;
            acceleration_y[position] = acceleration_y[position] - displacement_y
                * first_weighted_factor;
            lane = lane + 1;
        }
        second_index = second_index + SIMD_LANES;
        proof {
            groups = groups + 1;
        }
    }
    proof {
        assert(groups == (particle_count - f - 1) / SIMD_LANES as int);
    }
    let mut scalar_x = zero;
    let mut scalar_y = zero;
    while second_index < particle_count
        invariant
            particles.well_formed(),
            particles@ == all,
            particle_count == all.len(),
            f == first_index,
            first_index < second_index <= particle_count,
            lanes_end(f, particle_count as int) <= second_index,
            first == all[f],
            softening_squared == bodies::softening_squared(),
            acceleration_x.len() == particle_count,
            acceleration_y.len() == particle_count,
            before_x.len() == particle_count,
            before_y.len() == particle_count,
            (scalar_x, scalar_y) == rest_sum(all, f, second_index as int),
            forall|k: int|
                0 <= k < particle_count ==> #[trigger] acceleration_x@[k] == if f < k < second_index {
                    before_x[k] - met(all, f, k, first.mass).0
                } else {
                    before_x[k]
                },
            forall|k: int|
                0 <= k < particle_count ==> #[trigger] acceleration_y@[k] == if f < k < second_index {
                    before_y[k] - met(all, f, k, first.mass).1
                } else {
                    before_y[k]
                },
        decreases particle_count - second_index,
    {
        let second = particles.get(second_index);
        let displacement_x = second.x - first.x;
        let displacement_y = second.y - first.y;
        let distance_squared = displacement_x * displacement_x + displacement_y * displacement_y
            + softening_squared;
        let common_factor = attraction_factor(distance_squared);
        scalar_x = scalar_x + displacement_x * common_factor * second.mass;
        scalar_y = scalar_y + displacement_y * common_factor * second.mass;
        acceleration_x[second_index] = acceleration_x[second_index] - displacement_x * common_factor
            * first.mass;
        acceleration_y[second_index] = acceleration_y[second_index] - displacement_y * common_factor
            * first.mass;
        second_index = second_index + 1;
    }
    proof {
        let sums = (particle_count - f - 1) / SIMD_LANES as int;
        assert(lanes_x@ == Seq::new(
            SIMD_LANES as nat,
            |lane: int| lane_sum(all, f, lane, sums).0,
        ));
        assert(lanes_y@ == Seq::new(
            SIMD_LANES as nat,
            |lane: int| lane_sum(all, f, lane, sums).1,
        ));
    }
    (
        horizontal_sum_f32x8(&lanes_x) + scalar_x,
        horizontal_sum_f32x8(&lanes_y) + scalar_y,
    )
}

/// A whole group of lanes ends before the particles that are met alone.
proof fn lemma_in_lanes(first: int, position: int, groups: int, count: int)
    requires
        0 <= groups,
        first + 1 + SIMD_LANES * groups <= position < first + 1 + SIMD_LANES * (groups + 1) <= count,
    ensures
        position < lanes_end(first, count),
{
    assert((count - first - 1) / 8 >= groups + 1);
}

/// A velocity after half a step of acceleration, as the lanes compute it or as for one particle
/// alone.
pub open spec fn half_kicked(
    velocity: Binary32,
    acceleration: Binary32,
    dt: Binary32,
    in_lanes: bool,
) -> Binary32 {
    let half = Binary32::from_bits(HALF);
    if in_lanes {
        velocity + acceleration * (dt * half)
    } else {
        velocity + acceleration * dt * half
    }
}

/// A body after half a step of acceleration.
pub open spec fn kicked(body: Body, by: Pair, dt: Binary32, in_lanes: bool) -> Body {
    Body {
        velocity_x: half_kicked(body.velocity_x, by.0, dt, in_lanes),
        velocity_y: half_kicked(body.velocity_y, by.1, dt, in_lanes),
        ..body
    }
}

/// A body after it has moved for a whole step.
pub open spec fn moved(body: Body, dt: Binary32) -> Body {
    Body { x: body.x + body.velocity_x * dt, y: body.y + body.velocity_y * dt, ..body }
}

/// Whether the particle at a position is updated in a group of eight.
pub open spec fn in_lanes(position: int, count: int) -> bool {
    position < SIMD_LANES * (count / SIMD_LANES as int)
}

/// The particles after the second half kick, by given accelerations.
pub open spec fn finished(
    particles: Seq<Body>,
    acceleration_x: Seq<Binary32>,
    acceleration_y: Seq<Binary32>,
    dt: Binary32,
) -> Seq<Body> {
    particles.map(
        |i: int, body: Body|
            kicked(
                body,
                (acceleration_x[i], acceleration_y[i]),
                dt,
                in_lanes(i, particles.len() as int),
            ),
    )
}

/// The particles after the first half kick and the move, by given accelerations.
pub open spec fn integrated(
    particles: Seq<Body>,
    acceleration_x: Seq<Binary32>,
    acceleration_y: Seq<Binary32>,
    dt: Binary32,
) -> Seq<Body> {
    finished(particles, acceleration_x, acceleration_y, dt).map(
        |i: int, body: Body| moved(body, dt),
    )
}

/// The velocity after half a step of acceleration.
fn half_kick(velocity: Binary32, acceleration: Binary32, dt: Binary32, lanes: bool) -> (after:
    Binary32)
    ensures
        after == half_kicked(velocity, acceleration, dt, lanes),
{
    let half = Binary32::from_bits(HALF);
    if lanes {
        velocity + acceleration * (dt * half)
    } else {
        velocity + acceleration * dt * half
    }
}

/// Gives every particle half a step of acceleration and then moves it for the whole step.
pub fn integrate_positions_avx2(
    particles: &mut Particles,
    acceleration_x: &[Binary32],
    acceleration_y: &[Binary32],
    dt: Binary32,
)
    requires
        old(particles).well_formed(),
        acceleration_x.len() >= old(particles)@.len(),
        acceleration_y.len() >= old(particles)@.len(),
    ensures
        final(particles).well_formed(),
        final(particles)@ == integrated(old(particles)@, acceleration_x@, acceleration_y@, dt),
{
    let particle_count = particles.len();
    let whole = particle_count - particle_count % SIMD_LANES;
    let ghost before = particles@;
    let ghost after = integrated(before, acceleration_x@, acceleration_y@, dt);
    let mut index: usize = 0;
    while index < particle_count
        invariant
            particles.well_formed(),
            index <= particle_count == before.len(),
            particles@.len() == before.len(),
            whole == SIMD_LANES * (particle_count as int / SIMD_LANES as int),
            acceleration_x.len() >= particle_count,
            acceleration_y.len() >= particle_count,
            after == integrated(before, acceleration_x@, acceleration_y@, dt),
            forall|k: int| 0 <= k < index ==> #[trigger] particles@[k] == after[k],
            forall|k: int| index <= k < particle_count ==> #[trigger] particles@[k] == before[k],
        decreases particle_count - index,
    {
        let mut body = particles.get(index);
        body.velocity_x = half_kick(body.velocity_x, acceleration_x[index], dt, index < whole);
        body.velocity_y = half_kick(body.velocity_y, acceleration_y[index], dt, index < whole);
        body.x = body.x + body.velocity_x * dt;
        body.y = body.y + body.velocity_y * dt;
        particles.set(index, body);
        index = index + 1;
    }
    assert(particles@ == after);
}

/// Gives every particle half a step of acceleration.
pub fn finish_velocity_update_avx2(
    particles: &mut Particles,
    acceleration_x: &[Binary32],
    acceleration_y: &[Binary32],
    dt: Binary32,
)
    requires
        old(particles).well_formed(),
        acceleration_x.len() >= old(particles)@.len(),
        acceleration_y.len() >= old(particles)@.len(),
    ensures
        final(particles).well_formed(),
        final(particles)@ == finished(old(particles)@, acceleration_x@, acceleration_y@, dt),
{
    let particle_count = particles.len();
    let whole = particle_count - particle_count % SIMD_LANES;
    let ghost before = particles@;
    let ghost after = finished(before, acceleration_x@, acceleration_y@, dt);
    let mut index: usize = 0;
    while index < particle_count
        invariant
            particles.well_formed(),
            index <= particle_count == before.len(),
            particles@.len() == before.len(),
            whole == SIMD_LANES * (particle_count as int / SIMD_LANES as int),
            acceleration_x.len() >= particle_count,
            acceleration_y.len() >= particle_count,
            after == finished(before, acceleration_x@, acceleration_y@, dt),
            forall|k: int| 0 <= k < index ==> #[trigger] particles@[k] == after[k],
            forall|k: int| index <= k < particle_count ==> #[trigger] particles@[k] == before[k],
        decreases particle_count - index,
    {
        let mut body = particles.get(index);
        body.velocity_x = half_kick(body.velocity_x, acceleration_x[index], dt, index < whole);
        body.velocity_y = half_kick(body.velocity_y, acceleration_y[index], dt, index < whole);
        particles.set(index, body);
        index = index + 1;
    }
    assert(particles@ == after);
}

/// Finds the first particle behind `first_index` that it touches: eight at a time, as long as
/// there are eight, and then one by one.
pub fn find_collision_avx2(particles: &Particles, first_index: usize) -> (found: Option<usize>)
    requires
        particles.well_formed(),
        first_index < particles@.len(),
    ensures
        match found {
            Some(second) => merging::first_contact(particles@, first_index as int, first_index + 1)
                == Some(second as int),
            None => merging::first_contact(particles@, first_index as int, first_index + 1) is None,
        },
{
    let particle_count = particles.len();
    let first = particles.get(first_index);
    let first_radius = particle_radius(first.mass);
    let radius_scale = Binary32::from_bits(PARTICLE_RADIUS_SCALE);
    let ghost f = first_index as int;
    let mut second_index: usize = first_index + 1;
    while particle_count - second_index >= SIMD_LANES
        invariant
            particles.well_formed(),
            particle_count == particles@.len(),
            f == first_index,
            first_index < second_index <= particle_count,
            first == particles@[f],
            first_radius == particle_radius(first.mass),
            radius_scale == Binary32::from_bits(PARTICLE_RADIUS_SCALE),
            merging::first_contact(particles@, f, f + 1) == merging::first_contact(
                particles@,
                f,
                second_index as int,
            ),
        decreases particle_count - second_index,
    {
        let mut lane: usize = 0;
        while lane < SIMD_LANES
            invariant
                particles.well_formed(),
                particle_count == particles@.len(),
                f == first_index,
                first_index < second_index,
                second_index + SIMD_LANES <= particle_count,
                lane <= SIMD_LANES,
                first == particles@[f],
                first_radius == particle_radius(first.mass),
                radius_scale == Binary32::from_bits(PARTICLE_RADIUS_SCALE),
                merging::first_contact(particles@, f, f + 1) == merging::first_contact(
                    particles@,
                    f,
                    second_index + lane,
                ),
            decreases SIMD_LANES - lane,
        {
            let second = particles.get(second_index + lane);
            let displacement_x = second.x - first.x;
            let displacement_y = second.y - first.y;
            let distance_squared = displacement_x * displacement_x + displacement_y
                * displacement_y;
            let second_radius = second.mass.sqrt() * radius_scale;
            proof {
                binary32::law_multiplication_commutes(second.mass.root(), radius_scale);
            }
            let collision_distance = first_radius + second_radius;
            if distance_squared.at_most(collision_distance * collision_distance) {
                return Some(second_index + lane);
            }
            lane = lane + 1;
        }
        second_index = second_index + SIMD_LANES;
    }
    while second_index < particle_count
        invariant
            particles.well_formed(),
            particle_count == particles@.len(),
            f == first_index,
            first_index < second_index <= particle_count,
            first == particles@[f],
            first_radius == particle_radius(first.mass),
            merging::first_contact(particles@, f, f + 1) == merging::first_contact(
                particles@,
                f,
                second_index as int,
            ),
        decreases particle_count - second_index,
    {
        let second = particles.get(second_index);
        let displacement_x = second.x - first.x;
        let displacement_y = second.y - first.y;
        let collision_distance = first_radius + particle_radius(second.mass);
        if (displacement_x * displacement_x + displacement_y * displacement_y).at_most(
            collision_distance * collision_distance,
        ) {
            return Some(second_index);
        }
        second_index = second_index + 1;
    }
    None
}

/// Merges the second of two particles into the first and moves the last one into its place.
pub fn merge_pair(particles: &mut Particles, first_index: usize, second_index: usize)
    requires
        old(particles).well_formed(),
        first_index < old(particles)@.len(),
        second_index < old(particles)@.len(),
    ensures
        final(particles).well_formed(),
        final(particles)@ == merging::pair_merged(
            old(particles)@,
            first_index as int,
            second_index as int,
        ),
{
    let merged = merge(particles.get(first_index), particles.get(second_index));
    particles.set(first_index, merged);
    particles.swap_remove(second_index);
}

/// Merges all particles that touch. The search of a position starts over after each merge, since
/// its particle has a new radius, place, mass and velocity.
pub fn merge_colliding_particles_avx2(particles: &mut Particles)
    requires
        old(particles).well_formed(),
    ensures
        final(particles).well_formed(),
        final(particles)@ == merging::merged_from(old(particles)@, 0),
{
    let mut first_index: usize = 0;
    while first_index < particles.len()
        invariant
            particles.well_formed(),
            first_index <= particles@.len(),
            merging::merged_from(old(particles)@, 0) == merging::merged_from(
                particles@,
                first_index as int,
            ),
        decreases 2 * particles@.len() - first_index,
    {
        match find_collision_avx2(particles, first_index) {
            Some(second_index) => {
                proof {
                    merging::lemma_contact_bounds(particles@, first_index as int, first_index + 1);
                }
                merge_pair(particles, first_index, second_index);
            },
            None => {
                first_index = first_index + 1;
            },
        }
    }
}

/// The particles after the first half kick, the move and the merging.
pub open spec fn drifted(particles: Seq<Body>, dt: Binary32) -> Seq<Body> {
    merging::merged_from(
        integrated(particles, accelerations_x(particles), accelerations_y(particles), dt),
        0,
    )
}

/// The particles after one step.
pub open spec fn updated(particles: Seq<Body>, dt: Binary32) -> Seq<Body> {
    let left = drifted(particles, dt);
    finished(left, accelerations_x(left), accelerations_y(left), dt)
}

/// Advances the particles by one step. The arrays receive the accelerations of those that are
/// left; without particles, nothing changes.
pub fn update_system_simd(
    particles: &mut Particles,
    acceleration_x: &mut Vec<Binary32>,
    acceleration_y: &mut Vec<Binary32>,
    dt: Binary32,
)
    requires
        old(particles).well_formed(),
    ensures
        final(particles).well_formed(),
        final(particles)@ == updated(old(particles)@, dt),
        old(particles)@.len() == 0 ==> {
            &&& final(acceleration_x)@ == old(acceleration_x)@
            &&& final(acceleration_y)@ == old(acceleration_y)@
        },
        old(particles)@.len() > 0 ==> {
            &&& final(acceleration_x)@ == accelerations_x(drifted(old(particles)@, dt))
            &&& final(acceleration_y)@ == accelerations_y(drifted(old(particles)@, dt))
        },
{
    let ghost before = particles@;
    if particles.is_empty() {
        proof {
            assert(drifted(before, dt) == before);
            assert(updated(before, dt) == before);
        }
        return;
    }
    calculate_accelerations_avx2(particles, acceleration_x, acceleration_y);
    integrate_positions_avx2(particles, acceleration_x.as_slice(), acceleration_y.as_slice(), dt);
    merge_colliding_particles_avx2(particles);
    proof {
        assert(acceleration_x@ == accelerations_x(before));
        assert(acceleration_y@ == accelerations_y(before));
        merging::law_merging_leaves_some(
            integrated(before, accelerations_x(before), accelerations_y(before), dt),
            0,
        );
    }
    calculate_accelerations_avx2(particles, acceleration_x, acceleration_y);
    finish_velocity_update_avx2(particles, acceleration_x.as_slice(), acceleration_y.as_slice(), dt);
}

/// A step adds no particles, and it leaves at least one of any.
pub proof fn law_step_adds_no_particles(particles: Seq<Body>, dt: Binary32)
    ensures
        updated(particles, dt).len() <= particles.len(),
        particles.len() > 0 ==> updated(particles, dt).len() > 0,
{
    merging::law_merging_leaves_some(
        integrated(particles, accelerations_x(particles), accelerations_y(particles), dt),
        0,
    );
}

/// A step keeps the total mass, exactly, where 24 bits hold every partial sum.
pub proof fn law_step_conserves_mass(particles: Seq<Body>, dt: Binary32, q: nat)
    requires
        q <= 252,
        merging::weights_are_short(particles, q),
    ensures
        merging::total_weight(updated(particles, dt)) == merging::total_weight(particles),
{
    let there = integrated(particles, accelerations_x(particles), accelerations_y(particles), dt);
    merging::lemma_total_of_same_weights(there, particles);
    assert forall|i: int| 0 <= i < there.len() implies merging::is_multiple(
        (#[trigger] there[i]).weight(),
        q,
    ) by {
        assert(particles[i].weight() == there[i].weight());
    }
    merging::law_weight_is_conserved(there, 0, q);
    merging::lemma_total_of_same_weights(updated(particles, dt), drifted(particles, dt));
}

} // verus!
