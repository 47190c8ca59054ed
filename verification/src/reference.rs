//! One step of the simulation on the host: drift, merge, final kick.
//!
//! Every target particle sums its pulls in ascending order of the other particles.

use vstd::prelude::*;
use crate::binary32;
use crate::binary32::{Binary32, HALF, ONE, ZERO};
use crate::collision;
use crate::merging;
use crate::merging::Merging;
use crate::types::{Particle, SimParams};

verus! {

/// An acceleration along the two axes.
pub type Acceleration = (Binary32, Binary32);

impl Particle {
    /// The acceleration `sum` of this particle with the pull of another one added.
    pub open spec fn pulled(self, other: Particle, params: SimParams, sum: Acceleration) -> Acceleration {
        let dx = other.x - self.x;
        let dy = other.y - self.y;
        let inverse = Binary32::from_bits(ONE) / (dx * dx + dy * dy + params.softening_squared).root();
        let factor = params.gravity * other.mass * inverse * inverse * inverse;
        (sum.0 + dx * factor, sum.1 + dy * factor)
    }

    /// This particle after a half step of acceleration.
    pub open spec fn kicked(self, by: Acceleration, dt: Binary32) -> Particle {
        let half_dt = Binary32::from_bits(HALF) * dt;
        Particle { vx: self.vx + by.0 * half_dt, vy: self.vy + by.1 * half_dt, ..self }
    }

    /// This particle after it has moved for a whole step.
    pub open spec fn moved(self, dt: Binary32) -> Particle {
        Particle { x: self.x + self.vx * dt, y: self.y + self.vy * dt, ..self }
    }
}

/// The acceleration of the particle at `target` by the first `upto` particles.
pub open spec fn pull_of_first(
    particles: Seq<Particle>,
    target: int,
    upto: int,
    params: SimParams,
) -> Acceleration
    decreases upto,
{
    if upto <= 0 {
        (Binary32::from_bits(ZERO), Binary32::from_bits(ZERO))
    } else {
        let sum = pull_of_first(particles, target, upto - 1, params);
        let other = particles[upto - 1];
        if target == upto - 1 || other.alive == 0 {
            sum
        } else {
            particles[target].pulled(other, params, sum)
        }
    }
}

/// How many of the particles take part.
pub open spec fn taking_part(particles: Seq<Particle>, params: SimParams) -> int {
    if params.count <= particles.len() {
        params.count as int
    } else {
        particles.len() as int
    }
}

/// The acceleration of the particle at `target`; a dead one has none.
pub open spec fn acceleration(particles: Seq<Particle>, target: int, params: SimParams) -> Acceleration {
    if particles[target].alive == 0 {
        (Binary32::from_bits(ZERO), Binary32::from_bits(ZERO))
    } else {
        pull_of_first(particles, target, taking_part(particles, params), params)
    }
}

/// The particles after the first half kick and the move. Dead ones and those that do not take
/// part stay as they are.
pub open spec fn drifted(particles: Seq<Particle>, params: SimParams) -> Seq<Particle> {
    particles.map(
        |i: int, particle: Particle|
            if i < taking_part(particles, params) && particle.alive != 0 {
                particle.kicked(acceleration(particles, i, params), params.dt).moved(params.dt)
            } else {
                particle
            },
    )
}

/// The particles after the second half kick.
pub open spec fn finished(particles: Seq<Particle>, params: SimParams) -> Seq<Particle> {
    particles.map(
        |i: int, particle: Particle|
            if i < taking_part(particles, params) && particle.alive != 0 {
                particle.kicked(acceleration(particles, i, params), params.dt)
            } else {
                particle
            },
    )
}

/// The particles after one step: drift, merge of the live ones, final kick of all that are left.
pub open spec fn stepped(particles: Seq<Particle>, params: SimParams) -> Seq<Particle> {
    let merged = merging::merged_from(collision::live_of(drifted(particles, params)), 0);
    finished(merged, SimParams { count: merged.len() as u32, ..params })
}

/// The accelerations of the particles that take part.
pub fn calculate_accelerations(particles: &[Particle], params: SimParams) -> (accelerations: Vec<
    Acceleration,
>)
    ensures
        accelerations@ == Seq::new(
            taking_part(particles@, params) as nat,
            |i: int| acceleration(particles@, i, params),
        ),
{
    let count: usize = if params.count as u64 <= particles.len() as u64 {
        params.count as usize
    } else {
        particles.len()
    };
    let zero = Binary32::from_bits(ZERO);
    let mut accelerations: Vec<Acceleration> = Vec::new();
    let mut i: usize = 0;
    while i < count
        invariant
            zero == Binary32::from_bits(ZERO),
            i <= count <= particles.len(),
            count == taking_part(particles@, params),
            accelerations@ == Seq::new(i as nat, |k: int| acceleration(particles@, k, params)),
        decreases count - i,
    {
        let current = particles[i];
        let mut ax = zero;
        let mut ay = zero;
        if current.alive != 0 {
            let mut j: usize = 0;
            while j < count
                invariant
                    i < count <= particles.len(),
                    j <= count,
                    current == particles[i as int],
                    (ax, ay) == pull_of_first(particles@, i as int, j as int, params),
                decreases count - j,
            {
                let other = particles[j];
                if i != j && other.alive != 0 {
                    let dx = other.x - current.x;
                    let dy = other.y - current.y;
                    let distance_squared = dx * dx + dy * dy;
                    let inverse_distance = Binary32::from_bits(ONE) / (distance_squared
                        + params.softening_squared).sqrt();
                    let factor = params.gravity * other.mass * inverse_distance * inverse_distance
                        * inverse_distance;
                    ax = ax + dx * factor;
                    ay = ay + dy * factor;
                }
                j = j + 1;
            }
        }
        accelerations.push((ax, ay));
        i = i + 1;
    }
    accelerations
}

/// Advances the particles by one step.
pub fn step(particles: &mut Vec<Particle>, params: SimParams)
    ensures
        final(particles)@ == stepped(old(particles)@, params),
{
    let accelerations = calculate_accelerations(particles.as_slice(), params);
    let half_dt = Binary32::from_bits(HALF) * params.dt;
    let ghost before = particles@;
    let mut i: usize = 0;
    while i < accelerations.len()
        invariant
            half_dt == Binary32::from_bits(HALF) * params.dt,
            i <= accelerations.len() == taking_part(before, params),
            particles.len() == before.len(),
            forall|k: int|
                0 <= k < accelerations.len() ==> accelerations@[k] == acceleration(before, k, params),
            forall|k: int|
                0 <= k < i ==> #[trigger] particles@[k] == drifted(before, params)[k],
            forall|k: int| i <= k < before.len() ==> #[trigger] particles@[k] == before[k],
        decreases accelerations.len() - i,
    {
        let mut particle = particles[i];
        if particle.alive != 0 {
            let (ax, ay) = accelerations[i];
            particle.vx = particle.vx + ax * half_dt;
            particle.vy = particle.vy + ay * half_dt;
            particle.x = particle.x + particle.vx * params.dt;
            particle.y = particle.y + particle.vy * params.dt;
            particles[i] = particle;
        }
        i = i + 1;
    }
    assert(particles@ == drifted(before, params));
    collision::merge_colliding_particles(particles);
    let rest = SimParams { count: particles.len() as u32, ..params };
    let accelerations = calculate_accelerations(particles.as_slice(), rest);
    let ghost before = particles@;
    let mut i: usize = 0;
    while i < accelerations.len()
        invariant
            half_dt == Binary32::from_bits(HALF) * params.dt,
            rest.dt == params.dt,
            i <= accelerations.len() == taking_part(before, rest),
            particles.len() == before.len(),
            forall|k: int|
                0 <= k < accelerations.len() ==> accelerations@[k] == acceleration(before, k, rest),
            forall|k: int|
                0 <= k < i ==> #[trigger] particles@[k] == finished(before, rest)[k],
            forall|k: int| i <= k < before.len() ==> #[trigger] particles@[k] == before[k],
        decreases accelerations.len() - i,
    {
        let mut particle = particles[i];
        if particle.alive != 0 {
            let (ax, ay) = accelerations[i];
            particle.vx = particle.vx + ax * half_dt;
            particle.vy = particle.vy + ay * half_dt;
            particles[i] = particle;
        }
        i = i + 1;
    }
    assert(particles@ == finished(before, rest));
}

/// A step of no particles leaves no particles.
pub proof fn law_nothing_stays_nothing(params: SimParams)
    ensures
        stepped(Seq::empty(), params) == Seq::<Particle>::empty(),
{
    assert(drifted(Seq::empty(), params) == Seq::<Particle>::empty());
}

/// The move keeps life and mass.
proof fn lemma_drift_keeps_life(particles: Seq<Particle>, params: SimParams)
    ensures
        ({
            let moved = collision::live_of(drifted(particles, params));
            let live = collision::live_of(particles);
            &&& moved.len() == live.len()
            &&& forall|i: int| 0 <= i < live.len() ==> (#[trigger] moved[i]).mass == live[i].mass
        }),
{
    collision::lemma_live_masses(drifted(particles, params), particles);
}

/// A step adds no particles, and it leaves at least one where any lives.
pub proof fn law_step_adds_no_particles(particles: Seq<Particle>, params: SimParams)
    ensures
        stepped(particles, params).len() <= collision::live_of(particles).len()
            <= particles.len(),
        collision::live_of(particles).len() > 0 ==> stepped(particles, params).len() > 0,
{
    collision::lemma_live_particles_live(particles);
    lemma_drift_keeps_life(particles, params);
    merging::law_merging_leaves_some(collision::live_of(drifted(particles, params)), 0);
}

/// Whatever particles a step is given, all that it leaves live.
pub proof fn law_step_leaves_only_the_living(particles: Seq<Particle>, params: SimParams)
    ensures
        merging::all_are(
            stepped(particles, params),
            |particle: Particle| particle.alive != 0,
        ),
{
    collision::law_only_the_living_are_left(drifted(particles, params));
}

/// Particles that are marked as alive by a one are so marked after a step.
pub proof fn law_step_keeps_the_marks_of_the_living(particles: Seq<Particle>, params: SimParams)
    requires
        merging::all_are(particles, |particle: Particle| particle.alive == 1),
    ensures
        merging::all_are(
            stepped(particles, params),
            |particle: Particle| particle.alive == 1,
        ),
{
    let marked = |particle: Particle| particle.alive == 1;
    let moved = drifted(particles, params);
    assert forall|i: int| 0 <= i < moved.len() implies (#[trigger] moved[i]).alive == 1 by {
        assert(marked(particles[i]));
    }
    collision::law_live_particles_are_kept(moved);
    merging::law_merging_keeps_kinds(moved, 0, marked);
    let merged = merging::merged_from(moved, 0);
    let after = stepped(particles, params);
    assert forall|i: int| 0 <= i < after.len() implies (#[trigger] after[i]).alive == 1 by {
        assert(marked(merged[i]));
    }
}

/// A step keeps the total mass of the live particles, exactly, where 24 bits hold every partial
/// sum.
pub proof fn law_step_conserves_mass(particles: Seq<Particle>, params: SimParams, q: nat)
    requires
        q <= 252,
        merging::weights_are_short(collision::live_of(particles), q),
    ensures
        merging::total_weight(stepped(particles, params)) == merging::total_weight(
            collision::live_of(particles),
        ),
{
    let live = collision::live_of(particles);
    let moved = collision::live_of(drifted(particles, params));
    let merged = merging::merged_from(moved, 0);
    lemma_drift_keeps_life(particles, params);
    merging::lemma_total_of_same_weights(moved, live);
    assert forall|i: int| 0 <= i < moved.len() implies merging::is_multiple(
        (#[trigger] moved[i]).mass,
        q,
    ) by {
        assert(live[i].weight() == moved[i].mass);
    }
    merging::law_weight_is_conserved(moved, 0, q);
    merging::lemma_total_of_same_weights(stepped(particles, params), merged);
}

/// A zero acceleration leaves a velocity as it is.
proof fn lemma_kick_by_nothing(v: Binary32, dt: Binary32)
    requires
        v.is_finite(),
        dt.is_finite(),
    ensures
        ({
            let after = v + Binary32::from_bits(ZERO) * (Binary32::from_bits(HALF) * dt);
            &&& after.same(v)
            &&& after.is_finite()
            &&& v.magnitude() != 0 ==> after == v
            &&& v.magnitude() == 0 ==> after.magnitude() == 0
        }),
{
    let zero = Binary32::from_bits(ZERO);
    let half_dt = Binary32::from_bits(HALF) * dt;
    let after = v + zero * half_dt;
    binary32::law_half_is_finite(dt);
    binary32::law_multiplying_by_zero(zero, half_dt);
    binary32::law_adding_zero(v, zero * half_dt);
    crate::magnitude::lemma_units_order(after.magnitude() as nat, v.magnitude() as nat);
    crate::magnitude::lemma_units_order(0, v.magnitude() as nat);
    crate::magnitude::lemma_units_order(0, after.magnitude() as nat);
}

/// Where a particle without acceleration goes.
proof fn lemma_move_without_acceleration(x: Binary32, v: Binary32, after: Binary32, dt: Binary32)
    requires
        x.is_finite(),
        v.is_finite(),
        dt.is_finite(),
        v.magnitude() != 0 ==> after == v,
        v.magnitude() == 0 ==> after.magnitude() == 0,
    ensures
        (x + after * dt).same(x + v * dt),
{
    if v.magnitude() != 0 {
        binary32::law_finite_products_are_numbers(v, dt);
        binary32::law_sums_with_a_finite_number_are_numbers(x, v * dt);
    } else {
        binary32::law_multiplying_by_zero(after, dt);
        binary32::law_multiplying_by_zero(v, dt);
        binary32::law_adding_zero(x, after * dt);
        binary32::law_adding_zero(x, v * dt);
    }
}

/// One live particle moves on in a straight line at constant velocity.
pub proof fn law_lone_particle_moves_straight_on(particle: Particle, params: SimParams)
    requires
        particle.alive != 0,
        particle.x.is_finite(),
        particle.y.is_finite(),
        particle.vx.is_finite(),
        particle.vy.is_finite(),
        params.dt.is_finite(),
        params.count >= 1,
    ensures
        ({
            let after = stepped(seq![particle], params);
            &&& after.len() == 1
            &&& after[0].x.same(particle.x + particle.vx * params.dt)
            &&& after[0].y.same(particle.y + particle.vy * params.dt)
            &&& after[0].vx.same(particle.vx)
            &&& after[0].vy.same(particle.vy)
            &&& after[0].mass == particle.mass
            &&& after[0].brightness == particle.brightness
            &&& after[0].alive == particle.alive
        }),
{
    let start = seq![particle];
    let none = (Binary32::from_bits(ZERO), Binary32::from_bits(ZERO));
    let moved = drifted(start, params);
    reveal_with_fuel(pull_of_first, 2);
    assert(acceleration(start, 0, params) == none);
    let first = particle.kicked(none, params.dt);
    lemma_kick_by_nothing(particle.vx, params.dt);
    lemma_kick_by_nothing(particle.vy, params.dt);
    lemma_move_without_acceleration(particle.x, particle.vx, first.vx, params.dt);
    lemma_move_without_acceleration(particle.y, particle.vy, first.vy, params.dt);
    collision::law_live_particles_are_kept(moved);
    merging::law_things_apart_stay(moved, 0);
    let rest = SimParams { count: 1, ..params };
    assert(acceleration(moved, 0, rest) == none);
    lemma_kick_by_nothing(first.vx, params.dt);
    lemma_kick_by_nothing(first.vy, params.dt);
}

} // verus!
