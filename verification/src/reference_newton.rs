//! What a step does to every single particle of a compute device: half a kick by Newton's law, a
//! move for the whole time, and half a kick by Newton's law at the new places.

use vstd::prelude::*;
use crate::balance;
use crate::binary32;
use crate::binary32::{Binary32, HALF, ZERO};
use crate::bodies::Axis;
use crate::bodies_balance;
use crate::collision;
use crate::contact;
use crate::estimate;
use crate::estimate::Estimate;
use crate::merging;
use crate::merging::Merging;
use crate::newton;
use crate::reference;
use crate::reference_balance;
use crate::rounding;
use crate::rounding::{product, size, slack};
use crate::softening;
use crate::types::{Particle, SimParams};
use crate::verlet;

verus! {

/// The softened square of a distance, as it is computed.
pub open spec fn softened(a: Particle, b: Particle, params: SimParams) -> Binary32 {
    let (dx, dy) = (b.x - a.x, b.y - a.y);
    dx * dx + dy * dy + params.softening_squared
}

/// The softened square of a distance, beside the exact one.
pub open spec fn softened_estimate(a: Particle, b: Particle, params: SimParams) -> Estimate {
    let dx = Estimate::of(b.x).minus(Estimate::of(a.x));
    let dy = Estimate::of(b.y).minus(Estimate::of(a.y));
    dx.times(dx).plus(dy.times(dy)).plus(Estimate::of(params.softening_squared))
}

/// The distance of two particles neither overflows nor vanishes.
pub open spec fn is_in_range(a: Particle, b: Particle, params: SimParams) -> bool {
    softened(a, b, params).is_finite() && softened(a, b, params).value() > 0
}

/// The softened square of a distance is near the exact one.
proof fn lemma_softened(a: Particle, b: Particle, params: SimParams)
    ensures
        softened_estimate(a, b, params).holds(),
        softened_estimate(a, b, params).computed == softened(a, b, params),
        softened_estimate(a, b, params).exact == newton::softened_squared(
            a,
            b,
            params.softening_squared.number(),
        ),
{
    let dx = Estimate::of(b.x).minus(Estimate::of(a.x));
    let dy = Estimate::of(b.y).minus(Estimate::of(a.y));
    estimate::law_estimates_hold(Estimate::of(b.x), Estimate::of(a.x));
    estimate::law_estimates_hold(Estimate::of(b.y), Estimate::of(a.y));
    estimate::law_estimates_hold(dx, dx);
    estimate::law_estimates_hold(dy, dy);
    estimate::law_estimates_hold(dx.times(dx), dy.times(dy));
    estimate::law_estimates_hold(
        dx.times(dx).plus(dy.times(dy)),
        Estimate::of(params.softening_squared),
    );
}

/// A pull, meant to be Newton's.
pub open spec fn pull_estimate(
    a: Particle,
    b: Particle,
    params: SimParams,
    axis: Axis,
    distance: real,
) -> Estimate {
    let plain = a.pull_estimate(b, params, axis);
    Estimate {
        computed: plain.computed,
        exact: newton::pull(
            params.gravity.number(),
            b.mass.number(),
            newton::ahead(a, b, axis),
            distance,
        ),
        error: plain.error + size(
            newton::pull_error(
                params.gravity.number(),
                b.mass.number(),
                a.displacement(b, axis),
                softened(a, b, params),
                softened_estimate(a, b, params).error,
                distance,
            ),
        ),
    }
}

/// Products of five numbers, in the order in which particles multiply and in that of bodies.
proof fn lemma_order(d: real, g: real, m: real, i: real)
    ensures
        product(d, product(product(product(product(g, m), i), i), i)) == product(
            product(d, product(g, newton::cube(i))),
            m,
        ),
{
    reveal(product);
    let c = i * i * i;
    assert(g * m * i * i * i == g * m * c) by (nonlinear_arith)
        requires
            c == i * i * i,
    ;
    assert(d * (g * m * c) == d * (g * c) * m) by (nonlinear_arith);
}

/// A pull is near Newton's.
proof fn lemma_pull(a: Particle, b: Particle, params: SimParams, axis: Axis, distance: real)
    requires
        is_in_range(a, b, params),
        newton::is_distance(distance, a, b, params.softening_squared.number()),
    ensures
        pull_estimate(a, b, params, axis, distance).holds(),
        forall|sum: reference::Acceleration|
            axis.of(#[trigger] a.pulled(b, params, sum)) == axis.of(sum) + pull_estimate(
                a,
                b,
                params,
                axis,
                distance,
            ).computed,
{
    let s = softened(a, b, params);
    let d = a.displacement(b, axis);
    reference_balance::lemma_pull_estimate(a, b, params, axis);
    lemma_softened(a, b, params);
    softening::law_inverse_roots_are_finite(s);
    let (dx, dy) = (b.x - a.x, b.y - a.y);
    rounding::law_sums_are_near(dx * dx + dy * dy, params.softening_squared);
    rounding::law_sums_are_near(dx * dx, dy * dy);
    rounding::law_products_are_near(dx, dx);
    rounding::law_products_are_near(dy, dy);
    rounding::law_differences_are_near(b.x, a.x);
    rounding::law_differences_are_near(b.y, a.y);
    assert(size(d.number() - newton::ahead(a, b, axis)) <= slack(d));
    newton::lemma_pull_is_near(
        params.gravity.number(),
        b.mass.number(),
        d,
        s,
        softened_estimate(a, b, params).error,
        newton::ahead(a, b, axis),
        distance,
    );
    assert(a.inverse_distance(b, params) == bodies_balance::inverse_of(s));
    lemma_order(
        d.number(),
        params.gravity.number(),
        b.mass.number(),
        a.inverse_distance(b, params).number(),
    );
}

/// The exact pull of one particle on another: the dead pull nothing, and nothing pulls itself.
pub open spec fn pull_of(
    particles: Seq<Particle>,
    target: int,
    other: int,
    params: SimParams,
    axis: Axis,
    distances: spec_fn(int) -> real,
) -> real {
    if particles[other].alive == 0 {
        0 as real
    } else {
        newton::pull_of(particles, target, other, axis, params.gravity.number(), distances)
    }
}

/// The exact acceleration of a particle by the live ones among the first.
pub open spec fn acceleration_by(
    particles: Seq<Particle>,
    target: int,
    upto: int,
    params: SimParams,
    axis: Axis,
    distances: spec_fn(int) -> real,
) -> real {
    balance::sum(upto, |j: int| pull_of(particles, target, j, params, axis, distances))
}

/// The acceleration of a particle by the live ones among the first, meant to be Newton's.
pub open spec fn acceleration_estimate(
    particles: Seq<Particle>,
    target: int,
    upto: int,
    params: SimParams,
    axis: Axis,
    distances: spec_fn(int) -> real,
) -> Estimate
    decreases upto,
{
    if upto <= 0 {
        Estimate::of(Binary32::from_bits(ZERO))
    } else {
        let sum = acceleration_estimate(particles, target, upto - 1, params, axis, distances);
        if target == upto - 1 || particles[upto - 1].alive == 0 {
            sum
        } else {
            sum.plus(
                pull_estimate(
                    particles[target],
                    particles[upto - 1],
                    params,
                    axis,
                    distances(upto - 1),
                ),
            )
        }
    }
}

/// All live particles lie in range of one of them, at the given distances.
pub open spec fn are_distances(
    distances: spec_fn(int) -> real,
    particles: Seq<Particle>,
    target: int,
    upto: int,
    params: SimParams,
) -> bool {
    forall|j: int|
        0 <= j < upto && j != target && particles[j].alive != 0 ==> newton::is_distance(
            #[trigger] distances(j),
            particles[target],
            particles[j],
            params.softening_squared.number(),
        ) && is_in_range(particles[target], particles[j], params)
}

/// The acceleration is near Newton's.
proof fn lemma_acceleration(
    particles: Seq<Particle>,
    target: int,
    upto: int,
    params: SimParams,
    axis: Axis,
    distances: spec_fn(int) -> real,
)
    requires
        0 <= target < particles.len(),
        0 <= upto <= particles.len(),
        are_distances(distances, particles, target, upto, params),
    ensures
        ({
            let sum = acceleration_estimate(particles, target, upto, params, axis, distances);
            &&& sum.holds()
            &&& sum.computed == axis.of(
                reference::pull_of_first(particles, target, upto, params),
            )
            &&& sum.exact == acceleration_by(particles, target, upto, params, axis, distances)
        }),
    decreases upto,
{
    if upto <= 0 {
        estimate::lemma_zero();
    } else {
        lemma_acceleration(particles, target, upto - 1, params, axis, distances);
        let before = acceleration_estimate(particles, target, upto - 1, params, axis, distances);
        let (a, b) = (particles[target], particles[upto - 1]);
        if target != upto - 1 && b.alive != 0 {
            let s = distances(upto - 1);
            lemma_pull(a, b, params, axis, s);
            estimate::law_estimates_hold(before, pull_estimate(a, b, params, axis, s));
        }
    }
}

/// How many particles take part in a step: as many as its parameters say, and no more than there
/// are.
pub open spec fn partners(particles: Seq<Particle>, params: SimParams) -> int {
    if params.count <= particles.len() {
        params.count as int
    } else {
        particles.len() as int
    }
}

/// The exact acceleration of a particle by all live ones that take part.
pub open spec fn acceleration(
    particles: Seq<Particle>,
    target: int,
    params: SimParams,
    axis: Axis,
    distances: spec_fn(int) -> real,
) -> real {
    acceleration_by(
        particles,
        target,
        partners(particles, params),
        params,
        axis,
        distances,
    )
}

/// A velocity after half a kick, meant to be Newton's.
pub open spec fn device_kick(
    particles: Seq<Particle>,
    target: int,
    velocity: Estimate,
    params: SimParams,
    axis: Axis,
    distances: spec_fn(int) -> real,
) -> Estimate {
    verlet::kick(
        velocity,
        acceleration_estimate(
            particles,
            target,
            partners(particles, params),
            params,
            axis,
            distances,
        ),
        params.dt,
        true,
    )
}

/// A particle that is kicked is kicked by half of the time times its Newtonian acceleration.
proof fn lemma_device_kick(
    particles: Seq<Particle>,
    target: int,
    velocity: Estimate,
    params: SimParams,
    axis: Axis,
    distances: spec_fn(int) -> real,
)
    requires
        0 <= target < particles.len(),
        particles[target].alive != 0,
        are_distances(
            distances,
            particles,
            target,
            partners(particles, params),
            params,
        ),
        velocity.holds(),
        velocity.computed == particles[target].along(axis.velocity()),
    ensures
        ({
            let kick = device_kick(particles, target, velocity, params, axis, distances);
            &&& kick.holds()
            &&& kick.computed == particles[target].kicked(
                reference::acceleration(particles, target, params),
                params.dt,
            ).along(axis.velocity())
            &&& kick.exact == velocity.exact + product(
                acceleration(particles, target, params, axis, distances),
                params.dt.number() / 2 as real,
            )
        }),
{
    let count = partners(particles, params);
    lemma_acceleration(particles, target, count, params, axis, distances);
    verlet::lemma_kick(
        velocity,
        acceleration_estimate(particles, target, count, params, axis, distances),
        params.dt,
        true,
    );
    binary32::law_multiplication_commutes(params.dt, Binary32::from_bits(HALF));
}

/// The velocity of a particle after half of the time, exactly.
pub open spec fn half_way(particle: Particle, axis: Axis, acceleration: real, dt: Binary32) -> real {
    particle.along(axis.velocity()).number() + product(acceleration, dt.number() / 2 as real)
}

/// The drift of a step gives every live particle that takes part half of the time times its
/// Newtonian acceleration and then moves it with that velocity for the whole time, and changes
/// nothing else of it; all others stay as they are.
pub proof fn law_device_particles_are_kicked_and_moved(
    particles: Seq<Particle>,
    params: SimParams,
    target: int,
    axis: Axis,
    distances: spec_fn(int) -> real,
)
    requires
        0 <= target < particles.len(),
        are_distances(
            distances,
            particles,
            target,
            partners(particles, params),
            params,
        ),
    ensures
        ({
            let (before, after) = (
                particles[target],
                reference::drifted(particles, params)[target],
            );
            let half = half_way(
                before,
                axis,
                acceleration(particles, target, params, axis, distances),
                params.dt,
            );
            let kicked = device_kick(
                particles,
                target,
                Estimate::of(before.along(axis.velocity())),
                params,
                axis,
                distances,
            );
            &&& reference::drifted(particles, params).len() == particles.len()
            &&& target < params.count && before.alive != 0 ==> {
                &&& after.mass == before.mass
                &&& after.brightness == before.brightness
                &&& after.alive == before.alive
                &&& verlet::is_near(after.along(axis.velocity()), half, kicked.error)
                &&& verlet::is_near(
                    after.along(axis.place()),
                    before.along(axis.place()).number() + product(half, params.dt.number()),
                    verlet::travel(before.along(axis.place()), kicked, params.dt).error,
                )
                &&& after.along(axis.velocity()) == kicked.computed
                &&& kicked.holds()
                &&& kicked.exact == half
            }
            &&& target >= params.count || before.alive == 0 ==> after == before
        }),
{
    let v = Estimate::of(particles[target].along(axis.velocity()));
    if particles[target].alive != 0 {
        lemma_device_kick(particles, target, v, params, axis, distances);
        verlet::lemma_travel(
            particles[target].along(axis.place()),
            device_kick(particles, target, v, params, axis, distances),
            params.dt,
        );
    }
}

/// The live ones of some particles are those that live, in their order.
pub proof fn law_live_particles_are_those_that_live(particles: Seq<Particle>)
    ensures
        collision::live_of(particles) == particles.filter(|particle: Particle| particle.alive != 0),
    decreases particles.len(),
{
    reveal(Seq::filter);
    if particles.len() > 0 {
        law_live_particles_are_those_that_live(particles.drop_last());
    }
}

/// The same step for as many particles as are left.
pub open spec fn for_all_left(left: Seq<Particle>, params: SimParams) -> SimParams {
    SimParams { count: left.len() as u32, ..params }
}

/// Particles in the same places with the same masses pull alike.
proof fn lemma_same_pulls(
    a: Seq<Particle>,
    b: Seq<Particle>,
    target: int,
    params: SimParams,
    axis: Axis,
    distances: spec_fn(int) -> real,
)
    requires
        a.len() == b.len(),
        0 <= target < a.len(),
        forall|i: int|
            0 <= i < a.len() ==> (#[trigger] a[i]).x == b[i].x && a[i].y == b[i].y && a[i].mass
                == b[i].mass && a[i].alive == b[i].alive,
    ensures
        acceleration(a, target, params, axis, distances) == acceleration(
            b,
            target,
            params,
            axis,
            distances,
        ),
        are_distances(distances, b, target, partners(b, params), params)
            ==> are_distances(distances, a, target, partners(a, params), params),
{
    let n = partners(a, params);
    let f = |j: int| pull_of(a, target, j, params, axis, distances);
    let g = |j: int| pull_of(b, target, j, params, axis, distances);
    assert(a[target].x == b[target].x && a[target].y == b[target].y);
    assert forall|j: int| 0 <= j < n implies #[trigger] f(j) == g(j) by {
        assert(a[j].x == b[j].x && a[j].y == b[j].y && a[j].mass == b[j].mass && a[j].alive
            == b[j].alive);
    }
    balance::lemma_same_terms(n, f, g);
    if are_distances(distances, b, target, partners(b, params), params) {
        assert forall|j: int| 0 <= j < n && j != target && a[j].alive != 0 implies newton::is_distance(
            #[trigger] distances(j),
            a[target],
            a[j],
            params.softening_squared.number(),
        ) && is_in_range(a[target], a[j], params) by {
            assert(a[j].x == b[j].x && a[j].y == b[j].y && a[j].alive == b[j].alive);
            assert(newton::is_distance(
                distances(j),
                b[target],
                b[j],
                params.softening_squared.number(),
            ));
        }
    }
}

/// The final kick of a step gives every particle that is left after the merging half of the time
/// times its Newtonian acceleration among all that are left, and changes nothing else of it.
pub proof fn law_device_particles_are_kicked_again(
    particles: Seq<Particle>,
    params: SimParams,
    target: int,
    axis: Axis,
    distances: spec_fn(int) -> real,
)
    requires
        particles.len() <= u32::MAX,
        0 <= target < reference::stepped(particles, params).len(),
        ({
            let after = reference::stepped(particles, params);
            are_distances(
                distances,
                after,
                target,
                after.len() as int,
                for_all_left(after, params),
            )
        }),
    ensures
        ({
            let left = merging::merged_from(
                collision::live_of(reference::drifted(particles, params)),
                0,
            );
            let after = reference::stepped(particles, params);
            let half = half_way(
                left[target],
                axis,
                acceleration(after, target, for_all_left(after, params), axis, distances),
                params.dt,
            );
            let kicked = device_kick(
                left,
                target,
                Estimate::of(left[target].along(axis.velocity())),
                for_all_left(left, params),
                axis,
                distances,
            );
            &&& after.len() == left.len()
            &&& after[target].x == left[target].x
            &&& after[target].y == left[target].y
            &&& after[target].mass == left[target].mass
            &&& after[target].brightness == left[target].brightness
            &&& after[target].alive == left[target].alive
            &&& verlet::is_near(after[target].along(axis.velocity()), half, kicked.error)
        }),
{
    let drifted = reference::drifted(particles, params);
    let left = merging::merged_from(collision::live_of(drifted), 0);
    let after = reference::stepped(particles, params);
    let rest = for_all_left(left, params);
    collision::lemma_live_particles_live(drifted);
    merging::law_merging_leaves_some(collision::live_of(drifted), 0);
    collision::law_only_the_living_are_left(drifted);
    assert((|particle: Particle| particle.alive != 0)(left[target]));
    assert(partners(left, rest) == left.len());
    lemma_same_pulls(left, after, target, rest, axis, distances);
    lemma_device_kick(
        left,
        target,
        Estimate::of(left[target].along(axis.velocity())),
        rest,
        axis,
        distances,
    );
}

/// A step in which all particles take part and nothing merges changes every velocity by half of the
/// time times the Newtonian acceleration at the places before it and half of the time times that at
/// the places after it, and every place by the whole time times the velocity after the first half;
/// up to rounding. Masses, brightness and marks stay.
pub proof fn law_device_steps_follow_newton(
    particles: Seq<Particle>,
    params: SimParams,
    target: int,
    axis: Axis,
    before: spec_fn(int) -> real,
    after: spec_fn(int) -> real,
)
    requires
        reference_balance::all_take_part(particles, params),
        reference::stepped(particles, params).len() == particles.len(),
        0 <= target < particles.len(),
        are_distances(before, particles, target, particles.len() as int, params),
        are_distances(
            after,
            reference::stepped(particles, params),
            target,
            particles.len() as int,
            params,
        ),
    ensures
        ({
            let moved = reference::stepped(particles, params);
            let (start, end) = (particles[target], moved[target]);
            let half = half_way(
                start,
                axis,
                acceleration(particles, target, params, axis, before),
                params.dt,
            );
            let first = device_kick(
                particles,
                target,
                Estimate::of(start.along(axis.velocity())),
                params,
                axis,
                before,
            );
            let second = device_kick(
                reference::drifted(particles, params),
                target,
                first,
                params,
                axis,
                after,
            );
            &&& end.mass == start.mass
            &&& end.brightness == start.brightness
            &&& end.alive == start.alive
            &&& verlet::is_near(
                end.along(axis.velocity()),
                half + product(
                    acceleration(moved, target, params, axis, after),
                    params.dt.number() / 2 as real,
                ),
                second.error,
            )
            &&& verlet::is_near(
                end.along(axis.place()),
                start.along(axis.place()).number() + product(half, params.dt.number()),
                verlet::travel(start.along(axis.place()), first, params.dt).error,
            )
        }),
{
    let drifted = reference::drifted(particles, params);
    let moved = reference::stepped(particles, params);
    assert forall|i: int| 0 <= i < drifted.len() implies (#[trigger] drifted[i]).alive != 0 by {
        assert(particles[i].alive != 0);
    }
    collision::law_live_particles_are_kept(drifted);
    contact::law_whatever_touches_merges(drifted);
    law_device_particles_are_kicked_and_moved(particles, params, target, axis, before);
    assert(for_all_left(drifted, params) == params);
    assert(particles[target].alive != 0 && drifted[target].alive != 0);
    lemma_same_pulls(drifted, moved, target, params, axis, after);
    let v = Estimate::of(particles[target].along(axis.velocity()));
    let first = device_kick(particles, target, v, params, axis, before);
    lemma_device_kick(drifted, target, first, params, axis, after);
}

} // verus!
