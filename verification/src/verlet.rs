//! What a step does to every single particle of a cloud: half a kick by Newton's law, a move for the
//! whole time, and half a kick by Newton's law at the new places.

use vstd::prelude::*;
use crate::agreement;
use crate::binary32::{Binary32, HALF};
use crate::bodies::{Axis, Body};
use crate::bodies_newton;
use crate::balance;
use crate::contact;
use crate::estimate;
use crate::estimate::Estimate;
use crate::merging;
use crate::merging::Merging;
use crate::newton;
use crate::rounding::{product, size};
use crate::simd;
use crate::simd_balance;
use crate::wasm;
use crate::wasm_balance;

verus! {

/// A velocity after half a kick, in the two orders in which it is multiplied, meant to be changed by
/// half of the time times the acceleration.
pub open spec fn kick(velocity: Estimate, acceleration: Estimate, dt: Binary32, at_once: bool) -> Estimate {
    if at_once {
        velocity.plus(acceleration.times(newton::half_estimate(dt)))
    } else {
        velocity.plus(
            acceleration.times(Estimate::of(dt)).times(
                Estimate::of(Binary32::from_bits(HALF)),
            ),
        )
    }
}

/// A kick is near what it is meant to be.
pub(crate) proof fn lemma_kick(velocity: Estimate, acceleration: Estimate, dt: Binary32, at_once: bool)
    requires
        velocity.holds(),
        acceleration.holds(),
    ensures
        kick(velocity, acceleration, dt, at_once).holds(),
        kick(velocity, acceleration, dt, at_once).exact == velocity.exact + product(
            acceleration.exact,
            dt.number() / 2 as real,
        ),
        kick(velocity, acceleration, dt, true).computed == velocity.computed
            + acceleration.computed * (dt * Binary32::from_bits(HALF)),
        kick(velocity, acceleration, dt, false).computed == velocity.computed
            + acceleration.computed * dt * Binary32::from_bits(HALF),
{
    let half = Estimate::of(Binary32::from_bits(HALF));
    newton::lemma_half_estimate(dt);
    estimate::law_estimates_hold(acceleration, newton::half_estimate(dt));
    estimate::law_estimates_hold(velocity, acceleration.times(newton::half_estimate(dt)));
    estimate::law_estimates_hold(acceleration, Estimate::of(dt));
    estimate::law_estimates_hold(acceleration.times(Estimate::of(dt)), half);
    estimate::law_estimates_hold(velocity, acceleration.times(Estimate::of(dt)).times(half));
    estimate::lemma_products_of_three(acceleration.exact, dt.number(), half.exact);
}

/// A place after a move, meant to be changed by the velocity and the time, multiplied.
pub open spec fn travel(place: Binary32, velocity: Estimate, dt: Binary32) -> Estimate {
    Estimate::of(place).plus(velocity.times(Estimate::of(dt)))
}

/// A move is near what it is meant to be.
pub(crate) proof fn lemma_travel(place: Binary32, velocity: Estimate, dt: Binary32)
    requires
        velocity.holds(),
    ensures
        travel(place, velocity, dt).holds(),
        travel(place, velocity, dt).computed == place + velocity.computed * dt,
        travel(place, velocity, dt).exact == place.number() + product(velocity.exact, dt.number()),
{
    estimate::law_estimates_hold(velocity, Estimate::of(dt));
    estimate::law_estimates_hold(Estimate::of(place), velocity.times(Estimate::of(dt)));
}

/// Bodies in the same places with the same masses pull alike.
proof fn lemma_same_pulls(
    a: Seq<Body>,
    b: Seq<Body>,
    position: int,
    axis: Axis,
    distances: spec_fn(int) -> real,
)
    requires
        a.len() == b.len(),
        0 <= position < a.len(),
        forall|i: int|
            0 <= i < a.len() ==> (#[trigger] a[i]).x == b[i].x && a[i].y == b[i].y && a[i].mass
                == b[i].mass,
    ensures
        newton::acceleration(a, position, axis, 15 as real, distances) == newton::acceleration(
            b,
            position,
            axis,
            15 as real,
            distances,
        ),
        newton::are_distances(distances, b, position, 9 as real) ==> newton::are_distances(
            distances,
            a,
            position,
            9 as real,
        ),
        bodies_newton::all_in_range(b) ==> bodies_newton::all_in_range(a),
{
    let f = |j: int| newton::pull_of(a, position, j, axis, 15 as real, distances);
    let g = |j: int| newton::pull_of(b, position, j, axis, 15 as real, distances);
    assert(a[position].x == b[position].x && a[position].y == b[position].y);
    assert forall|j: int| 0 <= j < a.len() implies #[trigger] f(j) == g(j) by {
        assert(a[j].x == b[j].x && a[j].y == b[j].y && a[j].mass == b[j].mass);
    }
    balance::lemma_same_terms(a.len() as int, f, g);
    if newton::are_distances(distances, b, position, 9 as real) {
        assert forall|j: int| 0 <= j < a.len() && j != position implies newton::is_distance(
            #[trigger] distances(j),
            a[position],
            a[j],
            9 as real,
        ) by {
            assert(a[j].x == b[j].x && a[j].y == b[j].y);
            assert(newton::is_distance(distances(j), b[position], b[j], 9 as real));
        }
    }
    if bodies_newton::all_in_range(b) {
        assert forall|i: int, j: int| 0 <= i < j < a.len() implies agreement::is_in_range(
            #[trigger] a[i],
            #[trigger] a[j],
        ) by {
            assert(a[i].x == b[i].x && a[i].y == b[i].y && a[j].x == b[j].x && a[j].y == b[j].y);
            assert(agreement::is_in_range(b[i], b[j]));
        }
    }
}

/// The velocity of a particle of a scalar cloud after half a kick.
pub open spec fn scalar_kick(
    bodies: Seq<Body>,
    position: int,
    velocity: Estimate,
    dt: Binary32,
    axis: Axis,
    distances: spec_fn(int) -> real,
) -> Estimate {
    kick(velocity, bodies_newton::scalar_estimate(bodies, position, axis, distances), dt, true)
}

/// The velocity of a particle of an eight-lane cloud after half a kick.
pub open spec fn lane_kick(
    bodies: Seq<Body>,
    position: int,
    velocity: Estimate,
    dt: Binary32,
    axis: Axis,
    distances: spec_fn(int) -> real,
) -> Estimate {
    kick(
        velocity,
        bodies_newton::lane_estimate(bodies, position, axis, distances),
        dt,
        simd::in_lanes(position, bodies.len() as int),
    )
}

/// A computed number is near an exact one, where it is finite.
pub open spec fn is_near(computed: Binary32, exact: real, error: real) -> bool {
    computed.is_finite() ==> size(computed.number() - exact) <= error
}

/// The velocity of a body after half of the time, exactly.
pub open spec fn half_way(body: Body, axis: Axis, acceleration: real, dt: Binary32) -> real {
    body.along(axis.velocity()).number() + product(acceleration, dt.number() / 2 as real)
}

/// The first half of a step of a scalar cloud gives every particle half of the time times its
/// Newtonian acceleration and then moves it with that velocity for the whole time, and changes
/// nothing else of it.
pub proof fn law_scalar_particles_are_kicked_and_moved(
    bodies: Seq<Body>,
    dt: Binary32,
    position: int,
    axis: Axis,
    distances: spec_fn(int) -> real,
)
    requires
        0 <= position < bodies.len(),
        bodies_newton::all_in_range(bodies),
        newton::are_distances(distances, bodies, position, 9 as real),
    ensures
        ({
            let (before, after) = (
                bodies[position],
                wasm_balance::there(bodies, dt)[position],
            );
            let half = half_way(
                before,
                axis,
                newton::acceleration(bodies, position, axis, 15 as real, distances),
                dt,
            );
            let kicked = scalar_kick(
                bodies,
                position,
                Estimate::of(before.along(axis.velocity())),
                dt,
                axis,
                distances,
            );
            &&& wasm_balance::there(bodies, dt).len() == bodies.len()
            &&& after.mass == before.mass
            &&& after.brightness == before.brightness
            &&& is_near(after.along(axis.velocity()), half, kicked.error)
            &&& is_near(
                after.along(axis.place()),
                before.along(axis.place()).number() + product(half, dt.number()),
                travel(before.along(axis.place()), kicked, dt).error,
            )
            &&& after.along(axis.velocity()) == kicked.computed
            &&& kicked.holds()
            &&& kicked.exact == half
        }),
{
    let v = Estimate::of(bodies[position].along(axis.velocity()));
    let a = bodies_newton::scalar_estimate(bodies, position, axis, distances);
    bodies_newton::law_scalar_accelerations_are_newtonian(bodies, position, axis, distances);
    lemma_kick(v, a, dt, true);
    lemma_travel(bodies[position].along(axis.place()), kick(v, a, dt, true), dt);
}

/// The second half of a step of a scalar cloud, whatever its size, gives every particle that is left
/// after the merging half of the time times its Newtonian acceleration among all that are left, and
/// changes nothing else of it.
pub proof fn law_scalar_particles_are_kicked_again(
    bodies: Seq<Body>,
    dt: Binary32,
    position: int,
    axis: Axis,
    distances: spec_fn(int) -> real,
)
    requires
        0 <= position < wasm::updated(bodies, dt).len(),
        bodies_newton::all_in_range(wasm::updated(bodies, dt)),
        newton::are_distances(distances, wasm::updated(bodies, dt), position, 9 as real),
    ensures
        ({
            let left = merging::merged_from(wasm_balance::there(bodies, dt), 0);
            let after = wasm::updated(bodies, dt);
            let half = half_way(
                left[position],
                axis,
                newton::acceleration(after, position, axis, 15 as real, distances),
                dt,
            );
            let kicked = scalar_kick(
                left,
                position,
                Estimate::of(left[position].along(axis.velocity())),
                dt,
                axis,
                distances,
            );
            &&& after.len() == left.len()
            &&& after[position].x == left[position].x
            &&& after[position].y == left[position].y
            &&& after[position].mass == left[position].mass
            &&& after[position].brightness == left[position].brightness
            &&& is_near(after[position].along(axis.velocity()), half, kicked.error)
        }),
{
    let left = merging::merged_from(wasm_balance::there(bodies, dt), 0);
    let after = wasm::updated(bodies, dt);
    lemma_same_pulls(left, after, position, axis, distances);
    let v = Estimate::of(left[position].along(axis.velocity()));
    let a = bodies_newton::scalar_estimate(left, position, axis, distances);
    bodies_newton::law_scalar_accelerations_are_newtonian(left, position, axis, distances);
    lemma_kick(v, a, dt, true);
}

/// A step of a scalar cloud in which nothing merges changes every velocity by half of the time times
/// the Newtonian acceleration at the places before it and half of the time times that at the places
/// after it, and every place by the whole time times the velocity after the first half; up to
/// rounding. Masses and brightness stay.
pub proof fn law_scalar_steps_follow_newton(
    bodies: Seq<Body>,
    dt: Binary32,
    position: int,
    axis: Axis,
    before: spec_fn(int) -> real,
    after: spec_fn(int) -> real,
)
    requires
        wasm::updated(bodies, dt).len() == bodies.len(),
        0 <= position < bodies.len(),
        bodies_newton::all_in_range(bodies),
        newton::are_distances(before, bodies, position, 9 as real),
        bodies_newton::all_in_range(wasm::updated(bodies, dt)),
        newton::are_distances(after, wasm::updated(bodies, dt), position, 9 as real),
    ensures
        ({
            let moved = wasm::updated(bodies, dt);
            let (start, end) = (bodies[position], moved[position]);
            let half = half_way(
                start,
                axis,
                newton::acceleration(bodies, position, axis, 15 as real, before),
                dt,
            );
            let first = scalar_kick(
                bodies,
                position,
                Estimate::of(start.along(axis.velocity())),
                dt,
                axis,
                before,
            );
            let second = scalar_kick(
                wasm_balance::there(bodies, dt),
                position,
                first,
                dt,
                axis,
                after,
            );
            &&& end.mass == start.mass
            &&& end.brightness == start.brightness
            &&& is_near(
                end.along(axis.velocity()),
                half + product(
                    newton::acceleration(moved, position, axis, 15 as real, after),
                    dt.number() / 2 as real,
                ),
                second.error,
            )
            &&& is_near(
                end.along(axis.place()),
                start.along(axis.place()).number() + product(half, dt.number()),
                travel(start.along(axis.place()), first, dt).error,
            )
        }),
{
    let there = wasm_balance::there(bodies, dt);
    let moved = wasm::updated(bodies, dt);
    contact::law_whatever_touches_merges(there);
    assert(wasm::drifted(bodies, dt) == there);
    law_scalar_particles_are_kicked_and_moved(bodies, dt, position, axis, before);
    lemma_same_pulls(there, moved, position, axis, after);
    let v = Estimate::of(bodies[position].along(axis.velocity()));
    let first = scalar_kick(bodies, position, v, dt, axis, before);
    bodies_newton::law_scalar_accelerations_are_newtonian(there, position, axis, after);
    lemma_kick(first, bodies_newton::scalar_estimate(there, position, axis, after), dt, true);
}

/// The first half of a step of an eight-lane cloud gives every particle half of the time times its
/// Newtonian acceleration and then moves it with that velocity for the whole time, and changes
/// nothing else of it.
pub proof fn law_lane_particles_are_kicked_and_moved(
    bodies: Seq<Body>,
    dt: Binary32,
    position: int,
    axis: Axis,
    distances: spec_fn(int) -> real,
)
    requires
        0 <= position < bodies.len(),
        bodies_newton::all_in_range(bodies),
        newton::are_distances(distances, bodies, position, 9 as real),
    ensures
        ({
            let (before, after) = (
                bodies[position],
                simd_balance::there(bodies, dt)[position],
            );
            let half = half_way(
                before,
                axis,
                newton::acceleration(bodies, position, axis, 15 as real, distances),
                dt,
            );
            let kicked = lane_kick(
                bodies,
                position,
                Estimate::of(before.along(axis.velocity())),
                dt,
                axis,
                distances,
            );
            &&& simd_balance::there(bodies, dt).len() == bodies.len()
            &&& after.mass == before.mass
            &&& after.brightness == before.brightness
            &&& is_near(after.along(axis.velocity()), half, kicked.error)
            &&& is_near(
                after.along(axis.place()),
                before.along(axis.place()).number() + product(half, dt.number()),
                travel(before.along(axis.place()), kicked, dt).error,
            )
            &&& after.along(axis.velocity()) == kicked.computed
            &&& kicked.holds()
            &&& kicked.exact == half
        }),
{
    let v = Estimate::of(bodies[position].along(axis.velocity()));
    let a = bodies_newton::lane_estimate(bodies, position, axis, distances);
    let lanes = simd::in_lanes(position, bodies.len() as int);
    bodies_newton::law_lane_accelerations_are_newtonian(bodies, position, axis, distances);
    lemma_kick(v, a, dt, lanes);
    lemma_travel(bodies[position].along(axis.place()), kick(v, a, dt, lanes), dt);
}

/// The second half of a step of an eight-lane cloud, whatever its size, gives every particle that is
/// left after the merging half of the time times its Newtonian acceleration among all that are left,
/// and changes nothing else of it.
pub proof fn law_lane_particles_are_kicked_again(
    bodies: Seq<Body>,
    dt: Binary32,
    position: int,
    axis: Axis,
    distances: spec_fn(int) -> real,
)
    requires
        0 <= position < simd::updated(bodies, dt).len(),
        bodies_newton::all_in_range(simd::updated(bodies, dt)),
        newton::are_distances(distances, simd::updated(bodies, dt), position, 9 as real),
    ensures
        ({
            let left = merging::merged_from(simd_balance::there(bodies, dt), 0);
            let after = simd::updated(bodies, dt);
            let half = half_way(
                left[position],
                axis,
                newton::acceleration(after, position, axis, 15 as real, distances),
                dt,
            );
            let kicked = lane_kick(
                left,
                position,
                Estimate::of(left[position].along(axis.velocity())),
                dt,
                axis,
                distances,
            );
            &&& after.len() == left.len()
            &&& after[position].x == left[position].x
            &&& after[position].y == left[position].y
            &&& after[position].mass == left[position].mass
            &&& after[position].brightness == left[position].brightness
            &&& is_near(after[position].along(axis.velocity()), half, kicked.error)
        }),
{
    let left = merging::merged_from(simd_balance::there(bodies, dt), 0);
    let after = simd::updated(bodies, dt);
    lemma_same_pulls(left, after, position, axis, distances);
    let v = Estimate::of(left[position].along(axis.velocity()));
    let a = bodies_newton::lane_estimate(left, position, axis, distances);
    bodies_newton::law_lane_accelerations_are_newtonian(left, position, axis, distances);
    lemma_kick(v, a, dt, simd::in_lanes(position, left.len() as int));
}

/// A step of an eight-lane cloud in which nothing merges changes every velocity by half of the time
/// times the Newtonian acceleration at the places before it and half of the time times that at the
/// places after it, and every place by the whole time times the velocity after the first half; up to
/// rounding. Masses and brightness stay.
pub proof fn law_lane_steps_follow_newton(
    bodies: Seq<Body>,
    dt: Binary32,
    position: int,
    axis: Axis,
    before: spec_fn(int) -> real,
    after: spec_fn(int) -> real,
)
    requires
        simd::updated(bodies, dt).len() == bodies.len(),
        0 <= position < bodies.len(),
        bodies_newton::all_in_range(bodies),
        newton::are_distances(before, bodies, position, 9 as real),
        bodies_newton::all_in_range(simd::updated(bodies, dt)),
        newton::are_distances(after, simd::updated(bodies, dt), position, 9 as real),
    ensures
        ({
            let moved = simd::updated(bodies, dt);
            let (start, end) = (bodies[position], moved[position]);
            let half = half_way(
                start,
                axis,
                newton::acceleration(bodies, position, axis, 15 as real, before),
                dt,
            );
            let first = lane_kick(
                bodies,
                position,
                Estimate::of(start.along(axis.velocity())),
                dt,
                axis,
                before,
            );
            let second = lane_kick(
                simd_balance::there(bodies, dt),
                position,
                first,
                dt,
                axis,
                after,
            );
            &&& end.mass == start.mass
            &&& end.brightness == start.brightness
            &&& is_near(
                end.along(axis.velocity()),
                half + product(
                    newton::acceleration(moved, position, axis, 15 as real, after),
                    dt.number() / 2 as real,
                ),
                second.error,
            )
            &&& is_near(
                end.along(axis.place()),
                start.along(axis.place()).number() + product(half, dt.number()),
                travel(start.along(axis.place()), first, dt).error,
            )
        }),
{
    let there = simd_balance::there(bodies, dt);
    let moved = simd::updated(bodies, dt);
    contact::law_whatever_touches_merges(there);
    assert(simd::drifted(bodies, dt) == there);
    law_lane_particles_are_kicked_and_moved(bodies, dt, position, axis, before);
    lemma_same_pulls(there, moved, position, axis, after);
    let v = Estimate::of(bodies[position].along(axis.velocity()));
    let first = lane_kick(bodies, position, v, dt, axis, before);
    bodies_newton::law_lane_accelerations_are_newtonian(there, position, axis, after);
    lemma_kick(
        first,
        bodies_newton::lane_estimate(there, position, axis, after),
        dt,
        simd::in_lanes(position, there.len() as int),
    );
}

} // verus!
