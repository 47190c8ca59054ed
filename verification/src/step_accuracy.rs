//! How accurate a step of a scalar cloud is, in plain numbers.

use vstd::prelude::*;
use vstd::arithmetic::power2::*;
use crate::acceleration_accuracy;
use crate::acceleration_accuracy::{none_is_negative, strength};
use crate::balance;
use crate::binary32;
use crate::binary32::{Binary32, HALF};
use crate::bodies::{Axis, Body, Coordinate};
use crate::contact;
use crate::magnitude;
use crate::magnitude::HIDDEN_BIT;
use crate::merge_means;
use crate::merging::Merging;
use crate::moderation;
use crate::moderation::{all_moderate, is_moderate, is_short};
use crate::newton;
use crate::rounding;
use crate::rounding::size;
use crate::wasm;
use crate::wasm_balance;

verus! {

/// A time whose half is exact: it is far from the least numbers, and no more than 256.
pub open spec fn is_ordinary(dt: Binary32) -> bool {
    is_short(dt) && dt.magnitude() >= 2 * HIDDEN_BIT
}

/// Half of such a time is exact.
proof fn lemma_half(dt: Binary32)
    requires
        is_ordinary(dt),
    ensures
        (dt * Binary32::from_bits(HALF)).is_finite(),
        (dt * Binary32::from_bits(HALF)).number() == dt.number() / 2 as real,
        moderation::is_bounded(dt * Binary32::from_bits(HALF), 1, 156),
{
    let half = dt * Binary32::from_bits(HALF);
    let code = (dt.magnitude() - HIDDEN_BIT) as nat;
    binary32::law_halving_is_exact(dt);
    binary32::lemma_signed(dt.is_negative(), code);
    binary32::lemma_twice(code);
    let (v, w, e) = (dt.value() as real, half.value() as real, rounding::least());
    assert(dt.value() == 2 * half.value());
    assert(w * e == v * e / 2 as real) by (nonlinear_arith)
        requires
            v == 2 as real * w,
    ;
    moderation::lemma_moderate(dt);
    moderation::lemma_half();
    moderation::lemma_product(dt, Binary32::from_bits(HALF), 157, 148, 156);
}

/// How far the acceleration of one of so many particles can be from the exact one.
pub open spec fn acceleration_error(strength: real, count: int) -> real {
    strength / 500 as real + strength * (count as real / 0x40_0000 as real) + count as real
        / 0x1_0000 as real
}

/// How far a velocity after half a kick can be from the exact one, where the acceleration can be off
/// by so much.
pub open spec fn kick_error(velocity: real, acceleration: real, error: real, dt: Binary32) -> real {
    error * size(dt.number()) + (size(velocity) + (size(acceleration) + error) * size(dt.number()))
        / 0x10_0000 as real + 1 as real / 0x10_0000 as real
}

/// Half a kick is near the exact one.
proof fn lemma_kick(v: Binary32, a: Binary32, exact: real, error: real, dt: Binary32)
    requires
        is_ordinary(dt),
        error >= 0 as real,
        size(a.number() - exact) <= error,
        (v + a * (dt * Binary32::from_bits(HALF))).is_finite(),
    ensures
        ({
            let after = v + a * (dt * Binary32::from_bits(HALF));
            size(after.number() - (v.number() + exact * (dt.number() / 2 as real))) <= kick_error(
                v.number(),
                exact,
                error,
                dt,
            )
        }),
{
    let half = dt * Binary32::from_bits(HALF);
    let k = a * half;
    lemma_half(dt);
    merge_means::lemma_tiny_least();
    rounding::law_sums_are_near(v, k);
    rounding::law_products_are_near(a, half);
    let (h, x, t) = (half.number(), a.number(), size(dt.number()));
    let (g, p, q) = (x - exact, exact * h, x * h);
    assert(q - p == g * h) by (nonlinear_arith)
        requires
            g == x - exact,
            p == exact * h,
            q == x * h,
    ;
    let (et, at) = (error * t, size(exact) * t);
    assert(size(g * h) <= et / 2 as real && et >= 0 as real) by (nonlinear_arith)
        requires
            size(g) <= error,
            size(h) == t / 2 as real,
            et == error * t,
            error >= 0 as real,
            t >= 0 as real,
    ;
    assert(size(p) == at / 2 as real && at >= 0 as real) by (nonlinear_arith)
        requires
            p == exact * h,
            size(h) == t / 2 as real,
            at == size(exact) * t,
            t >= 0 as real,
    ;
    assert((size(exact) + error) * t == at + et) by (nonlinear_arith)
        requires
            at == size(exact) * t,
            et == error * t,
    ;
}

/// How far a place after a move can be from the exact one, where the velocity can be off by so much.
pub open spec fn move_error(place: real, velocity: real, error: real, dt: Binary32) -> real {
    error * size(dt.number()) + (size(place) + (size(velocity) + error) * size(dt.number()))
        / 0x10_0000 as real + 1 as real / 0x10_0000 as real
}

/// A move is near the exact one.
proof fn lemma_move(x: Binary32, v: Binary32, exact: real, error: real, dt: Binary32)
    requires
        dt.is_finite(),
        error >= 0 as real,
        size(v.number() - exact) <= error,
        (x + v * dt).is_finite(),
    ensures
        size((x + v * dt).number() - (x.number() + exact * dt.number())) <= move_error(
            x.number(),
            exact,
            error,
            dt,
        ),
{
    merge_means::lemma_tiny_least();
    rounding::law_sums_are_near(x, v * dt);
    rounding::law_products_are_near(v, dt);
    let (h, y, t) = (dt.number(), v.number(), size(dt.number()));
    let (g, p, q) = (y - exact, exact * h, y * h);
    assert(q - p == g * h) by (nonlinear_arith)
        requires
            g == y - exact,
            p == exact * h,
            q == y * h,
    ;
    let (et, at) = (error * t, size(exact) * t);
    assert(size(g * h) <= et && et >= 0 as real) by (nonlinear_arith)
        requires
            size(g) <= error,
            size(h) == t,
            et == error * t,
            error >= 0 as real,
            t >= 0 as real,
    ;
    assert(size(p) == at && at >= 0 as real) by (nonlinear_arith)
        requires
            p == exact * h,
            size(h) == t,
            at == size(exact) * t,
            t >= 0 as real,
    ;
    assert((size(exact) + error) * t == at + et) by (nonlinear_arith)
        requires
            at == size(exact) * t,
            et == error * t,
    ;
}

/// The accelerations of a moderate scalar cloud, with what they are off by.
proof fn lemma_acceleration(
    bodies: Seq<Body>,
    position: int,
    axis: Axis,
    distances: spec_fn(int) -> real,
)
    requires
        all_moderate(bodies),
        none_is_negative(bodies),
        0 <= position < bodies.len(),
        newton::are_distances(distances, bodies, position, 9 as real),
    ensures
        ({
            let a = axis.of(wasm::accelerations_of(bodies)[position]);
            let count = bodies.len() as int;
            let error = acceleration_error(
                strength(bodies, position, count, axis, distances),
                count,
            );
            &&& moderation::is_bounded(a, 0x40_0000, 214)
            &&& error >= 0 as real
            &&& size(
                a.number() - newton::acceleration(bodies, position, axis, 15 as real, distances),
            ) <= error
        }),
{
    acceleration_accuracy::law_accelerations_are_accurate(bodies, position, axis, distances);
    moderation::law_moderate_clouds_have_finite_accelerations(bodies, position, axis);
}

/// The velocity of a body after half of the time, exactly.
pub open spec fn half_way(
    bodies: Seq<Body>,
    position: int,
    dt: Binary32,
    axis: Axis,
    distances: spec_fn(int) -> real,
) -> real {
    bodies[position].along(axis.velocity()).number() + newton::acceleration(
        bodies,
        position,
        axis,
        15 as real,
        distances,
    ) * (dt.number() / 2 as real)
}

/// How far that can be off.
pub open spec fn half_error(
    bodies: Seq<Body>,
    position: int,
    dt: Binary32,
    axis: Axis,
    distances: spec_fn(int) -> real,
) -> real {
    let count = bodies.len() as int;
    kick_error(
        bodies[position].along(axis.velocity()).number(),
        newton::acceleration(bodies, position, axis, 15 as real, distances),
        acceleration_error(strength(bodies, position, count, axis, distances), count),
        dt,
    )
}

/// A step of a scalar cloud of any number of particles up to two to the 20, in which nothing
/// merges, changes every velocity by half of the time times the Newtonian acceleration at the places
/// before it and half of the time times that at the places after it, and every place by the time
/// times the velocity after the first half. What each is off by is a plain multiple of the times,
/// velocities and pulls.
pub proof fn law_steps_are_accurate(
    bodies: Seq<Body>,
    dt: Binary32,
    position: int,
    axis: Axis,
    before: spec_fn(int) -> real,
    after: spec_fn(int) -> real,
)
    requires
        is_ordinary(dt),
        all_moderate(bodies),
        none_is_negative(bodies),
        all_moderate(wasm::updated(bodies, dt)),
        wasm::updated(bodies, dt).len() == bodies.len(),
        0 <= position < bodies.len(),
        is_moderate(bodies[position].along(axis.velocity())),
        newton::are_distances(before, bodies, position, 9 as real),
        newton::are_distances(after, wasm::updated(bodies, dt), position, 9 as real),
    ensures
        ({
            let moved = wasm::updated(bodies, dt);
            let (start, end) = (bodies[position], moved[position]);
            let count = bodies.len() as int;
            let half = half_way(bodies, position, dt, axis, before);
            let error = half_error(bodies, position, dt, axis, before);
            let pulled = newton::acceleration(moved, position, axis, 15 as real, after);
            let place = start.along(axis.place()).number();
            &&& end.along(axis.velocity()).is_finite()
            &&& size(
                end.along(axis.velocity()).number() - (half + pulled * (dt.number() / 2 as real)),
            ) <= 2 as real * error + kick_error(
                half,
                pulled,
                acceleration_error(strength(moved, position, count, axis, after), count),
                dt,
            )
            &&& size(
                end.along(axis.place()).number() - (place + half * dt.number()),
            ) <= move_error(place, half, error, dt)
        }),
{
    let there = wasm_balance::there(bodies, dt);
    let moved = wasm::updated(bodies, dt);
    let count = bodies.len() as int;
    contact::law_whatever_touches_merges(there);
    assert(wasm::drifted(bodies, dt) == there);
    let (start, middle, end) = (bodies[position], there[position], moved[position]);
    let (v, x) = (start.along(axis.velocity()), start.along(axis.place()));
    let w = middle.along(axis.velocity());
    let a = axis.of(wasm::accelerations_of(bodies)[position]);
    let b = axis.of(wasm::accelerations_of(there)[position]);
    let h = dt * Binary32::from_bits(HALF);
    lemma_half(dt);
    lemma_acceleration(bodies, position, axis, before);
    lemma_same_cloud(there, moved);
    lemma_same_pulls(there, moved, position, axis, after);
    assert forall|i: int| 0 <= i < there.len() implies (#[trigger] there[i]).mass.number()
        >= 0 as real by {
        assert(there[i].mass == bodies[i].mass);
    }
    lemma_acceleration(there, position, axis, after);
    lemma_finite(v, x, a, b, dt);
    lemma_kick(
        v,
        a,
        newton::acceleration(bodies, position, axis, 15 as real, before),
        acceleration_error(strength(bodies, position, count, axis, before), count),
        dt,
    );
    let (half, error) = (
        half_way(bodies, position, dt, axis, before),
        half_error(bodies, position, dt, axis, before),
    );
    assert(w == v + a * h);
    assert(size(w.number() - half) <= error);
    let pulled = newton::acceleration(moved, position, axis, 15 as real, after);
    let off = acceleration_error(strength(moved, position, count, axis, after), count);
    assert(newton::acceleration(there, position, axis, 15 as real, after) == pulled);
    assert(strength(there, position, count, axis, after) == strength(
        moved,
        position,
        count,
        axis,
        after,
    ));
    lemma_kick(w, b, pulled, off, dt);
    lemma_move(x, w, half, error, dt);
}

/// Nothing of a step overflows.
proof fn lemma_finite(v: Binary32, x: Binary32, a: Binary32, b: Binary32, dt: Binary32)
    requires
        is_ordinary(dt),
        is_moderate(v),
        is_moderate(x),
        moderation::is_bounded(a, 0x40_0000, 214),
        moderation::is_bounded(b, 0x40_0000, 214),
    ensures
        ({
            let h = dt * Binary32::from_bits(HALF);
            let w = v + a * h;
            &&& w.is_finite()
            &&& (w + b * h).is_finite()
            &&& (x + w * dt).is_finite()
        }),
{
    let h = dt * Binary32::from_bits(HALF);
    let w = v + a * h;
    moderation::lemma_moderate(v);
    moderation::lemma_moderate(x);
    moderation::lemma_wider(v, 179, 241);
    moderation::lemma_wider(x, 179, 250);
    moderation::lemma_step(v, a, x, dt);
    lemma_half(dt);
    lemma2_to64();
    lemma_pow2_adds(22, 214);
    moderation::lemma_product(b, h, 236, 156, 243);
    moderation::lemma_wider(b * h, 243, 244);
    moderation::lemma_sum(w, b * h, 1, 1, 244);
}

/// Bodies in the same places with the same masses are as moderate.
proof fn lemma_same_cloud(a: Seq<Body>, b: Seq<Body>)
    requires
        a.len() == b.len(),
        all_moderate(b),
        forall|i: int|
            0 <= i < a.len() ==> (#[trigger] a[i]).x == b[i].x && a[i].y == b[i].y && a[i].mass
                == b[i].mass,
    ensures
        all_moderate(a),
{
    assert forall|i: int| 0 <= i < a.len() implies is_moderate(
        (#[trigger] a[i]).along(Coordinate::X),
    ) && is_moderate(a[i].along(Coordinate::Y)) && is_moderate(a[i].weight()) by {
        acceleration_accuracy::lemma_coordinates(b, i);
    }
}

/// Bodies in the same places with the same masses pull alike.
proof fn lemma_same_pulls(
    a: Seq<Body>,
    b: Seq<Body>,
    position: int,
    axis: Axis,
    distances: spec_fn(int) -> real,
)
    requires
        a.len() == b.len(),
        0 <= position < a.len(),
        newton::are_distances(distances, b, position, 9 as real),
        forall|i: int|
            0 <= i < a.len() ==> (#[trigger] a[i]).x == b[i].x && a[i].y == b[i].y && a[i].mass
                == b[i].mass,
    ensures
        newton::acceleration(a, position, axis, 15 as real, distances) == newton::acceleration(
            b,
            position,
            axis,
            15 as real,
            distances,
        ),
        strength(a, position, a.len() as int, axis, distances) == strength(
            b,
            position,
            a.len() as int,
            axis,
            distances,
        ),
        newton::are_distances(distances, a, position, 9 as real),
{
    let f = |j: int| newton::pull_of(a, position, j, axis, 15 as real, distances);
    let g = |j: int| newton::pull_of(b, position, j, axis, 15 as real, distances);
    let p = |j: int| size(newton::pull_of(a, position, j, axis, 15 as real, distances));
    let q = |j: int| size(newton::pull_of(b, position, j, axis, 15 as real, distances));
    assert(a[position].x == b[position].x && a[position].y == b[position].y);
    assert forall|j: int| 0 <= j < a.len() implies #[trigger] f(j) == g(j) by {
        assert(a[j].x == b[j].x && a[j].y == b[j].y && a[j].mass == b[j].mass);
    }
    assert forall|j: int| 0 <= j < a.len() implies #[trigger] p(j) == q(j) by {
        assert(f(j) == g(j));
    }
    balance::lemma_same_terms(a.len() as int, f, g);
    balance::lemma_same_terms(a.len() as int, p, q);
    assert forall|j: int| 0 <= j < a.len() && j != position implies newton::is_distance(
        #[trigger] distances(j),
        a[position],
        a[j],
        9 as real,
    ) by {
        assert(a[j].x == b[j].x && a[j].y == b[j].y);
        assert(newton::is_distance(distances(j), b[position], b[j], 9 as real));
    }
}

} // verus!
