//! How accurate the accelerations of a scalar cloud are, in plain numbers.

use vstd::prelude::*;
use crate::balance;
use crate::binary32;
use crate::binary32::Binary32;
use crate::bodies;
use crate::bodies::{Axis, Body, Coordinate};
use crate::estimate;
use crate::merge_means;
use crate::merging::Merging;
use crate::moderation;
use crate::moderation::{all_moderate, is_moderate};
use crate::newton;
use crate::pull_accuracy;
use crate::rounding;
use crate::rounding::{product, size};
use crate::wasm;

verus! {

/// No body has a mass less than zero.
pub open spec fn none_is_negative(bodies: Seq<Body>) -> bool {
    forall|i: int| 0 <= i < bodies.len() ==> (#[trigger] bodies[i]).mass.number() >= 0 as real
}

/// The sizes of the exact pulls of the first bodies on one, added up.
pub open spec fn strength(
    bodies: Seq<Body>,
    position: int,
    upto: int,
    axis: Axis,
    distances: spec_fn(int) -> real,
) -> real {
    balance::sum(
        upto,
        |j: int| size(newton::pull_of(bodies, position, j, axis, 15 as real, distances)),
    )
}

/// The exact pulls of the first bodies on one, added up.
pub open spec fn pull_of_first(
    bodies: Seq<Body>,
    position: int,
    upto: int,
    axis: Axis,
    distances: spec_fn(int) -> real,
) -> real {
    balance::sum(upto, |j: int| newton::pull_of(bodies, position, j, axis, 15 as real, distances))
}

/// A computed sum of pulls is near the exact one: up to 1/500 of the sizes of the pulls and two to
/// the minus 22 of them for each, and two to the minus 16 for each.
pub open spec fn is_near_sum(sum: Binary32, exact: real, strength: real, count: int) -> bool {
    &&& sum.is_finite()
    &&& size(sum.number() - exact) <= strength / 500 as real + strength * (count as real
        / 0x40_0000 as real) + count as real / 0x1_0000 as real
}

/// Adding one more pull keeps a sum near.
proof fn lemma_one_more(
    sum: Binary32,
    exact: real,
    strength: real,
    count: int,
    pull: Binary32,
    more: real,
    next: Binary32,
)
    requires
        is_near_sum(sum, exact, strength, count),
        0 <= count < 0x10_0000,
        strength >= 0 as real,
        size(exact) <= strength,
        pull.is_finite(),
        size(pull.number() - more) <= size(more) / 500 as real + 1 as real / 0x10_0000 as real,
        next.is_finite(),
        size(next.number() - (sum.number() + pull.number())) <= rounding::slack(next),
    ensures
        is_near_sum(next, exact + more, strength + size(more), count + 1),
        size(exact + more) <= strength + size(more),
        strength + size(more) >= 0 as real,
{
    merge_means::lemma_tiny_least();
    let (n, a, m) = (count as real, strength, size(more));
    let part = 0x40_0000 as real;
    let (r, s) = (n / part, (n + 1 as real) / part);
    assert((count + 1) as real == n + 1 as real);
    assert(r >= 0 as real && r <= 1 as real / 4 as real);
    let (x, y) = (a * r, m * s);
    assert((a + m) * s == x + a / part + y) by (nonlinear_arith)
        requires
            x == a * r,
            y == m * s,
            r == n / part,
            s == (n + 1 as real) / part,
            part == 0x40_0000 as real,
    ;
    assert(0 as real <= x && x <= a / 4 as real && y >= m / part) by (nonlinear_arith)
        requires
            x == a * r,
            y == m * s,
            a >= 0 as real,
            m >= 0 as real,
            r >= 0 as real,
            r <= 1 as real / 4 as real,
            s >= 1 as real / part,
            part == 0x40_0000 as real,
    ;
}

/// The pull of a body on one behind it is opposite to that of the one behind.
proof fn lemma_opposite_pull(mass: real, ahead: real, distance: real)
    requires
        distance > 0 as real,
    ensures
        newton::pull(15 as real, mass, -ahead, distance) == -newton::pull(
            15 as real,
            mass,
            ahead,
            distance,
        ),
{
    reveal(product);
    let (n, c) = (15 as real * mass, distance * distance * distance);
    assert(c > 0 as real) by (nonlinear_arith)
        requires
            c == distance * distance * distance,
            distance > 0 as real,
    ;
    assert((n * -ahead) / c == -((n * ahead) / c)) by (nonlinear_arith)
        requires
            c > 0 as real,
    ;
}

/// What those before it do to a particle of a scalar cloud is near what Newton's law says.
proof fn lemma_reacted(
    bodies: Seq<Body>,
    position: int,
    upto: int,
    axis: Axis,
    distances: spec_fn(int) -> real,
)
    requires
        all_moderate(bodies),
        none_is_negative(bodies),
        0 <= upto <= position < bodies.len(),
        newton::are_distances(distances, bodies, position, 9 as real),
    ensures
        ({
            let exact = pull_of_first(bodies, position, upto, axis, distances);
            let all = strength(bodies, position, upto, axis, distances);
            &&& is_near_sum(axis.of(wasm::reacted(bodies, position, upto)), exact, all, upto)
            &&& size(exact) <= all
            &&& all >= 0 as real
        }),
    decreases upto,
{
    if upto == 0 {
        estimate::lemma_zero();
        moderation::lemma_nothing(214);
        let none = 0 as real;
        assert(none * (0 as real / 0x40_0000 as real) == 0 as real) by (nonlinear_arith)
            requires
                none == 0 as real,
        ;
    } else {
        let other = upto - 1;
        let (mine, its) = (bodies[position], bodies[other]);
        lemma_reacted(bodies, position, other, axis, distances);
        moderation::lemma_reacted(bodies, position, upto);
        lemma_coordinates(bodies, position);
        lemma_coordinates(bodies, other);
        let sum = axis.of(wasm::reacted(bodies, position, other));
        let pull = axis.of(bodies::pull(its, mine, its.mass));
        let next = axis.of(wasm::reacted(bodies, position, upto));
        let distance = distances(other);
        assert(newton::is_distance(distance, mine, its, 9 as real));
        assert(newton::is_distance(distance, its, mine, 9 as real)) by {
            reveal(product);
            lemma_squares(newton::ahead(mine, its, Axis::X));
            lemma_squares(newton::ahead(mine, its, Axis::Y));
        }
        pull_accuracy::law_pulls_are_newtonian(its, mine, its.mass, axis, distance);
        let ahead = newton::ahead(mine, its, axis);
        assert(newton::ahead(its, mine, axis) == -ahead);
        lemma_opposite_pull(its.mass.number(), ahead, distance);
        let more = newton::pull_of(bodies, position, other, axis, 15 as real, distances);
        let back = pull.opposite();
        binary32::lemma_opposite(pull);
        estimate::lemma_opposite_numbers(pull, back);
        rounding::law_differences_are_near(sum, pull);
        lemma_one_more(
            sum,
            pull_of_first(bodies, position, other, axis, distances),
            strength(bodies, position, other, axis, distances),
            other,
            back,
            more,
            next,
        );
    }
}

/// A number and its opposite have one square.
proof fn lemma_squares(x: real)
    ensures
        (-x) * (-x) == x * x,
{
    assert((-x) * (-x) == x * x) by (nonlinear_arith);
}

/// The coordinates of a moderate body.
pub(crate) proof fn lemma_coordinates(bodies: Seq<Body>, i: int)
    requires
        all_moderate(bodies),
        0 <= i < bodies.len(),
    ensures
        is_moderate(bodies[i].x),
        is_moderate(bodies[i].y),
        is_moderate(bodies[i].mass),
{
    let body = bodies[i];
    assert(body.along(Coordinate::X) == body.x && body.along(Coordinate::Y) == body.y && body.weight()
        == body.mass);
}

/// What all others do to a particle of a scalar cloud is near what Newton's law says.
proof fn lemma_attracted(
    bodies: Seq<Body>,
    position: int,
    upto: int,
    axis: Axis,
    distances: spec_fn(int) -> real,
)
    requires
        all_moderate(bodies),
        none_is_negative(bodies),
        0 <= position < upto <= bodies.len(),
        newton::are_distances(distances, bodies, position, 9 as real),
    ensures
        ({
            let exact = pull_of_first(bodies, position, upto, axis, distances);
            let all = strength(bodies, position, upto, axis, distances);
            &&& is_near_sum(axis.of(wasm::attracted(bodies, position, upto)), exact, all, upto)
            &&& size(exact) <= all
            &&& all >= 0 as real
        }),
    decreases upto,
{
    if upto == position + 1 {
        lemma_reacted(bodies, position, position, axis, distances);
        let all = strength(bodies, position, position, axis, distances);
        let n = position as real / 0x40_0000 as real;
        let m = upto as real / 0x40_0000 as real;
        assert(upto as real == position as real + 1 as real);
        assert(all * n <= all * m) by (nonlinear_arith)
            requires
                all >= 0 as real,
                n <= m,
        ;
        assert(newton::pull_of(bodies, position, position, axis, 15 as real, distances) == 0 as real);
    } else {
        let other = upto - 1;
        let (mine, its) = (bodies[position], bodies[other]);
        lemma_attracted(bodies, position, other, axis, distances);
        moderation::lemma_attracted(bodies, position, upto);
        lemma_coordinates(bodies, position);
        lemma_coordinates(bodies, other);
        let sum = axis.of(wasm::attracted(bodies, position, other));
        let pull = axis.of(bodies::pull(mine, its, its.mass));
        let distance = distances(other);
        assert(newton::is_distance(distance, mine, its, 9 as real));
        pull_accuracy::law_pulls_are_newtonian(mine, its, its.mass, axis, distance);
        rounding::law_sums_are_near(sum, pull);
        lemma_one_more(
            sum,
            pull_of_first(bodies, position, other, axis, distances),
            strength(bodies, position, other, axis, distances),
            other,
            pull,
            newton::pull_of(bodies, position, other, axis, 15 as real, distances),
            axis.of(wasm::attracted(bodies, position, upto)),
        );
    }
}

/// Every particle of a moderate scalar cloud accelerates as Newton's law of gravitation says: by 15
/// times the sum of the masses of all others, each times how far it lies ahead, divided by the cube
/// of its softened distance. This is up to 1/500 of the sizes of the pulls, two to the minus 22 of
/// them for every particle, and two to the minus 16 for every particle.
pub proof fn law_accelerations_are_accurate(
    bodies: Seq<Body>,
    position: int,
    axis: Axis,
    distances: spec_fn(int) -> real,
)
    requires
        all_moderate(bodies),
        none_is_negative(bodies),
        0 <= position < bodies.len(),
        newton::are_distances(distances, bodies, position, 9 as real),
    ensures
        is_near_sum(
            axis.of(wasm::accelerations_of(bodies)[position]),
            newton::acceleration(bodies, position, axis, 15 as real, distances),
            strength(bodies, position, bodies.len() as int, axis, distances),
            bodies.len() as int,
        ),
{
    lemma_attracted(bodies, position, bodies.len() as int, axis, distances);
}

} // verus!
