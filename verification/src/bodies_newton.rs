//! How bodies accelerate: by Newton's law of gravitation, with a gravitational constant of 15 and a
//! softening length of 3, up to rounding.

use vstd::prelude::*;
use vstd::arithmetic::power2::*;
use crate::agreement;
use crate::balance;
use crate::binary32::Binary32;
use crate::bodies;
use crate::bodies::{Axis, Body, GRAVITATIONAL_CONSTANT, GRAVITY_SOFTENING};
use crate::bodies_balance;
use crate::estimate;
use crate::estimate::Estimate;
use crate::merging::Merging;
use crate::newton;
use crate::numbers;
use crate::rounding;
use crate::rounding::{product, size, slack};
use crate::simd;
use crate::simd_estimate;
use crate::softening;
use crate::wasm;
use crate::wasm_balance;

verus! {

/// How far one body lies ahead of another along an axis, beside the exact distance.
pub open spec fn ahead_estimate(a: Body, b: Body, axis: Axis) -> Estimate {
    Estimate::of(b.along(axis.place())).minus(Estimate::of(a.along(axis.place())))
}

/// The square of the softening length, beside the exact one.
pub open spec fn softening_estimate() -> Estimate {
    let length = Estimate::of(Binary32::from_bits(GRAVITY_SOFTENING));
    length.times(length)
}

/// The softened square of a distance, beside the exact one.
pub open spec fn softened_estimate(a: Body, b: Body) -> Estimate {
    let (dx, dy) = (ahead_estimate(a, b, Axis::X), ahead_estimate(a, b, Axis::Y));
    dx.times(dx).plus(dy.times(dy)).plus(softening_estimate())
}

/// The softened square of a distance, as the lanes add it up, beside the exact one.
pub open spec fn lane_softened_estimate(a: Body, b: Body) -> Estimate {
    let (dx, dy) = (ahead_estimate(a, b, Axis::X), ahead_estimate(a, b, Axis::Y));
    dx.times(dx).plus(dy.times(dy).plus(softening_estimate()))
}

/// Both are near the exact softened square of the distance.
proof fn lemma_softened(a: Body, b: Body)
    ensures
        softened_estimate(a, b).holds(),
        softened_estimate(a, b).computed == bodies_balance::softened(a, b),
        softened_estimate(a, b).exact == newton::softened_squared(a, b, 9 as real),
        lane_softened_estimate(a, b).holds(),
        lane_softened_estimate(a, b).computed == simd_estimate::lane_softened(a, b),
        lane_softened_estimate(a, b).exact == newton::softened_squared(a, b, 9 as real),
{
    let (dx, dy) = (ahead_estimate(a, b, Axis::X), ahead_estimate(a, b, Axis::Y));
    let length = Estimate::of(Binary32::from_bits(GRAVITY_SOFTENING));
    estimate::law_estimates_hold(Estimate::of(b.x), Estimate::of(a.x));
    estimate::law_estimates_hold(Estimate::of(b.y), Estimate::of(a.y));
    estimate::law_estimates_hold(dx, dx);
    estimate::law_estimates_hold(dy, dy);
    estimate::law_estimates_hold(length, length);
    estimate::law_estimates_hold(dx.times(dx), dy.times(dy));
    estimate::law_estimates_hold(dx.times(dx).plus(dy.times(dy)), softening_estimate());
    estimate::law_estimates_hold(dy.times(dy), softening_estimate());
    estimate::law_estimates_hold(dx.times(dx), dy.times(dy).plus(softening_estimate()));
    lemma2_to64();
    numbers::lemma_bits(GRAVITY_SOFTENING, 22, 0x40_0000);
    assert(product(3 as real, 3 as real) == 9 as real) by {
        reveal(product);
        assert(3 as real * 3 as real == 9 as real) by (nonlinear_arith);
    }
}

/// How far the displacement between two bodies can be from the exact one.
proof fn lemma_ahead(a: Body, b: Body, axis: Axis)
    requires
        axis.of(a.towards(b)).is_finite(),
    ensures
        size(axis.of(a.towards(b)).number() - newton::ahead(a, b, axis)) <= slack(
            axis.of(a.towards(b)),
        ),
{
    match axis {
        Axis::X => {
            rounding::law_differences_are_near(b.x, a.x);
        },
        Axis::Y => {
            rounding::law_differences_are_near(b.y, a.y);
        },
    }
}

/// Where the softened square of a distance does not overflow, neither do the displacements.
proof fn lemma_displacements_are_finite(a: Body, b: Body, axis: Axis)
    requires
        bodies_balance::softened(a, b).is_finite(),
    ensures
        axis.of(a.towards(b)).is_finite(),
{
    let (dx, dy) = a.towards(b);
    rounding::law_sums_are_near(dx * dx + dy * dy, bodies::softening_squared());
    rounding::law_sums_are_near(dx * dx, dy * dy);
    rounding::law_products_are_near(dx, dx);
    rounding::law_products_are_near(dy, dy);
}

/// How far the pull of a mass at the place of the second of two bodies on the first can be from
/// Newton's, and how far as the lanes compute it.
pub open spec fn pull_error(a: Body, b: Body, mass: Binary32, axis: Axis, lanes: bool, distance: real) -> real {
    let (softened, error) = if lanes {
        (simd_estimate::lane_softened(a, b), lane_softened_estimate(a, b).error)
    } else {
        (bodies_balance::softened(a, b), softened_estimate(a, b).error)
    };
    newton::pull_error(
        15 as real,
        mass.number(),
        axis.of(a.towards(b)),
        softened,
        error,
        distance,
    )
}

/// The pull of a mass at the place of the second of two bodies on the first is near Newton's.
proof fn lemma_pull(a: Body, b: Body, mass: Binary32, axis: Axis, distance: real)
    requires
        agreement::is_in_range(a, b),
        newton::is_distance(distance, a, b, 9 as real),
    ensures
        size(
            bodies_balance::pull_estimate(a, b, mass, axis).exact - newton::pull(
                15 as real,
                mass.number(),
                newton::ahead(a, b, axis),
                distance,
            ),
        ) <= pull_error(a, b, mass, axis, false, distance),
        size(
            simd_estimate::lane_pull_estimate(a, b, mass, axis).exact - newton::pull(
                15 as real,
                mass.number(),
                newton::ahead(a, b, axis),
                distance,
            ),
        ) <= pull_error(a, b, mass, axis, true, distance),
{
    lemma_softened(a, b);
    softening::law_inverse_distances_are_finite(a, b);
    lemma_displacements_are_finite(a, b, axis);
    lemma_ahead(a, b, axis);
    lemma2_to64();
    numbers::lemma_bits(GRAVITATIONAL_CONSTANT, 20, 0x10_0000);
    let d = axis.of(a.towards(b));
    newton::lemma_pull_is_near(
        15 as real,
        mass.number(),
        d,
        bodies_balance::softened(a, b),
        softened_estimate(a, b).error,
        newton::ahead(a, b, axis),
        distance,
    );
    newton::lemma_pull_is_near(
        15 as real,
        mass.number(),
        d,
        simd_estimate::lane_softened(a, b),
        lane_softened_estimate(a, b).error,
        newton::ahead(a, b, axis),
        distance,
    );
    let i = bodies_balance::inverse_of(simd_estimate::lane_softened(a, b)).number();
    estimate::lemma_products_of_three(
        d.number(),
        product(15 as real, newton::cube(i)),
        mass.number(),
    );
}

/// How far the pull of one of some bodies on another can be from Newton's.
pub open spec fn met_error(
    bodies: Seq<Body>,
    position: int,
    other: int,
    axis: Axis,
    lanes: bool,
    distances: spec_fn(int) -> real,
) -> real {
    if position == other {
        0 as real
    } else {
        let (first, second) = if position < other {
            (position, other)
        } else {
            (other, position)
        };
        pull_error(
            bodies[first],
            bodies[second],
            bodies[other].mass,
            axis,
            lanes && second < simd::lanes_end(first, bodies.len() as int),
            distances(other),
        )
    }
}

/// No distance between two of some bodies overflows.
pub open spec fn all_in_range(bodies: Seq<Body>) -> bool {
    forall|i: int, j: int|
        0 <= i < j < bodies.len() ==> agreement::is_in_range(
            #[trigger] bodies[i],
            #[trigger] bodies[j],
        )
}

/// The pull of one of some bodies on another is near Newton's, in a scalar and in an eight-lane
/// cloud.
proof fn lemma_met(
    bodies: Seq<Body>,
    position: int,
    other: int,
    axis: Axis,
    distances: spec_fn(int) -> real,
)
    requires
        0 <= position < bodies.len(),
        0 <= other < bodies.len(),
        all_in_range(bodies),
        newton::are_distances(distances, bodies, position, 9 as real),
    ensures
        size(
            wasm_balance::exact_pull(bodies, position, other, axis) - newton::pull_of(
                bodies,
                position,
                other,
                axis,
                15 as real,
                distances,
            ),
        ) <= met_error(bodies, position, other, axis, false, distances),
        size(
            simd_estimate::exact_pull(bodies, position, other, axis) - newton::pull_of(
                bodies,
                position,
                other,
                axis,
                15 as real,
                distances,
            ),
        ) <= met_error(bodies, position, other, axis, true, distances),
{
    if position != other {
        let (first, second) = if position < other {
            (position, other)
        } else {
            (other, position)
        };
        let (a, b) = (bodies[first], bodies[second]);
        let mass = bodies[other].mass;
        let s = distances(other);
        assert(newton::is_distance(s, bodies[position], bodies[other], 9 as real));
        newton::lemma_other_direction(a, b, 9 as real);
        lemma_pull(a, b, mass, axis, s);
        let d = newton::ahead(a, b, axis);
        if other < position {
            assert(newton::ahead(bodies[position], bodies[other], axis) == -d);
            assert(newton::pull(15 as real, mass.number(), -d, s) == -newton::pull(
                15 as real,
                mass.number(),
                d,
                s,
            ));
        }
    }
}

/// The acceleration of a particle of a scalar cloud, meant to be Newton's.
pub open spec fn scalar_estimate(
    bodies: Seq<Body>,
    position: int,
    axis: Axis,
    distances: spec_fn(int) -> real,
) -> Estimate {
    Estimate {
        computed: axis.of(wasm::accelerations_of(bodies)[position]),
        exact: newton::acceleration(bodies, position, axis, 15 as real, distances),
        error: wasm_balance::acceleration_estimate(bodies, position, axis).error + size(
            balance::sum(
                bodies.len() as int,
                |j: int| met_error(bodies, position, j, axis, false, distances),
            ),
        ),
    }
}

/// The acceleration of a particle of an eight-lane cloud, meant to be Newton's.
pub open spec fn lane_estimate(
    bodies: Seq<Body>,
    position: int,
    axis: Axis,
    distances: spec_fn(int) -> real,
) -> Estimate {
    Estimate {
        computed: axis.of(simd::acceleration(bodies, position)),
        exact: newton::acceleration(bodies, position, axis, 15 as real, distances),
        error: simd_estimate::acceleration_estimate(bodies, position, axis).error + size(
            balance::sum(
                bodies.len() as int,
                |j: int| met_error(bodies, position, j, axis, true, distances),
            ),
        ),
    }
}

/// Every particle of a scalar cloud accelerates as Newton's law says: by 15 times the sum of the
/// masses of all others, each times how far it lies ahead, divided by the cube of its softened
/// distance; up to rounding, where no distance overflows and the acceleration is finite.
pub proof fn law_scalar_accelerations_are_newtonian(
    bodies: Seq<Body>,
    position: int,
    axis: Axis,
    distances: spec_fn(int) -> real,
)
    requires
        0 <= position < bodies.len(),
        all_in_range(bodies),
        newton::are_distances(distances, bodies, position, 9 as real),
    ensures
        wasm::accelerations_of(bodies).len() == bodies.len(),
        scalar_estimate(bodies, position, axis, distances).holds(),
{
    let n = bodies.len() as int;
    let computed = |j: int| wasm_balance::exact_pull(bodies, position, j, axis);
    let exact = |j: int| newton::pull_of(bodies, position, j, axis, 15 as real, distances);
    let error = |j: int| met_error(bodies, position, j, axis, false, distances);
    wasm_balance::law_accelerations_are_near(bodies, position, axis);
    assert forall|j: int| 0 <= j < n implies size(#[trigger] computed(j) - exact(j)) <= error(
        j,
    ) by {
        lemma_met(bodies, position, j, axis, distances);
    }
    balance::lemma_near_terms(n, computed, exact, error);
}

/// Every particle of an eight-lane cloud accelerates as Newton's law says, like one of a scalar
/// cloud.
pub proof fn law_lane_accelerations_are_newtonian(
    bodies: Seq<Body>,
    position: int,
    axis: Axis,
    distances: spec_fn(int) -> real,
)
    requires
        0 <= position < bodies.len(),
        all_in_range(bodies),
        newton::are_distances(distances, bodies, position, 9 as real),
    ensures
        lane_estimate(bodies, position, axis, distances).holds(),
{
    let n = bodies.len() as int;
    let computed = |j: int| simd_estimate::exact_pull(bodies, position, j, axis);
    let exact = |j: int| newton::pull_of(bodies, position, j, axis, 15 as real, distances);
    let error = |j: int| met_error(bodies, position, j, axis, true, distances);
    simd_estimate::law_accelerations_are_near(bodies, position, axis);
    assert forall|j: int| 0 <= j < n implies size(#[trigger] computed(j) - exact(j)) <= error(
        j,
    ) by {
        lemma_met(bodies, position, j, axis, distances);
    }
    balance::lemma_near_terms(n, computed, exact, error);
}

} // verus!
