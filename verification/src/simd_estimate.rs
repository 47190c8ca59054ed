//! The accelerations of an eight-lane cloud, beside what they are meant to be.

use vstd::prelude::*;
use crate::balance;
use crate::binary32::{Binary32, ZERO};
use crate::bodies;
use crate::bodies::{Axis, Body};
use crate::bodies_balance;
use crate::estimate;
use crate::estimate::Estimate;
use crate::simd;
use crate::simd::SIMD_LANES;

verus! {

/// The softened square of the distance between two bodies, as the lanes compute it.
pub open spec fn lane_softened(body: Body, other: Body) -> Binary32 {
    let (dx, dy) = body.towards(other);
    dx * dx + (dy * dy + bodies::softening_squared())
}

/// The acceleration of one body by a mass at the place of another, as the lanes compute it, meant
/// to be the displacement, the exact factor and the mass, multiplied.
pub open spec fn lane_pull_estimate(body: Body, other: Body, mass: Binary32, axis: Axis) -> Estimate {
    Estimate::of(axis.of(body.towards(other))).times(
        bodies_balance::attraction_estimate(lane_softened(body, other)).times(Estimate::of(mass)),
    )
}

/// A pull in the lanes is what its estimate computes.
proof fn lemma_lane_pull_estimate(body: Body, other: Body, mass: Binary32, axis: Axis)
    ensures
        lane_pull_estimate(body, other, mass, axis).holds(),
        lane_pull_estimate(body, other, mass, axis).computed == axis.of(
            simd::lane_pull(body, other, mass),
        ),
{
    let d = Estimate::of(axis.of(body.towards(other)));
    let f = bodies_balance::attraction_estimate(lane_softened(body, other));
    let m = Estimate::of(mass);
    bodies_balance::lemma_attraction_estimate(lane_softened(body, other));
    estimate::law_estimates_hold(f, m);
    estimate::law_estimates_hold(d, f.times(m));
}

/// The acceleration of the particle at `first` by a mass at the place of one behind it.
pub open spec fn met_estimate(
    particles: Seq<Body>,
    first: int,
    second: int,
    mass: Binary32,
    axis: Axis,
) -> Estimate {
    if second < simd::lanes_end(first, particles.len() as int) {
        lane_pull_estimate(particles[first], particles[second], mass, axis)
    } else {
        bodies_balance::pull_estimate(particles[first], particles[second], mass, axis)
    }
}

/// Such an acceleration is what its estimate computes.
proof fn lemma_met_estimate(
    particles: Seq<Body>,
    first: int,
    second: int,
    mass: Binary32,
    axis: Axis,
)
    ensures
        met_estimate(particles, first, second, mass, axis).holds(),
        met_estimate(particles, first, second, mass, axis).computed == axis.of(
            simd::met(particles, first, second, mass),
        ),
{
    lemma_lane_pull_estimate(particles[first], particles[second], mass, axis);
    bodies_balance::lemma_pull_estimate(particles[first], particles[second], mass, axis);
}

/// The exact pull of one particle on another.
pub open spec fn exact_pull(particles: Seq<Body>, position: int, other: int, axis: Axis) -> real {
    let mass = particles[other].mass;
    if position < other {
        met_estimate(particles, position, other, mass, axis).exact
    } else if other < position {
        -met_estimate(particles, other, position, mass, axis).exact
    } else {
        0 as real
    }
}

/// The acceleration of a particle by the first ones, all before it.
pub open spec fn reacted_estimate(
    particles: Seq<Body>,
    position: int,
    upto: int,
    axis: Axis,
) -> Estimate
    decreases upto,
{
    if upto <= 0 {
        Estimate::of(Binary32::from_bits(ZERO))
    } else {
        reacted_estimate(particles, position, upto - 1, axis).minus(
            met_estimate(particles, upto - 1, position, particles[upto - 1].mass, axis),
        )
    }
}

/// The acceleration that one lane sums up over the first groups behind a particle.
pub open spec fn lane_estimate(
    particles: Seq<Body>,
    first: int,
    lane: int,
    groups: int,
    axis: Axis,
) -> Estimate
    decreases groups,
{
    if groups <= 0 {
        Estimate::of(Binary32::from_bits(ZERO))
    } else {
        let other = particles[first + 1 + SIMD_LANES * (groups - 1) + lane];
        lane_estimate(particles, first, lane, groups - 1, axis).plus(
            lane_pull_estimate(particles[first], other, other.mass, axis),
        )
    }
}

/// The acceleration by the particles met alone, up to a position.
pub open spec fn rest_estimate(particles: Seq<Body>, first: int, upto: int, axis: Axis) -> Estimate
    decreases upto,
{
    if upto <= simd::lanes_end(first, particles.len() as int) || upto <= 0 {
        Estimate::of(Binary32::from_bits(ZERO))
    } else {
        let other = particles[upto - 1];
        rest_estimate(particles, first, upto - 1, axis).plus(
            bodies_balance::pull_estimate(particles[first], other, other.mass, axis),
        )
    }
}

/// The lanes added up.
pub open spec fn lanes_estimate(particles: Seq<Body>, first: int, groups: int, axis: Axis) -> Estimate {
    let lane = |l: int| lane_estimate(particles, first, l, groups, axis);
    (lane(0).plus(lane(4))).plus(lane(2).plus(lane(6))).plus(
        (lane(1).plus(lane(5))).plus(lane(3).plus(lane(7))),
    )
}

/// The acceleration of a particle by those behind it.
pub open spec fn attracted_estimate(particles: Seq<Body>, first: int, axis: Axis) -> Estimate {
    let count = particles.len() as int;
    let groups = (count - first - 1) / SIMD_LANES as int;
    lanes_estimate(particles, first, groups, axis).plus(
        rest_estimate(particles, first, count, axis),
    )
}

/// The acceleration of a particle by all others, meant to be the sum of their exact pulls.
pub open spec fn acceleration_estimate(particles: Seq<Body>, position: int, axis: Axis) -> Estimate {
    reacted_estimate(particles, position, position, axis).plus(
        attracted_estimate(particles, position, axis),
    )
}

/// The reaction is what its estimate computes.
proof fn lemma_reacted_estimate(particles: Seq<Body>, position: int, upto: int, axis: Axis)
    requires
        0 <= upto <= position < particles.len(),
    ensures
        reacted_estimate(particles, position, upto, axis).holds(),
        reacted_estimate(particles, position, upto, axis).computed == axis.of(
            simd::reacted(particles, position, upto),
        ),
        reacted_estimate(particles, position, upto, axis).exact == balance::sum(
            upto,
            |j: int| exact_pull(particles, position, j, axis),
        ),
    decreases upto,
{
    if upto <= 0 {
        estimate::lemma_zero();
    } else {
        lemma_reacted_estimate(particles, position, upto - 1, axis);
        let mass = particles[upto - 1].mass;
        lemma_met_estimate(particles, upto - 1, position, mass, axis);
        estimate::law_estimates_hold(
            reacted_estimate(particles, position, upto - 1, axis),
            met_estimate(particles, upto - 1, position, mass, axis),
        );
    }
}

/// What one lane sums up is what its estimate computes.
proof fn lemma_lane_estimate(
    particles: Seq<Body>,
    first: int,
    lane: int,
    groups: int,
    axis: Axis,
)
    ensures
        lane_estimate(particles, first, lane, groups, axis).holds(),
        lane_estimate(particles, first, lane, groups, axis).computed == axis.of(
            simd::lane_sum(particles, first, lane, groups),
        ),
    decreases groups,
{
    if groups > 0 {
        lemma_lane_estimate(particles, first, lane, groups - 1, axis);
        let other = particles[first + 1 + SIMD_LANES * (groups - 1) + lane];
        lemma_lane_pull_estimate(particles[first], other, other.mass, axis);
        estimate::law_estimates_hold(
            lane_estimate(particles, first, lane, groups - 1, axis),
            lane_pull_estimate(particles[first], other, other.mass, axis),
        );
    }
}

/// What all lanes sum up is what its estimate computes.
proof fn lemma_lanes_estimate(particles: Seq<Body>, first: int, groups: int, axis: Axis)
    ensures
        lanes_estimate(particles, first, groups, axis).holds(),
        lanes_estimate(particles, first, groups, axis).computed == simd::horizontal_sum(
            Seq::new(
                SIMD_LANES as nat,
                |lane: int| axis.of(simd::lane_sum(particles, first, lane, groups)),
            ),
        ),
        lanes_estimate(particles, first, groups, axis).exact == lanes_exact(
            particles,
            first,
            groups,
            axis,
        ),
{
    let lane = |l: int| lane_estimate(particles, first, l, groups, axis);
    assert forall|l: int| (#[trigger] lane(l)).holds() && lane(l).computed == axis.of(
        simd::lane_sum(particles, first, l, groups),
    ) by {
        lemma_lane_estimate(particles, first, l, groups, axis);
    }
    assert(lane(0).holds() && lane(1).holds() && lane(2).holds() && lane(3).holds());
    assert(lane(4).holds() && lane(5).holds() && lane(6).holds() && lane(7).holds());
    estimate::law_estimates_hold(lane(0), lane(4));
    estimate::law_estimates_hold(lane(2), lane(6));
    estimate::law_estimates_hold(lane(1), lane(5));
    estimate::law_estimates_hold(lane(3), lane(7));
    estimate::law_estimates_hold(lane(0).plus(lane(4)), lane(2).plus(lane(6)));
    estimate::law_estimates_hold(lane(1).plus(lane(5)), lane(3).plus(lane(7)));
    estimate::law_estimates_hold(
        lane(0).plus(lane(4)).plus(lane(2).plus(lane(6))),
        lane(1).plus(lane(5)).plus(lane(3).plus(lane(7))),
    );
}

/// What all lanes sum up, exactly.
pub open spec fn lanes_exact(particles: Seq<Body>, first: int, groups: int, axis: Axis) -> real {
    let lane = |l: int| lane_estimate(particles, first, l, groups, axis).exact;
    lane(0) + lane(1) + lane(2) + lane(3) + lane(4) + lane(5) + lane(6) + lane(7)
}

/// A sum with eight more terms.
proof fn lemma_eight_terms(count: int, f: spec_fn(int) -> real)
    requires
        count >= 0,
    ensures
        balance::sum(count + 8, f) == balance::sum(count, f) + f(count) + f(count + 1) + f(
            count + 2,
        ) + f(count + 3) + f(count + 4) + f(count + 5) + f(count + 6) + f(count + 7),
{
    reveal_with_fuel(balance::sum, 9);
}

/// With another group, a lane sums up one more exact pull.
proof fn lemma_lane_exact(particles: Seq<Body>, first: int, lane: int, groups: int, axis: Axis)
    requires
        0 <= first < particles.len(),
        0 < groups <= (particles.len() - first - 1) / SIMD_LANES as int,
        0 <= lane < 8,
    ensures
        lane_estimate(particles, first, lane, groups, axis).exact == lane_estimate(
            particles,
            first,
            lane,
            groups - 1,
            axis,
        ).exact + exact_pull(particles, first, first + 1 + SIMD_LANES * (groups - 1) + lane, axis),
{
    let position = first + 1 + SIMD_LANES * (groups - 1) + lane;
    assert(position < simd::lanes_end(first, particles.len() as int));
}

/// The lanes sum up the exact pulls of the particles in them.
proof fn lemma_lanes_exact(particles: Seq<Body>, first: int, groups: int, axis: Axis)
    requires
        0 <= first < particles.len(),
        0 <= groups <= (particles.len() - first - 1) / SIMD_LANES as int,
    ensures
        lanes_exact(particles, first, groups, axis) == balance::sum(
            first + 1 + SIMD_LANES * groups,
            |j: int| exact_pull(particles, first, j, axis),
        ) - balance::sum(first + 1, |j: int| exact_pull(particles, first, j, axis)),
    decreases groups,
{
    let pulls = |j: int| exact_pull(particles, first, j, axis);
    if groups <= 0 {
        estimate::lemma_zero();
    } else {
        lemma_lanes_exact(particles, first, groups - 1, axis);
        let start = first + 1 + SIMD_LANES * (groups - 1);
        lemma_lane_exact(particles, first, 0, groups, axis);
        lemma_lane_exact(particles, first, 1, groups, axis);
        lemma_lane_exact(particles, first, 2, groups, axis);
        lemma_lane_exact(particles, first, 3, groups, axis);
        lemma_lane_exact(particles, first, 4, groups, axis);
        lemma_lane_exact(particles, first, 5, groups, axis);
        lemma_lane_exact(particles, first, 6, groups, axis);
        lemma_lane_exact(particles, first, 7, groups, axis);
        lemma_eight_terms(start, pulls);
        assert(start + 8 == first + 1 + SIMD_LANES * groups);
        let (now, before) = (
            lanes_exact(particles, first, groups, axis),
            lanes_exact(particles, first, groups - 1, axis),
        );
        assert(now == before + pulls(start) + pulls(start + 1) + pulls(start + 2) + pulls(start + 3)
            + pulls(start + 4) + pulls(start + 5) + pulls(start + 6) + pulls(start + 7));
    }
}

/// What the particles met alone add is what its estimate computes, and the sum of their exact
/// pulls.
proof fn lemma_rest_estimate(particles: Seq<Body>, first: int, upto: int, axis: Axis)
    requires
        0 <= first,
        simd::lanes_end(first, particles.len() as int) <= upto <= particles.len(),
        first < simd::lanes_end(first, particles.len() as int),
    ensures
        rest_estimate(particles, first, upto, axis).holds(),
        rest_estimate(particles, first, upto, axis).computed == axis.of(
            simd::rest_sum(particles, first, upto),
        ),
        rest_estimate(particles, first, upto, axis).exact == balance::sum(
            upto,
            |j: int| exact_pull(particles, first, j, axis),
        ) - balance::sum(
            simd::lanes_end(first, particles.len() as int),
            |j: int| exact_pull(particles, first, j, axis),
        ),
    decreases upto,
{
    if upto <= simd::lanes_end(first, particles.len() as int) {
        estimate::lemma_zero();
    } else {
        lemma_rest_estimate(particles, first, upto - 1, axis);
        let other = particles[upto - 1];
        bodies_balance::lemma_pull_estimate(particles[first], other, other.mass, axis);
        estimate::law_estimates_hold(
            rest_estimate(particles, first, upto - 1, axis),
            bodies_balance::pull_estimate(particles[first], other, other.mass, axis),
        );
    }
}

/// The acceleration of every particle is no farther from the sum of the exact pulls of all others
/// than its estimate says, where it is finite.
pub proof fn law_accelerations_are_near(particles: Seq<Body>, position: int, axis: Axis)
    requires
        0 <= position < particles.len(),
    ensures
        acceleration_estimate(particles, position, axis).holds(),
        acceleration_estimate(particles, position, axis).computed == axis.of(
            simd::acceleration(particles, position),
        ),
        acceleration_estimate(particles, position, axis).exact == balance::sum(
            particles.len() as int,
            |j: int| exact_pull(particles, position, j, axis),
        ),
{
    let count = particles.len() as int;
    let groups = (count - position - 1) / SIMD_LANES as int;
    let pulls = |j: int| exact_pull(particles, position, j, axis);
    lemma_reacted_estimate(particles, position, position, axis);
    lemma_lanes_estimate(particles, position, groups, axis);
    lemma_lanes_exact(particles, position, groups, axis);
    lemma_rest_estimate(particles, position, count, axis);
    estimate::law_estimates_hold(
        lanes_estimate(particles, position, groups, axis),
        rest_estimate(particles, position, count, axis),
    );
    estimate::law_estimates_hold(
        reacted_estimate(particles, position, position, axis),
        attracted_estimate(particles, position, axis),
    );
    let lanes = Seq::new(
        SIMD_LANES as nat,
        |lane: int| axis.of(simd::lane_sum(particles, position, lane, groups)),
    );
    match axis {
        Axis::X => {
            assert(lanes == Seq::new(
                SIMD_LANES as nat,
                |lane: int| simd::lane_sum(particles, position, lane, groups).0,
            ));
        },
        Axis::Y => {
            assert(lanes == Seq::new(
                SIMD_LANES as nat,
                |lane: int| simd::lane_sum(particles, position, lane, groups).1,
            ));
        },
    }
    assert(balance::sum(position + 1, pulls) == balance::sum(position, pulls) + pulls(position));
}

} // verus!
