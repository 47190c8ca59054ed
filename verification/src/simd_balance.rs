//! What a step of an eight-lane cloud keeps: mass, momentum and the path of the
//! centre of mass, up to what rounding makes of them.

use vstd::prelude::*;
use crate::balance;
use crate::binary32::{Binary32, HALF};
use crate::bodies::{Axis, Body};
use crate::bodies_balance;
use crate::estimate;
use crate::estimate::Estimate;
use crate::merging;
use crate::merging::Merging;
use crate::rounding;
use crate::rounding::{product, size};
use crate::simd;
use crate::simd_estimate;

verus! {

/// Two particles pull each other with opposite forces.
pub proof fn law_forces_are_opposite(particles: Seq<Body>, i: int, j: int, axis: Axis)
    ensures
        product(particles[i].weight().number(), simd_estimate::exact_pull(particles, i, j, axis)) == -product(
            particles[j].weight().number(),
            simd_estimate::exact_pull(particles, j, i, axis),
        ),
{
    let (m, n) = (particles[i].weight().number(), particles[j].weight().number());
    if i == j {
        estimate::lemma_product_of_nothing(m);
    } else {
        let (a, b, second) = if i < j {
            (particles[i], particles[j], j)
        } else {
            (particles[j], particles[i], i)
        };
        let first = if i < j {
            i
        } else {
            j
        };
        let d = axis.of(a.towards(b)).number();
        let in_lanes = second < simd::lanes_end(first, particles.len() as int);
        let f = bodies_balance::attraction_estimate(
            if in_lanes {
                simd_estimate::lane_softened(a, b)
            } else {
                bodies_balance::softened(a, b)
            },
        ).exact;
        let k = product(d, f);
        estimate::lemma_products_of_three(d, f, m);
        estimate::lemma_products_of_three(d, f, n);
        estimate::lemma_forces_are_equal(m, n, k);
        estimate::lemma_products_of_three(m, product(k, n), 0 as real);
        estimate::lemma_products_of_three(n, product(k, m), 0 as real);
    }
}

/// A velocity after a half kick, meant to be changed by the exact pulls.
pub open spec fn kick_estimate(particles: Seq<Body>, position: int, dt: Binary32, axis: Axis) -> Estimate {
    let half = Estimate::of(Binary32::from_bits(HALF));
    let velocity = Estimate::of(particles[position].along(axis.velocity()));
    let acceleration = simd_estimate::acceleration_estimate(particles, position, axis);
    if simd::in_lanes(position, particles.len() as int) {
        velocity.plus(acceleration.times(Estimate::of(dt).times(half)))
    } else {
        velocity.plus(acceleration.times(Estimate::of(dt)).times(half))
    }
}

/// What a half kick of all particles can make of their momentum.
pub open spec fn kick_error(particles: Seq<Body>, dt: Binary32, axis: Axis) -> real {
    balance::weighted_error(particles, |i: int| kick_estimate(particles, i, dt, axis))
}

/// A kick is what its estimate computes.
proof fn lemma_kick_estimate(particles: Seq<Body>, position: int, dt: Binary32, axis: Axis)
    requires
        0 <= position < particles.len(),
    ensures
        ({
            let kick = kick_estimate(particles, position, dt, axis);
            let velocity = particles[position].along(axis.velocity());
            &&& kick.holds()
            &&& kick.computed == simd::half_kicked(
                velocity,
                axis.of(simd::acceleration(particles, position)),
                dt,
                simd::in_lanes(position, particles.len() as int),
            )
            &&& kick.exact == velocity.number() + product(
                simd_estimate::acceleration_estimate(particles, position, axis).exact,
                product(dt.number(), Binary32::from_bits(HALF).number()),
            )
            &&& kick.computed.is_finite() ==> velocity.is_finite()
        }),
{
    simd_estimate::law_accelerations_are_near(particles, position, axis);
    let half = Estimate::of(Binary32::from_bits(HALF));
    let v = Estimate::of(particles[position].along(axis.velocity()));
    let a = simd_estimate::acceleration_estimate(particles, position, axis);
    let t = Estimate::of(dt);
    estimate::law_estimates_hold(t, half);
    estimate::law_estimates_hold(a, t.times(half));
    estimate::law_estimates_hold(v, a.times(t.times(half)));
    estimate::law_estimates_hold(a, t);
    estimate::law_estimates_hold(a.times(t), half);
    estimate::law_estimates_hold(v, a.times(t).times(half));
    estimate::lemma_products_of_three(a.exact, t.exact, half.exact);
    if v.plus(a.times(t.times(half))).computed.is_finite() {
        rounding::law_sums_are_near(v.computed, a.times(t.times(half)).computed);
    }
    if v.plus(a.times(t).times(half)).computed.is_finite() {
        rounding::law_sums_are_near(v.computed, a.times(t).times(half).computed);
    }
}

/// A half kick keeps the momentum.
proof fn lemma_kick(before: Seq<Body>, after: Seq<Body>, dt: Binary32, axis: Axis)
    requires
        after.len() == before.len(),
        balance::all_finite(after, axis.velocity()),
        forall|i: int|
            0 <= i < before.len() ==> (#[trigger] after[i]).mass == before[i].mass
                && after[i].along(axis.velocity()) == simd::half_kicked(
                before[i].along(axis.velocity()),
                axis.of(simd::acceleration(before, i)),
                dt,
                simd::in_lanes(i, before.len() as int),
            ),
    ensures
        balance::all_finite(before, axis.velocity()),
        size(
            balance::moment(after, axis.velocity()) - balance::moment(before, axis.velocity()),
        ) <= kick_error(before, dt, axis),
{
    let accelerations = |i: int| simd_estimate::acceleration_estimate(before, i, axis);
    let kicks = |i: int| kick_estimate(before, i, dt, axis);
    let pull = |i: int, j: int| simd_estimate::exact_pull(before, i, j, axis);
    let n = before.len() as int;
    let time = product(dt.number(), Binary32::from_bits(HALF).number());
    assert forall|i: int| 0 <= i < n implies (#[trigger] after[i]).mass == before[i].mass
        && after[i].along(axis.velocity()) == kicks(i).computed by {
        lemma_kick_estimate(before, i, dt, axis);
    }
    assert forall|i: int| 0 <= i < n implies (#[trigger] accelerations(i)).exact == balance::sum(
        n,
        |j: int| pull(i, j),
    ) by {
        simd_estimate::law_accelerations_are_near(before, i, axis);
        balance::lemma_same_terms(
            n,
            |j: int| simd_estimate::exact_pull(before, i, j, axis),
            |j: int| pull(i, j),
        );
    }
    assert forall|i: int| 0 <= i < n implies (#[trigger] kicks(i)).holds() && kicks(i).exact
        == before[i].along(axis.velocity()).number() + product(accelerations(i).exact, time) && (
    kicks(i).computed.is_finite() ==> before[i].along(axis.velocity()).is_finite()) by {
        lemma_kick_estimate(before, i, dt, axis);
    }
    assert forall|i: int, j: int| 0 <= i < n && 0 <= j < n implies product(
        before[i].weight().number(),
        #[trigger] pull(i, j),
    ) == -product(before[j].weight().number(), pull(j, i)) by {
        law_forces_are_opposite(before, i, j, axis);
    }
    bodies_balance::lemma_kick_keeps_momentum(
        before,
        after,
        axis,
        accelerations,
        kicks,
        pull,
        time,
    );
}

/// The particles after the first half kick and the move.
pub open spec fn there(particles: Seq<Body>, dt: Binary32) -> Seq<Body> {
    simd::integrated(
        particles,
        simd::accelerations_x(particles),
        simd::accelerations_y(particles),
        dt,
    )
}

/// A step keeps the total mass up to what the sums of masses that merge can be off by, where all
/// masses that are left are finite.
pub proof fn law_step_nearly_keeps_mass(particles: Seq<Body>, dt: Binary32)
    requires
        merging::all_are(
            simd::updated(particles, dt),
            |body: Body| body.weight().is_finite(),
        ),
    ensures
        size(
            balance::mass(simd::updated(particles, dt)) - balance::mass(particles),
        ) <= balance::mass_loss(there(particles, dt), 0),
{
    let moved = there(particles, dt);
    let left = simd::drifted(particles, dt);
    let after = simd::updated(particles, dt);
    assert forall|i: int| 0 <= i < left.len() implies (#[trigger] left[i]).weight().is_finite() by {
        assert((|body: Body| body.weight().is_finite())(after[i]));
    }
    balance::law_mass_is_nearly_kept(moved, 0);
    balance::lemma_same_terms(
        left.len() as int,
        |i: int| left[i].weight().number(),
        |i: int| after[i].weight().number(),
    );
    balance::lemma_same_terms(
        particles.len() as int,
        |i: int| moved[i].weight().number(),
        |i: int| particles[i].weight().number(),
    );
}

/// A step keeps the momentum up to what the two kicks and the merges between them can be off by,
/// where all that is left is finite.
pub proof fn law_step_nearly_keeps_momentum(particles: Seq<Body>, dt: Binary32, axis: Axis)
    requires
        balance::all_finite(simd::updated(particles, dt), axis.velocity()),
    ensures
        size(
            balance::moment(simd::updated(particles, dt), axis.velocity()) - balance::moment(
                particles,
                axis.velocity(),
            ),
        ) <= kick_error(particles, dt, axis) + balance::moment_loss(
            there(particles, dt),
            0,
            axis.velocity(),
        ) + kick_error(simd::drifted(particles, dt), dt, axis),
{
    let moved = there(particles, dt);
    let left = simd::drifted(particles, dt);
    lemma_kick(left, simd::updated(particles, dt), dt, axis);
    balance::law_moments_are_nearly_kept(moved, 0, axis.velocity());
    lemma_kick(particles, moved, dt, axis);
}

/// A step carries the centre of mass along with the momentum: the weighted sum of the places grows
/// by the time times the momentum, up to what the move and the merges can be off by, where all
/// places and masses that are left are finite.
pub proof fn law_step_moves_the_centre_with_the_momentum(
    particles: Seq<Body>,
    dt: Binary32,
    axis: Axis,
)
    requires
        balance::all_finite(simd::updated(particles, dt), axis.place()),
    ensures
        size(
            balance::moment(simd::updated(particles, dt), axis.place()) - (balance::moment(
                particles,
                axis.place(),
            ) + product(dt.number(), balance::moment(particles, axis.velocity()))),
        ) <= bodies_balance::move_error(
            particles,
            there(particles, dt),
            dt,
            axis,
            kick_error(particles, dt, axis),
        ) + balance::moment_loss(there(particles, dt), 0, axis.place()),
{
    let moved = there(particles, dt);
    let left = simd::drifted(particles, dt);
    let after = simd::updated(particles, dt);
    assert forall|i: int| 0 <= i < left.len() implies (#[trigger] left[i]).weight().is_finite()
        && left[i].along(axis.place()).is_finite() by {
        assert(after[i].weight().is_finite());
    }
    balance::lemma_same_terms(
        left.len() as int,
        |i: int| merging::share(left[i], axis.place()),
        |i: int| merging::share(after[i], axis.place()),
    );
    balance::law_moments_are_nearly_kept(moved, 0, axis.place());
    if balance::all_finite(moved, axis.velocity()) {
        lemma_kick(particles, moved, dt, axis);
    }
    bodies_balance::lemma_move_carries_the_centre(
        particles,
        moved,
        dt,
        axis,
        kick_error(particles, dt, axis),
    );
}

} // verus!
