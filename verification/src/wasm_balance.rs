//! What a step of a scalar cloud keeps: mass, momentum and the path of the
//! centre of mass, up to what rounding makes of them.

use vstd::prelude::*;
use crate::balance;
use crate::binary32::{Binary32, HALF, ZERO};
use crate::bodies::{Axis, Body};
use crate::bodies_balance;
use crate::estimate;
use crate::estimate::Estimate;
use crate::merging;
use crate::merging::Merging;
use crate::rounding;
use crate::rounding::{product, size};
use crate::wasm;

verus! {

/// The acceleration of a particle by the first ones, all before it, meant to be the sum of their
/// exact pulls.
pub open spec fn reacted_estimate(
    particles: Seq<Body>,
    position: int,
    upto: int,
    axis: Axis,
) -> Estimate
    decreases upto,
{
    if upto <= 0 {
        Estimate::of(Binary32::from_bits(ZERO))
    } else {
        let other = particles[upto - 1];
        reacted_estimate(particles, position, upto - 1, axis).minus(
            bodies_balance::pull_estimate(other, particles[position], other.mass, axis),
        )
    }
}

/// The acceleration of a particle by all those before it and those behind it up to a position,
/// meant to be the sum of their exact pulls.
pub open spec fn attracted_estimate(
    particles: Seq<Body>,
    position: int,
    upto: int,
    axis: Axis,
) -> Estimate
    decreases upto,
{
    if upto <= position + 1 || upto <= 0 {
        reacted_estimate(particles, position, position, axis)
    } else {
        let other = particles[upto - 1];
        attracted_estimate(particles, position, upto - 1, axis).plus(
            bodies_balance::pull_estimate(particles[position], other, other.mass, axis),
        )
    }
}

/// The acceleration of a particle by all others.
pub open spec fn acceleration_estimate(particles: Seq<Body>, position: int, axis: Axis) -> Estimate {
    attracted_estimate(particles, position, particles.len() as int, axis)
}

/// The exact pull of one particle on another.
pub open spec fn exact_pull(particles: Seq<Body>, position: int, other: int, axis: Axis) -> real {
    let mass = particles[other].mass;
    if position < other {
        bodies_balance::pull_estimate(particles[position], particles[other], mass, axis).exact
    } else if other < position {
        -bodies_balance::pull_estimate(particles[other], particles[position], mass, axis).exact
    } else {
        0 as real
    }
}

/// A velocity after a half kick, meant to be changed by the exact pulls.
pub open spec fn kick_estimate(particles: Seq<Body>, position: int, dt: Binary32, axis: Axis) -> Estimate {
    Estimate::of(particles[position].along(axis.velocity())).plus(
        acceleration_estimate(particles, position, axis).times(
            Estimate::of(dt * Binary32::from_bits(HALF)),
        ),
    )
}

/// What a half kick of all particles can make of their momentum.
pub open spec fn kick_error(particles: Seq<Body>, dt: Binary32, axis: Axis) -> real {
    balance::weighted_error(particles, |i: int| kick_estimate(particles, i, dt, axis))
}

/// The reaction is what its estimate computes.
proof fn lemma_reacted_estimate(particles: Seq<Body>, position: int, upto: int, axis: Axis)
    requires
        0 <= upto <= position < particles.len(),
    ensures
        reacted_estimate(particles, position, upto, axis).holds(),
        reacted_estimate(particles, position, upto, axis).computed == axis.of(
            wasm::reacted(particles, position, upto),
        ),
        reacted_estimate(particles, position, upto, axis).exact == balance::sum(
            upto,
            |j: int| exact_pull(particles, position, j, axis),
        ),
    decreases upto,
{
    if upto <= 0 {
        estimate::lemma_zero();
    } else {
        lemma_reacted_estimate(particles, position, upto - 1, axis);
        let other = particles[upto - 1];
        bodies_balance::lemma_pull_estimate(other, particles[position], other.mass, axis);
        estimate::law_estimates_hold(
            reacted_estimate(particles, position, upto - 1, axis),
            bodies_balance::pull_estimate(other, particles[position], other.mass, axis),
        );
    }
}

/// The attraction is what its estimate computes.
proof fn lemma_attracted_estimate(particles: Seq<Body>, position: int, upto: int, axis: Axis)
    requires
        0 <= position < upto <= particles.len(),
    ensures
        attracted_estimate(particles, position, upto, axis).holds(),
        attracted_estimate(particles, position, upto, axis).computed == axis.of(
            wasm::attracted(particles, position, upto),
        ),
        attracted_estimate(particles, position, upto, axis).exact == balance::sum(
            upto,
            |j: int| exact_pull(particles, position, j, axis),
        ),
    decreases upto,
{
    if upto <= position + 1 {
        lemma_reacted_estimate(particles, position, position, axis);
    } else {
        lemma_attracted_estimate(particles, position, upto - 1, axis);
        let other = particles[upto - 1];
        bodies_balance::lemma_pull_estimate(particles[position], other, other.mass, axis);
        estimate::law_estimates_hold(
            attracted_estimate(particles, position, upto - 1, axis),
            bodies_balance::pull_estimate(particles[position], other, other.mass, axis),
        );
    }
}

/// The acceleration of every particle is no farther from the sum of the exact pulls of all others
/// than its estimate says, where it is finite.
pub proof fn law_accelerations_are_near(particles: Seq<Body>, position: int, axis: Axis)
    requires
        0 <= position < particles.len(),
    ensures
        acceleration_estimate(particles, position, axis).holds(),
        acceleration_estimate(particles, position, axis).computed == axis.of(
            wasm::accelerations_of(particles)[position],
        ),
        acceleration_estimate(particles, position, axis).exact == balance::sum(
            particles.len() as int,
            |j: int| exact_pull(particles, position, j, axis),
        ),
{
    lemma_attracted_estimate(particles, position, particles.len() as int, axis);
}

/// Two particles pull each other with opposite forces.
pub proof fn law_forces_are_opposite(particles: Seq<Body>, i: int, j: int, axis: Axis)
    ensures
        product(particles[i].weight().number(), exact_pull(particles, i, j, axis)) == -product(
            particles[j].weight().number(),
            exact_pull(particles, j, i, axis),
        ),
{
    let (m, n) = (particles[i].weight().number(), particles[j].weight().number());
    if i == j {
        estimate::lemma_product_of_nothing(m);
    } else {
        let (a, b) = if i < j {
            (particles[i], particles[j])
        } else {
            (particles[j], particles[i])
        };
        let k = product(
            axis.of(a.towards(b)).number(),
            bodies_balance::attraction_estimate(bodies_balance::softened(a, b)).exact,
        );
        estimate::lemma_forces_are_equal(m, n, k);
        estimate::lemma_products_of_three(m, product(k, n), 0 as real);
        estimate::lemma_products_of_three(n, product(k, m), 0 as real);
    }
}

/// A half kick keeps the momentum.
proof fn lemma_kick(before: Seq<Body>, after: Seq<Body>, dt: Binary32, axis: Axis)
    requires
        after.len() == before.len(),
        balance::all_finite(after, axis.velocity()),
        forall|i: int|
            0 <= i < before.len() ==> (#[trigger] after[i]).mass == before[i].mass
                && after[i].along(axis.velocity()) == wasm::kicked(
                before[i],
                wasm::accelerations_of(before)[i],
                dt,
            ).along(axis.velocity()),
    ensures
        balance::all_finite(before, axis.velocity()),
        size(
            balance::moment(after, axis.velocity()) - balance::moment(before, axis.velocity()),
        ) <= kick_error(before, dt, axis),
{
    let half_dt = dt * Binary32::from_bits(HALF);
    let accelerations = |i: int| acceleration_estimate(before, i, axis);
    let kicks = |i: int| kick_estimate(before, i, dt, axis);
    let pull = |i: int, j: int| exact_pull(before, i, j, axis);
    let n = before.len() as int;
    assert forall|i: int| 0 <= i < n implies (#[trigger] after[i]).mass == before[i].mass
        && after[i].along(axis.velocity()) == kicks(i).computed by {
        law_accelerations_are_near(before, i, axis);
    }
    assert forall|i: int| 0 <= i < n implies (#[trigger] accelerations(i)).exact == balance::sum(
        n,
        |j: int| pull(i, j),
    ) by {
        law_accelerations_are_near(before, i, axis);
        balance::lemma_same_terms(
            n,
            |j: int| exact_pull(before, i, j, axis),
            |j: int| pull(i, j),
        );
    }
    assert forall|i: int| 0 <= i < n implies (#[trigger] kicks(i)).holds() && kicks(i).exact
        == before[i].along(axis.velocity()).number() + product(
        accelerations(i).exact,
        half_dt.number(),
    ) && (kicks(i).computed.is_finite() ==> before[i].along(axis.velocity()).is_finite()) by {
        law_accelerations_are_near(before, i, axis);
        let a = accelerations(i);
        let v = Estimate::of(before[i].along(axis.velocity()));
        let t = Estimate::of(half_dt);
        estimate::law_estimates_hold(a, t);
        estimate::law_estimates_hold(v, a.times(t));
        if kicks(i).computed.is_finite() {
            rounding::law_sums_are_near(v.computed, a.times(t).computed);
        }
    }
    assert forall|i: int, j: int| 0 <= i < n && 0 <= j < n implies product(
        before[i].weight().number(),
        #[trigger] pull(i, j),
    ) == -product(before[j].weight().number(), pull(j, i)) by {
        law_forces_are_opposite(before, i, j, axis);
    }
    bodies_balance::lemma_kick_keeps_momentum(
        before,
        after,
        axis,
        accelerations,
        kicks,
        pull,
        half_dt.number(),
    );
}

/// The particles after the first half kick and the move.
pub open spec fn there(particles: Seq<Body>, dt: Binary32) -> Seq<Body> {
    wasm::integrated(particles, wasm::accelerations_of(particles), dt)
}

/// A step keeps the total mass up to what the sums of masses that merge can be off by, where all
/// masses that are left are finite.
pub proof fn law_step_nearly_keeps_mass(particles: Seq<Body>, dt: Binary32)
    requires
        merging::all_are(
            wasm::updated(particles, dt),
            |body: Body| body.weight().is_finite(),
        ),
    ensures
        size(
            balance::mass(wasm::updated(particles, dt)) - balance::mass(particles),
        ) <= balance::mass_loss(there(particles, dt), 0),
{
    let moved = there(particles, dt);
    let left = wasm::drifted(particles, dt);
    let after = wasm::updated(particles, dt);
    assert forall|i: int| 0 <= i < left.len() implies (#[trigger] left[i]).weight().is_finite() by {
        assert((|body: Body| body.weight().is_finite())(after[i]));
    }
    balance::law_mass_is_nearly_kept(moved, 0);
    balance::lemma_same_terms(
        left.len() as int,
        |i: int| left[i].weight().number(),
        |i: int| after[i].weight().number(),
    );
    balance::lemma_same_terms(
        particles.len() as int,
        |i: int| moved[i].weight().number(),
        |i: int| particles[i].weight().number(),
    );
}

/// A step keeps the momentum up to what the two kicks and the merges between them can be off by,
/// where all that is left is finite.
pub proof fn law_step_nearly_keeps_momentum(particles: Seq<Body>, dt: Binary32, axis: Axis)
    requires
        balance::all_finite(wasm::updated(particles, dt), axis.velocity()),
    ensures
        size(
            balance::moment(wasm::updated(particles, dt), axis.velocity()) - balance::moment(
                particles,
                axis.velocity(),
            ),
        ) <= kick_error(particles, dt, axis) + balance::moment_loss(
            there(particles, dt),
            0,
            axis.velocity(),
        ) + kick_error(wasm::drifted(particles, dt), dt, axis),
{
    let moved = there(particles, dt);
    let left = wasm::drifted(particles, dt);
    lemma_kick(left, wasm::updated(particles, dt), dt, axis);
    balance::law_moments_are_nearly_kept(moved, 0, axis.velocity());
    lemma_kick(particles, moved, dt, axis);
}

/// A step carries the centre of mass along with the momentum: the weighted sum of the places grows
/// by the time times the momentum, up to what the move and the merges can be off by, where all
/// places and masses that are left are finite.
pub proof fn law_step_moves_the_centre_with_the_momentum(
    particles: Seq<Body>,
    dt: Binary32,
    axis: Axis,
)
    requires
        balance::all_finite(wasm::updated(particles, dt), axis.place()),
    ensures
        size(
            balance::moment(wasm::updated(particles, dt), axis.place()) - (balance::moment(
                particles,
                axis.place(),
            ) + product(dt.number(), balance::moment(particles, axis.velocity()))),
        ) <= bodies_balance::move_error(
            particles,
            there(particles, dt),
            dt,
            axis,
            kick_error(particles, dt, axis),
        ) + balance::moment_loss(there(particles, dt), 0, axis.place()),
{
    let moved = there(particles, dt);
    let left = wasm::drifted(particles, dt);
    let after = wasm::updated(particles, dt);
    assert forall|i: int| 0 <= i < left.len() implies (#[trigger] left[i]).weight().is_finite()
        && left[i].along(axis.place()).is_finite() by {
        assert(after[i].weight().is_finite());
    }
    balance::lemma_same_terms(
        left.len() as int,
        |i: int| merging::share(left[i], axis.place()),
        |i: int| merging::share(after[i], axis.place()),
    );
    balance::law_moments_are_nearly_kept(moved, 0, axis.place());
    if balance::all_finite(moved, axis.velocity()) {
        lemma_kick(particles, moved, dt, axis);
    }
    bodies_balance::lemma_move_carries_the_centre(
        particles,
        moved,
        dt,
        axis,
        kick_error(particles, dt, axis),
    );
}

} // verus!
