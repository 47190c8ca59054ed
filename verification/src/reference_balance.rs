//! What a step of the particles of a compute device keeps: mass, momentum and the path of the
//! centre of mass, up to what rounding makes of them.

use vstd::prelude::*;
use crate::balance;
use crate::binary32;
use crate::binary32::{Binary32, HALF, ONE, ZERO};
use crate::bodies::Axis;
use crate::collision;
use crate::estimate;
use crate::estimate::Estimate;
use crate::merging;
use crate::merging::Merging;
use crate::reference;
use crate::rounding;
use crate::rounding::{product, size};
use crate::types::{Particle, SimParams};

verus! {

impl Particle {
    /// How far another particle lies ahead along an axis.
    pub open spec fn displacement(self, other: Particle, axis: Axis) -> Binary32 {
        match axis {
            Axis::X => other.x - self.x,
            Axis::Y => other.y - self.y,
        }
    }

    /// The inverse of the softened distance to another particle.
    pub open spec fn inverse_distance(self, other: Particle, params: SimParams) -> Binary32 {
        let dx = other.x - self.x;
        let dy = other.y - self.y;
        Binary32::from_bits(ONE) / (dx * dx + dy * dy + params.softening_squared).root()
    }

    /// The pull of another particle, meant to be the displacement, the gravity, the mass and the
    /// inverse distance cubed, multiplied.
    pub open spec fn pull_estimate(self, other: Particle, params: SimParams, axis: Axis) -> Estimate {
        let inverse = Estimate::of(self.inverse_distance(other, params));
        Estimate::of(self.displacement(other, axis)).times(
            Estimate::of(params.gravity).times(Estimate::of(other.mass)).times(inverse).times(
                inverse,
            ).times(inverse),
        )
    }
}

/// The acceleration of a particle by the first ones, meant to be the sum of their exact pulls.
pub open spec fn acceleration_estimate(
    particles: Seq<Particle>,
    target: int,
    upto: int,
    params: SimParams,
    axis: Axis,
) -> Estimate
    decreases upto,
{
    if upto <= 0 {
        Estimate::of(Binary32::from_bits(ZERO))
    } else {
        let sum = acceleration_estimate(particles, target, upto - 1, params, axis);
        if target == upto - 1 {
            sum
        } else {
            sum.plus(particles[target].pull_estimate(particles[upto - 1], params, axis))
        }
    }
}

/// The exact pull of one particle on another.
pub open spec fn exact_pull(
    particles: Seq<Particle>,
    target: int,
    other: int,
    params: SimParams,
    axis: Axis,
) -> real {
    if target == other {
        0 as real
    } else {
        particles[target].pull_estimate(particles[other], params, axis).exact
    }
}

/// A velocity after a half kick, meant to be changed by the exact pulls.
pub open spec fn kick_estimate(
    particles: Seq<Particle>,
    target: int,
    params: SimParams,
    axis: Axis,
) -> Estimate {
    Estimate::of(particles[target].along(axis.velocity())).plus(
        acceleration_estimate(particles, target, particles.len() as int, params, axis).times(
            Estimate::of(Binary32::from_bits(HALF) * params.dt),
        ),
    )
}

/// What a half kick of all particles can make of their momentum.
pub open spec fn kick_error(particles: Seq<Particle>, params: SimParams, axis: Axis) -> real {
    balance::weighted_error(particles, |i: int| kick_estimate(particles, i, params, axis))
}

/// All particles take part in a step.
pub open spec fn all_take_part(particles: Seq<Particle>, params: SimParams) -> bool {
    &&& params.count == particles.len()
    &&& forall|i: int| 0 <= i < particles.len() ==> (#[trigger] particles[i]).alive != 0
}

/// A pull is what its estimate computes.
pub(crate) proof fn lemma_pull_estimate(a: Particle, b: Particle, params: SimParams, axis: Axis)
    ensures
        a.pull_estimate(b, params, axis).holds(),
        forall|sum: reference::Acceleration|
            axis.of(#[trigger] a.pulled(b, params, sum)) == axis.of(sum) + a.pull_estimate(
                b,
                params,
                axis,
            ).computed,
{
    let inverse = Estimate::of(a.inverse_distance(b, params));
    let (g, m) = (Estimate::of(params.gravity), Estimate::of(b.mass));
    let d = Estimate::of(a.displacement(b, axis));
    estimate::law_estimates_hold(g, m);
    estimate::law_estimates_hold(g.times(m), inverse);
    estimate::law_estimates_hold(g.times(m).times(inverse), inverse);
    estimate::law_estimates_hold(g.times(m).times(inverse).times(inverse), inverse);
    estimate::law_estimates_hold(d, g.times(m).times(inverse).times(inverse).times(inverse));
}

/// The acceleration is what its estimate computes.
pub(crate) proof fn lemma_acceleration_estimate(
    particles: Seq<Particle>,
    target: int,
    upto: int,
    params: SimParams,
    axis: Axis,
)
    requires
        0 <= target < particles.len(),
        0 <= upto <= particles.len(),
        forall|i: int| 0 <= i < particles.len() ==> (#[trigger] particles[i]).alive != 0,
    ensures
        ({
            let estimate = acceleration_estimate(particles, target, upto, params, axis);
            &&& estimate.computed == axis.of(
                reference::pull_of_first(particles, target, upto, params),
            )
            &&& estimate.holds()
            &&& estimate.exact == balance::sum(
                upto,
                |j: int| exact_pull(particles, target, j, params, axis),
            )
            &&& estimate.computed.is_finite() ==> forall|j: int|
                0 <= j < upto && j != target ==> (#[trigger] particles[target].displacement(
                    particles[j],
                    axis,
                )).is_finite()
        }),
    decreases upto,
{
    if upto <= 0 {
        estimate::lemma_zero();
    } else {
        lemma_acceleration_estimate(particles, target, upto - 1, params, axis);
        let before = acceleration_estimate(particles, target, upto - 1, params, axis);
        if target != upto - 1 {
            let (a, b) = (particles[target], particles[upto - 1]);
            let pull = a.pull_estimate(b, params, axis);
            lemma_pull_estimate(a, b, params, axis);
            estimate::law_estimates_hold(before, pull);
            let sum = before.plus(pull).computed;
            if sum.is_finite() {
                rounding::law_sums_are_near(before.computed, pull.computed);
                estimate::lemma_products_are_near(
                    a.displacement(b, axis),
                    Estimate::of(params.gravity).times(Estimate::of(b.mass)).times(
                        Estimate::of(a.inverse_distance(b, params)),
                    ).times(Estimate::of(a.inverse_distance(b, params))).times(
                        Estimate::of(a.inverse_distance(b, params)),
                    ).computed,
                );
            }
        }
    }
}

/// Two particles pull each other with opposite forces.
proof fn lemma_pulls_are_opposite(a: Particle, b: Particle, params: SimParams, axis: Axis)
    requires
        a.displacement(b, axis).is_finite(),
    ensures
        product(a.mass.number(), a.pull_estimate(b, params, axis).exact) == -product(
            b.mass.number(),
            b.pull_estimate(a, params, axis).exact,
        ),
{
    match axis {
        Axis::X => {
            rounding::law_differences_are_near(b.x, a.x);
            binary32::law_differences_are_opposite(b.x, a.x);
        },
        Axis::Y => {
            rounding::law_differences_are_near(b.y, a.y);
            binary32::law_differences_are_opposite(b.y, a.y);
        },
    }
    assert(a.inverse_distance(b, params) == b.inverse_distance(a, params)) by {
        binary32::law_difference_has_one_magnitude(a.x, b.x);
        binary32::law_difference_has_one_magnitude(a.y, b.y);
        binary32::law_square_has_no_sign(a.x - b.x, b.x - a.x);
        binary32::law_square_has_no_sign(a.y - b.y, b.y - a.y);
    }
    let there = a.displacement(b, axis);
    let back = b.displacement(a, axis);
    assert(there.value() == -back.value());
    estimate::lemma_opposite_numbers(there, back);
    estimate::lemma_forces_are_opposite(
        a.mass.number(),
        b.mass.number(),
        there.number(),
        back.number(),
        params.gravity.number(),
        a.inverse_distance(b, params).number(),
    );
}

/// A half kick keeps the momentum of all particles, up to what the kicks can be off by.
proof fn lemma_kick_keeps_momentum(
    before: Seq<Particle>,
    after: Seq<Particle>,
    params: SimParams,
    axis: Axis,
)
    requires
        all_take_part(before, params),
        after.len() == before.len(),
        forall|i: int|
            0 <= i < before.len() ==> (#[trigger] after[i]).mass == before[i].mass
                && after[i].along(axis.velocity()) == before[i].kicked(
                reference::acceleration(before, i, params),
                params.dt,
            ).along(axis.velocity()),
        balance::all_finite(after, axis.velocity()),
    ensures
        balance::all_finite(before, axis.velocity()),
        size(
            balance::moment(after, axis.velocity()) - balance::moment(before, axis.velocity()),
        ) <= kick_error(before, params, axis),
{
    let n = before.len() as int;
    let half_dt = Binary32::from_bits(HALF) * params.dt;
    let h = half_dt.number();
    let estimates = |i: int| kick_estimate(before, i, params, axis);
    let pull = |i: int, j: int| exact_pull(before, i, j, params, axis);
    let shift = |i: int| product(balance::sum(n, |j: int| pull(i, j)), h);
    assert forall|i: int| 0 <= i < n implies (#[trigger] estimates(i)).holds()
        && estimates(i).computed == after[i].along(axis.velocity())
        && estimates(i).computed.is_finite() && estimates(i).exact == before[i].along(
        axis.velocity(),
    ).number() + shift(i) && before[i].along(axis.velocity()).is_finite()
        && before[i].mass.is_finite() && (forall|j: int|
        0 <= j < n && j != i ==> (#[trigger] before[i].displacement(
            before[j],
            axis,
        )).is_finite()) by {
        lemma_acceleration_estimate(before, i, n, params, axis);
        let a = acceleration_estimate(before, i, n, params, axis);
        let v = Estimate::of(before[i].along(axis.velocity()));
        let t = Estimate::of(half_dt);
        estimate::law_estimates_hold(a, t);
        estimate::law_estimates_hold(v, a.times(t));
        assert(after[i].mass == before[i].mass);
        assert(estimates(i).computed == after[i].along(axis.velocity()));
        rounding::law_sums_are_near(v.computed, a.times(t).computed);
        estimate::lemma_products_are_near(a.computed, half_dt);
        balance::lemma_same_terms(
            n,
            |j: int| exact_pull(before, i, j, params, axis),
            |j: int| pull(i, j),
        );
    }
    assert forall|i: int, j: int| 0 <= i < n && 0 <= j < n implies product(
        before[i].weight().number(),
        #[trigger] pull(i, j),
    ) == -product(before[j].weight().number(), pull(j, i)) by {
        if i == j {
            estimate::lemma_product_of_nothing(before[i].weight().number());
        } else {
            assert(estimates(i).holds());
            assert(before[i].displacement(before[j], axis).is_finite());
            lemma_pulls_are_opposite(before[i], before[j], params, axis);
        }
    }
    assert forall|i: int| 0 <= i < n implies (#[trigger] before[i]).weight().is_finite()
        && before[i].along(axis.velocity()).is_finite() by {
        assert(estimates(i).holds());
    }
    balance::lemma_moment_shifts(before, after, axis.velocity(), estimates, shift);
    balance::lemma_pulls_cancel_out(before, pull, h);
    balance::lemma_same_terms(
        n,
        |i: int| product(before[i].weight().number(), shift(i)),
        |i: int|
            product(
                before[i].weight().number(),
                product(balance::sum(before.len() as int, |j: int| pull(i, j)), h),
            ),
    );
}

/// A place after a move, meant to be changed by the velocity and the time, multiplied.
pub open spec fn move_estimate(
    particles: Seq<Particle>,
    target: int,
    params: SimParams,
    axis: Axis,
) -> Estimate {
    let kicked = kick_estimate(particles, target, params, axis).computed;
    Estimate::of(particles[target].along(axis.place())).plus(
        Estimate::of(kicked).times(Estimate::of(params.dt)),
    )
}

/// What the move of all particles can make of their centre, times their mass: what the moves are
/// off by, and the time times what the kicks are off by.
pub open spec fn move_error(particles: Seq<Particle>, params: SimParams, axis: Axis) -> real {
    balance::weighted_error(particles, |i: int| move_estimate(particles, i, params, axis))
        + product(size(params.dt.number()), kick_error(particles, params, axis))
}

/// The particles that drift carry their centre along with their momentum, up to what the moves can
/// be off by.
proof fn lemma_drift_moves_the_centre(particles: Seq<Particle>, params: SimParams, axis: Axis)
    requires
        all_take_part(particles, params),
        balance::all_finite(reference::drifted(particles, params), axis.place()),
    ensures
        size(
            balance::moment(reference::drifted(particles, params), axis.place()) - (
            balance::moment(particles, axis.place()) + product(
                params.dt.number(),
                balance::moment(particles, axis.velocity()),
            )),
        ) <= move_error(particles, params, axis),
{
    let n = particles.len() as int;
    let dt = params.dt.number();
    let after = reference::drifted(particles, params);
    let estimates = |i: int| move_estimate(particles, i, params, axis);
    let shift = |i: int| product(after[i].along(axis.velocity()).number(), dt);
    assert forall|i: int| 0 <= i < n implies (#[trigger] estimates(i)).holds()
        && estimates(i).computed == after[i].along(axis.place())
        && estimates(i).computed.is_finite() && estimates(i).exact == particles[i].along(
        axis.place(),
    ).number() + shift(i) && after[i].along(axis.velocity()).is_finite() by {
        assert(particles[i].alive != 0);
        lemma_acceleration_estimate(particles, i, n, params, axis);
        let v = Estimate::of(after[i].along(axis.velocity()));
        let t = Estimate::of(params.dt);
        let x = Estimate::of(particles[i].along(axis.place()));
        assert(kick_estimate(particles, i, params, axis).computed == v.computed);
        estimate::law_estimates_hold(v, t);
        estimate::law_estimates_hold(x, v.times(t));
        assert(estimates(i).computed == after[i].along(axis.place()));
        rounding::law_sums_are_near(x.computed, v.times(t).computed);
        estimate::lemma_products_are_near(v.computed, t.computed);
    }
    assert forall|i: int| 0 <= i < n implies (#[trigger] after[i]).weight().is_finite()
        && after[i].along(axis.velocity()).is_finite() by {
        assert(estimates(i).holds());
    }
    assert forall|i: int| 0 <= i < n implies (#[trigger] after[i]).mass == particles[i].mass
        && after[i].along(axis.velocity()) == particles[i].kicked(
        reference::acceleration(particles, i, params),
        params.dt,
    ).along(axis.velocity()) by {
        assert(particles[i].alive != 0);
    }
    lemma_kick_keeps_momentum(particles, after, params, axis);
    balance::lemma_moment_shifts(particles, after, axis.place(), estimates, shift);
    balance::lemma_covered(after, axis.velocity(), dt);
    balance::lemma_same_terms(
        n,
        |i: int| product(particles[i].weight().number(), shift(i)),
        |i: int|
            product(
                after[i].weight().number(),
                product(after[i].along(axis.velocity()).number(), dt),
            ),
    );
    estimate::lemma_product_of_near(
        dt,
        balance::moment(after, axis.velocity()),
        balance::moment(particles, axis.velocity()),
        kick_error(particles, params, axis),
    );
}

/// The particles that are left before the final kick of a step.
pub open spec fn merged(particles: Seq<Particle>, params: SimParams) -> Seq<Particle> {
    merging::merged_from(reference::drifted(particles, params), 0)
}

/// The particles that drift all live, and so do those that merge.
pub proof fn lemma_all_drift(particles: Seq<Particle>, params: SimParams)
    requires
        all_take_part(particles, params),
    ensures
        ({
            let left = merged(particles, params);
            let rest = SimParams { count: left.len() as u32, ..params };
            &&& left.len() <= particles.len()
            &&& all_take_part(left, rest)
            &&& reference::stepped(particles, params) == reference::finished(left, rest)
            &&& reference::stepped(particles, params).len() == left.len()
            &&& forall|i: int|
                0 <= i < left.len() ==> (#[trigger] reference::stepped(particles, params)[i])
                    == left[i].kicked(reference::acceleration(left, i, rest), params.dt)
        }),
{
    let moved = reference::drifted(particles, params);
    assert forall|i: int| 0 <= i < moved.len() implies (#[trigger] moved[i]).alive != 0 by {
        assert(particles[i].alive != 0);
    }
    collision::law_live_particles_are_kept(moved);
    collision::law_only_the_living_are_left(moved);
    merging::law_merging_leaves_some(moved, 0);
    let left = merged(particles, params);
    assert forall|i: int| 0 <= i < left.len() implies (#[trigger] left[i]).alive != 0 by {
        assert((|particle: Particle| particle.alive != 0)(left[i]));
    }
}

/// A step keeps the total mass of live particles up to what the sums of masses that merge can be
/// off by, where all masses that are left are finite.
pub proof fn law_step_nearly_keeps_mass(particles: Seq<Particle>, params: SimParams)
    requires
        all_take_part(particles, params),
        merging::all_are(
            reference::stepped(particles, params),
            |particle: Particle| particle.weight().is_finite(),
        ),
    ensures
        size(
            balance::mass(reference::stepped(particles, params)) - balance::mass(particles),
        ) <= balance::mass_loss(reference::drifted(particles, params), 0),
{
    lemma_all_drift(particles, params);
    let moved = reference::drifted(particles, params);
    let left = merged(particles, params);
    let after = reference::stepped(particles, params);
    assert forall|i: int| 0 <= i < left.len() implies (#[trigger] left[i]).weight().is_finite() by {
        assert((|particle: Particle| particle.weight().is_finite())(after[i]));
    }
    balance::law_mass_is_nearly_kept(moved, 0);
    balance::lemma_same_terms(
        left.len() as int,
        |i: int| left[i].weight().number(),
        |i: int| after[i].weight().number(),
    );
    balance::lemma_same_terms(
        particles.len() as int,
        |i: int| moved[i].weight().number(),
        |i: int| particles[i].weight().number(),
    );
}

/// A step keeps the momentum of live particles up to what the two kicks and the merges between
/// them can be off by, where all that is left is finite.
pub proof fn law_step_nearly_keeps_momentum(particles: Seq<Particle>, params: SimParams, axis: Axis)
    requires
        all_take_part(particles, params),
        balance::all_finite(reference::stepped(particles, params), axis.velocity()),
    ensures
        ({
            let left = merged(particles, params);
            size(
                balance::moment(reference::stepped(particles, params), axis.velocity())
                    - balance::moment(particles, axis.velocity()),
            ) <= kick_error(particles, params, axis) + balance::moment_loss(
                reference::drifted(particles, params),
                0,
                axis.velocity(),
            ) + kick_error(left, SimParams { count: left.len() as u32, ..params }, axis)
        }),
{
    lemma_all_drift(particles, params);
    let moved = reference::drifted(particles, params);
    let left = merged(particles, params);
    let rest = SimParams { count: left.len() as u32, ..params };
    lemma_kick_keeps_momentum(left, reference::stepped(particles, params), rest, axis);
    balance::law_moments_are_nearly_kept(moved, 0, axis.velocity());
    assert forall|i: int| 0 <= i < moved.len() implies (#[trigger] moved[i]).mass
        == particles[i].mass && moved[i].along(axis.velocity()) == particles[i].kicked(
        reference::acceleration(particles, i, params),
        params.dt,
    ).along(axis.velocity()) by {
        assert(particles[i].alive != 0);
    }
    lemma_kick_keeps_momentum(particles, moved, params, axis);
}

/// A step carries the centre of mass of live particles along with their momentum: the weighted sum
/// of the places grows by the time times the momentum, up to what the move and the merges can be
/// off by, where all places and masses that are left are finite.
pub proof fn law_step_moves_the_centre_with_the_momentum(
    particles: Seq<Particle>,
    params: SimParams,
    axis: Axis,
)
    requires
        all_take_part(particles, params),
        balance::all_finite(reference::stepped(particles, params), axis.place()),
    ensures
        size(
            balance::moment(reference::stepped(particles, params), axis.place()) - (
            balance::moment(particles, axis.place()) + product(
                params.dt.number(),
                balance::moment(particles, axis.velocity()),
            )),
        ) <= move_error(particles, params, axis) + balance::moment_loss(
            reference::drifted(particles, params),
            0,
            axis.place(),
        ),
{
    lemma_all_drift(particles, params);
    let moved = reference::drifted(particles, params);
    let left = merged(particles, params);
    let after = reference::stepped(particles, params);
    assert forall|i: int| 0 <= i < left.len() implies (#[trigger] left[i]).weight().is_finite()
        && left[i].along(axis.place()).is_finite() by {
        assert(after[i].weight().is_finite());
    }
    balance::lemma_same_terms(
        left.len() as int,
        |i: int| merging::share(left[i], axis.place()),
        |i: int| merging::share(after[i], axis.place()),
    );
    balance::law_moments_are_nearly_kept(moved, 0, axis.place());
    lemma_drift_moves_the_centre(particles, params, axis);
}

} // verus!
