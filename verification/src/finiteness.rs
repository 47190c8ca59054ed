//! Finite particles of a compute device stay finite over a step with softening, unless something
//! overflows on the way.
//!
//! Something overflows where a sum, a difference, a product or the inverse of a mass is infinite.
//! That is all that can go wrong: softening keeps distances away from zero, and without an infinite
//! operand nothing else is ever no number.

use vstd::prelude::*;
use crate::binary32;
use crate::binary32::{Binary32, HALF, ONE};
use crate::merging;
use crate::merging::Merging;
use crate::reference;
use crate::reference_balance;
use crate::softening;
use crate::types::{Particle, SimParams};

verus! {

impl Particle {
    /// All that the particle holds is finite.
    pub open spec fn is_finite(self) -> bool {
        &&& self.x.is_finite()
        &&& self.y.is_finite()
        &&& self.vx.is_finite()
        &&& self.vy.is_finite()
        &&& self.mass.is_finite()
        &&& self.brightness.is_finite()
    }

    /// The softened square of the distance to another particle overflows on the way.
    pub open spec fn distance_overflows(self, other: Particle, params: SimParams) -> bool {
        let dx = other.x - self.x;
        let dy = other.y - self.y;
        ||| dx.is_infinite()
        ||| dy.is_infinite()
        ||| (dx * dx).is_infinite()
        ||| (dy * dy).is_infinite()
        ||| (dx * dx + dy * dy).is_infinite()
        ||| (dx * dx + dy * dy + params.softening_squared).is_infinite()
    }

    /// The pull of another particle overflows on the way.
    pub open spec fn pull_overflows(self, other: Particle, params: SimParams) -> bool {
        let inverse = self.inverse_distance(other, params);
        let weight = params.gravity * other.mass;
        let factor = weight * inverse * inverse * inverse;
        ||| self.distance_overflows(other, params)
        ||| weight.is_infinite()
        ||| (weight * inverse).is_infinite()
        ||| (weight * inverse * inverse).is_infinite()
        ||| factor.is_infinite()
        ||| ((other.x - self.x) * factor).is_infinite()
        ||| ((other.y - self.y) * factor).is_infinite()
    }

    /// The weighted mean of a property of two particles overflows on the way.
    pub open spec fn mean_overflows(self, mine: Binary32, other: Particle, its: Binary32) -> bool {
        ||| (mine * self.mass).is_infinite()
        ||| (its * other.mass).is_infinite()
        ||| (mine * self.mass + its * other.mass).is_infinite()
        ||| self.weighted(mine, other, its).is_infinite()
    }

    /// The merge with another particle overflows on the way.
    pub open spec fn merge_overflows(self, other: Particle) -> bool {
        ||| (self.mass + other.mass).is_infinite()
        ||| (Binary32::from_bits(ONE) / (self.mass + other.mass)).is_infinite()
        ||| self.mean_overflows(self.x, other, other.x)
        ||| self.mean_overflows(self.y, other, other.y)
        ||| self.mean_overflows(self.vx, other, other.vx)
        ||| self.mean_overflows(self.vy, other, other.vy)
        ||| self.mean_overflows(self.brightness, other, other.brightness)
    }
}

/// The acceleration of some particle overflows on the way.
pub open spec fn acceleration_overflows(
    particles: Seq<Particle>,
    target: int,
    params: SimParams,
) -> bool {
    ||| exists|j: int|
        0 <= j < particles.len() && j != target && particles[target].pull_overflows(
            #[trigger] particles[j],
            params,
        )
    ||| exists|upto: int|
        0 <= upto <= particles.len() && ((#[trigger] reference::pull_of_first(
            particles,
            target,
            upto,
            params,
        )).0.is_infinite() || reference::pull_of_first(
            particles,
            target,
            upto,
            params,
        ).1.is_infinite())
}

/// The kick of a particle overflows on the way.
pub open spec fn kick_overflows(particles: Seq<Particle>, target: int, params: SimParams) -> bool {
    let half_dt = Binary32::from_bits(HALF) * params.dt;
    let (ax, ay) = reference::acceleration(particles, target, params);
    let kicked = particles[target].kicked((ax, ay), params.dt);
    ||| acceleration_overflows(particles, target, params)
    ||| (ax * half_dt).is_infinite()
    ||| (ay * half_dt).is_infinite()
    ||| kicked.vx.is_infinite()
    ||| kicked.vy.is_infinite()
}

/// The kick or the move of some particle overflows on the way.
pub open spec fn drift_overflows(particles: Seq<Particle>, params: SimParams) -> bool {
    exists|i: int|
        #![trigger particles[i]]
        0 <= i < particles.len() && {
            let kicked = particles[i].kicked(
                reference::acceleration(particles, i, params),
                params.dt,
            );
            ||| kick_overflows(particles, i, params)
            ||| (kicked.vx * params.dt).is_infinite()
            ||| (kicked.vy * params.dt).is_infinite()
            ||| kicked.moved(params.dt).x.is_infinite()
            ||| kicked.moved(params.dt).y.is_infinite()
        }
}

/// Some merge overflows on the way.
pub open spec fn merging_overflows(particles: Seq<Particle>, first: int) -> bool
    decreases 2 * particles.len() - first,
    when 0 <= first
{
    if first >= particles.len() {
        false
    } else {
        proof {
            merging::lemma_contact_bounds(particles, first, first + 1);
        }
        match merging::first_contact(particles, first, first + 1) {
            Some(second) => particles[first].merge_overflows(particles[second])
                || merging_overflows(merging::pair_merged(particles, first, second), first),
            None => merging_overflows(particles, first + 1),
        }
    }
}

/// A step overflows on the way.
pub open spec fn step_overflows(particles: Seq<Particle>, params: SimParams) -> bool {
    let moved = reference::drifted(particles, params);
    let left = reference_balance::merged(particles, params);
    let rest = SimParams { count: left.len() as u32, ..params };
    ||| drift_overflows(particles, params)
    ||| merging_overflows(moved, 0)
    ||| exists|i: int|
        #![trigger left[i]]
        0 <= i < left.len() && kick_overflows(left, i, rest)
}

/// A sum of finite numbers is finite unless it is infinite.
proof fn lemma_sum(a: Binary32, b: Binary32)
    requires
        a.is_finite(),
        b.is_finite(),
        !(a + b).is_infinite(),
    ensures
        (a + b).is_finite(),
{
    binary32::law_sums_with_a_finite_number_are_numbers(a, b);
}

/// A difference of finite numbers is finite unless it is infinite.
proof fn lemma_difference(a: Binary32, b: Binary32)
    requires
        a.is_finite(),
        b.is_finite(),
        !(a - b).is_infinite(),
    ensures
        (a - b).is_finite(),
{
    reveal(Binary32::spec_sub);
    binary32::lemma_opposite(b);
    lemma_sum(a, b.opposite());
}

/// A product of finite numbers is finite unless it is infinite.
proof fn lemma_product(a: Binary32, b: Binary32)
    requires
        a.is_finite(),
        b.is_finite(),
        !(a * b).is_infinite(),
    ensures
        (a * b).is_finite(),
{
    binary32::law_finite_products_are_numbers(a, b);
}

/// The inverse of a finite number is finite unless it is infinite.
proof fn lemma_inverse(a: Binary32)
    requires
        a.is_finite(),
        !(Binary32::from_bits(ONE) / a).is_infinite(),
    ensures
        (Binary32::from_bits(ONE) / a).is_finite(),
{
    reveal(Binary32::spec_euclidean_or_real_div);
    let one = Binary32::from_bits(ONE);
    let negative = one.is_negative() != a.is_negative();
    binary32::lemma_signed(negative, crate::magnitude::INFINITY as nat);
    if a.magnitude() != 0 {
        crate::magnitude::lemma_units_order(0, a.magnitude() as nat);
        assert(crate::magnitude::units(0) == 0 * vstd::arithmetic::power2::pow2(0));
        let n = one.units() * vstd::arithmetic::power2::pow2(149);
        crate::magnitude::lemma_round_exists(n, a.units());
        binary32::lemma_signed(negative, crate::magnitude::round(n, a.units()));
    }
}

/// A pull that does not overflow is finite.
proof fn lemma_pull(a: Particle, b: Particle, params: SimParams)
    requires
        a.is_finite(),
        b.is_finite(),
        params.gravity.is_finite(),
        params.softening_squared.is_finite(),
        params.softening_squared.value() > 0,
        !a.pull_overflows(b, params),
    ensures
        ({
            let inverse = a.inverse_distance(b, params);
            let factor = params.gravity * b.mass * inverse * inverse * inverse;
            &&& ((b.x - a.x) * factor).is_finite()
            &&& ((b.y - a.y) * factor).is_finite()
        }),
{
    let dx = b.x - a.x;
    let dy = b.y - a.y;
    lemma_difference(b.x, a.x);
    lemma_difference(b.y, a.y);
    lemma_product(dx, dx);
    lemma_product(dy, dy);
    lemma_sum(dx * dx, dy * dy);
    lemma_sum(dx * dx + dy * dy, params.softening_squared);
    softening::law_device_inverse_distances_are_finite(a, b, params);
    let inverse = a.inverse_distance(b, params);
    let weight = params.gravity * b.mass;
    lemma_product(params.gravity, b.mass);
    lemma_product(weight, inverse);
    lemma_product(weight * inverse, inverse);
    lemma_product(weight * inverse * inverse, inverse);
    lemma_product(dx, weight * inverse * inverse * inverse);
    lemma_product(dy, weight * inverse * inverse * inverse);
}

/// An acceleration that does not overflow is finite.
proof fn lemma_acceleration(
    particles: Seq<Particle>,
    target: int,
    upto: int,
    params: SimParams,
)
    requires
        0 <= target < particles.len(),
        0 <= upto <= particles.len(),
        merging::all_are(particles, |particle: Particle| particle.is_finite()),
        params.gravity.is_finite(),
        params.softening_squared.is_finite(),
        params.softening_squared.value() > 0,
        !acceleration_overflows(particles, target, params),
    ensures
        reference::pull_of_first(particles, target, upto, params).0.is_finite(),
        reference::pull_of_first(particles, target, upto, params).1.is_finite(),
    decreases upto,
{
    if upto > 0 {
        lemma_acceleration(particles, target, upto - 1, params);
        let other = particles[upto - 1];
        let sum = reference::pull_of_first(particles, target, upto - 1, params);
        let now = reference::pull_of_first(particles, target, upto, params);
        assert(!now.0.is_infinite() && !now.1.is_infinite());
        if target != upto - 1 && other.alive != 0 {
            let a = particles[target];
            assert((|particle: Particle| particle.is_finite())(a));
            assert((|particle: Particle| particle.is_finite())(other));
            assert(!a.pull_overflows(other, params));
            lemma_pull(a, other, params);
            let inverse = a.inverse_distance(other, params);
            let factor = params.gravity * other.mass * inverse * inverse * inverse;
            lemma_sum(sum.0, (other.x - a.x) * factor);
            lemma_sum(sum.1, (other.y - a.y) * factor);
        }
    }
}

/// A kick that does not overflow leaves a finite velocity.
proof fn lemma_kick(particles: Seq<Particle>, target: int, params: SimParams)
    requires
        0 <= target < particles.len(),
        reference_balance::all_take_part(particles, params),
        merging::all_are(particles, |particle: Particle| particle.is_finite()),
        params.dt.is_finite(),
        params.gravity.is_finite(),
        params.softening_squared.is_finite(),
        params.softening_squared.value() > 0,
        !kick_overflows(particles, target, params),
    ensures
        particles[target].kicked(
            reference::acceleration(particles, target, params),
            params.dt,
        ).is_finite(),
{
    let half_dt = Binary32::from_bits(HALF) * params.dt;
    let particle = particles[target];
    assert((|particle: Particle| particle.is_finite())(particle));
    lemma_acceleration(particles, target, particles.len() as int, params);
    let (ax, ay) = reference::acceleration(particles, target, params);
    binary32::law_half_is_finite(params.dt);
    lemma_product(ax, half_dt);
    lemma_product(ay, half_dt);
    lemma_sum(particle.vx, ax * half_dt);
    lemma_sum(particle.vy, ay * half_dt);
}

/// A mean that does not overflow is finite.
proof fn lemma_mean(a: Particle, mine: Binary32, b: Particle, its: Binary32)
    requires
        a.mass.is_finite(),
        b.mass.is_finite(),
        mine.is_finite(),
        its.is_finite(),
        (Binary32::from_bits(ONE) / (a.mass + b.mass)).is_finite(),
        !a.mean_overflows(mine, b, its),
    ensures
        a.weighted(mine, b, its).is_finite(),
{
    lemma_product(mine, a.mass);
    lemma_product(its, b.mass);
    lemma_sum(mine * a.mass, its * b.mass);
    lemma_product(
        mine * a.mass + its * b.mass,
        Binary32::from_bits(ONE) / (a.mass + b.mass),
    );
}

/// Particles that merge without an overflow stay finite.
proof fn lemma_merging(particles: Seq<Particle>, first: int)
    requires
        0 <= first,
        merging::all_are(particles, |particle: Particle| particle.is_finite()),
        !merging_overflows(particles, first),
    ensures
        merging::all_are(
            merging::merged_from(particles, first),
            |particle: Particle| particle.is_finite(),
        ),
    decreases 2 * particles.len() - first,
{
    if first < particles.len() {
        merging::lemma_contact_bounds(particles, first, first + 1);
        match merging::first_contact(particles, first, first + 1) {
            Some(second) => {
                let kind = |particle: Particle| particle.is_finite();
                let (a, b) = (particles[first], particles[second]);
                assert(kind(a) && kind(b));
                lemma_sum(a.mass, b.mass);
                lemma_inverse(a.mass + b.mass);
                lemma_mean(a, a.x, b, b.x);
                lemma_mean(a, a.y, b, b.y);
                lemma_mean(a, a.vx, b, b.vx);
                lemma_mean(a, a.vy, b, b.vy);
                lemma_mean(a, a.brightness, b, b.brightness);
                let next = merging::pair_merged(particles, first, second);
                assert forall|i: int| 0 <= i < next.len() implies kind(#[trigger] next[i]) by {
                    assert(next[i] == a.merged(b) || next[i] == particles[i] || next[i]
                        == particles[particles.len() - 1]);
                }
                lemma_merging(next, first);
            },
            None => lemma_merging(particles, first + 1),
        }
    }
}

/// Finite live particles stay finite over a step with softening greater than zero, unless
/// something overflows on the way.
pub proof fn law_finite_particles_stay_finite(particles: Seq<Particle>, params: SimParams)
    requires
        reference_balance::all_take_part(particles, params),
        merging::all_are(particles, |particle: Particle| particle.is_finite()),
        params.dt.is_finite(),
        params.gravity.is_finite(),
        params.softening_squared.is_finite(),
        params.softening_squared.value() > 0,
        !step_overflows(particles, params),
    ensures
        merging::all_are(
            reference::stepped(particles, params),
            |particle: Particle| particle.is_finite(),
        ),
{
    let kind = |particle: Particle| particle.is_finite();
    let moved = reference::drifted(particles, params);
    let left = reference_balance::merged(particles, params);
    let rest = SimParams { count: left.len() as u32, ..params };
    let after = reference::stepped(particles, params);
    reference_balance::lemma_all_drift(particles, params);
    assert forall|i: int| 0 <= i < moved.len() implies kind(#[trigger] moved[i]) by {
        let particle = particles[i];
        assert(kind(particle));
        assert(particle.alive != 0);
        lemma_kick(particles, i, params);
        let kicked = particle.kicked(reference::acceleration(particles, i, params), params.dt);
        lemma_product(kicked.vx, params.dt);
        lemma_product(kicked.vy, params.dt);
        lemma_sum(kicked.x, kicked.vx * params.dt);
        lemma_sum(kicked.y, kicked.vy * params.dt);
    }
    lemma_merging(moved, 0);
    assert forall|i: int| 0 <= i < after.len() implies kind(#[trigger] after[i]) by {
        assert(!kick_overflows(left, i, rest)) by {
            assert(left[i] == left[i]);
        }
        lemma_kick(left, i, rest);
        assert(after[i] == left[i].kicked(reference::acceleration(left, i, rest), params.dt));
    }
}

} // verus!
