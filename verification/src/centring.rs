//! Bodies seen from their centre of mass: the weighted sums of their places and velocities are zero,
//! up to what rounding makes of them.

use vstd::prelude::*;
use crate::balance;
use crate::binary32;
use crate::binary32::{Binary32, ZERO};
use crate::bodies;
use crate::bodies::{Body, Coordinate};
use crate::estimate;
use crate::estimate::Estimate;
use crate::magnitude::INFINITY;
use crate::merging;
use crate::merging::Merging;
use crate::rounding;
use crate::rounding::{product, size, slack};
use crate::spawn;
use crate::types::Particle;

verus! {

/// The masses of the first bodies added up, meant to be their exact sum.
pub open spec fn mass_estimate(bodies: Seq<Body>, upto: int) -> Estimate
    decreases upto,
{
    if upto <= 0 {
        Estimate::of(Binary32::from_bits(ZERO))
    } else {
        mass_estimate(bodies, upto - 1).plus(Estimate::of(bodies[upto - 1].mass))
    }
}

/// A coordinate of the first bodies weighted and added up, meant to be the exact weighted sum.
pub open spec fn moment_estimate(bodies: Seq<Body>, coordinate: Coordinate, upto: int) -> Estimate
    decreases upto,
{
    if upto <= 0 {
        Estimate::of(Binary32::from_bits(ZERO))
    } else {
        let body = bodies[upto - 1];
        moment_estimate(bodies, coordinate, upto - 1).plus(
            Estimate::of(body.along(coordinate)).times(Estimate::of(body.mass)),
        )
    }
}

/// The sum of the masses is what its estimate computes.
pub(crate) proof fn lemma_mass_estimate(bodies: Seq<Body>, upto: int)
    requires
        0 <= upto <= bodies.len(),
    ensures
        mass_estimate(bodies, upto).holds(),
        mass_estimate(bodies, upto).computed == bodies::mass_of_first(bodies, upto),
        mass_estimate(bodies, upto).exact == balance::sum(
            upto,
            |i: int| bodies[i].weight().number(),
        ),
    decreases upto,
{
    if upto <= 0 {
        estimate::lemma_zero();
    } else {
        lemma_mass_estimate(bodies, upto - 1);
        estimate::law_estimates_hold(
            mass_estimate(bodies, upto - 1),
            Estimate::of(bodies[upto - 1].mass),
        );
    }
}

/// The weighted sum is what its estimate computes.
pub(crate) proof fn lemma_moment_estimate(bodies: Seq<Body>, coordinate: Coordinate, upto: int)
    requires
        0 <= upto <= bodies.len(),
    ensures
        moment_estimate(bodies, coordinate, upto).holds(),
        moment_estimate(bodies, coordinate, upto).computed == bodies::moment_of_first(
            bodies,
            coordinate,
            upto,
        ),
        moment_estimate(bodies, coordinate, upto).exact == balance::sum(
            upto,
            |i: int| merging::share(bodies[i], coordinate),
        ),
    decreases upto,
{
    if upto <= 0 {
        estimate::lemma_zero();
    } else {
        lemma_moment_estimate(bodies, coordinate, upto - 1);
        let body = bodies[upto - 1];
        let (x, m) = (Estimate::of(body.along(coordinate)), Estimate::of(body.mass));
        estimate::law_estimates_hold(x, m);
        estimate::law_estimates_hold(
            moment_estimate(bodies, coordinate, upto - 1),
            x.times(m),
        );
        estimate::lemma_products_of_three(x.exact, m.exact, m.exact);
    }
}

/// A coordinate less the mean, meant to be just that.
pub open spec fn shift_estimate(bodies: Seq<Body>, position: int, coordinate: Coordinate) -> Estimate {
    Estimate::of(bodies[position].along(coordinate)).minus(
        Estimate::of(bodies::mean_of(bodies, coordinate)),
    )
}

/// How far the weighted sum of a coordinate of centred bodies can be from zero: what the single
/// subtractions and the weighted sum are off by, what the mean makes of the sum of the masses being
/// off, and what the mass makes of the mean being off.
pub open spec fn centring_error(bodies: Seq<Body>, coordinate: Coordinate) -> real {
    let count = bodies.len() as int;
    let mean = bodies::mean_of(bodies, coordinate);
    balance::weighted_error(bodies, |i: int| shift_estimate(bodies, i, coordinate))
        + moment_estimate(bodies, coordinate, count).error + product(
        size(mean.number()),
        mass_estimate(bodies, count).error,
    ) + product(slack(mean), size(bodies::mass_of(bodies).number()))
}

/// The weighted sum less the mean times the mass.
proof fn lemma_remainder(exact: real, total: real, mean: real, mass: real, moment: real, sum: real)
    requires
        exact == sum - product(mean, total),
    ensures
        size(exact) <= size(moment - sum) + product(size(mean), size(mass - total)) + size(
            product(mean, mass) - moment,
        ),
{
    estimate::lemma_product_of_near(mean, mass, total, size(mass - total));
}

/// The places and the velocities of bodies seen from their centre of mass add up to zero when
/// weighted by the masses, up to what rounding makes of it, where they and the total mass are
/// finite.
pub proof fn law_centred_bodies_balance(bodies: Seq<Body>, coordinate: Coordinate)
    requires
        bodies.len() > 0,
        !(coordinate is Brightness),
        bodies::mass_of(bodies).is_finite(),
        balance::all_finite(bodies::centred(bodies), coordinate),
    ensures
        size(balance::moment(bodies::centred(bodies), coordinate)) <= centring_error(
            bodies,
            coordinate,
        ),
{
    let n = bodies.len() as int;
    let after = bodies::centred(bodies);
    let mean = bodies::mean_of(bodies, coordinate);
    let mass = bodies::mass_of(bodies);
    let moment = bodies::moment_of_first(bodies, coordinate, n);
    let estimates = |i: int| shift_estimate(bodies, i, coordinate);
    let shift = |i: int| -mean.number();
    lemma_mass_estimate(bodies, n);
    lemma_moment_estimate(bodies, coordinate, n);
    assert forall|i: int| 0 <= i < n implies (#[trigger] estimates(i)).holds()
        && estimates(i).computed == after[i].along(coordinate)
        && estimates(i).computed.is_finite() && estimates(i).exact == bodies[i].along(
        coordinate,
    ).number() + shift(i) && mean.is_finite() by {
        let (x, c) = (Estimate::of(bodies[i].along(coordinate)), Estimate::of(mean));
        estimate::law_estimates_hold(x, c);
        assert(after[i].weight() == bodies[i].weight());
        rounding::law_differences_are_near(x.computed, mean);
    }
    assert(estimates(0).holds());
    assert(moment.is_finite()) by {
        reveal(Binary32::spec_euclidean_or_real_div);
        binary32::lemma_signed(true, INFINITY as nat);
        binary32::lemma_signed(false, INFINITY as nat);
    }
    estimate::lemma_quotients_are_near(moment, mass);
    balance::lemma_moment_shifts(bodies, after, coordinate, estimates, shift);
    let weights = |i: int| bodies[i].weight().number();
    let shifted = |i: int| product(bodies[i].weight().number(), shift(i));
    assert forall|i: int| 0 <= i < n implies #[trigger] shifted(i) == product(
        -mean.number(),
        weights(i),
    ) by {
        estimate::lemma_products_of_three(weights(i), -mean.number(), weights(i));
    }
    balance::lemma_scaled_sum(-mean.number(), n, weights);
    balance::lemma_same_terms(n, shifted, |i: int| product(-mean.number(), weights(i)));
    let total = balance::sum(n, weights);
    estimate::lemma_products_of_three(total, mean.number(), total);
    estimate::lemma_products_of_three(-mean.number(), total, total);
    assert(balance::sum(n, shifted) == -product(mean.number(), total));
    let exact = balance::moment(bodies, coordinate) - product(mean.number(), total);
    lemma_remainder(
        exact,
        total,
        mean.number(),
        mass.number(),
        moment.number(),
        balance::moment(bodies, coordinate),
    );
    estimate::lemma_product_of_more(
        size(mean.number()),
        size(mass.number() - total),
        mass_estimate(bodies, n).error,
    );
}

/// The particles of a compute device, seen from their centre of mass, balance as their bodies do.
pub proof fn law_recentred_particles_balance(particles: Seq<Particle>, coordinate: Coordinate)
    requires
        particles.len() > 0,
        !(coordinate is Brightness),
        !bodies::mass_of(spawn::bodies_of(particles)).same(Binary32::from_bits(ZERO)),
        bodies::mass_of(spawn::bodies_of(particles)).is_finite(),
        balance::all_finite(spawn::recentred(particles), coordinate),
    ensures
        size(balance::moment(spawn::recentred(particles), coordinate)) <= centring_error(
            spawn::bodies_of(particles),
            coordinate,
        ),
{
    let all = spawn::bodies_of(particles);
    let (some, others) = (spawn::recentred(particles), bodies::centred(all));
    assert forall|i: int| 0 <= i < others.len() implies (#[trigger] others[i]).weight().is_finite()
        && others[i].along(coordinate).is_finite() by {
        assert(some[i].weight().is_finite());
    }
    law_centred_bodies_balance(all, coordinate);
    balance::lemma_same_terms(
        particles.len() as int,
        |i: int| merging::share(some[i], coordinate),
        |i: int| merging::share(others[i], coordinate),
    );
}

/// Seen from their centre of mass, all bodies are shifted alike, by the mean of the coordinate, up to
/// rounding; their masses and their brightness stay.
pub proof fn law_centring_shifts_all_alike(bodies: Seq<Body>, position: int, coordinate: Coordinate)
    requires
        0 <= position < bodies.len(),
        !(coordinate is Brightness),
    ensures
        ({
            let (before, after) = (bodies[position], bodies::centred(bodies)[position]);
            let shifted = after.along(coordinate);
            &&& bodies::centred(bodies).len() == bodies.len()
            &&& after.mass == before.mass
            &&& after.brightness == before.brightness
            &&& shifted.is_finite() ==> size(
                shifted.number() - (before.along(coordinate).number() - bodies::mean_of(
                    bodies,
                    coordinate,
                ).number()),
            ) <= slack(shifted)
        }),
{
    let after = bodies::centred(bodies)[position];
    if after.along(coordinate).is_finite() {
        rounding::law_differences_are_near(
            bodies[position].along(coordinate),
            bodies::mean_of(bodies, coordinate),
        );
    }
}

/// The particles of a compute device are shifted like their bodies, unless they weigh nothing; their
/// marks stay.
pub proof fn law_recentring_shifts_particles_like_bodies(particles: Seq<Particle>, position: int)
    requires
        0 <= position < particles.len(),
    ensures
        ({
            let all = particles.map(|i: int, particle: Particle| particle.body());
            let (before, after) = (particles[position], spawn::recentred(particles)[position]);
            &&& spawn::recentred(particles).len() == particles.len()
            &&& after.alive == before.alive
            &&& after.padding == before.padding
            &&& bodies::mass_of(all).same(Binary32::from_bits(ZERO)) ==> after == before
            &&& !bodies::mass_of(all).same(Binary32::from_bits(ZERO)) ==> after.body()
                == bodies::centred(all)[position]
        }),
{
    assert(spawn::bodies_of(particles) == particles.map(
        |i: int, particle: Particle| particle.body(),
    ));
}

} // verus!
