//! How bodies pull one another, beside what the pulls are meant to be, and what a step of bodies
//! keeps whatever the order in which pulls are added up.

use vstd::prelude::*;
use crate::balance;
use crate::binary32::{Binary32, ONE};
use crate::bodies;
use crate::bodies::{Axis, Body, GRAVITATIONAL_CONSTANT};
use crate::estimate;
use crate::estimate::Estimate;
use crate::merging::Merging;
use crate::rounding;
use crate::rounding::{product, size};

verus! {

/// The inverse of a softened distance.
pub open spec fn inverse_of(softened: Binary32) -> Binary32 {
    Binary32::from_bits(ONE) / softened.root()
}

/// The factor of attraction, meant to be the gravitational constant times the inverse distance
/// cubed.
pub open spec fn attraction_estimate(softened: Binary32) -> Estimate {
    let inverse = Estimate::of(inverse_of(softened));
    Estimate::of(Binary32::from_bits(GRAVITATIONAL_CONSTANT)).times(
        inverse.times(inverse).times(inverse),
    )
}

/// The factor of attraction is what its estimate computes.
pub proof fn lemma_attraction_estimate(softened: Binary32)
    ensures
        attraction_estimate(softened).holds(),
        attraction_estimate(softened).computed == bodies::attraction(softened),
{
    let inverse = Estimate::of(inverse_of(softened));
    let g = Estimate::of(Binary32::from_bits(GRAVITATIONAL_CONSTANT));
    estimate::law_estimates_hold(inverse, inverse);
    estimate::law_estimates_hold(inverse.times(inverse), inverse);
    estimate::law_estimates_hold(g, inverse.times(inverse).times(inverse));
}

/// The softened square of the distance between two bodies.
pub open spec fn softened(body: Body, other: Body) -> Binary32 {
    let (dx, dy) = body.towards(other);
    dx * dx + dy * dy + bodies::softening_squared()
}

/// The acceleration of one body by a mass at the place of another, meant to be the displacement,
/// the exact factor and the mass, multiplied.
pub open spec fn pull_estimate(body: Body, other: Body, mass: Binary32, axis: Axis) -> Estimate {
    Estimate::of(axis.of(body.towards(other))).times(
        attraction_estimate(softened(body, other)),
    ).times(Estimate::of(mass))
}

/// A pull is what its estimate computes.
pub proof fn lemma_pull_estimate(body: Body, other: Body, mass: Binary32, axis: Axis)
    ensures
        pull_estimate(body, other, mass, axis).holds(),
        pull_estimate(body, other, mass, axis).computed == axis.of(
            bodies::pull(body, other, mass),
        ),
{
    let d = Estimate::of(axis.of(body.towards(other)));
    let f = attraction_estimate(softened(body, other));
    lemma_attraction_estimate(softened(body, other));
    estimate::law_estimates_hold(d, f);
    estimate::law_estimates_hold(d.times(f), Estimate::of(mass));
}

/// A half kick by forces that are opposite in pairs keeps the momentum, up to what the kicks can be
/// off by; and where the velocities after it are finite, so were those before.
pub proof fn lemma_kick_keeps_momentum(
    before: Seq<Body>,
    after: Seq<Body>,
    axis: Axis,
    accelerations: spec_fn(int) -> Estimate,
    kicks: spec_fn(int) -> Estimate,
    pull: spec_fn(int, int) -> real,
    time: real,
)
    requires
        after.len() == before.len(),
        balance::all_finite(after, axis.velocity()),
        forall|i: int|
            0 <= i < before.len() ==> (#[trigger] after[i]).mass == before[i].mass
                && after[i].along(axis.velocity()) == kicks(i).computed,
        forall|i: int|
            0 <= i < before.len() ==> (#[trigger] kicks(i)).holds() && kicks(i).exact
                == before[i].along(axis.velocity()).number() + product(
                accelerations(i).exact,
                time,
            ) && (kicks(i).computed.is_finite() ==> before[i].along(
                axis.velocity(),
            ).is_finite()),
        forall|i: int|
            0 <= i < before.len() ==> (#[trigger] accelerations(i)).exact == balance::sum(
                before.len() as int,
                |j: int| pull(i, j),
            ),
        forall|i: int, j: int|
            0 <= i < before.len() && 0 <= j < before.len() ==> product(
                before[i].weight().number(),
                #[trigger] pull(i, j),
            ) == -product(before[j].weight().number(), pull(j, i)),
    ensures
        balance::all_finite(before, axis.velocity()),
        size(
            balance::moment(after, axis.velocity()) - balance::moment(before, axis.velocity()),
        ) <= balance::weighted_error(before, kicks),
{
    let n = before.len() as int;
    let shift = |i: int| product(balance::sum(n, |j: int| pull(i, j)), time);
    assert forall|i: int| 0 <= i < n implies (#[trigger] kicks(i)).holds() && kicks(i).computed
        == after[i].along(axis.velocity()) && kicks(i).computed.is_finite() && kicks(i).exact
        == before[i].along(axis.velocity()).number() + shift(i) by {
        assert(after[i].mass == before[i].mass);
        assert(accelerations(i).exact == balance::sum(n, |j: int| pull(i, j)));
    }
    assert forall|i: int| 0 <= i < n implies (#[trigger] before[i]).weight().is_finite()
        && before[i].along(axis.velocity()).is_finite() by {
        assert(after[i].mass == before[i].mass);
        assert(kicks(i).holds());
    }
    balance::lemma_moment_shifts(before, after, axis.velocity(), kicks, shift);
    balance::lemma_pulls_cancel_out(before, pull, time);
    balance::lemma_same_terms(
        n,
        |i: int| product(before[i].weight().number(), shift(i)),
        |i: int|
            product(
                before[i].weight().number(),
                product(balance::sum(before.len() as int, |j: int| pull(i, j)), time),
            ),
    );
}

/// A place after a move, meant to be changed by the velocity and the time, multiplied.
pub open spec fn move_estimate(before: Body, after: Body, dt: Binary32, axis: Axis) -> Estimate {
    Estimate::of(before.along(axis.place())).plus(
        Estimate::of(after.along(axis.velocity())).times(Estimate::of(dt)),
    )
}

/// What the move of all bodies can make of their centre, times their mass: what the moves are off
/// by, and the time times what the kicks before them are off by.
pub open spec fn move_error(
    before: Seq<Body>,
    after: Seq<Body>,
    dt: Binary32,
    axis: Axis,
    kick_error: real,
) -> real {
    balance::weighted_error(before, |i: int| move_estimate(before[i], after[i], dt, axis))
        + product(size(dt.number()), kick_error)
}

/// Where the velocities after a move are finite, they kept the momentum up to the error.
pub open spec fn keeps_momentum(
    before: Seq<Body>,
    after: Seq<Body>,
    axis: Axis,
    kick_error: real,
) -> bool {
    balance::all_finite(after, axis.velocity()) ==> size(
        balance::moment(after, axis.velocity()) - balance::moment(before, axis.velocity()),
    ) <= kick_error
}

/// Bodies that move carry their centre along with their momentum.
pub proof fn lemma_move_carries_the_centre(
    before: Seq<Body>,
    after: Seq<Body>,
    dt: Binary32,
    axis: Axis,
    kick_error: real,
)
    requires
        after.len() == before.len(),
        balance::all_finite(after, axis.place()),
        forall|i: int|
            0 <= i < before.len() ==> (#[trigger] after[i]).mass == before[i].mass
                && after[i].along(axis.place()) == before[i].along(axis.place()) + after[i].along(
                axis.velocity(),
            ) * dt,
        keeps_momentum(before, after, axis, kick_error),
    ensures
        size(
            balance::moment(after, axis.place()) - (balance::moment(before, axis.place())
                + product(dt.number(), balance::moment(before, axis.velocity()))),
        ) <= move_error(before, after, dt, axis, kick_error),
{
    let n = before.len() as int;
    let time = dt.number();
    let moves = |i: int| move_estimate(before[i], after[i], dt, axis);
    let shift = |i: int| product(after[i].along(axis.velocity()).number(), time);
    assert forall|i: int| 0 <= i < n implies (#[trigger] moves(i)).holds() && moves(i).computed
        == after[i].along(axis.place()) && moves(i).computed.is_finite() && moves(i).exact
        == before[i].along(axis.place()).number() + shift(i) && after[i].along(
        axis.velocity(),
    ).is_finite() by {
        let x = Estimate::of(before[i].along(axis.place()));
        let v = Estimate::of(after[i].along(axis.velocity()));
        let t = Estimate::of(dt);
        assert(after[i].mass == before[i].mass);
        estimate::law_estimates_hold(v, t);
        estimate::law_estimates_hold(x, v.times(t));
        rounding::law_sums_are_near(x.computed, v.times(t).computed);
        estimate::lemma_products_are_near(v.computed, t.computed);
    }
    assert forall|i: int| 0 <= i < n implies (#[trigger] after[i]).weight().is_finite()
        && after[i].along(axis.velocity()).is_finite() by {
        assert(moves(i).holds());
    }
    balance::lemma_moment_shifts(before, after, axis.place(), moves, shift);
    balance::lemma_covered(after, axis.velocity(), time);
    balance::lemma_same_terms(
        n,
        |i: int| product(before[i].weight().number(), shift(i)),
        |i: int|
            product(
                after[i].weight().number(),
                product(after[i].along(axis.velocity()).number(), time),
            ),
    );
    estimate::lemma_product_of_near(
        time,
        balance::moment(after, axis.velocity()),
        balance::moment(before, axis.velocity()),
        kick_error,
    );
}

} // verus!
