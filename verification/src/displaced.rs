//! How far the pulls between the particles of a compute device can be apart when the particles lie
//! in places that are not quite the same: with softening, no farther than the places make of it.

use vstd::prelude::*;
use crate::agreement;
use crate::balance;
use crate::binary32::Binary32;
use crate::bodies::Axis;
use crate::bodies_balance;
use crate::collision::particle_radius;
use crate::estimate;
use crate::estimate::Estimate;
use crate::merging::Merging;
use crate::reference;
use crate::reference_balance;
use crate::rounding;
use crate::rounding::{product, size, slack};
use crate::softening;
use crate::types::{Particle, SimParams};

verus! {

impl Particle {
    /// The square of the distance to another particle.
    pub open spec fn distance_squared(self, other: Particle) -> Binary32 {
        let dx = other.x - self.x;
        let dy = other.y - self.y;
        dx * dx + dy * dy
    }

    /// The softened square of the distance to another particle.
    pub open spec fn softened_squared(self, other: Particle, params: SimParams) -> Binary32 {
        self.distance_squared(other) + params.softening_squared
    }
}

/// Two particles, and the two in places that are not quite the same, and how far the places of both
/// together have moved along the two axes.
pub struct Displaced {
    pub a: Particle,
    pub b: Particle,
    pub c: Particle,
    pub d: Particle,
    pub moved_x: real,
    pub moved_y: real,
}

impl Displaced {
    /// How far the places have moved along an axis.
    pub open spec fn moved(self, axis: Axis) -> real {
        match axis {
            Axis::X => self.moved_x,
            Axis::Y => self.moved_y,
        }
    }

    /// The places have moved no farther than said, and the masses are the same.
    #[verifier::opaque]
    pub open spec fn holds(self) -> bool {
        &&& self.a.mass == self.c.mass
        &&& self.b.mass == self.d.mass
        &&& size(self.a.x.number() - self.c.x.number()) + size(
            self.b.x.number() - self.d.x.number(),
        ) <= self.moved_x
        &&& size(self.a.y.number() - self.c.y.number()) + size(
            self.b.y.number() - self.d.y.number(),
        ) <= self.moved_y
    }

    /// How far the displacements along an axis can be apart.
    pub open spec fn displacement_gap(self, axis: Axis) -> real {
        self.moved(axis) + slack(self.a.displacement(self.b, axis)) + slack(
            self.c.displacement(self.d, axis),
        )
    }

    /// How far the squares of the displacements along an axis can be apart.
    pub open spec fn square_gap(self, axis: Axis) -> real {
        let (d, e) = (self.a.displacement(self.b, axis), self.c.displacement(self.d, axis));
        product(size(d.number()), self.displacement_gap(axis)) + product(
            size(e.number()),
            self.displacement_gap(axis),
        ) + slack(d * d) + slack(e * e)
    }

    /// How far the squares of the distances can be apart.
    pub open spec fn distance_gap(self) -> real {
        self.square_gap(Axis::X) + self.square_gap(Axis::Y) + slack(
            self.a.distance_squared(self.b),
        ) + slack(self.c.distance_squared(self.d))
    }

    /// How far the inverse distances can be apart.
    pub open spec fn inverse_gap(self, params: SimParams) -> real {
        let (s, t) = (
            self.a.softened_squared(self.b, params),
            self.c.softened_squared(self.d, params),
        );
        agreement::inverse_gap(s, t, self.distance_gap() + slack(s) + slack(t))
    }

    /// How far the pulls along an axis can be apart.
    #[verifier::opaque]
    pub open spec fn pull_gap(self, params: SimParams, axis: Axis) -> real {
        let g = self.inverse_gap(params);
        let w = product(params.gravity.number(), self.b.mass.number());
        let (i, j) = (
            self.a.inverse_distance(self.b, params).number(),
            self.c.inverse_distance(self.d, params).number(),
        );
        let first = product(size(w), g);
        let second = product(size(product(w, i)), g) + product(size(j), first);
        let third = product(size(product(product(w, i), i)), g) + product(size(j), second);
        product(size(self.a.displacement(self.b, axis).number()), third) + product(
            size(product(product(product(w, j), j), j)),
            self.displacement_gap(axis),
        )
    }

    /// Neither distance overflows.
    #[verifier::opaque]
    pub open spec fn is_in_range(self, params: SimParams) -> bool {
        &&& self.a.softened_squared(self.b, params).is_finite()
        &&& self.c.softened_squared(self.d, params).is_finite()
    }
}

/// What a finite square of a distance is made of is finite.
pub(crate) proof fn lemma_finite_distance(a: Particle, b: Particle)
    requires
        a.distance_squared(b).is_finite(),
    ensures
        a.x.is_finite() && a.y.is_finite() && b.x.is_finite() && b.y.is_finite(),
        a.displacement(b, Axis::X).is_finite(),
        a.displacement(b, Axis::Y).is_finite(),
{
    let (dx, dy) = (b.x - a.x, b.y - a.y);
    rounding::law_sums_are_near(dx * dx, dy * dy);
    estimate::lemma_products_are_near(dx, dx);
    estimate::lemma_products_are_near(dy, dy);
    rounding::law_differences_are_near(b.x, a.x);
    rounding::law_differences_are_near(b.y, a.y);
}

/// Displacements are near one another.
proof fn lemma_displacement_gap(pair: Displaced, axis: Axis)
    requires
        pair.holds(),
        pair.a.displacement(pair.b, axis).is_finite(),
        pair.c.displacement(pair.d, axis).is_finite(),
    ensures
        size(
            pair.a.displacement(pair.b, axis).number() - pair.c.displacement(pair.d, axis).number(),
        ) <= pair.displacement_gap(axis),
{
    reveal(Displaced::holds);
    match axis {
        Axis::X => {
            rounding::law_differences_are_near(pair.b.x, pair.a.x);
            rounding::law_differences_are_near(pair.d.x, pair.c.x);
        },
        Axis::Y => {
            rounding::law_differences_are_near(pair.b.y, pair.a.y);
            rounding::law_differences_are_near(pair.d.y, pair.c.y);
        },
    }
}

/// Squares of displacements are near one another.
proof fn lemma_square_gap(pair: Displaced, axis: Axis)
    requires
        pair.holds(),
        ({
            let (d, e) = (pair.a.displacement(pair.b, axis), pair.c.displacement(pair.d, axis));
            (d * d).is_finite() && (e * e).is_finite()
        }),
    ensures
        ({
            let (d, e) = (pair.a.displacement(pair.b, axis), pair.c.displacement(pair.d, axis));
            size((d * d).number() - (e * e).number()) <= pair.square_gap(axis)
        }),
{
    let (d, e) = (pair.a.displacement(pair.b, axis), pair.c.displacement(pair.d, axis));
    estimate::lemma_products_are_near(d, d);
    estimate::lemma_products_are_near(e, e);
    lemma_displacement_gap(pair, axis);
    let gap = pair.displacement_gap(axis);
    estimate::lemma_gap_of_products(d.number(), e.number(), gap, d.number(), e.number(), gap);
}

/// Squares of distances are near one another.
proof fn lemma_distance_gap(pair: Displaced)
    requires
        pair.holds(),
        pair.a.distance_squared(pair.b).is_finite(),
        pair.c.distance_squared(pair.d).is_finite(),
    ensures
        size(
            pair.a.distance_squared(pair.b).number() - pair.c.distance_squared(pair.d).number(),
        ) <= pair.distance_gap(),
{
    let (dx, dy) = (pair.b.x - pair.a.x, pair.b.y - pair.a.y);
    let (ex, ey) = (pair.d.x - pair.c.x, pair.d.y - pair.c.y);
    rounding::law_sums_are_near(dx * dx, dy * dy);
    rounding::law_sums_are_near(ex * ex, ey * ey);
    lemma_square_gap(pair, Axis::X);
    lemma_square_gap(pair, Axis::Y);
}

/// Inverse distances are near one another, with softening.
proof fn lemma_inverse_gap(pair: Displaced, params: SimParams)
    requires
        pair.holds(),
        pair.is_in_range(params),
        params.softening_squared.value() > 0,
    ensures
        size(
            pair.a.inverse_distance(pair.b, params).number() - pair.c.inverse_distance(
                pair.d,
                params,
            ).number(),
        ) <= pair.inverse_gap(params),
{
    reveal(Displaced::is_in_range);
    let (s, t) = (
        pair.a.softened_squared(pair.b, params),
        pair.c.softened_squared(pair.d, params),
    );
    rounding::law_sums_are_near(pair.a.distance_squared(pair.b), params.softening_squared);
    rounding::law_sums_are_near(pair.c.distance_squared(pair.d), params.softening_squared);
    lemma_distance_gap(pair);
    softening::law_softened_squares_are_positive(
        pair.b.x - pair.a.x,
        pair.b.y - pair.a.y,
        params.softening_squared,
    );
    softening::law_softened_squares_are_positive(
        pair.d.x - pair.c.x,
        pair.d.y - pair.c.y,
        params.softening_squared,
    );
    softening::law_inverse_roots_are_finite(s);
    softening::law_inverse_roots_are_finite(t);
    assert(pair.a.inverse_distance(pair.b, params) == bodies_balance::inverse_of(s));
    assert(pair.c.inverse_distance(pair.d, params) == bodies_balance::inverse_of(t));
    agreement::lemma_inverse_gap(s, t, pair.distance_gap() + slack(s) + slack(t));
}

/// Pulls between particles in places that are not quite the same are near one another.
pub proof fn law_pulls_are_near(pair: Displaced, params: SimParams, others: SimParams, axis: Axis)
    requires
        pair.holds(),
        pair.is_in_range(params),
        params.softening_squared.value() > 0,
        others == (SimParams { dt: others.dt, ..params }),
    ensures
        size(
            pair.a.pull_estimate(pair.b, params, axis).exact - pair.c.pull_estimate(
                pair.d,
                others,
                axis,
            ).exact,
        ) <= pair.pull_gap(params, axis),
{
    reveal(Displaced::holds);
    reveal(Displaced::is_in_range);
    reveal(Displaced::pull_gap);
    rounding::law_sums_are_near(pair.a.distance_squared(pair.b), params.softening_squared);
    rounding::law_sums_are_near(pair.c.distance_squared(pair.d), params.softening_squared);
    lemma_finite_distance(pair.a, pair.b);
    lemma_finite_distance(pair.c, pair.d);
    lemma_displacement_gap(pair, axis);
    lemma_inverse_gap(pair, params);
    assert(pair.c.inverse_distance(pair.d, params) == pair.c.inverse_distance(pair.d, others));
    lemma_chain(
        product(params.gravity.number(), pair.b.mass.number()),
        pair.a.inverse_distance(pair.b, params).number(),
        pair.c.inverse_distance(pair.d, params).number(),
        pair.inverse_gap(params),
        pair.a.displacement(pair.b, axis).number(),
        pair.c.displacement(pair.d, axis).number(),
        pair.displacement_gap(axis),
    );
}

/// Products of a weight, three inverse distances and a displacement are near one another.
proof fn lemma_chain(w: real, i: real, j: real, g: real, d: real, e: real, f: real)
    requires
        size(i - j) <= g,
        size(d - e) <= f,
    ensures
        ({
            let first = product(size(w), g);
            let second = product(size(product(w, i)), g) + product(size(j), first);
            let third = product(size(product(product(w, i), i)), g) + product(size(j), second);
            size(
                product(d, product(product(product(w, i), i), i)) - product(
                    e,
                    product(product(product(w, j), j), j),
                ),
            ) <= product(size(d), third) + product(
                size(product(product(product(w, j), j), j)),
                f,
            )
        }),
{
    let first = product(size(w), g);
    let second = product(size(product(w, i)), g) + product(size(j), first);
    let third = product(size(product(product(w, i), i)), g) + product(size(j), second);
    estimate::lemma_product_of_near(w, i, j, g);
    estimate::lemma_gap_of_products(product(w, i), product(w, j), first, i, j, g);
    estimate::lemma_gap_of_products(
        product(product(w, i), i),
        product(product(w, j), j),
        second,
        i,
        j,
        g,
    );
    estimate::lemma_gap_of_products(
        d,
        e,
        f,
        product(product(product(w, i), i), i),
        product(product(product(w, j), j), j),
        third,
    );
}

/// Particles that are farther apart than they reach, by more than the squares of the distances can
/// be apart, do not touch in the other places either.
pub proof fn law_clear_particles_stay_apart(pair: Displaced)
    requires
        pair.holds(),
        pair.a.distance_squared(pair.b).is_finite(),
        pair.c.distance_squared(pair.d).is_finite(),
        ({
            let reach = particle_radius(pair.a.mass) + particle_radius(pair.b.mass);
            pair.a.distance_squared(pair.b).number() > (reach * reach).number()
                + pair.distance_gap()
        }),
    ensures
        !pair.c.touches(pair.d),
{
    reveal(Displaced::holds);
    lemma_distance_gap(pair);
    let reach = particle_radius(pair.a.mass) + particle_radius(pair.b.mass);
    estimate::lemma_numbers_are_ordered(pair.c.distance_squared(pair.d), reach * reach);
}

/// A pair out of two sequences of particles, with how far each of the particles has moved.
pub open spec fn pair_of(
    some: Seq<Particle>,
    others: Seq<Particle>,
    i: int,
    j: int,
    moved: spec_fn(int, Axis) -> real,
) -> Displaced {
    Displaced {
        a: some[i],
        b: some[j],
        c: others[i],
        d: others[j],
        moved_x: moved(i, Axis::X) + moved(j, Axis::X),
        moved_y: moved(i, Axis::Y) + moved(j, Axis::Y),
    }
}

/// How far the pulls of one particle on another can be apart.
pub open spec fn gap_at(
    some: Seq<Particle>,
    others: Seq<Particle>,
    target: int,
    j: int,
    params: SimParams,
    moved: spec_fn(int, Axis) -> real,
    axis: Axis,
) -> real {
    if j == target {
        0 as real
    } else {
        pair_of(some, others, target, j, moved).pull_gap(params, axis)
    }
}

/// How far the pulls of all others on a particle can be apart together.
pub open spec fn pull_gaps(
    some: Seq<Particle>,
    others: Seq<Particle>,
    target: int,
    params: SimParams,
    moved: spec_fn(int, Axis) -> real,
    axis: Axis,
) -> real {
    balance::sum(
        some.len() as int,
        |j: int| gap_at(some, others, target, j, params, moved, axis),
    )
}

/// How far the accelerations of a particle can be apart: what both are off by, and how far the
/// pulls of all others are apart.
pub open spec fn acceleration_gap(
    some: Seq<Particle>,
    others: Seq<Particle>,
    target: int,
    params: SimParams,
    back: SimParams,
    moved: spec_fn(int, Axis) -> real,
    axis: Axis,
) -> real {
    let count = some.len() as int;
    reference_balance::acceleration_estimate(some, target, count, params, axis).error
        + reference_balance::acceleration_estimate(others, target, count, back, axis).error
        + pull_gaps(some, others, target, params, moved, axis)
}

/// The exact pulls of one particle on another are near one another.
proof fn lemma_exact_pulls(
    some: Seq<Particle>,
    others: Seq<Particle>,
    target: int,
    j: int,
    params: SimParams,
    back: SimParams,
    moved: spec_fn(int, Axis) -> real,
    axis: Axis,
)
    requires
        back == (SimParams { dt: back.dt, ..params }),
        params.softening_squared.value() > 0,
        j != target,
        pair_of(some, others, target, j, moved).holds(),
        pair_of(some, others, target, j, moved).is_in_range(params),
    ensures
        size(
            reference_balance::exact_pull(some, target, j, params, axis)
                - reference_balance::exact_pull(others, target, j, back, axis),
        ) <= pair_of(some, others, target, j, moved).pull_gap(params, axis),
{
    law_pulls_are_near(pair_of(some, others, target, j, moved), params, back, axis);
}

/// The exact accelerations of a particle are near one another.
proof fn lemma_exact_accelerations(
    some: Seq<Particle>,
    others: Seq<Particle>,
    target: int,
    params: SimParams,
    back: SimParams,
    moved: spec_fn(int, Axis) -> real,
    axis: Axis,
)
    requires
        back == (SimParams { dt: back.dt, ..params }),
        params.softening_squared.value() > 0,
        forall|j: int|
            0 <= j < some.len() && j != target ==> (#[trigger] pair_of(
                some,
                others,
                target,
                j,
                moved,
            )).holds() && pair_of(some, others, target, j, moved).is_in_range(params),
    ensures
        size(
            balance::sum(
                some.len() as int,
                |j: int| reference_balance::exact_pull(some, target, j, params, axis),
            ) - balance::sum(
                some.len() as int,
                |j: int| reference_balance::exact_pull(others, target, j, back, axis),
            ),
        ) <= pull_gaps(some, others, target, params, moved, axis),
{
    let n = some.len() as int;
    let one = |j: int| reference_balance::exact_pull(some, target, j, params, axis);
    let other = |j: int| reference_balance::exact_pull(others, target, j, back, axis);
    let gap = |j: int| gap_at(some, others, target, j, params, moved, axis);
    assert forall|j: int| 0 <= j < n implies size(#[trigger] one(j) - other(j)) <= gap(j) by {
        if j != target {
            assert(pair_of(some, others, target, j, moved).holds());
            lemma_exact_pulls(some, others, target, j, params, back, moved, axis);
        }
    }
    balance::lemma_near_terms(n, one, other, gap);
}

/// Particles in places that are not quite the same have accelerations that are near one another,
/// with softening, where no distance overflows and the accelerations are finite.
pub proof fn law_accelerations_are_near(
    some: Seq<Particle>,
    others: Seq<Particle>,
    target: int,
    params: SimParams,
    back: SimParams,
    moved: spec_fn(int, Axis) -> real,
    axis: Axis,
)
    requires
        reference_balance::all_take_part(some, params),
        reference_balance::all_take_part(others, back),
        some.len() == others.len(),
        back == (SimParams { dt: back.dt, ..params }),
        params.softening_squared.value() > 0,
        0 <= target < some.len(),
        forall|j: int|
            0 <= j < some.len() && j != target ==> (#[trigger] pair_of(
                some,
                others,
                target,
                j,
                moved,
            )).holds() && pair_of(some, others, target, j, moved).is_in_range(params),
        axis.of(reference::acceleration(some, target, params)).is_finite(),
        axis.of(reference::acceleration(others, target, back)).is_finite(),
    ensures
        size(
            axis.of(reference::acceleration(some, target, params)).number() - axis.of(
                reference::acceleration(others, target, back),
            ).number(),
        ) <= acceleration_gap(some, others, target, params, back, moved, axis),
{
    let one = lemma_estimate(some, target, params, axis);
    let other = lemma_estimate(others, target, back, axis);
    lemma_exact_accelerations(some, others, target, params, back, moved, axis);
    lemma_combined(
        axis.of(reference::acceleration(some, target, params)).number(),
        axis.of(reference::acceleration(others, target, back)).number(),
        one.exact,
        other.exact,
        one.error,
        other.error,
        pull_gaps(some, others, target, params, moved, axis),
    );
}

/// The acceleration of a particle and its estimate.
proof fn lemma_estimate(
    particles: Seq<Particle>,
    target: int,
    params: SimParams,
    axis: Axis,
) -> (estimate: Estimate)
    requires
        reference_balance::all_take_part(particles, params),
        0 <= target < particles.len(),
        axis.of(reference::acceleration(particles, target, params)).is_finite(),
    ensures
        estimate == reference_balance::acceleration_estimate(
            particles,
            target,
            particles.len() as int,
            params,
            axis,
        ),
        size(
            axis.of(reference::acceleration(particles, target, params)).number() - estimate.exact,
        ) <= estimate.error,
        estimate.exact == balance::sum(
            particles.len() as int,
            |j: int| reference_balance::exact_pull(particles, target, j, params, axis),
        ),
{
    let n = particles.len() as int;
    reference_balance::lemma_acceleration_estimate(particles, target, n, params, axis);
    assert(particles[target].alive != 0);
    reference_balance::acceleration_estimate(particles, target, n, params, axis)
}

/// Numbers that are near numbers that are near one another.
proof fn lemma_combined(a: real, b: real, x: real, y: real, e: real, f: real, g: real)
    requires
        size(a - x) <= e,
        size(b - y) <= f,
        size(x - y) <= g,
    ensures
        size(a - b) <= e + f + g,
{
}

} // verus!
