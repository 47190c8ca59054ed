//! How far the scalar and the eight-lane clouds can be apart: they differ in the order in which
//! they add and multiply, and so by no more than rounding makes of it.

use vstd::prelude::*;
use crate::balance;
use crate::binary32::{Binary32, ONE};
use crate::bodies;
use crate::bodies::{Axis, Body, GRAVITATIONAL_CONSTANT};
use crate::bodies_balance;
use crate::estimate;
use crate::rounding;
use crate::rounding::{product, size, slack};
use crate::simd;
use crate::simd_estimate;
use crate::softening;
use crate::wasm;
use crate::wasm_balance;

verus! {

/// How far the two ways to add up the softened square of a distance can be apart.
pub open spec fn softening_gap(a: Body, b: Body) -> real {
    let (dx, dy) = a.towards(b);
    let (xx, yy, c) = (dx * dx, dy * dy, bodies::softening_squared());
    slack(xx + yy) + slack(xx + yy + c) + slack(yy + c) + slack(xx + (yy + c))
}

/// The two ways to add up the softened square of a distance are near one another.
proof fn lemma_softening_gap(a: Body, b: Body)
    requires
        bodies_balance::softened(a, b).is_finite(),
        simd_estimate::lane_softened(a, b).is_finite(),
    ensures
        size(
            bodies_balance::softened(a, b).number() - simd_estimate::lane_softened(a, b).number(),
        ) <= softening_gap(a, b),
{
    let (dx, dy) = a.towards(b);
    let (xx, yy, c) = (dx * dx, dy * dy, bodies::softening_squared());
    rounding::law_sums_are_near(xx + yy, c);
    rounding::law_sums_are_near(xx, yy);
    rounding::law_sums_are_near(xx, yy + c);
    rounding::law_sums_are_near(yy, c);
}

/// How far the square of a root can be from the number.
pub open spec fn squaring_error(softened: Binary32) -> real {
    let root = softened.root();
    product(slack(root), root.number() + root.number() + slack(root))
}

/// How far the inverses of two distances can be apart whose softened squares are so far apart.
pub open spec fn inverse_gap(s: Binary32, t: Binary32, gap: real) -> real {
    let (p, q) = (s.root().number(), t.root().number());
    slack(bodies_balance::inverse_of(s)) + slack(bodies_balance::inverse_of(t)) + (gap
        + squaring_error(s) + squaring_error(t)) / product(product(p, q), p + q)
}

/// Inverses of numbers whose squares are near one another are near one another.
pub(crate) proof fn lemma_inverses(p: real, q: real, i: real, j: real, e: real, f: real, gap: real)
    requires
        p > 0 as real,
        q > 0 as real,
        size(product(i, p) - 1 as real) <= product(e, p),
        size(product(j, q) - 1 as real) <= product(f, q),
        size(product(p, p) - product(q, q)) <= gap,
    ensures
        size(i - j) <= e + f + gap / product(product(p, q), p + q),
{
    let u = estimate::lemma_inverse(p);
    let w = estimate::lemma_inverse(q);
    estimate::lemma_difference_times(i, u, p);
    estimate::lemma_multiples_are_bounded(i - u, e, p);
    estimate::lemma_difference_times(j, w, q);
    estimate::lemma_multiples_are_bounded(j - w, f, q);
    let s = p + q;
    let d = product(product(p, q), s);
    estimate::lemma_product_is_more(p, q);
    estimate::lemma_product_is_more(product(p, q), s);
    lemma_inverse_times(u, p, q, s);
    estimate::lemma_products_of_three(p, q, s);
    lemma_inverse_times(w, q, p, s);
    estimate::lemma_difference_times(u, w, d);
    estimate::lemma_product_of_sum(q, p, q);
    estimate::lemma_product_of_sum(p, p, q);
    let x = u - w;
    assert(product(x, d) == product(q, q) - product(p, p));
    estimate::lemma_divided(gap, d);
    estimate::lemma_multiples_are_bounded(x, gap / d, d);
}

/// The inverse of one factor takes it out of a product.
proof fn lemma_inverse_times(u: real, p: real, q: real, s: real)
    requires
        product(u, p) == 1 as real,
    ensures
        product(u, product(product(p, q), s)) == product(q, s),
{
    estimate::lemma_products_of_three(p, q, s);
    estimate::lemma_products_of_three(u, p, product(q, s));
    estimate::lemma_once(product(q, s));
}

/// The inverses of two distances whose softened squares are near one another are near one another.
pub(crate) proof fn lemma_inverse_gap(s: Binary32, t: Binary32, gap: real)
    requires
        s.is_finite(),
        t.is_finite(),
        s.root().is_finite(),
        t.root().is_finite(),
        bodies_balance::inverse_of(s).is_finite(),
        bodies_balance::inverse_of(t).is_finite(),
        size(s.number() - t.number()) <= gap,
    ensures
        size(
            bodies_balance::inverse_of(s).number() - bodies_balance::inverse_of(t).number(),
        ) <= inverse_gap(s, t, gap),
{
    let one = Binary32::from_bits(ONE);
    estimate::lemma_one();
    estimate::lemma_roots_are_near(s);
    estimate::lemma_roots_are_near(t);
    estimate::lemma_quotients_are_near(one, s.root());
    estimate::lemma_quotients_are_near(one, t.root());
    lemma_inverses(
        s.root().number(),
        t.root().number(),
        bodies_balance::inverse_of(s).number(),
        bodies_balance::inverse_of(t).number(),
        slack(bodies_balance::inverse_of(s)),
        slack(bodies_balance::inverse_of(t)),
        gap + squaring_error(s) + squaring_error(t),
    );
}

/// How far the cubes of two numbers can be apart that are so far apart.
pub open spec fn cubed_gap(i: real, j: real, gap: real) -> real {
    product(size(product(i, i)), gap) + product(
        size(j),
        product(size(i), gap) + product(size(j), gap),
    )
}

/// How far the pulls of one mass can be apart, from how far the inverse distances are.
pub open spec fn scaled_gap(d: real, m: real, i: real, j: real, gap: real) -> real {
    let g = Binary32::from_bits(GRAVITATIONAL_CONSTANT).number();
    product(size(d), product(size(m), product(size(g), cubed_gap(i, j, gap))))
}

/// Pulls at inverse distances that are near one another are near one another.
proof fn lemma_scaled_gap(d: real, m: real, i: real, j: real, gap: real)
    requires
        size(i - j) <= gap,
    ensures
        ({
            let g = Binary32::from_bits(GRAVITATIONAL_CONSTANT).number();
            size(
                product(product(d, product(g, product(product(i, i), i))), m) - product(
                    d,
                    product(product(g, product(product(j, j), j)), m),
                ),
            ) <= scaled_gap(d, m, i, j, gap)
        }),
{
    let g = Binary32::from_bits(GRAVITATIONAL_CONSTANT).number();
    let (p, q) = (product(product(i, i), i), product(product(j, j), j));
    let squares = product(size(i), gap) + product(size(j), gap);
    estimate::lemma_gap_of_products(i, j, gap, i, j, gap);
    estimate::lemma_gap_of_products(product(i, i), product(j, j), squares, i, j, gap);
    estimate::lemma_product_of_near(g, p, q, cubed_gap(i, j, gap));
    estimate::lemma_product_of_near(
        m,
        product(g, p),
        product(g, q),
        product(size(g), cubed_gap(i, j, gap)),
    );
    estimate::lemma_products_of_three(d, product(g, p), m);
    estimate::lemma_products_of_three(m, product(g, p), d);
    estimate::lemma_products_of_three(m, product(g, q), d);
    estimate::lemma_product_of_near(
        d,
        product(m, product(g, p)),
        product(m, product(g, q)),
        product(size(m), product(size(g), cubed_gap(i, j, gap))),
    );
}

/// The softened square of the distance between two bodies does not overflow, in whatever order it
/// is added up.
pub open spec fn is_in_range(a: Body, b: Body) -> bool {
    &&& bodies_balance::softened(a, b).is_finite()
    &&& simd_estimate::lane_softened(a, b).is_finite()
}

/// How far the exact pulls of two clouds with the same particles can be apart: only in the lanes,
/// where the distance is added up in another order.
pub open spec fn pull_gap(particles: Seq<Body>, position: int, other: int, axis: Axis) -> real {
    let (first, second) = if position < other {
        (position, other)
    } else {
        (other, position)
    };
    let (a, b) = (particles[first], particles[second]);
    if first == second || second >= simd::lanes_end(first, particles.len() as int) {
        0 as real
    } else {
        let (s, t) = (bodies_balance::softened(a, b), simd_estimate::lane_softened(a, b));
        scaled_gap(
            axis.of(a.towards(b)).number(),
            particles[other].mass.number(),
            bodies_balance::inverse_of(s).number(),
            bodies_balance::inverse_of(t).number(),
            inverse_gap(s, t, softening_gap(a, b)),
        )
    }
}

/// The exact pulls of the two clouds are near one another.
proof fn lemma_pull_gap(particles: Seq<Body>, position: int, other: int, axis: Axis)
    requires
        0 <= position < particles.len(),
        0 <= other < particles.len(),
        position < other ==> is_in_range(particles[position], particles[other]),
        other < position ==> is_in_range(particles[other], particles[position]),
    ensures
        size(
            wasm_balance::exact_pull(particles, position, other, axis) - simd_estimate::exact_pull(
                particles,
                position,
                other,
                axis,
            ),
        ) <= pull_gap(particles, position, other, axis),
{
    if position != other {
        let (first, second) = if position < other {
            (position, other)
        } else {
            (other, position)
        };
        let (a, b) = (particles[first], particles[second]);
        let (s, t) = (bodies_balance::softened(a, b), simd_estimate::lane_softened(a, b));
        if second < simd::lanes_end(first, particles.len() as int) {
            softening::law_inverse_distances_are_finite(a, b);
            lemma_softening_gap(a, b);
            lemma_inverse_gap(s, t, softening_gap(a, b));
            lemma_scaled_gap(
                axis.of(a.towards(b)).number(),
                particles[other].mass.number(),
                bodies_balance::inverse_of(s).number(),
                bodies_balance::inverse_of(t).number(),
                inverse_gap(s, t, softening_gap(a, b)),
            );
        }
    }
}

/// The scalar and the eight-lane computation give every particle of a cloud the same acceleration,
/// up to what the roundings of the two are off by and what the order in which distances are added
/// up makes of the pulls, where no distance overflows and the two accelerations are finite.
pub proof fn law_accelerations_agree(particles: Seq<Body>, position: int, axis: Axis)
    requires
        0 <= position < particles.len(),
        forall|i: int, j: int|
            0 <= i < j < particles.len() ==> is_in_range(
                #[trigger] particles[i],
                #[trigger] particles[j],
            ),
        axis.of(wasm::accelerations_of(particles)[position]).is_finite(),
        axis.of(simd::acceleration(particles, position)).is_finite(),
    ensures
        wasm::accelerations_of(particles).len() == particles.len(),
        size(
            axis.of(wasm::accelerations_of(particles)[position]).number() - axis.of(
                simd::acceleration(particles, position),
            ).number(),
        ) <= wasm_balance::acceleration_estimate(particles, position, axis).error
            + simd_estimate::acceleration_estimate(particles, position, axis).error + balance::sum(
            particles.len() as int,
            |j: int| pull_gap(particles, position, j, axis),
        ),
{
    let n = particles.len() as int;
    let one = |j: int| wasm_balance::exact_pull(particles, position, j, axis);
    let other = |j: int| simd_estimate::exact_pull(particles, position, j, axis);
    let gap = |j: int| pull_gap(particles, position, j, axis);
    wasm_balance::law_accelerations_are_near(particles, position, axis);
    simd_estimate::law_accelerations_are_near(particles, position, axis);
    assert forall|j: int| 0 <= j < n implies size(#[trigger] one(j) - other(j)) <= gap(j) by {
        lemma_pull_gap(particles, position, j, axis);
    }
    balance::lemma_near_terms(n, one, other, gap);
}

} // verus!
