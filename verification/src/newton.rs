//! Newton's law of gravitation, with softening, in real numbers, and how far computed pulls can be
//! from it.

use vstd::prelude::*;
use crate::agreement;
use crate::balance;
use crate::binary32::{Binary32, HALF, ONE};
use crate::bodies::Axis;
use crate::bodies_balance;
use crate::estimate;
use crate::estimate::Estimate;
use crate::merging::Merging;
use crate::numbers;
use crate::rounding::{product, size, slack};

verus! {

/// The exact pull along an axis: gravity times mass times how far the mass lies ahead along the
/// axis, divided by the cube of the distance.
pub open spec fn pull(gravity: real, mass: real, ahead: real, distance: real) -> real {
    product(product(gravity, mass), ahead) / product(product(distance, distance), distance)
}

/// How far one thing lies ahead of another along an axis, exactly.
pub open spec fn ahead<T: Merging>(a: T, b: T, axis: Axis) -> real {
    b.along(axis.place()).number() - a.along(axis.place()).number()
}

/// The exact square of the softened distance between two things.
pub open spec fn softened_squared<T: Merging>(a: T, b: T, softening_squared: real) -> real {
    product(ahead(a, b, Axis::X), ahead(a, b, Axis::X)) + product(
        ahead(a, b, Axis::Y),
        ahead(a, b, Axis::Y),
    ) + softening_squared
}

/// A real number is the softened distance between two things.
pub open spec fn is_distance<T: Merging>(distance: real, a: T, b: T, softening_squared: real) -> bool {
    distance > 0 as real && product(distance, distance) == softened_squared(
        a,
        b,
        softening_squared,
    )
}

/// The exact pull of one of some things on another; nothing pulls itself.
pub open spec fn pull_of<T: Merging>(
    things: Seq<T>,
    position: int,
    other: int,
    axis: Axis,
    gravity: real,
    distances: spec_fn(int) -> real,
) -> real {
    if other == position {
        0 as real
    } else {
        pull(
            gravity,
            things[other].weight().number(),
            ahead(things[position], things[other], axis),
            distances(other),
        )
    }
}

/// The exact acceleration of a thing: the sum of the pulls of all others.
pub open spec fn acceleration<T: Merging>(
    things: Seq<T>,
    position: int,
    axis: Axis,
    gravity: real,
    distances: spec_fn(int) -> real,
) -> real {
    balance::sum(
        things.len() as int,
        |j: int| pull_of(things, position, j, axis, gravity, distances),
    )
}

/// The numbers are the softened distances of one of some things to all others.
pub open spec fn are_distances<T: Merging>(
    distances: spec_fn(int) -> real,
    things: Seq<T>,
    position: int,
    softening_squared: real,
) -> bool {
    forall|j: int|
        0 <= j < things.len() && j != position ==> is_distance(
            #[trigger] distances(j),
            things[position],
            things[j],
            softening_squared,
        )
}

/// How far an inverse distance can be from the exact one, from how far the square of the distance
/// is.
pub open spec fn inverse_error(softened: Binary32, error: real, distance: real) -> real {
    let root = softened.root().number();
    slack(bodies_balance::inverse_of(softened)) + (error + agreement::squaring_error(softened))
        / product(product(root, distance), root + distance)
}

/// The inverse of a number.
pub open spec fn inverse(x: real) -> real {
    1 as real / x
}

/// The cube of a number.
pub open spec fn cube(x: real) -> real {
    product(product(x, x), x)
}

/// A number times its inverse.
proof fn lemma_inverse(x: real)
    requires
        x > 0 as real,
    ensures
        product(inverse(x), x) == 1 as real,
        inverse(x) > 0 as real,
{
    reveal(product);
    assert((1 as real / x) * x == 1 as real && 1 as real / x > 0 as real) by (nonlinear_arith)
        requires
            x > 0 as real,
    ;
}

/// Dividing by a cube is multiplying by the cube of the inverse.
proof fn lemma_divided_by_cube(x: real, s: real)
    requires
        s > 0 as real,
    ensures
        x / cube(s) == product(x, cube(inverse(s))),
{
    lemma_inverse(s);
    reveal(product);
    let i = inverse(s);
    let (c, k) = (s * s * s, i * i * i);
    assert(k * c == 1 as real && c > 0 as real) by (nonlinear_arith)
        requires
            i * s == 1 as real,
            s > 0 as real,
            c == s * s * s,
            k == i * i * i,
    ;
    assert(x / c == x * k) by (nonlinear_arith)
        requires
            k * c == 1 as real,
            c > 0 as real,
    ;
}

/// The exact pull, in the order in which bodies multiply.
proof fn lemma_pull(gravity: real, mass: real, ahead: real, distance: real)
    requires
        distance > 0 as real,
    ensures
        pull(gravity, mass, ahead, distance) == product(
            product(ahead, product(gravity, cube(inverse(distance)))),
            mass,
        ),
{
    lemma_divided_by_cube(product(product(gravity, mass), ahead), distance);
    let c = cube(inverse(distance));
    reveal(product);
    assert(((gravity * mass) * ahead) * c == (ahead * (gravity * c)) * mass) by (nonlinear_arith);
}

/// An inverse distance is near the exact one where the square of the distance is.
proof fn lemma_inverse_is_near(softened: Binary32, error: real, distance: real)
    requires
        softened.is_finite(),
        softened.root().is_finite(),
        bodies_balance::inverse_of(softened).is_finite(),
        distance > 0 as real,
        size(softened.number() - product(distance, distance)) <= error,
    ensures
        size(bodies_balance::inverse_of(softened).number() - inverse(distance)) <= inverse_error(
            softened,
            error,
            distance,
        ),
{
    let one = Binary32::from_bits(ONE);
    estimate::lemma_one();
    estimate::lemma_roots_are_near(softened);
    estimate::lemma_quotients_are_near(one, softened.root());
    lemma_inverse(distance);
    estimate::lemma_products_of_three(0 as real, distance, distance);
    estimate::lemma_product_of_nothing(distance);
    agreement::lemma_inverses(
        softened.root().number(),
        distance,
        bodies_balance::inverse_of(softened).number(),
        inverse(distance),
        slack(bodies_balance::inverse_of(softened)),
        0 as real,
        error + agreement::squaring_error(softened),
    );
}

/// How far a pull can be from the exact one: what the inverse distance and the displacement make of
/// it.
pub open spec fn pull_error(
    gravity: real,
    mass: real,
    displacement: Binary32,
    softened: Binary32,
    error: real,
    distance: real,
) -> real {
    let i = bodies_balance::inverse_of(softened).number();
    let cubes = agreement::cubed_gap(i, inverse(distance), inverse_error(softened, error, distance));
    product(
        size(mass),
        product(size(displacement.number()), product(size(gravity), cubes)) + product(
            size(product(gravity, cube(inverse(distance)))),
            slack(displacement),
        ),
    )
}

/// A pull computed from an inverse distance and a displacement is near the exact one.
pub(crate) proof fn lemma_pull_is_near(
    gravity: real,
    mass: real,
    displacement: Binary32,
    softened: Binary32,
    error: real,
    ahead: real,
    distance: real,
)
    requires
        softened.is_finite(),
        softened.root().is_finite(),
        bodies_balance::inverse_of(softened).is_finite(),
        distance > 0 as real,
        size(softened.number() - product(distance, distance)) <= error,
        size(displacement.number() - ahead) <= slack(displacement),
    ensures
        size(
            product(
                product(
                    displacement.number(),
                    product(gravity, cube(bodies_balance::inverse_of(softened).number())),
                ),
                mass,
            ) - pull(gravity, mass, ahead, distance),
        ) <= pull_error(gravity, mass, displacement, softened, error, distance),
{
    let i = bodies_balance::inverse_of(softened).number();
    let j = inverse(distance);
    let gap = inverse_error(softened, error, distance);
    let d = displacement.number();
    lemma_inverse_is_near(softened, error, distance);
    lemma_pull(gravity, mass, ahead, distance);
    let cubes = agreement::cubed_gap(i, j, gap);
    let squares = product(size(i), gap) + product(size(j), gap);
    estimate::lemma_gap_of_products(i, j, gap, i, j, gap);
    estimate::lemma_gap_of_products(product(i, i), product(j, j), squares, i, j, gap);
    assert(size(cube(i) - cube(j)) <= cubes);
    estimate::lemma_product_of_near(gravity, cube(i), cube(j), cubes);
    let (f, h) = (product(gravity, cube(i)), product(gravity, cube(j)));
    estimate::lemma_gap_of_products(
        d,
        ahead,
        slack(displacement),
        f,
        h,
        product(size(gravity), cubes),
    );
    let off = product(size(d), product(size(gravity), cubes)) + product(
        size(h),
        slack(displacement),
    );
    estimate::lemma_product_of_near(mass, product(d, f), product(ahead, h), off);
    estimate::lemma_products_of_three(product(d, f), mass, mass);
    estimate::lemma_products_of_three(product(ahead, h), mass, mass);
}

/// The square of the softened distance does not depend on the direction, and pulls are opposite to
/// it.
pub(crate) proof fn lemma_other_direction<T: Merging>(a: T, b: T, softening_squared: real)
    ensures
        softened_squared(a, b, softening_squared) == softened_squared(b, a, softening_squared),
        forall|gravity: real, mass: real, d: real, distance: real|
            distance > 0 as real ==> #[trigger] pull(gravity, mass, -d, distance) == -pull(
                gravity,
                mass,
                d,
                distance,
            ),
{
    reveal(product);
    let (x, y) = (ahead(a, b, Axis::X), ahead(a, b, Axis::Y));
    assert((-x) * (-x) == x * x && (-y) * (-y) == y * y) by (nonlinear_arith);
    assert forall|gravity: real, mass: real, d: real, distance: real|
        distance > 0 as real implies #[trigger] pull(gravity, mass, -d, distance) == -pull(
        gravity,
        mass,
        d,
        distance,
    ) by {
        lemma_divided_by_cube(product(product(gravity, mass), -d), distance);
        lemma_divided_by_cube(product(product(gravity, mass), d), distance);
        let (w, c) = (gravity * mass, cube(inverse(distance)));
        assert((w * -d) * c == -((w * d) * c)) by (nonlinear_arith);
    }
}

/// Half of a time step, meant to be just that.
pub open spec fn half_estimate(dt: Binary32) -> Estimate {
    Estimate::of(dt).times(Estimate::of(Binary32::from_bits(HALF)))
}

/// Half of a time step is half of it.
pub proof fn lemma_half_estimate(dt: Binary32)
    ensures
        half_estimate(dt).holds(),
        half_estimate(dt).computed == dt * Binary32::from_bits(HALF),
        half_estimate(dt).exact == dt.number() / 2 as real,
{
    reveal(product);
    estimate::law_estimates_hold(Estimate::of(dt), Estimate::of(Binary32::from_bits(HALF)));
    numbers::law_plain_numbers();
    let t = dt.number();
    assert(t * (1 as real / 2 as real) == t / 2 as real) by (nonlinear_arith);
}

} // verus!
