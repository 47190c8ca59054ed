//! How accurate contact, places on the screen and the time of frames are, in plain numbers.

use vstd::prelude::*;
use vstd::arithmetic::power2::*;
use crate::appearance::Screen;
use crate::binary32::{Binary32, HALF};
use crate::bodies::Body;
use crate::collision::{particle_radius, PARTICLE_RADIUS_SCALE};
use crate::contact;
use crate::estimate;
use crate::merge_means;
use crate::merge_means::is_massive;
use crate::merging::Merging;
use crate::moderation;
use crate::moderation::is_moderate;
use crate::numbers;
use crate::radii;
use crate::rounding;
use crate::rounding::{product, size};
use crate::types::Particle;

verus! {

/// What is near a number has a square near its square.
proof fn lemma_square(d: real, e: real, t: real)
    requires
        size(d - e) <= size(e) / 0x10_0000 as real + t,
        t >= 0 as real,
        t * 1152921504606846976 as real <= 1 as real,
        size(e) <= 4294967296 as real,
    ensures
        size(d * d - e * e) <= e * e / 0x4_0000 as real + 1 as real / 0x100_0000 as real,
{
    let (h, b, g) = (size(d - e), size(e), 0x10_0000 as real);
    let top = b / g + t;
    assert(size(d * d - e * e) <= h * (b + b + h)) by (nonlinear_arith)
        requires
            h == size(d - e),
            b == size(e),
    ;
    assert(h * (b + b + h) <= top * (b + b + top)) by (nonlinear_arith)
        requires
            0 as real <= h,
            h <= top,
            b >= 0 as real,
    ;
    let (bb, bt, tt) = (b * b, b * t, t * t);
    assert(top * (b + b + top) == 2 as real * bb / g + bb / (g * g) + 2 as real * bt + 2 as real * bt
        / g + tt) by (nonlinear_arith)
        requires
            top == b / g + t,
            bb == b * b,
            bt == b * t,
            tt == t * t,
            g == 0x10_0000 as real,
    ;
    assert(bt * 0x1000_0000 as real <= 1 as real && tt <= t) by (nonlinear_arith)
        requires
            bt == b * t,
            tt == t * t,
            t >= 0 as real,
            t * 1152921504606846976 as real <= 1 as real,
            b >= 0 as real,
            b <= 4294967296 as real,
    ;
    assert(g * g == 1099511627776 as real);
    assert(bb == e * e && bb >= 0 as real) by (nonlinear_arith)
        requires
            b == size(e),
            bb == b * b,
    ;
}

/// The computed square of what is computed near a number is near the square of the number.
pub(crate) proof fn lemma_computed_square(d: Binary32, e: real, t: real)
    requires
        (d * d).is_finite(),
        size(d.number() - e) <= size(e) / 0x10_0000 as real + t,
        t >= 0 as real,
        t * 1152921504606846976 as real <= 1 as real,
        size(e) <= 4294967296 as real,
    ensures
        size((d * d).number() - product(e, e)) <= product(e, e) / 0x2_0000 as real + 1 as real
            / 0x80_0000 as real,
        product(e, e) >= 0 as real,
{
    reveal(product);
    lemma_square(d.number(), e, t);
    rounding::law_products_are_near(d, d);
    merge_means::lemma_tiny_least();
    assert(e * e >= 0 as real) by (nonlinear_arith);
    let c = (d * d).number();
    let s = d.number() * d.number();
    assert(s >= 0 as real) by (nonlinear_arith)
        requires
            s == d.number() * d.number(),
    ;
}

/// The difference of two moderate numbers.
pub(crate) proof fn lemma_difference(a: Binary32, b: Binary32)
    requires
        is_moderate(a),
        is_moderate(b),
    ensures
        ({
            let (d, e) = (b - a, b.number() - a.number());
            &&& moderation::is_bounded(d, 1, 180)
            &&& size(d.number() - e) <= size(e) / 0x10_0000 as real + rounding::least()
            &&& size(e) <= 4294967296 as real
        }),
{
    moderation::lemma_apart(b, a);
    rounding::law_differences_are_near(b, a);
    merge_means::lemma_tiny_least();
}

/// The computed square of a distance is near the exact one.
proof fn lemma_distance(a: Body, b: Body)
    requires
        is_moderate(a.x),
        is_moderate(a.y),
        is_moderate(b.x),
        is_moderate(b.y),
    ensures
        ({
            let (dx, dy) = a.towards(b);
            let s = dx * dx + dy * dy;
            let exact = contact::distance_squared(a, b);
            &&& s.is_finite()
            &&& exact >= 0 as real
            &&& size(s.number() - exact) <= exact / 0x1_0000 as real + 1 as real / 0x20_0000 as real
        }),
{
    let (dx, dy) = a.towards(b);
    let (ex, ey) = (b.x.number() - a.x.number(), b.y.number() - a.y.number());
    let l = rounding::least();
    merge_means::lemma_tiny_least();
    lemma_difference(a.x, b.x);
    lemma_difference(a.y, b.y);
    moderation::lemma_product(dx, dx, 180, 180, 211);
    moderation::lemma_product(dy, dy, 180, 180, 211);
    moderation::lemma_sum(dx * dx, dy * dy, 1, 1, 211);
    lemma_computed_square(dx, ex, l);
    lemma_computed_square(dy, ey, l);
    rounding::law_sums_are_near(dx * dx, dy * dy);
}

/// A radius is near 0.45 times the root of the mass.
proof fn lemma_radius(mass: Binary32, root: real)
    requires
        is_massive(mass),
        radii::is_root(root, mass.number()),
    ensures
        ({
            let (r, exact) = (particle_radius(mass), product(45 as real / 100 as real, root));
            &&& moderation::is_bounded(r, 1, 169)
            &&& size(r.number() - exact) <= exact / 0x20_0000 as real + rounding::least() * 2 as real
            &&& 0 as real <= exact
            &&& exact <= 65536 as real
        }),
{
    let scale = Binary32::from_bits(PARTICLE_RADIUS_SCALE);
    let computed = mass.root();
    reveal(product);
    merge_means::lemma_tiny_least();
    lemma2_to64();
    numbers::lemma_bits(PARTICLE_RADIUS_SCALE, 25, 0x200_0000);
    moderation::lemma_no_more_than(scale, 0);
    moderation::lemma_root(mass);
    moderation::lemma_product(scale, computed, 149, 169, 169);
    radii::law_roots_are_near_real_roots(mass, root);
    estimate::lemma_roots_are_near(mass);
    rounding::law_products_are_near(scale, computed);
    let (c, r, l) = (scale.number(), computed.number(), rounding::least());
    assert(root <= 65536 as real) by (nonlinear_arith)
        requires
            root >= 0 as real,
            root * root <= 1073741824 as real,
    ;
    assert(size(r - root) <= root * 13 as real / 0x400_0000 as real + l * 2 as real);
    let part = 15099494 as real / 33554432 as real;
    assert(c == part);
    assert(c * r == part * r) by (nonlinear_arith)
        requires
            c == part,
    ;
}

/// The square of what two radii reach is near the exact one.
proof fn lemma_reach(a: Binary32, b: Binary32, root_a: real, root_b: real)
    requires
        is_massive(a),
        is_massive(b),
        radii::is_root(root_a, a.number()),
        radii::is_root(root_b, b.number()),
    ensures
        ({
            let reach = particle_radius(a) + particle_radius(b);
            let exact = contact::reach_squared(root_a, root_b);
            &&& (reach * reach).is_finite()
            &&& exact >= 0 as real
            &&& size((reach * reach).number() - exact) <= exact / 0x2_0000 as real + 1 as real
                / 0x80_0000 as real
        }),
{
    let (r, s) = (particle_radius(a), particle_radius(b));
    let reach = r + s;
    let exact = product(45 as real / 100 as real, root_a + root_b);
    lemma_radius(a, root_a);
    lemma_radius(b, root_b);
    merge_means::lemma_tiny_least();
    moderation::lemma_sum(r, s, 1, 1, 169);
    moderation::lemma_two(reach, 169);
    moderation::lemma_product(reach, reach, 170, 170, 191);
    rounding::law_sums_are_near(r, s);
    estimate::lemma_product_of_sum(45 as real / 100 as real, root_a, root_b);
    lemma_computed_square(reach, exact, rounding::least() * 6 as real);
}

/// Two bodies within two to the 30 of the origin with masses from one to two to the 30 touch where
/// the exact square of their distance is less than the exact square of 0.45 times the sum of the
/// roots of their masses, and do not where it is more, up to a ten-thousandth of either.
pub proof fn law_contact_is_accurate(a: Body, b: Body, root_a: real, root_b: real)
    requires
        is_moderate(a.x),
        is_moderate(a.y),
        is_moderate(b.x),
        is_moderate(b.y),
        is_massive(a.mass),
        is_massive(b.mass),
        radii::is_root(root_a, a.mass.number()),
        radii::is_root(root_b, b.mass.number()),
    ensures
        ({
            let (distance, reach) = (
                contact::distance_squared(a, b),
                contact::reach_squared(root_a, root_b),
            );
            let (more, little) = (10001 as real / 10000 as real, 1 as real / 10000 as real);
            &&& distance * more + little <= reach ==> a.touches(b)
            &&& distance >= reach * more + little ==> !a.touches(b)
        }),
{
    let (dx, dy) = a.towards(b);
    let reach = particle_radius(a.mass) + particle_radius(b.mass);
    lemma_distance(a, b);
    lemma_reach(a.mass, b.mass, root_a, root_b);
    numbers::law_comparisons_order_numbers(dx * dx + dy * dy, reach * reach);
}

/// The same holds of live particles of a compute device.
pub proof fn law_contact_of_particles_is_accurate(
    a: Particle,
    b: Particle,
    root_a: real,
    root_b: real,
)
    requires
        b.alive != 0,
        is_moderate(a.x),
        is_moderate(a.y),
        is_moderate(b.x),
        is_moderate(b.y),
        is_massive(a.mass),
        is_massive(b.mass),
        radii::is_root(root_a, a.mass.number()),
        radii::is_root(root_b, b.mass.number()),
    ensures
        ({
            let (distance, reach) = (
                contact::distance_squared(a.body(), b.body()),
                contact::reach_squared(root_a, root_b),
            );
            let (more, little) = (10001 as real / 10000 as real, 1 as real / 10000 as real);
            &&& distance * more + little <= reach ==> a.touches(b)
            &&& distance >= reach * more + little ==> !a.touches(b)
        }),
{
    let (dx, dy) = a.body().towards(b.body());
    let reach = particle_radius(a.mass) + particle_radius(b.mass);
    lemma_distance(a.body(), b.body());
    lemma_reach(a.mass, b.mass, root_a, root_b);
    numbers::law_comparisons_order_numbers(dx * dx + dy * dy, reach * reach);
}

/// One coordinate on the screen is near the exact one.
proof fn lemma_shown(extent: Binary32, coordinate: Binary32, zoom: Binary32)
    requires
        is_moderate(extent),
        is_moderate(coordinate),
        is_moderate(zoom),
    ensures
        is_shown_at(
            extent * Binary32::from_bits(HALF) + coordinate * zoom,
            extent,
            coordinate,
            zoom,
        ),
{
    let half = Binary32::from_bits(HALF);
    let (middle, ahead) = (extent * half, coordinate * zoom);
    moderation::lemma_shown(extent, coordinate, zoom);
    merge_means::lemma_tiny_least();
    numbers::law_plain_numbers();
    rounding::law_sums_are_near(middle, ahead);
    estimate::lemma_products_are_near(extent, half);
    estimate::lemma_products_are_near(coordinate, zoom);
    reveal(product);
    let e = extent.number();
    assert(e * (1 as real / 2 as real) == e / 2 as real) by (nonlinear_arith);
}

/// A coordinate on the screen is half of the extent of the window and the zoom times a coordinate
/// in the plane, up to a millionth of both and a millionth.
pub open spec fn is_shown_at(shown: Binary32, extent: Binary32, coordinate: Binary32, zoom: Binary32) -> bool {
    let (middle, ahead) = (
        extent.number() / 2 as real,
        product(coordinate.number(), zoom.number()),
    );
    &&& shown.is_finite()
    &&& size(shown.number() - (middle + ahead)) <= (size(middle) + size(ahead) + 1 as real)
        / 1000000 as real
}

/// On a screen of moderate size, every moderate place is shown at the centre of the window and the
/// zoom times its coordinates, along both axes, up to a millionth.
pub proof fn law_places_on_the_screen_are_accurate(screen: Screen, x: Binary32, y: Binary32)
    requires
        is_moderate(screen.width),
        is_moderate(screen.height),
        is_moderate(screen.zoom),
        is_moderate(x),
        is_moderate(y),
    ensures
        is_shown_at(screen.position(x, y).0, screen.width, x, screen.zoom),
        is_shown_at(screen.position(x, y).1, screen.height, y, screen.zoom),
{
    lemma_shown(screen.width, x, screen.zoom);
    lemma_shown(screen.height, y, screen.zoom);
}

} // verus!
