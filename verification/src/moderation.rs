//! Clouds of moderate size never overflow: their accelerations, velocities and places are finite.

use vstd::prelude::*;
use vstd::arithmetic::power2::*;
use crate::agreement;
use crate::appearance::Screen;
use crate::binary32;
use crate::binary32::{Binary32, HALF, ONE, ZERO};
use crate::bodies;
use crate::bodies::{Axis, Body, Coordinate, Pair, GRAVITATIONAL_CONSTANT, GRAVITY_SOFTENING};
use crate::bodies_balance;
use crate::bodies_newton;
use crate::collision::{particle_radius, PARTICLE_RADIUS_SCALE};
use crate::contact;
use crate::estimate;
use crate::frame;
use crate::frame::{FRAME_PHYSICS_MAX, FRAME_TIME_MAX};
use crate::magnitude;
use crate::merging::Merging;
use crate::numbers;
use crate::reference;
use crate::reference_newton;
use crate::rounding;
use crate::rounding::{product, size, slack};
use crate::session::SessionState;
use crate::session_time;
use crate::simd;
use crate::simd::SIMD_LANES;
use crate::simd_balance;
use crate::simd_estimate;
use crate::softening;
use crate::timekeeping;
use crate::types::{Particle, SimParams};
use crate::wasm;
use crate::wasm_balance;

verus! {

/// A finite number of no more than so many units of two to the `q`.
pub open spec fn is_bounded(a: Binary32, k: nat, q: nat) -> bool {
    a.is_finite() && a.units() <= k * pow2(q)
}

/// A larger bound.
pub(crate) proof fn lemma_wider(a: Binary32, q: nat, r: nat)
    requires
        is_bounded(a, 1, q),
        q <= r,
    ensures
        is_bounded(a, 1, r),
{
    if q < r {
        lemma_pow2_strictly_increases(q, r);
    }
}

/// Twice a power of two.
pub(crate) proof fn lemma_two(a: Binary32, q: nat)
    requires
        is_bounded(a, 2, q),
    ensures
        is_bounded(a, 1, q + 1),
{
    lemma_pow2_unfold(q + 1);
}

/// The sum and the difference of two bounded numbers are bounded by the sum of the bounds.
pub(crate) proof fn lemma_sum(a: Binary32, b: Binary32, k: nat, l: nat, q: nat)
    requires
        is_bounded(a, k, q),
        is_bounded(b, l, q),
        k + l <= 0x100_0000,
        q <= 252,
    ensures
        is_bounded(a + b, k + l, q),
        is_bounded(a - b, k + l, q),
{
    let back = b.opposite();
    binary32::lemma_opposite(b);
    lemma_plain_sum(a, b, k, l, q);
    lemma_plain_sum(a, back, k, l, q);
    assert(a - b == a + back) by {
        reveal(Binary32::spec_sub);
    }
}

/// The sum of two bounded numbers is bounded by the sum of the bounds.
proof fn lemma_plain_sum(a: Binary32, b: Binary32, k: nat, l: nat, q: nat)
    requires
        is_bounded(a, k, q),
        is_bounded(b, l, q),
        k + l <= 0x100_0000,
        q <= 252,
    ensures
        is_bounded(a + b, k + l, q),
{
    let w = pow2(q);
    assert((k + l) * w == k * w + l * w) by (nonlinear_arith);
    let top = binary32::lemma_short_magnitude(k + l, q);
    binary32::lemma_rounded_sum(a, b);
    let sum = a.value() + b.value();
    let far = (if sum < 0 {
        -sum
    } else {
        sum
    }) as nat;
    let code = magnitude::round(far, 1);
    magnitude::lemma_round_exact(top);
    magnitude::lemma_round_exists(magnitude::units(top), 1);
    assert(far <= magnitude::units(top));
    magnitude::lemma_round_monotone(far, 1, code, magnitude::units(top), 1, top);
    magnitude::lemma_units_order(top, code);
    magnitude::lemma_units_order(top, (a + b).magnitude() as nat);
}

/// The product of two numbers bounded by powers of two is bounded by the product of the bounds.
pub(crate) proof fn lemma_product(a: Binary32, b: Binary32, p: nat, r: nat, q: nat)
    requires
        is_bounded(a, 1, p),
        is_bounded(b, 1, r),
        q + 149 == p + r,
        q <= 252,
    ensures
        is_bounded(a * b, 1, q),
{
    let n = a.units() * b.units();
    let d = pow2(149);
    lemma_pow2_pos(149);
    lemma_pow2_adds(p, r);
    lemma_pow2_adds(q, 149);
    let (x, y) = (pow2(p), pow2(r));
    assert(n <= x * y) by (nonlinear_arith)
        requires
            n == a.units() * b.units(),
            a.units() <= x,
            b.units() <= y,
    ;
    let top = binary32::lemma_short_magnitude(1, q);
    let code = magnitude::round(n, d);
    magnitude::lemma_round_exists(n, d);
    magnitude::lemma_round_exact(top);
    magnitude::lemma_round_exists(magnitude::units(top), 1);
    magnitude::lemma_round_monotone(n, d, code, magnitude::units(top), 1, top);
    magnitude::lemma_units_order(top, code);
    let negative = a.is_negative() != b.is_negative();
    binary32::lemma_signed(negative, code);
    assert(a * b == Binary32::signed(negative, code)) by {
        reveal(Binary32::spec_mul);
    }
}

/// A finite number whose size is no more than a power of two.
pub(crate) proof fn lemma_no_more_than(a: Binary32, k: nat)
    requires
        a.is_finite(),
        size(a.number()) <= pow2(k) as real,
    ensures
        is_bounded(a, 1, 149 + k),
{
    rounding::lemma_least();
    lemma_pow2_adds(149, k);
    lemma_pow2_pos(149);
    let (v, w, e, p) = (a.value() as real, pow2(149) as real, rounding::least(), pow2(k) as real);
    assert(v <= w * p && -v <= w * p) by (nonlinear_arith)
        requires
            size(v * e) <= p,
            e * w == 1 as real,
            e > 0 as real,
            w > 0 as real,
    ;
    let (m, n) = (pow2(149), pow2(k));
    assert(w * p == (m * n) as real) by (nonlinear_arith)
        requires
            w == m as real,
            p == n as real,
    ;
}

/// The inverse of the root of a number of at least four is no more than one.
pub(crate) proof fn lemma_inverse(s: Binary32)
    requires
        s.is_finite(),
        s.number() >= 4 as real,
    ensures
        s.root().is_finite(),
        is_bounded(bodies_balance::inverse_of(s), 1, 149),
{
    let one = Binary32::from_bits(ONE);
    let zero = Binary32::from_bits(ZERO);
    estimate::lemma_one();
    estimate::lemma_zero();
    estimate::lemma_numbers_are_ordered(s, zero);
    assert(magnitude::units(0) == 0 * pow2(0));
    softening::law_inverse_roots_are_finite(s);
    estimate::lemma_roots_are_near(s);
    let root = s.root();
    let inverse = bodies_balance::inverse_of(s);
    estimate::lemma_quotients_are_near(one, root);
    lemma_small_least();
    let (r, i) = (root.number(), inverse.number());
    let (e, d) = (slack(root), slack(inverse));
    reveal(product);
    assert(r > 3 as real / 2 as real) by {
        if r <= 3 as real / 2 as real {
            assert(e <= 1 as real / 1000 as real);
            assert(e * (r + r + e) <= 1 as real / 100 as real) by (nonlinear_arith)
                requires
                    0 as real <= r <= 3 as real / 2 as real,
                    e > 0 as real,
                    e <= 1 as real / 1000 as real,
            ;
            assert(r * r <= 9 as real / 4 as real) by (nonlinear_arith)
                requires
                    0 as real <= r <= 3 as real / 2 as real,
            ;
        }
    }
    assert(size(i) <= 1 as real) by {
        assert(size(i * r - 1 as real) <= d * r);
        if size(i) > 1 as real {
            let z = size(i);
            assert(d <= z / 1000 as real + 1 as real / 1000 as real);
            assert(size(i * r) == z * r) by (nonlinear_arith)
                requires
                    z == size(i),
                    r > 0 as real,
            ;
            assert(z * r <= 1 as real + d * r);
            assert(false) by (nonlinear_arith)
                requires
                    z * r <= 1 as real + d * r,
                    d <= z / 1000 as real + 1 as real / 1000 as real,
                    z > 1 as real,
                    r > 3 as real / 2 as real,
            ;
        }
    }
    lemma2_to64();
    lemma_no_more_than(inverse, 0);
}

/// The least number is less than a thousandth.
proof fn lemma_small_least()
    ensures
        rounding::least() > 0 as real,
        rounding::least() < 1 as real / 10000 as real,
{
    rounding::lemma_least();
    lemma2_to64();
    lemma_pow2_strictly_increases(32, 149);
    let (e, w) = (rounding::least(), pow2(149) as real);
    assert(w > 10000 as real);
    assert(e < 1 as real / 10000 as real) by (nonlinear_arith)
        requires
            e * w == 1 as real,
            w > 10000 as real,
            e > 0 as real,
    ;
}

/// A finite number between minus and plus two to the 30.
pub open spec fn is_moderate(number: Binary32) -> bool {
    number.is_finite() && size(number.number()) <= 1073741824 as real
}

/// A finite number between minus and plus 256.
pub open spec fn is_short(dt: Binary32) -> bool {
    dt.is_finite() && size(dt.number()) <= 256 as real
}

/// The bodies lie no farther than two to the 30 from the origin along either axis, their masses are
/// no more than two to the 30, and there are no more than two to the 20 of them.
pub open spec fn all_moderate<T: Merging>(bodies: Seq<T>) -> bool {
    &&& bodies.len() <= 0x10_0000
    &&& forall|i: int|
        0 <= i < bodies.len() ==> is_moderate((#[trigger] bodies[i]).along(Coordinate::X))
            && is_moderate(bodies[i].along(Coordinate::Y)) && is_moderate(bodies[i].weight())
}

/// Moderate numbers and short times in units.
pub(crate) proof fn lemma_moderate(a: Binary32)
    ensures
        is_moderate(a) ==> is_bounded(a, 1, 179),
        is_short(a) ==> is_bounded(a, 1, 157),
{
    lemma2_to64();
    if is_moderate(a) {
        lemma_no_more_than(a, 30);
    }
    if is_short(a) {
        lemma_no_more_than(a, 8);
    }
}

/// The square of the softening length is nine, and bounded.
pub(crate) proof fn lemma_softening()
    ensures
        is_bounded(bodies::softening_squared(), 1, 211),
        bodies::softening_squared().number() >= 8 as real,
        is_bounded(Binary32::from_bits(GRAVITATIONAL_CONSTANT), 1, 153),
{
    let three = Binary32::from_bits(GRAVITY_SOFTENING);
    let g = Binary32::from_bits(GRAVITATIONAL_CONSTANT);
    lemma2_to64();
    lemma_pow2_adds(23, 127);
    lemma_pow2_adds(24, 129);
    assert(three.units() == 0xC0_0000 * pow2(127));
    assert(g.units() == 0xF0_0000 * pow2(129));
    lemma_pow2_unfold(151);
    assert(is_bounded(three, 1, 151));
    lemma_product(three, three, 151, 151, 153);
    lemma_wider(bodies::softening_squared(), 153, 211);
    estimate::lemma_products_are_near(three, three);
    numbers::lemma_bits(GRAVITY_SOFTENING, 22, 0x40_0000);
    lemma_small_least();
    let s = bodies::softening_squared().number();
    assert(product(3 as real, 3 as real) == 9 as real) by {
        reveal(product);
        assert(3 as real * 3 as real == 9 as real) by (nonlinear_arith);
    }
}

/// The softened square of a moderate distance does not overflow, in whatever order it is added up,
/// and is no less than four.
pub(crate) proof fn lemma_softened(dx: Binary32, dy: Binary32, c: Binary32)
    requires
        is_bounded(dx, 1, 180),
        is_bounded(dy, 1, 180),
        is_bounded(c, 1, 211),
        c.number() >= 8 as real,
    ensures
        (dx * dx + dy * dy + c).is_finite(),
        (dx * dx + dy * dy + c).number() >= 4 as real,
        (dx * dx + (dy * dy + c)).is_finite(),
        (dx * dx + (dy * dy + c)).number() >= 4 as real,
{
    lemma_product(dx, dx, 180, 180, 211);
    lemma_product(dy, dy, 180, 180, 211);
    lemma_sum(dx * dx, dy * dy, 1, 1, 211);
    lemma_sum(dx * dx + dy * dy, c, 2, 1, 211);
    lemma_sum(dy * dy, c, 1, 1, 211);
    lemma_sum(dx * dx, dy * dy + c, 1, 2, 211);
    softening::law_squares_are_not_negative(dx);
    softening::law_squares_are_not_negative(dy);
    lemma_not_negative(dx * dx);
    lemma_not_negative(dy * dy);
    rounding::law_sums_are_near(dx * dx, dy * dy);
    rounding::law_sums_are_near(dx * dx + dy * dy, c);
    rounding::law_sums_are_near(dy * dy, c);
    rounding::law_sums_are_near(dx * dx, dy * dy + c);
    lemma_small_least();
    lemma_sum_is_at_least((dx * dx).number(), (dy * dy).number(), dx * dx + dy * dy);
    lemma_sum_is_at_least((dx * dx + dy * dy).number(), c.number(), dx * dx + dy * dy + c);
    lemma_sum_is_at_least((dy * dy).number(), c.number(), dy * dy + c);
    lemma_sum_is_at_least((dx * dx).number(), (dy * dy + c).number(), dx * dx + (dy * dy + c));
}

/// Two moderate numbers are no farther apart than twice as much.
pub(crate) proof fn lemma_apart(a: Binary32, b: Binary32)
    requires
        is_moderate(a),
        is_moderate(b),
    ensures
        is_bounded(a - b, 1, 180),
{
    lemma_moderate(a);
    lemma_moderate(b);
    lemma_sum(a, b, 1, 1, 179);
    lemma_two(a - b, 179);
}

/// What has no negative units is not negative.
proof fn lemma_not_negative(a: Binary32)
    requires
        a.value() >= 0,
    ensures
        a.number() >= 0 as real,
{
    rounding::lemma_least();
    let (v, e) = (a.value() as real, rounding::least());
    assert(v * e >= 0 as real) by (nonlinear_arith)
        requires
            v >= 0 as real,
            e > 0 as real,
    ;
}

/// A rounded sum of two numbers that are not negative is not much less than either.
proof fn lemma_sum_is_at_least(x: real, y: real, sum: Binary32)
    requires
        x > -(1 as real) / 100 as real,
        y > -(1 as real) / 100 as real,
        size(sum.number() - (x + y)) <= slack(sum),
        rounding::least() > 0 as real,
        rounding::least() < 1 as real / 10000 as real,
    ensures
        sum.number() >= x * 99 as real / 100 as real - 1 as real / 50 as real,
        sum.number() >= y * 99 as real / 100 as real - 1 as real / 50 as real,
{
}

/// Both coordinates are bounded.
pub open spec fn are_bounded(pair: Pair, k: nat, q: nat) -> bool {
    is_bounded(pair.0, k, q) && is_bounded(pair.1, k, q)
}

/// What one moderate body does to another does not overflow.
proof fn lemma_pull(bodies: Seq<Body>, i: int, j: int, mass: Binary32)
    requires
        all_moderate(bodies),
        0 <= i < bodies.len(),
        0 <= j < bodies.len(),
        is_moderate(mass),
    ensures
        agreement::is_in_range(bodies[i], bodies[j]),
        are_bounded(bodies::pull(bodies[i], bodies[j], mass), 1, 214),
        are_bounded(simd::lane_pull(bodies[i], bodies[j], mass), 1, 214),
{
    let (a, b) = (bodies[i], bodies[j]);
    let (dx, dy) = a.towards(b);
    assert(a.along(Coordinate::X) == a.x && a.along(Coordinate::Y) == a.y);
    assert(b.along(Coordinate::X) == b.x && b.along(Coordinate::Y) == b.y);
    lemma_apart(b.x, a.x);
    lemma_apart(b.y, a.y);
    lemma_moderate(mass);
    lemma_softening();
    lemma_softened(dx, dy, bodies::softening_squared());
    lemma_attraction(bodies_balance::softened(a, b));
    lemma_attraction(simd_estimate::lane_softened(a, b));
    let f = bodies::attraction(bodies_balance::softened(a, b));
    lemma_product(dx, f, 180, 153, 184);
    lemma_product(dy, f, 180, 153, 184);
    lemma_product(dx * f, mass, 184, 179, 214);
    lemma_product(dy * f, mass, 184, 179, 214);
    let g = bodies::attraction(simd_estimate::lane_softened(a, b));
    lemma_product(g, mass, 153, 179, 183);
    lemma_product(dx, g * mass, 180, 183, 214);
    lemma_product(dy, g * mass, 180, 183, 214);
}

/// The factor of attraction is bounded.
proof fn lemma_attraction(s: Binary32)
    requires
        s.is_finite(),
        s.number() >= 4 as real,
    ensures
        is_bounded(bodies::attraction(s), 1, 153),
{
    let inverse = bodies_balance::inverse_of(s);
    lemma_inverse(s);
    lemma_softening();
    lemma_product(inverse, inverse, 149, 149, 149);
    lemma_product(inverse * inverse, inverse, 149, 149, 149);
    lemma_product(
        Binary32::from_bits(GRAVITATIONAL_CONSTANT),
        inverse * inverse * inverse,
        153,
        149,
        153,
    );
}

/// Nothing is bounded by nothing.
pub(crate) proof fn lemma_nothing(q: nat)
    ensures
        are_bounded(bodies::nothing(), 0, q),
{
    assert(magnitude::units(0) == 0 * pow2(0));
}

/// Pairs added and taken away.
proof fn lemma_pairs(a: Pair, b: Pair, k: nat, l: nat)
    requires
        are_bounded(a, k, 214),
        are_bounded(b, l, 214),
        k + l <= 0x100_0000,
    ensures
        are_bounded(bodies::plus(a, b), k + l, 214),
        are_bounded(bodies::minus(a, b), k + l, 214),
{
    lemma_sum(a.0, b.0, k, l, 214);
    lemma_sum(a.1, b.1, k, l, 214);
}

/// What those before it do to a particle of a scalar cloud.
pub(crate) proof fn lemma_reacted(bodies: Seq<Body>, position: int, upto: int)
    requires
        all_moderate(bodies),
        0 <= upto <= position < bodies.len(),
    ensures
        are_bounded(wasm::reacted(bodies, position, upto), upto as nat, 214),
        are_bounded(simd::reacted(bodies, position, upto), upto as nat, 214),
    decreases upto,
{
    if upto == 0 {
        lemma_nothing(214);
    } else {
        let other = bodies[upto - 1];
        lemma_reacted(bodies, position, upto - 1);
        assert(other.weight() == other.mass);
        lemma_pull(bodies, upto - 1, position, other.mass);
        let so_far = (upto - 1) as nat;
        lemma_pairs(
            wasm::reacted(bodies, position, upto - 1),
            bodies::pull(other, bodies[position], other.mass),
            so_far,
            1,
        );
        lemma_pairs(
            simd::reacted(bodies, position, upto - 1),
            simd::met(bodies, upto - 1, position, other.mass),
            so_far,
            1,
        );
    }
}

/// What all others do to a particle of a scalar cloud.
pub(crate) proof fn lemma_attracted(bodies: Seq<Body>, position: int, upto: int)
    requires
        all_moderate(bodies),
        0 <= position < upto <= bodies.len(),
    ensures
        are_bounded(wasm::attracted(bodies, position, upto), upto as nat, 214),
    decreases upto,
{
    if upto == position + 1 {
        lemma_reacted(bodies, position, position);
        lemma_more(wasm::reacted(bodies, position, position), position as nat, upto as nat);
    } else {
        let other = bodies[upto - 1];
        lemma_attracted(bodies, position, upto - 1);
        assert(other.weight() == other.mass);
        lemma_pull(bodies, position, upto - 1, other.mass);
        lemma_pairs(
            wasm::attracted(bodies, position, upto - 1),
            bodies::pull(bodies[position], other, other.mass),
            (upto - 1) as nat,
            1,
        );
    }
}

/// A larger count.
proof fn lemma_more(pair: Pair, k: nat, l: nat)
    requires
        are_bounded(pair, k, 214),
        k <= l,
    ensures
        are_bounded(pair, l, 214),
{
    let w = pow2(214);
    assert(k * w <= l * w) by (nonlinear_arith)
        requires
            k <= l,
    ;
}

/// What one lane sums up.
proof fn lemma_lane_sum(bodies: Seq<Body>, first: int, lane: int, groups: int)
    requires
        all_moderate(bodies),
        0 <= first < bodies.len(),
        0 <= lane < SIMD_LANES,
        0 <= groups,
        first + 1 + SIMD_LANES * groups <= bodies.len(),
    ensures
        are_bounded(simd::lane_sum(bodies, first, lane, groups), groups as nat, 214),
    decreases groups,
{
    if groups == 0 {
        lemma_nothing(214);
    } else {
        let second = first + 1 + SIMD_LANES * (groups - 1) + lane;
        let other = bodies[second];
        lemma_lane_sum(bodies, first, lane, groups - 1);
        assert(other.weight() == other.mass);
        lemma_pull(bodies, first, second, other.mass);
        lemma_pairs(
            simd::lane_sum(bodies, first, lane, groups - 1),
            simd::lane_pull(bodies[first], other, other.mass),
            (groups - 1) as nat,
            1,
        );
    }
}

/// What those met alone do to a particle.
proof fn lemma_rest_sum(bodies: Seq<Body>, first: int, upto: int)
    requires
        all_moderate(bodies),
        0 <= first < bodies.len(),
        0 <= upto <= bodies.len(),
    ensures
        are_bounded(simd::rest_sum(bodies, first, upto), upto as nat, 214),
    decreases upto,
{
    if upto <= simd::lanes_end(first, bodies.len() as int) || upto <= 0 {
        lemma_nothing(214);
        lemma_more(bodies::nothing(), 0, upto as nat);
    } else {
        let other = bodies[upto - 1];
        lemma_rest_sum(bodies, first, upto - 1);
        assert(other.weight() == other.mass);
        lemma_pull(bodies, first, upto - 1, other.mass);
        lemma_pairs(
            simd::rest_sum(bodies, first, upto - 1),
            bodies::pull(bodies[first], other, other.mass),
            (upto - 1) as nat,
            1,
        );
    }
}

/// Eight lanes added up.
proof fn lemma_horizontal(lanes: Seq<Binary32>, k: nat)
    requires
        lanes.len() == 8,
        k <= 0x10_0000,
        forall|i: int| 0 <= i < 8 ==> is_bounded(#[trigger] lanes[i], k, 214),
    ensures
        is_bounded(simd::horizontal_sum(lanes), 8 * k, 214),
{
    lemma_sum(lanes[0], lanes[4], k, k, 214);
    lemma_sum(lanes[2], lanes[6], k, k, 214);
    lemma_sum(lanes[1], lanes[5], k, k, 214);
    lemma_sum(lanes[3], lanes[7], k, k, 214);
    lemma_sum(lanes[0] + lanes[4], lanes[2] + lanes[6], 2 * k, 2 * k, 214);
    lemma_sum(lanes[1] + lanes[5], lanes[3] + lanes[7], 2 * k, 2 * k, 214);
    lemma_sum(
        (lanes[0] + lanes[4]) + (lanes[2] + lanes[6]),
        (lanes[1] + lanes[5]) + (lanes[3] + lanes[7]),
        4 * k,
        4 * k,
        214,
    );
}

/// What the lanes sum up, added up.
proof fn lemma_lanes(bodies: Seq<Body>, position: int, groups: int)
    requires
        all_moderate(bodies),
        0 <= position < bodies.len(),
        0 <= groups,
        position + 1 + 8 * groups <= bodies.len(),
    ensures
        is_bounded(
            simd::horizontal_sum(
                Seq::new(
                    SIMD_LANES as nat,
                    |lane: int| simd::lane_sum(bodies, position, lane, groups).0,
                ),
            ),
            8 * (groups as nat),
            214,
        ),
        is_bounded(
            simd::horizontal_sum(
                Seq::new(
                    SIMD_LANES as nat,
                    |lane: int| simd::lane_sum(bodies, position, lane, groups).1,
                ),
            ),
            8 * (groups as nat),
            214,
        ),
{
    let lanes_x = Seq::new(
        SIMD_LANES as nat,
        |lane: int| simd::lane_sum(bodies, position, lane, groups).0,
    );
    let lanes_y = Seq::new(
        SIMD_LANES as nat,
        |lane: int| simd::lane_sum(bodies, position, lane, groups).1,
    );
    assert forall|lane: int| 0 <= lane < 8 implies is_bounded(
        #[trigger] lanes_x[lane],
        groups as nat,
        214,
    ) by {
        lemma_lane_sum(bodies, position, lane, groups);
    }
    assert forall|lane: int| 0 <= lane < 8 implies is_bounded(
        #[trigger] lanes_y[lane],
        groups as nat,
        214,
    ) by {
        lemma_lane_sum(bodies, position, lane, groups);
    }
    lemma_horizontal(lanes_x, groups as nat);
    lemma_horizontal(lanes_y, groups as nat);
}

/// What those behind it do to a particle of an eight-lane cloud.
proof fn lemma_lanes_attracted(bodies: Seq<Body>, position: int)
    requires
        all_moderate(bodies),
        0 <= position < bodies.len(),
    ensures
        are_bounded(simd::attracted(bodies, position), 2 * bodies.len(), 214),
{
    let count = bodies.len() as int;
    let groups = (count - position - 1) / SIMD_LANES as int;
    let rest = simd::rest_sum(bodies, position, count);
    assert(0 <= 8 * groups <= count - position - 1);
    lemma_lanes(bodies, position, groups);
    lemma_rest_sum(bodies, position, count);
    let lanes_x = Seq::new(
        SIMD_LANES as nat,
        |lane: int| simd::lane_sum(bodies, position, lane, groups).0,
    );
    let lanes_y = Seq::new(
        SIMD_LANES as nat,
        |lane: int| simd::lane_sum(bodies, position, lane, groups).1,
    );
    let sums = (simd::horizontal_sum(lanes_x), simd::horizontal_sum(lanes_y));
    let all = simd::attracted(bodies, position);
    assert(all == bodies::plus(sums, rest));
    lemma_pairs(sums, rest, 8 * (groups as nat), bodies.len());
    lemma_more(all, 8 * (groups as nat) + bodies.len(), 2 * bodies.len());
}

/// What all others do to a particle of an eight-lane cloud.
proof fn lemma_lane_acceleration(bodies: Seq<Body>, position: int)
    requires
        all_moderate(bodies),
        0 <= position < bodies.len(),
    ensures
        are_bounded(simd::acceleration(bodies, position), 3 * bodies.len(), 214),
{
    let reacted = simd::reacted(bodies, position, position);
    let attracted = simd::attracted(bodies, position);
    lemma_lanes_attracted(bodies, position);
    lemma_reacted(bodies, position, position);
    lemma_pairs(reacted, attracted, position as nat, 2 * bodies.len());
    lemma_more(
        bodies::plus(reacted, attracted),
        position as nat + 2 * bodies.len(),
        3 * bodies.len(),
    );
}

/// Half a kick, in the two orders in which it is multiplied, and a move.
pub(crate) proof fn lemma_step(
    velocity: Binary32,
    acceleration: Binary32,
    place: Binary32,
    dt: Binary32,
)
    requires
        is_bounded(velocity, 1, 241),
        is_bounded(acceleration, 0x40_0000, 214),
        is_bounded(place, 1, 250),
        is_short(dt),
    ensures
        ({
            let half = Binary32::from_bits(HALF);
            let at_once = velocity + acceleration * (dt * half);
            let in_turn = velocity + acceleration * dt * half;
            &&& is_bounded(at_once, 1, 244)
            &&& is_bounded(in_turn, 1, 244)
            &&& (place + at_once * dt).is_finite()
            &&& (place + in_turn * dt).is_finite()
        }),
{
    let half = Binary32::from_bits(HALF);
    lemma2_to64();
    lemma_pow2_adds(22, 214);
    lemma_half();
    lemma_moderate(dt);
    lemma_product(dt, half, 157, 148, 156);
    lemma_product(acceleration, dt * half, 236, 156, 243);
    lemma_product(acceleration, dt, 236, 157, 244);
    lemma_product(acceleration * dt, half, 244, 148, 243);
    lemma_wider(velocity, 241, 243);
    let at_once = velocity + acceleration * (dt * half);
    let in_turn = velocity + acceleration * dt * half;
    lemma_sum(velocity, acceleration * (dt * half), 1, 1, 243);
    lemma_sum(velocity, acceleration * dt * half, 1, 1, 243);
    lemma_two(at_once, 243);
    lemma_two(in_turn, 243);
    lemma_product(at_once, dt, 244, 157, 252);
    lemma_product(in_turn, dt, 244, 157, 252);
    lemma_wider(place, 250, 252);
    lemma_sum(place, at_once * dt, 1, 1, 252);
    lemma_sum(place, in_turn * dt, 1, 1, 252);
}

/// One half in units.
pub(crate) proof fn lemma_half()
    ensures
        is_bounded(Binary32::from_bits(HALF), 1, 148),
{
    lemma2_to64();
    lemma_pow2_adds(23, 125);
    assert(Binary32::from_bits(HALF).units() == 0x80_0000 * pow2(125));
}

/// No velocity along an axis is more than two to the 90.
pub open spec fn is_slow(velocity: Binary32) -> bool {
    velocity.is_finite() && size(velocity.number()) <= pow2(90) as real
}

/// The distances of a moderate cloud do not overflow, whatever the kind of the cloud, and its
/// accelerations are finite.
pub proof fn law_moderate_clouds_have_finite_accelerations(bodies: Seq<Body>, position: int, axis: Axis)
    requires
        all_moderate(bodies),
        0 <= position < bodies.len(),
    ensures
        bodies_newton::all_in_range(bodies),
        axis.of(wasm::accelerations_of(bodies)[position]).is_finite(),
        axis.of(simd::acceleration(bodies, position)).is_finite(),
        is_bounded(axis.of(wasm::accelerations_of(bodies)[position]), 0x40_0000, 214),
        is_bounded(axis.of(simd::acceleration(bodies, position)), 0x40_0000, 214),
{
    assert forall|i: int, j: int| 0 <= i < j < bodies.len() implies agreement::is_in_range(
        #[trigger] bodies[i],
        #[trigger] bodies[j],
    ) by {
        assert(bodies[j].weight() == bodies[j].mass);
        lemma_pull(bodies, i, j, bodies[j].mass);
    }
    let count = bodies.len() as int;
    lemma_attracted(bodies, position, count);
    lemma_more(wasm::attracted(bodies, position, count), bodies.len(), 0x40_0000);
    lemma_lane_acceleration(bodies, position);
    lemma_more(simd::acceleration(bodies, position), 3 * bodies.len(), 0x40_0000);
}

/// The first half of a step of a moderate cloud overflows nowhere: the velocities after the kick and
/// the places after the move are finite.
pub proof fn law_moderate_clouds_move_to_finite_places(
    bodies: Seq<Body>,
    dt: Binary32,
    position: int,
    axis: Axis,
)
    requires
        all_moderate(bodies),
        0 <= position < bodies.len(),
        is_slow(bodies[position].along(axis.velocity())),
        is_short(dt),
    ensures
        wasm_balance::there(bodies, dt)[position].along(axis.velocity()).is_finite(),
        wasm_balance::there(bodies, dt)[position].along(axis.place()).is_finite(),
        simd_balance::there(bodies, dt)[position].along(axis.velocity()).is_finite(),
        simd_balance::there(bodies, dt)[position].along(axis.place()).is_finite(),
{
    let (v, x) = (bodies[position].along(axis.velocity()), bodies[position].along(axis.place()));
    law_moderate_clouds_have_finite_accelerations(bodies, position, axis);
    lemma_no_more_than(v, 90);
    lemma_wider(v, 239, 241);
    lemma_moderate(x);
    lemma_wider(x, 179, 250);
    lemma_step(v, axis.of(wasm::accelerations_of(bodies)[position]), x, dt);
    lemma_step(v, axis.of(simd::acceleration(bodies, position)), x, dt);
}

/// The second half of a step overflows nowhere where the cloud that is left after the merging is
/// moderate: the velocities after the step are finite.
pub proof fn law_moderate_clouds_end_with_finite_velocities(
    bodies: Seq<Body>,
    dt: Binary32,
    position: int,
    axis: Axis,
)
    requires
        is_short(dt),
    ensures
        ({
            let left = wasm::drifted(bodies, dt);
            all_moderate(left) && 0 <= position < left.len() && is_slow(
                left[position].along(axis.velocity()),
            ) ==> bodies_newton::all_in_range(wasm::updated(bodies, dt)) && wasm::updated(
                bodies,
                dt,
            )[position].along(axis.velocity()).is_finite()
        }),
        ({
            let left = simd::drifted(bodies, dt);
            all_moderate(left) && 0 <= position < left.len() && is_slow(
                left[position].along(axis.velocity()),
            ) ==> bodies_newton::all_in_range(simd::updated(bodies, dt)) && simd::updated(
                bodies,
                dt,
            )[position].along(axis.velocity()).is_finite()
        }),
{
    let zero = Binary32::from_bits(ZERO);
    lemma_nothing(250);
    let left = wasm::drifted(bodies, dt);
    if all_moderate(left) && 0 <= position < left.len() && is_slow(
        left[position].along(axis.velocity()),
    ) {
        let v = left[position].along(axis.velocity());
        law_moderate_clouds_have_finite_accelerations(left, position, axis);
        lemma_no_more_than(v, 90);
        lemma_wider(v, 239, 241);
        lemma_step(v, axis.of(wasm::accelerations_of(left)[position]), zero, dt);
        lemma_same_range(left, wasm::updated(bodies, dt));
    }
    let left = simd::drifted(bodies, dt);
    if all_moderate(left) && 0 <= position < left.len() && is_slow(
        left[position].along(axis.velocity()),
    ) {
        let v = left[position].along(axis.velocity());
        law_moderate_clouds_have_finite_accelerations(left, position, axis);
        lemma_no_more_than(v, 90);
        lemma_wider(v, 239, 241);
        lemma_step(v, axis.of(simd::acceleration(left, position)), zero, dt);
        lemma_same_range(left, simd::updated(bodies, dt));
    }
}

/// Bodies in the same places are as far apart.
proof fn lemma_same_range(a: Seq<Body>, b: Seq<Body>)
    requires
        a.len() == b.len(),
        forall|i: int|
            0 <= i < a.len() ==> (#[trigger] a[i]).x == b[i].x && a[i].y == b[i].y,
        bodies_newton::all_in_range(a),
    ensures
        bodies_newton::all_in_range(b),
{
    assert forall|i: int, j: int| 0 <= i < j < b.len() implies agreement::is_in_range(
        #[trigger] b[i],
        #[trigger] b[j],
    ) by {
        assert(a[i].x == b[i].x && a[i].y == b[i].y && a[j].x == b[j].x && a[j].y == b[j].y);
        assert(agreement::is_in_range(a[i], a[j]));
    }
}

/// The parameters of a compute device are moderate: the gravity is no more than 16, the square of
/// the softening length no less than 8 and no more than two to the 30, and the time is short.
pub open spec fn are_moderate(params: SimParams) -> bool {
    &&& params.gravity.is_finite()
    &&& size(params.gravity.number()) <= 16 as real
    &&& is_moderate(params.softening_squared)
    &&& params.softening_squared.number() >= 8 as real
    &&& is_short(params.dt)
}

/// What one moderate particle of a compute device does to another does not overflow.
proof fn lemma_device_pull(particles: Seq<Particle>, i: int, j: int, params: SimParams, sum: Pair, k: nat)
    requires
        all_moderate(particles),
        are_moderate(params),
        0 <= i < particles.len(),
        0 <= j < particles.len(),
        are_bounded(sum, k, 214),
        k < 0x100_0000,
    ensures
        reference_newton::is_in_range(particles[i], particles[j], params),
        are_bounded(particles[i].pulled(particles[j], params, sum), k + 1, 214),
{
    let (a, b) = (particles[i], particles[j]);
    let (dx, dy) = (b.x - a.x, b.y - a.y);
    let c = params.softening_squared;
    assert(a.along(Coordinate::X) == a.x && a.along(Coordinate::Y) == a.y);
    assert(b.along(Coordinate::X) == b.x && b.along(Coordinate::Y) == b.y);
    assert(b.weight() == b.mass);
    lemma_apart(b.x, a.x);
    lemma_apart(b.y, a.y);
    lemma_moderate(b.mass);
    lemma_moderate(c);
    lemma_wider(c, 179, 211);
    lemma_softened(dx, dy, c);
    let s = dx * dx + dy * dy + c;
    lemma_inverse(s);
    lemma_positive(s);
    lemma2_to64();
    lemma_no_more_than(params.gravity, 4);
    let inverse = bodies_balance::inverse_of(s);
    let f = params.gravity * b.mass;
    lemma_product(params.gravity, b.mass, 153, 179, 183);
    lemma_product(f, inverse, 183, 149, 183);
    lemma_product(f * inverse, inverse, 183, 149, 183);
    lemma_product(f * inverse * inverse, inverse, 183, 149, 183);
    lemma_product(dx, f * inverse * inverse * inverse, 180, 183, 214);
    lemma_product(dy, f * inverse * inverse * inverse, 180, 183, 214);
    lemma_sum(sum.0, dx * (f * inverse * inverse * inverse), k, 1, 214);
    lemma_sum(sum.1, dy * (f * inverse * inverse * inverse), k, 1, 214);
}

/// What the first particles of a compute device do to one of them.
proof fn lemma_pull_of_first(particles: Seq<Particle>, target: int, upto: int, params: SimParams)
    requires
        all_moderate(particles),
        are_moderate(params),
        0 <= target < particles.len(),
        0 <= upto <= particles.len(),
    ensures
        are_bounded(
            reference::pull_of_first(particles, target, upto, params),
            upto as nat,
            214,
        ),
    decreases upto,
{
    if upto == 0 {
        lemma_nothing(214);
    } else {
        let sum = reference::pull_of_first(particles, target, upto - 1, params);
        lemma_pull_of_first(particles, target, upto - 1, params);
        lemma_device_pull(particles, target, upto - 1, params, sum, (upto - 1) as nat);
        lemma_more(sum, (upto - 1) as nat, upto as nat);
    }
}

/// The distances of moderate particles of a compute device neither overflow nor vanish, and their
/// accelerations, the velocities after half a kick and the places after the move are finite.
pub proof fn law_moderate_device_particles_do_not_overflow(
    particles: Seq<Particle>,
    params: SimParams,
    target: int,
    axis: Axis,
)
    requires
        all_moderate(particles),
        are_moderate(params),
        0 <= target < particles.len(),
        is_slow(particles[target].along(axis.velocity())),
    ensures
        forall|j: int|
            0 <= j < particles.len() ==> reference_newton::is_in_range(
                particles[target],
                #[trigger] particles[j],
                params,
            ),
        axis.of(reference::acceleration(particles, target, params)).is_finite(),
        reference::drifted(particles, params)[target].along(axis.velocity()).is_finite(),
        reference::drifted(particles, params)[target].along(axis.place()).is_finite(),
        reference::finished(particles, params)[target].along(axis.velocity()).is_finite(),
{
    lemma_nothing(214);
    assert forall|j: int| 0 <= j < particles.len() implies reference_newton::is_in_range(
        particles[target],
        #[trigger] particles[j],
        params,
    ) by {
        lemma_device_pull(particles, target, j, params, bodies::nothing(), 0);
    }
    let upto = reference::taking_part(particles, params);
    lemma_pull_of_first(particles, target, upto, params);
    lemma_more(
        reference::pull_of_first(particles, target, upto, params),
        upto as nat,
        0x40_0000,
    );
    lemma_more(bodies::nothing(), 0, 0x40_0000);
    let a = reference::acceleration(particles, target, params);
    let (v, x) = (particles[target].along(axis.velocity()), particles[target].along(axis.place()));
    lemma_no_more_than(v, 90);
    lemma_wider(v, 239, 241);
    lemma_moderate(x);
    lemma_wider(x, 179, 250);
    binary32::law_multiplication_commutes(Binary32::from_bits(HALF), params.dt);
    lemma_step(v, axis.of(a), x, params.dt);
}

/// The root of a moderate number greater than zero is bounded.
pub(crate) proof fn lemma_root(a: Binary32)
    requires
        is_moderate(a),
        a.number() > 0 as real,
    ensures
        is_bounded(a.root(), 1, 169),
{
    lemma_positive(a);
    softening::law_inverse_roots_are_finite(a);
    estimate::lemma_roots_are_near(a);
    lemma_small_least();
    lemma2_to64();
    reveal(product);
    let root = a.root();
    let (r, e) = (root.number(), slack(root));
    if r > 1048576 as real {
        assert(e <= r / 500 as real);
        assert(e * (r + r + e) <= r * r / 100 as real) by (nonlinear_arith)
            requires
                e > 0 as real,
                e <= r / 500 as real,
        ;
        assert(r * r > 1048576 as real * r) by (nonlinear_arith)
            requires
                r > 1048576 as real,
        ;
        assert(false);
    }
    lemma_no_more_than(root, 20);
}

/// What is greater than zero has units.
proof fn lemma_positive(a: Binary32)
    requires
        a.number() > 0 as real,
    ensures
        a.value() > 0,
{
    if a.value() <= 0 {
        lemma_not_negative(a.opposite());
        binary32::lemma_opposite(a);
        estimate::lemma_opposite_numbers(a, a.opposite());
    }
}

/// Neither the distance nor the reach of two moderate bodies with masses greater than zero
/// overflows.
pub proof fn law_moderate_bodies_can_meet(bodies: Seq<Body>, i: int, j: int)
    requires
        all_moderate(bodies),
        0 <= i < bodies.len(),
        0 <= j < bodies.len(),
        bodies[i].mass.number() > 0 as real,
        bodies[j].mass.number() > 0 as real,
    ensures
        contact::is_in_range(bodies[i], bodies[j]),
{
    let (a, b) = (bodies[i], bodies[j]);
    let (dx, dy) = a.towards(b);
    let scale = Binary32::from_bits(PARTICLE_RADIUS_SCALE);
    assert(a.along(Coordinate::X) == a.x && a.along(Coordinate::Y) == a.y && a.weight() == a.mass);
    assert(b.along(Coordinate::X) == b.x && b.along(Coordinate::Y) == b.y && b.weight() == b.mass);
    lemma_apart(b.x, a.x);
    lemma_apart(b.y, a.y);
    lemma_product(dx, dx, 180, 180, 211);
    lemma_product(dy, dy, 180, 180, 211);
    lemma_sum(dx * dx, dy * dy, 1, 1, 211);
    lemma2_to64();
    numbers::lemma_bits(PARTICLE_RADIUS_SCALE, 25, 0x200_0000);
    lemma_no_more_than(scale, 0);
    lemma_root(a.mass);
    lemma_root(b.mass);
    lemma_product(scale, a.mass.root(), 149, 169, 169);
    lemma_product(scale, b.mass.root(), 149, 169, 169);
    let reach = particle_radius(a.mass) + particle_radius(b.mass);
    lemma_sum(particle_radius(a.mass), particle_radius(b.mass), 1, 1, 169);
    lemma_two(reach, 169);
    lemma_product(reach, reach, 170, 170, 191);
}

/// The product of two moderate numbers, and a moderate number added to it, are finite.
proof fn lemma_sum_of_product(a: Binary32, b: Binary32, c: Binary32)
    requires
        is_moderate(a),
        is_moderate(b),
        is_moderate(c),
    ensures
        (a + b * c).is_finite(),
{
    lemma_moderate(a);
    lemma_moderate(b);
    lemma_moderate(c);
    lemma_product(b, c, 179, 179, 209);
    lemma_wider(a, 179, 209);
    lemma_sum(a, b * c, 1, 1, 209);
}

/// Moderate times and time scales save up a finite time.
pub proof fn law_moderate_frames_save_up_a_finite_time(
    saved: Binary32,
    frame_time: Binary32,
    limit: Binary32,
    time_scale: Binary32,
)
    requires
        is_moderate(saved),
        is_moderate(frame_time),
        is_moderate(limit),
        is_moderate(time_scale),
    ensures
        frame::saved_up(saved, frame_time, limit, time_scale).is_finite(),
{
    numbers::law_lesser_and_greater(frame_time, limit);
    lemma_sum_of_product(saved, frame_time.min(limit), time_scale);
}

/// A session has a finite time to spend in any frame with a moderate time and a moderate scale.
pub proof fn law_moderate_sessions_have_a_finite_time_to_spend(state: SessionState, frame_time: Binary32)
    requires
        is_moderate(state.saved),
        is_moderate(state.controls.time_scale),
        is_moderate(frame_time),
    ensures
        session_time::time_to_spend(state, frame_time).is_finite(),
{
    let most = Binary32::from_bits(FRAME_TIME_MAX);
    let limit = Binary32::from_bits(FRAME_PHYSICS_MAX);
    timekeeping::law_times_are_as_documented();
    lemma2_to64();
    numbers::lemma_bits(FRAME_TIME_MAX, 27, 0x800_0000);
    numbers::lemma_bits(FRAME_PHYSICS_MAX, 28, 0x1000_0000);
    numbers::law_lesser_and_greater(frame_time, most);
    law_moderate_frames_save_up_a_finite_time(
        state.saved,
        frame_time.min(most),
        limit,
        state.controls.time_scale,
    );
}

/// Moderate places have finite coordinates on a moderate screen.
pub proof fn law_moderate_places_are_shown(screen: Screen, x: Binary32, y: Binary32)
    requires
        is_moderate(screen.width),
        is_moderate(screen.height),
        is_moderate(screen.zoom),
        is_moderate(x),
        is_moderate(y),
    ensures
        screen.position(x, y).0.is_finite(),
        screen.position(x, y).1.is_finite(),
{
    lemma_shown(screen.width, x, screen.zoom);
    lemma_shown(screen.height, y, screen.zoom);
}

/// One coordinate on the screen.
pub(crate) proof fn lemma_shown(extent: Binary32, coordinate: Binary32, zoom: Binary32)
    requires
        is_moderate(extent),
        is_moderate(coordinate),
        is_moderate(zoom),
    ensures
        (extent * Binary32::from_bits(HALF) + coordinate * zoom).is_finite(),
{
    let middle = extent * Binary32::from_bits(HALF);
    lemma_half();
    lemma_moderate(extent);
    lemma_moderate(coordinate);
    lemma_moderate(zoom);
    lemma_product(extent, Binary32::from_bits(HALF), 179, 148, 178);
    lemma_product(coordinate, zoom, 179, 179, 209);
    lemma_wider(middle, 178, 209);
    lemma_sum(middle, coordinate * zoom, 1, 1, 209);
}

} // verus!
