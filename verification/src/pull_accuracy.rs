//! How accurate the pull of one body on another is, in plain numbers.

use vstd::prelude::*;
use vstd::arithmetic::power2::*;
use crate::accuracy;
use crate::binary32::{Binary32, ONE};
use crate::bodies;
use crate::bodies::{Axis, Body, GRAVITATIONAL_CONSTANT, GRAVITY_SOFTENING};
use crate::bodies_balance;
use crate::estimate;
use crate::merging::Merging;
use crate::moderation;
use crate::moderation::is_moderate;
use crate::newton;
use crate::numbers;
use crate::rounding;
use crate::rounding::{product, size, slack};
use crate::simd;
use crate::simd_estimate;

verus! {

/// The spacing of the least numbers is no more than two to the minus 128.
proof fn lemma_least()
    ensures
        rounding::least() > 0 as real,
        rounding::least() * 340282366920938463463374607431768211456 as real <= 1 as real,
{
    rounding::lemma_least();
    lemma2_to64();
    lemma_pow2_adds(64, 64);
    lemma_pow2_strictly_increases(128, 149);
    let (e, w) = (rounding::least(), pow2(149) as real);
    assert(w > 340282366920938463463374607431768211456 as real);
    assert(e * 340282366920938463463374607431768211456 as real <= 1 as real) by (nonlinear_arith)
        requires
            e * w == 1 as real,
            w > 340282366920938463463374607431768211456 as real,
            e > 0 as real,
    ;
}

/// A computed product of two numbers near positive ones is near the product.
proof fn lemma_times(c: real, x: real, a: real, d: real, y: real, b: real, p: real, l: real)
    requires
        size(c - x) <= a * x,
        size(d - y) <= b * y,
        x > 0 as real,
        y > 0 as real,
        0 as real <= a,
        a <= 1 as real / 256 as real,
        0 as real <= b,
        b <= 1 as real / 256 as real,
        size(p - c * d) <= size(p) / 0x100_0000 as real + l / 2 as real,
        l > 0 as real,
        l * 0x100_0000 as real <= x * y,
    ensures
        size(p - x * y) <= (a + b + b / 256 as real + 1 as real / 0x10_0000 as real) * (x * y),
{
    let (z, g, h) = (x * y, c - x, d - y);
    assert(c * d - z == g * d + x * h) by (nonlinear_arith)
        requires
            z == x * y,
            g == c - x,
            h == d - y,
    ;
    assert(size(g * d) <= a * z + a * (b * z)) by (nonlinear_arith)
        requires
            size(g) <= a * x,
            size(d - y) <= b * y,
            z == x * y,
            x > 0 as real,
            y > 0 as real,
            a >= 0 as real,
            b >= 0 as real,
    ;
    assert(size(x * h) <= b * z) by (nonlinear_arith)
        requires
            size(h) <= b * y,
            z == x * y,
            x > 0 as real,
    ;
    let w = b * z;
    assert(w >= 0 as real && w <= z / 256 as real) by (nonlinear_arith)
        requires
            w == b * z,
            z > 0 as real,
            0 as real <= b,
            b <= 1 as real / 256 as real,
    ;
    assert(z > 0 as real) by (nonlinear_arith)
        requires
            z == x * y,
            x > 0 as real,
            y > 0 as real,
    ;
    assert(a * w <= w / 256 as real && a * z <= z / 256 as real) by (nonlinear_arith)
        requires
            w >= 0 as real,
            z > 0 as real,
            a <= 1 as real / 256 as real,
    ;
    assert((a + b + b / 256 as real + 1 as real / 0x10_0000 as real) * z == a * z + w + w / 256 as real
        + z / 0x10_0000 as real) by (nonlinear_arith)
        requires
            w == b * z,
    ;
}

/// The softened square of a distance is near the exact one, in whatever order it is added up.
proof fn lemma_softened(a: Body, b: Body)
    requires
        is_moderate(a.x),
        is_moderate(a.y),
        is_moderate(b.x),
        is_moderate(b.y),
    ensures
        ({
            let exact = newton::softened_squared(a, b, 9 as real);
            let (s, t) = (bodies_balance::softened(a, b), simd_estimate::lane_softened(a, b));
            &&& exact >= 9 as real
            &&& exact <= 18446744073709551616 as real
            &&& s.is_finite()
            &&& t.is_finite()
            &&& size(s.number() - exact) <= exact / 0x8000 as real
            &&& size(t.number() - exact) <= exact / 0x8000 as real
        }),
{
    let (dx, dy) = a.towards(b);
    let (ex, ey) = (newton::ahead(a, b, Axis::X), newton::ahead(a, b, Axis::Y));
    let three = Binary32::from_bits(GRAVITY_SOFTENING);
    let c = bodies::softening_squared();
    let l = rounding::least();
    lemma_least();
    assert(ex == b.x.number() - a.x.number() && ey == b.y.number() - a.y.number());
    accuracy::lemma_difference(a.x, b.x);
    accuracy::lemma_difference(a.y, b.y);
    moderation::lemma_softening();
    moderation::lemma_softened(dx, dy, c);
    moderation::lemma_product(dx, dx, 180, 180, 211);
    moderation::lemma_product(dy, dy, 180, 180, 211);
    accuracy::lemma_computed_square(dx, ex, l);
    accuracy::lemma_computed_square(dy, ey, l);
    estimate::lemma_products_are_near(three, three);
    lemma2_to64();
    numbers::lemma_bits(GRAVITY_SOFTENING, 22, 0x40_0000);
    assert(product(3 as real, 3 as real) == 9 as real) by {
        reveal(product);
        assert(3 as real * 3 as real == 9 as real) by (nonlinear_arith);
    }
    assert(product(ex, ex) <= 4611686018427387904 as real && product(ey, ey)
        <= 4611686018427387904 as real) by {
        reveal(product);
        assert(size(ex) <= 2147483648 as real && size(ey) <= 2147483648 as real);
        lemma_square_is_bounded(ex);
        lemma_square_is_bounded(ey);
    }
    moderation::lemma_sum(dx * dx, dy * dy, 1, 1, 211);
    moderation::lemma_sum(dy * dy, c, 1, 1, 211);
    rounding::law_sums_are_near(dx * dx, dy * dy);
    rounding::law_sums_are_near(dx * dx + dy * dy, c);
    rounding::law_sums_are_near(dy * dy, c);
    rounding::law_sums_are_near(dx * dx, dy * dy + c);
}

/// The square of a number of no more than two to the 31.
proof fn lemma_square_is_bounded(e: real)
    requires
        size(e) <= 2147483648 as real,
    ensures
        e * e <= 4611686018427387904 as real,
{
    assert(e * e <= 4611686018427387904 as real) by (nonlinear_arith)
        requires
            size(e) <= 2147483648 as real,
    ;
}

/// The inverse of the root of what is near the square of a distance is near the inverse of the
/// distance.
proof fn lemma_inverse(s: Binary32, exact: real, distance: real, v: real)
    requires
        s.is_finite(),
        exact >= 9 as real,
        exact <= 18446744073709551616 as real,
        size(s.number() - exact) <= exact / 0x8000 as real,
        distance > 0 as real,
        distance * distance == exact,
        v * distance == 1 as real,
    ensures
        size(bodies_balance::inverse_of(s).number() - v) <= v / 0x2000 as real,
        moderation::is_bounded(bodies_balance::inverse_of(s), 1, 149),
        v > 0 as real,
        v <= 1 as real / 3 as real,
        v * 4294967296 as real >= 1 as real,
{
    let (root, inverse) = (s.root(), bodies_balance::inverse_of(s));
    let one = Binary32::from_bits(ONE);
    lemma_least();
    moderation::lemma_inverse(s);
    estimate::lemma_one();
    estimate::lemma_roots_are_near(s);
    rounding::law_quotients_are_near(one, root);
    reveal(product);
    let (r, i, d, l) = (root.number(), inverse.number(), distance, rounding::least());
    assert(v > 0 as real && d >= 3 as real && d <= 4294967296 as real) by (nonlinear_arith)
        requires
            v * d == 1 as real,
            d > 0 as real,
            d * d >= 9 as real,
            d * d <= 18446744073709551616 as real,
    ;
    assert(v <= 1 as real / 3 as real && v * 4294967296 as real >= 1 as real) by (nonlinear_arith)
        requires
            v * d == 1 as real,
            v > 0 as real,
            d >= 3 as real,
            d <= 4294967296 as real,
    ;
    let (e, q) = (slack(root), r * r);
    if r < 1 as real {
        assert(e <= 1 as real / 1000 as real);
        assert(e * (r + r + e) <= 1 as real / 100 as real) by (nonlinear_arith)
            requires
                0 as real <= r,
                r <= 1 as real,
                e > 0 as real,
                e <= 1 as real / 1000 as real,
        ;
        assert(q <= 1 as real) by (nonlinear_arith)
            requires
                q == r * r,
                0 as real <= r,
                r <= 1 as real,
        ;
        assert(false);
    }
    assert(e <= r / 0x80_0000 as real);
    assert(e * (r + r + e) <= q / 0x20_0000 as real) by (nonlinear_arith)
        requires
            e > 0 as real,
            e <= r / 0x80_0000 as real,
            q == r * r,
            r >= 1 as real,
    ;
    assert(size(q - exact) <= exact / 0x4000 as real);
    assert(size(r - d) <= d / 0x4000 as real) by (nonlinear_arith)
        requires
            size(q - exact) <= exact / 0x4000 as real,
            q == r * r,
            exact == d * d,
            r >= 1 as real,
            d >= 3 as real,
    ;
    let (z, t, u) = (slack(inverse), i * r, i * d);
    assert(z * r == size(t) / 0x100_0000 as real + l * r / 2 as real) by (nonlinear_arith)
        requires
            z == size(i) / 0x100_0000 as real + l / 2 as real,
            t == i * r,
            r >= 1 as real,
    ;
    assert(l * r <= 1 as real / 0x100_0000 as real) by (nonlinear_arith)
        requires
            l * 340282366920938463463374607431768211456 as real <= 1 as real,
            l > 0 as real,
            r >= 1 as real,
            r <= 8589934592 as real,
    ;
    assert(size(t - 1 as real) <= 1 as real / 0x40_0000 as real);
    assert(i > 0 as real) by (nonlinear_arith)
        requires
            t == i * r,
            t > 0 as real,
            r >= 1 as real,
    ;
    assert(size(t - u) <= u / 0x4000 as real) by (nonlinear_arith)
        requires
            t == i * r,
            u == i * d,
            size(r - d) <= d / 0x4000 as real,
            i > 0 as real,
    ;
    assert(size(u - 1 as real) <= 1 as real / 0x2000 as real);
    assert(i - v == (u - 1 as real) * v) by (nonlinear_arith)
        requires
            u == i * d,
            v * d == 1 as real,
    ;
    assert(size((u - 1 as real) * v) <= v / 0x2000 as real) by (nonlinear_arith)
        requires
            size(u - 1 as real) <= 1 as real / 0x2000 as real,
            v > 0 as real,
    ;
}

/// The factor of attraction is near 15 divided by the cube of the distance.
proof fn lemma_attraction(s: Binary32, exact: real, distance: real, v: real)
    requires
        s.is_finite(),
        exact >= 9 as real,
        exact <= 18446744073709551616 as real,
        size(s.number() - exact) <= exact / 0x8000 as real,
        distance > 0 as real,
        distance * distance == exact,
        v * distance == 1 as real,
    ensures
        ({
            let (f, k) = (bodies::attraction(s).number(), 15 as real * (v * v * v));
            &&& size(f - k) <= k / 1000 as real
            &&& moderation::is_bounded(bodies::attraction(s), 1, 153)
            &&& k > 0 as real
            &&& k < 1 as real
        }),
{
    let inverse = bodies_balance::inverse_of(s);
    let g = Binary32::from_bits(GRAVITATIONAL_CONSTANT);
    let l = rounding::least();
    lemma_least();
    lemma_inverse(s, exact, distance, v);
    moderation::lemma_softening();
    moderation::lemma_product(inverse, inverse, 149, 149, 149);
    moderation::lemma_product(inverse * inverse, inverse, 149, 149, 149);
    moderation::lemma_product(g, inverse * inverse * inverse, 153, 149, 153);
    rounding::law_products_are_near(inverse, inverse);
    rounding::law_products_are_near(inverse * inverse, inverse);
    rounding::law_products_are_near(g, inverse * inverse * inverse);
    lemma2_to64();
    numbers::lemma_bits(GRAVITATIONAL_CONSTANT, 20, 0x10_0000);
    assert(g.number() == 15 as real);
    let (i, w, c, big) = (
        inverse.number(),
        v * v,
        v * v * v,
        340282366920938463463374607431768211456 as real,
    );
    assert(w * 18446744073709551616 as real >= 1 as real && w > 0 as real && w <= 1 as real) by (
    nonlinear_arith)
        requires
            w == v * v,
            v * 4294967296 as real >= 1 as real,
            v > 0 as real,
            v <= 1 as real / 3 as real,
    ;
    assert(c * 79228162514264337593543950336 as real >= 1 as real && c > 0 as real) by (nonlinear_arith)
        requires
            c == w * v,
            w * 18446744073709551616 as real >= 1 as real,
            v * 4294967296 as real >= 1 as real,
            w > 0 as real,
            v > 0 as real,
    ;
    assert(15 as real * c < 1 as real) by (nonlinear_arith)
        requires
            c == v * v * v,
            v > 0 as real,
            v <= 1 as real / 3 as real,
    ;
    let a = 1 as real / 0x2000 as real;
    assert(a * v == v / 0x2000 as real) by (nonlinear_arith)
        requires
            a == 1 as real / 0x2000 as real,
    ;
    lemma_times(i, v, a, i, v, a, (inverse * inverse).number(), l);
    let b = a + a + a / 256 as real + 1 as real / 0x10_0000 as real;
    lemma_times((inverse * inverse).number(), w, b, i, v, a, (inverse * inverse * inverse).number(), l);
    let e = b + a + a / 256 as real + 1 as real / 0x10_0000 as real;
    let cube = (inverse * inverse * inverse).number();
    assert(size(0 as real) <= 0 as real * 15 as real);
    lemma_times(15 as real, 15 as real, 0 as real, cube, c, e, bodies::attraction(s).number(), l);
    let total = 0 as real + e + e / 256 as real + 1 as real / 0x10_0000 as real;
    let k = 15 as real * c;
    assert(total * k <= k / 1000 as real) by (nonlinear_arith)
        requires
            total <= 1 as real / 1000 as real,
            k > 0 as real,
    ;
}

/// A displacement times a positive factor times a mass, in the two orders in which it is
/// multiplied, where all of them are near exact numbers.
proof fn lemma_forces(
    d: Binary32,
    e: real,
    f: Binary32,
    k: real,
    mass: Binary32,
)
    requires
        moderation::is_bounded(d, 1, 180),
        moderation::is_bounded(f, 1, 153),
        is_moderate(mass),
        mass.number() >= 0 as real,
        size(d.number() - e) <= size(e) / 0x10_0000 as real + rounding::least(),
        size(e) <= 4294967296 as real,
        size(f.number() - k) <= k / 1000 as real,
        k > 0 as real,
        k < 1 as real,
    ensures
        ({
            let exact = e * k * mass.number();
            let error = size(exact) / 500 as real + 1 as real / 0x10_0000 as real;
            &&& (d * f * mass).is_finite()
            &&& (d * (f * mass)).is_finite()
            &&& size((d * f * mass).number() - exact) <= error
            &&& size((d * (f * mass)).number() - exact) <= error
        }),
{
    lemma_least();
    moderation::lemma_moderate(mass);
    moderation::lemma_product(d, f, 180, 153, 184);
    moderation::lemma_product(d * f, mass, 184, 179, 214);
    moderation::lemma_product(f, mass, 153, 179, 183);
    moderation::lemma_product(d, f * mass, 180, 183, 214);
    rounding::law_products_are_near(d, f);
    rounding::law_products_are_near(d * f, mass);
    rounding::law_products_are_near(f, mass);
    rounding::law_products_are_near(d, f * mass);
    let (x, g, m, l) = (d.number(), f.number(), mass.number(), rounding::least());
    let t = e * k;
    let (h, j) = (x - e, g - k);
    let a = size(e);
    let b = a * k;
    assert(size(t) == b && b >= 0 as real) by (nonlinear_arith)
        requires
            t == e * k,
            b == a * k,
            a == size(e),
            k > 0 as real,
    ;
    assert(x * g - t == h * g + e * j) by (nonlinear_arith)
        requires
            h == x - e,
            j == g - k,
            t == e * k,
    ;
    assert(size(h * g) <= b * 2 as real / 0x10_0000 as real + l * 2 as real) by (nonlinear_arith)
        requires
            size(h) <= a / 0x10_0000 as real + l,
            size(g - k) <= k / 1000 as real,
            b == a * k,
            a >= 0 as real,
            l > 0 as real,
            k > 0 as real,
            k < 1 as real,
    ;
    assert(size(e * j) <= b / 1000 as real) by (nonlinear_arith)
        requires
            size(j) <= k / 1000 as real,
            b == a * k,
            a == size(e),
    ;
    let p = (d * f).number();
    assert(size(p - t) <= b / 900 as real + l * 4 as real);
    let y = t * m;
    let c = b * m;
    assert(size(y) == c && c >= 0 as real) by (nonlinear_arith)
        requires
            y == t * m,
            c == b * m,
            size(t) == b,
            m >= 0 as real,
    ;
    assert(size(p * m - y) <= c / 900 as real + l * 4 as real * m) by (nonlinear_arith)
        requires
            size(p - t) <= b / 900 as real + l * 4 as real,
            y == t * m,
            c == b * m,
            m >= 0 as real,
    ;
    assert(l * 4 as real * m <= 1 as real / 0x1000_0000 as real && l <= 1 as real / 0x1000_0000 as real)
        by (nonlinear_arith)
        requires
            l * 340282366920938463463374607431768211456 as real <= 1 as real,
            l > 0 as real,
            m >= 0 as real,
            m <= 1073741824 as real,
    ;
    assert(size((d * f * mass).number() - y) <= c / 500 as real + 1 as real / 0x10_0000 as real);
    let n = k * m;
    let o = (f * mass).number();
    assert(size(g * m - n) <= n / 1000 as real && n >= 0 as real && n <= 1073741824 as real) by (
    nonlinear_arith)
        requires
            size(g - k) <= k / 1000 as real,
            n == k * m,
            m >= 0 as real,
            m <= 1073741824 as real,
            k > 0 as real,
            k < 1 as real,
    ;
    assert(size(o - n) <= n / 990 as real + l);
    assert(y == e * n && c == a * n) by (nonlinear_arith)
        requires
            y == t * m,
            t == e * k,
            n == k * m,
            c == b * m,
            b == a * k,
    ;
    let q = o - n;
    assert(x * o - y == h * o + e * q) by (nonlinear_arith)
        requires
            h == x - e,
            q == o - n,
            y == e * n,
    ;
    assert(size(e * q) <= c / 990 as real + a * l) by (nonlinear_arith)
        requires
            size(q) <= n / 990 as real + l,
            c == a * n,
            a == size(e),
    ;
    assert(size(h * o) <= c * 2 as real / 0x10_0000 as real + a * l + l * 2147483648 as real + l) by (
    nonlinear_arith)
        requires
            size(h) <= a / 0x10_0000 as real + l,
            size(o - n) <= n / 990 as real + l,
            c == a * n,
            a >= 0 as real,
            n >= 0 as real,
            n <= 1073741824 as real,
            l > 0 as real,
            l <= 1 as real / 0x1000_0000 as real,
    ;
    assert(a * l <= 1 as real / 0x1000_0000 as real && l * 2147483648 as real <= 1 as real
        / 0x1000_0000 as real) by (nonlinear_arith)
        requires
            l * 340282366920938463463374607431768211456 as real <= 1 as real,
            l > 0 as real,
            a >= 0 as real,
            a <= 4294967296 as real,
    ;
}

/// A pull is Newton's up to 1/500 of it and two to the minus 20: 15 times the mass times how far it
/// lies ahead, divided by the cube of the softened distance.
pub open spec fn is_newtonian(pull: Binary32, mass: Binary32, ahead: real, distance: real) -> bool {
    let exact = newton::pull(15 as real, mass.number(), ahead, distance);
    &&& pull.is_finite()
    &&& size(pull.number() - exact) <= size(exact) / 500 as real + 1 as real / 0x10_0000 as real
}

/// Of bodies no farther than two to the 30 from the origin, with masses from zero to two to the 30,
/// one pulls another as Newton's law of gravitation says, up to 1/500: in a scalar cloud and in an
/// eight-lane one.
pub proof fn law_pulls_are_newtonian(a: Body, b: Body, mass: Binary32, axis: Axis, distance: real)
    requires
        is_moderate(a.x),
        is_moderate(a.y),
        is_moderate(b.x),
        is_moderate(b.y),
        is_moderate(mass),
        mass.number() >= 0 as real,
        newton::is_distance(distance, a, b, 9 as real),
    ensures
        is_newtonian(
            axis.of(bodies::pull(a, b, mass)),
            mass,
            newton::ahead(a, b, axis),
            distance,
        ),
        is_newtonian(
            axis.of(simd::lane_pull(a, b, mass)),
            mass,
            newton::ahead(a, b, axis),
            distance,
        ),
{
    let (s, t) = (bodies_balance::softened(a, b), simd_estimate::lane_softened(a, b));
    let exact = newton::softened_squared(a, b, 9 as real);
    let d = axis.of(a.towards(b));
    let e = newton::ahead(a, b, axis);
    let m = mass.number();
    let v = estimate::lemma_inverse(distance);
    lemma_softened(a, b);
    accuracy::lemma_difference(a.x, b.x);
    accuracy::lemma_difference(a.y, b.y);
    reveal(product);
    lemma_attraction(s, exact, distance, v);
    lemma_attraction(t, exact, distance, v);
    let k = 15 as real * (v * v * v);
    lemma_forces(d, e, bodies::attraction(s), k, mass);
    lemma_forces(d, e, bodies::attraction(t), k, mass);
    let cube = distance * distance * distance;
    let z = v * v * v;
    let n = 15 as real * m * e;
    assert(z * cube == 1 as real) by (nonlinear_arith)
        requires
            z == v * v * v,
            cube == distance * distance * distance,
            v * distance == 1 as real,
    ;
    assert(n / cube == n * z) by (nonlinear_arith)
        requires
            z * cube == 1 as real,
    ;
    assert(n * z == e * k * m) by (nonlinear_arith)
        requires
            n == 15 as real * m * e,
            k == 15 as real * z,
    ;
}

} // verus!
