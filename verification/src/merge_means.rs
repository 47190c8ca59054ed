//! What two particles become when they merge: they keep their mass, and their place, velocity and
//! brightness are the means, weighted by their masses.

use vstd::prelude::*;
use vstd::arithmetic::power2::*;
use crate::binary32;
use crate::binary32::{Binary32, ONE};
use crate::bodies::{Body, Coordinate};
use crate::estimate;
use crate::magnitude;
use crate::merging::Merging;
use crate::moderation;
use crate::rounding;
use crate::rounding::{product, size, slack};
use crate::types::Particle;

verus! {

/// A mass of no less than one and no more than two to the 30.
pub open spec fn is_massive(mass: Binary32) -> bool {
    moderation::is_moderate(mass) && mass.number() >= 1 as real
}

/// What two become has the sum of their masses, up to a millionth, and its coordinate times that
/// mass is the sum of their coordinates times their masses, up to a millionth of both and a
/// millionth.
pub open spec fn is_mean<T: Merging>(merged: T, a: T, b: T, coordinate: Coordinate) -> bool {
    let (m, n) = (a.weight().number(), b.weight().number());
    let (x, y) = (
        product(m, a.along(coordinate).number()),
        product(n, b.along(coordinate).number()),
    );
    let million = 1000000 as real;
    &&& merged.weight().is_finite()
    &&& size(merged.weight().number() - (m + n)) <= (m + n) / million
    &&& merged.along(coordinate).is_finite()
    &&& size(
        product(merged.weight().number(), merged.along(coordinate).number()) - (x + y),
    ) <= (size(x) + size(y) + 1 as real) / million
}

/// The spacing of the least numbers is next to nothing.
pub(crate) proof fn lemma_tiny_least()
    ensures
        rounding::least() > 0 as real,
        rounding::least() * 18446744073709551616 as real <= 1 as real,
{
    rounding::lemma_least();
    lemma2_to64();
    lemma_pow2_strictly_increases(64, 149);
    let (e, w) = (rounding::least(), pow2(149) as real);
    assert(e * 18446744073709551616 as real <= 1 as real) by (nonlinear_arith)
        requires
            e * w == 1 as real,
            w > 18446744073709551616 as real,
            e > 0 as real,
    ;
}

/// A bounded number divided by one of no less than one stays bounded.
proof fn lemma_quotient(a: Binary32, b: Binary32, k: nat, q: nat)
    requires
        moderation::is_bounded(a, k, q),
        k <= 0x100_0000,
        q <= 252,
        b.is_finite(),
        b.number() >= 1 as real,
    ensures
        moderation::is_bounded(a / b, k, q),
{
    rounding::lemma_least();
    let w = pow2(149);
    let (v, u, e) = (b.value() as real, w as real, rounding::least());
    assert(v >= u) by (nonlinear_arith)
        requires
            v * e >= 1 as real,
            e * u == 1 as real,
            e > 0 as real,
    ;
    lemma_pow2_pos(149);
    assert(b.value() >= w);
    assert(magnitude::units(0) == 0 * pow2(0));
    let (n, d) = (a.units() * w, b.units());
    let top = binary32::lemma_short_magnitude(k, q);
    let code = magnitude::round(n, d);
    magnitude::lemma_round_exists(n, d);
    magnitude::lemma_round_exact(top);
    magnitude::lemma_round_exists(magnitude::units(top), 1);
    let (x, y) = (a.units(), magnitude::units(top));
    assert(x * w <= y * d) by (nonlinear_arith)
        requires
            x <= y,
            w <= d,
    ;
    magnitude::lemma_round_monotone(n, d, code, magnitude::units(top), 1, top);
    magnitude::lemma_units_order(top, code);
    let negative = a.is_negative() != b.is_negative();
    binary32::lemma_signed(negative, code);
    assert(a / b == Binary32::signed(negative, code)) by {
        reveal(Binary32::spec_euclidean_or_real_div);
    }
}

/// The masses of two and the weighted sum of a coordinate.
proof fn lemma_weighed(x: Binary32, m: Binary32, y: Binary32, n: Binary32)
    requires
        moderation::is_moderate(x),
        moderation::is_moderate(y),
        is_massive(m),
        is_massive(n),
    ensures
        ({
            let (s, w) = (m + n, x * m + y * n);
            let (p, r) = (product(m.number(), x.number()), product(n.number(), y.number()));
            let part = 0x40_0000 as real;
            &&& s.is_finite()
            &&& s.number() >= 1 as real
            &&& s.number() <= 4294967296 as real
            &&& size(s.number() - (m.number() + n.number())) <= (m.number() + n.number()) / part
            &&& moderation::is_bounded(w, 2, 209)
            &&& size(w.number() - (p + r)) <= (size(p) + size(r)) / part + rounding::least() * 4 as real
        }),
{
    let (s, w) = (m + n, x * m + y * n);
    moderation::lemma_moderate(x);
    moderation::lemma_moderate(y);
    moderation::lemma_moderate(m);
    moderation::lemma_moderate(n);
    moderation::lemma_sum(m, n, 1, 1, 179);
    moderation::lemma_product(x, m, 179, 179, 209);
    moderation::lemma_product(y, n, 179, 179, 209);
    moderation::lemma_sum(x * m, y * n, 1, 1, 209);
    lemma_tiny_least();
    rounding::law_sums_are_near(m, n);
    rounding::law_sums_are_near(x * m, y * n);
    estimate::lemma_products_are_near(x, m);
    estimate::lemma_products_are_near(y, n);
    estimate::lemma_products_of_three(x.number(), m.number(), m.number());
    estimate::lemma_products_of_three(y.number(), n.number(), n.number());
    reveal(product);
    let (a, b) = (x.number(), m.number());
    let (c, d) = (y.number(), n.number());
    assert(a * b == b * a && c * d == d * c) by (nonlinear_arith);
}

/// A quotient times its divisor is near the dividend.
proof fn lemma_divided_back(w: Binary32, s: Binary32)
    requires
        moderation::is_bounded(w, 2, 209),
        s.is_finite(),
        s.number() >= 1 as real,
        s.number() <= 4294967296 as real,
    ensures
        (w / s).is_finite(),
        size(product(s.number(), (w / s).number()) - w.number()) <= size(w.number()) / 0x40_0000 as real
            + 1 as real / 0x40_0000 as real,
{
    lemma_quotient(w, s, 2, 209);
    lemma_tiny_least();
    rounding::law_quotients_are_near(w, s);
    reveal(product);
    let (q, m, e) = ((w / s).number(), s.number(), rounding::least());
    let part = 0x100_0000 as real;
    let t = m * q;
    assert(q * m == t) by (nonlinear_arith)
        requires
            t == m * q,
    ;
    let z = slack(w / s);
    assert(z * m == size(t) / part + e * m / 2 as real) by (nonlinear_arith)
        requires
            z == size(q) / part + e / 2 as real,
            part == 0x100_0000 as real,
            t == m * q,
            m >= 1 as real,
    ;
    assert(e * m <= 1 as real / part) by (nonlinear_arith)
        requires
            e * 18446744073709551616 as real <= 1 as real,
            e > 0 as real,
            m <= 4294967296 as real,
            m >= 1 as real,
            part == 0x100_0000 as real,
    ;
}

/// Two bodies that merge become one with the mass of both, where both are on the mean, with the
/// momentum of both and with the mean of their brightness; up to rounding.
pub proof fn law_merged_bodies_are_means(a: Body, b: Body, coordinate: Coordinate)
    requires
        is_massive(a.mass),
        is_massive(b.mass),
        moderation::is_moderate(a.along(coordinate)),
        moderation::is_moderate(b.along(coordinate)),
    ensures
        is_mean(a.merged(b), a, b, coordinate),
{
    let (x, y) = (a.along(coordinate), b.along(coordinate));
    let (s, w) = (a.mass + b.mass, x * a.mass + y * b.mass);
    lemma_weighed(x, a.mass, y, b.mass);
    lemma_divided_back(w, s);
    lemma_tiny_least();
    assert(a.merged(b).along(coordinate) == w / s);
}

/// A product with an inverse, times what was inverted, is near the other factor.
proof fn lemma_multiplied_back(w: Binary32, s: Binary32)
    requires
        moderation::is_bounded(w, 2, 209),
        s.is_finite(),
        s.number() >= 1 as real,
        s.number() <= 4294967296 as real,
    ensures
        ({
            let q = w * (Binary32::from_bits(ONE) / s);
            &&& q.is_finite()
            &&& size(product(s.number(), q.number()) - w.number()) <= size(w.number())
                / 0x20_0000 as real + 1 as real / 0x20_0000 as real
        }),
{
    let one = Binary32::from_bits(ONE);
    let inverse = one / s;
    let q = w * inverse;
    estimate::lemma_one();
    lemma2_to64();
    moderation::lemma_no_more_than(one, 0);
    lemma_quotient(one, s, 1, 149);
    moderation::lemma_two(w, 209);
    moderation::lemma_product(w, inverse, 210, 149, 210);
    lemma_tiny_least();
    rounding::law_quotients_are_near(one, s);
    estimate::lemma_products_are_near(w, inverse);
    reveal(product);
    let (m, i, v, t, e) = (
        s.number(),
        inverse.number(),
        w.number(),
        q.number(),
        rounding::least(),
    );
    let part = 0x100_0000 as real;
    assert(e * m <= 1 as real / part) by (nonlinear_arith)
        requires
            e * 18446744073709551616 as real <= 1 as real,
            e > 0 as real,
            m <= 4294967296 as real,
            m >= 1 as real,
            part == 0x100_0000 as real,
    ;
    let g = i * m;
    let z = slack(inverse);
    assert(z * m == size(g) / part + e * m / 2 as real) by (nonlinear_arith)
        requires
            z == size(i) / part + e / 2 as real,
            part == 0x100_0000 as real,
            g == i * m,
            m >= 1 as real,
    ;
    let off = g - 1 as real;
    assert(size(off) <= 4 as real / part);
    let h = m * t;
    let y = slack(q);
    assert(y * m == size(h) / part + e * m / 2 as real) by (nonlinear_arith)
        requires
            y == size(t) / part + e / 2 as real,
            part == 0x100_0000 as real,
            h == m * t,
            m >= 1 as real,
    ;
    let gap = t - v * i;
    assert(size(m * gap) <= y * m) by (nonlinear_arith)
        requires
            size(gap) <= y,
            m >= 1 as real,
    ;
    assert(h - v == m * gap + v * off) by (nonlinear_arith)
        requires
            h == m * t,
            gap == t - v * i,
            off == i * m - 1 as real,
    ;
    estimate::lemma_size_of_product(v, off);
    let (c, d) = (size(v), size(off));
    assert(c * d <= c * (4 as real / part)) by (nonlinear_arith)
        requires
            d <= 4 as real / part,
            c >= 0 as real,
    ;
    assert(c * (4 as real / part) == c / 0x40_0000 as real) by (nonlinear_arith)
        requires
            part == 0x100_0000 as real,
    ;
}

/// Two particles of a compute device that merge become a live one with the mass of both, where both
/// are on the mean, with the momentum of both and with the mean of their brightness; up to rounding.
pub proof fn law_merged_particles_are_means(a: Particle, b: Particle, coordinate: Coordinate)
    requires
        is_massive(a.mass),
        is_massive(b.mass),
        moderation::is_moderate(a.along(coordinate)),
        moderation::is_moderate(b.along(coordinate)),
    ensures
        is_mean(a.merged(b), a, b, coordinate),
        a.merged(b).alive == 1,
{
    let (x, y) = (a.along(coordinate), b.along(coordinate));
    let (s, w) = (a.mass + b.mass, x * a.mass + y * b.mass);
    lemma_weighed(x, a.mass, y, b.mass);
    lemma_multiplied_back(w, s);
    lemma_tiny_least();
    assert(a.merged(b).along(coordinate) == w * (Binary32::from_bits(ONE) / s));
}

} // verus!
