//! Computations beside what they are meant to compute.
//!
//! An [`Estimate`] carries rounding through a computation: beside what is computed stands the
//! number that it is meant to be, and how far the two can be apart.

use vstd::prelude::*;
use vstd::arithmetic::power2::*;
use crate::binary32::{Binary32, ONE, ZERO};
use crate::magnitude;
use crate::rounding;
use crate::rounding::{least, product, size, slack};

verus! {

/// Something computed, the number that it is meant to be, and how far the two can be apart.
pub struct Estimate {
    pub computed: Binary32,
    pub exact: real,
    pub error: real,
}

impl Estimate {
    /// Where what is computed is finite, it is no farther from the exact number than said.
    pub open spec fn holds(self) -> bool {
        &&& self.error >= 0 as real
        &&& self.computed.is_finite() ==> size(self.computed.number() - self.exact) <= self.error
    }

    /// A number that is meant to be just what it is.
    pub open spec fn of(number: Binary32) -> Estimate {
        Estimate { computed: number, exact: number.number(), error: 0 as real }
    }

    /// The sum of two.
    pub open spec fn plus(self, other: Estimate) -> Estimate {
        let computed = self.computed + other.computed;
        Estimate {
            computed,
            exact: self.exact + other.exact,
            error: self.error + other.error + slack(computed),
        }
    }

    /// The difference of two.
    pub open spec fn minus(self, other: Estimate) -> Estimate {
        let computed = self.computed - other.computed;
        Estimate {
            computed,
            exact: self.exact - other.exact,
            error: self.error + other.error + slack(computed),
        }
    }

    /// The product of two.
    pub open spec fn times(self, other: Estimate) -> Estimate {
        let computed = self.computed * other.computed;
        Estimate {
            computed,
            exact: product(self.exact, other.exact),
            error: product(size(self.computed.number()), other.error) + product(
                size(other.exact),
                self.error,
            ) + slack(computed),
        }
    }
}

/// Estimates of numbers that are just what they are, of sums, differences and products hold.
pub proof fn law_estimates_hold(a: Estimate, b: Estimate)
    requires
        a.holds(),
        b.holds(),
    ensures
        a.plus(b).holds(),
        a.minus(b).holds(),
        a.times(b).holds(),
{
    rounding::lemma_slack(a.computed + b.computed);
    rounding::lemma_slack(a.computed - b.computed);
    rounding::lemma_slack(a.computed * b.computed);
    if (a.computed + b.computed).is_finite() {
        rounding::law_sums_are_near(a.computed, b.computed);
    }
    if (a.computed - b.computed).is_finite() {
        rounding::law_differences_are_near(a.computed, b.computed);
    }
    let (c, d) = (a.computed.number(), b.computed.number());
    lemma_product_is_positive(size(c), b.error);
    lemma_product_is_positive(size(b.exact), a.error);
    if (a.computed * b.computed).is_finite() {
        lemma_products_are_near(a.computed, b.computed);
        lemma_gap_of_products(c, a.exact, a.error, d, b.exact, b.error);
    }
}

/// The product of two numbers neither of which is less than nothing is not either.
pub proof fn lemma_product_is_positive(x: real, y: real)
    requires
        x >= 0 as real,
        y >= 0 as real,
    ensures
        product(x, y) >= 0 as real,
{
    reveal(product);
    assert(x * y >= 0 as real) by (nonlinear_arith)
        requires
            x >= 0 as real,
            y >= 0 as real,
    ;
}

/// What a product of numbers is off by, in terms of their exact product.
pub proof fn lemma_products_are_near(a: Binary32, b: Binary32)
    requires
        (a * b).is_finite(),
    ensures
        a.is_finite(),
        b.is_finite(),
        size((a * b).number() - product(a.number(), b.number())) <= slack(a * b),
{
    reveal(product);
    rounding::law_products_are_near(a, b);
}

/// How far two exact products are apart.
pub proof fn lemma_gap_of_products(c: real, x: real, e: real, d: real, y: real, f: real)
    requires
        size(c - x) <= e,
        size(d - y) <= f,
    ensures
        size(product(c, d) - product(x, y)) <= product(size(c), f) + product(size(y), e),
{
    reveal(product);
    lemma_product_gap(c, x, e, d, y, f);
}

/// How far two products are apart.
pub proof fn lemma_product_gap(c: real, x: real, e: real, d: real, y: real, f: real)
    requires
        size(c - x) <= e,
        size(d - y) <= f,
    ensures
        size(c * d - x * y) <= size(c) * f + size(y) * e,
{
    assert(c * d - x * y == c * (d - y) + (c - x) * y) by (nonlinear_arith);
    lemma_size_of_product(c, d - y);
    lemma_size_of_product(c - x, y);
    assert(size(c) * size(d - y) <= size(c) * f) by (nonlinear_arith)
        requires
            size(d - y) <= f,
            size(c) >= 0 as real,
    ;
    assert(size(c - x) * size(y) <= size(y) * e) by (nonlinear_arith)
        requires
            size(c - x) <= e,
            size(y) >= 0 as real,
    ;
}

/// The size of a product is the product of the sizes.
pub proof fn lemma_size_of_product(x: real, y: real)
    ensures
        size(x * y) == size(x) * size(y),
{
    assert(size(x * y) == size(x) * size(y)) by (nonlinear_arith);
}

/// One is so many units.
proof fn lemma_units_of_one()
    ensures
        Binary32::from_bits(ONE).is_finite(),
        Binary32::from_bits(ONE).value() == pow2(149),
{
    let one = Binary32::from_bits(ONE);
    assert(pow2(23) == 0x80_0000) by {
        lemma2_to64();
    }
    lemma_pow2_adds(23, 126);
    assert(magnitude::quantum(0x3F80_0000) == 126);
    assert(magnitude::significand(0x3F80_0000) == 0x80_0000);
    assert(one.magnitude() == 0x3F80_0000);
}

/// So many units are one.
proof fn lemma_units_in_one(a: Binary32)
    requires
        a.value() == pow2(149),
    ensures
        a.number() == 1 as real,
{
    rounding::lemma_least();
    assert(a.value() as real == pow2(149) as real);
}

/// One is one.
pub proof fn lemma_one()
    ensures
        Binary32::from_bits(ONE).is_finite(),
        Binary32::from_bits(ONE).number() == 1 as real,
{
    lemma_units_of_one();
    lemma_units_in_one(Binary32::from_bits(ONE));
}

/// A number times a sum.
pub proof fn lemma_product_of_sum(x: real, y: real, z: real)
    ensures
        product(x, y + z) == product(x, y) + product(x, z),
{
    reveal(product);
    assert(x * (y + z) == x * y + x * z) by (nonlinear_arith);
}

/// A number times nothing.
pub proof fn lemma_product_of_nothing(x: real)
    ensures
        product(x, 0 as real) == 0 as real,
{
    reveal(product);
    assert(x * 0 as real == 0 as real) by (nonlinear_arith);
}

/// A number times a product.
pub proof fn lemma_product_of_product(x: real, y: real, z: real)
    ensures
        product(x, product(y, z)) == product(z, product(x, y)),
{
    reveal(product);
    assert(x * (y * z) == z * (x * y)) by (nonlinear_arith);
}

/// A number times two that are near one another.
pub proof fn lemma_product_of_near(x: real, y: real, z: real, e: real)
    requires
        size(y - z) <= e,
    ensures
        size(product(x, y) - product(x, z)) <= product(size(x), e),
{
    reveal(product);
    lemma_size_of_product(x, y - z);
    assert(x * (y - z) == x * y - x * z) by (nonlinear_arith);
    let (s, d) = (size(x), size(y - z));
    assert(s * d <= s * e) by (nonlinear_arith)
        requires
            s >= 0 as real,
            d <= e,
    ;
}

/// Zero is zero.
pub proof fn lemma_zero()
    ensures
        Binary32::from_bits(ZERO).number() == 0 as real,
{
    assert(magnitude::units(0) == 0 * pow2(0));
    assert(Binary32::from_bits(ZERO).value() == 0);
    let (v, e) = (0 as real, least());
    assert(v * e == 0 as real) by (nonlinear_arith)
        requires
            v == 0 as real,
    ;
}

/// Numbers of opposite units are opposite.
pub proof fn lemma_opposite_numbers(a: Binary32, b: Binary32)
    requires
        a.value() == -b.value(),
    ensures
        a.number() == -b.number(),
{
    let (v, w, e) = (a.value() as real, b.value() as real, least());
    assert(v == -w);
    assert(v * e == -(w * e)) by (nonlinear_arith)
        requires
            v == -w,
    ;
}

/// Forces between two masses are opposite, in the order in which they are multiplied.
pub proof fn lemma_forces_are_opposite(m: real, n: real, d: real, e: real, g: real, i: real)
    requires
        d == -e,
    ensures
        product(
            m,
            product(d, product(product(product(product(g, n), i), i), i)),
        ) == -product(n, product(e, product(product(product(product(g, m), i), i), i))),
{
    reveal(product);
    let k = g * i * i * i;
    assert(g * n * i * i * i == n * k && g * m * i * i * i == m * k) by (nonlinear_arith)
        requires
            k == g * i * i * i,
    ;
    assert(m * (d * (n * k)) == -(n * (e * (m * k)))) by (nonlinear_arith)
        requires
            d == -e,
    ;
}

/// Products of three numbers, whatever two are multiplied first.
pub proof fn lemma_products_of_three(x: real, y: real, z: real)
    ensures
        product(product(x, y), z) == product(x, product(y, z)),
        product(x, y) == product(y, x),
        product(x, -y) == -product(x, y),
{
    reveal(product);
    assert((x * y) * z == x * (y * z)) by (nonlinear_arith);
    assert(x * y == y * x) by (nonlinear_arith);
    assert(x * -y == -(x * y)) by (nonlinear_arith);
}

/// What acts between two masses does so on either in the same way.
pub proof fn lemma_forces_are_equal(m: real, n: real, k: real)
    ensures
        product(m, product(k, n)) == product(n, product(k, m)),
{
    reveal(product);
    assert(m * (k * n) == n * (k * m)) by (nonlinear_arith);
}

/// The inverse of a number greater than nothing.
pub proof fn lemma_inverse(p: real) -> (u: real)
    requires
        p > 0 as real,
    ensures
        product(u, p) == 1 as real,
{
    reveal(product);
    assert((1 as real / p) * p == 1 as real) by (nonlinear_arith)
        requires
            p > 0 as real,
    ;
    1 as real / p
}

/// Dividing undoes multiplying.
pub proof fn lemma_divided(x: real, d: real)
    requires
        d > 0 as real,
    ensures
        product(x / d, d) == x,
{
    reveal(product);
    assert((x / d) * d == x) by (nonlinear_arith)
        requires
            d > 0 as real,
    ;
}

/// Products of numbers greater than nothing are.
pub proof fn lemma_product_is_more(x: real, y: real)
    requires
        x > 0 as real,
        y > 0 as real,
    ensures
        product(x, y) > 0 as real,
{
    reveal(product);
    assert(x * y > 0 as real) by (nonlinear_arith)
        requires
            x > 0 as real,
            y > 0 as real,
    ;
}

/// Numbers are ordered as their multiples.
pub proof fn lemma_multiples_are_ordered(x: real, y: real, d: real)
    requires
        d > 0 as real,
        product(x, d) <= product(y, d),
    ensures
        x <= y,
{
    reveal(product);
    assert(x <= y) by (nonlinear_arith)
        requires
            x * d <= y * d,
            d > 0 as real,
    ;
}

/// What bounds a multiple bounds the number.
pub proof fn lemma_multiples_are_bounded(x: real, y: real, d: real)
    requires
        d > 0 as real,
        size(product(x, d)) <= product(y, d),
    ensures
        size(x) <= y,
{
    lemma_products_of_three(d, x, d);
    lemma_products_of_three(x, d, d);
    lemma_products_of_three(-x, d, d);
    assert(product(d, -x) == -product(d, x));
    lemma_multiples_are_ordered(x, y, d);
    lemma_multiples_are_ordered(-x, y, d);
}

/// A difference times a number.
pub proof fn lemma_difference_times(x: real, y: real, z: real)
    ensures
        product(x - y, z) == product(x, z) - product(y, z),
{
    reveal(product);
    assert((x - y) * z == x * z - y * z) by (nonlinear_arith);
}

/// Once a number is the number.
pub proof fn lemma_once(x: real)
    ensures
        product(1 as real, x) == x,
{
    reveal(product);
    assert(1 as real * x == x) by (nonlinear_arith);
}

/// What the square of a root is off by.
pub proof fn lemma_roots_are_near(a: Binary32)
    requires
        a.is_finite(),
        a.root().is_finite(),
    ensures
        ({
            let r = a.root();
            &&& r.number() >= 0 as real
            &&& size(product(r.number(), r.number()) - a.number()) <= product(
                slack(r),
                r.number() + r.number() + slack(r),
            )
        }),
{
    reveal(product);
    rounding::law_roots_are_near(a);
    let (s, r) = (slack(a.root()), a.root().number());
    assert(s * (2 as real * r + s) == s * (r + r + s)) by (nonlinear_arith);
}

/// What a quotient times the divisor is off by.
pub proof fn lemma_quotients_are_near(a: Binary32, b: Binary32)
    requires
        a.is_finite(),
        b.is_finite(),
        (a / b).is_finite(),
    ensures
        b.number() != 0 as real,
        size(product((a / b).number(), b.number()) - a.number()) <= product(
            slack(a / b),
            size(b.number()),
        ),
{
    reveal(product);
    rounding::law_quotients_are_near(a, b);
}

/// The more a number that is not negative is multiplied by, the more there is.
pub proof fn lemma_product_of_more(x: real, y: real, z: real)
    requires
        x >= 0 as real,
        y <= z,
    ensures
        product(x, y) <= product(x, z),
{
    reveal(product);
    assert(x * y <= x * z) by (nonlinear_arith)
        requires
            x >= 0 as real,
            y <= z,
    ;
}

/// Numbers are ordered as their units.
pub proof fn lemma_numbers_are_ordered(a: Binary32, b: Binary32)
    requires
        a.number() > b.number(),
    ensures
        a.value() > b.value(),
{
    rounding::lemma_least();
    let (v, w, e) = (a.value() as real, b.value() as real, least());
    assert(v > w) by (nonlinear_arith)
        requires
            v * e > w * e,
            e > 0 as real,
    ;
}

} // verus!
