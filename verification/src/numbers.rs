//! The real numbers that bits stand for, and how comparisons order them.

use vstd::prelude::*;
use vstd::arithmetic::power2::*;
use crate::binary32;
use crate::binary32::{Binary32, HALF, ONE, TWO, ZERO};
use crate::estimate;
use crate::estimate::Estimate;
use crate::magnitude;
use crate::rounding;
use crate::rounding::{least, size, slack};

verus! {

/// So many units are the number of them times two to the minus `p`.
proof fn lemma_scaled(a: Binary32, k: int, p: nat)
    requires
        p <= 149,
        a.value() == k * pow2((149 - p) as nat),
    ensures
        a.number() * pow2(p) as real == k as real,
{
    rounding::lemma_least();
    lemma_pow2_adds((149 - p) as nat, p);
    let (q, w, t) = (pow2((149 - p) as nat), pow2(p), pow2(149));
    let (qr, wr, tr, kr, e) = (q as real, w as real, t as real, k as real, least());
    assert((k * q) as real == kr * qr) by (nonlinear_arith)
        requires
            kr == k as real,
            qr == q as real,
    ;
    assert((q * w) as real == qr * wr) by (nonlinear_arith)
        requires
            wr == w as real,
            qr == q as real,
    ;
    let v = a.value() as real;
    assert(v * e * wr == kr) by (nonlinear_arith)
        requires
            v == kr * qr,
            tr == qr * wr,
            e * tr == 1 as real,
    ;
}

/// The number that bits stand for: a significand, divided by `parts`, a power of two.
pub proof fn lemma_bits(bits: u32, p: nat, parts: int)
    requires
        0x80_0000 <= bits < magnitude::INFINITY,
        p <= 149,
        parts == pow2(p),
        bits / 0x80_0000 - 1 == 149 - p,
    ensures
        Binary32::from_bits(bits).is_finite(),
        Binary32::from_bits(bits).number() * parts as real == (0x80_0000 + bits % 0x80_0000)
            as real,
{
    let a = Binary32::from_bits(bits);
    assert(a.magnitude() == bits);
    assert(!a.is_negative());
    assert(magnitude::quantum(bits as nat) == 149 - p);
    assert(magnitude::significand(bits as nat) == 0x80_0000 + bits % 0x80_0000);
    lemma_scaled(a, (0x80_0000 + bits % 0x80_0000) as int, p);
}

/// A number, meant to be a real number that it is the nearest to.
pub open spec fn decimal(bits: u32, exact: real) -> Estimate {
    let number = Binary32::from_bits(bits);
    Estimate { computed: number, exact, error: slack(number) }
}

/// Quotients are near where the dividends are.
proof fn lemma_near_quotient(n: real, exact: real, w: real, sig: real)
    requires
        w > 0 as real,
        n * w == sig,
        size(sig - exact * w) * 0x100_0000 as real <= sig,
    ensures
        size(n - exact) <= n / 0x100_0000 as real,
{
    let d = n - exact;
    assert(sig - exact * w == d * w) by (nonlinear_arith)
        requires
            n * w == sig,
            d == n - exact,
    ;
    let t = n / 0x100_0000 as real;
    assert(sig == t * 0x100_0000 as real * w) by (nonlinear_arith)
        requires
            n * w == sig,
            n == t * 0x100_0000 as real,
    ;
    assert(size(d * w) == size(d) * w) by (nonlinear_arith)
        requires
            w > 0 as real,
    ;
    let z = size(d);
    assert(z <= t) by (nonlinear_arith)
        requires
            z * w * 0x100_0000 as real <= t * 0x100_0000 as real * w,
            w > 0 as real,
    ;
}

/// Bits stand for the number nearest to a real number where their significand is the nearest one.
pub proof fn lemma_decimal(bits: u32, p: nat, parts: int, exact: real)
    requires
        0x80_0000 <= bits < magnitude::INFINITY,
        p <= 149,
        parts == pow2(p),
        bits / 0x80_0000 - 1 == 149 - p,
        size((0x80_0000 + bits % 0x80_0000) as real - exact * parts as real) * 0x100_0000 as real
            <= (0x80_0000 + bits % 0x80_0000) as real,
    ensures
        decimal(bits, exact).holds(),
        Binary32::from_bits(bits).is_finite(),
{
    lemma_bits(bits, p, parts);
    lemma_pow2_pos(p);
    rounding::lemma_least();
    let n = Binary32::from_bits(bits).number();
    lemma_near_quotient(n, exact, parts as real, (0x80_0000 + bits % 0x80_0000) as real);
    rounding::lemma_slack(Binary32::from_bits(bits));
}

/// Zero, one half, one and two are what they are called.
pub proof fn law_plain_numbers()
    ensures
        Binary32::from_bits(ZERO).number() == 0 as real,
        Binary32::from_bits(HALF).number() == 1 as real / 2 as real,
        Binary32::from_bits(ONE).number() == 1 as real,
        Binary32::from_bits(TWO).number() == 2 as real,
        Binary32::from_bits(ZERO).is_finite(),
        Binary32::from_bits(HALF).is_finite(),
        Binary32::from_bits(ONE).is_finite(),
        Binary32::from_bits(TWO).is_finite(),
{
    estimate::lemma_zero();
    lemma2_to64();
    lemma_bits(HALF, 24, 0x100_0000);
    lemma_bits(ONE, 23, 0x80_0000);
    lemma_bits(TWO, 22, 0x40_0000);
}

/// Finite numbers are compared as the real numbers that they stand for.
pub proof fn law_comparisons_order_numbers(a: Binary32, b: Binary32)
    requires
        a.is_finite(),
        b.is_finite(),
    ensures
        a.at_most(b) == (a.number() <= b.number()),
        a.less(b) == (a.number() < b.number()),
        a.same(b) == (a.number() == b.number()),
{
    rounding::lemma_least();
    let (v, w, e) = (a.value() as real, b.value() as real, least());
    assert((v < w) == (v * e < w * e)) by (nonlinear_arith)
        requires
            e > 0 as real,
    ;
    assert((v == w) == (v * e == w * e)) by (nonlinear_arith)
        requires
            e > 0 as real,
    ;
}

/// Counts of no more than 24 bits are numbers, exactly.
pub proof fn law_counts_are_exact(count: nat)
    requires
        count <= 0x100_0000,
    ensures
        Binary32::counted(count).is_finite(),
        Binary32::counted(count).number() == count as real,
{
    let a = Binary32::counted(count);
    let code = binary32::lemma_short_magnitude(count, 149);
    magnitude::lemma_round_exact(code);
    binary32::lemma_signed(false, code);
    lemma2_to64();
    lemma_scaled(a, count as int, 0);
    let n = a.number();
    assert(n * 1 as real == n) by (nonlinear_arith);
}

/// The lesser of two finite numbers is the lesser of the real numbers, and the greater the greater.
pub proof fn law_lesser_and_greater(a: Binary32, b: Binary32)
    requires
        a.is_finite(),
        b.is_finite(),
    ensures
        a.min(b).is_finite(),
        a.max(b).is_finite(),
        a.min(b).number() == lesser(a.number(), b.number()),
        a.max(b).number() == greater(a.number(), b.number()),
{
    law_comparisons_order_numbers(a, b);
    law_comparisons_order_numbers(b, a);
}

/// A finite number within limits is the real number within those limits.
pub proof fn law_clamped(a: Binary32, low: Binary32, high: Binary32)
    requires
        a.is_finite(),
        low.is_finite(),
        high.is_finite(),
        low.number() <= high.number(),
    ensures
        a.clamp(low, high).is_finite(),
        a.clamp(low, high).number() == lesser(greater(a.number(), low.number()), high.number()),
{
    law_comparisons_order_numbers(a, low);
    law_comparisons_order_numbers(high, a);
    law_comparisons_order_numbers(low, high);
}

/// The lesser of two real numbers.
pub open spec fn lesser(x: real, y: real) -> real {
    if x <= y {
        x
    } else {
        y
    }
}

/// The greater of two real numbers.
pub open spec fn greater(x: real, y: real) -> real {
    if x <= y {
        y
    } else {
        x
    }
}

} // verus!
