//! How far a body has turned lies between not at all and fully, rounding notwithstanding.

use vstd::prelude::*;
use vstd::arithmetic::power2::*;
use crate::appearance;
use crate::appearance::{
    CENTRAL_BODY_APPEARANCE_MASS_FRACTION, THREE, YELLOW_TRANSITION_START_MASS_FRACTION,
};
use crate::binary32;
use crate::binary32::{Binary32, HALF, ONE, TWO, ZERO};
use crate::magnitude;
use crate::rounding;

verus! {

/// The smooth step from zero to one.
pub open spec fn smooth(p: Binary32) -> Binary32 {
    p * p * (Binary32::from_bits(THREE) - Binary32::from_bits(TWO) * p)
}

/// A product of so many units at the most rounds to no more than one.
proof fn lemma_rounds_to_one_at_most(a: Binary32, b: Binary32)
    requires
        a.is_finite(),
        b.is_finite(),
        !a.is_negative(),
        !b.is_negative(),
        a.units() * b.units() <= 0x100_0001 * pow2(274),
    ensures
        !(a * b).is_negative(),
        (a * b).at_most(Binary32::from_bits(ONE)),
{
    let one = Binary32::from_bits(ONE);
    let n = a.units() * b.units();
    let d = pow2(149);
    let t = pow2(125);
    lemma_pow2_pos(149);
    lemma2_to64();
    lemma_pow2_adds(125, 1);
    lemma_pow2_adds(125, 149);
    lemma_pow2_adds(24, 125);
    let code = magnitude::round(n, d);
    magnitude::lemma_round_exists(n, d);
    assert(a * b == Binary32::signed(false, code)) by {
        reveal(Binary32::spec_mul);
    }
    binary32::lemma_signed(false, code);
    assert(magnitude::significand(0x3F7F_FFFF) == 0xFF_FFFF);
    assert(magnitude::quantum(0x3F7F_FFFF) == 125);
    magnitude::lemma_successor(0x3F7F_FFFF);
    magnitude::lemma_successor(0x3F80_0000);
    assert(magnitude::quantum(0x3F80_0000) == 126);
    let u = magnitude::units(0x3F80_0000);
    assert(u == 0x100_0000 * t);
    let limit = 0x100_0001 * t;
    assert(magnitude::rounds_to(limit, 1, 0x3F80_0000));
    assert(n * 1 <= limit * d) by (nonlinear_arith)
        requires
            n <= 0x100_0001 * pow2(274),
            pow2(274) == t * d,
            limit == 0x100_0001 * t,
    ;
    magnitude::lemma_round_monotone(n, d, code, limit, 1, 0x3F80_0000);
    binary32::law_bits_order_numbers(a * b, one);
}

/// Three less twice a fraction lies between one and three.
proof fn lemma_rest(p: Binary32)
    requires
        !p.is_negative(),
        p.at_most(Binary32::from_bits(ONE)),
    ensures
        ({
            let rest = Binary32::from_bits(THREE) - Binary32::from_bits(TWO) * p;
            &&& rest.is_finite()
            &&& !rest.is_negative()
            &&& rest.units() <= Binary32::from_bits(THREE).units()
        }),
{
    let (zero, one) = (Binary32::from_bits(ZERO), Binary32::from_bits(ONE));
    let (two, three) = (Binary32::from_bits(TWO), Binary32::from_bits(THREE));
    let twice = two * p;
    assert(magnitude::units(0) == 0 * pow2(0));
    binary32::law_at_most_a_finite_number(p, one);
    binary32::law_multiplication_keeps_order(two, p, one);
    binary32::law_multiplying_by_one(two);
    binary32::law_at_most_a_finite_number(twice, two);
    binary32::lemma_opposite(twice);
    binary32::lemma_opposite(two);
    let (back, far) = (twice.opposite(), two.opposite());
    assert(three + far == one) by {
        lemma_full_rest();
        reveal(Binary32::spec_sub);
    }
    assert(far.at_most(back) && back.at_most(zero));
    binary32::law_addition_keeps_order(three, far, back);
    binary32::law_addition_keeps_order(three, back, zero);
    binary32::law_adding_zero(three, zero);
    let rest = three - twice;
    assert(rest == three + back) by {
        reveal(Binary32::spec_sub);
    }
    binary32::law_bits_order_numbers(zero, one);
    assert(rest.value() > 0) by {
        magnitude::lemma_units_order(0, ONE as nat);
    }
    binary32::law_at_most_a_finite_number(rest, three);
}

/// A fraction of less than one half squared, times no more than three.
proof fn lemma_small(p: Binary32)
    requires
        !p.is_negative(),
        p.at_most(Binary32::from_bits(HALF)),
    ensures
        (p * p).is_finite(),
        !(p * p).is_negative(),
        (p * p).units() <= pow2(147),
{
    let half = Binary32::from_bits(HALF);
    let quarter = Binary32::from_bits(0x3E80_0000);
    binary32::law_at_most_a_finite_number(p, half);
    binary32::law_multiplication_keeps_order(p, p, half);
    binary32::law_multiplication_commutes(p, half);
    binary32::law_multiplication_keeps_order(half, p, half);
    binary32::law_halving_is_exact(half);
    assert(half * half == quarter);
    assert((p * p).at_most(quarter));
    binary32::law_at_most_a_finite_number(p * p, quarter);
    lemma2_to64();
    lemma_pow2_adds(23, 124);
    assert(quarter.units() == 0x80_0000 * pow2(124));
}

/// What the square of a fraction of one half or more is, at the most.
proof fn lemma_square(p: Binary32, k: nat)
    requires
        0x80_0000 <= k < 0x100_0000,
        p.is_finite(),
        !p.is_negative(),
        p.units() == k * pow2(125),
        (p * p).is_finite(),
    ensures
        0xFF_FFFF * (p * p).units() <= 0x100_0000 * (k * k * pow2(101)) + 0x80_0000,
{
    let u = p.units();
    let (w, h, d) = (pow2(125), pow2(101), pow2(149));
    let n = u * u;
    lemma_pow2_pos(149);
    lemma_pow2_adds(125, 125);
    lemma_pow2_adds(101, 149);
    magnitude::lemma_round_exists(n, d);
    let code = magnitude::round(n, d);
    assert(p * p == Binary32::signed(false, code)) by {
        reveal(Binary32::spec_mul);
    }
    binary32::lemma_signed(false, code);
    rounding::lemma_half_spacing(n, d, code);
    let a = magnitude::units(code);
    let s = k * k * h;
    assert(n == s * d) by (nonlinear_arith)
        requires
            n == u * u,
            u == k * w,
            s == k * k * h,
            w * w == h * d,
    ;
    assert(0x100_0000 * s + (a + 0x80_0000) >= 0x100_0000 * a) by (nonlinear_arith)
        requires
            0x100_0000 * n + (a + 0x80_0000) * d >= 0x100_0000 * a * d,
            n == s * d,
            d > 0,
    ;
}

/// The smooth step in whole numbers.
proof fn lemma_cubic(k: int, j: int)
    requires
        j == 0x100_0000 - k,
        1 <= j <= 0x80_0000,
    ensures
        k * k * (0x80_0000 + j) + 1 <= 0x80_0000 * (0x100_0000 * 0x100_0000 - 1),
{
    let (x, y) = (j * j, j * j * j);
    assert(k * k * (0x80_0000 + j) == 0x80_0000_0000_0000_0000 - 0x180_0000 * (j * j) + j * j * j)
        by (nonlinear_arith)
        requires
            k == 0x100_0000 - j,
    ;
    assert(j * j >= 1) by (nonlinear_arith)
        requires
            j >= 1,
    ;
    assert(j * j * j <= 0x80_0000 * (j * j)) by (nonlinear_arith)
        requires
            1 <= j <= 0x80_0000,
    ;
    assert(0x80_0000_0000_0000_0000 - 0x180_0000 * x + y + 1 <= 0x80_0000 * (0x100_0000 * 0x100_0000
        - 1));
}

/// The bound on the product, from those on its factors.
proof fn lemma_product_bound(a: nat, b: nat, k: nat, j: nat)
    requires
        1 <= j <= 0x80_0000,
        k == 0x100_0000 - j,
        0xFF_FFFF * a <= 0x100_0000 * (k * k * pow2(101)) + 0x80_0000,
        b == (0x80_0000 + j) * pow2(126),
    ensures
        a * b <= 0x100_0001 * pow2(274),
{
    let (h, g, w) = (pow2(101), pow2(126), pow2(251));
    let c = 0x80_0000 + j;
    lemma2_to64();
    lemma_pow2_pos(101);
    lemma_pow2_pos(126);
    lemma_pow2_adds(24, 101);
    lemma_pow2_adds(125, 126);
    lemma_pow2_adds(23, 251);
    lemma_cubic(k as int, j as int);
    let q = k * k;
    assert(0x100_0000 * (q * h) * g == q * w) by (nonlinear_arith)
        requires
            w == 0x100_0000 * h * g,
    ;
    lemma_pow2_strictly_increases(48, 125);
    lemma2_to64_rest();
    assert(0x80_0000 * c * g <= w) by (nonlinear_arith)
        requires
            c <= 0x100_0000,
            w == pow2(125) * g,
            pow2(125) >= 0x1_0000_0000_0000,
            g > 0,
    ;
    assert(0xFF_FFFF * (a * b) <= (q * c + 1) * w) by (nonlinear_arith)
        requires
            0xFF_FFFF * a <= 0x100_0000 * (q * h) + 0x80_0000,
            b == c * g,
            0x100_0000 * (q * h) * g == q * w,
            0x80_0000 * c * g <= w,
            c >= 0,
            g > 0,
    ;
    assert((q * c + 1) * w <= 0x80_0000 * (0x100_0000 * 0x100_0000 - 1) * w) by (nonlinear_arith)
        requires
            q * c + 1 <= 0x80_0000 * (0x100_0000 * 0x100_0000 - 1),
            w >= 0,
    ;
    let z = pow2(274);
    assert(a * b <= 0x100_0001 * z) by (nonlinear_arith)
        requires
            0xFF_FFFF * (a * b) <= 0x80_0000 * (0x100_0000 * 0x100_0000 - 1) * w,
            z == 0x80_0000 * w,
    ;
}

/// What is left of three after twice a fraction of one half or more, exactly.
proof fn lemma_exact_rest(p: Binary32, k: nat)
    requires
        0x3F00_0000 <= p.bits < 0x3F80_0000,
        k == 0x80_0000 + p.bits % 0x80_0000,
    ensures
        p.units() == k * pow2(125),
        (Binary32::from_bits(THREE) - Binary32::from_bits(TWO) * p).units() == (0x80_0000 + (
        0x100_0000 - k)) * pow2(126),
{
    let (two, three) = (Binary32::from_bits(TWO), Binary32::from_bits(THREE));
    let w = pow2(126);
    let j = (0x100_0000 - k) as nat;
    assert(magnitude::quantum(p.bits as nat) == 125);
    assert(magnitude::significand(p.bits as nat) == k);
    binary32::law_doubling_is_exact(p);
    binary32::law_multiplication_commutes(two, p);
    let twice = two * p;
    binary32::lemma_signed(false, (p.bits + 0x80_0000) as nat);
    let double = (p.bits + 0x80_0000) as nat;
    assert(magnitude::quantum(double) == 126);
    assert(magnitude::significand(double) == k);
    assert(twice.units() == k * w);
    let code = 126 * 0x80_0000 + 0x80_0000 + j;
    magnitude::lemma_assembled(0x80_0000 + j, 126);
    let rest = Binary32::from_bits(code as u32);
    lemma2_to64();
    lemma_pow2_adds(126, 1);
    assert(three.units() == 0xC0_0000 * (w * 2));
    binary32::lemma_opposite(twice);
    let back = twice.opposite();
    assert(three.value() + back.value() == rest.value()) by (nonlinear_arith)
        requires
            three.value() == 0xC0_0000 * (w * 2),
            back.value() == -(k * w),
            rest.value() == (0x80_0000 + j) * w,
            j == 0x100_0000 - k,
    ;
    binary32::law_representable_sums_are_exact(three, back, rest);
    assert(three - twice == rest) by {
        reveal(Binary32::spec_sub);
    }
}

/// The smooth step of a fraction is a fraction.
pub proof fn law_smooth_steps_are_fractions(p: Binary32)
    requires
        Binary32::from_bits(ZERO).at_most(p),
        p.at_most(Binary32::from_bits(ONE)),
    ensures
        Binary32::from_bits(ZERO).at_most(smooth(p)),
        smooth(p).at_most(Binary32::from_bits(ONE)),
{
    let (zero, one) = (Binary32::from_bits(ZERO), Binary32::from_bits(ONE));
    let (two, three) = (Binary32::from_bits(TWO), Binary32::from_bits(THREE));
    let half = Binary32::from_bits(HALF);
    assert(magnitude::units(0) == 0 * pow2(0));
    binary32::law_bits_order_numbers(zero, one);
    if p.magnitude() == 0 {
        binary32::law_multiplying_by_zero(p, p);
        binary32::law_multiplying_by_zero(p, two);
        binary32::law_multiplication_commutes(p, two);
        let rest = three - two * p;
        assert(rest == three) by {
            reveal(Binary32::spec_sub);
            binary32::lemma_opposite(two * p);
            binary32::law_adding_zero(three, (two * p).opposite());
        }
        binary32::law_multiplying_by_zero(p * p, rest);
    } else {
        assert(!p.is_negative()) by {
            magnitude::lemma_units_order(0, p.magnitude() as nat);
        }
        binary32::law_at_most_a_finite_number(p, one);
        binary32::law_bits_order_numbers(p, one);
        binary32::law_bits_order_numbers(p, half);
        lemma_rest(p);
        let rest = three - two * p;
        binary32::law_multiplication_keeps_order(p, p, one);
        binary32::law_multiplying_by_one(p);
        binary32::law_at_most_a_finite_number(p * p, p);
        if p.bits <= HALF {
            lemma_small(p);
            lemma_small_bound((p * p).units(), rest.units());
        } else if p.bits < ONE {
            let k = (0x80_0000 + p.bits % 0x80_0000) as nat;
            lemma_exact_rest(p, k);
            lemma_square(p, k);
            lemma_product_bound((p * p).units(), rest.units(), k, (0x100_0000 - k) as nat);
        } else {
            lemma_one_bound();
            assert(p == one);
            assert(p * p == one);
            binary32::law_multiplying_by_one(two);
            lemma_full_rest();
        }
        lemma_rounds_to_one_at_most(p * p, rest);
        binary32::law_bits_order_numbers(zero, smooth(p));
    }
}

/// A quarter times three is well below one.
proof fn lemma_small_bound(a: nat, b: nat)
    requires
        a <= pow2(147),
        b <= Binary32::from_bits(THREE).units(),
    ensures
        a * b <= 0x100_0001 * pow2(274),
{
    lemma2_to64();
    lemma_pow2_adds(23, 127);
    lemma_pow2_adds(147, 150);
    lemma_pow2_adds(23, 274);
    let x = pow2(127);
    assert(Binary32::from_bits(THREE).units() == 0xC0_0000 * x);
    assert(a * b <= pow2(147) * pow2(150) * 2) by (nonlinear_arith)
        requires
            a <= pow2(147),
            b <= 0xC0_0000 * x,
            pow2(150) == 0x80_0000 * x,
            x >= 0,
    ;
}

/// One times one.
proof fn lemma_one_bound()
    ensures
        Binary32::from_bits(ONE).units() * Binary32::from_bits(ONE).units() <= 0x100_0001 * pow2(
            274,
        ),
{
    lemma2_to64();
    lemma_pow2_adds(23, 126);
    lemma_pow2_adds(149, 149);
    lemma_pow2_adds(24, 274);
    assert(Binary32::from_bits(ONE).units() == 0x80_0000 * pow2(126));
}

/// Three less two is one.
proof fn lemma_full_rest()
    ensures
        Binary32::from_bits(THREE) - Binary32::from_bits(TWO) == Binary32::from_bits(ONE),
{
    let (one, two, three) = (
        Binary32::from_bits(ONE),
        Binary32::from_bits(TWO),
        Binary32::from_bits(THREE),
    );
    lemma2_to64();
    lemma_pow2_adds(126, 1);
    let w = pow2(126);
    assert(three.units() == 0xC0_0000 * (w * 2));
    assert(two.units() == 0x80_0000 * (w * 2));
    assert(one.units() == 0x80_0000 * w);
    binary32::lemma_opposite(two);
    let far = two.opposite();
    assert(three.value() + far.value() == one.value()) by (nonlinear_arith)
        requires
            three.value() == 0xC0_0000 * (w * 2),
            far.value() == -(0x80_0000 * (w * 2)),
            one.value() == 0x80_0000 * w,
    ;
    binary32::law_representable_sums_are_exact(three, far, one);
    reveal(Binary32::spec_sub);
}

/// However much of the total mass a body holds, it has turned by no less than nothing and no more
/// than fully.
pub proof fn law_transitions_are_fractions(mass_fraction: Binary32)
    requires
        !mass_fraction.is_nan(),
    ensures
        Binary32::from_bits(ZERO).at_most(appearance::transition(mass_fraction)),
        appearance::transition(mass_fraction).at_most(Binary32::from_bits(ONE)),
{
    let (zero, one) = (Binary32::from_bits(ZERO), Binary32::from_bits(ONE));
    let start = Binary32::from_bits(YELLOW_TRANSITION_START_MASS_FRACTION);
    let complete = Binary32::from_bits(CENTRAL_BODY_APPEARANCE_MASS_FRACTION);
    let range = complete - start;
    let passed = mass_fraction - start;
    appearance::lemma_transition_range();
    binary32::law_bits_order_numbers(zero, one);
    assert(!passed.is_nan()) by {
        reveal(Binary32::spec_sub);
        binary32::lemma_opposite(start);
        binary32::law_addition_commutes(mass_fraction, start.opposite());
        binary32::law_sums_with_a_finite_number_are_numbers(start.opposite(), mass_fraction);
    }
    let quotient = passed / range;
    assert(!quotient.is_nan()) by {
        reveal(Binary32::spec_euclidean_or_real_div);
        let negative = passed.is_negative() != range.is_negative();
        binary32::lemma_signed(negative, magnitude::INFINITY as nat);
        assert(magnitude::units(0) == 0 * pow2(0));
        magnitude::lemma_units_order(0, range.magnitude() as nat);
        let n = passed.units() * pow2(149);
        magnitude::lemma_round_exists(n, range.units());
        binary32::lemma_signed(negative, magnitude::round(n, range.units()));
    }
    law_smooth_steps_are_fractions(appearance::unit_clamped(quotient));
}

} // verus!
