//! How far rounded results lie from exact ones.
//!
//! Every operation is off by no more than half of the spacing of the numbers around its result.

use vstd::prelude::*;
use vstd::arithmetic::power2::*;
use crate::binary32;
use crate::binary32::Binary32;
use crate::magnitude;

verus! {

/// Two to the minus 149: the spacing of the least numbers.
#[verifier::opaque]
pub open spec fn least() -> real {
    1 as real / pow2(149) as real
}

/// The size of a number, without its sign.
pub open spec fn size(x: real) -> real {
    if x < 0 as real {
        -x
    } else {
        x
    }
}

/// The exact product of two numbers.
#[verifier::opaque]
pub open spec fn product(x: real, y: real) -> real {
    x * y
}

impl Binary32 {
    /// The number itself.
    pub open spec fn number(self) -> real {
        self.value() as real * least()
    }
}

/// How far a rounded result can be from the exact one: two to the minus 24 of it, and half of the
/// spacing of the least numbers.
pub open spec fn slack(result: Binary32) -> real {
    size(result.number()) / 0x100_0000 as real + least() / 2 as real
}

/// The spacing of the least numbers is no less than nothing.
pub proof fn lemma_least()
    ensures
        least() > 0 as real,
        least() * pow2(149) as real == 1 as real,
{
    reveal(least);
    lemma_pow2_pos(149);
    let p = pow2(149) as real;
    assert(p > 0 as real);
    assert(1 as real / p > 0 as real && (1 as real / p) * p == 1 as real) by (nonlinear_arith)
        requires
            p > 0 as real,
    ;
}

/// A magnitude lies no farther from what rounds to it than its slack, all in units.
#[verifier::spinoff_prover]
pub(crate) proof fn lemma_half_spacing(n: nat, d: nat, code: nat)
    requires
        d > 0,
        magnitude::rounds_to(n, d, code),
        code < magnitude::INFINITY,
    ensures
        ({
            let u = magnitude::units(code);
            &&& 0x100_0000 * n <= (0x100_0000 * u + u + 0x80_0000) * d
            &&& 0x100_0000 * n + (u + 0x80_0000) * d >= 0x100_0000 * u * d
        }),
{
    let u = magnitude::units(code);
    let q = pow2(magnitude::quantum(code));
    lemma_pow2_pos(magnitude::quantum(code));
    lemma2_to64();
    magnitude::lemma_successor(code);
    magnitude::lemma_disassembled(code);
    let k = magnitude::significand(code);
    assert(0x80_0000 * q <= u + 0x80_0000) by (nonlinear_arith)
        requires
            u == k * q,
            q == 1 || k >= 0x80_0000,
            q > 0,
    ;
    assert(2 * n <= (u + (u + q)) * d);
    assert(0x100_0000 * n <= (0x100_0000 * u + u + 0x80_0000) * d) by (nonlinear_arith)
        requires
            2 * n <= (u + (u + q)) * d,
            0x80_0000 * q <= u + 0x80_0000,
            d > 0,
    ;
    if code > 0 {
        let before = (code - 1) as nat;
        magnitude::lemma_successor(before);
        let p = pow2(magnitude::quantum(before));
        assert(magnitude::quantum(before) <= magnitude::quantum(code));
        if magnitude::quantum(before) < magnitude::quantum(code) {
            lemma_pow2_strictly_increases(
                magnitude::quantum(before),
                magnitude::quantum(code),
            );
        }
        assert(p <= q);
        assert((u - p + u) * d <= 2 * n);
        assert(0x100_0000 * n + (u + 0x80_0000) * d >= 0x100_0000 * u * d) by (nonlinear_arith)
            requires
                (u - p + u) * d <= 2 * n,
                p <= q,
                0x80_0000 * q <= u + 0x80_0000,
                d > 0,
        ;
    } else {
        assert(u == 0) by {
            assert(magnitude::units(0) == 0 * pow2(0));
        }
        assert(0x100_0000 * u * d == 0) by (nonlinear_arith)
            requires
                u == 0,
        ;
    }
}

/// What lies between two bounds in units lies within the slack.
#[verifier::spinoff_prover]
proof fn lemma_within_slack(result: Binary32, off: int)
    requires
        0x100_0000 * off <= result.units() + 0x80_0000,
        -0x100_0000 * off <= result.units() + 0x80_0000,
    ensures
        size(off as real * least()) <= slack(result),
{
    lemma_least();
    let e = least();
    let o = off as real;
    let u = result.units() as real;
    let v = result.value() as real;
    assert(0x100_0000 as real * o <= u + 0x80_0000 as real);
    assert(-(0x100_0000 as real) * o <= u + 0x80_0000 as real);
    assert(size(v * e) == u * e) by (nonlinear_arith)
        requires
            v == u || v == -u,
            u >= 0 as real,
            e > 0 as real,
    ;
    assert(size(o * e) <= u * e / 0x100_0000 as real + e / 2 as real) by (nonlinear_arith)
        requires
            0x100_0000 as real * o <= u + 0x80_0000 as real,
            -(0x100_0000 as real) * o <= u + 0x80_0000 as real,
            e > 0 as real,
    ;
}

/// A finite sum is one of finite numbers, and it is off by no more than its slack.
pub proof fn law_sums_are_near(a: Binary32, b: Binary32)
    requires
        (a + b).is_finite(),
    ensures
        a.is_finite(),
        b.is_finite(),
        size((a + b).number() - (a.number() + b.number())) <= slack(a + b),
{
    assert(a.is_finite() && b.is_finite()) by {
        reveal(Binary32::spec_add);
    }
    binary32::lemma_rounded_sum(a, b);
    let sum = a.value() + b.value();
    let n = (if sum < 0 {
        -sum
    } else {
        sum
    }) as nat;
    let code = magnitude::round(n, 1);
    let r = a + b;
    magnitude::lemma_units_order(r.magnitude() as nat, code);
    lemma_half_spacing(n, 1, code);
    lemma_within_slack(r, r.value() - sum);
    let (e, x, y, z) = (
        least(),
        r.value() as real,
        a.value() as real,
        b.value() as real,
    );
    assert((r.value() - sum) as real == x - (y + z));
    assert((x - (y + z)) * e == x * e - (y * e + z * e)) by (nonlinear_arith);
}

/// A finite difference is one of finite numbers, and it is off by no more than its slack.
pub proof fn law_differences_are_near(a: Binary32, b: Binary32)
    requires
        (a - b).is_finite(),
    ensures
        a.is_finite(),
        b.is_finite(),
        size((a - b).number() - (a.number() - b.number())) <= slack(a - b),
{
    reveal(Binary32::spec_sub);
    binary32::lemma_opposite(b);
    law_sums_are_near(a, b.opposite());
    let v = b.value() as real;
    assert(b.opposite().value() as real == -v);
    let e = least();
    assert(-v * e == -(v * e)) by (nonlinear_arith);
}

/// A finite product is one of finite numbers, and it is off by no more than its slack.
#[verifier::spinoff_prover]
pub proof fn law_products_are_near(a: Binary32, b: Binary32)
    requires
        (a * b).is_finite(),
    ensures
        a.is_finite(),
        b.is_finite(),
        size((a * b).number() - a.number() * b.number()) <= slack(a * b),
{
    let r = a * b;
    let p = pow2(149);
    lemma_pow2_pos(149);
    let n = a.units() * b.units();
    let code = magnitude::round(n, p);
    magnitude::lemma_round_exists(n, p);
    let negative = a.is_negative() != b.is_negative();
    assert(a.is_finite() && b.is_finite() && r == Binary32::signed(negative, code)) by {
        reveal(Binary32::spec_mul);
        binary32::lemma_signed(negative, magnitude::INFINITY as nat);
    }
    binary32::lemma_signed(negative, code);
    lemma_half_spacing(n, p, code);
    let u = magnitude::units(code);
    let (x, y) = (a.value(), b.value());
    let exact = x * y;
    assert(exact == if negative {
        -(n as int)
    } else {
        n as int
    }) by (nonlinear_arith)
        requires
            n == a.units() * b.units(),
            x == if a.is_negative() {
                -(a.units() as int)
            } else {
                a.units() as int
            },
            y == if b.is_negative() {
                -(b.units() as int)
            } else {
                b.units() as int
            },
            negative == (a.is_negative() != b.is_negative()),
            exact == x * y,
    ;
    let z = r.value();
    assert(0x100_0000 * (z * p - exact) <= (u + 0x80_0000) * p && -0x100_0000 * (z * p - exact)
        <= (u + 0x80_0000) * p) by (nonlinear_arith)
        requires
            z == u && exact == n || z == -(u as int) && exact == -(n as int),
            0x100_0000 * n <= (0x100_0000 * u + u + 0x80_0000) * p,
            0x100_0000 * n + (u + 0x80_0000) * p >= 0x100_0000 * u * p,
    ;
    lemma_scaled_slack(r, z * p - exact, p);
    lemma_least();
    let e = least();
    let (rx, ry, rz, rp) = (x as real, y as real, z as real, p as real);
    assert((z * p - exact) as real == rz * rp - rx * ry) by {
        assert((z * p) as real == rz * rp) by (nonlinear_arith)
            requires
                rz == z as real,
                rp == p as real,
        ;
        assert((x * y) as real == rx * ry) by (nonlinear_arith)
            requires
                rx == x as real,
                ry == y as real,
        ;
    }
    assert((rz * rp - rx * ry) * e * e == rz * e - (rx * e) * (ry * e)) by (nonlinear_arith)
        requires
            e * rp == 1 as real,
    ;
}

/// The same of a difference that is measured in finer units.
#[verifier::spinoff_prover]
proof fn lemma_scaled_slack(result: Binary32, off: int, p: nat)
    requires
        p == pow2(149),
        0x100_0000 * off <= (result.units() + 0x80_0000) * p,
        -0x100_0000 * off <= (result.units() + 0x80_0000) * p,
    ensures
        size(off as real * least() * least()) <= slack(result),
{
    lemma_least();
    let e = least();
    let o = off as real;
    let rp = p as real;
    let u = result.units() as real;
    let v = result.value() as real;
    let w = (result.units() + 0x80_0000) * p;
    assert(w as real == (u + 0x80_0000 as real) * rp) by (nonlinear_arith)
        requires
            w == (result.units() + 0x80_0000) * p,
            u == result.units() as real,
            rp == p as real,
    ;
    assert(0x100_0000 as real * o <= w as real);
    assert(-(0x100_0000 as real) * o <= w as real);
    assert(size(v * e) == u * e) by (nonlinear_arith)
        requires
            v == u || v == -u,
            u >= 0 as real,
            e > 0 as real,
    ;
    let t = o * e;
    assert(0x100_0000 as real * t <= u + 0x80_0000 as real && -(0x100_0000 as real) * t <= u
        + 0x80_0000 as real) by (nonlinear_arith)
        requires
            t == o * e,
            0x100_0000 as real * o <= (u + 0x80_0000 as real) * rp,
            -(0x100_0000 as real) * o <= (u + 0x80_0000 as real) * rp,
            e * rp == 1 as real,
            e > 0 as real,
    ;
    assert(size(t * e) <= u * e / 0x100_0000 as real + e / 2 as real) by (nonlinear_arith)
        requires
            0x100_0000 as real * t <= u + 0x80_0000 as real,
            -(0x100_0000 as real) * t <= u + 0x80_0000 as real,
            e > 0 as real,
    ;
}

/// Dividing a finite number by another one than zero: where the quotient is finite, multiplying it
/// by the divisor gives the number back up to the slack of the quotient.
#[verifier::spinoff_prover]
pub proof fn law_quotients_are_near(a: Binary32, b: Binary32)
    requires
        a.is_finite(),
        b.is_finite(),
        (a / b).is_finite(),
    ensures
        b.number() != 0 as real,
        size((a / b).number() * b.number() - a.number()) <= slack(a / b) * size(b.number()),
{
    let r = a / b;
    let p = pow2(149);
    lemma_pow2_pos(149);
    let n = a.units() * p;
    let d = b.units();
    let negative = a.is_negative() != b.is_negative();
    assert(b.magnitude() != 0) by {
        reveal(Binary32::spec_euclidean_or_real_div);
        binary32::lemma_signed(negative, magnitude::INFINITY as nat);
    }
    magnitude::lemma_units_order(0, b.magnitude() as nat);
    assert(magnitude::units(0) == 0 * pow2(0));
    let code = magnitude::round(n, d);
    magnitude::lemma_round_exists(n, d);
    assert(r == Binary32::signed(negative, code)) by {
        reveal(Binary32::spec_euclidean_or_real_div);
    }
    binary32::lemma_signed(negative, code);
    lemma_half_spacing(n, d, code);
    let u = magnitude::units(code);
    let (x, y, z) = (a.value(), b.value(), r.value());
    let off = z * y - x * p;
    assert(0x100_0000 * off <= (u + 0x80_0000) * d && -0x100_0000 * off <= (u + 0x80_0000) * d)
        by (nonlinear_arith)
        requires
            off == z * y - x * p,
            n == a.units() * p,
            d == b.units(),
            negative == (a.is_negative() != b.is_negative()),
            x == if a.is_negative() {
                -(a.units() as int)
            } else {
                a.units() as int
            },
            y == if b.is_negative() {
                -(b.units() as int)
            } else {
                b.units() as int
            },
            z == if negative {
                -(u as int)
            } else {
                u as int
            },
            0x100_0000 * n <= (0x100_0000 * u + u + 0x80_0000) * d,
            0x100_0000 * n + (u + 0x80_0000) * d >= 0x100_0000 * u * d,
    ;
    lemma_least();
    let e = least();
    let (rx, ry, rz, rp, ru, rd) = (
        x as real,
        y as real,
        z as real,
        p as real,
        u as real,
        d as real,
    );
    let ro = off as real;
    assert(ro == rz * ry - rx * rp) by {
        assert((z * y) as real == rz * ry) by (nonlinear_arith)
            requires
                rz == z as real,
                ry == y as real,
        ;
        assert((x * p) as real == rx * rp) by (nonlinear_arith)
            requires
                rx == x as real,
                rp == p as real,
        ;
    }
    let w = (u + 0x80_0000) * d;
    assert(w as real == (ru + 0x80_0000 as real) * rd) by (nonlinear_arith)
        requires
            w == (u + 0x80_0000) * d,
            ru == u as real,
            rd == d as real,
    ;
    assert(0x100_0000 as real * ro <= w as real);
    assert(-(0x100_0000 as real) * ro <= w as real);
    assert(size(rz * e) == ru * e && size(ry * e) == rd * e && ry * e != 0 as real)
        by (nonlinear_arith)
        requires
            rz == ru || rz == -ru,
            ry == rd || ry == -rd,
            ru >= 0 as real,
            rd > 0 as real,
            e > 0 as real,
    ;
    assert(ro * e * e == (rz * e) * (ry * e) - rx * e) by (nonlinear_arith)
        requires
            ro == rz * ry - rx * rp,
            e * rp == 1 as real,
    ;
    assert(size(ro * e * e) <= (ru * e / 0x100_0000 as real + e / 2 as real) * (rd * e))
        by (nonlinear_arith)
        requires
            0x100_0000 as real * ro <= (ru + 0x80_0000 as real) * rd,
            -(0x100_0000 as real) * ro <= (ru + 0x80_0000 as real) * rd,
            e > 0 as real,
    ;
}

/// The square of a finite root is the number that it is taken of up to what its slack makes of it.
pub proof fn law_roots_are_near(a: Binary32)
    requires
        a.is_finite(),
        a.root().is_finite(),
    ensures
        a.root().number() >= 0 as real,
        size(a.root().number() * a.root().number() - a.number()) <= slack(a.root()) * (2 as real
            * a.root().number() + slack(a.root())),
{
    if a.magnitude() == 0 {
        let r = a.root();
        lemma_slack(r);
        assert(magnitude::units(0) == 0 * pow2(0));
        assert(r == a) by {
            reveal(Binary32::root);
        }
        let (e, n, s, v) = (least(), r.number(), slack(r), r.value() as real);
        assert(n == 0 as real) by (nonlinear_arith)
            requires
                n == v * e,
                v == 0 as real,
        ;
        assert(size(n * n - n) <= s * (2 as real * n + s)) by (nonlinear_arith)
            requires
                n == 0 as real,
                s >= 0 as real,
        ;
    } else {
        lemma_root_is_near(a);
    }
}

/// The same of a number that is not zero.
#[verifier::spinoff_prover]
proof fn lemma_root_is_near(a: Binary32)
    requires
        a.is_finite(),
        a.magnitude() != 0,
        a.root().is_finite(),
    ensures
        a.root().number() >= 0 as real,
        size(a.root().number() * a.root().number() - a.number()) <= slack(a.root()) * (2 as real
            * a.root().number() + slack(a.root())),
{
    let r = a.root();
    let p = pow2(149);
    lemma_pow2_pos(149);
    lemma2_to64();
    lemma_least();
    let e = least();
    assert(magnitude::units(0) == 0 * pow2(0));
    let n = a.units() * p;
    let code = magnitude::round_root(n);
    magnitude::lemma_root_exists(n);
    assert(!a.is_negative() && r == Binary32::signed(false, code)) by {
        reveal(Binary32::root);
    }
    binary32::lemma_signed(false, code);
    let u = magnitude::units(code);
    let q = pow2(magnitude::quantum(code));
    lemma_pow2_pos(magnitude::quantum(code));
    magnitude::lemma_successor(code);
    magnitude::lemma_disassembled(code);
    let k = magnitude::significand(code);
    assert(0x80_0000 * q <= u + 0x80_0000) by (nonlinear_arith)
        requires
            u == k * q,
            q == 1 || k >= 0x80_0000,
            q > 0,
    ;
    let low = if code > 0 {
        let before = (code - 1) as nat;
        magnitude::lemma_successor(before);
        let g = pow2(magnitude::quantum(before));
        if magnitude::quantum(before) < magnitude::quantum(code) {
            lemma_pow2_strictly_increases(magnitude::quantum(before), magnitude::quantum(code));
        }
        assert(g <= q);
        2 * u - g
    } else {
        0int
    };
    let high = 2 * u + q;
    assert(low * low <= 4 * n && 4 * n <= high * high);
    assert(0 <= low && 2 * u - q <= low);
    let (ru, rn, rq, rl, rh, rp) = (
        u as real,
        n as real,
        q as real,
        low as real,
        high as real,
        p as real,
    );
    let ra = a.value() as real;
    assert(rn == ra * rp) by (nonlinear_arith)
        requires
            n == a.units() * p,
            a.units() == a.value(),
            rn == n as real,
            ra == a.value() as real,
            rp == p as real,
    ;
    assert((low * low) as real == rl * rl && (high * high) as real == rh * rh) by (nonlinear_arith)
        requires
            rl == low as real,
            rh == high as real,
    ;
    assert(rl * rl <= 4 as real * rn && 4 as real * rn <= rh * rh);
    let s = ru / 0x100_0000 as real + 1 as real / 2 as real;
    assert(rq <= 2 as real * s);
    assert(rn - ru * ru <= s * (2 as real * ru + s)) by (nonlinear_arith)
        requires
            4 as real * rn <= rh * rh,
            rh == 2 as real * ru + rq,
            rq <= 2 as real * s,
            rq >= 0 as real,
            ru >= 0 as real,
    ;
    assert(ru * ru - rn <= s * (2 as real * ru + s)) by (nonlinear_arith)
        requires
            rl * rl <= 4 as real * rn,
            rl >= 2 as real * ru - rq,
            rl >= 0 as real,
            rq <= 2 as real * s,
            rq >= 0 as real,
            ru >= 0 as real,
            rn >= 0 as real,
    ;
    let x = ru * e;
    assert(r.number() == x);
    assert(x >= 0 as real) by (nonlinear_arith)
        requires
            x == ru * e,
            ru >= 0 as real,
            e > 0 as real,
    ;
    let t = slack(r);
    assert(t == s * e) by (nonlinear_arith)
        requires
            t == x / 0x100_0000 as real + e / 2 as real,
            x == ru * e,
            s == ru / 0x100_0000 as real + 1 as real / 2 as real,
    ;
    let off = ru * ru - rn;
    assert(x * x - ra * e == off * e * e) by (nonlinear_arith)
        requires
            x == ru * e,
            off == ru * ru - rn,
            rn == ra * rp,
            e * rp == 1 as real,
    ;
    assert(size(off * e * e) <= (s * e) * (2 as real * x + s * e)) by (nonlinear_arith)
        requires
            off <= s * (2 as real * ru + s),
            -off <= s * (2 as real * ru + s),
            x == ru * e,
            e > 0 as real,
    ;
}

/// A slack is never less than nothing.
pub proof fn lemma_slack(result: Binary32)
    ensures
        slack(result) > 0 as real,
{
    lemma_least();
}

} // verus!
