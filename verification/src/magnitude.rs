//! Magnitudes of binary32 numbers as integers, and the rounding of exact results to them.
//!
//! The low thirty-one bits of a binary32 number are its *magnitude code*. The codes from zero
//! up to [`INFINITY`] order the magnitudes from zero to infinity, one code per representable
//! magnitude, and every finite magnitude is a whole number of units of two to the minus 149.
//! Rounding to nearest, ties to even, is therefore a statement about integers alone.

use vstd::prelude::*;
use vstd::arithmetic::div_mod::*;
use vstd::arithmetic::mul::*;
use vstd::arithmetic::power2::*;
use vstd::bits::*;

verus! {

/// The magnitude code of infinity; larger codes are not numbers.
pub const INFINITY: u32 = 0x7F80_0000;

/// The significand of the smallest normal number, two to the 23rd.
pub const HIDDEN_BIT: u32 = 0x80_0000;

/// The significand of a magnitude code, with the hidden bit made explicit.
pub open spec fn significand(code: nat) -> nat {
    if code < HIDDEN_BIT {
        code
    } else {
        HIDDEN_BIT as nat + code % HIDDEN_BIT as nat
    }
}

/// The exponent of the spacing between a magnitude and its successor, in units.
pub open spec fn quantum(code: nat) -> nat {
    if code < HIDDEN_BIT {
        0
    } else {
        (code / HIDDEN_BIT as nat - 1) as nat
    }
}

/// The magnitude that a code stands for, in units of two to the minus 149. Infinity counts as
/// the magnitude that would follow the largest finite one.
pub open spec fn units(code: nat) -> nat {
    significand(code) * pow2(quantum(code))
}

/// The exact magnitude `n / d`, in units, is nearest to the magnitude of `code`; between two
/// codes at the same distance the even one is taken.
pub open spec fn rounds_to(n: nat, d: nat, code: nat) -> bool {
    &&& code <= INFINITY
    &&& code > 0 ==> {
        let midpoint = (units((code - 1) as nat) + units(code)) * d;
        if code % 2 == 0 {
            midpoint <= 2 * n
        } else {
            midpoint < 2 * n
        }
    }
    &&& code < INFINITY ==> {
        let midpoint = (units(code) + units(code + 1)) * d;
        if code % 2 == 0 {
            2 * n <= midpoint
        } else {
            2 * n < midpoint
        }
    }
}

/// The code that the exact magnitude `n / d`, in units, rounds to.
pub open spec fn round(n: nat, d: nat) -> nat {
    choose|code: nat| rounds_to(n, d, code)
}

/// The square root of the exact magnitude `n`, in units, is nearest to the magnitude of `code`.
pub open spec fn root_rounds_to(n: nat, code: nat) -> bool {
    &&& code <= INFINITY
    &&& code > 0 ==> {
        let midpoint = units((code - 1) as nat) + units(code);
        if code % 2 == 0 {
            midpoint * midpoint <= 4 * n
        } else {
            midpoint * midpoint < 4 * n
        }
    }
    &&& code < INFINITY ==> {
        let midpoint = units(code) + units(code + 1);
        if code % 2 == 0 {
            4 * n <= midpoint * midpoint
        } else {
            4 * n < midpoint * midpoint
        }
    }
}

/// The code that the square root of the exact magnitude `n`, in units, rounds to.
pub open spec fn round_root(n: nat) -> nat {
    choose|code: nat| root_rounds_to(n, code)
}

/// A code assembled from a significand of at most 24 bits, or exactly two to the 24th, and the
/// exponent of its spacing has the magnitude that the two describe.
pub proof fn lemma_assembled(k: nat, q: nat)
    requires
        k <= 0x100_0000,
        q == 0 || k >= HIDDEN_BIT,
    ensures
        units(q * HIDDEN_BIT as nat + k) == k * pow2(q),
        k < 0x100_0000 ==> significand(q * HIDDEN_BIT as nat + k) == k,
        k < 0x100_0000 ==> quantum(q * HIDDEN_BIT as nat + k) == q,
{
    let code = q * HIDDEN_BIT as nat + k;
    lemma2_to64();
    if k < HIDDEN_BIT {
    } else if k < 0x100_0000 {
        assert(code / 0x80_0000 == q + 1);
        assert(code % 0x80_0000 == k - 0x80_0000);
    } else {
        assert(code / 0x80_0000 == q + 2);
        assert(code % 0x80_0000 == 0);
        lemma_pow2_unfold((q + 1) as nat);
        assert(0x80_0000 * (2 * pow2(q)) == 0x100_0000 * pow2(q));
    }
}

/// Taking a code apart and assembling it again gives the code back.
pub proof fn lemma_disassembled(code: nat)
    ensures
        code == quantum(code) * HIDDEN_BIT as nat + significand(code),
        significand(code) < 0x100_0000,
        quantum(code) == 0 || significand(code) >= HIDDEN_BIT,
        code % 2 == significand(code) % 2,
        code < INFINITY ==> quantum(code) <= 253,
{
}

/// The next code is one quantum larger.
pub proof fn lemma_successor(code: nat)
    ensures
        units(code + 1) == units(code) + pow2(quantum(code)),
{
    lemma_disassembled(code);
    let k = significand(code);
    let q = quantum(code);
    lemma_assembled(k + 1, q);
    assert((k + 1) * pow2(q) == k * pow2(q) + pow2(q)) by (nonlinear_arith);
}

/// Larger codes stand for larger magnitudes.
pub proof fn lemma_units_increase(a: nat, b: nat)
    requires
        a < b,
    ensures
        units(a) < units(b),
    decreases b - a,
{
    lemma_successor(a);
    lemma_pow2_pos(quantum(a));
    if a + 1 < b {
        lemma_units_increase(a + 1, b);
    }
}

/// Magnitudes are ordered as their codes are.
pub proof fn lemma_units_order(a: nat, b: nat)
    ensures
        a < b <==> units(a) < units(b),
        a == b <==> units(a) == units(b),
{
    if a < b {
        lemma_units_increase(a, b);
    } else if b < a {
        lemma_units_increase(b, a);
    }
}

/// An exact magnitude rounds to one code only, and a larger one to no smaller code.
pub proof fn lemma_round_monotone(n1: nat, d1: nat, a: nat, n2: nat, d2: nat, b: nat)
    requires
        d1 > 0,
        d2 > 0,
        n1 * d2 <= n2 * d1,
        rounds_to(n1, d1, a),
        rounds_to(n2, d2, b),
    ensures
        a <= b,
{
    if b < a {
        let low = units(b) + units(b + 1);
        let high = units((a - 1) as nat) + units(a);
        if b + 1 < a {
            lemma_units_increase(b, (a - 1) as nat);
            lemma_units_increase(b + 1, a);
        }
        assert(low <= high);
        // high <= 2 n1 / d1 <= 2 n2 / d2 <= low, so all four agree and both codes are even,
        // although one follows the other.
        assert(high * d1 * d2 <= 2 * n1 * d2) by (nonlinear_arith)
            requires high * d1 <= 2 * n1;
        assert(2 * n2 * d1 <= low * d2 * d1) by (nonlinear_arith)
            requires 2 * n2 <= low * d2;
        assert(2 * n1 * d2 <= 2 * n2 * d1) by (nonlinear_arith)
            requires n1 * d2 <= n2 * d1;
        assert(high * d1 * d2 == high * (d1 * d2)) by (nonlinear_arith);
        assert(low * d2 * d1 == low * (d1 * d2)) by (nonlinear_arith);
        assert(low * (d1 * d2) <= high * (d1 * d2)) by (nonlinear_arith)
            requires low <= high;
        assert(high * (d1 * d2) == low * (d1 * d2));
        assert(high == low) by (nonlinear_arith)
            requires high * (d1 * d2) == low * (d1 * d2), d1 > 0, d2 > 0;
        if b + 1 < a {
            assert(false);
        }
        if b % 2 == 1 {
            assert(2 * n2 * d1 < low * d2 * d1) by (nonlinear_arith)
                requires 2 * n2 < low * d2, d1 > 0;
            assert(false);
        } else {
            assert(a % 2 == 1);
            assert(high * d1 * d2 < 2 * n1 * d2) by (nonlinear_arith)
                requires high * d1 < 2 * n1, d2 > 0;
            assert(false);
        }
    }
}

/// Whatever code an exact magnitude rounds to is the one that [`round`] names.
pub proof fn lemma_round_is(n: nat, d: nat, code: nat)
    requires
        d > 0,
        rounds_to(n, d, code),
    ensures
        round(n, d) == code,
{
    lemma_round_monotone(n, d, code, n, d, round(n, d));
    lemma_round_monotone(n, d, round(n, d), n, d, code);
}

/// Rounding depends on the ratio alone.
pub proof fn lemma_round_scaled(n: nat, d: nat, c: nat, code: nat)
    requires
        c > 0,
        rounds_to(n * c, d * c, code),
    ensures
        rounds_to(n, d, code),
{
    assert forall|m: nat| #[trigger] (m * (d * c)) == (m * d) * c by {
        lemma_mul_is_associative(m as int, d as int, c as int);
    }
    assert(2 * (n * c) == (2 * n) * c) by (nonlinear_arith);
    if code > 0 {
        let m = units((code - 1) as nat) + units(code);
        assert(m * (d * c) == (m * d) * c);
        lemma_mul_order(m * d, 2 * n, c);
    }
    if code < INFINITY {
        let m = units(code) + units(code + 1);
        assert(m * (d * c) == (m * d) * c);
        lemma_mul_order(2 * n, m * d, c);
    }
}

proof fn lemma_mul_order(a: nat, b: nat, c: nat)
    requires
        c > 0,
    ensures
        a * c <= b * c ==> a <= b,
        a * c < b * c ==> a < b,
{
    assert(a * c <= b * c ==> a <= b) by (nonlinear_arith)
        requires c > 0;
    assert(a * c < b * c ==> a < b) by (nonlinear_arith)
        requires c > 0;
}

/// The code that an exact magnitude between `k` and `k + 1` quanta rounds to.
pub proof fn lemma_nearest(n: nat, d: nat, k: nat, q: nat)
    requires
        d > 0,
        k < 0x100_0000,
        q == 0 || k >= HIDDEN_BIT,
        k * (pow2(q) * d) <= n < (k + 1) * (pow2(q) * d),
    ensures
        ({
            let code = q * HIDDEN_BIT as nat + k;
            let half = (2 * k + 1) * (pow2(q) * d);
            if code >= INFINITY {
                rounds_to(n, d, INFINITY as nat)
            } else if 2 * n < half || (2 * n == half && k % 2 == 0) {
                rounds_to(n, d, code)
            } else {
                rounds_to(n, d, code + 1)
            }
        }),
{
    let code = q * HIDDEN_BIT as nat + k;
    let p = pow2(q);
    lemma_pow2_pos(q);
    lemma_assembled(k, q);
    lemma_assembled(k + 1, q);
    lemma_disassembled(code);
    let u0 = units(code);
    let u1 = units(code + 1);
    assert(u0 * d == k * (p * d)) by {
        lemma_mul_is_associative(k as int, p as int, d as int);
    }
    assert(u1 * d == (k + 1) * (p * d)) by {
        lemma_mul_is_associative((k + 1) as int, p as int, d as int);
    }
    assert((u0 + u1) * d == u0 * d + u1 * d) by (nonlinear_arith);
    assert((2 * k + 1) * (p * d) == k * (p * d) + (k + 1) * (p * d)) by (nonlinear_arith);
    if code >= INFINITY {
        let top = INFINITY as nat;
        lemma_units_increase((top - 1) as nat, top);
        if top < code {
            lemma_units_increase(top, code);
        }
        let m = units((top - 1) as nat) + units(top);
        assert(m * d <= 2 * u0 * d) by (nonlinear_arith)
            requires m <= 2 * u0;
        assert(2 * u0 * d == 2 * (u0 * d)) by (nonlinear_arith);
    } else {
        if code > 0 {
            lemma_units_increase((code - 1) as nat, code);
            let below = units((code - 1) as nat) + u0;
            assert(below * d < 2 * u0 * d) by (nonlinear_arith)
                requires below < 2 * u0, d > 0;
            assert(2 * u0 * d == 2 * (u0 * d)) by (nonlinear_arith);
        }
        lemma_units_increase(code + 1, code + 2);
        let above = u1 + units(code + 2);
        assert(2 * u1 * d < above * d) by (nonlinear_arith)
            requires 2 * u1 < above, d > 0;
        assert(2 * u1 * d == 2 * (u1 * d)) by (nonlinear_arith);
        assert((code + 1 + 1) as nat == code + 2);
        assert((code + 1 - 1) as nat == code);
    }
}

/// Every exact magnitude rounds to some code.
pub proof fn lemma_round_exists(n: nat, d: nat)
    requires
        d > 0,
    ensures
        rounds_to(n, d, round(n, d)),
{
    lemma_bracket(n, d, INFINITY as nat);
}

proof fn lemma_bracket(n: nat, d: nat, top: nat)
    requires
        d > 0,
        top <= INFINITY,
        top == INFINITY || n < units(top) * d,
    ensures
        exists|code: nat| rounds_to(n, d, code),
    decreases top,
{
    if top > 0 && n < units(top) * d {
        let below = (top - 1) as nat;
        if n < units(below) * d {
            lemma_bracket(n, d, below);
        } else {
            let k = significand(below);
            let q = quantum(below);
            lemma_disassembled(below);
            lemma_successor(below);
            assert(units(below) * d == k * (pow2(q) * d)) by {
                lemma_mul_is_associative(k as int, pow2(q) as int, d as int);
            }
            assert(units(top) * d == (k + 1) * (pow2(q) * d)) by (nonlinear_arith)
                requires
                    units(top) == k * pow2(q) + pow2(q);
            lemma_nearest(n, d, k, q);
        }
    } else if top == 0 {
        assert(units(0) == 0 * pow2(0));
        assert(units(0) * d == 0) by (nonlinear_arith)
            requires
                units(0) == 0;
    } else {
        let code = INFINITY as nat;
        let k = significand(code);
        lemma_units_increase((code - 1) as nat, code);
        let m = units((code - 1) as nat) + units(code);
        assert(m * d <= 2 * units(code) * d) by (nonlinear_arith)
            requires
                m <= 2 * units(code);
        assert(2 * units(code) * d == 2 * (units(code) * d)) by (nonlinear_arith);
        assert(rounds_to(n, d, code));
    }
}

/// A magnitude that is representable rounds to itself.
pub proof fn lemma_round_exact(code: nat)
    requires
        code <= INFINITY,
    ensures
        round(units(code), 1) == code,
{
    if code > 0 {
        lemma_units_increase((code - 1) as nat, code);
    }
    lemma_units_increase(code, code + 1);
    assert(rounds_to(units(code), 1, code));
    lemma_round_is(units(code), 1, code);
}

/// The weight of one step of a shifted significand.
proof fn lemma_weight(u: nat, d: nat, up: nat, down: nat, q: nat, s: nat)
    requires
        u * pow2(down) == d * pow2(up),
        q + down == up + s,
    ensures
        pow2(q) * d == pow2(s) * u,
{
    lemma_pow2_adds(q, down);
    lemma_pow2_adds(up, s);
    lemma_pow2_pos(up);
    let (pq, ps, pu, pd) = (pow2(q), pow2(s), pow2(up), pow2(down));
    assert((pq * d) * pu == (ps * u) * pu) by (nonlinear_arith)
        requires
            u * pd == d * pu,
            pq * pd == pu * ps;
    assert(pq * d == ps * u) by (nonlinear_arith)
        requires
            (pq * d) * pu == (ps * u) * pu,
            pu > 0;
}

/// Two to the power of `e`.
pub fn power_of_two(e: u32) -> (p: u64)
    requires
        e < 64,
    ensures
        p == pow2(e as nat),
{
    proof {
        lemma_u64_pow2_no_overflow(e as nat);
        lemma_u64_shl_is_mul(1u64, e as u64);
    }
    1u64 << (e as u64)
}

proof fn lemma_quotient_shrinks(sig: u64, s: u32)
    requires
        sig < 0x4000_0000_0000_0000,
        s < 63,
        sig as nat / pow2(s as nat) >= 0x100_0000,
    ensures
        s + 1 < 63,
        sig as nat / pow2((s + 1) as nat) >= 0x80_0000,
{
    let p = pow2(s as nat);
    lemma_pow2_pos(s as nat);
    lemma_fundamental_div_mod(sig as int, p as int);
    if s >= 62 {
        lemma2_to64_rest();
        assert(p * (sig as nat / p) >= 0x4000_0000_0000_0000) by (nonlinear_arith)
            requires
                p >= 0x4000_0000_0000_0000,
                sig as nat / p >= 1;
        assert(false);
    }
    lemma_pow2_unfold((s + 1) as nat);
    lemma_div_denominator(sig as int, p as int, 2);
    assert(p * 2 == pow2((s + 1) as nat));
}

/// Where an exact magnitude lies between two shifted significands.
proof fn lemma_remainder(sig: nat, s: nat, k: nat, rem: nat, u: nat, n: nat)
    requires
        u > 0,
        k == sig / pow2(s),
        rem == sig % pow2(s),
        sig * u <= n < (sig + 1) * u,
        s == 0 ==> n == sig * u,
    ensures
        k * (pow2(s) * u) <= n < (k + 1) * (pow2(s) * u),
        ({
            let half = pow2(s) / 2;
            let middle = (2 * k + 1) * (pow2(s) * u);
            &&& s == 0 ==> rem == 0 && 2 * n < middle
            &&& s > 0 && rem > half ==> 2 * n > middle
            &&& s > 0 && rem == half && n != sig * u ==> 2 * n > middle
            &&& s > 0 && rem == half && n == sig * u ==> 2 * n == middle
            &&& s > 0 && rem < half ==> 2 * n < middle
        }),
{
    let p = pow2(s);
    lemma_pow2_pos(s);
    lemma_fundamental_div_mod(sig as int, p as int);
    lemma_mod_bound(sig as int, p as int);
    lemma2_to64();
    assert(sig == p * k + rem);
    assert(k * (p * u) == (p * k) * u) by (nonlinear_arith);
    assert((k + 1) * (p * u) == (p * k + p) * u) by (nonlinear_arith);
    assert((p * k) * u <= sig * u) by (nonlinear_arith)
        requires
            p * k <= sig;
    assert((sig + 1) * u <= (p * k + p) * u) by (nonlinear_arith)
        requires
            sig + 1 <= p * k + p;
    if s == 0 {
        assert((2 * k + 1) * (p * u) == 2 * (k * u) + u) by (nonlinear_arith)
            requires
                p == 1;
    } else {
        lemma_pow2_unfold(s);
        let half = p / 2;
        let center = p * k + half;
        assert((2 * k + 1) * (p * u) == 2 * (center * u)) by (nonlinear_arith)
            requires
                p == 2 * half,
                center == p * k + half;
        if rem > half {
            assert(center * u < sig * u) by (nonlinear_arith)
                requires
                    center < sig,
                    u > 0;
        } else if rem < half {
            assert((sig + 1) * u <= center * u) by (nonlinear_arith)
                requires
                    sig + 1 <= center;
        }
    }
}

/// Assembles a code, no larger than that of infinity.
fn saturate(q: u32, k: u64) -> (code: u32)
    requires
        q <= 2100,
        k <= 0x100_0000,
    ensures
        code == if q * HIDDEN_BIT + k >= INFINITY { INFINITY as int } else { q * HIDDEN_BIT + k },
{
    let whole = (q as u64) * 0x80_0000 + k;
    if whole >= 0x7F80_0000 {
        INFINITY
    } else {
        whole as u32
    }
}

/// Rounds an exact magnitude known by its leading bits.
///
/// The magnitude `n / d` lies at `sig` steps, or strictly between `sig` and `sig + 1` steps when
/// `sticky` holds, where a step of weight `u / d` is two to the power of `up - down` units.
pub(crate) fn round_steps(
    sig: u64,
    sticky: bool,
    up: u32,
    down: u32,
    Ghost(n): Ghost<nat>,
    Ghost(d): Ghost<nat>,
    Ghost(u): Ghost<nat>,
) -> (code: u32)
    requires
        sig < 0x4000_0000_0000_0000,
        sticky ==> sig >= 0x100_0000,
        up <= 1000,
        down <= 1000,
        d > 0,
        u > 0,
        u * pow2(down as nat) == d * pow2(up as nat),
        sig * u <= n < (sig + 1) * u,
        sticky <==> n != sig * u,
    ensures
        rounds_to(n, d, code as nat),
        code as nat == round(n, d),
{
    let code = if sig < 0x100_0000 && up >= down {
        // The significand fits: move it up as far as the exponent allows.
        let mut k: u64 = sig;
        let mut l: u32 = 0;
        let room: u32 = up - down;
        proof {
            lemma2_to64();
            assert(sig * 1 == sig);
        }
        while k < 0x80_0000 && l < room
            invariant
                l <= room,
                room == up - down,
                k < 0x100_0000,
                k == sig * pow2(l as nat),
            decreases room - l,
        {
            proof {
                lemma_pow2_unfold((l + 1) as nat);
                assert(sig * (2 * pow2(l as nat)) == 2 * (sig * pow2(l as nat)))
                    by (nonlinear_arith);
            }
            k = 2 * k;
            l = l + 1;
        }
        let q: u32 = room - l;
        proof {
            lemma_weight(u, d, up as nat, down as nat, room as nat, 0);
            lemma2_to64();
            lemma_pow2_adds(q as nat, l as nat);
            let (pl, pq) = (pow2(l as nat), pow2(q as nat));
            assert((sig * pl) * (pq * d) == sig * ((pq * pl) * d)) by (nonlinear_arith);
            assert(n == sig * u);
            assert(k * (pq * d) == n);
            lemma_pow2_pos(q as nat);
            assert(pq * d > 0) by (nonlinear_arith)
                requires
                    pq > 0,
                    d > 0;
            assert((k + 1) * (pq * d) == k * (pq * d) + pq * d) by (nonlinear_arith);
            assert((2 * k + 1) * (pq * d) == 2 * (k * (pq * d)) + pq * d) by (nonlinear_arith);
            lemma_nearest(n, d, k as nat, q as nat);
        }
        saturate(q, k)
    } else {
        let mut s: u32 = 0;
        if up < down {
            s = down - up;
        }
        if s >= 63 {
            proof {
                lemma_weight(u, d, up as nat, down as nat, 0, s as nat);
                lemma2_to64();
                lemma_pow2_adds((s - 63) as nat, 63);
                lemma2_to64_rest();
                lemma_pow2_pos((s - 63) as nat);
                let ps = pow2(s as nat);
                assert(ps >= 0x8000_0000_0000_0000) by (nonlinear_arith)
                    requires
                        ps == pow2((s - 63) as nat) * 0x8000_0000_0000_0000,
                        pow2((s - 63) as nat) > 0;
                assert(2 * n < ps * u) by (nonlinear_arith)
                    requires
                        n < (sig + 1) * u,
                        2 * (sig + 1) <= ps,
                        u > 0;
                assert(pow2(0) * d == d);
                lemma_nearest(n, d, 0, 0);
            }
            0
        } else {
            let mut p: u64 = power_of_two(s);
            proof {
                lemma2_to64();
                lemma_pow2_pos(s as nat);
            }
            while sig / p >= 0x100_0000
                invariant
                    s < 63,
                    p == pow2(s as nat),
                    p > 0,
                    sig < 0x4000_0000_0000_0000,
                    up <= 1000,
                    down <= 1000,
                    up + s >= down,
                    up + s == down || sig as nat / pow2(s as nat) >= 0x80_0000,
                decreases 63 - s,
            {
                proof {
                    lemma_quotient_shrinks(sig, s);
                }
                s = s + 1;
                p = power_of_two(s);
                proof {
                    lemma_pow2_pos(s as nat);
                }
            }
            let k = sig / p;
            let rem = sig % p;
            let q: u32 = up + s - down;
            proof {
                lemma_weight(u, d, up as nat, down as nat, q as nat, s as nat);
                lemma_remainder(sig as nat, s as nat, k as nat, rem as nat, u, n);
                lemma_nearest(n, d, k as nat, q as nat);
            }
            let half = p / 2;
            if rem > half || (rem == half && s > 0 && (sticky || k % 2 == 1)) {
                saturate(q, k + 1)
            } else {
                saturate(q, k)
            }
        }
    };
    proof {
        lemma_round_is(n, d, code as nat);
    }
    code
}

proof fn lemma_square_order(a: nat, b: nat)
    ensures
        a <= b <==> a * a <= b * b,
        a < b <==> a * a < b * b,
{
    assert(a <= b ==> a * a <= b * b) by (nonlinear_arith);
    assert(b <= a ==> b * b <= a * a) by (nonlinear_arith);
    assert(a < b ==> a * a < b * b) by (nonlinear_arith);
    assert(b < a ==> b * b < a * a) by (nonlinear_arith);
}

/// The square root of an exact magnitude rounds to one code only, and that of a larger one to
/// no smaller code.
pub proof fn lemma_root_monotone(n1: nat, a: nat, n2: nat, b: nat)
    requires
        n1 <= n2,
        root_rounds_to(n1, a),
        root_rounds_to(n2, b),
    ensures
        a <= b,
{
    if b < a {
        let low = units(b) + units(b + 1);
        let high = units((a - 1) as nat) + units(a);
        if b + 1 < a {
            lemma_units_increase(b, (a - 1) as nat);
            lemma_units_increase(b + 1, a);
        }
        lemma_square_order(low, high);
        lemma_square_order(high, low);
    }
}

/// Whatever code a square root rounds to is the one that [`round_root`] names.
pub proof fn lemma_round_root_is(n: nat, code: nat)
    requires
        root_rounds_to(n, code),
    ensures
        round_root(n) == code,
{
    lemma_root_monotone(n, code, n, round_root(n));
    lemma_root_monotone(n, round_root(n), n, code);
}

/// The code that a square root between `k` and `k + 1` quanta rounds to.
pub proof fn lemma_nearest_root(n: nat, k: nat, q: nat)
    requires
        HIDDEN_BIT <= k < 0x100_0000,
        q <= 250,
        (k * pow2(q)) * (k * pow2(q)) <= n < ((k + 1) * pow2(q)) * ((k + 1) * pow2(q)),
    ensures
        ({
            let code = q * HIDDEN_BIT as nat + k;
            let middle = (2 * k + 1) * pow2(q);
            if 4 * n < middle * middle || (4 * n == middle * middle && k % 2 == 0) {
                root_rounds_to(n, code)
            } else {
                root_rounds_to(n, code + 1)
            }
        }),
{
    let code = q * HIDDEN_BIT as nat + k;
    let p = pow2(q);
    lemma_assembled(k, q);
    lemma_assembled(k + 1, q);
    lemma_disassembled(code);
    let u0 = units(code);
    let u1 = units(code + 1);
    assert((2 * k + 1) * p == k * p + (k + 1) * p) by (nonlinear_arith);
    lemma_units_increase((code - 1) as nat, code);
    lemma_units_increase(code + 1, code + 2);
    let below = units((code - 1) as nat) + u0;
    let above = u1 + units(code + 2);
    lemma_square_order(below, 2 * u0);
    lemma_square_order(2 * u1, above);
    assert((2 * u0) * (2 * u0) == 4 * (u0 * u0)) by (nonlinear_arith);
    assert((2 * u1) * (2 * u1) == 4 * (u1 * u1)) by (nonlinear_arith);
    assert((code + 1 + 1) as nat == code + 2);
    assert((code + 1 - 1) as nat == code);
}

/// The square root of every exact magnitude rounds to some code.
pub proof fn lemma_root_exists(n: nat)
    ensures
        root_rounds_to(n, round_root(n)),
{
    lemma_root_bracket(n, INFINITY as nat);
}

proof fn lemma_root_bracket(n: nat, top: nat)
    requires
        top <= INFINITY,
        top == INFINITY || n < units(top) * units(top),
    ensures
        exists|code: nat| root_rounds_to(n, code),
    decreases top,
{
    let high = units(top);
    assert(units(0) == 0 * pow2(0));
    if top == 0 {
        assert(high * high == 0) by (nonlinear_arith)
            requires
                high == 0;
    } else {
        let below = (top - 1) as nat;
        let low = units(below);
        lemma_units_increase(below, top);
        let middle = low + high;
        assert((2 * low) * (2 * low) == 4 * (low * low)) by (nonlinear_arith);
        assert((2 * high) * (2 * high) == 4 * (high * high)) by (nonlinear_arith);
        lemma_square_order(middle, 2 * high);
        if n >= high * high {
            assert(root_rounds_to(n, top));
        } else if n < low * low {
            lemma_root_bracket(n, below);
        } else if 4 * n < middle * middle || (4 * n == middle * middle && below % 2 == 0) {
            if below > 0 {
                lemma_units_increase((below - 1) as nat, below);
                lemma_square_order(units((below - 1) as nat) + low, 2 * low);
            }
            assert(root_rounds_to(n, below));
        } else {
            lemma_units_increase(top, top + 1);
            lemma_square_order(2 * high, high + units(top + 1));
            assert(root_rounds_to(n, top));
        }
    }
}

/// The square root of the square of a magnitude is the magnitude.
pub proof fn lemma_root_exact(code: nat)
    requires
        code <= INFINITY,
    ensures
        round_root(units(code) * units(code)) == code,
{
    let u = units(code);
    assert((2 * u) * (2 * u) == 4 * (u * u)) by (nonlinear_arith);
    if code > 0 {
        lemma_units_increase((code - 1) as nat, code);
        lemma_square_order(units((code - 1) as nat) + u, 2 * u);
    }
    lemma_units_increase(code, code + 1);
    lemma_square_order(2 * u, u + units(code + 1));
    assert(root_rounds_to(u * u, code));
    lemma_round_root_is(u * u, code);
}

/// The integer square root of a number of at most 48 bits.
fn integer_root(a: u64) -> (r: u64)
    requires
        a < 0x1_0000_0000_0000,
    ensures
        r * r <= a < (r + 1) * (r + 1),
        r < 0x100_0000,
{
    let mut r: u64 = 0;
    let mut span: u64 = 0x100_0000;
    let mut j: u32 = 24;
    proof {
        lemma2_to64();
    }
    while j > 0
        invariant
            j <= 24,
            span == pow2(j as nat),
            span <= 0x100_0000,
            r + span <= 0x100_0000,
            r * r <= a < (r + span) * (r + span),
        decreases j,
    {
        proof {
            lemma_pow2_unfold(j as nat);
        }
        let half = span / 2;
        let candidate = r + half;
        proof {
            assert(candidate * candidate <= 0x100_0000 * 0x100_0000) by (nonlinear_arith)
                requires
                    candidate <= 0x100_0000;
        }
        if candidate * candidate <= a {
            r = candidate;
        }
        span = half;
        j = j - 1;
    }
    proof {
        lemma2_to64();
        if r == 0x100_0000 {
            assert(false);
        }
    }
    r
}

/// Rounds the square root of a positive magnitude, given as a significand and the exponent of
/// its spacing, to a code.
pub(crate) fn root_code(k: u64, q: u32) -> (code: u32)
    requires
        0 < k < 0x100_0000,
        q <= 253,
    ensures
        code as nat == round_root((k as nat * pow2(q as nat)) * pow2(149)),
        code < INFINITY,
{
    let ghost n: nat = (k as nat * pow2(q as nat)) * pow2(149);
    let mut a: u64 = k;
    let mut e: u32 = q + 149;
    proof {
        lemma_pow2_adds(q as nat, 149);
        assert(n == a * pow2(e as nat)) by {
            lemma_mul_is_associative(k as int, pow2(q as nat) as int, pow2(149) as int);
        }
    }
    if e % 2 == 1 {
        proof {
            lemma_pow2_unfold(e as nat);
            assert((2 * a) * pow2((e - 1) as nat) == a * (2 * pow2((e - 1) as nat)))
                by (nonlinear_arith);
        }
        a = 2 * a;
        e = e - 1;
    }
    let ghost mut steps: nat = 0;
    proof {
        lemma2_to64();
        assert(a * 1 == a);
    }
    let ghost start = a;
    while a < 0x4000_0000_0000
        invariant
            0 < start,
            start * pow2(2 * steps) == a,
            0 < a < 0x1_0000_0000_0000,
            e % 2 == 0,
            e <= 402,
            e + 2 * steps >= 148,
            n == a * pow2(e as nat),
        decreases 0x1_0000_0000_0000 - a,
    {
        proof {
            lemma2_to64();
            lemma2_to64_rest();
            if 2 * steps >= 46 {
                if 2 * steps > 46 {
                    lemma_pow2_strictly_increases(46, 2 * steps);
                }
                assert(start * pow2(2 * steps) >= 0x4000_0000_0000) by (nonlinear_arith)
                    requires
                        start >= 1,
                        pow2(2 * steps) >= 0x4000_0000_0000;
                assert(false);
            }
            lemma_pow2_adds((e - 2) as nat, 2);
            lemma_pow2_adds(2 * steps, 2);
            assert((4 * a) * pow2((e - 2) as nat) == a * (pow2((e - 2) as nat) * 4))
                by (nonlinear_arith);
            assert(start * (pow2(2 * steps) * 4) == 4 * (start * pow2(2 * steps)))
                by (nonlinear_arith);
            assert(2 * steps + 2 == 2 * (steps + 1));
            steps = steps + 1;
        }
        a = 4 * a;
        e = e - 2;
    }
    let r = integer_root(a);
    let half: u32 = e / 2;
    proof {
        lemma_square_order(r as nat + 1, 0x80_0000);
        assert(r >= 0x80_0000);
        lemma_pow2_adds(half as nat, half as nat);
        let p = pow2(half as nat);
        assert((r * p) * (r * p) == (r * r) * (p * p)) by (nonlinear_arith);
        assert(((r + 1) * p) * ((r + 1) * p) == ((r + 1) * (r + 1)) * (p * p))
            by (nonlinear_arith);
        let middle = (2 * r + 1) * p;
        assert(middle * middle == ((2 * r + 1) * (2 * r + 1)) * (p * p)) by (nonlinear_arith)
            requires
                middle == (2 * r + 1) * p;
        lemma_pow2_pos(half as nat);
        assert(p * p > 0) by (nonlinear_arith)
            requires
                p > 0;
        assert((r * r) * (p * p) <= a * (p * p)) by (nonlinear_arith)
            requires
                r * r <= a;
        assert(a * (p * p) < ((r + 1) * (r + 1)) * (p * p)) by (nonlinear_arith)
            requires
                a < (r + 1) * (r + 1),
                p * p > 0;
        lemma_nearest_root(n, r as nat, half as nat);
        assert((2 * r + 1) * (2 * r + 1) == 4 * (r * r) + 4 * r + 1) by (nonlinear_arith);
        assert(4 * n == (4 * a) * (p * p)) by (nonlinear_arith)
            requires
                n == a * (p * p);
        if a > r * r + r {
            assert(((2 * r + 1) * (2 * r + 1)) * (p * p) < (4 * a) * (p * p)) by (nonlinear_arith)
                requires
                    (2 * r + 1) * (2 * r + 1) < 4 * a,
                    p * p > 0;
        } else {
            assert((4 * a) * (p * p) < ((2 * r + 1) * (2 * r + 1)) * (p * p)) by (nonlinear_arith)
                requires
                    4 * a < (2 * r + 1) * (2 * r + 1),
                    p * p > 0;
        }
        assert(r * r + r <= 0x100_0000 * 0x100_0000) by (nonlinear_arith)
            requires
                r < 0x100_0000;
    }
    let code = if a > r * r + r {
        saturate(half, r + 1)
    } else {
        saturate(half, r)
    };
    proof {
        lemma_round_root_is(n, code as nat);
    }
    code
}

} // verus!
