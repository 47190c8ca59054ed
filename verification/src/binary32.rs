//! Binary32 floating-point numbers, held as their bits.
//!
//! Each operation gives the number that the IEEE 754 standard prescribes with rounding to
//! nearest, ties to even; an operation without a numeric result gives the quiet not-a-number
//! [`NOT_A_NUMBER`]. The contracts state each result over exact integers: see [`crate::magnitude`].

use core::ops::{Add, Div, Mul, Rem, Sub};
use vstd::prelude::*;
use vstd::arithmetic::div_mod::*;
use vstd::arithmetic::mul::*;
use vstd::arithmetic::power2::*;
use vstd::std_specs::ops::{AddSpecImpl, DivSpecImpl, MulSpecImpl, RemSpecImpl, SubSpecImpl};
use crate::magnitude;
use crate::magnitude::{HIDDEN_BIT, INFINITY};

verus! {

/// The bits of the quiet not-a-number that operations without a numeric result give.
pub const NOT_A_NUMBER: u32 = 0x7FC0_0000;

/// The bit that marks negative numbers.
pub const SIGN_BIT: u32 = 0x8000_0000;

/// Zero.
pub const ZERO: u32 = 0;

/// One half.
pub const HALF: u32 = 0x3F00_0000;

/// One.
pub const ONE: u32 = 0x3F80_0000;

/// Two.
pub const TWO: u32 = 0x4000_0000;

/// A binary32 floating-point number.
///
/// What the operators mean is stated by the spec functions `spec_add`, `spec_sub`, `spec_mul`,
/// `spec_euclidean_or_real_div` and `spec_euclidean_mod`; proofs that need more than their names
/// reveal them.
#[derive(Clone, Copy, Debug)]
pub struct Binary32 {
    pub bits: u32,
}

impl Binary32 {
    /// The number with the given bits.
    #[verifier::allow_in_spec]
    pub fn from_bits(bits: u32) -> Binary32
        returns
            (Binary32 { bits }),
    {
        Binary32 { bits }
    }

    /// The bits of the number.
    #[verifier::allow_in_spec]
    pub fn to_bits(self) -> u32
        returns
            self.bits,
    {
        self.bits
    }

    /// Whether the sign bit is set.
    #[verifier::allow_in_spec]
    pub fn is_negative(self) -> bool
        returns
            self.bits >= SIGN_BIT,
    {
        self.bits >= SIGN_BIT
    }

    /// The bits without the sign bit.
    #[verifier::allow_in_spec]
    pub fn magnitude(self) -> u32
        returns
            (self.bits % SIGN_BIT),
    {
        self.bits % SIGN_BIT
    }

    /// Whether this is no number.
    #[verifier::allow_in_spec]
    pub fn is_nan(self) -> bool
        returns
            self.magnitude() > INFINITY,
    {
        self.magnitude() > INFINITY
    }

    /// Whether this is one of the two infinities.
    #[verifier::allow_in_spec]
    pub fn is_infinite(self) -> bool
        returns
            self.magnitude() == INFINITY,
    {
        self.magnitude() == INFINITY
    }

    /// Whether this is neither infinite nor no number.
    #[verifier::allow_in_spec]
    pub fn is_finite(self) -> bool
        returns
            self.magnitude() < INFINITY,
    {
        self.magnitude() < INFINITY
    }

    /// The magnitude in units of two to the minus 149.
    pub open spec fn units(self) -> nat {
        magnitude::units(self.magnitude() as nat)
    }

    /// The number in units of two to the minus 149. The infinities lie beyond all finite numbers.
    pub open spec fn value(self) -> int {
        if self.is_negative() {
            -(self.units() as int)
        } else {
            self.units() as int
        }
    }

    /// The number with the given sign and magnitude code.
    pub open spec fn signed(negative: bool, code: nat) -> Binary32 {
        Binary32 {
            bits: (if negative {
                code + SIGN_BIT
            } else {
                code as int
            }) as u32,
        }
    }

    pub open spec fn nan() -> Binary32 {
        Binary32 { bits: NOT_A_NUMBER }
    }

    #[verifier::opaque]
    pub open spec fn spec_add(self, rhs: Binary32) -> Binary32 {
        if self.is_nan() || rhs.is_nan() {
            Self::nan()
        } else if self.is_infinite() {
            if rhs.is_infinite() && self.is_negative() != rhs.is_negative() {
                Self::nan()
            } else {
                self
            }
        } else if rhs.is_infinite() {
            rhs
        } else {
            let sum = self.value() + rhs.value();
            if sum == 0 {
                Self::signed(self.is_negative() && rhs.is_negative(), 0)
            } else if sum < 0 {
                Self::signed(true, magnitude::round((-sum) as nat, 1))
            } else {
                Self::signed(false, magnitude::round(sum as nat, 1))
            }
        }
    }

    /// The number with the opposite sign.
    pub open spec fn opposite(self) -> Binary32 {
        Self::signed(!self.is_negative(), self.magnitude() as nat)
    }

    #[verifier::opaque]
    pub open spec fn spec_sub(self, rhs: Binary32) -> Binary32 {
        self + rhs.opposite()
    }

    #[verifier::opaque]
    pub open spec fn spec_mul(self, rhs: Binary32) -> Binary32 {
        let negative = self.is_negative() != rhs.is_negative();
        if self.is_nan() || rhs.is_nan() {
            Self::nan()
        } else if self.is_infinite() || rhs.is_infinite() {
            if self.magnitude() == 0 || rhs.magnitude() == 0 {
                Self::nan()
            } else {
                Self::signed(negative, INFINITY as nat)
            }
        } else {
            Self::signed(negative, magnitude::round(self.units() * rhs.units(), pow2(149)))
        }
    }

    #[verifier::opaque]
    pub open spec fn spec_euclidean_or_real_div(self, rhs: Binary32) -> Binary32 {
        let negative = self.is_negative() != rhs.is_negative();
        if self.is_nan() || rhs.is_nan() {
            Self::nan()
        } else if self.is_infinite() {
            if rhs.is_infinite() {
                Self::nan()
            } else {
                Self::signed(negative, INFINITY as nat)
            }
        } else if rhs.is_infinite() {
            Self::signed(negative, 0)
        } else if rhs.magnitude() == 0 {
            if self.magnitude() == 0 {
                Self::nan()
            } else {
                Self::signed(negative, INFINITY as nat)
            }
        } else {
            Self::signed(negative, magnitude::round(self.units() * pow2(149), rhs.units()))
        }
    }

    #[verifier::opaque]
    pub open spec fn spec_euclidean_mod(self, rhs: Binary32) -> Binary32 {
        if self.is_nan() || rhs.is_nan() || self.is_infinite() || rhs.magnitude() == 0 {
            Self::nan()
        } else if rhs.is_infinite() {
            self
        } else {
            Self::signed(self.is_negative(), magnitude::round(self.units() % rhs.units(), 1))
        }
    }

    /// The square root.
    #[verifier::opaque]
    pub open spec fn root(self) -> Binary32 {
        if self.magnitude() == 0 {
            self
        } else if self.is_nan() || self.is_negative() {
            Self::nan()
        } else if self.is_infinite() {
            self
        } else {
            Self::signed(false, magnitude::round_root(self.units() * pow2(149)))
        }
    }
}

/// Facts about the bits of a number assembled from a sign and a code.
pub proof fn lemma_signed(negative: bool, code: nat)
    requires
        code < SIGN_BIT,
    ensures
        Binary32::signed(negative, code).is_negative() == negative,
        Binary32::signed(negative, code).magnitude() == code,
{
}

/// Assembles a number from its sign and magnitude code.
fn assemble(negative: bool, code: u32) -> (r: Binary32)
    requires
        code < SIGN_BIT,
    ensures
        r == Binary32::signed(negative, code as nat),
{
    if negative {
        Binary32 { bits: code + SIGN_BIT }
    } else {
        Binary32 { bits: code }
    }
}

/// The significand and the exponent of a finite magnitude.
fn split(code: u32) -> (r: (u64, u32))
    requires
        code < INFINITY,
    ensures
        r.0 == magnitude::significand(code as nat),
        r.1 == magnitude::quantum(code as nat),
        r.0 < 0x100_0000,
        r.1 <= 253,
        r.1 == 0 || r.0 >= HIDDEN_BIT,
        magnitude::units(code as nat) == r.0 * pow2(r.1 as nat),
{
    proof {
        magnitude::lemma_disassembled(code as nat);
    }
    if code < HIDDEN_BIT {
        (code as u64, 0)
    } else {
        ((HIDDEN_BIT + code % HIDDEN_BIT) as u64, code / HIDDEN_BIT - 1)
    }
}

/// A magnitude swamps another one whose quantum is more than 36 powers of two smaller: neither
/// adding nor taking away the smaller one moves the larger one off its code.
proof fn lemma_swamped(a: nat, b: nat)
    requires
        a < INFINITY,
        magnitude::quantum(a) > magnitude::quantum(b) + 36,
    ensures
        magnitude::units(b) < magnitude::units(a),
        magnitude::rounds_to(magnitude::units(a) + magnitude::units(b), 1, a),
        magnitude::rounds_to((magnitude::units(a) - magnitude::units(b)) as nat, 1, a),
{
    let (ka, qa) = (magnitude::significand(a), magnitude::quantum(a));
    let (kb, qb) = (magnitude::significand(b), magnitude::quantum(b));
    let (ua, ub) = (magnitude::units(a), magnitude::units(b));
    magnitude::lemma_disassembled(a);
    magnitude::lemma_disassembled(b);
    lemma2_to64();
    lemma2_to64_rest();
    let rest = (qa - qb - 26) as nat;
    lemma_pow2_pos(qb);
    lemma_pow2_pos(rest);
    lemma_pow2_adds(rest, 26);
    lemma_pow2_adds(qb, (qa - qb) as nat);
    let (pa, pb, pr) = (pow2(qa), pow2(qb), pow2(rest));
    assert(4 * ub < pa) by (nonlinear_arith)
        requires
            ub == kb * pb,
            kb < 0x100_0000,
            pa == pb * (pr * 0x400_0000),
            pr > 0,
            pb > 0;
    assert(ua >= pa) by (nonlinear_arith)
        requires
            ua == ka * pa,
            ka >= 1;
    magnitude::lemma_successor(a);
    let c = (a - 1) as nat;
    magnitude::lemma_successor(c);
    magnitude::lemma_disassembled(c);
    lemma_pow2_unfold(qa);
    assert(magnitude::quantum(c) == qa || magnitude::quantum(c) + 1 == qa);
    assert(2 * pow2(magnitude::quantum(c)) >= pa);
}

/// The sum of two finite numbers, the first of no smaller magnitude.
fn add_finite(large: Binary32, small: Binary32) -> (r: Binary32)
    requires
        large.is_finite(),
        small.is_finite(),
        small.magnitude() <= large.magnitude(),
    ensures
        r == large + small,
{
    proof {
        reveal(Binary32::spec_add);
    }
    let a = large.magnitude();
    let b = small.magnitude();
    let (ka, qa) = split(a);
    let (kb, qb) = split(b);
    proof {
        magnitude::lemma_units_order(b as nat, a as nat);
        magnitude::lemma_disassembled(a as nat);
        magnitude::lemma_disassembled(b as nat);
    }
    let far: u32 = qa - qb;
    if far > 36 {
        proof {
            lemma_swamped(a as nat, b as nat);
            magnitude::lemma_round_is((large.units() + small.units()) as nat, 1, a as nat);
            magnitude::lemma_round_is((large.units() - small.units()) as nat, 1, a as nat);
        }
        return large;
    }
    let p = magnitude::power_of_two(far);
    proof {
        lemma2_to64();
        lemma2_to64_rest();
        if far < 36 {
            lemma_pow2_strictly_increases(far as nat, 36);
        }
        lemma_pow2_pos(far as nat);
        lemma_pow2_pos(qb as nat);
        lemma_pow2_adds(far as nat, qb as nat);
        assert(ka * p <= 0x100_0000 * 0x10_0000_0000) by (nonlinear_arith)
            requires
                ka < 0x100_0000,
                p <= 0x10_0000_0000;
        let w = pow2(qb as nat);
        assert((ka * p) * w == ka * (p * w)) by (nonlinear_arith);
        assert((ka * p + kb) * w == (ka * p) * w + kb * w) by (nonlinear_arith);
        assert((ka * p - kb) * w == (ka * p) * w - kb * w) by (nonlinear_arith);
        assert((ka * p + kb + 1) * w == (ka * p + kb) * w + w) by (nonlinear_arith);
        assert((ka * p - kb + 1) * w == (ka * p - kb) * w + w) by (nonlinear_arith);
        assert(kb <= ka * p) by (nonlinear_arith)
            requires
                kb * w <= (ka * p) * w,
                w > 0;
        assert(w * 1 == 1 * w);
    }
    if large.is_negative() == small.is_negative() {
        let total = ka * p + kb;
        let code = magnitude::round_steps(
            total,
            false,
            qb,
            0,
            Ghost(large.units() + small.units()),
            Ghost(1),
            Ghost(pow2(qb as nat)),
        );
        proof {
            assert(magnitude::units(0) == 0 * pow2(0));
            magnitude::lemma_round_exact(0);
            let sum = large.value() + small.value();
            if large.is_negative() {
                assert((-sum) as nat == large.units() + small.units());
            } else {
                assert(sum as nat == large.units() + small.units());
            }
        }
        assemble(large.is_negative(), code)
    } else {
        let total = ka * p - kb;
        proof {
            assert(total == 0 <==> total * pow2(qb as nat) == 0) by (nonlinear_arith)
                requires
                    pow2(qb as nat) > 0;
        }
        if total == 0 {
            assemble(false, 0)
        } else {
            let code = magnitude::round_steps(
                total,
                false,
                qb,
                0,
                Ghost((large.units() - small.units()) as nat),
                Ghost(1),
                Ghost(pow2(qb as nat)),
            );
            proof {
                let sum = large.value() + small.value();
                if large.is_negative() {
                    assert((-sum) as nat == large.units() - small.units());
                } else {
                    assert(sum as nat == large.units() - small.units());
                }
            }
            assemble(large.is_negative(), code)
        }
    }
}

impl AddSpecImpl for Binary32 {
    open spec fn obeys_add_spec() -> bool {
        true
    }

    open spec fn add_req(self, rhs: Binary32) -> bool {
        true
    }

    open spec fn add_spec(self, rhs: Binary32) -> Binary32 {
        self + rhs
    }
}

impl Add for Binary32 {
    type Output = Binary32;

    fn add(self, rhs: Binary32) -> (r: Binary32) {
        proof {
            reveal(Binary32::spec_add);
        }
        if self.is_nan() || rhs.is_nan() {
            Binary32::from_bits(NOT_A_NUMBER)
        } else if self.is_infinite() {
            if rhs.is_infinite() && self.is_negative() != rhs.is_negative() {
                Binary32::from_bits(NOT_A_NUMBER)
            } else {
                self
            }
        } else if rhs.is_infinite() {
            rhs
        } else if self.magnitude() < rhs.magnitude() {
            add_finite(rhs, self)
        } else {
            add_finite(self, rhs)
        }
    }
}

impl Binary32 {
    /// The number with the opposite sign.
    pub fn negated(self) -> (r: Binary32)
        ensures
            r == self.opposite(),
    {
        assemble(!self.is_negative(), self.magnitude())
    }
}

impl SubSpecImpl for Binary32 {
    open spec fn obeys_sub_spec() -> bool {
        true
    }

    open spec fn sub_req(self, rhs: Binary32) -> bool {
        true
    }

    open spec fn sub_spec(self, rhs: Binary32) -> Binary32 {
        self - rhs
    }
}

impl Sub for Binary32 {
    type Output = Binary32;

    fn sub(self, rhs: Binary32) -> (r: Binary32) {
        proof {
            reveal(Binary32::spec_sub);
        }
        self + rhs.negated()
    }
}

/// The magnitude code of the product of two finite magnitudes.
fn product_code(a: u32, b: u32) -> (code: u32)
    requires
        a < INFINITY,
        b < INFINITY,
    ensures
        code == magnitude::round(
            magnitude::units(a as nat) * magnitude::units(b as nat),
            pow2(149),
        ),
        code <= INFINITY,
{
    let (ka, qa) = split(a);
    let (kb, qb) = split(b);
    proof {
        assert(ka * kb <= 0x100_0000 * 0x100_0000) by (nonlinear_arith)
            requires
                ka < 0x100_0000,
                kb < 0x100_0000;
        lemma_pow2_adds(qa as nat, qb as nat);
        lemma_pow2_pos((qa + qb) as nat);
        lemma_pow2_pos(149);
        let (pa, pb, p) = (pow2(qa as nat), pow2(qb as nat), pow2((qa + qb) as nat));
        assert((ka * pa) * (kb * pb) == (ka * kb) * p) by (nonlinear_arith)
            requires
                p == pa * pb;
        assert((ka * kb + 1) * p == (ka * kb) * p + p) by (nonlinear_arith);
        assert(p * pow2(149) == pow2(149) * p) by (nonlinear_arith);
    }
    magnitude::round_steps(
        ka * kb,
        false,
        qa + qb,
        149,
        Ghost(magnitude::units(a as nat) * magnitude::units(b as nat)),
        Ghost(pow2(149)),
        Ghost(pow2((qa + qb) as nat)),
    )
}

impl MulSpecImpl for Binary32 {
    open spec fn obeys_mul_spec() -> bool {
        true
    }

    open spec fn mul_req(self, rhs: Binary32) -> bool {
        true
    }

    open spec fn mul_spec(self, rhs: Binary32) -> Binary32 {
        self * rhs
    }
}

impl Mul for Binary32 {
    type Output = Binary32;

    fn mul(self, rhs: Binary32) -> (r: Binary32) {
        proof {
            reveal(Binary32::spec_mul);
        }
        let negative = self.is_negative() != rhs.is_negative();
        if self.is_nan() || rhs.is_nan() {
            Binary32::from_bits(NOT_A_NUMBER)
        } else if self.is_infinite() || rhs.is_infinite() {
            if self.magnitude() == 0 || rhs.magnitude() == 0 {
                Binary32::from_bits(NOT_A_NUMBER)
            } else {
                assemble(negative, INFINITY)
            }
        } else {
            assemble(negative, product_code(self.magnitude(), rhs.magnitude()))
        }
    }
}

/// The magnitude code of the quotient of two finite magnitudes, the second not zero.
fn quotient_code(a: u32, b: u32) -> (code: u32)
    requires
        a < INFINITY,
        0 < b < INFINITY,
    ensures
        code == magnitude::round(
            magnitude::units(a as nat) * pow2(149),
            magnitude::units(b as nat),
        ),
        code <= INFINITY,
{
    let (ka, qa) = split(a);
    let (kb, qb) = split(b);
    let ghost n = magnitude::units(a as nat) * pow2(149);
    let ghost d = magnitude::units(b as nat);
    proof {
        lemma2_to64();
        lemma_pow2_pos(qb as nat);
        assert(d > 0) by (nonlinear_arith)
            requires
                d == kb * pow2(qb as nat),
                kb > 0,
                pow2(qb as nat) > 0;
    }
    if ka == 0 {
        proof {
            assert(magnitude::units(0) == 0 * pow2(0));
            assert(n == 0) by (nonlinear_arith)
                requires
                    n == (ka * pow2(qa as nat)) * pow2(149),
                    ka == 0;
            magnitude::lemma_units_increase(0, 1);
            assert((magnitude::units(0) + magnitude::units(1)) * d >= 0) by (nonlinear_arith)
                requires
                    d > 0;
            assert(magnitude::rounds_to(0, d, 0));
            magnitude::lemma_round_is(0, d, 0);
        }
        return 0;
    }
    // Thirty-eight further bits of quotient leave room for rounding.
    let mut lifted: u64 = ka;
    let mut l: u32 = 0;
    proof {
        assert(ka * 1 == ka);
    }
    while lifted < 0x80_0000
        invariant
            l <= 23,
            ka > 0,
            0 < lifted < 0x100_0000,
            lifted == ka * pow2(l as nat),
            l == 23 ==> lifted >= 0x80_0000,
        decreases 23 - l,
    {
        proof {
            lemma_pow2_unfold((l + 1) as nat);
            assert(ka * (2 * pow2(l as nat)) == 2 * (ka * pow2(l as nat))) by (nonlinear_arith);
            lemma2_to64();
            if l + 1 == 23 {
                assert(ka * pow2(23) >= 0x80_0000) by (nonlinear_arith)
                    requires
                        ka >= 1,
                        pow2(23) == 0x80_0000;
            }
        }
        lifted = 2 * lifted;
        l = l + 1;
    }
    let dividend = lifted * 0x40_0000_0000;
    let sig = dividend / kb;
    let left = dividend % kb;
    let up: u32 = qa + 149;
    let down: u32 = l + 38 + qb;
    let ghost c = pow2(down as nat);
    let ghost u = d * pow2(up as nat);
    proof {
        lemma_fundamental_div_mod(dividend as int, kb as int);
        lemma_pow2_pos(down as nat);
        lemma_pow2_pos(up as nat);
        lemma_pow2_pos(qb as nat);
        lemma2_to64();
        lemma2_to64_rest();
        lemma_pow2_adds(qa as nat, 149);
        lemma_pow2_adds((l + 38) as nat, qb as nat);
        lemma_pow2_adds(l as nat, 38);
        lemma_quotient(
            ka as nat,
            pow2(qa as nat),
            kb as nat,
            pow2(qb as nat),
            pow2(l as nat),
            sig as nat,
            left as nat,
            pow2(149),
        );
        assert(sig >= 0x100_0000) by (nonlinear_arith)
            requires
                dividend == kb * sig + left,
                left < kb,
                kb < 0x100_0000,
                dividend >= 0x80_0000 * 0x40_0000_0000;
        assert(sig <= dividend) by (nonlinear_arith)
            requires
                dividend == kb * sig + left,
                kb > 0;
        assert(u > 0) by (nonlinear_arith)
            requires
                u == d * pow2(up as nat),
                d > 0,
                pow2(up as nat) > 0;
        assert(d * c > 0) by (nonlinear_arith)
            requires
                d > 0,
                c > 0;
        assert(u * pow2(down as nat) == (d * c) * pow2(up as nat)) by (nonlinear_arith)
            requires
                u == d * pow2(up as nat),
                c == pow2(down as nat);
    }
    let code = magnitude::round_steps(sig, left != 0, up, down, Ghost(n * c), Ghost(d * c), Ghost(u));
    proof {
        magnitude::lemma_round_scaled(n, d, c, code as nat);
        magnitude::lemma_round_is(n, d, code as nat);
    }
    code
}

/// How the bits of a quotient locate the exact one.
proof fn lemma_quotient(ka: nat, pa: nat, kb: nat, pb: nat, pl: nat, sig: nat, left: nat, w: nat)
    requires
        kb > 0,
        pa > 0,
        pb > 0,
        w > 0,
        left < kb,
        (ka * pl) * 0x40_0000_0000 == kb * sig + left,
    ensures
        ({
            let n = ((ka * pa) * w) * ((pl * 0x40_0000_0000) * pb);
            let u = (kb * pb) * (pa * w);
            &&& sig * u <= n < (sig + 1) * u
            &&& left != 0 <==> n != sig * u
        }),
{
    let n = ((ka * pa) * w) * ((pl * 0x40_0000_0000) * pb);
    let u = (kb * pb) * (pa * w);
    let v = pb * (pa * w);
    assert(v > 0) by (nonlinear_arith)
        requires
            v == pb * (pa * w),
            pa > 0,
            pb > 0,
            w > 0;
    assert(u == kb * v) by {
        lemma_mul_is_associative(kb as int, pb as int, (pa * w) as int);
    }
    assert(n == ((ka * pl) * 0x40_0000_0000) * v) by (nonlinear_arith)
        requires
            n == ((ka * pa) * w) * ((pl * 0x40_0000_0000) * pb),
            v == pb * (pa * w);
    assert(n == sig * (kb * v) + left * v) by (nonlinear_arith)
        requires
            n == (kb * sig + left) * v;
    assert((sig + 1) * (kb * v) == sig * (kb * v) + kb * v) by (nonlinear_arith);
    assert(left * v < kb * v) by (nonlinear_arith)
        requires
            left < kb,
            v > 0;
    assert(left != 0 <==> left * v != 0) by (nonlinear_arith)
        requires
            v > 0;
}

impl DivSpecImpl for Binary32 {
    open spec fn obeys_div_spec() -> bool {
        true
    }

    open spec fn div_req(self, rhs: Binary32) -> bool {
        true
    }

    open spec fn div_spec(self, rhs: Binary32) -> Binary32 {
        self / rhs
    }
}

impl Div for Binary32 {
    type Output = Binary32;

    fn div(self, rhs: Binary32) -> (r: Binary32) {
        proof {
            reveal(Binary32::spec_euclidean_or_real_div);
        }
        let negative = self.is_negative() != rhs.is_negative();
        if self.is_nan() || rhs.is_nan() {
            Binary32::from_bits(NOT_A_NUMBER)
        } else if self.is_infinite() {
            if rhs.is_infinite() {
                Binary32::from_bits(NOT_A_NUMBER)
            } else {
                assemble(negative, INFINITY)
            }
        } else if rhs.is_infinite() {
            assemble(negative, 0)
        } else if rhs.magnitude() == 0 {
            if self.magnitude() == 0 {
                Binary32::from_bits(NOT_A_NUMBER)
            } else {
                assemble(negative, INFINITY)
            }
        } else {
            assemble(negative, quotient_code(self.magnitude(), rhs.magnitude()))
        }
    }
}

/// The magnitude code of the remainder of two finite magnitudes, the second not zero.
fn remainder_code(a: u32, b: u32) -> (code: u32)
    requires
        a < INFINITY,
        0 < b < INFINITY,
    ensures
        code == magnitude::round(magnitude::units(a as nat) % magnitude::units(b as nat), 1),
        code <= INFINITY,
{
    let ghost n = magnitude::units(a as nat);
    let ghost d = magnitude::units(b as nat);
    if a < b {
        proof {
            magnitude::lemma_units_increase(a as nat, b as nat);
            lemma_small_mod(n, d);
            magnitude::lemma_round_exact(a as nat);
        }
        return a;
    }
    let (ka, qa) = split(a);
    let (kb, qb) = split(b);
    proof {
        magnitude::lemma_disassembled(a as nat);
        magnitude::lemma_disassembled(b as nat);
        lemma2_to64();
        lemma_pow2_pos(qb as nat);
        assert(kb > 0);
        assert(ka * 1 == ka);
    }
    let mut left: u64 = ka % kb;
    let mut i: u32 = 0;
    while i < qa - qb
        invariant
            qb <= qa,
            i <= qa - qb,
            0 < kb < 0x100_0000,
            left < kb,
            left as nat == (ka as nat * pow2(i as nat)) % kb as nat,
        decreases qa - qb - i,
    {
        proof {
            lemma_pow2_unfold((i + 1) as nat);
            let v = ka as nat * pow2(i as nat);
            assert(ka as nat * (2 * pow2(i as nat)) == 2 * v) by (nonlinear_arith)
                requires
                    v == ka as nat * pow2(i as nat);
            lemma_mul_mod_noop_right(2, v as int, kb as int);
        }
        left = (2 * left) % kb;
        i = i + 1;
    }
    proof {
        let w = pow2(qb as nat);
        let v = ka as nat * pow2(i as nat);
        lemma_pow2_adds(i as nat, qb as nat);
        assert(n == w * v) by (nonlinear_arith)
            requires
                n == ka as nat * (pow2(i as nat) * w),
                v == ka as nat * pow2(i as nat);
        assert(d == w * kb) by (nonlinear_arith)
            requires
                d == kb * w;
        lemma_truncate_middle(v as int, w as int, kb as int);
        assert(left * w == w * left) by (nonlinear_arith);
        assert((left + 1) * w == left * w + w) by (nonlinear_arith);
        assert(w * 1 == 1 * w);
    }
    magnitude::round_steps(left, false, qb, 0, Ghost(n % d), Ghost(1), Ghost(pow2(qb as nat)))
}

impl RemSpecImpl for Binary32 {
    open spec fn obeys_rem_spec() -> bool {
        true
    }

    open spec fn rem_req(self, rhs: Binary32) -> bool {
        true
    }

    open spec fn rem_spec(self, rhs: Binary32) -> Binary32 {
        self % rhs
    }
}

impl Rem for Binary32 {
    type Output = Binary32;

    fn rem(self, rhs: Binary32) -> (r: Binary32) {
        proof {
            reveal(Binary32::spec_euclidean_mod);
        }
        if self.is_nan() || rhs.is_nan() || self.is_infinite() || rhs.magnitude() == 0 {
            Binary32::from_bits(NOT_A_NUMBER)
        } else if rhs.is_infinite() {
            self
        } else {
            assemble(self.is_negative(), remainder_code(self.magnitude(), rhs.magnitude()))
        }
    }
}

impl Binary32 {
    /// The square root.
    pub fn sqrt(self) -> (r: Binary32)
        ensures
            r == self.root(),
    {
        proof {
            reveal(Binary32::root);
        }
        if self.magnitude() == 0 {
            self
        } else if self.is_nan() || self.is_negative() {
            Binary32::from_bits(NOT_A_NUMBER)
        } else if self.is_infinite() {
            self
        } else {
            let (k, q) = split(self.magnitude());
            assemble(false, magnitude::root_code(k, q))
        }
    }

    /// Whether this number is less than the other; never so with something that is no number.
    #[verifier::allow_in_spec]
    pub fn less(self, rhs: Binary32) -> bool
        returns
            !self.is_nan() && !rhs.is_nan() && self.value() < rhs.value(),
    {
        proof {
            lemma_value_order(self, rhs);
        }
        !self.is_nan() && !rhs.is_nan() && self.order_key() < rhs.order_key()
    }

    /// Whether this number is less than the other or equal to it; never so with something that
    /// is no number.
    #[verifier::allow_in_spec]
    pub fn at_most(self, rhs: Binary32) -> bool
        returns
            !self.is_nan() && !rhs.is_nan() && self.value() <= rhs.value(),
    {
        proof {
            lemma_value_order(self, rhs);
        }
        !self.is_nan() && !rhs.is_nan() && self.order_key() <= rhs.order_key()
    }

    /// Whether the two are the same number; the two zeros are.
    #[verifier::allow_in_spec]
    pub fn same(self, rhs: Binary32) -> bool
        returns
            !self.is_nan() && !rhs.is_nan() && self.value() == rhs.value(),
    {
        proof {
            lemma_value_order(self, rhs);
        }
        !self.is_nan() && !rhs.is_nan() && self.order_key() == rhs.order_key()
    }

    /// The magnitude code with the sign of the number.
    #[verifier::allow_in_spec]
    fn order_key(self) -> i64
        returns
            (if self.is_negative() {
                -(self.magnitude() as i64)
            } else {
                self.magnitude() as int
            }) as i64,
    {
        let code = self.magnitude() as i64;
        if self.is_negative() {
            -code
        } else {
            code
        }
    }

    /// The lesser of two numbers; where one is no number, the other.
    #[verifier::allow_in_spec]
    pub fn min(self, rhs: Binary32) -> Binary32
        returns
            (if self.is_nan() || rhs.less(self) {
                rhs
            } else {
                self
            }),
    {
        if self.is_nan() || rhs.less(self) {
            rhs
        } else {
            self
        }
    }

    /// The greater of two numbers; where one is no number, the other.
    #[verifier::allow_in_spec]
    pub fn max(self, rhs: Binary32) -> Binary32
        returns
            (if self.is_nan() || self.less(rhs) {
                rhs
            } else {
                self
            }),
    {
        if self.is_nan() || self.less(rhs) {
            rhs
        } else {
            self
        }
    }

    /// The number, moved to the nearer end of an interval that it lies outside of.
    #[verifier::allow_in_spec]
    pub fn clamp(self, low: Binary32, high: Binary32) -> Binary32
        requires
            low.at_most(high),
        returns
            (if self.less(low) {
                low
            } else if high.less(self) {
                high
            } else {
                self
            }),
    {
        if self.less(low) {
            low
        } else if high.less(self) {
            high
        } else {
            self
        }
    }
}

impl Binary32 {
    /// The number nearest to a count.
    pub open spec fn counted(count: nat) -> Binary32 {
        Self::signed(false, magnitude::round(count * pow2(149), 1))
    }

    /// The number nearest to a count.
    pub fn from_usize(count: usize) -> (r: Binary32)
        ensures
            r == Self::counted(count as nat),
    {
        let whole = count as u64;
        let ghost n = count as nat * pow2(149);
        proof {
            lemma_pow2_pos(149);
            lemma_pow2_pos(152);
            lemma2_to64();
            lemma_pow2_adds(149, 3);
        }
        let code = if whole < 0x1000_0000_0000_0000 {
            proof {
                let w = pow2(149);
                assert((whole + 1) * w == whole * w + w) by (nonlinear_arith);
                assert(w * 1 == 1 * w);
            }
            magnitude::round_steps(whole, false, 149, 0, Ghost(n), Ghost(1), Ghost(pow2(149)))
        } else {
            let sig = whole / 8;
            let low = whole % 8;
            proof {
                let w = pow2(149);
                let v = pow2(152);
                assert(n == sig * v + low * w) by (nonlinear_arith)
                    requires
                        n == (8 * sig + low) * w,
                        v == w * 8;
                assert(low * w < v) by (nonlinear_arith)
                    requires
                        low < 8,
                        v == w * 8,
                        w > 0;
                assert(low != 0 <==> low * w != 0) by (nonlinear_arith)
                    requires
                        w > 0;
                assert((sig + 1) * v == sig * v + v) by (nonlinear_arith);
                assert(v * 1 == 1 * v);
            }
            magnitude::round_steps(sig, low != 0, 152, 0, Ghost(n), Ghost(1), Ghost(pow2(152)))
        };
        assemble(false, code)
    }

    /// The whole number nearest to a number, halves away from zero; no less than zero, no more
    /// than `top`, and zero for something that is no number.
    pub open spec fn nearest_whole(self, top: nat) -> nat {
        if self.is_nan() || self.is_negative() {
            0
        } else {
            let whole = (2 * self.units() + pow2(149)) / pow2(150);
            if self.is_infinite() || whole > top {
                top
            } else {
                whole
            }
        }
    }

    /// The count nearest to a number, as far as counts go.
    pub fn round_to_usize(self) -> (r: usize)
        ensures
            r == self.nearest_whole(usize::MAX as nat),
    {
        if self.is_nan() || self.is_negative() {
            return 0;
        }
        if self.is_infinite() {
            return usize::MAX;
        }
        let (k, q) = split(self.magnitude());
        let ghost n = self.units();
        proof {
            lemma2_to64();
            lemma2_to64_rest();
            lemma_pow2_pos(149);
            lemma_pow2_unfold(150);
        }
        if q >= 149 {
            let e: u32 = q - 149;
            proof {
                lemma_pow2_adds(e as nat, 149);
                let (p, w) = (pow2(e as nat), pow2(149));
                lemma_pow2_pos(e as nat);
                assert(2 * n + w == (k * p) * (2 * w) + w) by (nonlinear_arith)
                    requires
                        n == k * (p * w);
                lemma_fundamental_div_mod_converse(
                    (2 * n + w) as int,
                    (2 * w) as int,
                    (k * p) as int,
                    w as int,
                );
            }
            if e > 40 {
                proof {
                    if e > 41 {
                        lemma_pow2_strictly_increases(41, e as nat);
                    }
                    assert(k * pow2(e as nat) > u64::MAX) by (nonlinear_arith)
                        requires
                            k >= 0x80_0000,
                            pow2(e as nat) >= 0x200_0000_0000;
                }
                usize::MAX
            } else {
                let p = magnitude::power_of_two(e);
                proof {
                    if e < 40 {
                        lemma_pow2_strictly_increases(e as nat, 40);
                    }
                    assert(k * p <= u64::MAX) by (nonlinear_arith)
                        requires
                            k < 0x100_0000,
                            p <= 0x100_0000_0000;
                }
                let whole = k * p;
                if whole > usize::MAX as u64 {
                    usize::MAX
                } else {
                    whole as usize
                }
            }
        } else {
            let s: u32 = 149 - q;
            proof {
                lemma_pow2_adds(q as nat, s as nat);
                lemma_pow2_pos(q as nat);
            }
            if s >= 26 {
                proof {
                    if s > 26 {
                        lemma_pow2_strictly_increases(26, s as nat);
                    }
                    let (p, w) = (pow2(q as nat), pow2(149));
                    assert(2 * n + w < 2 * w) by (nonlinear_arith)
                        requires
                            n == k * p,
                            k < 0x100_0000,
                            w == p * pow2(s as nat),
                            pow2(s as nat) >= 0x400_0000,
                            p > 0;
                    lemma_basic_div((2 * n + w) as int, (2 * w) as int);
                }
                0
            } else {
                let p = magnitude::power_of_two(s);
                proof {
                    lemma_pow2_strictly_increases(s as nat, 26);
                    lemma_pow2_unfold(s as nat);
                    let w = pow2(q as nat);
                    assert(2 * n + pow2(149) == w * (2 * k + p)) by (nonlinear_arith)
                        requires
                            n == k * w,
                            pow2(149) == w * p;
                    assert(2 * pow2(149) == w * (2 * p)) by (nonlinear_arith)
                        requires
                            pow2(149) == w * p;
                    lemma_truncate_middle_div((2 * k + p) as int, w as int, (2 * p) as int);
                }
                ((2 * k + p) / (2 * p)) as usize
            }
        }
    }
}

/// A common factor cancels in a quotient.
proof fn lemma_truncate_middle_div(a: int, w: int, b: int)
    requires
        a >= 0,
        w > 0,
        b > 0,
    ensures
        (w * a) / (w * b) == a / b,
{
    let q = a / b;
    let r = a % b;
    lemma_fundamental_div_mod(a, b);
    lemma_mod_bound(a, b);
    assert(w * a == q * (w * b) + w * r) by (nonlinear_arith)
        requires
            a == b * q + r;
    assert(0 <= w * r < w * b) by (nonlinear_arith)
        requires
            0 <= r < b,
            w > 0;
    lemma_fundamental_div_mod_converse(w * a, w * b, q, w * r);
}

impl PartialEq for Binary32 {
    fn eq(&self, rhs: &Binary32) -> (r: bool) {
        self.same(*rhs)
    }
}

impl vstd::std_specs::cmp::PartialEqSpecImpl for Binary32 {
    open spec fn obeys_eq_spec() -> bool {
        true
    }

    open spec fn eq_spec(&self, rhs: &Binary32) -> bool {
        self.same(*rhs)
    }
}

/// Numbers without a sign are ordered as their bits are.
pub proof fn law_bits_order_numbers(a: Binary32, b: Binary32)
    requires
        a.bits <= INFINITY,
        b.bits <= INFINITY,
    ensures
        a.less(b) == (a.bits < b.bits),
        a.at_most(b) == (a.bits <= b.bits),
        a.same(b) == (a.bits == b.bits),
{
    lemma_value_order(a, b);
}

/// A number that is not negative and no greater than a finite one is finite.
pub proof fn law_at_most_a_finite_number(a: Binary32, b: Binary32)
    requires
        !a.is_negative(),
        a.at_most(b),
        b.is_finite(),
    ensures
        a.is_finite(),
{
    lemma_value_order(a, b);
}

/// Signed magnitude codes are ordered as the numbers are.
proof fn lemma_value_order(a: Binary32, b: Binary32)
    ensures
        a.value() < b.value() <==> a.order_key() < b.order_key(),
        a.value() == b.value() <==> a.order_key() == b.order_key(),
{
    magnitude::lemma_units_order(a.magnitude() as nat, b.magnitude() as nat);
    magnitude::lemma_units_order(0, a.magnitude() as nat);
    magnitude::lemma_units_order(0, b.magnitude() as nat);
    assert(magnitude::units(0) == 0 * pow2(0));
}

/// Addition does not depend on the order of its operands.
pub proof fn law_addition_commutes(a: Binary32, b: Binary32)
    ensures
        a + b == b + a,
{
    reveal(Binary32::spec_add);
}

/// Multiplication does not depend on the order of its operands.
pub proof fn law_multiplication_commutes(a: Binary32, b: Binary32)
    ensures
        a * b == b * a,
{
    reveal(Binary32::spec_mul);
    lemma_mul_is_commutative(a.units() as int, b.units() as int);
}

/// Swapping the operands of a subtraction changes no more than the sign of its result.
pub proof fn law_difference_has_one_magnitude(a: Binary32, b: Binary32)
    ensures
        (a - b).magnitude() == (b - a).magnitude(),
{
    reveal(Binary32::spec_add);
    reveal(Binary32::spec_sub);
    lemma_opposite(a);
    lemma_opposite(b);
    let sum = a.value() - b.value();
    if a.is_finite() && b.is_finite() && sum != 0 {
        let n = (if sum < 0 {
            -sum
        } else {
            sum
        }) as nat;
        magnitude::lemma_round_exists(n, 1);
        let code = magnitude::round(n, 1);
        lemma_signed(true, code);
        lemma_signed(false, code);
        assert(a - b == Binary32::signed(sum < 0, code));
        assert(b - a == Binary32::signed(sum > 0, code));
    }
}

/// Swapping the operands of a subtraction of finite numbers turns the result around.
pub proof fn law_differences_are_opposite(a: Binary32, b: Binary32)
    requires
        a.is_finite(),
        b.is_finite(),
    ensures
        (a - b).value() == -(b - a).value(),
{
    reveal(Binary32::spec_sub);
    lemma_opposite(a);
    lemma_opposite(b);
    lemma_rounded_sum(a, b.opposite());
    lemma_rounded_sum(b, a.opposite());
    let sum = a.value() - b.value();
    if sum == 0 {
        assert(magnitude::units(0) == 0 * pow2(0));
        magnitude::lemma_round_exact(0);
        magnitude::lemma_round_is(0, 1, 0);
    }
}

/// Turning a factor of finite numbers around turns their product around.
pub proof fn law_products_with_opposites(a: Binary32, b: Binary32)
    requires
        a.is_finite(),
        b.is_finite(),
    ensures
        (a * b.opposite()).value() == -(a * b).value(),
{
    reveal(Binary32::spec_mul);
    lemma_opposite(b);
    lemma_pow2_pos(149);
    magnitude::lemma_round_exists(a.units() * b.units(), pow2(149));
    let code = magnitude::round(a.units() * b.units(), pow2(149));
    lemma_signed(true, code);
    lemma_signed(false, code);
}

/// The opposite of a number has its magnitude and the other sign.
pub(crate) proof fn lemma_opposite(a: Binary32)
    ensures
        a.opposite().magnitude() == a.magnitude(),
        a.opposite().is_negative() == !a.is_negative(),
        a.opposite().value() == -a.value(),
{
}

/// A square depends on the magnitude alone.
pub proof fn law_square_has_no_sign(a: Binary32, b: Binary32)
    requires
        a.magnitude() == b.magnitude(),
    ensures
        a * a == b * b,
{
    reveal(Binary32::spec_mul);
    assert(a.units() == b.units());
}

/// Adding a zero changes no finite number.
pub proof fn law_adding_zero(a: Binary32, zero: Binary32)
    requires
        a.is_finite(),
        zero.magnitude() == 0,
    ensures
        (a + zero).same(a),
        a.magnitude() != 0 ==> a + zero == a,
{
    reveal(Binary32::spec_add);
    assert(magnitude::units(0) == 0 * pow2(0));
    magnitude::lemma_units_order(0, a.magnitude() as nat);
    magnitude::lemma_round_exact(a.magnitude() as nat);
}

/// The product of a zero and a finite number is a zero.
pub proof fn law_multiplying_by_zero(zero: Binary32, a: Binary32)
    requires
        a.is_finite(),
        zero.magnitude() == 0,
    ensures
        (zero * a).magnitude() == 0,
{
    reveal(Binary32::spec_mul);
    assert(magnitude::units(0) == 0 * pow2(0));
    assert(zero.units() * a.units() == 0) by (nonlinear_arith)
        requires
            zero.units() == 0;
    lemma_pow2_pos(149);
    lemma_zero_rounds_to_zero(pow2(149));
}

/// Nothing at all rounds to zero.
proof fn lemma_zero_rounds_to_zero(d: nat)
    requires
        d > 0,
    ensures
        magnitude::round(0, d) == 0,
{
    assert(magnitude::units(0) == 0 * pow2(0));
    magnitude::lemma_units_increase(0, 1);
    assert((magnitude::units(0) + magnitude::units(1)) * d >= 0) by (nonlinear_arith);
    assert(magnitude::rounds_to(0, d, 0));
    magnitude::lemma_round_is(0, d, 0);
}

/// A sum is exact where it is a whole number of some power of two and needs no more than 24
/// bits beyond it.
pub proof fn law_short_sums_are_exact(a: Binary32, b: Binary32, k: nat, q: nat)
    requires
        a.is_finite(),
        b.is_finite(),
        !a.is_negative(),
        !b.is_negative(),
        a.value() + b.value() == k * pow2(q),
        k <= 0x100_0000,
        q <= 252,
    ensures
        (a + b).value() == a.value() + b.value(),
        (a + b).is_finite(),
        !(a + b).is_negative(),
{
    reveal(Binary32::spec_add);
    let code = lemma_short_magnitude(k, q);
    magnitude::lemma_round_exact(code);
    assert(magnitude::units(0) == 0 * pow2(0));
    lemma_signed(false, code);
    let sum = a.value() + b.value();
    if sum != 0 {
        assert(sum as nat == magnitude::units(code));
        assert(a + b == Binary32::signed(false, code));
    } else {
        lemma_signed(false, 0);
        assert(a + b == Binary32::signed(false, 0));
    }
}

/// The code of a magnitude of no more than 24 bits beyond some power of two.
pub(crate) proof fn lemma_short_magnitude(k: nat, q: nat) -> (code: nat)
    requires
        k <= 0x100_0000,
        q <= 252,
    ensures
        code < INFINITY,
        magnitude::units(code) == k * pow2(q),
    decreases q,
{
    if k < HIDDEN_BIT && q > 0 {
        lemma_pow2_unfold(q);
        let code = lemma_short_magnitude(2 * k, (q - 1) as nat);
        assert((2 * k) * pow2((q - 1) as nat) == k * (2 * pow2((q - 1) as nat))) by (nonlinear_arith);
        code
    } else {
        magnitude::lemma_assembled(k, q);
        q * HIDDEN_BIT as nat + k
    }
}

/// Half of a finite number is finite.
pub proof fn law_half_is_finite(a: Binary32)
    requires
        a.is_finite(),
    ensures
        (Binary32::from_bits(HALF) * a).is_finite(),
{
    reveal(Binary32::spec_mul);
    let half = Binary32::from_bits(HALF);
    let n = half.units() * a.units();
    let w = pow2(149);
    lemma2_to64();
    lemma_pow2_adds(23, 125);
    lemma_pow2_unfold(149);
    lemma_pow2_pos(149);
    assert(half.units() <= w);
    magnitude::lemma_round_exists(n, w);
    let code = a.magnitude() as nat;
    magnitude::lemma_round_exact(code);
    magnitude::lemma_round_exists(a.units(), 1);
    assert(n * 1 <= a.units() * w) by (nonlinear_arith)
        requires
            n == half.units() * a.units(),
            half.units() <= w;
    magnitude::lemma_round_monotone(n, w, magnitude::round(n, w), a.units(), 1, code);
}

/// The product of two finite numbers is a number.
pub proof fn law_finite_products_are_numbers(a: Binary32, b: Binary32)
    requires
        a.is_finite(),
        b.is_finite(),
    ensures
        !(a * b).is_nan(),
{
    reveal(Binary32::spec_mul);
    lemma_pow2_pos(149);
    magnitude::lemma_round_exists(a.units() * b.units(), pow2(149));
}

/// The sum of a finite number and another number is a number.
pub proof fn law_sums_with_a_finite_number_are_numbers(a: Binary32, b: Binary32)
    requires
        a.is_finite(),
        !b.is_nan(),
    ensures
        !(a + b).is_nan(),
{
    reveal(Binary32::spec_add);
    let sum = a.value() + b.value();
    magnitude::lemma_round_exists(sum as nat, 1);
    magnitude::lemma_round_exists((-sum) as nat, 1);
}

/// What the sign and the code of a rounded magnitude say of its value.
pub(crate) proof fn lemma_rounded_sum(a: Binary32, b: Binary32)
    requires
        a.is_finite(),
        b.is_finite(),
    ensures
        ({
            let sum = a.value() + b.value();
            let size = (if sum < 0 {
                -sum
            } else {
                sum
            }) as nat;
            let code = magnitude::round(size, 1);
            &&& magnitude::rounds_to(size, 1, code)
            &&& (a + b).value() == if sum < 0 {
                -(magnitude::units(code) as int)
            } else {
                magnitude::units(code) as int
            }
            &&& !(a + b).is_nan()
        }),
{
    reveal(Binary32::spec_add);
    let sum = a.value() + b.value();
    let size = (if sum < 0 {
        -sum
    } else {
        sum
    }) as nat;
    magnitude::lemma_round_exists(size, 1);
    let code = magnitude::round(size, 1);
    assert(magnitude::units(0) == 0 * pow2(0));
    if sum == 0 {
        magnitude::lemma_round_exact(0);
        lemma_signed(a.is_negative() && b.is_negative(), 0);
    } else {
        lemma_signed(sum < 0, code);
        assert(a + b == Binary32::signed(sum < 0, code));
    }
}

/// Adding a finite number to each of two numbers keeps their order.
pub proof fn law_addition_keeps_order(a: Binary32, b: Binary32, c: Binary32)
    requires
        a.is_finite(),
        b.is_finite(),
        c.is_finite(),
        b.at_most(c),
    ensures
        (a + b).at_most(a + c),
{
    lemma_rounded_sum(a, b);
    lemma_rounded_sum(a, c);
    let (low, high) = (a.value() + b.value(), a.value() + c.value());
    let low_size = (if low < 0 {
        -low
    } else {
        low
    }) as nat;
    let high_size = (if high < 0 {
        -high
    } else {
        high
    }) as nat;
    let (low_code, high_code) = (magnitude::round(low_size, 1), magnitude::round(high_size, 1));
    magnitude::lemma_units_order(low_code, high_code);
    if low >= 0 {
        magnitude::lemma_round_monotone(low_size, 1, low_code, high_size, 1, high_code);
    } else if high < 0 {
        magnitude::lemma_round_monotone(high_size, 1, high_code, low_size, 1, low_code);
    }
}

/// Taking each of two numbers away from a finite number turns their order around.
pub proof fn law_subtraction_reverses_order(a: Binary32, b: Binary32, c: Binary32)
    requires
        a.is_finite(),
        b.is_finite(),
        c.is_finite(),
        b.at_most(c),
    ensures
        (a - c).at_most(a - b),
{
    reveal(Binary32::spec_sub);
    lemma_opposite(b);
    lemma_opposite(c);
    law_addition_keeps_order(a, c.opposite(), b.opposite());
}

/// Multiplying each of two numbers that are not negative by another such number keeps their
/// order.
pub proof fn law_multiplication_keeps_order(a: Binary32, b: Binary32, c: Binary32)
    requires
        a.is_finite(),
        !a.is_negative(),
        b.is_finite(),
        !b.is_negative(),
        c.is_finite(),
        !c.is_negative(),
        b.at_most(c),
    ensures
        (a * b).at_most(a * c),
        !(a * b).is_negative(),
{
    reveal(Binary32::spec_mul);
    let w = pow2(149);
    let (low, high) = (a.units() * b.units(), a.units() * c.units());
    lemma_pow2_pos(149);
    magnitude::lemma_round_exists(low, w);
    magnitude::lemma_round_exists(high, w);
    let (low_code, high_code) = (magnitude::round(low, w), magnitude::round(high, w));
    assert(low * w <= high * w) by (nonlinear_arith)
        requires
            low == a.units() * b.units(),
            high == a.units() * c.units(),
            b.units() <= c.units(),
            w > 0;
    magnitude::lemma_round_monotone(low, w, low_code, high, w, high_code);
    magnitude::lemma_units_order(low_code, high_code);
    lemma_signed(false, low_code);
    lemma_signed(false, high_code);
}

/// Twice the magnitude of a normal number has the next exponent.
pub(crate) proof fn lemma_twice(code: nat)
    requires
        code >= HIDDEN_BIT,
    ensures
        magnitude::units(code + HIDDEN_BIT as nat) == 2 * magnitude::units(code),
{
    magnitude::lemma_disassembled(code);
    let (k, q) = (magnitude::significand(code), magnitude::quantum(code));
    magnitude::lemma_assembled(k, q + 1);
    lemma_pow2_unfold(q + 1);
    assert(k * (2 * pow2(q)) == 2 * (k * pow2(q))) by (nonlinear_arith);
}

/// The magnitude code of a product with a power of two.
pub(crate) proof fn lemma_scaled_product(a: Binary32, factor: Binary32, n: nat, code: nat)
    requires
        a.is_finite(),
        factor.is_finite(),
        a.units() * factor.units() == n * pow2(149),
        code <= INFINITY,
        magnitude::units(code) == n,
    ensures
        a * factor == Binary32::signed(a.is_negative() != factor.is_negative(), code),
{
    reveal(Binary32::spec_mul);
    let w = pow2(149);
    lemma_pow2_pos(149);
    magnitude::lemma_round_exact(code);
    magnitude::lemma_round_exists(n * w, 1 * w);
    magnitude::lemma_round_scaled(n, 1, w, magnitude::round(n * w, 1 * w));
    magnitude::lemma_round_is(n, 1, magnitude::round(n * w, 1 * w));
}

/// Doubling a normal number is exact: it raises the exponent by one.
pub proof fn law_doubling_is_exact(a: Binary32)
    requires
        HIDDEN_BIT <= a.magnitude() < INFINITY - HIDDEN_BIT,
    ensures
        a * Binary32::from_bits(TWO) == Binary32::signed(
            a.is_negative(),
            (a.magnitude() + HIDDEN_BIT) as nat,
        ),
{
    let two = Binary32::from_bits(TWO);
    let w = pow2(149);
    lemma2_to64();
    lemma_pow2_adds(23, 127);
    lemma_pow2_unfold(150);
    let u = a.units();
    assert(u * (2 * w) == (2 * u) * w) by (nonlinear_arith);
    lemma_twice(a.magnitude() as nat);
    lemma_scaled_product(a, two, 2 * u, (a.magnitude() + HIDDEN_BIT) as nat);
}

/// Halving a normal number is exact as long as the result is normal: it lowers the exponent by
/// one.
pub proof fn law_halving_is_exact(a: Binary32)
    requires
        2 * HIDDEN_BIT <= a.magnitude() < INFINITY,
    ensures
        a * Binary32::from_bits(HALF) == Binary32::signed(
            a.is_negative(),
            (a.magnitude() - HIDDEN_BIT) as nat,
        ),
{
    let half = Binary32::from_bits(HALF);
    let w = pow2(149);
    lemma2_to64();
    lemma_pow2_adds(23, 125);
    lemma_pow2_unfold(149);
    let code = (a.magnitude() - HIDDEN_BIT) as nat;
    let n = magnitude::units(code);
    lemma_twice(code);
    let h = pow2(148);
    assert((2 * n) * h == n * (2 * h)) by (nonlinear_arith);
    lemma_scaled_product(a, half, n, code);
}

/// A sum that is itself a number other than zero is exact.
pub proof fn law_representable_sums_are_exact(a: Binary32, b: Binary32, sum: Binary32)
    requires
        a.is_finite(),
        b.is_finite(),
        sum.is_finite(),
        sum.magnitude() != 0,
        a.value() + b.value() == sum.value(),
    ensures
        a + b == sum,
{
    reveal(Binary32::spec_add);
    let code = sum.magnitude() as nat;
    assert(magnitude::units(0) == 0 * pow2(0));
    magnitude::lemma_units_order(0, code);
    magnitude::lemma_round_exact(code);
    lemma_signed(sum.is_negative(), code);
}

/// Multiplying a finite number by one changes nothing.
pub proof fn law_multiplying_by_one(a: Binary32)
    requires
        a.is_finite(),
    ensures
        a * Binary32::from_bits(ONE) == a,
{
    let one = Binary32::from_bits(ONE);
    lemma2_to64();
    lemma_pow2_adds(23, 126);
    lemma_scaled_product(a, one, a.units(), a.magnitude() as nat);
    lemma_signed(a.is_negative(), a.magnitude() as nat);
}

/// A sum that is exactly no greater than a number is no greater than it after rounding.
pub proof fn law_bounded_sums_stay_bounded(a: Binary32, b: Binary32, bound: Binary32)
    requires
        a.is_finite(),
        b.is_finite(),
        bound.is_finite(),
        !bound.is_negative(),
        a.value() + b.value() <= bound.value(),
    ensures
        (a + b).at_most(bound),
{
    lemma_rounded_sum(a, b);
    let sum = a.value() + b.value();
    let size = (if sum < 0 {
        -sum
    } else {
        sum
    }) as nat;
    let code = magnitude::round(size, 1);
    let limit = bound.magnitude() as nat;
    if sum >= 0 {
        magnitude::lemma_round_exact(limit);
        magnitude::lemma_round_exists(magnitude::units(limit), 1);
        magnitude::lemma_round_monotone(size, 1, code, magnitude::units(limit), 1, limit);
        magnitude::lemma_units_order(code, limit);
    }
}

/// The quotient of a number by a positive one that is no greater is at least one.
pub proof fn law_quotient_is_at_least_one(a: Binary32, b: Binary32)
    requires
        a.is_finite(),
        b.is_finite(),
        !b.is_negative(),
        b.magnitude() != 0,
        b.at_most(a),
    ensures
        Binary32::from_bits(ONE).at_most(a / b),
        a == b ==> a / b == Binary32::from_bits(ONE),
{
    reveal(Binary32::spec_euclidean_or_real_div);
    let one = Binary32::from_bits(ONE);
    let w = pow2(149);
    assert(magnitude::units(0) == 0 * pow2(0));
    magnitude::lemma_units_order(0, b.magnitude() as nat);
    assert(!a.is_negative());
    lemma2_to64();
    lemma_pow2_adds(23, 126);
    assert(one.units() == w);
    let n = a.units() * w;
    let code = magnitude::round(n, b.units());
    magnitude::lemma_round_exists(n, b.units());
    magnitude::lemma_round_exact(ONE as nat);
    magnitude::lemma_round_exists(w, 1);
    assert(w * b.units() <= n * 1) by (nonlinear_arith)
        requires
            n == a.units() * w,
            b.units() <= a.units();
    magnitude::lemma_round_monotone(w, 1, ONE as nat, n, b.units(), code);
    if a == b {
        assert(n * 1 <= w * b.units()) by (nonlinear_arith)
            requires
                n == b.units() * w;
        magnitude::lemma_round_monotone(n, b.units(), code, w, 1, ONE as nat);
    }
    magnitude::lemma_units_order(ONE as nat, code);
    lemma_signed(false, code);
}

/// The quotient of a finite number by a positive finite one is a number with the sign of the
/// first.
pub proof fn law_quotient_keeps_the_sign(a: Binary32, b: Binary32)
    requires
        a.is_finite(),
        b.is_finite(),
        !b.is_negative(),
        b.magnitude() != 0,
    ensures
        !(a / b).is_nan(),
        (a / b).is_negative() == a.is_negative(),
        a.magnitude() == 0 ==> (a / b).magnitude() == 0,
{
    reveal(Binary32::spec_euclidean_or_real_div);
    assert(magnitude::units(0) == 0 * pow2(0));
    magnitude::lemma_units_order(0, b.magnitude() as nat);
    let n = a.units() * pow2(149);
    magnitude::lemma_round_exists(n, b.units());
    lemma_signed(a.is_negative(), magnitude::round(n, b.units()));
    if a.magnitude() == 0 {
        assert(n == 0) by (nonlinear_arith)
            requires
                n == a.units() * pow2(149),
                a.units() == 0;
        lemma_zero_rounds_to_zero(b.units());
    }
}

/// Square roots of numbers between zero and one lie between zero and one.
pub proof fn law_root_of_a_fraction_is_a_fraction(a: Binary32)
    requires
        !a.is_negative(),
        a.at_most(Binary32::from_bits(ONE)),
    ensures
        !a.root().is_negative(),
        a.root().at_most(Binary32::from_bits(ONE)),
{
    reveal(Binary32::root);
    let one = Binary32::from_bits(ONE);
    let w = pow2(149);
    law_at_most_a_finite_number(a, one);
    lemma2_to64();
    lemma_pow2_adds(23, 126);
    assert(one.units() == w);
    if a.magnitude() != 0 {
        let n = a.units() * w;
        let code = magnitude::round_root(n);
        magnitude::lemma_root_exists(n);
        magnitude::lemma_root_exact(ONE as nat);
        magnitude::lemma_root_exists(w * w);
        assert(n <= w * w) by (nonlinear_arith)
            requires
                n == a.units() * w,
                a.units() <= w;
        magnitude::lemma_root_monotone(n, code, w * w, ONE as nat);
        lemma_signed(false, code);
        law_bits_order_numbers(Binary32::signed(false, code), one);
    }
}

/// Three quarters of the rounded distance to one is no more than the distance itself.
pub(crate) proof fn lemma_three_quarters_fit(r: Binary32, d: Binary32)
    requires
        !r.is_negative(),
        r.at_most(Binary32::from_bits(ONE)),
        d.is_finite(),
        !d.is_negative(),
        d.at_most(Binary32::from_bits(ONE) - r),
    ensures
        ({
            let t = d * Binary32::from_bits(0x3F40_0000);
            &&& t.is_finite()
            &&& !t.is_negative()
            &&& t.value() <= Binary32::from_bits(ONE).value() - r.value()
        }),
{
    let one = Binary32::from_bits(ONE);
    let part = Binary32::from_bits(0x3F40_0000);
    let w = pow2(149);
    law_at_most_a_finite_number(r, one);
    lemma2_to64();
    lemma_pow2_pos(149);
    lemma_pow2_adds(24, 125);
    assert(one.units() == 0x80_0000 * pow2(126));
    lemma_pow2_adds(125, 1);
    assert(one.units() == w);
    assert(part.units() == 0xC0_0000 * pow2(125));
    assert(4 * part.units() == 3 * w);
    let g = (w - r.units()) as nat;
    // The rounded distance.
    lemma_opposite(r);
    let whole = one - r;
    assert(whole == one + r.opposite()) by {
        reveal(Binary32::spec_sub);
    }
    lemma_rounded_sum(one, r.opposite());
    let c = magnitude::round(g, 1);
    assert(whole.value() == magnitude::units(c));
    // Three quarters of it are no more than the magnitude below, which is no more than the
    // distance; a distance too small for that is exact.
    let bound = if c > HIDDEN_BIT {
        (c - 1) as nat
    } else {
        c
    };
    if c > HIDDEN_BIT {
        magnitude::lemma_successor(bound);
        magnitude::lemma_disassembled(bound);
        let (k, q) = (magnitude::significand(bound), magnitude::quantum(bound));
        assert(3 * pow2(q) <= k * pow2(q)) by (nonlinear_arith)
            requires
                k >= 3;
        assert(3 * magnitude::units(c) <= 4 * magnitude::units(bound));
        assert(magnitude::units(bound) <= g);
    } else {
        lemma_small_is_exact(g, c);
        assert(magnitude::units(bound) == g);
    }
    lemma_product_is_at_most(d, part, bound, w);
}

/// A magnitude that rounds to no more than the smallest normal number is exact.
proof fn lemma_small_is_exact(n: nat, code: nat)
    requires
        magnitude::rounds_to(n, 1, code),
        code <= HIDDEN_BIT,
    ensures
        magnitude::units(code) == n,
{
    let top = HIDDEN_BIT as nat;
    lemma2_to64();
    assert(magnitude::units(top + 1) == (top + 1) * pow2(0)) by {
        magnitude::lemma_assembled(top + 1, 0);
    }
    if n > top {
        magnitude::lemma_round_exact(top + 1);
        magnitude::lemma_round_exists(magnitude::units(top + 1), 1);
        magnitude::lemma_round_monotone(magnitude::units(top + 1), 1, top + 1, n, 1, code);
    } else {
        magnitude::lemma_assembled(n, 0);
        magnitude::lemma_round_exact(n);
        magnitude::lemma_round_is(n, 1, code);
    }
}

/// Three quarters of a magnitude are no more than a bound that is large enough.
proof fn lemma_product_is_at_most(d: Binary32, part: Binary32, bound: nat, w: nat)
    requires
        d.is_finite(),
        !d.is_negative(),
        part.is_finite(),
        !part.is_negative(),
        w == pow2(149),
        4 * part.units() == 3 * w,
        bound < INFINITY,
        3 * d.units() <= 4 * magnitude::units(bound),
    ensures
        (d * part).is_finite(),
        !(d * part).is_negative(),
        (d * part).units() <= magnitude::units(bound),
{
    reveal(Binary32::spec_mul);
    lemma_pow2_pos(149);
    let n = d.units() * part.units();
    let u = magnitude::units(bound);
    let code = magnitude::round(n, w);
    magnitude::lemma_round_exists(n, w);
    magnitude::lemma_round_exact(bound);
    magnitude::lemma_round_exists(u, 1);
    assert(n * 1 <= u * w) by (nonlinear_arith)
        requires
            n == d.units() * part.units(),
            4 * part.units() == 3 * w,
            3 * d.units() <= 4 * u;
    magnitude::lemma_round_monotone(n, w, code, u, 1, bound);
    magnitude::lemma_units_order(code, bound);
    lemma_signed(false, code);
}

/// A sum that is exactly not negative has no sign, if its first operand has none.
pub proof fn law_sums_above_zero_have_no_sign(a: Binary32, b: Binary32)
    requires
        a.is_finite(),
        b.is_finite(),
        !a.is_negative(),
        a.value() + b.value() >= 0,
    ensures
        !(a + b).is_negative(),
{
    reveal(Binary32::spec_add);
    let sum = a.value() + b.value();
    magnitude::lemma_round_exists(sum as nat, 1);
    lemma_signed(false, magnitude::round(sum as nat, 1));
    lemma_signed(false, 0);
}

/// A part of a number is no larger than the number.
pub proof fn law_parts_are_no_larger(a: Binary32, part: Binary32)
    requires
        a.is_finite(),
        !part.is_negative(),
        part.at_most(Binary32::from_bits(ONE)),
    ensures
        (a * part).is_finite(),
        (a * part).is_negative() == a.is_negative(),
        (a * part).units() <= a.units(),
{
    reveal(Binary32::spec_mul);
    let one = Binary32::from_bits(ONE);
    let w = pow2(149);
    law_at_most_a_finite_number(part, one);
    lemma2_to64();
    lemma_pow2_adds(23, 126);
    lemma_pow2_pos(149);
    assert(one.units() == w);
    let n = a.units() * part.units();
    let bound = a.magnitude() as nat;
    let code = magnitude::round(n, w);
    magnitude::lemma_round_exists(n, w);
    magnitude::lemma_round_exact(bound);
    magnitude::lemma_round_exists(a.units(), 1);
    assert(n * 1 <= a.units() * w) by (nonlinear_arith)
        requires
            n == a.units() * part.units(),
            part.units() <= w;
    magnitude::lemma_round_monotone(n, w, code, a.units(), 1, bound);
    magnitude::lemma_units_order(code, bound);
    lemma_signed(a.is_negative(), code);
}

} // verus!
