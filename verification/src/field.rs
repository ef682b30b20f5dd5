//! Arithmetic in the prime field GF(3329).

use vstd::prelude::*;
use vstd::arithmetic::power::pow;
use vstd::arithmetic::power::lemma_pow0;
use vstd::arithmetic::power::lemma_pow1;
use vstd::arithmetic::power::lemma_pow_adds;
use vstd::arithmetic::div_mod::lemma_mul_mod_noop_general;
use vstd::arithmetic::div_mod::lemma_fundamental_div_mod_converse;
use vstd::arithmetic::div_mod::lemma_add_mod_noop;
use vstd::arithmetic::div_mod::lemma_sub_mod_noop;
use vstd::arithmetic::div_mod::lemma_mod_twice;
use vstd::std_specs::ops::AddSpecImpl;
use vstd::std_specs::ops::SubSpecImpl;
use vstd::std_specs::ops::MulSpecImpl;
use crate::constant::Q;

verus! {

pub type Integer = u16;

/// Sum of two residues.
pub open spec fn fadd(a: int, b: int) -> int {
    (a + b) % 3329
}

/// Difference of two residues.
pub open spec fn fsub(a: int, b: int) -> int {
    (a - b) % 3329
}

/// Product of two residues.
pub open spec fn fmul(a: int, b: int) -> int {
    (a * b) % 3329
}

/// The residue of `base` raised to `exp`.
pub open spec fn fpow(base: int, exp: nat) -> int {
    pow(base, exp) % 3329
}

/// Removes one multiple of the modulus from `x` when `x` lies in
/// `[Q, Q + 2^15)`, without branching: the top bit of the wrapped difference
/// selects whether the modulus is added back.
pub fn field_reduce(x: u16) -> (r: u16)
    ensures
        r == if 3329 <= x < 3329 + 32768 { x - 3329 } else { x as int },
        x < 2 * 3329 ==> r == x as int % 3329,
{
    let wx: u16 = x.wrapping_sub(3329);
    let mask: u16 = wx >> 15;
    assert(mask == (if wx >= 32768 { 1u16 } else { 0u16 })) by (bit_vector)
        requires
            mask == wx >> 15,
    ;
    wx.wrapping_add(mask.wrapping_mul(3329))
}

/// Reduces a product of two residues with a precomputed reciprocal of the
/// modulus: the estimated quotient is exact or one too small, and one
/// branch-free correction finishes the reduction.
fn reduce_product(x: u32) -> (r: u16)
    requires
        x <= 3328 * 3328,
    ensures
        r == x as int % 3329,
{
    let wide: u64 = x as u64;
    let quotient: u64 = (wide * 5039) >> 24;
    assert(quotient * 3329 <= wide && wide - quotient * 3329 < 6658) by (bit_vector)
        requires
            wide <= 11075584,
            quotient == ((wide * 5039) as u64) >> 24,
    ;
    let rest: u16 = (wide - quotient * 3329) as u16;
    let r = field_reduce(rest);
    proof {
        let big: int = if rest >= 3329 { quotient + 1 } else { quotient as int };
        assert(x as int == big * 3329 + r as int) by (nonlinear_arith)
            requires
                rest as int == x as int - quotient as int * 3329,
                big == (if rest >= 3329 { quotient + 1 } else { quotient as int }),
                r as int == (if rest >= 3329 { rest - 3329 } else { rest as int }),
        ;
        lemma_fundamental_div_mod_converse(x as int, 3329, big, r as int);
    }
    r
}

/// An element of GF(3329), held as its representative in `[0, Q)`.
#[derive(Debug, Clone, Copy, PartialEq, Eq, Structural)]
pub struct FieldElement(pub Integer);

impl FieldElement {
    /// The representative is reduced.
    pub open spec fn wf(self) -> bool {
        self.0 < 3329
    }

    /// The residue as a mathematical integer.
    pub open spec fn value(self) -> int {
        self.0 as int
    }

    pub fn new(value: Integer) -> (r: FieldElement)
        ensures
            r.wf(),
            r.value() == value as int % 3329,
    {
        FieldElement(value % Q)
    }

    /// Raises the element to `exponent` by repeated squaring.
    pub fn pow(&self, exponent: Integer) -> (r: FieldElement)
        requires
            self.wf(),
        ensures
            r.wf(),
            r.value() == fpow(self.value(), exponent as nat),
    {
        let mut ans = FieldElement(1);
        let mut base = FieldElement(self.0);
        let mut exp: u16 = exponent;
        assert(ans.value() * pow(base.value(), exp as nat) == pow(self.value(), exponent as nat))
            by (nonlinear_arith)
            requires
                ans.value() == 1,
                base.value() == self.value(),
                exp == exponent,
        ;
        while exp > 0
            invariant
                ans.wf(),
                base.wf(),
                self.wf(),
                (ans.value() * pow(base.value(), exp as nat)) % 3329 == fpow(
                    self.value(),
                    exponent as nat,
                ),
            decreases exp,
        {
            let ghost a = ans.value();
            let ghost b = base.value();
            let ghost e = exp as nat;
            let before: u16 = exp;
            let odd = exp & 1 == 1;
            assert(odd == (exp % 2 == 1)) by (bit_vector)
                requires
                    odd == (exp & 1 == 1),
            ;
            if odd {
                ans = ans * base;
            }
            base = base * base;
            exp = exp >> 1;
            assert(exp == before / 2) by (bit_vector)
                requires
                    exp == before >> 1,
            ;
            proof {
                lemma_pow_step(a, b, e);
            }
        }
        proof {
            lemma_pow0(base.value());
        }
        ans
    }

    /// The multiplicative inverse, as the power `Q - 2`; of zero, zero.
    pub fn inv(&self) -> (r: FieldElement)
        requires
            self.wf(),
        ensures
            r.wf(),
            r.value() == fpow(self.value(), 3327),
            self.value() != 0 ==> fmul(self.value(), r.value()) == 1,
            self.value() == 0 ==> r.value() == 0,
    {
        proof {
            if self.0 != 0 {
                crate::fermat::lemma_inverse_power(self.value());
            } else {
                vstd::arithmetic::power::lemma_pow_adds(0, 1, 3326);
                lemma_pow1(0);
                assert(pow(0, 3327) == 0 * pow(0, 3326));
            }
        }
        self.pow(Q - 2)
    }

    pub fn to_int(&self) -> (r: Integer)
        ensures
            r == self.0,
    {
        self.0
    }
}

/// One round of square-and-multiply keeps `ans * base^exp` unchanged modulo Q.
proof fn lemma_pow_step(a: int, b: int, e: nat)
    requires
        e > 0,
    ensures
        ((if e % 2 == 1 { (a * b) % 3329 } else { a }) * pow((b * b) % 3329, e / 2)) % 3329 == (a
            * pow(b, e)) % 3329,
{
    let h = e / 2;
    lemma_pow_square_mod(b, h);
    // pow(b*b % q, h) % q == pow(b, 2h) % q
    let squared_power = pow((b * b) % 3329, h);
    let plain_power = pow(b, 2 * h);
    if e % 2 == 1 {
        assert(e == 2 * h + 1);
        lemma_pow_adds(b, 1, 2 * h);
        lemma_pow1(b);
        assert(pow(b, e) == b * plain_power);
        lemma_mul_mod_noop_general((a * b) % 3329, squared_power, 3329);
        lemma_mul_mod_noop_general(a * b, plain_power, 3329);
        assert((a * b) * plain_power == a * (b * plain_power)) by (nonlinear_arith);
    } else {
        assert(e == 2 * h);
        lemma_mul_mod_noop_general(a, squared_power, 3329);
        lemma_mul_mod_noop_general(a, plain_power, 3329);
    }
}

/// Squaring the base modulo Q halves the exponent.
proof fn lemma_pow_square_mod(b: int, h: nat)
    ensures
        pow((b * b) % 3329, h) % 3329 == pow(b, 2 * h) % 3329,
    decreases h,
{
    if h == 0 {
        lemma_pow0((b * b) % 3329);
        lemma_pow0(b);
    } else {
        lemma_pow_square_mod(b, (h - 1) as nat);
        let s = (b * b) % 3329;
        lemma_pow_adds(s, 1, (h - 1) as nat);
        lemma_pow1(s);
        lemma_pow_adds(b, 2, (2 * (h - 1)) as nat);
        lemma_pow_adds(b, 1, 1);
        lemma_pow1(b);
        assert(pow(b, 2) == b * b);
        assert(pow(s, h) == s * pow(s, (h - 1) as nat));
        assert(pow(b, 2 * h) == (b * b) * pow(b, (2 * (h - 1)) as nat));
        lemma_mul_mod_noop_general(s, pow(s, (h - 1) as nat), 3329);
        lemma_mul_mod_noop_general(b * b, pow(b, (2 * (h - 1)) as nat), 3329);
        lemma_mul_mod_noop_general(b * b, pow(s, (h - 1) as nat), 3329);
    }
}

impl core::ops::Add<FieldElement> for FieldElement {
    type Output = FieldElement;

    fn add(self, other: FieldElement) -> (r: FieldElement)
        ensures
            r.wf(),
            r.value() == fadd(self.value(), other.value()),
    {
        FieldElement(field_reduce(self.0 + other.0))
    }
}

impl AddSpecImpl<FieldElement> for FieldElement {
    open spec fn obeys_add_spec() -> bool {
        true
    }

    open spec fn add_req(self, other: FieldElement) -> bool {
        self.wf() && other.wf()
    }

    open spec fn add_spec(self, other: FieldElement) -> FieldElement {
        FieldElement(fadd(self.value(), other.value()) as u16)
    }
}

impl core::ops::Sub<FieldElement> for FieldElement {
    type Output = FieldElement;

    fn sub(self, other: FieldElement) -> (r: FieldElement)
        ensures
            r.wf(),
            r.value() == fsub(self.value(), other.value()),
    {
        FieldElement(field_reduce(self.0 + Q - other.0))
    }
}

impl SubSpecImpl<FieldElement> for FieldElement {
    open spec fn obeys_sub_spec() -> bool {
        true
    }

    open spec fn sub_req(self, other: FieldElement) -> bool {
        self.wf() && other.wf()
    }

    open spec fn sub_spec(self, other: FieldElement) -> FieldElement {
        FieldElement(fsub(self.value(), other.value()) as u16)
    }
}

impl core::ops::Mul<FieldElement> for FieldElement {
    type Output = FieldElement;

    fn mul(self, other: FieldElement) -> (r: FieldElement)
        ensures
            r.wf(),
            r.value() == fmul(self.value(), other.value()),
    {
        proof {
            assert(self.0 * other.0 <= 3328 * 3328) by (nonlinear_arith)
                requires
                    self.0 <= 3328,
                    other.0 <= 3328,
            ;
        }
        FieldElement(reduce_product((self.0 as u32) * (other.0 as u32)))
    }
}

impl MulSpecImpl<FieldElement> for FieldElement {
    open spec fn obeys_mul_spec() -> bool {
        true
    }

    open spec fn mul_req(self, other: FieldElement) -> bool {
        self.wf() && other.wf()
    }

    open spec fn mul_spec(self, other: FieldElement) -> FieldElement {
        FieldElement(fmul(self.value(), other.value()) as u16)
    }
}

/// A sum of residues is congruent to the sum of any integers that the
/// residues are congruent to.
pub proof fn lemma_fadd_congruent(a: int, b: int, x: int, y: int)
    requires
        a % 3329 == x % 3329,
        b % 3329 == y % 3329,
    ensures
        fadd(a, b) == (x + y) % 3329,
        fadd(a, b) % 3329 == (x + y) % 3329,
{
    lemma_add_mod_noop(a, b, 3329);
    lemma_add_mod_noop(x, y, 3329);
    lemma_mod_twice(x + y, 3329);
}

/// A difference of residues is congruent to the difference of any integers
/// that the residues are congruent to.
pub proof fn lemma_fsub_congruent(a: int, b: int, x: int, y: int)
    requires
        a % 3329 == x % 3329,
        b % 3329 == y % 3329,
    ensures
        fsub(a, b) == (x - y) % 3329,
        fsub(a, b) % 3329 == (x - y) % 3329,
{
    lemma_sub_mod_noop(a, b, 3329);
    lemma_sub_mod_noop(x, y, 3329);
    lemma_mod_twice(x - y, 3329);
}

/// A product of residues is congruent to the product of any integers that
/// the residues are congruent to.
pub proof fn lemma_fmul_congruent(a: int, b: int, x: int, y: int)
    requires
        a % 3329 == x % 3329,
        b % 3329 == y % 3329,
    ensures
        fmul(a, b) == (x * y) % 3329,
        fmul(a, b) % 3329 == (x * y) % 3329,
{
    lemma_mul_mod_noop_general(a, b, 3329);
    lemma_mul_mod_noop_general(x, y, 3329);
    lemma_mod_twice(x * y, 3329);
}

} // verus!
