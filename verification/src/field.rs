//! The BabyBear prime field and its quartic extension.

use p3_baby_bear::BabyBear as P3BabyBear;
use p3_field::extension::BinomialExtensionField;
use p3_field::{BasedVectorSpace, Field, PrimeCharacteristicRing, PrimeField32, TwoAdicField};
use vstd::prelude::*;

verus! {

type P3Ext4 = BinomialExtensionField<P3BabyBear, 4>;

/// The BabyBear modulus `2^31 - 2^27 + 1`.
pub const P: u32 = 0x78000001;

/// The largest `k` such that the field has a subgroup of order `2^k`.
pub const TWO_ADICITY: usize = 27;

/// An element of the BabyBear field, held as an integer. The integer is canonical when it is
/// below `P`; every operation reads its operands modulo `P` and returns a canonical element.
#[derive(Copy, Clone, Debug, Eq)]
pub struct BabyBear {
    pub value: u32,
}

impl PartialEq for BabyBear {
    fn eq(&self, other: &Self) -> (r: bool) {
        self.value == other.value
    }
}

impl vstd::std_specs::cmp::PartialEqSpecImpl for BabyBear {
    open spec fn obeys_eq_spec() -> bool {
        true
    }

    open spec fn eq_spec(&self, other: &Self) -> bool {
        self.value == other.value
    }
}

/// A type with a zero.
pub trait Zero: Copy {
    spec fn spec_zero() -> Self;

    fn zero() -> (r: Self)
        ensures
            r == Self::spec_zero(),
    ;
}

impl Zero for BabyBear {
    open spec fn spec_zero() -> Self {
        bb(0)
    }

    fn zero() -> (r: Self) {
        BabyBear { value: 0 }
    }
}

/// The canonical element that is congruent to `i`.
pub open spec fn bb(i: int) -> BabyBear {
    BabyBear { value: (i % (P as int)) as u32 }
}

#[verifier::opaque]
pub open spec fn f_add(a: BabyBear, b: BabyBear) -> BabyBear {
    bb(a.value + b.value)
}

#[verifier::opaque]
pub open spec fn f_sub(a: BabyBear, b: BabyBear) -> BabyBear {
    bb(a.value - b.value)
}

#[verifier::opaque]
pub open spec fn f_mul(a: BabyBear, b: BabyBear) -> BabyBear {
    bb(a.value * b.value)
}

/// `a^e`.
pub open spec fn f_pow(a: BabyBear, e: nat) -> BabyBear
    decreases e,
{
    if e == 0 {
        bb(1)
    } else {
        f_mul(f_pow(a, (e - 1) as nat), a)
    }
}

/// Half of `a`: the product with `(P + 1) / 2`, the inverse of two.
#[verifier::opaque]
pub open spec fn f_half(a: BabyBear) -> BabyBear {
    bb(a.value * 1006632961)
}

/// The fixed generator of the subgroup of order `2^bits`, for `bits <= 27`.
pub open spec fn f_generator(bits: nat) -> BabyBear {
    BabyBear {
        value: seq![
            0x1u32, 0x78000000, 0x67055c21, 0x5ee99486, 0xbb4c4e4, 0x2d4cc4da, 0x669d6090,
            0x17b56c64, 0x67456167, 0x688442f9, 0x145e952d, 0x4fe61226, 0x4c734715, 0x11c33e2a,
            0x62c3d2b1, 0x77cad399, 0x54c131f4, 0x4cabd6a6, 0x5cf5713f, 0x3e9430e8, 0xba067a3,
            0x18adc27d, 0x21fd55bc, 0x4b859b3d, 0x3bd57996, 0x4483d85a, 0x3a26eef8, 0x1a427a41,
        ][bits as int],
    }
}

impl BabyBear {
    /// Whether the integer held is the canonical one of its class.
    pub open spec fn wf(self) -> bool {
        self.value < P
    }

    /// The element that `value` is congruent to.
    pub fn new(value: u32) -> (r: Self)
        ensures
            r == bb(value as int),
    {
        BabyBear { value: value % P }
    }

    pub fn zero() -> (r: Self)
        ensures
            r == bb(0),
    {
        BabyBear { value: 0 }
    }

    pub fn one() -> (r: Self)
        ensures
            r == bb(1),
    {
        BabyBear { value: 1 }
    }

    pub fn from_bool(b: bool) -> (r: Self)
        ensures
            r == bb(if b { 1 } else { 0 }),
    {
        if b {
            BabyBear::one()
        } else {
            BabyBear::zero()
        }
    }

    pub fn from_usize(n: usize) -> (r: Self)
        ensures
            r == bb(n as int),
    {
        BabyBear { value: (n as u64 % P as u64) as u32 }
    }

    /// Whether this is the zero of the field.
    pub fn is_zero(self) -> (r: bool)
        ensures
            r == (bb(self.value as int) == bb(0)),
    {
        self.value % P == 0
    }

    /// Calls the addition of `p3_baby_bear::BabyBear`: the result is the sum modulo `P`.
    #[verifier::external_body]
    pub(crate) fn add(self, other: Self) -> (r: Self)
        ensures
            r == f_add(self, other),
    {
        let r = P3BabyBear::from_u32(self.value) + P3BabyBear::from_u32(other.value);
        BabyBear { value: r.as_canonical_u32() }
    }

    /// Calls the subtraction of `p3_baby_bear::BabyBear`: the result is the difference modulo
    /// `P`.
    #[verifier::external_body]
    pub(crate) fn sub(self, other: Self) -> (r: Self)
        ensures
            r == f_sub(self, other),
    {
        let r = P3BabyBear::from_u32(self.value) - P3BabyBear::from_u32(other.value);
        BabyBear { value: r.as_canonical_u32() }
    }

    /// Calls the multiplication of `p3_baby_bear::BabyBear`: the result is the product modulo
    /// `P`.
    #[verifier::external_body]
    pub(crate) fn mul(self, other: Self) -> (r: Self)
        ensures
            r == f_mul(self, other),
    {
        let r = P3BabyBear::from_u32(self.value) * P3BabyBear::from_u32(other.value);
        BabyBear { value: r.as_canonical_u32() }
    }

    /// Calls `halve` of `p3_baby_bear::BabyBear`: the result is the product with the inverse of
    /// two.
    #[verifier::external_body]
    pub(crate) fn halve(self) -> (r: Self)
        ensures
            r == f_half(self),
    {
        BabyBear { value: P3BabyBear::from_u32(self.value).halve().as_canonical_u32() }
    }

    /// Calls `exp_u64` of `p3_baby_bear::BabyBear`: the result is the power with exponent `e`.
    #[verifier::external_body]
    pub(crate) fn exp_u64(self, e: u64) -> (r: Self)
        ensures
            r == f_pow(self, e as nat),
    {
        BabyBear { value: P3BabyBear::from_u32(self.value).exp_u64(e).as_canonical_u32() }
    }

    /// Calls `inverse` of `p3_baby_bear::BabyBear`, which panics on zero: the result is the
    /// canonical element whose product with the argument is one.
    #[verifier::external_body]
    pub(crate) fn inverse(self) -> (r: Self)
        requires
            bb(self.value as int) != bb(0),
        ensures
            r.wf(),
            f_mul(self, r) == bb(1),
    {
        BabyBear { value: P3BabyBear::from_u32(self.value).inverse().as_canonical_u32() }
    }

    /// Calls `two_adic_generator` of `p3_baby_bear::BabyBear`, which reads the generator out of
    /// a table and panics above the two-adicity.
    #[verifier::external_body]
    pub(crate) fn two_adic_generator(bits: usize) -> (r: Self)
        requires
            bits <= TWO_ADICITY,
        ensures
            r == f_generator(bits as nat),
    {
        BabyBear { value: P3BabyBear::two_adic_generator(bits).as_canonical_u32() }
    }
}

/// Calls `p3_field::batch_multiplicative_inverse`, which panics where an element is zero: the
/// results are the canonical elements whose products with the arguments are one.
#[verifier::external_body]
pub(crate) fn batch_multiplicative_inverse(x: &Vec<BabyBear>) -> (r: Vec<BabyBear>)
    requires
        forall|i: int| 0 <= i < x@.len() ==> bb((#[trigger] x@[i]).value as int) != bb(0),
    ensures
        r@.len() == x@.len(),
        forall|i: int|
            0 <= i < x@.len() ==> (#[trigger] r@[i]).wf() && f_mul(x@[i], r@[i]) == bb(1),
{
    let x: Vec<P3BabyBear> = x.iter().map(|a| P3BabyBear::from_u32(a.value)).collect();
    let r = p3_field::batch_multiplicative_inverse(&x);
    r.iter().map(|a| BabyBear { value: a.as_canonical_u32() }).collect()
}

/// An element `c0 + c1 X + c2 X^2 + c3 X^3` of the extension by a root `X` of `X^4 - 11`.
#[derive(Copy, Clone, Debug, Eq)]
pub struct BabyBearExt4 {
    pub c0: BabyBear,
    pub c1: BabyBear,
    pub c2: BabyBear,
    pub c3: BabyBear,
}

impl PartialEq for BabyBearExt4 {
    fn eq(&self, other: &Self) -> (r: bool) {
        self.c0 == other.c0 && self.c1 == other.c1 && self.c2 == other.c2 && self.c3 == other.c3
    }
}

impl vstd::std_specs::cmp::PartialEqSpecImpl for BabyBearExt4 {
    open spec fn obeys_eq_spec() -> bool {
        true
    }

    open spec fn eq_spec(&self, other: &Self) -> bool {
        self == other
    }
}

/// The base field.
pub type F = BabyBear;

/// The extension field.
pub type EF = BabyBearExt4;

/// The extension element whose coefficients are congruent to the given integers.
pub open spec fn ext(c0: int, c1: int, c2: int, c3: int) -> EF {
    BabyBearExt4 { c0: bb(c0), c1: bb(c1), c2: bb(c2), c3: bb(c3) }
}

/// A base field element inside the extension.
#[verifier::opaque]
pub open spec fn e_from(a: BabyBear) -> EF {
    ext(a.value as int, 0, 0, 0)
}

pub open spec fn e_zero() -> EF {
    ext(0, 0, 0, 0)
}

pub open spec fn e_one() -> EF {
    ext(1, 0, 0, 0)
}

#[verifier::opaque]
pub open spec fn e_add(a: EF, b: EF) -> EF {
    ext(
        a.c0.value + b.c0.value,
        a.c1.value + b.c1.value,
        a.c2.value + b.c2.value,
        a.c3.value + b.c3.value,
    )
}

#[verifier::opaque]
pub open spec fn e_sub(a: EF, b: EF) -> EF {
    ext(
        a.c0.value - b.c0.value,
        a.c1.value - b.c1.value,
        a.c2.value - b.c2.value,
        a.c3.value - b.c3.value,
    )
}

/// The product of polynomials, with `X^4` replaced by 11.
#[verifier::opaque]
pub open spec fn e_mul(a: EF, b: EF) -> EF {
    let (a0, a1, a2, a3) = (a.c0.value, a.c1.value, a.c2.value, a.c3.value);
    let (b0, b1, b2, b3) = (b.c0.value, b.c1.value, b.c2.value, b.c3.value);
    ext(
        a0 * b0 + 11 * (a1 * b3 + a2 * b2 + a3 * b1),
        a0 * b1 + a1 * b0 + 11 * (a2 * b3 + a3 * b2),
        a0 * b2 + a1 * b1 + a2 * b0 + 11 * (a3 * b3),
        a0 * b3 + a1 * b2 + a2 * b1 + a3 * b0,
    )
}

/// The product with a base field element.
#[verifier::opaque]
pub open spec fn e_scale(a: EF, k: BabyBear) -> EF {
    ext(
        a.c0.value * k.value,
        a.c1.value * k.value,
        a.c2.value * k.value,
        a.c3.value * k.value,
    )
}

/// `a^e`.
pub open spec fn e_pow(a: EF, e: nat) -> EF
    decreases e,
{
    if e == 0 {
        e_one()
    } else {
        e_mul(e_pow(a, (e - 1) as nat), a)
    }
}

impl Zero for BabyBearExt4 {
    open spec fn spec_zero() -> Self {
        e_zero()
    }

    fn zero() -> (r: Self) {
        BabyBearExt4 {
            c0: BabyBear { value: 0 },
            c1: BabyBear { value: 0 },
            c2: BabyBear { value: 0 },
            c3: BabyBear { value: 0 },
        }
    }
}

impl BabyBearExt4 {
    /// Whether all coefficients are canonical.
    pub open spec fn wf(self) -> bool {
        self.c0.wf() && self.c1.wf() && self.c2.wf() && self.c3.wf()
    }

    /// The coefficients, from that of the constant term up.
    pub open spec fn basis(self) -> Seq<BabyBear> {
        seq![self.c0, self.c1, self.c2, self.c3]
    }

    pub fn new(c0: BabyBear, c1: BabyBear, c2: BabyBear, c3: BabyBear) -> (r: Self)
        ensures
            r == (BabyBearExt4 { c0, c1, c2, c3 }),
    {
        BabyBearExt4 { c0, c1, c2, c3 }
    }

    pub fn one() -> (r: Self)
        ensures
            r == e_one(),
    {
        BabyBearExt4 {
            c0: BabyBear { value: 1 },
            c1: BabyBear { value: 0 },
            c2: BabyBear { value: 0 },
            c3: BabyBear { value: 0 },
        }
    }

    pub fn from_base(a: BabyBear) -> (r: Self)
        ensures
            r == e_from(a),
    {
        proof {
            reveal(e_from);
        }
        BabyBearExt4 {
            c0: BabyBear::new(a.value),
            c1: BabyBear { value: 0 },
            c2: BabyBear { value: 0 },
            c3: BabyBear { value: 0 },
        }
    }

    pub fn from_usize(n: usize) -> (r: Self)
        ensures
            r == e_from(bb(n as int)),
    {
        BabyBearExt4::from_base(BabyBear::from_usize(n))
    }

    /// Calls the addition of `p3_field::extension::BinomialExtensionField<BabyBear, 4>`, which
    /// adds coefficient by coefficient.
    #[verifier::external_body]
    pub(crate) fn add(self, other: Self) -> (r: Self)
        ensures
            r == e_add(self, other),
    {
        let a = [self.c0, self.c1, self.c2, self.c3].map(|c| P3BabyBear::from_u32(c.value));
        let b = [other.c0, other.c1, other.c2, other.c3].map(|c| P3BabyBear::from_u32(c.value));
        let r = P3Ext4::new(a) + P3Ext4::new(b);
        let c: &[P3BabyBear] = r.as_basis_coefficients_slice();
        BabyBearExt4 {
            c0: BabyBear { value: c[0].as_canonical_u32() },
            c1: BabyBear { value: c[1].as_canonical_u32() },
            c2: BabyBear { value: c[2].as_canonical_u32() },
            c3: BabyBear { value: c[3].as_canonical_u32() },
        }
    }

    /// Calls the subtraction of `p3_field::extension::BinomialExtensionField<BabyBear, 4>`, which
    /// subtracts coefficient by coefficient.
    #[verifier::external_body]
    pub(crate) fn sub(self, other: Self) -> (r: Self)
        ensures
            r == e_sub(self, other),
    {
        let a = [self.c0, self.c1, self.c2, self.c3].map(|c| P3BabyBear::from_u32(c.value));
        let b = [other.c0, other.c1, other.c2, other.c3].map(|c| P3BabyBear::from_u32(c.value));
        let r = P3Ext4::new(a) - P3Ext4::new(b);
        let c: &[P3BabyBear] = r.as_basis_coefficients_slice();
        BabyBearExt4 {
            c0: BabyBear { value: c[0].as_canonical_u32() },
            c1: BabyBear { value: c[1].as_canonical_u32() },
            c2: BabyBear { value: c[2].as_canonical_u32() },
            c3: BabyBear { value: c[3].as_canonical_u32() },
        }
    }

    /// Calls the multiplication of `p3_field::extension::BinomialExtensionField<BabyBear, 4>`,
    /// which multiplies polynomials modulo `X^4 - 11`.
    #[verifier::external_body]
    pub(crate) fn mul(self, other: Self) -> (r: Self)
        ensures
            r == e_mul(self, other),
    {
        let a = [self.c0, self.c1, self.c2, self.c3].map(|c| P3BabyBear::from_u32(c.value));
        let b = [other.c0, other.c1, other.c2, other.c3].map(|c| P3BabyBear::from_u32(c.value));
        let r = P3Ext4::new(a) * P3Ext4::new(b);
        let c: &[P3BabyBear] = r.as_basis_coefficients_slice();
        BabyBearExt4 {
            c0: BabyBear { value: c[0].as_canonical_u32() },
            c1: BabyBear { value: c[1].as_canonical_u32() },
            c2: BabyBear { value: c[2].as_canonical_u32() },
            c3: BabyBear { value: c[3].as_canonical_u32() },
        }
    }

    /// Calls the multiplication of `p3_field::extension::BinomialExtensionField<BabyBear, 4>` with
    /// a base field element, which multiplies each coefficient.
    #[verifier::external_body]
    pub(crate) fn scale(self, k: BabyBear) -> (r: Self)
        ensures
            r == e_scale(self, k),
    {
        let a = [self.c0, self.c1, self.c2, self.c3].map(|c| P3BabyBear::from_u32(c.value));
        let r = P3Ext4::new(a) * P3BabyBear::from_u32(k.value);
        let c: &[P3BabyBear] = r.as_basis_coefficients_slice();
        BabyBearExt4 {
            c0: BabyBear { value: c[0].as_canonical_u32() },
            c1: BabyBear { value: c[1].as_canonical_u32() },
            c2: BabyBear { value: c[2].as_canonical_u32() },
            c3: BabyBear { value: c[3].as_canonical_u32() },
        }
    }
}

} // verus!
