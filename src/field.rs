//! Elements of the prime field of order 2^31 - 1.
//!
//! The arithmetic itself is done by `stwo`'s `M31`; this module keeps the
//! canonical representative of each element as a plain integer so that the
//! hashing logic can be reasoned about.

use vstd::arithmetic::div_mod::{lemma_add_mod_noop, lemma_mul_mod_noop};
use vstd::prelude::*;

verus! {

/// The field's modulus, 2^31 - 1.
pub const P: u32 = 2147483647;

/// `a + b` in the field, on representatives.
pub open spec fn fadd(a: int, b: int) -> int {
    (a + b) % (P as int)
}

/// `a * b` in the field, on representatives.
pub open spec fn fmul(a: int, b: int) -> int {
    (a * b) % (P as int)
}

/// Relies on `M31`'s `Add`: reduces the sum of two canonical values once
/// by the modulus, which gives the canonical value of the sum.
#[verifier::external_body]
fn m31_add(a: u32, b: u32) -> (r: u32)
    requires
        a < P,
        b < P,
    ensures
        r as int == (a as int + b as int) % (P as int),
{
    (stwo::core::fields::m31::M31::from_u32_unchecked(a) + stwo::core::fields::m31::M31::from_u32_unchecked(b)).0
}

/// Relies on `M31`'s `Mul`: reduces the 64-bit product of two canonical
/// values, which is below P^2, to its canonical value.
#[verifier::external_body]
fn m31_mul(a: u32, b: u32) -> (r: u32)
    requires
        a < P,
        b < P,
    ensures
        r as int == (a as int * b as int) % (P as int),
{
    (stwo::core::fields::m31::M31::from_u32_unchecked(a) * stwo::core::fields::m31::M31::from_u32_unchecked(b)).0
}

/// An element of the field, held as its canonical representative.
#[derive(Clone, Copy, Debug, PartialEq, Eq, Structural)]
pub struct BaseField {
    val: u32,
}

impl View for BaseField {
    type V = int;

    closed spec fn view(&self) -> int {
        self.val as int
    }
}

impl BaseField {
    #[verifier::type_invariant]
    spec fn canonical(&self) -> bool {
        self.val < P
    }

    /// Makes the element whose representative is `v`; `v` must already be
    /// reduced.
    pub fn from_u32_unchecked(v: u32) -> (r: BaseField)
        requires
            v < P,
        ensures
            r@ == v as int,
    {
        BaseField { val: v }
    }

    /// The zero element.
    pub fn zero() -> (r: BaseField)
        ensures
            r@ == 0,
    {
        BaseField { val: 0 }
    }

    /// The canonical representative, in `[0, P)`.
    pub fn value(&self) -> (r: u32)
        ensures
            r as int == self@,
            r < P,
    {
        proof {
            use_type_invariant(self);
        }
        self.val
    }

    /// Field addition.
    pub fn add(self, rhs: BaseField) -> (r: BaseField)
        ensures
            r@ == fadd(self@, rhs@),
    {
        proof {
            use_type_invariant(self);
            use_type_invariant(rhs);
        }
        BaseField { val: m31_add(self.val, rhs.val) }
    }

    /// Field multiplication.
    pub fn mul(self, rhs: BaseField) -> (r: BaseField)
        ensures
            r@ == fmul(self@, rhs@),
    {
        proof {
            use_type_invariant(self);
            use_type_invariant(rhs);
        }
        BaseField { val: m31_mul(self.val, rhs.val) }
    }
}

/// The representatives of an array of elements, in order.
pub open spec fn vals<const N: usize>(a: [BaseField; N]) -> Seq<int> {
    a@.map_values(|e: BaseField| e@)
}

/// Adding two reduced values reduces their sum.
pub proof fn lemma_fadd_of(a: int, b: int, ra: int, rb: int)
    requires
        ra == a % (P as int),
        rb == b % (P as int),
    ensures
        fadd(ra, rb) == (a + b) % (P as int),
{
    lemma_fadd_mod(a, b);
    lemma_fadd_mod(a % (P as int), b);
}

/// Multiplying two reduced values reduces their product.
pub proof fn lemma_fmul_of(a: int, b: int, ra: int, rb: int)
    requires
        ra == a % (P as int),
        rb == b % (P as int),
    ensures
        fmul(ra, rb) == (a * b) % (P as int),
{
    lemma_fmul_mod(a, b);
    lemma_fmul_mod(a % (P as int), b);
}

/// Reducing before or after an addition gives the same result.
pub proof fn lemma_fadd_mod(a: int, b: int)
    ensures
        fadd(a % (P as int), b) == fadd(a, b),
        fadd(a, b % (P as int)) == fadd(a, b),
{
    lemma_add_mod_noop(a, b, P as int);
    lemma_add_mod_noop(a % (P as int), b, P as int);
    lemma_add_mod_noop(a, b % (P as int), P as int);
    vstd::arithmetic::div_mod::lemma_mod_twice(a, P as int);
    vstd::arithmetic::div_mod::lemma_mod_twice(b, P as int);
}

/// Reducing before or after a multiplication gives the same result.
pub proof fn lemma_fmul_mod(a: int, b: int)
    ensures
        fmul(a % (P as int), b) == fmul(a, b),
        fmul(a, b % (P as int)) == fmul(a, b),
{
    lemma_mul_mod_noop(a, b, P as int);
    lemma_mul_mod_noop(a % (P as int), b, P as int);
    lemma_mul_mod_noop(a, b % (P as int), P as int);
    vstd::arithmetic::div_mod::lemma_mod_twice(a, P as int);
    vstd::arithmetic::div_mod::lemma_mod_twice(b, P as int);
}

} // verus!
