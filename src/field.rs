use vstd::prelude::*;
use ark_ff::{BigInt, PrimeField};
use ark_test_curves::bls12_381::Fr;

verus! {

/// The order of the scalar field of BLS12-381, the field every share lives in.
pub open spec fn modulus() -> int {
    52435875175126190479447740508185965837690552500527637822603658699938581184513int
}

/// `2^64`, the weight between two neighbouring limbs.
pub open spec fn limb_base() -> int {
    18446744073709551616int
}

/// The additive identity, as a value.
pub open spec fn zero_scalar() -> Scalar {
    Scalar { l0: 0, l1: 0, l2: 0, l3: 0 }
}

/// An element of the scalar field, held as the four little-endian 64-bit limbs `l0..l3`
/// of its canonical (non-Montgomery) integer representative.
#[derive(Clone, Copy, Debug, PartialEq, Eq, Structural)]
pub struct Scalar {
    pub l0: u64,
    pub l1: u64,
    pub l2: u64,
    pub l3: u64,
}

impl Scalar {
    /// The integer that the limbs spell.
    pub open spec fn value(self) -> int {
        self.l0 as int + limb_base() * (self.l1 as int + limb_base() * (self.l2 as int
            + limb_base() * self.l3 as int))
    }

    /// A canonical representative: below the modulus.
    pub open spec fn wf(self) -> bool {
        self.value() < modulus()
    }

    /// The additive identity.
    pub fn zero() -> (r: Scalar)
        ensures
            r == zero_scalar(),
            r.wf(),
            r.value() == 0,
    {
        Scalar { l0: 0, l1: 0, l2: 0, l3: 0 }
    }

    /// The multiplicative identity.
    pub fn one() -> (r: Scalar)
        ensures
            r.wf(),
            r.value() == 1,
    {
        Scalar { l0: 1, l1: 0, l2: 0, l3: 0 }
    }

    /// The field element `v`; every `u64` is below the modulus.
    pub fn from_u64(v: u64) -> (r: Scalar)
        ensures
            r.wf(),
            r.value() == v as int,
    {
        Scalar { l0: v, l1: 0, l2: 0, l3: 0 }
    }

    /// Field multiplication.
    pub fn mul(&self, other: &Scalar) -> (r: Scalar)
        requires
            self.wf(),
            other.wf(),
        ensures
            r.wf(),
            r.value() == (self.value() * other.value()) % modulus(),
    {
        field_mul(self, other)
    }
}

/// Two scalars that spell the same integer are the same scalar.
pub proof fn lemma_value_injective(a: Scalar, b: Scalar)
    requires
        a.value() == b.value(),
    ensures
        a == b,
{
    let base = limb_base();
    let a2 = a.l2 as int + base * a.l3 as int;
    let b2 = b.l2 as int + base * b.l3 as int;
    let a1 = a.l1 as int + base * a2;
    let b1 = b.l1 as int + base * b2;
    vstd::arithmetic::div_mod::lemma_fundamental_div_mod_converse_mod(a.value(), base, a1, a.l0 as int);
    vstd::arithmetic::div_mod::lemma_fundamental_div_mod_converse_div(a.value(), base, a1, a.l0 as int);
    vstd::arithmetic::div_mod::lemma_fundamental_div_mod_converse_mod(b.value(), base, b1, b.l0 as int);
    vstd::arithmetic::div_mod::lemma_fundamental_div_mod_converse_div(b.value(), base, b1, b.l0 as int);
    vstd::arithmetic::div_mod::lemma_fundamental_div_mod_converse_mod(a1, base, a2, a.l1 as int);
    vstd::arithmetic::div_mod::lemma_fundamental_div_mod_converse_div(a1, base, a2, a.l1 as int);
    vstd::arithmetic::div_mod::lemma_fundamental_div_mod_converse_mod(b1, base, b2, b.l1 as int);
    vstd::arithmetic::div_mod::lemma_fundamental_div_mod_converse_div(b1, base, b2, b.l1 as int);
    vstd::arithmetic::div_mod::lemma_fundamental_div_mod_converse_mod(a2, base, a.l3 as int, a.l2 as int);
    vstd::arithmetic::div_mod::lemma_fundamental_div_mod_converse_div(a2, base, a.l3 as int, a.l2 as int);
    vstd::arithmetic::div_mod::lemma_fundamental_div_mod_converse_mod(b2, base, b.l3 as int, b.l2 as int);
    vstd::arithmetic::div_mod::lemma_fundamental_div_mod_converse_div(b2, base, b.l3 as int, b.l2 as int);
}

/// Relies on `Mul` for `ark_test_curves::bls12_381::Fr`: the product modulo the
/// field order, returned by `into_bigint` as its canonical limbs.
#[verifier::external_body]
fn field_mul(a: &Scalar, b: &Scalar) -> (r: Scalar)
    requires
        a.wf(),
        b.wf(),
    ensures
        r.wf(),
        r.value() == (a.value() * b.value()) % modulus(),
{
    let x = Fr::from_bigint(BigInt::new([a.l0, a.l1, a.l2, a.l3])).unwrap();
    let y = Fr::from_bigint(BigInt::new([b.l0, b.l1, b.l2, b.l3])).unwrap();
    let [l0, l1, l2, l3] = (x * y).into_bigint().0;
    Scalar { l0, l1, l2, l3 }
}

} // verus!
