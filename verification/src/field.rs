//! The scalar field of BN254 and the arithmetic on it.

use ark_bn254::Fr;
use ark_ff::{BigInt, PrimeField};
use ark_std::rand::rngs::StdRng;
use ark_std::rand::SeedableRng;
use ark_std::UniformRand;
use vstd::prelude::*;

verus! {

/// The order of the BN254 scalar field (the curve's group order).
pub open spec fn fr_modulus() -> nat {
    21888242871839275222246405745257275088548364400416034343698204186575808495617nat
}

/// The integer that four little-endian 64-bit limbs denote.
pub open spec fn limbs_value(l: [u64; 4]) -> nat {
    l[0] as nat + 0x1_0000_0000_0000_0000nat * (l[1] as nat + 0x1_0000_0000_0000_0000nat * (
    l[2] as nat + 0x1_0000_0000_0000_0000nat * l[3] as nat))
}

/// An element of the BN254 scalar field, held as the canonical little-endian
/// limbs of its integer representative in `[0, r)`.
#[derive(Clone, Copy, PartialEq, Eq, Debug)]
pub struct ScalarField {
    pub(crate) limbs: [u64; 4],
}

impl ScalarField {
    #[verifier::type_invariant]
    spec fn canonical(self) -> bool {
        limbs_value(self.limbs) < fr_modulus()
    }

    /// The field element as an integer in `[0, r)`.
    pub closed spec fn value(self) -> nat {
        limbs_value(self.limbs) % fr_modulus()
    }
}

/// Every field element lies below the modulus.
pub broadcast proof fn lemma_value_lt_modulus(s: ScalarField)
    ensures
        #[trigger] s.value() < fr_modulus(),
{
}

/// `x` as a field element: `Fr::from(u64)` of ark-ff, which reduces `x` modulo
/// `r` (every `u64` is already below `r`).
#[verifier::external_body]
pub fn fr_from_u64(x: u64) -> (r: ScalarField)
    ensures
        r.value() == x as nat % fr_modulus(),
{
    ScalarField { limbs: Fr::from(x).into_bigint().0 }
}

/// Field addition on representatives.
pub open spec fn fadd(a: nat, b: nat) -> nat {
    (a + b) % fr_modulus()
}

/// Field subtraction on representatives.
pub open spec fn fsub(a: nat, b: nat) -> nat {
    ((a - b) % (fr_modulus() as int)) as nat
}

/// Field multiplication on representatives.
pub open spec fn fmul(a: nat, b: nat) -> nat {
    (a * b) % fr_modulus()
}

/// Field negation on representatives.
pub open spec fn fneg(a: nat) -> nat {
    ((0 - a) % (fr_modulus() as int)) as nat
}

/// `a + b` in ark-ff's `Fr` (`Add for Fp`): the sum modulo `r`.
#[verifier::external_body]
fn fr_add(a: &ScalarField, b: &ScalarField) -> (r: ScalarField)
    ensures
        r.value() == fadd(a.value(), b.value()),
{
    let x = Fr::from_bigint(BigInt::new(a.limbs)).unwrap();
    let y = Fr::from_bigint(BigInt::new(b.limbs)).unwrap();
    ScalarField { limbs: (x + y).into_bigint().0 }
}

/// `a - b` in ark-ff's `Fr` (`Sub for Fp`): the difference modulo `r`.
#[verifier::external_body]
fn fr_sub(a: &ScalarField, b: &ScalarField) -> (r: ScalarField)
    ensures
        r.value() == fsub(a.value(), b.value()),
{
    let x = Fr::from_bigint(BigInt::new(a.limbs)).unwrap();
    let y = Fr::from_bigint(BigInt::new(b.limbs)).unwrap();
    ScalarField { limbs: (x - y).into_bigint().0 }
}

/// `a * b` in ark-ff's `Fr` (`Mul for Fp`): the product modulo `r`.
#[verifier::external_body]
fn fr_mul(a: &ScalarField, b: &ScalarField) -> (r: ScalarField)
    ensures
        r.value() == fmul(a.value(), b.value()),
{
    let x = Fr::from_bigint(BigInt::new(a.limbs)).unwrap();
    let y = Fr::from_bigint(BigInt::new(b.limbs)).unwrap();
    ScalarField { limbs: (x * y).into_bigint().0 }
}

/// `a / b` in ark-ff's `Fr` (`Div for Fp`, which is `a * b.inverse().unwrap()`
/// and panics on a zero divisor): the element that `b` multiplies back to `a`.
#[verifier::external_body]
fn fr_div(a: &ScalarField, b: &ScalarField) -> (r: ScalarField)
    requires
        b.value() != 0,
    ensures
        fmul(r.value(), b.value()) == a.value(),
{
    let x = Fr::from_bigint(BigInt::new(a.limbs)).unwrap();
    let y = Fr::from_bigint(BigInt::new(b.limbs)).unwrap();
    ScalarField { limbs: (x / y).into_bigint().0 }
}

/// `-a` in ark-ff's `Fr` (`Neg for Fp`): the additive inverse modulo `r`.
#[verifier::external_body]
fn fr_neg(a: &ScalarField) -> (r: ScalarField)
    ensures
        r.value() == fneg(a.value()),
{
    let x = Fr::from_bigint(BigInt::new(a.limbs)).unwrap();
    ScalarField { limbs: (-x).into_bigint().0 }
}

/// `a == b` on ark-ff's `Fr` (`PartialEq for Fp`): equality of the elements.
#[verifier::external_body]
fn fr_eq(a: &ScalarField, b: &ScalarField) -> (r: bool)
    ensures
        r == (a.value() == b.value()),
{
    let x = Fr::from_bigint(BigInt::new(a.limbs)).unwrap();
    let y = Fr::from_bigint(BigInt::new(b.limbs)).unwrap();
    x == y
}

impl ScalarField {
    /// The sum of two field elements.
    pub fn add(&self, other: &Self) -> (r: Self)
        ensures
            r.value() == fadd(self.value(), other.value()),
    {
        fr_add(self, other)
    }

    /// The difference of two field elements.
    pub fn sub(&self, other: &Self) -> (r: Self)
        ensures
            r.value() == fsub(self.value(), other.value()),
    {
        fr_sub(self, other)
    }

    /// The product of two field elements.
    pub fn mul(&self, other: &Self) -> (r: Self)
        ensures
            r.value() == fmul(self.value(), other.value()),
    {
        fr_mul(self, other)
    }

    /// The quotient of two field elements; the divisor must not be zero.
    pub fn div(&self, other: &Self) -> (r: Self)
        requires
            other.value() != 0,
        ensures
            fmul(r.value(), other.value()) == self.value(),
    {
        fr_div(self, other)
    }

    /// The additive inverse of a field element.
    pub fn neg(&self) -> (r: Self)
        ensures
            r.value() == fneg(self.value()),
    {
        fr_neg(self)
    }

    /// Whether two field elements are equal.
    pub fn equals(&self, other: &Self) -> (r: bool)
        ensures
            r == (self.value() == other.value()),
    {
        fr_eq(self, other)
    }

    /// Whether this is the zero element.
    pub fn is_zero(&self) -> (r: bool)
        ensures
            r == (self.value() == 0),
    {
        let z = fr_from_u64(0);
        fr_eq(self, &z)
    }
}

/// The random number generator that draws field elements.
#[verifier::external_type_specification]
#[verifier::external_body]
pub struct ExStdRng(StdRng);

/// ark-std's `test_rng()`. Built, as here, with ark-std's `std` feature and
/// without its `getrandom` feature, it is `StdRng::from_seed` of the fixed
/// seed below behind a private wrapper type that forwards every call, so the
/// generator built here yields the same numbers. Nothing is stated of them.
#[verifier::external_body]
pub(crate) fn test_rng() -> StdRng {
    StdRng::from_seed([
        1, 0, 0, 0, 23, 0, 0, 0, 200, 1, 0, 0, 210, 30, 0, 0, 0, 0, 0, 0, 0, 0, 0, 0, 0, 0, 0, 0, 0, 0, 0, 0,
    ])
}

/// `Fr::rand(rng)` of ark-ff: a uniformly drawn field element; nothing is
/// stated of its value, which depends on the generator's state.
#[verifier::external_body]
fn fr_rand(rng: &mut StdRng) -> ScalarField {
    ScalarField { limbs: Fr::rand(rng).into_bigint().0 }
}

/// A random nonzero field element: draws until a nonzero element comes up.
/// The number of draws is bounded by `u64::MAX`, after which one is returned;
/// a zero draw has probability about `2^-254`.
pub fn random_fr(rng: &mut StdRng) -> (r: ScalarField)
    ensures
        r.value() != 0,
{
    let mut tries: u64 = 0;
    while tries < u64::MAX
        decreases u64::MAX - tries,
    {
        let r = fr_rand(rng);
        if !r.is_zero() {
            return r;
        }
        tries = tries + 1;
    }
    fr_from_u64(1)
}

} // verus!
