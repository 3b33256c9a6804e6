//! Points of the BN254 groups `G1` and `G2` in affine coordinates, elements of
//! the pairing target group, and the curve operations the protocol uses.

use crate::field::{limbs_value, ScalarField};
use ark_bn254::{Bn254, Fq, Fq12, Fq2, Fr, G1Affine, G1Projective, G2Affine, G2Projective};
use ark_ec::pairing::{Pairing, PairingOutput};
use ark_ec::{CurveGroup, PrimeGroup, VariableBaseMSM};
use ark_ff::{BigInt, Field, PrimeField};
use vstd::prelude::*;

verus! {

/// The order of the BN254 base field, over which the curves are defined.
pub open spec fn fq_modulus() -> nat {
    21888242871839275222246405745257275088696311157297823662689037894645226208583nat
}

/// A point of `G1`: its affine coordinates as canonical base-field limbs and
/// whether it is the point at infinity.
#[derive(Clone, Copy, PartialEq, Eq, Debug)]
pub struct G1Aff {
    pub(crate) x: [u64; 4],
    pub(crate) y: [u64; 4],
    pub(crate) infinity: bool,
}

/// A point of `G2`: its affine coordinates in the quadratic extension as the
/// canonical base-field limbs of `x.c0`, `x.c1`, `y.c0` and `y.c1`, and whether
/// it is the point at infinity.
#[derive(Clone, Copy, PartialEq, Eq, Debug)]
pub struct G2Aff {
    pub(crate) c: [[u64; 4]; 4],
    pub(crate) infinity: bool,
}

/// An element of the pairing target group: its twelve base-field coefficients.
#[derive(PartialEq, Eq, Debug)]
pub struct Gt {
    pub(crate) c: Vec<[u64; 4]>,
}

impl G1Aff {
    #[verifier::type_invariant]
    spec fn canonical(self) -> bool {
        limbs_value(self.x) < fq_modulus() && limbs_value(self.y) < fq_modulus()
    }
}

impl G2Aff {
    #[verifier::type_invariant]
    spec fn canonical(self) -> bool {
        &&& limbs_value(self.c[0]) < fq_modulus()
        &&& limbs_value(self.c[1]) < fq_modulus()
        &&& limbs_value(self.c[2]) < fq_modulus()
        &&& limbs_value(self.c[3]) < fq_modulus()
    }
}

impl Gt {
    #[verifier::type_invariant]
    spec fn canonical(self) -> bool {
        &&& self.c@.len() == 12
        &&& forall|i: int| 0 <= i < 12 ==> #[trigger] limbs_value(self.c@[i]) < fq_modulus()
    }
}

impl View for G1Aff {
    type V = (nat, nat, bool);

    closed spec fn view(&self) -> (nat, nat, bool) {
        (limbs_value(self.x), limbs_value(self.y), self.infinity)
    }
}

impl View for G2Aff {
    type V = ((nat, nat), (nat, nat), bool);

    closed spec fn view(&self) -> ((nat, nat), (nat, nat), bool) {
        (
            (limbs_value(self.c[0]), limbs_value(self.c[1])),
            (limbs_value(self.c[2]), limbs_value(self.c[3])),
            self.infinity,
        )
    }
}

impl View for Gt {
    type V = Seq<nat>;

    closed spec fn view(&self) -> Seq<nat> {
        self.c@.map_values(|l: [u64; 4]| limbs_value(l))
    }
}

/// The views of a sequence of `G1` points.
pub open spec fn g1_views(s: Seq<G1Aff>) -> Seq<(nat, nat, bool)> {
    s.map_values(|p: G1Aff| p@)
}

/// The views of a sequence of `G2` points.
pub open spec fn g2_views(s: Seq<G2Aff>) -> Seq<((nat, nat), (nat, nat), bool)> {
    s.map_values(|p: G2Aff| p@)
}

/// The affine coordinates of `[s]·g` for the generator `g` of `G1`.
pub uninterp spec fn g1_gen_mul(s: nat) -> (nat, nat, bool);

/// The affine coordinates of `[s]·g` for the generator `g` of `G2`.
pub uninterp spec fn g2_gen_mul(s: nat) -> ((nat, nat), (nat, nat), bool);

/// The affine coordinates of the sum of two `G1` points.
pub uninterp spec fn g1_sum(p: (nat, nat, bool), q: (nat, nat, bool)) -> (nat, nat, bool);

/// The affine coordinates of the difference of two `G1` points.
pub uninterp spec fn g1_diff(p: (nat, nat, bool), q: (nat, nat, bool)) -> (nat, nat, bool);

/// The affine coordinates of `[s]·p` for a `G1` point `p`.
pub uninterp spec fn g1_scalar_mul(p: (nat, nat, bool), s: nat) -> (nat, nat, bool);

/// The affine coordinates of the sum of two `G2` points.
pub uninterp spec fn g2_sum(p: ((nat, nat), (nat, nat), bool), q: ((nat, nat), (nat, nat), bool)) -> ((nat, nat), (nat, nat), bool);

/// The affine coordinates of `[s]·p` for a `G2` point `p`.
pub uninterp spec fn g2_scalar_mul(p: ((nat, nat), (nat, nat), bool), s: nat) -> ((nat, nat), (nat, nat), bool);

/// The affine coordinates of the multi-scalar product `sum_i [scalars[i]]·bases[i]` in `G1`.
pub uninterp spec fn g1_msm(bases: Seq<(nat, nat, bool)>, scalars: Seq<nat>) -> (nat, nat, bool);

/// The affine coordinates of the multi-scalar product `sum_i [scalars[i]]·bases[i]` in `G2`.
pub uninterp spec fn g2_msm(bases: Seq<((nat, nat), (nat, nat), bool)>, scalars: Seq<nat>) -> ((nat, nat), (nat, nat), bool);

/// The coefficients of the pairing `e(p, q)`.
pub uninterp spec fn pairing_value(p: (nat, nat, bool), q: ((nat, nat), (nat, nat), bool)) -> Seq<nat>;

/// The coefficients of the group operation on two target-group elements.
pub uninterp spec fn gt_sum(a: Seq<nat>, b: Seq<nat>) -> Seq<nat>;

/// `(G1Projective::generator() * s).into_affine()` of ark-ec: the named point.
#[verifier::external_body]
pub(crate) fn g1_generator_mul(s: &ScalarField) -> (r: G1Aff)
    ensures
        r@ == g1_gen_mul(s.value()),
{
    let r = (G1Projective::generator() * Fr::from(BigInt(s.limbs))).into_affine();
    G1Aff { x: r.x.into_bigint().0, y: r.y.into_bigint().0, infinity: r.infinity }
}

/// `(G2Projective::generator() * s).into_affine()` of ark-ec: the named point.
#[verifier::external_body]
pub(crate) fn g2_generator_mul(s: &ScalarField) -> (r: G2Aff)
    ensures
        r@ == g2_gen_mul(s.value()),
{
    let r = (G2Projective::generator() * Fr::from(BigInt(s.limbs))).into_affine();
    G2Aff { c: [r.x.c0, r.x.c1, r.y.c0, r.y.c1].map(|e| e.into_bigint().0), infinity: r.infinity }
}

/// `(p + q).into_affine()` on ark-ec's `G1Affine`: the named sum.
#[verifier::external_body]
pub(crate) fn g1_add(p: &G1Aff, q: &G1Aff) -> (r: G1Aff)
    ensures
        r@ == g1_sum(p@, q@),
{
    let f = |l: [u64; 4]| Fq::from(BigInt(l));
    let r = (G1Affine { x: f(p.x), y: f(p.y), infinity: p.infinity } + G1Affine { x: f(q.x), y: f(q.y), infinity: q.infinity }).into_affine();
    G1Aff { x: r.x.into_bigint().0, y: r.y.into_bigint().0, infinity: r.infinity }
}

/// `(p - q).into_affine()` on ark-ec's `G1Affine`: the named difference.
#[verifier::external_body]
pub(crate) fn g1_sub(p: &G1Aff, q: &G1Aff) -> (r: G1Aff)
    ensures
        r@ == g1_diff(p@, q@),
{
    let f = |l: [u64; 4]| Fq::from(BigInt(l));
    let r = (G1Affine { x: f(p.x), y: f(p.y), infinity: p.infinity } - G1Affine { x: f(q.x), y: f(q.y), infinity: q.infinity }).into_affine();
    G1Aff { x: r.x.into_bigint().0, y: r.y.into_bigint().0, infinity: r.infinity }
}

/// `(p * s).into_affine()` on ark-ec's `G1Affine`: the named multiple.
#[verifier::external_body]
pub(crate) fn g1_mul(p: &G1Aff, s: &ScalarField) -> (r: G1Aff)
    ensures
        r@ == g1_scalar_mul(p@, s.value()),
{
    let f = |l: [u64; 4]| Fq::from(BigInt(l));
    let r = (G1Affine { x: f(p.x), y: f(p.y), infinity: p.infinity } * Fr::from(BigInt(s.limbs))).into_affine();
    G1Aff { x: r.x.into_bigint().0, y: r.y.into_bigint().0, infinity: r.infinity }
}

/// `(p + q).into_affine()` on ark-ec's `G2Affine`: the named sum.
#[verifier::external_body]
pub(crate) fn g2_add(p: &G2Aff, q: &G2Aff) -> (r: G2Aff)
    ensures
        r@ == g2_sum(p@, q@),
{
    let g = |v: &G2Aff| { let [a, b, c, d] = v.c.map(|l| Fq::from(BigInt(l))); G2Affine { x: Fq2::new(a, b), y: Fq2::new(c, d), infinity: v.infinity } };
    let r = (g(p) + g(q)).into_affine();
    G2Aff { c: [r.x.c0, r.x.c1, r.y.c0, r.y.c1].map(|e| e.into_bigint().0), infinity: r.infinity }
}

/// `(p * s).into_affine()` on ark-ec's `G2Affine`: the named multiple.
#[verifier::external_body]
pub(crate) fn g2_mul(p: &G2Aff, s: &ScalarField) -> (r: G2Aff)
    ensures
        r@ == g2_scalar_mul(p@, s.value()),
{
    let p = { let [a, b, c, d] = p.c.map(|l| Fq::from(BigInt(l))); G2Affine { x: Fq2::new(a, b), y: Fq2::new(c, d), infinity: p.infinity } };
    let r = (p * Fr::from(BigInt(s.limbs))).into_affine();
    G2Aff { c: [r.x.c0, r.x.c1, r.y.c0, r.y.c1].map(|e| e.into_bigint().0), infinity: r.infinity }
}

/// The multi-scalar product of ark-ec, `G1Projective::msm_bigint` on the
/// scalars' canonical integers (what `msm` runs on slices of equal length),
/// made affine: the named point.
#[verifier::external_body]
pub(crate) fn g1_multi_scalar_mul(bases: &[G1Aff], scalars: &[ScalarField]) -> (r: G1Aff)
    requires
        bases.len() == scalars.len(),
    ensures
        r@ == g1_msm(g1_views(bases@), crate::poly::vals(scalars@)),
{
    let f = |l: [u64; 4]| Fq::from(BigInt(l));
    let b: Vec<_> = bases.iter().map(|v| G1Affine { x: f(v.x), y: f(v.y), infinity: v.infinity }).collect();
    let s: Vec<_> = scalars.iter().map(|v| BigInt(v.limbs)).collect();
    let r = G1Projective::msm_bigint(&b, &s).into_affine();
    G1Aff { x: r.x.into_bigint().0, y: r.y.into_bigint().0, infinity: r.infinity }
}

/// The multi-scalar product of ark-ec, `G2Projective::msm_bigint` on the
/// scalars' canonical integers (what `msm` runs on slices of equal length),
/// made affine: the named point.
#[verifier::external_body]
pub(crate) fn g2_multi_scalar_mul(bases: &[G2Aff], scalars: &[ScalarField]) -> (r: G2Aff)
    requires
        bases.len() == scalars.len(),
    ensures
        r@ == g2_msm(g2_views(bases@), crate::poly::vals(scalars@)),
{
    let b: Vec<_> = bases.iter().map(|v| { let [a, b, c, d] = v.c.map(|l| Fq::from(BigInt(l))); G2Affine { x: Fq2::new(a, b), y: Fq2::new(c, d), infinity: v.infinity } }).collect();
    let s: Vec<_> = scalars.iter().map(|v| BigInt(v.limbs)).collect();
    let r = G2Projective::msm_bigint(&b, &s).into_affine();
    G2Aff { c: [r.x.c0, r.x.c1, r.y.c0, r.y.c1].map(|e| e.into_bigint().0), infinity: r.infinity }
}

/// `Bn254::pairing(p, q)` of ark-ec: the named target-group element.
#[verifier::external_body]
pub(crate) fn pairing(p: &G1Aff, q: &G2Aff) -> (r: Gt)
    ensures
        r@ == pairing_value(p@, q@),
{
    let f = |l: [u64; 4]| Fq::from(BigInt(l));
    let q = { let [a, b, c, d] = q.c.map(|l| Fq::from(BigInt(l))); G2Affine { x: Fq2::new(a, b), y: Fq2::new(c, d), infinity: q.infinity } };
    let r = Bn254::pairing(G1Affine { x: f(p.x), y: f(p.y), infinity: p.infinity }, q);
    Gt { c: r.0.to_base_prime_field_elements().map(|e| e.into_bigint().0).collect() }
}

/// `a + b` on ark-ec's `PairingOutput<Bn254>`: the named group operation.
#[verifier::external_body]
pub(crate) fn gt_add(a: &Gt, b: &Gt) -> (r: Gt)
    ensures
        r@ == gt_sum(a@, b@),
{
    let f = |l: [u64; 4]| Fq::from(BigInt(l));
    let r = PairingOutput::<Bn254>(Fq12::from_base_prime_field_elems(a.c.iter().map(|l| f(*l))).unwrap()) + PairingOutput::<Bn254>(Fq12::from_base_prime_field_elems(b.c.iter().map(|l| f(*l))).unwrap());
    Gt { c: r.0.to_base_prime_field_elements().map(|e| e.into_bigint().0).collect() }
}

/// `a == b` on ark-ec's `PairingOutput<Bn254>`: equality of the elements.
#[verifier::external_body]
pub(crate) fn gt_eq(a: &Gt, b: &Gt) -> (r: bool)
    ensures
        r == (a@ == b@),
{
    let f = |l: [u64; 4]| Fq::from(BigInt(l));
    PairingOutput::<Bn254>(Fq12::from_base_prime_field_elems(a.c.iter().map(|l| f(*l))).unwrap()) == PairingOutput::<Bn254>(Fq12::from_base_prime_field_elems(b.c.iter().map(|l| f(*l))).unwrap())
}

} // verus!
