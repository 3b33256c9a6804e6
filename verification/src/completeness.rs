//! Completeness of the protocol: an honest proof for a witness whose
//! polynomial `A·B - C` is a multiple of the vanishing polynomial passes the
//! verifier's pairing check. The curve operations are known here only by
//! name, so the law is stated under the group laws of `G1` and `G2` and the
//! bilinearity of the pairing, written as predicates over those names.

use crate::curve::{
    g1_diff, g1_gen_mul, g1_msm, g1_scalar_mul, g1_sum, g1_views, g2_gen_mul, g2_msm, g2_scalar_mul,
    g2_sum, g2_views, gt_sum, pairing_value, G1Aff, G2Aff,
};
use crate::field::{fadd, fmul, fr_modulus, fsub, lemma_value_lt_modulus};
use crate::field_lemmas::{lemma_fadd_zero, lemma_fmul_zero_one, lemma_ops_bound};
use crate::poly::{
    all_zero, coef, conv_coef, lemma_csum_bound, lemma_trim, padd, peval, pmul, pscale, trim, Polynomial,
};
use crate::poly_lemmas::{
    law_eval_add, law_eval_div_rem, law_eval_mul, law_eval_scale, law_eval_sub, lemma_peval_bound,
    lemma_peval_coef_eq,
};
use crate::prover::{g1_poly_points, g2_poly_points, proof_a, proof_b, proof_b1, proof_for, prover_inputs_fit, Proof};
use crate::qap::{
    combine, domain_seq, is_product, law_qap_divisibility, part_interpolates, vanish, wcomb, witness_poly, Qap,
};
use crate::r1cs::R1cs;
use crate::roots::is_prime;
use crate::setup::{
    fpow, g1_of_quotient, is_quotient, proving_key_for, var_numerator, ProvingKey, Randoms, VerifyingKey,
};
use crate::verify::pairing_check;
use vstd::arithmetic::div_mod::{
    lemma_add_mod_noop, lemma_mod_twice, lemma_mul_mod_noop_general, lemma_small_mod, lemma_sub_mod_noop,
};
use vstd::prelude::*;

verus! {

broadcast use lemma_value_lt_modulus;

/// `sum_{i < n} e[i]·sc[i]` in the scalar field, summed from the left.
pub open spec fn fdot(e: Seq<nat>, sc: Seq<nat>, n: nat) -> nat
    decreases n,
{
    if n == 0 {
        0
    } else {
        fadd(fdot(e, sc, (n - 1) as nat), fmul(e[n - 1], sc[n - 1]))
    }
}

/// The same sum over the integers.
spec fn rawdot(e: Seq<nat>, sc: Seq<nat>, n: nat) -> int
    decreases n,
{
    if n == 0 {
        0
    } else {
        rawdot(e, sc, (n - 1) as nat) + e[n - 1] * sc[n - 1]
    }
}

/// The powers `1, x, x^2, ...` below `n` in the field.
pub open spec fn powers(x: nat, n: nat) -> Seq<nat> {
    Seq::new(n, |k: int| fpow(x, k as nat))
}

/// Every entry lies below the scalar modulus.
pub open spec fn fr_seq(e: Seq<nat>) -> bool {
    forall|i: int| 0 <= i < e.len() ==> #[trigger] e[i] < fr_modulus()
}

/// `u` and `v` are congruent modulo the scalar modulus.
spec fn cong(u: int, v: int) -> bool {
    u % (fr_modulus() as int) == v % (fr_modulus() as int)
}

proof fn lemma_cong_add(a: int, a2: int, b: int, b2: int)
    requires
        cong(a, a2),
        cong(b, b2),
    ensures
        cong(a + b, a2 + b2),
{
    let p = fr_modulus() as int;
    lemma_add_mod_noop(a, b, p);
    lemma_add_mod_noop(a2, b2, p);
}

proof fn lemma_cong_sub(a: int, a2: int, b: int, b2: int)
    requires
        cong(a, a2),
        cong(b, b2),
    ensures
        cong(a - b, a2 - b2),
{
    let p = fr_modulus() as int;
    lemma_sub_mod_noop(a, b, p);
    lemma_sub_mod_noop(a2, b2, p);
}

proof fn lemma_cong_mul(a: int, a2: int, b: int, b2: int)
    requires
        cong(a, a2),
        cong(b, b2),
    ensures
        cong(a * b, a2 * b2),
{
    let p = fr_modulus() as int;
    lemma_mul_mod_noop_general(a, b, p);
    lemma_mul_mod_noop_general(a2, b2, p);
}

/// Each field operation is congruent to the integer operation.
proof fn lemma_cong_ops(a: nat, b: nat)
    ensures
        cong(fadd(a, b) as int, a as int + b as int),
        cong(fmul(a, b) as int, a as int * b as int),
        cong(fsub(a, b) as int, a as int - b as int),
{
    let p = fr_modulus() as int;
    lemma_mod_twice(a as int + b as int, p);
    lemma_mod_twice(a as int * b as int, p);
    lemma_mod_twice(a as int - b as int, p);
}

/// Congruent representatives are equal.
proof fn lemma_cong_eq(u: nat, v: nat)
    requires
        u < fr_modulus(),
        v < fr_modulus(),
        cong(u as int, v as int),
    ensures
        u == v,
{
    lemma_small_mod(u, fr_modulus());
    lemma_small_mod(v, fr_modulus());
}

proof fn lemma_fdot_bound(e: Seq<nat>, sc: Seq<nat>, n: nat)
    ensures
        fdot(e, sc, n) < fr_modulus(),
{
    if n > 0 {
        lemma_ops_bound(fdot(e, sc, (n - 1) as nat), fmul(e[n - 1], sc[n - 1]));
    }
}

/// The field sum is the integer sum modulo the scalar modulus.
proof fn lemma_fdot_raw(e: Seq<nat>, sc: Seq<nat>, n: nat)
    ensures
        cong(fdot(e, sc, n) as int, rawdot(e, sc, n)),
    decreases n,
{
    if n > 0 {
        let m = (n - 1) as nat;
        lemma_fdot_raw(e, sc, m);
        lemma_cong_ops(fdot(e, sc, m), fmul(e[n - 1], sc[n - 1]));
        lemma_cong_ops(e[n - 1], sc[n - 1]);
        lemma_cong_add(fdot(e, sc, m) as int, rawdot(e, sc, m), fmul(e[n - 1], sc[n - 1]) as int, e[n - 1] as int * sc[n - 1] as int);
    }
}

/// The sum reads only the first `n` entries.
proof fn lemma_rawdot_prefix(e: Seq<nat>, e2: Seq<nat>, sc: Seq<nat>, sc2: Seq<nat>, n: nat)
    requires
        forall|i: int| 0 <= i < n ==> e[i] == e2[i] && sc[i] == sc2[i],
    ensures
        rawdot(e, sc, n) == rawdot(e2, sc2, n),
    decreases n,
{
    if n > 0 {
        lemma_rawdot_prefix(e, e2, sc, sc2, (n - 1) as nat);
    }
}

/// The sum up to `n` is the sum up to `k` plus the sum of the rest.
proof fn lemma_rawdot_split(e: Seq<nat>, sc: Seq<nat>, k: nat, n: nat)
    requires
        k <= n,
        n <= e.len(),
        n <= sc.len(),
    ensures
        rawdot(e, sc, n) == rawdot(e, sc, k) + rawdot(e.skip(k as int), sc.skip(k as int), (n - k) as nat),
    decreases n,
{
    if n > k {
        lemma_rawdot_split(e, sc, k, (n - 1) as nat);
    }
}

/// Scaling the entries by `c`, up to congruence, scales the sum by `c`.
proof fn lemma_rawdot_scale(e: Seq<nat>, e2: Seq<nat>, sc: Seq<nat>, n: nat, c: int)
    requires
        forall|i: int| 0 <= i < n ==> #[trigger] cong(c * e[i], e2[i] as int),
    ensures
        cong(c * rawdot(e, sc, n), rawdot(e2, sc, n)),
    decreases n,
{
    if n > 0 {
        let m = (n - 1) as nat;
        let x = rawdot(e, sc, m);
        let y = e[n - 1] as int;
        let z = sc[n - 1] as int;
        lemma_rawdot_scale(e, e2, sc, m, c);
        assert(cong(c * e[n - 1], e2[n - 1] as int));
        assert(c * (x + y * z) == c * x + (c * y) * z) by (nonlinear_arith);
        lemma_cong_mul(c * y, e2[n - 1] as int, z, z);
        lemma_cong_add(c * x, rawdot(e2, sc, m), (c * y) * z, e2[n - 1] * z);
    }
}

/// A sum whose first entry is one starts with the first coefficient.
proof fn lemma_rawdot_first(pw: Seq<nat>, c: Seq<nat>)
    requires
        c.len() >= 1,
        pw.len() == c.len(),
        pw[0] == 1,
    ensures
        rawdot(pw, c, c.len()) == c[0] + rawdot(pw.skip(1), c.drop_first(), (c.len() - 1) as nat),
{
    let n = c.len();
    lemma_rawdot_split(pw, c, 1, n);
    assert(c.skip(1) =~= c.drop_first());
    assert(rawdot(pw, c, 0) == 0);
    assert(pw[0] as int * c[0] as int == c[0] as int);
    assert(rawdot(pw, c, 1) == rawdot(pw, c, 0) + pw[0] * c[0]);
}

/// The powers from `x^1` on are `x` times the powers from `x^0` on.
proof fn lemma_powers_shift(x: nat, n: nat, c: Seq<nat>)
    requires
        n >= 1,
        c.len() == n - 1,
    ensures
        cong(x as int * rawdot(powers(x, (n - 1) as nat), c, (n - 1) as nat), rawdot(powers(x, n).skip(1), c, (n - 1) as nat)),
{
    let m = (n - 1) as nat;
    let pt = powers(x, m);
    let ps = powers(x, n).skip(1);
    assert forall|i: int| 0 <= i < m implies #[trigger] cong(x as int * pt[i] as int, ps[i] as int) by {
        assert(ps[i] == fpow(x, (i + 1) as nat));
        lemma_cong_ops(x, fpow(x, i as nat));
    }
    lemma_rawdot_scale(pt, ps, c, m, x as int);
}

/// The value of a polynomial is the sum of its coefficients times the powers.
#[verifier::spinoff_prover]
proof fn lemma_peval_powers(c: Seq<nat>, x: nat)
    requires
        x < fr_modulus(),
    ensures
        cong(peval(c, x) as int, rawdot(powers(x, c.len()), c, c.len())),
    decreases c.len(),
{
    let n = c.len();
    if n > 0 {
        let t = c.drop_first();
        let rt = rawdot(powers(x, t.len()), t, t.len());
        lemma_peval_powers(t, x);
        // peval(c, x) = peval(t, x)·x + c[0] ≡ rt·x + c[0]
        lemma_cong_fmul(peval(t, x), x, rt, x as int);
        lemma_cong_fadd(fmul(peval(t, x), x), c[0], rt * x, c[0] as int);
        // the sum is c[0] plus x times the sum over the tail
        lemma_rawdot_first(powers(x, n), c);
        lemma_powers_shift(x, n, t);
        assert(rt * x == x * rt) by (nonlinear_arith);
        lemma_cong_add(rt * x, x * rt, c[0] as int, c[0] as int);
    }
}

/// The field sum against the powers of `x` is the value at `x`.
proof fn lemma_fdot_powers(c: Seq<nat>, x: nat)
    requires
        x < fr_modulus(),
    ensures
        fdot(powers(x, c.len()), c, c.len()) == peval(c, x),
{
    lemma_peval_powers(c, x);
    lemma_fdot_raw(powers(x, c.len()), c, c.len());
    lemma_fdot_bound(powers(x, c.len()), c, c.len());
    lemma_peval_bound(c, x);
    lemma_cong_eq(fdot(powers(x, c.len()), c, c.len()), peval(c, x));
}

/// Congruence carried through a field addition.
proof fn lemma_cong_fadd(x: nat, y: nat, xx: int, yy: int)
    requires
        cong(x as int, xx),
        cong(y as int, yy),
    ensures
        cong(fadd(x, y) as int, xx + yy),
{
    lemma_cong_ops(x, y);
    lemma_cong_add(x as int, xx, y as int, yy);
}

/// Congruence carried through a field subtraction.
proof fn lemma_cong_fsub(x: nat, y: nat, xx: int, yy: int)
    requires
        cong(x as int, xx),
        cong(y as int, yy),
    ensures
        cong(fsub(x, y) as int, xx - yy),
{
    lemma_cong_ops(x, y);
    lemma_cong_sub(x as int, xx, y as int, yy);
}

/// Congruence carried through a field multiplication.
proof fn lemma_cong_fmul(x: nat, y: nat, xx: int, yy: int)
    requires
        cong(x as int, xx),
        cong(y as int, yy),
    ensures
        cong(fmul(x, y) as int, xx * yy),
{
    lemma_cong_ops(x, y);
    lemma_cong_mul(x as int, xx, y as int, yy);
}

/// `[A]₁` of a proof, as a field value: `α + δ·r + Aw`.
spec fn val_a(a: nat, d: nat, r: nat, aw: nat) -> nat {
    fadd(fadd(a, fmul(d, r)), aw)
}

/// `[C]₁` of a proof, as a field value: `s·A + r·B - δ·rs + Hq + L`.
spec fn val_c(va: nat, vb: nat, d: nat, r: nat, s: nat, hq: nat, lsum: nat) -> nat {
    fadd(fadd(fsub(fadd(fmul(va, s), fmul(vb, r)), fmul(d, fmul(r, s))), hq), lsum)
}

proof fn lemma_dist3(x1: int, x2: int, x3: int, m: int)
    ensures
        (x1 + x2 + x3) * m == x1 * m + x2 * m + x3 * m,
        m * (x1 + x2 + x3) == x1 * m + x2 * m + x3 * m,
{
    assert((x1 + x2 + x3) * m == x1 * m + x2 * m + x3 * m) by (nonlinear_arith);
    assert(m * (x1 + x2 + x3) == x1 * m + x2 * m + x3 * m) by (nonlinear_arith);
}

proof fn lemma_dist5(x1: int, x2: int, x3: int, x4: int, x5: int, m: int)
    ensures
        (x1 + x2 - x3 + x4 + x5) * m == x1 * m + x2 * m - x3 * m + x4 * m + x5 * m,
{
    assert((x1 + x2 - x3 + x4 + x5) * m == x1 * m + x2 * m - x3 * m + x4 * m + x5 * m) by (nonlinear_arith);
}

/// The two sides of the verifier's equation differ, as integer polynomials,
/// by `δ·Hq + δ·L + γ·X - α·Bw - β·Aw - Aw·Bw`.
#[verifier::spinoff_prover]
proof fn lemma_verifier_identity(a: int, b: int, g: int, d: int, r: int, s: int, aw: int, bw: int, hq: int, ls: int, xs: int)
    ensures
        a * b + ((a + d * r + aw) * s + (b + d * s + bw) * r - d * (r * s) + hq + ls) * d + xs * g
            == (a + d * r + aw) * (b + d * s + bw) + (d * hq + d * ls + g * xs - (a * bw + b * aw + aw * bw)),
{
    let va = a + d * r + aw;
    let vb = b + d * s + bw;
    // the right-hand side's product
    lemma_dist3(a, d * r, aw, vb);
    lemma_dist3(b, d * s, bw, a);
    lemma_dist3(b, d * s, bw, d * r);
    lemma_dist3(b, d * s, bw, aw);
    // the left-hand side's term in δ
    lemma_dist5(va * s, vb * r, d * (r * s), hq, ls, d);
    lemma_dist3(a, d * r, aw, s);
    lemma_dist3(b, d * s, bw, r);
    lemma_dist3(a * s, d * r * s, aw * s, d);
    lemma_dist3(b * r, d * s * r, bw * r, d);
    // monomials written in one order
    assert(a * s * d == a * (d * s)) by (nonlinear_arith);
    assert(d * r * s * d == d * s * (d * r)) by (nonlinear_arith);
    assert(d * s * r * d == d * s * (d * r)) by (nonlinear_arith);
    assert(d * (r * s) * d == d * s * (d * r)) by (nonlinear_arith);
    assert(aw * s * d == d * s * aw) by (nonlinear_arith);
    assert(b * r * d == b * (d * r)) by (nonlinear_arith);
    assert(bw * r * d == bw * (d * r)) by (nonlinear_arith);
    assert(a * b == b * a) by (nonlinear_arith);
    assert(a * bw == bw * a) by (nonlinear_arith);
    assert(b * aw == aw * b) by (nonlinear_arith);
    assert(aw * bw == bw * aw) by (nonlinear_arith);
    assert(d * s * a == a * (d * s)) by (nonlinear_arith);
    assert(hq * d == d * hq) by (nonlinear_arith);
    assert(ls * d == d * ls) by (nonlinear_arith);
    assert(xs * g == g * xs) by (nonlinear_arith);
}

/// The verifier's equation in the scalar field, from the relations that the
/// keys and the quotient give between the parts of the proof.
#[verifier::spinoff_prover]
proof fn lemma_pairing_algebra(
    a: nat,
    b: nat,
    g: nat,
    d: nat,
    r: nat,
    s: nat,
    aw: nat,
    bw: nat,
    cw: nat,
    hv: nat,
    zv: nat,
    zq: nat,
    hq: nat,
    lsum: nat,
    xsum: nat,
    npub: int,
    npriv: int,
)
    requires
        cong(hq as int, zq as int * hv as int),
        cong(zq as int * d as int, zv as int),
        cong(d as int * lsum as int, npriv),
        cong(g as int * xsum as int, npub),
        cong(npub + npriv, b as int * aw as int + a as int * bw as int + cw as int),
        cong(hv as int * zv as int, aw as int * bw as int - cw as int),
    ensures
        ({
            let va = val_a(a, d, r, aw);
            let vb = val_a(b, d, s, bw);
            fmul(va, vb) == fadd(fadd(fmul(a, b), fmul(val_c(va, vb, d, r, s, hq, lsum), d)), fmul(xsum, g))
        }),
{
    let va = val_a(a, d, r, aw);
    let vb = val_a(b, d, s, bw);
    let vc = val_c(va, vb, d, r, s, hq, lsum);
    let (ia, ib, ig, id, ir, is) = (a as int, b as int, g as int, d as int, r as int, s as int);
    let (iaw, ibw, icw, ihv, izv, izq) = (aw as int, bw as int, cw as int, hv as int, zv as int, zq as int);
    let (ihq, ils, ixs) = (hq as int, lsum as int, xsum as int);
    let ra: int = ia + id * ir + iaw;
    let rb: int = ib + id * is + ibw;
    let rc: int = ra * is + rb * ir - id * (ir * is) + ihq + ils;
    // the values are congruent to their integer expressions
    lemma_cong_fmul(d, r, id, ir);
    lemma_cong_fadd(a, fmul(d, r), ia, id * ir);
    lemma_cong_fadd(fadd(a, fmul(d, r)), aw, ia + id * ir, iaw);
    lemma_cong_fmul(d, s, id, is);
    lemma_cong_fadd(b, fmul(d, s), ib, id * is);
    lemma_cong_fadd(fadd(b, fmul(d, s)), bw, ib + id * is, ibw);
    lemma_cong_fmul(va, s, ra, is);
    lemma_cong_fmul(vb, r, rb, ir);
    lemma_cong_fadd(fmul(va, s), fmul(vb, r), ra * is, rb * ir);
    lemma_cong_fmul(r, s, ir, is);
    lemma_cong_fmul(d, fmul(r, s), id, ir * is);
    lemma_cong_fsub(fadd(fmul(va, s), fmul(vb, r)), fmul(d, fmul(r, s)), ra * is + rb * ir, id * (ir * is));
    lemma_cong_fadd(
        fsub(fadd(fmul(va, s), fmul(vb, r)), fmul(d, fmul(r, s))),
        hq,
        ra * is + rb * ir - id * (ir * is),
        ihq,
    );
    lemma_cong_fadd(
        fadd(fsub(fadd(fmul(va, s), fmul(vb, r)), fmul(d, fmul(r, s))), hq),
        lsum,
        ra * is + rb * ir - id * (ir * is) + ihq,
        ils,
    );
    lemma_cong_fmul(va, vb, ra, rb);
    lemma_cong_fmul(a, b, ia, ib);
    lemma_cong_fmul(vc, d, rc, id);
    lemma_cong_fmul(xsum, g, ixs, ig);
    lemma_cong_fadd(fmul(a, b), fmul(vc, d), ia * ib, rc * id);
    lemma_cong_fadd(fadd(fmul(a, b), fmul(vc, d)), fmul(xsum, g), ia * ib + rc * id, ixs * ig);
    // the difference of the two sides, as an integer expression
    let rest: int = ia * ibw + ib * iaw + iaw * ibw;
    let e: int = id * ihq + id * ils + ig * ixs - rest;
    lemma_verifier_identity(ia, ib, ig, id, ir, is, iaw, ibw, ihq, ils, ixs);
    // and it vanishes modulo the scalar order
    lemma_cong_mul(id, id, ihq, izq * ihv);
    assert(id * (izq * ihv) == (izq * id) * ihv) by (nonlinear_arith);
    lemma_cong_mul(izq * id, izv, ihv, ihv);
    assert(izv * ihv == ihv * izv) by (nonlinear_arith);
    assert(ig * ixs == ixs * ig) by (nonlinear_arith);
    lemma_cong_add(id * ihq, ihv * izv, id * ils, npriv);
    lemma_cong_add(id * ihq + id * ils, ihv * izv + npriv, ig * ixs, npub);
    lemma_cong_sub(id * ihq + id * ils + ig * ixs, ihv * izv + npriv + npub, rest, rest);
    lemma_cong_add(ihv * izv, iaw * ibw - icw, npub + npriv, ib * iaw + ia * ibw + icw);
    lemma_cong_sub(ihv * izv + (npub + npriv), (iaw * ibw - icw) + (ib * iaw + ia * ibw + icw), rest, rest);
    assert((iaw * ibw - icw) + (ib * iaw + ia * ibw + icw) - rest == 0);
    assert(cong(e, 0));
    lemma_cong_add(ra * rb, ra * rb, e, 0);
    lemma_ops_bound(va, vb);
    lemma_ops_bound(fadd(fmul(a, b), fmul(vc, d)), fmul(xsum, g));
    lemma_cong_eq(fmul(va, vb), fadd(fadd(fmul(a, b), fmul(vc, d)), fmul(xsum, g)));
}

/// The points `[e[i]]·g` of `G1`.
pub open spec fn g1_points_of(e: Seq<nat>) -> Seq<(nat, nat, bool)> {
    Seq::new(e.len(), |i: int| g1_gen_mul(e[i]))
}

/// The points `[e[i]]·g` of `G2`.
pub open spec fn g2_points_of(e: Seq<nat>) -> Seq<((nat, nat), (nat, nat), bool)> {
    Seq::new(e.len(), |i: int| g2_gen_mul(e[i]))
}

/// `G1` is a cyclic group of the scalar order: on multiples of the generator,
/// sum, difference, scalar multiplication and multi-scalar multiplication act
/// on the scalars as the field operations do.
pub open spec fn g1_group_laws() -> bool {
    &&& forall|x: nat, y: nat|
        x < fr_modulus() && y < fr_modulus() ==> #[trigger] g1_sum(g1_gen_mul(x), g1_gen_mul(y)) == g1_gen_mul(
            fadd(x, y),
        )
    &&& forall|x: nat, y: nat|
        x < fr_modulus() && y < fr_modulus() ==> #[trigger] g1_diff(g1_gen_mul(x), g1_gen_mul(y)) == g1_gen_mul(
            fsub(x, y),
        )
    &&& forall|x: nat, y: nat|
        x < fr_modulus() && y < fr_modulus() ==> #[trigger] g1_scalar_mul(g1_gen_mul(x), y) == g1_gen_mul(
            fmul(x, y),
        )
    &&& forall|e: Seq<nat>, sc: Seq<nat>|
        e.len() == sc.len() && fr_seq(e) && fr_seq(sc) ==> #[trigger] g1_msm(g1_points_of(e), sc) == g1_gen_mul(
            fdot(e, sc, e.len()),
        )
}

/// The same laws in `G2`, for the operations the prover uses there.
pub open spec fn g2_group_laws() -> bool {
    &&& forall|x: nat, y: nat|
        x < fr_modulus() && y < fr_modulus() ==> #[trigger] g2_sum(g2_gen_mul(x), g2_gen_mul(y)) == g2_gen_mul(
            fadd(x, y),
        )
    &&& forall|x: nat, y: nat|
        x < fr_modulus() && y < fr_modulus() ==> #[trigger] g2_scalar_mul(g2_gen_mul(x), y) == g2_gen_mul(
            fmul(x, y),
        )
    &&& forall|e: Seq<nat>, sc: Seq<nat>|
        e.len() == sc.len() && fr_seq(e) && fr_seq(sc) ==> #[trigger] g2_msm(g2_points_of(e), sc) == g2_gen_mul(
            fdot(e, sc, e.len()),
        )
}

/// The target-group element `e([x]·g1, g2)`.
#[verifier::opaque]
pub open spec fn gt_of(x: nat) -> Seq<nat> {
    pairing_value(g1_gen_mul(x), g2_gen_mul(1))
}

/// The pairing is bilinear and the target group's operation adds exponents:
/// `e([x]·g1, [y]·g2) = e(g1, g2)^(x·y)` and `e(g1, g2)^x · e(g1, g2)^y =
/// e(g1, g2)^(x + y)`.
pub open spec fn pairing_laws() -> bool {
    &&& forall|x: nat, y: nat|
        x < fr_modulus() && y < fr_modulus() ==> #[trigger] pairing_value(g1_gen_mul(x), g2_gen_mul(y)) == gt_of(
            fmul(x, y),
        )
    &&& forall|x: nat, y: nat|
        x < fr_modulus() && y < fr_modulus() ==> #[trigger] gt_sum(gt_of(x), gt_of(y)) == gt_of(fadd(x, y))
}

proof fn lemma_fpow_bound(t: nat, i: nat)
    ensures
        fpow(t, i) < fr_modulus(),
{
    if i > 0 {
        lemma_ops_bound(t, fpow(t, (i - 1) as nat));
    }
}

/// A multi-scalar product of multiples of the generator of `G1`.
proof fn lemma_g1_msm(bases: Seq<G1Aff>, e: Seq<nat>, sc: Seq<nat>)
    requires
        g1_group_laws(),
        bases.len() == e.len(),
        e.len() == sc.len(),
        fr_seq(e),
        fr_seq(sc),
        forall|i: int| 0 <= i < bases.len() ==> #[trigger] bases[i]@ == g1_gen_mul(e[i]),
    ensures
        g1_msm(g1_views(bases), sc) == g1_gen_mul(fdot(e, sc, e.len())),
        fdot(e, sc, e.len()) < fr_modulus(),
{
    assert(g1_views(bases) =~= g1_points_of(e));
    assert(g1_msm(g1_points_of(e), sc) == g1_gen_mul(fdot(e, sc, e.len())));
    lemma_fdot_bound(e, sc, e.len());
}

/// The coefficients of a polynomial are field elements.
proof fn lemma_poly_fr(p: Polynomial)
    ensures
        fr_seq(p@),
{
    assert forall|k: int| 0 <= k < p@.len() implies #[trigger] p@[k] < fr_modulus() by {
        assert(p@[k] == p.coeff@[k].value());
    }
}

/// The values at `t` of a sequence of polynomials.
pub open spec fn evals(polys: Seq<Polynomial>, t: nat) -> Seq<nat> {
    Seq::new(polys.len(), |i: int| peval(polys[i]@, t))
}

/// With `query[i] = [t^i]₁`, each polynomial point is `[P(t)]₁`.
proof fn lemma_g1_poly_points(query: Seq<G1Aff>, polys: Seq<Polynomial>, t: nat)
    requires
        g1_group_laws(),
        t < fr_modulus(),
        forall|i: int| 0 <= i < query.len() ==> #[trigger] query[i]@ == g1_gen_mul(fpow(t, i as nat)),
        forall|i: int| 0 <= i < polys.len() ==> #[trigger] polys[i]@.len() <= query.len(),
    ensures
        g1_poly_points(query, polys) == g1_points_of(evals(polys, t)),
{
    assert forall|i: int| 0 <= i < polys.len() implies #[trigger] g1_poly_points(query, polys)[i] == g1_gen_mul(
        peval(polys[i]@, t),
    ) by {
        let c = polys[i]@;
        let n = c.len();
        assert(polys[i]@.len() <= query.len());
        assert forall|k: int| 0 <= k < n implies #[trigger] powers(t, n)[k] < fr_modulus() by {
            lemma_fpow_bound(t, k as nat);
        }
        lemma_poly_fr(polys[i]);
        lemma_g1_msm(query.subrange(0, n as int), powers(t, n), c);
        lemma_fdot_powers(c, t);
    }
    assert(g1_poly_points(query, polys) =~= g1_points_of(evals(polys, t)));
}

/// With `query[i] = [t^i]₂`, each polynomial point is `[P(t)]₂`.
proof fn lemma_g2_poly_points(query: Seq<G2Aff>, polys: Seq<Polynomial>, t: nat)
    requires
        g2_group_laws(),
        t < fr_modulus(),
        forall|i: int| 0 <= i < query.len() ==> #[trigger] query[i]@ == g2_gen_mul(fpow(t, i as nat)),
        forall|i: int| 0 <= i < polys.len() ==> #[trigger] polys[i]@.len() <= query.len(),
    ensures
        g2_poly_points(query, polys) == g2_points_of(evals(polys, t)),
{
    assert forall|i: int| 0 <= i < polys.len() implies #[trigger] g2_poly_points(query, polys)[i] == g2_gen_mul(
        peval(polys[i]@, t),
    ) by {
        let c = polys[i]@;
        let n = c.len();
        let bases = query.subrange(0, n as int);
        assert(polys[i]@.len() <= query.len());
        assert forall|k: int| 0 <= k < n implies #[trigger] powers(t, n)[k] < fr_modulus() by {
            lemma_fpow_bound(t, k as nat);
        }
        lemma_poly_fr(polys[i]);
        assert(g2_views(bases) =~= g2_points_of(powers(t, n)));
        assert(g2_msm(g2_points_of(powers(t, n)), c) == g2_gen_mul(fdot(powers(t, n), c, n)));
        lemma_fdot_powers(c, t);
    }
    assert(g2_poly_points(query, polys) =~= g2_points_of(evals(polys, t)));
}

/// The combined polynomial's value is the combination of the values.
proof fn lemma_wcomb_eval(polys: Seq<Polynomial>, w: Seq<nat>, n: nat, x: nat)
    ensures
        wcomb(polys, w, n).len() >= 1,
        peval(wcomb(polys, w, n), x) == combine(polys, w, x, n),
    decreases n,
{
    if n == 0 {
        let z = seq![0nat];
        assert(z.drop_first() =~= Seq::<nat>::empty());
        assert(peval(z.drop_first(), x) == 0);
        lemma_fmul_zero_one(x);
        lemma_fadd_zero(0);
    } else {
        let prev = wcomb(polys, w, (n - 1) as nat);
        lemma_wcomb_eval(polys, w, (n - 1) as nat, x);
        let p = polys[n - 1]@;
        let sc = trim(pscale(p, w[n - 1]));
        lemma_trim(padd(prev, sc));
        law_eval_add(prev, sc, x);
        law_eval_scale(p, w[n - 1], x);
    }
}

/// The field sum of the values against the witness is the combination.
proof fn lemma_fdot_combine(polys: Seq<Polynomial>, w: Seq<nat>, x: nat, n: nat)
    requires
        n <= polys.len(),
    ensures
        fdot(evals(polys, x), w, n) == combine(polys, w, x, n),
    decreases n,
{
    if n > 0 {
        lemma_fdot_combine(polys, w, x, (n - 1) as nat);
    }
}

/// The witness polynomial's value at `x` is `A(x)·B(x) - C(x)`.
proof fn lemma_witness_value(q: Qap, w: Seq<nat>, x: nat)
    ensures
        peval(witness_poly(q, w), x) == fsub(
            fmul(fdot(evals(q.a_i@, x), w, q.a_i@.len()), fdot(evals(q.b_i@, x), w, q.b_i@.len())),
            fdot(evals(q.c_i@, x), w, q.c_i@.len()),
        ),
{
    let a = wcomb(q.a_i@, w, q.a_i@.len());
    let b = wcomb(q.b_i@, w, q.b_i@.len());
    let c = wcomb(q.c_i@, w, q.c_i@.len());
    lemma_wcomb_eval(q.a_i@, w, q.a_i@.len(), x);
    lemma_wcomb_eval(q.b_i@, w, q.b_i@.len(), x);
    lemma_wcomb_eval(q.c_i@, w, q.c_i@.len(), x);
    lemma_fdot_combine(q.a_i@, w, x, q.a_i@.len());
    lemma_fdot_combine(q.b_i@, w, x, q.b_i@.len());
    lemma_fdot_combine(q.c_i@, w, x, q.c_i@.len());
    law_eval_sub(trim(pmul(a, b)), c, x);
    law_eval_mul(a, b, x);
}

/// A product `h·z` coefficient by coefficient has the value `h(x)·z(x)`.
proof fn lemma_product_value(p: Seq<nat>, h: Seq<nat>, z: Seq<nat>, x: nat)
    requires
        is_product(p, h, z),
    ensures
        peval(p, x) == fmul(peval(h, x), peval(z, x)),
{
    if h.len() + z.len() >= 1 {
        assert forall|k: int| #[trigger] coef(p, k) == fadd(conv_coef(h, z, k), coef(Seq::<nat>::empty(), k)) by {
            lemma_csum_bound(h, z, k, h.len());
            lemma_fadd_zero(conv_coef(h, z, k));
        }
        law_eval_div_rem(p, h, z, Seq::<nat>::empty(), x);
        assert(peval(Seq::<nat>::empty(), x) == 0);
        lemma_ops_bound(peval(h, x), peval(z, x));
        lemma_fadd_zero(fmul(peval(h, x), peval(z, x)));
    } else {
        assert(h =~= Seq::<nat>::empty());
        assert forall|k: int| #[trigger] coef(p, k) == coef(Seq::<nat>::empty(), k) by {
            assert(conv_coef(h, z, k) == 0);
        }
        lemma_peval_coef_eq(p, Seq::<nat>::empty(), x);
        assert(peval(Seq::<nat>::empty(), x) == 0);
        lemma_fmul_zero_one(peval(z, x));
    }
}

proof fn lemma_lin_step(ra: int, rb: int, rc: int, ea: int, eb: int, ec: int, wk: int, a: int, b: int)
    ensures
        b * (ra + ea * wk) + a * (rb + eb * wk) + (rc + ec * wk) == (b * ra + a * rb + rc) + (b * ea + a * eb
            + ec) * wk,
{
    assert(b * (ra + ea * wk) == b * ra + b * (ea * wk)) by (nonlinear_arith);
    assert(a * (rb + eb * wk) == a * rb + a * (eb * wk)) by (nonlinear_arith);
    assert(b * (ea * wk) == (b * ea) * wk) by (nonlinear_arith);
    assert(a * (eb * wk) == (a * eb) * wk) by (nonlinear_arith);
    lemma_dist3(b * ea, a * eb, ec, wk);
}

/// A sum of combinations is the combination of the sums.
proof fn lemma_rawdot_lin(num: Seq<nat>, ea: Seq<nat>, eb: Seq<nat>, ec: Seq<nat>, w: Seq<nat>, n: nat, a: int, b: int)
    requires
        forall|i: int| 0 <= i < n ==> #[trigger] cong(num[i] as int, b * ea[i] + a * eb[i] + ec[i]),
    ensures
        cong(rawdot(num, w, n), b * rawdot(ea, w, n) + a * rawdot(eb, w, n) + rawdot(ec, w, n)),
    decreases n,
{
    if n > 0 {
        let m = (n - 1) as nat;
        let k = n - 1;
        lemma_rawdot_lin(num, ea, eb, ec, w, m, a, b);
        assert(cong(num[k] as int, b * ea[k] + a * eb[k] + ec[k]));
        lemma_cong_mul(num[k] as int, b * ea[k] + a * eb[k] + ec[k], w[k] as int, w[k] as int);
        lemma_cong_add(
            rawdot(num, w, m),
            b * rawdot(ea, w, m) + a * rawdot(eb, w, m) + rawdot(ec, w, m),
            num[k] as int * w[k] as int,
            (b * ea[k] + a * eb[k] + ec[k]) * w[k],
        );
        lemma_lin_step(rawdot(ea, w, m), rawdot(eb, w, m), rawdot(ec, w, m), ea[k] as int, eb[k] as int, ec[k] as int, w[k] as int, a, b);
    }
}

/// The scalar `num / d` of a point `[num / d]₁` of the keys.
spec fn quotient_scalar(p: (nat, nat, bool), num: nat, d: nat) -> nat {
    choose|x: nat| is_quotient(x, num, d) && p == #[trigger] g1_gen_mul(x)
}

proof fn lemma_quotient_scalar(p: (nat, nat, bool), num: nat, d: nat)
    requires
        g1_of_quotient(p, num, d),
    ensures
        is_quotient(quotient_scalar(p, num, d), num, d),
        p == g1_gen_mul(quotient_scalar(p, num, d)),
        cong(d as int * quotient_scalar(p, num, d), num as int),
{
    let x = quotient_scalar(p, num, d);
    lemma_cong_ops(x, d);
    assert(d * x == x * d) by (nonlinear_arith);
}

/// The numerators `β·A_i(τ) + α·B_i(τ) + C_i(τ)` of all `n` variables.
spec fn numerators(qp: Qap, rnd: Randoms, n: nat) -> Seq<nat> {
    Seq::new(n, |i: int| var_numerator(qp, i, rnd))
}

/// The scalar `z(τ)/δ` of the key's `H` points.
spec fn key_zq(pk: ProvingKey, polys_deg: nat, qp: Qap, rnd: Randoms) -> nat {
    let t = rnd.tau.value();
    let d = rnd.delta.value();
    choose|zq: nat| #![trigger is_quotient(zq, peval(qp.z_i@, t), d)]
        is_quotient(zq, peval(qp.z_i@, t), d) && forall|i: int| 0 <= i < polys_deg ==> #[trigger] pk.h_query@[i]@
            == g1_scalar_mul(g1_gen_mul(fpow(t, i as nat)), zq)
}

/// The scalars `τ^i·z(τ)/δ` of the key's `H` points.
spec fn h_scalars(t: nat, zq: nat, n: nat) -> Seq<nat> {
    Seq::new(n, |i: int| fmul(fpow(t, i as nat), zq))
}

/// The scalars `num_i / δ` of the key's private points.
spec fn priv_scalars(pk: ProvingKey, qp: Qap, rnd: Randoms, np: nat, n: nat) -> Seq<nat> {
    Seq::new(
        (n - np) as nat,
        |i: int| quotient_scalar(pk.l_query_pv@[i]@, var_numerator(qp, i + np, rnd), rnd.delta.value()),
    )
}

/// The scalars `num_j / γ` of the key's public points.
spec fn pub_scalars(vk: VerifyingKey, qp: Qap, rnd: Randoms, np: nat) -> Seq<nat> {
    Seq::new(np, |j: int| quotient_scalar(vk.gamma_abc_g1@[j]@, var_numerator(qp, j, rnd), rnd.gamma.value()))
}

/// `[A]₁`, `[B]₂` and `[B]₁` of an honest proof are multiples of the generators.
#[verifier::spinoff_prover]
proof fn lemma_points_ab(pk: ProvingKey, polys_deg: nat, qp: Qap, rnd: Randoms, w: Seq<nat>, h_len: nat, np: nat, r: nat, s: nat)
    requires
        g1_group_laws(),
        g2_group_laws(),
        proving_key_for(pk, polys_deg, np, w.len(), qp, rnd),
        prover_inputs_fit(pk, qp, w.len(), h_len, np),
        fr_seq(w),
        r < fr_modulus(),
        s < fr_modulus(),
    ensures
        ({
            let t = rnd.tau.value();
            let d = rnd.delta.value();
            let va = val_a(rnd.alpha.value(), d, r, fdot(evals(qp.a_i@, t), w, w.len()));
            let vb = val_a(rnd.beta.value(), d, s, fdot(evals(qp.b_i@, t), w, w.len()));
            &&& proof_a(pk, qp, w, r) == g1_gen_mul(va)
            &&& proof_b(pk, qp, w, s) == g2_gen_mul(vb)
            &&& proof_b1(pk, qp, w, s) == g1_gen_mul(vb)
            &&& va < fr_modulus()
            &&& vb < fr_modulus()
        }),
{
    let n = w.len();
    let t = rnd.tau.value();
    let a = rnd.alpha.value();
    let b = rnd.beta.value();
    let d = rnd.delta.value();
    let ea = evals(qp.a_i@, t);
    let eb = evals(qp.b_i@, t);
    let aw = fdot(ea, w, n);
    let bw = fdot(eb, w, n);
    assert forall|i: int| 0 <= i < n implies #[trigger] ea[i] < fr_modulus() && eb[i] < fr_modulus() by {
        lemma_peval_bound(qp.a_i@[i]@, t);
        lemma_peval_bound(qp.b_i@[i]@, t);
    }
    lemma_fdot_bound(ea, w, n);
    lemma_fdot_bound(eb, w, n);
    lemma_g1_poly_points(pk.g1_query@, qp.a_i@, t);
    lemma_g1_poly_points(pk.g1_query@, qp.b_i@, t);
    lemma_g2_poly_points(pk.g2_query@, qp.b_i@, t);
    assert(g1_msm(g1_points_of(ea), w) == g1_gen_mul(aw));
    assert(g1_msm(g1_points_of(eb), w) == g1_gen_mul(bw));
    assert(g2_msm(g2_points_of(eb), w) == g2_gen_mul(bw));
    lemma_ops_bound(d, r);
    lemma_ops_bound(a, fmul(d, r));
    lemma_ops_bound(d, s);
    lemma_ops_bound(b, fmul(d, s));
    lemma_ops_bound(fadd(a, fmul(d, r)), aw);
    lemma_ops_bound(fadd(b, fmul(d, s)), bw);
}

/// The sum over the key's `H` points is `[Hq]₁` with `Hq ≡ (z(τ)/δ)·h(τ)`.
#[verifier::spinoff_prover]
proof fn lemma_h_sum(pk: ProvingKey, polys_deg: nat, qp: Qap, rnd: Randoms, h: Seq<nat>, np: nat, n: nat)
    requires
        g1_group_laws(),
        proving_key_for(pk, polys_deg, np, n, qp, rnd),
        pk.h_query@.len() == h.len(),
        fr_seq(h),
    ensures
        ({
            let t = rnd.tau.value();
            let zq = key_zq(pk, polys_deg, qp, rnd);
            let hqs = fdot(h_scalars(t, zq, h.len()), h, h.len());
            &&& g1_msm(g1_views(pk.h_query@), h) == g1_gen_mul(hqs)
            &&& hqs < fr_modulus()
            &&& is_quotient(zq, peval(qp.z_i@, t), rnd.delta.value())
            &&& cong(hqs as int, zq as int * peval(h, t) as int)
        }),
{
    let t = rnd.tau.value();
    let zq = key_zq(pk, polys_deg, qp, rnd);
    let hl = h.len();
    let hqv = h_scalars(t, zq, hl);
    assert forall|i: int| 0 <= i < hl implies #[trigger] pk.h_query@[i]@ == g1_gen_mul(hqv[i]) && hqv[i]
        < fr_modulus() by {
        lemma_fpow_bound(t, i as nat);
        lemma_ops_bound(fpow(t, i as nat), zq);
    }
    lemma_g1_msm(pk.h_query@, hqv, h);
    let pw = powers(t, hl);
    assert forall|i: int| 0 <= i < hl implies #[trigger] cong(zq as int * pw[i], hqv[i] as int) by {
        lemma_cong_ops(fpow(t, i as nat), zq);
        assert(zq * fpow(t, i as nat) == fpow(t, i as nat) * zq) by (nonlinear_arith);
    }
    lemma_rawdot_scale(pw, hqv, h, hl, zq as int);
    lemma_fdot_raw(hqv, h, hl);
    lemma_peval_powers(h, t);
    lemma_cong_mul(zq as int, zq as int, peval(h, t) as int, rawdot(pw, h, hl));
}

/// The sum over the key's private points is `[L]₁` with `δ·L` congruent to the
/// private variables' numerators summed against the witness.
#[verifier::spinoff_prover]
proof fn lemma_priv_sum(pk: ProvingKey, polys_deg: nat, qp: Qap, rnd: Randoms, w: Seq<nat>, np: nat)
    requires
        g1_group_laws(),
        proving_key_for(pk, polys_deg, np, w.len(), qp, rnd),
        np <= w.len(),
        fr_seq(w),
    ensures
        ({
            let n = w.len();
            let lsum = fdot(priv_scalars(pk, qp, rnd, np, n), w.skip(np as int), (n - np) as nat);
            &&& g1_msm(g1_views(pk.l_query_pv@), w.skip(np as int)) == g1_gen_mul(lsum)
            &&& lsum < fr_modulus()
            &&& cong(
                rnd.delta.value() as int * lsum as int,
                rawdot(numerators(qp, rnd, n).skip(np as int), w.skip(np as int), (n - np) as nat),
            )
        }),
{
    let n = w.len();
    let d = rnd.delta.value();
    let nums = numerators(qp, rnd, n);
    let lv = priv_scalars(pk, qp, rnd, np, n);
    let wskip = w.skip(np as int);
    let m = (n - np) as nat;
    assert forall|i: int| 0 <= i < m implies #[trigger] pk.l_query_pv@[i]@ == g1_gen_mul(lv[i]) && lv[i]
        < fr_modulus() && cong(d as int * lv[i], nums.skip(np as int)[i] as int) by {
        lemma_quotient_scalar(pk.l_query_pv@[i]@, var_numerator(qp, i + np, rnd), d);
    }
    lemma_g1_msm(pk.l_query_pv@, lv, wskip);
    lemma_fdot_raw(lv, wskip, m);
    lemma_cong_mul(d as int, d as int, fdot(lv, wskip, m) as int, rawdot(lv, wskip, m));
    lemma_rawdot_scale(lv, nums.skip(np as int), wskip, m, d as int);
}

/// The sum over the key's public points against the public inputs is `[X]₁`
/// with `γ·X` congruent to the public variables' numerators summed against the
/// witness.
#[verifier::spinoff_prover]
proof fn lemma_pub_sum(pk: ProvingKey, polys_deg: nat, qp: Qap, rnd: Randoms, w: Seq<nat>, np: nat)
    requires
        g1_group_laws(),
        proving_key_for(pk, polys_deg, np, w.len(), qp, rnd),
        np <= w.len(),
        fr_seq(w),
    ensures
        ({
            let xs = fdot(pub_scalars(pk.vk, qp, rnd, np), w.take(np as int), np);
            &&& g1_msm(g1_views(pk.vk.gamma_abc_g1@), w.take(np as int)) == g1_gen_mul(xs)
            &&& xs < fr_modulus()
            &&& cong(rnd.gamma.value() as int * xs as int, rawdot(numerators(qp, rnd, w.len()), w, np))
        }),
{
    let n = w.len();
    let g = rnd.gamma.value();
    let nums = numerators(qp, rnd, n);
    let gv = pub_scalars(pk.vk, qp, rnd, np);
    let wt = w.take(np as int);
    assert forall|j: int| 0 <= j < np implies #[trigger] pk.vk.gamma_abc_g1@[j]@ == g1_gen_mul(gv[j]) && gv[j]
        < fr_modulus() && cong(g as int * gv[j], nums[j] as int) by {
        lemma_quotient_scalar(pk.vk.gamma_abc_g1@[j]@, var_numerator(qp, j, rnd), g);
    }
    lemma_g1_msm(pk.vk.gamma_abc_g1@, gv, wt);
    lemma_fdot_raw(gv, wt, np);
    lemma_cong_mul(g as int, g as int, fdot(gv, wt, np) as int, rawdot(gv, wt, np));
    lemma_rawdot_scale(gv, nums, wt, np, g as int);
    lemma_rawdot_prefix(nums, nums, wt, w, np);
}

/// The numerators summed against the witness are `β·Aw + α·Bw + Cw`.
#[verifier::spinoff_prover]
proof fn lemma_numerator_sum(qp: Qap, rnd: Randoms, w: Seq<nat>, np: nat)
    requires
        np <= w.len(),
        w.len() == qp.a_i@.len(),
        w.len() == qp.b_i@.len(),
        w.len() == qp.c_i@.len(),
    ensures
        ({
            let n = w.len();
            let t = rnd.tau.value();
            let nums = numerators(qp, rnd, n);
            cong(
                rawdot(nums, w, np) + rawdot(nums.skip(np as int), w.skip(np as int), (n - np) as nat),
                rnd.beta.value() as int * fdot(evals(qp.a_i@, t), w, n) as int + rnd.alpha.value() as int * fdot(
                    evals(qp.b_i@, t),
                    w,
                    n,
                ) as int + fdot(evals(qp.c_i@, t), w, n) as int,
            )
        }),
{
    let n = w.len();
    let t = rnd.tau.value();
    let a = rnd.alpha.value();
    let b = rnd.beta.value();
    let nums = numerators(qp, rnd, n);
    let ea = evals(qp.a_i@, t);
    let eb = evals(qp.b_i@, t);
    let ec = evals(qp.c_i@, t);
    lemma_rawdot_split(nums, w, np, n);
    assert forall|i: int| 0 <= i < n implies #[trigger] cong(nums[i] as int, b as int * ea[i] + a as int * eb[i] + ec[i])
        by {
        lemma_cong_fmul(b, ea[i], b as int, ea[i] as int);
        lemma_cong_fmul(a, eb[i], a as int, eb[i] as int);
        lemma_cong_fadd(fmul(b, ea[i]), fmul(a, eb[i]), b as int * ea[i], a as int * eb[i]);
        lemma_cong_fadd(fadd(fmul(b, ea[i]), fmul(a, eb[i])), ec[i], b as int * ea[i] + a as int * eb[i], ec[i] as int);
    }
    lemma_rawdot_lin(nums, ea, eb, ec, w, n, a as int, b as int);
    lemma_fdot_raw(ea, w, n);
    lemma_fdot_raw(eb, w, n);
    lemma_fdot_raw(ec, w, n);
    let aw = fdot(ea, w, n);
    let bw = fdot(eb, w, n);
    let cw = fdot(ec, w, n);
    lemma_cong_mul(b as int, b as int, aw as int, rawdot(ea, w, n));
    lemma_cong_mul(a as int, a as int, bw as int, rawdot(eb, w, n));
    lemma_cong_add(b as int * aw, b * rawdot(ea, w, n), a as int * bw, a * rawdot(eb, w, n));
    lemma_cong_add(b as int * aw + a as int * bw, b * rawdot(ea, w, n) + a * rawdot(eb, w, n), cw as int, rawdot(ec, w, n));
}

/// `[C]₁` of an honest proof is `[vc]₁` for the field value `vc`.
proof fn lemma_point_c(
    va: nat,
    vb: nat,
    d: nat,
    r: nat,
    s: nat,
    hqs: nat,
    lsum: nat,
    pa: (nat, nat, bool),
    pb1: (nat, nat, bool),
    pd: (nat, nat, bool),
    ph: (nat, nat, bool),
    pl: (nat, nat, bool),
)
    requires
        g1_group_laws(),
        va < fr_modulus(),
        vb < fr_modulus(),
        d < fr_modulus(),
        r < fr_modulus(),
        s < fr_modulus(),
        hqs < fr_modulus(),
        lsum < fr_modulus(),
        pa == g1_gen_mul(va),
        pb1 == g1_gen_mul(vb),
        pd == g1_gen_mul(d),
        ph == g1_gen_mul(hqs),
        pl == g1_gen_mul(lsum),
    ensures
        g1_sum(
            g1_sum(g1_diff(g1_sum(g1_scalar_mul(pa, s), g1_scalar_mul(pb1, r)), g1_scalar_mul(pd, fmul(r, s))), ph),
            pl,
        ) == g1_gen_mul(val_c(va, vb, d, r, s, hqs, lsum)),
        val_c(va, vb, d, r, s, hqs, lsum) < fr_modulus(),
{
    lemma_ops_bound(va, s);
    lemma_ops_bound(vb, r);
    lemma_ops_bound(r, s);
    lemma_ops_bound(d, fmul(r, s));
    lemma_ops_bound(fmul(va, s), fmul(vb, r));
    lemma_ops_bound(fadd(fmul(va, s), fmul(vb, r)), fmul(d, fmul(r, s)));
    lemma_ops_bound(fsub(fadd(fmul(va, s), fmul(vb, r)), fmul(d, fmul(r, s))), hqs);
    lemma_ops_bound(fadd(fsub(fadd(fmul(va, s), fmul(vb, r)), fmul(d, fmul(r, s))), hqs), lsum);
}

/// The pairing equation holds of multiples of the generators whose scalars
/// satisfy it in the field.
proof fn lemma_pairing_step(
    a: nat,
    b: nat,
    g: nat,
    d: nat,
    va: nat,
    vb: nat,
    vc: nat,
    xs: nat,
    pa: (nat, nat, bool),
    pb: ((nat, nat), (nat, nat), bool),
    pc: (nat, nat, bool),
    px: (nat, nat, bool),
    p_alpha: (nat, nat, bool),
    p_beta: ((nat, nat), (nat, nat), bool),
    p_gamma: ((nat, nat), (nat, nat), bool),
    p_delta: ((nat, nat), (nat, nat), bool),
)
    requires
        pairing_laws(),
        a < fr_modulus(),
        b < fr_modulus(),
        g < fr_modulus(),
        d < fr_modulus(),
        va < fr_modulus(),
        vb < fr_modulus(),
        vc < fr_modulus(),
        xs < fr_modulus(),
        pa == g1_gen_mul(va),
        pb == g2_gen_mul(vb),
        pc == g1_gen_mul(vc),
        px == g1_gen_mul(xs),
        p_alpha == g1_gen_mul(a),
        p_beta == g2_gen_mul(b),
        p_gamma == g2_gen_mul(g),
        p_delta == g2_gen_mul(d),
        fmul(va, vb) == fadd(fadd(fmul(a, b), fmul(vc, d)), fmul(xs, g)),
    ensures
        pairing_value(pa, pb) == gt_sum(
            gt_sum(pairing_value(p_alpha, p_beta), pairing_value(pc, p_delta)),
            pairing_value(px, p_gamma),
        ),
{
    lemma_ops_bound(a, b);
    lemma_ops_bound(vc, d);
    lemma_ops_bound(xs, g);
    lemma_ops_bound(fmul(a, b), fmul(vc, d));
    assert(pairing_value(pa, pb) == gt_of(fmul(va, vb)));
    assert(pairing_value(p_alpha, p_beta) == gt_of(fmul(a, b)));
    assert(pairing_value(pc, p_delta) == gt_of(fmul(vc, d)));
    assert(pairing_value(px, p_gamma) == gt_of(fmul(xs, g)));
    assert(gt_sum(gt_of(fmul(a, b)), gt_of(fmul(vc, d))) == gt_of(fadd(fmul(a, b), fmul(vc, d))));
}

/// Completeness: a proof made honestly, with any blinding scalars `r` and `s`,
/// from a proving key of the setup and a witness whose polynomial `A·B - C` is
/// `h` times the vanishing polynomial, passes the verifier's pairing check on
/// the witness's public part. The premises on the curve are that `G1` and `G2`
/// are cyclic of the scalar order, with the operations acting on multiples of
/// the generators as the field operations act on the scalars, and that the
/// pairing is bilinear.
#[verifier::spinoff_prover]
#[verifier::rlimit(30)]
pub proof fn law_completeness(
    pk: ProvingKey,
    polys_deg: nat,
    qp: Qap,
    rnd: Randoms,
    proof: Proof,
    w: Seq<nat>,
    h: Seq<nat>,
    num_public_inputs: nat,
    r: nat,
    s: nat,
)
    requires
        g1_group_laws(),
        g2_group_laws(),
        pairing_laws(),
        proving_key_for(pk, polys_deg, num_public_inputs, w.len(), qp, rnd),
        prover_inputs_fit(pk, qp, w.len(), h.len(), num_public_inputs),
        proof_for(proof, pk, qp, w, h, num_public_inputs, r, s),
        fr_seq(w),
        fr_seq(h),
        r < fr_modulus(),
        s < fr_modulus(),
        is_product(witness_poly(qp, w), h, qp.z_i@),
    ensures
        pairing_check(pk.vk, proof, w.take(num_public_inputs as int)),
{
    let np = num_public_inputs;
    let n = w.len();
    let t = rnd.tau.value();
    let a = rnd.alpha.value();
    let b = rnd.beta.value();
    let g = rnd.gamma.value();
    let d = rnd.delta.value();
    let aw = fdot(evals(qp.a_i@, t), w, n);
    let bw = fdot(evals(qp.b_i@, t), w, n);
    let cw = fdot(evals(qp.c_i@, t), w, n);
    let va = val_a(a, d, r, aw);
    let vb = val_a(b, d, s, bw);
    lemma_points_ab(pk, polys_deg, qp, rnd, w, h.len(), np, r, s);
    // the three sums of [C]₁ and of the public input
    let zq = key_zq(pk, polys_deg, qp, rnd);
    let hqs = fdot(h_scalars(t, zq, h.len()), h, h.len());
    lemma_h_sum(pk, polys_deg, qp, rnd, h, np, n);
    let lsum = fdot(priv_scalars(pk, qp, rnd, np, n), w.skip(np as int), (n - np) as nat);
    lemma_priv_sum(pk, polys_deg, qp, rnd, w, np);
    let xs = fdot(pub_scalars(pk.vk, qp, rnd, np), w.take(np as int), np);
    lemma_pub_sum(pk, polys_deg, qp, rnd, w, np);
    // [C]₁
    let vc = val_c(va, vb, d, r, s, hqs, lsum);
    lemma_point_c(
        va,
        vb,
        d,
        r,
        s,
        hqs,
        lsum,
        proof_a(pk, qp, w, r),
        proof_b1(pk, qp, w, s),
        pk.delta_g1@,
        g1_msm(g1_views(pk.h_query@), h),
        g1_msm(g1_views(pk.l_query_pv@), w.skip(np as int)),
    );
    assert(proof.c@ == g1_gen_mul(vc));
    // the verifier's equation on the scalars
    let hv = peval(h, t);
    let zv = peval(qp.z_i@, t);
    let nums = numerators(qp, rnd, n);
    lemma_numerator_sum(qp, rnd, w, np);
    lemma_cong_ops(zq, d);
    lemma_witness_value(qp, w, t);
    lemma_product_value(witness_poly(qp, w), h, qp.z_i@, t);
    lemma_cong_ops(hv, zv);
    lemma_cong_fsub(fmul(aw, bw), cw, aw as int * bw as int, cw as int);
    lemma_cong_ops(aw, bw);
    lemma_pairing_algebra(
        a,
        b,
        g,
        d,
        r,
        s,
        aw,
        bw,
        cw,
        hv,
        zv,
        zq,
        hqs,
        lsum,
        xs,
        rawdot(nums, w, np),
        rawdot(nums.skip(np as int), w.skip(np as int), (n - np) as nat),
    );
    // the pairings
    lemma_pairing_step(
        a,
        b,
        g,
        d,
        va,
        vb,
        vc,
        xs,
        proof.a@,
        proof.b@,
        proof.c@,
        g1_msm(g1_views(pk.vk.gamma_abc_g1@), w.take(np as int)),
        pk.vk.alpha_g1@,
        pk.vk.beta_g2@,
        pk.vk.gamma_g2@,
        pk.vk.delta_g2@,
    );
}

/// Completeness from the constraint system: for a program that is the
/// reduction of the system, a witness that satisfies it, and the quotient and
/// remainder of `A·B - C` by the vanishing polynomial, an honest proof with the
/// quotient, under any blinding scalars, passes the verifier's pairing check on
/// the public inputs. Besides the premises on the curve, it takes the
/// primality of the scalar order, as the reduction's law does.
#[verifier::spinoff_prover]
pub proof fn law_completeness_for_satisfying_witness(
    r1cs: R1cs,
    qp: Qap,
    w: Seq<nat>,
    quo: Polynomial,
    rem: Polynomial,
    pk: ProvingKey,
    polys_deg: nat,
    rnd: Randoms,
    proof: Proof,
    r: nat,
    s: nat,
)
    requires
        is_prime(fr_modulus()),
        g1_group_laws(),
        g2_group_laws(),
        pairing_laws(),
        part_interpolates(qp.a_i@, r1cs, 0),
        part_interpolates(qp.b_i@, r1cs, 1),
        part_interpolates(qp.c_i@, r1cs, 2),
        qp.z_i@.len() == r1cs.constraints.len() + 1,
        forall|x: nat| x < fr_modulus() ==> #[trigger] peval(qp.z_i@, x) == vanish(
            domain_seq(r1cs.constraints.len() as nat),
            x,
            r1cs.constraints.len() as nat,
        ),
        forall|k: int| 0 <= k < r1cs.constraints@.len() ==> #[trigger] r1cs.constraints@[k].in_range(r1cs.num_variables as nat),
        w.len() == r1cs.num_variables,
        w[0] == 1,
        fr_seq(w),
        r1cs.satisfied_by(w),
        forall|k: int| #[trigger] coef(witness_poly(qp, w), k) == fadd(conv_coef(quo@, qp.z_i@, k), coef(rem@, k)),
        rem@.len() < qp.z_i@.len() || all_zero(rem@),
        proving_key_for(pk, polys_deg, r1cs.num_public_inputs as nat, w.len(), qp, rnd),
        prover_inputs_fit(pk, qp, w.len(), quo@.len(), r1cs.num_public_inputs as nat),
        proof_for(proof, pk, qp, w, quo@, r1cs.num_public_inputs as nat, r, s),
        r < fr_modulus(),
        s < fr_modulus(),
    ensures
        pairing_check(pk.vk, proof, w.take(r1cs.num_public_inputs as int)),
{
    law_qap_divisibility(r1cs, qp, w, quo, rem);
    assert forall|k: int| #[trigger] coef(witness_poly(qp, w), k) == conv_coef(quo@, qp.z_i@, k) by {
        assert(coef(rem@, k) == 0);
        lemma_csum_bound(quo@, qp.z_i@, k, quo@.len());
        lemma_fadd_zero(conv_coef(quo@, qp.z_i@, k));
    }
    assert(is_product(witness_poly(qp, w), quo@, qp.z_i@));
    lemma_poly_fr(quo);
    law_completeness(pk, polys_deg, qp, rnd, proof, w, quo@, r1cs.num_public_inputs as nat, r, s);
}

} // verus!
