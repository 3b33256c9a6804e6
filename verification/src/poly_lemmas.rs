//! Facts about the coefficient-level specifications of polynomial arithmetic.

use crate::field::{fadd, fmul, fr_modulus, fsub};
use crate::field_lemmas::{
    lemma_fadd_assoc, lemma_fadd_comm, lemma_fadd_swap4, lemma_fadd_zero, lemma_fmul_assoc,
    lemma_fmul_comm, lemma_fmul_distrib, lemma_fmul_distrib_sub, lemma_fmul_zero_one,
    lemma_fsub_interchange, lemma_ops_bound,
};
use crate::poly::{
    coef, conv_coef, csum, lemma_csum_bound, lemma_trim, padd, peval, pmul, pscale, psub, trim,
};
use vstd::prelude::*;

verus! {

/// A product sum reads `a` only through its coefficients below `n`.
pub proof fn lemma_csum_coef_eq(a: Seq<nat>, a2: Seq<nat>, b: Seq<nat>, k: int, n: nat)
    requires
        forall|i: int| 0 <= i < n ==> coef(a, i) == coef(a2, i),
    ensures
        csum(a, b, k, n) == csum(a2, b, k, n),
    decreases n,
{
    if n > 0 {
        lemma_csum_coef_eq(a, a2, b, k, (n - 1) as nat);
    }
}

/// Zero coefficients at the end of `a` add nothing to a product sum.
pub proof fn lemma_csum_zero_tail(a: Seq<nat>, b: Seq<nat>, k: int, m: nat, n: nat)
    requires
        m <= n,
        forall|i: int| m <= i < n ==> coef(a, i) == 0,
    ensures
        csum(a, b, k, n) == csum(a, b, k, m),
    decreases n,
{
    if n > m {
        lemma_csum_zero_tail(a, b, k, m, (n - 1) as nat);
        lemma_fmul_zero_one(coef(b, k - (n - 1)));
        lemma_csum_bound(a, b, k, (n - 1) as nat);
        lemma_fadd_zero(csum(a, b, k, (n - 1) as nat));
    }
}

/// Adding `cf` to the coefficient at `s` adds `cf * b[k - s]` to the sums that
/// reach past `s`.
pub proof fn lemma_csum_update(a: Seq<nat>, b: Seq<nat>, k: int, n: nat, s: int, cf: nat)
    requires
        0 <= s < a.len(),
    ensures
        csum(a.update(s, fadd(a[s], cf)), b, k, n) == fadd(
            csum(a, b, k, n),
            if s < n { fmul(cf, coef(b, k - s)) } else { 0 },
        ),
    decreases n,
{
    let a2 = a.update(s, fadd(a[s], cf));
    lemma_csum_bound(a, b, k, n);
    if n == 0 {
        lemma_fadd_zero(0);
    } else {
        let i = (n - 1) as nat;
        lemma_csum_update(a, b, k, i, s, cf);
        let x = csum(a, b, k, i);
        lemma_csum_bound(a, b, k, i);
        let c = coef(b, k - i);
        if i == s {
            lemma_fadd_zero(x);
            lemma_fmul_distrib(c, a[s], cf);
            lemma_fmul_comm(fadd(a[s], cf), c);
            lemma_fmul_comm(a[s], c);
            lemma_fmul_comm(cf, c);
            lemma_fadd_assoc(x, fmul(a[s], c), fmul(cf, c));
        } else if i > s {
            let t1 = fmul(coef(a, i as int), c);
            let t2 = fmul(cf, coef(b, k - s));
            assert(coef(a2, i as int) == coef(a, i as int));
            lemma_fadd_assoc(x, t2, t1);
            lemma_fadd_comm(t2, t1);
            lemma_fadd_assoc(x, t1, t2);
        } else {
            lemma_fadd_zero(x);
            assert(coef(a2, i as int) == coef(a, i as int));
            lemma_csum_bound(a, b, k, n);
            lemma_fadd_zero(csum(a, b, k, n));
        }
    }
}

/// A product coefficient does not see trailing zeros of its left factor.
pub proof fn lemma_conv_coef_trim(a: Seq<nat>, b: Seq<nat>, k: int)
    requires
        a.len() >= 1,
    ensures
        conv_coef(trim(a), b, k) == csum(a, b, k, a.len()),
{
    lemma_trim(a);
    let t = trim(a);
    lemma_csum_coef_eq(t, a, b, k, t.len());
    assert forall|i: int| t.len() <= i < a.len() implies coef(a, i) == 0 by {
        assert(coef(t, i) == coef(a, i));
    }
    lemma_csum_zero_tail(a, b, k, t.len(), a.len());
}

/// Trimming a trimmed sequence changes nothing.
pub proof fn lemma_trim_idem(s: Seq<nat>)
    ensures
        trim(trim(s)) == trim(s),
{
    lemma_trim(s);
}

/// A sequence without its first coefficient (the empty sequence stays empty).
pub open spec fn tail(s: Seq<nat>) -> Seq<nat> {
    if s.len() == 0 {
        s
    } else {
        s.drop_first()
    }
}

/// Evaluations are field values.
pub proof fn lemma_peval_bound(s: Seq<nat>, x: nat)
    ensures
        peval(s, x) < fr_modulus(),
{
    if s.len() > 0 {
        lemma_ops_bound(fmul(peval(s.drop_first(), x), x), s[0]);
    }
}

/// Horner's step, also for the empty sequence.
pub proof fn lemma_peval_unfold(s: Seq<nat>, x: nat)
    ensures
        peval(s, x) == fadd(fmul(peval(tail(s), x), x), coef(s, 0)),
{
    if s.len() == 0 {
        lemma_fmul_zero_one(x);
        lemma_fadd_zero(0);
    }
}

/// Sequences with the same coefficients evaluate alike, whatever zeros trail.
pub proof fn lemma_peval_coef_eq(s: Seq<nat>, t: Seq<nat>, x: nat)
    requires
        forall|k: int| #[trigger] coef(s, k) == coef(t, k),
    ensures
        peval(s, x) == peval(t, x),
    decreases s.len() + t.len(),
{
    if s.len() + t.len() > 0 {
        assert forall|k: int| #[trigger] coef(tail(s), k) == coef(tail(t), k) by {
            if k >= 0 {
                assert(coef(s, k + 1) == coef(t, k + 1));
            }
        }
        lemma_peval_coef_eq(tail(s), tail(t), x);
        lemma_peval_unfold(s, x);
        lemma_peval_unfold(t, x);
        assert(coef(s, 0) == coef(t, 0));
    }
}

/// Dropping trailing zeros keeps the value.
pub proof fn lemma_peval_trim(s: Seq<nat>, x: nat)
    ensures
        peval(trim(s), x) == peval(s, x),
{
    lemma_trim(s);
    lemma_peval_coef_eq(trim(s), s, x);
}

/// The value of a coefficient-wise sum is the sum of the values.
pub proof fn lemma_peval_padd(a: Seq<nat>, b: Seq<nat>, x: nat)
    ensures
        peval(padd(a, b), x) == fadd(peval(a, x), peval(b, x)),
    decreases a.len() + b.len(),
{
    let c = padd(a, b);
    if a.len() + b.len() == 0 {
        lemma_fadd_zero(0);
    } else {
        lemma_peval_padd(tail(a), tail(b), x);
        assert forall|k: int| #[trigger] coef(c.drop_first(), k) == coef(padd(tail(a), tail(b)), k) by {
            if k >= 0 {
                assert(coef(a, k + 1) == coef(tail(a), k));
                assert(coef(b, k + 1) == coef(tail(b), k));
            }
        }
        lemma_peval_coef_eq(c.drop_first(), padd(tail(a), tail(b)), x);
        lemma_peval_unfold(a, x);
        lemma_peval_unfold(b, x);
        let pa = peval(tail(a), x);
        let pb = peval(tail(b), x);
        lemma_fmul_distrib(x, pa, pb);
        lemma_fadd_swap4(fmul(pa, x), fmul(pb, x), coef(a, 0), coef(b, 0));
    }
}

/// The value of a coefficient-wise difference is the difference of the values.
pub proof fn lemma_peval_psub(a: Seq<nat>, b: Seq<nat>, x: nat)
    ensures
        peval(psub(a, b), x) == fsub(peval(a, x), peval(b, x)),
    decreases a.len() + b.len(),
{
    let c = psub(a, b);
    if a.len() + b.len() == 0 {
    } else {
        lemma_peval_psub(tail(a), tail(b), x);
        assert forall|k: int| #[trigger] coef(c.drop_first(), k) == coef(psub(tail(a), tail(b)), k) by {
            if k >= 0 {
                assert(coef(a, k + 1) == coef(tail(a), k));
                assert(coef(b, k + 1) == coef(tail(b), k));
            }
        }
        lemma_peval_coef_eq(c.drop_first(), psub(tail(a), tail(b)), x);
        lemma_peval_unfold(a, x);
        lemma_peval_unfold(b, x);
        let pa = peval(tail(a), x);
        let pb = peval(tail(b), x);
        lemma_fmul_distrib_sub(x, pa, pb);
        lemma_fmul_comm(x, fsub(pa, pb));
        lemma_fmul_comm(x, pa);
        lemma_fmul_comm(x, pb);
        lemma_fsub_interchange(fmul(pa, x), fmul(pb, x), coef(a, 0), coef(b, 0));
    }
}

/// Scaling every coefficient scales the value.
pub proof fn lemma_peval_pscale(a: Seq<nat>, v: nat, x: nat)
    ensures
        peval(pscale(a, v), x) == fmul(peval(a, x), v),
    decreases a.len(),
{
    if a.len() == 0 {
        lemma_fmul_zero_one(v);
    } else {
        let a1 = a.drop_first();
        assert(pscale(a, v).drop_first() =~= pscale(a1, v));
        lemma_peval_pscale(a1, v, x);
        let pa = peval(a1, x);
        lemma_fmul_assoc(pa, v, x);
        lemma_fmul_comm(v, x);
        lemma_fmul_assoc(pa, x, v);
        lemma_fmul_distrib(v, fmul(pa, x), a[0]);
    }
}

/// A product sum over the nonzero terms of `a` is zero when `b` has nothing at
/// the matching positions.
pub proof fn lemma_csum_zero_terms(a: Seq<nat>, b: Seq<nat>, k: int, n: nat)
    requires
        forall|j: int| k - n < j <= k ==> #[trigger] coef(b, j) == 0,
    ensures
        csum(a, b, k, n) == 0,
    decreases n,
{
    if n > 0 {
        lemma_csum_zero_terms(a, b, k, (n - 1) as nat);
        lemma_fmul_zero_one(coef(a, n - 1));
        lemma_fadd_zero(0);
    }
}

/// Every coefficient of the product sequence, also outside its length, is the
/// product coefficient.
pub proof fn lemma_pmul_coef(a: Seq<nat>, b: Seq<nat>, k: int)
    requires
        a.len() + b.len() >= 1,
    ensures
        coef(pmul(a, b), k) == conv_coef(a, b, k),
{
    if !(0 <= k < a.len() + b.len() - 1) {
        lemma_csum_zero_terms(a, b, k, a.len());
    }
}

/// Peeling the first term off a product sum.
proof fn lemma_csum_first(a: Seq<nat>, b: Seq<nat>, k: int, n: nat)
    requires
        a.len() >= 1,
        n >= 1,
    ensures
        csum(a, b, k, n) == fadd(fmul(a[0], coef(b, k)), csum(a.drop_first(), b, k - 1, (n - 1) as nat)),
    decreases n,
{
    let a1 = a.drop_first();
    let t0 = fmul(a[0], coef(b, k));
    lemma_ops_bound(a[0], coef(b, k));
    if n == 1 {
        lemma_fadd_zero(t0);
        assert(coef(a, 0) == a[0]);
        assert(csum(a, b, k, 0) == 0);
        assert(csum(a, b, k, 1) == fadd(0, fmul(coef(a, 0), coef(b, k - 0))));
        assert(csum(a1, b, k - 1, 0) == 0);
    } else {
        lemma_csum_first(a, b, k, (n - 1) as nat);
        assert(csum(a1, b, k - 1, (n - 1) as nat) == fadd(csum(a1, b, k - 1, (n - 2) as nat), fmul(coef(a1, n - 2), coef(b, (k - 1) - (n - 2)))));
        assert(csum(a, b, k, n) == fadd(csum(a, b, k, (n - 1) as nat), fmul(coef(a, n - 1), coef(b, k - (n - 1)))));
        assert(coef(a, n - 1) == coef(a1, n - 2));
        lemma_fadd_assoc(t0, csum(a1, b, k - 1, (n - 2) as nat), fmul(coef(a1, n - 2), coef(b, (k - 1) - (n - 2))));
    }
}

/// The value of a product is the product of the values.
pub proof fn lemma_peval_pmul(a: Seq<nat>, b: Seq<nat>, x: nat)
    requires
        a.len() + b.len() >= 1,
    ensures
        peval(pmul(a, b), x) == fmul(peval(a, x), peval(b, x)),
    decreases a.len(),
{
    let c = pmul(a, b);
    if b.len() == 0 {
        assert forall|k: int| #[trigger] coef(c, k) == coef(b, k) by {
            lemma_pmul_coef(a, b, k);
            lemma_csum_zero_terms(a, b, k, a.len());
        }
        lemma_peval_coef_eq(c, b, x);
        lemma_fmul_zero_one(peval(a, x));
    } else if a.len() == 0 {
        assert forall|k: int| #[trigger] coef(c, k) == coef(a, k) by {
            lemma_pmul_coef(a, b, k);
        }
        lemma_peval_coef_eq(c, a, x);
        lemma_fmul_zero_one(peval(b, x));
    } else {
        let a1 = a.drop_first();
        let u = pscale(b, a[0]);
        let w = seq![0nat].add(pmul(a1, b));
        assert forall|k: int| #[trigger] coef(c, k) == coef(padd(u, w), k) by {
            lemma_pmul_coef(a, b, k);
            lemma_pmul_coef(a1, b, k - 1);
            lemma_csum_first(a, b, k, a.len());
            lemma_fmul_comm(a[0], coef(b, k));
            if k == 0 {
                lemma_csum_zero_terms(a1, b, -1, a1.len());
            }
            if !(0 <= k < b.len()) {
                lemma_fmul_zero_one(a[0]);
            }
            if 0 <= k < padd(u, w).len() {
                assert(coef(w, k) == coef(pmul(a1, b), k - 1));
            } else {
                lemma_csum_zero_terms(a1, b, k - 1, a1.len());
                lemma_fadd_zero(0);
            }
        }
        lemma_peval_coef_eq(c, padd(u, w), x);
        lemma_peval_padd(u, w, x);
        lemma_peval_pscale(b, a[0], x);
        lemma_peval_pmul(a1, b, x);
        assert(w.drop_first() =~= pmul(a1, b));
        lemma_peval_unfold(w, x);
        lemma_peval_bound(w.drop_first(), x);
        let pa1 = peval(a1, x);
        let pb = peval(b, x);
        lemma_ops_bound(fmul(pa1, pb), x);
        lemma_fadd_zero(fmul(fmul(pa1, pb), x));
        lemma_peval_unfold(a, x);
        lemma_fmul_distrib(pb, fmul(pa1, x), a[0]);
        lemma_fmul_comm(pb, fadd(fmul(pa1, x), a[0]));
        lemma_fmul_comm(pb, fmul(pa1, x));
        lemma_fmul_comm(pb, a[0]);
        lemma_fmul_assoc(pa1, x, pb);
        lemma_fmul_comm(x, pb);
        lemma_fmul_assoc(pa1, pb, x);
        lemma_fadd_comm(fmul(pb, a[0]), fmul(fmul(pa1, pb), x));
    }
}

/// The value of a sum of polynomials is the sum of their values:
/// `(p + q)(x) = p(x) + q(x)`.
pub proof fn law_eval_add(a: Seq<nat>, b: Seq<nat>, x: nat)
    ensures
        peval(trim(padd(a, b)), x) == fadd(peval(a, x), peval(b, x)),
{
    lemma_peval_trim(padd(a, b), x);
    lemma_peval_padd(a, b, x);
}

/// The value of a difference is the difference of the values:
/// `(p - q)(x) = p(x) - q(x)`.
pub proof fn law_eval_sub(a: Seq<nat>, b: Seq<nat>, x: nat)
    ensures
        peval(trim(psub(a, b)), x) == fsub(peval(a, x), peval(b, x)),
{
    lemma_peval_trim(psub(a, b), x);
    lemma_peval_psub(a, b, x);
}

/// Scaling a polynomial scales its value: `(v·p)(x) = p(x)·v`.
pub proof fn law_eval_scale(a: Seq<nat>, v: nat, x: nat)
    ensures
        peval(trim(pscale(a, v)), x) == fmul(peval(a, x), v),
{
    lemma_peval_trim(pscale(a, v), x);
    lemma_peval_pscale(a, v, x);
}

/// The value of a product is the product of the values: `(p·q)(x) = p(x)·q(x)`.
pub proof fn law_eval_mul(a: Seq<nat>, b: Seq<nat>, x: nat)
    requires
        a.len() + b.len() >= 1,
    ensures
        peval(trim(pmul(a, b)), x) == fmul(peval(a, x), peval(b, x)),
{
    lemma_peval_trim(pmul(a, b), x);
    lemma_peval_pmul(a, b, x);
}

/// Normalising a coefficient list keeps the polynomial and is idempotent.
pub proof fn law_new_normalizes(s: Seq<nat>, x: nat)
    ensures
        peval(trim(s), x) == peval(s, x),
        trim(trim(s)) == trim(s),
        forall|k: int| #[trigger] coef(trim(s), k) == coef(s, k),
{
    lemma_peval_trim(s, x);
    lemma_trim_idem(s);
    lemma_trim(s);
}

/// Division with remainder is exact on values: if `a = q·d + r` coefficient by
/// coefficient (what `div_rem` ensures), then `a(x) = q(x)·d(x) + r(x)`.
pub proof fn law_eval_div_rem(a: Seq<nat>, q: Seq<nat>, d: Seq<nat>, r: Seq<nat>, x: nat)
    requires
        q.len() + d.len() >= 1,
        forall|k: int| #[trigger] coef(a, k) == fadd(conv_coef(q, d, k), coef(r, k)),
    ensures
        peval(a, x) == fadd(fmul(peval(q, x), peval(d, x)), peval(r, x)),
{
    let c = padd(pmul(q, d), r);
    assert forall|k: int| #[trigger] coef(a, k) == coef(c, k) by {
        lemma_pmul_coef(q, d, k);
        assert(coef(a, k) == fadd(conv_coef(q, d, k), coef(r, k)));
        if !(0 <= k < c.len()) {
            lemma_csum_zero_terms(q, d, k, q.len());
            lemma_fadd_zero(0);
        }
    }
    lemma_peval_coef_eq(a, c, x);
    lemma_peval_padd(pmul(q, d), r, x);
    lemma_peval_pmul(q, d, x);
}

/// The leading coefficient of a product is the product of the leading
/// coefficients.
pub proof fn lemma_pmul_last(a: Seq<nat>, b: Seq<nat>)
    requires
        a.len() >= 1,
        b.len() >= 1,
    ensures
        pmul(a, b).last() == fmul(a.last(), b.last()),
{
    let top = a.len() + b.len() - 2;
    let n = (a.len() - 1) as nat;
    lemma_csum_zero_terms(a, b, top, n);
    lemma_ops_bound(a.last(), b.last());
    lemma_fadd_zero(fmul(a.last(), b.last()));
    assert(coef(b, top - n) == b.last());
}

} // verus!
