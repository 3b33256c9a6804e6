//! Inverses in a prime field and the roots of polynomials: a polynomial with
//! fewer coefficients than it has distinct roots is zero.

use crate::field::{fadd, fmul, fr_modulus, fsub};
use crate::field_lemmas::{
    lemma_fadd_assoc, lemma_fadd_zero, lemma_fmul_assoc, lemma_fmul_comm, lemma_fmul_distrib,
    lemma_fmul_distrib_sub, lemma_fmul_zero_one, lemma_fsub_fadd, lemma_ops_bound,
};
use crate::poly::{all_zero, peval};
use crate::poly_lemmas::lemma_peval_bound;
use vstd::arithmetic::div_mod::{
    lemma_fundamental_div_mod, lemma_mod_bound, lemma_mod_multiples_basic, lemma_mod_multiples_vanish,
    lemma_mul_mod_noop_right, lemma_small_mod,
};
use vstd::prelude::*;

verus! {

/// `n` is prime: greater than one, with no divisor strictly between one and `n`.
pub open spec fn is_prime(n: nat) -> bool {
    n > 1 && forall|d: nat| 1 < d < n ==> #[trigger] (n % d) != 0
}

/// `g` divides `a`.
pub open spec fn divides(g: nat, a: nat) -> bool {
    exists|k: nat| a == #[trigger] (k * g)
}

/// The extended Euclidean algorithm: `(gcd(a, b), x, y)` with `a·x + b·y = gcd`.
pub open spec fn egcd(a: nat, b: nat) -> (nat, int, int)
    decreases b,
{
    if b == 0 {
        (a, 1int, 0int)
    } else {
        let r = egcd(b, a % b);
        (r.0, r.2, r.1 - (a / b) as int * r.2)
    }
}

proof fn lemma_egcd(a: nat, b: nat)
    ensures
        a * egcd(a, b).1 + b * egcd(a, b).2 == egcd(a, b).0,
        a > 0 || b > 0 ==> egcd(a, b).0 > 0,
        divides(egcd(a, b).0, a),
        divides(egcd(a, b).0, b),
    decreases b,
{
    let g = egcd(a, b).0;
    if b == 0 {
        assert(a == 1 * a);
        assert(0 == 0 * a);
    } else {
        let r = egcd(b, a % b);
        lemma_egcd(b, a % b);
        let q = a / b;
        lemma_fundamental_div_mod(a as int, b as int);
        let m = a % b;
        let (x, y) = (r.1, r.2);
        assert(a * y + b * (x - q * y) == g) by (nonlinear_arith)
            requires
                a == b * q + m,
                b * x + m * y == g,
        ;
        let kb = choose|k: nat| b == #[trigger] (k * g);
        let km = choose|k: nat| m == #[trigger] (k * g);
        assert(a == (kb * q + km) * g) by (nonlinear_arith)
            requires
                a == b * q + m,
                b == kb * g,
                m == km * g,
        ;
        assert(b == kb * g);
    }
}

/// In a prime field every nonzero element has an inverse.
pub proof fn lemma_prime_inverse(d: nat)
    requires
        is_prime(fr_modulus()),
        0 < d < fr_modulus(),
    ensures
        exists|e: nat| e < fr_modulus() && #[trigger] fmul(d, e) == 1,
{
    let p = fr_modulus();
    lemma_egcd(d, p);
    let (g, x, y) = egcd(d, p);
    let kd = choose|k: nat| d == #[trigger] (k * g);
    let kp = choose|k: nat| p == #[trigger] (k * g);
    assert(g <= d) by (nonlinear_arith)
        requires
            d == kd * g,
            d > 0,
            g > 0,
    ;
    if g != 1 {
        lemma_mod_multiples_basic(kp as int, g as int);
        assert(p % g == 0);
        assert(false);
    }
    assert(d * x == p * (-y) + 1) by (nonlinear_arith)
        requires
            d * x + p * y == 1,
    ;
    lemma_mod_multiples_vanish(-y, 1, p as int);
    lemma_small_mod(1, p);
    let e = x % (p as int);
    lemma_mod_bound(x, p as int);
    lemma_mul_mod_noop_right(d as int, x, p as int);
    assert(fmul(d, e as nat) == 1);
}

/// In a prime field a product is zero only if a factor is.
pub proof fn lemma_no_zero_divisors(d: nat, y: nat)
    requires
        is_prime(fr_modulus()),
        0 < d < fr_modulus(),
        y < fr_modulus(),
        fmul(d, y) == 0,
    ensures
        y == 0,
{
    lemma_prime_inverse(d);
    let e = choose|e: nat| e < fr_modulus() && #[trigger] fmul(d, e) == 1;
    lemma_fmul_zero_one(e);
    lemma_fmul_assoc(e, d, y);
    lemma_fmul_comm(e, d);
    lemma_fmul_zero_one(y);
}

/// The quotient of `s` by `x - a`, by synthetic division.
pub open spec fn synth_q(s: Seq<nat>, a: nat) -> Seq<nat>
    decreases s.len(),
{
    if s.len() <= 1 {
        Seq::empty()
    } else {
        seq![peval(s.drop_first(), a)] + synth_q(s.drop_first(), a)
    }
}

proof fn lemma_synth_step(x: nat, a: nat, t: nat, c: nat, s: nat)
    requires
        c < fr_modulus(),
    ensures
        fadd(fmul(fadd(fmul(fsub(x, a), t), c), x), s) == fadd(
            fmul(fsub(x, a), fadd(fmul(t, x), c)),
            fadd(fmul(c, a), s),
        ),
{
    let d = fsub(x, a);
    let tx = fmul(t, x);
    let cx = fmul(c, x);
    let ca = fmul(c, a);
    lemma_fmul_distrib(x, fmul(d, t), c);
    lemma_fmul_comm(x, fadd(fmul(d, t), c));
    lemma_fmul_comm(x, fmul(d, t));
    lemma_fmul_comm(x, c);
    lemma_fmul_assoc(d, t, x);
    lemma_fmul_distrib(d, tx, c);
    lemma_fmul_distrib_sub(c, x, a);
    lemma_fmul_comm(c, d);
    let dtx = fmul(d, tx);
    lemma_fadd_assoc(dtx, fsub(cx, ca), fadd(ca, s));
    lemma_fadd_assoc(fsub(cx, ca), ca, s);
    lemma_ops_bound(c, x);
    lemma_fsub_fadd(cx, ca);
    lemma_fadd_assoc(dtx, cx, s);
}

/// Synthetic division: `s(x) = (x - a)·q(x) + s(a)`, with `q` one shorter.
pub proof fn lemma_synth(s: Seq<nat>, a: nat, x: nat)
    ensures
        s.len() >= 1 ==> synth_q(s, a).len() == s.len() - 1,
        peval(s, x) == fadd(fmul(fsub(x, a), peval(synth_q(s, a), x)), peval(s, a)),
    decreases s.len(),
{
    let q = synth_q(s, a);
    lemma_peval_bound(s, a);
    if s.len() <= 1 {
        assert(peval(q, x) == 0);
        lemma_fmul_zero_one(fsub(x, a));
        lemma_fmul_zero_one(x);
        lemma_fmul_zero_one(a);
        lemma_fadd_zero(peval(s, a));
        if s.len() == 1 {
            assert(s.drop_first() =~= Seq::<nat>::empty());
            assert(peval(s.drop_first(), x) == 0);
            assert(peval(s.drop_first(), a) == 0);
        }
    } else {
        let t = s.drop_first();
        lemma_synth(t, a, x);
        let qt = synth_q(t, a);
        assert(q.drop_first() =~= qt);
        assert(q[0] == peval(t, a));
        assert(peval(q, x) == fadd(fmul(peval(qt, x), x), peval(t, a)));
        assert(peval(s, x) == fadd(fmul(peval(t, x), x), s[0]));
        assert(peval(s, a) == fadd(fmul(peval(t, a), a), s[0]));
        lemma_peval_bound(t, a);
        lemma_synth_step(x, a, peval(qt, x), peval(t, a), s[0]);
    }
}

/// If the quotient is zero and `a` is a root, then `s` is zero.
proof fn lemma_synth_zero(s: Seq<nat>, a: nat)
    requires
        forall|i: int| 0 <= i < s.len() ==> #[trigger] s[i] < fr_modulus(),
        all_zero(synth_q(s, a)),
        peval(s, a) == 0,
    ensures
        all_zero(s),
    decreases s.len(),
{
    if s.len() >= 1 {
        let t = s.drop_first();
        if s.len() >= 2 {
            let q = synth_q(s, a);
            assert(q[0] == peval(t, a));
            assert(q.drop_first() =~= synth_q(t, a));
            assert(all_zero(synth_q(t, a))) by {
                assert forall|i: int| 0 <= i < synth_q(t, a).len() implies #[trigger] synth_q(t, a)[i] == 0 by {
                    assert(synth_q(t, a)[i] == q[i + 1]);
                }
            }
            assert forall|i: int| 0 <= i < t.len() implies #[trigger] t[i] < fr_modulus() by {
                assert(t[i] == s[i + 1]);
            }
            lemma_synth_zero(t, a);
        } else {
            assert(t =~= Seq::<nat>::empty());
        }
        assert(peval(t, a) == 0) by {
            if s.len() >= 2 {
                assert(synth_q(s, a)[0] == peval(t, a));
            } else {
                assert(t =~= Seq::<nat>::empty());
            }
        }
        lemma_fmul_zero_one(a);
        lemma_fadd_zero(s[0]);
        assert forall|i: int| 0 <= i < s.len() implies #[trigger] s[i] == 0 by {
            if i > 0 {
                assert(s[i] == t[i - 1]);
            }
        }
    }
}

/// In a prime field, a polynomial with at most `n` coefficients that is zero
/// at `n` distinct points is the zero polynomial.
pub proof fn lemma_roots_zero(s: Seq<nat>, xs: Seq<nat>, n: nat)
    requires
        is_prime(fr_modulus()),
        s.len() <= n,
        n <= xs.len(),
        forall|i: int| 0 <= i < s.len() ==> #[trigger] s[i] < fr_modulus(),
        forall|i: int| 0 <= i < n ==> #[trigger] xs[i] < fr_modulus(),
        forall|i: int, j: int| 0 <= i < j < n ==> xs[i] != xs[j],
        forall|i: int| 0 <= i < n ==> #[trigger] peval(s, xs[i]) == 0,
    ensures
        all_zero(s),
    decreases n,
{
    if s.len() > 0 {
        let a = xs[n - 1];
        let q = synth_q(s, a);
        lemma_synth(s, a, a);
        assert(peval(s, a) == 0);
        assert forall|i: int| 0 <= i < q.len() implies #[trigger] q[i] < fr_modulus() by {
            if i == 0 {
                lemma_peval_bound(s.drop_first(), a);
            } else {
                lemma_synth_q_bound(s, a, i);
            }
        }
        assert forall|i: int| 0 <= i < n - 1 implies #[trigger] peval(q, xs[i]) == 0 by {
            let x = xs[i];
            lemma_synth(s, a, x);
            assert(peval(s, x) == 0);
            let d = fsub(x, a);
            lemma_ops_bound(x, a);
            lemma_ops_bound(d, peval(q, x));
            lemma_fadd_zero(fmul(d, peval(q, x)));
            assert(d != 0) by {
                lemma_mod_bound(x - a, fr_modulus() as int);
                if x > a {
                    lemma_small_mod((x - a) as nat, fr_modulus());
                } else {
                    lemma_mod_multiples_vanish(1, x - a, fr_modulus() as int);
                    lemma_small_mod((fr_modulus() + x - a) as nat, fr_modulus());
                }
            }
            lemma_peval_bound(q, x);
            lemma_no_zero_divisors(d, peval(q, x));
        }
        lemma_roots_zero(q, xs, (n - 1) as nat);
        lemma_synth_zero(s, a);
    }
}

proof fn lemma_synth_q_bound(s: Seq<nat>, a: nat, i: int)
    requires
        0 <= i < synth_q(s, a).len(),
    ensures
        synth_q(s, a)[i] < fr_modulus(),
    decreases s.len(),
{
    let t = s.drop_first();
    if i == 0 {
        lemma_peval_bound(t, a);
    } else {
        lemma_synth_q_bound(t, a, i - 1);
    }
}

} // verus!
