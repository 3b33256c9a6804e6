//! Dense univariate polynomials over the scalar field.

use crate::field::{
    fadd, fmul, fneg, fr_from_u64, fr_modulus, fsub, lemma_value_lt_modulus, ScalarField,
};
use crate::field_lemmas::{lemma_fadd_fsub_cancel, lemma_fadd_zero, lemma_fmul_zero_one, lemma_fsub_zero};
use crate::poly_lemmas::{lemma_conv_coef_trim, lemma_csum_update, lemma_csum_zero_tail, lemma_trim_idem};
use vstd::prelude::*;

verus! {

broadcast use lemma_value_lt_modulus;

/// The field values of a sequence of field elements.
pub open spec fn vals(s: Seq<ScalarField>) -> Seq<nat> {
    s.map_values(|x: ScalarField| x.value())
}

/// The coefficient of `x^k` in a coefficient sequence (zero beyond its end).
pub open spec fn coef(s: Seq<nat>, k: int) -> nat {
    if 0 <= k < s.len() {
        s[k]
    } else {
        0
    }
}

/// A coefficient sequence without trailing zeros, keeping at least one
/// coefficient: the zero polynomial is `[0]`.
pub open spec fn trim(s: Seq<nat>) -> Seq<nat>
    decreases s.len(),
{
    if s.len() == 0 {
        seq![0nat]
    } else if s.len() > 1 && s.last() == 0 {
        trim(s.drop_last())
    } else {
        s
    }
}

/// The value at `x` of the polynomial with coefficients `c`, lowest first,
/// computed by Horner's rule in the field.
pub open spec fn peval(c: Seq<nat>, x: nat) -> nat
    decreases c.len(),
{
    if c.len() == 0 {
        0
    } else {
        fadd(fmul(peval(c.drop_first(), x), x), c[0])
    }
}

/// Coefficient-wise combination of two sequences, padded with zeros to the
/// longer length.
pub open spec fn padd(a: Seq<nat>, b: Seq<nat>) -> Seq<nat> {
    Seq::new(
        if a.len() >= b.len() { a.len() } else { b.len() },
        |i: int| fadd(coef(a, i), coef(b, i)),
    )
}

/// Coefficient-wise difference, padded with zeros to the longer length.
pub open spec fn psub(a: Seq<nat>, b: Seq<nat>) -> Seq<nat> {
    Seq::new(
        if a.len() >= b.len() { a.len() } else { b.len() },
        |i: int| fsub(coef(a, i), coef(b, i)),
    )
}

/// Every coefficient multiplied by `v`.
pub open spec fn pscale(a: Seq<nat>, v: nat) -> Seq<nat> {
    Seq::new(a.len(), |i: int| fmul(a[i], v))
}

/// The sum, in the field, of `a[i] * b[k - i]` over `i < n`.
pub open spec fn csum(a: Seq<nat>, b: Seq<nat>, k: int, n: nat) -> nat
    decreases n,
{
    if n == 0 {
        0
    } else {
        fadd(csum(a, b, k, (n - 1) as nat), fmul(coef(a, n - 1), coef(b, k - (n - 1))))
    }
}

/// The coefficient of `x^k` in the product of `a` and `b`.
pub open spec fn conv_coef(a: Seq<nat>, b: Seq<nat>, k: int) -> nat {
    csum(a, b, k, a.len())
}

/// The product of two coefficient sequences, of length `|a| + |b| - 1`.
pub open spec fn pmul(a: Seq<nat>, b: Seq<nat>) -> Seq<nat> {
    Seq::new((a.len() + b.len() - 1) as nat, |k: int| conv_coef(a, b, k))
}

/// A polynomial by its coefficients, lowest degree first.
#[derive(Debug, Clone)]
pub struct Polynomial {
    pub coeff: Vec<ScalarField>,
}

impl View for Polynomial {
    type V = Seq<nat>;

    open spec fn view(&self) -> Seq<nat> {
        vals(self.coeff@)
    }
}

/// Trimming yields a sequence without trailing zeros and with at least one
/// coefficient, and keeps every coefficient.
pub proof fn lemma_trim(s: Seq<nat>)
    ensures
        trim(s).len() >= 1,
        trim(s).len() <= if s.len() == 0 { 1 } else { s.len() },
        trim(s).len() == 1 || trim(s).last() != 0,
        forall|k: int| #[trigger] coef(trim(s), k) == coef(s, k),
        s.len() >= 1 ==> trim(s) =~= s.subrange(0, trim(s).len() as int),
    decreases s.len(),
{
    if s.len() == 0 {
    } else if s.len() > 1 && s.last() == 0 {
        lemma_trim(s.drop_last());
        assert forall|k: int| #[trigger] coef(trim(s), k) == coef(s, k) by {
            assert(coef(trim(s.drop_last()), k) == coef(s.drop_last(), k));
        }
    }
}

impl Polynomial {
    /// The polynomial with the given coefficients, trailing zeros dropped; an
    /// empty list gives the zero polynomial `[0]`.
    pub fn new(coeffs: Vec<ScalarField>) -> (r: Self)
        ensures
            r@ == trim(vals(coeffs@)),
    {
        let mut coeff = coeffs;
        if coeff.len() == 0 {
            let z = fr_from_u64(0);
            let r = Self { coeff: vec![z] };
            assert(r@ =~= seq![0nat]);
            return r;
        }
        while coeff.len() > 1 && coeff[coeff.len() - 1].is_zero()
            invariant
                coeff.len() >= 1,
                trim(vals(coeff@)) == trim(vals(coeffs@)),
            decreases coeff.len(),
        {
            let ghost before = vals(coeff@);
            coeff.pop();
            assert(vals(coeff@) =~= before.drop_last());
        }
        Self { coeff }
    }

    /// The degree: one less than the number of coefficients.
    pub fn degree(&self) -> (r: usize)
        requires
            self.coeff.len() >= 1,
        ensures
            r == self.coeff.len() - 1,
    {
        self.coeff.len() - 1
    }

    /// The zero polynomial `[0]`.
    pub fn zero() -> (r: Self)
        ensures
            r@ == seq![0nat],
    {
        let r = Self { coeff: vec![fr_from_u64(0)] };
        assert(r@ =~= seq![0nat]);
        r
    }

    /// The constant polynomial `[1]`.
    pub fn one() -> (r: Self)
        ensures
            r@ == seq![1nat],
    {
        let r = Self { coeff: vec![fr_from_u64(1)] };
        assert(r@ =~= seq![1nat]);
        r
    }

    /// Whether every coefficient is zero.
    pub fn is_zero(&self) -> (r: bool)
        ensures
            r == (forall|i: int| 0 <= i < self@.len() ==> self@[i] == 0),
    {
        let n = self.coeff.len();
        let mut i: usize = 0;
        while i < n
            invariant
                n == self.coeff.len(),
                i <= n,
                forall|j: int| 0 <= j < i ==> self@[j] == 0,
            decreases n - i,
        {
            if !self.coeff[i].is_zero() {
                assert(self@[i as int] != 0);
                return false;
            }
            i = i + 1;
        }
        true
    }

    /// The value of the polynomial at `x`.
    pub fn eval(&self, x: ScalarField) -> (r: ScalarField)
        ensures
            r.value() == peval(self@, x.value()),
    {
        let n = self.coeff.len();
        let mut acc = fr_from_u64(0);
        let mut i: usize = n;
        assert(self@.skip(n as int) =~= Seq::<nat>::empty());
        while i > 0
            invariant
                n == self.coeff.len(),
                i <= n,
                acc.value() == peval(self@.skip(i as int), x.value()),
            decreases i,
        {
            assert(self@.skip(i - 1).drop_first() =~= self@.skip(i as int));
            acc = acc.mul(&x).add(&self.coeff[i - 1]);
            i = i - 1;
        }
        assert(self@.skip(0) =~= self@);
        acc
    }
}

/// A running product sum is a field value.
pub proof fn lemma_csum_bound(a: Seq<nat>, b: Seq<nat>, k: int, n: nat)
    ensures
        csum(a, b, k, n) < fr_modulus(),
{
}

/// `n` copies of the zero element.
fn zeros(n: usize) -> (r: Vec<ScalarField>)
    ensures
        r.len() == n,
        forall|k: int| 0 <= k < n ==> #[trigger] vals(r@)[k] == 0,
{
    let mut r: Vec<ScalarField> = Vec::new();
    let mut i: usize = 0;
    while i < n
        invariant
            i <= n,
            r.len() == i,
            forall|k: int| 0 <= k < i ==> #[trigger] vals(r@)[k] == 0,
        decreases n - i,
    {
        let ghost before = vals(r@);
        let z = fr_from_u64(0);
        r.push(z);
        assert(vals(r@) =~= before.push(z.value()));
        i = i + 1;
    }
    r
}

impl Polynomial {
    /// The coefficient of `x^i`, zero beyond the last one.
    fn coeff_or_zero(&self, i: usize) -> (r: ScalarField)
        ensures
            r.value() == coef(self@, i as int),
    {
        if i < self.coeff.len() {
            self.coeff[i]
        } else {
            fr_from_u64(0)
        }
    }

    /// The sum of two polynomials.
    pub fn add(&self, x: &Self) -> (r: Self)
        ensures
            r@ == trim(padd(self@, x@)),
    {
        let n = if self.coeff.len() >= x.coeff.len() {
            self.coeff.len()
        } else {
            x.coeff.len()
        };
        let mut res: Vec<ScalarField> = Vec::new();
        let mut i: usize = 0;
        while i < n
            invariant
                n == (if self@.len() >= x@.len() { self@.len() } else { x@.len() }),
                i <= n,
                res.len() == i,
                forall|k: int| 0 <= k < i ==> #[trigger] vals(res@)[k] == fadd(coef(self@, k), coef(x@, k)),
            decreases n - i,
        {
            let a = self.coeff_or_zero(i);
            let b = x.coeff_or_zero(i);
            let ghost before = vals(res@);
            let c = a.add(&b);
            res.push(c);
            assert(vals(res@) =~= before.push(c.value()));
            i = i + 1;
        }
        assert(vals(res@) =~= padd(self@, x@));
        Self::new(res)
    }

    /// The difference of two polynomials.
    pub fn sub(&self, x: &Self) -> (r: Self)
        ensures
            r@ == trim(psub(self@, x@)),
    {
        let n = if self.coeff.len() >= x.coeff.len() {
            self.coeff.len()
        } else {
            x.coeff.len()
        };
        let mut res: Vec<ScalarField> = Vec::new();
        let mut i: usize = 0;
        while i < n
            invariant
                n == (if self@.len() >= x@.len() { self@.len() } else { x@.len() }),
                i <= n,
                res.len() == i,
                forall|k: int| 0 <= k < i ==> #[trigger] vals(res@)[k] == fsub(coef(self@, k), coef(x@, k)),
            decreases n - i,
        {
            let a = self.coeff_or_zero(i);
            let b = x.coeff_or_zero(i);
            let ghost before = vals(res@);
            let c = a.sub(&b);
            res.push(c);
            assert(vals(res@) =~= before.push(c.value()));
            i = i + 1;
        }
        assert(vals(res@) =~= psub(self@, x@));
        Self::new(res)
    }

    /// Every coefficient multiplied by `val`.
    pub fn scale(&self, val: ScalarField) -> (r: Self)
        ensures
            r@ == trim(pscale(self@, val.value())),
    {
        let n = self.coeff.len();
        let mut res: Vec<ScalarField> = Vec::new();
        let mut i: usize = 0;
        while i < n
            invariant
                n == self@.len(),
                i <= n,
                res.len() == i,
                forall|k: int| 0 <= k < i ==> #[trigger] vals(res@)[k] == fmul(self@[k], val.value()),
            decreases n - i,
        {
            let ghost before = vals(res@);
            let c = self.coeff[i].mul(&val);
            res.push(c);
            assert(vals(res@) =~= before.push(c.value()));
            i = i + 1;
        }
        assert(vals(res@) =~= pscale(self@, val.value()));
        Self::new(res)
    }

    /// The product of two polynomials.
    pub fn mul(&self, x: &Self) -> (r: Self)
        requires
            self.coeff.len() + x.coeff.len() >= 1,
            self.coeff.len() + x.coeff.len() <= usize::MAX,
        ensures
            r@ == trim(pmul(self@, x@)),
    {
        let la = self.coeff.len();
        let lb = x.coeff.len();
        let len = la + lb - 1;
        let mut res = zeros(len);
        let mut i: usize = 0;
        while i < la
            invariant
                la == self@.len(),
                lb == x@.len(),
                len == la + lb - 1,
                i <= la,
                res.len() == len,
                forall|k: int| 0 <= k < len ==> #[trigger] vals(res@)[k] == csum(self@, x@, k, i as nat),
            decreases la - i,
        {
            let mut j: usize = 0;
            while j < lb
                invariant
                    la == self@.len(),
                    lb == x@.len(),
                    len == la + lb - 1,
                    i < la,
                    j <= lb,
                    res.len() == len,
                    forall|k: int|
                        0 <= k < len ==> #[trigger] vals(res@)[k] == if i <= k < i + j {
                            csum(self@, x@, k, (i + 1) as nat)
                        } else {
                            csum(self@, x@, k, i as nat)
                        },
                decreases lb - j,
            {
                let t = self.coeff[i].mul(&x.coeff[j]);
                let cell = res[i + j].add(&t);
                let ghost before = vals(res@);
                res.set(i + j, cell);
                assert(vals(res@) =~= before.update(i + j, cell.value()));
                assert(coef(self@, i as int) == self@[i as int]);
                assert(coef(x@, (i + j) - i) == x@[j as int]);
                assert(csum(self@, x@, (i + j) as int, (i + 1) as nat) == fadd(
                    csum(self@, x@, (i + j) as int, i as nat),
                    fmul(self@[i as int], x@[j as int]),
                ));
                assert(t.value() == fmul(self@[i as int], x@[j as int]));
                assert(before[(i + j) as int] == csum(self@, x@, (i + j) as int, i as nat));
                assert(vals(res@)[(i + j) as int] == csum(self@, x@, (i + j) as int, (i + 1) as nat));
                j = j + 1;
            }
            assert forall|k: int| 0 <= k < len implies #[trigger] vals(res@)[k] == csum(self@, x@, k, (i + 1) as nat) by {
                if !(i <= k < i + lb) {
                    lemma_csum_bound(self@, x@, k, i as nat);
                    assert(coef(x@, k - i) == 0);
                    lemma_fmul_zero_one(coef(self@, i as int));
                    lemma_fadd_zero(csum(self@, x@, k, i as nat));
                    assert(csum(self@, x@, k, (i + 1) as nat) == fadd(
                        csum(self@, x@, k, i as nat),
                        fmul(coef(self@, i as int), coef(x@, k - i)),
                    ));
                }
            }
            i = i + 1;
        }
        assert(vals(res@) =~= pmul(self@, x@));
        Self::new(res)
    }
}

/// Every coefficient of `s` is zero.
pub open spec fn all_zero(s: Seq<nat>) -> bool {
    forall|i: int| 0 <= i < s.len() ==> s[i] == 0
}

impl Polynomial {
    /// Long division by a nonzero polynomial: the quotient and the remainder,
    /// with `self = quotient * divisor + remainder` and the remainder of lower
    /// degree than the divisor (or zero).
    pub fn div_rem(&self, divisor: &Self) -> (res: (Self, Self))
        requires
            !all_zero(divisor@),
            all_zero(self@) || self@.len() < divisor@.len() || divisor@.last() != 0,
        ensures
            forall|k: int| #[trigger] coef(self@, k) == fadd(conv_coef(res.0@, divisor@, k), coef(res.1@, k)),
            res.1@.len() < divisor@.len() || all_zero(res.1@),
            all_zero(self@) || self@.len() < divisor@.len() ==> res.0@ == seq![0nat] && res.1@ == self@,
            !(all_zero(self@) || self@.len() < divisor@.len()) ==> res.0@ == trim(res.0@) && res.1@ == trim(res.1@),
    {
        let ghost a = self@;
        let ghost d = divisor@;
        if self.is_zero() || self.degree() < divisor.degree() {
            let q = Self::zero();
            let r = Self { coeff: self.coeff.clone() };
            assert(r@ =~= a);
            assert forall|k: int| #[trigger] coef(a, k) == fadd(conv_coef(q@, d, k), coef(r@, k)) by {
                lemma_fmul_zero_one(coef(d, k));
                lemma_fadd_zero(0);
                assert(coef(q@, 0) == 0);
                assert(csum(q@, d, k, 0) == 0);
                assert(conv_coef(q@, d, k) == fadd(0, fmul(0, coef(d, k))));
                if 0 <= k < a.len() {
                    lemma_value_lt_modulus(self.coeff@[k]);
                }
                lemma_fadd_zero(coef(a, k));
            }
            return (q, r);
        }
        let n = divisor.coeff.len();
        let ddeg = n - 1;
        let dlead = divisor.coeff[ddeg];
        let mut rem = self.coeff.clone();
        let qlen = self.coeff.len() - n + 1;
        let mut quo = zeros(qlen);
        assert(vals(rem@) =~= a);
        assert forall|k: int| #[trigger] coef(a, k) == fadd(csum(vals(quo@), d, k, qlen as nat), coef(vals(rem@), k)) by {
            lemma_csum_zero_tail(vals(quo@), d, k, 0, qlen as nat);
            if 0 <= k < a.len() {
                lemma_value_lt_modulus(self.coeff@[k]);
            }
            lemma_fadd_zero(coef(a, k));
        }
        while rem.len() >= n && !(rem.len() == 1 && rem[0].is_zero())
            invariant
                d == divisor@,
                n == d.len(),
                n == divisor.coeff.len(),
                n >= 1,
                ddeg == n - 1,
                dlead.value() == d[n - 1],
                d[n - 1] != 0,
                1 <= rem.len() <= a.len(),
                quo.len() == qlen,
                qlen == a.len() - n + 1,
                forall|k: int| #[trigger] coef(a, k) == fadd(csum(vals(quo@), d, k, qlen as nat), coef(vals(rem@), k)),
            decreases rem.len() + (if rem.len() == 1 && vals(rem@)[0] == 0 { 0int } else { 1int }),
        {
            let ghost q0 = vals(quo@);
            let ghost r0 = vals(rem@);
            let rdeg = rem.len() - 1;
            let shift = rdeg - ddeg;
            let cf = rem[rdeg].div(&dlead);
            let q = quo[shift].add(&cf);
            quo.set(shift, q);
            assert(vals(quo@) =~= q0.update(shift as int, fadd(q0[shift as int], cf.value())));
            let mut i: usize = 0;
            while i < n
                invariant
                    d == divisor@,
                    n == d.len(),
                    n == divisor.coeff.len(),
                    shift + n == r0.len(),
                    rem.len() == r0.len(),
                    i <= n,
                    forall|k: int| #[trigger] coef(vals(rem@), k) == if shift <= k < shift + i {
                        fsub(coef(r0, k), fmul(cf.value(), coef(d, k - shift)))
                    } else {
                        coef(r0, k)
                    },
                decreases n - i,
            {
                let t = cf.mul(&divisor.coeff[i]);
                let v = rem[shift + i].sub(&t);
                let ghost before = vals(rem@);
                rem.set(shift + i, v);
                assert(vals(rem@) =~= before.update(shift + i, v.value()));
                assert(coef(d, (shift + i) - shift) == d[i as int]);
                assert(coef(before, (shift + i) as int) == coef(r0, (shift + i) as int));
                assert(d[i as int] == divisor.coeff@[i as int].value());
                assert(t.value() == fmul(cf.value(), d[i as int]));
                assert forall|k: int| #[trigger] coef(vals(rem@), k) == if shift <= k < shift + i + 1 {
                    fsub(coef(r0, k), fmul(cf.value(), coef(d, k - shift)))
                } else {
                    coef(r0, k)
                } by {
                    if k != shift + i {
                        assert(coef(vals(rem@), k) == coef(before, k));
                    }
                }
                i = i + 1;
            }
            assert forall|k: int| #[trigger] coef(a, k) == fadd(csum(vals(quo@), d, k, qlen as nat), coef(vals(rem@), k)) by {
                lemma_csum_update(q0, d, k, qlen as nat, shift as int, cf.value());
                let t = fmul(cf.value(), coef(d, k - shift));
                if !(shift <= k < shift + n) {
                    lemma_fmul_zero_one(cf.value());
                    if 0 <= k < r0.len() {
                        lemma_value_lt_modulus(rem@[k]);
                    }
                    lemma_fsub_zero(coef(r0, k));
                }
                lemma_fadd_fsub_cancel(csum(q0, d, k, qlen as nat), t, coef(r0, k));
            }
            assert(vals(rem@)[rdeg as int] == 0) by {
                assert(coef(vals(rem@), rdeg as int) == fsub(r0[rdeg as int], fmul(cf.value(), d[n - 1])));
            }
            let ghost len0 = rem.len();
            while rem.len() > 1 && rem[rem.len() - 1].is_zero()
                invariant
                    1 <= rem.len() <= len0,
                    rem.len() == len0 ==> vals(rem@)[len0 - 1] == 0,
                    forall|k: int| #[trigger] coef(a, k) == fadd(csum(vals(quo@), d, k, qlen as nat), coef(vals(rem@), k)),
                decreases rem.len(),
            {
                let ghost before = vals(rem@);
                rem.pop();
                assert(vals(rem@) =~= before.drop_last());
                assert forall|k: int| #[trigger] coef(vals(rem@), k) == coef(before, k) by {}
            }
        }
        let ghost qv = vals(quo@);
        let ghost rv = vals(rem@);
        let q = Self::new(quo);
        let r = Self::new(rem);
        proof {
            lemma_trim(qv);
            lemma_trim(rv);
            lemma_trim_idem(qv);
            lemma_trim_idem(rv);
        }
        assert forall|k: int| #[trigger] coef(a, k) == fadd(conv_coef(q@, d, k), coef(r@, k)) by {
            lemma_conv_coef_trim(qv, d, k);
        }
        (q, r)
    }
}

impl Default for Polynomial {
    /// The polynomial with no coefficients (of value zero everywhere).
    fn default() -> (r: Self)
        ensures
            r@ == Seq::<nat>::empty(),
    {
        let r = Self { coeff: Vec::new() };
        assert(r@ =~= Seq::<nat>::empty());
        r
    }
}

} // verus!
