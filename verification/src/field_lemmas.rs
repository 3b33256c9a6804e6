//! Laws of the field operations on representatives in `[0, r)`.

use crate::field::{fadd, fmul, fneg, fr_modulus, fsub};
use vstd::arithmetic::div_mod::{
    lemma_add_mod_noop, lemma_mod_bound, lemma_mod_twice, lemma_mul_mod_noop_left,
    lemma_mul_mod_noop_right, lemma_small_mod, lemma_sub_mod_noop,
};
use vstd::arithmetic::mul::{
    lemma_mul_is_associative, lemma_mul_is_commutative, lemma_mul_is_distributive_add,
    lemma_mul_is_distributive_sub,
};
use vstd::prelude::*;

verus! {

proof fn lemma_mod_add_left(x: int, y: int)
    ensures
        ((x % (fr_modulus() as int)) + y) % (fr_modulus() as int) == (x + y) % (fr_modulus() as int),
{
    let p = fr_modulus() as int;
    lemma_add_mod_noop(x % p, y, p);
    lemma_mod_twice(x, p);
    lemma_add_mod_noop(x, y, p);
}

proof fn lemma_mod_add_right(x: int, y: int)
    ensures
        (x + (y % (fr_modulus() as int))) % (fr_modulus() as int) == (x + y) % (fr_modulus() as int),
{
    lemma_mod_add_left(y, x);
}

proof fn lemma_mod_sub_left(x: int, y: int)
    ensures
        ((x % (fr_modulus() as int)) - y) % (fr_modulus() as int) == (x - y) % (fr_modulus() as int),
{
    let p = fr_modulus() as int;
    lemma_sub_mod_noop(x % p, y, p);
    lemma_mod_twice(x, p);
    lemma_sub_mod_noop(x, y, p);
}

proof fn lemma_mod_sub_right(x: int, y: int)
    ensures
        (x - (y % (fr_modulus() as int))) % (fr_modulus() as int) == (x - y) % (fr_modulus() as int),
{
    let p = fr_modulus() as int;
    lemma_sub_mod_noop(x, y % p, p);
    lemma_mod_twice(y, p);
    lemma_sub_mod_noop(x, y, p);
}

/// Results of the field operations are representatives.
pub proof fn lemma_ops_bound(a: nat, b: nat)
    ensures
        fadd(a, b) < fr_modulus(),
        fmul(a, b) < fr_modulus(),
        fsub(a, b) < fr_modulus(),
        fneg(a) < fr_modulus(),
{
    let p = fr_modulus() as int;
    lemma_mod_bound(a - b, p);
    lemma_mod_bound(0 - a, p);
}

/// Addition commutes.
pub proof fn lemma_fadd_comm(a: nat, b: nat)
    ensures
        fadd(a, b) == fadd(b, a),
{
}

/// Addition associates.
pub proof fn lemma_fadd_assoc(a: nat, b: nat, c: nat)
    ensures
        fadd(fadd(a, b), c) == fadd(a, fadd(b, c)),
{
    lemma_mod_add_left(a + b as int, c as int);
    lemma_mod_add_right(a as int, b + c as int);
}

/// Zero is neutral for addition.
pub proof fn lemma_fadd_zero(a: nat)
    requires
        a < fr_modulus(),
    ensures
        fadd(a, 0) == a,
        fadd(0, a) == a,
{
    lemma_small_mod(a, fr_modulus());
}

/// Multiplication commutes.
pub proof fn lemma_fmul_comm(a: nat, b: nat)
    ensures
        fmul(a, b) == fmul(b, a),
{
    lemma_mul_is_commutative(a as int, b as int);
}

/// Multiplication associates.
pub proof fn lemma_fmul_assoc(a: nat, b: nat, c: nat)
    ensures
        fmul(fmul(a, b), c) == fmul(a, fmul(b, c)),
{
    let p = fr_modulus() as int;
    lemma_mul_mod_noop_left(a * b as int, c as int, p);
    lemma_mul_mod_noop_right(a as int, b * c as int, p);
    lemma_mul_is_associative(a as int, b as int, c as int);
}

/// Multiplication distributes over addition.
pub proof fn lemma_fmul_distrib(a: nat, b: nat, c: nat)
    ensures
        fmul(a, fadd(b, c)) == fadd(fmul(a, b), fmul(a, c)),
        fmul(fadd(b, c), a) == fadd(fmul(b, a), fmul(c, a)),
{
    let p = fr_modulus() as int;
    lemma_mul_mod_noop_right(a as int, b + c as int, p);
    lemma_mul_is_distributive_add(a as int, b as int, c as int);
    lemma_add_mod_noop(a * b as int, a * c as int, p);
    lemma_mul_is_commutative(a as int, fadd(b, c) as int);
    lemma_mul_is_commutative(a as int, b as int);
    lemma_mul_is_commutative(a as int, c as int);
}

/// Multiplication distributes over subtraction.
pub proof fn lemma_fmul_distrib_sub(a: nat, b: nat, c: nat)
    ensures
        fmul(a, fsub(b, c)) == fsub(fmul(a, b), fmul(a, c)),
{
    let p = fr_modulus() as int;
    lemma_mod_bound(b - c, p);
    lemma_mul_mod_noop_right(a as int, b - c, p);
    lemma_mul_is_distributive_sub(a as int, b as int, c as int);
    lemma_sub_mod_noop(a * b as int, a * c as int, p);
    lemma_mod_sub_left(a * b as int, (a * c as int) % p);
    lemma_mod_sub_right(a * b as int, a * c as int);
}

/// Zero absorbs multiplication; one is neutral.
pub proof fn lemma_fmul_zero_one(a: nat)
    ensures
        fmul(a, 0) == 0,
        fmul(0, a) == 0,
        a < fr_modulus() ==> fmul(a, 1) == a,
        a < fr_modulus() ==> fmul(1, a) == a,
{
    if a < fr_modulus() {
        lemma_small_mod(a, fr_modulus());
    }
}

/// Adding and then subtracting the same element cancels.
pub proof fn lemma_fadd_fsub_cancel(c: nat, t: nat, r: nat)
    ensures
        fadd(fadd(c, t), fsub(r, t)) == fadd(c, r),
{
    let p = fr_modulus() as int;
    lemma_mod_bound(r - t, p);
    lemma_mod_add_left(c + t as int, fsub(r, t) as int);
    lemma_mod_add_right(c + t as int, r - t);
}

/// Subtracting an element from itself gives zero.
pub proof fn lemma_fsub_self(a: nat)
    ensures
        fsub(a, a) == 0,
{
}

/// Subtracting zero from a representative leaves it.
pub proof fn lemma_fsub_zero(a: nat)
    requires
        a < fr_modulus(),
    ensures
        fsub(a, 0) == a,
{
    lemma_small_mod(a, fr_modulus());
}

/// Subtraction is addition of the negation.
pub proof fn lemma_fsub_is_add_neg(a: nat, b: nat)
    ensures
        fsub(a, b) == fadd(a, fneg(b)),
{
    let p = fr_modulus() as int;
    lemma_mod_bound(0 - b, p);
    lemma_mod_add_right(a as int, 0 - b);
}

/// A difference added back to the subtrahend gives the minuend.
pub proof fn lemma_fsub_fadd(a: nat, b: nat)
    requires
        a < fr_modulus(),
    ensures
        fadd(fsub(a, b), b) == a,
{
    let p = fr_modulus() as int;
    lemma_mod_bound(a - b, p);
    lemma_mod_add_left(a - b, b as int);
    lemma_small_mod(a, fr_modulus());
}

/// Sums of four elements may be regrouped.
pub proof fn lemma_fadd_swap4(a: nat, b: nat, c: nat, d: nat)
    ensures
        fadd(fadd(a, b), fadd(c, d)) == fadd(fadd(a, c), fadd(b, d)),
{
    lemma_mod_add_left(a + b as int, fadd(c, d) as int);
    lemma_mod_add_right(a + b as int, c + d as int);
    lemma_mod_add_left(a + c as int, fadd(b, d) as int);
    lemma_mod_add_right(a + c as int, b + d as int);
}

/// A sum of two differences is the difference of the sums.
pub proof fn lemma_fsub_interchange(a: nat, b: nat, c: nat, d: nat)
    ensures
        fadd(fsub(a, b), fsub(c, d)) == fsub(fadd(a, c), fadd(b, d)),
{
    let p = fr_modulus() as int;
    lemma_mod_bound(a - b, p);
    lemma_mod_bound(c - d, p);
    lemma_mod_add_left(a - b, fsub(c, d) as int);
    lemma_mod_add_right(a - b, c - d);
    lemma_mod_sub_left(a + c as int, fadd(b, d) as int);
    lemma_mod_sub_right(a + c as int, b + d as int);
}

} // verus!
