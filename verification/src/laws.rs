//! Algebraic laws of the field operations, stated over the same
//! mathematical model that the operations' own contracts use.

use vstd::prelude::*;
use vstd::arithmetic::div_mod::lemma_small_mod;
use vstd::arithmetic::div_mod::lemma_mod_add_multiples_vanish;
use vstd::arithmetic::div_mod::lemma_mod_self_0;
use vstd::arithmetic::div_mod::lemma_mul_mod_noop_right;
use vstd::arithmetic::power::pow;
use vstd::arithmetic::power::lemma_pow0;
use vstd::arithmetic::power::lemma_pow1;
use vstd::arithmetic::power::lemma_pow_adds;
use crate::fermat::is_prime;
use crate::fermat::lemma_fermat_little_theorem;
use crate::field::FieldElement;
use crate::modmath::add_mod;
use crate::modmath::sub_mod;
use crate::modmath::mul_mod;
use crate::modmath::pow_mod;
use crate::modmath::reduced_exponent;

verus! {

/// Subtracting an element from itself yields the zero residue: the
/// element `sub` returns for `a.sub(a)` carries residue `0`.
pub proof fn lemma_sub_self_is_zero(a: FieldElement)
    requires
        a.wf(),
    ensures
        sub_mod(a.num_spec(), a.num_spec(), a.prime_spec()) == 0,
{
    lemma_small_mod(0nat, a.prime_spec() as nat);
}

/// Adding the zero element changes nothing: the element `add` returns
/// for `a.add(zero)` carries the residue of `a` itself.
pub proof fn lemma_add_zero_identity(a: FieldElement, zero: FieldElement)
    requires
        a.wf(),
        zero.wf(),
        zero.num_spec() == 0,
        zero.prime_spec() == a.prime_spec(),
    ensures
        add_mod(a.num_spec(), zero.num_spec(), a.prime_spec()) == a.num_spec(),
{
    lemma_small_mod(a.num_spec() as nat, a.prime_spec() as nat);
}

/// A negative exponent means the same as its positive counterpart
/// `p - 1 - n`: both reduce to the same exponent modulo `p - 1`, so
/// `a.pow(-n)` and `a.pow(p - 1 - n)` return the same element.
pub proof fn lemma_pow_negative_exponent(a: FieldElement, n: int)
    requires
        a.wf(),
        2 <= a.prime_spec(),
    ensures
        reduced_exponent(-n, a.prime_spec()) == reduced_exponent(
            a.prime_spec() - 1 - n,
            a.prime_spec(),
        ),
        pow_mod(a.num_spec(), reduced_exponent(-n, a.prime_spec()), a.prime_spec()) == pow_mod(
            a.num_spec(),
            reduced_exponent(a.prime_spec() - 1 - n, a.prime_spec()),
            a.prime_spec(),
        ),
{
    lemma_mod_add_multiples_vanish(-n, a.prime_spec() - 1);
}

/// Fermat consistency: for an element of a prime field with nonzero
/// residue, raising to the power `p - 1` yields residue `1`. This holds
/// twice over: the element `pow` returns for the exponent `p - 1`
/// carries residue `1` (the exponent reduces to `0`), and the unreduced
/// power `num^(p-1) mod p` is itself `1`, by Fermat's little theorem.
pub proof fn lemma_fermat_consistency(a: FieldElement)
    requires
        a.wf(),
        is_prime(a.prime_spec()),
        a.num_spec() != 0,
    ensures
        pow_mod(
            a.num_spec(),
            reduced_exponent(a.prime_spec() - 1, a.prime_spec()),
            a.prime_spec(),
        ) == 1,
        pow_mod(a.num_spec(), (a.prime_spec() - 1) as nat, a.prime_spec()) == 1,
{
    let v = a.num_spec();
    let p = a.prime_spec();
    lemma_mod_self_0(p - 1);
    assert(reduced_exponent(p - 1, p) == 0);
    lemma_pow0(v);
    lemma_small_mod(1nat, p as nat);
    lemma_fermat_little_theorem(p, v);
}

/// Multiplicative inverse: for an element of a prime field with nonzero
/// residue, dividing the element by itself yields residue `1` — that is,
/// `num * num^(p-2) mod p == 1`, the residue `true_div` returns for
/// `a.true_div(a)`.
pub proof fn lemma_true_div_self_is_one(a: FieldElement)
    requires
        a.wf(),
        is_prime(a.prime_spec()),
        a.num_spec() != 0,
    ensures
        mul_mod(
            a.num_spec(),
            pow_mod(a.num_spec(), (a.prime_spec() - 2) as nat, a.prime_spec()),
            a.prime_spec(),
        ) == 1,
{
    let v = a.num_spec();
    let p = a.prime_spec();
    lemma_mul_mod_noop_right(v, pow(v, (p - 2) as nat), p);
    lemma_pow1(v);
    lemma_pow_adds(v, 1nat, (p - 2) as nat);
    assert(v * pow(v, (p - 2) as nat) == pow(v, (p - 1) as nat));
    lemma_fermat_little_theorem(p, v);
}

} // verus!
