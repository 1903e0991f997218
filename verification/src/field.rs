//! The finite-field element: a residue together with its prime modulus,
//! kept in the canonical range `[0, prime)` from construction on.

use vstd::prelude::*;
use vstd::arithmetic::div_mod::lemma_small_mod;
use vstd::arithmetic::div_mod::lemma_mod_add_multiples_vanish;
use vstd::arithmetic::div_mod::lemma_fundamental_div_mod;
use vstd::arithmetic::div_mod::lemma_fundamental_div_mod_converse_mod;
use crate::digits::dec_digits;
use crate::digits::push_decimal;
use crate::modmath::add_mod;
use crate::modmath::sub_mod;
use crate::modmath::mul_mod;
use crate::modmath::pow_mod;
use crate::modmath::reduced_exponent;
use crate::modmath::mod_exp;

verus! {

/// Why an operation on field elements failed.
#[derive(Clone, Copy, Debug, PartialEq, Eq, Structural)]
pub enum FieldError {
    /// The residue handed to the constructor lies outside `[0, prime - 1]`.
    /// The offending value and the modulus that bounds the range are carried.
    OutOfRange { num: i32, prime: i32 },
    /// A binary operation was asked of two elements with different moduli.
    FieldMismatch,
    /// Division by the zero element of the field.
    DivisionByZero,
}

/// An element of the finite field of the given prime order.
///
/// Immutable once constructed; `new` is the only way to obtain one,
/// and it enforces the range invariant `0 <= num < prime`.
#[derive(Clone, Copy, Debug, PartialEq, Eq, Structural)]
pub struct FieldElement {
    num: i32,
    prime: i32,
}

impl FieldElement {
    /// The residue, as a mathematical integer.
    pub closed spec fn num_spec(self) -> int {
        self.num as int
    }

    /// The field's modulus, as a mathematical integer.
    pub closed spec fn prime_spec(self) -> int {
        self.prime as int
    }

    /// The range invariant every constructed element satisfies.
    pub open spec fn wf(self) -> bool {
        0 <= self.num_spec() < self.prime_spec()
    }

    /// Validated construction: accepts exactly the residues in `[0, prime)`.
    pub fn new(num: i32, prime: i32) -> (r: Result<FieldElement, FieldError>)
        ensures
            r is Ok <==> 0 <= num < prime,
            r is Ok ==> r->Ok_0.num_spec() == num && r->Ok_0.prime_spec() == prime
                && r->Ok_0.wf(),
            r is Err ==> r == Result::<FieldElement, FieldError>::Err(
                FieldError::OutOfRange { num, prime },
            ),
    {
        if num >= prime || num < 0 {
            return Err(FieldError::OutOfRange { num, prime });
        }
        Ok(FieldElement { num, prime })
    }

    /// Equality against a possibly absent element: true exactly when the
    /// other element is present and agrees on both residue and modulus.
    pub fn eq(&self, other: &Option<FieldElement>) -> (r: bool)
        ensures
            r <==> (other is Some && self.num_spec() == other->0.num_spec()
                && self.prime_spec() == other->0.prime_spec()),
    {
        match other {
            None => false,
            Some(o) => self.num == o.num && self.prime == o.prime,
        }
    }

    /// Inequality against a possibly absent element: an absent element is
    /// taken to differ from every present one.
    pub fn ne(&self, other: &Option<FieldElement>) -> (r: bool)
        ensures
            r <==> (other is None || self.num_spec() != other->0.num_spec()
                || self.prime_spec() != other->0.prime_spec()),
    {
        match other {
            None => true,
            Some(o) => self.num != o.num || self.prime != o.prime,
        }
    }

    /// The canonical human-readable form `"<num>,<prime>"`.
    pub fn representation(&self) -> (r: String)
        requires
            self.wf(),
        ensures
            r@ == dec_digits(self.num_spec()) + seq![','] + dec_digits(self.prime_spec()),
    {
        let mut s: String = String::new();
        push_decimal(&mut s, self.num as u32);
        s.append(",");
        proof {
            reveal_strlit(",");
            assert(","@ =~= seq![',']);
        }
        push_decimal(&mut s, self.prime as u32);
        s
    }

    /// Field addition: the sum of the residues, reduced into `[0, prime)`.
    /// Fails exactly when the two elements live in different fields.
    pub fn add(&self, other: &FieldElement) -> (r: Result<FieldElement, FieldError>)
        requires
            self.wf(),
            other.wf(),
        ensures
            r is Ok <==> self.prime_spec() == other.prime_spec(),
            r is Ok ==> r->Ok_0.prime_spec() == self.prime_spec() && r->Ok_0.num_spec()
                == add_mod(self.num_spec(), other.num_spec(), self.prime_spec())
                && r->Ok_0.wf(),
            r is Err ==> r == Result::<FieldElement, FieldError>::Err(FieldError::FieldMismatch),
    {
        if self.prime != other.prime {
            return Err(FieldError::FieldMismatch);
        }
        let sum: u64 = self.num as u64 + other.num as u64;
        let n: u64 = sum % (self.prime as u64);
        Ok(FieldElement { num: n as i32, prime: self.prime })
    }

    /// Field subtraction: the difference of the residues, reduced into
    /// `[0, prime)` by the Euclidean modulo, so a negative raw difference
    /// still yields a canonical residue.
    /// Fails exactly when the two elements live in different fields.
    pub fn sub(&self, other: &FieldElement) -> (r: Result<FieldElement, FieldError>)
        requires
            self.wf(),
            other.wf(),
        ensures
            r is Ok <==> self.prime_spec() == other.prime_spec(),
            r is Ok ==> r->Ok_0.prime_spec() == self.prime_spec() && r->Ok_0.num_spec()
                == sub_mod(self.num_spec(), other.num_spec(), self.prime_spec())
                && r->Ok_0.wf(),
            r is Err ==> r == Result::<FieldElement, FieldError>::Err(FieldError::FieldMismatch),
    {
        if self.prime != other.prime {
            return Err(FieldError::FieldMismatch);
        }
        let a: i64 = self.num as i64;
        let b: i64 = other.num as i64;
        let p: i64 = self.prime as i64;
        let n: i64 = if a >= b {
            a - b
        } else {
            a - b + p
        };
        proof {
            if a >= b {
                lemma_small_mod((a - b) as nat, p as nat);
            } else {
                lemma_mod_add_multiples_vanish(a - b, p as int);
                lemma_small_mod((a - b + p) as nat, p as nat);
            }
        }
        Ok(FieldElement { num: n as i32, prime: self.prime })
    }

    /// Field multiplication: the product of the residues, reduced into
    /// `[0, prime)`; the intermediate product is computed in a width
    /// wide enough to hold `prime^2`.
    /// Fails exactly when the two elements live in different fields.
    pub fn mul(&self, other: &FieldElement) -> (r: Result<FieldElement, FieldError>)
        requires
            self.wf(),
            other.wf(),
        ensures
            r is Ok <==> self.prime_spec() == other.prime_spec(),
            r is Ok ==> r->Ok_0.prime_spec() == self.prime_spec() && r->Ok_0.num_spec()
                == mul_mod(self.num_spec(), other.num_spec(), self.prime_spec())
                && r->Ok_0.wf(),
            r is Err ==> r == Result::<FieldElement, FieldError>::Err(FieldError::FieldMismatch),
    {
        if self.prime != other.prime {
            return Err(FieldError::FieldMismatch);
        }
        proof {
            assert((self.num as u64) * (other.num as u64) < 0x8000_0000 * 0x8000_0000)
                by (nonlinear_arith)
                requires
                    (self.num as u64) < 0x8000_0000,
                    (other.num as u64) < 0x8000_0000,
            {}
        }
        let prod: u64 = (self.num as u64) * (other.num as u64);
        let n: u64 = prod % (self.prime as u64);
        Ok(FieldElement { num: n as i32, prime: self.prime })
    }

    /// Field exponentiation, defined for any integer exponent, negative
    /// ones included: the exponent is first reduced by the Euclidean
    /// modulo `prime - 1` (exponents only matter modulo `prime - 1`, by
    /// Fermat's little theorem), then the power is taken by repeated
    /// squaring. Never fails; the modulus must be at least 2, as every
    /// prime is.
    pub fn pow(&self, exponent: i32) -> (r: FieldElement)
        requires
            self.wf(),
            2 <= self.prime_spec(),
        ensures
            r.prime_spec() == self.prime_spec(),
            r.num_spec() == pow_mod(
                self.num_spec(),
                reduced_exponent(exponent as int, self.prime_spec()),
                self.prime_spec(),
            ),
            r.wf(),
    {
        let p: u64 = self.prime as u64;
        let pm1: u64 = p - 1;
        let e: u64 = if exponent >= 0 {
            (exponent as u64) % pm1
        } else {
            let neg: u64 = (-(exponent as i64)) as u64;
            let rem: u64 = neg % pm1;
            if rem == 0 {
                0
            } else {
                pm1 - rem
            }
        };
        proof {
            let x: int = exponent as int;
            let d: int = pm1 as int;
            if exponent >= 0 {
                assert(e as int == x % d);
            } else {
                let neg: int = -x;
                lemma_fundamental_div_mod(neg, d);
                let q1: int = neg / d;
                let rm: int = neg % d;
                if rm == 0 {
                    assert(x == (-q1) * d + 0) by (nonlinear_arith)
                        requires
                            neg == d * q1 + rm,
                            rm == 0,
                            x == -neg,
                    {}
                    lemma_fundamental_div_mod_converse_mod(x, d, -q1, 0);
                } else {
                    assert(x == (-q1 - 1) * d + (d - rm)) by (nonlinear_arith)
                        requires
                            neg == d * q1 + rm,
                            x == -neg,
                    {}
                    lemma_fundamental_div_mod_converse_mod(x, d, -q1 - 1, d - rm);
                }
                assert(e as int == x % d);
            }
        }
        let n: u64 = mod_exp(self.num as u64, e, p);
        FieldElement { num: n as i32, prime: self.prime }
    }

    /// Field division, via the modular inverse of the divisor: for prime
    /// modulus `p`, Fermat's little theorem makes `b^(p-2)` the inverse
    /// of a nonzero `b`, and the quotient is `a * b^(p-2) mod p`.
    /// Fails with `FieldMismatch` when the elements live in different
    /// fields, and with `DivisionByZero` when the divisor is the zero
    /// element.
    pub fn true_div(&self, other: &FieldElement) -> (r: Result<FieldElement, FieldError>)
        requires
            self.wf(),
            other.wf(),
            2 <= self.prime_spec(),
        ensures
            r is Ok <==> (self.prime_spec() == other.prime_spec() && other.num_spec() != 0),
            r is Ok ==> r->Ok_0.prime_spec() == self.prime_spec() && r->Ok_0.num_spec()
                == mul_mod(
                self.num_spec(),
                pow_mod(other.num_spec(), (self.prime_spec() - 2) as nat, self.prime_spec()),
                self.prime_spec(),
            ) && r->Ok_0.wf(),
            self.prime_spec() != other.prime_spec() ==> r
                == Result::<FieldElement, FieldError>::Err(FieldError::FieldMismatch),
            self.prime_spec() == other.prime_spec() && other.num_spec() == 0 ==> r
                == Result::<FieldElement, FieldError>::Err(FieldError::DivisionByZero),
    {
        if self.prime != other.prime {
            return Err(FieldError::FieldMismatch);
        }
        if other.num == 0 {
            return Err(FieldError::DivisionByZero);
        }
        let p: u64 = self.prime as u64;
        let inv: u64 = mod_exp(other.num as u64, p - 2, p);
        proof {
            assert((self.num as u64) * inv < 0x8000_0000 * 0x8000_0000) by (nonlinear_arith)
                requires
                    (self.num as u64) < 0x8000_0000,
                    inv < 0x8000_0000,
            {}
        }
        let n: u64 = ((self.num as u64) * inv) % p;
        Ok(FieldElement { num: n as i32, prime: self.prime })
    }
}


/// Two elements are equal exactly when both the residue and the modulus
/// agree: the componentwise reading of structural equality.
pub proof fn lemma_eq_is_componentwise(a: FieldElement, b: FieldElement)
    ensures
        (a == b) <==> (a.num_spec() == b.num_spec() && a.prime_spec() == b.prime_spec()),
{
}

} // verus!
