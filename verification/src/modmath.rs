//! The mathematical model of the field operations: residues as integers,
//! reduction by the Euclidean modulo, and fast modular exponentiation.

use vstd::prelude::*;
use vstd::arithmetic::power::pow;
use vstd::arithmetic::power::lemma_pow0;
use vstd::arithmetic::power::lemma_pow1;
use vstd::arithmetic::power::lemma_pow_adds;
use vstd::arithmetic::div_mod::lemma_small_mod;
use vstd::arithmetic::div_mod::lemma_mul_mod_noop;
use vstd::arithmetic::div_mod::lemma_mul_mod_noop_left;

verus! {

/// Residue of a sum: `(a + b) mod p`, canonical in `[0, p)` for `p > 0`.
pub open spec fn add_mod(a: int, b: int, p: int) -> int {
    (a + b) % p
}

/// Residue of a difference, canonical in `[0, p)` for `p > 0` even when
/// the raw difference is negative: the modulo here is Euclidean.
pub open spec fn sub_mod(a: int, b: int, p: int) -> int {
    (a - b) % p
}

/// Residue of a product, canonical in `[0, p)` for `p > 0`.
pub open spec fn mul_mod(a: int, b: int, p: int) -> int {
    (a * b) % p
}

/// Residue of a power: `b^e mod p`.
pub open spec fn pow_mod(b: int, e: nat, p: int) -> int {
    pow(b, e) % p
}

/// The exponent that exponentiation actually works with: the given one
/// reduced into `[0, p - 2]` by the Euclidean modulo `p - 1`. By Fermat's
/// little theorem exponents only matter modulo `p - 1`, and this reduction
/// is what gives a negative exponent its meaning.
pub open spec fn reduced_exponent(e: int, p: int) -> nat
    recommends
        2 <= p,
{
    (e % (p - 1)) as nat
}

/// Fast modular exponentiation by repeated squaring: `base^e mod modulus`
/// in a number of multiplications logarithmic in `e`, every intermediate
/// product kept below `modulus^2`.
pub fn mod_exp(base: u64, e: u64, modulus: u64) -> (r: u64)
    requires
        2 <= modulus <= 0x8000_0000,
        base < modulus,
    ensures
        r < modulus,
        r as int == pow_mod(base as int, e as nat, modulus as int),
    decreases e,
{
    let ghost m: int = modulus as int;
    if e == 0 {
        proof {
            lemma_pow0(base as int);
            lemma_small_mod(1nat, modulus as nat);
        }
        1
    } else {
        let half: u64 = mod_exp(base, e / 2, modulus);
        proof {
            assert(half * half < 0x8000_0000 * 0x8000_0000) by (nonlinear_arith)
                requires
                    half < 0x8000_0000,
            {}
        }
        let sq: u64 = (half * half) % modulus;
        proof {
            let k: nat = (e / 2) as nat;
            lemma_mul_mod_noop(pow(base as int, k), pow(base as int, k), m);
            lemma_pow_adds(base as int, k, k);
            assert(sq as int == pow(base as int, (k + k) as nat) % m);
            assert(e as nat == if e % 2 == 1 { (k + k + 1) as nat } else { (k + k) as nat });
        }
        if e % 2 == 1 {
            proof {
                assert(sq * base < 0x8000_0000 * 0x8000_0000) by (nonlinear_arith)
                    requires
                        sq < 0x8000_0000,
                        base < 0x8000_0000,
                {}
            }
            let r: u64 = (sq * base) % modulus;
            proof {
                let k: nat = (e / 2) as nat;
                let p2k: int = pow(base as int, (k + k) as nat);
                lemma_mul_mod_noop_left(p2k, base as int, m);
                assert(r as int == (p2k * base) % m);
                lemma_pow1(base as int);
                lemma_pow_adds(base as int, (k + k) as nat, 1nat);
                assert(p2k * base == pow(base as int, (k + k + 1) as nat));
            }
            r
        } else {
            sq
        }
    }
}

} // verus!
