//! Fermat's little theorem, proved from first principles: for a prime
//! `p` and a residue `a` not divisible by `p`, `a^(p-1) mod p == 1`.
//! The proof is the classical permutation argument: multiplication by
//! `a` permutes the nonzero residues, so the product of `a*1, ..,
//! a*(p-1)` equals `(p-1)!` modulo `p`, and the factor `a^(p-1)` can be
//! cancelled because `(p-1)!` is not divisible by `p`.

use vstd::prelude::*;
use vstd::arithmetic::div_mod::lemma_fundamental_div_mod;
use vstd::arithmetic::div_mod::lemma_mod_bound;
use vstd::arithmetic::div_mod::lemma_mod_multiples_basic;
use vstd::arithmetic::div_mod::lemma_mod_multiples_vanish;
use vstd::arithmetic::div_mod::lemma_mul_mod_noop_left;
use vstd::arithmetic::div_mod::lemma_mul_mod_noop_right;
use vstd::arithmetic::div_mod::lemma_small_mod;
use vstd::arithmetic::div_mod::lemma_sub_mod_noop;
use vstd::arithmetic::div_mod::lemma_mul_mod_noop;
use vstd::arithmetic::power::pow;
use vstd::arithmetic::power::lemma_pow0;
use vstd::arithmetic::power::lemma_pow1;
use vstd::arithmetic::power::lemma_pow_adds;
use crate::modmath::pow_mod;

verus! {

/// Primality, stated directly: no integer in `[2, p)` divides `p`.
pub open spec fn is_prime(p: int) -> bool {
    2 <= p && forall|d: int| 2 <= d < p ==> #[trigger] (p % d) != 0
}

/// A prime has no zero divisors: the product of two residues from
/// `(0, p)` is never divisible by `p`. Proved by the classical descent:
/// replace `a` by `p mod a`, which is smaller and nonzero.
pub proof fn lemma_no_zero_divisors(p: int, a: int, b: int)
    requires
        is_prime(p),
        0 < a < p,
        0 < b < p,
    ensures
        (a * b) % p != 0,
    decreases a,
{
    if a == 1 {
        assert(a * b == b) by (nonlinear_arith)
            requires
                a == 1,
        {}
        lemma_small_mod(b as nat, p as nat);
    } else {
        assert(p % a != 0);
        lemma_fundamental_div_mod(p, a);
        lemma_mod_bound(p, a);
        let q = p / a;
        let r = p % a;
        if (a * b) % p == 0 {
            lemma_fundamental_div_mod(a * b, p);
            let k = (a * b) / p;
            assert(a * b == p * k);
            assert(r * b == (b - q * k) * p) by (nonlinear_arith)
                requires
                    p == a * q + r,
                    a * b == p * k,
            {}
            lemma_mod_multiples_basic(b - q * k, p);
            assert(((b - q * k) * p) % p == 0);
            assert((r * b) % p == 0);
            lemma_no_zero_divisors(p, r, b);
            assert(false);
        }
    }
}

/// Multiplication by a nonzero residue is cancellable modulo a prime.
pub proof fn lemma_mul_cancel(p: int, x: int, y: int, c: int)
    requires
        is_prime(p),
        0 <= x < p,
        0 <= y < p,
        0 < c < p,
        (x * c) % p == (y * c) % p,
    ensures
        x == y,
{
    if x != y {
        let hi = if x > y { x } else { y };
        let lo = if x > y { y } else { x };
        lemma_sub_mod_noop(hi * c, lo * c, p);
        lemma_small_mod(0nat, p as nat);
        assert((hi * c - lo * c) % p == 0);
        assert((hi - lo) * c == hi * c - lo * c) by (nonlinear_arith) {}
        lemma_no_zero_divisors(p, hi - lo, c);
        assert(false);
    }
}

/// Every nonzero residue has a multiplicative inverse modulo a prime,
/// produced here by the same descent that drives `lemma_no_zero_divisors`:
/// an inverse of `p mod a` yields an inverse of `a`.
pub proof fn lemma_inverse_exists(p: int, a: int) -> (x: int)
    requires
        is_prime(p),
        0 < a < p,
    ensures
        0 < x < p,
        (a * x) % p == 1,
    decreases a,
{
    if a == 1 {
        lemma_small_mod(1nat, p as nat);
        1
    } else {
        assert(p % a != 0);
        lemma_fundamental_div_mod(p, a);
        lemma_mod_bound(p, a);
        let q = p / a;
        let r = p % a;
        let y = lemma_inverse_exists(p, r);
        assert(r * y == p * y + (-(q * a * y))) by (nonlinear_arith)
            requires
                p == a * q + r,
        {}
        lemma_mod_multiples_vanish(y, -(q * a * y), p);
        assert((-(q * a * y)) % p == 1);
        let z = (-(q * y)) % p;
        lemma_mod_bound(-(q * y), p);
        lemma_mul_mod_noop_right(a, -(q * y), p);
        assert(a * (-(q * y)) == -(q * a * y)) by (nonlinear_arith) {}
        assert((a * z) % p == 1);
        if z == 0 {
            lemma_small_mod(0nat, p as nat);
            assert(false);
        }
        z
    }
}

/// The product of the integers in a sequence.
pub open spec fn seq_prod(s: Seq<int>) -> int
    decreases s.len(),
{
    if s.len() == 0 {
        1
    } else {
        seq_prod(s.drop_last()) * s.last()
    }
}

/// Removing one element divides the product: the product of a sequence
/// is the removed element times the product of the rest.
pub proof fn lemma_seq_prod_remove(s: Seq<int>, i: int)
    requires
        0 <= i < s.len(),
    ensures
        seq_prod(s) == seq_prod(s.remove(i)) * s[i],
    decreases s.len(),
{
    if i == s.len() - 1 {
        assert(s.remove(i) =~= s.drop_last());
    } else {
        let d = s.drop_last();
        lemma_seq_prod_remove(d, i);
        assert(s.remove(i).drop_last() =~= d.remove(i));
        assert(s.remove(i).last() == s.last());
        assert(seq_prod(d.remove(i)) * s[i] * s.last() == seq_prod(d.remove(i)) * s.last() * s[i])
            by (nonlinear_arith)
        {}
    }
}

/// Two sequences that hold the same integers with the same multiplicities
/// have the same product.
pub proof fn lemma_seq_prod_permutation(s: Seq<int>, t: Seq<int>)
    requires
        s.to_multiset() == t.to_multiset(),
    ensures
        seq_prod(s) == seq_prod(t),
    decreases s.len(),
{
    s.to_multiset_ensures();
    t.to_multiset_ensures();
    if s.len() == 0 {
        assert(t.len() == 0);
    } else {
        let x = s.last();
        assert(s.contains(x));
        assert(t.to_multiset().count(x) > 0);
        assert(t.contains(x));
        let j = t.index_of(x);
        assert(s.remove(s.len() - 1) =~= s.drop_last());
        assert(s.drop_last().to_multiset() == s.to_multiset().remove(x));
        assert(t.remove(j).to_multiset() == t.to_multiset().remove(x));
        lemma_seq_prod_permutation(s.drop_last(), t.remove(j));
        lemma_seq_prod_remove(t, j);
    }
}

/// The nonzero residues `1, .., n`, in order.
pub open spec fn id_seq(n: int) -> Seq<int> {
    Seq::new(n as nat, |i: int| i + 1)
}

/// The residues `a*1 mod p, .., a*n mod p`, in order.
pub open spec fn mul_map_seq(a: int, p: int, n: int) -> Seq<int> {
    Seq::new(n as nat, |i: int| (a * (i + 1)) % p)
}

/// The product of `a*1 mod p, .., a*n mod p` is `a^n * n!` modulo `p`.
proof fn lemma_prod_shift(a: int, p: int, n: int)
    requires
        2 <= p,
        0 <= n,
    ensures
        seq_prod(mul_map_seq(a, p, n)) % p == (pow(a, n as nat) * seq_prod(id_seq(n))) % p,
    decreases n,
{
    let m = mul_map_seq(a, p, n);
    let t = id_seq(n);
    if n == 0 {
        assert(m.len() == 0);
        assert(t.len() == 0);
        lemma_pow0(a);
        assert(pow(a, 0) * 1 == 1) by (nonlinear_arith)
            requires
                pow(a, 0) == 1,
        {}
    } else {
        lemma_prod_shift(a, p, n - 1);
        assert(m.drop_last() =~= mul_map_seq(a, p, n - 1));
        assert(t.drop_last() =~= id_seq(n - 1));
        let mp = seq_prod(mul_map_seq(a, p, n - 1));
        let tp = seq_prod(id_seq(n - 1));
        let pw = pow(a, (n - 1) as nat);
        assert(m.last() == (a * n) % p);
        assert(t.last() == n);
        assert(seq_prod(m) == mp * ((a * n) % p));
        assert(seq_prod(t) == tp * n);
        lemma_mul_mod_noop_right(mp, a * n, p);
        assert(seq_prod(m) % p == (mp * (a * n)) % p);
        lemma_mul_mod_noop_left(mp, a * n, p);
        assert(seq_prod(m) % p == ((mp % p) * (a * n)) % p);
        assert(mp % p == (pw * tp) % p);
        lemma_mul_mod_noop_left(pw * tp, a * n, p);
        assert(seq_prod(m) % p == ((pw * tp) * (a * n)) % p);
        lemma_pow1(a);
        lemma_pow_adds(a, (n - 1) as nat, 1nat);
        assert(pow(a, n as nat) == pw * a);
        assert((pw * tp) * (a * n) == (pw * a) * (tp * n)) by (nonlinear_arith) {}
        assert(seq_prod(m) % p == (pow(a, n as nat) * seq_prod(t)) % p);
    }
}

/// The product `1 * 2 * .. * n` is not divisible by a prime beyond `n`.
proof fn lemma_id_prod_nonzero(p: int, n: int)
    requires
        is_prime(p),
        0 <= n < p,
    ensures
        seq_prod(id_seq(n)) % p != 0,
    decreases n,
{
    if n == 0 {
        assert(id_seq(0).len() == 0);
        lemma_small_mod(1nat, p as nat);
    } else {
        lemma_id_prod_nonzero(p, n - 1);
        let tp = seq_prod(id_seq(n - 1));
        assert(id_seq(n).drop_last() =~= id_seq(n - 1));
        assert(id_seq(n).last() == n);
        assert(seq_prod(id_seq(n)) == tp * n);
        lemma_mod_bound(tp, p);
        lemma_mul_mod_noop_left(tp, n, p);
        lemma_no_zero_divisors(p, tp % p, n);
        assert(seq_prod(id_seq(n)) % p != 0);
    }
}

/// Multiplication by a nonzero residue permutes the nonzero residues:
/// read off as multisets, `a*1 mod p, .., a*(p-1) mod p` are exactly
/// `1, .., p-1`.
proof fn lemma_mul_map_permutes(a: int, p: int)
    requires
        is_prime(p),
        0 < a < p,
    ensures
        mul_map_seq(a, p, p - 1).to_multiset() == id_seq(p - 1).to_multiset(),
{
    let n = p - 1;
    let s = mul_map_seq(a, p, n);
    let t = id_seq(n);
    s.to_multiset_ensures();
    t.to_multiset_ensures();
    assert forall|i: int| 0 <= i < n implies 1 <= #[trigger] s[i] <= n by {
        lemma_mod_bound(a * (i + 1), p);
        lemma_no_zero_divisors(p, a, i + 1);
    }
    assert forall|i: int, j: int| 0 <= i < n && 0 <= j < n && i != j implies #[trigger] s[i] != #[trigger] s[j] by {
        if s[i] == s[j] {
            assert((i + 1) * a == a * (i + 1)) by (nonlinear_arith) {}
            assert((j + 1) * a == a * (j + 1)) by (nonlinear_arith) {}
            lemma_mul_cancel(p, i + 1, j + 1, a);
        }
    }
    assert(s.no_duplicates());
    assert(t.no_duplicates());
    s.lemma_multiset_has_no_duplicates();
    t.lemma_multiset_has_no_duplicates();
    let inv = lemma_inverse_exists(p, a);
    assert forall|v: int| 1 <= v <= n implies #[trigger] s.contains(v) by {
        let w = (inv * v) % p;
        lemma_mod_bound(inv * v, p);
        lemma_no_zero_divisors(p, inv, v);
        assert(s[w - 1] == (a * w) % p);
        lemma_mul_mod_noop_right(a, inv * v, p);
        assert(a * (inv * v) == (a * inv) * v) by (nonlinear_arith) {}
        lemma_mul_mod_noop_left(a * inv, v, p);
        assert(1 * v == v) by (nonlinear_arith) {}
        lemma_small_mod(v as nat, p as nat);
        assert(s[w - 1] == v);
    }
    assert forall|v: int| #[trigger] s.to_multiset().count(v) == t.to_multiset().count(v) by {
        if 1 <= v <= n {
            assert(s.contains(v));
            assert(t[v - 1] == v);
            assert(t.contains(v));
        } else {
            assert(!s.contains(v));
            assert(!t.contains(v));
        }
    }
    assert(s.to_multiset() =~= t.to_multiset());
}

/// Fermat's little theorem: for a prime `p` and a residue `a` in
/// `(0, p)`, the power `a^(p-1)` leaves remainder `1` modulo `p`.
pub proof fn lemma_fermat_little_theorem(p: int, a: int)
    requires
        is_prime(p),
        0 < a < p,
    ensures
        pow_mod(a, (p - 1) as nat, p) == 1,
{
    let n = p - 1;
    let s = mul_map_seq(a, p, n);
    let t = id_seq(n);
    lemma_mul_map_permutes(a, p);
    lemma_seq_prod_permutation(s, t);
    lemma_prod_shift(a, p, n);
    let f = seq_prod(t);
    let pw = pow(a, n as nat);
    assert((pw * f) % p == f % p);
    lemma_id_prod_nonzero(p, n);
    lemma_mod_bound(f, p);
    let c = f % p;
    lemma_mod_bound(pw, p);
    let x = pw % p;
    lemma_mul_mod_noop(pw, f, p);
    assert((x * c) % p == (pw * f) % p);
    assert(1 * c == c) by (nonlinear_arith) {}
    lemma_small_mod(c as nat, p as nat);
    assert((1 * c) % p == c);
    lemma_mul_cancel(p, x, 1, c);
    assert(pow_mod(a, (p - 1) as nat, p) == 1);
}

} // verus!
