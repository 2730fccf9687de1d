//! Fermat's little theorem, by the binomial theorem: a prime p divides
//! every inner binomial coefficient C(p, k), so (x + 1)^p ≡ x^p + 1 (mod p)
//! and, by induction on a, a^p ≡ a (mod p).
use vstd::prelude::*;
use vstd::arithmetic::div_mod::*;
use vstd::arithmetic::mul::*;
use vstd::arithmetic::power::*;
use crate::search::primes::is_prime;
use crate::batch_gcd::lemma_euclid;

verus! {

/// The binomial coefficient C(n, k), by Pascal's rule.
pub open spec fn binom(n: nat, k: nat) -> nat
    decreases n,
{
    if k == 0 {
        1
    } else if n == 0 {
        0
    } else {
        binom((n - 1) as nat, (k - 1) as nat) + binom((n - 1) as nat, k)
    }
}

/// C(n, k) = 0 for k > n.
pub proof fn lemma_binom_above(n: nat, k: nat)
    requires
        k > n,
    ensures
        binom(n, k) == 0,
    decreases n,
{
    if n > 0 {
        lemma_binom_above((n - 1) as nat, (k - 1) as nat);
        lemma_binom_above((n - 1) as nat, k);
    }
}

/// Absorption: k·C(n, k) = n·C(n − 1, k − 1) for k, n ≥ 1.
pub proof fn lemma_binom_absorb(n: nat, k: nat)
    requires
        n >= 1,
        k >= 1,
    ensures
        k * binom(n, k) == n * binom((n - 1) as nat, (k - 1) as nat),
    decreases n,
{
    let n1 = (n - 1) as nat;
    let k1 = (k - 1) as nat;
    if n == 1 {
        if k == 1 {
            assert(binom(1, 1) == binom(0, 0) + binom(0, 1));
            assert(binom(1, 1) == 1);
            assert(binom(0, 0) == 1);
        } else {
            lemma_binom_above(1, k);
            lemma_binom_above(0, k1);
            assert(k * binom(n, k) == 0) by (nonlinear_arith)
                requires
                    binom(n, k) == 0;
            assert(n * binom(n1, k1) == 0) by (nonlinear_arith)
                requires
                    binom(n1, k1) == 0;
        }
    } else {
        // k·C(n,k) = (k−1)·C(n−1,k−1) + C(n−1,k−1) + k·C(n−1,k)
        assert(binom(n, k) == binom(n1, k1) + binom(n1, k));
        lemma_binom_absorb(n1, k);
        if k1 >= 1 {
            lemma_binom_absorb(n1, k1);
            let n2 = (n1 - 1) as nat;
            let k2 = (k1 - 1) as nat;
            assert(binom(n1, k1) == binom(n2, k2) + binom(n2, k1));
            assert(k * binom(n, k) == n * binom(n1, k1)) by (nonlinear_arith)
                requires
                    binom(n, k) == binom(n1, k1) + binom(n1, k),
                    k * binom(n1, k) == n1 * binom(n2, k1),
                    k1 * binom(n1, k1) == n1 * binom(n2, k2),
                    binom(n1, k1) == binom(n2, k2) + binom(n2, k1),
                    k == k1 + 1,
                    n == n1 + 1;
        } else {
            assert(k == 1);
            assert(binom(n1, 0) == 1);
            lemma_binom_one(n1);
            assert(k * binom(n, k) == n * binom(n1, k1)) by (nonlinear_arith)
                requires
                    binom(n, k) == binom(n1, k1) + binom(n1, k),
                    binom(n1, k1) == 1,
                    binom(n1, k) == n1,
                    k == 1,
                    n == n1 + 1;
        }
    }
}

/// C(n, 1) = n.
pub proof fn lemma_binom_one(n: nat)
    ensures
        binom(n, 1) == n,
    decreases n,
{
    if n > 0 {
        lemma_binom_one((n - 1) as nat);
        assert(binom(n, 1) == binom((n - 1) as nat, 0) + binom((n - 1) as nat, 1));
    }
}

/// x^e ≥ 0 for a natural x.
pub proof fn lemma_pow_nonneg(x: nat, e: nat)
    ensures
        pow(x as int, e) >= 0,
{
    if x > 0 {
        lemma_pow_positive(x as int, e);
    } else if e == 0 {
        lemma_pow0(0);
    } else {
        lemma_pow0_base(e);
    }
}

/// A prime p divides C(p, k) for 0 < k < p.
pub proof fn lemma_prime_divides_binom(p: nat, k: nat)
    requires
        is_prime(p),
        0 < k < p,
    ensures
        binom(p, k) % p == 0,
{
    lemma_binom_absorb(p, k);
    let c = binom((p - 1) as nat, (k - 1) as nat);
    lemma_mod_multiples_basic(c as int, p as int);
    assert((k * binom(p, k)) % p == 0) by {
        assert(k * binom(p, k) == c * p) by (nonlinear_arith)
            requires
                k * binom(p, k) == p * c;
    }
    lemma_euclid(p, k, binom(p, k));
    lemma_small_mod(k, p);
}

/// Σ_{k ≤ j} C(n, k)·x^k.
pub open spec fn binom_sum(x: int, n: nat, j: nat) -> int
    decreases j,
{
    if j == 0 {
        1
    } else {
        binom_sum(x, n, (j - 1) as nat) + binom(n, j) * pow(x, j)
    }
}

/// Pascal's rule on the partial sums:
/// Σ_{k ≤ j} C(n+1, k)x^k = x·Σ_{k ≤ j−1} C(n, k)x^k + Σ_{k ≤ j} C(n, k)x^k.
proof fn lemma_binom_sum_step(x: int, n: nat, j: nat)
    requires
        j >= 1,
    ensures
        binom_sum(x, n + 1, j) == x * binom_sum(x, n, (j - 1) as nat) + binom_sum(x, n, j),
    decreases j,
{
    let j1 = (j - 1) as nat;
    reveal(pow);
    assert(binom(n + 1, j) == binom(n, j1) + binom(n, j));
    assert(pow(x, j) == x * pow(x, j1));
    if j == 1 {
        assert(binom_sum(x, n + 1, 0) == 1);
        assert(binom_sum(x, n, 0) == 1);
        assert(binom(n, 0) == 1);
        assert(pow(x, 0) == 1);
        assert(binom_sum(x, n + 1, 1) == 1 + binom(n + 1, 1) * pow(x, 1));
        assert(binom_sum(x, n, 1) == 1 + binom(n, 1) * pow(x, 1));
        assert(pow(x, 1) == x * pow(x, 0));
        assert(binom_sum(x, n + 1, j) == x * binom_sum(x, n, j1) + binom_sum(x, n, j)) by (nonlinear_arith)
            requires
                binom_sum(x, n + 1, 1) == 1 + binom(n + 1, 1) * pow(x, 1),
                binom_sum(x, n, 1) == 1 + binom(n, 1) * pow(x, 1),
                binom(n + 1, 1) == 1 + binom(n, 1),
                binom_sum(x, n, 0) == 1,
                pow(x, 1) == x,
                j == 1,
                j1 == 0;
    } else {
        let j2 = (j1 - 1) as nat;
        lemma_binom_sum_step(x, n, j1);
        assert(binom_sum(x, n, j1) == binom_sum(x, n, j2) + binom(n, j1) * pow(x, j1));
        assert(binom_sum(x, n + 1, j) == x * binom_sum(x, n, j1) + binom_sum(x, n, j)) by (nonlinear_arith)
            requires
                binom_sum(x, n + 1, j) == binom_sum(x, n + 1, j1) + binom(n + 1, j) * pow(x, j),
                binom_sum(x, n + 1, j1) == x * binom_sum(x, n, j2) + binom_sum(x, n, j1),
                binom_sum(x, n, j1) == binom_sum(x, n, j2) + binom(n, j1) * pow(x, j1),
                binom_sum(x, n, j) == binom_sum(x, n, j1) + binom(n, j) * pow(x, j),
                binom(n + 1, j) == binom(n, j1) + binom(n, j),
                pow(x, j) == x * pow(x, j1);
    }
}

/// The binomial theorem for (x + 1)^n.
pub proof fn lemma_binomial(x: int, n: nat)
    ensures
        pow(x + 1, n) == binom_sum(x, n, n),
    decreases n,
{
    reveal(pow);
    if n > 0 {
        let n1 = (n - 1) as nat;
        lemma_binomial(x, n1);
        lemma_binom_sum_step(x, n1, n);
        lemma_binom_above(n1, n);
        assert(binom_sum(x, n1, n) == binom_sum(x, n1, n1));
        assert(pow(x + 1, n) == (x + 1) * pow(x + 1, n1));
        assert(pow(x + 1, n) == binom_sum(x, n, n)) by (nonlinear_arith)
            requires
                pow(x + 1, n) == (x + 1) * pow(x + 1, n1),
                pow(x + 1, n1) == binom_sum(x, n1, n1),
                binom_sum(x, n, n) == x * binom_sum(x, n1, n1) + binom_sum(x, n1, n),
                binom_sum(x, n1, n) == binom_sum(x, n1, n1);
    }
}

/// Below p, the partial sums are ≡ 1 (mod p): the inner terms vanish.
proof fn lemma_inner_terms_vanish(x: nat, p: nat, j: nat)
    requires
        is_prime(p),
        j < p,
    ensures
        binom_sum(x as int, p, j) % (p as int) == 1,
    decreases j,
{
    if j == 0 {
        lemma_small_mod(1, p);
    } else {
        let j1 = (j - 1) as nat;
        lemma_inner_terms_vanish(x, p, j1);
        lemma_prime_divides_binom(p, j);
        lemma_pow_nonneg(x, j);
        let c = binom(p, j);
        let t = pow(x as int, j);
        lemma_fundamental_div_mod(c as int, p as int);
        let q = c as int / p as int;
        lemma_fundamental_div_mod(binom_sum(x as int, p, j1), p as int);
        let q1 = binom_sum(x as int, p, j1) / p as int;
        assert(binom_sum(x as int, p, j) == p * (q1 + q * t) + 1) by (nonlinear_arith)
            requires
                binom_sum(x as int, p, j) == binom_sum(x as int, p, j1) + c * t,
                binom_sum(x as int, p, j1) == p * q1 + 1,
                c == p * q;
        lemma_mod_multiples_vanish(q1 + q * t, 1, p as int);
        lemma_small_mod(1, p);
    }
}

/// (x + 1)^p ≡ x^p + 1 (mod p) for a prime p.
pub proof fn lemma_frobenius(x: nat, p: nat)
    requires
        is_prime(p),
    ensures
        pow(x as int + 1, p) % (p as int) == (pow(x as int, p) + 1) % (p as int),
{
    let p1 = (p - 1) as nat;
    lemma_binomial(x as int, p);
    lemma_inner_terms_vanish(x, p, p1);
    assert(binom(p, p) == 1) by {
        assert(binom(p, p) == binom(p1, p1) + binom(p1, p));
        lemma_binom_above(p1, p);
        lemma_binom_diag(p1);
    }
    assert(binom_sum(x as int, p, p) == binom_sum(x as int, p, p1) + pow(x as int, p));
    lemma_fundamental_div_mod(binom_sum(x as int, p, p1), p as int);
    let q = binom_sum(x as int, p, p1) / p as int;
    assert(pow(x as int + 1, p) == p * q + (pow(x as int, p) + 1));
    lemma_mod_multiples_vanish(q, pow(x as int, p) + 1, p as int);
}

/// C(n, n) = 1.
pub proof fn lemma_binom_diag(n: nat)
    ensures
        binom(n, n) == 1,
    decreases n,
{
    if n > 0 {
        lemma_binom_diag((n - 1) as nat);
        lemma_binom_above((n - 1) as nat, n);
    }
}

/// Fermat: a^p ≡ a (mod p) for a prime p.
pub proof fn lemma_fermat(a: nat, p: nat)
    requires
        is_prime(p),
    ensures
        pow(a as int, p) % (p as int) == (a as int) % (p as int),
    decreases a,
{
    reveal(pow);
    if a == 0 {
        lemma_pow0_base(p);
    } else {
        let a1 = (a - 1) as nat;
        lemma_fermat(a1, p);
        lemma_frobenius(a1, p);
        lemma_mod_adds(pow(a1 as int, p), 1, p as int);
        lemma_mod_adds(a1 as int, 1, p as int);
    }
}

proof fn lemma_pow0_base(p: nat)
    requires
        p >= 1,
    ensures
        pow(0, p) == 0,
    decreases p,
{
    reveal(pow);
    if p > 1 {
        lemma_pow0_base((p - 1) as nat);
    }
}

/// Fermat's little theorem: a^(p−1) ≡ 1 (mod p) when p does not divide a.
pub proof fn lemma_fermat_little(a: nat, p: nat)
    requires
        is_prime(p),
        a % p != 0,
    ensures
        pow(a as int, (p - 1) as nat) % (p as int) == 1,
{
    let p1 = (p - 1) as nat;
    lemma_fermat(a, p);
    reveal(pow);
    assert(pow(a as int, p) == a * pow(a as int, p1));
    lemma_pow_nonneg(a, p1);
    let b = pow(a as int, p1);
    // a·(b − 1) ≡ 0 (mod p)
    lemma_fundamental_div_mod(a * b, p as int);
    lemma_fundamental_div_mod(a as int, p as int);
    let qa = (a * b) / p as int;
    let qb = a as int / p as int;
    assert(a * (b - 1) == p * (qa - qb)) by (nonlinear_arith)
        requires
            a * b == p * qa + (a * b) % (p as int),
            a as int == p * qb + (a as int) % (p as int),
            (a * b) % (p as int) == (a as int) % (p as int);
    assert(b >= 1) by {
        if a == 0 {
            lemma_small_mod(0, p);
        }
        lemma_pow_positive(a as int, p1);
    }
    let bm: nat = (b - 1) as nat;
    lemma_mod_multiples_basic(qa - qb, p as int);
    assert((a * bm) % p == 0) by {
        assert(a * bm == (qa - qb) * p) by (nonlinear_arith)
            requires
                a * (b - 1) == p * (qa - qb),
                bm == b - 1;
    }
    lemma_euclid(p, a, bm);
    lemma_fundamental_div_mod(bm as int, p as int);
    lemma_mod_multiples_vanish(bm as int / p as int, 1, p as int);
    lemma_small_mod(1, p);
}

} // verus!
