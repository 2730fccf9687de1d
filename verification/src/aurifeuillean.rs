//! Aurifeuillean factorizations: detection of b^n ± 1 candidates with a
//! guaranteed algebraic factorization, and the base-2 factors
//! 2^(4k-2) + 1 = (2^(2k-1) - 2^k + 1)(2^(2k-1) + 2^k + 1).
use vstd::prelude::*;
use vstd::arithmetic::div_mod::{lemma_mod_multiples_basic, lemma_fundamental_div_mod};
use vstd::arithmetic::power::*;
use vstd::arithmetic::mul::lemma_mul_is_distributive_add;
use crate::bignum::{BigNat, gcd, lemma_gcd_divides};
use crate::batch_gcd::lemma_bezout;

verus! {

/// Whether `t` has no square factor greater than 1.
pub open spec fn square_free(t: nat) -> bool {
    t > 0 && forall|q: nat| 2 <= q && q * q <= t ==> #[trigger] (t % (q * q)) != 0
}

/// The square-free decomposition computed by stripping the squares of
/// d, d+1, ... from `t`, accumulating their roots into `s`.
pub open spec fn strip_squares(s: int, t: int, d: int) -> (int, int)
    decreases t, t + 1 - d,
{
    if t < 0 || d < 2 || d * d > t {
        (s, t)
    } else if t % (d * d) == 0 {
        proof {
            lemma_div_smaller(t, d);
        }
        strip_squares(s * d, t / (d * d), d)
    } else {
        proof {
            lemma_square_ge(d);
        }
        strip_squares(s, t, d + 1)
    }
}

/// The decomposition base = s² · t with t square-free (t = 0 for base 0).
pub open spec fn square_free_decomp(base: nat) -> (int, int) {
    strip_squares(1, base as int, 2)
}

pub proof fn lemma_div_smaller(t: int, d: int)
    requires
        d >= 2,
        d * d <= t,
    ensures
        0 <= t / (d * d) < t,
{
    assert(d * d >= 4) by (nonlinear_arith)
        requires d >= 2;
    assert(t / (d * d) < t) by (nonlinear_arith)
        requires d * d >= 4, d * d <= t;
}

pub proof fn lemma_square_ge(d: int)
    requires
        d >= 0,
    ensures
        d <= d * d || d == 0,
{
    assert(d == 0 || d <= d * d) by (nonlinear_arith);
}

/// Decompose base into s²·t where t is square-free.
///
/// Returns (s, t) with base = s² × t; for base > 0, t has no square factor > 1.
pub fn square_free_decomposition(base: u64) -> (r: (u64, u64))
    ensures
        r.0 as nat * r.0 as nat * r.1 as nat == base as nat,
        base > 0 ==> square_free(r.1 as nat),
        r.0 >= 1,
        (r.0 as int, r.1 as int) == square_free_decomp(base as nat),
{
    let mut s: u64 = 1;
    let mut t: u64 = base;
    let mut d: u64 = 2;
    assert(1nat * 1nat * base as nat == base as nat) by (nonlinear_arith);
    while d <= t / d
        invariant
            2 <= d,
            s >= 1,
            s as nat * s as nat * t as nat == base as nat,
            strip_squares(s as int, t as int, d as int) == square_free_decomp(base as nat),
            base > 0 ==> t > 0,
            forall|q: nat| 2 <= q < d && q * q <= t ==> #[trigger] ((t as nat) % (q * q)) != 0,
        decreases t, t + 1 - d,
    {
        assert(d * d <= t) by (nonlinear_arith)
            requires d <= t / d, d >= 2;
        assert(d * d >= 4) by (nonlinear_arith)
            requires d >= 2;
        let dd = d * d;
        if t % dd == 0 {
            let q = t / dd;
            proof {
                lemma_div_smaller(t as int, d as int);
                assert(t == q * dd) by (nonlinear_arith)
                    requires t % dd == 0, q == t / dd, dd > 0;
                assert(q >= 1) by (nonlinear_arith)
                    requires t == q * dd, dd <= t, dd > 0;
                assert(s as nat * d as nat * (s as nat * d as nat) * q as nat == base as nat) by (nonlinear_arith)
                    requires s as nat * s as nat * t as nat == base as nat, t == q * dd, dd == d * d;
                assert(s as nat * d as nat <= base) by (nonlinear_arith)
                    requires s as nat * d as nat * (s as nat * d as nat) * q as nat == base as nat, q >= 1, s >= 1, d >= 2;
                assert forall|x: nat| 2 <= x < d && x * x <= q implies #[trigger] ((q as nat) % (x * x)) != 0 by {
                    if (q as nat) % (x * x) == 0 {
                        assert(x * x <= t) by (nonlinear_arith)
                            requires x * x <= q, t == q * dd, dd >= 1;
                        let xx = (x * x) as int;
                        let m = (q as int) / xx;
                        assert(xx > 0) by (nonlinear_arith) requires xx == x * x, x >= 2;
                        lemma_fundamental_div_mod(q as int, xx);
                        assert(t as int == (m * (dd as int)) * xx) by (nonlinear_arith)
                            requires q as int == xx * m + 0, t == q * dd;
                        lemma_mod_multiples_basic(m * (dd as int), xx);
                    }
                }
            }
            assert(s * d >= 1) by (nonlinear_arith) requires s >= 1, d >= 2;
            s = s * d;
            t = q;
        } else {
            proof {
                assert forall|x: nat| 2 <= x < d + 1 && x * x <= t implies #[trigger] ((t as nat) % (x * x)) != 0 by {
                    if x == d {
                        assert(x * x == dd);
                    }
                }
                lemma_square_ge(d as int);
            }
            assert(d < 0x1_0000_0000) by (nonlinear_arith)
                requires d * d <= t, t <= u64::MAX;
            d = d + 1;
        }
    }
    proof {
        assert(d * d > t) by (nonlinear_arith)
            requires !(d <= t / d), d >= 2;
        if base > 0 {
            assert forall|q: nat| 2 <= q && q * q <= t implies #[trigger] ((t as nat) % (q * q)) != 0 by {
                if q >= d {
                    assert(q * q >= d * d) by (nonlinear_arith) requires q >= d, d >= 2;
                }
            }
        }
    }
    (s, t)
}

/// The Aurifeuillean condition on the square-free part `t` of `base`.
pub open spec fn aurifeuillean_rule(base: nat, t: nat, exponent: nat) -> bool {
    if t == 1 {
        false
    } else if t % 4 == 1 || t % 4 == 3 {
        exponent % (2 * t) == t
    } else {
        base == 2 && exponent >= 6 && exponent % 4 == 2
    }
}

/// Whether b^n ± 1 has an Aurifeuillean factorization: with base = s²·t,
/// t ≡ 1 or 3 (mod 4) and n ≡ t (mod 2t); for base 2, n ≡ 2 (mod 4) with n ≥ 6.
pub open spec fn has_aurifeuillean(base: nat, exponent: nat) -> bool {
    base > 1 && exponent > 0 && aurifeuillean_rule(base, square_free_decomp(base).1 as nat, exponent)
}

/// Check if b^n ± 1 has an Aurifeuillean factorization.
///
/// For base b = s²·t (t square-free):
/// - t ≡ 1 (mod 4) and n ≡ t (mod 2t): b^n + 1 factors;
/// - t ≡ 3 (mod 4) and n ≡ t (mod 2t): b^n − 1 factors;
/// - base 2 with n ≡ 2 (mod 4), n ≥ 6: 2^n + 1 factors (Sophie Germain identity).
/// Perfect squares (t = 1) have none.
pub fn has_aurifeuillean_factorization(base: u64, exponent: u64) -> (r: bool)
    ensures
        r == has_aurifeuillean(base as nat, exponent as nat),
{
    if base <= 1 || exponent == 0 {
        return false;
    }
    let (_s, t) = square_free_decomposition(base);
    if t == 1 {
        return false;
    }
    if t % 4 == 1 || t % 4 == 3 {
        let m: u128 = 2 * (t as u128);
        (exponent as u128) % m == t as u128
    } else {
        base == 2 && exponent >= 6 && exponent % 4 == 2
    }
}


/// The base-2 Aurifeuillean factors of 2^n + 1 for n = 4k − 2:
/// L = 2^(2k−1) − 2^k + 1 and M = 2^(2k−1) + 2^k + 1.
pub open spec fn base2_factors(exponent: nat) -> (int, int) {
    let k = (exponent + 2) / 4;
    let a = pow(2, (2 * k - 1) as nat);
    let b = pow(2, k as nat);
    (a - b + 1, a + b + 1)
}

/// For n = 4k − 2 (k ≥ 1), L · M = 2^n + 1.
pub proof fn lemma_base2_product(exponent: nat)
    requires
        exponent % 4 == 2,
    ensures
        base2_factors(exponent).0 * base2_factors(exponent).1 == pow(2, exponent) + 1,
{
    let k = (exponent + 2) / 4;
    let a = pow(2, (2 * k - 1) as nat);
    let b = pow(2, k as nat);
    assert(k >= 1);
    assert(2 * k - 1 + 2 * k - 1 == exponent);
    lemma_pow_adds(2, (2 * k - 1) as nat, (2 * k - 1) as nat);
    lemma_pow_adds(2, k as nat, k as nat);
    lemma_pow_adds(2, 1, (2 * k - 1) as nat);
    lemma_pow1(2);
    assert(b * b == 2 * a);
    assert((a - b + 1) * (a + b + 1) == a * a + 2 * a + 1 - b * b) by (nonlinear_arith);
}

/// Compute the base-2 Aurifeuillean factors (L, M) of 2^n + 1 for
/// n = 4k − 2 with k ≥ 2 (n ≥ 6); other exponents have none here.
pub fn aurifeuillean_factors_base2(exponent: u64) -> (r: Option<(BigNat, BigNat)>)
    requires
        exponent / 2 <= u32::MAX,
    ensures
        r is Some <==> exponent >= 6 && exponent % 4 == 2,
        r matches Some((l, m)) ==> l@ == base2_factors(exponent as nat).0
            && m@ == base2_factors(exponent as nat).1
            && l@ * m@ == pow(2, exponent as nat) + 1,
{
    if exponent < 6 || exponent % 4 != 2 {
        return None;
    }
    let k = (exponent + 2) / 4;
    let two = BigNat::from_u64(2);
    let a = two.pow((2 * k - 1) as u32);
    let b = two.pow(k as u32);
    proof {
        lemma_pow_increases(2, k as nat, (2 * k - 1) as nat);
        lemma_base2_product(exponent as nat);
    }
    let one = BigNat::one();
    let l = a.sub(&b).add(&one);
    let m = a.add(&b).add(&one);
    Some((l, m))
}

/// Aurifeuillean factors of base^n + 1; only base 2 is computed (see
/// `aurifeuillean_factors_base2`), other bases give none.
pub fn aurifeuillean_factors(base: u64, exponent: u64) -> (r: Option<(BigNat, BigNat)>)
    requires
        exponent / 2 <= u32::MAX,
    ensures
        r is Some <==> base == 2 && exponent >= 6 && exponent % 4 == 2,
        r matches Some((l, m)) ==> l@ == base2_factors(exponent as nat).0
            && m@ == base2_factors(exponent as nat).1
            && l@ * m@ == pow(2, exponent as nat) + 1,
{
    if base == 2 {
        return aurifeuillean_factors_base2(exponent);
    }
    None
}

/// Stripping squares from t (no square of 2..d−1 divides it) ends in a
/// square-free t' with s'²·t' = s²·t.
pub proof fn lemma_strip_squares_facts(s: int, t: int, d: int)
    requires
        s >= 1,
        t >= 1,
        d >= 2,
        forall|x: int| 2 <= x < d && x * x <= t ==> #[trigger] (t % (x * x)) != 0,
    ensures
        strip_squares(s, t, d).0 >= 1,
        strip_squares(s, t, d).0 * strip_squares(s, t, d).0 * strip_squares(s, t, d).1 == s * s * t,
        square_free(strip_squares(s, t, d).1 as nat),
        strip_squares(s, t, d).1 >= 1,
    decreases t, t + 1 - d,
{
    if d * d > t {
        assert forall|q: nat| 2 <= q && q * q <= t implies #[trigger] ((t as nat) % (q * q)) != 0 by {
            if q >= d {
                assert(q * q >= d * d) by (nonlinear_arith) requires q >= d, d >= 2;
            } else {
                assert((t % ((q as int) * (q as int))) != 0);
            }
        }
    } else if t % (d * d) == 0 {
        let dd = d * d;
        lemma_div_smaller(t, d);
        let q = t / dd;
        assert(dd >= 4) by (nonlinear_arith) requires dd == d * d, d >= 2;
        lemma_fundamental_div_mod(t, dd);
        assert(t == q * dd);
        assert(q >= 1) by (nonlinear_arith) requires t == q * dd, t >= 1, dd > 0;
        assert((s * d) * (s * d) * q == s * s * t) by (nonlinear_arith)
            requires t == q * dd, dd == d * d;
        assert(s * d >= 1) by (nonlinear_arith) requires s >= 1, d >= 2;
        assert forall|x: int| 2 <= x < d && x * x <= q implies #[trigger] (q % (x * x)) != 0 by {
            if q % (x * x) == 0 {
                assert(x * x <= t) by (nonlinear_arith)
                    requires x * x <= q, t == q * dd, dd >= 1;
                let xx = x * x;
                assert(xx > 0) by (nonlinear_arith) requires xx == x * x, x >= 2;
                let m = q / xx;
                lemma_fundamental_div_mod(q, xx);
                assert(t == (m * dd) * xx) by (nonlinear_arith)
                    requires q == xx * m + 0, t == q * dd;
                lemma_mod_multiples_basic(m * dd, xx);
            }
        }
        lemma_strip_squares_facts(s * d, q, d);
    } else {
        assert forall|x: int| 2 <= x < d + 1 && x * x <= t implies #[trigger] (t % (x * x)) != 0 by {
            if x == d {
                assert(x * x == d * d);
            }
        }
        lemma_square_ge(d);
        lemma_strip_squares_facts(s, t, d + 1);
    }
}

/// The square-free part is unique: s²·t = u²·v with t, v square-free and
/// s, u ≥ 1 forces t = v.
pub proof fn lemma_square_free_part_unique(s: nat, t: nat, u: nat, v: nat)
    requires
        s >= 1,
        u >= 1,
        square_free(t),
        square_free(v),
        s * s * t == u * u * v,
    ensures
        t == v,
{
    let (x, y) = lemma_bezout(s, u);
    lemma_gcd_divides(s, u);
    let g = gcd(s, u);
    lemma_fundamental_div_mod(s as int, g as int);
    lemma_fundamental_div_mod(u as int, g as int);
    let a = s as int / g as int;
    let b = u as int / g as int;
    assert(a * x + b * y == 1) by (nonlinear_arith)
        requires s * x + u * y == g, s == g * a, u == g * b, g > 0;
    assert(a * a * t == b * b * v) by (nonlinear_arith)
        requires s * s * t == u * u * v, s == g * a, u == g * b, g > 0;
    assert(a >= 1) by (nonlinear_arith) requires s == g * a, s >= 1, g > 0;
    assert(b >= 1) by (nonlinear_arith) requires u == g * b, u >= 1, g > 0;
    let cx = a * x * x * x + 3 * x * x * b * y;
    let cy = 3 * a * x * y * y + b * y * y * y;
    let p = a * x;
    let q = b * y;
    let c1 = a * x * x * x;
    let c2 = 3 * x * x * b * y;
    lemma_mul_is_distributive_add(a * a, c1, c2);
    assert(a * a * c1 == p * p * p) by (nonlinear_arith)
        requires c1 == a * x * x * x, p == a * x;
    assert(a * a * c2 == 3 * p * p * q) by (nonlinear_arith)
        requires c2 == 3 * x * x * b * y, p == a * x, q == b * y;
    let c3 = 3 * a * x * y * y;
    let c4 = b * y * y * y;
    lemma_mul_is_distributive_add(b * b, c3, c4);
    assert(b * b * c3 == 3 * p * q * q) by (nonlinear_arith)
        requires c3 == 3 * a * x * y * y, p == a * x, q == b * y;
    assert(b * b * c4 == q * q * q) by (nonlinear_arith)
        requires c4 == b * y * y * y, q == b * y;
    assert(p * p * p + 3 * p * p * q + 3 * p * q * q + q * q * q == 1) by (nonlinear_arith)
        requires p + q == 1;
    assert(v as int == (a * a) * (v * cx + t * cy)) by (nonlinear_arith)
        requires a * a * cx + b * b * cy == 1, a * a * t == b * b * v;
    assert(t as int == (b * b) * (v * cx + t * cy)) by (nonlinear_arith)
        requires a * a * cx + b * b * cy == 1, a * a * t == b * b * v;
    lemma_square_divides_square_free(a, v as int, v * cx + t * cy);
    lemma_square_divides_square_free(b, t as int, v * cx + t * cy);
    assert(a * a * t == b * b * v);
}

/// When a² divides a square-free n (n = a²·m), a = 1.
proof fn lemma_square_divides_square_free(a: int, n: int, m: int)
    requires
        a >= 1,
        n >= 1,
        square_free(n as nat),
        n == (a * a) * m,
    ensures
        a == 1,
{
    if a >= 2 {
        assert(m >= 1) by (nonlinear_arith) requires n == (a * a) * m, n >= 1, a >= 2;
        assert(a * a <= n) by (nonlinear_arith) requires n == (a * a) * m, m >= 1, a >= 2;
        lemma_mod_multiples_basic(m, a * a);
        assert(m * (a * a) == n) by (nonlinear_arith) requires n == (a * a) * m;
        assert(n % (a * a) == 0);
        assert((n as nat) % ((a as nat) * (a as nat)) != 0);
    }
}

/// Scaling the base by a square k² leaves the Aurifeuillean verdict
/// unchanged, for every base but 2 (whose own rule depends on the base).
pub proof fn lemma_aurifeuillean_square_scaling(base: nat, k: nat, exponent: nat)
    requires
        k >= 1,
        base != 2,
    ensures
        has_aurifeuillean(base * k * k, exponent) == has_aurifeuillean(base, exponent),
{
    let b2 = base * k * k;
    if base == 0 {
        assert(b2 == 0);
    } else {
        assert(b2 >= 1) by (nonlinear_arith) requires b2 == base * k * k, base >= 1, k >= 1;
        assert(b2 != 2) by (nonlinear_arith) requires b2 == base * k * k, base != 2, base >= 1, k >= 1;
        lemma_strip_squares_facts(1, base as int, 2);
        lemma_strip_squares_facts(1, b2 as int, 2);
        let s1: int = square_free_decomp(base).0;
        let t1: int = square_free_decomp(base).1;
        let s2: int = square_free_decomp(b2).0;
        let t2: int = square_free_decomp(b2).1;
        assert(s1 * s1 * t1 == base);
        assert(s2 * s2 * t2 == b2);
        let sk: int = s1 * k;
        assert(sk * sk * t1 == s2 * s2 * t2) by (nonlinear_arith)
            requires s1 * s1 * t1 == base, s2 * s2 * t2 == b2, b2 == base * k * k, sk == s1 * k;
        assert(sk >= 1) by (nonlinear_arith) requires sk == s1 * k, s1 >= 1, k >= 1;
        lemma_square_free_part_unique(sk as nat, t1 as nat, s2 as nat, t2 as nat);
        if base == 1 {
            assert(t1 == 1) by (nonlinear_arith) requires s1 * s1 * t1 == 1, s1 >= 1, t1 >= 1;
        }
    }
}

} // verus!
