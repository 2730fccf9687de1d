//! Modular pre-sieves: for every odd prime p below 10000, candidates of a
//! form that p divides are marked composite before any big-number test.
//! Candidates no larger than the largest sieve prime stay in, since such a
//! candidate may be the sieve prime itself.
use vstd::prelude::*;
use vstd::arithmetic::div_mod::*;
use vstd::arithmetic::mul::*;
use vstd::arithmetic::power::*;
use vstd::arithmetic::power2::*;
use crate::search::montgomery::MontCtx;
use crate::search::primes::{is_prime, prime_list, nats, lemma_prime_list_facts};
use crate::search::primality::{PrimeTables, lemma_prime_divides_prime};

verus! {

/// The largest prime below 10000; candidates up to it are never sieved out.
pub open spec fn largest_sieve_prime() -> int {
    9973
}

/// The j-th sieve prime is odd, does not divide `excl`, and divides `v`.
pub open spec fn divides_at(v: int, excl: nat, j: int) -> bool {
    let p = prime_list(10000)[j];
    p >= 3 && excl % p != 0 && v % (p as int) == 0
}

/// One of the first `m` sieve primes divides `v` (see `divides_at`).
pub open spec fn hit_below(v: int, excl: nat, m: int) -> bool {
    exists|j: int| 0 <= j < m && #[trigger] divides_at(v, excl, j)
}

/// Some odd prime p < 10000 with p ∤ excl divides `v`.
pub open spec fn sieve_hit(v: int, excl: nat) -> bool {
    hit_below(v, excl, prime_list(10000).len() as int)
}

/// The candidate `v` stays in after sieving with the primes not dividing `excl`.
pub open spec fn survives(v: int, excl: nat) -> bool {
    !sieve_hit(v, excl) || v <= largest_sieve_prime()
}

/// k·base^n + 1 (plus) or k·base^n − 1.
pub open spec fn kbn_value(k: nat, base: nat, plus: bool, n: nat) -> int {
    k * pow(base as int, n) + (if plus { 1int } else { -1int })
}

/// Extending the range of sieve primes by one.
pub proof fn lemma_hit_below_step(v: int, excl: nat, m: int)
    requires
        0 <= m,
    ensures
        hit_below(v, excl, m + 1) == (hit_below(v, excl, m) || divides_at(v, excl, m)),
{
    if hit_below(v, excl, m + 1) && !divides_at(v, excl, m) {
        let j = choose|j: int| 0 <= j < m + 1 && #[trigger] divides_at(v, excl, j);
        assert(j < m);
    }
}

/// Adding a constant commutes with reducing modulo p.
pub proof fn lemma_mod_shift(a: int, c: int, p: int)
    requires
        p > 0,
    ensures
        ((a % p) + c) % p == (a + c) % p,
{
    lemma_fundamental_div_mod(a, p);
    let q = a / p;
    lemma_mod_multiples_vanish(q, (a % p) + c, p);
    assert(p * q + ((a % p) + c) == a + c);
}

/// The sieve table entry j, read from the tables, is an odd prime p < 10000
/// or 2.
proof fn lemma_table_entry(tables: &PrimeTables, j: int)
    requires
        tables.wf(),
        0 <= j < tables.sieve@.len(),
    ensures
        tables.sieve@[j] as nat == prime_list(10000)[j],
        tables.sieve@.len() == prime_list(10000).len(),
        is_prime(tables.sieve@[j] as nat),
        2 <= tables.sieve@[j] < 10000,
        tables.sieve@[j] >= 3 ==> tables.sieve@[j] % 2 == 1,
{
    lemma_prime_list_facts(10000);
    assert(nats(tables.sieve@).len() == tables.sieve@.len());
    assert(nats(tables.sieve@)[j] == tables.sieve@[j] as nat);
    let p = tables.sieve@[j] as nat;
    if p >= 3 {
        assert(p % 2 != 0);
    }
}

/// Whether k·base^n ± 1 is at most the largest sieve prime.
pub fn kbn_is_small(k: u64, base: u64, plus: bool, n: u64) -> (r: bool)
    ensures
        r == (kbn_value(k as nat, base as nat, plus, n as nat) <= largest_sieve_prime()),
{
    reveal(pow);
    if k == 0 {
        return true;
    }
    if base == 0 {
        if n == 0 {
            return if plus { k < 9973 } else { k <= 9974 };
        }
        proof {
            lemma0_pow(n as nat);
        }
        return true;
    }
    if base == 1 {
        proof {
            lemma1_pow(n as nat);
        }
        return if plus { k < 9973 } else { k <= 9974 };
    }
    // base ≥ 2 and k ≥ 1: the product at least doubles per step
    let mut acc: u128 = k as u128;
    let mut e: u64 = 0;
    while e < n && acc <= 10000
        invariant
            e <= n,
            k >= 1,
            base >= 2,
            acc == k * pow(base as int, e as nat),
        decreases n - e,
    {
        proof {
            assert(acc * base <= 10000 * 0xFFFF_FFFF_FFFF_FFFF) by (nonlinear_arith)
                requires acc <= 10000, base <= 0xFFFF_FFFF_FFFF_FFFF;
            assert(pow(base as int, (e + 1) as nat) == base * pow(base as int, e as nat)) by {
                reveal(pow);
            }
            assert(k * (base * pow(base as int, e as nat)) == (k * pow(base as int, e as nat)) * base)
                by (nonlinear_arith);
        }
        acc = acc * (base as u128);
        e = e + 1;
    }
    if e < n {
        proof {
            let rest = (n - e) as nat;
            lemma_pow_positive(base as int, rest);
            lemma_pow_adds(base as int, e as nat, rest);
            assert(k * pow(base as int, n as nat) == acc * pow(base as int, rest)) by (nonlinear_arith)
                requires
                    pow(base as int, n as nat) == pow(base as int, e as nat) * pow(base as int, rest),
                    acc == k * pow(base as int, e as nat);
            assert(acc * pow(base as int, rest) >= acc) by (nonlinear_arith)
                requires pow(base as int, rest) >= 1, acc > 0;
        }
        return false;
    }
    if plus { acc < 9973 } else { acc <= 9974 }
}

/// Mark the n in [start, end] for which k·base^n + sign (sign ≥ 0 meaning +1,
/// otherwise −1) is divisible by a sieve prime p ≥ 3 with p ∤ base; candidates
/// no larger than the largest sieve prime are left in. Entry i stands for
/// n = start + i; `true` means the candidate survives.
pub fn modular_sieve_kbn(k: u64, base: u64, sign: i64, start: u64, end: u64, tables: &PrimeTables)
    -> (survivors: Vec<bool>)
    requires
        tables.wf(),
        end < start || end - start < usize::MAX,
    ensures
        end < start ==> survivors@.len() == 0,
        start <= end ==> survivors@.len() == end - start + 1,
        forall|i: int| 0 <= i < survivors@.len() ==> #[trigger] survivors@[i]
            == survives(kbn_value(k as nat, base as nat, sign >= 0, (start + i) as nat), base as nat),
{
    if end < start {
        return Vec::new();
    }
    let plus = sign >= 0;
    let len: usize = (end - start + 1) as usize;
    let mut survivors: Vec<bool> = Vec::new();
    let mut i: usize = 0;
    while i < len
        invariant
            i <= len,
            survivors@.len() == i,
            forall|t: int| 0 <= t < i ==> #[trigger] survivors@[t] == !hit_below(kbn_value(k as nat, base as nat, plus, (start + t) as nat), base as nat, 0),
        decreases len - i,
    {
        survivors.push(true);
        i = i + 1;
    }
    let mut j: usize = 0;
    assert(nats(tables.sieve@).len() == tables.sieve@.len());
    while j < tables.sieve.len()
        invariant
            tables.wf(),
            j <= tables.sieve@.len(),
            tables.sieve@.len() == prime_list(10000).len(),
            len == end - start + 1,
            survivors@.len() == len,
            plus == (sign >= 0),
            forall|t: int| 0 <= t < len ==> #[trigger] survivors@[t] == !hit_below(kbn_value(k as nat, base as nat, plus, (start + t) as nat), base as nat, j as int),
        decreases tables.sieve@.len() - j,
    {
        let p = tables.sieve[j];
        proof {
            lemma_table_entry(tables, j as int);
        }
        if p >= 3 && base % p != 0 {
            let ctx = MontCtx::new(p);
            let k_mont = ctx.to_mont(k % p);
            let base_mont = ctx.to_mont(base % p);
            let mut bn_mont = ctx.pow_mod(base_mont, start);
            proof {
                lemma_mod_bound(k as int, p as int);
                lemma_mod_bound(base as int, p as int);
                lemma_small_mod((k % p) as nat, p as nat);
                lemma_small_mod((base % p) as nat, p as nat);
                lemma_pow_mod_noop(base as int, start as nat, p as int);
            }
            let mut i: usize = 0;
            while i < len
                invariant
                    tables.wf(),
                    j < tables.sieve@.len(),
                    p == tables.sieve@[j as int],
                    p as nat == prime_list(10000)[j as int],
                    3 <= p < 10000,
                    base % p != 0,
                    ctx.wf(),
                    ctx.modulus() == p,
                    k_mont < p,
                    base_mont < p,
                    bn_mont < p,
                    ctx.value_of(k_mont as int) == (k as int) % (p as int),
                    ctx.value_of(base_mont as int) == (base as int) % (p as int),
                    ctx.value_of(bn_mont as int) == pow(base as int, (start + i) as nat) % (p as int),
                    i <= len,
                    len == end - start + 1,
                    survivors@.len() == len,
                    plus == (sign >= 0),
                            forall|t: int| 0 <= t < len ==> #[trigger] survivors@[t]
                        == !hit_below(kbn_value(k as nat, base as nat, plus, (start + t) as nat), base as nat, if t < i { j + 1 } else { j as int }),
                decreases len - i,
            {
                let kb = ctx.mul(k_mont, bn_mont);
                let kb_val = ctx.from_mont(kb);
                let cm = if plus { (kb_val + 1) % p } else { (kb_val + p - 1) % p };
                let ghost n = (start + i) as nat;
                let ghost pw = pow(base as int, n);
                proof {
                    let pi = p as int;
                    lemma_mul_mod_noop_general(k as int, pw, pi);
                    assert(kb_val as int == (k * pw) % pi);
                    assert(kbn_value(k as nat, base as nat, plus, n) == k * pw + (if plus { 1int } else { -1int }));
                    if plus {
                        lemma_mod_shift(k * pw, 1, pi);
                    } else {
                        lemma_mod_shift(k * pw, -1, pi);
                        lemma_mod_multiples_vanish(1, kb_val as int - 1, pi);
                    }
                    assert((cm == 0) == (kbn_value(k as nat, base as nat, plus, n) % pi == 0));
                    lemma_hit_below_step(kbn_value(k as nat, base as nat, plus, n), base as nat, j as int);
                    assert((cm == 0) == divides_at(kbn_value(k as nat, base as nat, plus, n), base as nat, j as int));
                }
                if cm == 0 {
                    survivors.set(i, false);
                }
                let ghost old_bn = bn_mont;
                bn_mont = ctx.mul(bn_mont, base_mont);
                proof {
                    let pi = p as int;
                    lemma_mul_mod_noop_general(pw, base as int, pi);
                    assert(pow(base as int, n + 1) == base * pw) by {
                        reveal(pow);
                    }
                    assert(pw * base == base * pw) by (nonlinear_arith);
                }
                i = i + 1;
            }
        } else {
            proof {
                assert forall|t: int| 0 <= t < len implies #[trigger] survivors@[t]
                    == !hit_below(kbn_value(k as nat, base as nat, plus, (start + t) as nat), base as nat, j + 1) by {
                    lemma_hit_below_step(kbn_value(k as nat, base as nat, plus, (start + t) as nat), base as nat, j as int);
                }
            }
        }
        j = j + 1;
    }
    // Candidates no larger than a sieve prime may be that prime.
    let mut i: usize = 0;
    while i < len
        invariant
            i <= len,
            len == end - start + 1,
            survivors@.len() == len,
            plus == (sign >= 0),
            forall|t: int| 0 <= t < len ==> #[trigger] survivors@[t]
                == if t < i { survives(kbn_value(k as nat, base as nat, plus, (start + t) as nat), base as nat) } else { !sieve_hit(kbn_value(k as nat, base as nat, plus, (start + t) as nat), base as nat) },
        decreases len - i,
    {
        if !survivors[i] {
            let n = start + i as u64;
            if kbn_is_small(k, base, plus, n) {
                survivors.set(i, true);
            }
        }
        i = i + 1;
    }
    survivors
}


/// Testing a residue r = a mod p for a ± 1 ≡ 0 (mod p), as the sieves do.
proof fn lemma_sign_residue(a: int, r: int, p: int, plus: bool)
    requires
        p > 1,
        r == a % p,
    ensures
        (if plus { (r + 1) % p } else { (r + p - 1) % p }) == 0
            <==> (a + (if plus { 1int } else { -1int })) % p == 0,
{
    if plus {
        lemma_mod_shift(a, 1, p);
    } else {
        lemma_mod_shift(a, -1, p);
        lemma_mod_multiples_vanish(1, r - 1, p);
    }
}

/// Two integers that differ by a multiple of p have the same residue.
proof fn lemma_congruent(a: int, b: int, m: int, p: int)
    requires
        p > 0,
        a == b + p * m,
    ensures
        a % p == b % p,
{
    lemma_mod_multiples_vanish(m, b, p);
}

/// n·2^n + 1 (Cullen, plus) or n·2^n − 1 (Woodall).
pub open spec fn cullen_woodall_value(n: nat, plus: bool) -> int {
    kbn_value(n, 2, plus, n)
}

/// Sieve Cullen numbers n·2^n + 1 and Woodall numbers n·2^n − 1 for n in
/// [start, end] (entry i stands for n = start + i); returns the Cullen and the
/// Woodall survivors.
pub fn sieve_cullen_woodall(start: u64, end: u64, tables: &PrimeTables) -> (r: (Vec<bool>, Vec<bool>))
    requires
        tables.wf(),
        end < start || end - start < usize::MAX,
    ensures
        r.0@.len() == r.1@.len(),
        end < start ==> r.0@.len() == 0,
        start <= end ==> r.0@.len() == end - start + 1,
        forall|i: int| 0 <= i < r.0@.len() ==> #[trigger] r.0@[i]
            == survives(cullen_woodall_value((start + i) as nat, true), 2),
        forall|i: int| 0 <= i < r.1@.len() ==> #[trigger] r.1@[i]
            == survives(cullen_woodall_value((start + i) as nat, false), 2),
{
    if end < start {
        return (Vec::new(), Vec::new());
    }
    let len: usize = (end - start + 1) as usize;
    let mut cullen: Vec<bool> = Vec::new();
    let mut woodall: Vec<bool> = Vec::new();
    let mut i: usize = 0;
    while i < len
        invariant
            i <= len,
            cullen@.len() == i,
            woodall@.len() == i,
            forall|t: int| 0 <= t < i ==> #[trigger] cullen@[t]
                == !hit_below(cullen_woodall_value((start + t) as nat, true), 2, 0),
            forall|t: int| 0 <= t < i ==> #[trigger] woodall@[t]
                == !hit_below(cullen_woodall_value((start + t) as nat, false), 2, 0),
        decreases len - i,
    {
        cullen.push(true);
        woodall.push(true);
        i = i + 1;
    }
    let mut j: usize = 0;
    assert(nats(tables.sieve@).len() == tables.sieve@.len());
    while j < tables.sieve.len()
        invariant
            tables.wf(),
            j <= tables.sieve@.len(),
            tables.sieve@.len() == prime_list(10000).len(),
            len == end - start + 1,
            cullen@.len() == len,
            woodall@.len() == len,
            forall|t: int| 0 <= t < len ==> #[trigger] cullen@[t]
                == !hit_below(cullen_woodall_value((start + t) as nat, true), 2, j as int),
            forall|t: int| 0 <= t < len ==> #[trigger] woodall@[t]
                == !hit_below(cullen_woodall_value((start + t) as nat, false), 2, j as int),
        decreases tables.sieve@.len() - j,
    {
        let p = tables.sieve[j];
        proof {
            lemma_table_entry(tables, j as int);
        }
        if p >= 3 {
            let ctx = MontCtx::new(p);
            let two_mont = ctx.to_mont(2 % p);
            let mut bn_mont = ctx.pow_mod(two_mont, start);
            proof {
                lemma_small_mod(2, p as nat);
                lemma_small_mod(2nat % (p as nat), p as nat);
                lemma_pow_mod_noop(2, start as nat, p as int);
                assert(2nat % (p as nat) != 0);
            }
            let mut i: usize = 0;
            while i < len
                invariant
                    tables.wf(),
                    j < tables.sieve@.len(),
                    p as nat == prime_list(10000)[j as int],
                    3 <= p < 10000,
                    ctx.wf(),
                    ctx.modulus() == p,
                    two_mont < p,
                    bn_mont < p,
                    ctx.value_of(two_mont as int) == 2,
                    ctx.value_of(bn_mont as int) == pow(2, (start + i) as nat) % (p as int),
                    i <= len,
                    len == end - start + 1,
                    cullen@.len() == len,
                    woodall@.len() == len,
                    forall|t: int| 0 <= t < len ==> #[trigger] cullen@[t]
                        == !hit_below(cullen_woodall_value((start + t) as nat, true), 2,
                            if t < i { j + 1 } else { j as int }),
                    forall|t: int| 0 <= t < len ==> #[trigger] woodall@[t]
                        == !hit_below(cullen_woodall_value((start + t) as nat, false), 2,
                            if t < i { j + 1 } else { j as int }),
                decreases len - i,
            {
                let n = start + i as u64;
                let n_mont = ctx.to_mont(n % p);
                let nb_val = ctx.from_mont(ctx.mul(n_mont, bn_mont));
                let ghost pw = pow(2, n as nat);
                proof {
                    let pi = p as int;
                    lemma_mod_bound(n as int, pi);
                    lemma_small_mod((n % p) as nat, p as nat);
                    lemma_mul_mod_noop_general(n as int, pw, pi);
                    assert(nb_val as int == (n * pw) % pi);
                    lemma_sign_residue(n * pw, nb_val as int, pi, true);
                    lemma_sign_residue(n * pw, nb_val as int, pi, false);
                    lemma_hit_below_step(cullen_woodall_value(n as nat, true), 2, j as int);
                    lemma_hit_below_step(cullen_woodall_value(n as nat, false), 2, j as int);
                    lemma_small_mod(2nat, p as nat);
                }
                if (nb_val + 1) % p == 0 {
                    cullen.set(i, false);
                }
                if (nb_val + p - 1) % p == 0 {
                    woodall.set(i, false);
                }
                bn_mont = ctx.mul(bn_mont, two_mont);
                proof {
                    lemma_mul_mod_noop_general(pw, 2, p as int);
                    assert(pow(2, (n + 1) as nat) == 2 * pw) by {
                        reveal(pow);
                    }
                }
                i = i + 1;
            }
        } else {
            proof {
                assert forall|t: int| 0 <= t < len implies #[trigger] cullen@[t]
                    == !hit_below(cullen_woodall_value((start + t) as nat, true), 2, j + 1) by {
                    lemma_hit_below_step(cullen_woodall_value((start + t) as nat, true), 2, j as int);
                }
                assert forall|t: int| 0 <= t < len implies #[trigger] woodall@[t]
                    == !hit_below(cullen_woodall_value((start + t) as nat, false), 2, j + 1) by {
                    lemma_hit_below_step(cullen_woodall_value((start + t) as nat, false), 2, j as int);
                }
            }
        }
        j = j + 1;
    }
    let mut i: usize = 0;
    while i < len
        invariant
            i <= len,
            len == end - start + 1,
            cullen@.len() == len,
            woodall@.len() == len,
            forall|t: int| 0 <= t < len ==> #[trigger] cullen@[t]
                == if t < i { survives(cullen_woodall_value((start + t) as nat, true), 2) }
                    else { !sieve_hit(cullen_woodall_value((start + t) as nat, true), 2) },
            forall|t: int| 0 <= t < len ==> #[trigger] woodall@[t]
                == if t < i { survives(cullen_woodall_value((start + t) as nat, false), 2) }
                    else { !sieve_hit(cullen_woodall_value((start + t) as nat, false), 2) },
        decreases len - i,
    {
        let n = start + i as u64;
        if !cullen[i] && kbn_is_small(n, 2, true, n) {
            cullen.set(i, true);
        }
        if !woodall[i] && kbn_is_small(n, 2, false, n) {
            woodall.set(i, true);
        }
        i = i + 1;
    }
    (cullen, woodall)
}


/// (2^n + 1)² − 2 (Kynea, plus) or (2^n − 1)² − 2 (Carol).
pub open spec fn carol_kynea_value(n: nat, plus: bool) -> int {
    let x = pow(2, n) + (if plus { 1int } else { -1int });
    x * x - 2
}

/// Whether (2^n ± 1)² − 2 is at most the largest sieve prime.
pub fn carol_kynea_is_small(n: u64, plus: bool) -> (r: bool)
    ensures
        r == (carol_kynea_value(n as nat, plus) <= largest_sieve_prime()),
{
    if n >= 7 {
        proof {
            lemma_pow_increases(2, 7, n as nat);
            assert(pow(2, 7) == 128) by {
                reveal_with_fuel(pow, 8);
            }
            let x = pow(2, n as nat) + (if plus { 1int } else { -1int });
            assert(x * x >= 127 * 127) by (nonlinear_arith)
                requires x >= 127;
        }
        return false;
    }
    let mut x: u64 = 1;
    let mut e: u64 = 0;
    proof {
        lemma_pow0(2);
    }
    while e < n
        invariant
            e <= n <= 6,
            x == pow(2, e as nat),
            1 <= x <= 64,
        decreases n - e,
    {
        proof {
            assert(pow(2, (e + 1) as nat) == 2 * pow(2, e as nat)) by {
                reveal(pow);
            }
            lemma_pow_increases(2, (e + 1) as nat, 6);
            assert(pow(2, 6) == 64) by {
                reveal_with_fuel(pow, 7);
            }
        }
        x = x * 2;
        e = e + 1;
    }
    let y: u64 = if plus { x + 1 } else { x - 1 };
    assert(y * y <= 65 * 65) by (nonlinear_arith)
        requires y <= 65;
    y * y <= 9975
}

/// Sieve Carol numbers (2^n − 1)² − 2 and Kynea numbers (2^n + 1)² − 2 for n
/// in [start, end] (entry i stands for n = start + i); returns the Carol and
/// the Kynea survivors.
pub fn sieve_carol_kynea(start: u64, end: u64, tables: &PrimeTables) -> (r: (Vec<bool>, Vec<bool>))
    requires
        tables.wf(),
        end < start || end - start < usize::MAX,
    ensures
        r.0@.len() == r.1@.len(),
        end < start ==> r.0@.len() == 0,
        start <= end ==> r.0@.len() == end - start + 1,
        forall|i: int| 0 <= i < r.0@.len() ==> #[trigger] r.0@[i]
            == survives(carol_kynea_value((start + i) as nat, false), 2),
        forall|i: int| 0 <= i < r.1@.len() ==> #[trigger] r.1@[i]
            == survives(carol_kynea_value((start + i) as nat, true), 2),
{
    if end < start {
        return (Vec::new(), Vec::new());
    }
    let len: usize = (end - start + 1) as usize;
    let mut carol: Vec<bool> = Vec::new();
    let mut kynea: Vec<bool> = Vec::new();
    let mut i: usize = 0;
    while i < len
        invariant
            i <= len,
            carol@.len() == i,
            kynea@.len() == i,
            forall|t: int| 0 <= t < i ==> #[trigger] carol@[t]
                == !hit_below(carol_kynea_value((start + t) as nat, false), 2, 0),
            forall|t: int| 0 <= t < i ==> #[trigger] kynea@[t]
                == !hit_below(carol_kynea_value((start + t) as nat, true), 2, 0),
        decreases len - i,
    {
        carol.push(true);
        kynea.push(true);
        i = i + 1;
    }
    let mut j: usize = 0;
    assert(nats(tables.sieve@).len() == tables.sieve@.len());
    while j < tables.sieve.len()
        invariant
            tables.wf(),
            j <= tables.sieve@.len(),
            tables.sieve@.len() == prime_list(10000).len(),
            len == end - start + 1,
            carol@.len() == len,
            kynea@.len() == len,
            forall|t: int| 0 <= t < len ==> #[trigger] carol@[t]
                == !hit_below(carol_kynea_value((start + t) as nat, false), 2, j as int),
            forall|t: int| 0 <= t < len ==> #[trigger] kynea@[t]
                == !hit_below(carol_kynea_value((start + t) as nat, true), 2, j as int),
        decreases tables.sieve@.len() - j,
    {
        let p = tables.sieve[j];
        proof {
            lemma_table_entry(tables, j as int);
        }
        if p >= 3 {
            let ctx = MontCtx::new(p);
            let two_mont = ctx.to_mont(2 % p);
            let mut pow_n_mont = ctx.pow_mod(two_mont, start);
            proof {
                lemma_small_mod(2, p as nat);
                lemma_small_mod(2nat % (p as nat), p as nat);
                lemma_pow_mod_noop(2, start as nat, p as int);
            }
            let mut i: usize = 0;
            while i < len
                invariant
                    tables.wf(),
                    j < tables.sieve@.len(),
                    p as nat == prime_list(10000)[j as int],
                    3 <= p < 10000,
                    ctx.wf(),
                    ctx.modulus() == p,
                    two_mont < p,
                    pow_n_mont < p,
                    ctx.value_of(two_mont as int) == 2,
                    ctx.value_of(pow_n_mont as int) == pow(2, (start + i) as nat) % (p as int),
                    i <= len,
                    len == end - start + 1,
                    carol@.len() == len,
                    kynea@.len() == len,
                    forall|t: int| 0 <= t < len ==> #[trigger] carol@[t]
                        == !hit_below(carol_kynea_value((start + t) as nat, false), 2,
                            if t < i { j + 1 } else { j as int }),
                    forall|t: int| 0 <= t < len ==> #[trigger] kynea@[t]
                        == !hit_below(carol_kynea_value((start + t) as nat, true), 2,
                            if t < i { j + 1 } else { j as int }),
                decreases len - i,
            {
                let n = start + i as u64;
                let x = ctx.from_mont(pow_n_mont);
                assert(x * x < 100_000_000) by (nonlinear_arith)
                    requires x < 10000;
                let sq = (x * x) % p;
                let twice = (x * 2) % p;
                let carol_mod = (sq + p - twice + p - 1) % p;
                let kynea_mod = (sq + twice + p - 1) % p;
                let ghost pw = pow(2, n as nat);
                proof {
                    let pi = p as int;
                    lemma_small_mod(2nat, p as nat);
                    lemma_fundamental_div_mod(pw, pi);
                    let q = pw / pi;
                    assert(pw == pi * q + x);
                    lemma_fundamental_div_mod(x * x, pi);
                    lemma_fundamental_div_mod(x * 2, pi);
                    let qs = (x * x) / pi;
                    let qt = (x * 2) / pi;
                    assert(x * x == pi * qs + sq);
                    assert(x * 2 == pi * qt + twice);
                    // pw² = (pi·q + x)² = x² + pi·(q·(pi·q + 2x))
                    let m = q * (pi * q + 2 * x);
                    assert(pw * pw == x * x + pi * m) by (nonlinear_arith)
                        requires pw == pi * q + x, m == q * (pi * q + 2 * x);
                    let vc = carol_kynea_value(n as nat, false);
                    let vk = carol_kynea_value(n as nat, true);
                    assert(vc == pw * pw - 2 * pw - 1) by (nonlinear_arith)
                        requires vc == (pw - 1) * (pw - 1) - 2;
                    assert(vk == pw * pw + 2 * pw - 1) by (nonlinear_arith)
                        requires vk == (pw + 1) * (pw + 1) - 2;
                    // carol: sq + 2p − twice − 1 ≡ pw² − 2pw − 1
                    assert(sq + 2 * pi - twice - 1 == vc + pi * (qt - qs + 2 - m + 2 * q)) by (nonlinear_arith)
                        requires
                            x * x == pi * qs + sq,
                            x * 2 == pi * qt + twice,
                            pw == pi * q + x,
                            pw * pw == x * x + pi * m,
                            vc == pw * pw - 2 * pw - 1;
                    lemma_congruent(sq + 2 * pi - twice - 1, vc, qt - qs + 2 - m + 2 * q, pi);
                    assert(sq + twice + pi - 1 == vk + pi * (1 - qs - qt - m - 2 * q)) by (nonlinear_arith)
                        requires
                            x * x == pi * qs + sq,
                            x * 2 == pi * qt + twice,
                            pw == pi * q + x,
                            pw * pw == x * x + pi * m,
                            vk == pw * pw + 2 * pw - 1;
                    lemma_congruent(sq + twice + pi - 1, vk, 1 - qs - qt - m - 2 * q, pi);
                    lemma_hit_below_step(vc, 2, j as int);
                    lemma_hit_below_step(vk, 2, j as int);
                }
                if carol_mod == 0 {
                    carol.set(i, false);
                }
                if kynea_mod == 0 {
                    kynea.set(i, false);
                }
                pow_n_mont = ctx.mul(pow_n_mont, two_mont);
                proof {
                    lemma_mul_mod_noop_general(pw, 2, p as int);
                    assert(pow(2, (n + 1) as nat) == 2 * pw) by {
                        reveal(pow);
                    }
                }
                i = i + 1;
            }
        } else {
            proof {
                assert forall|t: int| 0 <= t < len implies #[trigger] carol@[t]
                    == !hit_below(carol_kynea_value((start + t) as nat, false), 2, j + 1) by {
                    lemma_hit_below_step(carol_kynea_value((start + t) as nat, false), 2, j as int);
                }
                assert forall|t: int| 0 <= t < len implies #[trigger] kynea@[t]
                    == !hit_below(carol_kynea_value((start + t) as nat, true), 2, j + 1) by {
                    lemma_hit_below_step(carol_kynea_value((start + t) as nat, true), 2, j as int);
                }
            }
        }
        j = j + 1;
    }
    let mut i: usize = 0;
    while i < len
        invariant
            i <= len,
            len == end - start + 1,
            carol@.len() == len,
            kynea@.len() == len,
            forall|t: int| 0 <= t < len ==> #[trigger] carol@[t]
                == if t < i { survives(carol_kynea_value((start + t) as nat, false), 2) }
                    else { !sieve_hit(carol_kynea_value((start + t) as nat, false), 2) },
            forall|t: int| 0 <= t < len ==> #[trigger] kynea@[t]
                == if t < i { survives(carol_kynea_value((start + t) as nat, true), 2) }
                    else { !sieve_hit(carol_kynea_value((start + t) as nat, true), 2) },
        decreases len - i,
    {
        let n = start + i as u64;
        if !carol[i] && carol_kynea_is_small(n, false) {
            carol.set(i, true);
        }
        if !kynea[i] && carol_kynea_is_small(n, true) {
            kynea.set(i, true);
        }
        i = i + 1;
    }
    (carol, kynea)
}


/// base^(2^n) + 1.
pub open spec fn gen_fermat_value(base: nat, n: nat) -> int {
    pow(base as int, pow2(n)) + 1
}

/// Squaring base^(2^n) gives base^(2^(n+1)), also modulo p.
proof fn lemma_square_step(b: int, n: nat, p: int, v: int)
    requires
        p > 0,
        v == pow(b, pow2(n)) % p,
    ensures
        pow(b, pow2(n + 1)) == pow(b, pow2(n)) * pow(b, pow2(n)),
        (v * v) % p == pow(b, pow2(n + 1)) % p,
{
    lemma_pow2_unfold(n + 1);
    lemma_pow_multiplies(b, pow2(n), 2);
    assert(pow2(n) * 2 == pow2(n + 1));
    lemma_square_is_pow2(pow(b, pow2(n)));
    lemma_mul_mod_noop_general(pow(b, pow2(n)), pow(b, pow2(n)), p);
}

/// Whether base^(2^n) + 1 is at most the largest sieve prime.
pub fn gen_fermat_is_small(base: u64, n: u64) -> (r: bool)
    ensures
        r == (gen_fermat_value(base as nat, n as nat) <= largest_sieve_prime()),
{
    if base <= 1 {
        proof {
            lemma_pow2_pos(n as nat);
            if base == 0 {
                lemma0_pow(pow2(n as nat));
            } else {
                lemma1_pow(pow2(n as nat));
            }
        }
        return true;
    }
    let mut x: u128 = base as u128;
    let mut i: u64 = 0;
    proof {
        assert(pow2(0) == 1) by {
            lemma_pow2(0);
            reveal(pow);
        }
        lemma_pow1(base as int);
    }
    while i < n && x <= 9972
        invariant
            i <= n,
            base >= 2,
            x == pow(base as int, pow2(i as nat)),
        decreases n - i,
    {
        proof {
            lemma_square_step(base as int, i as nat, 1, 0);
            assert(x * x <= 9972 * 9972) by (nonlinear_arith)
                requires x <= 9972;
        }
        x = x * x;
        i = i + 1;
    }
    if i < n {
        proof {
            lemma_pow2_strictly_increases(i as nat, n as nat);
            lemma_pow_increases(base as nat, pow2(i as nat), pow2(n as nat));
        }
        return false;
    }
    x <= 9972
}

/// Sieve generalized Fermat numbers base^(2^n) + 1 for n in [start, end]
/// (entry i stands for n = start + i) with the sieve primes p ≥ 3, p ∤ base.
pub fn sieve_gen_fermat(base: u64, start: u64, end: u64, tables: &PrimeTables) -> (survivors: Vec<bool>)
    requires
        tables.wf(),
        end < start || end - start < usize::MAX,
    ensures
        end < start ==> survivors@.len() == 0,
        start <= end ==> survivors@.len() == end - start + 1,
        forall|i: int| 0 <= i < survivors@.len() ==> #[trigger] survivors@[i]
            == survives(gen_fermat_value(base as nat, (start + i) as nat), base as nat),
{
    if end < start {
        return Vec::new();
    }
    let len: usize = (end - start + 1) as usize;
    let mut survivors: Vec<bool> = Vec::new();
    let mut i: usize = 0;
    while i < len
        invariant
            i <= len,
            survivors@.len() == i,
            forall|t: int| 0 <= t < i ==> #[trigger] survivors@[t]
                == !hit_below(gen_fermat_value(base as nat, (start + t) as nat), base as nat, 0),
        decreases len - i,
    {
        survivors.push(true);
        i = i + 1;
    }
    let mut j: usize = 0;
    assert(nats(tables.sieve@).len() == tables.sieve@.len());
    while j < tables.sieve.len()
        invariant
            tables.wf(),
            j <= tables.sieve@.len(),
            tables.sieve@.len() == prime_list(10000).len(),
            len == end - start + 1,
            survivors@.len() == len,
            forall|t: int| 0 <= t < len ==> #[trigger] survivors@[t]
                == !hit_below(gen_fermat_value(base as nat, (start + t) as nat), base as nat, j as int),
        decreases tables.sieve@.len() - j,
    {
        let p = tables.sieve[j];
        proof {
            lemma_table_entry(tables, j as int);
        }
        if p >= 3 && base % p != 0 {
            let ctx = MontCtx::new(p);
            let base_mont = ctx.to_mont(base % p);
            let mut x_mont = base_mont;
            let mut s: u64 = 0;
            proof {
                lemma_mod_bound(base as int, p as int);
                lemma_small_mod((base % p) as nat, p as nat);
                assert(pow2(0) == 1) by {
                    lemma_pow2(0);
                    reveal(pow);
                }
                lemma_pow1(base as int);
            }
            while s < start
                invariant
                    s <= start,
                    ctx.wf(),
                    ctx.modulus() == p,
                    3 <= p < 10000,
                    x_mont < p,
                    ctx.value_of(x_mont as int) == pow(base as int, pow2(s as nat)) % (p as int),
                decreases start - s,
            {
                let ghost v = ctx.value_of(x_mont as int);
                x_mont = ctx.mul(x_mont, x_mont);
                proof {
                    lemma_square_step(base as int, s as nat, p as int, v);
                }
                s = s + 1;
            }
            let mut i: usize = 0;
            while i < len
                invariant
                    tables.wf(),
                    j < tables.sieve@.len(),
                    p as nat == prime_list(10000)[j as int],
                    3 <= p < 10000,
                    base % p != 0,
                    ctx.wf(),
                    ctx.modulus() == p,
                    x_mont < p,
                    ctx.value_of(x_mont as int) == pow(base as int, pow2((start + i) as nat)) % (p as int),
                    i <= len,
                    len == end - start + 1,
                    survivors@.len() == len,
                    forall|t: int| 0 <= t < len ==> #[trigger] survivors@[t]
                        == !hit_below(gen_fermat_value(base as nat, (start + t) as nat), base as nat,
                            if t < i { j + 1 } else { j as int }),
                decreases len - i,
            {
                let n = start + i as u64;
                let x_val = ctx.from_mont(x_mont);
                proof {
                    lemma_sign_residue(pow(base as int, pow2(n as nat)), x_val as int, p as int, true);
                    lemma_hit_below_step(gen_fermat_value(base as nat, n as nat), base as nat, j as int);
                }
                if (x_val + 1) % p == 0 {
                    survivors.set(i, false);
                }
                let ghost v = ctx.value_of(x_mont as int);
                x_mont = ctx.mul(x_mont, x_mont);
                proof {
                    lemma_square_step(base as int, n as nat, p as int, v);
                }
                i = i + 1;
            }
        } else {
            proof {
                assert forall|t: int| 0 <= t < len implies #[trigger] survivors@[t]
                    == !hit_below(gen_fermat_value(base as nat, (start + t) as nat), base as nat, j + 1) by {
                    lemma_hit_below_step(gen_fermat_value(base as nat, (start + t) as nat), base as nat, j as int);
                }
            }
        }
        j = j + 1;
    }
    let mut i: usize = 0;
    while i < len
        invariant
            i <= len,
            len == end - start + 1,
            survivors@.len() == len,
            forall|t: int| 0 <= t < len ==> #[trigger] survivors@[t]
                == if t < i { survives(gen_fermat_value(base as nat, (start + t) as nat), base as nat) }
                    else { !sieve_hit(gen_fermat_value(base as nat, (start + t) as nat), base as nat) },
        decreases len - i,
    {
        let n = start + i as u64;
        if !survivors[i] && gen_fermat_is_small(base, n) {
            survivors.set(i, true);
        }
        i = i + 1;
    }
    survivors
}

/// No prime lies strictly between 9973 and 10000.
proof fn lemma_no_prime_above_largest(p: nat)
    requires
        9973 < p < 10000,
    ensures
        !is_prime(p),
{
    let d: nat = if p % 2 == 0 { 2 }
        else if p == 9977 { 11 }
        else if p == 9979 { 17 }
        else if p == 9983 { 67 }
        else if p == 9989 { 7 }
        else if p == 9991 { 97 }
        else if p == 9997 { 13 }
        else if p == 9985 || p == 9995 { 5 }
        else { 3 };
    assert(p % d == 0);
}

/// The sieve never removes a prime: a prime candidate that one of the sieve
/// primes divides is that prime itself, which is never sieved out.
pub proof fn lemma_primes_survive(v: nat, excl: nat)
    requires
        is_prime(v),
    ensures
        survives(v as int, excl),
{
    if sieve_hit(v as int, excl) {
        lemma_prime_list_facts(10000);
        let j = choose|j: int| 0 <= j < prime_list(10000).len() as int && #[trigger] divides_at(v as int, excl, j);
        let p = prime_list(10000)[j];
        assert(is_prime(p));
        lemma_prime_divides_prime(v, p);
        if p > 9973 {
            lemma_no_prime_above_largest(p);
        }
    }
}

} // verus!
