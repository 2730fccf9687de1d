//! Small-prime arithmetic on machine integers: trial-division primality and
//! the sieve of Eratosthenes that builds the prime tables.
use vstd::prelude::*;
use vstd::arithmetic::div_mod::*;
use vstd::arithmetic::mul::*;

verus! {

/// `n` is prime: at least 2 and without a divisor strictly between 1 and n.
pub open spec fn is_prime(n: nat) -> bool {
    n >= 2 && forall|d: nat| 2 <= d < n ==> #[trigger] (n % d) != 0
}

/// The primes below `lim`, in increasing order.
pub open spec fn prime_list(lim: nat) -> Seq<nat>
    decreases lim,
{
    if lim == 0 {
        Seq::empty()
    } else if is_prime((lim - 1) as nat) {
        prime_list((lim - 1) as nat).push((lim - 1) as nat)
    } else {
        prime_list((lim - 1) as nat)
    }
}

/// The values of a vector of machine integers, as naturals.
pub open spec fn nats(v: Seq<u64>) -> Seq<nat> {
    v.map_values(|x: u64| x as nat)
}

/// If e divides d and d divides n, then e divides n.
pub proof fn lemma_divides_trans(n: nat, d: nat, e: nat)
    requires
        d > 0,
        e > 0,
        n % d == 0,
        d % e == 0,
    ensures
        n % e == 0,
{
    lemma_fundamental_div_mod(n as int, d as int);
    lemma_fundamental_div_mod(d as int, e as int);
    let a = (n / d) as int;
    let b = (d / e) as int;
    assert(n as int == e * (b * a)) by (nonlinear_arith)
        requires n as int == d * a, d as int == e * b;
    lemma_mod_multiples_basic(b * a, e as int);
    assert(e * (b * a) == (b * a) * e) by (nonlinear_arith);
}

/// A composite number k ≥ 2 has a divisor d ≥ 2 with d² ≤ k.
pub proof fn lemma_composite_small_divisor(k: nat, d: nat)
    requires
        2 <= d < k,
        k % d == 0,
    ensures
        exists|e: nat| 2 <= e && e * e <= k && #[trigger] (k % e) == 0,
{
    if d * d <= k {
        assert(k % d == 0);
    } else {
        lemma_fundamental_div_mod(k as int, d as int);
        let e = k / d;
        assert(k == d * e);
        assert(e >= 2) by (nonlinear_arith)
            requires k == d * e, d < k, d >= 2;
        assert(e * e <= k) by (nonlinear_arith)
            requires k == d * e, d * d > k, e >= 2;
        lemma_mod_multiples_basic(d as int, e as int);
        assert(k == d * e);
        assert((d * e) % e == 0);
    }
}

/// k ≥ 2 is prime exactly when no d ≥ 2 with d² ≤ k divides it.
pub proof fn lemma_prime_iff_no_small_divisor(k: nat)
    requires
        k >= 2,
    ensures
        is_prime(k) <==> (forall|d: nat| 2 <= d && d * d <= k ==> #[trigger] (k % d) != 0),
{
    if is_prime(k) {
        assert forall|d: nat| 2 <= d && d * d <= k implies #[trigger] (k % d) != 0 by {
            assert(d < k) by (nonlinear_arith)
                requires 2 <= d, d * d <= k;
        }
    } else {
        let d = choose|d: nat| 2 <= d < k && #[trigger] (k % d) == 0;
        lemma_composite_small_divisor(k, d);
    }
}

/// Quick primality test for 64-bit values via trial division by 2, 3 and
/// numbers of the form 6k ± 1.
pub fn is_prime_u64(n: u64) -> (r: bool)
    ensures
        r == is_prime(n as nat),
{
    if n < 2 {
        return false;
    }
    if n == 2 || n == 3 {
        return true;
    }
    if n % 2 == 0 || n % 3 == 0 {
        return false;
    }
    let mut i: u64 = 5;
    proof {
        assert forall|d: nat| 2 <= d < 5 implies #[trigger] ((n as nat) % d) != 0 by {
            if d == 4 && (n as nat) % d == 0 {
                lemma_divides_trans(n as nat, 4, 2);
            }
        }
    }
    while i <= n / i
        invariant
            n >= 5,
            n % 2 != 0,
            n % 3 != 0,
            i >= 5,
            i % 6 == 5,
            forall|d: nat| 2 <= d < i ==> #[trigger] ((n as nat) % d) != 0,
        decreases n - i,
    {
        assert(i * i <= n) by (nonlinear_arith)
            requires i <= n / i, i > 0;
        assert(i + 6 <= n) by (nonlinear_arith)
            requires i * i <= n, i >= 5;
        if n % i == 0 || n % (i + 2) == 0 {
            proof {
                if n % i == 0 {
                    assert(i < n);
                    assert((n as nat) % (i as nat) == 0);
                } else {
                    assert((n as nat) % ((i + 2) as nat) == 0);
                    assert(i + 2 < n) by (nonlinear_arith) requires i * i <= n, i >= 5;
                }
            }
            return false;
        }
        proof {
            assert forall|d: nat| 2 <= d < i + 6 implies #[trigger] ((n as nat) % d) != 0 by {
                if d >= i && d != i && d != i + 2 {
                    if (n as nat) % d == 0 {
                        if d == i + 4 {
                            assert(d % 3 == 0);
                            lemma_divides_trans(n as nat, d, 3);
                        } else {
                            assert(d % 2 == 0);
                            lemma_divides_trans(n as nat, d, 2);
                        }
                    }
                }
            }
        }
        i = i + 6;
    }
    proof {
        assert(i * i > n) by (nonlinear_arith)
            requires !(i <= n / i), i > 0;
        lemma_prime_iff_no_small_divisor(n as nat);
        assert forall|d: nat| 2 <= d && d * d <= n implies #[trigger] ((n as nat) % d) != 0 by {
            if d >= i {
                assert(d * d >= i * i) by (nonlinear_arith) requires d >= i, i >= 5;
            }
        }
    }
    true
}

/// Sieve of Eratosthenes: flags[k] is true exactly when k is prime, for k < limit.
pub fn sieve_flags(limit: usize) -> (flags: Vec<bool>)
    requires
        2 <= limit <= usize::MAX / 2,
    ensures
        flags@.len() == limit,
        forall|k: int| 0 <= k < limit ==> #[trigger] flags@[k] == is_prime(k as nat),
{
    let mut flags: Vec<bool> = Vec::new();
    let mut k: usize = 0;
    while k < limit
        invariant
            k <= limit,
            flags@.len() == k,
            forall|j: int| 0 <= j < k ==> #[trigger] flags@[j] == (j >= 2),
        decreases limit - k,
    {
        flags.push(k >= 2);
        k = k + 1;
    }
    let mut i: usize = 2;
    while i <= (limit - 1) / i
        invariant
            2 <= i,
            2 <= limit <= usize::MAX / 2,
            flags@.len() == limit,
            forall|k: int| 0 <= k < limit ==> #[trigger] flags@[k] == (k >= 2 && forall|d: nat|
                2 <= d < i && d * d <= k ==> #[trigger] ((k as nat) % d) != 0),
        decreases limit - i,
    {
        assert(i * i < limit) by (nonlinear_arith)
            requires i as int <= ((limit - 1) as int) / (i as int), i >= 2;
        assert(i < limit) by (nonlinear_arith)
            requires i * i < limit, i >= 2;
        if flags[i] {
            let mut j: usize = i * i;
            proof {
                lemma_mod_multiples_basic(i as int, i as int);
            }
            while j < limit
                invariant
                    2 <= i,
                    i < limit,
                    limit <= usize::MAX / 2,
                    i * i < limit,
                    i * i <= j,
                    (j as nat) % (i as nat) == 0,
                    flags@.len() == limit,
                    forall|k: int| 0 <= k < limit ==> #[trigger] flags@[k] == (k >= 2
                        && (forall|d: nat| 2 <= d < i && d * d <= k ==> #[trigger] ((k as nat) % d) != 0)
                        && !(i * i <= k < j && (k as nat) % (i as nat) == 0)),
                decreases limit + i - j,
            {
                flags.set(j, false);
                proof {
                    lemma_mod_multiples_vanish(1, j as int, i as int);
                    assert(((j + i) as nat) % (i as nat) == 0) by {
                        assert((i * 1 + j) as int == (j + i) as int);
                    }
                    assert forall|k: int| 0 <= k < limit implies #[trigger] flags@[k] == (k >= 2
                        && (forall|d: nat| 2 <= d < i && d * d <= k ==> #[trigger] ((k as nat) % d) != 0)
                        && !(i * i <= k < j + i && (k as nat) % (i as nat) == 0)) by {
                        if j < k < j + i && (k as nat) % (i as nat) == 0 {
                            // no multiple of i lies strictly between j and j + i
                            lemma_fundamental_div_mod(k as int, i as int);
                            lemma_fundamental_div_mod(j as int, i as int);
                            let qk = k / (i as int);
                            let qj = (j as int) / (i as int);
                            assert(k == i * qk);
                            assert(j == i * qj);
                            assert(false) by (nonlinear_arith)
                                requires k == i * qk, j == i * qj, j < k, k < j + i, i > 0;
                        }
                    }
                }
                j = j + i;
            }
            proof {
                assert forall|k: int| 0 <= k < limit implies #[trigger] flags@[k] == (k >= 2
                    && forall|d: nat| 2 <= d < i + 1 && d * d <= k ==> #[trigger] ((k as nat) % d) != 0) by {
                    if k >= 2 && i * i <= k && (k as nat) % (i as nat) == 0 {
                        assert((k as nat) % (i as nat) == 0);
                    }
                }
            }
        } else {
            proof {
                // i is composite: it has a divisor e < i with e² ≤ i, which then
                // divides every multiple of i.
                assert(exists|e: nat| 2 <= e < i && e * e <= i && #[trigger] ((i as nat) % e) == 0);
                let e = choose|e: nat| 2 <= e < i && e * e <= i && #[trigger] ((i as nat) % e) == 0;
                assert forall|k: int| 0 <= k < limit implies #[trigger] flags@[k] == (k >= 2
                    && forall|d: nat| 2 <= d < i + 1 && d * d <= k ==> #[trigger] ((k as nat) % d) != 0) by {
                    if k >= 2 && i * i <= k && (k as nat) % (i as nat) == 0 {
                        lemma_divides_trans(k as nat, i as nat, e);
                        assert(e * e <= k) by (nonlinear_arith)
                            requires e * e <= i, i * i <= k, i >= 2, e >= 2;
                        assert(((k as nat) % e) == 0);
                    }
                }
            }
        }
        i = i + 1;
    }
    proof {
        assert(i * i >= limit) by (nonlinear_arith)
            requires !(i as int <= ((limit - 1) as int) / (i as int)), i >= 2, limit >= 2;
        assert forall|k: int| 0 <= k < limit implies #[trigger] flags@[k] == is_prime(k as nat) by {
            if k >= 2 {
                lemma_prime_iff_no_small_divisor(k as nat);
                assert forall|d: nat| 2 <= d && #[trigger] (d * d) <= k implies d < i by {
                    if d >= i {
                        assert(d * d >= i * i) by (nonlinear_arith) requires d >= i, i >= 2;
                    }
                }
            }
        }
    }
    flags
}

/// The first `count` primes below `limit` (at least one prime is always
/// collected, as the collection stops only after a push).
pub open spec fn first_primes(limit: nat, count: nat) -> Seq<nat> {
    let want: nat = if count == 0 { 1 } else { count };
    let all = prime_list(limit);
    if want <= all.len() { all.take(want as int) } else { all }
}

/// Prime list of an extended bound: one more candidate appended when prime.
pub proof fn lemma_prime_list_step(k: nat)
    ensures
        prime_list(k + 1) == (if is_prime(k) { prime_list(k).push(k) } else { prime_list(k) }),
{
}

/// Every entry of `prime_list(lim)` is a prime below `lim`, in increasing order.
pub proof fn lemma_prime_list_facts(lim: nat)
    ensures
        forall|i: int| 0 <= i < prime_list(lim).len() ==> is_prime(#[trigger] prime_list(lim)[i])
            && prime_list(lim)[i] < lim,
        forall|i: int, j: int| 0 <= i < j < prime_list(lim).len()
            ==> #[trigger] prime_list(lim)[i] < #[trigger] prime_list(lim)[j],
        forall|p: nat| p < lim && is_prime(p) ==> #[trigger] prime_list(lim).contains(p),
        prime_list(lim).len() <= lim,
    decreases lim,
{
    if lim > 0 {
        lemma_prime_list_facts((lim - 1) as nat);
        let prev = prime_list((lim - 1) as nat);
        if is_prime((lim - 1) as nat) {
            assert forall|p: nat| p < lim && is_prime(p) implies #[trigger] prime_list(lim).contains(p) by {
                if p == lim - 1 {
                    assert(prime_list(lim)[prev.len() as int] == p);
                } else {
                    assert(prev.contains(p));
                    let i = choose|i: int| 0 <= i < prev.len() && prev[i] == p;
                    assert(prime_list(lim)[i] == p);
                }
            }
        }
    }
}

/// Collect the indices of the set flags below `limit`, stopping once `count`
/// have been collected (and at least one has).
fn collect_primes(flags: &Vec<bool>, limit: usize, count: usize) -> (primes: Vec<u64>)
    requires
        flags@.len() == limit,
        forall|k: int| 0 <= k < limit ==> #[trigger] flags@[k] == is_prime(k as nat),
    ensures
        nats(primes@) == first_primes(limit as nat, count as nat),
{
    let mut primes: Vec<u64> = Vec::new();
    let mut k: usize = 0;
    let ghost want: nat = if count == 0 { 1 } else { count as nat };
    let mut done = false;
    while k < limit && !done
        invariant
            k <= limit,
            flags@.len() == limit,
            forall|k: int| 0 <= k < limit ==> #[trigger] flags@[k] == is_prime(k as nat),
            want == (if count == 0 { 1 } else { count as nat }),
            !done ==> nats(primes@) == prime_list(k as nat) && primes@.len() < want,
            done ==> nats(primes@) == prime_list(k as nat) && primes@.len() == want,
        decreases limit - k + (if done { 0int } else { 1int }),
    {
        proof {
            lemma_prime_list_step(k as nat);
        }
        if flags[k] {
            primes.push(k as u64);
            assert(nats(primes@) =~= prime_list(k as nat).push(k as nat));
            if primes.len() >= count {
                done = true;
            }
        }
        k = k + 1;
    }
    proof {
        lemma_prime_list_facts(limit as nat);
        lemma_prime_list_prefix(k as nat, limit as nat);
        let all = prime_list(limit as nat);
        if done {
            assert(all.take(want as int) =~= prime_list(k as nat));
        } else {
            assert(k == limit);
        }
    }
    primes
}

/// The primes below a smaller bound are a prefix of the primes below a larger one.
pub proof fn lemma_prime_list_prefix(a: nat, b: nat)
    requires
        a <= b,
    ensures
        prime_list(a).len() <= prime_list(b).len(),
        prime_list(b).take(prime_list(a).len() as int) == prime_list(a),
    decreases b - a,
{
    if a < b {
        lemma_prime_list_prefix(a, (b - 1) as nat);
        let pb = prime_list((b - 1) as nat);
        assert(prime_list(b).take(pb.len() as int) =~= pb);
        assert(prime_list(b).take(prime_list(a).len() as int) =~= pb.take(prime_list(a).len() as int));
    } else {
        assert(prime_list(b).take(prime_list(a).len() as int) =~= prime_list(a));
    }
}

/// Build a table of the first `count` primes by sieving up to 8000
/// (or `12·count` for larger tables).
pub fn build_small_primes(count: usize) -> (primes: Vec<u64>)
    requires
        count <= 1000 || count <= usize::MAX / 24,
    ensures
        nats(primes@) == first_primes(if count <= 1000 { 8000 } else { 12 * count as nat }, count as nat),
{
    let limit: usize = if count <= 1000 { 8000 } else { count * 12 };
    let flags = sieve_flags(limit);
    collect_primes(&flags, limit, count)
}

/// All primes below 10000 (the 1229 sieve primes of the modular sieves).
pub fn sieve_primes() -> (primes: Vec<u64>)
    ensures
        nats(primes@) == prime_list(10000),
{
    let flags = sieve_flags(10000);
    let primes = collect_primes(&flags, 10000, 10000);
    proof {
        lemma_prime_list_facts(10000);
    }
    primes
}

/// All primes up to and including `limit`.
pub fn primes_up_to(limit: u64) -> (primes: Vec<u64>)
    requires
        limit < usize::MAX / 2,
    ensures
        nats(primes@) == prime_list(limit as nat + 1),
{
    if limit < 2 {
        proof {
            reveal_with_fuel(prime_list, 3);
            assert(!is_prime(0));
            assert(!is_prime(1));
        }
        assert(prime_list(limit as nat + 1) =~= Seq::<nat>::empty()) by {
            reveal_with_fuel(prime_list, 3);
        }
        return Vec::new();
    }
    let lim: usize = (limit + 1) as usize;
    let flags = sieve_flags(lim);
    let primes = collect_primes(&flags, lim, lim);
    proof {
        lemma_prime_list_facts(lim as nat);
    }
    primes
}

} // verus!
