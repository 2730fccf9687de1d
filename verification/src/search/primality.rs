//! Primality testing of big candidates: trial division by a table of small
//! primes, then a Miller-Rabin test with twelve fixed witnesses.
use vstd::prelude::*;
use vstd::arithmetic::div_mod::*;
use vstd::arithmetic::power::*;
use vstd::arithmetic::power2::*;
use crate::bignum::BigNat;
use crate::search::primes::{is_prime as prime, prime_list, first_primes, nats, build_small_primes, sieve_primes, lemma_prime_list_facts, lemma_divides_trans, lemma_prime_iff_no_small_divisor};
use crate::text::decimal;
use crate::search::fermat::lemma_fermat_little;
use crate::batch_gcd::lemma_euclid;

verus! {

/// The prime tables the engine works with: the first 1000 primes for trial
/// division and all primes below 10000 for the modular sieves.
pub struct PrimeTables {
    pub small: Vec<u64>,
    pub sieve: Vec<u64>,
}

/// The trial-division table: the first 1000 primes (all below 8000).
pub open spec fn small_table() -> Seq<nat> {
    first_primes(8000, 1000)
}

impl PrimeTables {
    /// Whether the tables hold exactly the primes described above.
    pub open spec fn wf(&self) -> bool {
        &&& nats(self.small@) == small_table()
        &&& nats(self.sieve@) == prime_list(10000)
    }

    /// Build both tables by sieving.
    pub fn new() -> (t: PrimeTables)
        ensures
            t.wf(),
    {
        PrimeTables { small: build_small_primes(1000), sieve: sieve_primes() }
    }
}

/// Every entry of the trial-division table is prime, and the table is the
/// list of all primes below some bound.
pub proof fn lemma_small_table_primes()
    ensures
        forall|i: int| 0 <= i < small_table().len() ==> prime(#[trigger] small_table()[i]),
        exists|k: nat| k <= 8000 && small_table() == prime_list(k),
{
    lemma_prime_list_facts(8000);
    let all = prime_list(8000);
    if 1000 <= all.len() {
        lemma_take_is_prime_list(8000, 1000);
    } else {
        assert(small_table() == prime_list(8000));
    }
}

/// A prefix of the primes below `lim` is the list of primes below some smaller bound.
pub proof fn lemma_take_is_prime_list(lim: nat, c: nat)
    requires
        c <= prime_list(lim).len(),
    ensures
        exists|k: nat| k <= lim && prime_list(lim).take(c as int) == prime_list(k),
    decreases lim,
{
    if c == prime_list(lim).len() {
        assert(prime_list(lim).take(c as int) =~= prime_list(lim));
    } else {
        let prev = prime_list((lim - 1) as nat);
        assert(lim > 0);
        if prime((lim - 1) as nat) {
            assert(c <= prev.len());
            lemma_take_is_prime_list((lim - 1) as nat, c);
            assert(prime_list(lim).take(c as int) =~= prev.take(c as int));
        } else {
            lemma_take_is_prime_list((lim - 1) as nat, c);
        }
    }
}

/// A prime divisor of a prime is that prime.
pub proof fn lemma_prime_divides_prime(p: nat, q: nat)
    requires
        prime(p),
        prime(q),
        p % q == 0,
    ensures
        p == q,
{
    if q < p {
        assert(p % q != 0);
    } else if q > p {
        lemma_small_mod(p, q);
    }
}

/// Some table entry other than `n` itself divides `n`.
pub open spec fn has_small_factor_spec(n: nat, t: Seq<nat>) -> bool {
    exists|i: int| 0 <= i < t.len() && #[trigger] (n % t[i]) == 0 && n != t[i]
}

/// Trial division against a table of primes: true when `n` has a table
/// prime as a proper divisor (so `n` is composite, or zero).
pub fn has_small_factor(n: &BigNat, table: &Vec<u64>) -> (r: bool)
    requires
        forall|i: int| 0 <= i < table@.len() ==> prime(#[trigger] table@[i] as nat),
    ensures
        r == has_small_factor_spec(n@, nats(table@)),
{
    let ghost t = nats(table@);
    let mut i: usize = 0;
    while i < table.len()
        invariant
            i <= table@.len(),
            t == nats(table@),
            forall|i: int| 0 <= i < table@.len() ==> prime(#[trigger] table@[i] as nat),
            forall|j: int| 0 <= j < i ==> #[trigger] (n@ % t[j]) != 0,
        decreases table@.len() - i,
    {
        let p = table[i];
        assert(prime(p as nat));
        let r = n.mod_small(p);
        if r == 0 {
            assert(n@ % t[i as int] == 0);
            if n.eq_u64(p) {
                proof {
                    assert forall|j: int| 0 <= j < t.len() && #[trigger] (n@ % t[j]) == 0 implies n@ == t[j] by {
                        assert(prime(table@[j] as nat));
                        lemma_prime_divides_prime(n@, t[j]);
                    }
                }
                return false;
            }
            return true;
        }
        i = i + 1;
    }
    false
}

/// The twelve fixed Miller-Rabin witnesses.
pub open spec fn mr_witnesses() -> Seq<nat> {
    seq![2, 3, 5, 7, 11, 13, 17, 19, 23, 29, 31, 37]
}

/// Whether witness `a` fails to prove `n` composite, given n − 1 = 2^r·d:
/// either a ≥ n − 1, or a^d ≡ 1, or a^(d·2^j) ≡ −1 (mod n) for j = 0 or
/// some 0 < j < r.
pub open spec fn mr_passes(n: nat, a: nat, d: nat, r: nat) -> bool {
    ||| a + 1 >= n
    ||| pow(a as int, d) % (n as int) == 1
    ||| exists|j: nat| (j == 0 || j < r) && #[trigger] (pow(a as int, d * pow2(j)) % (n as int)) == n - 1
}

/// Squaring the j-th term of the witness sequence gives the (j+1)-th.
proof fn lemma_square_step(a: nat, d: nat, j: nat, n: nat, x: int)
    requires
        n > 0,
        x == pow(a as int, d * pow2(j)) % (n as int),
    ensures
        pow(x, 2) % (n as int) == pow(a as int, d * pow2(j + 1)) % (n as int),
{
    lemma_pow_mod_noop(pow(a as int, d * pow2(j)), 2, n as int);
    lemma_pow_multiplies(a as int, d * pow2(j), 2);
    lemma_pow2_unfold(j + 1);
    assert(d * pow2(j) * 2 == d * pow2(j + 1)) by (nonlinear_arith)
        requires pow2(j + 1) == 2 * pow2(j);
}

/// A single Miller-Rabin round with witness `a_val`, for n − 1 = 2^r·d.
/// Returns false exactly when the witness proves `n` composite.
pub fn mr_witness(n: &BigNat, a_val: u64, d: &BigNat, r: u64) -> (res: bool)
    requires
        n@ >= 2,
    ensures
        res == mr_passes(n@, a_val as nat, d@, r as nat),
{
    let one = BigNat::one();
    let two = BigNat::from_u64(2);
    let n_minus_1 = n.sub(&one);
    let a = BigNat::from_u64(a_val);
    if !a.lt(&n_minus_1) {
        return true;
    }
    let mut x = a.modpow(d, n);
    proof {
        reveal(pow);
        lemma_pow2(0);
        reveal(pow);
        assert(pow(2, 0) == 1);
        assert(d@ * pow2(0) == d@);
    }
    if x.eq_u64(1) || x.equals(&n_minus_1) {
        proof {
            if x@ != 1 {
                assert(pow(a_val as int, d@ * pow2(0)) % (n@ as int) == n@ - 1);
            }
        }
        return true;
    }
    let mut j: u64 = 1;
    while j < r
        invariant
            n@ >= 2,
            1 <= j <= r || (j == 1 && r <= 1),
            two@ == 2,
            n_minus_1@ == n@ - 1,
            a@ == a_val,
            a_val + 1 < n@,
            x@ == pow(a_val as int, d@ * pow2((j - 1) as nat)) % (n@ as int),
            pow(a_val as int, d@) % (n@ as int) != 1,
            forall|i: nat| i < j ==> #[trigger] (pow(a_val as int, d@ * pow2(i)) % (n@ as int)) != n@ - 1,
        decreases r - j,
    {
        let ghost prev = x@;
        x = x.modpow(&two, n);
        proof {
            lemma_square_step(a_val as nat, d@, (j - 1) as nat, n@, prev as int);
            lemma_pow1(prev as int);
            assert(two@ == 2);
        }
        if x.equals(&n_minus_1) {
            return true;
        }
        j = j + 1;
    }
    proof {
        assert forall|i: nat| (i == 0 || i < r) implies #[trigger] (pow(a_val as int, d@ * pow2(i)) % (n@ as int)) != n@ - 1 by {
            assert(i < j);
        }
    }
    false
}

/// The odd part of m: m with all factors of two removed (0 stays 0).
pub open spec fn odd_part(m: nat) -> nat
    decreases m,
{
    if m > 0 && m % 2 == 0 { odd_part(m / 2) } else { m }
}

/// The exponent of two in m (0 for m = 0), capped at the largest u64.
pub open spec fn two_adic(m: nat) -> nat
    decreases m,
{
    if m > 0 && m % 2 == 0 {
        let r = two_adic(m / 2);
        if r < u64::MAX { r + 1 } else { r }
    } else {
        0
    }
}

/// Miller-Rabin with the twelve fixed witnesses: 2 and 3 are prime, smaller
/// values and even values are not, and an odd n ≥ 5 passes when every witness
/// passes for n − 1 = 2^r·d.
pub open spec fn miller_rabin_spec(n: nat) -> bool {
    if n < 2 {
        false
    } else if n == 2 || n == 3 {
        true
    } else if n % 2 == 0 {
        false
    } else {
        forall|i: int| 0 <= i < 12 ==> mr_passes(n, #[trigger] mr_witnesses()[i], odd_part((n - 1) as nat),
            two_adic((n - 1) as nat))
    }
}

/// Split m > 0 as 2^r·d with d odd: returns (d, r) (r capped at the
/// largest u64).
pub fn split_two_power(m: &BigNat) -> (res: (BigNat, u64))
    requires
        m@ > 0,
    ensures
        res.0@ == odd_part(m@),
        res.1 as nat == two_adic(m@),
{
    let two = BigNat::from_u64(2);
    let mut d = m.dup();
    let mut r: u64 = 0;
    proof {
        lemma_two_adic_cap(m@);
    }
    while d.is_even()
        invariant
            d@ > 0,
            two@ == 2,
            odd_part(d@) == odd_part(m@),
            (if two_adic(d@) + r >= u64::MAX { u64::MAX as nat } else { (two_adic(d@) + r) as nat })
                == two_adic(m@),
        decreases d@,
    {
        let ghost old_d = d@;
        d = d.div(&two);
        proof {
            assert(d@ == old_d / 2);
            assert(d@ > 0);
            lemma_two_adic_cap(d@);
        }
        r = if r < u64::MAX { r + 1 } else { r };
    }
    proof {
        assert(odd_part(d@) == d@);
        assert(two_adic(d@) == 0);
    }
    (d, r)
}

/// The exec witness list.
fn witness_list() -> (w: Vec<u64>)
    ensures
        nats(w@) == mr_witnesses(),
{
    let w: Vec<u64> = vec![2, 3, 5, 7, 11, 13, 17, 19, 23, 29, 31, 37];
    assert(nats(w@) =~= mr_witnesses());
    w
}

/// Two-stage Miller-Rabin test with 12 fixed witnesses (2 and 3 first, then
/// the remaining ten). Deterministic for n < 3.317 × 10^24.
pub fn miller_rabin(n: &BigNat) -> (r: bool)
    ensures
        r == miller_rabin_spec(n@),
{
    if n.lt(&BigNat::from_u64(2)) {
        return false;
    }
    if n.eq_u64(2) || n.eq_u64(3) {
        return true;
    }
    if n.is_even() {
        return false;
    }
    let n_minus_1 = n.sub(&BigNat::one());
    let (d, r) = split_two_power(&n_minus_1);
    let w = witness_list();
    assert(w@.len() == 12) by {
        assert(nats(w@).len() == 12);
    }
    let mut i: usize = 0;
    while i < 12
        invariant
            i <= 12,
            n@ >= 4,
            n@ % 2 == 1,
            w@.len() == 12,
            nats(w@) == mr_witnesses(),
            d@ == odd_part((n@ - 1) as nat),
            r as nat == two_adic((n@ - 1) as nat),
            forall|k: int| 0 <= k < i ==> mr_passes(n@, #[trigger] mr_witnesses()[k], d@, r as nat),
        decreases 12 - i,
    {
        assert(w@[i as int] as nat == mr_witnesses()[i as int]) by {
            assert(nats(w@)[i as int] == w@[i as int] as nat);
        }
        if !mr_witness(n, w[i], &d, r) {
            return false;
        }
        i = i + 1;
    }
    true
}

/// The primality verdict on big candidates: at least 2, no proper divisor in
/// the trial-division table, and passing Miller-Rabin.
pub open spec fn probable_prime(n: nat) -> bool {
    n >= 2 && !has_small_factor_spec(n, small_table()) && miller_rabin_spec(n)
}

/// Full primality test: trial division by the first 1000 primes, then the
/// 12-witness Miller-Rabin test.
pub fn is_prime(n: &BigNat, tables: &PrimeTables) -> (r: bool)
    requires
        tables.wf(),
    ensures
        r == probable_prime(n@),
{
    proof {
        lemma_small_table_primes();
        assert forall|i: int| 0 <= i < tables.small@.len() implies prime(#[trigger] tables.small@[i] as nat) by {
            assert(nats(tables.small@)[i] == tables.small@[i] as nat);
        }
    }
    if n.lt(&BigNat::from_u64(2)) {
        return false;
    }
    if has_small_factor(n, &tables.small) {
        // Only a table prime itself could be prime here, and a table prime has
        // no proper table divisor.
        match n.to_u64() {
            Some(v) => {
                let mut found = false;
                let mut i: usize = 0;
                while i < tables.small.len()
                    invariant
                        i <= tables.small@.len(),
                        tables.wf(),
                        has_small_factor_spec(n@, nats(tables.small@)),
                        forall|i: int| 0 <= i < small_table().len() ==> prime(#[trigger] small_table()[i]),
                        !found,
                        v as nat == n@,
                        forall|j: int| 0 <= j < i ==> tables.small@[j] != v,
                    decreases tables.small@.len() - i,
                {
                    if tables.small[i] == v {
                        proof {
                            let t = small_table();
                            assert(nats(tables.small@)[i as int] == tables.small@[i as int] as nat);
                            assert(t[i as int] == n@);
                            assert(has_small_factor_spec(n@, t));
                            let k = choose|k: int| 0 <= k < t.len() && #[trigger] (n@ % t[k]) == 0 && n@ != t[k];
                            assert(prime(t[k]));
                            assert(prime(t[i as int]));
                            lemma_prime_divides_prime(n@, t[k]);
                        }
                        return true;
                    }
                    i = i + 1;
                }
                return false;
            },
            None => {
                return false;
            },
        }
    }
    miller_rabin(n)
}

/// Number of decimal digits of `n` (1 for zero).
pub fn digit_count(n: &BigNat) -> (c: usize)
    ensures
        c == decimal(n@).len(),
{
    let s = n.to_decimal();
    s.as_str().unicode_len()
}

/// Below the square of the largest trial-division prime, a candidate that
/// passes `is_prime` is prime: trial division alone is already complete there.
pub proof fn lemma_probable_prime_sound_below_table_square(n: nat)
    requires
        probable_prime(n),
        small_table().len() > 0,
        n < small_table().last() * small_table().last(),
    ensures
        prime(n),
{
    lemma_small_table_primes();
    let k = choose|k: nat| k <= 8000 && small_table() == prime_list(k);
    lemma_prime_list_facts(k);
    let t = small_table();
    lemma_small_table_nonempty();
    let last = t.last();
    lemma_prime_iff_no_small_divisor(n);
    assert forall|d: nat| 2 <= d && d * d <= n implies #[trigger] (n % d) != 0 by {
        if n % d == 0 {
            // the least prime factor q of d divides n and q <= d < last
            let q = least_prime_factor(d);
            lemma_least_prime_factor(d);
            lemma_divides_trans(n, d, q);
            assert(d < last) by {
                if d >= last {
                    assert(d * d >= last * last) by (nonlinear_arith) requires d >= last;
                }
            }
            assert(q < k) by {
                assert(prime(last));
                assert(last < k);
            }
            assert(t.contains(q));
            let i = choose|i: int| 0 <= i < t.len() && t[i] == q;
            assert(n % t[i] == 0);
            assert(n != t[i]) by {
                assert(q <= d);
                assert(d * d >= 2 * d) by (nonlinear_arith) requires d >= 2;
            }
        }
    }
}

/// The trial-division table is not empty (it starts with 2).
pub proof fn lemma_small_table_nonempty()
    ensures
        small_table().len() > 0,
{
    lemma_prime_list_facts(8000);
    assert(prime(2));
    assert(prime_list(8000).contains(2));
}

/// The capped two-adic valuation never exceeds the largest u64, and peels
/// one factor of two at a time.
pub proof fn lemma_two_adic_cap(m: nat)
    ensures
        two_adic(m) <= u64::MAX,
        m > 0 && m % 2 == 0 ==> two_adic(m) == (if two_adic(m / 2) < u64::MAX { two_adic(m / 2) + 1 } else {
            two_adic(m / 2)
        }),
    decreases m,
{
    if m > 0 && m % 2 == 0 {
        lemma_two_adic_cap(m / 2);
    }
}

/// The least divisor of m that is at least 2.
pub open spec fn least_prime_factor(m: nat) -> nat {
    choose|q: nat| #![trigger (m % q)] 2 <= q <= m && m % q == 0 && forall|e: nat| 2 <= e < q ==> #[trigger] (m % e) != 0
}

/// The least divisor ≥ 2 of m ≥ 2 is a prime factor of m.
pub proof fn lemma_least_prime_factor(m: nat)
    requires
        m >= 2,
    ensures
        prime(least_prime_factor(m)),
        m % least_prime_factor(m) == 0,
        least_prime_factor(m) <= m,
{
    lemma_least_divisor_exists(m, m);
    let q = least_prime_factor(m);
    assert forall|e: nat| 2 <= e < q implies #[trigger] (q % e) != 0 by {
        if q % e == 0 {
            lemma_divides_trans(m, q, e);
        }
    }
}

proof fn lemma_least_divisor_exists(m: nat, bound: nat)
    requires
        2 <= bound <= m,
        m % bound == 0 || bound == m,
    ensures
        exists|q: nat| #![trigger (m % q)] 2 <= q <= m && m % q == 0 && forall|e: nat| 2 <= e < q ==> #[trigger] (m % e) != 0,
    decreases bound,
{
    vstd::arithmetic::div_mod::lemma_mod_self_0(m as int);
    if forall|e: nat| 2 <= e < bound ==> #[trigger] (m % e) != 0 {
        assert(m % bound == 0);
    } else {
        let e = choose|e: nat| 2 <= e < bound && #[trigger] (m % e) == 0;
        lemma_least_divisor_exists(m, e);
    }
}

// ── completeness: primes pass ───────────────────────────────────────

/// m = odd_part(m)·2^two_adic(m) when the exponent of two is below the cap.
pub proof fn lemma_split_two_power(m: nat)
    requires
        m > 0,
        two_adic(m) < u64::MAX,
    ensures
        odd_part(m) * pow2(two_adic(m)) == m,
    decreases m,
{
    lemma_two_adic_cap(m);
    if m % 2 == 0 {
        lemma_two_adic_cap(m / 2);
        lemma_split_two_power(m / 2);
        lemma_pow2_unfold(two_adic(m));
        let d = odd_part(m / 2);
        let e = two_adic(m / 2);
        assert(two_adic(m) == e + 1);
        assert(d * pow2(e + 1) == 2 * (d * pow2(e))) by (nonlinear_arith)
            requires
                pow2(e + 1) == 2 * pow2(e);
        assert(odd_part(m) == d);
        assert(d * pow2(e) == m / 2);
        assert(m == 2 * (m / 2));
        assert(odd_part(m) * pow2(two_adic(m)) == d * pow2(e + 1));
    } else {
        assert(pow2(0) == 1) by {
            lemma_pow2(0);
            lemma_pow0(2);
        }
        assert(odd_part(m) == m);
        assert(two_adic(m) == 0);
        assert(odd_part(m) * pow2(two_adic(m)) == m * 1);
    }
}

/// Modulo a prime, the only square roots of 1 are 1 and −1.
pub proof fn lemma_sqrt_one_mod_prime(n: nat, x: nat)
    requires
        prime(n),
        x < n,
        (x * x) % n == 1,
    ensures
        x == 1 || x == n - 1,
{
    if x == 0 {
        lemma_small_mod(0, n);
    } else {
        let u = (x - 1) as nat;
        let v = x + 1;
        lemma_fundamental_div_mod((x * x) as int, n as int);
        let q = (x * x) as int / n as int;
        assert(u * v == q * n) by (nonlinear_arith)
            requires
                (x * x) as int == n * q + 1,
                u == x - 1,
                v == x + 1;
        lemma_mod_multiples_basic(q, n as int);
        lemma_euclid(n, u, v);
        if u % n == 0 {
            lemma_small_mod(u, n);
        } else {
            if v < n {
                lemma_small_mod(v, n);
            }
        }
    }
}

/// If the witness sequence reaches 1 at step j but does not start at 1, an
/// earlier term is n − 1.
proof fn lemma_witness_chain(n: nat, a: nat, d: nat, j: nat)
    requires
        prime(n),
        pow(a as int, d * pow2(j)) % (n as int) == 1,
        pow(a as int, d) % (n as int) != 1,
    ensures
        exists|k: nat| k < j && #[trigger] (pow(a as int, d * pow2(k)) % (n as int)) == n - 1,
    decreases j,
{
    if j == 0 {
        assert(pow2(0) == 1) by {
            lemma_pow2(0);
            lemma_pow0(2);
        }
        assert(d * pow2(0) == d);
    } else {
        let j1 = (j - 1) as nat;
        let y = pow(a as int, d * pow2(j1)) % (n as int);
        lemma_square_step(a, d, j1, n, y);
        lemma_square_is_pow2(y);
        assert(0 <= y < n);
        lemma_sqrt_one_mod_prime(n, y as nat);
        if y == n - 1 {
            assert(pow(a as int, d * pow2(j1)) % (n as int) == n - 1);
        } else {
            lemma_witness_chain(n, a, d, j1);
            let k = choose|k: nat| k < j1 && #[trigger] (pow(a as int, d * pow2(k)) % (n as int)) == n - 1;
            assert(k < j);
        }
    }
}

/// A prime n ≥ 3 passes the Miller-Rabin round of every witness a ≥ 1 (when
/// the exponent of two in n − 1 is below the cap).
pub proof fn lemma_prime_passes_witness(n: nat, a: nat)
    requires
        prime(n),
        n >= 3,
        a >= 1,
        two_adic((n - 1) as nat) < u64::MAX,
    ensures
        mr_passes(n, a, odd_part((n - 1) as nat), two_adic((n - 1) as nat)),
{
    let m = (n - 1) as nat;
    let d = odd_part(m);
    let s = two_adic(m);
    if a + 1 < n {
        lemma_split_two_power(m);
        lemma_small_mod(a, n);
        lemma_fermat_little(a, n);
        assert(pow(a as int, d * pow2(s)) % (n as int) == 1);
        if pow(a as int, d) % (n as int) != 1 {
            lemma_witness_chain(n, a, d, s);
            let k = choose|k: nat| k < s && #[trigger] (pow(a as int, d * pow2(k)) % (n as int)) == n - 1;
            assert(k == 0 || k < s);
        }
    }
}

/// Miller-Rabin with the twelve witnesses never rejects a prime (when the
/// exponent of two in n − 1 is below the cap).
pub proof fn lemma_miller_rabin_complete(n: nat)
    requires
        prime(n),
        two_adic((n - 1) as nat) < u64::MAX,
    ensures
        miller_rabin_spec(n),
{
    if n > 3 {
        assert(n % 2 != 0) by {
            assert(2 < n);
        }
        assert forall|i: int| 0 <= i < 12 implies mr_passes(n, #[trigger] mr_witnesses()[i],
            odd_part((n - 1) as nat), two_adic((n - 1) as nat)) by {
            assert(mr_witnesses()[i] >= 2);
            lemma_prime_passes_witness(n, mr_witnesses()[i]);
        }
    }
}

/// The full test never rejects a prime: no table prime is a proper divisor
/// of it, and it passes Miller-Rabin (when the exponent of two in n − 1 is
/// below the cap).
pub proof fn lemma_probable_prime_complete(n: nat)
    requires
        prime(n),
        two_adic((n - 1) as nat) < u64::MAX,
    ensures
        probable_prime(n),
{
    lemma_miller_rabin_complete(n);
    lemma_small_table_primes();
    assert(!has_small_factor_spec(n, small_table())) by {
        if has_small_factor_spec(n, small_table()) {
            let i = choose|i: int| 0 <= i < small_table().len() && #[trigger] (n % small_table()[i]) == 0
                && n != small_table()[i];
            lemma_prime_divides_prime(n, small_table()[i]);
        }
    }
}

} // verus!
