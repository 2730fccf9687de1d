//! Candidate generation and testing for each prime form. Every search
//! returns the primes found, in the order tested, and the number of
//! candidates it counted as tested (modulo 2^64, as the counter wraps).
use vstd::prelude::*;
use vstd::arithmetic::power::*;
use vstd::arithmetic::power2::*;
use crate::bignum::BigNat;
use crate::search::palindrome::{
    horner, palindrome_digits, to_digits, digits_below, build_palindrome, increment_half,
    lemma_digits_roundtrip, lemma_leading_one, lemma_increment_value,
};
use crate::text::{decimal, push_decimal, push_str};
use crate::search::primality::{PrimeTables, probable_prime, is_prime, digit_count};
use crate::search::primes::{
    is_prime as is_prime_nat, is_prime_u64, prime_list, nats, lemma_prime_list_facts,
    lemma_prime_list_prefix, lemma_prime_list_step,
};
use crate::search::sieve::{
    survives, kbn_value, modular_sieve_kbn, cullen_woodall_value, sieve_cullen_woodall,
    carol_kynea_value, sieve_carol_kynea, gen_fermat_value, sieve_gen_fermat,
};

verus! {

/// A prime found by a search.
pub struct PrimeResult {
    /// How the prime is written, e.g. `2^7-1`.
    pub expression: String,
    /// The form name, e.g. `kbn`.
    pub form: String,
    /// The number of decimal digits of the prime.
    pub digits: usize,
}

/// A found prime as (expression, form, number of decimal digits).
pub type Found = (Seq<char>, Seq<char>, nat);

impl View for PrimeResult {
    type V = Found;

    open spec fn view(&self) -> Found {
        (self.expression@, self.form@, self.digits as nat)
    }
}

/// The views of a list of results.
pub open spec fn founds(rs: Seq<PrimeResult>) -> Seq<Found> {
    rs.map_values(|r: PrimeResult| r@)
}

/// The entry for prime `value` written as `expr`, of form `form`.
pub open spec fn found(expr: Seq<char>, form: Seq<char>, value: nat) -> Found {
    (expr, form, decimal(value).len())
}

/// The primes found over a sequence of candidates, each contributing `g(c)`.
pub open spec fn gather(cands: Seq<nat>, g: spec_fn(nat) -> Seq<Found>) -> Seq<Found>
    decreases cands.len(),
{
    if cands.len() == 0 {
        Seq::empty()
    } else {
        gather(cands.drop_last(), g) + g(cands.last())
    }
}

/// The number of tests over a sequence of candidates, each counting `c(x)`.
pub open spec fn tally(cands: Seq<nat>, c: spec_fn(nat) -> nat) -> nat
    decreases cands.len(),
{
    if cands.len() == 0 {
        0
    } else {
        tally(cands.drop_last(), c) + c(cands.last())
    }
}

/// The value of the 64-bit tested counter after counting `x`.
pub open spec fn wrap64(x: nat) -> nat {
    x % 0x1_0000_0000_0000_0000
}

/// The integers start, start+1, ..., end (empty when end < start).
pub open spec fn span(start: nat, end: nat) -> Seq<nat> {
    if end < start {
        Seq::empty()
    } else {
        Seq::new((end - start + 1) as nat, |i: int| (start + i) as nat)
    }
}

/// One more candidate processed.
pub proof fn lemma_gather_step(cands: Seq<nat>, i: int, g: spec_fn(nat) -> Seq<Found>, c: spec_fn(nat) -> nat)
    requires
        0 <= i < cands.len(),
    ensures
        gather(cands.take(i + 1), g) == gather(cands.take(i), g) + g(cands[i]),
        tally(cands.take(i + 1), c) == tally(cands.take(i), c) + c(cands[i]),
{
    assert(cands.take(i + 1).drop_last() =~= cands.take(i));
}

/// Adding `d` to the wrapping counter.
pub proof fn lemma_wrap_add(x: nat, t: u64, d: nat)
    requires
        t as nat == wrap64(x),
        d <= 2,
    ensures
        wrap64(x + d) == (if t + d > u64::MAX { t + d - 0x1_0000_0000_0000_0000 } else { t + d }),
{
    vstd::arithmetic::div_mod::lemma_add_mod_noop(x as int, d as int, 0x1_0000_0000_0000_0000);
    vstd::arithmetic::div_mod::lemma_small_mod(d, 0x1_0000_0000_0000_0000);
    if t + d <= u64::MAX {
        vstd::arithmetic::div_mod::lemma_small_mod((t + d) as nat, 0x1_0000_0000_0000_0000);
    } else {
        vstd::arithmetic::div_mod::lemma_mod_sub_multiples_vanish((t + d) as int, 0x1_0000_0000_0000_0000);
        vstd::arithmetic::div_mod::lemma_small_mod((t + d - 0x1_0000_0000_0000_0000) as nat, 0x1_0000_0000_0000_0000);
    }
}

/// `n` as a `u32` exponent, when it fits.
pub fn checked_u32(n: u64) -> (r: Option<u32>)
    ensures
        r matches Some(e) ==> e as nat == n as nat,
        r is None <==> n > u32::MAX,
{
    if n <= 0xFFFF_FFFF { Some(n as u32) } else { None }
}

/// The entry for a found prime.
fn make_result(expression: String, form: &str, value: &BigNat) -> (r: PrimeResult)
    ensures
        r@ == found(expression@, form@, value@),
{
    let mut f = String::new();
    push_str(&mut f, form);
    assert(Seq::<char>::empty() + form@ =~= form@);
    PrimeResult { expression, form: f, digits: digit_count(value) }
}

// ── k·b^n ± 1 ───────────────────────────────────────────────────────

/// How k·b^n ± 1 is written: `b^n±1` when k = 1, else `k*b^n±1`.
pub open spec fn kbn_expr(k: nat, base: nat, plus: bool, n: nat) -> Seq<char> {
    let tail = decimal(base) + "^"@ + decimal(n) + (if plus { "+1"@ } else { "-1"@ });
    if k == 1 { tail } else { decimal(k) + "*"@ + tail }
}

/// What candidate n of k·b^n ± 1 contributes: the prime, when it survives the
/// sieve, its exponent fits in 32 bits, and it is a probable prime.
pub open spec fn kbn_found(k: nat, base: nat, plus: bool, n: nat) -> Seq<Found> {
    let v = kbn_value(k, base, plus, n);
    if survives(v, base) && n <= u32::MAX && v >= 2 && probable_prime(v as nat) {
        seq![found(kbn_expr(k, base, plus, n), "kbn"@, v as nat)]
    } else {
        Seq::empty()
    }
}

fn kbn_expression(k: u64, base: u64, plus: bool, n: u64) -> (s: String)
    ensures
        s@ == kbn_expr(k as nat, base as nat, plus, n as nat),
{
    let mut s = String::new();
    if k != 1 {
        push_decimal(&mut s, k);
        push_str(&mut s, "*");
    }
    push_decimal(&mut s, base);
    push_str(&mut s, "^");
    push_decimal(&mut s, n);
    if plus {
        push_str(&mut s, "+1");
    } else {
        push_str(&mut s, "-1");
    }
    proof {
        let tail = decimal(base as nat) + "^"@ + decimal(n as nat) + (if plus { "+1"@ } else { "-1"@ });
        if k == 1 {
            assert(s@ =~= tail);
        } else {
            assert(s@ =~= decimal(k as nat) + "*"@ + tail);
        }
    }
    s
}

/// Search k·b^n + sign (sign ≥ 0 meaning +1, otherwise −1) for n in
/// [start, end], after the modular sieve. Every n counts as tested.
pub fn search_kbn(k: u64, base: u64, sign: i8, start: u64, end: u64, tables: &PrimeTables)
    -> (r: (Vec<PrimeResult>, u64))
    requires
        tables.wf(),
        end < start || end - start < usize::MAX,
    ensures
        founds(r.0@) == gather(span(start as nat, end as nat),
            |n: nat| kbn_found(k as nat, base as nat, sign >= 0, n)),
        r.1 as nat == wrap64(span(start as nat, end as nat).len()),
{
    let ghost cands = span(start as nat, end as nat);
    let ghost g = |n: nat| kbn_found(k as nat, base as nat, sign >= 0, n);
    let ghost c = |n: nat| 1nat;
    let mut primes: Vec<PrimeResult> = Vec::new();
    let mut tested: u64 = 0;
    if end < start {
        assert(founds(primes@) =~= Seq::<Found>::empty());
        return (primes, tested);
    }
    let plus = sign >= 0;
    let survivors = modular_sieve_kbn(k, base, sign as i64, start, end, tables);
    let k_big = BigNat::from_u64(k);
    let base_big = BigNat::from_u64(base);
    let one = BigNat::one();
    let two = BigNat::from_u64(2);
    let mut n: u64 = start;
    let mut done = false;
    proof {
        assert(founds(primes@) =~= gather(cands.take(0), g));
        assert(cands.take(0) =~= Seq::<nat>::empty());
    }
    while !done
        invariant
            tables.wf(),
            start <= n <= end,
            end - start < usize::MAX,
            cands == span(start as nat, end as nat),
            cands.len() == end - start + 1,
            survivors@.len() == end - start + 1,
            forall|i: int| 0 <= i < survivors@.len() ==> #[trigger] survivors@[i]
                == survives(kbn_value(k as nat, base as nat, plus, (start + i) as nat), base as nat),
            plus == (sign >= 0),
            g == (|n: nat| kbn_found(k as nat, base as nat, sign >= 0, n)),
            c == (|n: nat| 1nat),
            k_big@ == k,
            base_big@ == base,
            one@ == 1,
            two@ == 2,
            !done ==> founds(primes@) == gather(cands.take(n - start), g)
                && tested as nat == wrap64(tally(cands.take(n - start), c)),
            done ==> founds(primes@) == gather(cands, g) && tested as nat == wrap64(tally(cands, c)),
        decreases end - n + (if done { 0int } else { 1int }),
    {
        let idx: usize = (n - start) as usize;
        let ghost i = idx as int;
        let ghost v = kbn_value(k as nat, base as nat, plus, n as nat);
        proof {
            lemma_gather_step(cands, i, g, c);
            assert(cands[i] == n);
            lemma_wrap_add(tally(cands.take(i), c), tested, 1);
        }
        let ghost before = primes@;
        if survivors[idx] {
            match checked_u32(n) {
                Some(e) => {
                    let power = base_big.pow(e);
                    let kp = k_big.mul(&power);
                    let mut candidate = BigNat::zero();
                    let mut ok = true;
                    if plus {
                        candidate = kp.add(&one);
                    } else if kp.lt(&two) {
                        ok = false;
                    } else {
                        candidate = kp.sub(&one);
                    }
                    if ok && !candidate.lt(&two) && is_prime(&candidate, tables) {
                        let expression = kbn_expression(k, base, plus, n);
                        primes.push(make_result(expression, "kbn", &candidate));
                        proof {
                            assert(candidate@ == v);
                        }
                    } else {
                        proof {
                            if ok {
                                assert(candidate@ == v);
                            }
                        }
                    }
                },
                None => {},
            }
        }
        tested = tested.wrapping_add(1);
        proof {
            assert(founds(primes@) =~= gather(cands.take(i + 1), g)) by {
                assert(founds(before) == gather(cands.take(i), g));
                if primes@.len() > before.len() {
                    assert(primes@ == before.push(primes@.last()));
                }
            }
            if n == end {
                assert(cands.take(i + 1) =~= cands);
            }
        }
        if n == end {
            done = true;
        } else {
            n = n + 1;
        }
    }
    proof {
        lemma_tally_ones(cands);
    }
    (primes, tested)
}

/// Counting one per candidate gives the number of candidates.
pub proof fn lemma_tally_ones(cands: Seq<nat>)
    ensures
        tally(cands, |n: nat| 1nat) == cands.len(),
    decreases cands.len(),
{
    if cands.len() > 0 {
        lemma_tally_ones(cands.drop_last());
    }
}


// ── twin primes ────────────────────────────────────────────────────

/// The first candidate p ≡ 5 (mod 6) with p ≥ max(start, 5).
pub open spec fn twin_first(start: nat) -> nat {
    let s = if start < 5 { 5 } else { start };
    (s + (11 - s % 6) % 6) as nat
}

/// The twin candidates: p ≡ 5 (mod 6) with max(start, 5) ≤ p ≤ end, ascending.
pub open spec fn twin_cands(start: nat, end: nat) -> Seq<nat> {
    let f = twin_first(start);
    if f > end {
        Seq::empty()
    } else {
        Seq::new(((end - f) / 6 + 1) as nat, |i: int| (f + 6 * i) as nat)
    }
}

/// How the twin pair (p, p+2) is written.
pub open spec fn twin_expr(p: nat) -> Seq<char> {
    "("@ + decimal(p) + ", "@ + decimal(p + 2) + ")"@
}

/// Candidate p contributes the pair when p and p + 2 are probable primes.
pub open spec fn twin_found(p: nat) -> Seq<Found> {
    if probable_prime(p) && probable_prime(p + 2) {
        seq![found(twin_expr(p), "twin"@, p)]
    } else {
        Seq::empty()
    }
}

/// Search twin primes (p, p+2) over p ≡ 5 (mod 6) in [max(start, 5), end].
pub fn search_twin(start: u64, end: u64, tables: &PrimeTables) -> (r: (Vec<PrimeResult>, u64))
    requires
        tables.wf(),
    ensures
        founds(r.0@) == gather(twin_cands(start as nat, end as nat), |p: nat| twin_found(p)),
        r.1 as nat == wrap64(twin_cands(start as nat, end as nat).len()),
{
    let ghost cands = twin_cands(start as nat, end as nat);
    let ghost g = |p: nat| twin_found(p);
    let ghost c = |p: nat| 1nat;
    let mut primes: Vec<PrimeResult> = Vec::new();
    let mut tested: u64 = 0;
    let s: u64 = if start < 5 { 5 } else { start };
    let delta: u64 = (11 - s % 6) % 6;
    proof {
        lemma_tally_ones(cands);
    }
    if s > end || end - s < delta {
        assert(founds(primes@) =~= Seq::<Found>::empty());
        return (primes, tested);
    }
    let mut p: u64 = s + delta;
    let ghost f = p as nat;
    let mut done = false;
    proof {
        assert(cands.take(0) =~= Seq::<nat>::empty());
        assert(founds(primes@) =~= gather(cands.take(0), g));
    }
    while !done
        invariant
            tables.wf(),
            f == twin_first(start as nat),
            f <= p <= end,
            (p - f) % 6 == 0,
            p % 6 == 5,
            cands == twin_cands(start as nat, end as nat),
            cands.len() == (end - f) / 6 + 1,
            g == (|p: nat| twin_found(p)),
            c == (|p: nat| 1nat),
            !done ==> founds(primes@) == gather(cands.take((p - f) / 6), g)
                && tested as nat == wrap64(tally(cands.take((p - f) / 6), c)),
            done ==> founds(primes@) == gather(cands, g) && tested as nat == wrap64(tally(cands, c)),
        decreases end - p + (if done { 0int } else { 1int }),
    {
        let ghost i = (p - f) / 6;
        proof {
            lemma_gather_step(cands, i, g, c);
            assert(cands[i] == p);
            lemma_wrap_add(tally(cands.take(i), c), tested, 1);
        }
        let ghost before = primes@;
        let p_big = BigNat::from_u64(p);
        let p2_big = BigNat::from_u64(p + 2);
        if is_prime(&p_big, tables) && is_prime(&p2_big, tables) {
            let mut e = String::new();
            push_str(&mut e, "(");
            push_decimal(&mut e, p);
            push_str(&mut e, ", ");
            push_decimal(&mut e, p + 2);
            push_str(&mut e, ")");
            assert(e@ =~= twin_expr(p as nat));
            primes.push(make_result(e, "twin", &p_big));
        }
        tested = tested.wrapping_add(1);
        proof {
            assert(founds(primes@) =~= gather(cands.take(i + 1), g)) by {
                if primes@.len() > before.len() {
                    assert(primes@ == before.push(primes@.last()));
                }
            }
        }
        if end - p < 6 {
            proof {
                assert(i + 1 == cands.len());
                assert(cands.take(i + 1) =~= cands);
            }
            done = true;
        } else {
            p = p + 6;
        }
    }
    (primes, tested)
}

// ── Sophie Germain primes ───────────────────────────────────────────

/// The first odd candidate: 3, or the least odd number ≥ start.
pub open spec fn sg_first(start: nat) -> nat {
    if start <= 3 { 3 } else if start % 2 == 0 { start + 1 } else { start }
}

/// The Sophie Germain candidates: 2 when in range, then the odd numbers from
/// `sg_first(start)` up to `end`.
pub open spec fn sg_cands(start: nat, end: nat) -> Seq<nat> {
    let two: Seq<nat> = if start <= 2 && 2 <= end { seq![2nat] } else { Seq::empty() };
    let f = sg_first(start);
    let odd: Seq<nat> = if f > end {
        Seq::empty()
    } else {
        Seq::new(((end - f) / 2 + 1) as nat, |i: int| (f + 2 * i) as nat)
    };
    two + odd
}

/// Candidate p contributes itself when it is 2 (listed without a test), or
/// when p and 2p + 1 are probable primes.
pub open spec fn sg_found(p: nat) -> Seq<Found> {
    if p == 2 || (probable_prime(p) && probable_prime(2 * p + 1)) {
        seq![found(decimal(p), "sophie_germain"@, p)]
    } else {
        Seq::empty()
    }
}

/// Search Sophie Germain primes p (p and 2p + 1 prime) in [start, end].
pub fn search_sophie_germain(start: u64, end: u64, tables: &PrimeTables) -> (r: (Vec<PrimeResult>, u64))
    requires
        tables.wf(),
    ensures
        founds(r.0@) == gather(sg_cands(start as nat, end as nat), |p: nat| sg_found(p)),
        r.1 as nat == wrap64(sg_cands(start as nat, end as nat).len()),
{
    let ghost cands = sg_cands(start as nat, end as nat);
    let ghost g = |p: nat| sg_found(p);
    let ghost c = |p: nat| 1nat;
    let ghost two: Seq<nat> = if start <= 2 && 2 <= end { seq![2nat] } else { Seq::empty() };
    let mut primes: Vec<PrimeResult> = Vec::new();
    let mut tested: u64 = 0;
    proof {
        lemma_tally_ones(cands);
        assert(cands.take(0) =~= Seq::<nat>::empty());
        assert(founds(primes@) =~= gather(cands.take(0), g));
    }
    if start <= 2 && end >= 2 {
        proof {
            lemma_gather_step(cands, 0, g, c);
            assert(cands[0] == 2);
        }
        let two_big = BigNat::from_u64(2);
        let e = crate::text::u64_to_decimal(2);
        primes.push(make_result(e, "sophie_germain", &two_big));
        tested = 1;
        proof {
            assert(founds(primes@) =~= gather(cands.take(1), g));
            vstd::arithmetic::div_mod::lemma_small_mod(1, 0x1_0000_0000_0000_0000);
        }
    }
    let ghost k0 = two.len();
    let f: u64 = if start <= 3 { 3 } else if start % 2 == 0 { start + 1 } else { start };
    if f > end {
        proof {
            assert(cands =~= two);
            assert(cands.take(k0 as int) =~= cands);
        }
        return (primes, tested);
    }
    let mut p: u64 = f;
    let mut done = false;
    while !done
        invariant
            tables.wf(),
            f == sg_first(start as nat),
            f <= p <= end,
            (p - f) % 2 == 0,
            p % 2 == 1,
            two == (if start <= 2 && 2 <= end { seq![2nat] } else { Seq::<nat>::empty() }),
            k0 == two.len(),
            cands == sg_cands(start as nat, end as nat),
            cands.len() == k0 + (end - f) / 2 + 1,
            forall|t: int| k0 <= t < cands.len() ==> #[trigger] cands[t] == f + 2 * (t - k0),
            g == (|p: nat| sg_found(p)),
            c == (|p: nat| 1nat),
            !done ==> founds(primes@) == gather(cands.take(k0 + (p - f) / 2), g)
                && tested as nat == wrap64(tally(cands.take(k0 + (p - f) / 2), c)),
            done ==> founds(primes@) == gather(cands, g) && tested as nat == wrap64(tally(cands, c)),
        decreases end - p + (if done { 0int } else { 1int }),
    {
        let ghost i = k0 + (p - f) / 2;
        proof {
            lemma_gather_step(cands, i, g, c);
            assert(cands[i] == p);
            lemma_wrap_add(tally(cands.take(i), c), tested, 1);
        }
        let ghost before = primes@;
        let p_big = BigNat::from_u64(p);
        if is_prime(&p_big, tables) {
            let sg = BigNat::from_u64(2).mul(&p_big).add(&BigNat::one());
            if is_prime(&sg, tables) {
                let e = crate::text::u64_to_decimal(p);
                primes.push(make_result(e, "sophie_germain", &p_big));
            }
        }
        tested = tested.wrapping_add(1);
        proof {
            assert(founds(primes@) =~= gather(cands.take(i + 1), g)) by {
                if primes@.len() > before.len() {
                    assert(primes@ == before.push(primes@.last()));
                }
            }
        }
        if end - p < 2 {
            proof {
                assert(i + 1 == cands.len());
                assert(cands.take(i + 1) =~= cands);
            }
            done = true;
        } else {
            p = p + 2;
        }
    }
    (primes, tested)
}


// ── factorial primes ────────────────────────────────────────────────

/// n!
pub open spec fn factorial(n: nat) -> nat
    decreases n,
{
    if n == 0 { 1 } else { n * factorial((n - 1) as nat) }
}

/// n! ≥ 1, and n! > 1 exactly when n ≥ 2.
pub proof fn lemma_factorial_bounds(n: nat)
    ensures
        factorial(n) >= 1,
        factorial(n) > 1 <==> n >= 2,
    decreases n,
{
    if n > 0 {
        lemma_factorial_bounds((n - 1) as nat);
        let f = factorial((n - 1) as nat);
        assert(n * f >= f) by (nonlinear_arith) requires n >= 1, f >= 1;
        if n >= 2 {
            assert(n * f >= 2) by (nonlinear_arith) requires n >= 2, f >= 1;
        }
    }
}

/// Candidate n contributes n!+1 and then n!−1, each when a probable prime
/// (n!−1 only when n! > 1).
pub open spec fn factorial_found(n: nat) -> Seq<Found> {
    let f = factorial(n);
    (if probable_prime(f + 1) {
        seq![found(decimal(n) + "!+1"@, "factorial"@, f + 1)]
    } else {
        Seq::empty()
    }) + (if f > 1 && probable_prime((f - 1) as nat) {
        seq![found(decimal(n) + "!-1"@, "factorial"@, (f - 1) as nat)]
    } else {
        Seq::empty()
    })
}

/// Tests made for candidate n: n!+1 always, n!−1 when n! > 1.
pub open spec fn factorial_tests(n: nat) -> nat {
    if factorial(n) > 1 { 2 } else { 1 }
}

fn suffix_expression(n: u64, suffix: &str) -> (s: String)
    ensures
        s@ == decimal(n as nat) + suffix@,
{
    let mut s = String::new();
    push_decimal(&mut s, n);
    push_str(&mut s, suffix);
    assert(s@ =~= decimal(n as nat) + suffix@);
    s
}

/// Search factorial primes n! ± 1 for n in [start, end].
pub fn search_factorial(start: u64, end: u64, tables: &PrimeTables) -> (r: (Vec<PrimeResult>, u64))
    requires
        tables.wf(),
    ensures
        founds(r.0@) == gather(span(start as nat, end as nat), |n: nat| factorial_found(n)),
        r.1 as nat == wrap64(tally(span(start as nat, end as nat), |n: nat| factorial_tests(n))),
{
    let ghost cands = span(start as nat, end as nat);
    let ghost g = |n: nat| factorial_found(n);
    let ghost c = |n: nat| factorial_tests(n);
    let mut primes: Vec<PrimeResult> = Vec::new();
    let mut tested: u64 = 0;
    proof {
        assert(cands.take(0) =~= Seq::<nat>::empty());
        assert(founds(primes@) =~= gather(cands.take(0), g));
    }
    let one = BigNat::one();
    let mut fact = BigNat::one();
    let mut m: u64 = 0;
    while m < start
        invariant
            m <= start,
            fact@ == factorial(m as nat),
        decreases start - m,
    {
        m = m + 1;
        let ghost prev = fact@;
        fact = fact.mul(&BigNat::from_u64(m));
        assert(fact@ == factorial(m as nat)) by {
            assert(prev * m == m * prev) by (nonlinear_arith);
        }
    }
    if end < start {
        assert(cands.take(0) =~= cands);
        return (primes, tested);
    }
    let mut n: u64 = start;
    let mut done = false;
    while !done
        invariant
            tables.wf(),
            start <= n <= end,
            cands == span(start as nat, end as nat),
            cands.len() == end - start + 1,
            g == (|n: nat| factorial_found(n)),
            c == (|n: nat| factorial_tests(n)),
            one@ == 1,
            fact@ == factorial(n as nat),
            !done ==> founds(primes@) == gather(cands.take(n - start), g)
                && tested as nat == wrap64(tally(cands.take(n - start), c)),
            done ==> founds(primes@) == gather(cands, g) && tested as nat == wrap64(tally(cands, c)),
        decreases end - n + (if done { 0int } else { 1int }),
    {
        let ghost i = n - start;
        proof {
            lemma_gather_step(cands, i, g, c);
            assert(cands[i] == n);
            lemma_factorial_bounds(n as nat);
            lemma_wrap_add(tally(cands.take(i), c), tested, factorial_tests(n as nat));
        }
        let ghost before = primes@;
        let plus_one = fact.add(&one);
        if is_prime(&plus_one, tables) {
            primes.push(make_result(suffix_expression(n, "!+1"), "factorial", &plus_one));
        }
        let ghost mid = primes@;
        let mut t: u64 = 1;
        if one.lt(&fact) {
            let minus_one = fact.sub(&one);
            t = 2;
            if is_prime(&minus_one, tables) {
                primes.push(make_result(suffix_expression(n, "!-1"), "factorial", &minus_one));
            }
        }
        tested = tested.wrapping_add(t);
        proof {
            assert(founds(primes@) =~= gather(cands.take(i + 1), g)) by {
                if mid.len() > before.len() {
                    assert(mid == before.push(mid.last()));
                }
                if primes@.len() > mid.len() {
                    assert(primes@ == mid.push(primes@.last()));
                }
            }
        }
        if n == end {
            proof {
                assert(cands.take(i + 1) =~= cands);
            }
            done = true;
        } else {
            n = n + 1;
            let ghost prev = fact@;
            fact = fact.mul(&BigNat::from_u64(n));
            assert(fact@ == factorial(n as nat)) by {
                assert(prev * n == n * prev) by (nonlinear_arith);
            }
        }
    }
    (primes, tested)
}


// ── Wagstaff primes ─────────────────────────────────────────────────

/// (2^p + 1) / 3
pub open spec fn wagstaff_value(p: nat) -> nat {
    ((pow(2, p) + 1) / 3) as nat
}

/// Candidate p is tested when it is an odd prime; it contributes (2^p + 1)/3
/// when p fits in 32 bits and the value is a probable prime.
pub open spec fn wagstaff_found(p: nat) -> Seq<Found> {
    if p != 2 && is_prime_nat(p) && p <= u32::MAX && probable_prime(wagstaff_value(p)) {
        seq![found("(2^"@ + decimal(p) + "+1)/3"@, "wagstaff"@, wagstaff_value(p))]
    } else {
        Seq::empty()
    }
}

/// Tests made for candidate p: one when p is an odd prime.
pub open spec fn wagstaff_tests(p: nat) -> nat {
    if p != 2 && is_prime_nat(p) { 1 } else { 0 }
}

/// Search Wagstaff primes (2^p + 1)/3 for odd primes p in [start, end].
pub fn search_wagstaff(start: u64, end: u64, tables: &PrimeTables) -> (r: (Vec<PrimeResult>, u64))
    requires
        tables.wf(),
    ensures
        founds(r.0@) == gather(span(start as nat, end as nat), |p: nat| wagstaff_found(p)),
        r.1 as nat == wrap64(tally(span(start as nat, end as nat), |p: nat| wagstaff_tests(p))),
{
    let ghost cands = span(start as nat, end as nat);
    let ghost g = |p: nat| wagstaff_found(p);
    let ghost c = |p: nat| wagstaff_tests(p);
    let mut primes: Vec<PrimeResult> = Vec::new();
    let mut tested: u64 = 0;
    proof {
        assert(cands.take(0) =~= Seq::<nat>::empty());
        assert(founds(primes@) =~= gather(cands.take(0), g));
    }
    if end < start {
        assert(cands.take(0) =~= cands);
        return (primes, tested);
    }
    let two = BigNat::from_u64(2);
    let three = BigNat::from_u64(3);
    let one = BigNat::one();
    let mut p: u64 = start;
    let mut done = false;
    while !done
        invariant
            tables.wf(),
            start <= p <= end,
            cands == span(start as nat, end as nat),
            cands.len() == end - start + 1,
            g == (|p: nat| wagstaff_found(p)),
            c == (|p: nat| wagstaff_tests(p)),
            one@ == 1,
            two@ == 2,
            three@ == 3,
            !done ==> founds(primes@) == gather(cands.take(p - start), g)
                && tested as nat == wrap64(tally(cands.take(p - start), c)),
            done ==> founds(primes@) == gather(cands, g) && tested as nat == wrap64(tally(cands, c)),
        decreases end - p + (if done { 0int } else { 1int }),
    {
        let ghost i = p - start;
        proof {
            lemma_gather_step(cands, i, g, c);
            assert(cands[i] == p);
            lemma_wrap_add(tally(cands.take(i), c), tested, wagstaff_tests(p as nat));
        }
        let ghost before = primes@;
        let mut t: u64 = 0;
        if p != 2 && is_prime_u64(p) {
            t = 1;
            match checked_u32(p) {
                Some(e) => {
                    let candidate = two.pow(e).add(&one).div(&three);
                    if is_prime(&candidate, tables) {
                        let mut s = String::new();
                        push_str(&mut s, "(2^");
                        push_decimal(&mut s, p);
                        push_str(&mut s, "+1)/3");
                        assert(s@ =~= "(2^"@ + decimal(p as nat) + "+1)/3"@);
                        primes.push(make_result(s, "wagstaff", &candidate));
                    }
                },
                None => {},
            }
        }
        tested = tested.wrapping_add(t);
        proof {
            assert(founds(primes@) =~= gather(cands.take(i + 1), g)) by {
                if primes@.len() > before.len() {
                    assert(primes@ == before.push(primes@.last()));
                }
            }
        }
        if p == end {
            proof {
                assert(cands.take(i + 1) =~= cands);
            }
            done = true;
        } else {
            p = p + 1;
        }
    }
    (primes, tested)
}

// ── repunit primes ──────────────────────────────────────────────────

/// R(base, n) = (base^n − 1) / (base − 1)
pub open spec fn repunit_value(base: nat, n: nat) -> nat {
    ((pow(base as int, n) - 1) / (base - 1)) as nat
}

/// Candidate n (prime n only) contributes R(base, n) when n fits in 32 bits
/// and the value is a probable prime.
pub open spec fn repunit_found(base: nat, n: nat) -> Seq<Found> {
    if is_prime_nat(n) && n <= u32::MAX && probable_prime(repunit_value(base, n)) {
        seq![found("R("@ + decimal(base) + ","@ + decimal(n) + ")"@, "repunit"@, repunit_value(base, n))]
    } else {
        Seq::empty()
    }
}

/// Tests made for candidate n: one when n is prime.
pub open spec fn prime_index_tests(n: nat) -> nat {
    if is_prime_nat(n) { 1 } else { 0 }
}

/// Search repunit primes R(base, n) for prime n in [start, end]; nothing is
/// searched for base < 2.
pub fn search_repunit(base: u64, start: u64, end: u64, tables: &PrimeTables) -> (r: (Vec<PrimeResult>, u64))
    requires
        tables.wf(),
    ensures
        base < 2 ==> r.0@.len() == 0 && r.1 == 0,
        base >= 2 ==> founds(r.0@) == gather(span(start as nat, end as nat),
            |n: nat| repunit_found(base as nat, n)),
        base >= 2 ==> r.1 as nat == wrap64(tally(span(start as nat, end as nat),
            |n: nat| prime_index_tests(n))),
{
    let ghost cands = span(start as nat, end as nat);
    let ghost g = |n: nat| repunit_found(base as nat, n);
    let ghost c = |n: nat| prime_index_tests(n);
    let mut primes: Vec<PrimeResult> = Vec::new();
    let mut tested: u64 = 0;
    if base < 2 {
        return (primes, tested);
    }
    proof {
        assert(cands.take(0) =~= Seq::<nat>::empty());
        assert(founds(primes@) =~= gather(cands.take(0), g));
    }
    if end < start {
        assert(cands.take(0) =~= cands);
        return (primes, tested);
    }
    let base_big = BigNat::from_u64(base);
    let divisor = BigNat::from_u64(base - 1);
    let one = BigNat::one();
    let mut n: u64 = start;
    let mut done = false;
    while !done
        invariant
            tables.wf(),
            base >= 2,
            start <= n <= end,
            cands == span(start as nat, end as nat),
            cands.len() == end - start + 1,
            g == (|n: nat| repunit_found(base as nat, n)),
            c == (|n: nat| prime_index_tests(n)),
            one@ == 1,
            base_big@ == base,
            divisor@ == base - 1,
            !done ==> founds(primes@) == gather(cands.take(n - start), g)
                && tested as nat == wrap64(tally(cands.take(n - start), c)),
            done ==> founds(primes@) == gather(cands, g) && tested as nat == wrap64(tally(cands, c)),
        decreases end - n + (if done { 0int } else { 1int }),
    {
        let ghost i = n - start;
        proof {
            lemma_gather_step(cands, i, g, c);
            assert(cands[i] == n);
            lemma_wrap_add(tally(cands.take(i), c), tested, prime_index_tests(n as nat));
        }
        let ghost before = primes@;
        let mut t: u64 = 0;
        if is_prime_u64(n) {
            t = 1;
            match checked_u32(n) {
                Some(e) => {
                    let power = base_big.pow(e);
                    proof {
                        lemma_pow_positive(base as int, e as nat);
                    }
                    let candidate = power.sub(&one).div(&divisor);
                    if is_prime(&candidate, tables) {
                        let mut s = String::new();
                        push_str(&mut s, "R(");
                        push_decimal(&mut s, base);
                        push_str(&mut s, ",");
                        push_decimal(&mut s, n);
                        push_str(&mut s, ")");
                        assert(s@ =~= "R("@ + decimal(base as nat) + ","@ + decimal(n as nat) + ")"@);
                        primes.push(make_result(s, "repunit", &candidate));
                    }
                },
                None => {},
            }
        }
        tested = tested.wrapping_add(t);
        proof {
            assert(founds(primes@) =~= gather(cands.take(i + 1), g)) by {
                if primes@.len() > before.len() {
                    assert(primes@ == before.push(primes@.last()));
                }
            }
        }
        if n == end {
            proof {
                assert(cands.take(i + 1) =~= cands);
            }
            done = true;
        } else {
            n = n + 1;
        }
    }
    (primes, tested)
}


// ── primorial primes ────────────────────────────────────────────────

/// The product of a sequence of naturals.
pub open spec fn product(s: Seq<nat>) -> nat
    decreases s.len(),
{
    if s.len() == 0 { 1 } else { product(s.drop_last()) * s.last() }
}

/// p# — the product of all primes ≤ p.
pub open spec fn primorial(p: nat) -> nat {
    product(prime_list(p + 1))
}

/// The primes p with start ≤ p ≤ end, ascending.
pub open spec fn primes_between(start: nat, end: nat) -> Seq<nat> {
    if start > end {
        Seq::empty()
    } else {
        prime_list(end + 1).skip(prime_list(start).len() as int)
    }
}

/// The primes below `a` are the entries of `prime_list(b)` below `a`, and they
/// come first.
pub proof fn lemma_prime_list_split(a: nat, b: nat)
    requires
        a <= b,
    ensures
        prime_list(a).len() <= prime_list(b).len(),
        prime_list(b).take(prime_list(a).len() as int) == prime_list(a),
        forall|i: int| 0 <= i < prime_list(a).len() ==> #[trigger] prime_list(b)[i] < a,
        forall|i: int| prime_list(a).len() <= i < prime_list(b).len() ==> #[trigger] prime_list(b)[i] >= a,
{
    lemma_prime_list_prefix(a, b);
    lemma_prime_list_facts(a);
    lemma_prime_list_facts(b);
    let pa = prime_list(a);
    let pb = prime_list(b);
    assert forall|i: int| 0 <= i < pa.len() implies #[trigger] pb[i] < a by {
        assert(pb.take(pa.len() as int)[i] == pb[i]);
    }
    assert forall|i: int| pa.len() <= i < pb.len() implies #[trigger] pb[i] >= a by {
        if pb[i] < a {
            assert(pa.contains(pb[i]));
            let k = choose|k: int| 0 <= k < pa.len() && pa[k] == pb[i];
            assert(pb.take(pa.len() as int)[k] == pb[k]);
            assert(pb[k] < pb[i]);
        }
    }
}

/// The primes up to the i-th entry of a prime list are the primes ≤ that entry.
pub proof fn lemma_prime_list_take(lim: nat, i: int)
    requires
        0 <= i < prime_list(lim).len(),
    ensures
        prime_list(lim).take(i + 1) == prime_list(prime_list(lim)[i] + 1),
{
    let pl = prime_list(lim);
    let p = pl[i];
    lemma_prime_list_facts(lim);
    lemma_prime_list_facts(p + 1);
    lemma_prime_list_split(p + 1, lim);
    let m = prime_list(p + 1).len() as int;
    assert(prime_list(p + 1).contains(p));
    let k = choose|k: int| 0 <= k < m && #[trigger] prime_list(p + 1)[k] == p;
    assert(pl.take(m)[k] == pl[k]);
    assert(k == i) by {
        if k < i {
            assert(pl[k] < pl[i]);
        } else if k > i {
            assert(pl[i] < pl[k]);
        }
    }
    if m > i + 1 {
        assert(pl[i + 1] < p + 1);
        assert(pl[i] < pl[i + 1]);
    }
    assert(pl.take(i + 1) =~= pl.take(m));
}

/// Candidate p contributes p#+1 and then p#−1, each when a probable prime
/// (p#−1 only when p# > 1).
pub open spec fn primorial_found(p: nat) -> Seq<Found> {
    let f = primorial(p);
    (if probable_prime(f + 1) {
        seq![found(decimal(p) + "#+1"@, "primorial"@, f + 1)]
    } else {
        Seq::empty()
    }) + (if f > 1 && probable_prime((f - 1) as nat) {
        seq![found(decimal(p) + "#-1"@, "primorial"@, (f - 1) as nat)]
    } else {
        Seq::empty()
    })
}

/// Tests made for prime p: p#+1 always, p#−1 when p# > 1.
pub open spec fn primorial_tests(p: nat) -> nat {
    if primorial(p) > 1 { 2 } else { 1 }
}

/// All primes up to and including `end`, by trial division of each number.
fn primes_through(end: u64) -> (v: Vec<u64>)
    ensures
        nats(v@) == prime_list(end as nat + 1),
{
    let mut v: Vec<u64> = Vec::new();
    let mut n: u64 = 0;
    let mut done = false;
    proof {
        assert(nats(v@) =~= prime_list(0));
    }
    while !done
        invariant
            n <= end,
            !done ==> nats(v@) == prime_list(n as nat),
            done ==> nats(v@) == prime_list(end as nat + 1),
        decreases end - n + (if done { 0int } else { 1int }),
    {
        proof {
            lemma_prime_list_step(n as nat);
        }
        if is_prime_u64(n) {
            v.push(n);
        }
        assert(nats(v@) =~= prime_list(n as nat + 1));
        if n == end {
            done = true;
        } else {
            n = n + 1;
        }
    }
    v
}

/// Search primorial primes p# ± 1 for primes p in [start, end].
pub fn search_primorial(start: u64, end: u64, tables: &PrimeTables) -> (r: (Vec<PrimeResult>, u64))
    requires
        tables.wf(),
    ensures
        founds(r.0@) == gather(primes_between(start as nat, end as nat), |p: nat| primorial_found(p)),
        r.1 as nat == wrap64(tally(primes_between(start as nat, end as nat), |p: nat| primorial_tests(p))),
{
    let ghost cands = primes_between(start as nat, end as nat);
    let ghost g = |p: nat| primorial_found(p);
    let ghost c = |p: nat| primorial_tests(p);
    let mut primes: Vec<PrimeResult> = Vec::new();
    let mut tested: u64 = 0;
    let plist = primes_through(end);
    let ghost pl = prime_list(end as nat + 1);
    proof {
        lemma_prime_list_facts(end as nat + 1);
        assert(nats(plist@).len() == plist@.len());
    }
    let one = BigNat::one();
    let mut primorial_big = BigNat::one();
    let mut idx: usize = 0;
    proof {
        assert(pl.take(0) =~= Seq::<nat>::empty());
    }
    while idx < plist.len() && plist[idx] < start
        invariant
            idx <= plist@.len(),
            nats(plist@) == pl,
            pl == prime_list(end as nat + 1),
            plist@.len() == pl.len(),
            forall|t: int| 0 <= t < idx ==> #[trigger] pl[t] < start,
            primorial_big@ == product(pl.take(idx as int)),
        decreases plist@.len() - idx,
    {
        assert(nats(plist@)[idx as int] == plist@[idx as int] as nat);
        let ghost prev = primorial_big@;
        primorial_big = primorial_big.mul(&BigNat::from_u64(plist[idx]));
        assert(pl.take(idx + 1).drop_last() =~= pl.take(idx as int));
        idx = idx + 1;
    }
    let ghost idx0 = idx as int;
    proof {
        if start as nat <= end as nat + 1 {
            lemma_prime_list_split(start as nat, end as nat + 1);
            let ms = prime_list(start as nat).len() as int;
            if idx0 < ms {
                assert(idx0 < plist@.len());
                assert(nats(plist@)[idx0] == plist@[idx0] as nat);
                assert(pl[idx0] < start);
            }
            if idx0 > ms {
                assert(pl[ms] < start);
            }
            assert(idx0 == ms);
            if start <= end {
                assert(cands =~= pl.skip(idx0));
            } else {
                assert(idx0 == pl.len());
            }
        } else {
            assert(idx0 == pl.len()) by {
                if idx0 < pl.len() {
                    assert(nats(plist@)[idx0] == plist@[idx0] as nat);
                    assert(pl[idx0] < end as nat + 1);
                }
            }
        }
        assert(cands =~= pl.skip(idx0));
        assert(cands.take(0) =~= Seq::<nat>::empty());
        assert(founds(primes@) =~= gather(cands.take(0), g));
    }
    while idx < plist.len()
        invariant
            tables.wf(),
            0 <= idx0 <= idx <= plist@.len(),
            nats(plist@) == pl,
            pl == prime_list(end as nat + 1),
            plist@.len() == pl.len(),
            cands == pl.skip(idx0),
            g == (|p: nat| primorial_found(p)),
            c == (|p: nat| primorial_tests(p)),
            one@ == 1,
            primorial_big@ == product(pl.take(idx as int)),
            founds(primes@) == gather(cands.take(idx - idx0), g),
            tested as nat == wrap64(tally(cands.take(idx - idx0), c)),
        decreases plist@.len() - idx,
    {
        let p = plist[idx];
        let ghost i = idx - idx0;
        proof {
            assert(nats(plist@)[idx as int] == plist@[idx as int] as nat);
            assert(cands.len() == pl.len() - idx0);
            assert(cands[i] == pl[idx as int]);
            lemma_gather_step(cands, i, g, c);
            assert(cands[i] == p);
            lemma_prime_list_take(end as nat + 1, idx as int);
        }
        primorial_big = primorial_big.mul(&BigNat::from_u64(p));
        proof {
            assert(pl.take(idx + 1).drop_last() =~= pl.take(idx as int));
            assert(primorial_big@ == primorial(p as nat));
            lemma_wrap_add(tally(cands.take(i), c), tested, primorial_tests(p as nat));
        }
        let ghost before = primes@;
        let plus_one = primorial_big.add(&one);
        if is_prime(&plus_one, tables) {
            primes.push(make_result(suffix_expression(p, "#+1"), "primorial", &plus_one));
        }
        let ghost mid = primes@;
        let mut t: u64 = 1;
        if one.lt(&primorial_big) {
            t = 2;
            let minus_one = primorial_big.sub(&one);
            if is_prime(&minus_one, tables) {
                primes.push(make_result(suffix_expression(p, "#-1"), "primorial", &minus_one));
            }
        }
        tested = tested.wrapping_add(t);
        proof {
            assert(founds(primes@) =~= gather(cands.take(i + 1), g)) by {
                if mid.len() > before.len() {
                    assert(mid == before.push(mid.last()));
                }
                if primes@.len() > mid.len() {
                    assert(primes@ == mid.push(primes@.last()));
                }
            }
        }
        idx = idx + 1;
    }
    proof {
        assert(cands.take(idx - idx0) =~= cands);
    }
    (primes, tested)
}


// ── Cullen and Woodall primes ───────────────────────────────────────

/// Candidate n contributes n·2^n + 1 and then n·2^n − 1, each when its
/// exponent fits in 32 bits, it survives the sieve and is a probable prime
/// (the Woodall number only when n·2^n > 1).
pub open spec fn cullen_woodall_found(n: nat) -> Seq<Found> {
    let cullen = cullen_woodall_value(n, true);
    let woodall = cullen_woodall_value(n, false);
    (if n <= u32::MAX && survives(cullen, 2) && cullen >= 2 && probable_prime(cullen as nat) {
        seq![found(decimal(n) + "*2^"@ + decimal(n) + "+1"@, "cullen_woodall"@, cullen as nat)]
    } else {
        Seq::empty()
    }) + (if n <= u32::MAX && woodall >= 1 && survives(woodall, 2) && probable_prime(woodall as nat) {
        seq![found(decimal(n) + "*2^"@ + decimal(n) + "-1"@, "cullen_woodall"@, woodall as nat)]
    } else {
        Seq::empty()
    })
}

/// Tests counted for candidate n: two, except one when n·2^n ≤ 1.
pub open spec fn cullen_woodall_tests(n: nat) -> nat {
    if n > u32::MAX || n * pow(2, n) > 1 { 2 } else { 1 }
}

fn cw_expression(n: u64, plus: bool) -> (s: String)
    ensures
        s@ == decimal(n as nat) + "*2^"@ + decimal(n as nat) + (if plus { "+1"@ } else { "-1"@ }),
{
    let mut s = String::new();
    push_decimal(&mut s, n);
    push_str(&mut s, "*2^");
    push_decimal(&mut s, n);
    if plus {
        push_str(&mut s, "+1");
    } else {
        push_str(&mut s, "-1");
    }
    assert(s@ =~= decimal(n as nat) + "*2^"@ + decimal(n as nat) + (if plus { "+1"@ } else { "-1"@ }));
    s
}

/// Search Cullen primes n·2^n + 1 and Woodall primes n·2^n − 1 for n in
/// [start, end], after the modular sieve.
pub fn search_cullen_woodall(start: u64, end: u64, tables: &PrimeTables) -> (r: (Vec<PrimeResult>, u64))
    requires
        tables.wf(),
        end < start || end - start < usize::MAX,
    ensures
        founds(r.0@) == gather(span(start as nat, end as nat), |n: nat| cullen_woodall_found(n)),
        r.1 as nat == wrap64(tally(span(start as nat, end as nat), |n: nat| cullen_woodall_tests(n))),
{
    let ghost cands = span(start as nat, end as nat);
    let ghost g = |n: nat| cullen_woodall_found(n);
    let ghost c = |n: nat| cullen_woodall_tests(n);
    let mut primes: Vec<PrimeResult> = Vec::new();
    let mut tested: u64 = 0;
    proof {
        assert(cands.take(0) =~= Seq::<nat>::empty());
        assert(founds(primes@) =~= gather(cands.take(0), g));
    }
    if end < start {
        assert(cands.take(0) =~= cands);
        return (primes, tested);
    }
    let (cullen_ok, woodall_ok) = sieve_cullen_woodall(start, end, tables);
    let two = BigNat::from_u64(2);
    let one = BigNat::one();
    let mut n: u64 = start;
    let mut done = false;
    while !done
        invariant
            tables.wf(),
            start <= n <= end,
            end - start < usize::MAX,
            cands == span(start as nat, end as nat),
            cands.len() == end - start + 1,
            cullen_ok@.len() == end - start + 1,
            woodall_ok@.len() == end - start + 1,
            forall|i: int| 0 <= i < cullen_ok@.len() ==> #[trigger] cullen_ok@[i]
                == survives(cullen_woodall_value((start + i) as nat, true), 2),
            forall|i: int| 0 <= i < woodall_ok@.len() ==> #[trigger] woodall_ok@[i]
                == survives(cullen_woodall_value((start + i) as nat, false), 2),
            g == (|n: nat| cullen_woodall_found(n)),
            c == (|n: nat| cullen_woodall_tests(n)),
            one@ == 1,
            two@ == 2,
            !done ==> founds(primes@) == gather(cands.take(n - start), g)
                && tested as nat == wrap64(tally(cands.take(n - start), c)),
            done ==> founds(primes@) == gather(cands, g) && tested as nat == wrap64(tally(cands, c)),
        decreases end - n + (if done { 0int } else { 1int }),
    {
        let idx: usize = (n - start) as usize;
        let ghost i = idx as int;
        proof {
            lemma_gather_step(cands, i, g, c);
            assert(cands[i] == n);
            lemma_wrap_add(tally(cands.take(i), c), tested, cullen_woodall_tests(n as nat));
        }
        let ghost before = primes@;
        let mut t: u64 = 2;
        match checked_u32(n) {
            Some(e) => {
                let power = two.pow(e);
                let n_times_power = BigNat::from_u64(n).mul(&power);
                t = 1;
                if cullen_ok[idx] {
                    let cullen = n_times_power.add(&one);
                    if !cullen.lt(&two) && is_prime(&cullen, tables) {
                        primes.push(make_result(cw_expression(n, true), "cullen_woodall", &cullen));
                    }
                }
                let ghost mid = primes@;
                if one.lt(&n_times_power) {
                    t = 2;
                    if woodall_ok[idx] {
                        let woodall = n_times_power.sub(&one);
                        if is_prime(&woodall, tables) {
                            primes.push(make_result(cw_expression(n, false), "cullen_woodall", &woodall));
                        }
                    }
                }
                proof {
                    assert(founds(primes@) =~= gather(cands.take(i + 1), g)) by {
                        if mid.len() > before.len() {
                            assert(mid == before.push(mid.last()));
                        }
                        if primes@.len() > mid.len() {
                            assert(primes@ == mid.push(primes@.last()));
                        }
                    }
                }
            },
            None => {
                assert(founds(primes@) =~= gather(cands.take(i + 1), g));
            },
        }
        tested = tested.wrapping_add(t);
        if n == end {
            proof {
                assert(cands.take(i + 1) =~= cands);
            }
            done = true;
        } else {
            n = n + 1;
        }
    }
    (primes, tested)
}

// ── Carol and Kynea primes ──────────────────────────────────────────

/// Candidate n contributes (2^n − 1)² − 2 and then (2^n + 1)² − 2, each when
/// its exponent fits in 32 bits, it survives the sieve and is a probable
/// prime (the Carol number only when (2^n − 1)² > 2).
pub open spec fn carol_kynea_found(n: nat) -> Seq<Found> {
    let x = pow(2, n);
    let carol = carol_kynea_value(n, false);
    let kynea = carol_kynea_value(n, true);
    (if n <= u32::MAX && (x - 1) * (x - 1) > 2 && survives(carol, 2) && probable_prime(carol as nat) {
        seq![found("(2^"@ + decimal(n) + "-1)^2-2"@, "carol_kynea"@, carol as nat)]
    } else {
        Seq::empty()
    }) + (if n <= u32::MAX && survives(kynea, 2) && probable_prime(kynea as nat) {
        seq![found("(2^"@ + decimal(n) + "+1)^2-2"@, "carol_kynea"@, kynea as nat)]
    } else {
        Seq::empty()
    })
}

/// Tests counted for candidate n: two, except one when (2^n − 1)² ≤ 2.
pub open spec fn carol_kynea_tests(n: nat) -> nat {
    let x = pow(2, n);
    if n > u32::MAX || (x - 1) * (x - 1) > 2 { 2 } else { 1 }
}

fn ck_expression(n: u64, plus: bool) -> (s: String)
    ensures
        s@ == "(2^"@ + decimal(n as nat) + (if plus { "+1)^2-2"@ } else { "-1)^2-2"@ }),
{
    let mut s = String::new();
    push_str(&mut s, "(2^");
    push_decimal(&mut s, n);
    if plus {
        push_str(&mut s, "+1)^2-2");
    } else {
        push_str(&mut s, "-1)^2-2");
    }
    assert(s@ =~= "(2^"@ + decimal(n as nat) + (if plus { "+1)^2-2"@ } else { "-1)^2-2"@ }));
    s
}

/// Search Carol primes (2^n − 1)² − 2 and Kynea primes (2^n + 1)² − 2 for n
/// in [start, end], after the modular sieve.
pub fn search_carol_kynea(start: u64, end: u64, tables: &PrimeTables) -> (r: (Vec<PrimeResult>, u64))
    requires
        tables.wf(),
        end < start || end - start < usize::MAX,
    ensures
        founds(r.0@) == gather(span(start as nat, end as nat), |n: nat| carol_kynea_found(n)),
        r.1 as nat == wrap64(tally(span(start as nat, end as nat), |n: nat| carol_kynea_tests(n))),
{
    let ghost cands = span(start as nat, end as nat);
    let ghost g = |n: nat| carol_kynea_found(n);
    let ghost c = |n: nat| carol_kynea_tests(n);
    let mut primes: Vec<PrimeResult> = Vec::new();
    let mut tested: u64 = 0;
    proof {
        assert(cands.take(0) =~= Seq::<nat>::empty());
        assert(founds(primes@) =~= gather(cands.take(0), g));
    }
    if end < start {
        assert(cands.take(0) =~= cands);
        return (primes, tested);
    }
    let (carol_ok, kynea_ok) = sieve_carol_kynea(start, end, tables);
    let two = BigNat::from_u64(2);
    let one = BigNat::one();
    let mut n: u64 = start;
    let mut done = false;
    while !done
        invariant
            tables.wf(),
            start <= n <= end,
            end - start < usize::MAX,
            cands == span(start as nat, end as nat),
            cands.len() == end - start + 1,
            carol_ok@.len() == end - start + 1,
            kynea_ok@.len() == end - start + 1,
            forall|i: int| 0 <= i < carol_ok@.len() ==> #[trigger] carol_ok@[i]
                == survives(carol_kynea_value((start + i) as nat, false), 2),
            forall|i: int| 0 <= i < kynea_ok@.len() ==> #[trigger] kynea_ok@[i]
                == survives(carol_kynea_value((start + i) as nat, true), 2),
            g == (|n: nat| carol_kynea_found(n)),
            c == (|n: nat| carol_kynea_tests(n)),
            one@ == 1,
            two@ == 2,
            !done ==> founds(primes@) == gather(cands.take(n - start), g)
                && tested as nat == wrap64(tally(cands.take(n - start), c)),
            done ==> founds(primes@) == gather(cands, g) && tested as nat == wrap64(tally(cands, c)),
        decreases end - n + (if done { 0int } else { 1int }),
    {
        let idx: usize = (n - start) as usize;
        let ghost i = idx as int;
        proof {
            lemma_gather_step(cands, i, g, c);
            assert(cands[i] == n);
            lemma_wrap_add(tally(cands.take(i), c), tested, carol_kynea_tests(n as nat));
        }
        let ghost before = primes@;
        let mut t: u64 = 2;
        match checked_u32(n) {
            Some(e) => {
                let power = two.pow(e);
                t = 1;
                if one.lt(&power) {
                    let pm1 = power.sub(&one);
                    let sq = pm1.mul(&pm1);
                    if two.lt(&sq) {
                        t = 2;
                        if carol_ok[idx] {
                            let carol = sq.sub(&two);
                            if is_prime(&carol, tables) {
                                primes.push(make_result(ck_expression(n, false), "carol_kynea", &carol));
                            }
                        }
                    }
                } else {
                    proof {
                        let x = pow(2, n as nat);
                        assert((x - 1) * (x - 1) <= 2) by (nonlinear_arith)
                            requires x <= 1, x >= 0;
                        lemma_pow_positive(2, n as nat);
                    }
                }
                let ghost mid = primes@;
                let pp1 = power.add(&one);
                let sq = pp1.mul(&pp1);
                proof {
                    lemma_pow_positive(2, n as nat);
                    assert(sq@ >= 4) by (nonlinear_arith)
                        requires sq@ == pp1@ * pp1@, pp1@ >= 2;
                }
                let kynea = sq.sub(&two);
                if kynea_ok[idx] {
                    if is_prime(&kynea, tables) {
                        primes.push(make_result(ck_expression(n, true), "carol_kynea", &kynea));
                    }
                }
                proof {
                    assert(founds(primes@) =~= gather(cands.take(i + 1), g)) by {
                        if mid.len() > before.len() {
                            assert(mid == before.push(mid.last()));
                        }
                        if primes@.len() > mid.len() {
                            assert(primes@ == mid.push(primes@.last()));
                        }
                    }
                }
            },
            None => {
                assert(founds(primes@) =~= gather(cands.take(i + 1), g));
            },
        }
        tested = tested.wrapping_add(t);
        if n == end {
            proof {
                assert(cands.take(i + 1) =~= cands);
            }
            done = true;
        } else {
            n = n + 1;
        }
    }
    (primes, tested)
}

// ── generalized Fermat primes ───────────────────────────────────────

/// Candidate n contributes base^(2^n) + 1 when it survives the sieve and is a
/// probable prime.
pub open spec fn gen_fermat_found(base: nat, n: nat) -> Seq<Found> {
    let v = gen_fermat_value(base, n);
    if survives(v, base) && probable_prime(v as nat) {
        seq![found(decimal(base) + "^(2^"@ + decimal(n) + ")+1"@, "gen_fermat"@, v as nat)]
    } else {
        Seq::empty()
    }
}

/// Search generalized Fermat primes base^(2^n) + 1 for n in [start, end],
/// after the modular sieve. Every n counts as tested.
pub fn search_gen_fermat(base: u64, start: u64, end: u64, tables: &PrimeTables) -> (r: (Vec<PrimeResult>, u64))
    requires
        tables.wf(),
        end < start || end - start < usize::MAX,
    ensures
        founds(r.0@) == gather(span(start as nat, end as nat), |n: nat| gen_fermat_found(base as nat, n)),
        r.1 as nat == wrap64(span(start as nat, end as nat).len()),
{
    let ghost cands = span(start as nat, end as nat);
    let ghost g = |n: nat| gen_fermat_found(base as nat, n);
    let ghost c = |n: nat| 1nat;
    let mut primes: Vec<PrimeResult> = Vec::new();
    let mut tested: u64 = 0;
    proof {
        lemma_tally_ones(cands);
        assert(cands.take(0) =~= Seq::<nat>::empty());
        assert(founds(primes@) =~= gather(cands.take(0), g));
    }
    if end < start {
        assert(cands.take(0) =~= cands);
        return (primes, tested);
    }
    let survivors = sieve_gen_fermat(base, start, end, tables);
    let one = BigNat::one();
    let mut n: u64 = start;
    let mut done = false;
    while !done
        invariant
            tables.wf(),
            start <= n <= end,
            end - start < usize::MAX,
            cands == span(start as nat, end as nat),
            cands.len() == end - start + 1,
            survivors@.len() == end - start + 1,
            forall|i: int| 0 <= i < survivors@.len() ==> #[trigger] survivors@[i]
                == survives(gen_fermat_value(base as nat, (start + i) as nat), base as nat),
            g == (|n: nat| gen_fermat_found(base as nat, n)),
            c == (|n: nat| 1nat),
            one@ == 1,
            !done ==> founds(primes@) == gather(cands.take(n - start), g)
                && tested as nat == wrap64(tally(cands.take(n - start), c)),
            done ==> founds(primes@) == gather(cands, g) && tested as nat == wrap64(tally(cands, c)),
        decreases end - n + (if done { 0int } else { 1int }),
    {
        let idx: usize = (n - start) as usize;
        let ghost i = idx as int;
        proof {
            lemma_gather_step(cands, i, g, c);
            assert(cands[i] == n);
            lemma_wrap_add(tally(cands.take(i), c), tested, 1);
        }
        let ghost before = primes@;
        if survivors[idx] {
            let mut x = BigNat::from_u64(base);
            let mut s: u64 = 0;
            proof {
                assert(pow2(0) == 1) by {
                    lemma_pow2(0);
                    reveal(pow);
                }
                lemma_pow1(base as int);
            }
            while s < n
                invariant
                    s <= n,
                    x@ == pow(base as int, pow2(s as nat)),
                decreases n - s,
            {
                let ghost v = x@;
                x = x.mul(&x);
                proof {
                    lemma_pow2_unfold(s as nat + 1);
                    lemma_pow_multiplies(base as int, pow2(s as nat), 2);
                    lemma_square_is_pow2(v as int);
                }
                s = s + 1;
            }
            let candidate = x.add(&one);
            if is_prime(&candidate, tables) {
                let mut e = String::new();
                push_decimal(&mut e, base);
                push_str(&mut e, "^(2^");
                push_decimal(&mut e, n);
                push_str(&mut e, ")+1");
                assert(e@ =~= decimal(base as nat) + "^(2^"@ + decimal(n as nat) + ")+1"@);
                primes.push(make_result(e, "gen_fermat", &candidate));
            }
        }
        tested = tested.wrapping_add(1);
        proof {
            assert(founds(primes@) =~= gather(cands.take(i + 1), g)) by {
                if primes@.len() > before.len() {
                    assert(primes@ == before.push(primes@.last()));
                }
            }
        }
        if n == end {
            proof {
                assert(cands.take(i + 1) =~= cands);
            }
            done = true;
        } else {
            n = n + 1;
        }
    }
    (primes, tested)
}


// ── palindromic primes ──────────────────────────────────────────────

/// The palindrome whose left half (center included) is the h-digit
/// base-`base` representation of v.
pub open spec fn palindrome_of(v: nat, base: nat, h: nat) -> nat {
    horner(palindrome_digits(to_digits(v, base, h)), base)
}

/// The left halves of the d-digit palindromes: all numbers with h = (d+1)/2
/// digits, ascending.
pub open spec fn half_range(base: nat, d: nat) -> Seq<nat> {
    let h = (d + 1) / 2;
    span(pow(base as int, (h - 1) as nat) as nat, (pow(base as int, h) - 1) as nat)
}

/// Left half v contributes its palindrome when that is a probable prime.
pub open spec fn palindrome_found(base: nat, h: nat, v: nat) -> Seq<Found> {
    let x = palindrome_of(v, base, h);
    if probable_prime(x) {
        seq![found(decimal(x), "palindromic"@, x)]
    } else {
        Seq::empty()
    }
}

/// The primes among the d-digit palindromes (odd d only).
pub open spec fn palindromic_found(base: nat, d: nat) -> Seq<Found> {
    if d % 2 == 1 {
        gather(half_range(base, d), |v: nat| palindrome_found(base, (d + 1) / 2, v))
    } else {
        Seq::empty()
    }
}

/// Palindromes tested for digit count d: all of them when d is odd.
pub open spec fn palindromic_tests(base: nat, d: nat) -> nat {
    if d % 2 == 1 { half_range(base, d).len() } else { 0 }
}

/// Search palindromic primes in base `base` with an odd number of digits in
/// [start_digits, end_digits] (even-length palindromes are multiples of
/// base + 1); nothing is searched for base < 2.
pub fn search_palindromic(base: u64, start_digits: u64, end_digits: u64, tables: &PrimeTables)
    -> (r: (Vec<PrimeResult>, u64))
    requires
        tables.wf(),
        end_digits <= usize::MAX,
    ensures
        base < 2 ==> r.0@.len() == 0 && r.1 == 0,
        base >= 2 ==> founds(r.0@) == gather(span(start_digits as nat, end_digits as nat),
            |d: nat| palindromic_found(base as nat, d)),
        base >= 2 ==> r.1 as nat == wrap64(tally(span(start_digits as nat, end_digits as nat),
            |d: nat| palindromic_tests(base as nat, d))),
{
    let ghost cands = span(start_digits as nat, end_digits as nat);
    let ghost g = |d: nat| palindromic_found(base as nat, d);
    let ghost c = |d: nat| palindromic_tests(base as nat, d);
    let mut primes: Vec<PrimeResult> = Vec::new();
    let mut tested: u64 = 0;
    if base < 2 {
        return (primes, tested);
    }
    proof {
        assert(cands.take(0) =~= Seq::<nat>::empty());
        assert(founds(primes@) =~= gather(cands.take(0), g));
    }
    if end_digits < start_digits {
        assert(cands.take(0) =~= cands);
        return (primes, tested);
    }
    let mut d: u64 = start_digits;
    let mut done = false;
    while !done
        invariant
            tables.wf(),
            2 <= base,
            start_digits <= d <= end_digits,
            end_digits <= usize::MAX,
            cands == span(start_digits as nat, end_digits as nat),
            cands.len() == end_digits - start_digits + 1,
            g == (|d: nat| palindromic_found(base as nat, d)),
            c == (|d: nat| palindromic_tests(base as nat, d)),
            !done ==> founds(primes@) == gather(cands.take(d - start_digits), g)
                && tested as nat == wrap64(tally(cands.take(d - start_digits), c)),
            done ==> founds(primes@) == gather(cands, g) && tested as nat == wrap64(tally(cands, c)),
        decreases end_digits - d + (if done { 0int } else { 1int }),
    {
        let ghost i = d - start_digits;
        proof {
            lemma_gather_step(cands, i, g, c);
            assert(cands[i] == d);
        }
        let ghost base_primes = primes@;
        let ghost base_tally = tally(cands.take(i), c);
        if d % 2 == 1 {
            let h: usize = (d / 2 + 1) as usize;
            let ghost hn = h as nat;
            let ghost b = base as nat;
            let ghost lo = pow(b as int, (hn - 1) as nat) as nat;
            let ghost hi = (pow(b as int, hn) - 1) as nat;
            let ghost inner = half_range(b, d as nat);
            let ghost gi = |v: nat| palindrome_found(b, (d as nat + 1) / 2, v);
            let ghost ci = |v: nat| 1nat;
            let mut left: Vec<u64> = Vec::new();
            left.push(1);
            let mut k: usize = 1;
            while k < h
                invariant
                    1 <= k <= h,
                    left@ == seq![1u64] + Seq::new((k - 1) as nat, |j: int| 0u64),
                decreases h - k,
            {
                left.push(0);
                assert(left@ =~= seq![1u64] + Seq::new(k as nat, |j: int| 0u64));
                k = k + 1;
            }
            let ghost mut v: nat = lo;
            proof {
                lemma_leading_one(hn, b);
                lemma_pow_positive(b as int, (hn - 1) as nat);
                lemma_pow_strictly_increases(b, (hn - 1) as nat, hn);
                assert((d as nat + 1) / 2 == hn);
                assert(inner.take(0) =~= Seq::<nat>::empty());
                assert(primes@.len() == base_primes.len());
                assert(founds(primes@) =~= founds(base_primes) + gather(inner.take(0), gi));
                vstd::arithmetic::div_mod::lemma_small_mod(0, 0x1_0000_0000_0000_0000);
            }
            let mut inner_done = false;
            while !inner_done
                invariant
                    tables.wf(),
                    2 <= b == base,
                    hn == h,
                    h >= 1,
                    lo == pow(b as int, (hn - 1) as nat),
                    hi == pow(b as int, hn) - 1,
                    lo <= v <= hi,
                    inner == half_range(b, d as nat),
                    inner == span(lo, hi),
                    inner.len() == hi - lo + 1,
                    gi == (|v: nat| palindrome_found(b, (d as nat + 1) / 2, v)),
                    (d as nat + 1) / 2 == hn,
                    ci == (|v: nat| 1nat),
                    left@.len() == h,
                    digits_below(left@, b),
                    !inner_done ==> horner(left@, b) == v,
                    !inner_done ==> founds(primes@) == founds(base_primes) + gather(inner.take(v - lo), gi)
                        && tested as nat == wrap64((base_tally + (v - lo)) as nat),
                    inner_done ==> founds(primes@) == founds(base_primes) + gather(inner, gi)
                        && tested as nat == wrap64(base_tally + inner.len()),
                decreases hi - v + (if inner_done { 0int } else { 1int }),
            {
                let ghost j = v - lo;
                proof {
                    lemma_gather_step(inner, j, gi, ci);
                    assert(inner[j] == v);
                    lemma_digits_roundtrip(left@, b);
                    lemma_wrap_add((base_tally + (v - lo)) as nat, tested, 1);
                }
                let ghost before = primes@;
                let pal = build_palindrome(&left, base);
                proof {
                    assert(to_digits(v, b, hn) == left@);
                    assert(pal@ == palindrome_of(v, b, hn));
                    assert(gi(v) == palindrome_found(b, hn, v));
                }
                if is_prime(&pal, tables) {
                    let e = pal.to_decimal();
                    primes.push(make_result(e, "palindromic", &pal));
                }
                tested = tested.wrapping_add(1);
                proof {
                    assert(founds(primes@) =~= founds(before) + gi(v)) by {
                        if primes@.len() > before.len() {
                            assert(primes@ == before.push(primes@.last()));
                        }
                    }
                    let fb = founds(base_primes);
                    let gj = gather(inner.take(j), gi);
                    assert((fb + gj) + gi(v) =~= fb + (gj + gi(v)));
                    assert forall|q: int| 0 <= q < left@.len() implies #[trigger] left@[q] < u64::MAX by {
                        assert((left@[q] as nat) < b);
                    }
                    lemma_increment_value(left@, b);
                }
                let more = increment_half(&mut left, base);
                if more {
                    proof {
                        v = v + 1;
                        lemma_digits_roundtrip(left@, b);
                    }
                } else {
                    proof {
                        assert(inner.take(j + 1) =~= inner);
                    }
                    inner_done = true;
                }
            }
            proof {
                assert(gather(inner, gi) == palindromic_found(b, d as nat));
                lemma_tally_ones(inner);
            }
        } else {
            proof {
                assert(founds(primes@) =~= founds(base_primes) + Seq::<Found>::empty());
            }
        }
        proof {
            assert(founds(primes@) =~= gather(cands.take(i + 1), g));
        }
        if d == end_digits {
            proof {
                assert(cands.take(i + 1) =~= cands);
            }
            done = true;
        } else {
            d = d + 1;
        }
    }
    (primes, tested)
}


// ── near-repdigit palindromic primes ────────────────────────────────

/// The naturals contributed over a sequence of candidates, each giving `f(c)`.
pub open spec fn concat_map(cands: Seq<nat>, f: spec_fn(nat) -> Seq<nat>) -> Seq<nat>
    decreases cands.len(),
{
    if cands.len() == 0 {
        Seq::empty()
    } else {
        concat_map(cands.drop_last(), f) + f(cands.last())
    }
}

/// One more candidate processed.
pub proof fn lemma_concat_map_step(cands: Seq<nat>, i: int, f: spec_fn(nat) -> Seq<nat>)
    requires
        0 <= i < cands.len(),
    ensures
        concat_map(cands.take(i + 1), f) == concat_map(cands.take(i), f) + f(cands[i]),
{
    assert(cands.take(i + 1).drop_last() =~= cands.take(i));
}

/// The first occurrence of each value, in order.
pub open spec fn dedup(s: Seq<nat>) -> Seq<nat>
    decreases s.len(),
{
    if s.len() == 0 {
        s
    } else if s.drop_last().contains(s.last()) {
        dedup(s.drop_last())
    } else {
        dedup(s.drop_last()).push(s.last())
    }
}

/// Appending y adds exactly y to the values present.
proof fn lemma_push_contains(a: Seq<nat>, y: nat, x: nat)
    ensures
        a.push(y).contains(x) <==> (a.contains(x) || x == y),
{
    if a.push(y).contains(x) && x != y {
        let k = choose|k: int| 0 <= k < a.push(y).len() && a.push(y)[k] == x;
        assert(a[k] == x);
    }
    if a.contains(x) {
        let k = choose|k: int| 0 <= k < a.len() && a[k] == x;
        assert(a.push(y)[k] == x);
    }
    if x == y {
        assert(a.push(y)[a.len() as int] == x);
    }
}

/// Deduplicating keeps exactly the values present.
pub proof fn lemma_dedup_contains(s: Seq<nat>, x: nat)
    ensures
        dedup(s).contains(x) <==> s.contains(x),
    decreases s.len(),
{
    if s.len() > 0 {
        let t = s.drop_last();
        let y = s.last();
        assert(s =~= t.push(y));
        lemma_dedup_contains(t, x);
        lemma_push_contains(t, y, x);
        if !t.contains(y) {
            lemma_push_contains(dedup(t), y, x);
        }
    }
}

/// The left half of a near-repdigit palindrome: h copies of `b`, except `r`
/// at position `pos`.
pub open spec fn near_left(h: nat, b: nat, pos: nat, r: nat) -> Seq<u64> {
    Seq::new(h, |k: int| (if k == pos { r } else { b }) as u64)
}

/// The near-repdigit palindrome with that left half.
pub open spec fn near_value(base: nat, h: nat, b: nat, pos: nat, r: nat) -> nat {
    horner(palindrome_digits(near_left(h, b, pos, r)), base)
}

/// What replacement digit r contributes at position `pos`: the palindrome,
/// unless r is the repeated digit itself.
pub open spec fn near_at(base: nat, h: nat, b: nat, pos: nat) -> spec_fn(nat) -> Seq<nat> {
    |r: nat| if r != b { seq![near_value(base, h, b, pos, r)] } else { Seq::empty() }
}

/// Replacement digits for position `pos` (no leading zero), other than `b`.
pub open spec fn near_by_r(base: nat, h: nat, b: nat, pos: nat) -> Seq<nat> {
    concat_map(span(if pos == 0 { 1 } else { 0 }, (base - 1) as nat), near_at(base, h, b, pos))
}

/// The palindromes for repeated digit b, over all positions.
pub open spec fn near_pos_fn(base: nat, h: nat, b: nat) -> spec_fn(nat) -> Seq<nat> {
    |pos: nat| near_by_r(base, h, b, pos)
}

/// All positions of the left half.
pub open spec fn near_by_pos(base: nat, h: nat, b: nat) -> Seq<nat> {
    concat_map(span(0, (h - 1) as nat), near_pos_fn(base, h, b))
}

/// The palindromes for each repeated digit.
pub open spec fn near_digit_fn(base: nat, h: nat) -> spec_fn(nat) -> Seq<nat> {
    |b: nat| near_by_pos(base, h, b)
}

/// All repeated digits 1 … base − 1.
pub open spec fn near_by_digit(base: nat, h: nat) -> Seq<nat> {
    concat_map(span(1, (base - 1) as nat), near_digit_fn(base, h))
}

/// The near-repdigit palindromes of d digits (odd d ≥ 3), in search order,
/// repeats included.
pub open spec fn near_of_digits(base: nat, d: nat) -> Seq<nat> {
    if d % 2 == 1 && d >= 3 { near_by_digit(base, (d + 1) / 2) } else { Seq::empty() }
}

/// The palindromes for each digit count.
pub open spec fn near_count_fn(base: nat) -> spec_fn(nat) -> Seq<nat> {
    |d: nat| near_of_digits(base, d)
}

/// All near-repdigit palindromes with digit counts in [start, end], in search
/// order, repeats included.
pub open spec fn near_candidates(base: nat, start: nat, end: nat) -> Seq<nat> {
    concat_map(span(start, end), near_count_fn(base))
}

/// A tested near-repdigit palindrome contributes itself when a probable prime.
pub open spec fn near_found(x: nat) -> Seq<Found> {
    if probable_prime(x) { seq![found(decimal(x), "near_repdigit"@, x)] } else { Seq::empty() }
}

/// The primes among the distinct tested palindromes `xs`.
pub open spec fn near_results(xs: Seq<nat>) -> Seq<Found> {
    gather(xs, |x: nat| near_found(x))
}

/// The search state after visiting the palindromes `processed`: the distinct
/// ones seen, the primes among them, and their count.
pub open spec fn near_state(seen: Seq<BigNat>, primes: Seq<PrimeResult>, tested: u64, processed: Seq<nat>) -> bool {
    &&& seen.map_values(|v: BigNat| v@) == dedup(processed)
    &&& founds(primes) == near_results(dedup(processed))
    &&& tested as nat == wrap64(dedup(processed).len())
}

/// Whether `x` equals one of the values in `seen`.
fn seen_contains(seen: &Vec<BigNat>, x: &BigNat) -> (r: bool)
    ensures
        r == seen@.map_values(|v: BigNat| v@).contains(x@),
{
    let ghost vals = seen@.map_values(|v: BigNat| v@);
    let mut i: usize = 0;
    while i < seen.len()
        invariant
            i <= seen@.len(),
            vals == seen@.map_values(|v: BigNat| v@),
            forall|k: int| 0 <= k < i ==> vals[k] != x@,
        decreases seen@.len() - i,
    {
        if seen[i].equals(x) {
            assert(vals[i as int] == x@);
            return true;
        }
        i = i + 1;
    }
    false
}

/// Test one near-repdigit palindrome: skip it when seen before, else record
/// it, count it and keep it when a probable prime.
fn near_visit(pal: BigNat, seen: &mut Vec<BigNat>, primes: &mut Vec<PrimeResult>, tested: &mut u64,
    tables: &PrimeTables, Ghost(processed): Ghost<Seq<nat>>)
    requires
        tables.wf(),
        near_state(old(seen)@, old(primes)@, *old(tested), processed),
    ensures
        near_state(final(seen)@, final(primes)@, *final(tested), processed.push(pal@)),
{
    let ghost ext = processed.push(pal@);
    let ghost g = |x: nat| near_found(x);
    assert(ext.drop_last() =~= processed);
    proof {
        lemma_dedup_contains(processed, pal@);
    }
    if seen_contains(seen, &pal) {
        return;
    }
    let ghost before = primes@;
    let ghost d0 = dedup(processed);
    proof {
        assert(dedup(ext) == d0.push(pal@));
        assert(d0.push(pal@).drop_last() =~= d0);
        lemma_wrap_add(d0.len(), *tested, 1);
    }
    if is_prime(&pal, tables) {
        let e = pal.to_decimal();
        primes.push(make_result(e, "near_repdigit", &pal));
    }
    *tested = (*tested).wrapping_add(1);
    proof {
        assert(founds(primes@) =~= gather(d0.push(pal@), g)) by {
            if primes@.len() > before.len() {
                assert(primes@ == before.push(primes@.last()));
            }
        }
    }
    seen.push(pal);
    assert(seen@.map_values(|v: BigNat| v@) =~= d0.push(pal@));
}


/// The left half: h copies of `b` with `r` at `pos`.
fn near_left_half(h: usize, b: u64, pos: usize, r: u64) -> (left: Vec<u64>)
    ensures
        left@ == near_left(h as nat, b as nat, pos as nat, r as nat),
{
    let mut left: Vec<u64> = Vec::new();
    let mut k: usize = 0;
    while k < h
        invariant
            k <= h,
            left@ =~= Seq::new(k as nat, |q: int| (if q == pos { r as nat } else { b as nat }) as u64),
        decreases h - k,
    {
        if k == pos {
            left.push(r);
        } else {
            left.push(b);
        }
        k = k + 1;
    }
    left
}

/// Search near-repdigit palindromic primes in base `base` with an odd digit
/// count d ≥ 3 in [start_digits, end_digits]: all digits equal to some b
/// except one position of the left half (and its mirror). Each distinct
/// palindrome is tested once; nothing is searched for base < 2.
pub fn search_near_repdigit(base: u64, start_digits: u64, end_digits: u64, tables: &PrimeTables)
    -> (r: (Vec<PrimeResult>, u64))
    requires
        tables.wf(),
        end_digits <= usize::MAX,
    ensures
        base < 2 ==> r.0@.len() == 0 && r.1 == 0,
        base >= 2 ==> founds(r.0@) == near_results(
            dedup(near_candidates(base as nat, start_digits as nat, end_digits as nat))),
        base >= 2 ==> r.1 as nat == wrap64(
            dedup(near_candidates(base as nat, start_digits as nat, end_digits as nat)).len()),
{
    let mut primes: Vec<PrimeResult> = Vec::new();
    let mut tested: u64 = 0;
    let mut seen: Vec<BigNat> = Vec::new();
    if base < 2 {
        return (primes, tested);
    }
    let ghost bn = base as nat;
    let ghost cands = span(start_digits as nat, end_digits as nat);
    let ghost fd = near_count_fn(bn);
    let ghost mut processed: Seq<nat> = Seq::empty();
    proof {
        assert(seen@.map_values(|v: BigNat| v@) =~= Seq::<nat>::empty());
        assert(founds(primes@) =~= Seq::<Found>::empty());
        assert(cands.take(0) =~= Seq::<nat>::empty());
        vstd::arithmetic::div_mod::lemma_small_mod(0, 0x1_0000_0000_0000_0000);
    }
    if end_digits < start_digits {
        assert(cands.take(0) =~= cands);
        return (primes, tested);
    }
    let mut d: u64 = start_digits;
    let mut done = false;
    while !done
        invariant
            tables.wf(),
            2 <= base,
            bn == base,
            start_digits <= d <= end_digits,
            end_digits <= usize::MAX,
            cands == span(start_digits as nat, end_digits as nat),
            cands.len() == end_digits - start_digits + 1,
            fd == near_count_fn(bn),
            near_state(seen@, primes@, tested, processed),
            !done ==> processed == concat_map(cands.take(d - start_digits), fd),
            done ==> processed == concat_map(cands, fd),
        decreases end_digits - d + (if done { 0int } else { 1int }),
    {
        let ghost i = d - start_digits;
        let ghost p_d = processed;
        proof {
            lemma_concat_map_step(cands, i, fd);
            assert(cands[i] == d);
        }
        if d % 2 == 1 && d >= 3 {
            let h: usize = (d / 2 + 1) as usize;
            let ghost hn = h as nat;
            let ghost digits = span(1, (bn - 1) as nat);
            let ghost fb = near_digit_fn(bn, hn);
            proof {
                assert((d as nat + 1) / 2 == hn);
                assert(digits.take(0) =~= Seq::<nat>::empty());
                assert(processed =~= p_d + concat_map(digits.take(0), fb));
            }
            let mut b: u64 = 1;
            while b < base
                invariant
                    tables.wf(),
                    1 <= b <= base,
                    bn == base,
                    h >= 2,
                    hn == h,
                    digits == span(1, (bn - 1) as nat),
                    digits.len() == bn - 1,
                    fb == near_digit_fn(bn, hn),
                    near_state(seen@, primes@, tested, processed),
                    processed == p_d + concat_map(digits.take(b - 1), fb),
                decreases base - b,
            {
                let ghost p_b = processed;
                let ghost positions = span(0, (hn - 1) as nat);
                let ghost fp = near_pos_fn(bn, hn, b as nat);
                proof {
                    lemma_concat_map_step(digits, b - 1, fb);
                    assert(digits[b - 1] == b);
                    assert(positions.take(0) =~= Seq::<nat>::empty());
                    assert(processed =~= p_b + concat_map(positions.take(0), fp));
                }
                let mut pos: usize = 0;
                while pos < h
                    invariant
                        tables.wf(),
                        1 <= b < base,
                        bn == base,
                        pos <= h,
                        hn == h,
                        positions == span(0, (hn - 1) as nat),
                        positions.len() == hn,
                        fp == near_pos_fn(bn, hn, b as nat),
                        near_state(seen@, primes@, tested, processed),
                        processed == p_b + concat_map(positions.take(pos as int), fp),
                    decreases h - pos,
                {
                    let ghost p_pos = processed;
                    let r_start: u64 = if pos == 0 { 1 } else { 0 };
                    let ghost reps = span(r_start as nat, (bn - 1) as nat);
                    let ghost fr = near_at(bn, hn, b as nat, pos as nat);
                    proof {
                        lemma_concat_map_step(positions, pos as int, fp);
                        assert(positions[pos as int] == pos);
                        assert(reps.take(0) =~= Seq::<nat>::empty());
                        assert(processed =~= p_pos + concat_map(reps.take(0), fr));
                    }
                    let mut r: u64 = r_start;
                    while r < base
                        invariant
                            tables.wf(),
                            1 <= b < base,
                            bn == base,
                            pos < h,
                            hn == h,
                            r_start <= r <= base,
                            r_start <= 1,
                            reps == span(r_start as nat, (bn - 1) as nat),
                            reps.len() == bn - r_start,
                            fr == near_at(bn, hn, b as nat, pos as nat),
                            near_state(seen@, primes@, tested, processed),
                            processed == p_pos + concat_map(reps.take(r - r_start), fr),
                        decreases base - r,
                    {
                        let ghost k = r - r_start;
                        let ghost before = processed;
                        proof {
                            lemma_concat_map_step(reps, k, fr);
                            assert(reps[k] == r);
                        }
                        if r != b {
                            let left = near_left_half(h, b, pos, r);
                            let pal = build_palindrome(&left, base);
                            near_visit(pal, &mut seen, &mut primes, &mut tested, tables, Ghost(processed));
                            proof {
                                processed = processed.push(near_value(bn, hn, b as nat, pos as nat, r as nat));
                            }
                        }
                        proof {
                            let cm = concat_map(reps.take(k), fr);
                            assert(processed =~= p_pos + (cm + fr(r as nat)));
                        }
                        r = r + 1;
                    }
                    proof {
                        assert(reps.take(r - r_start) =~= reps);
                        let cm = concat_map(positions.take(pos as int), fp);
                        assert(fp(pos as nat) == concat_map(reps, fr));
                        assert(processed =~= p_b + (cm + fp(pos as nat)));
                    }
                    pos = pos + 1;
                }
                proof {
                    assert(positions.take(pos as int) =~= positions);
                    let cm = concat_map(digits.take(b - 1), fb);
                    assert(fb(b as nat) == concat_map(positions, fp));
                    assert(processed =~= p_d + (cm + fb(b as nat)));
                }
                b = b + 1;
            }
            proof {
                assert(digits.take(b - 1) =~= digits);
                assert(fd(d as nat) == concat_map(digits, fb));
                let cm = concat_map(cands.take(i), fd);
                assert(processed =~= cm + fd(d as nat));
            }
        } else {
            proof {
                assert(fd(d as nat) =~= Seq::<nat>::empty());
                assert(processed =~= concat_map(cands.take(i), fd) + fd(d as nat));
            }
        }
        if d == end_digits {
            proof {
                assert(cands.take(i + 1) =~= cands);
            }
            done = true;
        } else {
            d = d + 1;
        }
    }
    (primes, tested)
}

} // verus!
