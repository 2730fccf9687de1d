//! No prime is missed: every prime candidate of a searched form survives the
//! sieve and passes the primality test, so the search reports it — per
//! candidate for every form, and per block (`block_found`, what
//! `search_block` returns) for every form.
//!
//! The only condition is the machine cap on the exponent of two in v − 1
//! (`mr_in_range`), which holds for every number of fewer than 2^64 − 1 bits.
use vstd::prelude::*;
use vstd::arithmetic::div_mod::*;
use crate::search::forms::{
    Found, found, gather, kbn_found, kbn_expr, twin_found, twin_expr, twin_first, twin_cands, sg_found,
    sg_first, sg_cands, factorial, factorial_found,
    wagstaff_found, wagstaff_value, repunit_found, repunit_value, primorial, primorial_found,
    cullen_woodall_found, carol_kynea_found, gen_fermat_found, palindrome_found, palindrome_of,
    concat_map, dedup, lemma_dedup_contains, near_candidates, near_found, near_results, near_count_fn,
    near_of_digits, near_by_digit, near_digit_fn, near_by_pos, near_pos_fn, near_by_r, near_at, near_value,
    near_left,
};
use crate::search::palindrome::{horner, palindrome_digits, to_digits};
use crate::search::forms::{palindromic_found, half_range};
use vstd::arithmetic::power::{pow, lemma_pow_positive};
use crate::search::primality::probable_prime;
use crate::search::primality::{two_adic, lemma_probable_prime_complete};
use crate::search::primes::is_prime;
use crate::search::sieve::{kbn_value, cullen_woodall_value, carol_kynea_value, gen_fermat_value, lemma_primes_survive};
use crate::text::decimal;
use crate::search::block::{block_found, or_u64, sign_param};
use crate::search::forms::{span, primes_between, lemma_prime_list_split};
use crate::search::primes::{prime_list, lemma_prime_list_facts};

verus! {

/// The exponent of two in v − 1 is below the machine cap of the
/// Miller-Rabin split.
pub open spec fn mr_in_range(v: nat) -> bool {
    two_adic((v - 1) as nat) < u64::MAX
}

/// What a candidate contributes is part of what the search gathers.
pub proof fn lemma_gather_contains(cands: Seq<nat>, g: spec_fn(nat) -> Seq<Found>, i: int, x: Found)
    requires
        0 <= i < cands.len(),
        g(cands[i]).contains(x),
    ensures
        gather(cands, g).contains(x),
    decreases cands.len(),
{
    let init = cands.drop_last();
    let j = choose|j: int| 0 <= j < g(cands[i]).len() && #[trigger] g(cands[i])[j] == x;
    if i == cands.len() - 1 {
        let before = gather(init, g);
        assert((before + g(cands.last()))[before.len() + j] == x);
    } else {
        assert(init[i] == cands[i]);
        lemma_gather_contains(init, g, i, x);
        let k = choose|k: int| 0 <= k < gather(init, g).len() && #[trigger] gather(init, g)[k] == x;
        assert((gather(init, g) + g(cands.last()))[k] == x);
    }
}

/// A prime k·base^n ± 1 (n ≤ 2^32 − 1) is reported.
pub proof fn lemma_kbn_prime_reported(k: nat, base: nat, plus: bool, n: nat)
    requires
        n <= u32::MAX,
        kbn_value(k, base, plus, n) >= 2,
        is_prime(kbn_value(k, base, plus, n) as nat),
        mr_in_range(kbn_value(k, base, plus, n) as nat),
    ensures
        kbn_found(k, base, plus, n) == seq![found(kbn_expr(k, base, plus, n), "kbn"@,
            kbn_value(k, base, plus, n) as nat)],
{
    let v = kbn_value(k, base, plus, n) as nat;
    lemma_primes_survive(v, base);
    lemma_probable_prime_complete(v);
}

/// A twin pair (p, p + 2) of primes is reported.
pub proof fn lemma_twin_reported(p: nat)
    requires
        is_prime(p),
        is_prime(p + 2),
        mr_in_range(p),
        mr_in_range(p + 2),
    ensures
        twin_found(p) == seq![found(twin_expr(p), "twin"@, p)],
{
    lemma_probable_prime_complete(p);
    lemma_probable_prime_complete(p + 2);
}

/// A Sophie Germain prime p (with 2p + 1 prime) is reported.
pub proof fn lemma_sophie_germain_reported(p: nat)
    requires
        is_prime(p),
        is_prime(2 * p + 1),
        mr_in_range(p),
        mr_in_range(2 * p + 1),
    ensures
        sg_found(p) == seq![found(decimal(p), "sophie_germain"@, p)],
{
    lemma_probable_prime_complete(p);
    lemma_probable_prime_complete(2 * p + 1);
}

/// A prime n! + 1 or n! − 1 is reported.
pub proof fn lemma_factorial_prime_reported(n: nat)
    ensures
        is_prime(factorial(n) + 1) && mr_in_range(factorial(n) + 1)
            ==> factorial_found(n).contains(found(decimal(n) + "!+1"@, "factorial"@, factorial(n) + 1)),
        factorial(n) >= 1 && is_prime((factorial(n) - 1) as nat) && mr_in_range((factorial(n) - 1) as nat)
            ==> factorial_found(n).contains(found(decimal(n) + "!-1"@, "factorial"@, (factorial(n) - 1) as nat)),
{
    let f = factorial(n);
    let plus = found(decimal(n) + "!+1"@, "factorial"@, f + 1);
    let minus = found(decimal(n) + "!-1"@, "factorial"@, (f - 1) as nat);
    if is_prime(f + 1) && mr_in_range(f + 1) {
        lemma_probable_prime_complete(f + 1);
        assert(factorial_found(n)[0] == plus);
    }
    if f >= 1 && is_prime((f - 1) as nat) && mr_in_range((f - 1) as nat) {
        lemma_probable_prime_complete((f - 1) as nat);
        let head = factorial_found(n).len() - 1;
        assert(factorial_found(n)[head] == minus);
    }
}

/// A prime (2^p + 1)/3 for an odd prime p ≤ 2^32 − 1 is reported.
pub proof fn lemma_wagstaff_prime_reported(p: nat)
    requires
        p != 2,
        is_prime(p),
        p <= u32::MAX,
        is_prime(wagstaff_value(p)),
        mr_in_range(wagstaff_value(p)),
    ensures
        wagstaff_found(p) == seq![found("(2^"@ + decimal(p) + "+1)/3"@, "wagstaff"@, wagstaff_value(p))],
{
    lemma_probable_prime_complete(wagstaff_value(p));
}

/// A prime repunit R(base, n) with a prime n ≤ 2^32 − 1 is reported.
pub proof fn lemma_repunit_prime_reported(base: nat, n: nat)
    requires
        is_prime(n),
        n <= u32::MAX,
        is_prime(repunit_value(base, n)),
        mr_in_range(repunit_value(base, n)),
    ensures
        repunit_found(base, n) == seq![found("R("@ + decimal(base) + ","@ + decimal(n) + ")"@, "repunit"@,
            repunit_value(base, n))],
{
    lemma_probable_prime_complete(repunit_value(base, n));
}

/// A prime p# + 1 or p# − 1 is reported.
pub proof fn lemma_primorial_prime_reported(p: nat)
    ensures
        is_prime(primorial(p) + 1) && mr_in_range(primorial(p) + 1)
            ==> primorial_found(p).contains(found(decimal(p) + "#+1"@, "primorial"@, primorial(p) + 1)),
        primorial(p) >= 1 && is_prime((primorial(p) - 1) as nat) && mr_in_range((primorial(p) - 1) as nat)
            ==> primorial_found(p).contains(found(decimal(p) + "#-1"@, "primorial"@, (primorial(p) - 1) as nat)),
{
    let f = primorial(p);
    if is_prime(f + 1) && mr_in_range(f + 1) {
        lemma_probable_prime_complete(f + 1);
        assert(primorial_found(p)[0] == found(decimal(p) + "#+1"@, "primorial"@, f + 1));
    }
    if f >= 1 && is_prime((f - 1) as nat) && mr_in_range((f - 1) as nat) {
        lemma_probable_prime_complete((f - 1) as nat);
        let last = primorial_found(p).len() - 1;
        assert(primorial_found(p)[last] == found(decimal(p) + "#-1"@, "primorial"@, (f - 1) as nat));
    }
}

/// A prime Cullen number n·2^n + 1 or Woodall number n·2^n − 1
/// (n ≤ 2^32 − 1) is reported.
pub proof fn lemma_cullen_woodall_prime_reported(n: nat)
    requires
        n <= u32::MAX,
    ensures
        ({
            let c = cullen_woodall_value(n, true);
            c >= 2 && is_prime(c as nat) && mr_in_range(c as nat) ==> cullen_woodall_found(n).contains(
                found(decimal(n) + "*2^"@ + decimal(n) + "+1"@, "cullen_woodall"@, c as nat))
        }),
        ({
            let w = cullen_woodall_value(n, false);
            w >= 2 && is_prime(w as nat) && mr_in_range(w as nat) ==> cullen_woodall_found(n).contains(
                found(decimal(n) + "*2^"@ + decimal(n) + "-1"@, "cullen_woodall"@, w as nat))
        }),
{
    let c = cullen_woodall_value(n, true);
    let w = cullen_woodall_value(n, false);
    if c >= 2 && is_prime(c as nat) && mr_in_range(c as nat) {
        lemma_primes_survive(c as nat, 2);
        lemma_probable_prime_complete(c as nat);
        assert(cullen_woodall_found(n)[0] == found(decimal(n) + "*2^"@ + decimal(n) + "+1"@, "cullen_woodall"@,
            c as nat));
    }
    if w >= 2 && is_prime(w as nat) && mr_in_range(w as nat) {
        lemma_primes_survive(w as nat, 2);
        lemma_probable_prime_complete(w as nat);
        let last = cullen_woodall_found(n).len() - 1;
        assert(cullen_woodall_found(n)[last] == found(decimal(n) + "*2^"@ + decimal(n) + "-1"@,
            "cullen_woodall"@, w as nat));
    }
}

/// A prime Carol number (2^n − 1)² − 2 or Kynea number (2^n + 1)² − 2
/// (n ≤ 2^32 − 1) is reported.
pub proof fn lemma_carol_kynea_prime_reported(n: nat)
    requires
        n <= u32::MAX,
    ensures
        ({
            let c = carol_kynea_value(n, false);
            c >= 2 && is_prime(c as nat) && mr_in_range(c as nat) ==> carol_kynea_found(n).contains(
                found("(2^"@ + decimal(n) + "-1)^2-2"@, "carol_kynea"@, c as nat))
        }),
        ({
            let k = carol_kynea_value(n, true);
            k >= 2 && is_prime(k as nat) && mr_in_range(k as nat) ==> carol_kynea_found(n).contains(
                found("(2^"@ + decimal(n) + "+1)^2-2"@, "carol_kynea"@, k as nat))
        }),
{
    let c = carol_kynea_value(n, false);
    let k = carol_kynea_value(n, true);
    if c >= 2 && is_prime(c as nat) && mr_in_range(c as nat) {
        lemma_primes_survive(c as nat, 2);
        lemma_probable_prime_complete(c as nat);
        let x = vstd::arithmetic::power::pow(2, n);
        assert((x - 1) * (x - 1) > 2);
        assert(carol_kynea_found(n)[0] == found("(2^"@ + decimal(n) + "-1)^2-2"@, "carol_kynea"@, c as nat));
    }
    if k >= 2 && is_prime(k as nat) && mr_in_range(k as nat) {
        lemma_primes_survive(k as nat, 2);
        lemma_probable_prime_complete(k as nat);
        let last = carol_kynea_found(n).len() - 1;
        assert(carol_kynea_found(n)[last] == found("(2^"@ + decimal(n) + "+1)^2-2"@, "carol_kynea"@, k as nat));
    }
}

/// A prime generalized Fermat number base^(2^n) + 1 is reported.
pub proof fn lemma_gen_fermat_prime_reported(base: nat, n: nat)
    requires
        gen_fermat_value(base, n) >= 2,
        is_prime(gen_fermat_value(base, n) as nat),
        mr_in_range(gen_fermat_value(base, n) as nat),
    ensures
        gen_fermat_found(base, n) == seq![found(decimal(base) + "^(2^"@ + decimal(n) + ")+1"@, "gen_fermat"@,
            gen_fermat_value(base, n) as nat)],
{
    let v = gen_fermat_value(base, n) as nat;
    lemma_primes_survive(v, base);
    lemma_probable_prime_complete(v);
}

/// A prime palindrome is reported.
pub proof fn lemma_palindrome_prime_reported(base: nat, h: nat, v: nat)
    requires
        is_prime(palindrome_of(v, base, h)),
        mr_in_range(palindrome_of(v, base, h)),
    ensures
        palindrome_found(base, h, v) == seq![found(decimal(palindrome_of(v, base, h)), "palindromic"@,
            palindrome_of(v, base, h))],
{
    lemma_probable_prime_complete(palindrome_of(v, base, h));
}

/// The smaller member p ≥ 5 of a twin pair is ≡ 5 (mod 6).
pub proof fn lemma_twin_residue(p: nat)
    requires
        p >= 5,
        is_prime(p),
        is_prime(p + 2),
    ensures
        p % 6 == 5,
{
    lemma_fundamental_div_mod(p as int, 6);
    let q = p as int / 6;
    let r = p as int % 6;
    assert(p % 2 != 0);
    assert(p % 3 != 0);
    if r == 1 {
        assert((p + 2) % 3 == 0) by {
            assert(p + 2 == 3 * (2 * q + 1));
        }
        assert(3 < p + 2);
    } else if r == 0 || r == 2 || r == 4 {
        assert(p % 2 == 0) by {
            assert(p == 2 * (3 * q + r / 2));
        }
    } else if r == 3 {
        assert(p % 3 == 0) by {
            assert(p == 3 * (2 * q + 1));
        }
    }
}

/// Every twin pair (p, p + 2) with 5 ≤ p in [start, end] is among the twin
/// candidates, so the twin search misses none.
pub proof fn lemma_twin_candidate(p: nat, start: nat, end: nat)
    requires
        p >= 5,
        start <= p <= end,
        is_prime(p),
        is_prime(p + 2),
    ensures
        twin_cands(start, end).contains(p),
{
    lemma_twin_residue(p);
    let s: nat = if start < 5 { 5 } else { start };
    let f = twin_first(start);
    assert(f == s + (11 - s % 6) % 6);
    assert(f % 6 == 5 && s <= f < s + 6) by {
        lemma_fundamental_div_mod(s as int, 6);
    }
    assert(p >= f) by {
        if p < f {
            lemma_fundamental_div_mod(p as int, 6);
            lemma_fundamental_div_mod(f as int, 6);
        }
    }
    lemma_fundamental_div_mod((p - f) as int, 6);
    assert((p - f) % 6 == 0) by {
        lemma_fundamental_div_mod(p as int, 6);
        lemma_fundamental_div_mod(f as int, 6);
    }
    let i = (p - f) / 6;
    assert(p == f + 6 * i);
    assert(i <= (end - f) / 6) by {
        lemma_div_is_ordered((p - f) as int, (end - f) as int, 6);
    }
    let cands = twin_cands(start, end);
    assert(cands[i as int] == p);
}

/// Every Sophie Germain prime p in [start, end] is among the candidates.
pub proof fn lemma_sophie_germain_candidate(p: nat, start: nat, end: nat)
    requires
        start <= p <= end,
        is_prime(p),
    ensures
        sg_cands(start, end).contains(p),
{
    let two: Seq<nat> = if start <= 2 && 2 <= end { seq![2nat] } else { Seq::empty() };
    let f = sg_first(start);
    let cands = sg_cands(start, end);
    if p == 2 {
        assert(cands[0] == 2);
    } else {
        assert(p % 2 != 0);
        assert(p >= 3);
        assert(f <= p && (p - f) % 2 == 0) by {
            lemma_fundamental_div_mod(p as int, 2);
            lemma_fundamental_div_mod(start as int, 2);
        }
        let i = (p - f) / 2;
        assert(i <= (end - f) / 2) by {
            lemma_div_is_ordered((p - f) as int, (end - f) as int, 2);
        }
        assert(cands[two.len() + i] == p);
    }
}

/// A k·base^n ± 1 block reports every prime of the block: for n in
/// [start, end] with n ≤ 2^32 − 1 and a prime value, the value is among the
/// block's results.
pub proof fn lemma_kbn_block_complete(k: Option<u64>, base: Option<u64>, sign: Option<i64>, start: u64, end: u64,
    n: nat)
    requires
        start <= n <= end,
        n <= u32::MAX,
        kbn_value(or_u64(k, 1) as nat, or_u64(base, 2) as nat, sign_param(sign) >= 0, n) >= 2,
        is_prime(kbn_value(or_u64(k, 1) as nat, or_u64(base, 2) as nat, sign_param(sign) >= 0, n) as nat),
        mr_in_range(kbn_value(or_u64(k, 1) as nat, or_u64(base, 2) as nat, sign_param(sign) >= 0, n) as nat),
    ensures
        block_found("kbn"@, k, base, sign, start, end).contains(found(
            kbn_expr(or_u64(k, 1) as nat, or_u64(base, 2) as nat, sign_param(sign) >= 0, n), "kbn"@,
            kbn_value(or_u64(k, 1) as nat, or_u64(base, 2) as nat, sign_param(sign) >= 0, n) as nat)),
{
    let kk = or_u64(k, 1) as nat;
    let bb = or_u64(base, 2) as nat;
    let plus = sign_param(sign) >= 0;
    let g = |m: nat| kbn_found(kk, bb, plus, m);
    let cands = span(start as nat, end as nat);
    assert(block_found("kbn"@, k, base, sign, start, end) == gather(cands, g));
    lemma_kbn_prime_reported(kk, bb, plus, n);
    let i = n - start;
    assert(cands[i] == n);
    assert(g(cands[i])[0] == found(kbn_expr(kk, bb, plus, n), "kbn"@, kbn_value(kk, bb, plus, n) as nat));
    lemma_gather_contains(cands, g, i, found(kbn_expr(kk, bb, plus, n), "kbn"@, kbn_value(kk, bb, plus, n) as nat));
}

/// The form names of the block dispatch are pairwise distinct.
proof fn lemma_form_names_distinct()
    ensures
        "twin"@ != "kbn"@,
        "factorial"@ != "kbn"@,
        "factorial"@ != "twin"@,
        "sophie_germain"@ != "kbn"@,
        "sophie_germain"@ != "twin"@,
        "sophie_germain"@ != "factorial"@,
        "cullen_woodall"@ != "kbn"@,
        "cullen_woodall"@ != "twin"@,
        "cullen_woodall"@ != "factorial"@,
        "cullen_woodall"@ != "sophie_germain"@,
        "repunit"@ != "kbn"@,
        "repunit"@ != "twin"@,
        "repunit"@ != "factorial"@,
        "repunit"@ != "sophie_germain"@,
        "repunit"@ != "cullen_woodall"@,
        "primorial"@ != "kbn"@,
        "primorial"@ != "twin"@,
        "primorial"@ != "factorial"@,
        "primorial"@ != "sophie_germain"@,
        "primorial"@ != "cullen_woodall"@,
        "primorial"@ != "repunit"@,
        "carol_kynea"@ != "kbn"@,
        "carol_kynea"@ != "twin"@,
        "carol_kynea"@ != "factorial"@,
        "carol_kynea"@ != "sophie_germain"@,
        "carol_kynea"@ != "cullen_woodall"@,
        "carol_kynea"@ != "repunit"@,
        "carol_kynea"@ != "primorial"@,
        "gen_fermat"@ != "kbn"@,
        "gen_fermat"@ != "twin"@,
        "gen_fermat"@ != "factorial"@,
        "gen_fermat"@ != "sophie_germain"@,
        "gen_fermat"@ != "cullen_woodall"@,
        "gen_fermat"@ != "repunit"@,
        "gen_fermat"@ != "primorial"@,
        "gen_fermat"@ != "carol_kynea"@,
        "wagstaff"@ != "kbn"@,
        "wagstaff"@ != "twin"@,
        "wagstaff"@ != "factorial"@,
        "wagstaff"@ != "sophie_germain"@,
        "wagstaff"@ != "cullen_woodall"@,
        "wagstaff"@ != "repunit"@,
        "wagstaff"@ != "primorial"@,
        "wagstaff"@ != "carol_kynea"@,
        "wagstaff"@ != "gen_fermat"@,
        "palindromic"@ != "kbn"@,
        "palindromic"@ != "twin"@,
        "palindromic"@ != "factorial"@,
        "palindromic"@ != "sophie_germain"@,
        "palindromic"@ != "cullen_woodall"@,
        "palindromic"@ != "repunit"@,
        "palindromic"@ != "primorial"@,
        "palindromic"@ != "carol_kynea"@,
        "palindromic"@ != "gen_fermat"@,
        "palindromic"@ != "wagstaff"@,
        "near_repdigit"@ != "kbn"@,
        "near_repdigit"@ != "twin"@,
        "near_repdigit"@ != "factorial"@,
        "near_repdigit"@ != "sophie_germain"@,
        "near_repdigit"@ != "cullen_woodall"@,
        "near_repdigit"@ != "repunit"@,
        "near_repdigit"@ != "primorial"@,
        "near_repdigit"@ != "carol_kynea"@,
        "near_repdigit"@ != "gen_fermat"@,
        "near_repdigit"@ != "wagstaff"@,
        "near_repdigit"@ != "palindromic"@,
{
    reveal_strlit("kbn");
    reveal_strlit("twin");
    reveal_strlit("factorial");
    reveal_strlit("sophie_germain");
    reveal_strlit("cullen_woodall");
    reveal_strlit("repunit");
    reveal_strlit("primorial");
    reveal_strlit("carol_kynea");
    reveal_strlit("gen_fermat");
    reveal_strlit("wagstaff");
    reveal_strlit("palindromic");
    reveal_strlit("near_repdigit");
    assert("palindromic"@.len() == 11);
    assert("near_repdigit"@.len() == 13);
    assert("palindromic"@[0] == 'p');
    assert("near_repdigit"@[0] == 'n');
    assert("kbn"@.len() == 3);
    assert("twin"@.len() == 4);
    assert("factorial"@.len() == 9);
    assert("sophie_germain"@.len() == 14);
    assert("cullen_woodall"@.len() == 14);
    assert("repunit"@.len() == 7);
    assert("primorial"@.len() == 9);
    assert("carol_kynea"@.len() == 11);
    assert("gen_fermat"@.len() == 10);
    assert("wagstaff"@.len() == 8);
    assert("kbn"@[0] == 'k');
    assert("twin"@[0] == 't');
    assert("factorial"@[0] == 'f');
    assert("sophie_germain"@[0] == 's');
    assert("cullen_woodall"@[0] == 'c');
    assert("repunit"@[0] == 'r');
    assert("primorial"@[0] == 'p');
    assert("carol_kynea"@[0] == 'c');
    assert("gen_fermat"@[0] == 'g');
    assert("wagstaff"@[0] == 'w');
}

/// What a candidate n in [start, end] contributes is part of what a search
/// over [start, end] gathers.
pub proof fn lemma_span_gather(start: nat, end: nat, n: nat, g: spec_fn(nat) -> Seq<Found>, x: Found)
    requires
        start <= n <= end,
        g(n).contains(x),
    ensures
        gather(span(start, end), g).contains(x),
{
    let cands = span(start, end);
    assert(cands[n - start] == n);
    lemma_gather_contains(cands, g, n - start, x);
}

/// A twin block reports every twin pair (p, p + 2) with 5 ≤ p in [start, end].
pub proof fn lemma_twin_block_complete(start: u64, end: u64, p: nat)
    requires
        5 <= p,
        start <= p <= end,
        is_prime(p),
        is_prime(p + 2),
        mr_in_range(p),
        mr_in_range(p + 2),
    ensures
        block_found("twin"@, None, None, None, start, end).contains(found(twin_expr(p), "twin"@, p)),
{
    let g = |q: nat| twin_found(q);
    let cands = crate::search::forms::twin_cands(start as nat, end as nat);
    lemma_form_names_distinct();
    assert(block_found("twin"@, None, None, None, start, end) == gather(cands, g));
    lemma_twin_candidate(p, start as nat, end as nat);
    lemma_twin_reported(p);
    let i = choose|i: int| 0 <= i < cands.len() && cands[i] == p;
    assert(g(cands[i])[0] == found(twin_expr(p), "twin"@, p));
    lemma_gather_contains(cands, g, i, found(twin_expr(p), "twin"@, p));
}

/// A Sophie Germain block reports every prime p in [start, end] with 2p + 1
/// prime.
pub proof fn lemma_sophie_germain_block_complete(start: u64, end: u64, p: nat)
    requires
        start <= p <= end,
        is_prime(p),
        is_prime(2 * p + 1),
        mr_in_range(p),
        mr_in_range(2 * p + 1),
    ensures
        block_found("sophie_germain"@, None, None, None, start, end).contains(
            found(decimal(p), "sophie_germain"@, p)),
{
    let g = |q: nat| sg_found(q);
    let cands = sg_cands(start as nat, end as nat);
    lemma_form_names_distinct();
    assert(block_found("sophie_germain"@, None, None, None, start, end) == gather(cands, g));
    lemma_sophie_germain_candidate(p, start as nat, end as nat);
    lemma_sophie_germain_reported(p);
    let i = choose|i: int| 0 <= i < cands.len() && cands[i] == p;
    assert(g(cands[i])[0] == found(decimal(p), "sophie_germain"@, p));
    lemma_gather_contains(cands, g, i, found(decimal(p), "sophie_germain"@, p));
}

/// A factorial block reports every prime n! ± 1 for n in [start, end].
pub proof fn lemma_factorial_block_complete(start: u64, end: u64, n: nat)
    requires
        start <= n <= end,
    ensures
        is_prime(factorial(n) + 1) && mr_in_range(factorial(n) + 1)
            ==> block_found("factorial"@, None, None, None, start, end).contains(
                found(decimal(n) + "!+1"@, "factorial"@, factorial(n) + 1)),
        factorial(n) >= 1 && is_prime((factorial(n) - 1) as nat) && mr_in_range((factorial(n) - 1) as nat)
            ==> block_found("factorial"@, None, None, None, start, end).contains(
                found(decimal(n) + "!-1"@, "factorial"@, (factorial(n) - 1) as nat)),
{
    let g = |m: nat| factorial_found(m);
    lemma_form_names_distinct();
    assert(block_found("factorial"@, None, None, None, start, end) == gather(span(start as nat, end as nat), g));
    lemma_factorial_prime_reported(n);
    if is_prime(factorial(n) + 1) && mr_in_range(factorial(n) + 1) {
        lemma_span_gather(start as nat, end as nat, n, g, found(decimal(n) + "!+1"@, "factorial"@, factorial(n) + 1));
    }
    if factorial(n) >= 1 && is_prime((factorial(n) - 1) as nat) && mr_in_range((factorial(n) - 1) as nat) {
        lemma_span_gather(start as nat, end as nat, n, g,
            found(decimal(n) + "!-1"@, "factorial"@, (factorial(n) - 1) as nat));
    }
}

/// A Wagstaff block reports (2^p + 1)/3 for every odd prime p in [start, end]
/// (p ≤ 2^32 − 1) where it is prime.
pub proof fn lemma_wagstaff_block_complete(start: u64, end: u64, p: nat)
    requires
        start <= p <= end,
        p != 2,
        is_prime(p),
        p <= u32::MAX,
        is_prime(wagstaff_value(p)),
        mr_in_range(wagstaff_value(p)),
    ensures
        block_found("wagstaff"@, None, None, None, start, end).contains(
            found("(2^"@ + decimal(p) + "+1)/3"@, "wagstaff"@, wagstaff_value(p))),
{
    let g = |q: nat| wagstaff_found(q);
    lemma_form_names_distinct();
    assert(block_found("wagstaff"@, None, None, None, start, end) == gather(span(start as nat, end as nat), g));
    lemma_wagstaff_prime_reported(p);
    let x = found("(2^"@ + decimal(p) + "+1)/3"@, "wagstaff"@, wagstaff_value(p));
    assert(g(p)[0] == x);
    lemma_span_gather(start as nat, end as nat, p, g, x);
}

/// A generalized Fermat block reports base^(2^n) + 1 for every n in
/// [start, end] where it is prime.
pub proof fn lemma_gen_fermat_block_complete(base: Option<u64>, start: u64, end: u64, n: nat)
    requires
        start <= n <= end,
        gen_fermat_value(or_u64(base, 2) as nat, n) >= 2,
        is_prime(gen_fermat_value(or_u64(base, 2) as nat, n) as nat),
        mr_in_range(gen_fermat_value(or_u64(base, 2) as nat, n) as nat),
    ensures
        block_found("gen_fermat"@, None, base, None, start, end).contains(found(
            decimal(or_u64(base, 2) as nat) + "^(2^"@ + decimal(n) + ")+1"@, "gen_fermat"@,
            gen_fermat_value(or_u64(base, 2) as nat, n) as nat)),
{
    let b = or_u64(base, 2) as nat;
    let g = |m: nat| gen_fermat_found(b, m);
    lemma_form_names_distinct();
    assert(block_found("gen_fermat"@, None, base, None, start, end) == gather(span(start as nat, end as nat), g));
    lemma_gen_fermat_prime_reported(b, n);
    let x = found(decimal(b) + "^(2^"@ + decimal(n) + ")+1"@, "gen_fermat"@, gen_fermat_value(b, n) as nat);
    assert(g(n)[0] == x);
    lemma_span_gather(start as nat, end as nat, n, g, x);
}

/// A Cullen/Woodall block reports every prime n·2^n ± 1 for n in
/// [start, end] (n ≤ 2^32 − 1).
pub proof fn lemma_cullen_woodall_block_complete(start: u64, end: u64, n: nat)
    requires
        start <= n <= end,
        n <= u32::MAX,
    ensures
        ({
            let c = cullen_woodall_value(n, true);
            c >= 2 && is_prime(c as nat) && mr_in_range(c as nat)
                ==> block_found("cullen_woodall"@, None, None, None, start, end).contains(
                    found(decimal(n) + "*2^"@ + decimal(n) + "+1"@, "cullen_woodall"@, c as nat))
        }),
        ({
            let w = cullen_woodall_value(n, false);
            w >= 2 && is_prime(w as nat) && mr_in_range(w as nat)
                ==> block_found("cullen_woodall"@, None, None, None, start, end).contains(
                    found(decimal(n) + "*2^"@ + decimal(n) + "-1"@, "cullen_woodall"@, w as nat))
        }),
{
    let g = |m: nat| cullen_woodall_found(m);
    lemma_form_names_distinct();
    assert(block_found("cullen_woodall"@, None, None, None, start, end) == gather(span(start as nat, end as nat), g));
    lemma_cullen_woodall_prime_reported(n);
    let c = cullen_woodall_value(n, true);
    let w = cullen_woodall_value(n, false);
    if c >= 2 && is_prime(c as nat) && mr_in_range(c as nat) {
        lemma_span_gather(start as nat, end as nat, n, g,
            found(decimal(n) + "*2^"@ + decimal(n) + "+1"@, "cullen_woodall"@, c as nat));
    }
    if w >= 2 && is_prime(w as nat) && mr_in_range(w as nat) {
        lemma_span_gather(start as nat, end as nat, n, g,
            found(decimal(n) + "*2^"@ + decimal(n) + "-1"@, "cullen_woodall"@, w as nat));
    }
}

/// A Carol/Kynea block reports every prime (2^n ∓ 1)² − 2 for n in
/// [start, end] (n ≤ 2^32 − 1).
pub proof fn lemma_carol_kynea_block_complete(start: u64, end: u64, n: nat)
    requires
        start <= n <= end,
        n <= u32::MAX,
    ensures
        ({
            let c = carol_kynea_value(n, false);
            c >= 2 && is_prime(c as nat) && mr_in_range(c as nat)
                ==> block_found("carol_kynea"@, None, None, None, start, end).contains(
                    found("(2^"@ + decimal(n) + "-1)^2-2"@, "carol_kynea"@, c as nat))
        }),
        ({
            let k = carol_kynea_value(n, true);
            k >= 2 && is_prime(k as nat) && mr_in_range(k as nat)
                ==> block_found("carol_kynea"@, None, None, None, start, end).contains(
                    found("(2^"@ + decimal(n) + "+1)^2-2"@, "carol_kynea"@, k as nat))
        }),
{
    let g = |m: nat| carol_kynea_found(m);
    lemma_form_names_distinct();
    assert(block_found("carol_kynea"@, None, None, None, start, end) == gather(span(start as nat, end as nat), g));
    lemma_carol_kynea_prime_reported(n);
    let c = carol_kynea_value(n, false);
    let k = carol_kynea_value(n, true);
    if c >= 2 && is_prime(c as nat) && mr_in_range(c as nat) {
        lemma_span_gather(start as nat, end as nat, n, g,
            found("(2^"@ + decimal(n) + "-1)^2-2"@, "carol_kynea"@, c as nat));
    }
    if k >= 2 && is_prime(k as nat) && mr_in_range(k as nat) {
        lemma_span_gather(start as nat, end as nat, n, g,
            found("(2^"@ + decimal(n) + "+1)^2-2"@, "carol_kynea"@, k as nat));
    }
}

/// A repunit block (base ≥ 2) reports R(base, n) for every prime n in
/// [start, end] (n ≤ 2^32 − 1) where it is prime.
pub proof fn lemma_repunit_block_complete(base: Option<u64>, start: u64, end: u64, n: nat)
    requires
        or_u64(base, 10) >= 2,
        start <= n <= end,
        is_prime(n),
        n <= u32::MAX,
        is_prime(repunit_value(or_u64(base, 10) as nat, n)),
        mr_in_range(repunit_value(or_u64(base, 10) as nat, n)),
    ensures
        block_found("repunit"@, None, base, None, start, end).contains(found(
            "R("@ + decimal(or_u64(base, 10) as nat) + ","@ + decimal(n) + ")"@, "repunit"@,
            repunit_value(or_u64(base, 10) as nat, n))),
{
    let b = or_u64(base, 10) as nat;
    let g = |m: nat| repunit_found(b, m);
    lemma_form_names_distinct();
    assert(block_found("repunit"@, None, base, None, start, end) == gather(span(start as nat, end as nat), g));
    lemma_repunit_prime_reported(b, n);
    let x = found("R("@ + decimal(b) + ","@ + decimal(n) + ")"@, "repunit"@, repunit_value(b, n));
    assert(g(n)[0] == x);
    lemma_span_gather(start as nat, end as nat, n, g, x);
}

/// A primorial block reports every prime p# ± 1 for the primes p in
/// [start, end].
pub proof fn lemma_primorial_block_complete(start: u64, end: u64, p: nat)
    requires
        start <= p <= end,
        is_prime(p),
    ensures
        is_prime(primorial(p) + 1) && mr_in_range(primorial(p) + 1)
            ==> block_found("primorial"@, None, None, None, start, end).contains(
                found(decimal(p) + "#+1"@, "primorial"@, primorial(p) + 1)),
        primorial(p) >= 1 && is_prime((primorial(p) - 1) as nat) && mr_in_range((primorial(p) - 1) as nat)
            ==> block_found("primorial"@, None, None, None, start, end).contains(
                found(decimal(p) + "#-1"@, "primorial"@, (primorial(p) - 1) as nat)),
{
    let g = |q: nat| primorial_found(q);
    let s = start as nat;
    let e = end as nat;
    let cands = primes_between(s, e);
    lemma_form_names_distinct();
    assert(block_found("primorial"@, None, None, None, start, end) == gather(cands, g));
    // p sits in the primes below e + 1, after the primes below s.
    lemma_prime_list_split(s, e + 1);
    lemma_prime_list_facts(e + 1);
    let pl = prime_list(e + 1);
    assert(pl.contains(p));
    let j = choose|j: int| 0 <= j < pl.len() && pl[j] == p;
    let m = prime_list(s).len() as int;
    assert(j >= m) by {
        if j < m {
            assert(pl[j] < s);
        }
    }
    assert(cands[j - m] == p);
    lemma_primorial_prime_reported(p);
    if is_prime(primorial(p) + 1) && mr_in_range(primorial(p) + 1) {
        lemma_gather_contains(cands, g, j - m, found(decimal(p) + "#+1"@, "primorial"@, primorial(p) + 1));
    }
    if primorial(p) >= 1 && is_prime((primorial(p) - 1) as nat) && mr_in_range((primorial(p) - 1) as nat) {
        lemma_gather_contains(cands, g, j - m, found(decimal(p) + "#-1"@, "primorial"@, (primorial(p) - 1) as nat));
    }
}

/// A value that one of the contributions of a candidate holds is among the
/// values collected over all candidates.
proof fn lemma_concat_map_contains(cands: Seq<nat>, f: spec_fn(nat) -> Seq<nat>, i: int, y: nat)
    requires
        0 <= i < cands.len(),
        f(cands[i]).contains(y),
    ensures
        concat_map(cands, f).contains(y),
    decreases cands.len(),
{
    let init = cands.drop_last();
    let j = choose|j: int| 0 <= j < f(cands[i]).len() && #[trigger] f(cands[i])[j] == y;
    if i == cands.len() - 1 {
        let before = concat_map(init, f);
        assert((before + f(cands.last()))[before.len() + j] == y);
    } else {
        assert(init[i] == cands[i]);
        lemma_concat_map_contains(init, f, i, y);
        let k = choose|k: int| 0 <= k < concat_map(init, f).len() && concat_map(init, f)[k] == y;
        assert((concat_map(init, f) + f(cands.last()))[k] == y);
    }
}

/// A near-repdigit block (base ≥ 2, 10 when absent) tests every palindrome
/// with an odd digit count d ≥ 3 in [start, end] whose left half — its
/// first (d + 1) / 2 digits — repeats a nonzero digit b except for one
/// position `pos` holding another digit r (not 0 in the leading position),
/// and reports it when it is a probable prime.
pub proof fn lemma_near_repdigit_block_complete(base: Option<u64>, start: u64, end: u64, d: nat, b: nat,
    pos: nat, r: nat)
    requires
        or_u64(base, 10) >= 2,
        start <= d <= end,
        d % 2 == 1,
        d >= 3,
        1 <= b < or_u64(base, 10),
        pos < (d + 1) / 2,
        r < or_u64(base, 10),
        r != b,
        pos == 0 ==> r != 0,
    ensures
        ({
            let bb = or_u64(base, 10) as nat;
            let left = Seq::new(((d + 1) / 2) as nat, |k: int| (if k == pos { r } else { b }) as u64);
            let x = horner(palindrome_digits(left), bb);
            &&& dedup(near_candidates(bb, start as nat, end as nat)).contains(x)
            &&& probable_prime(x) ==> block_found("near_repdigit"@, None, base, None, start, end).contains(
                found(decimal(x), "near_repdigit"@, x))
        }),
{
    let bb = or_u64(base, 10) as nat;
    let h = ((d + 1) / 2) as nat;
    let left = Seq::new(h, |k: int| (if k == pos { r } else { b }) as u64);
    let x = horner(palindrome_digits(left), bb);
    assert(near_left(h, b, pos, r) =~= left);
    assert(near_value(bb, h, b, pos, r) == x);
    // replacement digit r at position pos
    let r0: nat = if pos == 0 { 1 } else { 0 };
    let rs = span(r0, (bb - 1) as nat);
    assert(rs[r - r0] == r);
    assert(near_at(bb, h, b, pos)(r) == seq![x]);
    assert(seq![x][0] == x);
    lemma_concat_map_contains(rs, near_at(bb, h, b, pos), r - r0, x);
    assert(near_by_r(bb, h, b, pos).contains(x));
    // position pos
    let ps = span(0, (h - 1) as nat);
    assert(ps[pos as int] == pos);
    assert(near_pos_fn(bb, h, b)(pos) == near_by_r(bb, h, b, pos));
    lemma_concat_map_contains(ps, near_pos_fn(bb, h, b), pos as int, x);
    // repeated digit b
    let bs = span(1, (bb - 1) as nat);
    assert(bs[b - 1] == b);
    assert(near_digit_fn(bb, h)(b) == near_by_pos(bb, h, b));
    lemma_concat_map_contains(bs, near_digit_fn(bb, h), b - 1, x);
    // digit count d
    let ds = span(start as nat, end as nat);
    assert(ds[d - start] == d);
    assert(near_count_fn(bb)(d) == near_of_digits(bb, d));
    assert(near_of_digits(bb, d) == near_by_digit(bb, h));
    lemma_concat_map_contains(ds, near_count_fn(bb), d - start, x);
    let xs = dedup(near_candidates(bb, start as nat, end as nat));
    lemma_dedup_contains(near_candidates(bb, start as nat, end as nat), x);
    if probable_prime(x) {
        lemma_form_names_distinct();
        assert(block_found("near_repdigit"@, None, base, None, start, end) == near_results(xs));
        let i = choose|i: int| 0 <= i < xs.len() && xs[i] == x;
        let g = |y: nat| near_found(y);
        assert(g(xs[i])[0] == found(decimal(x), "near_repdigit"@, x));
        lemma_gather_contains(xs, g, i, found(decimal(x), "near_repdigit"@, x));
    }
}

/// A palindromic block (base ≥ 2, 10 when absent) reports every palindrome
/// with an odd digit count d in [start, end] that is a probable prime: the
/// palindrome whose left half — its first (d + 1) / 2 digits — are the
/// digits of any v with exactly (d + 1) / 2 digits (no leading zero).
pub proof fn lemma_palindromic_block_complete(base: Option<u64>, start: u64, end: u64, d: nat, v: nat)
    requires
        or_u64(base, 10) >= 2,
        start <= d <= end,
        d % 2 == 1,
        pow(or_u64(base, 10) as int, ((d + 1) / 2 - 1) as nat) <= v < pow(or_u64(base, 10) as int, (d + 1) / 2),
        probable_prime(horner(palindrome_digits(to_digits(v, or_u64(base, 10) as nat, (d + 1) / 2)),
            or_u64(base, 10) as nat)),
    ensures
        ({
            let bb = or_u64(base, 10) as nat;
            let x = horner(palindrome_digits(to_digits(v, bb, (d + 1) / 2)), bb);
            block_found("palindromic"@, None, base, None, start, end).contains(found(decimal(x), "palindromic"@, x))
        }),
{
    let bb = or_u64(base, 10) as nat;
    let h = (d + 1) / 2;
    let x = palindrome_of(v, bb, h);
    let fx = found(decimal(x), "palindromic"@, x);
    lemma_form_names_distinct();
    let gd = |dd: nat| palindromic_found(bb, dd);
    assert(block_found("palindromic"@, None, base, None, start, end) == gather(span(start as nat, end as nat), gd));
    let hr = half_range(bb, d);
    lemma_pow_positive(bb as int, (h - 1) as nat);
    lemma_pow_positive(bb as int, h);
    let lo = pow(bb as int, (h - 1) as nat) as nat;
    let hi = (pow(bb as int, h) - 1) as nat;
    assert(hr == span(lo, hi));
    assert(lo <= v <= hi);
    assert(hr[v - lo] == v);
    let gv = |w: nat| palindrome_found(bb, h, w);
    assert(gv(v)[0] == fx);
    lemma_gather_contains(hr, gv, v - lo, fx);
    assert(gd(d) == gather(hr, gv));
    lemma_span_gather(start as nat, end as nat, d, gd, fx);
}

} // verus!
