//! Arbitrary-precision naturals for the search engine and the factoring
//! tools.
//!
//! `BigNat` holds its value as little-endian base-2^32 limbs; its view is
//! the natural number those limbs denote. Products, quotients, powers,
//! modular powers, gcds and decimal rendering are computed by `num-bigint`
//! behind the trusted wrappers at the end of this file; limb-level work
//! (reduction by a small modulus, parity, conversions) is verified here.
use vstd::prelude::*;
use vstd::arithmetic::div_mod::*;
use vstd::arithmetic::mul::*;
use vstd::arithmetic::power::*;
use crate::text::decimal;
use crate::search::primality::{mr_passes, mr_witness, odd_part, two_adic, split_two_power, lemma_prime_passes_witness};
use crate::search::primes::is_prime;

pub mod seq_iter;

verus! {

/// 2^32, the limb base.
pub open spec fn limb_base() -> int {
    0x1_0000_0000
}

/// The natural number denoted by little-endian base-2^32 limbs.
pub open spec fn limbs_value(s: Seq<u32>) -> nat
    decreases s.len(),
{
    if s.len() == 0 {
        0
    } else {
        (s[0] as nat + limb_base() * limbs_value(s.drop_first())) as nat
    }
}

/// Greatest common divisor (Euclid), with gcd(a, 0) = a.
pub open spec fn gcd(a: nat, b: nat) -> nat
    decreases b,
{
    if b == 0 { a } else { gcd(b, a % b) }
}

/// gcd(a, b) divides both a and b, and is positive unless both are zero.
pub proof fn lemma_gcd_divides(a: nat, b: nat)
    requires
        a > 0 || b > 0,
    ensures
        gcd(a, b) > 0,
        a % gcd(a, b) == 0,
        b % gcd(a, b) == 0,
    decreases b,
{
    if b == 0 {
        lemma_mod_self_0(a as int);
        lemma_small_mod(0, a);
    } else {
        lemma_gcd_divides(b, a % b);
        let g = gcd(b, a % b);
        let gi = g as int;
        lemma_fundamental_div_mod(a as int, b as int);
        lemma_fundamental_div_mod(b as int, gi);
        lemma_fundamental_div_mod((a % b) as int, gi);
        let u = b as int / gi;
        let v = (a % b) as int / gi;
        let k = u * (a as int / b as int) + v;
        assert(a as int == k * gi) by (nonlinear_arith)
            requires
                a as int == b as int * (a as int / b as int) + (a % b) as int,
                b as int == gi * u,
                (a % b) as int == gi * v,
                k == u * (a as int / b as int) + v;
        lemma_mod_multiples_basic(k, gi);
    }
}

/// gcd(0, n) = n.
pub proof fn lemma_gcd_zero_left(n: nat)
    ensures
        gcd(0, n) == n,
{
    if n > 0 {
        lemma_small_mod(0, n);
        assert(gcd(0, n) == gcd(n, 0));
    }
}

/// An arbitrary-precision natural number.
#[derive(Clone, Debug)]
pub struct BigNat {
    limbs: Vec<u32>,
}

impl View for BigNat {
    type V = nat;

    closed spec fn view(&self) -> nat {
        limbs_value(self.limbs@)
    }
}

impl BigNat {
    /// A copy of this number.
    pub fn dup(&self) -> (r: BigNat)
        ensures
            r@ == self@,
    {
        let mut limbs: Vec<u32> = Vec::new();
        let mut i: usize = 0;
        while i < self.limbs.len()
            invariant
                i <= self.limbs@.len(),
                limbs@ == self.limbs@.subrange(0, i as int),
            decreases self.limbs@.len() - i,
        {
            limbs.push(self.limbs[i]);
            i = i + 1;
        }
        assert(limbs@ =~= self.limbs@);
        BigNat { limbs }
    }

    /// The natural number `v`.
    pub fn from_u64(v: u64) -> (r: BigNat)
        ensures
            r@ == v as nat,
    {
        let lo: u32 = (v % 0x1_0000_0000) as u32;
        let hi: u32 = (v / 0x1_0000_0000) as u32;
        let mut limbs: Vec<u32> = Vec::new();
        limbs.push(lo);
        limbs.push(hi);
        proof {
            let s = limbs@;
            assert(s.drop_first().drop_first() =~= Seq::<u32>::empty());
            assert(limbs_value(s.drop_first().drop_first()) == 0);
            assert(s.drop_first()[0] == hi);
            assert(limbs_value(s.drop_first()) == hi as nat + limb_base() * 0);
            assert(limbs_value(s) == lo as nat + limb_base() * hi as nat);
        }
        BigNat { limbs }
    }

    /// Zero.
    pub fn zero() -> (r: BigNat)
        ensures
            r@ == 0,
    {
        BigNat { limbs: Vec::new() }
    }

    /// One.
    pub fn one() -> (r: BigNat)
        ensures
            r@ == 1,
    {
        BigNat::from_u64(1)
    }

    /// `self mod p` for a machine-word modulus, by Horner's rule over the limbs
    /// from the most significant one down.
    pub fn mod_small(&self, p: u64) -> (r: u64)
        requires
            p > 0,
        ensures
            r as nat == self@ % (p as nat),
    {
        let n = self.limbs.len();
        let mut rem: u128 = 0;
        let mut i: usize = n;
        let ghost s = self.limbs@;
        proof {
            assert(s.subrange(n as int, n as int) =~= Seq::<u32>::empty());
            lemma_small_mod(0, p as nat);
        }
        while i > 0
            invariant
                i <= n,
                n == s.len(),
                s == self.limbs@,
                p > 0,
                rem < p,
                rem as nat == limbs_value(s.subrange(i as int, n as int)) % (p as nat),
            decreases i,
        {
            let d = self.limbs[i - 1];
            let ghost tail = s.subrange(i as int, n as int);
            let ghost whole = s.subrange(i - 1, n as int);
            assert(whole.drop_first() =~= tail);
            assert(rem * 0x1_0000_0000 + d < 0x1_0000_0000_0000_0000_0000_0000_0000_0000) by (nonlinear_arith)
                requires rem < p, p <= u64::MAX, d <= u32::MAX;
            let next = (rem * 0x1_0000_0000 + d as u128) % (p as u128);
            proof {
                let pi = p as int;
                let vt = limbs_value(tail) as int;
                assert(limbs_value(whole) as int == d as int + limb_base() * vt);
                lemma_mul_mod_noop_right(limb_base(), vt, pi);
                lemma_add_mod_noop(d as int, limb_base() * vt, pi);
                lemma_add_mod_noop(d as int, limb_base() * (vt % pi), pi);
                assert(rem * 0x1_0000_0000 + d == d as int + limb_base() * (vt % pi)) by (nonlinear_arith)
                    requires rem as int == vt % pi;
            }
            rem = next;
            i = i - 1;
        }
        proof {
            assert(s.subrange(0, n as int) =~= s);
        }
        rem as u64
    }

    /// Whether the value is even.
    pub fn is_even(&self) -> (r: bool)
        ensures
            r == (self@ % 2 == 0),
    {
        proof {
            let s = self.limbs@;
            if s.len() > 0 {
                let v = limbs_value(s.drop_first()) as int;
                assert(limbs_value(s) as int == s[0] as int + limb_base() * v);
                assert(limb_base() * v == 2 * (0x8000_0000 * v)) by (nonlinear_arith);
                lemma_mod_multiples_vanish(0x8000_0000 * v, s[0] as int, 2);
            }
        }
        if self.limbs.len() == 0 {
            true
        } else {
            self.limbs[0] % 2 == 0
        }
    }

    /// The value as a machine word, when it fits.
    pub fn to_u64(&self) -> (r: Option<u64>)
        ensures
            r matches Some(v) ==> v as nat == self@,
            r is None ==> self@ > u64::MAX,
    {
        let max = BigNat::from_u64(0xFFFF_FFFF_FFFF_FFFF);
        if big_lt(&max, self) {
            return None;
        }
        let lo = self.mod_small(0x1_0000_0000);
        let hi_part = big_div(self, &BigNat::from_u64(0x1_0000_0000));
        let hi = hi_part.mod_small(0x1_0000_0000);
        proof {
            let v = self@ as int;
            lemma_fundamental_div_mod(v, 0x1_0000_0000);
            assert(v / 0x1_0000_0000 < 0x1_0000_0000) by (nonlinear_arith)
                requires v <= 0xFFFF_FFFF_FFFF_FFFF, v >= 0;
            assert(v / 0x1_0000_0000 >= 0) by (nonlinear_arith) requires v >= 0;
            lemma_small_mod((v / 0x1_0000_0000) as nat, 0x1_0000_0000);
            assert(hi * 0x1_0000_0000 + lo == v);
        }
        Some(hi * 0x1_0000_0000 + lo)
    }

    /// Whether the value equals the machine word `v`.
    pub fn eq_u64(&self, v: u64) -> (r: bool)
        ensures
            r == (self@ == v as nat),
    {
        big_eq(self, &BigNat::from_u64(v))
    }

    /// Whether `self < other`.
    pub fn lt(&self, other: &BigNat) -> (r: bool)
        ensures
            r == (self@ < other@),
    {
        big_lt(self, other)
    }

    /// Whether `self == other`.
    pub fn equals(&self, other: &BigNat) -> (r: bool)
        ensures
            r == (self@ == other@),
    {
        big_eq(self, other)
    }

    /// `self + other`.
    pub fn add(&self, other: &BigNat) -> (r: BigNat)
        ensures
            r@ == self@ + other@,
    {
        big_add(self, other)
    }

    /// `self - other`, for `other <= self`.
    pub fn sub(&self, other: &BigNat) -> (r: BigNat)
        requires
            other@ <= self@,
        ensures
            r@ == self@ - other@,
    {
        big_sub(self, other)
    }

    /// `self * other`.
    pub fn mul(&self, other: &BigNat) -> (r: BigNat)
        ensures
            r@ == self@ * other@,
    {
        big_mul(self, other)
    }

    /// `self / other` (floor), for `other > 0`.
    pub fn div(&self, other: &BigNat) -> (r: BigNat)
        requires
            other@ > 0,
        ensures
            r@ == self@ / other@,
    {
        big_div(self, other)
    }

    /// `self mod other`, for `other > 0`.
    pub fn rem(&self, other: &BigNat) -> (r: BigNat)
        requires
            other@ > 0,
        ensures
            r@ == self@ % other@,
    {
        big_rem(self, other)
    }

    /// `self^e`.
    pub fn pow(&self, e: u32) -> (r: BigNat)
        ensures
            r@ == pow(self@ as int, e as nat),
    {
        big_pow(self, e)
    }

    /// `self^e mod m`, for `m > 0`.
    pub fn modpow(&self, e: &BigNat, m: &BigNat) -> (r: BigNat)
        requires
            m@ > 0,
        ensures
            r@ == pow(self@ as int, e@) % (m@ as int),
    {
        big_modpow(self, e, m)
    }

    /// The greatest common divisor of `self` and `other`.
    pub fn gcd(&self, other: &BigNat) -> (r: BigNat)
        ensures
            r@ == gcd(self@, other@),
    {
        big_gcd(self, other)
    }

    /// The inverse of `self` modulo `m` (`m > 0`), when `gcd(self, m) = 1`.
    pub fn modinv(&self, m: &BigNat) -> (r: Option<BigNat>)
        requires
            m@ > 0,
        ensures
            r is Some <==> gcd(self@, m@) == 1,
        r is None ==> forall|v: nat| v < m@ ==> #[trigger] ((self@ * v) % m@) != 1nat % m@,
            r matches Some(x) ==> x@ < m@ && (self@ * x@) % m@ == 1nat % m@,
    {
        big_modinv(self, m)
    }

    /// The decimal representation of the value.
    pub fn to_decimal(&self) -> (s: String)
        ensures
            s@ == decimal(self@),
    {
        big_to_decimal(self)
    }
}

/// `BigUint` addition.
#[verifier::external_body]
fn big_add(a: &BigNat, b: &BigNat) -> (r: BigNat)
    ensures
        r@ == a@ + b@,
{
    let x = num_bigint::BigUint::new(a.limbs.clone()) + num_bigint::BigUint::new(b.limbs.clone());
    BigNat { limbs: x.to_u32_digits() }
}

/// `BigUint` subtraction; `num-bigint` panics when `b > a`, which the
/// precondition rules out.
#[verifier::external_body]
fn big_sub(a: &BigNat, b: &BigNat) -> (r: BigNat)
    requires
        b@ <= a@,
    ensures
        r@ == a@ - b@,
{
    let x = num_bigint::BigUint::new(a.limbs.clone()) - num_bigint::BigUint::new(b.limbs.clone());
    BigNat { limbs: x.to_u32_digits() }
}

/// `BigUint` multiplication.
#[verifier::external_body]
fn big_mul(a: &BigNat, b: &BigNat) -> (r: BigNat)
    ensures
        r@ == a@ * b@,
{
    let x = num_bigint::BigUint::new(a.limbs.clone()) * num_bigint::BigUint::new(b.limbs.clone());
    BigNat { limbs: x.to_u32_digits() }
}

/// `BigUint` floor division; panics on a zero divisor, ruled out by the precondition.
#[verifier::external_body]
fn big_div(a: &BigNat, b: &BigNat) -> (r: BigNat)
    requires
        b@ > 0,
    ensures
        r@ == a@ / b@,
{
    let x = num_bigint::BigUint::new(a.limbs.clone()) / num_bigint::BigUint::new(b.limbs.clone());
    BigNat { limbs: x.to_u32_digits() }
}

/// `BigUint` remainder; panics on a zero divisor, ruled out by the precondition.
#[verifier::external_body]
fn big_rem(a: &BigNat, b: &BigNat) -> (r: BigNat)
    requires
        b@ > 0,
    ensures
        r@ == a@ % b@,
{
    let x = num_bigint::BigUint::new(a.limbs.clone()) % num_bigint::BigUint::new(b.limbs.clone());
    BigNat { limbs: x.to_u32_digits() }
}

/// `BigUint::pow`: `a^e`.
#[verifier::external_body]
fn big_pow(a: &BigNat, e: u32) -> (r: BigNat)
    ensures
        r@ == pow(a@ as int, e as nat),
{
    let x = num_bigint::BigUint::new(a.limbs.clone()).pow(e);
    BigNat { limbs: x.to_u32_digits() }
}

/// `BigUint::modpow`: `(a^e) mod m`; panics on a zero modulus, ruled out by
/// the precondition.
#[verifier::external_body]
fn big_modpow(a: &BigNat, e: &BigNat, m: &BigNat) -> (r: BigNat)
    requires
        m@ > 0,
    ensures
        r@ == pow(a@ as int, e@) % (m@ as int),
{
    let base = num_bigint::BigUint::new(a.limbs.clone());
    let x = base.modpow(&num_bigint::BigUint::new(e.limbs.clone()), &num_bigint::BigUint::new(m.limbs.clone()));
    BigNat { limbs: x.to_u32_digits() }
}

/// `num_integer::Integer::gcd` on `BigUint`: the greatest common divisor.
#[verifier::external_body]
fn big_gcd(a: &BigNat, b: &BigNat) -> (r: BigNat)
    ensures
        r@ == gcd(a@, b@),
{
    let x = num_integer::Integer::gcd(&num_bigint::BigUint::new(a.limbs.clone()), &num_bigint::BigUint::new(b.limbs.clone()));
    BigNat { limbs: x.to_u32_digits() }
}

/// `BigUint::modinv`: the x in [0, m) with a·x ≡ 1 (mod m) if there is one,
/// else None; one exists iff gcd(a, m) = 1. For m = 1 it gives Some(0). Panics on a zero modulus,
/// ruled out by the precondition.
#[verifier::external_body]
fn big_modinv(a: &BigNat, m: &BigNat) -> (r: Option<BigNat>)
    requires
        m@ > 0,
    ensures
        r is Some <==> gcd(a@, m@) == 1,
        r is None ==> forall|v: nat| v < m@ ==> #[trigger] ((a@ * v) % m@) != 1nat % m@,
        r matches Some(x) ==> x@ < m@ && (a@ * x@) % m@ == 1nat % m@,
{
    let x = num_bigint::BigUint::new(a.limbs.clone()).modinv(&num_bigint::BigUint::new(m.limbs.clone()));
    x.map(|v| BigNat { limbs: v.to_u32_digits() })
}

/// `BigUint` `<`.
#[verifier::external_body]
fn big_lt(a: &BigNat, b: &BigNat) -> (r: bool)
    ensures
        r == (a@ < b@),
{
    num_bigint::BigUint::new(a.limbs.clone()) < num_bigint::BigUint::new(b.limbs.clone())
}

/// `BigUint` `==`.
#[verifier::external_body]
fn big_eq(a: &BigNat, b: &BigNat) -> (r: bool)
    ensures
        r == (a@ == b@),
{
    num_bigint::BigUint::new(a.limbs.clone()) == num_bigint::BigUint::new(b.limbs.clone())
}

/// `BigUint`'s `Display`: the decimal digits, most significant first, with
/// no leading zeros ("0" for zero).
#[verifier::external_body]
fn big_to_decimal(a: &BigNat) -> (s: String)
    ensures
        s@ == decimal(a@),
{
    num_bigint::BigUint::new(a.limbs.clone()).to_string()
}


/// Miller-Rabin with the bases 2, 3, …, rounds + 1: 2 is prime, smaller and
/// even numbers are not, and an odd n ≥ 3 passes when every base passes for
/// n − 1 = 2^s·d (a base of at least n − 1 always passes).
pub open spec fn probably_prime_native_spec(n: nat, rounds: nat) -> bool {
    if n < 2 {
        false
    } else if n == 2 {
        true
    } else if n % 2 == 0 {
        false
    } else {
        forall|a: nat| 2 <= a <= rounds + 1
            ==> #[trigger] mr_passes(n, a, odd_part((n - 1) as nat), two_adic((n - 1) as nat))
    }
}

/// Probabilistic Miller-Rabin test with the bases 2 … rounds + 1; each round
/// errs with probability at most 1/4, so `rounds` rounds err below 4^−rounds.
pub fn is_probably_prime_native(n: &BigNat, rounds: u32) -> (r: bool)
    ensures
        r == probably_prime_native_spec(n@, rounds as nat),
{
    let two = BigNat::from_u64(2);
    if n.lt(&two) {
        return false;
    }
    if n.eq_u64(2) {
        return true;
    }
    if n.is_even() {
        return false;
    }
    let n_minus_1 = n.sub(&BigNat::one());
    let (d, s) = split_two_power(&n_minus_1);
    let last: u64 = rounds as u64 + 1;
    let mut a: u64 = 2;
    while a <= last
        invariant
            n@ >= 3,
            n@ % 2 == 1,
            last == rounds + 1,
            2 <= a <= last + 1,
            d@ == odd_part((n@ - 1) as nat),
            s as nat == two_adic((n@ - 1) as nat),
            forall|b: nat| 2 <= b < a ==> #[trigger] mr_passes(n@, b, d@, s as nat),
        decreases last + 1 - a,
    {
        let a_big = BigNat::from_u64(a);
        if !n.lt(&a_big) && !n.eq_u64(a) {
            if !mr_witness(n, a, &d, s) {
                return false;
            }
        } else {
            assert(mr_passes(n@, a as nat, d@, s as nat));
        }
        a = a + 1;
    }
    true
}

/// The native test never rejects a prime, whatever the number of rounds
/// (when the exponent of two in n − 1 is below the cap).
pub proof fn lemma_native_test_complete(n: nat, rounds: nat)
    requires
        is_prime(n),
        two_adic((n - 1) as nat) < u64::MAX,
    ensures
        probably_prime_native_spec(n, rounds),
{
    if n > 2 {
        assert(n % 2 != 0) by {
            assert(2 < n);
        }
        assert forall|a: nat| 2 <= a <= rounds + 1 implies #[trigger] mr_passes(n, a, odd_part((n - 1) as nat),
            two_adic((n - 1) as nat)) by {
            lemma_prime_passes_witness(n, a);
        }
    }
}

} // verus!
