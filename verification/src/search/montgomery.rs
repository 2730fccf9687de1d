//! Montgomery arithmetic modulo an odd 64-bit modulus, with R = 2^64.
//!
//! A residue `a` is held in Montgomery form `a·R mod n`; multiplication then
//! reduces to an integer product followed by REDC, with no division by `n`.
use vstd::prelude::*;
use vstd::arithmetic::div_mod::*;
use vstd::arithmetic::mul::*;
use vstd::arithmetic::power::*;
use vstd::arithmetic::power2::*;

verus! {

/// The Montgomery radix R = 2^64.
pub open spec fn mont_r() -> int {
    0x1_0000_0000_0000_0000
}

/// Montgomery multiplication context for an odd modulus n with 1 < n < 2^63.
pub struct MontCtx {
    /// The modulus.
    n: u64,
    /// -n⁻¹ mod 2^64.
    n_prime: u64,
    /// R mod n (Montgomery form of 1).
    r_mod_n: u64,
    /// R² mod n (for converting into Montgomery form).
    r2_mod_n: u64,
}

impl MontCtx {
    /// The modulus of this context.
    pub closed spec fn modulus(&self) -> int {
        self.n as int
    }

    /// R⁻¹ modulo n, obtained from n·n' + 1 = k·R (k·R ≡ 1 mod n).
    pub closed spec fn r_inv(&self) -> int {
        ((self.n as int * self.n_prime as int + 1) / mont_r()) % (self.n as int)
    }

    /// The residue represented by a Montgomery-form value `x`: x·R⁻¹ mod n.
    pub open spec fn value_of(&self, x: int) -> int {
        (x * self.r_inv()) % self.modulus()
    }

    /// The context invariants.
    pub closed spec fn wf(&self) -> bool {
        &&& self.n % 2 == 1
        &&& 1 < self.n < 0x8000_0000_0000_0000
        &&& (self.n as int * self.n_prime as int) % mont_r() == mont_r() - 1
        &&& self.r_mod_n as int == mont_r() % (self.n as int)
        &&& self.r2_mod_n as int == (mont_r() * mont_r()) % (self.n as int)
    }

    /// In a well-formed context the modulus is odd and below 2^63, and R⁻¹ is
    /// an inverse of R modulo n.
    pub proof fn lemma_wf(&self)
        requires
            self.wf(),
        ensures
            self.modulus() % 2 == 1,
            1 < self.modulus() < 0x8000_0000_0000_0000,
            0 <= self.r_inv() < self.modulus(),
            (mont_r() * self.r_inv()) % self.modulus() == 1,
    {
        let n = self.n as int;
        let np = self.n_prime as int;
        let r = mont_r();
        let k = (n * np + 1) / r;
        lemma_fundamental_div_mod(n * np, r);
        assert((n * np + 1) % r == 0) by {
            lemma_fundamental_div_mod(n * np + 1, r);
            lemma_fundamental_div_mod_converse(n * np + 1, r, (n * np) / r + 1, 0);
        }
        lemma_fundamental_div_mod(n * np + 1, r);
        assert(r * k == n * np + 1);
        lemma_mod_bound(k, n);
        lemma_mul_mod_noop_right(r, k, n);
        assert((r * k) % n == 1) by {
            assert(n * np + 1 == np * n + 1) by (nonlinear_arith);
            lemma_mod_multiples_vanish(np, 1, n);
            lemma_small_mod(1, n as nat);
        }
    }

    /// Create a Montgomery context for the odd modulus n, 1 < n < 2^63.
    pub fn new(n: u64) -> (ctx: MontCtx)
        requires
            n % 2 == 1,
            1 < n < 0x8000_0000_0000_0000,
        ensures
            ctx.wf(),
            ctx.modulus() == n,
    {
        let r: u128 = 0x1_0000_0000_0000_0000u128;
        // Hensel lifting: each step doubles the number of correct low bits of n⁻¹.
        let mut inv: u64 = 1;
        let mut i: u32 = 0;
        proof {
            lemma_hensel_base(n as int);
        }
        while i < 6
            invariant
                i <= 6,
                r == 0x1_0000_0000_0000_0000u128,
                n % 2 == 1,
                (n as int * inv as int) % pow2_int(hensel_bits(i as nat)) == 1,
                hensel_bits(i as nat) <= 64 || i == 6,
            decreases 6 - i,
        {
            assert((n as u128) * (inv as u128) < 0x1_0000_0000_0000_0000_0000_0000_0000_0000) by (nonlinear_arith)
                requires n < 0x1_0000_0000_0000_0000, inv < 0x1_0000_0000_0000_0000;
            let prod: u128 = ((n as u128) * (inv as u128)) % r;
            let f: u128 = (2 + r - prod) % r;
            assert((inv as u128) * f < 0x1_0000_0000_0000_0000_0000_0000_0000_0000) by (nonlinear_arith)
                requires inv < 0x1_0000_0000_0000_0000, f < r, r == 0x1_0000_0000_0000_0000u128;
            let next: u128 = ((inv as u128) * f) % r;
            proof {
                lemma_hensel_bits(i as nat);
                lemma_hensel_step(n as int, inv as int, hensel_bits(i as nat), prod as int, f as int, next as int);
            }
            inv = next as u64;
            i = i + 1;
        }
        proof {
            lemma_hensel_bits(6);
            assert(hensel_bits(6) == 64);
        }
        let n_prime: u64 = ((r - (inv as u128)) % r) as u64;
        proof {
            lemma_neg_inverse(n as int, inv as int, n_prime as int);
        }
        let r_mod_n: u64 = (r % (n as u128)) as u64;
        assert((r_mod_n as u128) * (r_mod_n as u128) < 0x1_0000_0000_0000_0000_0000_0000_0000_0000) by (nonlinear_arith)
            requires r_mod_n < 0x1_0000_0000_0000_0000;
        let r2_mod_n: u64 = (((r_mod_n as u128) * (r_mod_n as u128)) % (n as u128)) as u64;
        proof {
            lemma_mul_mod_noop_general(mont_r(), mont_r(), n as int);
        }
        MontCtx { n, n_prime, r_mod_n, r2_mod_n }
    }

    /// Montgomery reduction (REDC): t·R⁻¹ mod n, for t < n·R.
    pub fn reduce(&self, t: u128) -> (res: u64)
        requires
            self.wf(),
            t < self.modulus() * mont_r(),
        ensures
            res < self.modulus(),
            res == (t * self.r_inv()) % self.modulus(),
    {
        let r: u128 = 0x1_0000_0000_0000_0000u128;
        assert((t % r) * (self.n_prime as u128) < 0x1_0000_0000_0000_0000_0000_0000_0000_0000) by (nonlinear_arith)
            requires t % r < r, self.n_prime < 0x1_0000_0000_0000_0000, r == 0x1_0000_0000_0000_0000u128;
        let m: u128 = ((t % r) * (self.n_prime as u128)) % r;
        proof {
            lemma_mod_bound(t as int, mont_r());
            assert(m < mont_r()) by {
                lemma_mod_bound((t % r) as int * self.n_prime as int, mont_r());
            }
            assert(m as int * self.n as int <= (mont_r() - 1) * self.n as int) by (nonlinear_arith)
                requires m < mont_r(), self.n > 0;
        }
        let u: u128 = t + m * (self.n as u128);
        let res: u128 = u / r;
        proof {
            self.lemma_redc(t as int, m as int, u as int, res as int);
        }
        if res >= self.n as u128 {
            proof {
                self.lemma_wf();
                lemma_mod_sub_multiple(res as int, self.n as int, (t * self.r_inv()) % self.modulus());
            }
            (res - self.n as u128) as u64
        } else {
            proof {
                self.lemma_wf();
                lemma_small_mod(res as nat, self.n as nat);
            }
            res as u64
        }
    }

    proof fn lemma_redc(&self, t: int, m: int, u: int, res: int)
        requires
            self.wf(),
            0 <= t < self.modulus() * mont_r(),
            m == ((t % mont_r()) * self.n_prime as int) % mont_r(),
            u == t + m * self.n as int,
            res == u / mont_r(),
        ensures
            0 <= res < 2 * self.modulus(),
            res % self.modulus() == (t * self.r_inv()) % self.modulus(),
    {
        let r = mont_r();
        let n = self.n as int;
        let np = self.n_prime as int;
        self.lemma_wf();
        let ri = self.r_inv();
        // u ≡ t0·(1 + n·n') ≡ 0 (mod R)
        let t0 = t % r;
        lemma_mod_bound(t, r);
        lemma_mod_bound(t0 * np, r);
        assert(u % r == 0) by {
            lemma_mul_mod_noop_left(t0 * np, n, r);
            assert(((t0 * np) % r * n) % r == (t0 * np * n) % r);
            lemma_add_mod_noop(t, m * n, r);
            lemma_mod_twice(t, r);
            assert((t % r + (m * n) % r) % r == (t0 + (t0 * np * n) % r) % r) by {
                lemma_mod_twice(t, r);
            }
            lemma_add_mod_noop(t0, t0 * np * n, r);
            assert(t0 + t0 * np * n == t0 * (n * np + 1)) by (nonlinear_arith);
            lemma_mul_mod_noop_right(t0, n * np + 1, r);
            lemma_add_mod_noop(n * np, 1, r);
            lemma_small_mod(1, r as nat);
            assert((n * np + 1) % r == 0) by {
                assert((n * np) % r + 1 == r);
                lemma_mod_self_0(r);
            }
            lemma_mul_basics(t0);
        }
        lemma_fundamental_div_mod(u, r);
        assert(u == r * res);
        // bounds
        assert(m * n < r * n) by (nonlinear_arith)
            requires 0 <= m < r, n > 0;
        assert(u < 2 * n * r) by (nonlinear_arith)
            requires u == t + m * n, t < n * r, m * n < r * n;
        assert(res < 2 * n) by (nonlinear_arith)
            requires u == r * res, u < 2 * n * r, r > 0;
        assert(res >= 0) by (nonlinear_arith)
            requires u == r * res, u >= 0, r > 0;
        // res ≡ res·R·R⁻¹ = u·R⁻¹ ≡ t·R⁻¹ (mod n)
        assert(res % n == (t * ri) % n) by {
            // (m·n·R⁻¹) % n == 0
            lemma_mod_multiples_vanish(m * ri, t * ri, n);
            assert(u * ri == n * (m * ri) + t * ri) by (nonlinear_arith)
                requires u == t + m * n;
            assert((u * ri) % n == (t * ri) % n);
            assert(u * ri == res * (r * ri)) by (nonlinear_arith)
                requires u == r * res;
            lemma_mul_mod_noop_right(res, r * ri, n);
            lemma_mul_basics(res);
        }
    }

    /// Convert a normal value to Montgomery form: a·R mod n.
    pub fn to_mont(&self, a: u64) -> (x: u64)
        requires
            self.wf(),
        ensures
            x < self.modulus(),
            x == (a as int * mont_r()) % self.modulus(),
            self.value_of(x as int) == (a as int) % self.modulus(),
    {
        proof {
            self.lemma_wf();
            lemma_mod_bound(a as int, self.n as int);
        }
        let x = self.mul(a % self.n, self.r2_mod_n);
        proof {
            let n = self.n as int;
            let r = mont_r();
            let ri = self.r_inv();
            let am = (a % self.n) as int;
            assert(x as int == (am * ((r * r) % n) * ri) % n);
            assert((am * ((r * r) % n) * ri) % n == (a * r) % n) by {
                lemma_mul_mod_noop_right(am, r * r, n);
                lemma_mul_mod_noop_left(am * ((r * r) % n), ri, n);
                lemma_mul_mod_noop_left(am * (r * r), ri, n);
                assert(am * (r * r) * ri == (am * r) * (r * ri)) by (nonlinear_arith);
                lemma_mul_mod_noop_right(am * r, r * ri, n);
                lemma_mul_basics(am * r);
                lemma_mul_mod_noop_left(a as int, r, n);
            }
            self.lemma_value_of_mont(a as int);
        }
        x
    }

    /// The residue held by the Montgomery form of `a` is `a mod n`.
    pub proof fn lemma_value_of_mont(&self, a: int)
        requires
            self.wf(),
        ensures
            self.value_of((a * mont_r()) % self.modulus()) == a % self.modulus(),
    {
        self.lemma_wf();
        let n = self.modulus();
        let r = mont_r();
        let ri = self.r_inv();
        lemma_mul_mod_noop_left(a * r, ri, n);
        assert(a * r * ri == a * (r * ri)) by (nonlinear_arith);
        lemma_mul_mod_noop_right(a, r * ri, n);
        lemma_mul_basics(a);
    }

    /// Convert from Montgomery form back to normal: a·R⁻¹ mod n.
    pub fn from_mont(&self, a: u64) -> (v: u64)
        requires
            self.wf(),
        ensures
            v < self.modulus(),
            v == self.value_of(a as int),
    {
        proof {
            self.lemma_wf();
            assert(a < self.modulus() * mont_r()) by (nonlinear_arith)
                requires a < mont_r(), self.modulus() > 1;
        }
        self.reduce(a as u128)
    }

    /// Montgomery multiplication: a·b·R⁻¹ mod n (both inputs in Montgomery form).
    pub fn mul(&self, a: u64, b: u64) -> (c: u64)
        requires
            self.wf(),
            a < self.modulus(),
            b < self.modulus(),
        ensures
            c < self.modulus(),
            c == (a * b * self.r_inv()) % self.modulus(),
            self.value_of(c as int) == (self.value_of(a as int) * self.value_of(b as int)) % self.modulus(),
    {
        proof {
            self.lemma_wf();
            assert(a * b < self.modulus() * mont_r()) by (nonlinear_arith)
                requires a < self.modulus(), b < self.modulus(), self.modulus() < mont_r();
        }
        let c = self.reduce((a as u128) * (b as u128));
        proof {
            self.lemma_value_of_mul(a as int, b as int);
        }
        c
    }

    proof fn lemma_value_of_mul(&self, a: int, b: int)
        requires
            self.wf(),
        ensures
            self.value_of((a * b * self.r_inv()) % self.modulus())
                == (self.value_of(a) * self.value_of(b)) % self.modulus(),
    {
        self.lemma_wf();
        let n = self.modulus();
        let ri = self.r_inv();
        lemma_mul_mod_noop_left(a * b * ri, ri, n);
        lemma_mul_mod_noop_general(a * ri, b * ri, n);
        assert(a * b * ri * ri == (a * ri) * (b * ri)) by (nonlinear_arith);
    }

    /// Modular exponentiation in Montgomery form: the result holds
    /// value(base)^exp mod n.
    pub fn pow_mod(&self, base: u64, exp: u64) -> (res: u64)
        requires
            self.wf(),
            base < self.modulus(),
        ensures
            res < self.modulus(),
            self.value_of(res as int) == pow(self.value_of(base as int), exp as nat) % self.modulus(),
    {
        proof {
            self.lemma_wf();
        }
        let ghost n = self.modulus();
        let ghost vb0 = self.value_of(base as int);
        let mut result: u64 = self.r_mod_n;
        let mut b: u64 = base;
        let mut e: u64 = exp;
        proof {
            lemma_mod_bound(mont_r(), n);
            // value(R mod n) = 1
            lemma_mul_mod_noop_left(mont_r(), self.r_inv(), n);
            assert(self.value_of(result as int) == 1);
            lemma_mul_basics(pow(vb0, exp as nat));
        }
        while e > 0
            invariant
                self.wf(),
                n == self.modulus(),
                vb0 == self.value_of(base as int),
                result < n,
                b < n,
                (self.value_of(result as int) * pow(self.value_of(b as int), e as nat)) % n
                    == pow(vb0, exp as nat) % n,
            decreases e,
        {
            let ghost vr = self.value_of(result as int);
            let ghost vb = self.value_of(b as int);
            let ghost e0 = e;
            if e % 2 == 1 {
                result = self.mul(result, b);
            }
            e = e / 2;
            if e > 0 {
                b = self.mul(b, b);
            }
            proof {
                lemma_pow_step(vr, vb, e0 as nat, n);
                if e > 0 {
                    lemma_pow_mod_noop(vb * vb, e as nat, n);
                    assert(self.value_of(b as int) == (vb * vb) % n);
                    let nr = self.value_of(result as int);
                    lemma_mul_mod_noop_right(nr, pow((vb * vb) % n, e as nat), n);
                    lemma_mul_mod_noop_right(nr, pow(vb * vb, e as nat), n);
                } else {
                    lemma_pow0(self.value_of(b as int));
                    lemma_pow0(vb * vb);
                }
                if e0 % 2 == 1 {
                    let nr = self.value_of(result as int);
                    assert(nr == (vr * vb) % n);
                    lemma_mul_mod_noop_left(vr * vb, pow(vb * vb, e as nat), n);
                }
            }
        }
        proof {
            lemma_pow0(self.value_of(b as int));
            lemma_mod_bound(self.value_of(result as int) * 1, n);
            lemma_mod_bound(result as int * self.r_inv(), n);
            lemma_small_mod(self.value_of(result as int) as nat, n as nat);
        }
        result
    }
}

/// One step of square-and-multiply: for e = 2q + r, x^e = x^r · (x²)^q.
proof fn lemma_pow_step(vr: int, vb: int, e: nat, n: int)
    requires
        n > 0,
    ensures
        (vr * pow(vb, e)) % n == (if e % 2 == 1 { (vr * vb) * pow(vb * vb, e / 2) } else {
            vr * pow(vb * vb, e / 2)
        }) % n,
{
    lemma_pow_multiplies(vb, 2, e / 2);
    lemma_square_is_pow2(vb);
    assert(2 * (e / 2) == (e / 2) * 2) by (nonlinear_arith);
    lemma_pow_multiplies(vb, e / 2, 2);
    lemma_pow_multiplies(vb, 2, e / 2);
    assert(pow(vb * vb, e / 2) == pow(vb, 2 * (e / 2))) by {
        lemma_pow_multiplies(vb, 2, e / 2);
    }
    if e % 2 == 1 {
        assert(e == 2 * (e / 2) + 1);
        lemma_pow_adds(vb, 2 * (e / 2), 1);
        lemma_pow1(vb);
        assert(vr * (pow(vb, 2 * (e / 2)) * vb) == (vr * vb) * pow(vb, 2 * (e / 2))) by (nonlinear_arith);
    } else {
        assert(e == 2 * (e / 2));
    }
}

/// (x - n) mod n == x mod n, and x - n < n when n <= x < 2n.
proof fn lemma_mod_sub_multiple(x: int, n: int, target: int)
    requires
        n > 0,
        n <= x < 2 * n,
        x % n == target,
    ensures
        x - n == target,
        0 <= x - n < n,
{
    lemma_fundamental_div_mod_converse(x, n, 1, x - n);
}

/// The number of correct low bits of n⁻¹ after `i` Hensel steps: 2^i.
pub open spec fn hensel_bits(i: nat) -> nat
    decreases i,
{
    if i == 0 { 1 } else { 2 * hensel_bits((i - 1) as nat) }
}

/// 2^k as an integer.
pub open spec fn pow2_int(k: nat) -> int {
    pow2(k) as int
}

proof fn lemma_hensel_bits_pos(i: nat)
    ensures
        hensel_bits(i) >= 1,
    decreases i,
{
    if i > 0 {
        lemma_hensel_bits_pos((i - 1) as nat);
    }
}

proof fn lemma_hensel_bits(i: nat)
    ensures
        hensel_bits(i) >= 1,
        i <= 5 ==> hensel_bits(i) <= 32,
        i <= 6 ==> hensel_bits(i) <= 64,
        i == 6 ==> hensel_bits(i) == 64,
        i < 6 ==> hensel_bits(i + 1) == 2 * hensel_bits(i),
{
    reveal_with_fuel(hensel_bits, 7);
    lemma_hensel_bits_pos(i);
    if i <= 6 {
        if i == 0 {} else if i == 1 {} else if i == 2 {} else if i == 3 {} else if i == 4 {} else if i == 5 {} else {}
    }
}

proof fn lemma_pow2_int_pos(k: nat)
    ensures
        pow2_int(k) > 0,
{
    lemma_pow2_pos(k);
}

proof fn lemma_pow2_int_adds(a: nat, b: nat)
    ensures
        pow2_int(a + b) == pow2_int(a) * pow2_int(b),
{
    lemma_pow2_adds(a, b);
}

proof fn lemma_pow2_int_64()
    ensures
        pow2_int(64) == mont_r(),
        pow2_int(1) == 2,
{
    lemma2_to64();
}

proof fn lemma_hensel_base(n: int)
    requires
        n % 2 == 1,
        n > 0,
    ensures
        (n * 1) % pow2_int(hensel_bits(0)) == 1,
{
    lemma_pow2_int_64();
}

/// If n·x ≡ 1 (mod 2^k) with k ≤ 32 then n·x' ≡ 1 (mod 2^(2k)) where
/// x' = x·(2 − n·x) computed modulo 2^64.
proof fn lemma_hensel_step(n: int, x: int, k: nat, prod: int, f: int, next: int)
    requires
        1 <= k <= 64,
        0 <= n < mont_r(),
        0 <= x < mont_r(),
        (n * x) % pow2_int(k) == 1,
        prod == (n * x) % mont_r(),
        f == (2 + mont_r() - prod) % mont_r(),
        next == (x * f) % mont_r(),
    ensures
        k <= 32 ==> (n * next) % pow2_int(2 * k) == 1,
        k > 32 ==> (n * next) % pow2_int(k) == 1,
        0 <= next < mont_r(),
{
    let r = mont_r();
    lemma_mod_bound(x * f, r);
    let kk: nat = if k <= 32 { 2 * k } else { k };
    let m = pow2_int(kk);
    let pk = pow2_int(k);
    lemma_pow2_int_pos(k);
    lemma_pow2_int_pos(kk);
    // m divides R
    lemma_pow2_int_adds(kk, (64 - kk) as nat);
    lemma_pow2_int_64();
    lemma_pow2_int_pos((64 - kk) as nat);
    let c = pow2_int((64 - kk) as nat);
    assert(r == m * c);
    // n·next ≡ n·x·(2 − n·x) (mod m)
    assert((n * next) % m == (n * x * (2 - n * x)) % m) by {
        lemma_mod_mod(x * f, m, c);
        assert(r == m * c);
        lemma_mul_mod_noop_right(n, next, m);
        lemma_mul_mod_noop_right(n, x * f, m);
        // f ≡ 2 − n·x (mod m)
        assert(f % m == (2 - n * x) % m) by {
            lemma_mod_mod(2 + r - prod, m, c);
            lemma_mod_mod(n * x, m, c);
            lemma_sub_mod_noop(2 + r, prod, m);
            lemma_sub_mod_noop(2 + r, n * x, m);
            lemma_mod_multiples_vanish(c, 2, m);
            assert(2 + r == m * c + 2) by (nonlinear_arith) requires r == m * c;
            lemma_mod_multiples_vanish(c, 2 - n * x, m);
            assert(2 + r - n * x == m * c + (2 - n * x)) by (nonlinear_arith) requires r == m * c;
        }
        lemma_mul_mod_noop_right(n * x, f, m);
        lemma_mul_mod_noop_right(n * x, 2 - n * x, m);
        assert(n * (x * f) == (n * x) * f) by (nonlinear_arith);
        assert(n * x * (2 - n * x) == (n * x) * (2 - n * x)) by (nonlinear_arith);
    }
    // n·x = 1 + q·2^k  ⇒  n·x·(2 − n·x) = 1 − q²·2^(2k)
    let q = (n * x) / pk;
    lemma_fundamental_div_mod(n * x, pk);
    assert(n * x == 1 + q * pk);
    assert(n * x * (2 - n * x) == 1 - (q * q) * (pk * pk)) by (nonlinear_arith)
        requires n * x == 1 + q * pk;
    lemma_pow2_int_adds(k, k);
    assert(pk * pk == pow2_int(k + k));
    if k <= 32 {
        assert(m == pk * pk);
        lemma_mod_multiples_vanish(-(q * q), 1, m);
        assert(1 - (q * q) * (pk * pk) == m * (-(q * q)) + 1) by (nonlinear_arith) requires m == pk * pk;
        assert(pk >= 2) by {
            lemma_pow2_int_64();
            lemma_pow2_int_adds(1, (k - 1) as nat);
            lemma_pow2_int_pos((k - 1) as nat);
        }
        assert(m >= 4) by (nonlinear_arith) requires m == pk * pk, pk >= 2;
        lemma_small_mod(1, m as nat);
    } else {
        // 2^k divides 2^(2k)
        assert(m == pk);
        lemma_pow2_int_adds(k, k);
        lemma_mod_multiples_vanish(-(q * q) * pk, 1, m);
        assert(1 - (q * q) * (pk * pk) == m * (-(q * q) * pk) + 1) by (nonlinear_arith) requires m == pk;
        assert(m >= 2) by {
            lemma_pow2_int_64();
            lemma_pow2_int_adds(1, (k - 1) as nat);
            lemma_pow2_int_pos((k - 1) as nat);
        }
        lemma_small_mod(1, m as nat);
    }
}

/// With n·x ≡ 1 (mod R), n' = (R − x) mod R satisfies n·n' ≡ −1 (mod R).
proof fn lemma_neg_inverse(n: int, x: int, np: int)
    requires
        0 < n < mont_r(),
        0 <= x < mont_r(),
        (n * x) % pow2_int(hensel_bits(6)) == 1,
        np == (mont_r() - x) % mont_r(),
    ensures
        (n * np) % mont_r() == mont_r() - 1,
{
    let r = mont_r();
    lemma_hensel_bits(6);
    lemma_pow2_int_64();
    assert((n * x) % r == 1);
    lemma_mul_mod_noop_right(n, r - x, r);
    assert(n * (r - x) == n * r - n * x) by (nonlinear_arith);
    lemma_fundamental_div_mod(n * x, r);
    let q = (n * x) / r;
    assert(n * (r - x) == (n - q) * r - 1) by (nonlinear_arith)
        requires n * x == r * q + 1;
    lemma_mod_multiples_vanish(n - q - 1, r - 1, r);
    assert((n - q) * r - 1 == r * (n - q - 1) + (r - 1)) by (nonlinear_arith);
    lemma_small_mod((r - 1) as nat, r as nat);
}

} // verus!
