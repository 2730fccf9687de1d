//! Lenstra's elliptic curve method on twisted Edwards curves
//! (−x² + y² = 1 + d·x²·y², a = −1) in extended projective coordinates
//! (X:Y:T:Z), as a composite pre-filter: a factor found proves the
//! candidate composite.
//!
//! All coordinates are kept reduced modulo n. The point formulas are those of
//! Hisil et al. (2008); `double_spec`, `add_spec` and `mul_spec` state them.
use vstd::prelude::*;
use vstd::arithmetic::div_mod::*;
use vstd::arithmetic::mul::*;
use vstd::arithmetic::power::*;
use crate::bignum::{BigNat, gcd, lemma_gcd_divides, lemma_gcd_zero_left};
use crate::search::primes::{prime_list, nats, primes_up_to, lemma_prime_list_facts, is_prime};
use crate::search::forms::{primes_between, lemma_prime_list_split};

verus! {

/// Extended projective coordinates (X, Y, T, Z) as naturals.
pub type Coords = (nat, nat, nat, nat);

/// A point on a twisted Edwards curve in extended projective coordinates.
pub struct EdwardsPoint {
    pub x: BigNat,
    pub y: BigNat,
    pub t: BigNat,
    pub z: BigNat,
}

/// A twisted Edwards curve with a = −1; only d varies between curves.
pub struct EdwardsCurve {
    pub d: BigNat,
}

/// The Euclidean residue of v modulo n.
pub open spec fn md(v: int, n: nat) -> nat {
    (v % (n as int)) as nat
}

/// The identity (0:1:0:1).
pub open spec fn identity_coords() -> Coords {
    (0nat, 1nat, 0nat, 1nat)
}

/// Point doubling (a = −1): A = X², B = Y², C = 2Z², D = −A, E = (X+Y)² − A − B,
/// G = D + B, F = G − C, H = D − B; result (E·F, G·H, E·H, F·G), all mod n
/// (D is taken as n − A).
pub open spec fn double_spec(p: Coords, n: nat) -> Coords {
    let (x, y, t, z) = (p.0 as int, p.1 as int, p.2 as int, p.3 as int);
    let a: int = md(x * x, n) as int;
    let b: int = md(y * y, n) as int;
    let c: int = md(2 * (z * z), n) as int;
    let d: int = n - a;
    let e: int = md((x + y) * (x + y) - a - b, n) as int;
    let g: int = md(d + b, n) as int;
    let f: int = md(g - c, n) as int;
    let h: int = md(d - b, n) as int;
    (md(e * f, n), md(g * h, n), md(e * h, n), md(f * g, n))
}

/// Unified point addition (a = −1): A = X₁X₂, B = Y₁Y₂, C = T₁·d·T₂, D = Z₁Z₂,
/// E = (X₁+Y₁)(X₂+Y₂) − A − B, F = D − C, G = D + C, H = B + A; result
/// (E·F, G·H, E·H, F·G), all mod n.
pub open spec fn add_spec(p: Coords, q: Coords, dc: nat, n: nat) -> Coords {
    let (x1, y1, t1, z1) = (p.0 as int, p.1 as int, p.2 as int, p.3 as int);
    let (x2, y2, t2, z2) = (q.0 as int, q.1 as int, q.2 as int, q.3 as int);
    let a: int = md(x1 * x2, n) as int;
    let b: int = md(y1 * y2, n) as int;
    let c: int = md(md(t1 * t2, n) * (dc as int), n) as int;
    let dd: int = md(z1 * z2, n) as int;
    let e: int = md((x1 + y1) * (x2 + y2) - a - b, n) as int;
    let f: int = md(dd - c, n) as int;
    let g: int = md(dd + c, n) as int;
    let h: int = md(b + a, n) as int;
    (md(e * f, n), md(g * h, n), md(e * h, n), md(f * g, n))
}

/// k·P by double-and-add from the most significant bit: 0·P is the identity,
/// 1·P is P, and (2m + b)·P doubles m·P and adds P when b = 1.
pub open spec fn mul_spec(k: nat, p: Coords, dc: nat, n: nat) -> Coords
    decreases k,
{
    if k == 0 {
        identity_coords()
    } else if k == 1 {
        p
    } else {
        let h = double_spec(mul_spec(k / 2, p, dc, n), n);
        if k % 2 == 1 { add_spec(h, p, dc, n) } else { h }
    }
}

impl EdwardsPoint {
    /// The coordinates as naturals.
    pub open spec fn coords(&self) -> Coords {
        (self.x@, self.y@, self.t@, self.z@)
    }

    /// The identity (neutral) element (0:1:0:1).
    pub fn identity() -> (p: EdwardsPoint)
        ensures
            p.coords() == identity_coords(),
    {
        EdwardsPoint { x: BigNat::zero(), y: BigNat::one(), t: BigNat::zero(), z: BigNat::one() }
    }

    /// Whether X ≡ 0 (mod n), as at the identity.
    pub fn is_identity_mod(&self, n: &BigNat) -> (r: bool)
        requires
            n@ > 0,
        ensures
            r == (self.x@ % n@ == 0),
    {
        self.x.rem(n).eq_u64(0)
    }

    /// A copy of this point.
    pub fn dup(&self) -> (p: EdwardsPoint)
        ensures
            p.coords() == self.coords(),
    {
        EdwardsPoint { x: self.x.dup(), y: self.y.dup(), t: self.t.dup(), z: self.z.dup() }
    }
}

/// (v − w) mod n, computed on naturals as ((v mod n) + n − (w mod n)) mod n.
fn sub_mod(v: &BigNat, w: &BigNat, n: &BigNat) -> (r: BigNat)
    requires
        n@ > 0,
    ensures
        r@ == md(v@ - w@, n@),
{
    let vm = v.rem(n);
    let wm = w.rem(n);
    let r = vm.add(n).sub(&wm).rem(n);
    proof {
        let ni = n@ as int;
        lemma_fundamental_div_mod(v@ as int, ni);
        lemma_fundamental_div_mod(w@ as int, ni);
        let q = v@ as int / ni - w@ as int / ni - 1;
        assert(v@ - w@ == ni * q + (vm@ + ni - wm@)) by (nonlinear_arith)
            requires
                v@ as int == ni * (v@ as int / ni) + vm@,
                w@ as int == ni * (w@ as int / ni) + wm@,
                q == v@ as int / ni - w@ as int / ni - 1;
        lemma_mod_multiples_vanish(q, vm@ + ni - wm@, ni);
    }
    r
}

/// x·y mod n.
fn mul_mod(x: &BigNat, y: &BigNat, n: &BigNat) -> (r: BigNat)
    requires
        n@ > 0,
    ensures
        r@ == md(x@ as int * y@ as int, n@),
{
    x.mul(y).rem(n)
}

/// Point doubling on the curve with a = −1 (cost 4M + 4S).
pub fn point_double(p: &EdwardsPoint, n: &BigNat) -> (r: EdwardsPoint)
    requires
        n@ > 0,
    ensures
        r.coords() == double_spec(p.coords(), n@),
{
    let a = mul_mod(&p.x, &p.x, n);
    let b = mul_mod(&p.y, &p.y, n);
    let zz = p.z.mul(&p.z);
    let c = BigNat::from_u64(2).mul(&zz).rem(n);
    let d = n.sub(&a);
    let sum = p.x.add(&p.y);
    let e = sub_mod(&sum.mul(&sum), &a.add(&b), n);
    let g = d.add(&b).rem(n);
    let f = sub_mod(&g, &c, n);
    let h = sub_mod(&d, &b, n);
    proof {
        let ni = n@ as int;
        assert(sum@ * sum@ - (a@ + b@) == (p.x@ + p.y@) * (p.x@ + p.y@) - a@ - b@);
    }
    EdwardsPoint {
        x: mul_mod(&e, &f, n),
        y: mul_mod(&g, &h, n),
        t: mul_mod(&e, &h, n),
        z: mul_mod(&f, &g, n),
    }
}

/// Unified point addition on the curve with a = −1 (cost 8M).
pub fn point_add(p: &EdwardsPoint, q: &EdwardsPoint, curve_d: &BigNat, n: &BigNat) -> (r: EdwardsPoint)
    requires
        n@ > 0,
    ensures
        r.coords() == add_spec(p.coords(), q.coords(), curve_d@, n@),
{
    let a = mul_mod(&p.x, &q.x, n);
    let b = mul_mod(&p.y, &q.y, n);
    let c = mul_mod(&mul_mod(&p.t, &q.t, n), curve_d, n);
    let dd = mul_mod(&p.z, &q.z, n);
    let sum1 = p.x.add(&p.y);
    let sum2 = q.x.add(&q.y);
    let e = sub_mod(&sum1.mul(&sum2), &a.add(&b), n);
    let f = sub_mod(&dd, &c, n);
    let g = dd.add(&c).rem(n);
    let h = b.add(&a).rem(n);
    EdwardsPoint {
        x: mul_mod(&e, &f, n),
        y: mul_mod(&g, &h, n),
        t: mul_mod(&e, &h, n),
        z: mul_mod(&f, &g, n),
    }
}

/// Scalar multiplication by double-and-add from the most significant bit.
pub fn scalar_mul(scalar: &BigNat, point: &EdwardsPoint, curve_d: &BigNat, n: &BigNat) -> (r: EdwardsPoint)
    requires
        n@ > 0,
    ensures
        r.coords() == mul_spec(scalar@, point.coords(), curve_d@, n@),
    decreases scalar@,
{
    if scalar.eq_u64(0) {
        return EdwardsPoint::identity();
    }
    if scalar.eq_u64(1) {
        return point.dup();
    }
    let half = scalar.div(&BigNat::from_u64(2));
    let h = scalar_mul(&half, point, curve_d, n);
    let h2 = point_double(&h, n);
    if scalar.is_even() {
        h2
    } else {
        point_add(&h2, point, curve_d, n)
    }
}

/// SplitMix64's output function: add the golden-ratio increment, then two
/// xor-shift-multiply rounds and a final xor-shift, all modulo 2^64.
pub open spec fn splitmix_spec(z: u64) -> u64 {
    let z1 = vstd::wrapping::u64_specs::wrapping_add(z, 0x9e3779b97f4a7c15);
    let z2 = vstd::wrapping::u64_specs::wrapping_mul(z1 ^ (z1 >> 30u64), 0xbf58476d1ce4e5b9);
    let z3 = vstd::wrapping::u64_specs::wrapping_mul(z2 ^ (z2 >> 27u64), 0x94d049bb133111eb);
    z3 ^ (z3 >> 31u64)
}

/// SplitMix64 bit mixing, which spreads consecutive seeds over the whole word.
pub fn splitmix(z: u64) -> (r: u64)
    ensures
        r == splitmix_spec(z),
{
    let z1 = z.wrapping_add(0x9e3779b97f4a7c15);
    let z2 = (z1 ^ (z1 >> 30u64)).wrapping_mul(0xbf58476d1ce4e5b9);
    let z3 = (z2 ^ (z2 >> 27u64)).wrapping_mul(0x94d049bb133111eb);
    z3 ^ (z3 >> 31u64)
}

/// a has an inverse modulo n: some v in [0, n) with a·v ≡ 1 (mod n).
pub open spec fn invertible_mod(a: nat, n: nat) -> bool {
    exists|v: nat| v < n && #[trigger] ((a * v) % n) == 1nat % n
}

/// The inverse of a modulo n, taken in [0, n), when there is one; it is
/// unique (see `lemma_inverse_unique`).
pub open spec fn inverse_mod(a: nat, n: nat) -> nat {
    choose|v: nat| v < n && #[trigger] ((a * v) % n) == 1nat % n
}

/// Two inverses of a modulo n in [0, n) are equal.
pub proof fn lemma_inverse_unique(a: nat, n: nat, v: nat, w: nat)
    requires
        n > 0,
        v < n,
        w < n,
        (a * v) % n == 1nat % n,
        (a * w) % n == 1nat % n,
    ensures
        v == w,
{
    let ni = n as int;
    // (a·v)·w ≡ 1·w and (a·w)·v ≡ 1·v, and the two products are equal.
    lemma_mul_mod_noop_left((a * v) as int, w as int, ni);
    lemma_mul_mod_noop_left((a * w) as int, v as int, ni);
    lemma_mul_mod_noop_left(1, w as int, ni);
    lemma_mul_mod_noop_left(1, v as int, ni);
    assert((a * v) * w == (a * w) * v) by (nonlinear_arith);
    lemma_small_mod(v, n);
    lemma_small_mod(w, n);
}

/// The starting x coordinate drawn from `seed`: splitmix(2·seed) mod n.
pub open spec fn seed_x(n: nat, seed: u64) -> nat {
    splitmix_spec(vstd::wrapping::u64_specs::wrapping_mul(seed, 2)) as nat % n
}

/// The starting y coordinate drawn from `seed`: splitmix(2·seed + 1) mod n.
pub open spec fn seed_y(n: nat, seed: u64) -> nat {
    splitmix_spec(
        vstd::wrapping::u64_specs::wrapping_add(vstd::wrapping::u64_specs::wrapping_mul(seed, 2), 1),
    ) as nat % n
}

/// The curve parameter d and the base point (x : y : x·y : 1) that `seed`
/// gives modulo n: x and y come from `seed_x` / `seed_y` and must be nonzero,
/// d = (y² − x² − 1)·(x²·y²)⁻¹ mod n must exist and be neither 0 nor n − 1.
pub open spec fn curve_from_seed(n: nat, seed: u64) -> Option<(nat, Coords)> {
    let x = seed_x(n, seed);
    let y = seed_y(n, seed);
    if x == 0 || y == 0 {
        None
    } else {
        let x2 = (x * x) % n;
        let y2 = (y * y) % n;
        let num = md(y2 - x2 - 1, n);
        let den = (x2 * y2) % n;
        if !invertible_mod(den, n) {
            None
        } else {
            let d = (num * inverse_mod(den, n)) % n;
            if d == 0 || d == n - 1 {
                None
            } else {
                Some((d, (x, y, (x * y) % n, 1nat)))
            }
        }
    }
}

/// A random twisted Edwards curve with a point on it, drawn deterministically
/// from `seed`: see `curve_from_seed`.
pub fn random_curve_and_point(n: &BigNat, seed: u64) -> (r: Option<(EdwardsCurve, EdwardsPoint)>)
    requires
        n@ > 0,
    ensures
        r is Some == curve_from_seed(n@, seed) is Some,
        r matches Some((c, p)) ==> curve_from_seed(n@, seed) == Some((c.d@, p.coords())),
{
    let sx = splitmix(seed.wrapping_mul(2));
    let sy = splitmix(seed.wrapping_mul(2).wrapping_add(1));
    let x = BigNat::from_u64(sx).rem(n);
    let y = BigNat::from_u64(sy).rem(n);
    if x.eq_u64(0) || y.eq_u64(0) {
        return None;
    }
    let x2 = mul_mod(&x, &x, n);
    let y2 = mul_mod(&y, &y, n);
    let numerator = sub_mod(&y2, &x2.add(&BigNat::one()), n);
    let denominator = mul_mod(&x2, &y2, n);
    proof {
        assert(y2@ - (x2@ + 1) == y2@ - x2@ - 1);
    }
    let denom_inv = match denominator.modinv(n) {
        Some(inv) => inv,
        None => {
            return None;
        },
    };
    proof {
        lemma_inverse_unique(denominator@, n@, denom_inv@, inverse_mod(denominator@, n@));
    }
    let d = mul_mod(&numerator, &denom_inv, n);
    if d.eq_u64(0) || d.equals(&n.sub(&BigNat::one())) {
        return None;
    }
    let t = mul_mod(&x, &y, n);
    let point = EdwardsPoint { x, y, t, z: BigNat::one() };
    Some((EdwardsCurve { d }, point))
}

/// (n·a + b)·(n·c + e) = b·e + n·(a·e + b·c + n·a·c).
proof fn lemma_expand_product(n: int, a: int, b: int, c: int, e: int)
    by (nonlinear_arith)
    ensures
        (n * a + b) * (n * c + e) == b * e + n * (a * e + b * c + n * a * c),
{
}

/// The point drawn from a seed lies on the curve drawn with it:
/// −x² + y² ≡ 1 + d·x²·y² (mod n).
pub proof fn lemma_seed_point_on_curve(n: nat, seed: u64)
    requires
        n > 0,
        curve_from_seed(n, seed) is Some,
    ensures
        ({
            let (d, p) = curve_from_seed(n, seed)->0;
            md(p.1 * p.1 - p.0 * p.0, n) == md((1 + d * (p.0 * p.0) * (p.1 * p.1)) as int, n)
        }),
{
    let ni = n as int;
    let x = seed_x(n, seed);
    let y = seed_y(n, seed);
    let xx: int = (x * x) as int;
    let yy: int = (y * y) as int;
    let x2: int = ((x * x) % n) as int;
    let y2: int = ((y * y) % n) as int;
    let num: int = md(y2 - x2 - 1, n) as int;
    let den: int = ((x2 * y2) % ni) as int;
    let inv: int = inverse_mod(den as nat, n) as int;
    let d: int = ((num * inv) % ni) as int;
    assert(n >= 2) by {
        if n == 1 {
            lemma_small_mod(0, 1);
            assert(x == 0);
        }
    }
    // Each reduction differs from its argument by a multiple of n.
    lemma_fundamental_div_mod(xx, ni);
    lemma_fundamental_div_mod(yy, ni);
    lemma_fundamental_div_mod(x2 * y2, ni);
    lemma_fundamental_div_mod(den * inv, ni);
    lemma_fundamental_div_mod(y2 - x2 - 1, ni);
    lemma_fundamental_div_mod(num * inv, ni);
    let q1 = xx / ni;
    let q2 = yy / ni;
    let q3 = (x2 * y2) / ni;
    let q4 = (den * inv) / ni;
    let q5 = (y2 - x2 - 1) / ni;
    let q6 = (num * inv) / ni;
    assert((den * inv) % ni == 1) by {
        lemma_small_mod(1, n);
    }
    let dxy = d * xx * yy;
    assert(d * den == num + ni * (num * q4 - q6 * den)) by (nonlinear_arith)
        requires
            den * inv == ni * q4 + 1,
            num * inv == ni * q6 + d;
    assert(d * (x2 * y2) == d * den + ni * (d * q3)) by (nonlinear_arith)
        requires
            x2 * y2 == ni * q3 + den;
    let kq = q1 * y2 + x2 * q2 + ni * q1 * q2;
    lemma_expand_product(ni, q1, x2, q2, y2);
    assert(d * (x2 * y2 + ni * kq) == d * (x2 * y2) + ni * (d * kq)) by (nonlinear_arith);
    assert(dxy == d * (xx * yy)) by (nonlinear_arith)
        requires
            dxy == d * xx * yy;
    assert(dxy == d * (x2 * y2) + ni * (d * (q1 * y2 + x2 * q2 + ni * q1 * q2)));
    let k = d * (q1 * y2 + x2 * q2 + ni * q1 * q2) + d * q3 + (num * q4 - q6 * den) - q2 + q1 - q5;
    assert(1 + dxy == ni * k + (yy - xx)) by (nonlinear_arith)
        requires
            dxy == d * (x2 * y2) + ni * (d * (q1 * y2 + x2 * q2 + ni * q1 * q2)),
            d * (x2 * y2) == d * den + ni * (d * q3),
            d * den == num + ni * (num * q4 - q6 * den),
            y2 - x2 - 1 == ni * q5 + num,
            xx == ni * q1 + x2,
            yy == ni * q2 + y2,
            k == d * (q1 * y2 + x2 * q2 + ni * q1 * q2) + d * q3 + (num * q4 - q6 * den) - q2 + q1 - q5;
    lemma_mod_multiples_vanish(k, yy - xx, ni);
}

/// The largest power q^e ≤ b with e ≥ 1 (q itself when q² > b): for
/// q ≤ b / q it is q times the largest such power not above b / q.
pub open spec fn prime_power_below(q: nat, b: nat) -> nat
    decreases b,
{
    if 2 <= q && q <= b / q {
        proof {
            lemma_div_decreases(b as int, q as int);
        }
        q * prime_power_below(q, b / q)
    } else {
        q
    }
}

/// The Stage 1 exponent for q is the largest power of q not above b: for
/// 2 ≤ q ≤ b it is q^e for some e ≥ 1, at most b, and the next power q^(e+1)
/// exceeds b.
pub proof fn lemma_prime_power_below_largest(q: nat, b: nat)
    requires
        2 <= q <= b,
    ensures
        exists|e: nat| e >= 1 && #[trigger] pow(q as int, e) == prime_power_below(q, b) as int,
        prime_power_below(q, b) <= b,
        b < q * prime_power_below(q, b),
    decreases b,
{
    lemma_fundamental_div_mod(b as int, q as int);
    let m = b / q;
    if q <= m {
        lemma_div_decreases(b as int, q as int);
        lemma_prime_power_below_largest(q, m);
        let r = prime_power_below(q, m);
        let e = choose|e: nat| e >= 1 && #[trigger] pow(q as int, e) == r as int;
        lemma_pow_adds(q as int, 1, e);
        lemma_pow1(q as int);
        assert(pow(q as int, e + 1) == q * r);
        assert(q * r <= b) by (nonlinear_arith)
            requires r <= m, b == q * m + b % q, b % q >= 0;
        assert(b < q * (q * r)) by (nonlinear_arith)
            requires m < q * r, b == q * m + b % q, b % q < q, q >= 2;
    } else {
        lemma_pow1(q as int);
        assert(b < q * q) by (nonlinear_arith)
            requires m < q, b == q * m + b % q, b % q < q, q >= 2;
    }
}

/// `prime_power_below` on machine words; it never exceeds b.
fn prime_power_below_u64(q: u64, b: u64) -> (r: u64)
    requires
        2 <= q <= b,
    ensures
        r as nat == prime_power_below(q as nat, b as nat),
        r <= b,
    decreases b,
{
    if q <= b / q {
        proof {
            lemma_div_decreases(b as int, q as int);
        }
        let r = prime_power_below_u64(q, b / q);
        proof {
            lemma_fundamental_div_mod(b as int, q as int);
            lemma_mul_inequality(r as int, (b / q) as int, q as int);
            lemma_mul_is_commutative(r as int, q as int);
            lemma_mul_is_commutative((b / q) as int, q as int);
        }
        q * r
    } else {
        q
    }
}

/// The point after Stage 1 over the primes `qs`: P multiplied in turn by the
/// largest power of each prime not above b1.
pub open spec fn stage1_point(p: Coords, dc: nat, n: nat, qs: Seq<nat>, b1: nat) -> Coords
    decreases qs.len(),
{
    if qs.len() == 0 {
        p
    } else {
        mul_spec(prime_power_below(qs.last(), b1), stage1_point(p, dc, n, qs.drop_last(), b1), dc, n)
    }
}

/// P·lcm(1..b1), computed prime by prime over the primes up to b1.
pub open spec fn stage1_spec(p: Coords, dc: nat, n: nat, b1: nat) -> Coords {
    stage1_point(p, dc, n, prime_list(b1 + 1), b1)
}

/// gcd(v mod n, n) when it lies strictly between 1 and n.
pub open spec fn proper_gcd(v: nat, n: nat) -> Option<nat> {
    let g = gcd(v % n, n);
    if 1 < g && g < n {
        Some(g)
    } else {
        None
    }
}

/// The factor that a point yields (X and T vanish at the identity): none
/// when X ≡ 0 (mod n), else a proper gcd of X with n, else one of T with n.
pub open spec fn point_factor(p: Coords, n: nat) -> Option<nat> {
    if p.0 % n == 0 {
        None
    } else {
        match proper_gcd(p.0, n) {
            Some(g) => Some(g),
            None => proper_gcd(p.2, n),
        }
    }
}

/// The naturals that an optional `BigNat` holds.
pub open spec fn opt_view(r: Option<BigNat>) -> Option<nat> {
    match r {
        Some(g) => Some(g@),
        None => None,
    }
}

/// A proper factor of n found by `proper_gcd` divides n.
pub proof fn lemma_proper_gcd_divides(v: nat, n: nat)
    requires
        n > 0,
        proper_gcd(v, n) is Some,
    ensures
        1 < proper_gcd(v, n)->0 < n,
        n % proper_gcd(v, n)->0 == 0,
{
    lemma_gcd_divides(v % n, n);
}

/// `gcd(v mod n, n)` tested for a proper factor, as `proper_gcd` states it.
fn proper_gcd_exec(v: &BigNat, n: &BigNat) -> (r: Option<BigNat>)
    requires
        n@ > 0,
    ensures
        opt_view(r) == proper_gcd(v@, n@),
{
    let g = v.rem(n).gcd(n);
    if BigNat::one().lt(&g) && g.lt(n) {
        Some(g)
    } else {
        None
    }
}

/// P multiplied by the largest power of every prime up to b1, prime by prime.
fn stage1_multiply(point: &EdwardsPoint, curve_d: &BigNat, n: &BigNat, b1: u64) -> (r: EdwardsPoint)
    requires
        n@ > 0,
        b1 < usize::MAX / 2,
    ensures
        r.coords() == stage1_spec(point.coords(), curve_d@, n@, b1 as nat),
{
    let primes = primes_up_to(b1);
    let ghost qs = prime_list(b1 as nat + 1);
    proof {
        lemma_prime_list_facts(b1 as nat + 1);
        assert(nats(primes@).len() == primes@.len());
    }
    let mut current = point.dup();
    let mut i: usize = 0;
    while i < primes.len()
        invariant
            n@ > 0,
            i <= primes@.len(),
            nats(primes@) == qs,
            qs == prime_list(b1 as nat + 1),
            forall|j: int| 0 <= j < qs.len() ==> is_prime(#[trigger] qs[j]) && qs[j] < b1 as nat + 1,
            current.coords() == stage1_point(point.coords(), curve_d@, n@, qs.take(i as int), b1 as nat),
        decreases primes@.len() - i,
    {
        let q = primes[i];
        proof {
            assert(qs[i as int] == q as nat);
            assert(is_prime(qs[i as int]));
        }
        let pk = prime_power_below_u64(q, b1);
        current = scalar_mul(&BigNat::from_u64(pk), &current, curve_d, n);
        proof {
            assert(qs.take(i as int + 1).drop_last() =~= qs.take(i as int));
            assert(qs.take(i as int + 1).last() == q as nat);
        }
        i = i + 1;
    }
    proof {
        assert(qs.take(i as int) =~= qs);
    }
    current
}

/// The factor test on a point: `point_factor`, with the early exit of a zero
/// T (whose gcd with n is n itself).
fn point_factor_exec(p: &EdwardsPoint, n: &BigNat) -> (r: Option<BigNat>)
    requires
        n@ > 0,
    ensures
        opt_view(r) == point_factor(p.coords(), n@),
{
    let x_mod = p.x.rem(n);
    if x_mod.eq_u64(0) {
        return None;
    }
    let g = proper_gcd_exec(&p.x, n);
    if g.is_some() {
        return g;
    }
    let t_mod = p.t.rem(n);
    if t_mod.eq_u64(0) {
        proof {
            lemma_gcd_zero_left(n@);
        }
        return None;
    }
    proper_gcd_exec(&p.t, n)
}

/// ECM Stage 1: multiply the point by lcm(1..B1) and look for a proper
/// factor of n in its X, then its T coordinate.
pub fn ecm_stage1(point: &EdwardsPoint, curve_d: &BigNat, n: &BigNat, b1: u64) -> (r: Option<BigNat>)
    requires
        n@ > 0,
        b1 < usize::MAX / 2,
    ensures
        opt_view(r) == point_factor(stage1_spec(point.coords(), curve_d@, n@, b1 as nat), n@),
{
    let current = stage1_multiply(point, curve_d, n, b1);
    point_factor_exec(&current, n)
}

/// Stage 2 from step j over the primes `hs` in (B1, B2], with `cur` the
/// point for hs[j − 1] and `prod` the running product of X coordinates mod n:
/// reach hs[j]·P by adding (hs[j] − hs[j − 1])·P, multiply its X into the
/// product, and at every hundredth step stop on a proper gcd of the product
/// with n; after the last prime, test the product once more.
pub open spec fn stage2_walk(p: Coords, dc: nat, n: nat, hs: Seq<nat>, j: nat, cur: Coords, prod: nat) -> Option<nat>
    decreases hs.len() - j,
{
    if j >= hs.len() || j == 0 {
        proper_gcd(prod, n)
    } else {
        let next = add_spec(cur, mul_spec((hs[j as int] - hs[j - 1]) as nat, p, dc, n), dc, n);
        let prod2 = (prod * (next.0 % n)) % n;
        if j % 100 == 0 && proper_gcd(prod2, n) is Some {
            proper_gcd(prod2, n)
        } else {
            stage2_walk(p, dc, n, hs, j + 1, next, prod2)
        }
    }
}

/// ECM Stage 2 over the primes in (B1, B2]: start from hs[0]·P and walk on
/// (see `stage2_walk`); nothing when there is no such prime.
pub open spec fn stage2_spec(p: Coords, dc: nat, n: nat, b1: nat, b2: nat) -> Option<nat> {
    let hs = primes_between(b1 + 1, b2);
    if hs.len() == 0 {
        None
    } else {
        let cur = mul_spec(hs[0], p, dc, n);
        stage2_walk(p, dc, n, hs, 1, cur, cur.0 % n)
    }
}

/// The multiples 0·P, 1·P, …, 255·P, used for the gaps between primes.
fn multiples_table(point: &EdwardsPoint, curve_d: &BigNat, n: &BigNat) -> (t: Vec<EdwardsPoint>)
    requires
        n@ > 0,
    ensures
        t@.len() == 256,
        forall|k: int| 0 <= k < 256 ==> (#[trigger] t@[k]).coords() == mul_spec(k as nat, point.coords(), curve_d@, n@),
{
    let mut t: Vec<EdwardsPoint> = Vec::new();
    let mut k: u64 = 0;
    while k < 256
        invariant
            n@ > 0,
            k <= 256,
            t@.len() == k,
            forall|j: int| 0 <= j < k ==> (#[trigger] t@[j]).coords() == mul_spec(j as nat, point.coords(), curve_d@, n@),
        decreases 256 - k,
    {
        t.push(scalar_mul(&BigNat::from_u64(k), point, curve_d, n));
        k = k + 1;
    }
    t
}

/// ECM Stage 2: baby-step continuation over the primes in (B1, B2], with
/// the X coordinates multiplied together and tested by gcd every hundred
/// primes and at the end. The multiples of P for gaps below 256 are
/// computed once.
pub fn ecm_stage2(point: &EdwardsPoint, curve_d: &BigNat, n: &BigNat, b1: u64, b2: u64) -> (r: Option<BigNat>)
    requires
        n@ > 0,
        b2 < usize::MAX / 2,
    ensures
        opt_view(r) == stage2_spec(point.coords(), curve_d@, n@, b1 as nat, b2 as nat),
{
    let ghost p = point.coords();
    let ghost hs = primes_between(b1 as nat + 1, b2 as nat);
    if b2 <= b1 {
        return None;
    }
    let primes = primes_up_to(b2);
    let ghost pl = prime_list(b2 as nat + 1);
    let ghost big_l = prime_list(b1 as nat + 1).len();
    proof {
        lemma_prime_list_split(b1 as nat + 1, b2 as nat + 1);
        lemma_prime_list_facts(b2 as nat + 1);
        assert(nats(primes@).len() == primes@.len());
        assert(forall|i: int| 0 <= i < primes@.len() ==> #[trigger] primes@[i] as nat == pl[i]) by {
            assert forall|i: int| 0 <= i < primes@.len() implies #[trigger] primes@[i] as nat == pl[i] by {
                assert(nats(primes@)[i] == primes@[i] as nat);
            }
        }
    }
    let mut start: usize = 0;
    while start < primes.len() && primes[start] <= b1
        invariant
            start <= big_l,
            big_l <= pl.len(),
            pl.len() == primes@.len(),
            forall|i: int| 0 <= i < primes@.len() ==> #[trigger] primes@[i] as nat == pl[i],
            forall|i: int| big_l <= i < pl.len() ==> #[trigger] pl[i] >= b1 + 1,
        decreases primes@.len() - start,
    {
        start = start + 1;
    }
    proof {
        if start < big_l {
            assert(pl[start as int] < b1 + 1);
        }
        assert(start == big_l);
        assert(hs == pl.skip(big_l as int));
        assert(hs.len() == primes@.len() - start);
    }
    if start >= primes.len() {
        return None;
    }
    let table = multiples_table(point, curve_d, n);
    let first = scalar_mul(&BigNat::from_u64(primes[start]), point, curve_d, n);
    let mut product = first.x.rem(n);
    let mut current = first;
    let mut i: usize = start + 1;
    proof {
        assert(hs[0] == primes@[start as int] as nat);
    }
    while i < primes.len()
        invariant
            n@ > 0,
            start < i <= primes@.len(),
            hs == pl.skip(start as int),
            pl.len() == primes@.len(),
            forall|k: int| 0 <= k < primes@.len() ==> #[trigger] primes@[k] as nat == pl[k],
            forall|a: int, b: int| 0 <= a < b < pl.len() ==> #[trigger] pl[a] < #[trigger] pl[b],
            table@.len() == 256,
            forall|k: int| 0 <= k < 256 ==> (#[trigger] table@[k]).coords() == mul_spec(k as nat, p, curve_d@, n@),
            p == point.coords(),
            product@ < n@,
            stage2_spec(p, curve_d@, n@, b1 as nat, b2 as nat)
                == stage2_walk(p, curve_d@, n@, hs, (i - start) as nat, current.coords(), product@),
        decreases primes@.len() - i,
    {
        let ghost j: nat = (i - start) as nat;
        let gap = primes[i] - primes[i - 1];
        proof {
            assert(pl[i - 1] < pl[i as int]);
            assert(hs[j as int] == pl[i as int]);
            assert(hs[j - 1] == pl[i - 1]);
        }
        let next = if gap < 256 {
            point_add(&current, &table[gap as usize], curve_d, n)
        } else {
            let gap_point = scalar_mul(&BigNat::from_u64(gap), point, curve_d, n);
            point_add(&current, &gap_point, curve_d, n)
        };
        let x_mod = next.x.rem(n);
        product = mul_mod(&product, &x_mod, n);
        current = next;
        if (i - start) % 100 == 0 && !product.eq_u64(0) {
            let g = proper_gcd_exec(&product, n);
            if g.is_some() {
                return g;
            }
        }
        proof {
            if product@ == 0 {
                lemma_small_mod(0, n@);
                lemma_gcd_zero_left(n@);
            }
        }
        i = i + 1;
    }
    if !product.eq_u64(0) {
        proof {
            lemma_small_mod(product@, n@);
        }
        proper_gcd_exec(&product, n)
    } else {
        proof {
            lemma_small_mod(0, n@);
            lemma_gcd_zero_left(n@);
        }
        None
    }
}

/// One curve of ECM: the curve and point drawn from `seed`, Stage 1 up to
/// B1, then Stage 2 up to B2 from the Stage 1 point.
#[verifier::opaque]
pub open spec fn one_curve_spec(n: nat, b1: nat, b2: nat, seed: u64) -> Option<nat> {
    match curve_from_seed(n, seed) {
        None => None,
        Some((d, p)) => {
            let acc = stage1_spec(p, d, n, b1);
            match point_factor(acc, n) {
                Some(g) => Some(g),
                None => stage2_spec(acc, d, n, b1, b2),
            }
        },
    }
}

/// Run ECM with a single curve; a factor found is a proper divisor of n.
pub fn ecm_one_curve(n: &BigNat, b1: u64, b2: u64, curve_seed: u64) -> (r: Option<BigNat>)
    requires
        n@ > 0,
        b1 < usize::MAX / 2,
        b2 < usize::MAX / 2,
    ensures
        opt_view(r) == one_curve_spec(n@, b1 as nat, b2 as nat, curve_seed),
{
    proof {
        reveal(one_curve_spec);
    }
    let (curve, point) = match random_curve_and_point(n, curve_seed) {
        Some(cp) => cp,
        None => {
            return None;
        },
    };
    let accumulated = stage1_multiply(&point, &curve.d, n, b1);
    let found = point_factor_exec(&accumulated, n);
    if found.is_some() {
        return found;
    }
    ecm_stage2(&accumulated, &curve.d, n, b1, b2)
}

/// A factor that Stage 2 reports is a proper divisor of n.
pub proof fn lemma_stage2_walk_sound(p: Coords, dc: nat, n: nat, hs: Seq<nat>, j: nat, cur: Coords, prod: nat)
    requires
        n > 0,
        stage2_walk(p, dc, n, hs, j, cur, prod) is Some,
    ensures
        ({
            let g = stage2_walk(p, dc, n, hs, j, cur, prod)->0;
            1 < g < n && n % g == 0
        }),
    decreases hs.len() - j,
{
    if j >= hs.len() || j == 0 {
        lemma_proper_gcd_divides(prod, n);
    } else {
        let next = add_spec(cur, mul_spec((hs[j as int] - hs[j - 1]) as nat, p, dc, n), dc, n);
        let prod2 = (prod * (next.0 % n)) % n;
        if j % 100 == 0 && proper_gcd(prod2, n) is Some {
            lemma_proper_gcd_divides(prod2, n);
        } else {
            lemma_stage2_walk_sound(p, dc, n, hs, j + 1, next, prod2);
        }
    }
}

/// Every factor that one curve of ECM reports is a proper divisor of n.
pub proof fn lemma_one_curve_sound(n: nat, b1: nat, b2: nat, seed: u64)
    requires
        n > 0,
        one_curve_spec(n, b1, b2, seed) is Some,
    ensures
        ({
            let g = one_curve_spec(n, b1, b2, seed)->0;
            1 < g < n && n % g == 0
        }),
{
    reveal(one_curve_spec);
    let (d, p) = curve_from_seed(n, seed)->0;
    let acc = stage1_spec(p, d, n, b1);
    if point_factor(acc, n) is Some {
        if proper_gcd(acc.0, n) is Some {
            lemma_proper_gcd_divides(acc.0, n);
        } else {
            lemma_proper_gcd_divides(acc.2, n);
        }
    } else {
        let hs = primes_between(b1 + 1, b2);
        let cur = mul_spec(hs[0], acc, d, n);
        lemma_stage2_walk_sound(acc, d, n, hs, 1, cur, cur.0 % n);
    }
}

/// Bounds B1, B2 and the number of curves for a candidate n: none below
/// 9999 bits' worth (n < 2^9999, fewer than 10 000 significant bits), then
/// (50 000, 5·10⁶, ≤ 5) below 2^29999, (200 000, 2·10⁷, ≤ 10) below 2^79999,
/// and (10⁶, 10⁸, ≤ 20) above.
pub open spec fn ecm_plan(n: nat, num_curves: nat) -> (nat, nat, nat) {
    if n < pow(2, 29999) {
        (50_000, 5_000_000, if num_curves < 5 { num_curves } else { 5 })
    } else if n < pow(2, 79999) {
        (200_000, 20_000_000, if num_curves < 10 { num_curves } else { 10 })
    } else {
        (1_000_000, 100_000_000, if num_curves < 20 { num_curves } else { 20 })
    }
}

/// Whether adaptive ECM finds a factor: n has at least 10 000 significant
/// bits and one of the curves with seeds 1..=curves of `ecm_plan` reports
/// one.
pub open spec fn adaptive_ecm_spec(n: nat, num_curves: nat) -> bool {
    let (b1, b2, curves) = ecm_plan(n, num_curves);
    n >= pow(2, 9999) && exists|seed: u64| 1 <= seed <= curves && (#[trigger] one_curve_spec(n, b1, b2, seed)) is Some
}

/// Adaptive ECM composite pre-filter with B1/B2/curves tuned to the size of
/// n. `true` means a proper factor was found, so n is composite.
pub fn adaptive_ecm_filter(n: &BigNat, num_curves: u32) -> (r: bool)
    ensures
        r == adaptive_ecm_spec(n@, num_curves as nat),
        r ==> exists|g: nat| 1 < g < n@ && #[trigger] (n@ % g) == 0,
{
    let two = BigNat::from_u64(2);
    if n.lt(&two.pow(9999)) {
        return false;
    }
    let ghost big = n@ >= pow(2, 9999);
    let (b1, b2, curves): (u64, u64, u32) = if n.lt(&two.pow(29999)) {
        (50_000, 5_000_000, if num_curves < 5 { num_curves } else { 5 })
    } else if n.lt(&two.pow(79999)) {
        (200_000, 20_000_000, if num_curves < 10 { num_curves } else { 10 })
    } else {
        (1_000_000, 100_000_000, if num_curves < 20 { num_curves } else { 20 })
    };
    proof {
        lemma_pow_positive(2, 9999);
    }
    let mut seed: u32 = 0;
    while seed < curves
        invariant
            n@ > 0,
            seed <= curves,
            (b1 as nat, b2 as nat, curves as nat) == ecm_plan(n@, num_curves as nat),
            big,
            big == (n@ >= pow(2, 9999)),
            b1 <= 1_000_000,
            b2 <= 100_000_000,
            forall|s: u64| 1 <= s <= seed ==> (#[trigger] one_curve_spec(n@, b1 as nat, b2 as nat, s)) is None,
        decreases curves - seed,
    {
        let found = ecm_one_curve(n, b1, b2, seed as u64 + 1);
        if found.is_some() {
            proof {
                let s = (seed + 1) as u64;
                assert(one_curve_spec(n@, b1 as nat, b2 as nat, s) is Some);
                lemma_one_curve_sound(n@, b1 as nat, b2 as nat, s);
                let g = one_curve_spec(n@, b1 as nat, b2 as nat, s)->0;
                assert(n@ % g == 0);
                assert(1 <= s <= curves);
            }
            return true;
        }
        seed = seed + 1;
    }
    false
}

/// ECM finds nothing in a prime: no stage and no curve reports a factor of
/// a prime n, and the adaptive filter never calls it composite.
pub proof fn lemma_ecm_silent_on_primes(n: nat, p: Coords, dc: nat, b1: nat, b2: nat, seed: u64, num_curves: nat)
    requires
        is_prime(n),
    ensures
        point_factor(p, n) is None,
        stage2_spec(p, dc, n, b1, b2) is None,
        one_curve_spec(n, b1, b2, seed) is None,
        !adaptive_ecm_spec(n, num_curves),
{
    assert forall|v: nat| #[trigger] proper_gcd(v, n) is None by {
        if proper_gcd(v, n) is Some {
            lemma_proper_gcd_divides(v, n);
        }
    }
    let hs = primes_between(b1 + 1, b2);
    if hs.len() > 0 {
        let cur = mul_spec(hs[0], p, dc, n);
        if stage2_walk(p, dc, n, hs, 1, cur, cur.0 % n) is Some {
            lemma_stage2_walk_sound(p, dc, n, hs, 1, cur, cur.0 % n);
        }
    }
    assert forall|b1: nat, b2: nat, s: u64| #[trigger] one_curve_spec(n, b1, b2, s) is None by {
        if one_curve_spec(n, b1, b2, s) is Some {
            lemma_one_curve_sound(n, b1, b2, s);
        }
    }
}

} // verus!
