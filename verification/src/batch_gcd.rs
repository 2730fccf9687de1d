//! Batch GCD (Bernstein): a product tree over many candidates and a
//! remainder tree that reduces one big value P modulo every candidate, for
//! bulk small-factor checks against a primorial.
use vstd::prelude::*;
use vstd::arithmetic::div_mod::*;
use vstd::arithmetic::mul::*;
use crate::bignum::{BigNat, gcd, lemma_gcd_divides};
use crate::search::primes::{is_prime, prime_list, nats, primes_up_to, lemma_prime_list_facts, lemma_divides_trans};
use crate::search::primality::{has_small_factor, has_small_factor_spec, lemma_prime_divides_prime};
use crate::search::forms::product;

verus! {

/// a mod m.
pub open spec fn rem_nat(a: nat, m: nat) -> nat {
    a % m
}

/// The values of a vector of big naturals.
pub open spec fn values(v: Seq<BigNat>) -> Seq<nat> {
    v.map_values(|x: BigNat| x@)
}

/// The values of each level of a tree.
pub open spec fn level_values(t: Seq<Vec<BigNat>>) -> Seq<Seq<nat>> {
    t.map_values(|l: Vec<BigNat>| values(l@))
}

/// The next level of a product tree: products of adjacent pairs, the last
/// element carried up unpaired when the count is odd.
pub open spec fn pair_products(s: Seq<nat>) -> Seq<nat> {
    Seq::new(((s.len() + 1) / 2) as nat, |j: int| if 2 * j + 1 < s.len() { s[2 * j] * s[2 * j + 1] } else { s[2 * j] })
}

/// The levels of the product tree over `s`: `s` itself, then pair products,
/// until a level of at most one element.
pub open spec fn product_tree(s: Seq<nat>) -> Seq<Seq<nat>>
    decreases s.len(),
{
    if s.len() <= 1 {
        seq![s]
    } else {
        seq![s] + product_tree(pair_products(s))
    }
}

/// Build a product tree from a list of leaves: level 0 holds the leaves and
/// each next level the pair products, down to a single root.
pub fn build_product_tree(leaves: &[BigNat]) -> (tree: Vec<Vec<BigNat>>)
    ensures
        level_values(tree@) == product_tree(values(leaves@)),
{
    let mut level: Vec<BigNat> = Vec::new();
    let mut i: usize = 0;
    while i < leaves.len()
        invariant
            i <= leaves@.len(),
            values(level@) == values(leaves@).take(i as int),
        decreases leaves@.len() - i,
    {
        let x = leaves[i].dup();
        let ghost before = level@;
        level.push(x);
        assert(level@ == before.push(x));
        assert(values(before).len() == before.len());
        assert(values(level@).len() == level@.len());
        assert(values(level@)[i as int] == x@);
        assert(values(level@) =~= values(leaves@).take(i + 1)) by {
            assert forall|k: int| 0 <= k < i + 1 implies values(level@)[k] == values(leaves@).take(i + 1)[k] by {
                if k < i {
                    assert(values(before)[k] == values(leaves@).take(i as int)[k]);
                }
            }
        }
        i = i + 1;
    }
    assert(values(leaves@).take(leaves@.len() as int) =~= values(leaves@));
    let mut tree: Vec<Vec<BigNat>> = Vec::new();
    let ghost full = product_tree(values(leaves@));
    let mut done = false;
    proof {
        assert(level_values(tree@) + product_tree(values(level@)) =~= full);
    }
    while !done
        invariant
            !done ==> level_values(tree@) + product_tree(values(level@)) == full,
            done ==> level_values(tree@) == full,
        decreases values(level@).len() + (if done { 0int } else { 1int }),
    {
        if level.len() <= 1 {
            let ghost before = level_values(tree@);
            let ghost lv = values(level@);
            tree.push(level);
            proof {
                assert(level_values(tree@) =~= before.push(lv));
                assert(before + product_tree(lv) =~= before.push(lv));
            }
            done = true;
            level = Vec::new();
        } else {
            let next = pair_level(&level);
            let ghost before = level_values(tree@);
            let ghost lv = values(level@);
            tree.push(level);
            proof {
                assert(level_values(tree@) =~= before.push(lv));
                assert(before + product_tree(lv) =~= before.push(lv) + product_tree(pair_products(lv)));
            }
            level = next;
        }
    }
    tree
}

/// The pair products of a level.
fn pair_level(prev: &Vec<BigNat>) -> (next: Vec<BigNat>)
    ensures
        values(next@) == pair_products(values(prev@)),
{
    let ghost want = pair_products(values(prev@));
    let mut next: Vec<BigNat> = Vec::new();
    let len = prev.len();
    let half = len / 2 + len % 2;
    let mut j: usize = 0;
    while j < half
        invariant
            len == prev@.len(),
            half == (len + 1) / 2,
            half == want.len(),
            j <= half,
            values(next@) == want.take(j as int),
            want == pair_products(values(prev@)),
        decreases half - j,
    {
        let i = 2 * j;
        let ghost before = next@;
        let x = if i + 1 < len { prev[i].mul(&prev[i + 1]) } else { prev[i].dup() };
        next.push(x);
        assert(next@ == before.push(x));
        assert(values(before).len() == before.len());
        assert(values(next@).len() == next@.len());
        assert(values(next@)[j as int] == x@);
        assert(values(next@) =~= want.take(j + 1)) by {
            assert forall|k: int| 0 <= k < j + 1 implies values(next@)[k] == want.take(j + 1)[k] by {
                if k < j {
                    assert(values(before)[k] == want.take(j as int)[k]);
                }
            }
        }
        j = j + 1;
    }
    assert(want.take(j as int) =~= want);
    next
}


/// The structure of a product tree: level 0 is the leaves, each further level
/// pairs up the one below, and the last level holds a single root when there
/// are leaves.
pub proof fn lemma_tree_levels(s: Seq<nat>)
    ensures
        product_tree(s).len() >= 1,
        product_tree(s)[0] == s,
        forall|l: int| 0 <= l < product_tree(s).len() - 1 ==> (#[trigger] product_tree(s)[l]).len() >= 2
            && product_tree(s)[l + 1] == pair_products(product_tree(s)[l]),
        product_tree(s).last().len() <= 1,
        s.len() >= 1 ==> product_tree(s).last().len() == 1,
    decreases s.len(),
{
    if s.len() > 1 {
        let rest = pair_products(s);
        lemma_tree_levels(rest);
        let t = product_tree(s);
        assert forall|l: int| 0 <= l < t.len() - 1 implies (#[trigger] t[l]).len() >= 2
            && t[l + 1] == pair_products(t[l]) by {
            if l > 0 {
                assert(t[l] == product_tree(rest)[l - 1]);
                assert(t[l + 1] == product_tree(rest)[l]);
            }
        }
    }
}

/// Every node of the product tree over positive leaves is positive.
pub proof fn lemma_tree_positive(s: Seq<nat>)
    requires
        forall|i: int| 0 <= i < s.len() ==> #[trigger] s[i] > 0,
    ensures
        forall|l: int, j: int| 0 <= l < product_tree(s).len() && 0 <= j < product_tree(s)[l].len()
            ==> #[trigger] product_tree(s)[l][j] > 0,
    decreases s.len(),
{
    if s.len() > 1 {
        let rest = pair_products(s);
        assert forall|j: int| 0 <= j < rest.len() implies #[trigger] rest[j] > 0 by {
            if 2 * j + 1 < s.len() {
                lemma_mul_strictly_positive(s[2 * j] as int, s[2 * j + 1] as int);
            }
        }
        lemma_tree_positive(rest);
        let t = product_tree(s);
        assert forall|l: int, j: int| 0 <= l < t.len() && 0 <= j < t[l].len() implies #[trigger] t[l][j] > 0 by {
            if l > 0 {
                assert(t[l] == product_tree(rest)[l - 1]);
            }
        }
    }
}

/// Pairing up preserves the product.
pub proof fn lemma_pair_products_product(s: Seq<nat>)
    ensures
        product(pair_products(s)) == product(s),
    decreases s.len(),
{
    let pp = pair_products(s);
    if s.len() == 0 {
        assert(pp.len() == 0);
    } else if s.len() % 2 == 1 {
        let k = (s.len() - 1) as int;
        let pre = s.take(k);
        lemma_pair_products_product(pre);
        assert(pp.drop_last() =~= pair_products(pre));
        assert(s.drop_last() =~= pre);
        assert(pp.last() == s[k]);
        assert(product(pp) == product(pp.drop_last()) * pp.last());
        assert(product(s) == product(s.drop_last()) * s.last());
    } else {
        let k = (s.len() - 2) as int;
        let pre = s.take(k);
        lemma_pair_products_product(pre);
        assert(pp.drop_last() =~= pair_products(pre));
        assert(s.drop_last().drop_last() =~= pre);
        assert(s.drop_last().last() == s[k]);
        let a = product(pre);
        assert(pp.last() == s[k] * s[k + 1]);
        assert(product(pp) == product(pp.drop_last()) * pp.last());
        assert(product(s) == product(s.drop_last()) * s.last());
        assert(product(s.drop_last()) == product(s.drop_last().drop_last()) * s.drop_last().last());
        assert(a * (s[k] * s[k + 1]) == (a * s[k]) * s[k + 1]) by (nonlinear_arith);
    }
}

/// The root of the product tree over nonempty leaves is their product.
pub proof fn lemma_tree_root(s: Seq<nat>)
    requires
        s.len() >= 1,
    ensures
        product_tree(s).last() == seq![product(s)],
    decreases s.len(),
{
    if s.len() == 1 {
        assert(s.drop_last().len() == 0);
        assert(product(s.drop_last()) == 1);
        assert(product(s) == product(s.drop_last()) * s.last());
        assert(s =~= seq![product(s)]);
    } else {
        lemma_pair_products_product(s);
        lemma_tree_root(pair_products(s));
        assert(product_tree(s).last() == product_tree(pair_products(s)).last());
    }
}

/// Compute P mod Cᵢ for every leaf Cᵢ of a product tree, from the root down:
/// each child gets its parent's remainder reduced modulo the child, which is
/// P mod child since the child divides its parent.
pub fn remainder_tree(tree: &Vec<Vec<BigNat>>, p: &BigNat) -> (r: Vec<BigNat>)
    requires
        tree@.len() > 0 && tree@[0]@.len() > 0 ==> {
            &&& level_values(tree@) == product_tree(values(tree@[0]@))
            &&& forall|i: int| 0 <= i < tree@[0]@.len() ==> #[trigger] tree@[0]@[i]@ > 0
        },
    ensures
        tree@.len() == 0 || tree@[0]@.len() == 0 ==> r@.len() == 0,
        tree@.len() > 0 && tree@[0]@.len() > 0 ==> values(r@)
            == Seq::new(tree@[0]@.len(), |i: int| rem_nat(p@, tree@[0]@[i]@)),
{
    if tree.len() == 0 || tree[0].len() == 0 {
        return Vec::new();
    }
    let ghost leaves = values(tree@[0]@);
    let ghost t = product_tree(leaves);
    proof {
        lemma_tree_levels(leaves);
        assert forall|i: int| 0 <= i < leaves.len() implies #[trigger] leaves[i] > 0 by {
            assert(leaves[i] == tree@[0]@[i]@);
        }
        lemma_tree_positive(leaves);
        assert(level_values(tree@).len() == tree@.len());
    }
    let levels = tree.len();
    proof {
        assert(level_values(tree@)[levels - 1] == values(tree@[levels - 1]@));
        assert(values(tree@[levels - 1]@).len() == tree@[levels - 1]@.len());
        assert(values(tree@[levels - 1]@)[0] == tree@[levels - 1]@[0]@);
    }
    let root = &tree[levels - 1][0];
    let mut current: Vec<BigNat> = Vec::new();
    let top = p.rem(root);
    current.push(top);
    let mut level: usize = levels - 1;
    proof {
        assert(t[levels - 1].len() == 1);
        assert(t[levels - 1][0] == root@);
        assert(current@ == seq![top]);
        assert(values(current@) =~= Seq::new(1nat, |j: int| rem_nat(p@, t[levels - 1][j])));
    }
    while level > 0
        invariant
            level < levels,
            levels == tree@.len(),
            t == product_tree(leaves),
            level_values(tree@) == t,
            t.len() == levels,
            forall|l: int| 0 <= l < t.len() - 1 ==> (#[trigger] t[l]).len() >= 2
                && t[l + 1] == pair_products(t[l]),
            forall|l: int, j: int| 0 <= l < t.len() && 0 <= j < t[l].len() ==> #[trigger] t[l][j] > 0,
            values(current@) == Seq::new(t[level as int].len(), |j: int| rem_nat(p@, t[level as int][j])),
        decreases level,
    {
        level = level - 1;
        let row = &tree[level];
        let ghost lv = t[level as int];
        let ghost up = t[level + 1];
        proof {
            assert(level_values(tree@)[level as int] == values(row@));
            assert(values(row@).len() == row@.len());
        }
        let mut child: Vec<BigNat> = Vec::new();
        let mut ci: usize = 0;
        assert(values(child@) =~= Seq::new(0nat, |j: int| rem_nat(p@, lv[j])));
        while ci < row.len()
            invariant
                ci <= row@.len(),
                lv == values(row@),
                lv.len() == row@.len(),
                lv.len() >= 2,
                up == pair_products(lv),
                forall|j: int| 0 <= j < lv.len() ==> #[trigger] lv[j] > 0,
                values(current@) == Seq::new(up.len(), |j: int| rem_nat(p@, up[j])),
                values(child@) == Seq::new(ci as nat, |j: int| rem_nat(p@, lv[j])),
            decreases row@.len() - ci,
        {
            proof {
                assert(ci as int / 2 < up.len());
                assert(values(current@).len() == current@.len());
                assert(values(current@)[ci as int / 2] == current@[ci as int / 2]@);
                assert(values(row@)[ci as int] == row@[ci as int]@);
            }
            let parent = &current[ci / 2];
            let x = parent.rem(&row[ci]);
            proof {
                let a = lv[ci as int] as int;
                let q = ci as int / 2;
                let pi = p@ as int;
                if 2 * q + 1 < lv.len() {
                    let b0 = lv[2 * q] as int;
                    let b1 = lv[2 * q + 1] as int;
                    assert(up[q] == b0 * b1);
                    if ci as int == 2 * q {
                        lemma_mod_mod(pi, b0, b1);
                    } else {
                        lemma_mul_is_commutative(b0, b1);
                        lemma_mod_mod(pi, b1, b0);
                    }
                } else {
                    assert(ci as int == 2 * q);
                    lemma_mod_twice(pi, a);
                }
            }
            let ghost before = child@;
            child.push(x);
            proof {
                assert(child@ == before.push(x));
                assert(values(before).len() == before.len());
                assert(values(child@) =~= Seq::new(ci as nat + 1, |j: int| rem_nat(p@, lv[j]))) by {
                    assert forall|j: int| 0 <= j < ci + 1 implies values(child@)[j] == rem_nat(p@, lv[j]) by {
                        if j < ci {
                            assert(values(before)[j] == rem_nat(p@, lv[j]));
                        }
                    }
                }
            }
            ci = ci + 1;
        }
        current = child;
    }
    proof {
        assert(values(current@) =~= Seq::new(tree@[0]@.len(), |i: int| rem_nat(p@, tree@[0]@[i]@))) by {
            assert forall|i: int| 0 <= i < tree@[0]@.len() implies values(current@)[i] == rem_nat(p@, tree@[0]@[i]@) by {
                assert(leaves[i] == tree@[0]@[i]@);
            }
        }
    }
    current
}


/// The product of the primes up to `limit`.
pub open spec fn primorial_upto(limit: nat) -> nat {
    product(prime_list(limit + 1))
}

/// The batch verdict for candidate c from r = P mod c, with `t` the primes
/// whose product is P: when r = 0, c divides P and is flagged when it is
/// greater than 1 and not itself one of those primes; otherwise c is flagged
/// when gcd(r, c) is a proper divisor of c greater than 1.
pub open spec fn batch_flag(c: nat, r: nat, t: Seq<nat>) -> bool {
    if r == 0 { c > 1 && !t.contains(c) } else { gcd(r, c) > 1 && gcd(r, c) != c }
}

/// Whether `n` is one of the entries of `table`.
fn table_contains(table: &Vec<u64>, n: &BigNat) -> (r: bool)
    ensures
        r == nats(table@).contains(n@),
{
    let mut i: usize = 0;
    while i < table.len()
        invariant
            i <= table@.len(),
            forall|j: int| 0 <= j < i ==> #[trigger] nats(table@)[j] != n@,
        decreases table@.len() - i,
    {
        if n.eq_u64(table[i]) {
            assert(nats(table@)[i as int] == n@);
            return true;
        }
        i = i + 1;
    }
    false
}

/// Batch threshold: smaller batches are checked one by one.
pub const BATCH_THRESHOLD: usize = 100;

/// Flag the candidates that have a small prime factor (up to `sieve_limit`),
/// with the verdict of trial division: a candidate equal to such a prime is
/// not flagged.
///
/// Batches of fewer than 100 candidates are trial-divided one by one by the
/// primes up to `sieve_limit`. Larger batches use a product tree and a
/// remainder tree to get P mod c for the primorial P of those primes, then
/// `batch_flag`.
pub fn batch_has_small_factor(candidates: &[BigNat], sieve_limit: u64) -> (r: Vec<bool>)
    requires
        sieve_limit < usize::MAX / 2,
        candidates@.len() >= BATCH_THRESHOLD ==> forall|i: int| 0 <= i < candidates@.len()
            ==> #[trigger] candidates@[i]@ > 0,
    ensures
        r@.len() == candidates@.len(),
        forall|i: int| 0 <= i < r@.len()
            ==> #[trigger] r@[i] == has_small_factor_spec(candidates@[i]@, prime_list(sieve_limit as nat + 1)),
{
    let n = candidates.len();
    let mut flags: Vec<bool> = Vec::new();
    if n == 0 {
        return flags;
    }
    let primes = primes_up_to(sieve_limit);
    proof {
        lemma_prime_list_facts(sieve_limit as nat + 1);
        assert(nats(primes@).len() == primes@.len());
        assert forall|i: int| 0 <= i < primes@.len() implies is_prime(#[trigger] primes@[i] as nat) by {
            assert(nats(primes@)[i] == primes@[i] as nat);
        }
    }
    if n < BATCH_THRESHOLD {
        let mut i: usize = 0;
        while i < n
            invariant
                n == candidates@.len(),
                i <= n,
                flags@.len() == i,
                nats(primes@) == prime_list(sieve_limit as nat + 1),
                forall|k: int| 0 <= k < primes@.len() ==> is_prime(#[trigger] primes@[k] as nat),
                forall|k: int| 0 <= k < i ==> #[trigger] flags@[k]
                    == has_small_factor_spec(candidates@[k]@, prime_list(sieve_limit as nat + 1)),
            decreases n - i,
        {
            flags.push(has_small_factor(&candidates[i], &primes));
            i = i + 1;
        }
        return flags;
    }
    // P = product of the primes up to the limit
    let mut primorial = BigNat::one();
    let mut k: usize = 0;
    while k < primes.len()
        invariant
            k <= primes@.len(),
            primes@.len() == prime_list(sieve_limit as nat + 1).len(),
            nats(primes@) == prime_list(sieve_limit as nat + 1),
            primorial@ == product(nats(primes@).take(k as int)),
        decreases primes@.len() - k,
    {
        let ghost prev = primorial@;
        primorial = primorial.mul(&BigNat::from_u64(primes[k]));
        proof {
            let t = nats(primes@).take(k + 1);
            assert(t.drop_last() =~= nats(primes@).take(k as int));
            assert(t.last() == primes@[k as int] as nat);
        }
        k = k + 1;
    }
    assert(nats(primes@).take(primes@.len() as int) =~= nats(primes@));
    let tree = build_product_tree(candidates);
    proof {
        let leaves = values(candidates@);
        lemma_tree_levels(leaves);
        assert(level_values(tree@).len() == tree@.len());
        assert(level_values(tree@)[0] == values(tree@[0]@));
        assert(values(tree@[0]@).len() == tree@[0]@.len());
        assert(values(tree@[0]@) == leaves);
        assert forall|i: int| 0 <= i < tree@[0]@.len() implies #[trigger] tree@[0]@[i]@ > 0 by {
            assert(values(tree@[0]@)[i] == tree@[0]@[i]@);
            assert(leaves[i] == candidates@[i]@);
        }
    }
    let remainders = remainder_tree(&tree, &primorial);
    proof {
        assert(values(remainders@).len() == remainders@.len());
        assert(values(tree@[0]@) == values(candidates@));
        assert forall|i: int| 0 <= i < candidates@.len() implies #[trigger] remainders@[i]@
            == primorial_upto(sieve_limit as nat) % candidates@[i]@ by {
            assert(values(remainders@)[i] == remainders@[i]@);
            assert(values(tree@[0]@)[i] == tree@[0]@[i]@);
            assert(values(candidates@)[i] == candidates@[i]@);
        }
    }
    let mut i: usize = 0;
    while i < n
        invariant
            n == candidates@.len(),
            remainders@.len() == n,
            i <= n,
            flags@.len() == i,
            forall|k: int| 0 <= k < n ==> #[trigger] remainders@[k]@
                == primorial_upto(sieve_limit as nat) % candidates@[k]@,
            nats(primes@) == prime_list(sieve_limit as nat + 1),
            forall|k: int| 0 <= k < n ==> #[trigger] candidates@[k]@ > 0,
            forall|k: int| 0 <= k < i ==> #[trigger] flags@[k]
                == has_small_factor_spec(candidates@[k]@, prime_list(sieve_limit as nat + 1)),
        decreases n - i,
    {
        let rem = &remainders[i];
        let c = &candidates[i];
        let flag = if rem.eq_u64(0) {
            BigNat::one().lt(c) && !table_contains(&primes, c)
        } else {
            let g = rem.gcd(c);
            BigNat::one().lt(&g) && !g.equals(c)
        };
        proof {
            let cv = candidates@[i as int]@;
            assert(flag == batch_flag(cv, primorial_upto(sieve_limit as nat) % cv,
                prime_list(sieve_limit as nat + 1)));
            lemma_batch_matches_trial_division(cv, sieve_limit as nat);
        }
        flags.push(flag);
        i = i + 1;
    }
    flags
}

/// Bézout: integers x, y with a·x + b·y = gcd(a, b).
pub proof fn lemma_bezout(a: nat, b: nat) -> (xy: (int, int))
    ensures
        a * xy.0 + b * xy.1 == gcd(a, b),
    decreases b,
{
    if b == 0 {
        (1, 0)
    } else {
        let (x, y) = lemma_bezout(b, a % b);
        lemma_fundamental_div_mod(a as int, b as int);
        let q = a as int / b as int;
        assert(a * y + b * (x - q * y) == b * x + (a % b) * y) by (nonlinear_arith)
            requires
                a as int == b * q + (a % b) as int;
        (y, x - q * y)
    }
}

/// A common divisor of a and b divides gcd(a, b).
pub proof fn lemma_common_divides_gcd(a: nat, b: nat, d: nat)
    requires
        d > 0,
        a % d == 0,
        b % d == 0,
    ensures
        gcd(a, b) % d == 0,
    decreases b,
{
    if b > 0 {
        lemma_fundamental_div_mod(a as int, b as int);
        lemma_fundamental_div_mod(a as int, d as int);
        lemma_fundamental_div_mod(b as int, d as int);
        let u = a as int / d as int;
        let v = b as int / d as int;
        let m = u - v * (a as int / b as int);
        assert((a % b) as int == m * d) by (nonlinear_arith)
            requires
                a as int == b * (a as int / b as int) + (a % b) as int,
                a as int == d * u,
                b as int == d * v,
                m == u - v * (a as int / b as int);
        lemma_mod_multiples_basic(m, d as int);
        lemma_common_divides_gcd(b, a % b, d);
    }
}

/// Euclid's lemma: a prime dividing a product divides one of the factors.
pub proof fn lemma_euclid(q: nat, a: nat, b: nat)
    requires
        is_prime(q),
        (a * b) % q == 0,
    ensures
        a % q == 0 || b % q == 0,
{
    if a % q != 0 {
        lemma_gcd_divides(a, q);
        let g = gcd(a, q);
        assert(g == 1) by {
            if g >= 2 {
                if g < q {
                    assert(q % g != 0);
                } else if g > q {
                    lemma_small_mod(q, g);
                }
            }
        }
        let (x, y) = lemma_bezout(a, q);
        lemma_fundamental_div_mod((a * b) as int, q as int);
        let k = (a * b) as int / q as int;
        let m = k * x + b * y;
        assert(b as int == m * q) by (nonlinear_arith)
            requires
                a * x + q * y == 1,
                (a * b) as int == q * k,
                m == k * x + b * y;
        lemma_mod_multiples_basic(m, q as int);
    }
}

/// Every entry of s divides its product.
pub proof fn lemma_entry_divides_product(s: Seq<nat>, i: int)
    requires
        0 <= i < s.len(),
        s[i] > 0,
    ensures
        product(s) % s[i] == 0,
    decreases s.len(),
{
    let init = s.drop_last();
    if i == s.len() - 1 {
        lemma_mod_multiples_basic(product(init) as int, s[i] as int);
    } else {
        lemma_entry_divides_product(init, i);
        lemma_fundamental_div_mod(product(init) as int, s[i] as int);
        let k = product(init) as int / s[i] as int;
        assert(product(s) as int == (k * s.last()) * s[i]) by (nonlinear_arith)
            requires
                product(init) as int == s[i] * k,
                product(s) == product(init) * s.last();
        lemma_mod_multiples_basic(k * s.last(), s[i] as int);
    }
}

/// A prime dividing a product of primes is one of them.
pub proof fn lemma_prime_divides_product(q: nat, s: Seq<nat>)
    requires
        is_prime(q),
        forall|i: int| 0 <= i < s.len() ==> is_prime(#[trigger] s[i]),
        product(s) % q == 0,
    ensures
        s.contains(q),
    decreases s.len(),
{
    if s.len() == 0 {
        lemma_small_mod(1, q);
    } else {
        let init = s.drop_last();
        lemma_euclid(q, product(init), s.last());
        if product(init) % q == 0 {
            lemma_prime_divides_product(q, init);
            let j = choose|j: int| 0 <= j < init.len() && init[j] == q;
            assert(s[j] == q);
        } else {
            lemma_prime_divides_prime(s.last(), q);
            assert(s[s.len() - 1] == q);
        }
    }
}

/// Every n ≥ 2 has a prime divisor.
pub proof fn lemma_prime_factor(n: nat) -> (p: nat)
    requires
        n >= 2,
    ensures
        is_prime(p),
        n % p == 0,
    decreases n,
{
    if is_prime(n) {
        lemma_mod_self_0(n as int);
        n
    } else {
        let d = choose|d: nat| 2 <= d < n && #[trigger] (n % d) == 0;
        let p = lemma_prime_factor(d);
        lemma_divides_trans(n, d, p);
        p
    }
}

/// For q dividing c: q divides P exactly when it divides P mod c.
proof fn lemma_divides_remainder_link(pp: nat, c: nat, q: nat)
    requires
        c > 0,
        q > 0,
        c % q == 0,
    ensures
        pp % q == 0 <==> (pp % c) % q == 0,
{
    lemma_fundamental_div_mod(pp as int, c as int);
    lemma_fundamental_div_mod(c as int, q as int);
    let k = pp as int / c as int;
    let v = c as int / q as int;
    lemma_mod_multiples_vanish(v * k, (pp % c) as int, q as int);
    assert(pp as int == q * (v * k) + (pp % c) as int) by (nonlinear_arith)
        requires
            pp as int == c * k + (pp % c) as int,
            c as int == q * v;
}

/// For every candidate c > 0, the product-tree verdict agrees with trial
/// division: c is flagged exactly when a prime up to the limit other than c
/// divides it.
pub proof fn lemma_batch_matches_trial_division(c: nat, limit: nat)
    requires
        c > 0,
    ensures
        batch_flag(c, primorial_upto(limit) % c, prime_list(limit + 1))
            == has_small_factor_spec(c, prime_list(limit + 1)),
{
    let pl = prime_list(limit + 1);
    let pp = primorial_upto(limit);
    let r = pp % c;
    lemma_prime_list_facts(limit + 1);
    if has_small_factor_spec(c, pl) {
        let i = choose|i: int| 0 <= i < pl.len() && #[trigger] (c % pl[i]) == 0 && c != pl[i];
        let p = pl[i];
        lemma_entry_divides_product(pl, i);
        lemma_divides_remainder_link(pp, c, p);
        if r != 0 {
            lemma_common_divides_gcd(r, c, p);
            lemma_gcd_divides(r, c);
            let g = gcd(r, c);
            if g < p {
                lemma_small_mod(g, p);
            }
            if g > r {
                lemma_small_mod(r, g);
            }
            lemma_small_mod(r, c);
        } else {
            if c < p {
                lemma_small_mod(c, p);
            }
            if pl.contains(c) {
                let j = choose|j: int| 0 <= j < pl.len() && pl[j] == c;
                lemma_prime_divides_prime(c, p);
            }
        }
    } else {
        if r == 0 {
            if c > 1 {
                let q = lemma_prime_factor(c);
                lemma_divides_remainder_link(pp, c, q);
                lemma_small_mod(0, q);
                lemma_prime_divides_product(q, pl);
                let j = choose|j: int| 0 <= j < pl.len() && pl[j] == q;
                assert(c % pl[j] == 0);
                assert(c == pl[j]);
                assert(pl.contains(c));
            }
        } else {
            lemma_gcd_divides(r, c);
            let g = gcd(r, c);
            if g > 1 {
                let q = lemma_prime_factor(g);
                lemma_divides_trans(c, g, q);
                lemma_divides_trans(r, g, q);
                lemma_divides_remainder_link(pp, c, q);
                lemma_prime_divides_product(q, pl);
                let j = choose|j: int| 0 <= j < pl.len() && pl[j] == q;
                assert(c % pl[j] == 0);
                assert(c == pl[j]);
                lemma_entry_divides_product(pl, j);
                assert(false);
            }
        }
    }
}

} // verus!
