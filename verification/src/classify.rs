//! Multi-form prime classification: tags assigned at discovery time (form and
//! proof tags) and at verification time (tier and cross-form properties).
use vstd::prelude::*;
use crate::text::{str_eq, chars_vec, string_from_chars, decimal};
use crate::bignum::{BigNat, is_probably_prime_native, probably_prime_native_spec};

verus! {

/// Lexicographic order on character sequences (code point order, the order of
/// `String`'s `Ord`).
pub open spec fn lex_lt(a: Seq<char>, b: Seq<char>) -> bool
    decreases a.len(),
{
    if a.len() == 0 {
        b.len() > 0
    } else if b.len() == 0 {
        false
    } else if a[0] != b[0] {
        a[0] < b[0]
    } else {
        lex_lt(a.drop_first(), b.drop_first())
    }
}

/// `lex_lt` is transitive.
pub proof fn lemma_lex_trans(a: Seq<char>, b: Seq<char>, c: Seq<char>)
    requires
        lex_lt(a, b),
        lex_lt(b, c),
    ensures
        lex_lt(a, c),
    decreases a.len(),
{
    if a.len() > 0 && b.len() > 0 && c.len() > 0 && a[0] == b[0] && b[0] == c[0] {
        lemma_lex_trans(a.drop_first(), b.drop_first(), c.drop_first());
    }
}

/// `lex_lt` is irreflexive and total on distinct sequences.
pub proof fn lemma_lex_total(a: Seq<char>, b: Seq<char>)
    ensures
        !lex_lt(a, a),
        a != b ==> (lex_lt(a, b) || lex_lt(b, a)),
        !(lex_lt(a, b) && lex_lt(b, a)),
    decreases a.len(),
{
    if a.len() > 0 {
        lemma_lex_total(a.drop_first(), a.drop_first());
    }
    if a.len() > 0 && b.len() > 0 && a[0] == b[0] {
        lemma_lex_total(a.drop_first(), b.drop_first());
        if a != b {
            assert(a.drop_first() != b.drop_first()) by {
                if a.drop_first() == b.drop_first() {
                    assert(a =~= seq![a[0]] + a.drop_first());
                    assert(b =~= seq![b[0]] + b.drop_first());
                }
            }
        }
    } else if a.len() > 0 && b.len() > 0 {
    } else if a.len() == 0 && b.len() == 0 {
        assert(a =~= b);
    }
}

/// Lexicographic comparison of two character slices.
fn chars_lex_lt(a: &[char], b: &[char]) -> (r: bool)
    ensures
        r == lex_lt(a@, b@),
{
    let mut i: usize = 0;
    assert(a@.subrange(0, a@.len() as int) =~= a@);
    assert(b@.subrange(0, b@.len() as int) =~= b@);
    while i < a.len() && i < b.len()
        invariant
            i <= a@.len(),
            i <= b@.len(),
            forall|j: int| 0 <= j < i ==> a@[j] == b@[j],
            lex_lt(a@, b@) == lex_lt(a@.subrange(i as int, a@.len() as int), b@.subrange(i as int, b@.len() as int)),
        decreases a@.len() - i,
    {
        let ghost sa = a@.subrange(i as int, a@.len() as int);
        let ghost sb = b@.subrange(i as int, b@.len() as int);
        if a[i] != b[i] {
            return a[i] < b[i];
        }
        assert(sa.drop_first() =~= a@.subrange(i + 1, a@.len() as int));
        assert(sb.drop_first() =~= b@.subrange(i + 1, b@.len() as int));
        i = i + 1;
    }
    i < b.len()
}

/// Whether a sequence of strings is strictly increasing in lexicographic order.
pub open spec fn strictly_sorted(v: Seq<Seq<char>>) -> bool {
    forall|i: int, j: int| 0 <= i < j < v.len() ==> lex_lt(#[trigger] v[i], #[trigger] v[j])
}

/// The character views of a vector of strings.
pub open spec fn views(v: Seq<String>) -> Seq<Seq<char>> {
    v.map_values(|s: String| s@)
}

/// Inserts `x` into a strictly sorted vector unless an equal string is present.
fn insert_sorted_unique(v: &mut Vec<String>, x: String)
    requires
        strictly_sorted(views(old(v)@)),
    ensures
        strictly_sorted(views(final(v)@)),
        views(final(v)@).to_set() == views(old(v)@).to_set().insert(x@),
{
    let xs = chars_vec(x.as_str());
    let ghost old_views = views(v@);
    let mut k: usize = 0;
    let mut done = false;
    while !done && k < v.len()
        invariant
            k <= v@.len(),
            done ==> k < v@.len() && !lex_lt(old_views[k as int], x@),
            views(v@) == old_views,
            strictly_sorted(old_views),
            xs@ == x@,
            forall|j: int| 0 <= j < k ==> lex_lt(#[trigger] old_views[j], x@),
        decreases v@.len() - k + (if done { 0int } else { 1int }),
    {
        let e = chars_vec(v[k].as_str());
        assert(e@ == old_views[k as int]);
        if !chars_lex_lt(e.as_slice(), xs.as_slice()) {
            done = true;
        } else {
            k = k + 1;
        }
    }
    proof {
        assert forall|j: int| k <= j < old_views.len() implies !lex_lt(#[trigger] old_views[j], x@) by {
            if k < old_views.len() && j > k {
                assert(lex_lt(old_views[k as int], old_views[j]));
                if lex_lt(old_views[j], x@) {
                    lemma_lex_trans(old_views[k as int], old_views[j], x@);
                }
            }
        }
    }
    if k < v.len() {
        let e = chars_vec(v[k].as_str());
        if chars_eq_vec(&e, &xs) {
            assert(views(v@).to_set().insert(x@) =~= views(v@).to_set()) by {
                assert(views(v@)[k as int] == x@);
            }
            return;
        }
    }
    v.insert(k, x);
    proof {
        let nv = views(v@);
        assert(nv =~= old_views.insert(k as int, x@));
        assert forall|i: int, j: int| 0 <= i < j < nv.len() implies lex_lt(#[trigger] nv[i], #[trigger] nv[j]) by {
            if j == k {
                assert(lex_lt(old_views[i], x@));
            } else if i == k {
                let y = old_views[j - 1];
                lemma_lex_total(y, x@);
                assert(!lex_lt(y, x@));
                if j - 1 > k {
                    assert(y != x@) by {
                        lemma_lex_total(old_views[k as int], y);
                        if y == x@ {
                            assert(lex_lt(old_views[k as int], y));
                        }
                    }
                }
            } else if i < k && j > k {
                assert(lex_lt(old_views[i], x@));
                let y = old_views[j - 1];
                if k < old_views.len() {
                    lemma_lex_total(y, x@);
                }
                assert(lex_lt(old_views[i], y));
            } else if j < k {
                assert(lex_lt(old_views[i], old_views[j]));
            } else {
                assert(lex_lt(old_views[i - 1], old_views[j - 1]));
            }
        }
        assert(nv.to_set() =~= old_views.to_set().insert(x@)) by {
            assert forall|s: Seq<char>| nv.to_set().contains(s) <==> old_views.to_set().insert(x@).contains(s) by {
                if nv.to_set().contains(s) {
                    let i = choose|i: int| 0 <= i < nv.len() && nv[i] == s;
                    if i < k {
                        assert(old_views[i] == s);
                    } else if i > k {
                        assert(old_views[i - 1] == s);
                    }
                }
                if old_views.to_set().contains(s) {
                    let i = choose|i: int| 0 <= i < old_views.len() && old_views[i] == s;
                    if i < k {
                        assert(nv[i] == s);
                    } else {
                        assert(nv[i + 1] == s);
                    }
                }
                if s == x@ {
                    assert(nv[k as int] == s);
                }
            }
        }
    }
}

fn chars_eq_vec(a: &Vec<char>, b: &Vec<char>) -> (r: bool)
    ensures
        r == (a@ == b@),
{
    crate::text::chars_eq(a.as_slice(), b.as_slice())
}

/// Forms whose primes admit a deterministic primality proof.
pub open spec fn provable_form(form: Seq<char>) -> bool {
    form == "factorial"@ || form == "primorial"@ || form == "kbn"@ || form == "twin"@
        || form == "sophie_germain"@ || form == "cullen_woodall"@ || form == "carol_kynea"@
        || form == "gen_fermat"@
}

/// Whether primes of this form admit a deterministic primality proof.
pub fn is_provable_form(form: &str) -> (r: bool)
    ensures
        r == provable_form(form@),
{
    str_eq(form, "factorial") || str_eq(form, "primorial") || str_eq(form, "kbn")
        || str_eq(form, "twin") || str_eq(form, "sophie_germain")
        || str_eq(form, "cullen_woodall") || str_eq(form, "carol_kynea")
        || str_eq(form, "gen_fermat")
}

/// Forms that reuse the k*b^n search infrastructure.
pub open spec fn kbn_family(form: Seq<char>) -> bool {
    form == "twin"@ || form == "sophie_germain"@ || form == "cullen"@ || form == "woodall"@
        || form == "cullen_woodall"@ || form == "carol"@ || form == "kynea"@
        || form == "carol_kynea"@ || form == "gen_fermat"@
}

/// The set of tags assigned to a prime at discovery time.
pub open spec fn discovery_tags(form: Seq<char>, proof_method: Seq<char>) -> Set<Seq<char>> {
    let base = set![form, if proof_method == "deterministic"@ { "deterministic"@ } else { "probabilistic"@ }];
    let with_prp = if !provable_form(form) { base.insert("prp-only"@) } else { base };
    if kbn_family(form) {
        with_prp.insert("kbn"@)
    } else if form == "near_repdigit"@ {
        with_prp.insert("palindromic"@)
    } else {
        with_prp
    }
}

/// Primes of the forms searched with the k·b^n machinery (twin, Sophie
/// Germain, Cullen, Woodall, Carol, Kynea and generalized Fermat) carry the
/// `kbn` tag at discovery, whatever their proof method; near-repdigit
/// primes carry the `palindromic` tag.
pub proof fn lemma_discovery_family_tags(form: Seq<char>, proof_method: Seq<char>)
    ensures
        form == "twin"@ || form == "sophie_germain"@ || form == "cullen"@ || form == "woodall"@
            || form == "cullen_woodall"@ || form == "carol"@ || form == "kynea"@
            || form == "carol_kynea"@ || form == "gen_fermat"@
            ==> discovery_tags(form, proof_method).contains("kbn"@),
        form == "near_repdigit"@ ==> discovery_tags(form, proof_method).contains("palindromic"@),
{
    if form == "near_repdigit"@ {
        reveal_strlit("near_repdigit");
        reveal_strlit("twin");
        reveal_strlit("sophie_germain");
        reveal_strlit("cullen");
        reveal_strlit("woodall");
        reveal_strlit("cullen_woodall");
        reveal_strlit("carol");
        reveal_strlit("kynea");
        reveal_strlit("carol_kynea");
        reveal_strlit("gen_fermat");
        assert(form.len() == 13);
        assert(form[0] == 'n');
    }
}

/// Discovery tags record the proof method (`deterministic` for a
/// deterministic proof, else `probabilistic`) and the form itself; primes of
/// the forms with a deterministic proof (factorial, primorial, k·b^n, twin,
/// Sophie Germain, Cullen/Woodall, Carol/Kynea, generalized Fermat) are not
/// tagged `prp-only`, those of the other searched forms (Wagstaff, repunit,
/// palindromic, near-repdigit) are.
pub proof fn lemma_discovery_proof_tags(form: Seq<char>, proof_method: Seq<char>)
    ensures
        discovery_tags(form, proof_method).contains(form),
        proof_method == "deterministic"@ ==> discovery_tags(form, proof_method).contains("deterministic"@),
        proof_method != "deterministic"@ ==> discovery_tags(form, proof_method).contains("probabilistic"@),
        form == "factorial"@ || form == "primorial"@ || form == "kbn"@ || form == "twin"@
            || form == "sophie_germain"@ || form == "cullen_woodall"@ || form == "carol_kynea"@
            || form == "gen_fermat"@
            ==> !discovery_tags(form, proof_method).contains("prp-only"@),
        form == "wagstaff"@ || form == "repunit"@ || form == "palindromic"@ || form == "near_repdigit"@
            ==> discovery_tags(form, proof_method).contains("prp-only"@),
{
    reveal_strlit("prp-only");
    reveal_strlit("deterministic");
    reveal_strlit("probabilistic");
    reveal_strlit("kbn");
    reveal_strlit("palindromic");
    reveal_strlit("factorial");
    reveal_strlit("primorial");
    reveal_strlit("twin");
    reveal_strlit("sophie_germain");
    reveal_strlit("cullen_woodall");
    reveal_strlit("carol_kynea");
    reveal_strlit("gen_fermat");
    reveal_strlit("wagstaff");
    reveal_strlit("repunit");
    reveal_strlit("near_repdigit");
    assert("prp-only"@.len() == 8);
    assert("deterministic"@.len() == 13);
    assert("probabilistic"@.len() == 13);
    assert("deterministic"@[0] != "probabilistic"@[0]);
    assert("kbn"@.len() == 3);
    assert("palindromic"@.len() == 11);
    assert("factorial"@.len() == 9);
    assert("primorial"@.len() == 9);
    assert("twin"@.len() == 4);
    assert("sophie_germain"@.len() == 14);
    assert("cullen_woodall"@.len() == 14);
    assert("carol_kynea"@.len() == 11);
    assert("gen_fermat"@.len() == 10);
    assert("wagstaff"@.len() == 8);
    assert("repunit"@.len() == 7);
    assert("near_repdigit"@.len() == 13);
    assert("wagstaff"@[0] != "prp-only"@[0]);
    assert("factorial"@[0] != "primorial"@[0]);
    assert("palindromic"@[0] != "carol_kynea"@[0]);
    assert("near_repdigit"@[0] != "deterministic"@[0]);
    assert("near_repdigit"@[0] != "probabilistic"@[0]);
    assert("sophie_germain"@[0] != "cullen_woodall"@[0]);
}

/// Assign tags at discovery time based on form, proof method and form
/// relationships. The result is sorted and holds no duplicates.
pub fn classify_at_discovery(form: &str, proof_method: &str) -> (tags: Vec<String>)
    ensures
        strictly_sorted(views(tags@)),
        views(tags@).to_set() == discovery_tags(form@, proof_method@),
{
    let mut tags: Vec<String> = Vec::new();
    assert(views(tags@).to_set() =~= Set::<Seq<char>>::empty());
    insert_sorted_unique(&mut tags, String::from_str(form));
    if str_eq(proof_method, "deterministic") {
        insert_sorted_unique(&mut tags, String::from_str("deterministic"));
    } else {
        insert_sorted_unique(&mut tags, String::from_str("probabilistic"));
    }
    if !is_provable_form(form) {
        insert_sorted_unique(&mut tags, String::from_str("prp-only"));
    }
    let kbn = str_eq(form, "twin") || str_eq(form, "sophie_germain") || str_eq(form, "cullen")
        || str_eq(form, "woodall") || str_eq(form, "cullen_woodall") || str_eq(form, "carol")
        || str_eq(form, "kynea") || str_eq(form, "carol_kynea") || str_eq(form, "gen_fermat");
    if kbn {
        insert_sorted_unique(&mut tags, String::from_str("kbn"));
    } else if str_eq(form, "near_repdigit") {
        insert_sorted_unique(&mut tags, String::from_str("palindromic"));
    }
    proof {
        let d = if proof_method@ == "deterministic"@ { "deterministic"@ } else { "probabilistic"@ };
        assert(Set::<Seq<char>>::empty().insert(form@).insert(d) =~= set![form@, d]);
    }
    tags
}


/// The outcome of verifying a prime.
pub enum VerifyResult {
    /// Verified by `method`, at proof tier `tier`.
    Verified { method: String, tier: u8 },
    /// Verification did not succeed.
    Failed { reason: String },
}

/// Digit count from which the relational checks (twin, Sophie Germain, safe
/// prime), each a primality test on a number of similar size, are skipped.
pub const EXPENSIVE_CHECK_DIGIT_LIMIT: u64 = 50_000;

/// The primality verdict used by the relational checks: Miller-Rabin with
/// the bases 2 … 26.
pub open spec fn probably_prime(n: nat) -> bool {
    probably_prime_native_spec(n, 25)
}

/// `s` reads the same backwards.
pub open spec fn is_palindrome(s: Seq<char>) -> bool {
    forall|i: int| 0 <= i < s.len() ==> #[trigger] s[i] == s[s.len() - 1 - i]
}

/// p is one of a twin pair: p > 2 and p − 2 (when above 1) or p + 2 is a
/// probable prime.
pub open spec fn twin_spec(p: nat) -> bool {
    p > 2 && ((p - 2 > 1 && probably_prime((p - 2) as nat)) || probably_prime(p + 2))
}

/// 2p + 1 is a probable prime.
pub open spec fn sophie_germain_spec(p: nat) -> bool {
    probably_prime(2 * p + 1)
}

/// p > 4, p − 1 is even and (p − 1)/2 is a probable prime.
pub open spec fn safe_prime_spec(p: nat) -> bool {
    p > 4 && (p - 1) % 2 == 0 && probably_prime(((p - 1) / 2) as nat)
}

/// The tier tag of a verification result (tiers 1 to 3 only).
pub open spec fn tier_tags(v: VerifyResult) -> Seq<Seq<char>> {
    match v {
        VerifyResult::Verified { tier, .. } => {
            if tier == 1 { seq!["verified-tier-1"@] }
            else if tier == 2 { seq!["verified-tier-2"@] }
            else if tier == 3 { seq!["verified-tier-3"@] }
            else { Seq::empty() }
        },
        _ => Seq::empty(),
    }
}

/// The tags assigned to prime n (of `digits` digits) at verification time, in
/// order: the tier tag, `palindromic` when its decimal form is a palindrome,
/// and, below the digit limit, `twin`, `sophie-germain` and `safe-prime` as
/// they hold.
pub open spec fn verification_tags(n: nat, digits: nat, v: VerifyResult) -> Seq<Seq<char>> {
    let t = tier_tags(v);
    let t = if is_palindrome(decimal(n)) { t.push("palindromic"@) } else { t };
    if digits < EXPENSIVE_CHECK_DIGIT_LIMIT {
        let t = if twin_spec(n) { t.push("twin"@) } else { t };
        let t = if sophie_germain_spec(n) { t.push("sophie-germain"@) } else { t };
        if safe_prime_spec(n) { t.push("safe-prime"@) } else { t }
    } else {
        t
    }
}

/// Whether n is a palindrome in base 10.
pub fn is_palindrome_base10(n: &BigNat) -> (r: bool)
    ensures
        r == is_palindrome(decimal(n@)),
{
    let s = n.to_decimal();
    let cs = chars_vec(s.as_str());
    let len = cs.len();
    let mut i: usize = 0;
    while i < len / 2
        invariant
            cs@ == decimal(n@),
            len == cs@.len(),
            i <= len / 2,
            forall|j: int| 0 <= j < i ==> #[trigger] cs@[j] == cs@[len - 1 - j],
        decreases len / 2 - i,
    {
        if cs[i] != cs[len - 1 - i] {
            return false;
        }
        i = i + 1;
    }
    assert forall|j: int| 0 <= j < len implies #[trigger] cs@[j] == cs@[len - 1 - j] by {
        if j >= len / 2 {
            let k = len - 1 - j;
            if k < len / 2 {
                assert(cs@[k] == cs@[len - 1 - k]);
            }
        }
    }
    true
}

/// Whether p is one of a twin prime pair (p − 2 or p + 2 probably prime).
pub fn is_twin_prime(p: &BigNat) -> (r: bool)
    ensures
        r == twin_spec(p@),
{
    let two = BigNat::from_u64(2);
    if !two.lt(p) {
        return false;
    }
    let p_minus_2 = p.sub(&two);
    if BigNat::one().lt(&p_minus_2) && is_probably_prime_native(&p_minus_2, 25) {
        return true;
    }
    let p_plus_2 = p.add(&two);
    is_probably_prime_native(&p_plus_2, 25)
}

/// Whether p is a Sophie Germain prime (2p + 1 probably prime).
pub fn is_sophie_germain(p: &BigNat) -> (r: bool)
    ensures
        r == sophie_germain_spec(p@),
{
    let safe = BigNat::from_u64(2).mul(p).add(&BigNat::one());
    is_probably_prime_native(&safe, 25)
}

/// Whether p is a safe prime ((p − 1)/2 probably prime).
pub fn is_safe_prime(p: &BigNat) -> (r: bool)
    ensures
        r == safe_prime_spec(p@),
{
    if !BigNat::from_u64(4).lt(p) {
        return false;
    }
    let p_minus_1 = p.sub(&BigNat::one());
    if p_minus_1.is_even() {
        let half = p_minus_1.div(&BigNat::from_u64(2));
        is_probably_prime_native(&half, 25)
    } else {
        false
    }
}

fn push_tag(tags: &mut Vec<String>, tag: &str)
    ensures
        views(final(tags)@) == views(old(tags)@).push(tag@),
{
    tags.push(String::from_str(tag));
    assert(views(tags@) =~= views(old(tags)@).push(tag@));
}

/// Assign tags at verification time: the tier tag, the palindrome tag, and,
/// for primes below `EXPENSIVE_CHECK_DIGIT_LIMIT` digits, the twin, Sophie
/// Germain and safe-prime tags (see `verification_tags`).
pub fn classify_at_verification(candidate: &BigNat, digits: u64, verify_result: &VerifyResult) -> (tags: Vec<String>)
    ensures
        views(tags@) == verification_tags(candidate@, digits as nat, *verify_result),
{
    let mut tags: Vec<String> = Vec::new();
    match verify_result {
        VerifyResult::Verified { tier, .. } => {
            if *tier == 1 {
                push_tag(&mut tags, "verified-tier-1");
            } else if *tier == 2 {
                push_tag(&mut tags, "verified-tier-2");
            } else if *tier == 3 {
                push_tag(&mut tags, "verified-tier-3");
            }
        },
        _ => {},
    }
    assert(views(tags@) =~= tier_tags(*verify_result));
    if is_palindrome_base10(candidate) {
        push_tag(&mut tags, "palindromic");
    }
    if digits < EXPENSIVE_CHECK_DIGIT_LIMIT {
        if is_twin_prime(candidate) {
            push_tag(&mut tags, "twin");
        }
        if is_sophie_germain(candidate) {
            push_tag(&mut tags, "sophie-germain");
        }
        if is_safe_prime(candidate) {
            push_tag(&mut tags, "safe-prime");
        }
    }
    tags
}

} // verus!
