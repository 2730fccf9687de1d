//! The block entry point: read the form parameters from JSON, run the form's
//! search over a block of candidates, and report the primes found as JSON,
//! optionally with a SHA-256 hash of the canonical result.
use vstd::prelude::*;
use sha2::Digest;
use crate::text::{decimal, push_decimal, push_str, str_eq};
use crate::search::primality::PrimeTables;
use crate::search::forms::{
    PrimeResult, Found, founds, gather, tally, wrap64, span, kbn_found, search_kbn, twin_cands,
    twin_found, search_twin, factorial_found, factorial_tests, search_factorial, sg_cands, sg_found,
    search_sophie_germain, cullen_woodall_found, cullen_woodall_tests, search_cullen_woodall,
    repunit_found, prime_index_tests, search_repunit, primes_between, primorial_found,
    primorial_tests, search_primorial, carol_kynea_found, carol_kynea_tests, search_carol_kynea,
    gen_fermat_found, search_gen_fermat, wagstaff_found, wagstaff_tests, search_wagstaff,
    palindromic_found, palindromic_tests, search_palindromic, near_results, dedup,
    near_candidates, search_near_repdigit,
};

verus! {

// ── parameters ──────────────────────────────────────────────────────

/// The unsigned integer that serde_json reads at `key` in the JSON object
/// `json` (None when the text is not JSON, the key is absent, or the value is
/// not an integer in u64 range).
pub uninterp spec fn json_u64_field_of(json: Seq<char>, key: Seq<char>) -> Option<u64>;

/// The signed integer that serde_json reads at `key` in the JSON object
/// `json` (None when the text is not JSON, the key is absent, or the value is
/// not an integer in i64 range).
pub uninterp spec fn json_i64_field_of(json: Seq<char>, key: Seq<char>) -> Option<i64>;

/// `serde_json::from_str::<Value>`, then `Value[key]` and `Value::as_u64`.
/// Trusted: the result is whatever serde_json reads, named
/// `json_u64_field_of(json, key)`; nothing more is claimed of it.
#[verifier::external_body]
fn json_u64_field(json: &str, key: &str) -> (r: Option<u64>)
    ensures
        r == json_u64_field_of(json@, key@),
{
    match serde_json::from_str::<serde_json::Value>(json) {
        Ok(v) => v[key].as_u64(),
        Err(_) => None,
    }
}

/// `serde_json::from_str::<Value>`, then `Value[key]` and `Value::as_i64`.
/// Trusted: the result is whatever serde_json reads, named
/// `json_i64_field_of(json, key)`; nothing more is claimed of it.
#[verifier::external_body]
fn json_i64_field(json: &str, key: &str) -> (r: Option<i64>)
    ensures
        r == json_i64_field_of(json@, key@),
{
    match serde_json::from_str::<serde_json::Value>(json) {
        Ok(v) => v[key].as_i64(),
        Err(_) => None,
    }
}

/// The value, or `default` when absent.
pub open spec fn or_u64(o: Option<u64>, default: u64) -> u64 {
    match o {
        Some(v) => v,
        None => default,
    }
}

/// The sign parameter: the value (1 when absent) truncated to 8 bits.
pub open spec fn sign_param(o: Option<i64>) -> i8 {
    match o {
        Some(v) => v as i8,
        None => 1i8,
    }
}

fn sign_of(o: Option<i64>) -> (s: i8)
    ensures
        s == sign_param(o),
{
    match o {
        Some(v) => #[verifier::truncate] (v as i8),
        None => 1,
    }
}

// ── dispatch ────────────────────────────────────────────────────────

/// The forms whose search pre-sieves the whole block in memory.
pub open spec fn sieved_form(t: Seq<char>) -> bool {
    t == "kbn"@ || t == "cullen_woodall"@ || t == "carol_kynea"@ || t == "gen_fermat"@
}

/// The forms whose block bounds are digit counts.
pub open spec fn digit_form(t: Seq<char>) -> bool {
    t == "palindromic"@ || t == "near_repdigit"@
}

/// What a block may ask for on this machine: a sieved block must be
/// addressable, and digit counts must fit in `usize`.
pub open spec fn block_fits(t: Seq<char>, start: u64, end: u64) -> bool {
    &&& sieved_form(t) ==> (end < start || end - start < usize::MAX)
    &&& digit_form(t) ==> end <= usize::MAX
}

/// Whether a block of `search_type` over [start, end] can be searched on this
/// machine (`block_fits`), for callers that must check before searching.
pub fn block_fits_check(search_type: &str, start: u64, end: u64) -> (r: bool)
    ensures
        r == block_fits(search_type@, start, end),
{
    let sieved = str_eq(search_type, "kbn") || str_eq(search_type, "cullen_woodall")
        || str_eq(search_type, "carol_kynea") || str_eq(search_type, "gen_fermat");
    let digits = str_eq(search_type, "palindromic") || str_eq(search_type, "near_repdigit");
    let span_ok = end < start || ((end - start) as u128) < (usize::MAX as u128);
    let digits_ok = (end as u128) <= (usize::MAX as u128);
    (!sieved || span_ok) && (!digits || digits_ok)
}

/// The primes a block search reports, for form `t` with parameters `k`,
/// `base` and `sign` (absent ones take the form's default).
pub open spec fn block_found(t: Seq<char>, k: Option<u64>, base: Option<u64>, sign: Option<i64>,
    start: u64, end: u64) -> Seq<Found>
{
    let s = start as nat;
    let e = end as nat;
    if t == "kbn"@ {
        gather(span(s, e), |n: nat| kbn_found(or_u64(k, 1) as nat, or_u64(base, 2) as nat,
            sign_param(sign) >= 0, n))
    } else if t == "twin"@ {
        gather(twin_cands(s, e), |p: nat| twin_found(p))
    } else if t == "factorial"@ {
        gather(span(s, e), |n: nat| factorial_found(n))
    } else if t == "sophie_germain"@ {
        gather(sg_cands(s, e), |p: nat| sg_found(p))
    } else if t == "cullen_woodall"@ {
        gather(span(s, e), |n: nat| cullen_woodall_found(n))
    } else if t == "repunit"@ {
        if or_u64(base, 10) < 2 {
            Seq::empty()
        } else {
            gather(span(s, e), |n: nat| repunit_found(or_u64(base, 10) as nat, n))
        }
    } else if t == "primorial"@ {
        gather(primes_between(s, e), |p: nat| primorial_found(p))
    } else if t == "carol_kynea"@ {
        gather(span(s, e), |n: nat| carol_kynea_found(n))
    } else if t == "gen_fermat"@ {
        gather(span(s, e), |n: nat| gen_fermat_found(or_u64(base, 2) as nat, n))
    } else if t == "wagstaff"@ {
        gather(span(s, e), |p: nat| wagstaff_found(p))
    } else if t == "palindromic"@ {
        if or_u64(base, 10) < 2 {
            Seq::empty()
        } else {
            gather(span(s, e), |d: nat| palindromic_found(or_u64(base, 10) as nat, d))
        }
    } else if t == "near_repdigit"@ {
        if or_u64(base, 10) < 2 {
            Seq::empty()
        } else {
            near_results(dedup(near_candidates(or_u64(base, 10) as nat, s, e)))
        }
    } else {
        Seq::empty()
    }
}

/// The tested count a block search reports (modulo 2^64).
pub open spec fn block_tested(t: Seq<char>, k: Option<u64>, base: Option<u64>, sign: Option<i64>,
    start: u64, end: u64) -> nat
{
    let s = start as nat;
    let e = end as nat;
    if t == "kbn"@ {
        wrap64(span(s, e).len())
    } else if t == "twin"@ {
        wrap64(twin_cands(s, e).len())
    } else if t == "factorial"@ {
        wrap64(tally(span(s, e), |n: nat| factorial_tests(n)))
    } else if t == "sophie_germain"@ {
        wrap64(sg_cands(s, e).len())
    } else if t == "cullen_woodall"@ {
        wrap64(tally(span(s, e), |n: nat| cullen_woodall_tests(n)))
    } else if t == "repunit"@ {
        if or_u64(base, 10) < 2 { 0 } else { wrap64(tally(span(s, e), |n: nat| prime_index_tests(n))) }
    } else if t == "primorial"@ {
        wrap64(tally(primes_between(s, e), |p: nat| primorial_tests(p)))
    } else if t == "carol_kynea"@ {
        wrap64(tally(span(s, e), |n: nat| carol_kynea_tests(n)))
    } else if t == "gen_fermat"@ {
        wrap64(span(s, e).len())
    } else if t == "wagstaff"@ {
        wrap64(tally(span(s, e), |p: nat| wagstaff_tests(p)))
    } else if t == "palindromic"@ {
        if or_u64(base, 10) < 2 {
            0
        } else {
            wrap64(tally(span(s, e), |d: nat| palindromic_tests(or_u64(base, 10) as nat, d)))
        }
    } else if t == "near_repdigit"@ {
        if or_u64(base, 10) < 2 {
            0
        } else {
            wrap64(dedup(near_candidates(or_u64(base, 10) as nat, s, e)).len())
        }
    } else {
        0
    }
}

/// Absent parameters take the documented defaults: base 10 for palindromic,
/// near-repdigit and repunit blocks, base 2 for generalized Fermat blocks,
/// and k = 1, base 2 and sign +1 for k·b^n ± 1 blocks. Each block then finds
/// and tests what the block with those values given explicitly does.
pub proof fn lemma_block_defaults(k: Option<u64>, sign: Option<i64>, start: u64, end: u64)
    ensures
        block_found("palindromic"@, k, None, sign, start, end)
            == block_found("palindromic"@, k, Some(10), sign, start, end),
        block_tested("palindromic"@, k, None, sign, start, end)
            == block_tested("palindromic"@, k, Some(10), sign, start, end),
        block_found("near_repdigit"@, k, None, sign, start, end)
            == block_found("near_repdigit"@, k, Some(10), sign, start, end),
        block_tested("near_repdigit"@, k, None, sign, start, end)
            == block_tested("near_repdigit"@, k, Some(10), sign, start, end),
        block_found("repunit"@, k, None, sign, start, end)
            == block_found("repunit"@, k, Some(10), sign, start, end),
        block_tested("repunit"@, k, None, sign, start, end)
            == block_tested("repunit"@, k, Some(10), sign, start, end),
        block_found("gen_fermat"@, k, None, sign, start, end)
            == block_found("gen_fermat"@, k, Some(2), sign, start, end),
        block_found("kbn"@, None, None, None, start, end)
            == block_found("kbn"@, Some(1), Some(2), Some(1), start, end),
{
    reveal_strlit("palindromic");
    reveal_strlit("near_repdigit");
    reveal_strlit("kbn");
    reveal_strlit("repunit");
    reveal_strlit("gen_fermat");
    assert("palindromic"@.len() == 11 && "near_repdigit"@.len() == 13 && "kbn"@.len() == 3
        && "repunit"@.len() == 7 && "gen_fermat"@.len() == 10);
    assert((|d: nat| palindromic_found(or_u64(None, 10) as nat, d))
        =~= (|d: nat| palindromic_found(or_u64(Some(10), 10) as nat, d)));
    assert((|d: nat| palindromic_tests(or_u64(None, 10) as nat, d))
        =~= (|d: nat| palindromic_tests(or_u64(Some(10), 10) as nat, d)));
    assert((|n: nat| repunit_found(or_u64(None, 10) as nat, n))
        =~= (|n: nat| repunit_found(or_u64(Some(10), 10) as nat, n)));
    assert((|n: nat| gen_fermat_found(or_u64(None, 2) as nat, n))
        =~= (|n: nat| gen_fermat_found(or_u64(Some(2), 2) as nat, n)));
    assert((|n: nat| kbn_found(or_u64(None, 1) as nat, or_u64(None, 2) as nat, sign_param(None) >= 0, n))
        =~= (|n: nat| kbn_found(or_u64(Some(1), 1) as nat, or_u64(Some(2), 2) as nat,
            sign_param(Some(1)) >= 0, n)));
}

/// Run the search named `search_type` over [start, end] with the given
/// parameters; an unknown form finds nothing and tests nothing.
pub fn run_search(search_type: &str, k: Option<u64>, base: Option<u64>, sign: Option<i64>,
    start: u64, end: u64, tables: &PrimeTables) -> (r: (Vec<PrimeResult>, u64))
    requires
        tables.wf(),
        block_fits(search_type@, start, end),
    ensures
        founds(r.0@) == block_found(search_type@, k, base, sign, start, end),
        r.1 as nat == block_tested(search_type@, k, base, sign, start, end),
{
    let k_val: u64 = match k { Some(v) => v, None => 1 };
    if str_eq(search_type, "kbn") {
        let b: u64 = match base { Some(v) => v, None => 2 };
        return search_kbn(k_val, b, sign_of(sign), start, end, tables);
    }
    if str_eq(search_type, "twin") {
        return search_twin(start, end, tables);
    }
    if str_eq(search_type, "factorial") {
        return search_factorial(start, end, tables);
    }
    if str_eq(search_type, "sophie_germain") {
        return search_sophie_germain(start, end, tables);
    }
    if str_eq(search_type, "cullen_woodall") {
        return search_cullen_woodall(start, end, tables);
    }
    if str_eq(search_type, "repunit") {
        let b: u64 = match base { Some(v) => v, None => 10 };
        return search_repunit(b, start, end, tables);
    }
    if str_eq(search_type, "primorial") {
        return search_primorial(start, end, tables);
    }
    if str_eq(search_type, "carol_kynea") {
        return search_carol_kynea(start, end, tables);
    }
    if str_eq(search_type, "gen_fermat") {
        let b: u64 = match base { Some(v) => v, None => 2 };
        return search_gen_fermat(b, start, end, tables);
    }
    if str_eq(search_type, "wagstaff") {
        return search_wagstaff(start, end, tables);
    }
    if str_eq(search_type, "palindromic") {
        let b: u64 = match base { Some(v) => v, None => 10 };
        return search_palindromic(b, start, end, tables);
    }
    if str_eq(search_type, "near_repdigit") {
        let b: u64 = match base { Some(v) => v, None => 10 };
        return search_near_repdigit(b, start, end, tables);
    }
    let primes: Vec<PrimeResult> = Vec::new();
    assert(founds(primes@) =~= Seq::<Found>::empty());
    (primes, 0)
}

// ── JSON output ─────────────────────────────────────────────────────

/// Lowercase hexadecimal digit for d < 16.
pub open spec fn hex_digit(d: int) -> char {
    if d < 10 { crate::text::digit_char(d) }
    else if d == 10 { 'a' }
    else if d == 11 { 'b' }
    else if d == 12 { 'c' }
    else if d == 13 { 'd' }
    else if d == 14 { 'e' }
    else { 'f' }
}

/// How one character is written inside a JSON string: `"` and `\` and the
/// control characters below U+0020 are escaped (short forms where JSON has
/// them, else `\u00XX` in lowercase hex), everything else is kept.
pub open spec fn escape_char(c: char) -> Seq<char> {
    if c == '"' { seq!['\\', '"'] }
    else if c == '\\' { seq!['\\', '\\'] }
    else if c == '\x08' { seq!['\\', 'b'] }
    else if c == '\t' { seq!['\\', 't'] }
    else if c == '\n' { seq!['\\', 'n'] }
    else if c == '\x0c' { seq!['\\', 'f'] }
    else if c == '\r' { seq!['\\', 'r'] }
    else if (c as u32) < 0x20 {
        seq!['\\', 'u', '0', '0', hex_digit(((c as u32) / 16) as int), hex_digit(((c as u32) % 16) as int)]
    } else {
        seq![c]
    }
}

/// The escaped characters of `s`.
pub open spec fn json_escape(s: Seq<char>) -> Seq<char>
    decreases s.len(),
{
    if s.len() == 0 { Seq::empty() } else { json_escape(s.drop_last()) + escape_char(s.last()) }
}

/// The JSON string literal holding `s`: quotes around its escaped characters.
#[verifier::opaque]
pub open spec fn json_string_of(s: Seq<char>) -> Seq<char> {
    "\""@ + json_escape(s) + "\""@
}

/// `serde_json::to_string` on a `str`. Trusted: serde_json writes a quote,
/// each character as `escape_char` gives it (its `ESCAPE` table marks
/// exactly the bytes below 0x20, `"` and `\`, and writes control bytes
/// without a short form as `\u00` and two lowercase hex digits), and a
/// quote. Writing a `str` into a byte vector cannot fail, so the error arm
/// is never taken.
#[verifier::external_body]
fn json_string(t: &str) -> (r: String)
    ensures
        r@ == json_string_of(t@),
{
    match serde_json::to_string(t) {
        Ok(j) => j,
        Err(_) => String::new(),
    }
}

/// Append `t` to `out` as a JSON string literal.
pub(crate) fn push_json_string(out: &mut String, t: &str)
    ensures
        final(out)@ == old(out)@ + json_string_of(t@),
{
    let j = json_string(t);
    push_str(out, j.as_str());
}

/// One found prime as a JSON object (keys in alphabetical order).
pub open spec fn entry_json(f: Found) -> Seq<char> {
    "{\"digits\":"@ + decimal(f.2) + ",\"expression\":"@ + json_string_of(f.0) + ",\"form\":"@
        + json_string_of(f.1) + ",\"proof_method\":"@ + json_string_of("miller_rabin_12_browser_wasm"@) + "}"@
}

/// The entries, separated by commas.
pub open spec fn entries_json(fs: Seq<Found>) -> Seq<char>
    decreases fs.len(),
{
    if fs.len() == 0 {
        Seq::empty()
    } else if fs.len() == 1 {
        entry_json(fs[0])
    } else {
        entries_json(fs.drop_last()) + ","@ + entry_json(fs.last())
    }
}

/// The JSON array of found primes.
pub open spec fn primes_json(fs: Seq<Found>) -> Seq<char> {
    "["@ + entries_json(fs) + "]"@
}

/// The JSON result of a block: `{"primes":[...],"tested":N}`.
pub open spec fn block_json(fs: Seq<Found>, tested: nat) -> Seq<char> {
    "{\"primes\":"@ + primes_json(fs) + ",\"tested\":"@ + decimal(tested) + "}"@
}

/// Write the found primes as a JSON array.
pub fn write_primes_json(results: &Vec<PrimeResult>) -> (s: String)
    ensures
        s@ == primes_json(founds(results@)),
{
    let ghost fs = founds(results@);
    let mut s = String::new();
    push_str(&mut s, "[");
    let mut i: usize = 0;
    assert(fs.take(0) =~= Seq::<Found>::empty());
    assert(s@ =~= "["@ + entries_json(fs.take(0)));
    while i < results.len()
        invariant
            i <= results@.len(),
            fs == founds(results@),
            fs.len() == results@.len(),
            s@ == "["@ + entries_json(fs.take(i as int)),
        decreases results@.len() - i,
    {
        let ghost pre = s@;
        let r = &results[i];
        assert(fs[i as int] == r@);
        if i > 0 {
            push_str(&mut s, ",");
        }
        push_str(&mut s, "{\"digits\":");
        push_decimal(&mut s, r.digits as u64);
        push_str(&mut s, ",\"expression\":");
        push_json_string(&mut s, r.expression.as_str());
        push_str(&mut s, ",\"form\":");
        push_json_string(&mut s, r.form.as_str());
        push_str(&mut s, ",\"proof_method\":");
        push_json_string(&mut s, "miller_rabin_12_browser_wasm");
        push_str(&mut s, "}");
        proof {
            let t = fs.take(i + 1);
            assert(t.drop_last() =~= fs.take(i as int));
            if i == 0 {
                assert(s@ =~= "["@ + entry_json(fs[0]));
                assert(entries_json(t) == entry_json(t[0]));
            } else {
                assert(s@ =~= "["@ + (entries_json(fs.take(i as int)) + ","@ + entry_json(fs[i as int])));
            }
        }
        i = i + 1;
    }
    push_str(&mut s, "]");
    assert(fs.take(results@.len() as int) =~= fs);
    s
}

/// Frame a block result as JSON.
fn write_block_json(primes: &String, tested: u64) -> (s: String)
    ensures
        s@ == "{\"primes\":"@ + primes@ + ",\"tested\":"@ + decimal(tested as nat) + "}"@,
{
    let mut s = String::new();
    push_str(&mut s, "{\"primes\":");
    push_str(&mut s, primes.as_str());
    push_str(&mut s, ",\"tested\":");
    push_decimal(&mut s, tested);
    push_str(&mut s, "}");
    assert(s@ =~= "{\"primes\":"@ + primes@ + ",\"tested\":"@ + decimal(tested as nat) + "}"@);
    s
}

/// Search a block with the form parameters already read, and return the JSON
/// result `{"primes":[{"digits","expression","form","proof_method"}],"tested":N}`.
pub fn search_block_with(search_type: &str, k: Option<u64>, base: Option<u64>, sign: Option<i64>,
    block_start: u64, block_end: u64) -> (s: String)
    requires
        block_fits(search_type@, block_start, block_end),
    ensures
        s@ == block_json(block_found(search_type@, k, base, sign, block_start, block_end),
            block_tested(search_type@, k, base, sign, block_start, block_end)),
{
    let tables = PrimeTables::new();
    let (results, tested) = run_search(search_type, k, base, sign, block_start, block_end, &tables);
    let primes = write_primes_json(&results);
    write_block_json(&primes, tested)
}

/// Search a block of candidates and return the JSON result.
///
/// `search_type` names one of the twelve forms; `params_json` is a JSON
/// object with the form's parameters (`k`, `base`, `sign`), each optional.
pub fn search_block(search_type: &str, params_json: &str, block_start: u64, block_end: u64) -> (s: String)
    requires
        block_fits(search_type@, block_start, block_end),
    ensures
        s@ == block_json(
            block_found(search_type@, json_u64_field_of(params_json@, "k"@),
                json_u64_field_of(params_json@, "base"@), json_i64_field_of(params_json@, "sign"@),
                block_start, block_end),
            block_tested(search_type@, json_u64_field_of(params_json@, "k"@),
                json_u64_field_of(params_json@, "base"@), json_i64_field_of(params_json@, "sign"@),
                block_start, block_end)),
{
    let k = json_u64_field(params_json, "k");
    let base = json_u64_field(params_json, "base");
    let sign = json_i64_field(params_json, "sign");
    search_block_with(search_type, k, base, sign, block_start, block_end)
}

// ── hashed results ──────────────────────────────────────────────────

/// The lowercase hexadecimal SHA-256 digest of the UTF-8 bytes of `s`.
pub uninterp spec fn sha256_hex_of(s: Seq<char>) -> Seq<char>;

/// `sha2::Sha256` over the UTF-8 bytes of `s`, formatted with `{:x}`.
/// Trusted: the digest text is named `sha256_hex_of(s)`; nothing more is
/// claimed of it.
#[verifier::external_body]
pub(crate) fn sha256_hex(s: &str) -> (r: String)
    ensures
        r@ == sha256_hex_of(s@),
{
    let mut hasher = sha2::Sha256::new();
    hasher.update(s.as_bytes());
    format!("{:x}", hasher.finalize())
}

/// The canonical text hashed for a block result:
/// `type:start:end:tested:primes_json`.
pub open spec fn canonical_text(search_type: Seq<char>, start: u64, end: u64, tested: nat,
    primes: Seq<char>) -> Seq<char>
{
    search_type + ":"@ + decimal(start as nat) + ":"@ + decimal(end as nat) + ":"@ + decimal(tested)
        + ":"@ + primes
}

/// The JSON result with its hash: `{"primes":[...],"result_hash":"H","tested":N}`.
pub open spec fn hashed_json(primes: Seq<char>, hash: Seq<char>, tested: nat) -> Seq<char> {
    "{\"primes\":"@ + primes + ",\"result_hash\":"@ + json_string_of(hash) + ",\"tested\":"@
        + decimal(tested) + "}"@
}

/// The canonical text of a block result.
pub fn canonical_result(search_type: &str, block_start: u64, block_end: u64, tested: u64, primes: &str)
    -> (s: String)
    ensures
        s@ == canonical_text(search_type@, block_start, block_end, tested as nat, primes@),
{
    let mut s = String::new();
    push_str(&mut s, search_type);
    push_str(&mut s, ":");
    push_decimal(&mut s, block_start);
    push_str(&mut s, ":");
    push_decimal(&mut s, block_end);
    push_str(&mut s, ":");
    push_decimal(&mut s, tested);
    push_str(&mut s, ":");
    push_str(&mut s, primes);
    assert(s@ =~= canonical_text(search_type@, block_start, block_end, tested as nat, primes@));
    s
}

/// Frame a block result and its hash as JSON.
pub fn hashed_output(primes: &str, hash: &str, tested: u64) -> (s: String)
    ensures
        s@ == hashed_json(primes@, hash@, tested as nat),
{
    let mut s = String::new();
    push_str(&mut s, "{\"primes\":");
    push_str(&mut s, primes);
    push_str(&mut s, ",\"result_hash\":");
    push_json_string(&mut s, hash);
    push_str(&mut s, ",\"tested\":");
    push_decimal(&mut s, tested);
    push_str(&mut s, "}");
    assert(s@ =~= hashed_json(primes@, hash@, tested as nat));
    s
}

/// Search a block and add a SHA-256 hash of the canonical result
/// `type:start:end:tested:primes_json`, for tamper detection.
pub fn search_block_hashed(search_type: &str, params_json: &str, block_start: u64, block_end: u64)
    -> (s: String)
    requires
        block_fits(search_type@, block_start, block_end),
    ensures
        ({
            let k = json_u64_field_of(params_json@, "k"@);
            let base = json_u64_field_of(params_json@, "base"@);
            let sign = json_i64_field_of(params_json@, "sign"@);
            let fs = block_found(search_type@, k, base, sign, block_start, block_end);
            let t = block_tested(search_type@, k, base, sign, block_start, block_end);
            let primes = primes_json(fs);
            s@ == hashed_json(primes,
                sha256_hex_of(canonical_text(search_type@, block_start, block_end, t, primes)), t)
        }),
{
    let k = json_u64_field(params_json, "k");
    let base = json_u64_field(params_json, "base");
    let sign = json_i64_field(params_json, "sign");
    let tables = PrimeTables::new();
    let (results, tested) = run_search(search_type, k, base, sign, block_start, block_end, &tables);
    let primes = write_primes_json(&results);
    let canonical = canonical_result(search_type, block_start, block_end, tested, primes.as_str());
    let hash = sha256_hex(canonical.as_str());
    hashed_output(primes.as_str(), hash.as_str(), tested)
}

} // verus!
