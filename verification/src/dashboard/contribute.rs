//! Decisions of the browser contribution endpoints: what a work claim asks
//! the scheduler for, the sanity checks that a submitted result must pass,
//! and the result hash that the server expects of it.
use vstd::prelude::*;
use crate::text::{decimal, signed_decimal, push_signed, push_str, push_decimal, str_eq};
use crate::search::block::{json_string_of, push_json_string, sha256_hex, sha256_hex_of, canonical_text,
    primes_json, entry_json, entries_json};
use crate::search::forms::Found;

verus! {

// ── work claims ─────────────────────────────────────────────────────

/// What a browser work claim asks the scheduler for.
pub struct WorkClaim {
    /// The operating-system capability reported for the browser "node".
    pub os: String,
    /// Forms the client cannot run.
    pub excluded_forms: Vec<String>,
    /// Number of blocks to claim at once.
    pub batch_size: i32,
}

/// The engine asked for is the WebAssembly one.
pub open spec fn wants_wasm(engine: Option<Seq<char>>) -> bool {
    engine == Some("wasm"@)
}

/// The requested batch size (1 when absent), clamped to [1, 3].
pub open spec fn claim_batch_size(batch_size: Option<i32>) -> i32 {
    let b = match batch_size {
        Some(b) => b,
        None => 1i32,
    };
    if b < 1 { 1 } else if b > 3 { 3 } else { b }
}

/// The characters of an optional string.
pub open spec fn opt_chars(o: Option<&str>) -> Option<Seq<char>> {
    match o {
        Some(s) => Some(s@),
        None => None,
    }
}

/// The claim for a browser worker: the WebAssembly engine reports the OS
/// `browser-wasm` and runs every form; the JavaScript engine reports
/// `browser` and cannot run factorial, palindromic or near-repdigit blocks.
/// Browser batches hold one to three blocks.
pub fn work_claim(engine: Option<&str>, batch_size: Option<i32>) -> (c: WorkClaim)
    ensures
        c.os@ == (if wants_wasm(opt_chars(engine)) { "browser-wasm"@ } else { "browser"@ }),
        wants_wasm(opt_chars(engine)) ==> c.excluded_forms@.len() == 0,
        !wants_wasm(opt_chars(engine)) ==> c.excluded_forms@.len() == 3
            && c.excluded_forms@[0]@ == "factorial"@
            && c.excluded_forms@[1]@ == "palindromic"@
            && c.excluded_forms@[2]@ == "near_repdigit"@,
        c.batch_size == claim_batch_size(batch_size),
{
    let is_wasm = match engine {
        Some(e) => str_eq(e, "wasm"),
        None => false,
    };
    proof {
        if is_wasm {
            assert(opt_chars(engine) == Some("wasm"@));
        }
    }
    let os = if is_wasm { String::from_str("browser-wasm") } else { String::from_str("browser") };
    let mut excluded_forms: Vec<String> = Vec::new();
    if !is_wasm {
        excluded_forms.push(String::from_str("factorial"));
        excluded_forms.push(String::from_str("palindromic"));
        excluded_forms.push(String::from_str("near_repdigit"));
    }
    let b = match batch_size {
        Some(b) => b,
        None => 1,
    };
    let batch_size = if b < 1 { 1 } else if b > 3 { 3 } else { b };
    WorkClaim { os, excluded_forms, batch_size }
}

// ── result sanity checks ────────────────────────────────────────────

/// A prime reported with a browser result.
pub struct ContributedPrime {
    pub digits: u64,
    pub expression: String,
    pub form: String,
    pub proof_method: String,
}

/// Why a submitted block result is refused.
#[derive(Debug, Clone, Copy, PartialEq, Eq, Structural)]
pub enum ContributionError {
    /// `tested` is negative or larger than the block.
    TestedOutOfRange,
    /// `found` is not the number of reported primes.
    FoundMismatch,
    /// More primes than any block can hold.
    TooManyPrimes,
    /// A prime's digit count is outside [1, 1 000 000].
    InvalidDigits,
    /// The duration is negative or longer than a day.
    InvalidDuration,
}

/// The error text returned for each refusal.
pub open spec fn error_message(e: ContributionError) -> Seq<char> {
    match e {
        ContributionError::TestedOutOfRange => "tested count out of range"@,
        ContributionError::FoundMismatch => "found count doesn't match primes array"@,
        ContributionError::TooManyPrimes => "too many primes reported"@,
        ContributionError::InvalidDigits => "invalid prime digit count"@,
        ContributionError::InvalidDuration => "invalid duration"@,
    }
}

impl ContributionError {
    /// The error text returned to the client.
    pub fn message(&self) -> (s: &'static str)
        ensures
            s@ == error_message(*self),
    {
        match self {
            ContributionError::TestedOutOfRange => "tested count out of range",
            ContributionError::FoundMismatch => "found count doesn't match primes array",
            ContributionError::TooManyPrimes => "too many primes reported",
            ContributionError::InvalidDigits => "invalid prime digit count",
            ContributionError::InvalidDuration => "invalid duration",
        }
    }
}

/// Most primes that one result may report.
pub const MAX_REPORTED_PRIMES: usize = 200;

/// Largest digit count accepted for a reported prime.
pub const MAX_PRIME_DIGITS: u64 = 1_000_000;

/// Longest accepted block duration: one day, in milliseconds.
pub const MAX_DURATION_MS: i64 = 86_400_000;

/// The block bounds checked against: the stored ones, or [0, i64::MAX] when
/// the block is unknown.
pub open spec fn checked_range(block_range: Option<(i64, i64)>) -> (i64, i64) {
    match block_range {
        Some(r) => r,
        None => (0i64, i64::MAX),
    }
}

/// Some reported prime has a digit count outside [1, MAX_PRIME_DIGITS].
pub open spec fn bad_digits(primes: Seq<ContributedPrime>) -> bool {
    exists|i: int| 0 <= i < primes.len() && ((#[trigger] primes[i]).digits < 1 || primes[i].digits > MAX_PRIME_DIGITS)
}

/// The sanity checks of a submitted result, in order: `tested` within
/// [0, max(end − start, 0)]; `found` (as a machine word) equal to the number
/// of primes; at most MAX_REPORTED_PRIMES primes; every digit count in
/// [1, MAX_PRIME_DIGITS]; a duration, when given, in [0, MAX_DURATION_MS].
pub open spec fn contribution_check(tested: i64, found: i64, primes: Seq<ContributedPrime>,
    duration_ms: Option<i64>, block_range: Option<(i64, i64)>) -> Result<(), ContributionError>
{
    let (start, end) = checked_range(block_range);
    let size = if end - start > 0 { end - start } else { 0 };
    if tested < 0 || tested > size {
        Err(ContributionError::TestedOutOfRange)
    } else if (found as usize) as int != primes.len() {
        Err(ContributionError::FoundMismatch)
    } else if primes.len() > MAX_REPORTED_PRIMES {
        Err(ContributionError::TooManyPrimes)
    } else if bad_digits(primes) {
        Err(ContributionError::InvalidDigits)
    } else if duration_ms matches Some(ms) && (ms < 0 || ms > MAX_DURATION_MS) {
        Err(ContributionError::InvalidDuration)
    } else {
        Ok(())
    }
}

/// Check a submitted block result before it is recorded (see
/// `contribution_check`).
pub fn check_contribution(tested: i64, found: i64, primes: &[ContributedPrime], duration_ms: Option<i64>,
    block_range: Option<(i64, i64)>) -> (r: Result<(), ContributionError>)
    requires
        i64::MIN <= checked_range(block_range).1 - checked_range(block_range).0 <= i64::MAX,
    ensures
        r == contribution_check(tested, found, primes@, duration_ms, block_range),
{
    let (start, end) = match block_range {
        Some(r) => r,
        None => (0i64, i64::MAX),
    };
    let diff = end - start;
    let size = if diff > 0 { diff } else { 0 };
    if tested < 0 || tested > size {
        return Err(ContributionError::TestedOutOfRange);
    }
    if #[verifier::truncate] (found as usize) != primes.len() {
        return Err(ContributionError::FoundMismatch);
    }
    if primes.len() > MAX_REPORTED_PRIMES {
        return Err(ContributionError::TooManyPrimes);
    }
    let mut i: usize = 0;
    while i < primes.len()
        invariant
            i <= primes@.len(),
            checked_range(block_range) == (start, end),
            size == (if end - start > 0 { end - start } else { 0 }),
            0 <= tested <= size,
            (found as usize) as int == primes@.len(),
            primes@.len() <= MAX_REPORTED_PRIMES,
            forall|j: int| 0 <= j < i ==> !(#[trigger] primes@[j].digits < 1 || primes@[j].digits > MAX_PRIME_DIGITS),
        decreases primes@.len() - i,
    {
        if primes[i].digits < 1 || primes[i].digits > MAX_PRIME_DIGITS {
            proof {
                assert(primes@[i as int].digits < 1 || primes@[i as int].digits > MAX_PRIME_DIGITS);
            }
            return Err(ContributionError::InvalidDigits);
        }
        i = i + 1;
    }
    if let Some(ms) = duration_ms {
        if ms < 0 || ms > MAX_DURATION_MS {
            return Err(ContributionError::InvalidDuration);
        }
    }
    Ok(())
}

// ── admission and credit ─────────────────────────────────────────────────

/// What happens to a submitted result before its checks.
#[derive(Debug, Clone, Copy, PartialEq, Eq, Structural)]
pub enum ResultAdmission {
    /// The block is claimed by another operator: refused with 403.
    NotClaimer,
    /// The block is already completed: answered `already_completed`.
    AlreadyCompleted,
    /// Go on with the sanity checks.
    Proceed,
}

/// Admission of a result: a block claimed by another operator is refused, then a
/// completed block is answered as such; otherwise the result is processed.
pub open spec fn result_admission_spec(claimer: Option<u128>, operator_id: u128,
    block_status: Option<Seq<char>>) -> ResultAdmission
{
    if claimer is Some && claimer->0 != operator_id {
        ResultAdmission::NotClaimer
    } else if block_status == Some("completed"@) {
        ResultAdmission::AlreadyCompleted
    } else {
        ResultAdmission::Proceed
    }
}

/// Decide the admission of a result from `operator_id` (operator ids as 128-bit
/// UUID values), given the block's claiming operator and its status, each
/// absent when unknown.
pub fn result_admission(claimer: Option<u128>, operator_id: u128, block_status: Option<&str>)
    -> (r: ResultAdmission)
    ensures
        r == result_admission_spec(claimer, operator_id, opt_chars(block_status)),
{
    if let Some(c) = claimer {
        if c != operator_id {
            return ResultAdmission::NotClaimer;
        }
    }
    match block_status {
        Some(st) => {
            if str_eq(st, "completed") {
                ResultAdmission::AlreadyCompleted
            } else {
                ResultAdmission::Proceed
            }
        },
        None => ResultAdmission::Proceed,
    }
}

impl ResultAdmission {
    /// The HTTP status of the admission answer: 403 for another operator's
    /// block, 200 otherwise.
    pub fn status_code(&self) -> (r: u16)
        ensures
            r == (if *self == ResultAdmission::NotClaimer { 403u16 } else { 200u16 }),
    {
        match self {
            ResultAdmission::NotClaimer => 403,
            _ => 200,
        }
    }

    /// The error text of a refusal, or the status word of the answer.
    pub fn message(&self) -> (s: &'static str)
        ensures
            s@ == (match *self {
                ResultAdmission::NotClaimer => "Block not claimed by this operator"@,
                ResultAdmission::AlreadyCompleted => "already_completed"@,
                ResultAdmission::Proceed => "ok"@,
            }),
    {
        match self {
            ResultAdmission::NotClaimer => "Block not claimed by this operator",
            ResultAdmission::AlreadyCompleted => "already_completed",
            ResultAdmission::Proceed => "ok",
        }
    }
}

/// Credits for one discovered prime.
pub const PRIME_CREDIT: i64 = 1000;

/// Block completion credit: half the tested count (tested taken as at least
/// 1), at least 1; none when a hash was sent and did not match.
pub open spec fn completion_credit_spec(tested: i64, hash_sent: bool, hash_matched: bool) -> Option<i64> {
    if hash_sent && !hash_matched {
        None
    } else {
        let t: int = if tested < 1 { 1 } else { tested as int };
        let half: int = t / 2;
        Some((if half < 1 { 1 } else { half }) as i64)
    }
}

/// The completion credit granted for a browser block.
pub fn completion_credit(tested: i64, hash_sent: bool, hash_matched: bool) -> (r: Option<i64>)
    ensures
        r == completion_credit_spec(tested, hash_sent, hash_matched),
        r matches Some(c) ==> 1 <= c <= i64::MAX / 2,
{
    if hash_sent && !hash_matched {
        return None;
    }
    let t: i64 = if tested < 1 { 1 } else { tested };
    let half: i64 = t / 2;
    Some(if half < 1 { 1 } else { half })
}

/// Credits reported for a result: `PRIME_CREDIT` per recorded prime plus
/// the completion credit, when granted.
pub fn credits_earned(recorded_primes: u32, completion: Option<i64>) -> (r: i64)
    requires
        completion matches Some(c) ==> 0 <= c <= i64::MAX / 2,
    ensures
        r == recorded_primes as int * PRIME_CREDIT + (match completion {
            Some(c) => c as int,
            None => 0int,
        }),
{
    let primes: i64 = recorded_primes as i64 * PRIME_CREDIT;
    match completion {
        Some(c) => primes + c,
        None => primes,
    }
}

// ── result hash ─────────────────────────────────────────────────────

/// One reported prime as serialized JSON (fields in declaration order).
pub open spec fn contributed_entry(p: ContributedPrime) -> Seq<char> {
    "{\"digits\":"@ + decimal(p.digits as nat) + ",\"expression\":"@ + json_string_of(p.expression@)
        + ",\"form\":"@ + json_string_of(p.form@) + ",\"proof_method\":"@
        + json_string_of(p.proof_method@) + "}"@
}

/// The entries, separated by commas.
pub open spec fn contributed_entries(ps: Seq<ContributedPrime>) -> Seq<char>
    decreases ps.len(),
{
    if ps.len() == 0 {
        Seq::empty()
    } else if ps.len() == 1 {
        contributed_entry(ps[0])
    } else {
        contributed_entries(ps.drop_last()) + ","@ + contributed_entry(ps.last())
    }
}

/// The canonical text that the server hashes for a submitted result:
/// `type:start:end:tested:[primes]`.
pub open spec fn contribution_canonical(search_type: Seq<char>, block_start: i64, block_end: i64, tested: i64,
    primes: Seq<ContributedPrime>) -> Seq<char>
{
    search_type + ":"@ + signed_decimal(block_start as int) + ":"@ + signed_decimal(block_end as int) + ":"@
        + signed_decimal(tested as int) + ":"@ + "["@ + contributed_entries(primes) + "]"@
}

fn push_entry(s: &mut String, p: &ContributedPrime)
    ensures
        final(s)@ == old(s)@ + contributed_entry(*p),
{
    push_str(s, "{\"digits\":");
    push_decimal(s, p.digits);
    push_str(s, ",\"expression\":");
    push_json_string(s, p.expression.as_str());
    push_str(s, ",\"form\":");
    push_json_string(s, p.form.as_str());
    push_str(s, ",\"proof_method\":");
    push_json_string(s, p.proof_method.as_str());
    push_str(s, "}");
    assert(s@ =~= old(s)@ + contributed_entry(*p));
}

/// The canonical text of a submitted result (see `contribution_canonical`).
pub fn contribution_canonical_text(search_type: &str, block_start: i64, block_end: i64, tested: i64,
    primes: &[ContributedPrime]) -> (s: String)
    ensures
        s@ == contribution_canonical(search_type@, block_start, block_end, tested, primes@),
{
    let mut s = String::new();
    push_str(&mut s, search_type);
    push_str(&mut s, ":");
    push_signed(&mut s, block_start);
    push_str(&mut s, ":");
    push_signed(&mut s, block_end);
    push_str(&mut s, ":");
    push_signed(&mut s, tested);
    push_str(&mut s, ":");
    push_str(&mut s, "[");
    let ghost head = s@;
    let ghost ps = primes@;
    let mut i: usize = 0;
    assert(ps.take(0) =~= Seq::<ContributedPrime>::empty());
    assert(s@ =~= head + contributed_entries(ps.take(0)));
    while i < primes.len()
        invariant
            i <= ps.len(),
            ps == primes@,
            s@ == head + contributed_entries(ps.take(i as int)),
        decreases ps.len() - i,
    {
        let p = &primes[i];
        if i > 0 {
            push_str(&mut s, ",");
        }
        push_entry(&mut s, p);
        proof {
            let t = ps.take(i + 1);
            assert(t.drop_last() =~= ps.take(i as int));
            assert(t.last() == ps[i as int]);
            if i == 0 {
                assert(s@ =~= head + contributed_entry(ps[0]));
                assert(contributed_entries(t) == contributed_entry(t[0]));
            } else {
                assert(s@ =~= head + (contributed_entries(ps.take(i as int)) + ","@ + contributed_entry(ps[i as int])));
            }
        }
        i = i + 1;
    }
    push_str(&mut s, "]");
    assert(ps.take(ps.len() as int) =~= ps);
    assert(s@ =~= contribution_canonical(search_type@, block_start, block_end, tested, primes@));
    s
}

/// The hash the server expects of a submitted result: the SHA-256 hex digest
/// of its canonical text.
pub fn expected_result_hash(search_type: &str, block_start: i64, block_end: i64, tested: i64,
    primes: &[ContributedPrime]) -> (h: String)
    ensures
        h@ == sha256_hex_of(contribution_canonical(search_type@, block_start, block_end, tested, primes@)),
{
    let text = contribution_canonical_text(search_type, block_start, block_end, tested, primes);
    sha256_hex(text.as_str())
}

/// Whether the hash a client sent is the one the server expects.
pub fn result_hash_verified(claimed: &str, search_type: &str, block_start: i64, block_end: i64, tested: i64,
    primes: &[ContributedPrime]) -> (r: bool)
    ensures
        r == (claimed@ == sha256_hex_of(contribution_canonical(search_type@, block_start, block_end, tested,
            primes@))),
{
    let expected = expected_result_hash(search_type, block_start, block_end, tested, primes);
    str_eq(claimed, expected.as_str())
}

/// A reported prime carries a worker's found prime with the worker's proof
/// method.
pub open spec fn reports(p: ContributedPrime, f: Found) -> bool {
    &&& p.digits as nat == f.2
    &&& p.expression@ == f.0
    &&& p.form@ == f.1
    &&& p.proof_method@ == "miller_rabin_12_browser_wasm"@
}

proof fn lemma_entries_agree(ps: Seq<ContributedPrime>, fs: Seq<Found>)
    requires
        ps.len() == fs.len(),
        forall|i: int| 0 <= i < ps.len() ==> reports(#[trigger] ps[i], fs[i]),
    ensures
        contributed_entries(ps) == entries_json(fs),
    decreases ps.len(),
{
    if ps.len() > 0 {
        assert(reports(ps.last(), fs.last()));
        assert(contributed_entry(ps.last()) =~= entry_json(fs.last()));
        if ps.len() == 1 {
            assert(reports(ps[0], fs[0]));
        } else {
            lemma_entries_agree(ps.drop_last(), fs.drop_last());
        }
    }
}

/// The server recomputes exactly the hash that a browser worker attached to
/// a block result: for a block with nonnegative bounds and count, the
/// canonical text of the reported primes (each carrying a found prime and
/// the worker's proof method) is the worker's canonical text.
pub proof fn lemma_server_hash_matches_worker(search_type: Seq<char>, start: u64, end: u64, tested: u64,
    ps: Seq<ContributedPrime>, fs: Seq<Found>)
    requires
        start <= i64::MAX,
        end <= i64::MAX,
        tested <= i64::MAX,
        ps.len() == fs.len(),
        forall|i: int| 0 <= i < ps.len() ==> reports(#[trigger] ps[i], fs[i]),
    ensures
        contribution_canonical(search_type, start as i64, end as i64, tested as i64, ps)
            == canonical_text(search_type, start, end, tested as nat, primes_json(fs)),
        sha256_hex_of(contribution_canonical(search_type, start as i64, end as i64, tested as i64, ps))
            == sha256_hex_of(canonical_text(search_type, start, end, tested as nat, primes_json(fs))),
{
    lemma_entries_agree(ps, fs);
    assert(contribution_canonical(search_type, start as i64, end as i64, tested as i64, ps)
        =~= canonical_text(search_type, start, end, tested as nat, primes_json(fs)));
}

} // verus!
