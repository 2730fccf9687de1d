//! Gerbicz error checking for iterated modular operations.
//!
//! Long runs of modular squarings (Proth, LLR) are checkpointed every L
//! iterations (L ≈ √total). Each block is verified by recomputing it from the
//! last checkpoint; on a mismatch the computation rolls back to the last
//! verified checkpoint and is replayed, and a second mismatch during the
//! replay is reported as a persistent error.
//!
//! The step of the iteration is a function `step(state, modulus) -> state`.
//! Contracts speak of the runs of that function: `reaches(f, m, a, n, b)`
//! says that n steps of `f` can lead from a value equal to `a` to one equal
//! to `b`.
use vstd::prelude::*;
use crate::bignum::BigNat;

verus! {

/// Result of a Gerbicz block verification.
#[derive(Debug, Clone, Copy, PartialEq, Eq, Structural)]
pub enum CheckResult {
    /// The block verified: the computation is correct.
    Verified,
    /// An error was detected and corrected by rolling back to iteration
    /// `rollback_to` and replaying.
    ErrorCorrected { rollback_to: u64 },
    /// The replay mismatched as well: the computation should be aborted.
    PersistentError,
}

/// `chain` is a run of `n` steps of `f` (modulus `m`) from a value equal to
/// `a` to one equal to `b`.
pub open spec fn run_from<F: Fn(&BigNat, &BigNat) -> BigNat>(f: F, m: &BigNat, chain: Seq<BigNat>,
    a: nat, n: nat, b: nat) -> bool
{
    &&& chain.len() == n + 1
    &&& chain[0]@ == a
    &&& chain[n as int]@ == b
    &&& forall|k: int| 0 <= k < n ==> #[trigger] call_ensures(f, (&chain[k], m), chain[k + 1])
}

/// Some run of n steps of `f` leads from `a` to `b`.
pub open spec fn reaches<F: Fn(&BigNat, &BigNat) -> BigNat>(f: F, m: &BigNat, a: nat, n: nat, b: nat) -> bool {
    exists|chain: Seq<BigNat>| #[trigger] run_from(f, m, chain, a, n, b)
}

/// The integer square root ⌊√n⌋.
pub fn isqrt(n: u64) -> (r: u64)
    ensures
        r * r <= n < (r + 1) * (r + 1),
{
    let mut lo: u64 = 0;
    let mut hi: u64 = 0x1_0000_0000;
    while hi - lo > 1
        invariant
            lo < hi <= 0x1_0000_0000,
            lo * lo <= n,
            n < hi * hi,
        decreases hi - lo,
    {
        let mid = lo + (hi - lo) / 2;
        assert(mid * mid <= 0x1_0000_0000 * 0x1_0000_0000) by (nonlinear_arith)
            requires mid <= 0x1_0000_0000;
        let sq: u128 = (mid as u128) * (mid as u128);
        if sq <= n as u128 {
            lo = mid;
        } else {
            hi = mid;
        }
    }
    lo
}

/// `l` is the integer square root of `n`.
pub open spec fn is_isqrt(l: nat, n: nat) -> bool {
    l * l <= n < (l + 1) * (l + 1)
}

/// The check interval for a run of `total` iterations: ⌊√total⌋ clamped to
/// [100, 100000] above 10000 iterations, and total + 1 (no checks) otherwise.
pub open spec fn interval_for(total: nat) -> nat {
    if total > 10000 {
        let l = choose|l: nat| #[trigger] is_isqrt(l, total);
        if l < 100 { 100 } else if l > 100000 { 100000 } else { l }
    } else {
        total + 1
    }
}

/// Gerbicz error checking state: the last checkpoint and the last verified
/// checkpoint, with their iteration numbers.
pub struct GerbiczChecker {
    check_interval: u64,
    last_checkpoint: BigNat,
    last_checkpoint_iter: u64,
    verified_checkpoint: BigNat,
    verified_checkpoint_iter: u64,
    total_iters: u64,
}

impl GerbiczChecker {
    /// Iterations between checks.
    pub closed spec fn interval(&self) -> nat {
        self.check_interval as nat
    }

    /// Total iterations of the computation.
    pub closed spec fn total(&self) -> nat {
        self.total_iters as nat
    }

    /// The state at the last checkpoint.
    pub closed spec fn last_state(&self) -> nat {
        self.last_checkpoint@
    }

    /// The iteration of the last checkpoint.
    pub closed spec fn last_iter(&self) -> nat {
        self.last_checkpoint_iter as nat
    }

    /// The state at the last verified checkpoint.
    pub closed spec fn verified_value(&self) -> nat {
        self.verified_checkpoint@
    }

    /// The iteration of the last verified checkpoint.
    pub closed spec fn verified_iter(&self) -> nat {
        self.verified_checkpoint_iter as nat
    }

    /// Create a checker for `total_iters` iterations starting from
    /// `initial_state`. Up to 10000 iterations no check ever fires.
    pub fn new(initial_state: &BigNat, total_iters: u64) -> (c: GerbiczChecker)
        ensures
            c.interval() == interval_for(total_iters as nat),
            c.interval() >= 1,
            c.total() == total_iters,
            c.last_state() == initial_state@,
            c.last_iter() == 0,
            c.verified_value() == initial_state@,
            c.verified_iter() == 0,
    {
        let check_interval: u64 = if total_iters > 10_000 {
            let l = isqrt(total_iters);
            proof {
                assert(is_isqrt(l as nat, total_iters as nat));
                let w = choose|w: nat| #[trigger] is_isqrt(w, total_iters as nat);
                lemma_isqrt_unique(w, l as nat, total_iters as nat);
            }
            if l < 100 { 100 } else if l > 100_000 { 100_000 } else { l }
        } else {
            total_iters + 1
        };
        GerbiczChecker {
            check_interval,
            last_checkpoint: initial_state.dup(),
            last_checkpoint_iter: 0,
            verified_checkpoint: initial_state.dup(),
            verified_checkpoint_iter: 0,
            total_iters,
        }
    }

    /// Whether a checkpoint/verify is due after (0-based) iteration `iter`:
    /// checking is enabled and iter + 1 is a multiple of the interval.
    pub fn should_check(&self, iter: u64) -> (r: bool)
        requires
            self.interval() >= 1,
        ensures
            r == (self.interval() <= self.total() && (iter + 1) % (self.interval() as int) == 0),
    {
        self.check_interval <= self.total_iters
            && ((iter as u128) + 1) % (self.check_interval as u128) == 0
    }

    /// The check interval.
    pub fn check_interval(&self) -> (r: u64)
        ensures
            r == self.interval(),
    {
        self.check_interval
    }

    /// The last verified checkpoint and its iteration.
    pub fn verified_state(&self) -> (r: (&BigNat, u64))
        ensures
            r.0@ == self.verified_value(),
            r.1 == self.verified_iter(),
    {
        (&self.verified_checkpoint, self.verified_checkpoint_iter)
    }
}

/// The square root is unique.
proof fn lemma_isqrt_unique(a: nat, b: nat, n: nat)
    requires
        a * a <= n < (a + 1) * (a + 1),
        b * b <= n < (b + 1) * (b + 1),
    ensures
        a == b,
{
    if a < b {
        assert((a + 1) * (a + 1) <= b * b) by (nonlinear_arith) requires a + 1 <= b;
    } else if b < a {
        assert((b + 1) * (b + 1) <= a * a) by (nonlinear_arith) requires b + 1 <= a;
    }
}


/// The number of replay steps from the verified checkpoint of `c` through
/// iteration `iter` (none when the checkpoint lies beyond it).
pub open spec fn replay_len(c: GerbiczChecker, iter: nat) -> nat {
    if c.verified_iter() <= iter + 1 { (iter + 1 - c.verified_iter()) as nat } else { 0 }
}

/// After a replay, the verified checkpoint is the one rolled back to, or a
/// later multiple of the interval, at most `upto`, reached by the replay.
pub open spec fn replay_checkpoint<F: Fn(&BigNat, &BigNat) -> BigNat>(f: F, m: &BigNat,
    old: GerbiczChecker, new: GerbiczChecker, upto: nat) -> bool
{
    ||| new.verified_iter() == old.verified_iter() && new.verified_value() == old.verified_value()
    ||| old.verified_iter() < new.verified_iter() <= upto
        && new.verified_iter() % old.interval() == 0
        && reaches(f, m, old.verified_value(), (new.verified_iter() - old.verified_iter()) as nat,
            new.verified_value())
}

/// What `verify_block` does, for step `f` and modulus `m`, from checker `old`
/// to checker `new`, given the state `current` after iteration `iter`.
///
/// - `Verified`: recomputing the block from the last checkpoint gave
///   `current`; the last checkpoint becomes the verified one and `current`
///   the new last checkpoint (at iter + 1).
/// - `ErrorCorrected`: the recomputation gave another value; the state is
///   replayed from the verified checkpoint through iteration `iter` and
///   becomes the last checkpoint; every multiple of the interval reached by
///   the replay up to `iter` was verified, so the verified checkpoint is the
///   last of them (or the one rolled back to, when there is none).
/// - `PersistentError`: during the replay, a recomputation of a sub-block
///   from the verified checkpoint disagreed with the replayed state, which is
///   returned.
pub open spec fn verify_outcome<F: Fn(&BigNat, &BigNat) -> BigNat>(f: F, m: &BigNat,
    old: GerbiczChecker, new: GerbiczChecker, current: nat, iter: nat, res: (CheckResult, BigNat)) -> bool
{
    let rb = old.verified_iter();
    let steps = (iter + 1 - old.last_iter()) as nat;
    &&& new.interval() == old.interval()
    &&& new.total() == old.total()
    &&& match res.0 {
        CheckResult::Verified => {
            &&& reaches(f, m, old.last_state(), steps, current)
            &&& res.1@ == current
            &&& new.verified_value() == old.last_state()
            &&& new.verified_iter() == old.last_iter()
            &&& new.last_state() == current
            &&& new.last_iter() == iter + 1
        },
        CheckResult::ErrorCorrected { rollback_to } => {
            &&& rollback_to == rb
            &&& exists|v: nat| #[trigger] reaches(f, m, old.last_state(), steps, v) && v != current
            &&& reaches(f, m, old.verified_value(), replay_len(old, iter), res.1@)
            &&& replay_checkpoint(f, m, old, new, iter)
            &&& forall|x: nat| new.verified_iter() < x <= iter ==> #[trigger] (x % old.interval()) != 0
            &&& new.last_state() == res.1@
            &&& new.last_iter() == iter + 1
        },
        CheckResult::PersistentError => persistent_outcome(f, m, old, new, current, iter, res.1@),
    }
}

/// The persistent-error case of `verify_outcome`: the block recomputation
/// disagreed with `current`, and a replay sub-block ending at a multiple of
/// the interval, recomputed from the (possibly updated) verified checkpoint,
/// disagreed with the replayed state `state`.
pub open spec fn persistent_outcome<F: Fn(&BigNat, &BigNat) -> BigNat>(f: F, m: &BigNat,
    old: GerbiczChecker, new: GerbiczChecker, current: nat, iter: nat, state: nat) -> bool
{
    let rb = old.verified_iter();
    let steps = (iter + 1 - old.last_iter()) as nat;
    &&& exists|v: nat| #[trigger] reaches(f, m, old.last_state(), steps, v) && v != current
    &&& new.last_state() == old.last_state()
    &&& new.last_iter() == old.last_iter()
    &&& replay_checkpoint(f, m, old, new, iter)
    &&& replay_disagrees(f, m, old, new, iter, state)
}

/// A replay sub-block of n steps, ending at a multiple of the interval after
/// the verified checkpoint of `new`, recomputed from that checkpoint, gave a
/// value other than the replayed `state`.
pub open spec fn replay_disagrees<F: Fn(&BigNat, &BigNat) -> BigNat>(f: F, m: &BigNat,
    old: GerbiczChecker, new: GerbiczChecker, iter: nat, state: nat) -> bool
{
    exists|n: nat, v: nat| {
        &&& old.verified_iter() + n <= iter
        &&& (old.verified_iter() + n) % old.interval() == 0
        &&& new.verified_iter() < old.verified_iter() + n
        &&& #[trigger] reaches(f, m, new.verified_value(), n, v)
        &&& reaches(f, m, old.verified_value(), n, state)
        &&& v != state
    }
}

/// Run `n` steps of `f` from `start`, returning the final state; the ghost
/// result is the run.
fn run_steps<F: Fn(&BigNat, &BigNat) -> BigNat>(start: &BigNat, n: u64, modulus: &BigNat, step_fn: &F)
    -> (r: (BigNat, Ghost<Seq<BigNat>>))
    requires
        forall|s: &BigNat| #[trigger] call_requires(*step_fn, (s, modulus)),
    ensures
        run_from(*step_fn, modulus, r.1@, start@, n as nat, r.0@),
        r.1@[n as int] == r.0,
{
    let mut state = start.dup();
    let ghost mut chain: Seq<BigNat> = seq![state];
    let mut k: u64 = 0;
    while k < n
        invariant
            forall|s: &BigNat| #[trigger] call_requires(*step_fn, (s, modulus)),
            k <= n,
            chain.len() == k + 1,
            chain[0]@ == start@,
            chain[k as int] == state,
            forall|q: int| 0 <= q < k ==> #[trigger] call_ensures(*step_fn, (&chain[q], modulus), chain[q + 1]),
        decreases n - k,
    {
        let next = step_fn(&state, modulus);
        proof {
            chain = chain.push(next);
        }
        state = next;
        k = k + 1;
    }
    (state, Ghost(chain))
}

impl GerbiczChecker {
    /// Verify the block ending at (0-based) iteration `iter` by recomputing
    /// it from the last checkpoint, with `step_fn(state, modulus)` performing
    /// one iteration. `current` is the state after iteration `iter`. Returns
    /// the verdict and the state to continue from (see `verify_outcome`).
    pub fn verify_block<F: Fn(&BigNat, &BigNat) -> BigNat>(&mut self, current: &BigNat, iter: u64,
        modulus: &BigNat, step_fn: F) -> (r: (CheckResult, BigNat))
        requires
            old(self).interval() >= 1,
            iter < u64::MAX,
            old(self).last_iter() <= iter + 1,
            forall|s: &BigNat| #[trigger] call_requires(step_fn, (s, modulus)),
        ensures
            verify_outcome(step_fn, modulus, *old(self), *final(self), current@, iter as nat, r),
    {
        let ghost old_self = *self;
        let steps = iter + 1 - self.last_checkpoint_iter;
        let (verify, Ghost(chain)) = run_steps(&self.last_checkpoint, steps, modulus, &step_fn);
        proof {
            assert(reaches(step_fn, modulus, old_self.last_state(), steps as nat, verify@));
        }
        if verify.equals(current) {
            self.verified_checkpoint = self.last_checkpoint.dup();
            self.verified_checkpoint_iter = self.last_checkpoint_iter;
            self.last_checkpoint = current.dup();
            self.last_checkpoint_iter = iter + 1;
            return (CheckResult::Verified, current.dup());
        }
        let rollback_iter = self.verified_checkpoint_iter;
        let mut state = self.verified_checkpoint.dup();
        let ghost mut replay: Seq<BigNat> = seq![state];
        let mut j: u64 = rollback_iter;
        while j <= iter
            invariant
                forall|s: &BigNat| #[trigger] call_requires(step_fn, (s, modulus)),
                iter < u64::MAX,
                old_self == *old(self),
                rollback_iter == old_self.verified_iter(),
                steps == iter + 1 - old_self.last_iter(),
                reaches(step_fn, modulus, old_self.last_state(), steps as nat, verify@),
                verify@ != current@,
                rollback_iter <= j,
                j <= iter + 1 || j == rollback_iter,
                self.check_interval == old_self.check_interval,
                self.interval() >= 1,
                self.total_iters == old_self.total_iters,
                self.last_checkpoint == old_self.last_checkpoint,
                self.last_checkpoint_iter == old_self.last_checkpoint_iter,
                replay.len() == j - rollback_iter + 1,
                replay[0]@ == old_self.verified_value(),
                replay[j - rollback_iter] == state,
                forall|q: int| 0 <= q < j - rollback_iter
                    ==> #[trigger] call_ensures(step_fn, (&replay[q], modulus), replay[q + 1]),
                (self.verified_checkpoint_iter == rollback_iter
                    && self.verified_checkpoint@ == old_self.verified_value())
                || (rollback_iter < self.verified_checkpoint_iter <= j
                    && self.verified_checkpoint_iter <= iter
                    && self.verified_checkpoint_iter % self.check_interval == 0
                    && self.verified_checkpoint@ == replay[self.verified_checkpoint_iter - rollback_iter]@),
                forall|x: nat| self.verified_checkpoint_iter < x <= j && x <= iter
                    ==> #[trigger] (x % (self.check_interval as nat)) != 0,
            decreases iter + 1 - j,
        {
            let next = step_fn(&state, modulus);
            proof {
                replay = replay.push(next);
            }
            state = next;
            if (j + 1) % self.check_interval == 0 && j + 1 <= iter {
                let v2_steps = j + 1 - rollback_iter;
                let ghost cur = *self;
                let (v2, Ghost(vchain)) = run_steps(&self.verified_checkpoint, v2_steps, modulus, &step_fn);
                if v2.equals(&state) {
                    self.verified_checkpoint = state.dup();
                    self.verified_checkpoint_iter = j + 1;
                } else {
                    proof {
                        let n = v2_steps as nat;
                        assert(reaches(step_fn, modulus, cur.verified_value(), n, v2@));
                        assert(run_from(step_fn, modulus, replay, old_self.verified_value(), n, state@));
                        assert(reaches(step_fn, modulus, old_self.verified_value(), n, state@));
                        lemma_checkpoint_reached(step_fn, modulus, replay, old_self, cur, iter as nat);
                        assert(rollback_iter + n == j + 1);
                        assert(reaches(step_fn, modulus, old_self.last_state(),
                            (iter + 1 - old_self.last_iter()) as nat, verify@));
                        let rb = old_self.verified_iter();
                        assert(cur == *self);
                        assert(rb + n <= iter);
                        assert((rb + n) % old_self.interval() == 0);
                        assert(cur.verified_iter() < rb + n);
                        assert(v2@ != state@);
                        assert(reaches(step_fn, modulus, cur.verified_value(), n, v2@)
                            && reaches(step_fn, modulus, old_self.verified_value(), n, state@));
                        assert(replay_checkpoint(step_fn, modulus, old_self, cur, iter as nat));
                        assert(exists|v: nat| #[trigger] reaches(step_fn, modulus, old_self.last_state(),
                            (iter + 1 - old_self.last_iter()) as nat, v) && v != current@);
                        assert(exists|n: nat, v: nat| {
                            &&& rb + n <= iter
                            &&& (rb + n) % old_self.interval() == 0
                            &&& cur.verified_iter() < rb + n
                            &&& #[trigger] reaches(step_fn, modulus, cur.verified_value(), n, v)
                            &&& reaches(step_fn, modulus, old_self.verified_value(), n, state@)
                            &&& v != state@
                        });
                        assert(cur.interval() == old_self.interval());
                        assert(cur.total() == old_self.total());
                        assert(cur.last_state() == old_self.last_state());
                        assert(cur.last_iter() == old_self.last_iter());
                        assert(replay_disagrees(step_fn, modulus, old_self, cur, iter as nat, state@));
                        let itn: nat = iter as nat;
                        assert(reaches(step_fn, modulus, old_self.last_state(), (itn + 1 - old_self.last_iter()) as nat, verify@));
                        assert(exists|v: nat| #[trigger] reaches(step_fn, modulus, old_self.last_state(), (itn + 1 - old_self.last_iter()) as nat, v) && v != current@);
                        assert(persistent_outcome(step_fn, modulus, old_self, cur, current@, iter as nat, state@));
                        let res = (CheckResult::PersistentError, state);
                        assert(res.1@ == state@);
                        assert(verify_outcome(step_fn, modulus, old_self, cur, current@, iter as nat, res));
                    }
                    return (CheckResult::PersistentError, state);
                }
            }
            j = j + 1;
        }
        proof {
            lemma_checkpoint_reached(step_fn, modulus, replay, old_self, *self, iter as nat);
            if rollback_iter <= iter + 1 {
                assert(j == iter + 1);
                assert(run_from(step_fn, modulus, replay, old_self.verified_value(),
                    replay_len(old_self, iter as nat), state@));
            } else {
                let w = seq![replay[0]];
                assert(run_from(step_fn, modulus, w, old_self.verified_value(), 0, state@));
            }
        }
        self.last_checkpoint = state.dup();
        self.last_checkpoint_iter = iter + 1;
        proof {
            let new = *self;
            assert(reaches(step_fn, modulus, old_self.last_state(), steps as nat, verify@));
            assert(new.interval() == old_self.interval());
            assert(new.total() == old_self.total());
            assert(exists|v: nat| #[trigger] reaches(step_fn, modulus, old_self.last_state(), steps as nat, v) && v != current@);
            assert(reaches(step_fn, modulus, old_self.verified_value(), replay_len(old_self, iter as nat), state@));
            assert(replay_checkpoint(step_fn, modulus, old_self, new, iter as nat));
            assert(new.last_state() == state@);
            assert(new.last_iter() == iter + 1);
            assert(old_self == *old(self));
            assert(reaches(step_fn, modulus, old_self.last_state(), (iter + 1 - old_self.last_iter()) as nat, verify@));
            let res = (CheckResult::ErrorCorrected { rollback_to: rollback_iter }, state);
            assert(verify_outcome(step_fn, modulus, old_self, new, current@, iter as nat, res));
        }
        (CheckResult::ErrorCorrected { rollback_to: rollback_iter }, state)
    }
}

/// A checkpoint held on the replay run was reached by the replay.
proof fn lemma_checkpoint_reached<F: Fn(&BigNat, &BigNat) -> BigNat>(f: F, m: &BigNat,
    replay: Seq<BigNat>, old: GerbiczChecker, cur: GerbiczChecker, upto: nat)
    requires
        cur.interval() == old.interval(),
        replay.len() >= 1,
        replay[0]@ == old.verified_value(),
        forall|q: int| 0 <= q < replay.len() - 1 ==> #[trigger] call_ensures(f, (&replay[q], m), replay[q + 1]),
        (cur.verified_iter() == old.verified_iter() && cur.verified_value() == old.verified_value())
            || (old.verified_iter() < cur.verified_iter() <= upto
                && cur.verified_iter() - old.verified_iter() < replay.len()
                && cur.verified_iter() % old.interval() == 0
                && cur.verified_value() == replay[cur.verified_iter() - old.verified_iter()]@),
    ensures
        replay_checkpoint(f, m, old, cur, upto),
{
    if cur.verified_iter() != old.verified_iter() || cur.verified_value() != old.verified_value() {
        let n = (cur.verified_iter() - old.verified_iter()) as nat;
        let sub = replay.take(n + 1 as int);
        assert(run_from(f, m, sub, old.verified_value(), n, cur.verified_value()));
    }
}


/// g applied n times to x.
pub open spec fn iterate(g: spec_fn(nat) -> nat, x: nat, n: nat) -> nat
    decreases n,
{
    if n == 0 { x } else { g(iterate(g, x, (n - 1) as nat)) }
}

/// The step `f` computes the function g on values (modulus `m`).
pub open spec fn computes<F: Fn(&BigNat, &BigNat) -> BigNat>(f: F, m: &BigNat, g: spec_fn(nat) -> nat) -> bool {
    forall|s: &BigNat, r: BigNat| #[trigger] call_ensures(f, (s, m), r) ==> r@ == g(s@)
}

/// Both checkpoints of `c` lie on the trajectory of x0 under g.
pub open spec fn on_trajectory(c: GerbiczChecker, g: spec_fn(nat) -> nat, x0: nat) -> bool {
    &&& c.last_state() == iterate(g, x0, c.last_iter())
    &&& c.verified_value() == iterate(g, x0, c.verified_iter())
}

/// A run of a step computing g follows g.
proof fn lemma_run_iterates<F: Fn(&BigNat, &BigNat) -> BigNat>(f: F, m: &BigNat, g: spec_fn(nat) -> nat,
    chain: Seq<BigNat>, a: nat, n: nat, b: nat)
    requires
        computes(f, m, g),
        run_from(f, m, chain, a, n, b),
    ensures
        b == iterate(g, a, n),
    decreases n,
{
    if n > 0 {
        let prev = chain.take(n as int);
        lemma_run_iterates(f, m, g, prev, a, (n - 1) as nat, chain[n - 1]@);
        assert(call_ensures(f, (&chain[n - 1], m), chain[n as int]));
    }
}

/// Whatever a step computing g reaches in n steps is g applied n times.
proof fn lemma_reaches_iterates<F: Fn(&BigNat, &BigNat) -> BigNat>(f: F, m: &BigNat, g: spec_fn(nat) -> nat,
    a: nat, n: nat, b: nat)
    requires
        computes(f, m, g),
        reaches(f, m, a, n, b),
    ensures
        b == iterate(g, a, n),
{
    let chain = choose|chain: Seq<BigNat>| #[trigger] run_from(f, m, chain, a, n, b);
    lemma_run_iterates(f, m, g, chain, a, n, b);
}

/// Iterating a then b times is iterating a + b times.
proof fn lemma_iterate_adds(g: spec_fn(nat) -> nat, x: nat, a: nat, b: nat)
    ensures
        iterate(g, iterate(g, x, a), b) == iterate(g, x, a + b),
    decreases b,
{
    if b > 0 {
        lemma_iterate_adds(g, x, a, (b - 1) as nat);
        assert((a + b - 1) as nat == a + (b - 1) as nat);
    }
}

/// Two multiples of L above rb and at most `top` put top / L two past rb / L.
proof fn lemma_two_multiples(rb: nat, x: nat, y: nat, top: nat, l: nat)
    requires
        l >= 1,
        rb < x < y <= top,
        x % l == 0,
        y % l == 0,
    ensures
        top / l >= rb / l + 2,
{
    let qx = x / l;
    let qy = y / l;
    vstd::arithmetic::div_mod::lemma_fundamental_div_mod(x as int, l as int);
    vstd::arithmetic::div_mod::lemma_fundamental_div_mod(y as int, l as int);
    vstd::arithmetic::div_mod::lemma_fundamental_div_mod(rb as int, l as int);
    vstd::arithmetic::div_mod::lemma_fundamental_div_mod(top as int, l as int);
    assert(qy > qx) by (nonlinear_arith)
        requires x == l * qx, y == l * qy, x < y, l >= 1;
    assert(rb / l < qx) by (nonlinear_arith)
        requires rb == l * (rb / l) + rb % l, rb % l >= 0, rb < x, x == l * qx, l >= 1;
    assert(top / l >= qy) by (nonlinear_arith)
        requires top == l * (top / l) + top % l, top % l < l, y <= top, y == l * qy, l >= 1;
}

/// With a deterministic step (one computing a function g) and checkpoints on
/// the trajectory of x0 under g, `verify_block` never reports a persistent
/// error as long as its replay window (after the verified checkpoint, up to
/// iteration `iter`) holds at most one multiple of the interval; the state it
/// returns is the state after iter + 1 iterations, and its checkpoints stay
/// on the trajectory. In particular an error injected into `current` is
/// always corrected.
pub proof fn lemma_verify_block_corrects<F: Fn(&BigNat, &BigNat) -> BigNat>(f: F, m: &BigNat,
    g: spec_fn(nat) -> nat, x0: nat, old: GerbiczChecker, new: GerbiczChecker, current: nat, iter: nat,
    res: (CheckResult, BigNat))
    requires
        computes(f, m, g),
        on_trajectory(old, g, x0),
        old.interval() >= 1,
        old.verified_iter() <= old.last_iter() <= iter + 1,
        iter / old.interval() <= old.verified_iter() / old.interval() + 1,
        verify_outcome(f, m, old, new, current, iter, res),
    ensures
        res.0 != CheckResult::PersistentError,
        res.1@ == iterate(g, x0, iter + 1),
        on_trajectory(new, g, x0),
{
    let rb = old.verified_iter();
    let li = old.last_iter();
    match res.0 {
        CheckResult::Verified => {
            lemma_reaches_iterates(f, m, g, old.last_state(), (iter + 1 - li) as nat, current);
            lemma_iterate_adds(g, x0, li, (iter + 1 - li) as nat);
        },
        CheckResult::ErrorCorrected { rollback_to } => {
            lemma_reaches_iterates(f, m, g, old.verified_value(), replay_len(old, iter), res.1@);
            lemma_iterate_adds(g, x0, rb, replay_len(old, iter));
            if new.verified_iter() != rb || new.verified_value() != old.verified_value() {
                let k = (new.verified_iter() - rb) as nat;
                lemma_reaches_iterates(f, m, g, old.verified_value(), k, new.verified_value());
                lemma_iterate_adds(g, x0, rb, k);
            }
        },
        CheckResult::PersistentError => {
            let (n, v) = choose|n: nat, v: nat| {
                &&& rb + n <= iter
                &&& (rb + n) % old.interval() == 0
                &&& new.verified_iter() < rb + n
                &&& #[trigger] reaches(f, m, new.verified_value(), n, v)
                &&& reaches(f, m, old.verified_value(), n, res.1@)
                &&& v != res.1@
            };
            lemma_reaches_iterates(f, m, g, old.verified_value(), n, res.1@);
            lemma_reaches_iterates(f, m, g, new.verified_value(), n, v);
            if new.verified_iter() == rb && new.verified_value() == old.verified_value() {
                assert(v == res.1@);
            } else {
                lemma_two_multiples(rb, new.verified_iter(), rb + n, iter, old.interval());
            }
        },
    }
}


/// The checkpoints of a checker used on schedule: both at multiples of the
/// interval, the last one at most one interval past the verified one.
pub open spec fn on_schedule(c: GerbiczChecker) -> bool {
    &&& c.interval() >= 1
    &&& c.verified_iter() % c.interval() == 0
    &&& c.last_iter() % c.interval() == 0
    &&& c.verified_iter() <= c.last_iter() <= c.verified_iter() + c.interval()
}

/// A fresh checker is on schedule and on the trajectory of its initial state.
pub proof fn lemma_new_on_schedule(c: GerbiczChecker, g: spec_fn(nat) -> nat, x0: nat)
    requires
        c.interval() >= 1,
        c.last_iter() == 0,
        c.verified_iter() == 0,
        c.last_state() == x0,
        c.verified_value() == x0,
    ensures
        on_schedule(c),
        on_trajectory(c, g, x0),
{
    vstd::arithmetic::div_mod::lemma_small_mod(0, c.interval());
}

/// With a deterministic step computing g, calling `verify_block` at every
/// check (iteration iter with iter + 1 one interval past the last
/// checkpoint), starting from a fresh checker: the state returned is g
/// applied iter + 1 times to the initial state; the verdict is `Verified`
/// exactly when `current` is that state, and otherwise `ErrorCorrected`,
/// rolled back to the verified checkpoint; a persistent error never occurs;
/// and the checker stays on schedule for the next check.
pub proof fn lemma_scheduled_checks_correct<F: Fn(&BigNat, &BigNat) -> BigNat>(f: F, m: &BigNat,
    g: spec_fn(nat) -> nat, x0: nat, old: GerbiczChecker, new: GerbiczChecker, current: nat, iter: nat,
    res: (CheckResult, BigNat))
    requires
        computes(f, m, g),
        on_trajectory(old, g, x0),
        on_schedule(old),
        iter + 1 == old.last_iter() + old.interval(),
        verify_outcome(f, m, old, new, current, iter, res),
    ensures
        res.1@ == iterate(g, x0, iter + 1),
        (res.0 == CheckResult::Verified) == (current == iterate(g, x0, iter + 1)),
        res.0 != CheckResult::Verified ==> (res.0 matches CheckResult::ErrorCorrected { rollback_to }
            && rollback_to == old.verified_iter()),
        on_trajectory(new, g, x0),
        on_schedule(new),
        new.last_iter() == iter + 1,
{
    let l = old.interval();
    let rb = old.verified_iter();
    let li = old.last_iter();
    vstd::arithmetic::div_mod::lemma_fundamental_div_mod(rb as int, l as int);
    vstd::arithmetic::div_mod::lemma_fundamental_div_mod(iter as int, l as int);
    assert(iter / l <= rb / l + 1) by (nonlinear_arith)
        requires
            rb == l * (rb / l) + 0,
            iter == l * (iter / l) + iter % l,
            0 <= iter % l,
            iter < rb + 2 * l,
            l >= 1;
    lemma_verify_block_corrects(f, m, g, x0, old, new, current, iter, res);
    vstd::arithmetic::div_mod::lemma_mod_add_multiples_vanish(li as int, l as int);
    match res.0 {
        CheckResult::Verified => {
            lemma_reaches_iterates(f, m, g, old.last_state(), (iter + 1 - li) as nat, current);
            lemma_iterate_adds(g, x0, li, (iter + 1 - li) as nat);
        },
        CheckResult::ErrorCorrected { rollback_to } => {
            let v = choose|v: nat| #[trigger] reaches(f, m, old.last_state(), (iter + 1 - li) as nat, v)
                && v != current;
            lemma_reaches_iterates(f, m, g, old.last_state(), (iter + 1 - li) as nat, v);
            lemma_iterate_adds(g, x0, li, (iter + 1 - li) as nat);
            if new.verified_iter() < li {
                assert(li % l != 0);
            }
        },
        CheckResult::PersistentError => {},
    }
}

} // verus!
