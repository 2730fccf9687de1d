//! Form-level planning tables of the strategy engine and the snapshot types
//! it exchanges with the rest of the system.
use vstd::prelude::*;
use std::collections::HashMap;
use crate::text::{str_eq, push_str, push_signed, push_decimal, signed_decimal, decimal};

verus! {

/// Aggregated fleet capabilities at snapshot time.
pub struct FleetSnapshot {
    pub worker_count: u32,
    pub total_cores: u32,
    pub idle_workers: u32,
    pub max_ram_gb: u32,
    pub active_search_types: Vec<String>,
    pub workers_per_form: HashMap<String, u32>,
}

/// A fleet rebalancing move: reassign a worker to a different search.
pub struct WorkerMove {
    pub worker_id: String,
    pub from_form: String,
    pub to_form: String,
}

/// Typical searchable exponent/range per form (for project sizing).
pub open spec fn form_range(form: Seq<char>) -> u64 {
    if form == "factorial"@ || form == "primorial"@ {
        1_000_000
    } else if form == "kbn"@ || form == "twin"@ || form == "sophie_germain"@ {
        10_000_000
    } else if form == "palindromic"@ || form == "near_repdigit"@ {
        50_000
    } else if form == "cullen_woodall"@ || form == "carol_kynea"@ {
        5_000_000
    } else if form == "wagstaff"@ {
        50_000_000
    } else {
        1_000_000
    }
}

/// Minimum cores recommended per form.
pub open spec fn form_min_cores(form: Seq<char>) -> u32 {
    if form == "wagstaff"@ || form == "repunit"@ {
        16
    } else if form == "factorial"@ || form == "primorial"@ {
        8
    } else {
        4
    }
}

/// Typical searchable range for a form (for project sizing).
pub fn searchable_range(form: &str) -> (r: u64)
    ensures
        r == form_range(form@),
{
    if str_eq(form, "factorial") || str_eq(form, "primorial") {
        1_000_000
    } else if str_eq(form, "kbn") || str_eq(form, "twin") || str_eq(form, "sophie_germain") {
        10_000_000
    } else if str_eq(form, "palindromic") || str_eq(form, "near_repdigit") {
        50_000
    } else if str_eq(form, "cullen_woodall") || str_eq(form, "carol_kynea") {
        5_000_000
    } else if str_eq(form, "wagstaff") {
        50_000_000
    } else if str_eq(form, "repunit") {
        1_000_000
    } else if str_eq(form, "gen_fermat") {
        1_000_000
    } else {
        1_000_000
    }
}

/// Minimum cores recommended for a form.
pub fn min_cores_for_form(form: &str) -> (r: u32)
    ensures
        r == form_min_cores(form@),
{
    if str_eq(form, "wagstaff") || str_eq(form, "repunit") {
        16
    } else if str_eq(form, "factorial") || str_eq(form, "primorial") {
        8
    } else {
        4
    }
}

/// Maximum number of concurrent projects for a fleet of the given size.
pub open spec fn max_concurrent_projects(fleet_size: u32) -> int {
    if fleet_size <= 4 {
        1
    } else if fleet_size <= 16 {
        3
    } else if fleet_size <= 64 {
        5
    } else {
        8
    }
}

/// How many new projects may start this tick: the free portfolio slots,
/// never negative and at most two per tick.
pub fn portfolio_slots(fleet_size: u32, active_projects: i32) -> (r: i32)
    ensures
        r == ({
            let free = max_concurrent_projects(fleet_size) - active_projects;
            if free < 0 { 0 } else if free > 2 { 2 } else { free }
        }),
        0 <= r <= 2,
{
    let max_concurrent: i32 = if fleet_size <= 4 {
        1
    } else if fleet_size <= 16 {
        3
    } else if fleet_size <= 64 {
        5
    } else {
        8
    };
    if active_projects >= max_concurrent {
        0
    } else {
        let free = max_concurrent as i64 - active_projects as i64;
        if free > 2 { 2 } else { free as i32 }
    }
}


/// Portfolio sizing by fleet size: up to 4 workers allow 1 concurrent
/// project, up to 16 allow 3, up to 64 allow 5, more allow 8; a tick starts
/// at most 2 new projects and none once the limit is reached. More workers
/// never allow fewer projects.
pub proof fn lemma_portfolio_sizing(fleet_size: u32, active_projects: i32, larger_fleet: u32)
    ensures
        fleet_size <= 4 ==> max_concurrent_projects(fleet_size) == 1,
        5 <= fleet_size <= 16 ==> max_concurrent_projects(fleet_size) == 3,
        17 <= fleet_size <= 64 ==> max_concurrent_projects(fleet_size) == 5,
        fleet_size >= 65 ==> max_concurrent_projects(fleet_size) == 8,
        fleet_size <= larger_fleet ==> max_concurrent_projects(fleet_size) <= max_concurrent_projects(larger_fleet),
{
}

// ── decisions of one tick ───────────────────────────────────────────

/// A search job, as the engine's snapshot sees it.
pub struct ActiveJob {
    pub id: i64,
    pub search_type: String,
    pub status: String,
}

/// A worker with speed data for a form (a form with such entries still has
/// blocks available).
pub struct WorkerOnForm {
    pub worker_id: String,
    pub form: String,
}

/// Index of the first job with id `id` among `jobs`, or -1.
pub open spec fn job_index(jobs: Seq<ActiveJob>, id: i64) -> int
    decreases jobs.len(),
{
    if jobs.len() == 0 {
        -1
    } else if jobs[0].id == id {
        0
    } else {
        let k = job_index(jobs.drop_first(), id);
        if k < 0 { -1 } else { k + 1 }
    }
}

proof fn lemma_job_index(jobs: Seq<ActiveJob>, id: i64)
    ensures
        -1 <= job_index(jobs, id) < jobs.len(),
        job_index(jobs, id) >= 0 ==> jobs[job_index(jobs, id)].id == id,
        forall|j: int| 0 <= j < jobs.len() && (job_index(jobs, id) < 0 || j < job_index(jobs, id))
            ==> #[trigger] jobs[j].id != id,
    decreases jobs.len(),
{
    if jobs.len() > 0 && jobs[0].id != id {
        lemma_job_index(jobs.drop_first(), id);
        assert forall|j: int| 0 <= j < jobs.len() && (job_index(jobs, id) < 0 || j < job_index(jobs, id))
            implies #[trigger] jobs[j].id != id by {
            if j > 0 {
                assert(jobs[j] == jobs.drop_first()[j - 1]);
            }
        }
    }
}

/// The pause reason for a stalled job.
pub open spec fn stalled_reason(id: i64, search_type: Seq<char>) -> Seq<char> {
    "Job "@ + signed_decimal(id as int) + " ("@ + search_type + ") stalled: running >30min with 0 tested"@
}

/// The pauses for the stalled job ids, in their order: one for each id that
/// names an active job, with that (first such) job's search type.
pub open spec fn stalled_pauses_spec(stalled: Seq<i64>, jobs: Seq<ActiveJob>) -> Seq<(i64, Seq<char>)>
    decreases stalled.len(),
{
    if stalled.len() == 0 {
        Seq::empty()
    } else {
        let id = stalled.last();
        let k = job_index(jobs, id);
        let rest = stalled_pauses_spec(stalled.drop_last(), jobs);
        if k < 0 { rest } else { rest.push((id, stalled_reason(id, jobs[k].search_type@))) }
    }
}

/// The (id, text) views of a list of pauses.
pub open spec fn pause_views(v: Seq<(i64, String)>) -> Seq<(i64, Seq<char>)> {
    v.map_values(|p: (i64, String)| (p.0, p.1@))
}

/// Pause every stalled job that is still active: (project id, reason).
pub fn stalled_pauses(stalled: &[i64], jobs: &[ActiveJob]) -> (r: Vec<(i64, String)>)
    ensures
        pause_views(r@) == stalled_pauses_spec(stalled@, jobs@),
{
    let mut out: Vec<(i64, String)> = Vec::new();
    let mut i: usize = 0;
    while i < stalled.len()
        invariant
            i <= stalled@.len(),
            pause_views(out@) == stalled_pauses_spec(stalled@.take(i as int), jobs@),
        decreases stalled@.len() - i,
    {
        let id = stalled[i];
        let ghost pre = out@;
        proof {
            lemma_job_index(jobs@, id);
            assert(stalled@.take(i + 1).drop_last() =~= stalled@.take(i as int));
            assert(stalled@.take(i + 1).last() == id);
        }
        let mut j: usize = 0;
        while j < jobs.len() && jobs[j].id != id
            invariant
                j <= jobs@.len(),
                forall|q: int| 0 <= q < j ==> #[trigger] jobs@[q].id != id,
            decreases jobs@.len() - j,
        {
            j = j + 1;
        }
        if j < jobs.len() {
            proof {
                if job_index(jobs@, id) >= 0 && job_index(jobs@, id) != j as int {
                    assert(jobs@[job_index(jobs@, id)].id == id);
                }
            }
            assert(job_index(jobs@, id) == j as int);
            let mut reason = String::from_str("Job ");
            push_signed(&mut reason, id);
            push_str(&mut reason, " (");
            push_str(&mut reason, jobs[j].search_type.as_str());
            push_str(&mut reason, ") stalled: running >30min with 0 tested");
            out.push((id, reason));
            proof {
                assert(pause_views(out@) =~= pause_views(pre).push((id,
                    stalled_reason(id, jobs@[j as int].search_type@))));
            }
        } else {
            proof {
                if job_index(jobs@, id) >= 0 {
                    assert(jobs@[job_index(jobs@, id)].id == id);
                }
            }
        }
        i = i + 1;
    }
    assert(stalled@.take(stalled@.len() as int) =~= stalled@);
    out
}

/// Stalled-job pauses: every pause is for a stalled id that names an active
/// job, and every stalled id that names an active job is paused, with the
/// reason text for that job.
pub proof fn lemma_stalled_pauses_cover(stalled: Seq<i64>, jobs: Seq<ActiveJob>)
    ensures
        forall|i: int| 0 <= i < stalled_pauses_spec(stalled, jobs).len() ==> {
            let p = #[trigger] stalled_pauses_spec(stalled, jobs)[i];
            &&& stalled.contains(p.0)
            &&& exists|j: int| 0 <= j < jobs.len() && jobs[j].id == p.0
                && p.1 == #[trigger] stalled_reason(p.0, jobs[j].search_type@)
        },
        forall|k: int, j: int| 0 <= k < stalled.len() && 0 <= j < jobs.len() && #[trigger] jobs[j].id == #[trigger] stalled[k]
            ==> exists|i: int| 0 <= i < stalled_pauses_spec(stalled, jobs).len()
                && #[trigger] stalled_pauses_spec(stalled, jobs)[i].0 == stalled[k],
    decreases stalled.len(),
{
    if stalled.len() > 0 {
        let init = stalled.drop_last();
        let id = stalled.last();
        lemma_stalled_pauses_cover(init, jobs);
        lemma_job_index(jobs, id);
        let r = stalled_pauses_spec(init, jobs);
        let out = stalled_pauses_spec(stalled, jobs);
        assert forall|i: int| 0 <= i < out.len() implies {
            let p = #[trigger] out[i];
            &&& stalled.contains(p.0)
            &&& exists|j: int| 0 <= j < jobs.len() && jobs[j].id == p.0
                && p.1 == #[trigger] stalled_reason(p.0, jobs[j].search_type@)
        } by {
            if i < r.len() {
                assert(out[i] == r[i]);
                let q = choose|q: int| 0 <= q < init.len() && init[q] == r[i].0;
                assert(stalled[q] == init[q]);
                assert(stalled.contains(out[i].0));
                let j = choose|j: int| 0 <= j < jobs.len() && jobs[j].id == r[i].0
                    && r[i].1 == #[trigger] stalled_reason(r[i].0, jobs[j].search_type@);
                assert(out[i].1 == stalled_reason(out[i].0, jobs[j].search_type@));
            } else {
                let k = job_index(jobs, id);
                assert(stalled[stalled.len() - 1] == id);
                assert(out[i] == (id, stalled_reason(id, jobs[k].search_type@)));
                assert(stalled.contains(out[i].0));
                assert(jobs[k].id == out[i].0);
                assert(out[i].1 == stalled_reason(out[i].0, jobs[k].search_type@));
            }
        }
        assert forall|k: int, j: int| 0 <= k < stalled.len() && 0 <= j < jobs.len() && #[trigger] jobs[j].id == #[trigger] stalled[k]
            implies exists|i: int| 0 <= i < out.len() && #[trigger] out[i].0 == stalled[k] by {
            if k < init.len() {
                assert(init[k] == stalled[k]);
                assert(jobs[j].id == init[k]);
                let i = choose|i: int| 0 <= i < r.len() && #[trigger] r[i].0 == init[k];
                assert(out[i] == r[i]);
            } else {
                assert(job_index(jobs, id) >= 0);
                assert(out[r.len() as int].0 == id);
            }
        }
    }
}

/// Whether competitive intel on `form` is fresh: some memory has the key
/// `competitive_intel:<form>` and is under 7 days old. Memories are given
/// as (key, age in whole days).
pub open spec fn intel_fresh_spec(form: Seq<char>, memories: Seq<(String, i64)>) -> bool {
    exists|i: int| 0 <= i < memories.len() && #[trigger] memories[i].0@ == "competitive_intel:"@ + form
        && memories[i].1 < 7
}

/// Whether competitive intel on `form` is fresh (see `intel_fresh_spec`).
pub fn intel_fresh(form: &str, memories: &[(String, i64)]) -> (r: bool)
    ensures
        r == intel_fresh_spec(form@, memories@),
{
    let mut key = String::from_str("competitive_intel:");
    push_str(&mut key, form);
    let mut i: usize = 0;
    while i < memories.len()
        invariant
            i <= memories@.len(),
            key@ == "competitive_intel:"@ + form@,
            forall|j: int| 0 <= j < i ==> !(#[trigger] memories@[j].0@ == "competitive_intel:"@ + form@
                && memories@[j].1 < 7),
        decreases memories@.len() - i,
    {
        if memories[i].1 < 7 && str_eq(memories[i].0.as_str(), key.as_str()) {
            return true;
        }
        i = i + 1;
    }
    false
}

/// Whether `form` is among `excluded`.
pub open spec fn is_excluded(form: Seq<char>, excluded: Seq<String>) -> bool {
    exists|i: int| 0 <= i < excluded.len() && #[trigger] excluded[i]@ == form
}

/// The form that gets this tick's single intel request: the first of
/// `forms` that is not excluded and whose intel is not fresh
/// (`fresh[i]` for `forms[i]`).
pub open spec fn intel_target(forms: Seq<String>, excluded: Seq<String>, fresh: Seq<bool>, i: int) -> bool {
    &&& 0 <= i < forms.len()
    &&& !is_excluded(forms[i]@, excluded)
    &&& !fresh[i]
}

/// Pick the one form of this tick's intel request, if any.
pub fn intel_request_index(forms: &[String], excluded: &[String], fresh: &[bool]) -> (r: Option<usize>)
    requires
        fresh@.len() == forms@.len(),
    ensures
        r matches Some(i) ==> intel_target(forms@, excluded@, fresh@, i as int)
            && forall|j: int| 0 <= j < i ==> !#[trigger] intel_target(forms@, excluded@, fresh@, j),
        r is None ==> forall|j: int| 0 <= j < forms@.len() ==> !#[trigger] intel_target(forms@, excluded@, fresh@, j),
{
    let mut i: usize = 0;
    while i < forms.len()
        invariant
            i <= forms@.len(),
            fresh@.len() == forms@.len(),
            forall|j: int| 0 <= j < i ==> !#[trigger] intel_target(forms@, excluded@, fresh@, j),
        decreases forms@.len() - i,
    {
        let mut k: usize = 0;
        while k < excluded.len() && !str_eq(excluded[k].as_str(), forms[i].as_str())
            invariant
                i < forms@.len(),
                k <= excluded@.len(),
                forall|q: int| 0 <= q < k ==> #[trigger] excluded@[q]@ != forms@[i as int]@,
            decreases excluded@.len() - k,
        {
            k = k + 1;
        }
        let ex = k < excluded.len();
        if !ex && !fresh[i] {
            return Some(i);
        }
        i = i + 1;
    }
    None
}

/// Title of the intel task for `form`.
pub open spec fn intel_title(form: Seq<char>) -> Seq<char> {
    "Competitive Intel: "@ + form
}

/// Description of the intel task for `form`.
pub open spec fn intel_description(form: Seq<char>) -> Seq<char> {
    "Research the competitive landscape for "@ + form
        + " prime searching. Who else is actively searching? What ranges are covered? Rate competition intensity 0.0 (no competition) to 1.0 (heavily contested). Return result as JSON: {\"competition_score\": <float>}"@
}

/// The (title, description) of the intel task for `form`.
pub fn intel_task(form: &str) -> (r: (String, String))
    ensures
        r.0@ == intel_title(form@),
        r.1@ == intel_description(form@),
{
    let mut title = String::from_str("Competitive Intel: ");
    push_str(&mut title, form);
    let mut desc = String::from_str("Research the competitive landscape for ");
    push_str(&mut desc, form);
    push_str(&mut desc, " prime searching. Who else is actively searching? What ranges are covered? Rate competition intensity 0.0 (no competition) to 1.0 (heavily contested). Return result as JSON: {\"competition_score\": <float>}");
    (title, desc)
}

/// Why a tick took no action, checked in this order: no workers, too few
/// idle workers, the project limit reached, the budget exhausted.
pub open spec fn no_action_reason_spec(worker_count: u32, idle_workers: u32, min_idle: u32,
    active_projects: i32, max_projects: i32, budget_exhausted: bool) -> Seq<char>
{
    if worker_count == 0 {
        "No workers connected"@
    } else if idle_workers < min_idle {
        "Only "@ + decimal(idle_workers as nat) + " idle workers (need "@ + decimal(min_idle as nat) + ")"@
    } else if active_projects >= max_projects {
        signed_decimal(active_projects as int) + " active projects (max "@
            + signed_decimal(max_projects as int) + ")"@
    } else if budget_exhausted {
        "Monthly budget exhausted"@
    } else {
        "No actionable conditions met"@
    }
}

/// The reason of a `NoAction` decision; `budget_exhausted` is whether the
/// remaining budget is at most zero.
pub fn no_action_reason(worker_count: u32, idle_workers: u32, min_idle: u32, active_projects: i32,
    max_projects: i32, budget_exhausted: bool) -> (r: String)
    ensures
        r@ == no_action_reason_spec(worker_count, idle_workers, min_idle, active_projects, max_projects,
            budget_exhausted),
{
    if worker_count == 0 {
        String::from_str("No workers connected")
    } else if idle_workers < min_idle {
        let mut s = String::from_str("Only ");
        push_decimal(&mut s, idle_workers as u64);
        push_str(&mut s, " idle workers (need ");
        push_decimal(&mut s, min_idle as u64);
        push_str(&mut s, ")");
        s
    } else if active_projects >= max_projects {
        let mut s = String::new();
        push_signed(&mut s, active_projects as i64);
        push_str(&mut s, " active projects (max ");
        push_signed(&mut s, max_projects as i64);
        push_str(&mut s, ")");
        s
    } else if budget_exhausted {
        String::from_str("Monthly budget exhausted")
    } else {
        String::from_str("No actionable conditions met")
    }
}


// ── fleet rebalancing ───────────────────────────────────────────────

/// The texts of a sequence of strings.
pub open spec fn str_views(v: Seq<String>) -> Seq<Seq<char>> {
    v.map_values(|x: String| x@)
}

/// The texts of a sequence of string pairs.
pub open spec fn pair_views(v: Seq<(String, String)>) -> Seq<(Seq<char>, Seq<char>)> {
    v.map_values(|x: (String, String)| (x.0@, x.1@))
}

/// The (worker, from, to) texts of a sequence of moves.
pub open spec fn move_views(v: Seq<WorkerMove>) -> Seq<(Seq<char>, Seq<char>, Seq<char>)> {
    v.map_values(|m: WorkerMove| (m.worker_id@, m.from_form@, m.to_form@))
}

/// The forms of the running jobs, each once, in order of first appearance.
pub open spec fn running_forms(jobs: Seq<ActiveJob>) -> Seq<Seq<char>>
    decreases jobs.len(),
{
    if jobs.len() == 0 {
        Seq::empty()
    } else {
        let r = running_forms(jobs.drop_last());
        let j = jobs.last();
        if j.status@ == "running"@ && !r.contains(j.search_type@) { r.push(j.search_type@) } else { r }
    }
}

/// Workers on `form`: the count of the first entry for it, or 0.
pub open spec fn workers_count(wpf: Seq<(String, u32)>, form: Seq<char>) -> u32
    decreases wpf.len(),
{
    if wpf.len() == 0 {
        0
    } else if wpf[0].0@ == form {
        wpf[0].1
    } else {
        workers_count(wpf.drop_first(), form)
    }
}

/// Whether some speed entry names `form` (the form still has blocks).
pub open spec fn has_speed_data(speeds: Seq<WorkerOnForm>, form: Seq<char>) -> bool {
    exists|i: int| 0 <= i < speeds.len() && #[trigger] speeds[i].form@ == form
}

/// A form with workers and no blocks left.
pub open spec fn is_exhausted(form: Seq<char>, wpf: Seq<(String, u32)>, speeds: Seq<WorkerOnForm>) -> bool {
    workers_count(wpf, form) > 0 && !has_speed_data(speeds, form)
}

/// The fleet's workers on `form`, in fleet order, as (worker, form).
pub open spec fn workers_of(fleet: Seq<WorkerOnForm>, form: Seq<char>) -> Seq<(Seq<char>, Seq<char>)>
    decreases fleet.len(),
{
    if fleet.len() == 0 {
        Seq::empty()
    } else {
        let r = workers_of(fleet.drop_last(), form);
        if fleet.last().form@ == form { r.push((fleet.last().worker_id@, form)) } else { r }
    }
}

/// The workers of the exhausted forms among `forms`, form by form.
pub open spec fn exhausted_workers(forms: Seq<Seq<char>>, wpf: Seq<(String, u32)>, speeds: Seq<WorkerOnForm>,
    fleet: Seq<WorkerOnForm>) -> Seq<(Seq<char>, Seq<char>)>
    decreases forms.len(),
{
    if forms.len() == 0 {
        Seq::empty()
    } else {
        let r = exhausted_workers(forms.drop_last(), wpf, speeds, fleet);
        if is_exhausted(forms.last(), wpf, speeds) { r + workers_of(fleet, forms.last()) } else { r }
    }
}

/// The forms among `forms` without workers.
pub open spec fn unstaffed(forms: Seq<Seq<char>>, wpf: Seq<(String, u32)>) -> Seq<Seq<char>>
    decreases forms.len(),
{
    if forms.len() == 0 {
        Seq::empty()
    } else {
        let r = unstaffed(forms.drop_last(), wpf);
        if workers_count(wpf, forms.last()) == 0 { r.push(forms.last()) } else { r }
    }
}

/// The rebalance moves (worker, from, to): the workers of the exhausted
/// running forms, in order, each paired with an unstaffed running form taken
/// from the end of that list, until either runs out.
pub open spec fn imbalance_moves(jobs: Seq<ActiveJob>, wpf: Seq<(String, u32)>, speeds: Seq<WorkerOnForm>,
    fleet: Seq<WorkerOnForm>) -> Seq<(Seq<char>, Seq<char>, Seq<char>)>
{
    let forms = running_forms(jobs);
    let over = exhausted_workers(forms, wpf, speeds, fleet);
    let under = unstaffed(forms, wpf);
    let n = if over.len() < under.len() { over.len() } else { under.len() };
    Seq::new(n, |i: int| (over[i].0, over[i].1, under[under.len() - 1 - i]))
}

/// The reasoning text of a rebalance of `n` workers.
pub open spec fn rebalance_reasoning(n: nat) -> Seq<char> {
    "Fleet imbalance: "@ + decimal(n) + " workers moved from exhausted forms to underprovisioned forms"@
}

/// Workers on `form` (see `workers_count`).
fn workers_on(workers_per_form: &[(String, u32)], form: &str) -> (r: u32)
    ensures
        r == workers_count(workers_per_form@, form@),
{
    let mut i: usize = 0;
    let n = workers_per_form.len();
    assert(workers_per_form@.subrange(0, n as int) =~= workers_per_form@);
    while i < n
        invariant
            i <= n,
            n == workers_per_form@.len(),
            workers_count(workers_per_form@.subrange(i as int, n as int), form@)
                == workers_count(workers_per_form@, form@),
        decreases n - i,
    {
        let ghost rest = workers_per_form@.subrange(i as int, n as int);
        assert(rest[0] == workers_per_form@[i as int]);
        if str_eq(workers_per_form[i].0.as_str(), form) {
            return workers_per_form[i].1;
        }
        assert(rest.drop_first() =~= workers_per_form@.subrange(i + 1, n as int));
        i = i + 1;
    }
    assert(workers_per_form@.subrange(n as int, n as int).len() == 0);
    0
}

/// Whether some speed entry names `form`.
fn has_speed(speeds: &[WorkerOnForm], form: &str) -> (r: bool)
    ensures
        r == has_speed_data(speeds@, form@),
{
    let mut k: usize = 0;
    while k < speeds.len()
        invariant
            k <= speeds@.len(),
            forall|q: int| 0 <= q < k ==> #[trigger] speeds@[q].form@ != form@,
        decreases speeds@.len() - k,
    {
        if str_eq(speeds[k].form.as_str(), form) {
            return true;
        }
        k = k + 1;
    }
    false
}

/// The forms of the running jobs (see `running_forms`).
fn running_form_list(jobs: &[ActiveJob]) -> (r: Vec<String>)
    ensures
        str_views(r@) == running_forms(jobs@),
{
    let mut forms: Vec<String> = Vec::new();
    let mut j: usize = 0;
    while j < jobs.len()
        invariant
            j <= jobs@.len(),
            str_views(forms@) == running_forms(jobs@.take(j as int)),
        decreases jobs@.len() - j,
    {
        proof {
            assert(jobs@.take(j + 1).drop_last() =~= jobs@.take(j as int));
            assert(jobs@.take(j + 1).last() == jobs@[j as int]);
        }
        let job = &jobs[j];
        if str_eq(job.status.as_str(), "running") {
            let mut k: usize = 0;
            while k < forms.len() && !str_eq(forms[k].as_str(), job.search_type.as_str())
                invariant
                    k <= forms@.len(),
                    forall|q: int| 0 <= q < k ==> #[trigger] forms@[q]@ != job.search_type@,
                decreases forms@.len() - k,
            {
                k = k + 1;
            }
            if k == forms.len() {
                let ghost pre = forms@;
                proof {
                    assert(!str_views(pre).contains(job.search_type@)) by {
                        if str_views(pre).contains(job.search_type@) {
                            let q = choose|q: int| 0 <= q < str_views(pre).len() && str_views(pre)[q] == job.search_type@;
                            assert(pre[q]@ == job.search_type@);
                        }
                    }
                }
                forms.push(job.search_type.clone());
                assert(str_views(forms@) =~= str_views(pre).push(job.search_type@));
            } else {
                assert(str_views(forms@)[k as int] == job.search_type@);
            }
        }
        j = j + 1;
    }
    assert(jobs@.take(jobs@.len() as int) =~= jobs@);
    forms
}

/// The forms among `forms` without workers (see `unstaffed`).
fn unstaffed_list(forms: &Vec<String>, workers_per_form: &[(String, u32)]) -> (r: Vec<String>)
    ensures
        str_views(r@) == unstaffed(str_views(forms@), workers_per_form@),
{
    let ghost fv = str_views(forms@);
    let mut out: Vec<String> = Vec::new();
    let mut i: usize = 0;
    while i < forms.len()
        invariant
            i <= forms@.len(),
            fv == str_views(forms@),
            str_views(out@) == unstaffed(fv.take(i as int), workers_per_form@),
        decreases forms@.len() - i,
    {
        proof {
            assert(fv.take(i + 1).drop_last() =~= fv.take(i as int));
            assert(fv.take(i + 1).last() == forms@[i as int]@);
        }
        if workers_on(workers_per_form, forms[i].as_str()) == 0 {
            let ghost pre = out@;
            out.push(forms[i].clone());
            assert(str_views(out@) =~= str_views(pre).push(forms@[i as int]@));
        }
        i = i + 1;
    }
    assert(fv.take(fv.len() as int) =~= fv);
    out
}

/// Append the fleet's workers on `form` to `out` as (worker, form).
fn push_workers_of(out: &mut Vec<(String, String)>, fleet: &[WorkerOnForm], form: &String)
    ensures
        pair_views(final(out)@) == pair_views(old(out)@) + workers_of(fleet@, form@),
{
    let ghost start = pair_views(out@);
    let mut w: usize = 0;
    while w < fleet.len()
        invariant
            w <= fleet@.len(),
            pair_views(out@) == start + workers_of(fleet@.take(w as int), form@),
        decreases fleet@.len() - w,
    {
        proof {
            assert(fleet@.take(w + 1).drop_last() =~= fleet@.take(w as int));
            assert(fleet@.take(w + 1).last() == fleet@[w as int]);
        }
        if str_eq(fleet[w].form.as_str(), form.as_str()) {
            let ghost pre = out@;
            out.push((fleet[w].worker_id.clone(), form.clone()));
            assert(pair_views(out@) =~= pair_views(pre).push((fleet@[w as int].worker_id@, form@)));
            assert(start + workers_of(fleet@.take(w + 1), form@)
                =~= (start + workers_of(fleet@.take(w as int), form@)).push((fleet@[w as int].worker_id@, form@)));
        }
        w = w + 1;
    }
    assert(fleet@.take(fleet@.len() as int) =~= fleet@);
}

/// The workers of the exhausted forms among `forms` (see `exhausted_workers`).
fn exhausted_list(forms: &Vec<String>, workers_per_form: &[(String, u32)], speeds: &[WorkerOnForm],
    fleet: &[WorkerOnForm]) -> (r: Vec<(String, String)>)
    ensures
        pair_views(r@) == exhausted_workers(str_views(forms@), workers_per_form@, speeds@, fleet@),
{
    let ghost fv = str_views(forms@);
    let mut out: Vec<(String, String)> = Vec::new();
    let mut i: usize = 0;
    while i < forms.len()
        invariant
            i <= forms@.len(),
            fv == str_views(forms@),
            pair_views(out@) == exhausted_workers(fv.take(i as int), workers_per_form@, speeds@, fleet@),
        decreases forms@.len() - i,
    {
        proof {
            assert(fv.take(i + 1).drop_last() =~= fv.take(i as int));
            assert(fv.take(i + 1).last() == forms@[i as int]@);
        }
        let on_form = workers_on(workers_per_form, forms[i].as_str());
        if on_form > 0 && !has_speed(speeds, forms[i].as_str()) {
            push_workers_of(&mut out, fleet, &forms[i]);
        }
        i = i + 1;
    }
    assert(fv.take(fv.len() as int) =~= fv);
    out
}

/// Detect fleet imbalance: the fleet's workers on running forms that have
/// workers but no blocks left (no speed entry) move to running forms without
/// workers. Returns the moves (see `imbalance_moves`) and the reasoning
/// text, or `None` when there is nothing to move.
///
/// `workers_per_form` holds the worker count of each form, `speeds` the
/// forms that still have blocks, and `fleet` each worker with the form it
/// is on.
pub fn fleet_imbalance(jobs: &[ActiveJob], workers_per_form: &[(String, u32)], speeds: &[WorkerOnForm],
    fleet: &[WorkerOnForm]) -> (r: Option<(Vec<WorkerMove>, String)>)
    ensures
        r is None <==> imbalance_moves(jobs@, workers_per_form@, speeds@, fleet@).len() == 0,
        r matches Some((moves, reasoning)) ==> move_views(moves@)
            == imbalance_moves(jobs@, workers_per_form@, speeds@, fleet@)
            && reasoning@ == rebalance_reasoning(moves@.len()),
{
    let forms = running_form_list(jobs);
    let over = exhausted_list(&forms, workers_per_form, speeds, fleet);
    let under = unstaffed_list(&forms, workers_per_form);
    let ghost ov = pair_views(over@);
    let ghost uv = str_views(under@);
    let ghost target = imbalance_moves(jobs@, workers_per_form@, speeds@, fleet@);
    let n: usize = if over.len() < under.len() { over.len() } else { under.len() };
    assert(target.len() == n);
    if n == 0 {
        return None;
    }
    let mut moves: Vec<WorkerMove> = Vec::new();
    let mut i: usize = 0;
    while i < n
        invariant
            i <= n,
            n <= over@.len(),
            n <= under@.len(),
            ov == pair_views(over@),
            uv == str_views(under@),
            target.len() == n,
            forall|k: int| 0 <= k < n ==> #[trigger] target[k] == (ov[k].0, ov[k].1, uv[uv.len() - 1 - k]),
            move_views(moves@) == target.take(i as int),
        decreases n - i,
    {
        let to = under.len() - 1 - i;
        let m = WorkerMove {
            worker_id: over[i].0.clone(),
            from_form: over[i].1.clone(),
            to_form: under[to].clone(),
        };
        let ghost pre = moves@;
        moves.push(m);
        proof {
            assert(ov[i as int] == (over@[i as int].0@, over@[i as int].1@));
            assert(uv[to as int] == under@[to as int]@);
            assert(move_views(moves@) =~= move_views(pre).push(target[i as int]));
            assert(target.take(i + 1) =~= target.take(i as int).push(target[i as int]));
        }
        i = i + 1;
    }
    assert(target.take(n as int) =~= target);
    let mut reasoning = String::from_str("Fleet imbalance: ");
    push_decimal(&mut reasoning, n as u64);
    push_str(&mut reasoning, " workers moved from exhausted forms to underprovisioned forms");
    Some((moves, reasoning))
}

proof fn lemma_running_forms(jobs: Seq<ActiveJob>)
    ensures
        forall|a: int| 0 <= a < jobs.len() && #[trigger] jobs[a].status@ == "running"@
            ==> running_forms(jobs).contains(jobs[a].search_type@),
        forall|i: int, j: int| 0 <= i < j < running_forms(jobs).len()
            ==> #[trigger] running_forms(jobs)[i] != #[trigger] running_forms(jobs)[j],
    decreases jobs.len(),
{
    if jobs.len() > 0 {
        let init = jobs.drop_last();
        lemma_running_forms(init);
        let r = running_forms(init);
        let rf = running_forms(jobs);
        assert forall|a: int| 0 <= a < jobs.len() && #[trigger] jobs[a].status@ == "running"@
            implies rf.contains(jobs[a].search_type@) by {
            if a < jobs.len() - 1 {
                assert(init[a] == jobs[a]);
                let q = choose|q: int| 0 <= q < r.len() && r[q] == jobs[a].search_type@;
                assert(rf[q] == r[q]);
            } else if r.contains(jobs[a].search_type@) {
                let q = choose|q: int| 0 <= q < r.len() && r[q] == jobs[a].search_type@;
                assert(rf[q] == r[q]);
            } else {
                assert(rf[r.len() as int] == jobs[a].search_type@);
            }
        }
        assert forall|i: int, j: int| 0 <= i < j < rf.len() implies #[trigger] rf[i] != #[trigger] rf[j] by {
            if j == r.len() {
                assert(!r.contains(rf[j]));
                assert(r[i] == rf[i]);
            } else {
                assert(r[i] == rf[i] && r[j] == rf[j]);
            }
        }
    }
}

proof fn lemma_unstaffed(forms: Seq<Seq<char>>, wpf: Seq<(String, u32)>)
    ensures
        forall|i: int| 0 <= i < unstaffed(forms, wpf).len()
            ==> workers_count(wpf, #[trigger] unstaffed(forms, wpf)[i]) == 0
                && forms.contains(unstaffed(forms, wpf)[i]),
        forall|f: Seq<char>| #[trigger] forms.contains(f) && workers_count(wpf, f) == 0
            ==> unstaffed(forms, wpf).len() > 0,
        (forall|i: int, j: int| 0 <= i < j < forms.len() ==> #[trigger] forms[i] != #[trigger] forms[j])
            ==> forall|i: int, j: int| 0 <= i < j < unstaffed(forms, wpf).len()
                ==> #[trigger] unstaffed(forms, wpf)[i] != #[trigger] unstaffed(forms, wpf)[j],
    decreases forms.len(),
{
    if forms.len() > 0 {
        let init = forms.drop_last();
        lemma_unstaffed(init, wpf);
        let r = unstaffed(init, wpf);
        let u = unstaffed(forms, wpf);
        assert forall|i: int| 0 <= i < u.len()
            implies workers_count(wpf, #[trigger] u[i]) == 0 && forms.contains(u[i]) by {
            if i < r.len() {
                assert(u[i] == r[i]);
                let q = choose|q: int| 0 <= q < init.len() && init[q] == r[i];
                assert(forms[q] == init[q]);
            } else {
                assert(forms[forms.len() - 1] == u[i]);
            }
        }
        assert forall|f: Seq<char>| #[trigger] forms.contains(f) && workers_count(wpf, f) == 0
            implies u.len() > 0 by {
            let q = choose|q: int| 0 <= q < forms.len() && forms[q] == f;
            if q < forms.len() - 1 {
                assert(init[q] == f);
                assert(init.contains(f));
            }
        }
        if forall|i: int, j: int| 0 <= i < j < forms.len() ==> #[trigger] forms[i] != #[trigger] forms[j] {
            assert forall|i: int, j: int| 0 <= i < j < init.len() implies #[trigger] init[i] != #[trigger] init[j] by {
                assert(init[i] == forms[i] && init[j] == forms[j]);
            }
            assert forall|i: int, j: int| 0 <= i < j < u.len() implies #[trigger] u[i] != #[trigger] u[j] by {
                if j == r.len() {
                    assert(u[i] == r[i]);
                    assert(init.contains(r[i]));
                    let q = choose|q: int| 0 <= q < init.len() && init[q] == r[i];
                    assert(forms[q] == init[q]);
                    assert(u[j] == forms[forms.len() - 1]);
                } else {
                    assert(u[i] == r[i] && u[j] == r[j]);
                }
            }
        }
    }
}

proof fn lemma_workers_of(fleet: Seq<WorkerOnForm>, f: Seq<char>)
    ensures
        forall|i: int| 0 <= i < workers_of(fleet, f).len() ==> (#[trigger] workers_of(fleet, f)[i]).1 == f
            && exists|w: int| 0 <= w < fleet.len() && fleet[w].worker_id@ == workers_of(fleet, f)[i].0
                && #[trigger] fleet[w].form@ == f,
        (exists|w: int| 0 <= w < fleet.len() && #[trigger] fleet[w].form@ == f) ==> workers_of(fleet, f).len() > 0,
    decreases fleet.len(),
{
    if fleet.len() > 0 {
        let init = fleet.drop_last();
        lemma_workers_of(init, f);
        let r = workers_of(init, f);
        let o = workers_of(fleet, f);
        assert forall|i: int| 0 <= i < o.len() implies (#[trigger] o[i]).1 == f
            && exists|w: int| 0 <= w < fleet.len() && fleet[w].worker_id@ == o[i].0 && #[trigger] fleet[w].form@ == f by {
            if i < r.len() {
                assert(o[i] == r[i]);
                let w = choose|w: int| 0 <= w < init.len() && init[w].worker_id@ == r[i].0 && #[trigger] init[w].form@ == f;
                assert(fleet[w] == init[w]);
            } else {
                assert(fleet[fleet.len() - 1] == fleet.last());
            }
        }
        if exists|w: int| 0 <= w < fleet.len() && #[trigger] fleet[w].form@ == f {
            let w = choose|w: int| 0 <= w < fleet.len() && #[trigger] fleet[w].form@ == f;
            if w < fleet.len() - 1 {
                assert(init[w] == fleet[w]);
            }
        }
    }
}

proof fn lemma_exhausted_workers(forms: Seq<Seq<char>>, wpf: Seq<(String, u32)>, speeds: Seq<WorkerOnForm>,
    fleet: Seq<WorkerOnForm>)
    ensures
        forall|i: int| 0 <= i < exhausted_workers(forms, wpf, speeds, fleet).len()
            ==> is_exhausted((#[trigger] exhausted_workers(forms, wpf, speeds, fleet)[i]).1, wpf, speeds)
                && exists|w: int| 0 <= w < fleet.len()
                    && fleet[w].worker_id@ == exhausted_workers(forms, wpf, speeds, fleet)[i].0
                    && #[trigger] fleet[w].form@ == exhausted_workers(forms, wpf, speeds, fleet)[i].1,
        forall|f: Seq<char>, w: int| #[trigger] forms.contains(f) && is_exhausted(f, wpf, speeds)
            && 0 <= w < fleet.len() && #[trigger] fleet[w].form@ == f
            ==> exhausted_workers(forms, wpf, speeds, fleet).len() > 0,
    decreases forms.len(),
{
    if forms.len() > 0 {
        let init = forms.drop_last();
        lemma_exhausted_workers(init, wpf, speeds, fleet);
        let last = forms.last();
        lemma_workers_of(fleet, last);
        let r = exhausted_workers(init, wpf, speeds, fleet);
        let e = exhausted_workers(forms, wpf, speeds, fleet);
        let wo = workers_of(fleet, last);
        assert forall|i: int| 0 <= i < e.len()
            implies is_exhausted((#[trigger] e[i]).1, wpf, speeds)
                && exists|w: int| 0 <= w < fleet.len() && fleet[w].worker_id@ == e[i].0
                    && #[trigger] fleet[w].form@ == e[i].1 by {
            if i < r.len() {
                assert(e[i] == r[i]);
            } else {
                assert(e[i] == wo[i - r.len()]);
            }
        }
        assert forall|f: Seq<char>, w: int| #[trigger] forms.contains(f) && is_exhausted(f, wpf, speeds)
            && 0 <= w < fleet.len() && #[trigger] fleet[w].form@ == f implies e.len() > 0 by {
            let q = choose|q: int| 0 <= q < forms.len() && forms[q] == f;
            if q < forms.len() - 1 {
                assert(init[q] == f);
                assert(init.contains(f));
            } else {
                assert(wo.len() > 0);
            }
        }
    }
}

/// A fleet with a worker on an exhausted running form (workers, no blocks
/// left) and a running form without workers is rebalanced: there is at
/// least one move.
pub proof fn lemma_imbalanced_fleet_rebalances(jobs: Seq<ActiveJob>, wpf: Seq<(String, u32)>,
    speeds: Seq<WorkerOnForm>, fleet: Seq<WorkerOnForm>, a: int, b: int, w: int)
    requires
        0 <= a < jobs.len(),
        jobs[a].status@ == "running"@,
        is_exhausted(jobs[a].search_type@, wpf, speeds),
        0 <= w < fleet.len(),
        fleet[w].form@ == jobs[a].search_type@,
        0 <= b < jobs.len(),
        jobs[b].status@ == "running"@,
        workers_count(wpf, jobs[b].search_type@) == 0,
    ensures
        imbalance_moves(jobs, wpf, speeds, fleet).len() > 0,
{
    let forms = running_forms(jobs);
    lemma_running_forms(jobs);
    assert(forms.contains(jobs[a].search_type@));
    assert(forms.contains(jobs[b].search_type@));
    lemma_exhausted_workers(forms, wpf, speeds, fleet);
    lemma_unstaffed(forms, wpf);
}

/// Every rebalance move takes a worker of the fleet off the exhausted
/// running form it is on and sends it to a running form without workers;
/// no two moves go to the same form.
pub proof fn lemma_imbalance_moves_sound(jobs: Seq<ActiveJob>, wpf: Seq<(String, u32)>,
    speeds: Seq<WorkerOnForm>, fleet: Seq<WorkerOnForm>)
    ensures
        forall|i: int| 0 <= i < imbalance_moves(jobs, wpf, speeds, fleet).len() ==> {
            let m = #[trigger] imbalance_moves(jobs, wpf, speeds, fleet)[i];
            &&& is_exhausted(m.1, wpf, speeds)
            &&& running_forms(jobs).contains(m.2)
            &&& workers_count(wpf, m.2) == 0
            &&& exists|w: int| 0 <= w < fleet.len() && fleet[w].worker_id@ == m.0 && #[trigger] fleet[w].form@ == m.1
        },
        forall|i: int, j: int| 0 <= i < j < imbalance_moves(jobs, wpf, speeds, fleet).len()
            ==> (#[trigger] imbalance_moves(jobs, wpf, speeds, fleet)[i]).2
                != (#[trigger] imbalance_moves(jobs, wpf, speeds, fleet)[j]).2,
{
    let forms = running_forms(jobs);
    lemma_running_forms(jobs);
    lemma_exhausted_workers(forms, wpf, speeds, fleet);
    lemma_unstaffed(forms, wpf);
    let mv = imbalance_moves(jobs, wpf, speeds, fleet);
    let over = exhausted_workers(forms, wpf, speeds, fleet);
    let under = unstaffed(forms, wpf);
    assert forall|i: int| 0 <= i < mv.len() implies {
        let m = #[trigger] mv[i];
        &&& is_exhausted(m.1, wpf, speeds)
        &&& running_forms(jobs).contains(m.2)
        &&& workers_count(wpf, m.2) == 0
        &&& exists|w: int| 0 <= w < fleet.len() && fleet[w].worker_id@ == m.0 && #[trigger] fleet[w].form@ == m.1
    } by {
        assert(mv[i] == (over[i].0, over[i].1, under[under.len() - 1 - i]));
        assert(is_exhausted(over[i].1, wpf, speeds));
        assert(workers_count(wpf, under[under.len() - 1 - i]) == 0);
    }
    assert forall|i: int, j: int| 0 <= i < j < mv.len() implies (#[trigger] mv[i]).2 != (#[trigger] mv[j]).2 by {
        let x = under.len() - 1 - j;
        let y = under.len() - 1 - i;
        assert(under[x] != under[y]);
    }
}

// ── decision records ────────────────────────────────────────────────

/// The kinds of decision the engine takes.
#[derive(Debug, Clone, Copy, PartialEq, Eq, Structural)]
pub enum DecisionKind {
    CreateProject,
    PauseProject,
    ExtendProject,
    AbandonProject,
    RebalanceFleet,
    RequestAgentIntel,
    VerifyResult,
    NoAction,
}

/// The snake_case label under which a decision kind is recorded.
pub open spec fn decision_label(k: DecisionKind) -> Seq<char> {
    match k {
        DecisionKind::CreateProject => "create_project"@,
        DecisionKind::PauseProject => "pause_project"@,
        DecisionKind::ExtendProject => "extend_project"@,
        DecisionKind::AbandonProject => "abandon_project"@,
        DecisionKind::RebalanceFleet => "rebalance_fleet"@,
        DecisionKind::RequestAgentIntel => "request_agent_intel"@,
        DecisionKind::VerifyResult => "verify_result"@,
        DecisionKind::NoAction => "no_action"@,
    }
}

/// Whether acting on a decision of kind `k` changes anything (`executed`)
/// or only records it (`logged`): projects are created and paused, fleets
/// rebalanced and intel tasks created; the other kinds are logged.
pub open spec fn decision_executes(k: DecisionKind) -> bool {
    k == DecisionKind::CreateProject || k == DecisionKind::PauseProject
        || k == DecisionKind::RebalanceFleet || k == DecisionKind::RequestAgentIntel
}

impl DecisionKind {
    /// The snake_case label of the kind.
    pub fn label(&self) -> (s: &'static str)
        ensures
            s@ == decision_label(*self),
    {
        match self {
            DecisionKind::CreateProject => "create_project",
            DecisionKind::PauseProject => "pause_project",
            DecisionKind::ExtendProject => "extend_project",
            DecisionKind::AbandonProject => "abandon_project",
            DecisionKind::RebalanceFleet => "rebalance_fleet",
            DecisionKind::RequestAgentIntel => "request_agent_intel",
            DecisionKind::VerifyResult => "verify_result",
            DecisionKind::NoAction => "no_action",
        }
    }

    /// The action recorded for the kind: `executed` or `logged`.
    pub fn action(&self) -> (s: &'static str)
        ensures
            s@ == (if decision_executes(*self) { "executed"@ } else { "logged"@ }),
    {
        match self {
            DecisionKind::CreateProject => "executed",
            DecisionKind::PauseProject => "executed",
            DecisionKind::RebalanceFleet => "executed",
            DecisionKind::RequestAgentIntel => "executed",
            _ => "logged",
        }
    }
}

} // verus!
