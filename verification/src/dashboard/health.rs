//! Status decisions of the deep health check: each component is healthy ("ok"),
//! degraded or unhealthy, and the service takes the worst of them.
use vstd::prelude::*;

verus! {

/// Health of one component, or of the whole service.
#[derive(Debug, Clone, Copy, PartialEq, Eq, Structural)]
pub enum HealthStatus {
    Healthy,
    Degraded,
    Unhealthy,
}

/// Severity rank: healthy < degraded < unhealthy.
pub open spec fn severity(s: HealthStatus) -> int {
    match s {
        HealthStatus::Healthy => 0,
        HealthStatus::Degraded => 1,
        HealthStatus::Unhealthy => 2,
    }
}

/// One gibibyte.
pub const GIB: u64 = 1_073_741_824;

/// The database is healthy when its probe answered in time.
pub fn database_health(answered: bool) -> (s: HealthStatus)
    ensures
        s == (if answered { HealthStatus::Healthy } else { HealthStatus::Unhealthy }),
{
    if answered { HealthStatus::Healthy } else { HealthStatus::Unhealthy }
}

/// Disk health from the free bytes on `/`: unhealthy below 1 GiB, degraded
/// below 5 GiB or when the free space cannot be read, ok otherwise.
pub fn disk_health(free_bytes: Option<u64>) -> (s: HealthStatus)
    ensures
        s == (match free_bytes {
            Some(b) => if b < GIB { HealthStatus::Unhealthy } else if b < 5 * GIB { HealthStatus::Degraded }
                else { HealthStatus::Healthy },
            None => HealthStatus::Degraded,
        }),
{
    match free_bytes {
        Some(b) => {
            if b < GIB {
                HealthStatus::Unhealthy
            } else if b < 5 * GIB {
                HealthStatus::Degraded
            } else {
                HealthStatus::Healthy
            }
        },
        None => HealthStatus::Degraded,
    }
}

/// Checkpoint health from the age of the checkpoint file in seconds (none
/// when there is no file): degraded when older than five minutes.
pub fn checkpoint_health(age_secs: Option<u64>) -> (s: HealthStatus)
    ensures
        s == (if age_secs matches Some(a) && a > 300 { HealthStatus::Degraded } else { HealthStatus::Healthy }),
{
    match age_secs {
        Some(a) => if a > 300 { HealthStatus::Degraded } else { HealthStatus::Healthy },
        None => HealthStatus::Healthy,
    }
}

/// The worst status among `checks` (healthy when there are none).
pub open spec fn worst(checks: Seq<HealthStatus>) -> HealthStatus
    decreases checks.len(),
{
    if checks.len() == 0 {
        HealthStatus::Healthy
    } else {
        let w = worst(checks.drop_last());
        if severity(checks.last()) > severity(w) { checks.last() } else { w }
    }
}

/// The service status: unhealthy when any component is, else degraded
/// when any component is, else ok.
pub fn overall_health(checks: &[HealthStatus]) -> (s: HealthStatus)
    ensures
        s == worst(checks@),
{
    let mut w = HealthStatus::Healthy;
    let mut i: usize = 0;
    while i < checks.len()
        invariant
            i <= checks@.len(),
            w == worst(checks@.take(i as int)),
        decreases checks@.len() - i,
    {
        let c = checks[i];
        proof {
            assert(checks@.take(i + 1).drop_last() =~= checks@.take(i as int));
        }
        let rank_c: u8 = match c { HealthStatus::Healthy => 0, HealthStatus::Degraded => 1, HealthStatus::Unhealthy => 2 };
        let rank_w: u8 = match w { HealthStatus::Healthy => 0, HealthStatus::Degraded => 1, HealthStatus::Unhealthy => 2 };
        if rank_c > rank_w {
            w = c;
        }
        i = i + 1;
    }
    assert(checks@.take(checks@.len() as int) =~= checks@);
    w
}

/// The worst status is one of the components (or ok), no component is worse,
/// and it is unhealthy exactly when some component is.
pub proof fn lemma_worst_is_maximum(checks: Seq<HealthStatus>)
    ensures
        forall|i: int| 0 <= i < checks.len() ==> severity(#[trigger] checks[i]) <= severity(worst(checks)),
        worst(checks) == HealthStatus::Healthy || checks.contains(worst(checks)),
        worst(checks) == HealthStatus::Unhealthy <==> checks.contains(HealthStatus::Unhealthy),
    decreases checks.len(),
{
    if checks.len() > 0 {
        let init = checks.drop_last();
        lemma_worst_is_maximum(init);
        assert forall|i: int| 0 <= i < checks.len() implies severity(#[trigger] checks[i]) <= severity(worst(checks)) by {
            if i < checks.len() - 1 {
                assert(checks[i] == init[i]);
            }
        }
        if worst(checks) != HealthStatus::Healthy {
            if worst(checks) == checks.last() {
                assert(checks[checks.len() - 1] == worst(checks));
            } else {
                let j = choose|j: int| 0 <= j < init.len() && init[j] == worst(init);
                assert(checks[j] == worst(checks));
            }
        }
        if checks.contains(HealthStatus::Unhealthy) {
            let j = choose|j: int| 0 <= j < checks.len() && checks[j] == HealthStatus::Unhealthy;
            assert(severity(checks[j]) <= severity(worst(checks)));
        }
    }
}

/// The HTTP status of the deep health check: 503 when unhealthy, else 200.
pub fn health_http_status(s: HealthStatus) -> (code: u16)
    ensures
        code == (if s == HealthStatus::Unhealthy { 503u16 } else { 200u16 }),
{
    match s {
        HealthStatus::Unhealthy => 503,
        _ => 200,
    }
}

/// The status text of the response: "ok", "degraded" or "unhealthy".
pub fn health_str(s: HealthStatus) -> (t: &'static str)
    ensures
        t@ == (match s {
            HealthStatus::Healthy => "ok"@,
            HealthStatus::Degraded => "degraded"@,
            HealthStatus::Unhealthy => "unhealthy"@,
        }),
{
    match s {
        HealthStatus::Healthy => "ok",
        HealthStatus::Degraded => "degraded",
        HealthStatus::Unhealthy => "unhealthy",
    }
}

// ── readiness ───────────────────────────────────────────────────────

/// How a readiness probe ended.
#[derive(Debug, Clone, Copy, PartialEq, Eq, Structural)]
pub enum ProbeOutcome {
    Answered,
    Failed,
    TimedOut,
}

/// The critical readiness probes, in the order they run.
#[derive(Debug, Clone, Copy, PartialEq, Eq, Structural)]
pub enum ReadinessProbe {
    PrimaryDatabase,
    ReadReplica,
}

/// Why the service is not ready after a probe (answered 503 with this text),
/// or none when the probe answered.
pub open spec fn readiness_failure_of(probe: ReadinessProbe, outcome: ProbeOutcome) -> Option<Seq<char>> {
    match (probe, outcome) {
        (_, ProbeOutcome::Answered) => None,
        (ReadinessProbe::PrimaryDatabase, ProbeOutcome::Failed) => Some("primary database unreachable"@),
        (ReadinessProbe::PrimaryDatabase, ProbeOutcome::TimedOut) => Some("primary database timeout"@),
        (ReadinessProbe::ReadReplica, ProbeOutcome::Failed) => Some("read replica unreachable"@),
        (ReadinessProbe::ReadReplica, ProbeOutcome::TimedOut) => Some("read replica timeout"@),
    }
}

/// Why the service is not ready after a probe, if it is not.
pub fn readiness_failure(probe: ReadinessProbe, outcome: ProbeOutcome) -> (r: Option<&'static str>)
    ensures
        r matches Some(t) ==> readiness_failure_of(probe, outcome) == Some(t@),
        r is None ==> readiness_failure_of(probe, outcome) is None,
{
    match (probe, outcome) {
        (_, ProbeOutcome::Answered) => None,
        (ReadinessProbe::PrimaryDatabase, ProbeOutcome::Failed) => Some("primary database unreachable"),
        (ReadinessProbe::PrimaryDatabase, ProbeOutcome::TimedOut) => Some("primary database timeout"),
        (ReadinessProbe::ReadReplica, ProbeOutcome::Failed) => Some("read replica unreachable"),
        (ReadinessProbe::ReadReplica, ProbeOutcome::TimedOut) => Some("read replica timeout"),
    }
}

} // verus!
