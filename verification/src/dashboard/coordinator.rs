//! Timing decisions of the coordinator's background loop: which periodic
//! jobs are due on a tick, how far the tick drifted from its 30-second
//! period, and how long observability data is kept.
//!
//! Times are milliseconds on a monotonic clock; the loop reads the clock and
//! hands the reading in, then runs the jobs that were found due.
use vstd::prelude::*;
use crate::agent_daemon::{i64_setting, opt_view, setting_i64};

verus! {

/// Period of the coordinator tick.
pub const TICK_PERIOD_MS: i64 = 30_000;

/// The periodic jobs of the coordinator loop.
#[derive(Debug, Clone, Copy, PartialEq, Eq, Structural)]
pub enum PeriodicJob {
    /// Refresh node reliability data (every 5 minutes).
    ReliabilityRefresh,
    /// Refresh the worker-speed view (every 5 minutes).
    WorkerSpeedRefresh,
    /// Persist metric samples (every minute).
    MetricsSample,
    /// Sample per-worker metrics, checked while metrics are sampled
    /// (every 2 minutes).
    WorkerSample,
    /// Roll up and prune metrics, prune logs, refresh views (hourly).
    Housekeeping,
}

/// The period of each job, in milliseconds.
pub open spec fn job_period(j: PeriodicJob) -> nat {
    match j {
        PeriodicJob::ReliabilityRefresh => 300_000,
        PeriodicJob::WorkerSpeedRefresh => 300_000,
        PeriodicJob::MetricsSample => 60_000,
        PeriodicJob::WorkerSample => 120_000,
        PeriodicJob::Housekeeping => 3_600_000,
    }
}

/// When the coordinator loop last ticked and last ran each job.
#[derive(Debug, Clone, Copy, PartialEq, Eq, Structural)]
pub struct CoordinatorClock {
    pub last_tick_ms: u64,
    pub last_reliability_ms: u64,
    pub last_worker_speed_ms: u64,
    pub last_metrics_ms: u64,
    pub last_worker_sample_ms: u64,
    pub last_housekeeping_ms: u64,
}

/// When `job` last ran.
pub open spec fn last_run(c: CoordinatorClock, job: PeriodicJob) -> u64 {
    match job {
        PeriodicJob::ReliabilityRefresh => c.last_reliability_ms,
        PeriodicJob::WorkerSpeedRefresh => c.last_worker_speed_ms,
        PeriodicJob::MetricsSample => c.last_metrics_ms,
        PeriodicJob::WorkerSample => c.last_worker_sample_ms,
        PeriodicJob::Housekeeping => c.last_housekeeping_ms,
    }
}

/// The clock with `job` recorded as run at `now`.
pub open spec fn with_run(c: CoordinatorClock, job: PeriodicJob, now: u64) -> CoordinatorClock {
    match job {
        PeriodicJob::ReliabilityRefresh => CoordinatorClock { last_reliability_ms: now, ..c },
        PeriodicJob::WorkerSpeedRefresh => CoordinatorClock { last_worker_speed_ms: now, ..c },
        PeriodicJob::MetricsSample => CoordinatorClock { last_metrics_ms: now, ..c },
        PeriodicJob::WorkerSample => CoordinatorClock { last_worker_sample_ms: now, ..c },
        PeriodicJob::Housekeeping => CoordinatorClock { last_housekeeping_ms: now, ..c },
    }
}

/// A job is due once its period has elapsed since it last ran.
pub open spec fn is_due(c: CoordinatorClock, job: PeriodicJob, now: u64) -> bool {
    now - last_run(c, job) >= job_period(job)
}

/// Checking a job at `now`: when due, it runs and is recorded as run at
/// `now`; otherwise the clock is unchanged.
pub open spec fn check_step(c: CoordinatorClock, job: PeriodicJob, now: u64) -> (CoordinatorClock, bool) {
    if is_due(c, job, now) { (with_run(c, job, now), true) } else { (c, false) }
}

/// The tick length and its drift from the 30-second period.
pub struct TickTiming {
    /// Time since the previous tick (capped at i64::MAX).
    pub interval_ms: i64,
    /// `interval_ms` minus the 30-second period.
    pub drift_ms: i64,
}

impl CoordinatorClock {
    /// The clock when the loop starts at `now_ms`: every job is due on the
    /// first tick (each is recorded as run one period ago). The loop cannot
    /// start less than an hour after the clock's origin, as the housekeeping
    /// record would fall before it.
    pub fn start(now_ms: u64) -> (c: CoordinatorClock)
        requires
            now_ms >= 3_600_000,
        ensures
            c.last_tick_ms == now_ms,
            forall|j: PeriodicJob| #[trigger] last_run(c, j) == now_ms - job_period(j),
    {
        let c = CoordinatorClock {
            last_tick_ms: now_ms,
            last_reliability_ms: now_ms - 300_000,
            last_worker_speed_ms: now_ms - 300_000,
            last_metrics_ms: now_ms - 60_000,
            last_worker_sample_ms: now_ms - 120_000,
            last_housekeeping_ms: now_ms - 3_600_000,
        };
        assert forall|j: PeriodicJob| #[trigger] last_run(c, j) == now_ms - job_period(j) by {
            match j {
                PeriodicJob::ReliabilityRefresh => {},
                PeriodicJob::WorkerSpeedRefresh => {},
                PeriodicJob::MetricsSample => {},
                PeriodicJob::WorkerSample => {},
                PeriodicJob::Housekeeping => {},
            }
        }
        c
    }

    /// Record a tick at `now_ms` and measure it against the previous one.
    pub fn tick(&mut self, now_ms: u64) -> (t: TickTiming)
        requires
            old(self).last_tick_ms <= now_ms,
        ensures
            t.interval_ms == (if now_ms - old(self).last_tick_ms > i64::MAX { i64::MAX as int }
                else { now_ms - old(self).last_tick_ms }),
            t.drift_ms == t.interval_ms - TICK_PERIOD_MS,
            *final(self) == (CoordinatorClock { last_tick_ms: now_ms, ..*old(self) }),
    {
        let elapsed = now_ms - self.last_tick_ms;
        let interval_ms: i64 = if elapsed > i64::MAX as u64 { i64::MAX } else { elapsed as i64 };
        self.last_tick_ms = now_ms;
        TickTiming { interval_ms, drift_ms: interval_ms - TICK_PERIOD_MS }
    }

    /// Whether `job` is due at `now_ms`; a due job is recorded as run.
    pub fn check(&mut self, job: PeriodicJob, now_ms: u64) -> (due: bool)
        requires
            last_run(*old(self), job) <= now_ms,
        ensures
            (*final(self), due) == check_step(*old(self), job, now_ms),
    {
        let (last, period): (u64, u64) = match job {
            PeriodicJob::ReliabilityRefresh => (self.last_reliability_ms, 300_000),
            PeriodicJob::WorkerSpeedRefresh => (self.last_worker_speed_ms, 300_000),
            PeriodicJob::MetricsSample => (self.last_metrics_ms, 60_000),
            PeriodicJob::WorkerSample => (self.last_worker_sample_ms, 120_000),
            PeriodicJob::Housekeeping => (self.last_housekeeping_ms, 3_600_000),
        };
        if now_ms - last >= period {
            match job {
                PeriodicJob::ReliabilityRefresh => self.last_reliability_ms = now_ms,
                PeriodicJob::WorkerSpeedRefresh => self.last_worker_speed_ms = now_ms,
                PeriodicJob::MetricsSample => self.last_metrics_ms = now_ms,
                PeriodicJob::WorkerSample => self.last_worker_sample_ms = now_ms,
                PeriodicJob::Housekeeping => self.last_housekeeping_ms = now_ms,
            }
            true
        } else {
            false
        }
    }
}

/// A job never runs twice within its period: after it ran at `t1`, a check
/// at any later `t2` runs it again only if a whole period has passed; and a
/// check then does run it.
pub proof fn lemma_job_runs_spaced(c: CoordinatorClock, job: PeriodicJob, t1: u64, t2: u64)
    requires
        last_run(c, job) <= t1 <= t2,
        check_step(c, job, t1).1,
    ensures
        check_step(check_step(c, job, t1).0, job, t2).1 <==> t2 - t1 >= job_period(job),
{
    let c1 = check_step(c, job, t1).0;
    assert(last_run(c1, job) == t1) by {
        match job {
            PeriodicJob::ReliabilityRefresh => {},
            PeriodicJob::WorkerSpeedRefresh => {},
            PeriodicJob::MetricsSample => {},
            PeriodicJob::WorkerSample => {},
            PeriodicJob::Housekeeping => {},
        }
    }
}

/// The schedule of each job: once it has run at `t1`, a check at a later
/// `t2` runs it again exactly when `t2 - t1` reaches 5 minutes for the
/// reliability and worker-speed refreshes, 1 minute for the metric samples,
/// 2 minutes for the worker samples and 1 hour for housekeeping.
pub proof fn lemma_job_schedule(c: CoordinatorClock, job: PeriodicJob, t1: u64, t2: u64)
    requires
        last_run(c, job) <= t1 <= t2,
        check_step(c, job, t1).1,
    ensures
        job == PeriodicJob::ReliabilityRefresh
            ==> (check_step(check_step(c, job, t1).0, job, t2).1 <==> t2 - t1 >= 300_000),
        job == PeriodicJob::WorkerSpeedRefresh
            ==> (check_step(check_step(c, job, t1).0, job, t2).1 <==> t2 - t1 >= 300_000),
        job == PeriodicJob::MetricsSample
            ==> (check_step(check_step(c, job, t1).0, job, t2).1 <==> t2 - t1 >= 60_000),
        job == PeriodicJob::WorkerSample
            ==> (check_step(check_step(c, job, t1).0, job, t2).1 <==> t2 - t1 >= 120_000),
        job == PeriodicJob::Housekeeping
            ==> (check_step(check_step(c, job, t1).0, job, t2).1 <==> t2 - t1 >= 3_600_000),
{
    lemma_job_runs_spaced(c, job, t1, t2);
}

/// A clock just started at `now` (each job recorded one period before it)
/// runs every job on its first check at `now`.
pub proof fn lemma_started_clock_runs_all(c: CoordinatorClock, job: PeriodicJob, now: u64)
    requires
        now >= 3_600_000,
        forall|j: PeriodicJob| #[trigger] last_run(c, j) == now - job_period(j),
    ensures
        check_step(c, job, now).1,
{
    assert(last_run(c, job) == now - job_period(job));
}

/// Checking one job leaves the records of the other jobs and of the tick as
/// they were.
pub proof fn lemma_check_is_local(c: CoordinatorClock, job: PeriodicJob, other: PeriodicJob, now: u64)
    requires
        job != other,
    ensures
        last_run(check_step(c, job, now).0, other) == last_run(c, other),
        check_step(c, job, now).0.last_tick_ms == c.last_tick_ms,
{
    match job {
        PeriodicJob::ReliabilityRefresh => {},
        PeriodicJob::WorkerSpeedRefresh => {},
        PeriodicJob::MetricsSample => {},
        PeriodicJob::WorkerSample => {},
        PeriodicJob::Housekeeping => {},
    }
}

/// How long observability data is kept, in days.
pub struct RetentionSettings {
    pub log_days: i64,
    pub metric_days: i64,
    pub rollup_days: i64,
    pub daily_rollup_days: i64,
}

impl RetentionSettings {
    /// Retention from the raw values of `OBS_LOG_RETENTION_DAYS`,
    /// `OBS_METRIC_RETENTION_DAYS`, `OBS_ROLLUP_RETENTION_DAYS` and
    /// `OBS_DAILY_ROLLUP_RETENTION_DAYS` (`None` when unset); an unset or
    /// unparsable value takes its default: 30, 7, 365 and 1825 days.
    pub fn from_settings(log: Option<&str>, metric: Option<&str>, rollup: Option<&str>,
        daily_rollup: Option<&str>) -> (r: RetentionSettings)
        ensures
            r.log_days == i64_setting(opt_view(log), 30),
            r.metric_days == i64_setting(opt_view(metric), 7),
            r.rollup_days == i64_setting(opt_view(rollup), 365),
            r.daily_rollup_days == i64_setting(opt_view(daily_rollup), 1825),
    {
        RetentionSettings {
            log_days: setting_i64(log, 30),
            metric_days: setting_i64(metric, 7),
            rollup_days: setting_i64(rollup, 365),
            daily_rollup_days: setting_i64(daily_rollup, 1825),
        }
    }
}

} // verus!
