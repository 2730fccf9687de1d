use darkreach::dashboard::coordinator::{CoordinatorClock, PeriodicJob, RetentionSettings};

const JOBS: [PeriodicJob; 5] = [
    PeriodicJob::ReliabilityRefresh,
    PeriodicJob::WorkerSpeedRefresh,
    PeriodicJob::MetricsSample,
    PeriodicJob::WorkerSample,
    PeriodicJob::Housekeeping,
];

#[test]
fn every_job_is_due_on_the_first_tick() {
    let mut c = CoordinatorClock::start(10_000_000);
    for job in JOBS {
        assert!(c.check(job, 10_000_000));
        assert!(!c.check(job, 10_000_000));
    }
}

#[test]
fn jobs_run_once_per_period() {
    let start = 10_000_000;
    let mut c = CoordinatorClock::start(start);
    assert!(c.check(PeriodicJob::MetricsSample, start));
    assert!(!c.check(PeriodicJob::MetricsSample, start + 59_999));
    assert!(c.check(PeriodicJob::MetricsSample, start + 60_000));
    assert!(c.check(PeriodicJob::Housekeeping, start + 60_000));
    assert!(!c.check(PeriodicJob::Housekeeping, start + 3_600_000));
    assert!(c.check(PeriodicJob::Housekeeping, start + 3_660_000));
    assert!(c.check(PeriodicJob::WorkerSample, start));
    assert!(!c.check(PeriodicJob::WorkerSample, start + 119_000));
    assert!(c.check(PeriodicJob::WorkerSample, start + 120_000));
}

#[test]
fn tick_interval_and_drift() {
    let mut c = CoordinatorClock::start(10_000_000);
    let t = c.tick(10_031_500);
    assert_eq!(t.interval_ms, 31_500);
    assert_eq!(t.drift_ms, 1_500);
    let t = c.tick(10_061_000);
    assert_eq!(t.interval_ms, 29_500);
    assert_eq!(t.drift_ms, -500);
    assert_eq!(c.last_tick_ms, 10_061_000);
}

#[test]
fn retention_defaults_and_overrides() {
    let r = RetentionSettings::from_settings(None, None, None, None);
    assert_eq!((r.log_days, r.metric_days, r.rollup_days, r.daily_rollup_days), (30, 7, 365, 1825));
    let r = RetentionSettings::from_settings(Some("14"), Some("x"), Some("-1"), Some("3650"));
    assert_eq!((r.log_days, r.metric_days, r.rollup_days, r.daily_rollup_days), (14, 7, -1, 3650));
}
