use darkreach::dashboard::health::{
    checkpoint_health, database_health, disk_health, health_http_status, health_str, overall_health,
    HealthStatus,
};

use darkreach::dashboard::health::HealthStatus::{Degraded, Healthy, Unhealthy};
use darkreach::dashboard::health::{readiness_failure, ProbeOutcome, ReadinessProbe};

const GIB: u64 = 1_073_741_824;

#[test]
fn component_checks() {
    assert_eq!(database_health(true), HealthStatus::Healthy);
    assert_eq!(database_health(false), HealthStatus::Unhealthy);
    assert_eq!(disk_health(Some(GIB - 1)), HealthStatus::Unhealthy);
    assert_eq!(disk_health(Some(GIB)), HealthStatus::Degraded);
    assert_eq!(disk_health(Some(5 * GIB - 1)), HealthStatus::Degraded);
    assert_eq!(disk_health(Some(5 * GIB)), HealthStatus::Healthy);
    assert_eq!(disk_health(None), HealthStatus::Degraded);
    assert_eq!(checkpoint_health(None), HealthStatus::Healthy);
    assert_eq!(checkpoint_health(Some(300)), HealthStatus::Healthy);
    assert_eq!(checkpoint_health(Some(301)), HealthStatus::Degraded);
}

#[test]
fn overall_is_the_worst_component() {
    assert_eq!(overall_health(&[]), Healthy);
    assert_eq!(overall_health(&[Healthy, Healthy]), Healthy);
    assert_eq!(overall_health(&[Healthy, Degraded, Healthy]), Degraded);
    assert_eq!(overall_health(&[Degraded, Unhealthy, Degraded]), Unhealthy);
    assert_eq!(overall_health(&[Unhealthy, Healthy]), Unhealthy);
}

#[test]
fn response_code_and_text() {
    assert_eq!(health_http_status(HealthStatus::Unhealthy), 503);
    assert_eq!(health_http_status(HealthStatus::Degraded), 200);
    assert_eq!(health_http_status(HealthStatus::Healthy), 200);
    assert_eq!(health_str(HealthStatus::Healthy), "ok");
    assert_eq!(health_str(HealthStatus::Degraded), "degraded");
    assert_eq!(health_str(HealthStatus::Unhealthy), "unhealthy");
}

#[test]
fn readiness_failures() {
    assert_eq!(readiness_failure(ReadinessProbe::PrimaryDatabase, ProbeOutcome::Answered), None);
    assert_eq!(
        readiness_failure(ReadinessProbe::PrimaryDatabase, ProbeOutcome::Failed),
        Some("primary database unreachable")
    );
    assert_eq!(
        readiness_failure(ReadinessProbe::PrimaryDatabase, ProbeOutcome::TimedOut),
        Some("primary database timeout")
    );
    assert_eq!(
        readiness_failure(ReadinessProbe::ReadReplica, ProbeOutcome::Failed),
        Some("read replica unreachable")
    );
    assert_eq!(
        readiness_failure(ReadinessProbe::ReadReplica, ProbeOutcome::TimedOut),
        Some("read replica timeout")
    );
    assert_eq!(readiness_failure(ReadinessProbe::ReadReplica, ProbeOutcome::Answered), None);
}
