use darkreach::agent_daemon::{
    cancels_pending_siblings, completion_reason, completion_result_json, completion_summary,
    parent_event_summary, parent_event_type, schedule_action, status_to_db_str, AgentDaemonConfig,
    AgentStatus, ScheduleAction,
};

#[test]
fn status_mapping_completed() {
    assert_eq!(status_to_db_str(&AgentStatus::Completed), "completed");
}

#[test]
fn status_mapping_failed() {
    assert_eq!(
        status_to_db_str(&AgentStatus::Failed {
            reason: "exit 1".into()
        }),
        "failed"
    );
}

#[test]
fn status_mapping_timed_out_is_failed() {
    assert_eq!(status_to_db_str(&AgentStatus::TimedOut), "failed");
}

#[test]
fn status_mapping_cancelled() {
    assert_eq!(status_to_db_str(&AgentStatus::Cancelled), "cancelled");
}

#[test]
fn status_mapping_running() {
    assert_eq!(status_to_db_str(&AgentStatus::Running), "in_progress");
}

#[test]
fn config_from_settings_defaults() {
    let config = AgentDaemonConfig::from_settings(None, None, None, None, "host1");
    assert!(config.enabled, "daemon should be enabled by default");
    assert_eq!(config.poll_interval_secs, 5);
    assert_eq!(config.claim_interval_secs, 10);
    assert_eq!(config.stale_task_secs, 3600);
    assert_eq!(config.agent_name, "coordinator@host1");
}

#[test]
fn config_from_settings_switch_values() {
    let c = AgentDaemonConfig::from_settings(Some("false"), None, None, None, "h");
    assert!(!c.enabled, "daemon should be disabled by 'false'");
    let c = AgentDaemonConfig::from_settings(Some("0"), None, None, None, "h");
    assert!(!c.enabled, "daemon should be disabled by '0'");
    let c = AgentDaemonConfig::from_settings(Some("true"), None, None, None, "h");
    assert!(c.enabled, "daemon should be enabled by 'true'");
    let c = AgentDaemonConfig::from_settings(Some("FALSE"), None, None, None, "h");
    assert!(c.enabled);
}

#[test]
fn config_from_settings_numbers() {
    let c = AgentDaemonConfig::from_settings(None, Some("7"), Some("+42"), Some("-15"), "h");
    assert_eq!(c.poll_interval_secs, 7);
    assert_eq!(c.claim_interval_secs, 42);
    assert_eq!(c.stale_task_secs, -15);
    let c = AgentDaemonConfig::from_settings(None, Some("-7"), Some("abc"), Some("99999999999999999999"), "h");
    assert_eq!(c.poll_interval_secs, 5);
    assert_eq!(c.claim_interval_secs, 10);
    assert_eq!(c.stale_task_secs, 3600);
    let c = AgentDaemonConfig::from_settings(None, Some("18446744073709551615"), Some("18446744073709551616"), Some("-9223372036854775808"), "h");
    assert_eq!(c.poll_interval_secs, u64::MAX);
    assert_eq!(c.claim_interval_secs, 10);
    assert_eq!(c.stale_task_secs, i64::MIN);
    let c = AgentDaemonConfig::from_settings(None, Some(""), Some("+"), Some(" 5"), "h");
    assert_eq!(c.poll_interval_secs, 5);
    assert_eq!(c.claim_interval_secs, 10);
    assert_eq!(c.stale_task_secs, 3600);
}

#[test]
fn completion_reason_per_status() {
    assert_eq!(completion_reason(&AgentStatus::Failed { reason: "boom".to_string() }), Some("boom".to_string()));
    assert_eq!(completion_reason(&AgentStatus::TimedOut), Some("Timed out".to_string()));
    assert_eq!(completion_reason(&AgentStatus::Completed), None);
    assert_eq!(completion_reason(&AgentStatus::Cancelled), None);
}

#[test]
fn completion_summary_per_status() {
    assert_eq!(completion_summary(&AgentStatus::Completed), "Task completed");
    assert_eq!(completion_summary(&AgentStatus::Failed { reason: "oom".to_string() }), "Task failed: oom");
    assert_eq!(completion_summary(&AgentStatus::TimedOut), "Task timed out");
    assert_eq!(completion_summary(&AgentStatus::Cancelled), "Task cancelled");
    assert_eq!(completion_summary(&AgentStatus::Running), "Task finished");
}

#[test]
fn completion_result_json_matches_serde() {
    let out = completion_result_json(&AgentStatus::Completed, Some("done \"ok\"\n")).unwrap();
    let mut expected = serde_json::Map::new();
    expected.insert("text".to_string(), serde_json::Value::String("done \"ok\"\n".to_string()));
    assert_eq!(out, serde_json::Value::Object(expected).to_string());
    let err = completion_result_json(&AgentStatus::Failed { reason: "bad\tinput".to_string() }, None).unwrap();
    let mut expected = serde_json::Map::new();
    expected.insert("error".to_string(), serde_json::Value::String("bad\tinput".to_string()));
    assert_eq!(err, serde_json::Value::Object(expected).to_string());
    let timeout = completion_result_json(&AgentStatus::TimedOut, None).unwrap();
    assert_eq!(timeout, r#"{"error":"Timed out"}"#);
    assert_eq!(completion_result_json(&AgentStatus::Completed, None), None);
}

#[test]
fn parent_cascade_decisions() {
    assert!(cancels_pending_siblings("failed", "fail"));
    assert!(!cancels_pending_siblings("failed", "continue"));
    assert!(!cancels_pending_siblings("completed", "fail"));
    assert_eq!(parent_event_type("failed"), "parent_failed");
    assert_eq!(parent_event_type("completed"), "parent_completed");
    assert_eq!(parent_event_summary("Research", "completed"), "Parent task 'Research' auto-completed");
}

#[test]
fn schedule_actions() {
    match schedule_action("nightly", "template", Some("audit")) {
        ScheduleAction::ExpandTemplate { template } => assert_eq!(template, "audit"),
        _ => panic!("expected a template expansion"),
    }
    match schedule_action("nightly", "template", None) {
        ScheduleAction::MissingTemplate { error } => {
            assert_eq!(error, "template schedule 'nightly' missing template_name")
        }
        _ => panic!("expected a missing-template error"),
    }
    assert!(matches!(schedule_action("nightly", "direct", None), ScheduleAction::CreateTask));
    assert!(matches!(schedule_action("nightly", "", Some("audit")), ScheduleAction::CreateTask));
}

#[test]
fn completion_result_json_escapes_control_characters() {
    let out = completion_result_json(&AgentStatus::Completed, Some("a\u{1}b\\c\u{1f}é")).unwrap();
    assert_eq!(out, "{\"text\":\"a\\u0001b\\\\c\\u001fé\"}");
}
