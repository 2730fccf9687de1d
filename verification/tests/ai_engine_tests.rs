use darkreach::ai_engine::{
    intel_fresh, intel_request_index, intel_task, min_cores_for_form, no_action_reason, portfolio_slots,
    searchable_range, stalled_pauses, fleet_imbalance, ActiveJob, DecisionKind, WorkerOnForm,
};

#[test]
fn portfolio_slots_small_fleet() {
    assert_eq!(portfolio_slots(2, 0), 1);
    assert_eq!(portfolio_slots(4, 1), 0);
}

#[test]
fn portfolio_slots_medium_fleet() {
    assert_eq!(portfolio_slots(10, 0), 2);
    assert_eq!(portfolio_slots(10, 2), 1);
    assert_eq!(portfolio_slots(10, 3), 0);
}

#[test]
fn portfolio_slots_large_fleet() {
    assert_eq!(portfolio_slots(20, 0), 2);
    assert_eq!(portfolio_slots(100, 7), 1);
    assert_eq!(portfolio_slots(100, -5), 2);
    assert_eq!(portfolio_slots(100, i32::MIN), 2);
}

#[test]
fn form_tables() {
    assert_eq!(searchable_range("wagstaff"), 50_000_000);
    assert_eq!(searchable_range("kbn"), 10_000_000);
    assert_eq!(searchable_range("near_repdigit"), 50_000);
    assert_eq!(searchable_range("carol_kynea"), 5_000_000);
    assert_eq!(searchable_range("other"), 1_000_000);
    assert_eq!(min_cores_for_form("repunit"), 16);
    assert_eq!(min_cores_for_form("primorial"), 8);
    assert_eq!(min_cores_for_form("twin"), 4);
}

fn job(id: i64, search_type: &str) -> ActiveJob {
    ActiveJob { id, search_type: search_type.to_string(), status: "running".to_string() }
}

#[test]
fn stalled_jobs_paused_with_reason() {
    let jobs = vec![job(4, "kbn"), job(9, "factorial"), job(9, "twin")];
    let pauses = stalled_pauses(&[9, 5, 4], &jobs);
    assert_eq!(
        pauses,
        vec![
            (9, "Job 9 (factorial) stalled: running >30min with 0 tested".to_string()),
            (4, "Job 4 (kbn) stalled: running >30min with 0 tested".to_string()),
        ]
    );
    assert!(stalled_pauses(&[], &jobs).is_empty());
}

#[test]
fn intel_freshness_by_key_and_age() {
    let mem = vec![
        ("competitive_intel:kbn".to_string(), 3i64),
        ("competitive_intel:twin".to_string(), 7i64),
    ];
    assert!(intel_fresh("kbn", &mem));
    assert!(!intel_fresh("twin", &mem));
    assert!(!intel_fresh("factorial", &mem));
}

#[test]
fn one_intel_request_per_tick() {
    let forms: Vec<String> = ["kbn", "twin", "factorial", "wagstaff"].iter().map(|s| s.to_string()).collect();
    let excluded = vec!["twin".to_string()];
    assert_eq!(intel_request_index(&forms, &excluded, &[true, false, false, false]), Some(2));
    assert_eq!(intel_request_index(&forms, &excluded, &[true, false, true, true]), None);
    assert_eq!(intel_request_index(&forms, &[], &[false, false, false, false]), Some(0));
    let (title, desc) = intel_task("kbn");
    assert_eq!(title, "Competitive Intel: kbn");
    assert!(desc.starts_with("Research the competitive landscape for kbn prime searching. Who else"));
    assert!(desc.ends_with("Return result as JSON: {\"competition_score\": <float>}"));
}

#[test]
fn no_action_reasons_in_order() {
    assert_eq!(no_action_reason(0, 0, 2, 0, 3, true), "No workers connected");
    assert_eq!(no_action_reason(4, 1, 2, 0, 3, true), "Only 1 idle workers (need 2)");
    assert_eq!(no_action_reason(4, 2, 2, 3, 3, true), "3 active projects (max 3)");
    assert_eq!(no_action_reason(4, 2, 2, 1, 3, true), "Monthly budget exhausted");
    assert_eq!(no_action_reason(4, 2, 2, 1, 3, false), "No actionable conditions met");
}

fn on(worker: &str, form: &str) -> WorkerOnForm {
    WorkerOnForm { worker_id: worker.to_string(), form: form.to_string() }
}

#[test]
fn fleet_imbalance_moves_workers_off_exhausted_forms() {
    let jobs = vec![job(1, "kbn"), job(2, "twin"), job(3, "factorial"), job(4, "twin")];
    let per_form = vec![("kbn".to_string(), 2u32), ("twin".to_string(), 0u32), ("factorial".to_string(), 0u32)];
    let speeds = vec![on("w9", "wagstaff")];
    let fleet = vec![on("w1", "kbn"), on("w3", "wagstaff"), on("w2", "kbn")];
    let (moves, reasoning) = fleet_imbalance(&jobs, &per_form, &speeds, &fleet).unwrap();
    assert_eq!(moves.len(), 2);
    assert_eq!((moves[0].worker_id.as_str(), moves[0].from_form.as_str(), moves[0].to_form.as_str()), ("w1", "kbn", "factorial"));
    assert_eq!((moves[1].worker_id.as_str(), moves[1].from_form.as_str(), moves[1].to_form.as_str()), ("w2", "kbn", "twin"));
    assert_eq!(reasoning, "Fleet imbalance: 2 workers moved from exhausted forms to underprovisioned forms");
}

#[test]
fn fleet_imbalance_stops_when_unstaffed_forms_run_out() {
    let jobs = vec![job(1, "kbn"), job(2, "twin")];
    let per_form = vec![("kbn".to_string(), 3u32)];
    let fleet = vec![on("a", "kbn"), on("b", "kbn"), on("c", "kbn")];
    let (moves, reasoning) = fleet_imbalance(&jobs, &per_form, &[], &fleet).unwrap();
    assert_eq!(moves.len(), 1);
    assert_eq!(moves[0].worker_id, "a");
    assert_eq!(moves[0].to_form, "twin");
    assert_eq!(reasoning, "Fleet imbalance: 1 workers moved from exhausted forms to underprovisioned forms");
}

#[test]
fn fleet_imbalance_none_when_balanced() {
    let jobs = vec![job(1, "kbn"), job(2, "twin")];
    let per_form = vec![("kbn".to_string(), 4u32), ("twin".to_string(), 0u32)];
    let fleet = vec![on("w1", "kbn")];
    // kbn still has blocks
    assert!(fleet_imbalance(&jobs, &per_form, &[on("w1", "kbn")], &fleet).is_none());
    // no unstaffed form
    let staffed = vec![("kbn".to_string(), 4u32), ("twin".to_string(), 1u32)];
    assert!(fleet_imbalance(&jobs, &staffed, &[], &fleet).is_none());
    // jobs that are not running do not count
    let mut paused = job(2, "twin");
    paused.status = "paused".to_string();
    assert!(fleet_imbalance(&[job(1, "kbn"), paused], &per_form, &[], &fleet).is_none());
    assert!(fleet_imbalance(&[], &per_form, &[], &fleet).is_none());
}

#[test]
fn decision_kinds_labels_and_actions() {
    let all = [
        (DecisionKind::CreateProject, "create_project", "executed"),
        (DecisionKind::PauseProject, "pause_project", "executed"),
        (DecisionKind::ExtendProject, "extend_project", "logged"),
        (DecisionKind::AbandonProject, "abandon_project", "logged"),
        (DecisionKind::RebalanceFleet, "rebalance_fleet", "executed"),
        (DecisionKind::RequestAgentIntel, "request_agent_intel", "executed"),
        (DecisionKind::VerifyResult, "verify_result", "logged"),
        (DecisionKind::NoAction, "no_action", "logged"),
    ];
    for (k, label, action) in all {
        assert_eq!(k.label(), label);
        assert_eq!(k.action(), action);
    }
}
