//! Agent daemon configuration and the mapping of agent outcomes to the
//! database status column.
use vstd::prelude::*;
use crate::text::{str_eq, parse_u64, parse_i64, parse_u64_spec, parse_i64_spec, push_str};
use crate::search::block::{json_string_of, push_json_string};

verus! {

/// Lifecycle state of an agent process.
#[derive(Debug, Clone, PartialEq, Eq)]
pub enum AgentStatus {
    /// Agent finished successfully.
    Completed,
    /// Agent exited with an error.
    Failed { reason: String },
    /// Agent exceeded its time limit.
    TimedOut,
    /// Agent was cancelled by a user or by the budget.
    Cancelled,
    /// Agent is still running.
    Running,
}

/// The `agent_tasks.status` value for each agent state.
pub open spec fn status_db_str(status: AgentStatus) -> Seq<char> {
    match status {
        AgentStatus::Completed => "completed"@,
        AgentStatus::Failed { .. } => "failed"@,
        AgentStatus::TimedOut => "failed"@,
        AgentStatus::Cancelled => "cancelled"@,
        AgentStatus::Running => "in_progress"@,
    }
}

/// Map an [`AgentStatus`] variant to the database status string.
///
/// - `"completed"`: agent finished successfully
/// - `"failed"`: agent exited with error or timed out
/// - `"cancelled"`: agent was cancelled by user or budget
/// - `"in_progress"`: agent is still running
pub fn status_to_db_str(status: &AgentStatus) -> (s: &'static str)
    ensures
        s@ == status_db_str(*status),
{
    match status {
        AgentStatus::Completed => "completed",
        AgentStatus::Failed { .. } => "failed",
        AgentStatus::TimedOut => "failed",
        AgentStatus::Cancelled => "cancelled",
        AgentStatus::Running => "in_progress",
    }
}

/// Configuration for the agent daemon background loop.
pub struct AgentDaemonConfig {
    /// Interval in seconds for polling completed agents (fast tick).
    pub poll_interval_secs: u64,
    /// Interval in seconds for claiming new tasks (slow tick).
    pub claim_interval_secs: u64,
    /// Whether the daemon is enabled.
    pub enabled: bool,
    /// Threshold in seconds before an in-progress task is considered stale.
    pub stale_task_secs: i64,
    /// Identifier for this daemon instance (e.g., "coordinator@hostname").
    pub agent_name: String,
}

/// Whether the daemon switch setting leaves the daemon enabled: enabled unless
/// the setting is exactly `"false"` or `"0"`; enabled when the setting is absent.
pub open spec fn daemon_enabled(setting: Option<Seq<char>>) -> bool {
    match setting {
        Some(v) => v != "false"@ && v != "0"@,
        None => true,
    }
}

/// An unsigned setting: its parsed value, or `default` when absent or unparsable.
pub open spec fn u64_setting(setting: Option<Seq<char>>, default: u64) -> u64 {
    match setting {
        Some(v) => match parse_u64_spec(v) {
            Some(n) => n,
            None => default,
        },
        None => default,
    }
}

/// A signed setting: its parsed value, or `default` when absent or unparsable.
pub open spec fn i64_setting(setting: Option<Seq<char>>, default: i64) -> i64 {
    match setting {
        Some(v) => match parse_i64_spec(v) {
            Some(n) => n,
            None => default,
        },
        None => default,
    }
}

/// The view of an optional string setting.
pub open spec fn opt_view(o: Option<&str>) -> Option<Seq<char>> {
    match o {
        Some(s) => Some(s@),
        None => None,
    }
}

fn setting_u64(setting: Option<&str>, default: u64) -> (r: u64)
    ensures
        r == u64_setting(opt_view(setting), default),
{
    match setting {
        Some(v) => match parse_u64(v) {
            Some(n) => n,
            None => default,
        },
        None => default,
    }
}

pub(crate) fn setting_i64(setting: Option<&str>, default: i64) -> (r: i64)
    ensures
        r == i64_setting(opt_view(setting), default),
{
    match setting {
        Some(v) => match parse_i64(v) {
            Some(n) => n,
            None => default,
        },
        None => default,
    }
}

impl AgentDaemonConfig {
    /// Build the configuration from the raw values of its settings
    /// (`DARKREACH_AGENT_DAEMON`, `DARKREACH_AGENT_POLL_SECS`,
    /// `DARKREACH_AGENT_CLAIM_SECS`, `DARKREACH_AGENT_STALE_SECS`; `None` for an
    /// unset variable) and the host name.
    ///
    /// Defaults: enabled, poll 5 s, claim 10 s, stale 3600 s.
    pub fn from_settings(
        daemon: Option<&str>,
        poll_secs: Option<&str>,
        claim_secs: Option<&str>,
        stale_secs: Option<&str>,
        hostname: &str,
    ) -> (c: AgentDaemonConfig)
        ensures
            c.enabled == daemon_enabled(opt_view(daemon)),
            c.poll_interval_secs == u64_setting(opt_view(poll_secs), 5),
            c.claim_interval_secs == u64_setting(opt_view(claim_secs), 10),
            c.stale_task_secs == i64_setting(opt_view(stale_secs), 3600),
            c.agent_name@ == "coordinator@"@ + hostname@,
    {
        let enabled = match daemon {
            Some(v) => !str_eq(v, "false") && !str_eq(v, "0"),
            None => true,
        };
        let poll_interval_secs = setting_u64(poll_secs, 5);
        let claim_interval_secs = setting_u64(claim_secs, 10);
        let stale_task_secs = setting_i64(stale_secs, 3600);
        let mut agent_name = String::new();
        push_str(&mut agent_name, "coordinator@");
        push_str(&mut agent_name, hostname);
        assert(Seq::<char>::empty() + "coordinator@"@ + hostname@ =~= "coordinator@"@ + hostname@);
        AgentDaemonConfig {
            poll_interval_secs,
            claim_interval_secs,
            enabled,
            stale_task_secs,
            agent_name,
        }
    }
}

// ── finished agents ─────────────────────────────────────────────────

/// The failure reason recorded for a finished agent: its error when it
/// failed, "Timed out" when it ran out of time, none otherwise.
pub open spec fn completion_reason_of(status: AgentStatus) -> Option<Seq<char>> {
    match status {
        AgentStatus::Failed { reason } => Some(reason@),
        AgentStatus::TimedOut => Some("Timed out"@),
        _ => None,
    }
}

/// The failure reason recorded for a finished agent.
pub fn completion_reason(status: &AgentStatus) -> (r: Option<String>)
    ensures
        r matches Some(s) ==> completion_reason_of(*status) == Some(s@),
        r is None ==> completion_reason_of(*status) is None,
{
    match status {
        AgentStatus::Failed { reason } => Some(reason.clone()),
        AgentStatus::TimedOut => Some(String::from_str("Timed out")),
        _ => None,
    }
}

/// The summary of the completion event of a finished agent.
pub open spec fn completion_summary_of(status: AgentStatus) -> Seq<char> {
    match status {
        AgentStatus::Completed => "Task completed"@,
        AgentStatus::Failed { reason } => "Task failed: "@ + reason@,
        AgentStatus::TimedOut => "Task timed out"@,
        AgentStatus::Cancelled => "Task cancelled"@,
        AgentStatus::Running => "Task finished"@,
    }
}

/// The summary of the completion event of a finished agent.
pub fn completion_summary(status: &AgentStatus) -> (s: String)
    ensures
        s@ == completion_summary_of(*status),
{
    match status {
        AgentStatus::Completed => String::from_str("Task completed"),
        AgentStatus::Failed { reason } => {
            let mut s = String::from_str("Task failed: ");
            push_str(&mut s, reason.as_str());
            s
        },
        AgentStatus::TimedOut => String::from_str("Task timed out"),
        AgentStatus::Cancelled => String::from_str("Task cancelled"),
        AgentStatus::Running => String::from_str("Task finished"),
    }
}

/// The JSON result stored for a finished task: `{"text":…}` with the
/// agent's output when there is one, else `{"error":…}` with the failure
/// reason when there is one, else nothing.
pub open spec fn completion_result_of(status: AgentStatus, output: Option<Seq<char>>) -> Option<Seq<char>> {
    match output {
        Some(t) => Some("{\"text\":"@ + json_string_of(t) + "}"@),
        None => match completion_reason_of(status) {
            Some(r) => Some("{\"error\":"@ + json_string_of(r) + "}"@),
            None => None,
        },
    }
}

/// The characters of an optional string.
pub open spec fn opt_text(o: Option<&str>) -> Option<Seq<char>> {
    match o {
        Some(s) => Some(s@),
        None => None,
    }
}

fn json_object_of(key: &str, value: &str) -> (s: String)
    ensures
        s@ == "{\""@ + key@ + "\":"@ + json_string_of(value@) + "}"@,
{
    let mut s = String::from_str("{\"");
    push_str(&mut s, key);
    push_str(&mut s, "\":");
    push_json_string(&mut s, value);
    push_str(&mut s, "}");
    s
}

/// The JSON result stored for a finished task (see `completion_result_of`).
pub fn completion_result_json(status: &AgentStatus, output: Option<&str>) -> (r: Option<String>)
    ensures
        r matches Some(s) ==> completion_result_of(*status, opt_text(output)) == Some(s@),
        r is None ==> completion_result_of(*status, opt_text(output)) is None,
{
    match output {
        Some(t) => {
            let s = json_object_of("text", t);
            proof {
                reveal_strlit("text");
                assert(s@ =~= "{\"text\":"@ + json_string_of(t@) + "}"@) by {
                    reveal_strlit("{\"");
                    reveal_strlit("\":");
                    reveal_strlit("{\"text\":");
                }
            }
            Some(s)
        },
        None => match completion_reason(status) {
            Some(r) => {
                let s = json_object_of("error", r.as_str());
                proof {
                    reveal_strlit("error");
                    assert(s@ =~= "{\"error\":"@ + json_string_of(r@) + "}"@) by {
                        reveal_strlit("{\"");
                        reveal_strlit("\":");
                        reveal_strlit("{\"error\":");
                    }
                }
                Some(s)
            },
            None => None,
        },
    }
}

/// A failed child cancels its pending siblings when its parent's policy on
/// child failure is "fail".
pub fn cancels_pending_siblings(task_status: &str, on_child_failure: &str) -> (r: bool)
    ensures
        r == (task_status@ == "failed"@ && on_child_failure@ == "fail"@),
{
    str_eq(task_status, "failed") && str_eq(on_child_failure, "fail")
}

/// The event type recorded when a parent task completes once all its
/// children are done: "parent_failed" for a failed parent, else
/// "parent_completed".
pub fn parent_event_type(parent_status: &str) -> (t: &'static str)
    ensures
        t@ == (if parent_status@ == "failed"@ { "parent_failed"@ } else { "parent_completed"@ }),
{
    if str_eq(parent_status, "failed") { "parent_failed" } else { "parent_completed" }
}

/// The summary of that event: `Parent task '<title>' auto-<status>`.
pub fn parent_event_summary(title: &str, parent_status: &str) -> (s: String)
    ensures
        s@ == "Parent task '"@ + title@ + "' auto-"@ + parent_status@,
{
    let mut s = String::from_str("Parent task '");
    push_str(&mut s, title);
    push_str(&mut s, "' auto-");
    push_str(&mut s, parent_status);
    s
}

// ── schedules ───────────────────────────────────────────────────────

/// What firing a schedule does.
pub enum ScheduleAction {
    /// Expand the named template into a parent task and its children.
    ExpandTemplate { template: String },
    /// A template schedule without a template: nothing is created, and this
    /// error is reported.
    MissingTemplate { error: String },
    /// Create one flat task from the schedule's fields, with source "schedule".
    CreateTask,
}

/// What firing schedule `name` does: a "template" action expands its
/// template, or reports `template schedule '<name>' missing template_name`
/// when it has none; any other action creates a single task.
pub fn schedule_action(name: &str, action_type: &str, template_name: Option<&str>) -> (a: ScheduleAction)
    ensures
        action_type@ == "template"@ ==> match template_name {
            Some(t) => a matches ScheduleAction::ExpandTemplate { template } && template@ == t@,
            None => a matches ScheduleAction::MissingTemplate { error }
                && error@ == "template schedule '"@ + name@ + "' missing template_name"@,
        },
        action_type@ != "template"@ ==> a is CreateTask,
{
    if str_eq(action_type, "template") {
        match template_name {
            Some(t) => ScheduleAction::ExpandTemplate { template: String::from_str(t) },
            None => {
                let mut error = String::from_str("template schedule '");
                push_str(&mut error, name);
                push_str(&mut error, "' missing template_name");
                ScheduleAction::MissingTemplate { error }
            },
        }
    } else {
        ScheduleAction::CreateTask
    }
}

} // verus!
