//! Defaults of the agent-task and agent-memory request payloads, and the
//! row limit of the agent listings.
use vstd::prelude::*;

verus! {

/// Default permission level of a new agent task.
pub fn default_permission_level() -> (r: i32)
    ensures
        r == 1,
{
    1
}

/// Default priority of a new agent task.
pub fn default_priority() -> (r: String)
    ensures
        r@ == "normal"@,
{
    String::from_str("normal")
}

/// Default source of a new agent task.
pub fn default_source() -> (r: String)
    ensures
        r@ == "manual"@,
{
    String::from_str("manual")
}

/// Default category of an agent memory entry.
pub fn default_memory_category() -> (r: String)
    ensures
        r@ == "general"@,
{
    String::from_str("general")
}

/// Rows an agent task or event listing returns when no limit is given.
pub const DEFAULT_LIST_LIMIT: i64 = 100;

/// Most rows an agent task or event listing returns.
pub const MAX_LIST_LIMIT: i64 = 1000;

/// The row limit of an agent task or event listing: 100 when none is
/// given, at most 1000.
pub fn agent_list_limit(limit: Option<i64>) -> (r: i64)
    ensures
        r == (match limit {
            Some(l) => if l > MAX_LIST_LIMIT { MAX_LIST_LIMIT } else { l },
            None => DEFAULT_LIST_LIMIT,
        }),
{
    match limit {
        Some(l) => if l > MAX_LIST_LIMIT { MAX_LIST_LIMIT } else { l },
        None => DEFAULT_LIST_LIMIT,
    }
}

} // verus!
