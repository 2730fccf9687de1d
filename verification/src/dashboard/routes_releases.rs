//! Defaults and bounds of the worker-release queries and payloads.
use vstd::prelude::*;

verus! {

/// Default number of releases listed.
pub fn default_limit() -> (r: i64)
    ensures
        r == 50,
{
    50
}

/// Default window, in hours, for counting active workers.
pub fn default_active_hours() -> (r: i64)
    ensures
        r == 24,
{
    24
}

/// Default rollout percentage of a release.
pub fn default_rollout() -> (r: i32)
    ensures
        r == 100,
{
    100
}

/// The number of releases listed: the requested limit clamped to [1, 200].
pub fn release_list_limit(limit: i64) -> (r: i64)
    ensures
        r == (if limit < 1 { 1 } else if limit > 200 { 200 } else { limit }),
{
    if limit < 1 { 1 } else if limit > 200 { 200 } else { limit }
}

/// The adoption window in hours: the requested one clamped to [1, 720]
/// (thirty days).
pub fn release_health_window(active_hours: i64) -> (r: i64)
    ensures
        r == (if active_hours < 1 { 1 } else if active_hours > 720 { 720 } else { active_hours }),
{
    if active_hours < 1 { 1 } else if active_hours > 720 { 720 } else { active_hours }
}

} // verus!
