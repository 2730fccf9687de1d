//! Defaults and bounds of the audit-log query.
use vstd::prelude::*;

verus! {

/// Default page size of an audit-log listing.
pub fn default_limit() -> (r: i64)
    ensures
        r == 100,
{
    100
}

/// The audit page asked for: the limit clamped to [1, 1000] and the offset
/// raised to at least 0.
pub fn audit_page(limit: i64, offset: i64) -> (r: (i64, i64))
    ensures
        r.0 == (if limit < 1 { 1 } else if limit > 1000 { 1000 } else { limit }),
        r.1 == (if offset < 0 { 0 } else { offset }),
{
    let l = if limit < 1 { 1 } else if limit > 1000 { 1000 } else { limit };
    let o = if offset < 0 { 0 } else { offset };
    (l, o)
}

} // verus!
