use vstd::prelude::*;

pub mod agent_daemon;
pub mod aurifeuillean;
pub mod batch_gcd;
pub mod bignum;
pub mod classify;
pub mod ai_engine;
pub mod commands;
pub mod dashboard;
pub mod ecm;
pub mod gerbicz;
pub mod log_layer;
pub mod search;
pub mod text;

verus! {

} // verus!
