//! Reliable, ordered, congestion-controlled delivery for one substream of a
//! packet multiplexer.
//!
//! The library holds the decisions of the per-connection actor: which events
//! may fire, and what each event does to the connection's state and what it
//! sends or delivers. The caller runs the loop: it waits on timers and I/O,
//! hands each event to [`connvars::ConnVars::process_one`], and performs the
//! actions that come back.
use vstd::prelude::*;

pub mod ackset;
pub mod codec;
pub mod congestion;
pub mod connvars;
pub mod inflight;
pub mod message;
pub mod reorderer;

verus! {

} // verus!
