//! Discrete-event simulator of a multi-core compute-serving node.
//!
//! Requests arrive, compete for a bounded pool of processing cores through an
//! admission-control and buffering policy, are served under preemptive
//! round-robin scheduling with modeled context-switch overhead, and may be
//! abandoned by impatient clients who later retry.  The engine computes the
//! counters and time-weighted integrals from which steady-state statistics
//! (throughput, goodput, utilization, response time, drop and timeout
//! fractions) are derived.
//!
//! Simulated time is measured in integer ticks, so every update to the clock,
//! to a request's remaining service and to the per-core busy-time counters is
//! exact; the host chooses the tick resolution when it converts its
//! configuration into [`simulation::SystemParams`].

use vstd::prelude::*;

pub mod counting;
pub mod cpu;
pub mod event;
pub mod request;
pub mod sampler;
pub mod simulation;

verus! {

/// Upper bound, in ticks, on any single sampled duration and on every
/// configured time parameter (quantum, context-switch cost, and so on).
/// Keeping individual durations below this bound lets the engine prove that
/// the simulation clock and all accumulated sums never overflow.
pub const MAX_SAMPLE: u64 = 0x1_0000_0000;

/// Upper bound on the iteration cap of a run (the runaway-simulation guard).
pub const MAX_ITERS: usize = 0x1000_0000;

/// Upper bound on the size of the initial user population.
pub const MAX_USERS: usize = 0x1000_0000;

} // verus!
