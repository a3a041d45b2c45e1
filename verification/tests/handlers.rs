//! Driving the handlers directly: the fail-fast invariant-violation error,
//! and the cancellation mechanism's exactly-one-outcome rule on a concrete
//! session.

use rrsim::request::{ReqPhase, ReqStatus};
use rrsim::sampler::DeterministicSampler;
use rrsim::simulation::{Simulation, SimError, SystemParams};

/// One core, one user, instantaneous service (mean 0), so a single quantum
/// completes the request at time zero and every handler can be exercised
/// without moving the clock.
fn params() -> SystemParams {
    SystemParams {
        n_cpu: 1,
        n_users: 1,
        ease_in_time: 1,
        max_iters: 16,
        buffer_capacity: 0,
        threadpool_size: 1,
        quantum: 500_000,
        ctxx_time: 0,
        service_time_mean: 0,
        req_timeout_min: 1_000_000,
        req_timeout_max: 1_000_001,
        think_time_mean: 1_000_000,
        think_time_std_dev: 0,
        retry_think_time_mean: 1_000_000,
        retry_think_time_std_dev: 0,
    }
}

#[test]
fn quantum_over_on_an_idle_core_is_an_invariant_violation() {
    let p = params();
    let mut smp = DeterministicSampler;
    let mut sim = Simulation::new(&p, &mut smp);
    sim.iters = 1;
    let res = sim.handle_quantum_over(0, &p);
    assert!(matches!(res, Err(SimError::InvariantViolation)));
}

#[test]
fn ctx_switched_on_an_idle_core_is_an_invariant_violation() {
    let p = params();
    let mut smp = DeterministicSampler;
    let mut sim = Simulation::new(&p, &mut smp);
    sim.iters = 1;
    let res = sim.handle_ctx_switched(0, &p);
    assert!(matches!(res, Err(SimError::InvariantViolation)));
}

#[test]
fn timeout_before_arrival_is_an_invariant_violation() {
    let p = params();
    let mut smp = DeterministicSampler;
    let mut sim = Simulation::new(&p, &mut smp);
    sim.iters = 1;
    assert!(matches!(sim.reqs[0].phase, ReqPhase::Pending));
    let res = sim.handle_timeout(0, &p, &mut smp);
    assert!(matches!(res, Err(SimError::InvariantViolation)));
}

#[test]
fn departure_before_arrival_is_an_invariant_violation() {
    let p = SystemParams { service_time_mean: 0, ..params() };
    let mut smp = DeterministicSampler;
    let mut sim = Simulation::new(&p, &mut smp);
    sim.iters = 1;
    // The request's remaining service is zero (mean 0), but its arrival
    // has not fired, so a departure for it is a scheduler defect.
    let res = sim.handle_departure(0, &p, &mut smp);
    assert!(matches!(res, Err(SimError::InvariantViolation)));
}

#[test]
fn second_arrival_for_the_same_request_is_an_invariant_violation() {
    let p = params();
    let mut smp = DeterministicSampler;
    let mut sim = Simulation::new(&p, &mut smp);
    sim.iters = 1;
    assert!(sim.handle_arrival(0, &p, &mut smp).is_ok());
    sim.iters = 2;
    let res = sim.handle_arrival(0, &p, &mut smp);
    assert!(matches!(res, Err(SimError::InvariantViolation)));
}

#[test]
fn departure_first_then_timeout_is_a_stale_no_op() {
    // The departure resolves the session (think branch: one new session is
    // scheduled); the late timeout then finds the request gone and does
    // nothing — never both outcomes, never neither.
    let p = params();
    let mut smp = DeterministicSampler;
    let mut sim = Simulation::new(&p, &mut smp);
    sim.iters = 1;
    assert!(sim.handle_arrival(0, &p, &mut smp).is_ok());
    // service was 0, so the single quantum completes it at time zero
    sim.iters = 2;
    assert!(sim.handle_quantum_over(0, &p).is_ok());
    assert_eq!(sim.reqs[0].remaining_service, 0);
    sim.iters = 3;
    assert!(sim.handle_departure(0, &p, &mut smp).is_ok());
    assert!(matches!(sim.reqs[0].phase, ReqPhase::Departed));
    assert!(matches!(sim.reqs[0].status, ReqStatus::AwaitingOutcome));
    assert_eq!(sim.metrics.n_processed, 1);
    // the think branch fired: one retry-free new session exists
    assert_eq!(sim.reqs.len(), 2);
    let events_before = sim.events.len();
    sim.iters = 4;
    assert!(sim.handle_timeout(0, &p, &mut smp).is_ok());
    // stale: no count, no mark, no new session, no new events
    assert_eq!(sim.metrics.n_timedout, 0);
    assert_eq!(sim.reqs.len(), 2);
    assert_eq!(sim.events.len(), events_before);
}

#[test]
fn timeout_first_then_departure_suppresses_the_think_branch() {
    // The timeout resolves the session (retry branch: it marks the request
    // and schedules the retry); the later departure must not schedule a
    // second session — never both outcomes.
    let p = params();
    let mut smp = DeterministicSampler;
    let mut sim = Simulation::new(&p, &mut smp);
    sim.iters = 1;
    assert!(sim.handle_arrival(0, &p, &mut smp).is_ok());
    sim.iters = 2;
    assert!(sim.handle_timeout(0, &p, &mut smp).is_ok());
    assert!(matches!(sim.reqs[0].status, ReqStatus::TimedOut));
    assert_eq!(sim.metrics.n_timedout, 1);
    assert_eq!(sim.reqs_in_sys.to_count, 1);
    // the retry branch created exactly one new session
    assert_eq!(sim.reqs.len(), 2);
    sim.iters = 3;
    assert!(sim.handle_quantum_over(0, &p).is_ok());
    sim.iters = 4;
    assert!(sim.handle_departure(0, &p, &mut smp).is_ok());
    assert!(matches!(sim.reqs[0].phase, ReqPhase::Departed));
    // no think-branch session on top of the retry
    assert_eq!(sim.reqs.len(), 2);
    assert_eq!(sim.metrics.n_processed, 1);
    assert_eq!(sim.reqs_in_sys.to_count, 0);
    assert_eq!(sim.metrics.n_timedout, 1);
}

#[test]
fn second_timeout_for_the_same_request_is_an_invariant_violation() {
    let p = params();
    let mut smp = DeterministicSampler;
    let mut sim = Simulation::new(&p, &mut smp);
    sim.iters = 1;
    assert!(sim.handle_arrival(0, &p, &mut smp).is_ok());
    sim.iters = 2;
    assert!(sim.handle_timeout(0, &p, &mut smp).is_ok());
    sim.iters = 3;
    let res = sim.handle_timeout(0, &p, &mut smp);
    assert!(matches!(res, Err(SimError::InvariantViolation)));
}
