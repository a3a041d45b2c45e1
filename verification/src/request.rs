//! Requests: one unit of work with a shrinking remaining-service counter,
//! together with the bookkeeping that the lazy timeout-reconciliation
//! protocol needs.

use vstd::prelude::*;

verus! {

/// The reconciliation flag of the cancellation mechanism.  It starts as
/// `AwaitingOutcome`, is set to `TimedOut` exactly once — when the request's
/// `Timeout` event fires while the request is still in the system — and is
/// read exactly once, when the request's `Departure` event fires.  No other
/// code writes it.
#[derive(Clone, Copy, Debug)]
pub enum ReqStatus {
    /// Neither the timeout nor the departure has resolved this request yet.
    AwaitingOutcome,
    /// The client gave up before the request departed.
    TimedOut,
}

/// Where in its lifecycle a request stands.  `Pending` and `InSystem`
/// requests are alive: a `Timeout` event firing on one of them counts as a
/// real timeout.  `Dropped` and `Departed` requests are gone, and a late
/// `Timeout` on them is a no-op.
#[derive(Clone, Copy, Debug)]
pub enum ReqPhase {
    /// Created and scheduled, but its `Arrival` event has not fired yet.
    Pending,
    /// Admitted: on a core, in the thread-pool queue, or in the buffer.
    InSystem,
    /// Rejected by the admission controller for want of a buffer slot.
    Dropped,
    /// Fully served; its `Departure` event has been processed.
    Departed,
}

/// One unit of work.  `id` is the request's index in the simulation's
/// request arena; events and queues refer to it by this handle.
#[derive(Clone, Copy, Debug)]
pub struct Request {
    pub id: usize,
    pub arrival_time: u64,
    pub total_service: u64,
    pub remaining_service: u64,
    pub status: ReqStatus,
    pub phase: ReqPhase,
}

impl Request {
    /// A fresh request: all of its service still to do, awaiting its
    /// arrival.  The caller allocates the handle; there is no ambient
    /// global counter.
    pub fn new(id: usize, arrival_ts: u64, service_time: u64) -> (r: Request)
        ensures
            r == (Request {
                id,
                arrival_time: arrival_ts,
                total_service: service_time,
                remaining_service: service_time,
                status: ReqStatus::AwaitingOutcome,
                phase: ReqPhase::Pending,
            }),
    {
        Request {
            id,
            arrival_time: arrival_ts,
            total_service: service_time,
            remaining_service: service_time,
            status: ReqStatus::AwaitingOutcome,
            phase: ReqPhase::Pending,
        }
    }

    /// Simulated time a core has actually spent running this request.
    pub open spec fn processed(self) -> int {
        self.total_service - self.remaining_service
    }

    /// A request never owes more service than it asked for.
    pub open spec fn wf(self) -> bool {
        self.remaining_service <= self.total_service
    }

    /// The request is still alive: a `Timeout` firing on it is a real
    /// timeout, not a stale no-op.
    pub open spec fn live(self) -> bool {
        self.phase is Pending || self.phase is InSystem
    }
}

/// Condition under which the `Timeout` handler takes its "successful"
/// reconciliation branch: count the request as timed out, mark it, and
/// schedule a retry arrival.
pub open spec fn timeout_schedules_retry(r: Request) -> bool {
    r.phase is InSystem && r.status is AwaitingOutcome
}

/// Condition under which the `Departure` handler takes its "successful"
/// reconciliation branch: the client never gave up, so a think-time-delayed
/// new arrival is scheduled for the same session.
pub open spec fn departure_schedules_think(r: Request) -> bool {
    r.phase is InSystem && r.status is AwaitingOutcome
}

/// What the `Timeout` handler's retry branch does to the request itself.
pub open spec fn after_timeout_fired(r: Request) -> Request {
    Request { status: ReqStatus::TimedOut, ..r }
}

/// What the `Departure` handler does to the request itself.
pub open spec fn after_departure(r: Request) -> Request {
    Request { phase: ReqPhase::Departed, ..r }
}

/// Cancellation exclusivity: for a request that is in the system, the
/// timeout retry branch and the departure think branch are mutually
/// exclusive outcomes — whichever of the two events resolves the request
/// first disables the other branch — and at departure time exactly one of
/// {think branch fires now, retry branch fired earlier (the status reads
/// `TimedOut`)} holds.
pub proof fn lemma_cancellation_exclusive(r: Request)
    ensures
        timeout_schedules_retry(r) ==> !departure_schedules_think(after_timeout_fired(r)),
        departure_schedules_think(r) ==> !timeout_schedules_retry(after_departure(r)),
        r.phase is InSystem ==> (departure_schedules_think(r) <==> !(r.status is TimedOut)),
{
}

} // verus!
