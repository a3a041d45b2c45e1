//! The event-driven scheduling engine: admission control, quantum-based
//! preemptive round robin with modeled context-switch overhead, lazy timeout
//! reconciliation, and the statistics aggregator.
//!
//! All state lives in arenas addressed by stable integer handles — requests
//! and cores are never aliased, the queues and events hold handles only —
//! and the whole run is driven by one deterministic event loop.

use vstd::prelude::*;

use crate::counting::{
    count_where, lemma_count_where_bounds, lemma_count_where_disjoint, lemma_count_where_le,
    lemma_count_where_member, lemma_count_where_none, lemma_count_where_push,
    lemma_count_where_update, lemma_count_where_witness, lemma_sum_of_dominates_count, lemma_sum_of_member_lower, lemma_sum_of_push,
    lemma_sum_of_update, sum_of,
};
use crate::cpu::{Cpu, CpuState};
use crate::event::{event_le, Event, EventQueue, EventType};
use crate::request::{
    after_departure, after_timeout_fired, departure_schedules_think, timeout_schedules_retry,
    ReqPhase, ReqStatus, Request,
};
use crate::sampler::Sampler;
use crate::{MAX_ITERS, MAX_SAMPLE, MAX_USERS};

verus! {

/// Upper bound on what one departure can add to the response-time sum:
/// no instant of a run ever exceeds this many ticks.
pub const RESP_STEP: u128 = 0x4000_0000_0000_0000;

/// Upper bound on the number of requests a run can ever have created.
pub const REQ_BOUND: u128 = 0x2000_0000;

/// Upper bound on what one admission or departure can add to the
/// time-weighted queue-length integral.
pub const WT_STEP: u128 = RESP_STEP * REQ_BOUND;

/// The validated configuration record of a run.  All times are in ticks.
#[derive(Clone, Copy, Debug)]
pub struct SystemParams {
    pub n_cpu: usize,
    pub n_users: usize,
    pub ease_in_time: u64,
    pub max_iters: usize,
    pub buffer_capacity: usize,
    pub threadpool_size: usize,
    pub quantum: u64,
    pub ctxx_time: u64,
    pub service_time_mean: u64,
    pub req_timeout_min: u64,
    pub req_timeout_max: u64,
    pub think_time_mean: u64,
    pub think_time_std_dev: u64,
    pub retry_think_time_mean: u64,
    pub retry_think_time_std_dev: u64,
}

impl SystemParams {
    /// The bounds under which a run is defined: every configured duration
    /// fits in [`MAX_SAMPLE`] ticks, the timeout window is non-empty, the
    /// ease-in window is non-empty, and the population and iteration cap
    /// stay below the fixed limits.
    pub open spec fn valid(self) -> bool {
        &&& 1 <= self.ease_in_time <= MAX_SAMPLE
        &&& self.req_timeout_min < self.req_timeout_max
        &&& self.req_timeout_max <= MAX_SAMPLE
        &&& self.quantum <= MAX_SAMPLE
        &&& self.ctxx_time <= MAX_SAMPLE
        &&& self.service_time_mean <= MAX_SAMPLE
        &&& self.think_time_mean <= MAX_SAMPLE
        &&& self.think_time_std_dev <= MAX_SAMPLE
        &&& self.retry_think_time_mean <= MAX_SAMPLE
        &&& self.retry_think_time_std_dev <= MAX_SAMPLE
        &&& 1 <= self.max_iters <= MAX_ITERS
        &&& self.n_users <= MAX_USERS
    }

    /// Runtime check of [`SystemParams::valid`], for hosts that assemble a
    /// configuration from unvalidated input.
    pub fn is_valid(&self) -> (r: bool)
        ensures
            r == self.valid(),
    {
        1 <= self.ease_in_time && self.ease_in_time <= MAX_SAMPLE
            && self.req_timeout_min < self.req_timeout_max
            && self.req_timeout_max <= MAX_SAMPLE && self.quantum <= MAX_SAMPLE
            && self.ctxx_time <= MAX_SAMPLE && self.service_time_mean <= MAX_SAMPLE
            && self.think_time_mean <= MAX_SAMPLE && self.think_time_std_dev <= MAX_SAMPLE
            && self.retry_think_time_mean <= MAX_SAMPLE
            && self.retry_think_time_std_dev <= MAX_SAMPLE && 1 <= self.max_iters
            && self.max_iters <= MAX_ITERS && self.n_users <= MAX_USERS
    }
}

/// The counters and sums accumulated over a run, from which the derived
/// statistics (throughput, goodput, utilization, and so on) are ratios.
#[derive(Clone, Copy, Debug)]
pub struct SystemMetrics {
    /// The simulation clock: timestamp of the last event processed.
    pub time: u64,
    pub n_arrivals: usize,
    /// Completed departures, including requests whose client had timed out.
    pub n_processed: usize,
    /// Timeouts that fired on a live request, including those whose request
    /// was still in service at the end of the run.
    pub n_timedout: usize,
    pub n_dropped: usize,
    /// Requests that timed out and were still in service at the end.
    pub n_to_in_proc: usize,
    pub sum_resp_time: u128,
    /// Total service demand of the requests that departed: the work the
    /// node completed end to end.
    pub sum_service_time: u128,
    /// Time-weighted integral of the number of requests in the system.
    pub wt_sum_reqs_in_sys: u128,
    pub total_procd_time: u128,
    pub total_ctxx_time: u128,
    /// Events processed by the run.
    pub n_events: usize,
    /// Whether the iteration cap ended the run (the runaway guard fired)
    /// rather than natural exhaustion of the event queue.
    pub capped: bool,
}

impl SystemMetrics {
    /// A zeroed record, the state before any event has been processed.
    pub open spec fn zero() -> SystemMetrics {
        SystemMetrics {
            time: 0,
            n_arrivals: 0,
            n_processed: 0,
            n_timedout: 0,
            n_dropped: 0,
            n_to_in_proc: 0,
            sum_resp_time: 0,
            sum_service_time: 0,
            wt_sum_reqs_in_sys: 0,
            total_procd_time: 0,
            total_ctxx_time: 0,
            n_events: 0,
            capped: false,
        }
    }

    /// Sanity of a completed run's record: the counters are mutually
    /// consistent, and the cores' accounted time never exceeds the wall
    /// clock times the number of cores (so the derived CPU utilization lies
    /// in `[0, 1]`).
    pub open spec fn sane(self, p: SystemParams) -> bool {
        &&& self.n_to_in_proc <= self.n_timedout
        &&& self.n_timedout - self.n_to_in_proc <= self.n_processed
        &&& self.n_processed + self.n_dropped <= self.n_arrivals
        &&& self.total_procd_time + self.total_ctxx_time <= self.time * p.n_cpu
    }

    /// Departures whose client was still waiting: the goodput numerator.
    /// `n_timedout - n_to_in_proc` is the number of departed requests whose
    /// client had already given up.
    pub fn n_processed_in_time(&self) -> (r: usize)
        requires
            self.n_to_in_proc <= self.n_timedout,
            self.n_timedout - self.n_to_in_proc <= self.n_processed,
        ensures
            r == self.n_processed - (self.n_timedout - self.n_to_in_proc),
    {
        self.n_processed - (self.n_timedout - self.n_to_in_proc)
    }
}

/// The one error class of the engine: an event fired against a core or
/// request whose state the scheduler's own rules forbid (a core found not
/// `Busy` at a `QuantumOver`, not `CtxSwitching` at a `CtxSwitched`, an
/// event subject in an impossible lifecycle phase, or a quantum accounting
/// mismatch).  It indicates a logic defect, never a recoverable runtime
/// condition; a run aborts on it rather than corrupt its statistics.
#[derive(Clone, Copy, Debug)]
pub enum SimError {
    InvariantViolation,
}

/// Bookkeeping for the time-weighted queue-length integral.
#[derive(Clone, Copy, Debug)]
pub struct ReqsInSystem {
    /// When `count` last changed.
    pub last_mod_ts: u64,
    /// Requests currently in the system (admitted and not yet departed).
    pub count: usize,
    /// Requests in the system whose client has timed out.
    pub to_count: usize,
}

/// Spec-level bound on the timestamp of any event and of the clock after
/// `iters` iterations: the initial events lie within two sample bounds of
/// the origin, and each iteration can push events at most three sample
/// bounds past the instant at which it runs.
pub open spec fn horizon(iters: int) -> int {
    (2 + 3 * iters) * (MAX_SAMPLE as int)
}

/// Within the iteration cap, the horizon stays below what one departure may
/// add to the response-time sum, so every sum stays within its growth bound.
pub proof fn lemma_horizon_cap(i: int)
    requires
        0 <= i <= MAX_ITERS,
    ensures
        0 <= horizon(i) < RESP_STEP as int,
{
}

/// Requests currently admitted and not yet departed or dropped.
pub open spec fn is_in_system() -> spec_fn(Request) -> bool {
    |r: Request| r.phase is InSystem
}

/// In-system requests whose client has timed out.
pub open spec fn is_in_system_timed_out() -> spec_fn(Request) -> bool {
    |r: Request| r.phase is InSystem && r.status is TimedOut
}

/// Requests whose `Arrival` event has been processed.
pub open spec fn is_arrived() -> spec_fn(Request) -> bool {
    |r: Request| !(r.phase is Pending)
}

/// Requests that departed with all their service done.
pub open spec fn is_departed() -> spec_fn(Request) -> bool {
    |r: Request| r.phase is Departed
}

/// Requests rejected by the admission controller.
pub open spec fn is_dropped() -> spec_fn(Request) -> bool {
    |r: Request| r.phase is Dropped
}

/// Departed requests whose client had timed out first.
pub open spec fn is_departed_timed_out() -> spec_fn(Request) -> bool {
    |r: Request| r.phase is Departed && r.status is TimedOut
}

/// The service demand a request contributes once it has departed.
pub open spec fn departed_service() -> spec_fn(Request) -> int {
    |r: Request| if r.phase is Departed {
        r.total_service as int
    } else {
        0
    }
}

/// The pending `Arrival` events of request `r`.
pub open spec fn is_arrival_for(r: int) -> spec_fn(Event) -> bool {
    |e: Event| e.kind matches EventType::Arrival(x) && x == r
}

/// The pending `Timeout` events of request `r`.
pub open spec fn is_timeout_for(r: int) -> spec_fn(Event) -> bool {
    |e: Event| e.kind matches EventType::Timeout(x) && x == r
}

/// The pending `Departure` events of request `r`.
pub open spec fn is_departure_for(r: int) -> spec_fn(Event) -> bool {
    |e: Event| e.kind matches EventType::Departure(x) && x == r
}

/// The pending `QuantumOver` events of core `c`.
pub open spec fn is_qo_for(c: int) -> spec_fn(Event) -> bool {
    |e: Event| e.kind matches EventType::QuantumOver(x) && x == c
}

/// The pending `CtxSwitched` events of core `c`.
pub open spec fn is_cs_for(c: int) -> spec_fn(Event) -> bool {
    |e: Event| e.kind matches EventType::CtxSwitched(x) && x == c
}

/// Thread-pool slots held on a core.
pub open spec fn slots_of() -> spec_fn(Cpu) -> int {
    |c: Cpu| c.slots_held()
}

/// A core's accumulated processing time.
pub open spec fn procd_of() -> spec_fn(Cpu) -> int {
    |c: Cpu| c.total_procd_time as int
}

/// A core's accumulated context-switch time.
pub open spec fn ctxx_of() -> spec_fn(Cpu) -> int {
    |c: Cpu| c.total_ctxx_time as int
}

/// The complete state of a run between two events.
pub struct Simulation {
    pub events: EventQueue,
    /// Arena of every request ever created in this run; handle = index.
    pub reqs: Vec<Request>,
    /// Arena of cores; handle = index.
    pub cpus: Vec<Cpu>,
    /// Handles of currently idle cores.
    pub idle_cpus: Vec<usize>,
    /// Requests holding a thread-pool slot but waiting for a core.
    pub tpool: Vec<usize>,
    /// The bounded overflow buffer.
    pub rbuff: Vec<usize>,
    /// Requests currently in service (holding a thread-pool slot).
    pub n_threads: usize,
    pub reqs_in_sys: ReqsInSystem,
    pub metrics: SystemMetrics,
    /// Events processed so far (the runaway-simulation guard counts these).
    pub iters: usize,
}

impl Simulation {
    /// Conservation: the in-service count equals the thread-pool slots held
    /// on cores plus the requests queued in the thread pool.
    pub open spec fn conservation(self) -> bool {
        self.n_threads as int == sum_of(self.cpus@, slots_of()) + self.tpool@.len()
    }

    pub open spec fn wf_params(self, p: SystemParams) -> bool {
        &&& self.cpus@.len() == p.n_cpu
        &&& self.n_threads <= p.threadpool_size
        &&& self.rbuff@.len() <= p.buffer_capacity
        &&& self.iters <= p.max_iters
        &&& self.reqs@.len() <= p.n_users + self.iters
    }

    pub open spec fn wf_time(self) -> bool {
        &&& self.metrics.time <= horizon(self.iters as int)
        &&& self.reqs_in_sys.last_mod_ts <= self.metrics.time
    }

    /// Every request in the arena is well formed: its handle matches its
    /// slot, it never owes more service than it asked for, single sampled
    /// durations respect the sample bound, an admitted request arrived in
    /// the past, and a request that has not arrived yet cannot have timed
    /// out.
    pub open spec fn wf_reqs(self) -> bool {
        forall|i: int|
            0 <= i < self.reqs@.len() ==> {
                let r = #[trigger] self.reqs@[i];
                &&& r.id == i
                &&& r.remaining_service <= r.total_service
                &&& r.total_service <= MAX_SAMPLE
                &&& (!(r.phase is Pending) ==> r.arrival_time <= self.metrics.time)
                &&& (r.phase is Pending ==> r.status is AwaitingOutcome)
                &&& (r.phase is Pending ==> r.remaining_service == r.total_service)
            }
    }

    /// What must hold of any pending event: it fires no earlier than the
    /// clock and no later than the horizon, its subject handle is in range,
    /// an `Arrival` fires exactly at its request's recorded arrival time,
    /// and a `Departure` is only ever scheduled for a fully served request.
    pub open spec fn ev_ok(self, e: Event) -> bool {
        &&& self.metrics.time <= e.timestamp
        &&& e.timestamp <= horizon(self.iters as int)
        &&& match e.kind {
            EventType::Arrival(r) => r < self.reqs@.len() && self.reqs@[r as int].arrival_time
                == e.timestamp,
            EventType::Departure(r) => r < self.reqs@.len() && self.reqs@[
                r as int
            ].remaining_service == 0 && self.reqs@[r as int].arrival_time + self.reqs@[
                r as int
            ].total_service <= e.timestamp,
            EventType::Timeout(r) => r < self.reqs@.len() && self.reqs@[r as int].arrival_time
                <= e.timestamp,
            EventType::QuantumOver(c) => c < self.cpus@.len(),
            EventType::CtxSwitched(c) => c < self.cpus@.len(),
        }
    }

    pub open spec fn wf_events(self) -> bool {
        &&& self.events.wf()
        &&& forall|k: int| 0 <= k < self.events@.len() ==> self.ev_ok(#[trigger] self.events@[k])
    }

    /// What must hold of one core: its subject handles are in range; its
    /// accounted busy time never runs ahead of the instant its current
    /// activity began (hence never ahead of the clock); the service its
    /// subjects have received so far fits between their arrival and that
    /// instant; and an incoming request without its own thread-pool slot
    /// can only be replacing a fully served outgoing request.
    pub open spec fn cpu_ok(self, c: Cpu) -> bool {
        match c.state {
            CpuState::Idle => c.busy_total() <= self.metrics.time,
            CpuState::Busy { req, quantum_start } => {
                &&& req < self.reqs@.len()
                &&& c.busy_total() <= quantum_start
                &&& quantum_start <= self.metrics.time
                &&& self.reqs@[req as int].arrival_time + self.reqs@[req as int].processed()
                    <= quantum_start
            },
            CpuState::CtxSwitching { incoming, outgoing, switch_start, incoming_holds_thread } => {
                &&& incoming < self.reqs@.len()
                &&& outgoing < self.reqs@.len()
                &&& incoming != outgoing
                &&& c.busy_total() <= switch_start
                &&& switch_start <= self.metrics.time
                &&& self.reqs@[incoming as int].arrival_time + self.reqs@[
                    incoming as int
                ].processed() <= switch_start
                &&& self.reqs@[outgoing as int].arrival_time + self.reqs@[
                    outgoing as int
                ].processed() <= switch_start
                &&& (!incoming_holds_thread ==> self.reqs@[outgoing as int].remaining_service == 0)
            },
        }
    }

    pub open spec fn wf_cpus(self) -> bool {
        forall|i: int| 0 <= i < self.cpus@.len() ==> self.cpu_ok(#[trigger] self.cpus@[i])
    }

    /// The idle list holds distinct handles of genuinely idle cores.
    pub open spec fn wf_idle(self) -> bool {
        &&& forall|i: int|
            0 <= i < self.idle_cpus@.len() ==> {
                let c = #[trigger] self.idle_cpus@[i];
                c < self.cpus@.len() && self.cpus@[c as int].state is Idle
            }
        &&& forall|i: int, j: int|
            0 <= i < j < self.idle_cpus@.len()
                ==> #[trigger] self.idle_cpus@[i] != #[trigger] self.idle_cpus@[j]
    }

    /// Both waiting queues hold in-range handles of requests that have
    /// arrived, and whose service so far fits between their arrival and the
    /// clock (a waiting request is not being served).
    pub open spec fn wf_pools(self) -> bool {
        &&& forall|i: int|
            0 <= i < self.tpool@.len() ==> {
                let r = #[trigger] self.tpool@[i];
                &&& r < self.reqs@.len()
                &&& !(self.reqs@[r as int].phase is Pending)
                &&& self.reqs@[r as int].arrival_time + self.reqs@[r as int].processed()
                    <= self.metrics.time
            }
        &&& forall|i: int|
            0 <= i < self.rbuff@.len() ==> {
                let r = #[trigger] self.rbuff@[i];
                &&& r < self.reqs@.len()
                &&& !(self.reqs@[r as int].phase is Pending)
                &&& self.reqs@[r as int].arrival_time + self.reqs@[r as int].processed()
                    <= self.metrics.time
            }
    }

    /// No request is referenced from two places at once: the requests held
    /// on distinct cores are distinct, the waiting queues hold no
    /// duplicates and are disjoint from each other, nothing waiting in a
    /// queue is on a core, and whatever a core holds has arrived.  This is
    /// what makes the arena handles behave like uniquely owned references.
    pub open spec fn wf_distinct(self) -> bool {
        &&& forall|c1: int, c2: int, r: int|
            0 <= c1 < self.cpus@.len() && 0 <= c2 < self.cpus@.len() && c1 != c2 ==> !(
            #[trigger] self.cpus@[c1].holds(r) && #[trigger] self.cpus@[c2].holds(r))
        &&& forall|c: int, i: int|
            0 <= c < self.cpus@.len() && 0 <= i < self.tpool@.len() ==> !(
            #[trigger] self.cpus@[c].holds(self.tpool@[i] as int))
        &&& forall|c: int, i: int|
            0 <= c < self.cpus@.len() && 0 <= i < self.rbuff@.len() ==> !(
            #[trigger] self.cpus@[c].holds(self.rbuff@[i] as int))
        &&& forall|i: int, j: int|
            0 <= i < j < self.tpool@.len() ==> #[trigger] self.tpool@[i]
                != #[trigger] self.tpool@[j]
        &&& forall|i: int, j: int|
            0 <= i < j < self.rbuff@.len() ==> #[trigger] self.rbuff@[i]
                != #[trigger] self.rbuff@[j]
        &&& forall|i: int, j: int|
            0 <= i < self.tpool@.len() && 0 <= j < self.rbuff@.len() ==> #[trigger] self.tpool@[i]
                != #[trigger] self.rbuff@[j]
        &&& forall|c: int, r: int|
            0 <= c < self.cpus@.len() && #[trigger] self.cpus@[c].holds(r) ==> 0 <= r
                < self.reqs@.len() && !(self.reqs@[r].phase is Pending)
    }

    /// Whether any core or waiting queue currently references request `r`.
    pub open spec fn referenced(self, r: int) -> bool {
        ||| exists|c: int| 0 <= c < self.cpus@.len() && (#[trigger] self.cpus@[c]).holds(r)
        ||| exists|i: int| 0 <= i < self.tpool@.len() && #[trigger] self.tpool@[i] == r
        ||| exists|i: int| 0 <= i < self.rbuff@.len() && #[trigger] self.rbuff@[i] == r
    }

    /// How many `QuantumOver` events core `c` should have pending.
    pub open spec fn pend_qo(self, c: int) -> int {
        if self.cpus@[c].state is Busy {
            1
        } else {
            0
        }
    }

    /// How many `CtxSwitched` events core `c` should have pending.
    pub open spec fn pend_cs(self, c: int) -> int {
        if self.cpus@[c].state is CtxSwitching {
            1
        } else {
            0
        }
    }

    /// How many `Arrival` events request `r` should have pending.
    pub open spec fn pend_arr(self, r: int) -> int {
        if self.reqs@[r].phase is Pending {
            1
        } else {
            0
        }
    }

    /// The scheduling correspondence of one event with the current state:
    /// an arrival's subject still awaits its arrival; a departure's subject
    /// is in the system and referenced by nothing (it was released with all
    /// its service done); a quantum end belongs to a busy core and fires
    /// exactly when the scheduled quantum runs out; a switch end belongs to
    /// a switching core and fires exactly when the switch cost has passed.
    pub open spec fn sched_ok(self, p: SystemParams, e: Event) -> bool {
        match e.kind {
            EventType::Arrival(r) => self.reqs@[r as int].phase is Pending,
            EventType::Departure(r) => self.reqs@[r as int].phase is InSystem
                && !self.referenced(r as int),
            EventType::Timeout(r) => self.reqs@[r as int].arrival_time <= e.timestamp,
            EventType::QuantumOver(c) => self.cpus@[c as int].state matches CpuState::Busy {
                req,
                quantum_start,
            } && e.timestamp as int == quantum_start + (if self.reqs@[
                req as int
            ].remaining_service < p.quantum {
                self.reqs@[req as int].remaining_service as int
            } else {
                p.quantum as int
            }),
            EventType::CtxSwitched(c) => self.cpus@[
                c as int
            ].state matches CpuState::CtxSwitching {
                switch_start,
                ..
            } && e.timestamp as int == switch_start + p.ctxx_time,
        }
    }

    /// Whatever a core or waiting queue references is in the system.
    pub open spec fn wf_alive(self) -> bool {
        &&& forall|c: int, r: int|
            0 <= c < self.cpus@.len() && #[trigger] self.cpus@[c].holds(r) ==> self.reqs@[
                r
            ].phase is InSystem
        &&& forall|i: int|
            0 <= i < self.tpool@.len() ==> self.reqs@[#[trigger] self.tpool@[i] as int].phase
                is InSystem
        &&& forall|i: int|
            0 <= i < self.rbuff@.len() ==> self.reqs@[#[trigger] self.rbuff@[i] as int].phase
                is InSystem
    }

    /// The full event-to-state correspondence, the key to showing that the
    /// run loop never trips the fail-fast checks: every pending event
    /// satisfies [`Simulation::sched_ok`], every busy (switching) core has
    /// exactly one pending quantum (switch) end and a pending request
    /// exactly one arrival, a request has at most one pending timeout and
    /// none once its timeout has fired, and at most one pending departure.
    pub open spec fn wf_sched(self, p: SystemParams) -> bool {
        &&& forall|k: int|
            0 <= k < self.events@.len() ==> self.sched_ok(p, #[trigger] self.events@[k])
        &&& self.wf_alive()
        &&& forall|c: int|
            0 <= c < self.cpus@.len() ==> #[trigger] count_where(self.events@, is_qo_for(c))
                == self.pend_qo(c)
        &&& forall|c: int|
            0 <= c < self.cpus@.len() ==> #[trigger] count_where(self.events@, is_cs_for(c))
                == self.pend_cs(c)
        &&& forall|r: int|
            0 <= r < self.reqs@.len() ==> #[trigger] count_where(self.events@, is_arrival_for(r))
                == self.pend_arr(r)
        &&& forall|r: int|
            0 <= r < self.reqs@.len() ==> #[trigger] count_where(self.events@, is_timeout_for(r))
                <= 1
        &&& forall|r: int|
            0 <= r < self.reqs@.len() && self.reqs@[r].phase is InSystem && self.reqs@[r].status
                is TimedOut ==> #[trigger] count_where(self.events@, is_timeout_for(r)) == 0
        &&& forall|r: int|
            0 <= r < self.reqs@.len() ==> #[trigger] count_where(
                self.events@,
                is_departure_for(r),
            ) <= 1
    }

    /// [`Simulation::wf_sched`] as a handler sees it, right after the run
    /// loop has popped the minimal event `e` and advanced the clock to it:
    /// `e` itself still corresponds to the state, its contribution is
    /// missing from the pending counts, and no pending event precedes it.
    pub open spec fn wf_sched_at(self, p: SystemParams, e: Event) -> bool {
        &&& self.sched_ok(p, e)
        &&& e.timestamp == self.metrics.time
        &&& forall|k: int|
            0 <= k < self.events@.len() ==> self.sched_ok(p, #[trigger] self.events@[k])
        &&& forall|k: int|
            0 <= k < self.events@.len() ==> event_le(e, #[trigger] self.events@[k])
        &&& self.wf_alive()
        &&& forall|c: int|
            0 <= c < self.cpus@.len() ==> #[trigger] count_where(self.events@, is_qo_for(c))
                == self.pend_qo(c) - (match e.kind {
                EventType::QuantumOver(d) => if d == c {
                    1int
                } else {
                    0int
                },
                _ => 0int,
            })
        &&& forall|c: int|
            0 <= c < self.cpus@.len() ==> #[trigger] count_where(self.events@, is_cs_for(c))
                == self.pend_cs(c) - (match e.kind {
                EventType::CtxSwitched(d) => if d == c {
                    1int
                } else {
                    0int
                },
                _ => 0int,
            })
        &&& forall|r: int|
            0 <= r < self.reqs@.len() ==> #[trigger] count_where(self.events@, is_arrival_for(r))
                == self.pend_arr(r) - (match e.kind {
                EventType::Arrival(x) => if x == r {
                    1int
                } else {
                    0int
                },
                _ => 0int,
            })
        &&& forall|r: int|
            0 <= r < self.reqs@.len() ==> #[trigger] count_where(self.events@, is_timeout_for(r))
                + (match e.kind {
                EventType::Timeout(x) => if x == r {
                    1int
                } else {
                    0int
                },
                _ => 0int,
            }) <= 1
        &&& forall|r: int|
            0 <= r < self.reqs@.len() && self.reqs@[r].phase is InSystem && self.reqs@[r].status
                is TimedOut ==> #[trigger] count_where(self.events@, is_timeout_for(r)) + (
            match e.kind {
                EventType::Timeout(x) => if x == r {
                    1int
                } else {
                    0int
                },
                _ => 0int,
            }) == 0
        &&& forall|r: int|
            0 <= r < self.reqs@.len() ==> #[trigger] count_where(
                self.events@,
                is_departure_for(r),
            ) + (match e.kind {
                EventType::Departure(x) => if x == r {
                    1int
                } else {
                    0int
                },
                _ => 0int,
            }) <= 1
    }

    /// The exact meaning of every counter, stated over the request arena,
    /// together with the growth bounds that keep all arithmetic exact.
    pub open spec fn wf_counts(self) -> bool {
        &&& self.reqs_in_sys.count as int == count_where(self.reqs@, is_in_system())
        &&& self.reqs_in_sys.to_count as int == count_where(self.reqs@, is_in_system_timed_out())
        &&& self.metrics.n_arrivals as int == count_where(self.reqs@, is_arrived())
        &&& self.metrics.n_processed as int == count_where(self.reqs@, is_departed())
        &&& self.metrics.n_dropped as int == count_where(self.reqs@, is_dropped())
        &&& self.metrics.n_timedout as int == self.reqs_in_sys.to_count + count_where(
            self.reqs@,
            is_departed_timed_out(),
        )
        &&& self.metrics.n_arrivals <= self.iters
        &&& self.metrics.n_processed <= self.iters
        &&& self.metrics.n_timedout <= self.iters
        &&& self.metrics.n_dropped <= self.iters
        &&& self.metrics.sum_resp_time as int <= self.iters as int * RESP_STEP as int
        &&& self.metrics.sum_resp_time as int >= sum_of(self.reqs@, departed_service())
        &&& self.metrics.sum_service_time as int == sum_of(self.reqs@, departed_service())
        &&& self.metrics.wt_sum_reqs_in_sys as int <= self.iters as int * WT_STEP as int
        &&& self.metrics.total_procd_time == 0
        &&& self.metrics.total_ctxx_time == 0
    }

    /// The run invariant: holds after initialization and after every
    /// processed event.  The conservation clause is the second testable
    /// conservation law; the per-core clause bounds every core's accounted
    /// time by the clock, which is what makes the final CPU utilization a
    /// true fraction.
    pub open spec fn inv(self, p: SystemParams) -> bool {
        &&& self.wf_params(p)
        &&& self.wf_time()
        &&& self.wf_reqs()
        &&& self.wf_events()
        &&& self.wf_cpus()
        &&& self.wf_idle()
        &&& self.wf_pools()
        &&& self.wf_counts()
        &&& self.conservation()
        &&& self.wf_distinct()
    }

    /// What a handler may assume right after the run loop has popped an
    /// event, advanced the clock to it and counted the iteration: the
    /// invariant, with one iteration's worth of slack left in every growth
    /// bound.
    pub open spec fn pre_handle(self, p: SystemParams) -> bool {
        &&& self.inv(p)
        &&& p.valid()
        &&& self.iters >= 1
        &&& self.metrics.time + 3 * MAX_SAMPLE <= horizon(self.iters as int)
        &&& self.metrics.sum_resp_time as int <= (self.iters - 1) * RESP_STEP as int
        &&& self.metrics.wt_sum_reqs_in_sys as int <= (self.iters - 1) * WT_STEP as int
        &&& self.metrics.n_arrivals as int <= self.iters - 1
        &&& self.metrics.n_processed as int <= self.iters - 1
        &&& self.metrics.n_timedout as int <= self.iters - 1
        &&& self.metrics.n_dropped as int <= self.iters - 1
        &&& self.reqs@.len() <= p.n_users + self.iters - 1
    }

    /// The state at the start of a run: all cores idle, no requests yet,
    /// zeroed counters, and the initial user population scheduled — one
    /// session per user, its arrival spread uniformly over the ease-in
    /// window.
    pub fn new<S: Sampler>(p: &SystemParams, smp: &mut S) -> (sim: Simulation)
        requires
            p.valid(),
        ensures
            sim.inv(*p),
            sim.iters == 0,
            sim.metrics == SystemMetrics::zero(),
            sim.reqs@.len() == p.n_users,
            sim.n_threads == 0,
            sim.reqs_in_sys == (ReqsInSystem { last_mod_ts: 0, count: 0, to_count: 0 }),
            sim.events@.len() == 2 * p.n_users,
            sum_of(sim.cpus@, procd_of()) == 0,
            sum_of(sim.cpus@, ctxx_of()) == 0,
            sim.wf_sched(*p),
    {
        let mut sim = Simulation {
            events: EventQueue::new(),
            reqs: Vec::new(),
            cpus: Vec::new(),
            idle_cpus: Vec::new(),
            tpool: Vec::new(),
            rbuff: Vec::new(),
            n_threads: 0,
            reqs_in_sys: ReqsInSystem { last_mod_ts: 0, count: 0, to_count: 0 },
            metrics: SystemMetrics {
                time: 0,
                n_arrivals: 0,
                n_processed: 0,
                n_timedout: 0,
                n_dropped: 0,
                n_to_in_proc: 0,
                sum_resp_time: 0,
                sum_service_time: 0,
                wt_sum_reqs_in_sys: 0,
                total_procd_time: 0,
                total_ctxx_time: 0,
                n_events: 0,
                capped: false,
            },
            iters: 0,
        };
        let mut i: usize = 0;
        while i < p.n_cpu
            invariant
                i <= p.n_cpu,
                sim.cpus@.len() == i,
                sim.idle_cpus@.len() == i,
                forall|k: int| 0 <= k < i ==> #[trigger] sim.idle_cpus@[k] == k,
                forall|k: int|
                    0 <= k < i ==> #[trigger] sim.cpus@[k] == (Cpu {
                        state: CpuState::Idle,
                        total_procd_time: 0,
                        total_ctxx_time: 0,
                    }),
                sum_of(sim.cpus@, slots_of()) == 0,
                sum_of(sim.cpus@, procd_of()) == 0,
                sum_of(sim.cpus@, ctxx_of()) == 0,
                sim.events@ == Seq::<Event>::empty(),
                sim.events.wf(),
                sim.reqs@.len() == 0,
                sim.tpool@.len() == 0,
                sim.rbuff@.len() == 0,
                sim.n_threads == 0,
                sim.iters == 0,
                sim.metrics == SystemMetrics::zero(),
                sim.reqs_in_sys == (ReqsInSystem { last_mod_ts: 0, count: 0, to_count: 0 }),
                sim.wf_sched(*p),
            decreases p.n_cpu - i,
        {
            proof {
                let fresh = Cpu { state: CpuState::Idle, total_procd_time: 0, total_ctxx_time: 0 };
                lemma_sum_of_push(sim.cpus@, slots_of(), fresh);
                lemma_sum_of_push(sim.cpus@, procd_of(), fresh);
                lemma_sum_of_push(sim.cpus@, ctxx_of(), fresh);
            }
            sim.idle_cpus.push(sim.cpus.len());
            sim.cpus.push(Cpu::new());
            i = i + 1;
        }
        let mut u: usize = 0;
        while u < p.n_users
            invariant
                p.valid(),
                u <= p.n_users,
                sim.inv(*p),
                sim.cpus@.len() == p.n_cpu,
                sim.reqs@.len() == u,
                sim.events@.len() == 2 * u,
                sim.n_threads == 0,
                sim.iters == 0,
                sim.metrics == SystemMetrics::zero(),
                sim.reqs_in_sys == (ReqsInSystem { last_mod_ts: 0, count: 0, to_count: 0 }),
                sum_of(sim.cpus@, procd_of()) == 0,
                sum_of(sim.cpus@, ctxx_of()) == 0,
                sim.wf_sched(*p),
            decreases p.n_users - u,
        {
            let offset = smp.uniform(0, p.ease_in_time);
            sim.schedule_session(offset, p, smp);
            u = u + 1;
        }
        sim
    }

    /// Moves the clock forward to the timestamp of the event about to be
    /// handled.  Since the popped event was minimal, no pending event lies
    /// in the past afterwards, and the clock never moves backwards.
    fn advance_clock(&mut self, ts: u64, p: &SystemParams)
        requires
            old(self).inv(*p),
            old(self).metrics.time <= ts,
            ts <= horizon(old(self).iters as int),
            forall|k: int|
                0 <= k < old(self).events@.len() ==> ts <= (#[trigger] old(
                    self,
                ).events@[k]).timestamp,
        ensures
            final(self).inv(*p),
            final(self).metrics == (SystemMetrics { time: ts, ..old(self).metrics }),
            final(self).events == old(self).events,
            final(self).reqs == old(self).reqs,
            final(self).cpus == old(self).cpus,
            final(self).idle_cpus == old(self).idle_cpus,
            final(self).tpool == old(self).tpool,
            final(self).rbuff == old(self).rbuff,
            final(self).n_threads == old(self).n_threads,
            final(self).reqs_in_sys == old(self).reqs_in_sys,
            final(self).iters == old(self).iters,
    {
        self.metrics.time = ts;
    }

    /// Starts (or resumes) a processing quantum: puts `r` on core `c` now,
    /// and returns the `QuantumOver` event to schedule, due after the
    /// smaller of the request's remaining service and the quantum length.
    /// Completion detection happens when that event fires; no separate
    /// departure is scheduled here.
    pub fn process_request(&mut self, r: usize, c: usize, quantum: u64) -> (e: Event)
        requires
            r < old(self).reqs@.len(),
            c < old(self).cpus@.len(),
            quantum <= MAX_SAMPLE,
            old(self).reqs@[r as int].remaining_service <= MAX_SAMPLE,
            old(self).metrics.time + MAX_SAMPLE <= u64::MAX,
        ensures
            final(self).cpus@ == old(self).cpus@.update(
                c as int,
                (Cpu {
                    state: CpuState::Busy { req: r, quantum_start: old(self).metrics.time },
                    ..old(self).cpus@[c as int]
                }),
            ),
            final(self).events == old(self).events,
            final(self).reqs == old(self).reqs,
            final(self).idle_cpus == old(self).idle_cpus,
            final(self).tpool == old(self).tpool,
            final(self).rbuff == old(self).rbuff,
            final(self).n_threads == old(self).n_threads,
            final(self).reqs_in_sys == old(self).reqs_in_sys,
            final(self).metrics == old(self).metrics,
            final(self).iters == old(self).iters,
            e.kind == EventType::QuantumOver(c),
            e.timestamp as int == old(self).metrics.time + (if old(self).reqs@[
                r as int
            ].remaining_service < quantum {
                old(self).reqs@[r as int].remaining_service as int
            } else {
                quantum as int
            }),
    {
        let now = self.metrics.time;
        let rem = self.reqs[r].remaining_service;
        let mut cpu = self.cpus[c];
        cpu.state = CpuState::Busy { req: r, quantum_start: now };
        self.cpus[c] = cpu;
        let ev_ts = if rem < quantum {
            now + rem
        } else {
            now + quantum
        };
        Event::new(EventType::QuantumOver(c), ev_ts)
    }

    /// Handles an `Arrival` event for request `r` — the admission decision.
    /// If a thread-pool slot is free, the request takes one: it starts a
    /// quantum at once when an idle core exists, otherwise it waits in the
    /// thread-pool queue.  Failing that it waits in the overflow buffer if
    /// a slot is free there.  Failing that it is dropped, and — since the
    /// client cannot know of the drop before its own timeout — a retry
    /// session is scheduled after a timeout sample plus a retry-think
    /// sample.
    pub fn handle_arrival<S: Sampler>(
        &mut self,
        r: usize,
        p: &SystemParams,
        smp: &mut S,
    ) -> (res: Result<(), SimError>)
        requires
            old(self).pre_handle(*p),
            r < old(self).reqs@.len(),
            old(self).reqs@[r as int].arrival_time == old(self).metrics.time,
        ensures
            final(self).inv(*p),
            final(self).iters == old(self).iters,
            final(self).metrics.time == old(self).metrics.time,
            res is Ok <==> old(self).reqs@[r as int].phase is Pending,
            res is Err ==> *final(self) == *old(self),
            res is Ok ==> {
                let pre = *old(self);
                let post = *final(self);
                let to_thread = pre.n_threads < p.threadpool_size;
                let to_buffer = !to_thread && pre.rbuff@.len() < p.buffer_capacity;
                let had_idle = pre.idle_cpus@.len() > 0;
                &&& post.metrics.n_arrivals == pre.metrics.n_arrivals + 1
                &&& post.metrics.n_processed == pre.metrics.n_processed
                // the queue-length integral advances by the time since the
                // count last changed, weighted by that count
                &&& post.metrics.wt_sum_reqs_in_sys == pre.metrics.wt_sum_reqs_in_sys + ((
                pre.metrics.time - pre.reqs_in_sys.last_mod_ts) as u128) * (
                pre.reqs_in_sys.count as u128)
                &&& post.reqs_in_sys.last_mod_ts == pre.metrics.time
                &&& (to_thread ==> post.rbuff@ == pre.rbuff@)
                &&& (to_thread && had_idle ==> {
                    let cid = pre.idle_cpus@.last();
                    &&& post.idle_cpus@ == pre.idle_cpus@.drop_last()
                    &&& post.cpus@ == pre.cpus@.update(
                        cid as int,
                        (Cpu {
                            state: CpuState::Busy { req: r, quantum_start: pre.metrics.time },
                            ..pre.cpus@[cid as int]
                        }),
                    )
                    &&& post.tpool@ == pre.tpool@
                    &&& post.events@.len() == pre.events@.len() + 1
                    &&& post.events@.contains(
                        (Event {
                            kind: EventType::QuantumOver(cid),
                            timestamp: (pre.metrics.time + (if pre.reqs@[
                                r as int
                            ].remaining_service < p.quantum {
                                pre.reqs@[r as int].remaining_service as int
                            } else {
                                p.quantum as int
                            })) as u64,
                        }),
                    )
                })
                &&& (to_thread && !had_idle ==> post.tpool@ == pre.tpool@.push(r) && post.cpus@
                    == pre.cpus@ && post.idle_cpus@ == pre.idle_cpus@ && post.events@
                    == pre.events@)
                &&& (to_thread ==> post.n_threads == pre.n_threads + 1 && post.reqs@[
                    r as int
                ].phase is InSystem && post.metrics.n_dropped == pre.metrics.n_dropped
                    && post.reqs@.len() == pre.reqs@.len() && post.reqs_in_sys.count
                    == pre.reqs_in_sys.count + 1)
                &&& (to_buffer ==> post.rbuff@ == pre.rbuff@.push(r) && post.reqs@[
                    r as int
                ].phase is InSystem && post.n_threads == pre.n_threads
                    && post.metrics.n_dropped == pre.metrics.n_dropped
                    && post.reqs_in_sys.count == pre.reqs_in_sys.count + 1)
                &&& (!to_thread && !to_buffer ==> post.metrics.n_dropped
                    == pre.metrics.n_dropped + 1 && post.reqs@[r as int].phase is Dropped
                    && post.n_threads == pre.n_threads && post.reqs@.len() == pre.reqs@.len()
                    + 1 && post.reqs_in_sys.count == pre.reqs_in_sys.count)
            },
            old(self).wf_sched_at(
                *p,
                (Event { kind: EventType::Arrival(r), timestamp: old(self).metrics.time }),
            ) ==> (res is Ok && final(self).wf_sched(*p)),
    {
        let ghost pev = Event { kind: EventType::Arrival(r), timestamp: self.metrics.time };
        if !matches!(self.reqs[r].phase, ReqPhase::Pending) {
            // under the scheduling correspondence an arrival's subject is
            // still pending, so this arm is unreachable then
            return Err(SimError::InvariantViolation);
        }
        let now = self.metrics.time;
        self.metrics.n_arrivals = self.metrics.n_arrivals + 1;
        let dt = now - self.reqs_in_sys.last_mod_ts;
        proof {
            lemma_count_where_bounds(self.reqs@, is_in_system());
            lemma_horizon_cap(self.iters as int);
            assert(dt as u128 <= RESP_STEP);
            assert(self.reqs_in_sys.count as u128 <= REQ_BOUND);
            assert((dt as u128) * (self.reqs_in_sys.count as u128) <= WT_STEP) by (
            nonlinear_arith)
                requires
                    dt as u128 <= RESP_STEP,
                    self.reqs_in_sys.count as u128 <= REQ_BOUND,
                    WT_STEP == RESP_STEP * REQ_BOUND,
            ;
        }
        let add = (dt as u128) * (self.reqs_in_sys.count as u128);
        self.metrics.wt_sum_reqs_in_sys = self.metrics.wt_sum_reqs_in_sys + add;
        let mut req = self.reqs[r];
        req.phase = ReqPhase::InSystem;
        proof {
            lemma_count_where_update(self.reqs@, is_in_system(), r as int, req);
            lemma_count_where_update(self.reqs@, is_in_system_timed_out(), r as int, req);
            lemma_count_where_update(self.reqs@, is_arrived(), r as int, req);
            lemma_count_where_update(self.reqs@, is_departed(), r as int, req);
            lemma_count_where_update(self.reqs@, is_dropped(), r as int, req);
            lemma_count_where_update(self.reqs@, is_departed_timed_out(), r as int, req);
            lemma_sum_of_update(self.reqs@, departed_service(), r as int, req);
        }
        self.reqs[r] = req;
        self.reqs_in_sys.count = self.reqs_in_sys.count + 1;
        self.reqs_in_sys.last_mod_ts = now;
        let ghost mid = *self;
        proof {
            if old(self).wf_sched_at(*p, pev) {
                let gr = r as int;
                // no pending event names the arriving request any more: its
                // one arrival was just popped, its departure cannot be
                // scheduled yet, and its timeout imposes nothing here
                assert forall|k: int| 0 <= k < self.events@.len() implies !(is_arrival_for(gr)(
                    #[trigger] self.events@[k],
                )) && !(is_departure_for(gr)(self.events@[k])) by {
                    if is_arrival_for(gr)(self.events@[k]) {
                        lemma_count_where_member(old(self).events@, is_arrival_for(gr), k);
                    }
                    if is_departure_for(gr)(self.events@[k]) {
                        assert(old(self).sched_ok(*p, old(self).events@[k]));
                    }
                }
                assert forall|k: int| 0 <= k < self.events@.len() implies self.sched_ok(
                    *p,
                    #[trigger] self.events@[k],
                ) by {
                    assert(old(self).sched_ok(*p, old(self).events@[k]));
                }
                assert(self.wf_sched(*p));
                assert(mid.wf_sched(*p));
            }
        }
        if self.n_threads < p.threadpool_size {
            self.n_threads = self.n_threads + 1;
            let c_opt = self.idle_cpus.pop();
            match c_opt {
                Some(c) => {
                    proof {
                        lemma_sum_of_update(
                            self.cpus@,
                            slots_of(),
                            c as int,
                            (Cpu {
                                state: CpuState::Busy { req: r, quantum_start: now },
                                ..self.cpus@[c as int]
                            }),
                        );
                    }
                    let e = self.process_request(r, c, p.quantum);
                    self.events.push(e);
                    proof {
                        if old(self).wf_sched_at(*p, pev) {
                            let gr = r as int;
                            let gc = c as int;
                            assert forall|k: int|
                                0 <= k < self.events@.len() implies self.sched_ok(
                                *p,
                                #[trigger] self.events@[k],
                            ) by {
                                let x = self.events@[k];
                                if x != e {
                                    assert(mid.events@.contains(x));
                                    let j = choose|j: int|
                                        0 <= j < mid.events@.len() && mid.events@[j] == x;
                                    assert(mid.sched_ok(*p, x));
                                    if is_qo_for(gc)(x) {
                                        lemma_count_where_member(mid.events@, is_qo_for(gc), j);
                                    }
                                    if is_cs_for(gc)(x) {
                                        lemma_count_where_member(mid.events@, is_cs_for(gc), j);
                                    }
                                    if is_departure_for(gr)(x) {
                                        lemma_count_where_member(
                                            mid.events@,
                                            is_departure_for(gr),
                                            j,
                                        );
                                        lemma_count_where_none(
                                            mid.events@,
                                            is_departure_for(gr),
                                        );
                                    }
                                }
                            }
                            assert(self.wf_sched(*p));
                        }
                    }
                },
                None => {
                    self.tpool.push(r);
                    proof {
                        if old(self).wf_sched_at(*p, pev) {
                            let gr = r as int;
                            assert forall|k: int|
                                0 <= k < self.events@.len() implies self.sched_ok(
                                *p,
                                #[trigger] self.events@[k],
                            ) by {
                                assert(mid.sched_ok(*p, mid.events@[k]));
                                if is_departure_for(gr)(self.events@[k]) {
                                    lemma_count_where_none(mid.events@, is_departure_for(gr));
                                    lemma_count_where_member(
                                        mid.events@,
                                        is_departure_for(gr),
                                        k,
                                    );
                                }
                            }
                            assert(self.wf_sched(*p));
                        }
                    }
                },
            }
            Ok(())
        } else if self.rbuff.len() < p.buffer_capacity {
            self.rbuff.push(r);
            proof {
                if old(self).wf_sched_at(*p, pev) {
                    let gr = r as int;
                    assert forall|k: int|
                        0 <= k < self.events@.len() implies self.sched_ok(
                        *p,
                        #[trigger] self.events@[k],
                    ) by {
                        assert(mid.sched_ok(*p, mid.events@[k]));
                        if is_departure_for(gr)(self.events@[k]) {
                            lemma_count_where_none(mid.events@, is_departure_for(gr));
                            lemma_count_where_member(mid.events@, is_departure_for(gr), k);
                        }
                    }
                    assert(self.wf_sched(*p));
                }
            }
            Ok(())
        } else {
            self.metrics.n_dropped = self.metrics.n_dropped + 1;
            proof {
                lemma_count_where_member(self.reqs@, is_in_system(), r as int);
            }
            self.reqs_in_sys.count = self.reqs_in_sys.count - 1;
            let mut req2 = self.reqs[r];
            req2.phase = ReqPhase::Dropped;
            proof {
                lemma_count_where_update(self.reqs@, is_in_system(), r as int, req2);
                lemma_count_where_update(self.reqs@, is_in_system_timed_out(), r as int, req2);
                lemma_count_where_update(self.reqs@, is_arrived(), r as int, req2);
                lemma_count_where_update(self.reqs@, is_departed(), r as int, req2);
                lemma_count_where_update(self.reqs@, is_dropped(), r as int, req2);
                lemma_count_where_update(self.reqs@, is_departed_timed_out(), r as int, req2);
                lemma_sum_of_update(self.reqs@, departed_service(), r as int, req2);
            }
            self.reqs[r] = req2;
            proof {
                if old(self).wf_sched_at(*p, pev) {
                    let gr = r as int;
                    assert forall|k: int|
                        0 <= k < self.events@.len() implies self.sched_ok(
                        *p,
                        #[trigger] self.events@[k],
                    ) by {
                        assert(mid.sched_ok(*p, mid.events@[k]));
                        if is_arrival_for(gr)(self.events@[k]) {
                            lemma_count_where_member(mid.events@, is_arrival_for(gr), k);
                        }
                        if is_departure_for(gr)(self.events@[k]) {
                            lemma_count_where_none(mid.events@, is_departure_for(gr));
                            lemma_count_where_member(mid.events@, is_departure_for(gr), k);
                        }
                    }
                    assert(self.wf_sched(*p));
                }
            }
            let t = smp.uniform(p.req_timeout_min, p.req_timeout_max);
            let rt = smp.gaussian_floor0(p.retry_think_time_mean, p.retry_think_time_std_dev);
            self.schedule_session(now + t + rt, p, smp);
            Ok(())
        }
    }

    /// Handles a `Timeout` event for request `r` — the lazy reconciliation
    /// of "client gave up" with "server finished".  If the request has
    /// already departed or was dropped, the timeout is stale and a no-op.
    /// Otherwise the request is still live: it is counted and marked as
    /// timed out (exactly once — the mark is never written anywhere else),
    /// and a retry arrival is scheduled after a retry-think-time sample.
    ///
    /// A timeout on a request whose arrival has not fired yet, or a second
    /// timeout on an already marked request, cannot be produced by the
    /// event queue's ordering and pairing rules; both fail fast.
    pub fn handle_timeout<S: Sampler>(
        &mut self,
        r: usize,
        p: &SystemParams,
        smp: &mut S,
    ) -> (res: Result<(), SimError>)
        requires
            old(self).pre_handle(*p),
            r < old(self).reqs@.len(),
        ensures
            final(self).inv(*p),
            final(self).iters == old(self).iters,
            final(self).metrics.time == old(self).metrics.time,
            res is Ok <==> (!(old(self).reqs@[r as int].phase is Pending) && !(old(
                self,
            ).reqs@[r as int].phase is InSystem && old(self).reqs@[r as int].status is TimedOut)),
            res is Err ==> *final(self) == *old(self),
            (res is Ok && timeout_schedules_retry(old(self).reqs@[r as int])) ==> {
                &&& final(self).reqs@[r as int] == after_timeout_fired(old(self).reqs@[r as int])
                &&& final(self).metrics.n_timedout == old(self).metrics.n_timedout + 1
                &&& final(self).reqs_in_sys.to_count == old(self).reqs_in_sys.to_count + 1
                &&& final(self).reqs@.len() == old(self).reqs@.len() + 1
                &&& final(self).events@.len() == old(self).events@.len() + 2
                &&& final(self).metrics.n_processed == old(self).metrics.n_processed
            },
            (res is Ok && !timeout_schedules_retry(old(self).reqs@[r as int])) ==> *final(self)
                == *old(self),
            old(self).wf_sched_at(
                *p,
                (Event { kind: EventType::Timeout(r), timestamp: old(self).metrics.time }),
            ) ==> (res is Ok && final(self).wf_sched(*p)),
    {
        let now = self.metrics.time;
        let ghost pev = Event { kind: EventType::Timeout(r), timestamp: now };
        match self.reqs[r].phase {
            ReqPhase::Pending => {
                proof {
                    if old(self).wf_sched_at(*p, pev) {
                        // a pending request's arrival event is still in the
                        // queue, no earlier than the clock yet no later than
                        // this timeout — and the tie-break would have
                        // yielded it first: contradiction
                        assert(count_where(self.events@, is_arrival_for(r as int)) == 1);
                        lemma_count_where_witness(self.events@, is_arrival_for(r as int));
                        let j = choose|j: int|
                            0 <= j < self.events@.len() && is_arrival_for(r as int)(
                                self.events@[j],
                            );
                        assert(self.ev_ok(self.events@[j]));
                        assert(event_le(pev, self.events@[j]));
                        assert(false);
                    }
                }
                Err(SimError::InvariantViolation)
            },
            ReqPhase::InSystem => {
                if matches!(self.reqs[r].status, ReqStatus::TimedOut) {
                    proof {
                        if old(self).wf_sched_at(*p, pev) {
                            lemma_count_where_bounds(
                                old(self).events@,
                                is_timeout_for(r as int),
                            );
                            assert(count_where(old(self).events@, is_timeout_for(r as int)) + 1
                                == 0);
                            assert(false);
                        }
                    }
                    return Err(SimError::InvariantViolation);
                }
                proof {
                    lemma_count_where_bounds(self.reqs@, is_departed_timed_out());
                }
                self.metrics.n_timedout = self.metrics.n_timedout + 1;
                self.reqs_in_sys.to_count = self.reqs_in_sys.to_count + 1;
                let mut req = self.reqs[r];
                req.status = ReqStatus::TimedOut;
                proof {
                    lemma_count_where_update(self.reqs@, is_in_system(), r as int, req);
                    lemma_count_where_update(self.reqs@, is_in_system_timed_out(), r as int, req);
                    lemma_count_where_update(self.reqs@, is_arrived(), r as int, req);
                    lemma_count_where_update(self.reqs@, is_departed(), r as int, req);
                    lemma_count_where_update(self.reqs@, is_dropped(), r as int, req);
                    lemma_count_where_update(self.reqs@, is_departed_timed_out(), r as int, req);
                    lemma_sum_of_update(self.reqs@, departed_service(), r as int, req);
                }
                self.reqs[r] = req;
                proof {
                    if old(self).wf_sched_at(*p, pev) {
                        lemma_count_where_bounds(self.events@, is_timeout_for(r as int));
                        assert(self.wf_sched(*p));
                    }
                }
                let rt = smp.gaussian_floor0(
                    p.retry_think_time_mean,
                    p.retry_think_time_std_dev,
                );
                self.schedule_session(now + rt, p, smp);
                Ok(())
            },
            ReqPhase::Dropped => {
                proof {
                    if old(self).wf_sched_at(*p, pev) {
                        assert(self.wf_sched(*p));
                    }
                }
                Ok(())
            },
            ReqPhase::Departed => {
                proof {
                    if old(self).wf_sched_at(*p, pev) {
                        assert(self.wf_sched(*p));
                    }
                }
                Ok(())
            },
        }
    }

    /// Handles a `Departure` event for request `r`: the response time and
    /// the queue-length integral are accounted, the request leaves the
    /// system, and the cancellation mechanism resolves the session.  If the
    /// paired timeout has not fired (the status still reads
    /// `AwaitingOutcome`), the client is still there: a think-time-delayed
    /// new arrival is scheduled.  If it has fired, the retry was already
    /// scheduled then, so no new arrival is created and the
    /// timed-out-still-in-service count goes back down.
    pub fn handle_departure<S: Sampler>(
        &mut self,
        r: usize,
        p: &SystemParams,
        smp: &mut S,
    ) -> (res: Result<(), SimError>)
        requires
            old(self).pre_handle(*p),
            r < old(self).reqs@.len(),
            old(self).reqs@[r as int].remaining_service == 0,
            old(self).reqs@[r as int].arrival_time + old(self).reqs@[r as int].total_service
                <= old(self).metrics.time,
        ensures
            final(self).inv(*p),
            final(self).iters == old(self).iters,
            final(self).metrics.time == old(self).metrics.time,
            res is Ok <==> old(self).reqs@[r as int].phase is InSystem,
            res is Err ==> *final(self) == *old(self),
            res is Ok ==> {
                let was = old(self).reqs@[r as int];
                let pre = *old(self);
                let post = *final(self);
                &&& post.reqs@[r as int] == after_departure(was)
                &&& post.metrics.n_processed == pre.metrics.n_processed + 1
                &&& post.metrics.sum_resp_time == pre.metrics.sum_resp_time + (pre.metrics.time
                    - was.arrival_time)
                // a request departs only once all of its service is done,
                // so its response time covers its whole service demand
                &&& pre.metrics.time - was.arrival_time >= was.total_service
                &&& post.metrics.sum_service_time == pre.metrics.sum_service_time
                    + was.total_service
                // the queue-length integral advances by the time since the
                // count last changed, weighted by that count
                &&& post.metrics.wt_sum_reqs_in_sys == pre.metrics.wt_sum_reqs_in_sys + ((
                pre.metrics.time - pre.reqs_in_sys.last_mod_ts) as u128) * (
                pre.reqs_in_sys.count as u128)
                &&& post.reqs_in_sys.last_mod_ts == pre.metrics.time
                &&& post.reqs_in_sys.count == pre.reqs_in_sys.count - 1
                &&& (departure_schedules_think(was) ==> post.reqs@.len() == pre.reqs@.len() + 1
                    && post.events@.len() == pre.events@.len() + 2 && post.reqs_in_sys.to_count
                    == pre.reqs_in_sys.to_count)
                &&& (!departure_schedules_think(was) ==> post.reqs@.len() == pre.reqs@.len()
                    && post.events@.len() == pre.events@.len() && post.reqs_in_sys.to_count
                    == pre.reqs_in_sys.to_count - 1 && post.metrics.n_timedout
                    == pre.metrics.n_timedout)
            },
            old(self).wf_sched_at(
                *p,
                (Event { kind: EventType::Departure(r), timestamp: old(self).metrics.time }),
            ) ==> (res is Ok && final(self).wf_sched(*p)),
    {
        let now = self.metrics.time;
        let ghost pev = Event { kind: EventType::Departure(r), timestamp: now };
        if !matches!(self.reqs[r].phase, ReqPhase::InSystem) {
            // under the scheduling correspondence a departure's subject is
            // still in the system, so this arm is unreachable then
            return Err(SimError::InvariantViolation);
        }
        let dt = now - self.reqs_in_sys.last_mod_ts;
        proof {
            lemma_count_where_bounds(self.reqs@, is_in_system());
            lemma_horizon_cap(self.iters as int);
            assert(dt as u128 <= RESP_STEP);
            assert(self.reqs_in_sys.count as u128 <= REQ_BOUND);
            assert((dt as u128) * (self.reqs_in_sys.count as u128) <= WT_STEP) by (
            nonlinear_arith)
                requires
                    dt as u128 <= RESP_STEP,
                    self.reqs_in_sys.count as u128 <= REQ_BOUND,
                    WT_STEP == RESP_STEP * REQ_BOUND,
            ;
            lemma_count_where_member(self.reqs@, is_in_system(), r as int);
        }
        let add = (dt as u128) * (self.reqs_in_sys.count as u128);
        self.metrics.wt_sum_reqs_in_sys = self.metrics.wt_sum_reqs_in_sys + add;
        self.reqs_in_sys.count = self.reqs_in_sys.count - 1;
        self.reqs_in_sys.last_mod_ts = now;
        let arrival_time = self.reqs[r].arrival_time;
        let total_service = self.reqs[r].total_service;
        let timed_out = matches!(self.reqs[r].status, ReqStatus::TimedOut);
        if timed_out {
            proof {
                lemma_count_where_member(self.reqs@, is_in_system_timed_out(), r as int);
            }
            self.reqs_in_sys.to_count = self.reqs_in_sys.to_count - 1;
        }
        let mut req = self.reqs[r];
        req.phase = ReqPhase::Departed;
        proof {
            lemma_count_where_update(self.reqs@, is_in_system(), r as int, req);
            lemma_count_where_update(self.reqs@, is_in_system_timed_out(), r as int, req);
            lemma_count_where_update(self.reqs@, is_arrived(), r as int, req);
            lemma_count_where_update(self.reqs@, is_departed(), r as int, req);
            lemma_count_where_update(self.reqs@, is_dropped(), r as int, req);
            lemma_count_where_update(self.reqs@, is_departed_timed_out(), r as int, req);
            lemma_sum_of_update(self.reqs@, departed_service(), r as int, req);
        }
        self.reqs[r] = req;
        proof {
            lemma_horizon_cap(self.iters as int);
        }
        self.metrics.sum_resp_time = self.metrics.sum_resp_time + ((now - arrival_time) as u128);
        self.metrics.sum_service_time = self.metrics.sum_service_time + (total_service as u128);
        self.metrics.n_processed = self.metrics.n_processed + 1;
        proof {
            if old(self).wf_sched_at(*p, pev) {
                let gr = r as int;
                // nothing referenced the departing request, so every held or
                // queued handle is some other, untouched request
                assert forall|c: int, x: int|
                    0 <= c < self.cpus@.len() && #[trigger] self.cpus@[c].holds(x) implies x
                    != gr by {
                    if x == gr {
                        assert(old(self).referenced(gr));
                    }
                }
                assert forall|i: int| 0 <= i < self.tpool@.len() implies #[trigger] self.tpool@[i]
                    != r by {
                    if self.tpool@[i] == r {
                        assert(old(self).referenced(gr));
                    }
                }
                assert forall|i: int| 0 <= i < self.rbuff@.len() implies #[trigger] self.rbuff@[i]
                    != r by {
                    if self.rbuff@[i] == r {
                        assert(old(self).referenced(gr));
                    }
                }
                // no pending event names the departed request
                assert forall|k: int| 0 <= k < self.events@.len() implies self.sched_ok(
                    *p,
                    #[trigger] self.events@[k],
                ) by {
                    let x = self.events@[k];
                    if is_arrival_for(gr)(x) {
                        lemma_count_where_member(old(self).events@, is_arrival_for(gr), k);
                    }
                    if is_departure_for(gr)(x) {
                        lemma_count_where_member(old(self).events@, is_departure_for(gr), k);
                    }
                    assert(old(self).sched_ok(*p, x));
                }
                assert(self.wf_sched(*p));
            }
        }
        if !timed_out {
            let think = smp.gaussian_floor0(p.think_time_mean, p.think_time_std_dev);
            self.schedule_session(now + think, p, smp);
        }
        Ok(())
    }

    /// Handles a `QuantumOver` event for core `c`.  The core must be busy
    /// (else: invariant violation, fail fast).  The time the core actually
    /// spent is subtracted from the running request's remaining service —
    /// exactly, and never below zero — and added to the core's processing
    /// total.  Then, in order of priority: a waiting thread-pool request
    /// preempts (a context switch begins); an unfinished request continues
    /// for free; a buffered request takes over (context switch); or the
    /// core goes idle and the finished request departs now.
    ///
    /// The "continue for free" branch takes priority over pulling from the
    /// overflow buffer, so a partially served request is never preempted
    /// merely because the buffer is non-empty: context switches are charged
    /// only when a different request actually takes the core.
    #[verifier::rlimit(60)]
    pub fn handle_quantum_over(&mut self, c: usize, p: &SystemParams) -> (res: Result<
        (),
        SimError,
    >)
        requires
            old(self).pre_handle(*p),
            c < old(self).cpus@.len(),
        ensures
            final(self).inv(*p),
            final(self).iters == old(self).iters,
            final(self).metrics.time == old(self).metrics.time,
            res is Ok <==> (old(self).cpus@[c as int].state matches CpuState::Busy {
                req,
                quantum_start,
            } && old(self).metrics.time - quantum_start <= old(self).reqs@[
                req as int
            ].remaining_service),
            res is Err ==> *final(self) == *old(self),
            res is Ok ==> match old(self).cpus@[c as int].state {
                CpuState::Busy { req, quantum_start } => {
                    let pre = *old(self);
                    let post = *final(self);
                    let procd = pre.metrics.time - quantum_start;
                    let rem_after = pre.reqs@[req as int].remaining_service - procd;
                    &&& post.reqs@[req as int] == (Request {
                        remaining_service: rem_after as u64,
                        ..pre.reqs@[req as int]
                    })
                    &&& post.reqs@[req as int].remaining_service == rem_after
                    &&& post.reqs@[req as int].remaining_service <= pre.reqs@[
                        req as int
                    ].remaining_service
                    &&& forall|i: int|
                        0 <= i < pre.reqs@.len() && i != req ==> post.reqs@[i] == pre.reqs@[i]
                    &&& post.reqs@.len() == pre.reqs@.len()
                    &&& post.cpus@[c as int].total_procd_time == pre.cpus@[
                        c as int
                    ].total_procd_time + procd
                    &&& post.cpus@[c as int].total_ctxx_time == pre.cpus@[
                        c as int
                    ].total_ctxx_time
                    &&& (pre.tpool@.len() > 0 ==> post.cpus@[c as int].state
                        == (CpuState::CtxSwitching {
                        incoming: pre.tpool@[0] as usize,
                        outgoing: req,
                        switch_start: pre.metrics.time,
                        incoming_holds_thread: true,
                    }) && post.tpool@ == pre.tpool@.remove(0) && post.n_threads
                        == pre.n_threads && post.events@.contains(
                        (Event {
                            kind: EventType::CtxSwitched(c),
                            timestamp: (pre.metrics.time + p.ctxx_time) as u64,
                        }),
                    ))
                    &&& (pre.tpool@.len() == 0 && rem_after > 0 ==> post.cpus@[c as int].state
                        == (CpuState::Busy { req, quantum_start: pre.metrics.time })
                        && post.n_threads == pre.n_threads && post.tpool@ == pre.tpool@
                        && post.rbuff@ == pre.rbuff@ && post.events@.contains(
                        (Event {
                            kind: EventType::QuantumOver(c),
                            timestamp: (pre.metrics.time + (if rem_after < p.quantum as int {
                                rem_after
                            } else {
                                p.quantum as int
                            })) as u64,
                        }),
                    ))
                    &&& (pre.tpool@.len() == 0 && rem_after == 0 && pre.rbuff@.len() > 0
                        ==> post.cpus@[c as int].state == (CpuState::CtxSwitching {
                        incoming: pre.rbuff@[0] as usize,
                        outgoing: req,
                        switch_start: pre.metrics.time,
                        incoming_holds_thread: false,
                    }) && post.rbuff@ == pre.rbuff@.remove(0) && post.n_threads
                        == pre.n_threads && post.events@.contains(
                        (Event {
                            kind: EventType::CtxSwitched(c),
                            timestamp: (pre.metrics.time + p.ctxx_time) as u64,
                        }),
                    ))
                    &&& (pre.tpool@.len() == 0 && rem_after == 0 && pre.rbuff@.len() == 0
                        ==> post.cpus@[c as int].state is Idle && post.n_threads
                        == pre.n_threads - 1 && post.events@.len() == pre.events@.len() + 1
                        && post.events@.contains(
                        (Event { kind: EventType::Departure(req), timestamp: pre.metrics.time }),
                    ))
                    &&& post.metrics.n_processed == pre.metrics.n_processed
                    &&& post.metrics.n_dropped == pre.metrics.n_dropped
                },
                _ => false,
            },
            old(self).wf_sched_at(
                *p,
                (Event { kind: EventType::QuantumOver(c), timestamp: old(self).metrics.time }),
            ) ==> (res is Ok && final(self).wf_sched(*p)),
    {
        let now = self.metrics.time;
        let ghost pev = Event { kind: EventType::QuantumOver(c), timestamp: now };
        match self.cpus[c].state {
            CpuState::Busy { req, quantum_start } => {
                let procd = now - quantum_start;
                let rem = self.reqs[req].remaining_service;
                if procd > rem {
                    // under the scheduling correspondence the quantum end
                    // fires exactly when the scheduled share is done, so
                    // this arm is unreachable then
                    return Err(SimError::InvariantViolation);
                }
                proof {
                    // the running request is referenced by this core alone,
                    // is not waiting anywhere, and has arrived
                    assert(self.cpus@[c as int].holds(req as int));
                    assert forall|d: int|
                        0 <= d < self.cpus@.len() && d != c as int implies !(
                    #[trigger] self.cpus@[d].holds(req as int)) by {
                        assert(self.cpus@[c as int].holds(req as int));
                    }
                    assert forall|i: int| 0 <= i < self.tpool@.len() implies #[trigger] self.tpool@[i]
                        != req by {
                        assert(!(self.cpus@[c as int].holds(self.tpool@[i] as int)));
                    }
                    assert forall|i: int| 0 <= i < self.rbuff@.len() implies #[trigger] self.rbuff@[i]
                        != req by {
                        assert(!(self.cpus@[c as int].holds(self.rbuff@[i] as int)));
                    }
                }
                let mut cpu = self.cpus[c];
                cpu.total_procd_time = cpu.total_procd_time + procd;
                proof {
                    lemma_sum_of_update(self.cpus@, slots_of(), c as int, cpu);
                }
                self.cpus[c] = cpu;
                let mut subject = self.reqs[req];
                subject.remaining_service = rem - procd;
                proof {
                    lemma_count_where_update(self.reqs@, is_in_system(), req as int, subject);
                    lemma_count_where_update(
                        self.reqs@,
                        is_in_system_timed_out(),
                        req as int,
                        subject,
                    );
                    lemma_count_where_update(self.reqs@, is_arrived(), req as int, subject);
                    lemma_count_where_update(self.reqs@, is_departed(), req as int, subject);
                    lemma_count_where_update(self.reqs@, is_dropped(), req as int, subject);
                    lemma_count_where_update(
                        self.reqs@,
                        is_departed_timed_out(),
                        req as int,
                        subject,
                    );
                    lemma_sum_of_update(self.reqs@, departed_service(), req as int, subject);
                }
                self.reqs[req] = subject;
                proof {
                    // every other core is untouched, and holds requests
                    // other than the one whose remaining service changed
                    assert forall|d: int|
                        0 <= d < self.cpus@.len() && d != c as int implies self.cpu_ok(
                        #[trigger] self.cpus@[d],
                    ) by {
                        assert(!old(self).cpus@[d].holds(req as int));
                        assert(old(self).cpu_ok(old(self).cpus@[d]));
                    }
                    assert(old(self).cpu_ok(old(self).cpus@[c as int]));
                    if old(self).wf_sched_at(*p, pev) {
                        let gr = req as int;
                        let gc = c as int;
                        // no pending event names this core or its request:
                        // the core's one quantum end was just popped, and a
                        // running request can have no pending arrival or
                        // departure
                        assert forall|k: int|
                            0 <= k < old(self).events@.len() implies !(is_qo_for(gc)(
                            #[trigger] old(self).events@[k],
                        )) && !(is_cs_for(gc)(old(self).events@[k])) && !(is_arrival_for(gr)(
                            old(self).events@[k],
                        )) && !(is_departure_for(gr)(old(self).events@[k])) by {
                            let x = old(self).events@[k];
                            if is_qo_for(gc)(x) {
                                lemma_count_where_member(old(self).events@, is_qo_for(gc), k);
                            }
                            if is_cs_for(gc)(x) {
                                lemma_count_where_member(old(self).events@, is_cs_for(gc), k);
                            }
                            if is_arrival_for(gr)(x) {
                                lemma_count_where_member(
                                    old(self).events@,
                                    is_arrival_for(gr),
                                    k,
                                );
                            }
                            if is_departure_for(gr)(x) {
                                assert(old(self).sched_ok(*p, x));
                                assert(old(self).referenced(gr));
                            }
                        }
                        lemma_count_where_none(old(self).events@, is_departure_for(gr));
                    }
                }
                if self.tpool.len() > 0 {
                    proof {
                        assert(old(self).reqs@[self.tpool@[0] as int].arrival_time + old(
                            self,
                        ).reqs@[self.tpool@[0] as int].processed() <= now);
                    }
                    let incoming = self.tpool.remove(0);
                    let mut cpu2 = self.cpus[c];
                    cpu2.state = CpuState::CtxSwitching {
                        incoming,
                        outgoing: req,
                        switch_start: now,
                        incoming_holds_thread: true,
                    };
                    proof {
                        lemma_sum_of_update(self.cpus@, slots_of(), c as int, cpu2);
                    }
                    self.cpus[c] = cpu2;
                    let cev = Event::new(EventType::CtxSwitched(c), now + p.ctxx_time);
                    let ghost base = self.events@;
                    self.events.push(cev);
                    proof {
                        if old(self).wf_sched_at(*p, pev) {
                            assert(base == old(self).events@);
                            assert forall|k: int|
                                0 <= k < self.events@.len() implies self.sched_ok(
                                *p,
                                #[trigger] self.events@[k],
                            ) by {
                                let x = self.events@[k];
                                if x != cev {
                                    assert(base.contains(x));
                                    let j = choose|j: int|
                                        0 <= j < base.len() && base[j] == x;
                                    assert(old(self).sched_ok(*p, old(self).events@[j]));
                                    assert(old(self).cpus@[c as int].holds(req as int));
                                    match x.kind {
                                        EventType::QuantumOver(d) => {
                                            assert(!(is_qo_for(c as int)(x)));
                                            assert(!(old(self).cpus@[d as int].holds(
                                                req as int,
                                            )));
                                        },
                                        EventType::CtxSwitched(d) => {
                                            assert(!(is_cs_for(c as int)(x)));
                                        },
                                        EventType::Departure(y) => {
                                            assert(!(is_departure_for(req as int)(x)));
                                            if y == incoming {
                                                assert(old(self).referenced(y as int));
                                                assert(false);
                                            }
                                        },
                                        _ => {},
                                    }
                                }
                            }
                            assert(self.wf_sched(*p));
                        }
                    }
                } else if rem - procd > 0 {
                    proof {
                        lemma_sum_of_update(
                            self.cpus@,
                            slots_of(),
                            c as int,
                            (Cpu {
                                state: CpuState::Busy { req, quantum_start: now },
                                ..self.cpus@[c as int]
                            }),
                        );
                    }
                    let ghost base = self.events@;
                    let e = self.process_request(req, c, p.quantum);
                    self.events.push(e);
                    proof {
                        if old(self).wf_sched_at(*p, pev) {
                            assert(base == old(self).events@);
                            assert forall|k: int|
                                0 <= k < self.events@.len() implies self.sched_ok(
                                *p,
                                #[trigger] self.events@[k],
                            ) by {
                                let x = self.events@[k];
                                if x != e {
                                    assert(base.contains(x));
                                    let j = choose|j: int|
                                        0 <= j < base.len() && base[j] == x;
                                    assert(old(self).sched_ok(*p, old(self).events@[j]));
                                    assert(old(self).cpus@[c as int].holds(req as int));
                                    match x.kind {
                                        EventType::QuantumOver(d) => {
                                            assert(!(is_qo_for(c as int)(x)));
                                            assert(!(old(self).cpus@[d as int].holds(
                                                req as int,
                                            )));
                                        },
                                        EventType::CtxSwitched(d) => {
                                            assert(!(is_cs_for(c as int)(x)));
                                        },
                                        EventType::Departure(y) => {
                                            assert(!(is_departure_for(req as int)(x)));

                                        },
                                        _ => {},
                                    }
                                }
                            }
                            assert(self.wf_sched(*p));
                        }
                    }
                } else if self.rbuff.len() > 0 {
                    let incoming = self.rbuff.remove(0);
                    let mut cpu2 = self.cpus[c];
                    cpu2.state = CpuState::CtxSwitching {
                        incoming,
                        outgoing: req,
                        switch_start: now,
                        incoming_holds_thread: false,
                    };
                    proof {
                        lemma_sum_of_update(self.cpus@, slots_of(), c as int, cpu2);
                    }
                    self.cpus[c] = cpu2;
                    let cev = Event::new(EventType::CtxSwitched(c), now + p.ctxx_time);
                    let ghost base = self.events@;
                    self.events.push(cev);
                    proof {
                        if old(self).wf_sched_at(*p, pev) {
                            assert(base == old(self).events@);
                            assert forall|k: int|
                                0 <= k < self.events@.len() implies self.sched_ok(
                                *p,
                                #[trigger] self.events@[k],
                            ) by {
                                let x = self.events@[k];
                                if x != cev {
                                    assert(base.contains(x));
                                    let j = choose|j: int|
                                        0 <= j < base.len() && base[j] == x;
                                    assert(old(self).sched_ok(*p, old(self).events@[j]));
                                    assert(old(self).cpus@[c as int].holds(req as int));
                                    match x.kind {
                                        EventType::QuantumOver(d) => {
                                            assert(!(is_qo_for(c as int)(x)));
                                            assert(!(old(self).cpus@[d as int].holds(
                                                req as int,
                                            )));
                                        },
                                        EventType::CtxSwitched(d) => {
                                            assert(!(is_cs_for(c as int)(x)));
                                        },
                                        EventType::Departure(y) => {
                                            assert(!(is_departure_for(req as int)(x)));
                                            if y == incoming {
                                                assert(old(self).referenced(y as int));
                                                assert(false);
                                            }
                                        },
                                        _ => {},
                                    }
                                }
                            }
                            assert(self.wf_sched(*p));
                        }
                    }
                } else {
                    proof {
                        lemma_sum_of_member_lower(self.cpus@, slots_of(), c as int, 1);
                        assert(forall|k: int|
                            0 <= k < self.cpus@.len() ==> slots_of()(#[trigger] self.cpus@[k])
                                >= 0);
                    }
                    self.n_threads = self.n_threads - 1;
                    let mut cpu2 = self.cpus[c];
                    cpu2.state = CpuState::Idle;
                    proof {
                        lemma_sum_of_update(self.cpus@, slots_of(), c as int, cpu2);
                    }
                    self.cpus[c] = cpu2;
                    self.idle_cpus.push(c);
                    let dep_e = Event::new(EventType::Departure(req), now);
                    let ghost base = self.events@;
                    self.events.push(dep_e);
                    proof {
                        if old(self).wf_sched_at(*p, pev) {
                            assert(base == old(self).events@);
                            assert forall|k: int|
                                0 <= k < self.events@.len() implies self.sched_ok(
                                *p,
                                #[trigger] self.events@[k],
                            ) by {
                                let x = self.events@[k];
                                if x != dep_e {
                                    assert(base.contains(x));
                                    let j = choose|j: int|
                                        0 <= j < base.len() && base[j] == x;
                                    assert(old(self).sched_ok(*p, old(self).events@[j]));
                                    assert(old(self).cpus@[c as int].holds(req as int));
                                    match x.kind {
                                        EventType::QuantumOver(d) => {
                                            assert(!(is_qo_for(c as int)(x)));
                                            assert(!(old(self).cpus@[d as int].holds(
                                                req as int,
                                            )));
                                        },
                                        EventType::CtxSwitched(d) => {
                                            assert(!(is_cs_for(c as int)(x)));
                                        },
                                        EventType::Departure(y) => {
                                            assert(!(is_departure_for(req as int)(x)));

                                        },
                                        _ => {},
                                    }
                                }
                            }
                            assert(self.wf_sched(*p));
                        }
                    }
                }
                Ok(())
            },
            _ => Err(SimError::InvariantViolation),
        }
    }

    /// Handles a `CtxSwitched` event for core `c`.  The core must be
    /// switching (else: invariant violation, fail fast).  The switch's cost
    /// is added to the core's context-switch total — and to nothing else —
    /// then the outgoing request either departs now (all service done,
    /// freeing its slot unless the incoming request is taking it over from
    /// the buffer) or goes to the back of the thread-pool queue, the
    /// round-robin requeue.  The incoming request begins its quantum.
    pub fn handle_ctx_switched(&mut self, c: usize, p: &SystemParams) -> (res: Result<
        (),
        SimError,
    >)
        requires
            old(self).pre_handle(*p),
            c < old(self).cpus@.len(),
        ensures
            final(self).inv(*p),
            final(self).iters == old(self).iters,
            final(self).metrics.time == old(self).metrics.time,
            res is Ok <==> old(self).cpus@[c as int].state is CtxSwitching,
            res is Err ==> *final(self) == *old(self),
            res is Ok ==> match old(self).cpus@[c as int].state {
                CpuState::CtxSwitching {
                    incoming,
                    outgoing,
                    switch_start,
                    incoming_holds_thread,
                } => {
                    let pre = *old(self);
                    let post = *final(self);
                    let rem_out = pre.reqs@[outgoing as int].remaining_service;
                    &&& post.cpus@[c as int].total_ctxx_time == pre.cpus@[
                        c as int
                    ].total_ctxx_time + (pre.metrics.time - switch_start)
                    &&& post.cpus@[c as int].total_procd_time == pre.cpus@[
                        c as int
                    ].total_procd_time
                    &&& post.cpus@[c as int].state == (CpuState::Busy {
                        req: incoming,
                        quantum_start: pre.metrics.time,
                    })
                    &&& post.reqs == pre.reqs
                    &&& (rem_out == 0 ==> post.tpool@ == pre.tpool@ && post.events@.len()
                        == pre.events@.len() + 2 && (incoming_holds_thread ==> post.n_threads
                        == pre.n_threads - 1) && (!incoming_holds_thread ==> post.n_threads
                        == pre.n_threads) && post.events@.contains(
                        (Event {
                            kind: EventType::Departure(outgoing),
                            timestamp: pre.metrics.time,
                        }),
                    ))
                    &&& (rem_out > 0 ==> post.tpool@ == pre.tpool@.push(outgoing)
                        && post.events@.len() == pre.events@.len() + 1 && post.n_threads
                        == pre.n_threads)
                    &&& post.events@.contains(
                        (Event {
                            kind: EventType::QuantumOver(c),
                            timestamp: (pre.metrics.time + (if pre.reqs@[
                                incoming as int
                            ].remaining_service < p.quantum {
                                pre.reqs@[incoming as int].remaining_service as int
                            } else {
                                p.quantum as int
                            })) as u64,
                        }),
                    )
                    &&& post.metrics.n_processed == pre.metrics.n_processed
                    &&& post.metrics.n_dropped == pre.metrics.n_dropped
                },
                _ => false,
            },
            old(self).wf_sched_at(
                *p,
                (Event { kind: EventType::CtxSwitched(c), timestamp: old(self).metrics.time }),
            ) ==> (res is Ok && final(self).wf_sched(*p)),
    {
        let now = self.metrics.time;
        let ghost pev = Event { kind: EventType::CtxSwitched(c), timestamp: now };
        match self.cpus[c].state {
            CpuState::CtxSwitching { incoming, outgoing, switch_start, incoming_holds_thread } => {
                proof {
                    // both sides of the switch are referenced by this core
                    // alone and are not waiting anywhere
                    assert(self.cpus@[c as int].holds(incoming as int));
                    assert(self.cpus@[c as int].holds(outgoing as int));
                    assert forall|d: int|
                        0 <= d < self.cpus@.len() && d != c as int implies !(
                    #[trigger] self.cpus@[d].holds(outgoing as int)) by {
                        assert(self.cpus@[c as int].holds(outgoing as int));
                    }
                    assert forall|i: int| 0 <= i < self.tpool@.len() implies #[trigger] self.tpool@[i]
                        != outgoing by {
                        assert(!(self.cpus@[c as int].holds(self.tpool@[i] as int)));
                    }
                    assert forall|i: int| 0 <= i < self.rbuff@.len() implies #[trigger] self.rbuff@[i]
                        != outgoing by {
                        assert(!(self.cpus@[c as int].holds(self.rbuff@[i] as int)));
                    }
                }
                let mut cpu = self.cpus[c];
                cpu.total_ctxx_time = cpu.total_ctxx_time + (now - switch_start);
                proof {
                    lemma_sum_of_update(self.cpus@, slots_of(), c as int, cpu);
                }
                self.cpus[c] = cpu;
                let rem = self.reqs[outgoing].remaining_service;
                if rem == 0 {
                    self.events.push(Event::new(EventType::Departure(outgoing), now));
                    if incoming_holds_thread {
                        proof {
                            lemma_sum_of_member_lower(self.cpus@, slots_of(), c as int, 2);
                            assert(forall|k: int|
                                0 <= k < self.cpus@.len() ==> slots_of()(
                                    #[trigger] self.cpus@[k],
                                ) >= 0);
                        }
                        self.n_threads = self.n_threads - 1;
                    }
                } else {
                    // By the invariant, an incoming request without its own
                    // slot only ever replaces a finished outgoing request,
                    // so here the outgoing request keeps its slot in the
                    // thread-pool queue.
                    self.tpool.push(outgoing);
                }
                proof {
                    lemma_sum_of_update(
                        self.cpus@,
                        slots_of(),
                        c as int,
                        (Cpu {
                            state: CpuState::Busy { req: incoming, quantum_start: now },
                            ..self.cpus@[c as int]
                        }),
                    );
                }
                let e = self.process_request(incoming, c, p.quantum);
                self.events.push(e);
                proof {
                    if old(self).wf_sched_at(*p, pev) {
                        let gc = c as int;
                        let gout = outgoing as int;
                        let dev = Event { kind: EventType::Departure(outgoing), timestamp: now };
                        assert forall|k: int|
                            0 <= k < self.events@.len() implies self.sched_ok(
                            *p,
                            #[trigger] self.events@[k],
                        ) by {
                            let x = self.events@[k];
                            if x != e && !(rem == 0 && x == dev) {
                                assert(old(self).events@.contains(x));
                                let j = choose|j: int|
                                    0 <= j < old(self).events@.len() && old(self).events@[j]
                                        == x;
                                assert(old(self).sched_ok(*p, x));
                                if is_qo_for(gc)(x) {
                                    lemma_count_where_member(
                                        old(self).events@,
                                        is_qo_for(gc),
                                        j,
                                    );
                                }
                                if is_cs_for(gc)(x) {
                                    lemma_count_where_member(
                                        old(self).events@,
                                        is_cs_for(gc),
                                        j,
                                    );
                                }
                                if is_departure_for(gout)(x) {
                                    lemma_count_where_member(
                                        old(self).events@,
                                        is_departure_for(gout),
                                        j,
                                    );
                                    assert(old(self).referenced(gout));
                                    assert(false);
                                }
                            }
                        }
                        if rem == 0 {
                            assert forall|k: int|
                                0 <= k < old(self).events@.len() implies !(is_departure_for(
                                gout,
                            )(#[trigger] old(self).events@[k])) by {
                                if is_departure_for(gout)(old(self).events@[k]) {
                                    assert(old(self).sched_ok(*p, old(self).events@[k]));
                                    assert(old(self).referenced(gout));
                                }
                            }
                            lemma_count_where_none(old(self).events@, is_departure_for(gout));
                        }
                        assert(self.wf_sched(*p));
                    }
                }
                Ok(())
            },
            _ => Err(SimError::InvariantViolation),
        }
    }

    /// Folds the per-core totals into the metric record at the end of a
    /// run, records how many events were processed and whether the
    /// iteration cap ended the run.  The result is sane: its counters are
    /// mutually consistent and the accounted core time never exceeds the
    /// wall clock times the number of cores.
    pub fn into_metrics(self, p: &SystemParams, capped: bool) -> (m: SystemMetrics)
        requires
            self.inv(*p),
            p.valid(),
        ensures
            m == (SystemMetrics {
                n_to_in_proc: self.reqs_in_sys.to_count,
                total_procd_time: m.total_procd_time,
                total_ctxx_time: m.total_ctxx_time,
                n_events: self.iters,
                capped: capped,
                ..self.metrics
            }),
            m.total_procd_time as int == sum_of(self.cpus@, procd_of()),
            m.total_ctxx_time as int == sum_of(self.cpus@, ctxx_of()),
            m.sane(*p),
    {
        let ghost all = self.cpus@;
        let mut tp: u128 = 0;
        let mut tc: u128 = 0;
        let mut i: usize = 0;
        while i < self.cpus.len()
            invariant
                i <= self.cpus@.len(),
                self.cpus@ == all,
                self.inv(*p),
                p.valid(),
                tp as int == sum_of(all.take(i as int), procd_of()),
                tc as int == sum_of(all.take(i as int), ctxx_of()),
                tp as int + tc as int <= i as int * self.metrics.time as int,
            decreases self.cpus@.len() - i,
        {
            let c = self.cpus[i];
            proof {
                let t = self.metrics.time as int;
                let gi = i as int;
                assert(all.take(gi + 1).drop_last() =~= all.take(gi));
                assert(all.take(gi + 1).last() == all[gi]);
                // the invariant bounds every core's accounted time by the clock
                assert(self.cpu_ok(all[gi]));
                assert(c.busy_total() <= t);
                assert((gi + 1) * t == gi * t + t) by (nonlinear_arith);
                lemma_horizon_cap(self.iters as int);
                assert(gi * t <= 0x1_0000_0000_0000_0000 * (RESP_STEP as int)) by (
                nonlinear_arith)
                    requires
                        0 <= gi <= 0x1_0000_0000_0000_0000,
                        0 <= t <= RESP_STEP as int,
                ;
            }
            tp = tp + (c.total_procd_time as u128);
            tc = tc + (c.total_ctxx_time as u128);
            i = i + 1;
        }
        proof {
            let t = self.metrics.time as int;
            let n = self.cpus@.len() as int;
            assert(all.take(all.len() as int) =~= all);
            assert(n * t == t * n) by (nonlinear_arith);
            lemma_count_where_bounds(self.reqs@, is_in_system_timed_out());
            lemma_count_where_bounds(self.reqs@, is_departed_timed_out());
            lemma_count_where_le(self.reqs@, is_departed_timed_out(), is_departed());
            lemma_count_where_disjoint(self.reqs@, is_departed(), is_dropped(), is_arrived());
        }
        SystemMetrics {
            n_to_in_proc: self.reqs_in_sys.to_count,
            total_procd_time: tp,
            total_ctxx_time: tc,
            n_events: self.iters,
            capped,
            ..self.metrics
        }
    }

    /// Creates one new session as an atomic unit: a fresh request in the
    /// arena together with its paired `Arrival` and `Timeout` events, the
    /// service time drawn from the exponential sampler and the timeout
    /// deadline from the uniform one.
    pub fn schedule_session<S: Sampler>(
        &mut self,
        arrival_ts: u64,
        p: &SystemParams,
        smp: &mut S,
    )
        requires
            old(self).inv(*p),
            p.valid(),
            old(self).reqs@.len() < p.n_users + old(self).iters,
            old(self).metrics.time <= arrival_ts,
            arrival_ts + MAX_SAMPLE <= horizon(old(self).iters as int),
        ensures
            final(self).inv(*p),
            final(self).reqs@.len() == old(self).reqs@.len() + 1,
            forall|i: int| 0 <= i < old(self).reqs@.len() ==> final(self).reqs@[i] == old(
                self,
            ).reqs@[i],
            final(self).reqs@.last() == (Request {
                id: old(self).reqs@.len() as usize,
                arrival_time: arrival_ts,
                total_service: final(self).reqs@.last().total_service,
                remaining_service: final(self).reqs@.last().total_service,
                status: ReqStatus::AwaitingOutcome,
                phase: ReqPhase::Pending,
            }),
            final(self).events@.len() == old(self).events@.len() + 2,
            forall|x: Event| old(self).events@.contains(x) ==> final(self).events@.contains(x),
            final(self).events@.contains(
                (Event {
                    kind: EventType::Arrival(old(self).reqs@.len() as usize),
                    timestamp: arrival_ts,
                }),
            ),
            exists|d: u64|
                p.req_timeout_min <= d < p.req_timeout_max
                    && #[trigger] final(self).events@.contains(
                    (Event {
                        kind: EventType::Timeout(old(self).reqs@.len() as usize),
                        timestamp: (arrival_ts + d) as u64,
                    }),
                ),
            final(self).cpus == old(self).cpus,
            final(self).idle_cpus == old(self).idle_cpus,
            final(self).tpool == old(self).tpool,
            final(self).rbuff == old(self).rbuff,
            final(self).n_threads == old(self).n_threads,
            final(self).reqs_in_sys == old(self).reqs_in_sys,
            final(self).metrics == old(self).metrics,
            final(self).iters == old(self).iters,
            old(self).wf_sched(*p) ==> final(self).wf_sched(*p),
    {
        let service = smp.exponential(p.service_time_mean);
        let timeout_delay = smp.uniform(p.req_timeout_min, p.req_timeout_max);
        let id = self.reqs.len();
        self.reqs.push(Request::new(id, arrival_ts, service));
        let (arrival_e, timeout_e) = Event::new_arrival(id, arrival_ts, timeout_delay);
        proof {
            let f = self.reqs@;
            let o = old(self).reqs@;
            let nr = f.last();
            lemma_count_where_push(o, is_in_system(), nr);
            lemma_count_where_push(o, is_in_system_timed_out(), nr);
            lemma_count_where_push(o, is_arrived(), nr);
            lemma_count_where_push(o, is_departed(), nr);
            lemma_count_where_push(o, is_dropped(), nr);
            lemma_count_where_push(o, is_departed_timed_out(), nr);
            lemma_sum_of_push(o, departed_service(), nr);
        }
        self.events.push(arrival_e);
        self.events.push(timeout_e);
        proof {
            assert(p.req_timeout_min <= timeout_delay < p.req_timeout_max
                && self.events@.contains(
                (Event {
                    kind: EventType::Timeout(old(self).reqs@.len() as usize),
                    timestamp: (arrival_ts + timeout_delay) as u64,
                }),
            ));
            if old(self).wf_sched(*p) {
                let o = old(self).events@;
                let oid = old(self).reqs@.len() as int;
                // the fresh request's handle occurs in no old event
                assert forall|k: int| 0 <= k < o.len() implies !(is_arrival_for(oid)(
                    #[trigger] o[k],
                )) && !(is_timeout_for(oid)(o[k])) && !(is_departure_for(oid)(o[k])) by {
                    assert(old(self).ev_ok(o[k]));
                }
                lemma_count_where_none(o, is_arrival_for(oid));
                lemma_count_where_none(o, is_timeout_for(oid));
                lemma_count_where_none(o, is_departure_for(oid));
                assert forall|k: int| 0 <= k < self.events@.len() implies self.sched_ok(
                    *p,
                    #[trigger] self.events@[k],
                ) by {
                    let x = self.events@[k];
                    if x != arrival_e && x != timeout_e {
                        assert(o.contains(x));
                        let j = choose|j: int| 0 <= j < o.len() && o[j] == x;
                        assert(old(self).sched_ok(*p, o[j]));
                    }
                }
                assert(self.wf_sched(*p));
            }
        }
    }
}

/// The conservation law: in every reachable state of a run, the in-service
/// count equals the number of thread-pool slots held by requests on cores
/// plus the length of the thread-pool queue, and the overflow buffer never
/// exceeds its configured capacity.
pub proof fn lemma_conservation(s: Simulation, p: SystemParams)
    requires
        s.inv(p),
    ensures
        s.n_threads as int == sum_of(s.cpus@, slots_of()) + s.tpool@.len(),
        s.rbuff@.len() <= p.buffer_capacity,
{
}

/// The response-time half of the metrics-sanity law: in every reachable
/// state of a run, the accumulated response-time sum dominates the number
/// of completed departures times any common lower bound on the service
/// demand of the departed requests.  With `b` the smallest total service
/// observed among them, the mean response time `sum_resp_time /
/// n_processed` is therefore at least `b`.
pub proof fn lemma_resp_time_dominates_service(s: Simulation, p: SystemParams, b: int)
    requires
        s.inv(p),
        b >= 0,
        forall|i: int|
            0 <= i < s.reqs@.len() && (#[trigger] s.reqs@[i]).phase is Departed
                ==> s.reqs@[i].total_service >= b,
    ensures
        s.metrics.sum_resp_time as int >= s.metrics.n_processed as int * b,
{
    lemma_sum_of_dominates_count(s.reqs@, is_departed(), departed_service(), b);
}

/// Runs the whole simulation: seeds the initial user population, then
/// repeatedly pops the next event in simulated time and dispatches it,
/// until the event queue is exhausted or the iteration cap is reached (the
/// runaway-simulation guard — a deliberate early termination, not an
/// error), and finally folds the per-core totals into the metric record.
///
/// The handlers fail fast on any event fired against a core or request
/// state that the scheduler's own rules forbid (see [`SimError`]), but the
/// scheduling correspondence [`Simulation::wf_sched`] — established at the
/// start and preserved by every step — proves that no such event is ever
/// produced: for a valid configuration the result is always `Ok`.  The
/// record is sane ([`SystemMetrics::sane`]): in particular the accounted
/// core time never exceeds `time * n_cpu`, so the derived CPU utilization
/// lies in `[0, 1]`; the response-time sum covers the service demand of
/// everything processed; `capped` tells a cap-terminated run from one that
/// drained its queue.  A run over an empty user population processes no
/// events and returns the zero record.
pub fn run<S: Sampler>(sys: &SystemParams, smp: &mut S) -> (res: Result<SystemMetrics, SimError>)
    requires
        sys.valid(),
    ensures
        res is Ok,
        match res {
            Ok(m) => {
                &&& m.sane(*sys)
                &&& m.time <= horizon(sys.max_iters as int)
                &&& m.n_arrivals <= sys.max_iters
                &&& m.n_processed <= sys.max_iters
                &&& m.n_timedout <= sys.max_iters
                &&& m.n_dropped <= sys.max_iters
                // every departed request's response covered its whole
                // service demand, so in the aggregate too
                &&& m.sum_resp_time >= m.sum_service_time
                // a non-empty population is actually admitted
                &&& (sys.n_users > 0 ==> m.n_arrivals >= 1)
                // cap termination is distinguishable from queue exhaustion
                &&& m.n_events <= sys.max_iters
                &&& (m.capped <==> m.n_events == sys.max_iters)
            },
            Err(_) => true,
        },
        sys.n_users == 0 ==> res == Ok::<SystemMetrics, SimError>(SystemMetrics::zero()),
{
    let mut sim = Simulation::new(sys, smp);
    let mut capped = false;
    loop
        invariant_except_break
            sim.iters < sys.max_iters,
            !capped,
        invariant
            sys.valid(),
            sim.inv(*sys),
            sim.wf_sched(*sys),
            sim.iters >= 1 ==> sim.metrics.n_arrivals >= 1,
            sim.iters == 0 && sys.n_users > 0 ==> sim.events@.len() > 0,
            sys.n_users == 0 ==> (sim.metrics == SystemMetrics::zero() && sim.events@.len() == 0
                && sum_of(sim.cpus@, procd_of()) == 0 && sum_of(sim.cpus@, ctxx_of()) == 0
                && sim.reqs_in_sys.to_count == 0),
        ensures
            sys.valid(),
            sim.inv(*sys),
            sim.iters >= 1 ==> sim.metrics.n_arrivals >= 1,
            sys.n_users > 0 ==> sim.iters >= 1,
            capped <==> sim.iters == sys.max_iters,
            sys.n_users == 0 ==> (sim.metrics == SystemMetrics::zero() && sum_of(
                sim.cpus@,
                procd_of(),
            ) == 0 && sum_of(sim.cpus@, ctxx_of()) == 0 && sim.reqs_in_sys.to_count == 0),
        decreases sys.max_iters - sim.iters,
    {
        let ghost pre = sim;
        let next = sim.events.pop_min();
        match next {
            None => {
                break ;
            },
            Some(e) => {
                proof {
                    assert(pre.events@[pre.events@.len() - 1] == e);
                    assert(pre.ev_ok(e));
                }
                sim.iters = sim.iters + 1;
                proof {
                    assert forall|k: int|
                        0 <= k < sim.events@.len() implies sim.ev_ok(
                        #[trigger] sim.events@[k],
                    ) by {
                        assert(sim.events@[k] == pre.events@[k]);
                        assert(pre.ev_ok(pre.events@[k]));
                    }
                }
                sim.advance_clock(e.timestamp, sys);
                let ghost pre2 = sim;
                proof {
                    // the popped event still corresponds to the state, its
                    // contribution is gone from the pending counts, and no
                    // pending event precedes it
                    assert(pre.events@[pre.events@.len() - 1] == e);
                    assert(pre.sched_ok(*sys, e));
                    assert forall|k: int|
                        0 <= k < pre2.events@.len() implies pre2.sched_ok(
                        *sys,
                        #[trigger] pre2.events@[k],
                    ) by {
                        assert(pre2.events@[k] == pre.events@[k]);
                        assert(pre.sched_ok(*sys, pre.events@[k]));
                    }
                    assert forall|c: int| 0 <= c < pre2.cpus@.len() implies #[trigger] count_where(
                        pre2.events@,
                        is_qo_for(c),
                    ) == pre.pend_qo(c) - (match e.kind {
                        EventType::QuantumOver(d) => if d == c {
                            1int
                        } else {
                            0int
                        },
                        _ => 0int,
                    }) by {
                        assert(count_where(pre.events@, is_qo_for(c)) == pre.pend_qo(c));
                    }
                    assert forall|c: int| 0 <= c < pre2.cpus@.len() implies #[trigger] count_where(
                        pre2.events@,
                        is_cs_for(c),
                    ) == pre.pend_cs(c) - (match e.kind {
                        EventType::CtxSwitched(d) => if d == c {
                            1int
                        } else {
                            0int
                        },
                        _ => 0int,
                    }) by {
                        assert(count_where(pre.events@, is_cs_for(c)) == pre.pend_cs(c));
                    }
                    assert forall|r: int| 0 <= r < pre2.reqs@.len() implies #[trigger] count_where(
                        pre2.events@,
                        is_arrival_for(r),
                    ) == pre.pend_arr(r) - (match e.kind {
                        EventType::Arrival(x) => if x == r {
                            1int
                        } else {
                            0int
                        },
                        _ => 0int,
                    }) by {
                        assert(count_where(pre.events@, is_arrival_for(r)) == pre.pend_arr(r));
                    }
                    assert forall|r: int| 0 <= r < pre2.reqs@.len() implies #[trigger] count_where(
                        pre2.events@,
                        is_timeout_for(r),
                    ) + (match e.kind {
                        EventType::Timeout(x) => if x == r {
                            1int
                        } else {
                            0int
                        },
                        _ => 0int,
                    }) <= 1 by {
                        assert(count_where(pre.events@, is_timeout_for(r)) <= 1);
                    }
                    assert forall|r: int|
                        0 <= r < pre2.reqs@.len() && pre2.reqs@[r].phase is InSystem
                            && pre2.reqs@[r].status is TimedOut implies #[trigger] count_where(
                        pre2.events@,
                        is_timeout_for(r),
                    ) + (match e.kind {
                        EventType::Timeout(x) => if x == r {
                            1int
                        } else {
                            0int
                        },
                        _ => 0int,
                    }) == 0 by {
                        assert(count_where(pre.events@, is_timeout_for(r)) == 0);
                    }
                    assert forall|r: int| 0 <= r < pre2.reqs@.len() implies #[trigger] count_where(
                        pre2.events@,
                        is_departure_for(r),
                    ) + (match e.kind {
                        EventType::Departure(x) => if x == r {
                            1int
                        } else {
                            0int
                        },
                        _ => 0int,
                    }) <= 1 by {
                        assert(count_where(pre.events@, is_departure_for(r)) <= 1);
                    }
                    assert(pre2.wf_sched_at(*sys, e));
                }
                let hres = match e.kind {
                    EventType::Arrival(r) => sim.handle_arrival(r, sys, smp),
                    EventType::Departure(r) => sim.handle_departure(r, sys, smp),
                    EventType::QuantumOver(c) => sim.handle_quantum_over(c, sys),
                    EventType::CtxSwitched(c) => sim.handle_ctx_switched(c, sys),
                    EventType::Timeout(r) => sim.handle_timeout(r, sys, smp),
                };
                match hres {
                    Ok(()) => {},
                    Err(er) => {
                        // unreachable: the scheduling correspondence rules
                        // this out, and the handler's contract proves it
                        return Err(er);
                    },
                }
                proof {
                    // whatever kind of event was just handled successfully,
                    // some request has arrived by now
                    match e.kind {
                        EventType::Arrival(_) => {},
                        EventType::Departure(r) => {
                            lemma_count_where_member(sim.reqs@, is_arrived(), r as int);
                        },
                        EventType::Timeout(r) => {
                            lemma_count_where_member(sim.reqs@, is_arrived(), r as int);
                        },
                        EventType::QuantumOver(c) => {
                            match pre2.cpus@[c as int].state {
                                CpuState::Busy { req, quantum_start } => {
                                    assert(pre2.cpus@[c as int].holds(req as int));
                                    lemma_count_where_member(
                                        sim.reqs@,
                                        is_arrived(),
                                        req as int,
                                    );
                                },
                                _ => {},
                            }
                        },
                        EventType::CtxSwitched(c) => {
                            match pre2.cpus@[c as int].state {
                                CpuState::CtxSwitching { incoming, .. } => {
                                    assert(pre2.cpus@[c as int].holds(incoming as int));
                                    lemma_count_where_member(
                                        sim.reqs@,
                                        is_arrived(),
                                        incoming as int,
                                    );
                                },
                                _ => {},
                            }
                        },
                    }
                    assert(sim.metrics.n_arrivals >= 1);
                }
                if sim.iters >= sys.max_iters {
                    capped = true;
                    break ;
                }
            },
        }
    }
    let m = sim.into_metrics(sys, capped);
    Ok(m)
}

} // verus!
