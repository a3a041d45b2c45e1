//! Processing cores: a three-state machine with cumulative busy-time and
//! context-switch-time counters.  Cores only ever change state through the
//! dispatcher in the simulation module.

use vstd::prelude::*;

verus! {

/// The state of one core.  Requests are named by their arena handles.
#[derive(Clone, Copy, Debug)]
pub enum CpuState {
    /// No request holds the core.
    Idle,
    /// `req` is running a quantum that began at `quantum_start`.
    Busy { req: usize, quantum_start: u64 },
    /// The core is swapping `outgoing` for `incoming`; the switch began at
    /// `switch_start`.  `incoming_holds_thread` records whether the incoming
    /// request already holds a thread-pool slot (it was popped from the
    /// thread-pool queue) or is entering service from the overflow buffer,
    /// in which case it takes over the slot that the departing outgoing
    /// request frees — keeping the in-service count exact either way.
    CtxSwitching {
        incoming: usize,
        outgoing: usize,
        switch_start: u64,
        incoming_holds_thread: bool,
    },
}

/// A core and its cumulative time accounting.
#[derive(Clone, Copy, Debug)]
pub struct Cpu {
    pub state: CpuState,
    pub total_procd_time: u64,
    pub total_ctxx_time: u64,
}

impl Cpu {
    /// A fresh, idle core with zeroed counters.
    pub fn new() -> (c: Cpu)
        ensures
            c == (Cpu { state: CpuState::Idle, total_procd_time: 0, total_ctxx_time: 0 }),
    {
        Cpu { state: CpuState::Idle, total_procd_time: 0, total_ctxx_time: 0 }
    }

    /// How many thread-pool slots are held by requests currently on this
    /// core.  A busy core accounts for one; a switching core accounts for
    /// the outgoing request's slot plus, when the incoming request brought
    /// its own slot from the thread-pool queue, that one too.
    pub open spec fn slots_held(self) -> int {
        match self.state {
            CpuState::Idle => 0,
            CpuState::Busy { .. } => 1,
            CpuState::CtxSwitching { incoming_holds_thread, .. } => if incoming_holds_thread {
                2
            } else {
                1
            },
        }
    }

    /// Total simulated time this core has accounted for so far, processing
    /// and switching together.
    pub open spec fn busy_total(self) -> int {
        self.total_procd_time + self.total_ctxx_time
    }

    /// Whether this core currently references request handle `r`, as its
    /// busy request or as either side of a switch.
    pub open spec fn holds(self, r: int) -> bool {
        match self.state {
            CpuState::Idle => false,
            CpuState::Busy { req, .. } => req == r,
            CpuState::CtxSwitching { incoming, outgoing, .. } => incoming == r || outgoing == r,
        }
    }
}

} // verus!
