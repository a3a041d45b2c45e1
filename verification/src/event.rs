//! Pending events and the time-ordered event queue that drives the run.
//!
//! The queue yields events in non-decreasing timestamp order.  On equal
//! timestamps `Timeout` events are yielded strictly after every other kind;
//! among the remaining kinds ties are broken arbitrarily, and callers must
//! not rely on any particular order between them.

use vstd::prelude::*;

use crate::counting::{count_where, lemma_count_where_insert, lemma_count_where_push};

verus! {

/// The kind of a pending event.  Each variant names its subject by a stable
/// integer handle: requests and cores live in arenas owned by the simulation
/// state, and events refer to them by index.
///
/// `Timeout` is the one non-owning reference of the design: when it fires,
/// the request it names may long since have departed or been dropped, and the
/// handler must treat it as a no-op then.
#[derive(Clone, Copy, Debug)]
pub enum EventType {
    /// A request reaches the admission controller.
    Arrival(usize),
    /// A request leaves the system with all its service done.
    Departure(usize),
    /// The processing quantum of a core runs out.
    QuantumOver(usize),
    /// A core finishes swapping one request for another.
    CtxSwitched(usize),
    /// The client owning a request gives up waiting.
    Timeout(usize),
}

impl EventType {
    /// Rank used by the tie-break on equal timestamps: `Timeout` events sort
    /// strictly after every other kind.
    pub open spec fn rank(self) -> int {
        match self {
            EventType::Timeout(_) => 1,
            _ => 0,
        }
    }

    /// True exactly on `Timeout` events.
    pub fn is_timeout(&self) -> (r: bool)
        ensures
            r == (self.rank() == 1),
    {
        matches!(self, EventType::Timeout(_))
    }
}

/// One pending event: a kind and the simulated instant at which it fires.
#[derive(Clone, Copy, Debug)]
pub struct Event {
    pub kind: EventType,
    pub timestamp: u64,
}

/// The queue's ordering relation: `a` may be yielded no later than `b`.
/// Primary key is the timestamp, ascending; on equal timestamps every
/// non-`Timeout` event precedes every `Timeout` event, and two events of the
/// same rank are considered equal (their relative order is unspecified).
pub open spec fn event_le(a: Event, b: Event) -> bool {
    a.timestamp < b.timestamp
        || (a.timestamp == b.timestamp && a.kind.rank() <= b.kind.rank())
}

/// Strict version of [`event_le`]: `a` must be yielded strictly before `b`.
pub open spec fn event_lt(a: Event, b: Event) -> bool {
    !event_le(b, a)
}

/// The ordering is total: any two events are comparable.
pub proof fn lemma_event_order_total(a: Event, b: Event)
    ensures
        event_le(a, b) || event_le(b, a),
{
}

/// The ordering is transitive.
pub proof fn lemma_event_order_transitive(a: Event, b: Event, c: Event)
    requires
        event_le(a, b),
        event_le(b, c),
    ensures
        event_le(a, c),
{
}

/// The tie-break rule: whatever is yielded no later than a `Timeout` event of
/// the same timestamp is itself a `Timeout` event.  Equivalently, on equal
/// timestamps a `Timeout` never precedes a non-`Timeout`.
pub proof fn lemma_timeout_yields_last(a: Event, b: Event)
    requires
        event_le(a, b),
        a.timestamp == b.timestamp,
        a.kind is Timeout,
    ensures
        b.kind is Timeout,
{
}

/// Executable comparison: does `a` have to be yielded strictly before `b`?
fn event_before(a: &Event, b: &Event) -> (r: bool)
    ensures
        r == event_lt(*a, *b),
{
    a.timestamp < b.timestamp
        || (a.timestamp == b.timestamp && !a.kind.is_timeout() && b.kind.is_timeout())
}

impl Event {
    pub fn new(kind: EventType, timestamp: u64) -> (e: Event)
        ensures
            e.kind == kind,
            e.timestamp == timestamp,
    {
        Event { kind, timestamp }
    }

    /// The two events that make up one session: an owning `Arrival` and its
    /// paired non-owning `Timeout`, `timeout_delay` ticks later.  They are
    /// built together so that the invariant "every request has exactly one
    /// `Timeout` counterpart" holds by construction.
    pub fn new_arrival(req: usize, arrival_ts: u64, timeout_delay: u64) -> (pair: (Event, Event))
        requires
            arrival_ts + timeout_delay <= u64::MAX,
        ensures
            pair.0 == (Event { kind: EventType::Arrival(req), timestamp: arrival_ts }),
            pair.1 == (Event {
                kind: EventType::Timeout(req),
                timestamp: (arrival_ts + timeout_delay) as u64,
            }),
    {
        let arrival_e = Event::new(EventType::Arrival(req), arrival_ts);
        let timeout_e = Event::new(EventType::Timeout(req), arrival_ts + timeout_delay);
        (arrival_e, timeout_e)
    }
}

/// A priority queue of pending events, ordered by [`event_le`].
///
/// The representation is a vector sorted in descending order, so the minimal
/// event sits at the back and is popped in constant time.
pub struct EventQueue {
    items: Vec<Event>,
}

impl View for EventQueue {
    type V = Seq<Event>;

    closed spec fn view(&self) -> Seq<Event> {
        self.items@
    }
}

impl EventQueue {
    /// Internal well-formedness: the vector is sorted in descending order
    /// under [`event_le`].
    pub closed spec fn wf(self) -> bool {
        forall|i: int, j: int|
            0 <= i < j < self.items@.len()
                ==> event_le(#[trigger] self.items@[j], #[trigger] self.items@[i])
    }

    /// An empty queue.
    pub fn new() -> (q: EventQueue)
        ensures
            q.wf(),
            q@ == Seq::<Event>::empty(),
    {
        EventQueue { items: Vec::new() }
    }

    /// Number of pending events.
    pub fn len(&self) -> (n: usize)
        ensures
            n == self@.len(),
    {
        self.items.len()
    }

    /// Inserts an event, keeping the queue well formed.  The new contents are
    /// the old contents with `e` inserted at some position.
    pub fn push(&mut self, e: Event)
        requires
            old(self).wf(),
        ensures
            final(self).wf(),
            final(self)@.len() == old(self)@.len() + 1,
            exists|i: int|
                0 <= i <= old(self)@.len() && final(self)@ == old(self)@.insert(i, e),
            forall|k: int|
                0 <= k < final(self)@.len()
                    ==> #[trigger] final(self)@[k] == e || old(self)@.contains(final(self)@[k]),
            final(self)@.contains(e),
            forall|x: Event| old(self)@.contains(x) ==> final(self)@.contains(x),
            forall|f: spec_fn(Event) -> bool| #[trigger] count_where(final(self)@, f)
                == count_where(old(self)@, f) + (if f(e) {
                1int
            } else {
                0int
            }),
    {
        let ghost prior = self.items@;
        let mut i: usize = self.items.len();
        while i > 0 && event_before(&self.items[i - 1], &e)
            invariant
                i <= self.items@.len(),
                self.items@ == prior,
                forall|k: int| i <= k < self.items@.len() ==> event_lt(#[trigger] self.items@[k], e),
            decreases i,
        {
            i = i - 1;
        }
        self.items.insert(i, e);
        proof {
            let gi = i as int;
            assert(self.items@ == prior.insert(gi, e));
            assert(0 <= gi <= old(self)@.len() && self@ == old(self)@.insert(gi, e));
            assert forall|k: int| 0 <= k < self.items@.len() implies #[trigger] self.items@[k] == e
                || prior.contains(self.items@[k]) by {
                if k < gi {
                    assert(self.items@[k] == prior[k]);
                } else if k > gi {
                    assert(self.items@[k] == prior[k - 1]);
                }
            }
            assert(self.items@[gi] == e);
            assert forall|x: Event| prior.contains(x) implies self@.contains(x) by {
                let k = choose|k: int| 0 <= k < prior.len() && prior[k] == x;
                if k < gi {
                    assert(self.items@[k] == x);
                } else {
                    assert(self.items@[k + 1] == x);
                }
            }
            assert forall|f: spec_fn(Event) -> bool| #[trigger] count_where(self@, f)
                == count_where(prior, f) + (if f(e) {
                1int
            } else {
                0int
            }) by {
                lemma_count_where_insert(prior, f, gi, e);
            }
            assert forall|a: int, b: int|
                0 <= a < b < self.items@.len() implies event_le(
                #[trigger] self.items@[b],
                #[trigger] self.items@[a],
            ) by {
                if a < gi {
                    assert(self.items@[a] == prior[a]);
                }
                if b < gi {
                    assert(self.items@[b] == prior[b]);
                }
                if a > gi {
                    assert(self.items@[a] == prior[a - 1]);
                }
                if b > gi {
                    assert(self.items@[b] == prior[b - 1]);
                }
                if a == gi && b > gi {
                    // prior[b - 1] was scanned by the loop, hence strictly before e.
                    assert(event_lt(prior[b - 1], e));
                }
                if b == gi && a < gi {
                    // The loop stopped at i, so e is not strictly before prior[i - 1].
                    assert(event_le(e, prior[gi - 1]));
                    assert(event_le(prior[gi - 1], prior[a]) || a == gi - 1);
                }
            }
        }
    }

    /// Removes and returns a minimal pending event, or `None` when the queue
    /// is exhausted.  Every event still pending afterwards is yielded no
    /// earlier than the returned one; this is the heap-ordering guarantee
    /// from which the run inherits its non-decreasing clock.
    pub fn pop_min(&mut self) -> (r: Option<Event>)
        requires
            old(self).wf(),
        ensures
            final(self).wf(),
            match r {
                None => old(self)@.len() == 0 && final(self)@ == old(self)@,
                Some(e) => {
                    &&& old(self)@ == final(self)@.push(e)
                    &&& forall|k: int|
                        0 <= k < final(self)@.len() ==> event_le(e, #[trigger] final(self)@[k])
                    &&& forall|f: spec_fn(Event) -> bool| #[trigger] count_where(old(self)@, f)
                        == count_where(final(self)@, f) + (if f(e) {
                        1int
                    } else {
                        0int
                    })
                },
            },
    {
        let r = self.items.pop();
        proof {
            if old(self).items@.len() > 0 {
                let e = old(self).items@.last();
                assert(old(self).items@ == self.items@.push(e));
                assert forall|f: spec_fn(Event) -> bool| #[trigger] count_where(
                    old(self).items@,
                    f,
                ) == count_where(self.items@, f) + (if f(e) {
                    1int
                } else {
                    0int
                }) by {
                    lemma_count_where_push(self.items@, f, e);
                }
            }
        }
        r
    }
}

} // verus!
