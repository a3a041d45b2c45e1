//! The heap-ordering guarantee on concrete event sets: events come out in
//! non-decreasing timestamp order, and on equal timestamps every `Timeout`
//! comes out strictly after every other kind.

use rrsim::event::{Event, EventQueue, EventType};

fn ts_of(e: &Event) -> u64 {
    e.timestamp
}

#[test]
fn pops_in_nondecreasing_timestamp_order() {
    let mut q = EventQueue::new();
    let stamps: [u64; 9] = [40, 7, 7, 99, 0, 23, 23, 5, 40];
    for (i, t) in stamps.iter().enumerate() {
        q.push(Event::new(EventType::Arrival(i), *t));
    }
    assert_eq!(q.len(), 9);
    let mut last: u64 = 0;
    let mut seen: Vec<u64> = Vec::new();
    while let Some(e) = q.pop_min() {
        assert!(ts_of(&e) >= last);
        last = ts_of(&e);
        seen.push(e.timestamp);
    }
    let mut expected = stamps.to_vec();
    expected.sort();
    assert_eq!(seen, expected);
    assert_eq!(q.len(), 0);
    assert!(q.pop_min().is_none());
}

#[test]
fn timeout_pops_strictly_after_other_kinds_at_equal_timestamp() {
    let mut q = EventQueue::new();
    q.push(Event::new(EventType::Timeout(0), 10));
    q.push(Event::new(EventType::Arrival(1), 10));
    q.push(Event::new(EventType::Timeout(2), 10));
    q.push(Event::new(EventType::Departure(3), 10));
    q.push(Event::new(EventType::QuantumOver(4), 10));
    q.push(Event::new(EventType::CtxSwitched(5), 10));
    let mut saw_timeout = false;
    while let Some(e) = q.pop_min() {
        assert_eq!(e.timestamp, 10);
        match e.kind {
            EventType::Timeout(_) => saw_timeout = true,
            _ => assert!(!saw_timeout, "a non-Timeout event popped after a Timeout"),
        }
    }
    assert!(saw_timeout);
}

#[test]
fn earlier_timeout_still_precedes_later_events() {
    let mut q = EventQueue::new();
    q.push(Event::new(EventType::Arrival(0), 30));
    q.push(Event::new(EventType::Timeout(1), 20));
    let first = q.pop_min().unwrap();
    assert!(matches!(first.kind, EventType::Timeout(1)));
    assert_eq!(first.timestamp, 20);
}

#[test]
fn new_arrival_builds_the_paired_events() {
    let (arrival, timeout) = Event::new_arrival(7, 100, 250);
    assert!(matches!(arrival.kind, EventType::Arrival(7)));
    assert_eq!(arrival.timestamp, 100);
    assert!(matches!(timeout.kind, EventType::Timeout(7)));
    assert_eq!(timeout.timestamp, 350);
}
