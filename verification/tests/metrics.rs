//! The parameter validity check, the goodput numerator helper, and the
//! degenerate sampler's fixed points.

use rrsim::sampler::{DeterministicSampler, Sampler};
use rrsim::simulation::{SystemMetrics, SystemParams};
use rrsim::MAX_SAMPLE;

fn valid_params() -> SystemParams {
    SystemParams {
        n_cpu: 2,
        n_users: 3,
        ease_in_time: 10,
        max_iters: 100,
        buffer_capacity: 4,
        threadpool_size: 2,
        quantum: 500,
        ctxx_time: 50,
        service_time_mean: 1000,
        req_timeout_min: 5000,
        req_timeout_max: 6000,
        think_time_mean: 2000,
        think_time_std_dev: 100,
        retry_think_time_mean: 3000,
        retry_think_time_std_dev: 100,
    }
}

#[test]
fn validity_accepts_a_sound_configuration() {
    assert!(valid_params().is_valid());
}

#[test]
fn validity_rejects_an_empty_timeout_window() {
    let p = SystemParams { req_timeout_min: 6000, req_timeout_max: 6000, ..valid_params() };
    assert!(!p.is_valid());
}

#[test]
fn validity_rejects_a_zero_ease_in_window() {
    let p = SystemParams { ease_in_time: 0, ..valid_params() };
    assert!(!p.is_valid());
}

#[test]
fn validity_rejects_a_zero_iteration_cap() {
    let p = SystemParams { max_iters: 0, ..valid_params() };
    assert!(!p.is_valid());
}

#[test]
fn validity_rejects_an_oversized_duration() {
    let p = SystemParams { quantum: MAX_SAMPLE + 1, ..valid_params() };
    assert!(!p.is_valid());
}

#[test]
fn goodput_numerator_excludes_timed_out_departures() {
    let m = SystemMetrics {
        time: 10,
        n_arrivals: 9,
        n_processed: 5,
        n_timedout: 4,
        n_dropped: 1,
        n_to_in_proc: 1,
        sum_resp_time: 0,
        sum_service_time: 0,
        wt_sum_reqs_in_sys: 0,
        total_procd_time: 0,
        total_ctxx_time: 0,
        n_events: 9,
        capped: false,
    };
    // 4 timeouts, 1 of them still in service: 3 departures were abandoned.
    assert_eq!(m.n_processed_in_time(), 2);
}

#[test]
fn deterministic_sampler_is_the_distribution_fixed_point() {
    let mut s = DeterministicSampler;
    assert_eq!(s.uniform(3, 10), 3);
    assert_eq!(s.uniform(0, 1), 0);
    assert_eq!(s.exponential(42), 42);
    assert_eq!(s.exponential(0), 0);
    assert_eq!(s.gaussian_floor0(17, 5), 17);
}
