use shard_log::production::IngestRateLimiter;
use shard_log::{ProductionRuntime, ServiceLifecycle, ServiceState, SingleTenantConfig};

fn config() -> SingleTenantConfig {
    SingleTenantConfig {
        tenant: "production".to_owned(),
        bearer_token: "0123456789abcdef".to_owned(),
        max_http_in_flight: 64,
        max_ingest_in_flight: 32,
        max_query_in_flight: 32,
        ingest_bytes_per_second: 1_024,
        ingest_burst_bytes: 2_048,
        max_tail_subscribers: 16,
        max_native_connections: 128,
        query_timeout_nanos: 30_000_000_000,
        native_auth_timeout_nanos: 5_000_000_000,
    }
}

#[test]
fn lifecycle_never_reopens_after_drain() {
    let mut lifecycle = ServiceLifecycle::new();
    lifecycle.mark_ready();
    assert!(lifecycle.accepts_ingest());
    lifecycle.begin_draining();
    lifecycle.mark_ready();
    assert_eq!(lifecycle.state(), ServiceState::Draining);
    assert!(!lifecycle.accepts_ingest());
    lifecycle.request_shutdown();
    assert_eq!(lifecycle.state(), ServiceState::Stopping);
}

#[test]
fn credentials_and_limits_fail_closed() {
    let config = config();
    assert_eq!(config.validate(), Ok(()));
    assert!(config.authenticates("0123456789abcdef"));
    assert!(!config.authenticates("0123456789abcdeg"));
}

#[test]
fn integer_rate_limiter_bounds_a_burst() {
    let mut limiter = IngestRateLimiter::new(1, 8);
    assert!(limiter.try_acquire(8, 0));
    assert!(!limiter.try_acquire(1, 0));
    assert!(!limiter.try_acquire(9, 0));
}

#[test]
fn runtime_enforces_lifecycle_and_concurrency() {
    let mut runtime = ProductionRuntime::new(
        SingleTenantConfig {
            max_http_in_flight: 1,
            max_ingest_in_flight: 1,
            max_query_in_flight: 1,
            ingest_bytes_per_second: 0,
            ingest_burst_bytes: 0,
            max_tail_subscribers: 1,
            max_native_connections: 1,
            ..config()
        },
        ServiceLifecycle::new(),
    )
    .ok()
    .expect("runtime");
    assert!(!runtime.try_ingest(1, 0));
    runtime.lifecycle.mark_ready();
    assert!(runtime.try_http());
    assert!(!runtime.try_http());
    runtime.leave_http();
    assert!(runtime.try_http());
    assert!(runtime.try_native_connection());
    assert!(!runtime.try_native_connection());
    runtime.leave_native_connection();
    assert!(runtime.try_native_connection());
    runtime.lifecycle.begin_draining();
    assert!(!runtime.try_ingest(1, 0));
    assert!(runtime.try_query());
}

#[test]
fn tokens_come_back_with_time() {
    let mut limiter = IngestRateLimiter::new(4, 8);
    assert!(limiter.try_acquire(8, 0));
    assert!(!limiter.try_acquire(1, 249_999_999));
    assert!(limiter.try_acquire(1, 1));
    assert!(!limiter.try_acquire(8, 1_750_000_000));
    assert!(limiter.try_acquire(7, 0));
}

#[test]
fn wrong_limits_are_named() {
    let mut wrong = config();
    wrong.tenant = String::new();
    assert!(wrong.validate().is_err());
    let mut wrong = config();
    wrong.bearer_token = "short".to_owned();
    assert!(wrong.validate().is_err());
    let mut wrong = config();
    wrong.max_http_in_flight = 0;
    assert!(wrong.validate().is_err());
    let mut wrong = config();
    wrong.query_timeout_nanos = 0;
    assert!(wrong.validate().is_err());
    assert!(ProductionRuntime::new(wrong, ServiceLifecycle::new()).is_err());
}

#[test]
fn a_failure_is_kept() {
    let mut lifecycle = ServiceLifecycle::new();
    lifecycle.mark_ready();
    lifecycle.mark_failed("disk".to_owned());
    lifecycle.request_shutdown();
    assert_eq!(lifecycle.state(), ServiceState::Failed);
    assert_eq!(lifecycle.failure().map(String::as_str), Some("disk"));
    assert!(lifecycle.shutdown_requested());
    assert_eq!(ServiceState::from_raw(2).as_str(), "draining");
}
