//! Lifecycle, credentials, admission and rate limits of a production service.
use vstd::prelude::*;
use vstd::utf8::*;

use crate::native_frame::{blake3_digest, blake3_hash};

verus! {

broadcast use vstd::seq_lib::group_seq_properties;

/// Runtime lifecycle exposed by the production HTTP and native servers.
#[derive(Debug, Clone, Copy, PartialEq, Eq, Structural)]
pub enum ServiceState {
    /// Durable recovery and listener initialization are still in progress.
    Starting,
    /// The service accepts ingestion and queries.
    Ready,
    /// New ingestion is rejected while accepted work is flushed.
    Draining,
    /// A process shutdown has been requested.
    Stopping,
    /// A durable or operational invariant failed.
    Failed,
}

impl ServiceState {
    /// Number of the state in diagnostics.
    pub open spec fn code(self) -> u8 {
        match self {
            ServiceState::Starting => 0,
            ServiceState::Ready => 1,
            ServiceState::Draining => 2,
            ServiceState::Stopping => 3,
            ServiceState::Failed => 4,
        }
    }

    /// The state with a number; unknown numbers stand for a failure.
    pub fn from_raw(value: u8) -> (state: Self)
        ensures
            state.code() == if value < 4 {
                value
            } else {
                4
            },
    {
        match value {
            0 => ServiceState::Starting,
            1 => ServiceState::Ready,
            2 => ServiceState::Draining,
            3 => ServiceState::Stopping,
            _ => ServiceState::Failed,
        }
    }

    /// Stable lowercase name.
    pub open spec fn text(self) -> Seq<char> {
        match self {
            ServiceState::Starting => "starting"@,
            ServiceState::Ready => "ready"@,
            ServiceState::Draining => "draining"@,
            ServiceState::Stopping => "stopping"@,
            ServiceState::Failed => "failed"@,
        }
    }

    /// Returns the stable lowercase name used by metrics and diagnostics.
    pub fn as_str(self) -> (name: &'static str)
        ensures
            name@ == self.text(),
    {
        match self {
            ServiceState::Starting => "starting",
            ServiceState::Ready => "ready",
            ServiceState::Draining => "draining",
            ServiceState::Stopping => "stopping",
            ServiceState::Failed => "failed",
        }
    }

    /// Whether the service left readiness for good.
    pub open spec fn closed(self) -> bool {
        self == ServiceState::Draining || self == ServiceState::Stopping || self
            == ServiceState::Failed
    }
}

/// What happens to a service.
#[derive(Debug, Clone, Copy, PartialEq, Eq, Structural)]
pub enum LifecycleEvent {
    /// Recovery has finished.
    MarkReady,
    /// Ingestion is to end.
    BeginDraining,
    /// The process is to end.
    RequestShutdown,
    /// An invariant failed.
    MarkFailed,
}

/// State after an event.
pub open spec fn next_state(state: ServiceState, event: LifecycleEvent) -> ServiceState {
    match event {
        LifecycleEvent::MarkReady => if state == ServiceState::Starting {
            ServiceState::Ready
        } else {
            state
        },
        LifecycleEvent::BeginDraining => if state.closed() {
            state
        } else {
            ServiceState::Draining
        },
        LifecycleEvent::RequestShutdown => if state == ServiceState::Failed {
            state
        } else {
            ServiceState::Stopping
        },
        LifecycleEvent::MarkFailed => ServiceState::Failed,
    }
}

/// State after events.
pub open spec fn state_after(state: ServiceState, events: Seq<LifecycleEvent>) -> ServiceState
    decreases events.len(),
{
    if events.len() == 0 {
        state
    } else {
        next_state(state_after(state, events.drop_last()), events.last())
    }
}

/// A service that drains, stops or failed never becomes ready again, whatever
/// happens to it.
pub proof fn lifecycle_never_reopens(state: ServiceState, events: Seq<LifecycleEvent>)
    requires
        state.closed(),
    ensures
        state_after(state, events).closed(),
        state_after(state, events) != ServiceState::Ready,
    decreases events.len(),
{
    if events.len() > 0 {
        lifecycle_never_reopens(state, events.drop_last());
    }
}

/// A failure is final.
pub proof fn failure_is_final(events: Seq<LifecycleEvent>)
    ensures
        state_after(ServiceState::Failed, events) == ServiceState::Failed,
    decreases events.len(),
{
    if events.len() > 0 {
        failure_is_final(events.drop_last());
    }
}

/// Lifecycle of a service.
#[derive(Debug)]
pub struct ServiceLifecycle {
    /// Current state.
    pub state: ServiceState,
    /// Reason of a failure.
    pub failure: Option<String>,
    /// Whether the process is to end.
    pub shutdown_requested: bool,
}

impl Default for ServiceLifecycle {
    fn default() -> (lifecycle: Self)
        ensures
            lifecycle.state == ServiceState::Starting,
            lifecycle.failure is None,
            !lifecycle.shutdown_requested,
    {
        ServiceLifecycle::new()
    }
}

impl ServiceLifecycle {
    /// Creates a lifecycle in the starting state.
    pub fn new() -> (lifecycle: Self)
        ensures
            lifecycle.state == ServiceState::Starting,
            lifecycle.failure is None,
            !lifecycle.shutdown_requested,
    {
        ServiceLifecycle { state: ServiceState::Starting, failure: None, shutdown_requested: false }
    }

    /// Returns the current lifecycle state.
    pub fn state(&self) -> (state: ServiceState)
        ensures
            state == self.state,
    {
        self.state
    }

    /// Marks successful durable recovery and enables ingestion.
    pub fn mark_ready(&mut self)
        ensures
            *final(self) == (ServiceLifecycle {
                state: next_state(old(self).state, LifecycleEvent::MarkReady),
                ..*old(self)
            }),
    {
        if self.state == ServiceState::Starting {
            self.state = ServiceState::Ready;
        }
    }

    /// Rejects new ingestion while allowing reads and an explicit flush.
    pub fn begin_draining(&mut self)
        ensures
            *final(self) == (ServiceLifecycle {
                state: next_state(old(self).state, LifecycleEvent::BeginDraining),
                ..*old(self)
            }),
    {
        if self.state == ServiceState::Starting || self.state == ServiceState::Ready {
            self.state = ServiceState::Draining;
        }
    }

    /// Requests process shutdown after transitioning out of readiness.
    pub fn request_shutdown(&mut self)
        ensures
            *final(self) == (ServiceLifecycle {
                state: next_state(old(self).state, LifecycleEvent::RequestShutdown),
                shutdown_requested: true,
                ..*old(self)
            }),
    {
        if self.state != ServiceState::Failed {
            self.state = ServiceState::Stopping;
        }
        self.shutdown_requested = true;
    }

    /// Fails readiness and keeps the reason.
    pub fn mark_failed(&mut self, reason: String)
        ensures
            *final(self) == (ServiceLifecycle {
                state: next_state(old(self).state, LifecycleEvent::MarkFailed),
                failure: Some(reason),
                ..*old(self)
            }),
    {
        self.failure = Some(reason);
        self.state = ServiceState::Failed;
    }

    /// Returns the retained failure reason, when one exists.
    pub fn failure(&self) -> (reason: Option<&String>)
        ensures
            match (reason, self.failure) {
                (Some(found), Some(kept)) => *found == kept,
                (None, None) => true,
                _ => false,
            },
    {
        match &self.failure {
            Some(reason) => Some(reason),
            None => None,
        }
    }

    /// Returns whether the API may accept a new ingest request.
    pub fn accepts_ingest(&self) -> (accepts: bool)
        ensures
            accepts == (self.state == ServiceState::Ready),
    {
        self.state == ServiceState::Ready
    }

    /// Whether the process is to end.
    pub fn shutdown_requested(&self) -> (requested: bool)
        ensures
            requested == self.shutdown_requested,
    {
        self.shutdown_requested
    }
}

/// Fail-closed limits and credentials for one production tenant.
#[derive(PartialEq, Eq)]
pub struct SingleTenantConfig {
    /// Tenant identity attached to every accepted HTTP and native operation.
    pub tenant: String,
    /// Shared bearer secret required by HTTP and native authentication.
    pub bearer_token: String,
    /// Maximum concurrent HTTP requests across the process.
    pub max_http_in_flight: usize,
    /// Maximum concurrent ingest requests across HTTP and native paths.
    pub max_ingest_in_flight: usize,
    /// Maximum concurrent query requests across HTTP and native paths.
    pub max_query_in_flight: usize,
    /// Sustained accepted ingest bytes per second. Zero disables rate limiting.
    pub ingest_bytes_per_second: u64,
    /// Maximum token-bucket burst. Required when rate limiting is enabled.
    pub ingest_burst_bytes: u64,
    /// Maximum simultaneously connected Loki tail subscribers.
    pub max_tail_subscribers: usize,
    /// Maximum simultaneously connected native TCP clients.
    pub max_native_connections: usize,
    /// Maximum nanoseconds for one HTTP or native query response.
    pub query_timeout_nanos: u64,
    /// Maximum nanoseconds a native connection may remain unauthenticated.
    pub native_auth_timeout_nanos: u64,
}

impl SingleTenantConfig {
    /// What is wrong with the configuration.
    pub open spec fn fault(self) -> Option<Seq<char>> {
        let token = encode_utf8(self.bearer_token@).len();
        if self.tenant@.len() == 0 {
            Some("single-tenant identity must not be empty"@)
        } else if token < 16 {
            Some("production bearer token must contain at least 16 bytes"@)
        } else if token > 4096 {
            Some("production bearer token must not exceed 4096 bytes"@)
        } else if self.max_http_in_flight == 0 || self.max_ingest_in_flight == 0
            || self.max_query_in_flight == 0 || self.max_tail_subscribers == 0
            || self.max_native_connections == 0 {
            Some("production concurrency limits must be nonzero"@)
        } else if self.max_ingest_in_flight > self.max_http_in_flight || self.max_query_in_flight
            > self.max_http_in_flight {
            Some("ingest and query concurrency cannot exceed the HTTP limit"@)
        } else if self.ingest_bytes_per_second > 0 && self.ingest_burst_bytes == 0 {
            Some("an enabled ingest rate requires a nonzero burst"@)
        } else if self.query_timeout_nanos == 0 {
            Some("production query timeout must be nonzero"@)
        } else if self.native_auth_timeout_nanos == 0 {
            Some("native authentication timeout must be nonzero"@)
        } else {
            None
        }
    }

    /// Validates the production boundary before listeners are exposed.
    pub fn validate(&self) -> (result: Result<(), &'static str>)
        ensures
            match result {
                Ok(_) => self.fault() is None,
                Err(text) => self.fault() == Some(text@),
            },
    {
        if self.tenant.as_str().is_empty() {
            return Err("single-tenant identity must not be empty");
        }
        let token: usize = self.bearer_token.as_str().as_bytes().len();
        if token < 16 {
            return Err("production bearer token must contain at least 16 bytes");
        }
        if token > 4096 {
            return Err("production bearer token must not exceed 4096 bytes");
        }
        if self.max_http_in_flight == 0 || self.max_ingest_in_flight == 0
            || self.max_query_in_flight == 0 || self.max_tail_subscribers == 0
            || self.max_native_connections == 0 {
            return Err("production concurrency limits must be nonzero");
        }
        if self.max_ingest_in_flight > self.max_http_in_flight || self.max_query_in_flight
            > self.max_http_in_flight {
            return Err("ingest and query concurrency cannot exceed the HTTP limit");
        }
        if self.ingest_bytes_per_second > 0 && self.ingest_burst_bytes == 0 {
            return Err("an enabled ingest rate requires a nonzero burst");
        }
        if self.query_timeout_nanos == 0 {
            return Err("production query timeout must be nonzero");
        }
        if self.native_auth_timeout_nanos == 0 {
            return Err("native authentication timeout must be nonzero");
        }
        Ok(())
    }

    /// Whether a token has the digest of the secret.
    pub open spec fn accepts_token(self, observed: Seq<char>) -> bool {
        blake3_digest(encode_utf8(observed)) == blake3_digest(encode_utf8(self.bearer_token@))
    }

    /// Performs a fixed-work comparison of a supplied bearer token.
    pub fn authenticates(&self, observed: &str) -> (accepted: bool)
        ensures
            accepted == self.accepts_token(observed@),
            observed@ == self.bearer_token@ ==> accepted,
    {
        let observed_digest = blake3_hash(observed.as_bytes());
        let expected_digest = blake3_hash(self.bearer_token.as_str().as_bytes());
        same_digest(&observed_digest, &expected_digest)
    }
}

/// Compares two digests; each byte is read whatever the others hold.
pub fn same_digest(left: &[u8; 32], right: &[u8; 32]) -> (same: bool)
    ensures
        same == (left@ == right@),
{
    let mut difference: u8 = 0;
    let mut index: usize = 0;
    while index < 32
        invariant
            index <= 32,
            (difference == 0) == forall|i: int| 0 <= i < index ==> left@[i] == right@[i],
        decreases 32 - index,
    {
        let before: u8 = difference;
        let a: u8 = left[index];
        let b: u8 = right[index];
        difference = before | (a ^ b);
        proof {
            assert((before | (a ^ b)) == 0 <==> before == 0 && a == b) by (bit_vector);
        }
        index = index + 1;
    }
    proof {
        if difference == 0 {
            assert(left@ =~= right@);
        }
    }
    difference == 0
}

/// Nanoseconds of a second.
pub const NANOS_PER_SECOND: u128 = 1_000_000_000;

/// Integer token bucket shared by the tenant's protocol boundaries.
#[derive(Debug, Clone, Copy, PartialEq, Eq, Structural)]
pub struct IngestRateLimiter {
    /// Sustained rate; zero accepts everything.
    pub bytes_per_second: u64,
    /// Most tokens.
    pub burst_bytes: u64,
    /// Bytes that may be accepted now.
    pub tokens: u64,
    /// Fraction of a token, in billionths.
    pub remainder: u128,
}

/// Billionths of a token that a time generates, with those left over.
pub open spec fn generated(limiter: IngestRateLimiter, elapsed_nanos: u128) -> int {
    let product = capped(elapsed_nanos * limiter.bytes_per_second);
    capped(product + limiter.remainder)
}

/// A number, at most `u128::MAX`.
pub open spec fn capped(value: int) -> int {
    if value > u128::MAX {
        u128::MAX as int
    } else {
        value
    }
}

/// Tokens after a time.
pub open spec fn refilled(limiter: IngestRateLimiter, elapsed_nanos: u128) -> u64 {
    let added = generated(limiter, elapsed_nanos) / 1_000_000_000;
    let total = limiter.tokens + added;
    if total < limiter.burst_bytes {
        total as u64
    } else {
        limiter.burst_bytes
    }
}

/// What a request of some bytes does to the bucket, `elapsed_nanos` after the last
/// one that reached it.
pub open spec fn acquired(limiter: IngestRateLimiter, bytes: nat, elapsed_nanos: u128) -> (
    IngestRateLimiter,
    bool,
) {
    if limiter.bytes_per_second == 0 {
        (limiter, true)
    } else if bytes > limiter.burst_bytes {
        (limiter, false)
    } else {
        let tokens = refilled(limiter, elapsed_nanos);
        let remainder = (generated(limiter, elapsed_nanos) % 1_000_000_000) as u128;
        if tokens < bytes {
            (IngestRateLimiter { tokens, remainder, ..limiter }, false)
        } else {
            (IngestRateLimiter { tokens: (tokens - bytes) as u64, remainder, ..limiter }, true)
        }
    }
}

impl IngestRateLimiter {
    /// The bucket holds no more than the burst.
    pub open spec fn well_formed(self) -> bool {
        self.tokens <= self.burst_bytes && self.remainder < 1_000_000_000
    }

    /// A full bucket.
    pub fn new(bytes_per_second: u64, burst_bytes: u64) -> (limiter: Self)
        ensures
            limiter.well_formed(),
            limiter == (IngestRateLimiter {
                bytes_per_second,
                burst_bytes,
                tokens: burst_bytes,
                remainder: 0,
            }),
    {
        IngestRateLimiter { bytes_per_second, burst_bytes, tokens: burst_bytes, remainder: 0 }
    }

    /// Whether a request of some bytes reaches the bucket, so that its time counts.
    pub fn reaches_bucket(&self, bytes: usize) -> (reaches: bool)
        ensures
            reaches == (self.bytes_per_second != 0 && bytes <= self.burst_bytes),
    {
        self.bytes_per_second != 0 && bytes as u64 <= self.burst_bytes
    }

    /// Tries to take bytes from the bucket, `elapsed_nanos` after the last request
    /// that reached it.
    pub fn try_acquire(&mut self, bytes: usize, elapsed_nanos: u128) -> (accepted: bool)
        requires
            old(self).well_formed(),
        ensures
            final(self).well_formed(),
            (*final(self), accepted) == acquired(*old(self), bytes as nat, elapsed_nanos),
    {
        if self.bytes_per_second == 0 {
            return true;
        }
        let wanted: u64 = bytes as u64;
        if wanted > self.burst_bytes {
            return false;
        }
        let product: u128 = match elapsed_nanos.checked_mul(self.bytes_per_second as u128) {
            Some(product) => product,
            None => u128::MAX,
        };
        let generated: u128 = product.saturating_add(self.remainder);
        let added: u128 = generated / NANOS_PER_SECOND;
        self.remainder = generated % NANOS_PER_SECOND;
        let room: u128 = (self.burst_bytes - self.tokens) as u128;
        if added < room {
            self.tokens = self.tokens + added as u64;
        } else {
            self.tokens = self.burst_bytes;
        }
        if self.tokens < wanted {
            return false;
        }
        self.tokens = self.tokens - wanted;
        true
    }
}

/// Bytes of the accepted ones among requests of some bytes after some time, and the
/// bucket behind them.
pub open spec fn accepted_bytes(limiter: IngestRateLimiter, requests: Seq<(nat, u128)>) -> (
    IngestRateLimiter,
    nat,
)
    decreases requests.len(),
{
    if requests.len() == 0 {
        (limiter, 0)
    } else {
        let (before, total) = accepted_bytes(limiter, requests.drop_last());
        let (after, accepted) = acquired(before, requests.last().0, requests.last().1);
        (
            after,
            if accepted {
                total + requests.last().0
            } else {
                total
            },
        )
    }
}

/// Time that requests take.
pub open spec fn elapsed_total(requests: Seq<(nat, u128)>) -> nat
    decreases requests.len(),
{
    if requests.len() == 0 {
        0
    } else {
        elapsed_total(requests.drop_last()) + requests.last().1 as nat
    }
}

/// Whatever is requested and when, a limiter never accepts more than its burst and
/// what its rate generates in the time.
pub proof fn accepted_bytes_are_bounded(
    limiter: IngestRateLimiter,
    requests: Seq<(nat, u128)>,
)
    requires
        limiter.well_formed(),
        limiter.bytes_per_second > 0,
    ensures
        accepted_bytes(limiter, requests).0.well_formed(),
        accepted_bytes(limiter, requests).0.bytes_per_second == limiter.bytes_per_second,
        accepted_bytes(limiter, requests).0.burst_bytes == limiter.burst_bytes,
        accepted_bytes(limiter, requests).1 * 1_000_000_000 + accepted_bytes(
            limiter,
            requests,
        ).0.tokens * 1_000_000_000 + accepted_bytes(limiter, requests).0.remainder
            <= limiter.tokens * 1_000_000_000 + limiter.remainder + elapsed_total(requests)
            * limiter.bytes_per_second,
    decreases requests.len(),
{
    if requests.len() > 0 {
        let front = requests.drop_last();
        accepted_bytes_are_bounded(limiter, front);
        let (before, total) = accepted_bytes(limiter, front);
        let elapsed = requests.last().1;
        let rate = limiter.bytes_per_second;
        lemma_one_request(before, requests.last().0, elapsed);
        assert(elapsed_total(requests) * rate == elapsed_total(front) * rate + elapsed * rate)
            by (nonlinear_arith)
            requires
                elapsed_total(requests) == elapsed_total(front) + elapsed as nat,
        ;
    }
}

proof fn lemma_one_request(limiter: IngestRateLimiter, bytes: nat, elapsed: u128)
    requires
        limiter.well_formed(),
        limiter.bytes_per_second > 0,
    ensures
        ({
            let (after, accepted) = acquired(limiter, bytes, elapsed);
            let taken = if accepted {
                bytes
            } else {
                0
            };
            &&& after.well_formed()
            &&& after.bytes_per_second == limiter.bytes_per_second
            &&& after.burst_bytes == limiter.burst_bytes
            &&& taken * 1_000_000_000 + after.tokens * 1_000_000_000 + after.remainder
                <= limiter.tokens * 1_000_000_000 + limiter.remainder + elapsed
                * limiter.bytes_per_second
        }),
{
    let rate = limiter.bytes_per_second;
    let made = generated(limiter, elapsed);
    assert(elapsed * rate >= 0) by (nonlinear_arith);
    assert(0 <= made <= elapsed * rate + limiter.remainder);
    assert(made == 1_000_000_000 * (made / 1_000_000_000) + made % 1_000_000_000);
}

/// Counter of requests in flight.
#[derive(Debug, Clone, Copy, PartialEq, Eq, Structural)]
pub struct Admission {
    /// Most requests at a time.
    pub limit: usize,
    /// Requests at the moment.
    pub in_flight: usize,
}

impl Admission {
    /// No more requests than the limit.
    pub open spec fn well_formed(self) -> bool {
        self.in_flight <= self.limit
    }

    /// The counter after a try.
    pub open spec fn entered(self) -> Admission {
        if self.in_flight < self.limit {
            Admission { in_flight: (self.in_flight + 1) as usize, ..self }
        } else {
            self
        }
    }

    /// A counter at zero.
    pub fn new(limit: usize) -> (admission: Self)
        ensures
            admission == (Admission { limit, in_flight: 0 }),
    {
        Admission { limit, in_flight: 0 }
    }

    /// Tries to enter.
    pub fn try_enter(&mut self) -> (entered: bool)
        ensures
            entered == (old(self).in_flight < old(self).limit),
            *final(self) == old(self).entered(),
    {
        if self.in_flight < self.limit {
            self.in_flight = self.in_flight + 1;
            true
        } else {
            false
        }
    }

    /// Leaves.
    pub fn leave(&mut self)
        ensures
            *final(self) == (Admission {
                in_flight: if old(self).in_flight == 0 {
                    0
                } else {
                    (old(self).in_flight - 1) as usize
                },
                ..*old(self)
            }),
    {
        if self.in_flight > 0 {
            self.in_flight = self.in_flight - 1;
        }
    }
}

/// Monotonic protocol counters exposed by the Prometheus endpoint.
#[derive(Debug, Clone, Copy, PartialEq, Eq, Structural)]
pub struct ProductionMetricsSnapshot {
    /// HTTP requests admitted after authentication.
    pub http_requests: u64,
    /// Authentication failures across HTTP and native TCP.
    pub authentication_failures: u64,
    /// Requests rejected by concurrency, lifecycle, or rate limits.
    pub rejected_requests: u64,
    /// Accepted ingest operations.
    pub ingest_requests: u64,
    /// Accepted source bytes at protocol boundaries.
    pub ingest_bytes: u64,
    /// Accepted normalized log records.
    pub ingest_records: u64,
    /// Admitted query operations.
    pub query_requests: u64,
    /// Native TCP connections accepted by the listener.
    pub native_connections: u64,
    /// Tail subscriptions admitted by the HTTP API.
    pub tail_subscriptions: u64,
}

impl Default for ProductionMetricsSnapshot {
    fn default() -> (metrics: Self)
        ensures
            metrics == no_metrics(),
    {
        ProductionMetricsSnapshot {
            http_requests: 0,
            authentication_failures: 0,
            rejected_requests: 0,
            ingest_requests: 0,
            ingest_bytes: 0,
            ingest_records: 0,
            query_requests: 0,
            native_connections: 0,
            tail_subscriptions: 0,
        }
    }
}

/// All counters at zero.
pub open spec fn no_metrics() -> ProductionMetricsSnapshot {
    ProductionMetricsSnapshot {
        http_requests: 0,
        authentication_failures: 0,
        rejected_requests: 0,
        ingest_requests: 0,
        ingest_bytes: 0,
        ingest_records: 0,
        query_requests: 0,
        native_connections: 0,
        tail_subscriptions: 0,
    }
}

/// Shared single-tenant admission and lifecycle state for every protocol.
pub struct ProductionRuntime {
    /// Credentials and limits.
    pub config: SingleTenantConfig,
    /// Lifecycle of the service.
    pub lifecycle: ServiceLifecycle,
    /// HTTP requests in flight.
    pub http: Admission,
    /// Ingest requests in flight.
    pub ingest: Admission,
    /// Query requests in flight.
    pub query: Admission,
    /// Tail subscriptions.
    pub tail: Admission,
    /// Native connections.
    pub native_connections: Admission,
    /// Ingest rate.
    pub rate: IngestRateLimiter,
    /// Counters.
    pub metrics: ProductionMetricsSnapshot,
}

impl ProductionRuntime {
    /// All counters stay within the limits of the configuration.
    pub open spec fn well_formed(self) -> bool {
        &&& self.config.fault() is None
        &&& self.http.well_formed() && self.http.limit == self.config.max_http_in_flight
        &&& self.ingest.well_formed() && self.ingest.limit == self.config.max_ingest_in_flight
        &&& self.query.well_formed() && self.query.limit == self.config.max_query_in_flight
        &&& self.tail.well_formed() && self.tail.limit == self.config.max_tail_subscribers
        &&& self.native_connections.well_formed() && self.native_connections.limit
            == self.config.max_native_connections
        &&& self.rate.well_formed()
    }

    /// The runtime with one more rejected request.
    pub open spec fn rejecting(self) -> ProductionRuntime {
        ProductionRuntime {
            metrics: ProductionMetricsSnapshot {
                rejected_requests: self.metrics.rejected_requests.wrapping_add(1),
                ..self.metrics
            },
            ..self
        }
    }

    /// Creates a fail-closed runtime after validating credentials and limits.
    pub fn new(config: SingleTenantConfig, lifecycle: ServiceLifecycle) -> (result: Result<
        Self,
        &'static str,
    >)
        ensures
            match result {
                Ok(runtime) => {
                    &&& runtime.well_formed()
                    &&& runtime.config == config
                    &&& runtime.lifecycle == lifecycle
                    &&& runtime.metrics == no_metrics()
                    &&& runtime.http.in_flight == 0 && runtime.ingest.in_flight == 0
                    &&& runtime.query.in_flight == 0 && runtime.tail.in_flight == 0
                    &&& runtime.native_connections.in_flight == 0
                    &&& runtime.rate == (IngestRateLimiter {
                        bytes_per_second: config.ingest_bytes_per_second,
                        burst_bytes: config.ingest_burst_bytes,
                        tokens: config.ingest_burst_bytes,
                        remainder: 0,
                    })
                },
                Err(text) => config.fault() == Some(text@),
            },
    {
        match config.validate() {
            Ok(_) => {},
            Err(text) => return Err(text),
        }
        Ok(
            ProductionRuntime {
                http: Admission::new(config.max_http_in_flight),
                ingest: Admission::new(config.max_ingest_in_flight),
                query: Admission::new(config.max_query_in_flight),
                tail: Admission::new(config.max_tail_subscribers),
                native_connections: Admission::new(config.max_native_connections),
                rate: IngestRateLimiter::new(
                    config.ingest_bytes_per_second,
                    config.ingest_burst_bytes,
                ),
                config,
                lifecycle,
                metrics: ProductionMetricsSnapshot::default(),
            },
        )
    }

    /// Returns the configured immutable tenant identity.
    pub fn tenant(&self) -> (tenant: &str)
        ensures
            tenant@ == self.config.tenant@,
    {
        self.config.tenant.as_str()
    }

    /// Returns the lifecycle of the service.
    pub fn lifecycle(&self) -> (lifecycle: &ServiceLifecycle)
        ensures
            *lifecycle == self.lifecycle,
    {
        &self.lifecycle
    }

    /// Returns the configured query response deadline in nanoseconds.
    pub fn query_timeout_nanos(&self) -> (nanos: u64)
        ensures
            nanos == self.config.query_timeout_nanos,
    {
        self.config.query_timeout_nanos
    }

    /// Returns the native connection authentication deadline in nanoseconds.
    pub fn native_auth_timeout_nanos(&self) -> (nanos: u64)
        ensures
            nanos == self.config.native_auth_timeout_nanos,
    {
        self.config.native_auth_timeout_nanos
    }

    /// Authenticates one protocol credential.
    pub fn authenticates(&mut self, observed: &str) -> (accepted: bool)
        requires
            old(self).well_formed(),
        ensures
            final(self).well_formed(),
            accepted == old(self).config.accepts_token(observed@),
            observed@ == old(self).config.bearer_token@ ==> accepted,
            *final(self) == if accepted {
                *old(self)
            } else {
                old(self).failing_authentication()
            },
    {
        let accepted = self.config.authenticates(observed);
        if !accepted {
            self.record_authentication_failure();
        }
        accepted
    }

    /// The runtime with one more failed authentication.
    pub open spec fn failing_authentication(self) -> ProductionRuntime {
        ProductionRuntime {
            metrics: ProductionMetricsSnapshot {
                authentication_failures: self.metrics.authentication_failures.wrapping_add(1),
                ..self.metrics
            },
            ..self
        }
    }

    /// Records a failed authentication that could not supply a valid token.
    pub fn record_authentication_failure(&mut self)
        ensures
            *final(self) == old(self).failing_authentication(),
    {
        self.metrics.authentication_failures = self.metrics.authentication_failures.wrapping_add(1);
    }

    /// Records a request rejected after reaching a protocol boundary.
    pub fn reject(&mut self)
        ensures
            *final(self) == old(self).rejecting(),
    {
        self.metrics.rejected_requests = self.metrics.rejected_requests.wrapping_add(1);
    }

    /// Tries to reserve one complete HTTP request.
    pub fn try_http(&mut self) -> (admitted: bool)
        requires
            old(self).well_formed(),
        ensures
            final(self).well_formed(),
            admitted == (old(self).http.in_flight < old(self).config.max_http_in_flight),
            *final(self) == if admitted {
                ProductionRuntime {
                    http: old(self).http.entered(),
                    metrics: ProductionMetricsSnapshot {
                        http_requests: old(self).metrics.http_requests.wrapping_add(1),
                        ..old(self).metrics
                    },
                    ..*old(self)
                }
            } else {
                old(self).rejecting()
            },
    {
        let admitted = self.http.try_enter();
        if admitted {
            self.metrics.http_requests = self.metrics.http_requests.wrapping_add(1);
        } else {
            self.reject();
        }
        admitted
    }

    /// Ends one HTTP request.
    pub fn leave_http(&mut self)
        requires
            old(self).well_formed(),
        ensures
            final(self).well_formed(),
            final(self).http.in_flight == if old(self).http.in_flight == 0 {
                0int
            } else {
                old(self).http.in_flight - 1
            },
            *final(self) == (ProductionRuntime { http: final(self).http, ..*old(self) }),
    {
        self.http.leave();
    }

    /// Tries to reserve an ingest operation and its source bytes, `elapsed_nanos`
    /// after the last one that reached the rate limit.
    pub fn try_ingest(&mut self, source_bytes: usize, elapsed_nanos: u128) -> (admitted: bool)
        requires
            old(self).well_formed(),
        ensures
            final(self).well_formed(),
            ({
                let (rate, allowed) = acquired(
                    old(self).rate,
                    source_bytes as nat,
                    elapsed_nanos,
                );
                if old(self).lifecycle.state != ServiceState::Ready {
                    !admitted && *final(self) == old(self).rejecting()
                } else if !allowed {
                    !admitted && *final(self) == (ProductionRuntime {
                        rate,
                        ..old(self).rejecting()
                    })
                } else if old(self).ingest.in_flight < old(self).config.max_ingest_in_flight {
                    admitted && *final(self) == (ProductionRuntime {
                        rate,
                        ingest: old(self).ingest.entered(),
                        ..*old(self)
                    })
                } else {
                    !admitted && *final(self) == (ProductionRuntime {
                        rate,
                        ..old(self).rejecting()
                    })
                }
            }),
    {
        if !self.lifecycle.accepts_ingest() || !self.rate.try_acquire(source_bytes, elapsed_nanos) {
            self.reject();
            return false;
        }
        let admitted = self.ingest.try_enter();
        if !admitted {
            self.reject();
        }
        admitted
    }

    /// Ends one ingest operation.
    pub fn leave_ingest(&mut self)
        requires
            old(self).well_formed(),
        ensures
            final(self).well_formed(),
            final(self).ingest.in_flight == if old(self).ingest.in_flight == 0 {
                0int
            } else {
                old(self).ingest.in_flight - 1
            },
            *final(self) == (ProductionRuntime { ingest: final(self).ingest, ..*old(self) }),
    {
        self.ingest.leave();
    }

    /// Tries to reserve a bounded query operation.
    pub fn try_query(&mut self) -> (admitted: bool)
        requires
            old(self).well_formed(),
        ensures
            final(self).well_formed(),
            admitted == ((old(self).lifecycle.state == ServiceState::Ready
                || old(self).lifecycle.state == ServiceState::Draining) && old(self).query.in_flight < old(self).config.max_query_in_flight),
            *final(self) == if admitted {
                ProductionRuntime { query: old(self).query.entered(), ..*old(self) }
            } else {
                old(self).rejecting()
            },
    {
        let state = self.lifecycle.state();
        if state == ServiceState::Starting || state == ServiceState::Stopping || state
            == ServiceState::Failed {
            self.reject();
            return false;
        }
        let admitted = self.query.try_enter();
        if !admitted {
            self.reject();
        }
        admitted
    }

    /// Ends one query operation.
    pub fn leave_query(&mut self)
        requires
            old(self).well_formed(),
        ensures
            final(self).well_formed(),
            final(self).query.in_flight == if old(self).query.in_flight == 0 {
                0int
            } else {
                old(self).query.in_flight - 1
            },
            *final(self) == (ProductionRuntime { query: final(self).query, ..*old(self) }),
    {
        self.query.leave();
    }

    /// Tries to reserve one live-tail subscription.
    pub fn try_tail(&mut self) -> (admitted: bool)
        requires
            old(self).well_formed(),
        ensures
            final(self).well_formed(),
            admitted == (old(self).tail.in_flight < old(self).config.max_tail_subscribers),
            *final(self) == if admitted {
                ProductionRuntime {
                    tail: old(self).tail.entered(),
                    metrics: ProductionMetricsSnapshot {
                        tail_subscriptions: old(self).metrics.tail_subscriptions.wrapping_add(1),
                        ..old(self).metrics
                    },
                    ..*old(self)
                }
            } else {
                old(self).rejecting()
            },
    {
        let admitted = self.tail.try_enter();
        if admitted {
            self.metrics.tail_subscriptions = self.metrics.tail_subscriptions.wrapping_add(1);
        } else {
            self.reject();
        }
        admitted
    }

    /// Ends one live-tail subscription.
    pub fn leave_tail(&mut self)
        requires
            old(self).well_formed(),
        ensures
            final(self).well_formed(),
            final(self).tail.in_flight == if old(self).tail.in_flight == 0 {
                0int
            } else {
                old(self).tail.in_flight - 1
            },
            *final(self) == (ProductionRuntime { tail: final(self).tail, ..*old(self) }),
    {
        self.tail.leave();
    }

    /// Tries to reserve one native TCP connection for its complete lifetime.
    pub fn try_native_connection(&mut self) -> (admitted: bool)
        requires
            old(self).well_formed(),
        ensures
            final(self).well_formed(),
            admitted == (old(self).native_connections.in_flight
                < old(self).config.max_native_connections),
            *final(self) == if admitted {
                ProductionRuntime {
                    native_connections: old(self).native_connections.entered(),
                    metrics: ProductionMetricsSnapshot {
                        native_connections: old(self).metrics.native_connections.wrapping_add(1),
                        ..old(self).metrics
                    },
                    ..*old(self)
                }
            } else {
                old(self).rejecting()
            },
    {
        let admitted = self.native_connections.try_enter();
        if admitted {
            self.metrics.native_connections = self.metrics.native_connections.wrapping_add(1);
        } else {
            self.reject();
        }
        admitted
    }

    /// Ends one native TCP connection.
    pub fn leave_native_connection(&mut self)
        requires
            old(self).well_formed(),
        ensures
            final(self).well_formed(),
            final(self).native_connections.in_flight == if old(self).native_connections.in_flight == 0 {
                0int
            } else {
                old(self).native_connections.in_flight - 1
            },
            *final(self) == (ProductionRuntime {
                native_connections: final(self).native_connections,
                ..*old(self)
            }),
    {
        self.native_connections.leave();
    }

    /// Records a successfully decoded ingest operation.
    pub fn record_ingest(&mut self, source_bytes: usize, records: usize)
        ensures
            *final(self) == (ProductionRuntime {
                metrics: ProductionMetricsSnapshot {
                    ingest_requests: old(self).metrics.ingest_requests.wrapping_add(1),
                    ingest_bytes: old(self).metrics.ingest_bytes.wrapping_add(source_bytes as u64),
                    ingest_records: old(self).metrics.ingest_records.wrapping_add(records as u64),
                    ..old(self).metrics
                },
                ..*old(self)
            }),
    {
        self.metrics.ingest_requests = self.metrics.ingest_requests.wrapping_add(1);
        self.metrics.ingest_bytes = self.metrics.ingest_bytes.wrapping_add(source_bytes as u64);
        self.metrics.ingest_records = self.metrics.ingest_records.wrapping_add(records as u64);
    }

    /// Records one admitted query.
    pub fn record_query(&mut self)
        ensures
            *final(self) == (ProductionRuntime {
                metrics: ProductionMetricsSnapshot {
                    query_requests: old(self).metrics.query_requests.wrapping_add(1),
                    ..old(self).metrics
                },
                ..*old(self)
            }),
    {
        self.metrics.query_requests = self.metrics.query_requests.wrapping_add(1);
    }

    /// Returns the operational counters.
    pub fn metrics(&self) -> (metrics: ProductionMetricsSnapshot)
        ensures
            metrics == self.metrics,
    {
        self.metrics
    }

    /// Returns current admission usage: HTTP, ingest, query, tail and native.
    pub fn admission_in_flight(&self) -> (usage: (usize, usize, usize, usize, usize))
        ensures
            usage == (
                self.http.in_flight,
                self.ingest.in_flight,
                self.query.in_flight,
                self.tail.in_flight,
                self.native_connections.in_flight,
            ),
    {
        (
            self.http.in_flight,
            self.ingest.in_flight,
            self.query.in_flight,
            self.tail.in_flight,
            self.native_connections.in_flight,
        )
    }
}

} // verus!
