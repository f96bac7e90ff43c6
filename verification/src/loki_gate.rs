//! Admission of HTTP requests, live tails, and what the service says of itself.
use vstd::prelude::*;
use vstd::utf8::encode_utf8;

use crate::analytics::{
    parse_scan_request, scan_request_of, form_pairs, AnalyticsScanRequest, ScanModel,
};
use crate::api_error::{same_outcome, ApiFault, ApiStatus, LokiApiError};
use crate::codec::{decimal_string, decimal_text, same_text};
use crate::native_frame::{blake3_digest, blake3_hash};
use crate::loki_delete::{
    deleted_selections, deletes_view, is_deleted, DeleteModel, DeleteRequest, LogicalDeleteFilter,
};
use crate::loki_entries::{group_streams, streams_of, streams_view, ResponseStream, StreamModel};
use crate::loki_query::{selects_entry, LogSelector, SelectorModel};
use crate::loki_read::{optional_text, tenant, tenant_of, LokiApiConfig};
use crate::production::{
    acquired, next_state, same_digest, LifecycleEvent, ProductionMetricsSnapshot,
    ProductionRuntime, ServiceLifecycle, ServiceState,
};
use crate::record::{entries_view, EntryModel, LokiEntry};
use crate::text::{chars_of, holds_part, part_at, text_between, trim, trimmed};

verus! {

broadcast use vstd::seq_lib::group_seq_properties;

/// The credential of an authorization header.
pub open spec fn bearer_of(header: Option<Seq<char>>) -> Option<Seq<char>> {
    match header {
        Some(value) => if part_at(value, 0, "Bearer "@) {
            Some(value.subrange("Bearer "@.len() as int, value.len() as int))
        } else {
            None
        },
        None => None,
    }
}

/// The credential of an authorization header.
pub fn bearer_token(header: &Option<String>) -> (token: Option<String>)
    ensures
        optional_text(token) == bearer_of(optional_text(*header)),
{
    match header {
        Some(value) => {
            let text = chars_of(value);
            let prefix = chars_of("Bearer ");
            if holds_part(&text, 0, &prefix) {
                Some(text_between(&text, prefix.len(), text.len()))
            } else {
                None
            }
        },
        None => None,
    }
}

/// Whether a text begins with another one.
pub open spec fn begins_with(text: Seq<char>, prefix: Seq<char>) -> bool {
    part_at(text, 0, prefix)
}

fn begins(text: &Vec<char>, prefix: &str) -> (begins: bool)
    ensures
        begins == begins_with(text@, prefix@),
{
    holds_part(text, 0, &chars_of(prefix))
}

/// Whether a path is open to everyone.
pub open spec fn open_path(path: Seq<char>) -> bool {
    path == "/ready"@ || path == "/metrics"@
}

/// Whether a path is the analytical scan, which has a credential of its own.
pub open spec fn scan_path(path: Seq<char>) -> bool {
    path == "/shardlog/api/v1/clickhouse/scan"@
}

/// Whether a path counts as a query.
pub open spec fn query_path(path: Seq<char>) -> bool {
    ||| scan_path(path)
    ||| begins_with(path, "/loki/api/v1/query"@)
    ||| begins_with(path, "/loki/api/v1/label"@)
    ||| begins_with(path, "/loki/api/v1/series"@)
    ||| begins_with(path, "/loki/api/v1/index"@)
    ||| begins_with(path, "/loki/api/v1/patterns"@)
    ||| begins_with(path, "/loki/api/v1/detected"@)
    ||| begins_with(path, "/api/prom/query"@)
    ||| begins_with(path, "/api/prom/label"@)
    ||| begins_with(path, "/api/prom/series"@)
}

/// Whether a path counts as a query.
pub fn is_query_path(path: &str) -> (query: bool)
    ensures
        query == query_path(path@),
{
    let text = chars_of(path);
    same_text(path, "/shardlog/api/v1/clickhouse/scan") || begins(&text, "/loki/api/v1/query")
        || begins(&text, "/loki/api/v1/label") || begins(&text, "/loki/api/v1/series") || begins(
        &text,
        "/loki/api/v1/index",
    ) || begins(&text, "/loki/api/v1/patterns") || begins(&text, "/loki/api/v1/detected")
        || begins(&text, "/api/prom/query") || begins(&text, "/api/prom/label") || begins(
        &text,
        "/api/prom/series",
    )
}

/// How a request is admitted.
#[derive(Debug)]
pub enum GateDecision {
    /// The request goes on without a permit.
    Open,
    /// The request goes on and holds an HTTP permit.
    Request,
    /// The request goes on with a deadline and holds an HTTP and a query permit.
    Query,
    /// The request is refused and holds no permit.
    Refused(LokiApiError),
}

/// Value of how a request is admitted.
#[verifier::ext_equal]
pub enum GateModel {
    /// The request goes on without a permit.
    Open,
    /// The request goes on and holds an HTTP permit.
    Request,
    /// The request goes on with a deadline and holds an HTTP and a query permit.
    Query,
    /// The request is refused and holds no permit.
    Refused(ApiFault),
}

impl View for GateDecision {
    type V = GateModel;

    open spec fn view(&self) -> GateModel {
        match self {
            GateDecision::Open => GateModel::Open,
            GateDecision::Request => GateModel::Request,
            GateDecision::Query => GateModel::Query,
            GateDecision::Refused(error) => GateModel::Refused(error@),
        }
    }
}

/// The runtime with one more HTTP request counted and in flight.
pub open spec fn serving(runtime: ProductionRuntime) -> ProductionRuntime {
    ProductionRuntime { http: runtime.http.entered(), ..counted(runtime) }
}

/// The runtime with one more HTTP request counted.
pub open spec fn counted(runtime: ProductionRuntime) -> ProductionRuntime {
    ProductionRuntime {
        metrics: ProductionMetricsSnapshot {
            http_requests: runtime.metrics.http_requests.wrapping_add(1),
            ..runtime.metrics
        },
        ..runtime
    }
}

/// The runtime with one more query counted and in flight.
pub open spec fn querying(runtime: ProductionRuntime) -> ProductionRuntime {
    ProductionRuntime {
        query: runtime.query.entered(),
        metrics: ProductionMetricsSnapshot {
            query_requests: runtime.metrics.query_requests.wrapping_add(1),
            ..runtime.metrics
        },
        ..runtime
    }
}

/// Whether queries are refused in a state.
pub open spec fn queries_closed(state: ServiceState) -> bool {
    state == ServiceState::Starting || state == ServiceState::Stopping || state
        == ServiceState::Failed
}

/// How a request is admitted, and the runtime after it.
pub open spec fn gate_outcome(
    runtime: ProductionRuntime,
    path: Seq<char>,
    bearer: Option<Seq<char>>,
    scope: Option<Seq<char>>,
) -> (GateModel, ProductionRuntime) {
    if open_path(path) {
        (GateModel::Open, runtime)
    } else if !scan_path(path) && !(bearer is Some && runtime.config.accepts_token(bearer->0)) {
        (
            GateModel::Refused(
                ApiFault {
                    status: ApiStatus::Unauthorized,
                    message: "valid production bearer token is required"@,
                },
            ),
            runtime.failing_authentication(),
        )
    } else if scope is Some && scope->0 != runtime.config.tenant@ {
        (
            GateModel::Refused(
                ApiFault {
                    status: ApiStatus::Forbidden,
                    message: "tenant header does not match the configured tenant"@,
                },
            ),
            runtime,
        )
    } else if runtime.http.in_flight >= runtime.config.max_http_in_flight {
        (
            GateModel::Refused(
                ApiFault {
                    status: ApiStatus::TooManyRequests,
                    message: "HTTP concurrency limit exceeded"@,
                },
            ),
            runtime.rejecting(),
        )
    } else if !query_path(path) {
        (GateModel::Request, serving(runtime))
    } else if queries_closed(runtime.lifecycle.state) {
        (
            GateModel::Refused(
                ApiFault {
                    status: ApiStatus::Unavailable,
                    message: "query service is unavailable"@,
                },
            ),
            counted(runtime).rejecting(),
        )
    } else if runtime.query.in_flight >= runtime.config.max_query_in_flight {
        (
            GateModel::Refused(
                ApiFault {
                    status: ApiStatus::TooManyRequests,
                    message: "query concurrency limit exceeded"@,
                },
            ),
            counted(runtime).rejecting(),
        )
    } else {
        (GateModel::Query, querying(serving(runtime)))
    }
}

/// Decides on a request, given its path, its credential and its tenant header.
pub fn production_gate(
    runtime: &mut ProductionRuntime,
    path: &str,
    bearer: &Option<String>,
    scope: &Option<String>,
) -> (decision: GateDecision)
    requires
        old(runtime).well_formed(),
    ensures
        final(runtime).well_formed(),
        (decision@, *final(runtime)) == gate_outcome(
            *old(runtime),
            path@,
            optional_text(*bearer),
            optional_text(*scope),
        ),
{
    if same_text(path, "/ready") || same_text(path, "/metrics") {
        return GateDecision::Open;
    }
    let analytics = same_text(path, "/shardlog/api/v1/clickhouse/scan");
    if !analytics {
        let authenticated = match bearer {
            Some(observed) => runtime.authenticates(observed),
            None => {
                runtime.record_authentication_failure();
                false
            },
        };
        if !authenticated {
            return GateDecision::Refused(
                LokiApiError::new(
                    ApiStatus::Unauthorized,
                    "valid production bearer token is required",
                ),
            );
        }
    }
    let foreign = match scope {
        Some(tenant) => !same_text(tenant, runtime.tenant()),
        None => false,
    };
    if foreign {
        return GateDecision::Refused(
            LokiApiError::new(
                ApiStatus::Forbidden,
                "tenant header does not match the configured tenant",
            ),
        );
    }
    if !runtime.try_http() {
        return GateDecision::Refused(
            LokiApiError::new(ApiStatus::TooManyRequests, "HTTP concurrency limit exceeded"),
        );
    }
    if !is_query_path(path) {
        return GateDecision::Request;
    }
    if !runtime.try_query() {
        runtime.leave_http();
        let state = runtime.lifecycle.state();
        if state == ServiceState::Starting || state == ServiceState::Stopping || state
            == ServiceState::Failed {
            return GateDecision::Refused(
                LokiApiError::new(ApiStatus::Unavailable, "query service is unavailable"),
            );
        }
        return GateDecision::Refused(
            LokiApiError::new(ApiStatus::TooManyRequests, "query concurrency limit exceeded"),
        );
    }
    runtime.record_query();
    GateDecision::Query
}

/// Releases the permits of a request that was let pass.
pub fn leave_gate(runtime: &mut ProductionRuntime, decision: &GateDecision)
    requires
        old(runtime).well_formed(),
    ensures
        final(runtime).well_formed(),
        match decision@ {
            GateModel::Open => *final(runtime) == *old(runtime),
            GateModel::Refused(_) => *final(runtime) == *old(runtime),
            GateModel::Request => {
                &&& final(runtime).http.in_flight == if old(runtime).http.in_flight == 0 {
                    0int
                } else {
                    old(runtime).http.in_flight - 1
                }
                &&& *final(runtime) == (ProductionRuntime {
                    http: final(runtime).http,
                    ..*old(runtime)
                })
            },
            GateModel::Query => {
                &&& final(runtime).http.in_flight == if old(runtime).http.in_flight == 0 {
                    0int
                } else {
                    old(runtime).http.in_flight - 1
                }
                &&& final(runtime).query.in_flight == if old(runtime).query.in_flight == 0 {
                    0int
                } else {
                    old(runtime).query.in_flight - 1
                }
                &&& *final(runtime) == (ProductionRuntime {
                    http: final(runtime).http,
                    query: final(runtime).query,
                    ..*old(runtime)
                })
            },
        },
{
    match decision {
        GateDecision::Open => {},
        GateDecision::Refused(_) => {},
        GateDecision::Request => runtime.leave_http(),
        GateDecision::Query => {
            runtime.leave_query();
            runtime.leave_http();
        },
    }
}

/// A refused request leaves no permit behind, and a closed service
/// answers no query.
pub proof fn refusal_holds_no_permit(
    runtime: ProductionRuntime,
    path: Seq<char>,
    bearer: Option<Seq<char>>,
    scope: Option<Seq<char>>,
)
    requires
        runtime.well_formed(),
    ensures
        gate_outcome(runtime, path, bearer, scope).0 is Refused ==> {
            let after = gate_outcome(runtime, path, bearer, scope).1;
            after.http == runtime.http && after.query == runtime.query
        },
        queries_closed(runtime.lifecycle.state) && query_path(path) ==> !(gate_outcome(
            runtime,
            path,
            bearer,
            scope,
        ).0 is Query),
{
}

/// Without a credential that the configuration accepts, only the open paths and the
/// analytical scan pass.
pub proof fn gate_fails_closed(
    runtime: ProductionRuntime,
    path: Seq<char>,
    bearer: Option<Seq<char>>,
    scope: Option<Seq<char>>,
)
    requires
        bearer is None || !runtime.config.accepts_token(bearer->0),
        !open_path(path),
        !scan_path(path),
    ensures
        gate_outcome(runtime, path, bearer, scope).0 is Refused,
{
}

/// Reserves an ingest operation of a number of bytes.
pub fn production_ingest_permit(
    runtime: &mut ProductionRuntime,
    source_bytes: usize,
    elapsed_nanos: u128,
) -> (result: Result<(), LokiApiError>)
    requires
        old(runtime).well_formed(),
    ensures
        final(runtime).well_formed(),
        ({
            let (rate, allowed) = acquired(
                old(runtime).rate,
                source_bytes as nat,
                elapsed_nanos,
            );
            let before = *old(runtime);
            match result {
                Ok(_) => {
                    &&& before.lifecycle.state == ServiceState::Ready
                    &&& allowed
                    &&& before.ingest.in_flight < before.config.max_ingest_in_flight
                    &&& *final(runtime) == (ProductionRuntime {
                        rate,
                        ingest: before.ingest.entered(),
                        ..before
                    })
                },
                Err(error) => if before.lifecycle.state != ServiceState::Ready {
                    &&& error@ == (ApiFault {
                        status: ApiStatus::Unavailable,
                        message: "ingestion is draining or unavailable"@,
                    })
                    &&& *final(runtime) == before.rejecting()
                } else {
                    &&& !allowed || before.ingest.in_flight >= before.config.max_ingest_in_flight
                    &&& error@ == (ApiFault {
                        status: ApiStatus::TooManyRequests,
                        message: "ingest concurrency or rate limit exceeded"@,
                    })
                    &&& *final(runtime) == (ProductionRuntime { rate, ..before.rejecting() })
                },
            }
        }),
{
    if runtime.try_ingest(source_bytes, elapsed_nanos) {
        return Ok(());
    }
    if runtime.lifecycle.state() != ServiceState::Ready {
        Err(LokiApiError::new(ApiStatus::Unavailable, "ingestion is draining or unavailable"))
    } else {
        Err(
            LokiApiError::new(
                ApiStatus::TooManyRequests,
                "ingest concurrency or rate limit exceeded",
            ),
        )
    }
}

/// Whether a push body is JSON, by its content type.
pub fn is_json_push(content_type: &Option<String>) -> (json: bool)
    ensures
        json == match *content_type {
            Some(value) => begins_with(value@, "application/json"@),
            None => false,
        },
{
    match content_type {
        Some(value) => begins(&chars_of(value), "application/json"),
        None => false,
    }
}

/// Whether a credential has the digest of the expected one.
pub open spec fn same_secret(observed: Seq<char>, expected: Seq<char>) -> bool {
    blake3_digest(encode_utf8(observed)) == blake3_digest(encode_utf8(expected))
}

/// Whether an authorization header holds the expected credential.
pub fn authorized_bearer(header: &Option<String>, expected: &str) -> (authorized: bool)
    ensures
        authorized == match bearer_of(optional_text(*header)) {
            Some(observed) => same_secret(observed, expected@),
            None => false,
        },
{
    match bearer_token(header) {
        Some(observed) => {
            let observed_digest = blake3_hash(observed.as_str().as_bytes());
            let expected_digest = blake3_hash(expected.as_bytes());
            same_digest(&observed_digest, &expected_digest)
        },
        None => false,
    }
}

/// The token that a file holds: its text without white space around it, where some is left.
pub open spec fn token_of(content: Seq<char>) -> Option<Seq<char>> {
    if trimmed(content).len() == 0 {
        None
    } else {
        Some(trimmed(content))
    }
}

/// Reads the token of the analytical scan from the content of its file; an empty one is none.
pub fn analytics_token(content: &str) -> (token: Option<String>)
    ensures
        optional_text(token) == token_of(content@),
{
    let characters = trim(&chars_of(content));
    if characters.len() == 0 {
        return None;
    }
    let token = text_between(&characters, 0, characters.len());
    proof {
        assert(token@ =~= characters@);
    }
    Some(token)
}

/// Why routes cannot be served, if they cannot: a flush timeout of zero, or an empty token
/// for the analytical scan.
pub open spec fn routes_fault(token: Option<Seq<char>>, flush_timeout_nanos: u128) -> Option<
    ApiFault,
> {
    if flush_timeout_nanos == 0 {
        Some(
            ApiFault {
                status: ApiStatus::Internal,
                message: "production flush timeout must be nonzero"@,
            },
        )
    } else if token matches Some(text) && text.len() == 0 {
        Some(
            ApiFault {
                status: ApiStatus::Internal,
                message: "ClickHouse bearer token must not be empty"@,
            },
        )
    } else {
        None
    }
}

/// Checks what routes are served with.
pub fn check_routes(token: &Option<String>, flush_timeout_nanos: u128) -> (result: Result<
    (),
    LokiApiError,
>)
    ensures
        match result {
            Ok(_) => routes_fault(optional_text(*token), flush_timeout_nanos) is None,
            Err(error) => routes_fault(optional_text(*token), flush_timeout_nanos) == Some(error@),
        },
{
    if flush_timeout_nanos == 0 {
        return Err(LokiApiError::internal("production flush timeout must be nonzero"));
    }
    if let Some(text) = token {
        if text.as_str().is_empty() {
            return Err(LokiApiError::internal("ClickHouse bearer token must not be empty"));
        }
    }
    Ok(())
}

/// The answer to an analytical scan: its request, or why it is refused.
pub open spec fn clickhouse_plan(
    token: Option<Seq<char>>,
    authorization: Option<Seq<char>>,
    tenant: Seq<char>,
    parameters: Seq<(Seq<char>, Seq<char>)>,
) -> Result<ScanModel, ApiFault> {
    match token {
        None => Err(
            ApiFault {
                status: ApiStatus::NotFound,
                message: "analytical scan route is disabled"@,
            },
        ),
        Some(expected) => {
            let authorized = match bearer_of(authorization) {
                Some(observed) => same_secret(observed, expected),
                None => false,
            };
            if !authorized {
                Err(
                    ApiFault {
                        status: ApiStatus::Unauthorized,
                        message: "valid ClickHouse bearer token is required"@,
                    },
                )
            } else {
                scan_request_of(tenant, parameters)
            }
        },
    }
}

/// Plans an analytical scan.
pub fn clickhouse_scan(
    token: &Option<String>,
    authorization: &Option<String>,
    tenant_header: &Option<String>,
    config: &LokiApiConfig,
    raw_query: Option<&str>,
) -> (result: Result<AnalyticsScanRequest, LokiApiError>)
    ensures
        same_outcome(
            result,
            clickhouse_plan(
                optional_text(*token),
                optional_text(*authorization),
                tenant_of(optional_text(*tenant_header), config.default_tenant@),
                form_pairs(
                    match raw_query {
                        Some(query) => query@,
                        None => ""@,
                    },
                ),
            ),
        ),
{
    let expected = match token {
        Some(expected) => expected,
        None => return Err(
            LokiApiError::new(ApiStatus::NotFound, "analytical scan route is disabled"),
        ),
    };
    if !authorized_bearer(authorization, expected) {
        return Err(
            LokiApiError::new(
                ApiStatus::Unauthorized,
                "valid ClickHouse bearer token is required",
            ),
        );
    }
    parse_scan_request(tenant(tenant_header, config), raw_query)
}

/// Event of a live tail.
#[derive(Debug)]
pub enum TailEvent {
    /// The service stops.
    Shutdown,
    /// Entries were pushed; the deletion requests of the tail's tenant, if they could be
    /// read.
    Push {
        /// Tenant of the entries.
        tenant: String,
        /// Entries.
        entries: Vec<LokiEntry>,
        /// Deletion requests.
        deletes: Option<Vec<DeleteRequest>>,
    },
    /// The tail was too slow and missed pushes.
    Lagged(u64),
    /// There will be no more pushes.
    Closed,
}

/// What a live tail does next.
#[derive(Debug)]
pub enum TailAction {
    /// The tail ends.
    Stop,
    /// The tail waits for the next event.
    Wait,
    /// The tail sends streams.
    Send(Vec<ResponseStream>),
    /// The tail reports a number of missed pushes.
    Dropped(u64),
}

/// Value of what a live tail does next.
#[verifier::ext_equal]
pub enum TailModel {
    /// The tail ends.
    Stop,
    /// The tail waits for the next event.
    Wait,
    /// The tail sends streams.
    Send(Seq<StreamModel>),
    /// The tail reports a number of missed pushes.
    Dropped(u64),
}

impl View for TailAction {
    type V = TailModel;

    open spec fn view(&self) -> TailModel {
        match self {
            TailAction::Stop => TailModel::Stop,
            TailAction::Wait => TailModel::Wait,
            TailAction::Send(streams) => TailModel::Send(streams_view(streams@)),
            TailAction::Dropped(count) => TailModel::Dropped(*count),
        }
    }
}

/// Entries of a push that a tail shows.
pub open spec fn shown_entries(
    entries: Seq<EntryModel>,
    selector: SelectorModel,
    hidden: Seq<crate::loki_stats::SelectionModel>,
) -> Seq<EntryModel>
    decreases entries.len(),
{
    if entries.len() == 0 {
        Seq::empty()
    } else {
        let front = shown_entries(entries.drop_last(), selector, hidden);
        if selects_entry(selector, entries.last()) && !is_deleted(hidden, entries.last()) {
            front.push(entries.last())
        } else {
            front
        }
    }
}

/// What a tail does after a push.
pub open spec fn push_action(
    tenant: Seq<char>,
    selector: SelectorModel,
    push_tenant: Seq<char>,
    entries: Seq<EntryModel>,
    deletes: Option<Seq<DeleteModel>>,
) -> TailModel {
    if push_tenant != tenant {
        TailModel::Wait
    } else {
        match deletes {
            None => TailModel::Stop,
            Some(requests) => match deleted_selections(requests) {
                Err(_) => TailModel::Stop,
                Ok(hidden) => {
                    let shown = shown_entries(entries, selector, hidden);
                    if shown.len() == 0 {
                        TailModel::Wait
                    } else {
                        TailModel::Send(streams_of(shown))
                    }
                },
            },
        }
    }
}

/// What a tail does after an event.
pub open spec fn tail_action(tenant: Seq<char>, selector: SelectorModel, event: TailEvent) -> TailModel {
    match event {
        TailEvent::Shutdown => TailModel::Stop,
        TailEvent::Closed => TailModel::Stop,
        TailEvent::Lagged(count) => TailModel::Dropped(count),
        TailEvent::Push { tenant: push_tenant, entries, deletes } => push_action(
            tenant,
            selector,
            push_tenant@,
            entries_view(entries@),
            match deletes {
                Some(requests) => Some(deletes_view(requests@)),
                None => None,
            },
        ),
    }
}

fn show_entries(entries: &Vec<LokiEntry>, selector: &LogSelector, filter: &LogicalDeleteFilter) -> (
    shown: Vec<LokiEntry>)
    requires
        selector.well_formed(),
        filter.well_formed(),
    ensures
        entries_view(shown@) == shown_entries(entries_view(entries@), selector@, filter@),
{
    let ghost models = entries_view(entries@);
    let mut shown: Vec<LokiEntry> = Vec::new();
    let mut index: usize = 0;
    proof {
        assert(entries_view(shown@) =~= shown_entries(
            models.subrange(0, 0),
            selector@,
            filter@,
        ));
    }
    while index < entries.len()
        invariant
            selector.well_formed(),
            filter.well_formed(),
            index <= entries@.len(),
            models == entries_view(entries@),
            entries_view(shown@) == shown_entries(
                models.subrange(0, index as int),
                selector@,
                filter@,
            ),
        decreases entries@.len() - index,
    {
        proof {
            let part = models.subrange(0, index + 1);
            assert(part.drop_last() =~= models.subrange(0, index as int));
            assert(part.last() == entries@[index as int]@);
        }
        if selector.matches(&entries[index]) && !filter.matches(&entries[index]) {
            let copy = entries[index].clone();
            proof {
                assert(entries_view(shown@.push(copy)) =~= entries_view(shown@).push(copy@));
            }
            shown.push(copy);
        }
        index = index + 1;
    }
    proof {
        assert(models.subrange(0, index as int) =~= models);
    }
    shown
}

/// Decides what a tail does after an event.
pub fn tail_step(tenant: &str, selector: &LogSelector, event: &TailEvent) -> (action: TailAction)
    requires
        selector.well_formed(),
    ensures
        action@ == tail_action(tenant@, selector@, *event),
{
    match event {
        TailEvent::Shutdown => TailAction::Stop,
        TailEvent::Closed => TailAction::Stop,
        TailEvent::Lagged(count) => TailAction::Dropped(*count),
        TailEvent::Push { tenant: push_tenant, entries, deletes } => {
            if !same_text(push_tenant, tenant) {
                return TailAction::Wait;
            }
            let requests = match deletes {
                Some(requests) => requests,
                None => return TailAction::Stop,
            };
            let filter = match LogicalDeleteFilter::compile(requests) {
                Ok(filter) => filter,
                Err(_) => return TailAction::Stop,
            };
            let shown = show_entries(entries, selector, &filter);
            proof {
                assert(entries_view(shown@).len() == shown@.len());
            }
            if shown.len() == 0 {
                TailAction::Wait
            } else {
                TailAction::Send(group_streams(&shown))
            }
        },
    }
}

/// Reserves a live tail.
pub fn tail_permit(runtime: &mut ProductionRuntime) -> (result: Result<(), LokiApiError>)
    requires
        old(runtime).well_formed(),
    ensures
        final(runtime).well_formed(),
        match result {
            Ok(_) => {
                &&& old(runtime).tail.in_flight < old(runtime).config.max_tail_subscribers
                &&& *final(runtime) == (ProductionRuntime {
                    tail: old(runtime).tail.entered(),
                    metrics: ProductionMetricsSnapshot {
                        tail_subscriptions: old(runtime).metrics.tail_subscriptions.wrapping_add(
                            1,
                        ),
                        ..old(runtime).metrics
                    },
                    ..*old(runtime)
                })
            },
            Err(error) => {
                &&& old(runtime).tail.in_flight >= old(runtime).config.max_tail_subscribers
                &&& error@ == (ApiFault {
                    status: ApiStatus::TooManyRequests,
                    message: "tail subscriber limit exceeded"@,
                })
                &&& *final(runtime) == old(runtime).rejecting()
            },
        },
{
    if runtime.try_tail() {
        Ok(())
    } else {
        Err(LokiApiError::new(ApiStatus::TooManyRequests, "tail subscriber limit exceeded"))
    }
}

/// Health of a store.
#[derive(Debug, PartialEq, Eq)]
pub struct StoreHealth {
    /// Whether durable writes and indexed reads can be served safely.
    pub ready: bool,
    /// Explanation where it is not ready.
    pub detail: String,
}

impl Default for StoreHealth {
    fn default() -> (health: Self)
        ensures
            health.ready,
            health.detail@ == "ready"@,
    {
        StoreHealth { ready: true, detail: "ready".to_owned() }
    }
}

/// The readiness report: its text, and whether it is good.
pub open spec fn readiness_of(
    state: ServiceState,
    ready: bool,
    detail: Seq<char>,
) -> (bool, Seq<char>) {
    if state == ServiceState::Ready && ready {
        (true, "ready\n"@)
    } else {
        (false, state.text() + ": "@ + detail + "\n"@)
    }
}

/// Reports readiness; an error of the store is reported as it is.
pub fn readiness(state: ServiceState, health: &Result<StoreHealth, LokiApiError>) -> (report: (
    bool,
    String,
))
    ensures
        (report.0, report.1@) == match *health {
            Ok(health) => readiness_of(state, health.ready, health.detail@),
            Err(error) => (false, error.message@ + "\n"@),
        },
{
    match health {
        Ok(health) => {
            if state == ServiceState::Ready && health.ready {
                (true, "ready\n".to_owned())
            } else {
                (false, state.as_str().to_owned().concat(": ").concat(&health.detail).concat("\n"))
            }
        },
        Err(error) => (false, error.message.clone().concat("\n")),
    }
}

/// Counters of a store.
#[derive(Debug, Clone, Copy, PartialEq, Eq, Structural)]
pub struct StoreMetrics {
    /// Durable sink work waiting to be indexed.
    pub pending_items: u64,
    /// Bytes of pending durable sink work.
    pub pending_bytes: u64,
    /// Age in milliseconds of the oldest pending checkpoint.
    pub checkpoint_age_ms: u64,
    /// Durable appends applied to the log index.
    pub applied_appends: u64,
    /// Durable sink retries.
    pub retry_attempts: u64,
    /// Durable sink failures.
    pub failed_attempts: u64,
    /// Partitions that need recovery.
    pub dirty_partitions: u64,
    /// Source payload bytes still retained.
    pub retained_payload_bytes: Option<u64>,
    /// Completed retention passes.
    pub retention_runs: u64,
    /// Offsets made eligible for reclamation.
    pub retention_advanced_offsets: u64,
    /// Failed retention passes.
    pub retention_failures: u64,
}

impl Default for StoreMetrics {
    fn default() -> (metrics: Self)
        ensures
            metrics == (StoreMetrics {
                pending_items: 0,
                pending_bytes: 0,
                checkpoint_age_ms: 0,
                applied_appends: 0,
                retry_attempts: 0,
                failed_attempts: 0,
                dirty_partitions: 0,
                retained_payload_bytes: None,
                retention_runs: 0,
                retention_advanced_offsets: 0,
                retention_failures: 0,
            }),
    {
        StoreMetrics {
            pending_items: 0,
            pending_bytes: 0,
            checkpoint_age_ms: 0,
            applied_appends: 0,
            retry_attempts: 0,
            failed_attempts: 0,
            dirty_partitions: 0,
            retained_payload_bytes: None,
            retention_runs: 0,
            retention_advanced_offsets: 0,
            retention_failures: 0,
        }
    }
}

/// Lines of a report: what stands before a number, and the number.
pub type MetricLines = Seq<(Seq<char>, nat)>;

/// Text of lines.
pub open spec fn lines_text(lines: MetricLines) -> Seq<char>
    decreases lines.len(),
{
    if lines.len() == 0 {
        Seq::empty()
    } else {
        lines_text(lines.drop_last()) + lines.last().0 + decimal_text(lines.last().1) + "\n"@
    }
}

/// Lines of a store.
pub open spec fn store_lines(ready: bool, store: StoreMetrics) -> MetricLines {
    seq![
        (
            "# HELP shard_log_ready Whether ShardLog is ready.\n# TYPE shard_log_ready gauge\nshard_log_ready "@,
            if ready {
                1nat
            } else {
                0nat
            },
        ),
        (
            "# HELP shard_log_durable_sink_pending_items Durable sink items waiting for indexing.\n# TYPE shard_log_durable_sink_pending_items gauge\nshard_log_durable_sink_pending_items "@,
            store.pending_items as nat,
        ),
        ("shard_log_durable_sink_pending_bytes "@, store.pending_bytes as nat),
        (
            "shard_log_durable_sink_checkpoint_age_milliseconds "@,
            store.checkpoint_age_ms as nat,
        ),
        ("shard_log_durable_sink_applied_appends_total "@, store.applied_appends as nat),
        ("shard_log_durable_sink_retries_total "@, store.retry_attempts as nat),
        ("shard_log_durable_sink_failures_total "@, store.failed_attempts as nat),
        ("shard_log_durable_sink_dirty_partitions "@, store.dirty_partitions as nat),
        ("shard_log_retention_runs_total "@, store.retention_runs as nat),
        (
            "shard_log_retention_advanced_offsets_total "@,
            store.retention_advanced_offsets as nat,
        ),
        ("shard_log_retention_failures_total "@, store.retention_failures as nat),
    ]
}

/// Line of the retained payload, where it is known.
pub open spec fn retained_lines(store: StoreMetrics) -> MetricLines {
    match store.retained_payload_bytes {
        Some(bytes) => seq![("shard_log_retained_payload_bytes "@, bytes as nat)],
        None => Seq::empty(),
    }
}

/// Lines of a runtime.
pub open spec fn runtime_lines(runtime: ProductionRuntime) -> MetricLines {
    let counters = runtime.metrics;
    seq![
        ("shard_log_http_requests_total "@, counters.http_requests as nat),
        ("shard_log_authentication_failures_total "@, counters.authentication_failures as nat),
        ("shard_log_rejected_requests_total "@, counters.rejected_requests as nat),
        ("shard_log_ingest_requests_total "@, counters.ingest_requests as nat),
        ("shard_log_ingest_bytes_total "@, counters.ingest_bytes as nat),
        ("shard_log_ingest_records_total "@, counters.ingest_records as nat),
        ("shard_log_query_requests_total "@, counters.query_requests as nat),
        ("shard_log_native_connections_total "@, counters.native_connections as nat),
        ("shard_log_tail_subscriptions_total "@, counters.tail_subscriptions as nat),
        ("shard_log_http_in_flight "@, runtime.http.in_flight as nat),
        ("shard_log_ingest_in_flight "@, runtime.ingest.in_flight as nat),
        ("shard_log_query_in_flight "@, runtime.query.in_flight as nat),
        ("shard_log_tail_in_flight "@, runtime.tail.in_flight as nat),
        (
            "shard_log_native_connections_in_flight "@,
            runtime.native_connections.in_flight as nat,
        ),
    ]
}

/// Values of lines.
pub open spec fn lines_view(lines: Seq<(&'static str, u64)>) -> MetricLines {
    lines.map_values(|line: (&'static str, u64)| (line.0@, line.1 as nat))
}

fn write_lines(lines: &Vec<(&'static str, u64)>) -> (text: String)
    ensures
        text@ == lines_text(lines_view(lines@)),
{
    let ghost models = lines_view(lines@);
    let mut text = "".to_owned();
    let mut index: usize = 0;
    proof {
        reveal_strlit("");
        assert(text@ =~= lines_text(models.subrange(0, 0)));
    }
    while index < lines.len()
        invariant
            index <= lines@.len(),
            models == lines_view(lines@),
            text@ == lines_text(models.subrange(0, index as int)),
        decreases lines@.len() - index,
    {
        proof {
            let part = models.subrange(0, index + 1);
            assert(part.drop_last() =~= models.subrange(0, index as int));
            assert(part.last() == (lines@[index as int].0@, lines@[index as int].1 as nat));
        }
        text = text.concat(lines[index].0).concat(&decimal_string(lines[index].1 as u128)).concat(
            "\n",
        );
        index = index + 1;
    }
    proof {
        assert(models.subrange(0, index as int) =~= models);
    }
    text
}

/// The metrics report of a store.
pub fn store_report(ready: bool, store: &StoreMetrics) -> (text: String)
    ensures
        text@ == lines_text(store_lines(ready, *store)) + lines_text(retained_lines(*store)),
{
    let lines: Vec<(&'static str, u64)> = vec![
        (
            "# HELP shard_log_ready Whether ShardLog is ready.\n# TYPE shard_log_ready gauge\nshard_log_ready ",
            if ready {
                1
            } else {
                0
            },
        ),
        (
            "# HELP shard_log_durable_sink_pending_items Durable sink items waiting for indexing.\n# TYPE shard_log_durable_sink_pending_items gauge\nshard_log_durable_sink_pending_items ",
            store.pending_items,
        ),
        ("shard_log_durable_sink_pending_bytes ", store.pending_bytes),
        ("shard_log_durable_sink_checkpoint_age_milliseconds ", store.checkpoint_age_ms),
        ("shard_log_durable_sink_applied_appends_total ", store.applied_appends),
        ("shard_log_durable_sink_retries_total ", store.retry_attempts),
        ("shard_log_durable_sink_failures_total ", store.failed_attempts),
        ("shard_log_durable_sink_dirty_partitions ", store.dirty_partitions),
        ("shard_log_retention_runs_total ", store.retention_runs),
        ("shard_log_retention_advanced_offsets_total ", store.retention_advanced_offsets),
        ("shard_log_retention_failures_total ", store.retention_failures),
    ];
    proof {
        assert(lines_view(lines@) =~= store_lines(ready, *store));
    }
    let text = write_lines(&lines);
    let mut extra: Vec<(&'static str, u64)> = Vec::new();
    match store.retained_payload_bytes {
        Some(bytes) => extra.push(("shard_log_retained_payload_bytes ", bytes)),
        None => {},
    }
    proof {
        assert(lines_view(extra@) =~= retained_lines(*store));
    }
    text.concat(&write_lines(&extra))
}

/// The metrics report of a runtime.
pub fn runtime_report(runtime: &ProductionRuntime) -> (text: String)
    ensures
        text@ == lines_text(runtime_lines(*runtime)),
{
    let counters = runtime.metrics();
    let (http, ingest, query, tail, native) = runtime.admission_in_flight();
    let lines: Vec<(&'static str, u64)> = vec![
        ("shard_log_http_requests_total ", counters.http_requests),
        ("shard_log_authentication_failures_total ", counters.authentication_failures),
        ("shard_log_rejected_requests_total ", counters.rejected_requests),
        ("shard_log_ingest_requests_total ", counters.ingest_requests),
        ("shard_log_ingest_bytes_total ", counters.ingest_bytes),
        ("shard_log_ingest_records_total ", counters.ingest_records),
        ("shard_log_query_requests_total ", counters.query_requests),
        ("shard_log_native_connections_total ", counters.native_connections),
        ("shard_log_tail_subscriptions_total ", counters.tail_subscriptions),
        ("shard_log_http_in_flight ", http as u64),
        ("shard_log_ingest_in_flight ", ingest as u64),
        ("shard_log_query_in_flight ", query as u64),
        ("shard_log_tail_in_flight ", tail as u64),
        ("shard_log_native_connections_in_flight ", native as u64),
    ];
    proof {
        assert(lines_view(lines@) =~= runtime_lines(*runtime));
    }
    write_lines(&lines)
}

/// Ends the preparation of a shutdown once the store was flushed: a failed flush fails
/// the service.
pub fn finish_drain(lifecycle: &mut ServiceLifecycle, flushed: Result<(), LokiApiError>) -> (result:
    Result<(), LokiApiError>)
    ensures
        match flushed {
            Ok(_) => result is Ok && *final(lifecycle) == *old(lifecycle),
            Err(error) => {
                &&& result is Err
                &&& result->Err_0@ == error@
                &&& final(lifecycle).state == next_state(
                    old(lifecycle).state,
                    LifecycleEvent::MarkFailed,
                )
                &&& final(lifecycle).failure is Some
                &&& final(lifecycle).failure->0@ == error.message@
                &&& final(lifecycle).shutdown_requested == old(lifecycle).shutdown_requested
            },
        },
{
    match flushed {
        Ok(_) => Ok(()),
        Err(error) => {
            lifecycle.mark_failed(error.message.clone());
            Err(error)
        },
    }
}

} // verus!
