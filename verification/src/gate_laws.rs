//! Laws of the production lifecycle, the ingest rate and the admission of requests.
use vstd::prelude::*;

use crate::api_error::ApiStatus;
use crate::loki_delete::{deleted_selections, is_deleted, DeleteModel};
use crate::loki_gate::{
    bearer_of, clickhouse_plan, gate_outcome, push_action, query_path, readiness_of,
    shown_entries, GateModel, TailModel,
};
use crate::loki_query::SelectorModel;
use crate::loki_stats::SelectionModel;
use crate::native_query_laws::{deletions_cover_what_they_ask_for, is_erased};
use crate::production::{
    acquired, generated, next_state, IngestRateLimiter, LifecycleEvent, ProductionRuntime,
    ServiceState,
};
use crate::read_laws::{entry_meets, selectors_select_what_they_ask_for};
use crate::record::EntryModel;

verus! {

broadcast use vstd::seq_lib::group_seq_properties;

/// A service becomes ready only from its start, drains unless it is closed, stops unless it
/// failed, and fails from everywhere.
pub proof fn lifecycle_moves_forward(state: ServiceState)
    ensures
        next_state(state, LifecycleEvent::MarkReady) == if state is Starting {
            ServiceState::Ready
        } else {
            state
        },
        next_state(state, LifecycleEvent::BeginDraining) == if state is Starting || state is Ready {
            ServiceState::Draining
        } else {
            state
        },
        next_state(state, LifecycleEvent::RequestShutdown) == if state is Failed {
            ServiceState::Failed
        } else {
            ServiceState::Stopping
        },
        next_state(state, LifecycleEvent::MarkFailed) == ServiceState::Failed,
{
}

/// Whether the refill of a time is not cut at the largest number.
pub open spec fn refill_fits(limiter: IngestRateLimiter, elapsed: u128) -> bool {
    elapsed * limiter.bytes_per_second + limiter.remainder <= u128::MAX
}

/// A request is accepted where it is no larger than the burst and no larger than the bytes
/// that are left and that its time brings, one billionth of the rate for each nanosecond;
/// it takes its bytes, a refused one takes none, and the bucket never holds more than the
/// burst. Without a rate everything is accepted.
pub proof fn requests_are_paid_from_the_bucket(
    limiter: IngestRateLimiter,
    bytes: nat,
    elapsed: u128,
)
    requires
        limiter.well_formed(),
        refill_fits(limiter, elapsed),
    ensures
        limiter.bytes_per_second == 0 ==> acquired(limiter, bytes, elapsed) == (limiter, true),
        limiter.bytes_per_second > 0 ==> {
            let (after, accepted) = acquired(limiter, bytes, elapsed);
            let income = (elapsed * limiter.bytes_per_second + limiter.remainder) / 1_000_000_000;
            let held = if limiter.tokens + income < limiter.burst_bytes {
                limiter.tokens + income
            } else {
                limiter.burst_bytes as int
            };
            &&& accepted <==> bytes <= held
            &&& accepted ==> after.tokens == held - bytes
            &&& !accepted && bytes <= limiter.burst_bytes ==> after.tokens == held
            &&& bytes > limiter.burst_bytes ==> after == limiter
            &&& after.burst_bytes == limiter.burst_bytes
            &&& after.bytes_per_second == limiter.bytes_per_second
        },
{
    assert(elapsed * limiter.bytes_per_second >= 0) by (nonlinear_arith);
}

/// Asking for nothing on the way does not change what a later request gets.
pub proof fn waiting_adds_up(
    limiter: IngestRateLimiter,
    bytes: nat,
    first: u128,
    second: u128,
)
    requires
        limiter.well_formed(),
        limiter.bytes_per_second > 0,
        first + second <= u128::MAX,
        refill_fits(limiter, (first + second) as u128),
        bytes <= limiter.burst_bytes,
    ensures
        acquired(acquired(limiter, 0, first).0, bytes, second) == acquired(
            limiter,
            bytes,
            (first + second) as u128,
        ),
{
    let rate = limiter.bytes_per_second as int;
    let rest = limiter.remainder as int;
    let both = (first + second) as u128;
    let a = first * rate + rest;
    assert(first * rate >= 0 && second * rate >= 0 && both * rate == first * rate + second * rate)
        by (nonlinear_arith)
        requires
            both == first + second,
            rate >= 0,
            first >= 0,
            second >= 0,
    ;
    let middle = acquired(limiter, 0, first).0;
    assert(generated(limiter, first) == a);
    assert(middle.remainder == a % 1_000_000_000);
    assert(second * rate + middle.remainder <= u128::MAX);
    assert(generated(middle, second) == second * rate + a % 1_000_000_000);
    assert(generated(limiter, both) == both * rate + rest);
    let b = second * rate + a % 1_000_000_000;
    assert(a == (a / 1_000_000_000) * 1_000_000_000 + a % 1_000_000_000);
    assert((both * rate + rest) / 1_000_000_000 == a / 1_000_000_000 + b / 1_000_000_000);
    assert((both * rate + rest) % 1_000_000_000 == b % 1_000_000_000);
}

/// The credential of a header is what stands behind `Bearer` and a space; a header that does
/// not start so has none.
pub proof fn credentials_stand_behind_bearer(token: Seq<char>, header: Seq<char>)
    ensures
        bearer_of(Some(seq!['B', 'e', 'a', 'r', 'e', 'r', ' '] + token)) == Some(token),
        bearer_of(None) is None,
        bearer_of(Some(header)) is Some <==> exists|rest: Seq<char>|
            header == seq!['B', 'e', 'a', 'r', 'e', 'r', ' '] + rest,
{
    reveal_strlit("Bearer ");
    let start = seq!['B', 'e', 'a', 'r', 'e', 'r', ' '];
    assert("Bearer "@ =~= start);
    let whole = start + token;
    assert(whole.subrange(0, start.len() as int) =~= start);
    assert(whole.subrange(7, whole.len() as int) =~= token);
    if bearer_of(Some(header)) is Some {
        let rest = header.subrange(7, header.len() as int);
        assert(header =~= start + rest);
    }
    if exists|rest: Seq<char>| header == start + rest {
        let rest = choose|rest: Seq<char>| header == start + rest;
        assert(header.subrange(0, start.len() as int) =~= start);
    }
}

/// How requests are let in: the health and metrics paths are open; else, but for the scan, the
/// token must be that of the configuration; a tenant header must name its tenant; and there
/// must be room, for queries among queries too and only while the service runs.
pub proof fn requests_are_checked_in_order(
    runtime: ProductionRuntime,
    path: Seq<char>,
    bearer: Option<Seq<char>>,
    scope: Option<Seq<char>>,
)
    ensures
        ({
            let open = path == "/ready"@ || path == "/metrics"@;
            let scan = path == "/shardlog/api/v1/clickhouse/scan"@;
            let known = scan || (bearer matches Some(token) && runtime.config.accepts_token(
                token,
            ));
            let scoped = scope matches Some(tenant) ==> tenant == runtime.config.tenant@;
            let room = runtime.http.in_flight < runtime.config.max_http_in_flight;
            let running = runtime.lifecycle.state is Ready || runtime.lifecycle.state is Draining;
            let query_room = runtime.query.in_flight < runtime.config.max_query_in_flight;
            let (outcome, after) = gate_outcome(runtime, path, bearer, scope);
            &&& outcome == GateModel::Open <==> open
            &&& outcome == GateModel::Request <==> !open && known && scoped && room && !query_path(
                path,
            )
            &&& outcome == GateModel::Query <==> !open && known && scoped && room && query_path(
                path,
            ) && running && query_room
            &&& !open && !known ==> (outcome matches GateModel::Refused(fault) && fault.status
                == ApiStatus::Unauthorized)
            &&& !open && known && !scoped ==> (outcome matches GateModel::Refused(fault)
                && fault.status == ApiStatus::Forbidden)
            &&& !open && known && scoped && !room ==> (outcome matches GateModel::Refused(fault)
                && fault.status == ApiStatus::TooManyRequests)
            &&& !open && known && scoped && room && query_path(path) && !running ==> (
            outcome matches GateModel::Refused(fault) && fault.status == ApiStatus::Unavailable)
            &&& !open && known && scoped && room && query_path(path) && running && !query_room ==> (
            outcome matches GateModel::Refused(fault) && fault.status
                == ApiStatus::TooManyRequests)
            &&& (outcome == GateModel::Request || outcome == GateModel::Query)
                && runtime.http.in_flight < runtime.http.limit ==> after.http.in_flight
                == runtime.http.in_flight + 1
            &&& outcome == GateModel::Query && runtime.query.in_flight < runtime.query.limit
                ==> after.query.in_flight == runtime.query.in_flight + 1
            &&& outcome is Refused || outcome is Open ==> after.http == runtime.http && after.query
                == runtime.query
            &&& after.lifecycle == runtime.lifecycle
            &&& after.config == runtime.config
        }),
{
}

/// A path under one of the reading routes counts as a query, whatever follows.
pub proof fn reading_routes_are_queries(rest: Seq<char>)
    ensures
        query_path("/loki/api/v1/query"@ + rest),
        query_path("/loki/api/v1/label"@ + rest),
        query_path("/loki/api/v1/series"@ + rest),
        query_path("/loki/api/v1/index"@ + rest),
        query_path("/loki/api/v1/patterns"@ + rest),
        query_path("/loki/api/v1/detected"@ + rest),
        query_path("/api/prom/query"@ + rest),
        query_path("/api/prom/label"@ + rest),
        query_path("/api/prom/series"@ + rest),
        query_path("/shardlog/api/v1/clickhouse/scan"@),
{
    lemma_begins("/loki/api/v1/query"@, rest);
    lemma_begins("/loki/api/v1/label"@, rest);
    lemma_begins("/loki/api/v1/series"@, rest);
    lemma_begins("/loki/api/v1/index"@, rest);
    lemma_begins("/loki/api/v1/patterns"@, rest);
    lemma_begins("/loki/api/v1/detected"@, rest);
    lemma_begins("/api/prom/query"@, rest);
    lemma_begins("/api/prom/label"@, rest);
    lemma_begins("/api/prom/series"@, rest);
}

proof fn lemma_begins(prefix: Seq<char>, rest: Seq<char>)
    ensures
        crate::loki_gate::begins_with(prefix + rest, prefix),
{
    let whole = prefix + rest;
    assert(whole.subrange(0, prefix.len() as int) =~= prefix);
}

/// An analytical scan needs its route to be enabled and the token of that route.
pub proof fn scans_need_their_token(
    token: Option<Seq<char>>,
    authorization: Option<Seq<char>>,
    tenant: Seq<char>,
    parameters: Seq<(Seq<char>, Seq<char>)>,
)
    ensures
        ({
            let plan = clickhouse_plan(token, authorization, tenant, parameters);
            let known = token matches Some(expected) && (bearer_of(authorization) matches Some(
                observed,
            ) && crate::loki_gate::same_secret(observed, expected));
            &&& token is None ==> (plan matches Err(fault) && fault.status == ApiStatus::NotFound)
            &&& token is Some && !known ==> (plan matches Err(fault) && fault.status
                == ApiStatus::Unauthorized)
            &&& known ==> plan == crate::analytics::scan_request_of(tenant, parameters)
        }),
{
}

/// What a tail shows of a push: the entries that meet its selector and that no received
/// deletion covers, in their order, grouped by their labels; nothing of another tenant.
pub proof fn tails_show_what_they_ask_for(
    tenant: Seq<char>,
    selector: SelectorModel,
    push_tenant: Seq<char>,
    entries: Seq<EntryModel>,
    deletes: Seq<DeleteModel>,
)
    ensures
        ({
            let sought = entries.filter(
                |entry: EntryModel| entry_meets(selector, entry) && !is_erased(deletes, entry),
            );
            let action = push_action(tenant, selector, push_tenant, entries, Some(deletes));
            &&& push_tenant != tenant ==> action == TailModel::Wait
            &&& push_tenant == tenant && deleted_selections(deletes) is Ok ==> action
                == if sought.len() == 0 {
                TailModel::Wait
            } else {
                TailModel::Send(crate::loki_entries::streams_of(sought))
            }
            &&& push_tenant == tenant && deleted_selections(deletes) is Err ==> action
                == TailModel::Stop
            &&& push_tenant == tenant ==> push_action(
                tenant,
                selector,
                push_tenant,
                entries,
                None,
            ) == TailModel::Stop
        }),
{
    deletions_cover_what_they_ask_for(deletes);
    if deleted_selections(deletes) is Ok {
        lemma_shown_entries(entries, selector, deletes, deleted_selections(deletes)->Ok_0);
    }
}

proof fn lemma_shown_entries(
    entries: Seq<EntryModel>,
    selector: SelectorModel,
    deletes: Seq<DeleteModel>,
    hidden: Seq<SelectionModel>,
)
    requires
        forall|entry: EntryModel| #[trigger]
            is_deleted(hidden, entry) == is_erased(deletes, entry),
    ensures
        shown_entries(entries, selector, hidden) == entries.filter(
            |entry: EntryModel| entry_meets(selector, entry) && !is_erased(deletes, entry),
        ),
    decreases entries.len(),
{
    reveal(Seq::filter);
    if entries.len() > 0 {
        lemma_shown_entries(entries.drop_last(), selector, deletes, hidden);
        selectors_select_what_they_ask_for(selector, entries.last());
        assert(is_deleted(hidden, entries.last()) == is_erased(deletes, entries.last()));
    }
}

/// A service reports that it is ready only where its state and its store both are.
pub proof fn readiness_needs_state_and_store(state: ServiceState, ready: bool, detail: Seq<char>)
    ensures
        readiness_of(state, ready, detail).0 <==> state is Ready && ready,
{
}

} // verus!
