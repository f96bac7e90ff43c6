use shard_log::analytics::scan_entries;
use shard_log::loki_delete::{
    apply_logical_deletes, list_deletes, plan_delete, plan_delete_list, DeleteCatalog,
    DeleteParams, LogicalDeleteFilter,
};
use shard_log::loki_entries::{
    decode_json_push, decode_protobuf_push, decompress_push, detected_level, group_streams,
    normalize_otlp_name, normalize_stream_labels, otlp_entry, push_payload, ProtoEntry,
    ProtoStream, PushItem, PushStream,
};
use shard_log::loki_fields::{
    detect_line_fields, detected_field_values, detected_fields, parser_names, LineField, LineParser,
};
use shard_log::loki_gate::{
    analytics_token, authorized_bearer, bearer_token, check_routes, clickhouse_scan, finish_drain,
    is_json_push, leave_gate, production_gate, production_ingest_permit, readiness, runtime_report,
    store_report, tail_permit, tail_step, GateDecision, TailAction, TailEvent,
};
use shard_log::loki_query::{
    parse_label_set, parse_log_query, validate_label_name, validate_labels,
};
use shard_log::loki_read::{
    execute_stream_query, find_parameter, label_values, labels, plan_label_values, plan_series,
    plan_stream_query, series, tenant, QueryParams,
};
use shard_log::loki_stats::{
    format_label_set, index_stats, index_volume, patterns, plan_patterns, plan_selection,
};
use shard_log::loki_time::{
    days_from_civil, inferred_field_type, parse_byte_quantity, parse_delete_timestamp,
    parse_duration_nanos, parse_rfc3339_nanos, parse_timestamp, query_range_bounds, TimeRange,
    TimeText,
};
use shard_log::{
    ApiStatus, CompressionCohortId, DeleteRequest, LabelMap, LokiApiConfig, LokiApiError,
    LokiApiStore, LokiEntry, MetadataField, OtlpLogEvent, ProductionRuntime, ServiceLifecycle,
    ServiceState, SingleTenantConfig, StoreHealth, StoreMetrics,
};

fn map(pairs: &[(&str, &str)]) -> LabelMap {
    LabelMap::from_pairs(
        pairs.iter().map(|(key, value)| (key.to_string(), value.to_string())).collect(),
    )
}

fn entry(timestamp: i64, pairs: &[(&str, &str)], line: &str) -> LokiEntry {
    LokiEntry {
        timestamp_unix_nanos: timestamp,
        labels: map(pairs),
        line: line.to_owned(),
        structured_metadata: LabelMap::new(),
    }
}

fn text(value: &str) -> PushItem {
    PushItem::Text(value.to_owned())
}

fn time(value: &str) -> TimeText {
    TimeText { text: value.to_owned(), float_nanos: None }
}

fn range(start: &str, end: &str) -> TimeRange {
    TimeRange { start: Some(time(start)), end: Some(time(end)), time: None, since: None }
}

fn params(query: Option<&str>, start: &str, end: &str) -> QueryParams {
    QueryParams {
        query: query.map(str::to_owned),
        range: range(start, end),
        limit: None,
        direction: None,
        line_limit: None,
        field_limit: None,
    }
}

fn some(value: &str) -> Option<String> {
    Some(value.to_owned())
}

fn runtime() -> ProductionRuntime {
    ProductionRuntime::new(
        SingleTenantConfig {
            tenant: "tenant-a".to_owned(),
            bearer_token: "0123456789abcdef".to_owned(),
            max_http_in_flight: 8,
            max_ingest_in_flight: 4,
            max_query_in_flight: 4,
            ingest_bytes_per_second: 0,
            ingest_burst_bytes: 0,
            max_tail_subscribers: 2,
            max_native_connections: 4,
            query_timeout_nanos: 30_000_000_000,
            native_auth_timeout_nanos: 5_000_000_000,
        },
        ServiceLifecycle::new(),
    )
    .ok()
    .expect("valid production runtime")
}

fn pushed() -> Vec<LokiEntry> {
    decode_json_push(&vec![PushStream {
        stream: map(&[("app", "api"), ("env", "prod")]),
        values: vec![
            vec![
                text("100"),
                text("request completed"),
                PushItem::Fields(vec![("trace_id".to_owned(), some("abc"))]),
            ],
            vec![text("200"), text("health check")],
        ],
    }])
    .expect("valid push")
}

#[test]
fn json_push_requires_string_timestamps_and_preserves_metadata() {
    let entries = decode_json_push(&vec![PushStream {
        stream: map(&[("app", "api")]),
        values: vec![vec![
            text("100"),
            text("hello"),
            PushItem::Fields(vec![("trace_id".to_owned(), some("abc"))]),
        ]],
    }])
    .expect("valid push");
    assert_eq!(entries.len(), 1);
    assert_eq!(entries[0].timestamp_unix_nanos, 100);
    assert_eq!(entries[0].structured_metadata.get("trace_id").map(String::as_str), Some("abc"));
    assert!(decode_json_push(&vec![PushStream {
        stream: map(&[("app", "api")]),
        values: vec![vec![PushItem::Other, text("hello")]],
    }])
    .is_err());
}

#[test]
fn push_errors_name_their_cause() {
    let push = |values: Vec<PushItem>| {
        decode_json_push(&vec![PushStream { stream: map(&[("app", "api")]), values: vec![values] }])
            .expect_err("refused")
            .message
    };
    assert_eq!(
        push(vec![text("1")]),
        "push value must contain timestamp, line, and optional metadata"
    );
    assert_eq!(push(vec![text("x"), text("y")]), "push timestamp is not an integer");
    assert_eq!(push(vec![PushItem::Other, text("y")]), "push timestamp must be a string");
    assert_eq!(push(vec![text("1"), PushItem::Other]), "push line must be a string");
    assert_eq!(
        push(vec![text("1"), text("y"), PushItem::Other]),
        "structured metadata must be an object"
    );
    assert_eq!(
        push(vec![text("1"), text("y"), PushItem::Fields(vec![("a".to_owned(), None)])]),
        "structured metadata values must be strings"
    );
    assert!(decode_json_push(&vec![PushStream { stream: LabelMap::new(), values: Vec::new() }])
        .is_err());
    assert!(validate_labels(&map(&[("1bad", "x")])).is_err());
    assert!(validate_label_name("good_name").is_ok());
}

#[test]
fn exact_and_regex_line_filters_are_lossless() {
    let selector =
        parse_log_query(r#"{app="api"} |= "request" !~ "health|metrics""#).expect("query");
    assert!(selector.matches(&entry(1, &[("app", "api")], "request completed")));
    assert!(!selector.matches(&entry(1, &[("app", "api")], "request health")));
    assert!(!selector.matches(&entry(1, &[("app", "web")], "request completed")));
}

#[test]
fn selectors_match_labels_in_four_ways() {
    let sample = entry(1, &[("app", "api")], "line");
    for (query, expected) in [
        (r#"{app="api"}"#, true),
        (r#"{app!="api"}"#, false),
        (r#"{app=~"a.i"}"#, true),
        (r#"{app=~"a"}"#, false),
        (r#"{app!~"web|api"}"#, false),
        (r#"{missing=""}"#, true),
        (r#"{}"#, true),
        (r#"{app="api"}"#, true),
    ] {
        assert_eq!(parse_log_query(query).expect(query).matches(&sample), expected, "{query}");
    }
    for query in ["", "app", r#"{app="api""#, r#"{app=api}"#, r#"{app=~"("}"#, r#"{} |= x"#] {
        assert_eq!(parse_log_query(query).expect_err(query).status, ApiStatus::BadRequest);
    }
}

#[test]
fn timestamps_and_detected_line_fields_follow_loki_types() {
    assert_eq!(parse_timestamp(&time("1970-01-01T00:00:01.000000002Z")).unwrap(), 1_000_000_002);
    assert_eq!(parse_timestamp(&time("1970-01-01T01:00:01+01:00")).unwrap(), 1_000_000_000);
    assert_eq!(parse_delete_timestamp(&time("2")).unwrap(), 2_000_000_000);

    let fields = detect_line_fields("status=500 duration=42ms enabled=true");
    assert_eq!(fields.len(), 3);
    let values = vec!["42ms".to_owned(), "84ms".to_owned()];
    assert_eq!(inferred_field_type(&values, false).name(), "duration");
    let json = detect_line_fields(r#"{"status":500,"cached":true}"#);
    assert!(json.contains(&LineField {
        name: "status".to_owned(),
        value: "500".to_owned(),
        parser: LineParser::Json,
    }));
    assert!(json.contains(&LineField {
        name: "cached".to_owned(),
        value: "true".to_owned(),
        parser: LineParser::Json,
    }));
}

#[test]
fn times_and_sizes_have_exact_values() {
    assert_eq!(parse_rfc3339_nanos("2000-02-29T00:00:00Z"), Some(951_782_400_000_000_000));
    assert_eq!(parse_rfc3339_nanos("2001-02-29T00:00:00Z"), None);
    assert_eq!(parse_rfc3339_nanos("1969-12-31T23:59:59Z"), Some(-1_000_000_000));
    assert_eq!(days_from_civil(1970, 1, 1), 0);
    assert_eq!(days_from_civil(2024, 3, 1), 19_783);
    assert_eq!(parse_duration_nanos("5m"), Some(300_000_000_000));
    assert_eq!(parse_duration_nanos("ms"), None);
    assert_eq!(parse_byte_quantity("2KiB"), Some(2_048));
    assert_eq!(
        query_range_bounds(&range("5", "3"), 0).expect_err("reversed").message,
        "start is after end"
    );
    let since = TimeRange { start: None, end: Some(time("90000000000")), time: None, since: some("1m") };
    assert_eq!(query_range_bounds(&since, 0).expect("range"), (30_000_000_000, 90_000_000_000));
}

#[test]
fn native_snappy_protobuf_push_round_trips_loki_logproto_fields() {
    let compressed =
        snap::raw::Encoder::new().compress_vec(b"protobuf bytes").expect("Snappy encoding");
    assert_eq!(decompress_push(&compressed).expect("body"), b"protobuf bytes".to_vec());
    assert!(decompress_push(b"\xff\xff\xff\xff\xff\xff").is_err());
    assert_eq!(
        push_payload(Err("broken".to_owned())).expect_err("refused").message,
        "invalid Snappy payload: broken"
    );
    let entries = decode_protobuf_push(&vec![ProtoStream {
        labels: r#"{app="api"}"#.to_owned(),
        entries: vec![ProtoEntry {
            timestamp: Some((1, 23)),
            line: "protobuf message".to_owned(),
            structured_metadata: vec![("trace_id".to_owned(), "abc".to_owned())],
        }],
    }])
    .expect("push decoding");
    assert_eq!(entries.len(), 1);
    assert_eq!(entries[0].timestamp_unix_nanos, 1_000_000_023);
    assert_eq!(entries[0].line, "protobuf message");
    assert_eq!(entries[0].labels.get("service_name").map(String::as_str), Some("api"));
    assert_eq!(entries[0].structured_metadata.get("trace_id").map(String::as_str), Some("abc"));
    let broken = |timestamp| {
        decode_protobuf_push(&vec![ProtoStream {
            labels: r#"{app="api"}"#.to_owned(),
            entries: vec![ProtoEntry {
                timestamp,
                line: String::new(),
                structured_metadata: Vec::new(),
            }],
        }])
        .expect_err("refused")
        .message
    };
    assert_eq!(broken(None), "push entry has no timestamp");
    assert_eq!(broken(Some((i64::MAX, 0))), "push timestamp is out of range");
}

#[test]
fn push_query_labels_series_stats_and_detected_fields_round_trip() {
    let config = LokiApiConfig::default();
    let mut store = LokiApiStore::default();
    store.push("tenant-a", pushed());
    let entries = store.entries("tenant-a").expect("entries");

    let mut query = params(Some(r#"{app="api"} |= "request""#), "1", "300");
    query.direction = some("forward");
    let plan = plan_stream_query(&query, &config, 0).expect("plan");
    let answer = execute_stream_query(&plan, &entries);
    assert_eq!(answer.streams.len(), 1);
    assert_eq!(answer.streams[0].values[0].0, 100);
    let stream = &answer.streams[0].labels;
    assert_eq!(stream.get("trace_id").map(String::as_str), Some("abc"));
    assert_eq!(stream.get("service_name").map(String::as_str), Some("api"));
    assert_eq!(stream.get("detected_level").map(String::as_str), Some("unknown"));
    assert_eq!(answer.total_lines_processed, 2);
    assert_eq!(answer.total_bytes_processed, 29);
    assert_eq!(answer.total_entries_returned, 1);

    assert_eq!(labels(&entries, 1, 300), vec!["app", "env", "service_name"]);
    assert_eq!(label_values(&entries, "env", 1, 300), vec!["prod"]);
    let parameters = vec![("match[]".to_owned(), r#"{app="api"}"#.to_owned())];
    let plan = plan_series(&parameters, &range("1", "300"), 0).expect("series");
    let found = series(&plan, &entries);
    assert_eq!(found[0].get("app").map(String::as_str), Some("api"));

    let selection = plan_selection(&params(Some(r#"{app="api"}"#), "1", "300"), 0).expect("plan");
    assert_eq!(detected_field_values(&selection, "trace_id", 100, 1_000, &entries), vec!["abc"]);
    let stats = index_stats(&selection, &entries);
    assert_eq!(stats.entries, 2);
    assert_eq!(stats.streams, 1);
    assert_eq!(stats.bytes, 29);
    assert_eq!(
        index_volume(&selection, &entries),
        vec![(r#"{app="api",env="prod",service_name="api"}"#.to_owned(), 29)]
    );
}

#[test]
fn newest_entries_come_first_up_to_the_limit() {
    let entries: Vec<LokiEntry> =
        (0..5).map(|index| entry(index, &[("app", "api")], "line")).collect();
    let mut query = params(Some("{}"), "1", "300");
    query.limit = Some(2);
    let plan = plan_stream_query(&query, &LokiApiConfig::default(), 0).expect("plan");
    let answer = execute_stream_query(&plan, &entries);
    let times: Vec<i64> = answer.streams[0].values.iter().map(|value| value.0).collect();
    assert_eq!(times, vec![4, 3]);
    assert_eq!(
        plan_stream_query(&params(None, "1", "2"), &LokiApiConfig::default(), 0)
            .expect_err("refused")
            .message,
        "query parameter is required"
    );
}

#[test]
fn delete_requests_hide_matching_logs_and_cancel_restores_visibility() {
    let mut store = LokiApiStore::default();
    store.push(
        "tenant-a",
        vec![
            entry(100, &[("app", "api")], "remove this"),
            entry(200, &[("app", "api")], "retain this"),
        ],
    );
    let (query, start, end) = plan_delete(
        &DeleteParams {
            query: some(r#"{app="api"} |= "remove""#),
            start: Some(time("0")),
            end: Some(time("1")),
        },
        0,
    )
    .expect("delete request");
    assert_eq!((start, end), (0, 1_000_000_000));
    let id = store.deletes.create("tenant-a", start, end, query, 7).expect("created");
    assert_eq!(id, "0000000000000001");
    assert_eq!(store.deletes.list("tenant-a").len(), 1);
    assert!(store.deletes.list("tenant-b").is_empty());
    let visible = store.entries("tenant-a").expect("entries");
    assert_eq!(visible.len(), 1);
    assert_eq!(visible[0].line, "retain this");
    assert!(store.deletes.cancel("tenant-a", &id));
    assert!(!store.deletes.cancel("tenant-a", &id));
    assert_eq!(store.entries("tenant-a").expect("entries").len(), 2);
}

#[test]
fn delete_lists_can_be_bounded() {
    let mut catalog = DeleteCatalog::new();
    catalog.create("a", 0, 10, "{}".to_owned(), 0).expect("created");
    catalog.create("a", 20, 30, "{}".to_owned(), 0).expect("created");
    let all = catalog.list("a");
    assert_eq!(list_deletes(&all, None).len(), 2);
    assert_eq!(list_deletes(&all, Some((11, 20))).len(), 1);
    assert!(plan_delete_list(&DeleteParams { query: None, start: Some(time("1")), end: None })
        .is_err());
    catalog.replace_tenant("a", Vec::new());
    assert!(catalog.list("a").is_empty());
    let mut request = DeleteRequest {
        request_id: "x".to_owned(),
        start_time: 0,
        end_time: 10,
        query: "{}".to_owned(),
        status: "cancelled".to_owned(),
        created_at: 0,
    };
    let entries = vec![entry(5, &[("a", "b")], "line")];
    assert_eq!(apply_logical_deletes(&entries, &vec![request.clone()]).expect("kept").len(), 1);
    request.status = "received".to_owned();
    assert!(apply_logical_deletes(&entries, &vec![request.clone()]).expect("kept").is_empty());
    request.query = "broken".to_owned();
    assert!(LogicalDeleteFilter::compile(&vec![request]).is_err());
}

#[test]
fn patterns_group_structurally_similar_messages_into_time_samples() {
    let entries = vec![
        entry(1_000_000_000, &[("app", "api")], "request id=123456 duration=42ms complete"),
        entry(2_000_000_000, &[("app", "api")], "request id=654321 duration=84ms complete"),
    ];
    let (selection, step) = plan_patterns(
        &params(Some(r#"{app="api"}"#), "0", "3000000000"),
        &Some(time("1s")),
        0,
    )
    .expect("patterns request");
    assert_eq!(step, 1_000_000_000);
    let shapes = vec!["request id=<_> duration=<_> complete".to_owned(); 2];
    let found = patterns(&selection, step, 5_000, &entries, &shapes);
    assert_eq!(found[0].pattern, "request id=<_> duration=<_> complete");
    assert_eq!(found[0].samples, vec![(1, 1), (2, 1)]);
    let coarse = patterns(&selection, 10_000_000_000, 5_000, &entries, &shapes);
    assert_eq!(coarse[0].samples, vec![(0, 2)]);
    assert_eq!(patterns(&selection, step, 1, &entries, &shapes)[0].samples, vec![(1, 1)]);
}

#[test]
fn clickhouse_scan_is_absent_by_default_and_requires_its_bearer_token() {
    let config = LokiApiConfig::default();
    let scan = |token: &Option<String>, authorization: &Option<String>, query: Option<&str>| {
        clickhouse_scan(token, authorization, &some("tenant-a"), &config, query)
    };
    assert_eq!(scan(&None, &None, None).expect_err("disabled").status, ApiStatus::NotFound);
    let token = some("analytics-secret");
    assert_eq!(
        scan(&token, &None, None).expect_err("unauthorized").status,
        ApiStatus::Unauthorized
    );
    let request = scan(
        &token,
        &some("Bearer analytics-secret"),
        Some("term=failed&label.app=api&metadata.code=500"),
    )
    .expect("authorized");
    let mut sample = entry(123, &[("app", "api")], "request failed");
    sample.structured_metadata = map(&[("code", "500")]);
    let terms = vec![vec!["request".to_owned(), "failed".to_owned()]];
    let batches = scan_entries(&vec![sample], &terms, &request).expect("scan");
    assert_eq!(batches.len(), 1);
    assert_eq!(batches[0].len(), 1);
    assert_eq!(batches[0][0].timestamp_unix_nanos, 123);
    assert_eq!(batches[0][0].message, "request failed");
}

#[test]
fn production_surface_is_authenticated_single_tenant_and_drains_fail_closed() {
    let mut runtime = runtime();
    let healthy = Ok(StoreHealth::default());
    assert!(!readiness(runtime.lifecycle().state(), &healthy).0);
    runtime.lifecycle.mark_ready();
    assert_eq!(readiness(runtime.lifecycle().state(), &healthy), (true, "ready\n".to_owned()));

    let push = "/loki/api/v1/push";
    let refused = production_gate(&mut runtime, push, &None, &None);
    assert!(matches!(refused, GateDecision::Refused(error) if error.status.code() == 401));
    let bearer = bearer_token(&some("Bearer 0123456789abcdef"));
    assert_eq!(bearer, some("0123456789abcdef"));
    let refused = production_gate(&mut runtime, push, &bearer, &some("another-tenant"));
    assert!(matches!(refused, GateDecision::Refused(error) if error.status.code() == 403));
    let admitted = production_gate(&mut runtime, push, &bearer, &some("tenant-a"));
    assert!(matches!(admitted, GateDecision::Request));
    assert!(production_ingest_permit(&mut runtime, 10, 0).is_ok());
    runtime.record_ingest(10, 1);
    runtime.leave_ingest();
    leave_gate(&mut runtime, &admitted);

    runtime.lifecycle.begin_draining();
    assert!(finish_drain(&mut runtime.lifecycle, Ok(())).is_ok());
    assert_eq!(runtime.lifecycle().state(), ServiceState::Draining);
    let error = production_ingest_permit(&mut runtime, 10, 0).expect_err("draining");
    assert_eq!(error.status, ApiStatus::Unavailable);
    assert_eq!(
        readiness(runtime.lifecycle().state(), &healthy),
        (false, "draining: ready\n".to_owned())
    );
    let report = store_report(false, &StoreMetrics::default()) + &runtime_report(&runtime);
    assert!(report.contains("shard_log_ready 0\n"));
    assert!(report.contains("shard_log_authentication_failures_total 1\n"));
    assert!(report.contains("shard_log_ingest_records_total 1\n"));
    let counters = runtime.metrics();
    assert_eq!(counters.authentication_failures, 1);
    assert_eq!(counters.ingest_records, 1);
    assert_eq!(runtime.admission_in_flight(), (0, 0, 0, 0, 0));
}

#[test]
fn admission_distinguishes_queries() {
    let mut runtime = runtime();
    let bearer = some("0123456789abcdef");
    assert!(matches!(
        production_gate(&mut runtime, "/metrics", &None, &None),
        GateDecision::Open
    ));
    let closed = production_gate(&mut runtime, "/loki/api/v1/query_range", &bearer, &None);
    assert!(matches!(closed, GateDecision::Refused(error) if error.status.code() == 503));
    runtime.lifecycle.mark_ready();
    for _ in 0..4 {
        assert!(matches!(
            production_gate(&mut runtime, "/loki/api/v1/labels", &bearer, &None),
            GateDecision::Query
        ));
    }
    let full = production_gate(&mut runtime, "/api/prom/query", &bearer, &None);
    assert!(matches!(full, GateDecision::Refused(error) if error.status.code() == 429));
    assert_eq!(runtime.admission_in_flight(), (4, 0, 4, 0, 0));
    leave_gate(&mut runtime, &GateDecision::Query);
    assert_eq!(runtime.admission_in_flight(), (3, 0, 3, 0, 0));
    assert!(tail_permit(&mut runtime).is_ok());
    assert!(tail_permit(&mut runtime).is_ok());
    assert!(tail_permit(&mut runtime).is_err());
}

#[test]
fn tails_show_what_they_select() {
    let selector = parse_log_query(r#"{app="api"} |= "keep""#).expect("query");
    let push = |tenant: &str, deletes| TailEvent::Push {
        tenant: tenant.to_owned(),
        entries: vec![
            entry(1, &[("app", "api")], "keep this"),
            entry(2, &[("app", "api")], "drop this"),
        ],
        deletes,
    };
    let none = || Some(Vec::new());
    match tail_step("a", &selector, &push("a", none())) {
        TailAction::Send(streams) => {
            assert_eq!(streams.len(), 1);
            assert_eq!(streams[0].values, vec![(1, "keep this".to_owned())]);
        }
        other => panic!("unexpected {other:?}"),
    }
    assert!(matches!(tail_step("a", &selector, &push("b", none())), TailAction::Wait));
    assert!(matches!(tail_step("a", &selector, &push("a", None)), TailAction::Stop));
    assert!(matches!(tail_step("a", &selector, &TailEvent::Lagged(3)), TailAction::Dropped(3)));
    assert!(matches!(tail_step("a", &selector, &TailEvent::Shutdown), TailAction::Stop));
    assert!(matches!(tail_step("a", &selector, &TailEvent::Closed), TailAction::Stop));
    let hide = Some(vec![DeleteRequest {
        request_id: "1".to_owned(),
        start_time: 0,
        end_time: 10,
        query: "{}".to_owned(),
        status: "received".to_owned(),
        created_at: 0,
    }]);
    assert!(matches!(tail_step("a", &selector, &push("a", hide)), TailAction::Wait));
}

#[test]
fn levels_and_services_are_found() {
    assert_eq!(detected_level(&map(&[("severity", "ERROR")]), "info"), "error");
    assert_eq!(detected_level(&LabelMap::new(), "a WARN b"), "warn");
    assert_eq!(detected_level(&LabelMap::new(), "warning"), "unknown");
    let labels = normalize_stream_labels(map(&[("job", "j"), ("container", "c")]));
    assert_eq!(labels.get("service_name").map(String::as_str), Some("c"));
    assert_eq!(normalize_otlp_name("http.status-code"), "http_status_code");
    let entry = otlp_entry(&OtlpLogEvent {
        timestamp_unix_nanos: u64::MAX,
        message: "m".to_owned(),
        fields: vec![
            MetadataField::new("service.name".to_owned(), "s".to_owned()),
            MetadataField::new("a.b".to_owned(), "c".to_owned()),
        ],
        compression_cohort: CompressionCohortId(1),
    });
    assert_eq!(entry.timestamp_unix_nanos, i64::MAX);
    assert_eq!(entry.labels, map(&[("service_name", "s")]));
    assert_eq!(entry.structured_metadata, map(&[("a_b", "c")]));
}

#[test]
fn streams_are_sorted_by_labels() {
    let streams = group_streams(&vec![
        entry(1, &[("app", "b"), ("level", "info")], "x"),
        entry(2, &[("app", "a"), ("level", "info")], "y"),
        entry(3, &[("app", "b"), ("level", "info")], "z"),
    ]);
    assert_eq!(streams.len(), 2);
    assert_eq!(streams[0].values, vec![(2, "y".to_owned())]);
    assert_eq!(streams[1].values, vec![(1, "x".to_owned()), (3, "z".to_owned())]);
}

#[test]
fn detected_fields_are_limited() {
    let mut first = entry(1, &[("app", "api")], r#"{"status":500}"#);
    first.structured_metadata = map(&[("trace", "t")]);
    let entries = vec![first, entry(2, &[("app", "api")], "status=200 'x'= y='z',")];
    let selection = plan_selection(&params(None, "1", "300"), 0).expect("plan");
    let fields = detected_fields(&selection, 100, 1_000, &entries);
    assert_eq!(
        fields.iter().map(|field| field.name.as_str()).collect::<Vec<_>>(),
        vec!["status", "trace", "y"]
    );
    assert_eq!(fields[0].values, vec!["200", "500"]);
    assert_eq!(parser_names(&fields[0]), vec!["json", "logfmt"]);
    assert!(parser_names(&fields[1]).is_empty());
    assert_eq!(fields[2].values, vec!["z"]);
    assert_eq!(detected_fields(&selection, 1, 1_000, &entries).len(), 2);
    assert_eq!(detected_fields(&selection, 100, 1, &entries).len(), 1);
}

#[test]
fn label_sets_are_written_and_read() {
    let labels = map(&[("app", "a\"b"), ("env", "prod")]);
    let written = format_label_set(&labels);
    assert_eq!(written, r#"{app="a\"b",env="prod"}"#);
    assert_eq!(parse_label_set(&written).expect("label set"), labels);
    assert!(plan_label_values("1x", &range("1", "2"), 0).is_err());
    assert_eq!(plan_label_values("x", &range("1", "2"), 0).expect("span"), (1, 2));
    let parameters = vec![("start".to_owned(), "1".to_owned()), ("start".to_owned(), "2".to_owned())];
    assert_eq!(find_parameter(&parameters, "start"), some("1"));
    assert_eq!(find_parameter(&parameters, "end"), None);
}

#[test]
fn headers_decide_tenant_and_form() {
    let config = LokiApiConfig::default();
    assert_eq!(tenant(&None, &config), "fake");
    assert_eq!(tenant(&some(""), &config), "fake");
    assert_eq!(tenant(&some("t"), &config), "t");
    assert!(is_json_push(&some("application/json; charset=utf-8")));
    assert!(!is_json_push(&some("application/x-protobuf")));
    assert!(!is_json_push(&None));
    assert!(authorized_bearer(&some("Bearer secret"), "secret"));
    assert!(!authorized_bearer(&some("Bearer Secret"), "secret"));
    assert!(!authorized_bearer(&some("secret"), "secret"));
    let error = LokiApiError::backend_unavailable("down");
    assert_eq!(error.status.code(), 503);
    assert_eq!(error.status.error_type(), "unavailable");
}

#[test]
fn routes_need_a_token_and_a_flush_timeout_that_are_not_empty() {
    assert_eq!(analytics_token(" secret\n"), some("secret"));
    assert_eq!(analytics_token(" \t\n"), None);
    assert_eq!(check_routes(&None, 1), Ok(()));
    assert_eq!(check_routes(&some("secret"), 1), Ok(()));
    let empty = check_routes(&some(""), 1).expect_err("empty token");
    assert_eq!(empty.status, ApiStatus::Internal);
    assert_eq!(empty.message, "ClickHouse bearer token must not be empty");
    let idle = check_routes(&some(""), 0).expect_err("zero timeout");
    assert_eq!(idle.message, "production flush timeout must be nonzero");
}

#[test]
fn pushed_entries_stay_sorted_by_time() {
    let mut store = LokiApiStore::default();
    store.push("a", vec![entry(30, &[("app", "x")], "late"), entry(10, &[("app", "x")], "first")]);
    store.push("b", vec![entry(5, &[("app", "y")], "other")]);
    store.push("a", vec![entry(20, &[("app", "x")], "middle"), entry(10, &[], "second")]);
    let lines = |tenant: &str| {
        let entries = store.entries(tenant).expect("entries are visible");
        entries.into_iter().map(|item| item.line).collect::<Vec<_>>()
    };
    assert_eq!(lines("a"), vec!["first", "second", "middle", "late"]);
    assert_eq!(lines("b"), vec!["other"]);
}
