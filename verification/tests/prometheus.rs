use shard_log::prometheus::{
    authorize, check_scope, check_write_length, decompress_write, negotiate_write,
    validate_version_header, write_permit, written_headers, RemoteWriteStats, RemoteWriteVersion,
    WriteHeaders, WriteStatus,
};
use shard_log::remote_write::{RemoteWrite, WriteNext, WriteRequest, WriteStage};
use shard_log::{
    ProductionRuntime, PrometheusApiConfig, ServiceLifecycle, SingleTenantConfig,
};

fn some(value: &str) -> Option<String> {
    Some(value.to_owned())
}

fn runtime() -> ProductionRuntime {
    ProductionRuntime::new(
        SingleTenantConfig {
            tenant: "tenant-a".to_owned(),
            bearer_token: "0123456789abcdef".to_owned(),
            max_http_in_flight: 1,
            max_ingest_in_flight: 1,
            max_query_in_flight: 1,
            ingest_bytes_per_second: 0,
            ingest_burst_bytes: 0,
            max_tail_subscribers: 1,
            max_native_connections: 1,
            query_timeout_nanos: 30_000_000_000,
            native_auth_timeout_nanos: 5_000_000_000,
        },
        ServiceLifecycle::new(),
    )
    .ok()
    .expect("valid production runtime")
}

#[test]
fn version_header_must_match_negotiated_schema() {
    let headers = some("2.0.0");
    assert!(validate_version_header(&headers, RemoteWriteVersion::V2).is_ok());
    assert!(validate_version_header(&headers, RemoteWriteVersion::V1).is_err());
}

#[test]
fn success_reports_all_required_written_headers() {
    let headers = written_headers(RemoteWriteStats { samples: 3, histograms: 2, exemplars: 1 });
    assert_eq!(
        headers,
        vec![
            ("x-prometheus-remote-write-samples-written", "3".to_owned()),
            ("x-prometheus-remote-write-histograms-written", "2".to_owned()),
            ("x-prometheus-remote-write-exemplars-written", "1".to_owned()),
        ]
    );
    assert_eq!(RemoteWriteStats { samples: 3, histograms: 2, exemplars: 1 }.records(), 5);
    let most = RemoteWriteStats { samples: u64::MAX, histograms: 2, exemplars: 1 };
    assert_eq!(most.records(), u64::MAX);
}

#[test]
fn early_versions_are_the_first_schema() {
    for (observed, first, second) in
        [("0.1.0", true, false), ("1.2", true, false), ("2.", false, true), ("3.0", false, false)]
    {
        let headers = some(observed);
        assert_eq!(validate_version_header(&headers, RemoteWriteVersion::V1).is_ok(), first);
        assert_eq!(validate_version_header(&headers, RemoteWriteVersion::V2).is_ok(), second);
    }
    let error = validate_version_header(&None, RemoteWriteVersion::V1).expect_err("missing");
    assert_eq!(error.message, "missing X-Prometheus-Remote-Write-Version");
}

#[test]
fn writes_are_negotiated() {
    let config = PrometheusApiConfig::default();
    assert!(config.validate().is_ok());
    let mut headers = WriteHeaders {
        content_encoding: some("SNAPPY"),
        schema: Some(Ok(RemoteWriteVersion::V2)),
        version: some("2.0.0"),
    };
    assert_eq!(negotiate_write(&config, 10, &headers).ok(), Some(RemoteWriteVersion::V2));
    let status = |bytes, headers: &WriteHeaders| {
        negotiate_write(&config, bytes, headers).expect_err("refused").status
    };
    assert_eq!(status(64 * 1024 * 1024 + 1, &headers), WriteStatus::PayloadTooLarge);
    headers.version = some("1.0");
    assert_eq!(status(1, &headers), WriteStatus::BadRequest);
    headers.schema = Some(Err("unknown schema".to_owned()));
    assert_eq!(status(1, &headers), WriteStatus::UnsupportedMediaType);
    headers.schema = None;
    assert_eq!(status(1, &headers), WriteStatus::UnsupportedMediaType);
    headers.content_encoding = some("gzip");
    assert_eq!(status(1, &headers), WriteStatus::UnsupportedMediaType);
    assert_eq!(WriteStatus::UnsupportedMediaType.code(), 415);
    assert_eq!(WriteStatus::PayloadTooLarge.code(), 413);
}

#[test]
fn write_bodies_are_decompressed_within_the_limit() {
    let mut config = PrometheusApiConfig::default();
    let compressed = snap::raw::Encoder::new().compress_vec(&[7; 100]).expect("Snappy encoding");
    assert_eq!(decompress_write(&config, &compressed).expect("body"), vec![7; 100]);
    config.max_request_bytes = 99;
    let error = decompress_write(&config, &compressed).expect_err("too large");
    assert_eq!(error.status, WriteStatus::PayloadTooLarge);
    let error = decompress_write(&config, b"\xff\xff\xff\xff\xff\xff").expect_err("broken");
    assert_eq!(error.status, WriteStatus::BadRequest);
    assert_eq!(check_write_length(&config, Ok(99)).ok(), Some(99));
    assert!(check_write_length(&config, Ok(100)).is_err());
    assert!(check_write_length(&config, Err("broken".to_owned())).is_err());
}

#[test]
fn writes_need_a_tenant_a_token_and_a_permit() {
    let config = PrometheusApiConfig::default();
    assert!(check_scope(&config, &None).is_ok());
    assert!(check_scope(&config, &some("default")).is_ok());
    let error = check_scope(&config, &some("other")).expect_err("tenant");
    assert_eq!(error.status, WriteStatus::Forbidden);
    let mut runtime = runtime();
    runtime.lifecycle.mark_ready();
    let error = authorize(&mut runtime, &None).expect_err("token");
    assert_eq!(error.status, WriteStatus::Unauthorized);
    assert!(authorize(&mut runtime, &some("0123456789abcdef")).is_ok());
    let error = authorize(&mut runtime, &some("0123456789abcdef")).expect_err("permits");
    assert_eq!(error.status, WriteStatus::TooManyRequests);
    assert!(write_permit(&mut runtime, 10, 0).is_ok());
    let error = write_permit(&mut runtime, 10, 0).expect_err("permits");
    assert_eq!(error.status, WriteStatus::TooManyRequests);
    runtime.lifecycle.begin_draining();
    let error = write_permit(&mut runtime, 10, 0).expect_err("draining");
    assert_eq!(error.status, WriteStatus::Unavailable);
    let mut empty = PrometheusApiConfig::default();
    empty.tenant = String::new();
    assert_eq!(empty.validate(), Err("Prometheus tenant must not be empty"));
    let mut none = PrometheusApiConfig::default();
    none.max_request_bytes = 0;
    assert_eq!(none.validate(), Err("Prometheus request limit must be in 1..=64 MiB"));
}

fn write_request(payload: &[u8]) -> WriteRequest {
    WriteRequest {
        scope: some("default"),
        bearer: some("0123456789abcdef"),
        headers: WriteHeaders {
            content_encoding: some("snappy"),
            schema: Some(Ok(RemoteWriteVersion::V2)),
            version: some("2.0.0"),
        },
        body: snap::raw::Encoder::new().compress_vec(payload).expect("payload compresses"),
    }
}

#[test]
fn writes_are_refused_in_the_order_of_their_tests() {
    let config = PrometheusApiConfig { max_request_bytes: 64, ..PrometheusApiConfig::default() };
    let mut request = write_request(&[7; 65]);
    request.body = vec![0xff; 65];
    request.scope = some("other");
    request.bearer = None;
    request.headers.content_encoding = None;
    request.headers.schema = None;
    request.headers.version = None;
    let status = |request: &WriteRequest| {
        let mut runtime = runtime();
        let mut write = RemoteWrite::new();
        let error = write.receive(&config, Some(&mut runtime), request).expect_err("refused");
        assert_eq!(write.stage, WriteStage::Answered);
        (error.status.code(), error.message)
    };
    let mut seen = vec![status(&request).0];
    request.scope = None;
    seen.push(status(&request).0);
    request.bearer = some("0123456789abcdef");
    seen.push(status(&request).0);
    request.body = vec![0xff; 10];
    seen.push(status(&request).0);
    request.headers.content_encoding = some("Snappy");
    seen.push(status(&request).0);
    request.headers.schema = Some(Err("unknown schema".to_owned()));
    assert_eq!(status(&request), (415, "unknown schema".to_owned()));
    request.headers.schema = Some(Ok(RemoteWriteVersion::V2));
    seen.push(status(&request).0);
    request.headers.version = some("2.0.0");
    seen.push(status(&request).0);
    request.body = write_request(&[7; 65]).body;
    seen.push(status(&request).0);
    request.body = vec![4, 0xff];
    seen.push(status(&request).0);
    assert_eq!(seen, vec![403, 401, 413, 415, 415, 400, 400, 413, 400]);
}

#[test]
fn writes_count_what_they_append_and_give_their_permits_back() {
    let config = PrometheusApiConfig::default();
    let stats = RemoteWriteStats { samples: 3, histograms: 2, exemplars: 1 };
    let mut runtime = runtime();
    let mut write = RemoteWrite::new();
    let (version, payload) = write
        .receive(&config, Some(&mut runtime), &write_request(b"payload"))
        .expect("write is received");
    assert_eq!((version, payload.as_slice()), (RemoteWriteVersion::V2, b"payload".as_slice()));
    let mut second = RemoteWrite::new();
    let busy = second.receive(&config, Some(&mut runtime), &write_request(b"payload"));
    assert_eq!(busy.expect_err("one request at a time").status.code(), 429);
    let unready = write.decode(Some(&mut runtime), Ok((1, stats)), 0).expect_err("not ready");
    assert_eq!(unready.status.code(), 503);
    write.release(&mut runtime);
    assert_eq!(runtime.http.in_flight, 0);

    runtime.lifecycle.mark_ready();
    let mut empty = RemoteWrite::new();
    empty.receive(&config, Some(&mut runtime), &write_request(b"")).expect("write is received");
    assert_eq!(empty.decode(Some(&mut runtime), Ok((0, stats)), 0), Ok(WriteNext::Answer));
    assert_eq!(runtime.ingest.in_flight, 0);
    empty.release(&mut runtime);

    let mut full = RemoteWrite::new();
    full.receive(&config, Some(&mut runtime), &write_request(b"payload")).expect("received");
    assert_eq!(full.decode(Some(&mut runtime), Ok((1, stats)), 0), Ok(WriteNext::Append));
    assert_eq!(runtime.ingest.in_flight, 1);
    assert_eq!(full.append(Some(&mut runtime), true), Some(stats));
    assert_eq!(runtime.metrics.ingest_bytes, 7);
    assert_eq!(runtime.metrics.ingest_records, 5);
    full.release(&mut runtime);
    assert_eq!((runtime.http.in_flight, runtime.ingest.in_flight), (0, 0));

    let mut lone = RemoteWrite::new();
    lone.receive(&config, None, &write_request(b"payload")).expect("received");
    let refused = lone.decode(None, Err("bad batch".to_owned()), 0).expect_err("refused");
    assert_eq!((refused.status.code(), refused.message.as_str()), (400, "bad batch"));
}
