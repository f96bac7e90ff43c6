use shard_log::durable_query::{query_native, scan_analytics, tenant_entries};
use shard_log::durable_store::{
    append_acknowledgement, append_checkpoint, check_native_batch, flush_step, log_match_to_entry,
    retained_query_start, retention_cutoff, sink_health, unindexed_append, AppendPlace, FlushStep,
    RetentionCounters, RetentionScan, ScannedBatch,
};
use shard_log::loki_delete::DeleteCatalog;
use shard_log::text::normalize_term;
use shard_log::{
    decode_native_log_events, encode_native_log_batch, AnalyticsLogRow, AnalyticsScanRequest,
    ApiStatus, CompressionCohortId, DurableLogRecord, DurableLokiConfig, LabelMap, LogicalOffset,
    LogicalPartitionId, LokiEntry, MetadataField, NativeQuery, NativeQueryDirection, RecordRef,
    RetentionReport, ShardId, ShardLogDb, StoreMetrics, StripeConfig, TenantRouting, TopicId,
    TopicPartition,
};

fn map(pairs: &[(&str, &str)]) -> LabelMap {
    LabelMap::from_pairs(
        pairs.iter().map(|(key, value)| (key.to_string(), value.to_string())).collect(),
    )
}

fn entry(timestamp: i64, line: &str, metadata: &[(&str, &str)]) -> LokiEntry {
    LokiEntry {
        timestamp_unix_nanos: timestamp,
        labels: map(&[("app", "api")]),
        line: line.to_owned(),
        structured_metadata: map(metadata),
    }
}

fn config(shards: u32, partitions: u32) -> DurableLokiConfig {
    DurableLokiConfig {
        data_directory: "data".to_owned(),
        object_store_directory: None,
        recovery_journal: false,
        retention_nanos: None,
        shard_count: shards,
        tenant_partitions: partitions,
        append_linger_nanos: 250_000,
        stripe: StripeConfig::default(),
        indexed_ack_timeout_nanos: 30_000_000_000,
    }
}

fn terms(message: &str) -> Vec<String> {
    message
        .split(|character: char| !character.is_alphanumeric())
        .filter(|term| !term.is_empty())
        .map(normalize_term)
        .collect()
}

struct Store {
    routing: TenantRouting,
    database: ShardLogDb,
    next: Vec<u64>,
    requests: u64,
}

impl Store {
    fn open(config: &DurableLokiConfig) -> Self {
        config.validate().expect("valid configuration");
        let shards: Vec<ShardId> = (0..config.shard_count).map(ShardId).collect();
        Store {
            routing: config.routing(),
            database: ShardLogDb::new(&shards).expect("stripes"),
            next: vec![0; config.tenant_partitions as usize],
            requests: 0,
        }
    }

    fn push(&mut self, tenant: &str, entries: Vec<LokiEntry>) {
        let batch = encode_native_log_batch(tenant, entries).expect("native batch");
        let (owner, events) = decode_native_log_events(&batch).expect("events");
        assert_eq!(owner, tenant);
        let partition = self.routing.write_partition(tenant, self.requests);
        self.requests += 1;
        assert!(self.routing.tenant_partitions(tenant).contains(&partition));
        let place = partition.partition_id.0 as usize;
        for event in events {
            let words = terms(&event.message);
            let shards = self.routing.ingest_stripes as usize;
            let record = DurableLogRecord {
                stream_shard_id: ShardId((place % shards) as u32),
                record_ref: RecordRef {
                    topic_partition: partition,
                    offset: LogicalOffset(self.next[place]),
                },
                timestamp_unix_nanos: event.timestamp_unix_nanos,
                message: event.message,
                fields: event.fields,
                compression_cohort: event.compression_cohort,
            };
            self.next[place] += 1;
            self.database.apply_durable(record, &words).expect("record indexes");
        }
    }
}

fn native(tenant: &str, labels: LabelMap, term: &str) -> NativeQuery {
    NativeQuery {
        tenant: tenant.to_owned(),
        labels,
        terms: vec![term.to_owned()],
        start_timestamp_unix_nanos: None,
        end_timestamp_unix_nanos: None,
        limit: 10,
        direction: NativeQueryDirection::OldestFirst,
    }
}

fn rows(outcome: shard_log::durable_query::ScanOutcome) -> Vec<AnalyticsLogRow> {
    assert!(outcome.error.is_none());
    outcome.batches.into_iter().flatten().collect()
}

#[test]
fn durable_store_acknowledges_and_queries_the_same_stripe_owned_record() {
    let mut store = Store::open(&config(2, 8));
    for timestamp in 100..103 {
        store.push(
            "tenant-a",
            vec![entry(
                timestamp,
                &format!("durable message {timestamp}"),
                &[("trace_id", &format!("abc-{timestamp}"))],
            )],
        );
    }
    let entries = tenant_entries(&store.database, &store.routing, "tenant-a", &Vec::new(), None)
        .expect("query");
    assert_eq!(entries.len(), 3);
    assert_eq!(entries[0].line, "durable message 100");
    assert_eq!(entries[0].labels.get("app").map(String::as_str), Some("api"));
    assert_eq!(
        entries[0].structured_metadata.get("trace_id").map(String::as_str),
        Some("abc-100")
    );
    assert_eq!(entries[2].line, "durable message 102");
    assert!(tenant_entries(&store.database, &store.routing, "tenant-b", &Vec::new(), None)
        .expect("query")
        .is_empty());
}

#[test]
fn logical_deletes_survive_restart_and_filter_native_and_analytical_reads() {
    let mut store = Store::open(&config(2, 8));
    store.push(
        "tenant-a",
        (100..103)
            .map(|timestamp| entry(timestamp, &format!("durable message {timestamp}"), &[]))
            .collect(),
    );
    let mut catalog = DeleteCatalog::new();
    let request_id = catalog
        .create("tenant-a", 1, 200, "{app=\"api\"} |= \"101\"".to_owned(), 1_000)
        .expect("create delete");
    assert_eq!(request_id, "0000000000000001");
    let deletes = catalog.list("tenant-a");
    let visible = tenant_entries(&store.database, &store.routing, "tenant-a", &deletes, None)
        .expect("entries");
    assert_eq!(
        visible.iter().map(|entry| entry.timestamp_unix_nanos).collect::<Vec<_>>(),
        vec![100, 102]
    );
    let found = query_native(
        &store.database,
        &store.routing,
        &native("tenant-a", map(&[("app", "api")]), "message"),
        &deletes,
        None,
    )
    .expect("native query");
    assert_eq!(found.len(), 2);
    assert!(found.iter().all(|entry| !entry.line.ends_with("101")));
    let scanned = rows(scan_analytics(
        &store.database,
        &store.routing,
        &AnalyticsScanRequest::new("tenant-a".to_owned()),
        &deletes,
        None,
    ));
    assert_eq!(scanned.len(), 2);
    assert!(scanned.iter().all(|row| !row.message.ends_with("101")));

    let mut recovered = DeleteCatalog::new();
    recovered.replace_tenant("tenant-a", deletes);
    assert_eq!(recovered.list("tenant-a").len(), 1);
    assert!(recovered.cancel("tenant-a", &request_id));
    let all = tenant_entries(
        &store.database,
        &store.routing,
        "tenant-a",
        &recovered.list("tenant-a"),
        None,
    )
    .expect("entries");
    assert_eq!(all.len(), 3);
}

#[test]
fn retention_cutoff_is_enforced_by_loki_native_and_analytical_reads() {
    let now = 1_700_000_000_000_000_000i64;
    let mut settings = config(1, 1);
    settings.recovery_journal = true;
    settings.retention_nanos = Some(60_000_000_000);
    let mut store = Store::open(&settings);
    store.push("tenant-a", vec![entry(now - 120_000_000_000, "expired message", &[])]);
    store.push("tenant-a", vec![entry(now, "retained message", &[])]);
    let cutoff = retention_cutoff(settings.retention_nanos, now as u128);
    assert_eq!(cutoff, Some(1_699_999_940_000_000_000));
    let entries = tenant_entries(&store.database, &store.routing, "tenant-a", &Vec::new(), cutoff)
        .expect("Loki query");
    assert_eq!(entries.len(), 1);
    assert_eq!(entries[0].line, "retained message");
    let found = query_native(
        &store.database,
        &store.routing,
        &native("tenant-a", LabelMap::new(), "message"),
        &Vec::new(),
        cutoff,
    )
    .expect("native query");
    assert_eq!(found.len(), 1);
    assert_eq!(found[0].line, "retained message");
    let scanned = rows(scan_analytics(
        &store.database,
        &store.routing,
        &AnalyticsScanRequest::new("tenant-a".to_owned()),
        &Vec::new(),
        cutoff,
    ));
    assert_eq!(scanned.len(), 1);
    assert_eq!(scanned[0].message, "retained message");

    let mut scan = RetentionScan::new(cutoff.expect("cutoff"), 0, 2);
    assert_eq!(scan.next_read(), Some(0));
    scan.accept(&vec![
        ScannedBatch { last_offset: 0, timestamps: vec![(now - 120_000_000_000) as u64] },
        ScannedBatch { last_offset: 1, timestamps: vec![now as u64] },
    ])
    .expect("scan");
    assert_eq!(scan.next_read(), None);
    let empty = RetentionReport {
        cutoff_timestamp_unix_nanos: cutoff.expect("cutoff"),
        advanced_partitions: 0,
        advanced_offsets: 0,
    };
    let (start, report) = scan.finish(empty);
    assert_eq!(start, Some(1));
    assert_eq!(report.advanced_partitions, 1);
    assert_eq!(report.advanced_offsets, 1);
    let mut counters = RetentionCounters::new();
    counters.record(&Ok(report));
    assert_eq!((counters.runs, counters.advanced_offsets, counters.failures), (1, 1, 0));
}

#[test]
fn durable_analytics_scan_pushes_indexable_constraints_into_stripes() {
    let mut store = Store::open(&config(2, 8));
    store.push(
        "tenant-a",
        vec![
            entry(100, "request completed", &[("code", "200")]),
            entry(200, "request ERROR", &[("code", "500")]),
        ],
    );
    let mut request = AnalyticsScanRequest::new("tenant-a".to_owned());
    request.start_timestamp_unix_nanos = Some(150);
    request.end_timestamp_unix_nanos = Some(250);
    request.terms.push("error".to_owned());
    request.labels.push(MetadataField::new("app".to_owned(), "api".to_owned()));
    request.metadata.push(MetadataField::new("code".to_owned(), "500".to_owned()));
    let scanned =
        rows(scan_analytics(&store.database, &store.routing, &request, &Vec::new(), None));
    assert_eq!(scanned.len(), 1);
    assert_eq!(scanned[0].timestamp_unix_nanos, 200);
    assert_eq!(scanned[0].message, "request ERROR");
    assert_eq!(scanned[0].labels.get("app").map(String::as_str), Some("api"));
    assert_eq!(scanned[0].metadata.get("code").map(String::as_str), Some("500"));
}

#[test]
fn tenants_own_disjoint_stripe_ranges() {
    let routing = TenantRouting::attach(8, 2, 1, None).expect("routing");
    for tenant in ["tenant-a", "tenant-b", ""] {
        let base = routing.tenant_partition_base(tenant);
        assert_eq!(base % 2, 0);
        assert!(base + 2 <= 8);
        let ids: Vec<u32> = routing
            .tenant_partitions(tenant)
            .iter()
            .map(|partition| partition.partition_id.0)
            .collect();
        assert_eq!(ids, vec![base, base + 1]);
        assert_eq!(routing.write_partition(tenant, 5).partition_id.0, base + 1);
    }
    assert!(TenantRouting::attach(0, 1, 1, None).is_err());
    assert!(TenantRouting::attach(1, 0, 1, None).is_err());
    assert!(TenantRouting::attach(1, 1, 0, None).is_err());
    assert!(TenantRouting::attach(1, 1, 1, Some(0)).is_err());
}

#[test]
fn configurations_are_tested() {
    let message = |settings: DurableLokiConfig| settings.validate().expect_err("refused").message;
    assert_eq!(message(config(0, 1)), "shard_count must be nonzero");
    assert_eq!(message(config(1, 0)), "tenant_partitions must be nonzero");
    let mut settings = config(1, 1);
    settings.indexed_ack_timeout_nanos = 0;
    assert_eq!(message(settings), "indexed_ack_timeout must be nonzero");
    let mut settings = config(1, 1);
    settings.retention_nanos = Some(0);
    assert_eq!(message(settings), "retention must be nonzero when configured");
    let mut settings = config(1, 1);
    settings.retention_nanos = Some(1);
    assert!(message(settings).starts_with("retention currently requires recovery_journal"));
}

#[test]
fn cutoffs_bound_query_starts() {
    assert_eq!(retention_cutoff(None, 10), None);
    assert_eq!(retention_cutoff(Some(20), 10), Some(0));
    assert_eq!(retention_cutoff(Some(1), u128::MAX), Some(u64::MAX));
    assert_eq!(retained_query_start(None, Some(5)), Some(5));
    assert_eq!(retained_query_start(Some(7), Some(5)), Some(7));
    assert_eq!(retained_query_start(Some(3), Some(5)), Some(5));
    assert_eq!(retained_query_start(Some(3), None), Some(3));
    assert_eq!(retained_query_start(None, None), None);
}

#[test]
fn retention_stops_at_the_first_retained_batch() {
    let mut scan = RetentionScan::new(100, 4, 20);
    scan.accept(&vec![ScannedBatch { last_offset: 6, timestamps: vec![1, 2, 3] }]).expect("scan");
    assert_eq!(scan.next_read(), Some(7));
    scan.accept(&vec![
        ScannedBatch { last_offset: 8, timestamps: vec![5, 100] },
        ScannedBatch { last_offset: 9, timestamps: vec![1] },
    ])
    .expect("scan");
    assert_eq!(scan.next_read(), None);
    assert_eq!(scan.retained_start, 7);
    let mut failing = RetentionScan::new(100, 4, 20);
    let error = failing
        .accept(&vec![
            ScannedBatch { last_offset: 6, timestamps: vec![1] },
            ScannedBatch { last_offset: u64::MAX, timestamps: vec![1] },
        ])
        .expect_err("offsets run out");
    assert_eq!(error.message, "retention offset exhausted");
    assert_eq!(failing.next_read(), Some(4));
    let mut empty = RetentionScan::new(100, 4, 20);
    empty.accept(&Vec::new()).expect("scan");
    assert_eq!(empty.next_read(), None);
    let report = RetentionReport {
        cutoff_timestamp_unix_nanos: 100,
        advanced_partitions: 2,
        advanced_offsets: 3,
    };
    assert_eq!(empty.finish(report), (None, report));
    let mut counters = RetentionCounters::new();
    counters.record(&Err(shard_log::LokiApiError::internal("broken")));
    assert_eq!((counters.runs, counters.advanced_offsets, counters.failures), (1, 0, 1));
}

#[test]
fn appends_are_acknowledged_with_their_place() {
    let partition =
        TopicPartition { topic_id: TopicId(1), partition_id: LogicalPartitionId(3) };
    let place = AppendPlace { placement_sequence: 4, first_offset: 10, last_offset: 12 };
    let ack = append_acknowledgement(partition, place);
    assert_eq!((ack.partition_id, ack.first_offset, ack.last_offset), (3, 10, 12));
    let checkpoint = append_checkpoint(partition, place).expect("checkpoint");
    assert_eq!((checkpoint.next_placement_sequence, checkpoint.next_offset), (5, 13));
    let last = AppendPlace { placement_sequence: u64::MAX, first_offset: 0, last_offset: 0 };
    assert!(append_checkpoint(partition, last).is_err());
    let last = AppendPlace { placement_sequence: 0, first_offset: 0, last_offset: u64::MAX };
    assert!(append_checkpoint(partition, last).is_err());
    let error = unindexed_append(partition, place, "late", Some(11), &StoreMetrics::default());
    assert_eq!(
        error.message,
        "failed waiting for indexed partition 3 through offset 12: late; checkpoint is 11, pending items 0, pending bytes 0, applied 0, retries 0, failures 0, dirty partitions 0"
    );
    let error = unindexed_append(partition, place, "late", None, &StoreMetrics::default());
    assert_eq!(error.message, "durable sink has no checkpoint");
    assert!(check_native_batch("a", 1, None).is_ok());
    assert_eq!(
        check_native_batch("a", 1, Some("b")).expect_err("tenant").status,
        ApiStatus::Forbidden
    );
    assert_eq!(check_native_batch("a", 0, Some("a")).expect_err("empty").status, ApiStatus::BadRequest);
}

#[test]
fn health_and_flush_follow_the_counters() {
    let mut metrics = StoreMetrics::default();
    assert!(sink_health(&metrics, 1_000_000).ready);
    assert!(matches!(flush_step(&metrics, true), FlushStep::Done));
    metrics.pending_items = 1;
    metrics.checkpoint_age_ms = 2;
    let health = sink_health(&metrics, 1_000_000);
    assert_eq!(
        (health.ready, health.detail.as_str()),
        (false, "oldest pending index checkpoint is 2 ms old")
    );
    assert!(matches!(flush_step(&metrics, false), FlushStep::Wait));
    match flush_step(&metrics, true) {
        FlushStep::Failed(error) => {
            assert_eq!(error.message, "flush timed out with 1 pending items and 0 pending bytes");
            assert_eq!(error.status, ApiStatus::Unavailable);
        }
        other => panic!("unexpected {other:?}"),
    }
    metrics.dirty_partitions = 2;
    assert_eq!(
        sink_health(&metrics, 1_000_000).detail,
        "2 durable sink partitions require recovery"
    );
    match flush_step(&metrics, false) {
        FlushStep::Failed(error) => {
            assert_eq!(error.message, "flush stopped with 2 dirty partitions");
            assert_eq!(error.status, ApiStatus::Internal);
        }
        other => panic!("unexpected {other:?}"),
    }
}

#[test]
fn late_records_cannot_be_read() {
    let record = DurableLogRecord {
        stream_shard_id: ShardId(0),
        record_ref: RecordRef {
            topic_partition: TopicPartition {
                topic_id: TopicId(1),
                partition_id: LogicalPartitionId(0),
            },
            offset: LogicalOffset(0),
        },
        timestamp_unix_nanos: 1 << 63,
        message: "m".to_owned(),
        fields: Vec::new(),
        compression_cohort: CompressionCohortId(0),
    };
    assert_eq!(
        log_match_to_entry(&record).expect_err("range").message,
        "timestamp exceeds Loki i64 range"
    );
}
