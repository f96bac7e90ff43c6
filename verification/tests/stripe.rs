use opentelemetry_proto::tonic::{
    collector::logs::v1::ExportLogsServiceRequest,
    common::v1::{any_value::Value, AnyValue, KeyValue},
    logs::v1::{LogRecord, ResourceLogs, ScopeLogs},
    resource::v1::Resource,
};
use prost::Message;
use shard_log::active_block::PendingRecord;
use shard_log::compress::zstd_has_level;
use shard_log::error::BlockFault;
use shard_log::frame_install::{FramePosting, InstalledFrame};
use shard_log::frame_query::frame_candidates;
use shard_log::ingest_frames::{
    decompress_frame, indexed_frame, FrameReader, IndexSource, IndexedIngestFrame,
};
use shard_log::ingest_pack::StructuralRecord;
use shard_log::ingest_prepare::{
    group_ingest_events, prepare_grouped_ingest_pack, EncodedBlock,
};
use shard_log::log_stripe::IndexedFrameAppend;
use shard_log::posting::{
    collect_ordered_range, intersect_frame_candidates, intersect_ordinal_runs, HotPostingList,
    OrdinalRun,
};
use shard_log::stripe_query::{
    append_matches_query_bounds, frame_can_improve, frame_matches_query_bounds,
    sort_and_limit_matches,
};
use shard_log::text::{is_white_space, normalize_term};
use shard_log::{
    ActiveBlock, CompressionCohortId, DictionaryCache, DictionaryId, DurableLogRecord, LogDbError,
    LogPredicate, LogQuery, LogStripe, LogicalOffset, LogicalPartitionId, MetadataField,
    OtlpLogDecoder, OtlpLogEvent, QueryCursor, QueryOrder, RecordRef, ShardId, ShardLogDb,
    StripeConfig, TopicId, TopicPartition,
};

fn partition() -> TopicPartition {
    TopicPartition { topic_id: TopicId(9), partition_id: LogicalPartitionId(3) }
}

fn record(offset: u64, message: &str) -> DurableLogRecord {
    record_on(ShardId(7), offset, message)
}

fn record_on(shard: ShardId, offset: u64, message: &str) -> DurableLogRecord {
    DurableLogRecord {
        stream_shard_id: shard,
        record_ref: RecordRef { topic_partition: partition(), offset: LogicalOffset(offset) },
        timestamp_unix_nanos: offset * 10,
        message: message.to_owned(),
        fields: Vec::new(),
        compression_cohort: CompressionCohortId(4),
    }
}

fn with_field(mut record: DurableLogRecord, key: &str, value: &str) -> DurableLogRecord {
    record.fields.push(field(key, value));
    record
}

fn field(key: &str, value: &str) -> MetadataField {
    MetadataField::new(key.to_owned(), value.to_owned())
}

fn terms(message: &str) -> Vec<String> {
    message
        .split(|character: char| !character.is_alphanumeric())
        .filter(|term| !term.is_empty())
        .map(normalize_term)
        .collect()
}

fn apply(stripe: &mut LogStripe, record: DurableLogRecord) -> Result<(), LogDbError> {
    let words = terms(&record.message);
    stripe.apply_durable(record, &words).map(|_| ())
}

fn apply_events(stripe: &mut LogStripe, first: u64, events: Vec<OtlpLogEvent>) -> usize {
    let words: Vec<Vec<String>> = events.iter().map(|event| terms(&event.message)).collect();
    stripe
        .apply_otlp_events(partition(), LogicalOffset(first), events, &words)
        .expect("events index")
        .len()
}

fn offsets(records: &[DurableLogRecord]) -> Vec<u64> {
    records.iter().map(|record| record.record_ref.offset.0).collect()
}

#[test]
fn rebalanced_sub_blocks_merge_in_logical_offset_order() {
    let pending = |offset: u64| PendingRecord {
        record: record(offset, &format!("request id={offset} completed")),
        source_bytes: 10 + offset,
        shape_hash: 1,
        locality_signature: 1,
    };
    let mut even = ActiveBlock::from_records(&vec![pending(4), pending(0), pending(2)], None, 1);
    let odd = ActiveBlock::from_records(&vec![pending(5), pending(1), pending(3)], None, 1);
    even.append_block(odd);
    assert_eq!(
        even.records.iter().map(|item| item.record.record_ref.offset).collect::<Vec<_>>(),
        (0..6).map(LogicalOffset).collect::<Vec<_>>()
    );
    assert_eq!(even.record_count, 6);
    assert_eq!(even.source_bytes, 75);
    assert_eq!(even.first_offset, LogicalOffset(0));
    assert_eq!(even.last_offset, LogicalOffset(5));
    assert_eq!(even.max_timestamp_unix_nanos, 50);
}

#[test]
fn durable_records_become_visible_to_term_and_metadata_queries() {
    let mut database = ShardLogDb::new(&vec![ShardId(7)]).ok().expect("database opens");
    let first = with_field(record(0, "ERROR cannot connect"), "service", "api");
    let words = terms(&first.message);
    database.apply_durable(first, &words).expect("first append indexes");
    let second = with_field(record(1, "error timeout"), "service", "worker");
    let words = terms(&second.message);
    database.apply_durable(second, &words).expect("second append indexes");

    let matches = database
        .query(
            ShardId(7),
            &LogQuery::new(partition()).with_term("error").with_field("service", "api"),
        )
        .expect("query succeeds");
    assert_eq!(matches.len(), 1);
    assert_eq!(matches[0].record_ref.offset, LogicalOffset(0));
    assert_eq!(
        database.stripe(ShardId(7)).expect("stripe exists").indexed_through(partition()),
        Some(LogicalOffset(1))
    );
}

fn ordinals_of(bytes: &[u8]) -> Vec<usize> {
    bytes.chunks(2).map(|pair| usize::from(pair[0]) * 256 + usize::from(pair[1])).collect()
}

/// The index of records: every term and every field with the records that hold it.
fn index_of(records: &[StructuralRecord], words: &[Vec<String>]) -> Vec<FramePosting> {
    let mut index: Vec<FramePosting> = Vec::new();
    let mut add = |key: &str, value: &str, ordinal: u32| {
        let place = index.iter().position(|item| item.key == key && item.value == value);
        let posting = match place {
            Some(place) => &mut index[place],
            None => {
                index.push(FramePosting {
                    key: key.to_owned(),
                    value: value.to_owned(),
                    ordinals: Vec::new(),
                });
                index.last_mut().expect("posting was added")
            }
        };
        if posting.ordinals.last() != Some(&ordinal) {
            posting.ordinals.push(ordinal);
        }
    };
    for (place, record) in records.iter().enumerate() {
        for word in &words[place] {
            add("", word, place as u32);
        }
        for field in &record.fields {
            add(&field.key, &field.value, place as u32);
        }
    }
    index
}

/// Packs events, reads the pack again, with or without its transient pack, and makes the
/// frames of it. A block lists the ordinals of its records.
fn installed(events: &Vec<OtlpLogEvent>, live: bool) -> Vec<InstalledFrame> {
    let count = events.len() as u32;
    let groups = group_ingest_events(events).expect("events group");
    let blocks: Vec<EncodedBlock> = groups
        .iter()
        .map(|group| {
            let bytes: Vec<u8> = group
                .ordinals
                .iter()
                .flat_map(|ordinal| [(ordinal / 256) as u8, (ordinal % 256) as u8])
                .collect();
            EncodedBlock { structural: bytes.clone(), embedded_index: bytes }
        })
        .collect();
    let prepared = prepare_grouped_ingest_pack(count, &groups, &blocks).expect("pack prepares");
    let context = if live { Some(prepared.transient_context.as_slice()) } else { None };
    let mut reader = FrameReader::new(&prepared.payload, context, count).expect("pack opens");
    let mut frames = Vec::new();
    for _ in 0..groups.len() {
        let (group, source) = reader.next_frame().expect("frame reads");
        assert_eq!(live, matches!(source, IndexSource::Live(_)));
        let listed = match source {
            IndexSource::Live(bytes) => ordinals_of(&bytes),
            IndexSource::Block(bytes) => ordinals_of(&bytes),
        };
        let frame =
            indexed_frame(&prepared.payload, &group, listed.len() as u32).expect("frame is made");
        let block = decompress_frame(&frame).expect("frame decompresses");
        assert_eq!(ordinals_of(&block), listed);
        let records: Vec<StructuralRecord> = listed
            .iter()
            .map(|ordinal| StructuralRecord {
                offset: *ordinal as u64,
                timestamp_unix_nanos: events[*ordinal].timestamp_unix_nanos,
                message: events[*ordinal].message.clone(),
                fields: events[*ordinal].fields.clone(),
            })
            .collect();
        let words: Vec<Vec<String>> = records.iter().map(|item| terms(&item.message)).collect();
        let index = index_of(&records, &words);
        frames.push(InstalledFrame { frame, records, terms: words, index });
    }
    reader.finish().expect("pack ends");
    frames
}

fn interleaved_events() -> Vec<OtlpLogEvent> {
    (0..12u64)
        .map(|ordinal| OtlpLogEvent {
            timestamp_unix_nanos: 1_000 + ordinal,
            message: if ordinal % 2 == 0 {
                format!("ERROR request id={ordinal} failed")
            } else {
                format!("INFO request id={ordinal} completed")
            },
            fields: vec![
                field("service", if ordinal % 2 == 0 { "api" } else { "worker" }),
                field("trace", &format!("trace-{ordinal}")),
            ],
            compression_cohort: CompressionCohortId(ordinal % 3),
        })
        .collect()
}

#[test]
fn compressed_frame_queries_preserve_interleaved_offsets_and_full_exactness() {
    let events = interleaved_events();
    let mut live = LogStripe::new(ShardId(7));
    live.apply_indexed_ingest_pack(
        partition(),
        LogicalOffset(50),
        12,
        installed(&events, true),
    )
    .expect("live frame indexes install");
    let mut recovered = LogStripe::new(ShardId(7));
    recovered
        .apply_indexed_ingest_pack(partition(), LogicalOffset(50), 12, installed(&events, false))
        .expect("durable frame indexes recover");
    let queries = [
        LogQuery::new(partition()).with_term("error").with_field("service", "api"),
        LogQuery::new(partition()).with_term("7").with_field("trace", "trace-7"),
        LogQuery::new(partition())
            .with_offset_range(LogicalOffset(53), LogicalOffset(58))
            .sort_by_timestamp()
            .newest_first()
            .with_limit(3),
        LogQuery::new(partition()).with_field("service", "missing"),
    ];
    let expected = [vec![50, 52, 54, 56, 58, 60], vec![57], vec![57, 56, 55], vec![]];
    for (query, expected) in queries.iter().zip(expected) {
        assert_eq!(offsets(&live.query(query)), expected);
        assert_eq!(offsets(&recovered.query(query)), expected);
    }
    assert_eq!(live.indexed_through(partition()), Some(LogicalOffset(61)));
    assert!(live.partitions.is_empty());
}

#[test]
fn compressed_frame_partition_fanout_applies_one_global_timestamp_limit() {
    let other = TopicPartition { topic_id: TopicId(9), partition_id: LogicalPartitionId(4) };
    let mut stripe = LogStripe::new(ShardId(7));
    for (place, groups) in
        [(partition(), [[100u64, 101], [300, 301]]), (other, [[200, 201], [400, 401]])]
    {
        for (batch, times) in groups.into_iter().enumerate() {
            let events: Vec<OtlpLogEvent> = times
                .iter()
                .map(|timestamp| OtlpLogEvent {
                    timestamp_unix_nanos: *timestamp,
                    message: format!("ERROR request {timestamp} failed"),
                    fields: vec![field("service", "api")],
                    compression_cohort: CompressionCohortId(1),
                })
                .collect();
            stripe
                .apply_indexed_ingest_pack(
                    place,
                    LogicalOffset((batch * 2) as u64),
                    2,
                    installed(&events, true),
                )
                .expect("frame append indexes");
        }
    }
    let times = |records: &[DurableLogRecord]| {
        records.iter().map(|record| record.timestamp_unix_nanos).collect::<Vec<_>>()
    };
    let newest: Vec<LogQuery> = [partition(), other]
        .into_iter()
        .map(|place| {
            LogQuery::new(place)
                .with_term("error")
                .sort_by_timestamp()
                .newest_first()
                .with_limit(3)
        })
        .collect();
    assert_eq!(times(&stripe.query_partitions(&newest)), vec![401, 400, 301]);
    let oldest: Vec<LogQuery> = [partition(), other]
        .into_iter()
        .map(|place| LogQuery::new(place).with_term("error").sort_by_timestamp().with_limit(3))
        .collect();
    assert_eq!(times(&stripe.query_partitions(&oldest)), vec![100, 101, 200]);
}

#[test]
fn hot_records_and_frames_share_one_answer() {
    let mut stripe = LogStripe::new(ShardId(7));
    stripe
        .apply_indexed_ingest_pack(
            partition(),
            LogicalOffset(50),
            12,
            installed(&interleaved_events(), true),
        )
        .expect("frames install");
    apply(&mut stripe, record(62, "ERROR hot request failed")).expect("hot record indexes");
    let query = LogQuery::new(partition()).with_term("error").newest_first().with_limit(3);
    assert_eq!(offsets(&stripe.query(&query)), vec![62, 60, 58]);
    let references: Vec<u64> =
        stripe.query_refs(&query).into_iter().map(|reference| reference.offset.0).collect();
    assert_eq!(references, vec![62, 60, 58]);
    let timed = || {
        LogQuery::new(partition()).with_term("error").sort_by_timestamp().with_limit(3)
    };
    assert_eq!(offsets(&stripe.query_partitions(&vec![timed()])), vec![62, 50, 52]);
    let latest = vec![timed().newest_first()];
    assert_eq!(offsets(&stripe.query_partitions(&latest)), vec![60, 58, 56]);
    let turned = LogQuery::new(partition()).with_field("service", "api").with_term("error");
    let straight = LogQuery::new(partition()).with_term("error").with_field("service", "api");
    assert_eq!(offsets(&stripe.query(&turned)), offsets(&stripe.query(&straight)));
    let mut none = LogQuery::new(partition()).with_term("error");
    none.limit = Some(0);
    assert!(stripe.query(&none).is_empty());
    let mut empty = LogQuery::new(partition()).with_term("error");
    empty.start_offset = Some(LogicalOffset(60));
    empty.end_offset = Some(LogicalOffset(60));
    assert!(stripe.query(&empty).is_empty());
}

#[test]
fn frames_that_disagree_are_not_installed() {
    let mut stripe = LogStripe::new(ShardId(7));
    let broken = |change: fn(&mut InstalledFrame)| {
        let mut frames = installed(&interleaved_events(), true);
        change(&mut frames[1]);
        frames
    };
    let cases: Vec<(fn(&mut InstalledFrame), BlockFault)> = vec![
        (|frame| { frame.records.pop(); }, BlockFault::FrameIndexCount),
        (|frame| { frame.terms.pop(); }, BlockFault::FrameIndexCount),
        (|frame| frame.index[0].ordinals = vec![4], BlockFault::FrameIndexCount),
        (|frame| frame.records[0].offset = 12, BlockFault::RecordOrdinal),
        (|frame| frame.records[0].timestamp_unix_nanos = 1, BlockFault::InvalidGroup),
    ];
    for (change, fault) in cases {
        let frames = broken(change);
        assert_eq!(
            stripe.apply_indexed_ingest_pack(partition(), LogicalOffset(50), 12, frames).err(),
            Some(LogDbError::InvalidBlockEncoding(fault))
        );
        assert_eq!(stripe.indexed_through(partition()), None);
    }
    assert!(stripe.query(&LogQuery::new(partition())).is_empty());
}

#[test]
fn homogeneous_event_batches_publish_one_posting_range_per_value() {
    let event = OtlpLogEvent {
        timestamp_unix_nanos: 42,
        message: "repeated request completed".to_owned(),
        fields: vec![field("service", "api")],
        compression_cohort: CompressionCohortId(4),
    };
    let mut stripe = LogStripe::new(ShardId(7));
    assert_eq!(apply_events(&mut stripe, 0, vec![event; 1_024]), 1_024);
    assert_eq!(stripe.indexed_through(partition()), Some(LogicalOffset(1_023)));
    let run = vec![OrdinalRun { first: 0, last: 1_023 }];
    let indexed = &stripe.partitions[0];
    assert_eq!(indexed.terms.list("", "repeated").expect("term is indexed").runs, run);
    assert_eq!(indexed.fields.list("service", "api").expect("field is indexed").runs, run);
    assert_eq!(
        stripe
            .query_refs(
                &LogQuery::new(partition()).with_term("repeated").with_field("service", "api")
            )
            .len(),
        1_024
    );
}

#[test]
fn heterogeneous_event_batches_retain_exact_sparse_postings() {
    let event = |message: &str| OtlpLogEvent {
        timestamp_unix_nanos: 42,
        message: message.to_owned(),
        fields: vec![field("service", "api")],
        compression_cohort: CompressionCohortId(4),
    };
    let mut stripe = LogStripe::new(ShardId(7));
    apply_events(
        &mut stripe,
        0,
        vec![
            event("repeated request completed"),
            event("different request failed"),
            event("repeated request completed"),
        ],
    );
    let indexed = &stripe.partitions[0];
    assert_eq!(
        indexed.terms.list("", "repeated").expect("term is indexed").runs,
        vec![OrdinalRun { first: 0, last: 0 }, OrdinalRun { first: 2, last: 2 }]
    );
    assert_eq!(
        stripe
            .query_refs(&LogQuery::new(partition()).with_term("repeated"))
            .into_iter()
            .map(|reference| reference.offset.0)
            .collect::<Vec<_>>(),
        vec![0, 2]
    );
}

#[test]
fn database_fanout_merges_selected_stripes_without_duplicate_results() {
    let mut database =
        ShardLogDb::new(&vec![ShardId(7), ShardId(8)]).ok().expect("database opens");
    for offset in 0..10 {
        let shard = if offset < 5 { ShardId(7) } else { ShardId(8) };
        let item = with_field(
            record_on(shard, offset, &format!("request {offset} completed")),
            "service",
            "api",
        );
        let words = terms(&item.message);
        database.apply_durable(item, &words).expect("record indexes");
    }
    let query = LogQuery::new(partition())
        .with_predicate(LogPredicate::field_exists("service"))
        .newest_first()
        .with_limit(3);
    assert_eq!(offsets(&database.query_all(&query)), vec![9, 8, 7]);
    assert_eq!(
        offsets(
            &database
                .query_stripes(&vec![ShardId(8), ShardId(8), ShardId(7)], &query)
                .expect("selected query succeeds")
        ),
        vec![9, 8, 7]
    );
    assert!(matches!(
        database.query_stripes(&vec![ShardId(99)], &query),
        Err(LogDbError::UnknownStripe(shard)) if shard == ShardId(99)
    ));
}

#[test]
fn query_intersection_is_order_independent_and_offset_sorted() {
    let mut stripe = LogStripe::new(ShardId(7));
    for offset in 0..1_000u64 {
        let mut message = format!("common request_id={offset}");
        if offset % 10 == 0 {
            message.push_str(" medium");
        }
        if offset % 100 == 0 {
            message.push_str(" rare");
        }
        let service = if offset % 20 == 0 { "api" } else { "worker" };
        apply(&mut stripe, with_field(record(offset, &message), "service", service))
            .expect("record indexes");
    }
    let common_first = stripe.query_refs(
        &LogQuery::new(partition())
            .with_term("common")
            .with_term("medium")
            .with_term("rare")
            .with_field("service", "api"),
    );
    let rare_first = stripe.query_refs(
        &LogQuery::new(partition())
            .with_field("service", "api")
            .with_term("rare")
            .with_term("medium")
            .with_term("common"),
    );
    assert_eq!(common_first, rare_first);
    assert_eq!(
        common_first.iter().map(|reference| reference.offset.0).collect::<Vec<_>>(),
        (0..1_000).step_by(100).collect::<Vec<_>>()
    );
}

#[test]
fn query_ranges_order_and_limit_bound_materialized_results() {
    let mut stripe = LogStripe::new(ShardId(7));
    for offset in 0..100u64 {
        apply(&mut stripe, record(offset, "common event")).expect("record indexes");
    }
    let matches = stripe.query(
        &LogQuery::new(partition())
            .with_term("common")
            .with_offset_range(LogicalOffset(20), LogicalOffset(80))
            .with_timestamp_range(300, 700)
            .newest_first()
            .with_limit(3),
    );
    assert_eq!(offsets(&matches), vec![69, 68, 67]);
    assert!(stripe
        .query(
            &LogQuery::new(partition()).with_offset_range(LogicalOffset(5), LogicalOffset(5))
        )
        .is_empty());
    assert!(stripe.query(&LogQuery::new(partition()).with_limit(0)).is_empty());
}

#[test]
fn sorted_posting_intersection_handles_disjoint_and_overlapping_ranges() {
    let mut candidates = vec![1, 3, 4, 8, 10];
    let runs = vec![
        OrdinalRun { first: 0, last: 0 },
        OrdinalRun { first: 3, last: 5 },
        OrdinalRun { first: 10, last: 10 },
        OrdinalRun { first: 12, last: 12 },
    ];
    intersect_ordinal_runs(&mut candidates, &runs, 0, u32::MAX);
    assert_eq!(candidates, [3, 4, 10]);
    intersect_ordinal_runs(&mut candidates, &vec![OrdinalRun { first: 20, last: 20 }], 0, u32::MAX);
    assert!(candidates.is_empty());
}

#[test]
fn skewed_posting_intersection_preserves_sparse_matches() {
    let mut candidates = vec![0, 1_000, 50_000, 99_999];
    let runs = vec![OrdinalRun { first: 0, last: 99_999 }];
    intersect_ordinal_runs(&mut candidates, &runs, 0, 100_000);
    assert_eq!(candidates, [0, 1_000, 50_000, 99_999]);

    let mut candidates = vec![0, 1_001, 50_000, 99_998];
    let runs = (0..100_000)
        .step_by(1_000)
        .map(|ordinal| OrdinalRun { first: ordinal, last: ordinal })
        .collect::<Vec<_>>();
    intersect_ordinal_runs(&mut candidates, &runs, 0, 100_000);
    assert_eq!(candidates, [0, 50_000]);
}

#[test]
fn lane_global_offset_gaps_are_accepted_but_regressions_are_rejected() {
    let mut stripe = LogStripe::new(ShardId(7));
    apply(&mut stripe, record(5, "first")).expect("first append");
    apply(&mut stripe, record(7, "lane gap"))
        .expect("offsets occupied by sibling lane partitions may be skipped");
    let error =
        apply(&mut stripe, record(6, "regressed")).expect_err("offset regression is rejected");
    assert_eq!(
        error,
        LogDbError::OffsetOutOfOrder {
            partition: partition(),
            expected: LogicalOffset(8),
            observed: LogicalOffset(6),
        }
    );
    assert_eq!(stripe.indexed_through(partition()), Some(LogicalOffset(7)));
}

#[test]
fn dictionary_cache_refreshes_lru_before_eviction() {
    let mut cache = DictionaryCache::new(4).ok().expect("cache opens");
    cache.insert(DictionaryId(1), b"aa".to_vec()).expect("first dictionary");
    cache.insert(DictionaryId(2), b"bb".to_vec()).expect("second dictionary");
    let _ = cache.get(DictionaryId(1)).expect("first dictionary cached");
    let insert = cache.insert(DictionaryId(3), b"cc".to_vec()).expect("third dictionary");
    assert_eq!(insert.evicted, vec![DictionaryId(2)]);
    assert!(cache.contains(DictionaryId(1)));
    assert!(cache.contains(DictionaryId(3)));
}

#[test]
fn otlp_export_is_decoded_and_published_on_the_owning_stripe() {
    let export = ExportLogsServiceRequest {
        resource_logs: vec![ResourceLogs {
            resource: Some(Resource {
                attributes: vec![KeyValue {
                    key: "service.name".into(),
                    value: Some(AnyValue { value: Some(Value::StringValue("billing".into())) }),
                    key_strindex: 0,
                }],
                dropped_attributes_count: 0,
                entity_refs: Vec::new(),
            }),
            scope_logs: vec![ScopeLogs {
                scope: None,
                log_records: vec![LogRecord {
                    time_unix_nano: 9,
                    observed_time_unix_nano: 0,
                    severity_number: 17,
                    severity_text: "ERROR".into(),
                    body: Some(AnyValue {
                        value: Some(Value::StringValue("card declined".into())),
                    }),
                    attributes: Vec::new(),
                    dropped_attributes_count: 0,
                    flags: 0,
                    trace_id: Vec::new(),
                    span_id: Vec::new(),
                    event_name: String::new(),
                }],
                schema_url: String::new(),
            }],
            schema_url: String::new(),
        }],
    };
    let mut stripe = LogStripe::new(ShardId(7));
    let events = OtlpLogDecoder
        .decode(&export.encode_to_vec())
        .expect("OTLP export decodes before append");
    assert_eq!(apply_events(&mut stripe, 0, events), 1);
    let found = stripe.query(
        &LogQuery::new(partition()).with_term("declined").with_field("service.name", "billing"),
    );
    assert_eq!(
        found,
        vec![stripe.partitions[0].record(LogicalOffset(0)).expect("record retained").clone()]
    );
}

#[test]
fn terms_are_found_in_any_case() {
    assert_eq!(normalize_term("ERROR"), "error");
    assert_eq!(normalize_term("STRASSE"), "strasse");
    assert_eq!(normalize_term("Émile"), "émile");
    let mut stripe = LogStripe::new(ShardId(7));
    apply(&mut stripe, record(0, "Émile arrived")).expect("record indexes");
    assert_eq!(
        offsets(&stripe.query(&LogQuery::new(partition()).with_term("ÉMILE"))),
        vec![0]
    );
}

#[test]
fn cursors_continue_a_result() {
    let mut stripe = LogStripe::new(ShardId(7));
    for offset in 0..10 {
        apply(&mut stripe, record(offset, "common event")).expect("record indexes");
    }
    let first =
        stripe.query(&LogQuery::new(partition()).sort_by_timestamp().newest_first().with_limit(4));
    assert_eq!(offsets(&first), vec![9, 8, 7, 6]);
    let last = first.last().expect("a page");
    let next = stripe.query(
        &LogQuery::new(partition())
            .sort_by_timestamp()
            .newest_first()
            .with_limit(4)
            .after(QueryCursor::new(last.timestamp_unix_nanos, last.record_ref.offset)),
    );
    assert_eq!(offsets(&next), vec![5, 4, 3, 2]);
}

#[test]
fn several_partitions_share_one_limit() {
    let other = TopicPartition { topic_id: TopicId(9), partition_id: LogicalPartitionId(4) };
    let mut database = ShardLogDb::new(&vec![ShardId(7)]).ok().expect("database opens");
    for offset in 0..4 {
        for place in [partition(), other] {
            let mut item = record(offset, "common event");
            item.record_ref.topic_partition = place;
            item.timestamp_unix_nanos += u64::from(place.partition_id.0);
            let words = terms(&item.message);
            database.apply_durable(item, &words).expect("record indexes");
        }
    }
    let query = |place| LogQuery::new(place).sort_by_timestamp().with_limit(3);
    let found = database.query_partitions(&vec![query(partition()), query(other)]);
    assert_eq!(
        found.iter().map(|item| item.timestamp_unix_nanos).collect::<Vec<_>>(),
        vec![3, 4, 13]
    );
    assert!(database.query_partitions(&Vec::new()).is_empty());
}

#[test]
fn postings_list_runs_in_both_directions() {
    let mut list = HotPostingList::new();
    list.push(1);
    list.push(2);
    list.push_range(5, 7);
    assert_eq!(list.runs, vec![OrdinalRun { first: 1, last: 2 }, OrdinalRun { first: 5, last: 7 }]);
    assert_eq!(list.collect_in(2, 7, QueryOrder::OldestFirst, None), vec![2, 5, 6]);
    assert_eq!(list.collect_in(2, 7, QueryOrder::NewestFirst, Some(2)), vec![6, 5]);
    assert!(list.is_empty_in(3, 5));
    assert_eq!(collect_ordered_range(2, 5, QueryOrder::NewestFirst, Some(2)), vec![4, 3]);
    assert_eq!(intersect_frame_candidates(Some(vec![1, 4, 6]), vec![4, 5, 6]), vec![4, 6]);
    assert_eq!(frame_candidates(&Vec::new(), 3), vec![0, 1, 2]);
    assert_eq!(frame_candidates(&vec![vec![1, 2], vec![2, 3]], 4), vec![2]);
}

#[test]
fn stripes_refuse_what_is_not_theirs() {
    let mut stripe = LogStripe::new(ShardId(7));
    assert_eq!(
        apply(&mut stripe, record_on(ShardId(8), 0, "x")),
        Err(LogDbError::WrongStripe { expected: ShardId(7), observed: ShardId(8) })
    );
    apply(&mut stripe, record(0, "first")).expect("first append");
    assert_eq!(
        apply(&mut stripe, record(0, "first")),
        Err(LogDbError::DuplicateRecord { partition: partition(), offset: LogicalOffset(0) })
    );
    let event = |message: &str| OtlpLogEvent {
        timestamp_unix_nanos: 0,
        message: message.to_owned(),
        fields: Vec::new(),
        compression_cohort: CompressionCohortId(4),
    };
    assert_eq!(apply_events(&mut stripe, 0, vec![event("first")]), 1);
    assert_eq!(
        stripe.apply_otlp_events(
            partition(),
            LogicalOffset(0),
            vec![event("other")],
            &vec![terms("other")]
        ),
        Err(LogDbError::ConflictingRecord { partition: partition(), offset: LogicalOffset(0) })
    );
    assert_eq!(
        ShardLogDb::new(&vec![ShardId(1), ShardId(1)]).err(),
        Some(LogDbError::DuplicateStripe(ShardId(1)))
    );
    let defaults = StripeConfig::default();
    assert!(defaults.validate().is_ok());
    assert!(StripeConfig { compression_level: 1_000, ..defaults }.validate().is_err());
    assert!(StripeConfig { target_block_bytes: 0, ..defaults }.validate().is_err());
}

#[test]
fn pruning_looks_at_offsets_and_timestamps() {
    let frame = IndexedIngestFrame {
        frame_id: 0,
        cohort: CompressionCohortId(1),
        record_count: 2,
        structural_bytes: 4,
        min_timestamp_unix_nanos: 100,
        max_timestamp_unix_nanos: 200,
        compressed: Vec::new(),
    };
    let append = IndexedFrameAppend {
        topic_partition: partition(),
        first_offset: LogicalOffset(10),
        last_offset: LogicalOffset(11),
        record_count: 2,
        frames: Vec::new(),
    };
    let query = || LogQuery::new(partition());
    for (start, end, overlaps) in
        [(0, 10, false), (0, 11, true), (11, 20, true), (12, 20, false)]
    {
        let mut bounded = query();
        bounded.start_offset = Some(LogicalOffset(start));
        bounded.end_offset = Some(LogicalOffset(end));
        assert_eq!(append_matches_query_bounds(&bounded, &append), overlaps);
        assert!(!bounded.has_invalid_range());
    }
    for (start, end, overlaps) in
        [(0, 100, false), (0, 101, true), (200, 300, true), (201, 300, false)]
    {
        let mut bounded = query();
        bounded.start_timestamp_unix_nanos = Some(start);
        bounded.end_timestamp_unix_nanos = Some(end);
        assert_eq!(frame_matches_query_bounds(&bounded, &frame), overlaps);
    }
    let mut reversed = query();
    reversed.start_offset = Some(LogicalOffset(2));
    reversed.end_offset = Some(LogicalOffset(2));
    assert!(reversed.has_invalid_range());
    let page = vec![record(9, "nine")];
    let mut newest = query();
    newest.order = QueryOrder::NewestFirst;
    assert!(frame_can_improve(&page, &newest, &frame, 1));
    assert!(frame_can_improve(&page, &newest, &frame, 2));
    let late = vec![record(21, "late")];
    assert!(!frame_can_improve(&late, &newest, &frame, 1));
    let mut oldest = query();
    oldest.order = QueryOrder::OldestFirst;
    assert!(!frame_can_improve(&page, &oldest, &frame, 1));
    assert!(frame_can_improve(&late, &oldest, &frame, 1));
}

#[test]
fn matches_are_sorted_and_cut() {
    let found = vec![record(3, "three"), record(1, "one"), record(2, "two")];
    let query = LogQuery::new(partition()).newest_first();
    assert_eq!(offsets(&sort_and_limit_matches(&found, &query, Some(2))), vec![3, 2]);
    assert_eq!(offsets(&sort_and_limit_matches(&found, &query, None)), vec![3, 2, 1]);
}

#[test]
fn compression_levels_have_bounds() {
    let levels = |compression_level: i32| {
        StripeConfig { compression_level, ..StripeConfig::default() }.validate().is_ok()
    };
    for (level, accepted) in [(-131_073, false), (-131_072, true), (22, true), (23, false)] {
        assert_eq!(zstd_has_level(level), accepted);
        assert_eq!(levels(level), accepted);
    }
}

#[test]
fn white_space_is_that_of_unicode() {
    for code in 0..=0x10ffff {
        if let Some(character) = char::from_u32(code) {
            assert_eq!(is_white_space(character), character.is_whitespace());
        }
    }
}

#[test]
fn predicates_ask_for_fields_of_any_value() {
    let mut stripe = LogStripe::new(ShardId(7));
    apply(&mut stripe, with_field(record(0, "one"), "service", "api")).expect("record indexes");
    apply(&mut stripe, record(1, "two")).expect("record indexes");
    apply(&mut stripe, with_field(record(2, "one"), "service", "web")).expect("record indexes");
    apply(&mut stripe, with_field(record(3, "one"), "zone", "b")).expect("record indexes");
    let exists = || LogPredicate::field_exists("service");
    let asked = LogQuery::new(partition()).with_predicate(exists());
    assert_eq!(offsets(&stripe.query(&asked)), vec![0, 2]);
    let first = LogQuery::new(partition()).with_predicate(exists()).with_field("service", "web");
    let second = LogQuery::new(partition()).with_field("service", "web").with_predicate(exists());
    assert_eq!(offsets(&stripe.query(&first)), vec![2]);
    assert_eq!(offsets(&stripe.query(&second)), vec![2]);
    let other = LogQuery::new(partition()).with_predicate(LogPredicate::field_exists("zone"));
    assert!(stripe.query(&other.with_predicate(exists())).is_empty());
    let installed_api = installed(&interleaved_events(), true);
    let mut framed = LogStripe::new(ShardId(7));
    framed
        .apply_indexed_ingest_pack(partition(), LogicalOffset(50), 12, installed_api)
        .expect("frames install");
    assert_eq!(framed.query(&LogQuery::new(partition()).with_predicate(exists())).len(), 12);
    let none = LogQuery::new(partition()).with_predicate(LogPredicate::field_exists("zone"));
    assert!(framed.query(&none).is_empty());
}
