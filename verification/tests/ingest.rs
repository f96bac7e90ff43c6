use shard_log::error::BlockFault;
use shard_log::ingest_events::{
    decode_ingest_pack, prepare_ingest_pack, prepare_native_ingest_pack,
};
use shard_log::ingest_frames::{
    decompress_frame, indexed_frame, FrameReader, IndexSource, IndexedIngestFrame,
};
use shard_log::ingest_pack::{
    declared_record_count, decompress_group, is_ingest_pack, validate_ingest_pack,
    IngestPackCursor, StructuralRecord,
};
use shard_log::ingest_prepare::{
    group_ingest_events, group_native_payload, EncodedBlock, PreparedIngestPack,
};
use shard_log::{
    decode_native_log_events, encode_native_log_batch, is_native_log_batch, CompressionCohortId,
    LabelMap, LogDbError, LokiEntry, MetadataField, OtlpLogEvent,
};

fn map(pairs: &[(&str, &str)]) -> LabelMap {
    LabelMap::from_pairs(
        pairs.iter().map(|(key, value)| (key.to_string(), value.to_string())).collect(),
    )
}

fn block(ordinals: &[u32]) -> EncodedBlock {
    let mut structural = Vec::new();
    for ordinal in ordinals {
        structural.extend_from_slice(&ordinal.to_le_bytes());
    }
    EncodedBlock { structural, embedded_index: vec![ordinals.len() as u8] }
}

fn pack(events: &Vec<OtlpLogEvent>) -> PreparedIngestPack {
    let groups = group_ingest_events(events).expect("events group");
    let blocks: Vec<EncodedBlock> = groups.iter().map(|group| block(&group.ordinals)).collect();
    prepare_ingest_pack(events, &blocks).expect("pack encodes")
}

/// The records of each block of a pack, whose blocks list ordinals.
fn records(payload: &[u8], events: &[OtlpLogEvent]) -> Vec<Vec<StructuralRecord>> {
    let mut lists = Vec::new();
    let Ok(count) = declared_record_count(payload) else {
        return lists;
    };
    let Ok(mut cursor) = IngestPackCursor::new(payload, count) else {
        return lists;
    };
    for _ in 0..cursor.group_count {
        let Ok(group) = cursor.next_group() else {
            return lists;
        };
        let Ok(structural) = decompress_group(payload, &group) else {
            return lists;
        };
        lists.push(
            structural
                .chunks(4)
                .map(|bytes| u32::from_le_bytes([bytes[0], bytes[1], bytes[2], bytes[3]]))
                .map(|ordinal| StructuralRecord {
                    offset: u64::from(ordinal),
                    timestamp_unix_nanos: events[ordinal as usize].timestamp_unix_nanos,
                    message: events[ordinal as usize].message.clone(),
                    fields: events[ordinal as usize].fields.clone(),
                })
                .collect(),
        );
    }
    lists
}

fn unpack(payload: &[u8], events: &[OtlpLogEvent]) -> Result<Vec<OtlpLogEvent>, LogDbError> {
    decode_ingest_pack(payload, records(payload, events))
}

fn event(ordinal: u64, cohort: u64) -> OtlpLogEvent {
    OtlpLogEvent {
        timestamp_unix_nanos: 100 + ordinal,
        message: format!("request id={ordinal} completed"),
        fields: vec![MetadataField::new(
            "service".to_owned(),
            if ordinal % 2 == 0 { "api" } else { "worker" }.to_owned(),
        )],
        compression_cohort: CompressionCohortId(cohort),
    }
}

#[test]
fn borrowed_native_pack_matches_owned_event_pack_byte_for_byte() {
    let entries = vec![
        LokiEntry {
            timestamp_unix_nanos: 101,
            labels: map(&[("app", "api"), ("region", "東京")]),
            line: "request café id=1 completed".to_owned(),
            structured_metadata: map(&[("span", "one"), ("trace", "abc")]),
        },
        LokiEntry {
            timestamp_unix_nanos: 102,
            labels: map(&[("app", "api"), ("region", "東京")]),
            line: "request café id=2 completed".to_owned(),
            structured_metadata: map(&[("trace", "def")]),
        },
        LokiEntry {
            timestamp_unix_nanos: 103,
            labels: map(&[("app", "worker")]),
            line: "background task completed".to_owned(),
            structured_metadata: LabelMap::new(),
        },
    ];
    let native = encode_native_log_batch("tenant-a", entries).expect("native batch");
    let (_, events) = decode_native_log_events(&native).expect("owned events decode");
    let owned = pack(&events);
    let borrowed = group_native_payload(&native).expect("borrowed groups");
    assert_eq!(borrowed.tenant, "tenant-a");
    assert_eq!(borrowed.record_count, events.len() as u32);
    let blocks: Vec<EncodedBlock> =
        borrowed.groups.iter().map(|group| block(&group.ordinals)).collect();
    let borrowed = prepare_native_ingest_pack(&native, &blocks).expect("borrowed pack");
    assert_eq!(borrowed.tenant, "tenant-a");
    assert_eq!(borrowed.record_count, events.len() as u32);
    let borrowed = borrowed.ingest_pack;
    assert_eq!(borrowed.payload, owned.payload);
    assert_eq!(borrowed.transient_context, owned.transient_context);
    assert_eq!(unpack(&borrowed.payload, &events).expect("borrowed pack decodes"), events);
}

#[test]
fn compressed_ingest_pack_preserves_order_cohorts_and_exact_records() {
    let events: Vec<OtlpLogEvent> = (0..32).map(|ordinal| event(ordinal, ordinal % 3)).collect();
    let encoded = pack(&events).payload;
    assert!(is_ingest_pack(&encoded));
    validate_ingest_pack(&encoded, events.len() as u32).expect("pack validates");
    let decoded = unpack(&encoded, &events).expect("pack decodes");
    assert_eq!(decoded, events);
    assert!(encoded.len() < 16 * 1024);
}

#[test]
fn compressed_ingest_pack_rejects_corruption_and_wrong_counts() {
    let events = vec![OtlpLogEvent {
        timestamp_unix_nanos: 1,
        message: "hello".to_owned(),
        fields: Vec::new(),
        compression_cohort: CompressionCohortId(7),
    }];
    let mut encoded = pack(&events).payload;
    assert!(validate_ingest_pack(&encoded, 2).is_err());
    let last = encoded.len() - 1;
    encoded[last] ^= 1;
    assert!(validate_ingest_pack(&encoded, 1).is_err());
    assert!(unpack(&encoded, &events).is_err());
}

#[test]
fn frames_are_read_live_and_recovered() {
    let events: Vec<OtlpLogEvent> = (0..9).map(|ordinal| event(ordinal, ordinal % 3)).collect();
    let prepared = pack(&events);
    for context in [Some(prepared.transient_context.as_slice()), None] {
        let mut reader = FrameReader::new(&prepared.payload, context, 9).ok().expect("reader opens");
        for cohort in 0..3u64 {
            let (group, source) = reader.next_frame().expect("frame reads");
            assert_eq!(group.cohort, CompressionCohortId(cohort));
            match source {
                IndexSource::Live(_) => assert!(context.is_some()),
                IndexSource::Block(_) => assert!(context.is_none()),
            }
            let frame = indexed_frame(&prepared.payload, &group, 3).expect("frame is made");
            assert_eq!(frame.record_count, 3);
            assert_eq!(frame.min_timestamp_unix_nanos, 100 + cohort);
            assert_eq!(frame.max_timestamp_unix_nanos, 106 + cohort);
            let ordinals = [cohort as u32, cohort as u32 + 3, cohort as u32 + 6];
            assert_eq!(decompress_frame(&frame).expect("block"), block(&ordinals).structural);
            assert!(indexed_frame(&prepared.payload, &group, 4).is_err());
        }
        assert!(reader.finish().is_ok());
    }
}

#[test]
fn damaged_packs_are_refused() {
    let events: Vec<OtlpLogEvent> = (0..4).map(|ordinal| event(ordinal, 1)).collect();
    let encoded = pack(&events).payload;
    for end in 0..encoded.len() {
        assert!(validate_ingest_pack(&encoded[..end], 4).is_err());
    }
    let mut longer = encoded.clone();
    longer.push(0);
    assert!(validate_ingest_pack(&longer, 4).is_err());
    assert!(!is_ingest_pack(b"SL"));
}

#[test]
fn standalone_store_makes_the_compressed_ingest_pack_authoritative() {
    let entry = LokiEntry {
        timestamp_unix_nanos: 123,
        labels: map(&[("app", "api")]),
        line: "request completed".to_owned(),
        structured_metadata: map(&[("trace_id", "abc")]),
    };
    let native = encode_native_log_batch("tenant-a", vec![entry]).expect("native batch");
    let grouped = group_native_payload(&native).expect("native batch groups");
    let blocks: Vec<EncodedBlock> =
        grouped.groups.iter().map(|group| block(&group.ordinals)).collect();
    let stored = prepare_native_ingest_pack(&native, &blocks)
        .expect("pack prepares")
        .ingest_pack
        .payload;
    assert!(is_ingest_pack(&stored));
    assert!(!is_native_log_batch(&stored));
    validate_ingest_pack(&stored, 1).expect("stored pack validates");
    let (_, events) = decode_native_log_events(&native).expect("events decode");
    let decoded = unpack(&stored, &events).expect("stored pack decodes");
    assert_eq!(decoded.len(), 1);
    assert_eq!(decoded[0].timestamp_unix_nanos, 123);
    assert_eq!(decoded[0].message, "request completed");
    assert!(decoded[0].fields.iter().any(|field| {
        field.key == "resource.loki.tenant" && field.value == "tenant-a"
    }));
}

#[test]
fn decoding_names_the_first_fault_of_a_pack() {
    let events: Vec<OtlpLogEvent> = (0..6).map(|ordinal| event(ordinal, ordinal % 2)).collect();
    let payload = pack(&events).payload;
    let fault = |change: fn(&mut Vec<Vec<StructuralRecord>>)| {
        let mut lists = records(&payload, &events);
        change(&mut lists);
        decode_ingest_pack(&payload, lists).err()
    };
    let block = |fault: BlockFault| Some(LogDbError::InvalidBlockEncoding(fault));
    assert_eq!(fault(|_| {}), None);
    assert_eq!(fault(|lists| { lists.pop(); }), block(BlockFault::GroupRecordCount));
    assert_eq!(fault(|lists| lists[0][0].offset = 6), block(BlockFault::OrdinalRange));
    assert_eq!(fault(|lists| lists[0][0].offset = 1), block(BlockFault::OrdinalsNotContiguous));
    assert_eq!(
        fault(|lists| lists[1][0].offset = u64::from(u32::MAX) + 1),
        Some(LogDbError::RecordTooLarge)
    );
    assert_eq!(
        decode_ingest_pack(&payload[..6], Vec::new()).err(),
        block(BlockFault::PackHeaderTruncated)
    );
    assert_eq!(
        prepare_native_ingest_pack(b"SLB1", &Vec::new()).err().map(|error| {
            matches!(error, LogDbError::InvalidNativePayload(_))
        }),
        Some(true)
    );
}

#[test]
fn failed_decompression_keeps_the_text_of_its_cause() {
    let frame = IndexedIngestFrame {
        frame_id: 0,
        cohort: CompressionCohortId(1),
        record_count: 1,
        structural_bytes: 8,
        min_timestamp_unix_nanos: 1,
        max_timestamp_unix_nanos: 1,
        compressed: vec![1, 2, 3],
    };
    let cause = zstd::bulk::decompress(&[1, 2, 3], 8).expect_err("no zstd frame");
    assert_eq!(
        decompress_frame(&frame).err(),
        Some(LogDbError::CompressionFailed(cause.to_string()))
    );
}
