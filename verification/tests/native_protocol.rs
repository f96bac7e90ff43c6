use shard_log::error::NativeField;
use shard_log::labels::LabelMap;
use shard_log::native_frame::NATIVE_FRAME_HEADER_BYTES;
use shard_log::native_view::{decode_native_log_batch_view, NativeMetadataKeys};
use shard_log::record::LokiEntry;
use shard_log::{
    decode_native_log_batch, decode_native_log_events, decode_native_query,
    encode_native_log_batch, encode_native_query, inspect_native_log_batch, is_native_log_batch,
    validate_native_log_batch, NativeAppendAck, NativeFrame, NativeFrameHeader, NativeOpcode,
    NativeProtocolError, NativeQuery, NativeQueryDirection, NativeStatus,
};

fn map(pairs: &[(&str, &str)]) -> LabelMap {
    LabelMap::from_pairs(
        pairs
            .iter()
            .map(|(key, value)| (key.to_string(), value.to_string()))
            .collect(),
    )
}

fn entries() -> Vec<LokiEntry> {
    vec![
        LokiEntry {
            timestamp_unix_nanos: 10,
            labels: map(&[("app", "api"), ("region", "東京")]),
            line: "request café".to_owned(),
            structured_metadata: map(&[("trace_id", "abc")]),
        },
        LokiEntry {
            timestamp_unix_nanos: 11,
            labels: map(&[("app", "api"), ("region", "東京")]),
            line: "request complete".to_owned(),
            structured_metadata: LabelMap::new(),
        },
    ]
}

fn entry(timestamp: i64, labels: &[(&str, &str)], line: &str) -> LokiEntry {
    LokiEntry {
        timestamp_unix_nanos: timestamp,
        labels: map(labels),
        line: line.to_owned(),
        structured_metadata: LabelMap::new(),
    }
}

#[test]
fn grouped_batch_round_trips_byte_exact_text_and_metadata() {
    let expected = entries();
    let encoded = encode_native_log_batch("tenant-a", expected.clone()).expect("batch encodes");
    let info = inspect_native_log_batch(&encoded).expect("header");
    assert_eq!(info.tenant, "tenant-a");
    assert_eq!(info.record_count, 2);
    validate_native_log_batch(&encoded).expect("batch validates without materializing");
    let decoded = decode_native_log_batch(&encoded).expect("batch decodes");
    assert_eq!(decoded.tenant, "tenant-a");
    assert_eq!(decoded.entries, expected);
    let (tenant, events) = decode_native_log_events(&encoded).expect("direct events");
    assert_eq!(tenant, "tenant-a");
    assert_eq!(events.len(), 2);
    assert_eq!(events[0].message, "request café");
    assert!(events[0].fields.iter().any(|field| {
        field.key == "resource.loki.label.region" && field.value == "東京"
    }));
    let borrowed = decode_native_log_batch_view(&encoded).expect("borrowed view");
    assert_eq!(borrowed.tenant(), "tenant-a");
    assert_eq!(borrowed.record_count(), 2);
    assert_eq!(borrowed.record_timestamp(0), Some(10));
    assert_eq!(borrowed.record_message(0), Some("request café"));
    assert_eq!(borrowed.record_field_count(0), Some(4));
    assert_eq!(
        borrowed.record_field(0, 0),
        Some(("resource.loki.tenant", "tenant-a"))
    );
    assert_eq!(
        borrowed.record_field(0, 2),
        Some(("resource.loki.label.region", "東京"))
    );
    assert_eq!(
        borrowed.record_field(0, 3),
        Some(("attr.loki.metadata.trace_id", "abc"))
    );
    assert_eq!(borrowed.record_field(0, 4), None);
}

#[test]
fn batch_rejects_truncation_count_mismatch_and_trailing_bytes() {
    let encoded = encode_native_log_batch("tenant-a", entries()).expect("batch");
    for end in 0..encoded.len() {
        assert!(decode_native_log_batch(&encoded[..end]).is_err(), "{end}");
        assert!(
            decode_native_log_batch_view(&encoded[..end]).is_err(),
            "{end}"
        );
        assert!(validate_native_log_batch(&encoded[..end]).is_err(), "{end}");
    }
    let mut count = encoded.clone();
    count[8..12].copy_from_slice(&3_u32.to_le_bytes());
    assert!(decode_native_log_batch(&count).is_err());
    assert!(decode_native_log_batch_view(&count).is_err());
    assert!(validate_native_log_batch(&count).is_err());
    let mut reserved = encoded.clone();
    reserved[12] = 1;
    assert!(decode_native_log_batch(&reserved).is_err());
    assert!(decode_native_log_batch_view(&reserved).is_err());
    assert!(validate_native_log_batch(&reserved).is_err());
    let mut trailing = encoded;
    trailing.push(0);
    assert!(decode_native_log_batch(&trailing).is_err());
    assert!(decode_native_log_batch_view(&trailing).is_err());
    assert!(validate_native_log_batch(&trailing).is_err());
}

#[test]
fn frame_header_checks_magic_version_length_and_payload_checksum() {
    let frame = NativeFrame::request(NativeOpcode::Append, 42, vec![1, 2, 3]).expect("frame");
    let encoded = frame.encode();
    let header: [u8; NATIVE_FRAME_HEADER_BYTES] = encoded[..NATIVE_FRAME_HEADER_BYTES]
        .try_into()
        .expect("header");
    let decoded = NativeFrameHeader::decode(&header).expect("decode");
    assert_eq!(decoded.request_id, 42);
    decoded
        .verify_payload(&encoded[NATIVE_FRAME_HEADER_BYTES..])
        .expect("checksum");
    assert!(decoded.verify_payload(&[1, 2, 4]).is_err());

    let mut invalid = header;
    invalid[4] = 2;
    assert!(NativeFrameHeader::decode(&invalid).is_err());
}

#[test]
fn indexed_query_round_trips_all_bounds_and_constraints() {
    let query = NativeQuery {
        tenant: "tenant-a".to_owned(),
        labels: map(&[("app", "api")]),
        terms: vec!["timeout".to_owned(), "error".to_owned()],
        start_timestamp_unix_nanos: Some(10),
        end_timestamp_unix_nanos: Some(20),
        limit: 100,
        direction: NativeQueryDirection::NewestFirst,
    };
    assert_eq!(
        decode_native_query(&encode_native_query(&query).expect("encode")).expect("decode"),
        query
    );
}

#[test]
fn header_bytes_are_exact() {
    let frame = NativeFrame::response(NativeOpcode::Query, 7, NativeStatus::Timeout, vec![])
        .expect("frame");
    let encoded = frame.encode();
    assert_eq!(&encoded[..8], b"SLNP\x01\x02\x01\x07");
    assert_eq!(encoded[8], 7);
    assert_eq!(&encoded[9..28], &[0u8; 19]);
    // BLAKE3 of the empty string starts with af1349b9.
    assert_eq!(&encoded[28..32], &[0xaf, 0x13, 0x49, 0xb9]);
}

#[test]
fn header_errors_name_their_cause() {
    let frame = NativeFrame::request(NativeOpcode::Ping, 1, vec![9]).expect("frame");
    let header = frame.header.encode();
    let decode = |at: usize, value: u8| {
        let mut bytes = header;
        bytes[at] = value;
        NativeFrameHeader::decode(&bytes)
    };
    assert_eq!(decode(0, 0), Err(NativeProtocolError::InvalidFrameMagic));
    assert_eq!(decode(4, 9), Err(NativeProtocolError::UnsupportedVersion(9)));
    assert_eq!(decode(6, 2), Err(NativeProtocolError::UnknownFlags));
    assert_eq!(decode(5, 0), Err(NativeProtocolError::UnsupportedOpcode(0)));
    assert_eq!(decode(7, 8), Err(NativeProtocolError::UnsupportedStatus(8)));
    assert_eq!(
        decode(27, 1),
        Err(NativeProtocolError::FrameTooLarge(16_777_217))
    );
    assert_eq!(
        NativeProtocolError::FrameTooLarge(16_777_217).message(),
        "native frame payload is 16777217 bytes, exceeding 16777216"
    );
    assert_eq!(
        frame.header.verify_payload(&[9, 9]),
        Err(NativeProtocolError::PayloadLengthMismatch)
    );
    assert_eq!(
        frame.header.verify_payload(&[8]),
        Err(NativeProtocolError::ChecksumMismatch)
    );
    assert_eq!(NativeFrameHeader::decode(&header), Ok(frame.header));
}

#[test]
fn oversized_frames_are_refused() {
    let payload = vec![0u8; 16 * 1024 * 1024 + 1];
    assert_eq!(
        NativeFrameHeader::request(NativeOpcode::Append, 1, &payload),
        Err(NativeProtocolError::FrameTooLarge(16_777_217))
    );
}

#[test]
fn acknowledgement_round_trips() {
    let ack = NativeAppendAck {
        partition_id: 3,
        first_offset: 500,
        last_offset: 511,
    };
    let bytes = ack.encode();
    assert_eq!(&bytes[..8], b"SLA1\x03\x00\x00\x00");
    assert_eq!(NativeAppendAck::decode(&bytes), Ok(ack));
    assert_eq!(
        NativeAppendAck::decode(&bytes[..23]),
        Err(NativeProtocolError::InvalidAcknowledgement)
    );
}

#[test]
fn streams_are_grouped_in_label_order() {
    let batch = vec![
        entry(1, &[("app", "b")], "one"),
        entry(2, &[("app", "a")], "two"),
        entry(3, &[("app", "b")], "three"),
        entry(4, &[], "four"),
    ];
    let encoded = encode_native_log_batch("t", batch).expect("encodes");
    let lines: Vec<String> = decode_native_log_batch(&encoded)
        .expect("decodes")
        .entries
        .into_iter()
        .map(|entry| entry.line)
        .collect();
    assert_eq!(lines, ["four", "two", "one", "three"]);
    let (_, events) = decode_native_log_events(&encoded).expect("events");
    let view = decode_native_log_batch_view(&encoded).expect("view");
    for (index, event) in events.iter().enumerate() {
        assert_eq!(view.record_message(index), Some(event.message.as_str()));
        assert_eq!(view.record_cohort(index), Some(event.compression_cohort));
        let fields = view.record_fields(index).expect("fields");
        let owned: Vec<(&str, &str)> = event
            .fields
            .iter()
            .map(|field| (field.key.as_str(), field.value.as_str()))
            .collect();
        assert_eq!(fields, owned);
    }
    assert!(view.record_fields(4).is_err());
}

#[test]
fn wire_bytes_of_a_small_batch_are_exact() {
    let mut one = entry(258, &[("k", "v")], "hi");
    one.structured_metadata = map(&[("m", "n")]);
    let encoded = encode_native_log_batch("t", vec![one]).expect("encodes");
    let expected: Vec<u8> = [
        b"SLB1\x01\x00\x01\x00\x01\x00\x00\x00\x00\x00\x00\x00t".as_slice(),
        b"\x01\x00\x00\x00\x01\x00\x00\x00",
        b"\x01\x00k\x01\x00v",
        b"\x02\x01\x00\x00\x00\x00\x00\x00\x02\x00\x00\x00\x01\x00\x00\x00hi",
        b"\x01\x00m\x01\x00n",
    ]
    .concat();
    assert_eq!(encoded, expected);
    assert!(is_native_log_batch(&encoded));
    assert!(!is_native_log_batch(b"SLB"));
    // FNV-1a over "k", 0xff, "v", 0xfe.
    let mut hash: u64 = 0xcbf2_9ce4_8422_2325;
    for byte in [b'k', 0xff, b'v', 0xfe] {
        hash = (hash ^ u64::from(byte)).wrapping_mul(0x0000_0100_0000_01b3);
    }
    let (_, events) = decode_native_log_events(&encoded).expect("events");
    assert_eq!(events[0].compression_cohort.0, hash);
}

#[test]
fn encoding_errors_name_their_cause() {
    let encode = encode_native_log_batch;
    assert_eq!(encode("", vec![]), Err(NativeProtocolError::TenantEmpty));
    assert_eq!(
        encode(&"t".repeat(1_025), vec![]),
        Err(NativeProtocolError::TenantTooLong)
    );
    assert_eq!(
        encode("t", vec![entry(-1, &[], "x")]),
        Err(NativeProtocolError::NegativeTimestamp)
    );
    let long = "x".repeat(65_536);
    assert_eq!(
        encode("t", vec![entry(1, &[(&long, "v")], "x")]),
        Err(NativeProtocolError::ExceedsU16(NativeField::LabelKey))
    );
    let mut wide = entry(1, &[], "x");
    wide.structured_metadata = map(&[("k", &long)]);
    assert_eq!(
        encode("t", vec![wide]),
        Err(NativeProtocolError::ExceedsU16(NativeField::MetadataValue))
    );
    let names: Vec<String> = (0..257).map(|index| format!("k{index}")).collect();
    let many: Vec<(&str, &str)> = names.iter().map(|name| (name.as_str(), "v")).collect();
    assert_eq!(
        encode("t", vec![entry(1, &many, "x")]),
        Err(NativeProtocolError::TooManyLabels)
    );
    let mut crowded = entry(1, &[], "x");
    crowded.structured_metadata = map(&many);
    assert_eq!(
        encode("t", vec![crowded]),
        Err(NativeProtocolError::TooMuchMetadata)
    );
    assert!(matches!(
        encode("t", vec![entry(1, &[], &"x".repeat(16 * 1024 * 1024))]),
        Err(NativeProtocolError::BatchTooLarge(_))
    ));
    assert_eq!(
        NativeProtocolError::ExceedsU16(NativeField::LabelKey).message(),
        "label key exceeds u16"
    );
}

#[test]
fn decoding_errors_name_their_cause() {
    let one = |labels: &[(&str, &str)], metadata: &[(&str, &str)]| {
        let mut one = entry(1, labels, "x");
        one.structured_metadata = map(metadata);
        encode_native_log_batch("t", vec![one]).expect("encodes")
    };
    assert_eq!(
        validate_native_log_batch(&[]),
        Err(NativeProtocolError::ShortBatch)
    );
    assert_eq!(
        validate_native_log_batch(&one(&[("", "v")], &[])),
        Err(NativeProtocolError::BadLabel)
    );
    let empty_key = one(&[], &[("", "v")]);
    assert_eq!(
        validate_native_log_batch(&empty_key),
        Err(NativeProtocolError::EmptyMetadata)
    );
    assert_eq!(
        decode_native_log_batch(&empty_key).err(),
        Some(NativeProtocolError::BadMetadata)
    );
    let mut late = one(&[], &[]);
    late[25 + 7] = 0x80;
    assert_eq!(
        validate_native_log_batch(&late),
        Err(NativeProtocolError::TimestampOutOfRange)
    );
    let mut text = one(&[], &[]);
    let last = text.len() - 1;
    text[last] = 0xff;
    assert_eq!(
        validate_native_log_batch(&text),
        Err(NativeProtocolError::NotUtf8(NativeField::LogLine))
    );
    assert_eq!(
        NativeProtocolError::NotUtf8(NativeField::LogLine).message(),
        "native log line is not UTF-8"
    );
    let mut huge = one(&[], &[]);
    huge[8] = 200;
    assert_eq!(
        decode_native_log_batch_view(&huge).err(),
        Some(NativeProtocolError::CountExceedsPayload)
    );
    assert_eq!(
        validate_native_log_batch(&huge),
        Err(NativeProtocolError::RecordCountMismatch(1, 200))
    );
    assert_eq!(
        NativeProtocolError::RecordCountMismatch(1, 200).message(),
        "native batch decoded 1 records, expected 200"
    );
    huge[8] = 0;
    assert_eq!(
        validate_native_log_batch(&huge),
        Err(NativeProtocolError::CountExceedsDeclared)
    );
}

#[test]
fn query_errors_name_their_cause() {
    let base = || NativeQuery {
        tenant: "t".to_owned(),
        labels: LabelMap::new(),
        terms: vec![],
        start_timestamp_unix_nanos: None,
        end_timestamp_unix_nanos: None,
        limit: 1,
        direction: NativeQueryDirection::default(),
    };
    let refuse = |query: NativeQuery| encode_native_query(&query).err();
    let mut query = base();
    query.limit = 0;
    assert_eq!(refuse(query), Some(NativeProtocolError::QueryLimit));
    let mut query = base();
    query.limit = 1_000_001;
    assert_eq!(refuse(query), Some(NativeProtocolError::QueryLimit));
    let mut query = base();
    query.terms = vec![String::new()];
    assert_eq!(refuse(query), Some(NativeProtocolError::EmptyQueryTerm));
    let mut query = base();
    query.labels = map(&[("", "v")]);
    assert_eq!(refuse(query), Some(NativeProtocolError::EmptyQueryLabelKey));
    let mut query = base();
    query.start_timestamp_unix_nanos = Some(5);
    query.end_timestamp_unix_nanos = Some(5);
    assert_eq!(refuse(query), Some(NativeProtocolError::EmptyTimeRange));
    let mut query = base();
    query.terms = vec!["x".to_owned(); 257];
    assert_eq!(refuse(query), Some(NativeProtocolError::TooManyQueryTerms));

    let encoded = encode_native_query(&base()).expect("encodes");
    let decode = |at: usize, value: u8| {
        let mut bytes = encoded.clone();
        bytes[at] = value;
        decode_native_query(&bytes).err()
    };
    assert_eq!(decode(0, 0), Some(NativeProtocolError::InvalidQueryHeader));
    assert_eq!(decode(10, 2), Some(NativeProtocolError::UnsupportedDirection(2)));
    assert_eq!(decode(11, 1), Some(NativeProtocolError::QueryReserved));
    assert_eq!(
        decode(4, 2),
        Some(NativeProtocolError::Truncated(NativeField::QueryTenant))
    );
    assert_eq!(decode(4, 0), Some(NativeProtocolError::TrailingBytes));
}

#[test]
fn decoding_sorts_entries_stably_by_their_labels() {
    let given = vec![
        entry(9, &[("app", "web")], "w1"),
        entry(8, &[("app", "api")], "a1"),
        entry(7, &[("app", "web")], "w2"),
        entry(6, &[], "none"),
        entry(5, &[("app", "api")], "a2"),
    ];
    let encoded = encode_native_log_batch("tenant-a", given.clone()).expect("batch encodes");
    let decoded = decode_native_log_batch(&encoded).expect("batch decodes");
    assert_eq!(decoded.tenant, "tenant-a");
    let lines: Vec<&str> = decoded.entries.iter().map(|item| item.line.as_str()).collect();
    assert_eq!(lines, vec!["none", "a1", "a2", "w1", "w2"]);
    for item in &decoded.entries {
        assert!(given.contains(item));
    }
    assert_eq!(encoded[6..8], 3u16.to_le_bytes());
    assert_eq!(encoded[8..12], 5u32.to_le_bytes());
    let interleaved = [1, 0, 3, 4, 2].map(|place: usize| given[place].clone()).to_vec();
    assert_eq!(encode_native_log_batch("tenant-a", interleaved), Ok(encoded.clone()));
    let swapped = [2, 1, 0, 3, 4].map(|place: usize| given[place].clone()).to_vec();
    assert_ne!(encode_native_log_batch("tenant-a", swapped), Ok(encoded));
}

#[test]
fn a_batch_is_no_beginning_of_another() {
    let encoded = encode_native_log_batch("tenant-a", entries()).expect("batch encodes");
    validate_native_log_batch(&encoded).expect("whole batch validates");
    for end in 0..encoded.len() {
        assert!(validate_native_log_batch(&encoded[..end]).is_err());
    }
    for extra in [0u8, 1, 255] {
        let mut longer = encoded.clone();
        longer.push(extra);
        assert_eq!(
            validate_native_log_batch(&longer),
            Err(NativeProtocolError::TrailingBytes)
        );
    }
}

#[test]
fn events_are_the_entries_of_a_batch() {
    let encoded = encode_native_log_batch("tenant-a", entries()).expect("batch encodes");
    let batch = decode_native_log_batch(&encoded).expect("batch decodes");
    let (tenant, events) = decode_native_log_events(&encoded).expect("events decode");
    assert_eq!(tenant, batch.tenant);
    assert_eq!(events.len(), batch.entries.len());
    for (event, item) in events.iter().zip(&batch.entries) {
        assert_eq!(event.timestamp_unix_nanos as i64, item.timestamp_unix_nanos);
        assert_eq!(event.message, item.line);
        assert_eq!(event.compression_cohort, events[0].compression_cohort);
    }
    let fields: Vec<(&str, &str)> = events[0]
        .fields
        .iter()
        .map(|field| (field.key.as_str(), field.value.as_str()))
        .collect();
    assert_eq!(
        fields,
        vec![
            ("resource.loki.tenant", "tenant-a"),
            ("resource.loki.label.app", "api"),
            ("resource.loki.label.region", "東京"),
            ("attr.loki.metadata.trace_id", "abc"),
        ]
    );
    assert_eq!(events[1].fields.len(), 3);
}

#[test]
fn metadata_keys_are_numbered_as_first_seen() {
    let names: Vec<String> = (0..40).map(|number| format!("key-{number}")).collect();
    let mut keys = NativeMetadataKeys::new();
    for (number, name) in names.iter().enumerate() {
        assert_eq!(keys.intern(name), number);
        assert_eq!(keys.intern(&names[number / 2]), number / 2);
    }
    assert_eq!(keys.entries.len(), 40);
    for (number, name) in names.iter().enumerate() {
        assert_eq!(keys.intern(name), number);
        assert_eq!(keys.entries[number].normalized, format!("attr.loki.metadata.{name}"));
    }
}
