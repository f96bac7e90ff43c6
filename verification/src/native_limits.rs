//! Bounds that every parsed native batch keeps.
use vstd::prelude::*;

use crate::codec::le_value;
use crate::error::{NativeField, NativeProtocolError};
use crate::native_batch::{
    bad_metadata, batch_record_count, batch_stream_count, batch_tenant_len, parse_batch,
    parse_entries, parse_entry, parse_stream, parse_streams, total_entries, BatchReader,
    WireStream, BATCH_HEADER_BYTES, MAX_LABELS_PER_STREAM, MAX_METADATA_PER_ENTRY,
};
use crate::native_wire::parse_pairs;

verus! {

broadcast use vstd::seq_lib::group_seq_properties;

/// Label and metadata counts are within their limits.
pub open spec fn counts_fit(streams: Seq<WireStream>) -> bool {
    &&& forall|i: int|
        0 <= i < streams.len() ==> (#[trigger] streams[i]).labels.len() <= MAX_LABELS_PER_STREAM
    &&& forall|i: int, j: int|
        0 <= i < streams.len() && 0 <= j < streams[i].entries.len() ==> (
        #[trigger] streams[i].entries[j]).metadata.len() <= MAX_METADATA_PER_ENTRY
}

proof fn lemma_pairs_count(
    bytes: Seq<u8>,
    at: int,
    count: nat,
    key_field: NativeField,
    value_field: NativeField,
    bad: NativeProtocolError,
)
    ensures
        parse_pairs(bytes, at, count, key_field, value_field, bad) matches Ok((pairs, _))
            ==> pairs.len() == count,
    decreases count,
{
    if count > 0 {
        lemma_pairs_count(bytes, at, (count - 1) as nat, key_field, value_field, bad);
    }
}

proof fn lemma_entry_count(bytes: Seq<u8>, at: int, reader: BatchReader)
    ensures
        parse_entry(bytes, at, reader) matches Ok((entry, _)) ==> entry.metadata.len()
            <= MAX_METADATA_PER_ENTRY,
{
    let line_len = le_value(bytes.subrange(at + 8, at + 12));
    let count = le_value(bytes.subrange(at + 12, at + 14));
    lemma_pairs_count(
        bytes,
        at + 16 + line_len,
        count,
        NativeField::MetadataKey,
        NativeField::MetadataValue,
        bad_metadata(reader, count),
    );
}

proof fn lemma_entries_count(bytes: Seq<u8>, at: int, count: nat, reader: BatchReader)
    ensures
        parse_entries(bytes, at, count, reader) matches Ok((entries, _)) ==> forall|j: int|
            0 <= j < entries.len() ==> (#[trigger] entries[j]).metadata.len()
                <= MAX_METADATA_PER_ENTRY,
    decreases count,
{
    if count > 0 {
        lemma_entries_count(bytes, at, (count - 1) as nat, reader);
        match parse_entries(bytes, at, (count - 1) as nat, reader) {
            Err(_) => {},
            Ok((_, next)) => {
                lemma_entry_count(bytes, next, reader);
            },
        }
    }
}

proof fn lemma_streams_count(
    bytes: Seq<u8>,
    at: int,
    count: nat,
    declared: nat,
    reader: BatchReader,
)
    ensures
        parse_streams(bytes, at, count, declared, reader) matches Ok((streams, _)) ==> counts_fit(
            streams,
        ),
    decreases count,
{
    if count > 0 {
        lemma_streams_count(bytes, at, (count - 1) as nat, declared, reader);
        match parse_streams(bytes, at, (count - 1) as nat, declared, reader) {
            Err(_) => {},
            Ok((streams, next)) => {
                match parse_stream(bytes, next, total_entries(streams), declared, reader) {
                    Err(_) => {},
                    Ok((stream, _)) => {
                        let label_count = le_value(bytes.subrange(next, next + 2));
                        let entry_count = le_value(bytes.subrange(next + 4, next + 8));
                        lemma_pairs_count(
                            bytes,
                            next + 8,
                            label_count,
                            NativeField::LabelKey,
                            NativeField::LabelValue,
                            NativeProtocolError::BadLabel,
                        );
                        match parse_pairs(
                            bytes,
                            next + 8,
                            label_count,
                            NativeField::LabelKey,
                            NativeField::LabelValue,
                            NativeProtocolError::BadLabel,
                        ) {
                            Err(_) => {},
                            Ok((_, body)) => {
                                lemma_entries_count(bytes, body, entry_count, reader);
                            },
                        }
                        let all = streams.push(stream);
                        assert forall|i: int| 0 <= i < all.len() implies (
                        #[trigger] all[i]).labels.len() <= MAX_LABELS_PER_STREAM by {
                            if i < streams.len() {
                                assert(all[i] == streams[i]);
                            }
                        }
                        assert forall|i: int, j: int|
                            0 <= i < all.len() && 0 <= j < all[i].entries.len() implies (
                        #[trigger] all[i].entries[j]).metadata.len() <= MAX_METADATA_PER_ENTRY by {
                            if i < streams.len() {
                                assert(all[i] == streams[i]);
                            } else {
                                assert(all[i] == stream);
                            }
                        }
                    },
                }
            },
        }
    }
}

/// A batch that parses keeps the label and metadata limits.
pub proof fn lemma_parsed_counts(bytes: Seq<u8>, reader: BatchReader)
    ensures
        parse_batch(bytes, reader) matches Ok(batch) ==> counts_fit(batch.streams),
{
    lemma_streams_count(
        bytes,
        BATCH_HEADER_BYTES + batch_tenant_len(bytes),
        batch_stream_count(bytes),
        batch_record_count(bytes),
        reader,
    );
}

} // verus!
