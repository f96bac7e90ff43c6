//! What holds of native batches across encoding and decoding.
use vstd::prelude::*;
use vstd::utf8::{decode_utf8, encode_utf8, encode_utf8_decode_utf8, encode_utf8_valid_utf8};

use crate::codec::{
    le_bytes, le_value, lemma_le_bytes_len, lemma_le_round_trip, lemma_pow256_values,
};
use crate::error::{NativeField, NativeProtocolError};
use crate::labels::{
    ascending, lemma_ascending_unique, lemma_collect_ascending, lemma_pairs_less_total,
    lemma_pairs_less_transitive, pairs_less, Pairs,
};
use crate::native_batch::{
    bad_metadata, batch_header_error, batch_magic, batch_record_count, batch_stream_count,
    batch_tenant_bytes, batch_tenant_len, parse_batch, parse_entries, parse_entry,
    parse_entry_body, parse_stream, parse_stream_body, parse_streams, total_entries, BatchReader,
    WireBatch, WireEntry, WireStream, BATCH_HEADER_BYTES, MAX_LABELS_PER_STREAM,
    MAX_METADATA_PER_ENTRY, MAX_STREAMS,
};
use crate::native_decode::{entries_of, entry_of, stream_entries};
use crate::native_encode::{
    add_entry, encode_error, encoded_batch, entries_error, entry_error, group_entries,
    grouping_keeps_count, pairs_error, stream_error, streams_ascend, streams_error, tenant_error,
    wire_batch, wire_entries, wire_entry, wire_entry_of, wire_stream, wire_streams,
};
use crate::native_wire::{
    fits_text16, holds_at, lemma_holds_split, lemma_parse_number, lemma_parse_pairs,
    lemma_parse_text, parse_pairs, wire_pairs, wire_ready,
};
use crate::record::EntryModel;

verus! {

broadcast use vstd::seq_lib::group_seq_properties;

/// Whether an entry is in the form that decoders accept.
pub open spec fn entry_ready(entry: WireEntry) -> bool {
    &&& entry.timestamp <= i64::MAX
    &&& encode_utf8(entry.line).len() <= u32::MAX
    &&& entry.metadata.len() <= MAX_METADATA_PER_ENTRY
    &&& wire_ready(entry.metadata)
}

/// Whether a stream is in the form that decoders accept.
pub open spec fn stream_ready(stream: WireStream) -> bool {
    &&& stream.labels.len() <= MAX_LABELS_PER_STREAM
    &&& wire_ready(stream.labels)
    &&& forall|i: int| 0 <= i < stream.entries.len() ==> entry_ready(#[trigger] stream.entries[i])
}

/// Whether a batch is in the form that decoders accept.
pub open spec fn batch_ready(batch: WireBatch) -> bool {
    &&& tenant_error(batch.tenant) is None
    &&& batch.streams.len() <= MAX_STREAMS
    &&& total_entries(batch.streams) <= u32::MAX
    &&& forall|i: int| 0 <= i < batch.streams.len() ==> stream_ready(#[trigger] batch.streams[i])
}

proof fn lemma_parse_entry(bytes: Seq<u8>, at: int, entry: WireEntry, reader: BatchReader)
    requires
        entry_ready(entry),
        holds_at(bytes, at, wire_entry(entry)),
    ensures
        parse_entry(bytes, at, reader) == Ok::<_, NativeProtocolError>(
            (entry, at + wire_entry(entry).len()),
        ),
        wire_entry(entry).len() >= 16,
{
    let line_len = encode_utf8(entry.line).len();
    let count = entry.metadata.len();
    let a = le_bytes(entry.timestamp, 8);
    let b = le_bytes(line_len, 4);
    let c = le_bytes(count, 2);
    let d = le_bytes(0, 2);
    let e = encode_utf8(entry.line);
    let f = wire_pairs(entry.metadata);
    lemma_pow256_values();
    lemma_le_bytes_len(entry.timestamp, 8);
    lemma_le_bytes_len(line_len, 4);
    lemma_le_bytes_len(count, 2);
    lemma_le_bytes_len(0, 2);
    lemma_holds_split(bytes, at, a + b + c + d + e, f);
    lemma_holds_split(bytes, at, a + b + c + d, e);
    lemma_holds_split(bytes, at, a + b + c, d);
    lemma_holds_split(bytes, at, a + b, c);
    lemma_holds_split(bytes, at, a, b);
    lemma_parse_number(bytes, at, entry.timestamp, 8, NativeField::Timestamp);
    lemma_parse_number(bytes, at + 8, line_len, 4, NativeField::LineLength);
    lemma_parse_number(bytes, at + 12, count, 2, NativeField::MetadataCount);
    lemma_parse_number(bytes, at + 14, 0, 2, NativeField::EntryReserved);
    lemma_parse_text(bytes, at + 16, entry.line, NativeField::LogLine);
    lemma_parse_pairs(
        bytes,
        at + 16 + line_len,
        entry.metadata,
        NativeField::MetadataKey,
        NativeField::MetadataValue,
        bad_metadata(reader, count),
    );
    assert(parse_entry_body(bytes, at + 16, entry.timestamp, line_len, count, reader) == Ok::<
        _,
        NativeProtocolError,
    >((entry, at + wire_entry(entry).len())));
}

proof fn lemma_parse_entries(
    bytes: Seq<u8>,
    at: int,
    entries: Seq<WireEntry>,
    reader: BatchReader,
)
    requires
        forall|i: int| 0 <= i < entries.len() ==> entry_ready(#[trigger] entries[i]),
        holds_at(bytes, at, wire_entries(entries)),
    ensures
        parse_entries(bytes, at, entries.len(), reader) == Ok::<_, NativeProtocolError>(
            (entries, at + wire_entries(entries).len()),
        ),
        wire_entries(entries).len() >= 16 * entries.len(),
    decreases entries.len(),
{
    if entries.len() > 0 {
        let front = entries.drop_last();
        assert forall|i: int| 0 <= i < front.len() implies entry_ready(#[trigger] front[i]) by {
            assert(front[i] == entries[i]);
        }
        lemma_holds_split(bytes, at, wire_entries(front), wire_entry(entries.last()));
        lemma_parse_entries(bytes, at, front, reader);
        assert(entry_ready(entries[entries.len() - 1]));
        lemma_parse_entry(bytes, at + wire_entries(front).len(), entries.last(), reader);
        assert(front.push(entries.last()) =~= entries);
    } else {
        assert(entries =~= Seq::empty());
    }
}

proof fn lemma_parse_stream(
    bytes: Seq<u8>,
    at: int,
    stream: WireStream,
    seen: nat,
    declared: nat,
    reader: BatchReader,
)
    requires
        stream_ready(stream),
        seen + stream.entries.len() <= declared <= u32::MAX,
        holds_at(bytes, at, wire_stream(stream)),
    ensures
        parse_stream(bytes, at, seen, declared, reader) == Ok::<_, NativeProtocolError>(
            (stream, at + wire_stream(stream).len()),
        ),
        wire_stream(stream).len() >= 16 * stream.entries.len(),
{
    let a = le_bytes(stream.labels.len(), 2);
    let b = le_bytes(0, 2);
    let c = le_bytes(stream.entries.len(), 4);
    let d = wire_pairs(stream.labels);
    let e = wire_entries(stream.entries);
    lemma_pow256_values();
    lemma_le_bytes_len(stream.labels.len(), 2);
    lemma_le_bytes_len(0, 2);
    lemma_le_bytes_len(stream.entries.len(), 4);
    lemma_holds_split(bytes, at, a + b + c + d, e);
    lemma_holds_split(bytes, at, a + b + c, d);
    lemma_holds_split(bytes, at, a + b, c);
    lemma_holds_split(bytes, at, a, b);
    lemma_parse_number(bytes, at, stream.labels.len(), 2, NativeField::LabelCount);
    lemma_parse_number(bytes, at + 2, 0, 2, NativeField::StreamReserved);
    lemma_parse_number(bytes, at + 4, stream.entries.len(), 4, NativeField::EntryCount);
    lemma_parse_pairs(
        bytes,
        at + 8,
        stream.labels,
        NativeField::LabelKey,
        NativeField::LabelValue,
        NativeProtocolError::BadLabel,
    );
    lemma_parse_entries(bytes, at + 8 + d.len(), stream.entries, reader);
}

proof fn lemma_total_front(streams: Seq<WireStream>)
    requires
        streams.len() > 0,
    ensures
        total_entries(streams) == total_entries(streams.drop_last()) + streams.last().entries.len(),
{
}

proof fn lemma_parse_streams(
    bytes: Seq<u8>,
    at: int,
    streams: Seq<WireStream>,
    declared: nat,
    reader: BatchReader,
)
    requires
        forall|i: int| 0 <= i < streams.len() ==> stream_ready(#[trigger] streams[i]),
        total_entries(streams) <= declared <= u32::MAX,
        holds_at(bytes, at, wire_streams(streams)),
    ensures
        parse_streams(bytes, at, streams.len(), declared, reader) == Ok::<_, NativeProtocolError>(
            (streams, at + wire_streams(streams).len()),
        ),
        wire_streams(streams).len() >= 16 * total_entries(streams),
    decreases streams.len(),
{
    if streams.len() > 0 {
        let front = streams.drop_last();
        assert forall|i: int| 0 <= i < front.len() implies stream_ready(#[trigger] front[i]) by {
            assert(front[i] == streams[i]);
        }
        lemma_total_front(streams);
        lemma_holds_split(bytes, at, wire_streams(front), wire_stream(streams.last()));
        lemma_parse_streams(bytes, at, front, declared, reader);
        assert(stream_ready(streams[streams.len() - 1]));
        lemma_parse_stream(
            bytes,
            at + wire_streams(front).len(),
            streams.last(),
            total_entries(front),
            declared,
            reader,
        );
        assert(front.push(streams.last()) =~= streams);
    } else {
        assert(streams =~= Seq::empty());
    }
}

/// The parts of a written batch follow each other.
pub proof fn lemma_batch_parts(batch: WireBatch)
    ensures
        ({
            let bytes = wire_batch(batch);
            let tenant = encode_utf8(batch.tenant);
            &&& bytes.len() == 16 + tenant.len() + wire_streams(batch.streams).len()
            &&& holds_at(bytes, 0, batch_magic())
            &&& holds_at(bytes, 4, le_bytes(tenant.len(), 2))
            &&& holds_at(bytes, 6, le_bytes(batch.streams.len(), 2))
            &&& holds_at(bytes, 8, le_bytes(total_entries(batch.streams), 4))
            &&& holds_at(bytes, 12, le_bytes(0, 4))
            &&& holds_at(bytes, 16, tenant)
            &&& holds_at(bytes, 16int + tenant.len(), wire_streams(batch.streams))
        }),
{
    let bytes = wire_batch(batch);
    let tenant = encode_utf8(batch.tenant);
    let total = total_entries(batch.streams);
    let m = batch_magic();
    let a = le_bytes(tenant.len(), 2);
    let b = le_bytes(batch.streams.len(), 2);
    let c = le_bytes(total, 4);
    let d = le_bytes(0, 4);
    let body = wire_streams(batch.streams);
    lemma_le_bytes_len(tenant.len(), 2);
    lemma_le_bytes_len(batch.streams.len(), 2);
    lemma_le_bytes_len(total, 4);
    lemma_le_bytes_len(0, 4);
    assert(bytes.subrange(0, bytes.len() as int) =~= bytes);
    lemma_holds_split(bytes, 0, m + a + b + c + d + tenant, body);
    lemma_holds_split(bytes, 0, m + a + b + c + d, tenant);
    lemma_holds_split(bytes, 0, m + a + b + c, d);
    lemma_holds_split(bytes, 0, m + a + b, c);
    lemma_holds_split(bytes, 0, m + a, b);
    lemma_holds_split(bytes, 0, m, a);
}

/// Every reader gets back the batch that was written.
pub proof fn batch_round_trip(batch: WireBatch, reader: BatchReader)
    requires
        batch_ready(batch),
    ensures
        parse_batch(wire_batch(batch), reader) == Ok::<_, NativeProtocolError>(batch),
{
    let bytes = wire_batch(batch);
    let tenant = encode_utf8(batch.tenant);
    let total = total_entries(batch.streams);
    let start = BATCH_HEADER_BYTES + tenant.len();
    lemma_batch_parts(batch);
    lemma_pow256_values();
    lemma_le_bytes_len(tenant.len(), 2);
    lemma_le_bytes_len(batch.streams.len(), 2);
    lemma_le_bytes_len(total, 4);
    lemma_le_round_trip(tenant.len(), 2);
    lemma_le_round_trip(batch.streams.len(), 2);
    lemma_le_round_trip(total, 4);
    assert(le_bytes(0, 4) =~= seq![0u8, 0u8, 0u8, 0u8]) by {
        reveal_with_fuel(le_bytes, 5);
    }
    assert(batch_tenant_bytes(bytes) == tenant);
    encode_utf8_valid_utf8(batch.tenant);
    encode_utf8_decode_utf8(batch.tenant);
    assert(batch_header_error(bytes) is None);
    lemma_parse_streams(bytes, start, batch.streams, total, reader);
}

proof fn lemma_pairs_fit(pairs: Pairs, key_field: NativeField, value_field: NativeField)
    requires
        pairs_error(pairs, key_field, value_field) is None,
    ensures
        forall|i: int|
            0 <= i < pairs.len() ==> fits_text16((#[trigger] pairs[i]).0) && fits_text16(
                pairs[i].1,
            ),
    decreases pairs.len(),
{
    if pairs.len() > 0 {
        let front = pairs.drop_last();
        lemma_pairs_fit(front, key_field, value_field);
        assert forall|i: int| 0 <= i < pairs.len() implies fits_text16((#[trigger] pairs[i]).0)
            && fits_text16(pairs[i].1) by {
            if i < front.len() {
                assert(front[i] == pairs[i]);
            }
        }
    }
}

/// Whether a map is ascending and binds no empty key.
pub open spec fn proper_map(pairs: Pairs) -> bool {
    &&& ascending(pairs)
    &&& forall|i: int| 0 <= i < pairs.len() ==> (#[trigger] pairs[i]).0.len() > 0
}

proof fn lemma_proper_ready(pairs: Pairs, key_field: NativeField, value_field: NativeField)
    requires
        proper_map(pairs),
        pairs_error(pairs, key_field, value_field) is None,
    ensures
        wire_ready(pairs),
{
    lemma_pairs_fit(pairs, key_field, value_field);
    assert forall|i: int, j: int| 0 <= i < j < pairs.len() implies (#[trigger] pairs[i]).0 != (
    #[trigger] pairs[j]).0 by {
        if pairs[i].0 == pairs[j].0 {
            lemma_ascending_unique(pairs, i, j);
        }
    }
}

proof fn lemma_entries_error_each(entries: Seq<WireEntry>)
    requires
        entries_error(entries) is None,
    ensures
        forall|i: int| 0 <= i < entries.len() ==> entry_error(#[trigger] entries[i]) is None,
    decreases entries.len(),
{
    if entries.len() > 0 {
        let front = entries.drop_last();
        lemma_entries_error_each(front);
        assert forall|i: int| 0 <= i < entries.len() implies entry_error(
            #[trigger] entries[i],
        ) is None by {
            if i < front.len() {
                assert(front[i] == entries[i]);
            }
        }
    }
}

proof fn lemma_streams_error_each(streams: Seq<WireStream>)
    requires
        streams_error(streams) is None,
    ensures
        forall|i: int| 0 <= i < streams.len() ==> stream_error(#[trigger] streams[i]) is None,
    decreases streams.len(),
{
    if streams.len() > 0 {
        let front = streams.drop_last();
        lemma_streams_error_each(front);
        assert forall|i: int| 0 <= i < streams.len() implies stream_error(
            #[trigger] streams[i],
        ) is None by {
            if i < front.len() {
                assert(front[i] == streams[i]);
            }
        }
    }
}

/// Whether an entry has proper maps and a timestamp that is not negative.
pub open spec fn proper_entry(entry: EntryModel) -> bool {
    entry.timestamp >= 0 && proper_map(entry.labels) && proper_map(entry.metadata)
}

spec fn proper_wire(entry: WireEntry) -> bool {
    entry.timestamp <= i64::MAX && proper_map(entry.metadata)
}

spec fn proper_stream(stream: WireStream) -> bool {
    &&& proper_map(stream.labels)
    &&& forall|i: int| 0 <= i < stream.entries.len() ==> proper_wire(#[trigger] stream.entries[i])
}

spec fn proper_streams(streams: Seq<WireStream>) -> bool {
    forall|i: int| 0 <= i < streams.len() ==> proper_stream(#[trigger] streams[i])
}

proof fn lemma_add_entry_proper(streams: Seq<WireStream>, labels: Pairs, entry: WireEntry)
    requires
        proper_streams(streams),
        proper_map(labels),
        proper_wire(entry),
    ensures
        proper_streams(add_entry(streams, labels, entry)),
    decreases streams.len(),
{
    let result = add_entry(streams, labels, entry);
    if streams.len() == 0 {
        assert(result[0].entries =~= seq![entry]);
        assert(proper_stream(result[0]));
    } else {
        let rest = streams.drop_first();
        assert(proper_stream(streams[0]));
        assert forall|i: int| 0 <= i < rest.len() implies proper_stream(#[trigger] rest[i]) by {
            assert(rest[i] == streams[i + 1]);
        }
        if streams[0].labels == labels {
            assert(proper_stream(result[0])) by {
                let grown = streams[0].entries.push(entry);
                assert forall|i: int| 0 <= i < grown.len() implies proper_wire(
                    #[trigger] grown[i],
                ) by {
                    if i < streams[0].entries.len() {
                        assert(grown[i] == streams[0].entries[i]);
                    }
                }
            }
            assert forall|i: int| 0 <= i < result.len() implies proper_stream(
                #[trigger] result[i],
            ) by {
                if i > 0 {
                    assert(result[i] == rest[i - 1]);
                }
            }
        } else if pairs_less(labels, streams[0].labels) {
            assert(proper_stream(result[0]));
            assert forall|i: int| 0 <= i < result.len() implies proper_stream(
                #[trigger] result[i],
            ) by {
                if i > 0 {
                    assert(result[i] == streams[i - 1]);
                }
            }
        } else {
            lemma_add_entry_proper(rest, labels, entry);
            let tail = add_entry(rest, labels, entry);
            assert forall|i: int| 0 <= i < result.len() implies proper_stream(
                #[trigger] result[i],
            ) by {
                if i > 0 {
                    assert(result[i] == tail[i - 1]);
                }
            }
        }
    }
}

proof fn lemma_group_proper(entries: Seq<EntryModel>)
    requires
        forall|i: int| 0 <= i < entries.len() ==> proper_entry(#[trigger] entries[i]),
    ensures
        proper_streams(group_entries(entries)),
    decreases entries.len(),
{
    if entries.len() > 0 {
        let front = entries.drop_last();
        assert forall|i: int| 0 <= i < front.len() implies proper_entry(#[trigger] front[i]) by {
            assert(front[i] == entries[i]);
        }
        lemma_group_proper(front);
        assert(proper_entry(entries[entries.len() - 1]));
        lemma_add_entry_proper(
            group_entries(front),
            entries.last().labels,
            wire_entry_of(entries.last()),
        );
    }
}

/// Labels and metadata of grouped entries are in map order.
pub proof fn lemma_grouped_labels(entries: Seq<EntryModel>)
    requires
        forall|i: int| 0 <= i < entries.len() ==> proper_entry(#[trigger] entries[i]),
    ensures
        forall|i: int|
            0 <= i < group_entries(entries).len() ==> ascending(
                (#[trigger] group_entries(entries)[i]).labels,
            ),
        forall|i: int, j: int|
            0 <= i < group_entries(entries).len() && 0 <= j < group_entries(
                entries,
            )[i].entries.len() ==> ascending(
                (#[trigger] group_entries(entries)[i].entries[j]).metadata,
            ),
{
    let streams = group_entries(entries);
    lemma_group_proper(entries);
    assert forall|i: int| 0 <= i < streams.len() implies ascending(
        (#[trigger] streams[i]).labels,
    ) by {
        assert(proper_stream(streams[i]));
    }
    assert forall|i: int, j: int|
        0 <= i < streams.len() && 0 <= j < streams[i].entries.len() implies ascending(
        (#[trigger] streams[i].entries[j]).metadata,
    ) by {
        assert(proper_stream(streams[i]));
        assert(proper_wire(streams[i].entries[j]));
    }
}

proof fn lemma_add_entry_first(streams: Seq<WireStream>, labels: Pairs, entry: WireEntry, floor: Pairs)
    requires
        forall|i: int| 0 <= i < streams.len() ==> pairs_less(floor, (#[trigger] streams[i]).labels),
        pairs_less(floor, labels),
    ensures
        forall|i: int|
            0 <= i < add_entry(streams, labels, entry).len() ==> pairs_less(
                floor,
                (#[trigger] add_entry(streams, labels, entry)[i]).labels,
            ),
    decreases streams.len(),
{
    let result = add_entry(streams, labels, entry);
    if streams.len() > 0 {
        let rest = streams.drop_first();
        assert forall|i: int| 0 <= i < rest.len() implies pairs_less(
            floor,
            (#[trigger] rest[i]).labels,
        ) by {
            assert(rest[i] == streams[i + 1]);
        }
        lemma_add_entry_first(rest, labels, entry, floor);
        let tail = add_entry(rest, labels, entry);
        assert forall|i: int| 0 <= i < result.len() implies pairs_less(
            floor,
            (#[trigger] result[i]).labels,
        ) by {
            if i > 0 {
                if streams[0].labels == labels {
                    assert(result[i] == rest[i - 1]);
                } else if pairs_less(labels, streams[0].labels) {
                    assert(result[i] == streams[i - 1]);
                } else {
                    assert(result[i] == tail[i - 1]);
                }
            } else {
                if !(streams[0].labels == labels || pairs_less(labels, streams[0].labels)) {
                    assert(result[0] == streams[0]);
                }
            }
        }
    }
}

proof fn lemma_add_entry_ascends(streams: Seq<WireStream>, labels: Pairs, entry: WireEntry)
    requires
        streams_ascend(streams),
    ensures
        streams_ascend(add_entry(streams, labels, entry)),
    decreases streams.len(),
{
    let result = add_entry(streams, labels, entry);
    if streams.len() > 0 {
        let rest = streams.drop_first();
        assert(streams_ascend(rest)) by {
            assert forall|i: int, j: int| 0 <= i < j < rest.len() implies pairs_less(
                (#[trigger] rest[i]).labels,
                (#[trigger] rest[j]).labels,
            ) by {
                assert(rest[i] == streams[i + 1] && rest[j] == streams[j + 1]);
            }
        }
        lemma_pairs_less_total(labels, streams[0].labels);
        if streams[0].labels == labels {
            assert forall|i: int, j: int| 0 <= i < j < result.len() implies pairs_less(
                (#[trigger] result[i]).labels,
                (#[trigger] result[j]).labels,
            ) by {
                assert(result[i].labels == streams[i].labels);
                assert(result[j].labels == streams[j].labels);
            }
        } else if pairs_less(labels, streams[0].labels) {
            assert forall|i: int, j: int| 0 <= i < j < result.len() implies pairs_less(
                (#[trigger] result[i]).labels,
                (#[trigger] result[j]).labels,
            ) by {
                assert(result[j] == streams[j - 1]);
                if i > 0 {
                    assert(result[i] == streams[i - 1]);
                } else if j > 1 {
                    lemma_pairs_less_transitive(labels, streams[0].labels, streams[j - 1].labels);
                }
            }
        } else {
            lemma_add_entry_ascends(rest, labels, entry);
            assert forall|i: int| 0 <= i < rest.len() implies pairs_less(
                streams[0].labels,
                (#[trigger] rest[i]).labels,
            ) by {
                assert(rest[i] == streams[i + 1]);
            }
            lemma_add_entry_first(rest, labels, entry, streams[0].labels);
            let tail = add_entry(rest, labels, entry);
            assert forall|i: int, j: int| 0 <= i < j < result.len() implies pairs_less(
                (#[trigger] result[i]).labels,
                (#[trigger] result[j]).labels,
            ) by {
                assert(result[j] == tail[j - 1]);
                if i > 0 {
                    assert(result[i] == tail[i - 1]);
                }
            }
        }
    }
}

/// Streams are written in strictly ascending label order: one per label map.
pub proof fn grouped_streams_ascend(entries: Seq<EntryModel>)
    ensures
        streams_ascend(group_entries(entries)),
    decreases entries.len(),
{
    if entries.len() > 0 {
        grouped_streams_ascend(entries.drop_last());
        lemma_add_entry_ascends(
            group_entries(entries.drop_last()),
            entries.last().labels,
            wire_entry_of(entries.last()),
        );
    }
}

/// The entries that carry these labels, in order.
pub open spec fn with_labels(entries: Seq<EntryModel>, labels: Pairs) -> Seq<EntryModel>
    decreases entries.len(),
{
    if entries.len() == 0 {
        Seq::empty()
    } else if entries.last().labels == labels {
        with_labels(entries.drop_last(), labels).push(entries.last())
    } else {
        with_labels(entries.drop_last(), labels)
    }
}

proof fn lemma_with_labels_concat(first: Seq<EntryModel>, second: Seq<EntryModel>, labels: Pairs)
    ensures
        with_labels(first + second, labels) == with_labels(first, labels) + with_labels(
            second,
            labels,
        ),
    decreases second.len(),
{
    if second.len() == 0 {
        assert(first + second =~= first);
        assert(with_labels(first, labels) + with_labels(second, labels) =~= with_labels(
            first,
            labels,
        ));
    } else {
        let whole = first + second;
        assert(whole.drop_last() =~= first + second.drop_last());
        lemma_with_labels_concat(first, second.drop_last(), labels);
        assert(with_labels(whole, labels) =~= with_labels(first, labels) + with_labels(
            second,
            labels,
        ));
    }
}

proof fn lemma_with_labels_uniform(entries: Seq<EntryModel>, own: Pairs, labels: Pairs)
    requires
        forall|i: int| 0 <= i < entries.len() ==> (#[trigger] entries[i]).labels == own,
    ensures
        with_labels(entries, labels) == if own == labels {
            entries
        } else {
            Seq::empty()
        },
    decreases entries.len(),
{
    if entries.len() > 0 {
        let front = entries.drop_last();
        assert forall|i: int| 0 <= i < front.len() implies (#[trigger] front[i]).labels == own by {
            assert(front[i] == entries[i]);
        }
        lemma_with_labels_uniform(front, own, labels);
        assert(entries[entries.len() - 1].labels == own);
        assert(front.push(entries.last()) =~= entries);
    } else {
        assert(entries =~= Seq::empty());
    }
}

proof fn lemma_entries_of_first(streams: Seq<WireStream>)
    requires
        streams.len() > 0,
    ensures
        entries_of(streams) == stream_entries(streams[0]) + entries_of(streams.drop_first()),
    decreases streams.len(),
{
    if streams.len() == 1 {
        assert(streams.drop_last() =~= Seq::empty());
        assert(streams.drop_first() =~= Seq::empty());
        assert(entries_of(streams) =~= stream_entries(streams[0]) + entries_of(
            streams.drop_first(),
        ));
    } else {
        let front = streams.drop_last();
        let rest = streams.drop_first();
        lemma_entries_of_first(front);
        assert(front.drop_first() =~= rest.drop_last());
        assert(entries_of(streams) =~= stream_entries(streams[0]) + entries_of(rest));
    }
}

/// Entries of a proper stream carry its labels.
proof fn lemma_stream_entries_labels(stream: WireStream)
    requires
        ascending(stream.labels),
    ensures
        forall|i: int|
            0 <= i < stream_entries(stream).len() ==> (
            #[trigger] stream_entries(stream)[i]).labels == stream.labels,
{
    lemma_collect_ascending(stream.labels);
}

proof fn lemma_no_entries_above(streams: Seq<WireStream>, labels: Pairs)
    requires
        proper_streams(streams),
        forall|i: int| 0 <= i < streams.len() ==> (#[trigger] streams[i]).labels != labels,
    ensures
        with_labels(entries_of(streams), labels) == Seq::<EntryModel>::empty(),
    decreases streams.len(),
{
    if streams.len() > 0 {
        let front = streams.drop_last();
        assert forall|i: int| 0 <= i < front.len() implies (#[trigger] front[i]).labels != labels
            && proper_stream(front[i]) by {
            assert(front[i] == streams[i]);
        }
        lemma_no_entries_above(front, labels);
        let last = streams[streams.len() - 1];
        assert(proper_stream(last));
        lemma_stream_entries_labels(last);
        lemma_with_labels_uniform(stream_entries(last), last.labels, labels);
        lemma_with_labels_concat(entries_of(front), stream_entries(last), labels);
        assert(with_labels(entries_of(streams), labels) =~= Seq::<EntryModel>::empty());
    }
}

proof fn lemma_add_entry_with_labels(
    streams: Seq<WireStream>,
    added: EntryModel,
    labels: Pairs,
)
    requires
        proper_streams(streams),
        streams_ascend(streams),
        proper_entry(added),
    ensures
        with_labels(
            entries_of(add_entry(streams, added.labels, wire_entry_of(added))),
            labels,
        ) == if added.labels == labels {
            with_labels(entries_of(streams), labels).push(added)
        } else {
            with_labels(entries_of(streams), labels)
        },
    decreases streams.len(),
{
    let entry = wire_entry_of(added);
    let own = added.labels;
    let result = add_entry(streams, own, entry);
    lemma_collect_ascending(own);
    lemma_collect_ascending(added.metadata);
    assert(entry_of(own, entry) == added);
    let fresh = WireStream { labels: own, entries: seq![entry] };
    assert(stream_entries(fresh) =~= seq![added]);
    lemma_with_labels_uniform(seq![added], own, labels);
    let base = with_labels(entries_of(streams), labels);
    if streams.len() == 0 {
        lemma_entries_of_first(result);
        assert(result.drop_first() =~= Seq::empty());
        assert(entries_of(result) =~= seq![added]);
        assert(base =~= Seq::empty());
        assert(with_labels(entries_of(result), labels) =~= if own == labels {
            base.push(added)
        } else {
            base
        });
    } else {
        let rest = streams.drop_first();
        assert forall|i: int| 0 <= i < rest.len() implies proper_stream(#[trigger] rest[i]) by {
            assert(rest[i] == streams[i + 1]);
        }
        assert(streams_ascend(rest)) by {
            assert forall|i: int, j: int| 0 <= i < j < rest.len() implies pairs_less(
                (#[trigger] rest[i]).labels,
                (#[trigger] rest[j]).labels,
            ) by {
                assert(rest[i] == streams[i + 1] && rest[j] == streams[j + 1]);
            }
        }
        let head = streams[0];
        assert(proper_stream(head));
        lemma_stream_entries_labels(head);
        lemma_entries_of_first(streams);
        lemma_entries_of_first(result);
        lemma_with_labels_concat(stream_entries(head), entries_of(rest), labels);
        lemma_with_labels_uniform(stream_entries(head), head.labels, labels);
        if head.labels == own {
            let grown = WireStream { labels: own, entries: head.entries.push(entry) };
            assert(result[0] == grown);
            assert(result.drop_first() =~= rest);
            assert(stream_entries(grown) =~= stream_entries(head).push(added));
            lemma_with_labels_concat(stream_entries(grown), entries_of(rest), labels);
            lemma_stream_entries_labels(grown);
            lemma_with_labels_uniform(stream_entries(grown), own, labels);
            if own == labels {
                assert forall|i: int| 0 <= i < rest.len() implies (#[trigger] rest[i]).labels
                    != labels by {
                    assert(rest[i] == streams[i + 1]);
                    lemma_pairs_less_total(streams[0].labels, streams[i + 1].labels);
                }
                lemma_no_entries_above(rest, labels);
                assert(with_labels(entries_of(result), labels) =~= base.push(added));
            } else {
                assert(with_labels(entries_of(result), labels) =~= base);
            }
        } else if pairs_less(own, head.labels) {
            assert(result[0] == fresh);
            assert(result.drop_first() =~= streams);
            lemma_with_labels_concat(seq![added], entries_of(streams), labels);
            if own == labels {
                assert forall|i: int| 0 <= i < streams.len() implies (#[trigger] streams[i]).labels
                    != labels by {
                    if i > 0 {
                        lemma_pairs_less_transitive(own, streams[0].labels, streams[i].labels);
                    }
                    lemma_pairs_less_total(own, streams[i].labels);
                }
                lemma_no_entries_above(streams, labels);
                assert(with_labels(entries_of(result), labels) =~= base.push(added));
            } else {
                assert(with_labels(entries_of(result), labels) =~= base);
            }
        } else {
            let tail = add_entry(rest, own, entry);
            assert(result[0] == head);
            assert(result.drop_first() =~= tail);
            lemma_add_entry_with_labels(rest, added, labels);
            lemma_with_labels_concat(stream_entries(head), entries_of(tail), labels);
            assert(with_labels(entries_of(result), labels) =~= if own == labels {
                base.push(added)
            } else {
                base
            });
        }
    }
}

/// Grouping loses no entry and keeps the order of the entries of each label map.
pub proof fn grouping_keeps_stream_order(entries: Seq<EntryModel>, labels: Pairs)
    requires
        forall|i: int| 0 <= i < entries.len() ==> proper_entry(#[trigger] entries[i]),
    ensures
        with_labels(entries_of(group_entries(entries)), labels) == with_labels(entries, labels),
    decreases entries.len(),
{
    if entries.len() > 0 {
        let front = entries.drop_last();
        assert forall|i: int| 0 <= i < front.len() implies proper_entry(#[trigger] front[i]) by {
            assert(front[i] == entries[i]);
        }
        grouping_keeps_stream_order(front, labels);
        lemma_group_proper(front);
        grouped_streams_ascend(front);
        assert(proper_entry(entries[entries.len() - 1]));
        lemma_add_entry_with_labels(group_entries(front), entries.last(), labels);
    }
}

/// Every reader gets back what `encode_native_log_batch` wrote: the same tenant
/// and, stream by stream, the same entries in the same order. Maps with an empty
/// key are written but refused by every reader.
pub proof fn encoded_batch_round_trip(
    tenant: Seq<char>,
    entries: Seq<EntryModel>,
    reader: BatchReader,
)
    requires
        encode_error(tenant, entries) is None,
        forall|i: int| 0 <= i < entries.len() ==> proper_entry(#[trigger] entries[i]),
    ensures
        parse_batch(encoded_batch(tenant, entries), reader) == Ok::<_, NativeProtocolError>(
            WireBatch { tenant, streams: group_entries(entries) },
        ),
        entries_of(group_entries(entries)).len() == entries.len(),
        forall|labels: Pairs|
            #[trigger] with_labels(entries_of(group_entries(entries)), labels) == with_labels(
                entries,
                labels,
            ),
{
    let streams = group_entries(entries);
    let batch = WireBatch { tenant, streams };
    lemma_group_proper(entries);
    grouping_keeps_count(entries);
    lemma_streams_error_each(streams);
    assert forall|i: int| 0 <= i < streams.len() implies stream_ready(#[trigger] streams[i]) by {
        let stream = streams[i];
        assert(proper_stream(stream));
        assert(stream_error(stream) is None);
        lemma_proper_ready(stream.labels, NativeField::LabelKey, NativeField::LabelValue);
        lemma_entries_error_each(stream.entries);
        assert forall|j: int| 0 <= j < stream.entries.len() implies entry_ready(
            #[trigger] stream.entries[j],
        ) by {
            assert(proper_wire(stream.entries[j]));
            lemma_proper_ready(
                stream.entries[j].metadata,
                NativeField::MetadataKey,
                NativeField::MetadataValue,
            );
        }
    }
    batch_round_trip(batch, reader);
    lemma_entries_of_len(streams);
    assert forall|labels: Pairs|
        #[trigger] with_labels(entries_of(group_entries(entries)), labels) == with_labels(
            entries,
            labels,
        ) by {
        grouping_keeps_stream_order(entries, labels);
    }
}

proof fn lemma_entries_of_len(streams: Seq<WireStream>)
    ensures
        entries_of(streams).len() == total_entries(streams),
    decreases streams.len(),
{
    if streams.len() > 0 {
        lemma_entries_of_len(streams.drop_last());
    }
}

/// Entries of one stream come back exactly as they were given.
pub proof fn single_stream_round_trip(entries: Seq<EntryModel>, labels: Pairs)
    requires
        forall|i: int| 0 <= i < entries.len() ==> proper_entry(#[trigger] entries[i]),
        forall|i: int| 0 <= i < entries.len() ==> (#[trigger] entries[i]).labels == labels,
    ensures
        entries_of(group_entries(entries)) == entries,
{
    let result = entries_of(group_entries(entries));
    grouping_keeps_stream_order(entries, labels);
    grouping_keeps_count(entries);
    lemma_entries_of_len(group_entries(entries));
    lemma_with_labels_uniform(entries, labels, labels);
    lemma_with_labels_all(result, labels);
}

/// A selection as long as the whole is the whole.
proof fn lemma_with_labels_all(entries: Seq<EntryModel>, labels: Pairs)
    ensures
        with_labels(entries, labels).len() <= entries.len(),
        with_labels(entries, labels).len() == entries.len() ==> with_labels(entries, labels)
            == entries,
    decreases entries.len(),
{
    if entries.len() > 0 {
        let front = entries.drop_last();
        lemma_with_labels_all(front, labels);
        if with_labels(entries, labels).len() == entries.len() {
            assert(front.push(entries.last()) =~= entries);
        }
    } else {
        assert(with_labels(entries, labels) =~= entries);
    }
}

proof fn lemma_pairs_agree(
    bytes: Seq<u8>,
    at: int,
    count: nat,
    key_field: NativeField,
    value_field: NativeField,
    bad: NativeProtocolError,
    other: NativeProtocolError,
)
    ensures
        parse_pairs(bytes, at, count, key_field, value_field, bad) is Ok ==> parse_pairs(
            bytes,
            at,
            count,
            key_field,
            value_field,
            other,
        ) == parse_pairs(bytes, at, count, key_field, value_field, bad),
    decreases count,
{
    if count > 0 {
        lemma_pairs_agree(bytes, at, (count - 1) as nat, key_field, value_field, bad, other);
    }
}

proof fn lemma_pairs_advance(
    bytes: Seq<u8>,
    at: int,
    count: nat,
    key_field: NativeField,
    value_field: NativeField,
    bad: NativeProtocolError,
)
    ensures
        parse_pairs(bytes, at, count, key_field, value_field, bad) matches Ok((_, end)) ==> end
            >= at,
    decreases count,
{
    if count > 0 {
        lemma_pairs_advance(bytes, at, (count - 1) as nat, key_field, value_field, bad);
    }
}

proof fn lemma_entry_agrees(bytes: Seq<u8>, at: int, reader: BatchReader, other: BatchReader)
    ensures
        parse_entry(bytes, at, reader) is Ok ==> parse_entry(bytes, at, other) == parse_entry(
            bytes,
            at,
            reader,
        ),
        parse_entry(bytes, at, reader) matches Ok((_, end)) ==> end >= at + 16,
{
    if parse_entry(bytes, at, reader) is Ok {
        let line_len = le_value(bytes.subrange(at + 8, at + 12));
        let count = le_value(bytes.subrange(at + 12, at + 14));
        let body = at + 16 + line_len;
        lemma_pairs_agree(
            bytes,
            body,
            count,
            NativeField::MetadataKey,
            NativeField::MetadataValue,
            bad_metadata(reader, count),
            bad_metadata(other, count),
        );
        lemma_pairs_advance(
            bytes,
            body,
            count,
            NativeField::MetadataKey,
            NativeField::MetadataValue,
            bad_metadata(reader, count),
        );
    }
}

proof fn lemma_entries_agree(
    bytes: Seq<u8>,
    at: int,
    count: nat,
    reader: BatchReader,
    other: BatchReader,
)
    ensures
        parse_entries(bytes, at, count, reader) is Ok ==> parse_entries(bytes, at, count, other)
            == parse_entries(bytes, at, count, reader),
        parse_entries(bytes, at, count, reader) matches Ok((entries, end)) ==> end >= at + 16
            * count && entries.len() == count,
    decreases count,
{
    if count > 0 {
        lemma_entries_agree(bytes, at, (count - 1) as nat, reader, other);
        match parse_entries(bytes, at, (count - 1) as nat, reader) {
            Err(_) => {},
            Ok((_, next)) => {
                lemma_entry_agrees(bytes, next, reader, other);
            },
        }
    }
}

proof fn lemma_stream_agrees(
    bytes: Seq<u8>,
    at: int,
    seen: nat,
    declared: nat,
    reader: BatchReader,
    other: BatchReader,
)
    ensures
        parse_stream(bytes, at, seen, declared, reader) is Ok ==> parse_stream(
            bytes,
            at,
            seen,
            declared,
            other,
        ) == parse_stream(bytes, at, seen, declared, reader),
        parse_stream(bytes, at, seen, declared, reader) matches Ok((stream, end)) ==> end >= at
            + 16 * stream.entries.len(),
{
    if parse_stream(bytes, at, seen, declared, reader) is Ok {
        let label_count = le_value(bytes.subrange(at, at + 2));
        let entry_count = le_value(bytes.subrange(at + 4, at + 8));
        lemma_pairs_advance(
            bytes,
            at + 8,
            label_count,
            NativeField::LabelKey,
            NativeField::LabelValue,
            NativeProtocolError::BadLabel,
        );
        match parse_pairs(
            bytes,
            at + 8,
            label_count,
            NativeField::LabelKey,
            NativeField::LabelValue,
            NativeProtocolError::BadLabel,
        ) {
            Err(_) => {},
            Ok((_, next)) => {
                lemma_entries_agree(bytes, next, entry_count, reader, other);
            },
        }
        assert(parse_stream_body(bytes, at + 8, label_count, entry_count, seen, declared, reader)
            == parse_stream_body(bytes, at + 8, label_count, entry_count, seen, declared, other));
    }
}

proof fn lemma_streams_agree(
    bytes: Seq<u8>,
    at: int,
    count: nat,
    declared: nat,
    reader: BatchReader,
    other: BatchReader,
)
    ensures
        parse_streams(bytes, at, count, declared, reader) is Ok ==> parse_streams(
            bytes,
            at,
            count,
            declared,
            other,
        ) == parse_streams(bytes, at, count, declared, reader),
        parse_streams(bytes, at, count, declared, reader) matches Ok((streams, end)) ==> end >= at
            + 16 * total_entries(streams),
    decreases count,
{
    if count > 0 {
        lemma_streams_agree(bytes, at, (count - 1) as nat, declared, reader, other);
        match parse_streams(bytes, at, (count - 1) as nat, declared, reader) {
            Err(_) => {},
            Ok((streams, next)) => {
                lemma_stream_agrees(
                    bytes,
                    next,
                    total_entries(streams),
                    declared,
                    reader,
                    other,
                );
                match parse_stream(bytes, next, total_entries(streams), declared, reader) {
                    Err(_) => {},
                    Ok((stream, _)) => {
                        assert(streams.push(stream).drop_last() =~= streams);
                    },
                }
            },
        }
    }
}

/// All readers accept the same payloads and read the same batch from them.
pub proof fn readers_agree(bytes: Seq<u8>, reader: BatchReader, other: BatchReader)
    ensures
        parse_batch(bytes, reader) is Ok <==> parse_batch(bytes, other) is Ok,
        parse_batch(bytes, reader) is Ok ==> parse_batch(bytes, reader) == parse_batch(
            bytes,
            other,
        ),
{
    lemma_reader_implies(bytes, reader, other);
    lemma_reader_implies(bytes, other, reader);
}

proof fn lemma_reader_implies(bytes: Seq<u8>, reader: BatchReader, other: BatchReader)
    ensures
        parse_batch(bytes, reader) is Ok ==> parse_batch(bytes, other) == parse_batch(
            bytes,
            reader,
        ),
{
    if parse_batch(bytes, reader) is Ok {
        let start = BATCH_HEADER_BYTES + batch_tenant_len(bytes);
        lemma_streams_agree(
            bytes,
            start,
            batch_stream_count(bytes),
            batch_record_count(bytes),
            reader,
            other,
        );
    }
}

} // verus!
