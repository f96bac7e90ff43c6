//! Decoding native batches into entries, events and borrowed views.
use vstd::prelude::*;
use vstd::utf8::encode_utf8;

use crate::error::NativeProtocolError;
use crate::hash::{fnv_bytes, fnv_extend, fnv_push, fnv_step, FNV_OFFSET};
use crate::labels::{clone_fields, collect_pairs, fields_view, LabelMap, MetadataField, Pairs};
use crate::native_batch::{
    parse_batch, read_batch, total_entries, BatchReader, BorrowedStream, WireBatch, WireEntry,
    WireStream,
};
use crate::native_wire::str_pairs;
use crate::record::{
    entries_view, events_view, CompressionCohortId, EntryModel, EventModel, LokiEntry,
    OtlpLogEvent,
};

verus! {

broadcast use vstd::seq_lib::group_seq_properties;

/// Field name prefix of stream labels.
pub const LABEL_PREFIX: &'static str = "resource.loki.label.";

/// Field name prefix of structured metadata.
pub const METADATA_PREFIX: &'static str = "attr.loki.metadata.";

/// Field name of the tenant.
pub const TENANT_FIELD: &'static str = "resource.loki.tenant";

/// The entry that a stream's wire entry stands for.
pub open spec fn entry_of(labels: Pairs, entry: WireEntry) -> EntryModel {
    EntryModel {
        timestamp: entry.timestamp as i64,
        labels: collect_pairs(labels),
        line: entry.line,
        metadata: collect_pairs(entry.metadata),
    }
}

/// The entries of a stream.
pub open spec fn stream_entries(stream: WireStream) -> Seq<EntryModel> {
    stream.entries.map_values(|entry: WireEntry| entry_of(stream.labels, entry))
}

/// The entries of all streams in order.
pub open spec fn entries_of(streams: Seq<WireStream>) -> Seq<EntryModel>
    decreases streams.len(),
{
    if streams.len() == 0 {
        Seq::empty()
    } else {
        entries_of(streams.drop_last()) + stream_entries(streams.last())
    }
}

/// Hash state after one label: key, separator, value, terminator.
pub open spec fn cohort_step(state: u64, key: Seq<char>, value: Seq<char>) -> u64 {
    fnv_step(
        fnv_bytes(fnv_step(fnv_bytes(state, encode_utf8(key)), 0xff), encode_utf8(value)),
        0xfe,
    )
}

/// Compression cohort of a label list.
pub open spec fn cohort_of(labels: Pairs) -> u64
    decreases labels.len(),
{
    if labels.len() == 0 {
        FNV_OFFSET
    } else {
        cohort_step(cohort_of(labels.drop_last()), labels.last().0, labels.last().1)
    }
}

/// Pairs with a prefix before every key.
pub open spec fn prefixed(prefix: Seq<char>, pairs: Pairs) -> Pairs {
    pairs.map_values(|pair: (Seq<char>, Seq<char>)| (prefix + pair.0, pair.1))
}

/// Indexed fields of an event: tenant, labels, metadata.
pub open spec fn event_fields(tenant: Seq<char>, labels: Pairs, metadata: Pairs) -> Pairs {
    seq![(TENANT_FIELD@, tenant)] + prefixed(LABEL_PREFIX@, labels) + prefixed(
        METADATA_PREFIX@,
        metadata,
    )
}

/// The event that a stream's wire entry stands for.
pub open spec fn event_of(tenant: Seq<char>, labels: Pairs, entry: WireEntry) -> EventModel {
    EventModel {
        timestamp: entry.timestamp as u64,
        message: entry.line,
        fields: event_fields(tenant, labels, entry.metadata),
        cohort: cohort_of(labels),
    }
}

/// The events of a stream.
pub open spec fn stream_events(tenant: Seq<char>, stream: WireStream) -> Seq<EventModel> {
    stream.entries.map_values(|entry: WireEntry| event_of(tenant, stream.labels, entry))
}

/// The events of all streams in order.
pub open spec fn events_of(tenant: Seq<char>, streams: Seq<WireStream>) -> Seq<EventModel>
    decreases streams.len(),
{
    if streams.len() == 0 {
        Seq::empty()
    } else {
        events_of(tenant, streams.drop_last()) + stream_events(tenant, streams.last())
    }
}

/// Decoded stream-grouped native append or query-result batch.
#[derive(Debug, PartialEq, Eq)]
pub struct NativeLogBatch {
    /// Tenant whose records are carried by the batch.
    pub tenant: String,
    /// Flattened records; stream labels are repeated only after decoding.
    pub entries: Vec<LokiEntry>,
}

/// Collects borrowed pairs into a map.
pub fn collect_borrowed(pairs: &Vec<(&str, &str)>) -> (map: LabelMap)
    ensures
        map@ == collect_pairs(str_pairs(pairs@)),
{
    let mut map = LabelMap::new();
    let ghost all = str_pairs(pairs@);
    let mut index: usize = 0;
    proof {
        assert(all.subrange(0, 0) =~= Pairs::empty());
    }
    while index < pairs.len()
        invariant
            index <= pairs@.len(),
            all == str_pairs(pairs@),
            map@ == collect_pairs(all.subrange(0, index as int)),
        decreases pairs@.len() - index,
    {
        proof {
            assert(all.subrange(0, index + 1).drop_last() =~= all.subrange(0, index as int));
        }
        let _ = map.insert(pairs[index].0.to_owned(), pairs[index].1.to_owned());
        index = index + 1;
    }
    proof {
        assert(all.subrange(0, index as int) =~= all);
    }
    map
}

/// Appends the entries of one stream.
fn append_stream_entries(stream: &BorrowedStream<'_>, entries: &mut Vec<LokiEntry>)
    requires
        forall|i: int| 0 <= i < stream.entries@.len() ==> (#[trigger] stream.entries@[i]).timestamp <= i64::MAX,
    ensures
        entries_view(final(entries)@) == entries_view(old(entries)@) + stream_entries(stream@),
{
    let labels = collect_borrowed(&stream.labels);
    let ghost before = entries_view(entries@);
    let ghost added = stream_entries(stream@);
    let mut index: usize = 0;
    proof {
        assert(before + added.subrange(0, 0) =~= before);
    }
    while index < stream.entries.len()
        invariant
            index <= stream.entries@.len(),
            labels@ == collect_pairs(str_pairs(stream.labels@)),
            added == stream_entries(stream@),
            forall|i: int| 0 <= i < stream.entries@.len() ==> (#[trigger] stream.entries@[i]).timestamp <= i64::MAX,
            entries_view(entries@) == before + added.subrange(0, index as int),
        decreases stream.entries@.len() - index,
    {
        let borrowed = &stream.entries[index];
        let entry = LokiEntry {
            timestamp_unix_nanos: borrowed.timestamp as i64,
            labels: labels.clone(),
            line: borrowed.line.to_owned(),
            structured_metadata: collect_borrowed(&borrowed.metadata),
        };
        proof {
            assert(stream@.entries[index as int] == borrowed@);
            assert(entry@ == added[index as int]);
            assert(entries_view(entries@.push(entry)) =~= entries_view(entries@).push(entry@));
            assert(before + added.subrange(0, index + 1) =~= (before + added.subrange(
                0,
                index as int,
            )).push(added[index as int]));
        }
        entries.push(entry);
        index = index + 1;
    }
    proof {
        assert(added.subrange(0, index as int) =~= added);
    }
}

/// Every timestamp of a parsed batch is in the signed range.
pub open spec fn timestamps_fit(streams: Seq<WireStream>) -> bool {
    forall|i: int, j: int|
        0 <= i < streams.len() && 0 <= j < streams[i].entries.len() ==> (
        #[trigger] streams[i].entries[j]).timestamp <= i64::MAX
}

proof fn lemma_parsed_entries_fit(bytes: Seq<u8>, at: int, count: nat, reader: BatchReader)
    ensures
        crate::native_batch::parse_entries(bytes, at, count, reader) matches Ok((entries, _))
            ==> forall|j: int| 0 <= j < entries.len() ==> (#[trigger] entries[j]).timestamp <= i64::MAX,
    decreases count,
{
    if count > 0 {
        lemma_parsed_entries_fit(bytes, at, (count - 1) as nat, reader);
    }
}

proof fn lemma_parsed_streams_fit(
    bytes: Seq<u8>,
    at: int,
    count: nat,
    declared: nat,
    reader: BatchReader,
)
    ensures
        crate::native_batch::parse_streams(bytes, at, count, declared, reader) matches Ok(
            (streams, _),
        ) ==> timestamps_fit(streams),
    decreases count,
{
    if count > 0 {
        lemma_parsed_streams_fit(bytes, at, (count - 1) as nat, declared, reader);
        match crate::native_batch::parse_streams(
            bytes,
            at,
            (count - 1) as nat,
            declared,
            reader,
        ) {
            Err(_) => {},
            Ok((streams, next)) => {
                match crate::native_batch::parse_stream(
                    bytes,
                    next,
                    total_entries(streams),
                    declared,
                    reader,
                ) {
                    Err(_) => {},
                    Ok((stream, _)) => {
                        let label_count = crate::codec::le_value(bytes.subrange(next, next + 2));
                        let entry_count = crate::codec::le_value(
                            bytes.subrange(next + 4, next + 8),
                        );
                        match crate::native_wire::parse_pairs(
                            bytes,
                            next + 8,
                            label_count,
                            crate::error::NativeField::LabelKey,
                            crate::error::NativeField::LabelValue,
                            NativeProtocolError::BadLabel,
                        ) {
                            Err(_) => {},
                            Ok((_, body)) => {
                                lemma_parsed_entries_fit(bytes, body, entry_count, reader);
                            },
                        }
                        let all = streams.push(stream);
                        assert forall|i: int, j: int|
                            0 <= i < all.len() && 0 <= j < all[i].entries.len() implies (
                        #[trigger] all[i].entries[j]).timestamp <= i64::MAX by {
                            if i < streams.len() {
                                assert(all[i] == streams[i]);
                            } else {
                                assert(all[i] == stream);
                            }
                        }
                    },
                }
            },
        }
    }
}

/// A batch that parses has timestamps in the signed range.
pub proof fn lemma_parsed_batch_fits(bytes: Seq<u8>, reader: BatchReader)
    ensures
        parse_batch(bytes, reader) matches Ok(batch) ==> timestamps_fit(batch.streams),
{
    lemma_parsed_streams_fit(
        bytes,
        crate::native_batch::BATCH_HEADER_BYTES + crate::native_batch::batch_tenant_len(bytes),
        crate::native_batch::batch_stream_count(bytes),
        crate::native_batch::batch_record_count(bytes),
        reader,
    );
}

/// Decodes and fully validates a grouped native log batch.
pub fn decode_native_log_batch(payload: &[u8]) -> (result: Result<
    NativeLogBatch,
    NativeProtocolError,
>)
    ensures
        match result {
            Ok(batch) => parse_batch(payload@, BatchReader::Entries) matches Ok(wire)
                && batch.tenant@ == wire.tenant && entries_view(batch.entries@) == entries_of(
                wire.streams,
            ),
            Err(error) => parse_batch(payload@, BatchReader::Entries) == Err::<WireBatch, _>(error),
        },
{
    let batch = match read_batch(payload, BatchReader::Entries) {
        Ok(batch) => batch,
        Err(error) => return Err(error),
    };
    let ghost streams = batch@.streams;
    proof {
        lemma_parsed_batch_fits(payload@, BatchReader::Entries);
    }
    let mut entries: Vec<LokiEntry> = Vec::new();
    let mut index: usize = 0;
    proof {
        assert(streams.subrange(0, 0) =~= Seq::<WireStream>::empty());
        assert(entries_view(entries@) =~= Seq::<EntryModel>::empty());
    }
    while index < batch.streams.len()
        invariant
            index <= batch.streams@.len(),
            streams == batch@.streams,
            timestamps_fit(streams),
            entries_view(entries@) == entries_of(streams.subrange(0, index as int)),
        decreases batch.streams@.len() - index,
    {
        proof {
            assert(streams.subrange(0, index + 1).drop_last() =~= streams.subrange(
                0,
                index as int,
            ));
            assert(streams[index as int] == batch.streams@[index as int]@);
            assert forall|i: int| 0 <= i < batch.streams@[index as int].entries@.len() implies (
            #[trigger] batch.streams@[index as int].entries@[i]).timestamp <= i64::MAX by {
                assert(streams[index as int].entries[i] == batch.streams@[index as int].entries@[i]@);
            }
        }
        append_stream_entries(&batch.streams[index], &mut entries);
        index = index + 1;
    }
    proof {
        assert(streams.subrange(0, index as int) =~= streams);
    }
    Ok(NativeLogBatch { tenant: batch.tenant.to_owned(), entries })
}

/// A key behind a prefix.
pub fn prefixed_key(prefix: &str, key: &str) -> (name: String)
    ensures
        name@ == prefix@ + key@,
{
    prefix.to_owned().concat(key)
}

/// Appends borrowed pairs as fields with prefixed names.
fn append_prefixed(fields: &mut Vec<MetadataField>, prefix: &str, pairs: &Vec<(&str, &str)>)
    ensures
        fields_view(final(fields)@) == fields_view(old(fields)@) + prefixed(
            prefix@,
            str_pairs(pairs@),
        ),
{
    let ghost before = fields_view(fields@);
    let ghost added = prefixed(prefix@, str_pairs(pairs@));
    let mut index: usize = 0;
    proof {
        assert(before + added.subrange(0, 0) =~= before);
    }
    while index < pairs.len()
        invariant
            index <= pairs@.len(),
            added == prefixed(prefix@, str_pairs(pairs@)),
            fields_view(fields@) == before + added.subrange(0, index as int),
        decreases pairs@.len() - index,
    {
        let field = MetadataField::new(
            prefixed_key(prefix, pairs[index].0),
            pairs[index].1.to_owned(),
        );
        proof {
            assert(field@ == added[index as int]);
            assert(fields_view(fields@.push(field)) =~= fields_view(fields@).push(field@));
            assert(before + added.subrange(0, index + 1) =~= (before + added.subrange(
                0,
                index as int,
            )).push(added[index as int]));
        }
        fields.push(field);
        index = index + 1;
    }
    proof {
        assert(added.subrange(0, index as int) =~= added);
    }
}

/// Folds one label into a cohort hash.
pub fn update_cohort_hash(state: u64, key: &str, value: &str) -> (next: u64)
    ensures
        next == cohort_step(state, key@, value@),
{
    let after_key: u64 = fnv_push(fnv_extend(state, key.as_bytes()), 0xff);
    fnv_push(fnv_extend(after_key, value.as_bytes()), 0xfe)
}

/// Compression cohort of borrowed labels.
fn cohort_hash(labels: &Vec<(&str, &str)>) -> (state: u64)
    ensures
        state == cohort_of(str_pairs(labels@)),
{
    let ghost all = str_pairs(labels@);
    let mut state: u64 = FNV_OFFSET;
    let mut index: usize = 0;
    proof {
        assert(all.subrange(0, 0) =~= Pairs::empty());
    }
    while index < labels.len()
        invariant
            index <= labels@.len(),
            all == str_pairs(labels@),
            state == cohort_of(all.subrange(0, index as int)),
        decreases labels@.len() - index,
    {
        proof {
            assert(all.subrange(0, index + 1).drop_last() =~= all.subrange(0, index as int));
        }
        state = update_cohort_hash(state, labels[index].0, labels[index].1);
        index = index + 1;
    }
    proof {
        assert(all.subrange(0, index as int) =~= all);
    }
    state
}

/// Appends the events of one stream.
fn append_stream_events(tenant: &str, stream: &BorrowedStream<'_>, events: &mut Vec<OtlpLogEvent>)
    ensures
        events_view(final(events)@) == events_view(old(events)@) + stream_events(
            tenant@,
            stream@,
        ),
{
    let mut label_fields: Vec<MetadataField> = Vec::new();
    label_fields.push(MetadataField::new(TENANT_FIELD.to_owned(), tenant.to_owned()));
    proof {
        assert(fields_view(label_fields@) =~= seq![(TENANT_FIELD@, tenant@)]);
    }
    append_prefixed(&mut label_fields, LABEL_PREFIX, &stream.labels);
    let cohort: u64 = cohort_hash(&stream.labels);
    let ghost before = events_view(events@);
    let ghost added = stream_events(tenant@, stream@);
    let mut index: usize = 0;
    proof {
        assert(before + added.subrange(0, 0) =~= before);
    }
    while index < stream.entries.len()
        invariant
            index <= stream.entries@.len(),
            fields_view(label_fields@) == seq![(TENANT_FIELD@, tenant@)] + prefixed(
                LABEL_PREFIX@,
                str_pairs(stream.labels@),
            ),
            cohort == cohort_of(str_pairs(stream.labels@)),
            added == stream_events(tenant@, stream@),
            events_view(events@) == before + added.subrange(0, index as int),
        decreases stream.entries@.len() - index,
    {
        let borrowed = &stream.entries[index];
        let mut fields = clone_fields(&label_fields);
        append_prefixed(&mut fields, METADATA_PREFIX, &borrowed.metadata);
        let event = OtlpLogEvent {
            timestamp_unix_nanos: borrowed.timestamp,
            message: borrowed.line.to_owned(),
            fields,
            compression_cohort: CompressionCohortId(cohort),
        };
        proof {
            assert(stream@.entries[index as int] == borrowed@);
            assert(event@ == added[index as int]);
            assert(events_view(events@.push(event)) =~= events_view(events@).push(event@));
            assert(before + added.subrange(0, index + 1) =~= (before + added.subrange(
                0,
                index as int,
            )).push(added[index as int]));
        }
        events.push(event);
        index = index + 1;
    }
    proof {
        assert(added.subrange(0, index as int) =~= added);
    }
}

/// Decodes a grouped native batch directly into normalized indexing events.
pub fn decode_native_log_events(payload: &[u8]) -> (result: Result<
    (String, Vec<OtlpLogEvent>),
    NativeProtocolError,
>)
    ensures
        match result {
            Ok((tenant, events)) => parse_batch(payload@, BatchReader::Events) matches Ok(wire)
                && tenant@ == wire.tenant && events_view(events@) == events_of(
                wire.tenant,
                wire.streams,
            ),
            Err(error) => parse_batch(payload@, BatchReader::Events) == Err::<WireBatch, _>(error),
        },
{
    let batch = match read_batch(payload, BatchReader::Events) {
        Ok(batch) => batch,
        Err(error) => return Err(error),
    };
    let ghost streams = batch@.streams;
    let mut events: Vec<OtlpLogEvent> = Vec::new();
    let mut index: usize = 0;
    proof {
        assert(streams.subrange(0, 0) =~= Seq::<WireStream>::empty());
        assert(events_view(events@) =~= Seq::<EventModel>::empty());
    }
    while index < batch.streams.len()
        invariant
            index <= batch.streams@.len(),
            streams == batch@.streams,
            events_view(events@) == events_of(
                batch.tenant@,
                streams.subrange(0, index as int),
            ),
        decreases batch.streams@.len() - index,
    {
        proof {
            assert(streams.subrange(0, index + 1).drop_last() =~= streams.subrange(
                0,
                index as int,
            ));
            assert(streams[index as int] == batch.streams@[index as int]@);
        }
        append_stream_events(batch.tenant, &batch.streams[index], &mut events);
        index = index + 1;
    }
    proof {
        assert(streams.subrange(0, index as int) =~= streams);
    }
    Ok((batch.tenant.to_owned(), events))
}

/// Fully validates a grouped native batch without keeping its records.
///
/// Compatibility sinks use this before reserving offsets.
pub fn validate_native_log_batch(payload: &[u8]) -> (result: Result<(), NativeProtocolError>)
    ensures
        match result {
            Ok(_) => parse_batch(payload@, BatchReader::Events) is Ok,
            Err(error) => parse_batch(payload@, BatchReader::Events) == Err::<WireBatch, _>(error),
        },
{
    match read_batch(payload, BatchReader::Events) {
        Ok(_) => Ok(()),
        Err(error) => Err(error),
    }
}

} // verus!
