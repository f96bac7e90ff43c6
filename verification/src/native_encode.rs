//! Encoding native batches, and what decoding gives back.
use vstd::prelude::*;
use vstd::utf8::{decode_utf8, encode_utf8, encode_utf8_decode_utf8, encode_utf8_valid_utf8};

use crate::codec::{le_bytes, put_bytes, put_le};
use crate::error::{NativeField, NativeProtocolError};
use crate::labels::{ascending, lemma_pairs_less_total, pairs_less, LabelMap, Pairs};
use crate::native_batch::{
    batch_magic, total_entries, WireBatch, WireEntry, WireStream, MAX_LABELS_PER_STREAM,
    MAX_METADATA_PER_ENTRY, MAX_STREAMS, MAX_TENANT_BYTES,
};
use crate::native_frame::MAX_NATIVE_FRAME_BYTES;
use crate::native_wire::{fits_text16, put_string16, put_u32, wire_pairs};
use crate::record::{entries_view, EntryModel, LokiEntry};

verus! {

broadcast use vstd::seq_lib::group_seq_properties;

/// Wire form of an entry.
pub open spec fn wire_entry(entry: WireEntry) -> Seq<u8> {
    le_bytes(entry.timestamp, 8) + le_bytes(encode_utf8(entry.line).len(), 4) + le_bytes(
        entry.metadata.len(),
        2,
    ) + le_bytes(0, 2) + encode_utf8(entry.line) + wire_pairs(entry.metadata)
}

/// Wire form of entries.
pub open spec fn wire_entries(entries: Seq<WireEntry>) -> Seq<u8>
    decreases entries.len(),
{
    if entries.len() == 0 {
        Seq::empty()
    } else {
        wire_entries(entries.drop_last()) + wire_entry(entries.last())
    }
}

/// Wire form of a stream.
pub open spec fn wire_stream(stream: WireStream) -> Seq<u8> {
    le_bytes(stream.labels.len(), 2) + le_bytes(0, 2) + le_bytes(stream.entries.len(), 4)
        + wire_pairs(stream.labels) + wire_entries(stream.entries)
}

/// Wire form of streams.
pub open spec fn wire_streams(streams: Seq<WireStream>) -> Seq<u8>
    decreases streams.len(),
{
    if streams.len() == 0 {
        Seq::empty()
    } else {
        wire_streams(streams.drop_last()) + wire_stream(streams.last())
    }
}

/// Wire form of a batch.
pub open spec fn wire_batch(batch: WireBatch) -> Seq<u8> {
    batch_magic() + le_bytes(encode_utf8(batch.tenant).len(), 2) + le_bytes(batch.streams.len(), 2)
        + le_bytes(total_entries(batch.streams), 4) + le_bytes(0, 4) + encode_utf8(batch.tenant)
        + wire_streams(batch.streams)
}

/// Wire entry of a log entry.
pub open spec fn wire_entry_of(entry: EntryModel) -> WireEntry {
    WireEntry { timestamp: entry.timestamp as nat, line: entry.line, metadata: entry.metadata }
}

/// Streams in ascending label order with one more entry.
pub open spec fn add_entry(streams: Seq<WireStream>, labels: Pairs, entry: WireEntry) -> Seq<
    WireStream,
>
    decreases streams.len(),
{
    if streams.len() == 0 {
        seq![WireStream { labels, entries: seq![entry] }]
    } else if streams[0].labels == labels {
        seq![WireStream { labels, entries: streams[0].entries.push(entry) }] + streams.drop_first()
    } else if pairs_less(labels, streams[0].labels) {
        seq![WireStream { labels, entries: seq![entry] }] + streams
    } else {
        seq![streams[0]] + add_entry(streams.drop_first(), labels, entry)
    }
}

/// Entries grouped by labels, streams in ascending label order.
pub open spec fn group_entries(entries: Seq<EntryModel>) -> Seq<WireStream>
    decreases entries.len(),
{
    if entries.len() == 0 {
        Seq::empty()
    } else {
        add_entry(
            group_entries(entries.drop_last()),
            entries.last().labels,
            wire_entry_of(entries.last()),
        )
    }
}

/// Why a tenant is refused, if it is.
pub open spec fn tenant_error(tenant: Seq<char>) -> Option<NativeProtocolError> {
    if tenant.len() == 0 {
        Some(NativeProtocolError::TenantEmpty)
    } else if encode_utf8(tenant).len() > MAX_TENANT_BYTES {
        Some(NativeProtocolError::TenantTooLong)
    } else {
        None
    }
}

/// The first pair that does not fit on the wire.
pub open spec fn pairs_error(
    pairs: Pairs,
    key_field: NativeField,
    value_field: NativeField,
) -> Option<NativeProtocolError>
    decreases pairs.len(),
{
    if pairs.len() == 0 {
        None
    } else {
        match pairs_error(pairs.drop_last(), key_field, value_field) {
            Some(error) => Some(error),
            None => if !fits_text16(pairs.last().0) {
                Some(NativeProtocolError::ExceedsU16(key_field))
            } else if !fits_text16(pairs.last().1) {
                Some(NativeProtocolError::ExceedsU16(value_field))
            } else {
                None
            },
        }
    }
}

/// Why an entry does not fit on the wire, if it does not.
pub open spec fn entry_error(entry: WireEntry) -> Option<NativeProtocolError> {
    if encode_utf8(entry.line).len() > u32::MAX {
        Some(NativeProtocolError::ExceedsU32(NativeField::LogLine))
    } else if entry.metadata.len() > MAX_METADATA_PER_ENTRY {
        Some(NativeProtocolError::TooMuchMetadata)
    } else {
        pairs_error(entry.metadata, NativeField::MetadataKey, NativeField::MetadataValue)
    }
}

/// The first entry that does not fit on the wire.
pub open spec fn entries_error(entries: Seq<WireEntry>) -> Option<NativeProtocolError>
    decreases entries.len(),
{
    if entries.len() == 0 {
        None
    } else {
        match entries_error(entries.drop_last()) {
            Some(error) => Some(error),
            None => entry_error(entries.last()),
        }
    }
}

/// Why a stream does not fit on the wire, if it does not.
pub open spec fn stream_error(stream: WireStream) -> Option<NativeProtocolError> {
    if stream.labels.len() > MAX_LABELS_PER_STREAM {
        Some(NativeProtocolError::TooManyLabels)
    } else {
        match pairs_error(stream.labels, NativeField::LabelKey, NativeField::LabelValue) {
            Some(error) => Some(error),
            None => entries_error(stream.entries),
        }
    }
}

/// The first stream that does not fit on the wire.
pub open spec fn streams_error(streams: Seq<WireStream>) -> Option<NativeProtocolError>
    decreases streams.len(),
{
    if streams.len() == 0 {
        None
    } else {
        match streams_error(streams.drop_last()) {
            Some(error) => Some(error),
            None => stream_error(streams.last()),
        }
    }
}

/// The wire form of entries of a tenant.
pub open spec fn encoded_batch(tenant: Seq<char>, entries: Seq<EntryModel>) -> Seq<u8> {
    wire_batch(WireBatch { tenant, streams: group_entries(entries) })
}

/// Why entries of a tenant cannot be encoded, if they cannot.
pub open spec fn encode_error(tenant: Seq<char>, entries: Seq<EntryModel>) -> Option<
    NativeProtocolError,
> {
    match tenant_error(tenant) {
        Some(error) => Some(error),
        None => if entries.len() > u32::MAX {
            Some(NativeProtocolError::TooManyRecords)
        } else if exists|i: int| 0 <= i < entries.len() && (#[trigger] entries[i]).timestamp < 0 {
            Some(NativeProtocolError::NegativeTimestamp)
        } else if group_entries(entries).len() > MAX_STREAMS {
            Some(NativeProtocolError::TooManyStreams)
        } else {
            match streams_error(group_entries(entries)) {
                Some(error) => Some(error),
                None => if encoded_batch(tenant, entries).len() > MAX_NATIVE_FRAME_BYTES {
                    Some(
                        NativeProtocolError::BatchTooLarge(
                            encoded_batch(tenant, entries).len() as u64,
                        ),
                    )
                } else {
                    None
                },
            }
        },
    }
}

proof fn lemma_pairs_error_prefix(pairs: Pairs, n: int, key_field: NativeField, value_field: NativeField)
    requires
        0 <= n <= pairs.len(),
        pairs_error(pairs.subrange(0, n), key_field, value_field) is Some,
    ensures
        pairs_error(pairs, key_field, value_field) == pairs_error(
            pairs.subrange(0, n),
            key_field,
            value_field,
        ),
    decreases pairs.len(),
{
    if n < pairs.len() {
        assert(pairs.drop_last().subrange(0, n) =~= pairs.subrange(0, n));
        lemma_pairs_error_prefix(pairs.drop_last(), n, key_field, value_field);
    } else {
        assert(pairs.subrange(0, n) =~= pairs);
    }
}

proof fn lemma_entries_error_prefix(entries: Seq<WireEntry>, n: int)
    requires
        0 <= n <= entries.len(),
        entries_error(entries.subrange(0, n)) is Some,
    ensures
        entries_error(entries) == entries_error(entries.subrange(0, n)),
    decreases entries.len(),
{
    if n < entries.len() {
        assert(entries.drop_last().subrange(0, n) =~= entries.subrange(0, n));
        lemma_entries_error_prefix(entries.drop_last(), n);
    } else {
        assert(entries.subrange(0, n) =~= entries);
    }
}

proof fn lemma_streams_error_prefix(streams: Seq<WireStream>, n: int)
    requires
        0 <= n <= streams.len(),
        streams_error(streams.subrange(0, n)) is Some,
    ensures
        streams_error(streams) == streams_error(streams.subrange(0, n)),
    decreases streams.len(),
{
    if n < streams.len() {
        assert(streams.drop_last().subrange(0, n) =~= streams.subrange(0, n));
        lemma_streams_error_prefix(streams.drop_last(), n);
    } else {
        assert(streams.subrange(0, n) =~= streams);
    }
}

/// Checks a tenant name.
pub fn validate_tenant(tenant: &str) -> (result: Result<(), NativeProtocolError>)
    ensures
        match result {
            Ok(_) => tenant_error(tenant@) is None,
            Err(error) => tenant_error(tenant@) == Some(error),
        },
{
    if tenant.is_empty() {
        return Err(NativeProtocolError::TenantEmpty);
    }
    if tenant.as_bytes().len() > MAX_TENANT_BYTES {
        return Err(NativeProtocolError::TenantTooLong);
    }
    Ok(())
}

/// Appends the pairs of a map.
pub fn put_map(
    out: &mut Vec<u8>,
    map: &LabelMap,
    key_field: NativeField,
    value_field: NativeField,
) -> (result: Result<(), NativeProtocolError>)
    ensures
        match result {
            Ok(_) => pairs_error(map@, key_field, value_field) is None && final(out)@ == old(out)@
                + wire_pairs(map@),
            Err(error) => pairs_error(map@, key_field, value_field) == Some(error),
        },
{
    let ghost before = out@;
    let ghost pairs = map@;
    let mut index: usize = 0;
    proof {
        assert(pairs.subrange(0, 0) =~= Pairs::empty());
        assert(before + wire_pairs(pairs.subrange(0, 0)) =~= before);
    }
    while index < map.len()
        invariant
            index <= pairs.len(),
            pairs == map@,
            pairs_error(pairs.subrange(0, index as int), key_field, value_field) is None,
            out@ == before + wire_pairs(pairs.subrange(0, index as int)),
        decreases pairs.len() - index,
    {
        let ghost part = pairs.subrange(0, index + 1);
        proof {
            assert(part.drop_last() =~= pairs.subrange(0, index as int));
            assert(part.last() == pairs[index as int]);
        }
        match put_string16(out, map.key_at(index), key_field) {
            Ok(_) => {},
            Err(error) => {
                proof {
                    lemma_pairs_error_prefix(pairs, index + 1, key_field, value_field);
                }
                return Err(error);
            },
        }
        match put_string16(out, map.value_at(index), value_field) {
            Ok(_) => {},
            Err(error) => {
                proof {
                    lemma_pairs_error_prefix(pairs, index + 1, key_field, value_field);
                }
                return Err(error);
            },
        }
        proof {
            assert(out@ =~= before + wire_pairs(part));
        }
        index = index + 1;
    }
    proof {
        assert(pairs.subrange(0, index as int) =~= pairs);
    }
    Ok(())
}

/// Entries that share their labels.
struct StreamGroup<'a> {
    labels: &'a LabelMap,
    entries: Vec<&'a LokiEntry>,
}

/// Wire entries of borrowed log entries.
spec fn group_wire(entries: Seq<&LokiEntry>) -> Seq<WireEntry> {
    entries.map_values(|entry: &LokiEntry| wire_entry_of(entry@))
}

impl<'a> View for StreamGroup<'a> {
    type V = WireStream;

    closed spec fn view(&self) -> WireStream {
        WireStream { labels: self.labels@, entries: group_wire(self.entries@) }
    }
}

spec fn groups_view(groups: Seq<StreamGroup>) -> Seq<WireStream> {
    groups.map_values(|group: StreamGroup| group@)
}

/// No grouped entry has a negative timestamp.
spec fn nonnegative(groups: Seq<StreamGroup>) -> bool {
    forall|g: int, i: int|
        0 <= g < groups.len() && 0 <= i < groups[g].entries@.len() ==> (
        #[trigger] groups[g].entries@[i]).timestamp_unix_nanos >= 0
}

/// Streams are in strictly ascending label order.
pub open spec fn streams_ascend(streams: Seq<WireStream>) -> bool {
    forall|i: int, j: int|
        0 <= i < j < streams.len() ==> pairs_less(
            (#[trigger] streams[i]).labels,
            (#[trigger] streams[j]).labels,
        )
}

/// Where an entry goes: to its stream, or before the first greater one.
proof fn lemma_add_entry_at(streams: Seq<WireStream>, labels: Pairs, entry: WireEntry, at: int)
    requires
        0 <= at <= streams.len(),
        forall|i: int| 0 <= i < at ==> pairs_less((#[trigger] streams[i]).labels, labels),
        at < streams.len() ==> !pairs_less(streams[at].labels, labels),
    ensures
        add_entry(streams, labels, entry) == if at < streams.len() && streams[at].labels == labels {
            streams.update(
                at,
                WireStream { labels, entries: streams[at].entries.push(entry) },
            )
        } else {
            streams.insert(at, WireStream { labels, entries: seq![entry] })
        },
    decreases streams.len(),
{
    let expected = if at < streams.len() && streams[at].labels == labels {
        streams.update(at, WireStream { labels, entries: streams[at].entries.push(entry) })
    } else {
        streams.insert(at, WireStream { labels, entries: seq![entry] })
    };
    if streams.len() == 0 {
        assert(add_entry(streams, labels, entry) =~= expected);
    } else if at == 0 {
        lemma_pairs_less_total(streams[0].labels, labels);
        assert(add_entry(streams, labels, entry) =~= expected);
    } else {
        lemma_pairs_less_total(streams[0].labels, labels);
        let rest = streams.drop_first();
        assert forall|i: int| 0 <= i < at - 1 implies pairs_less(
            (#[trigger] rest[i]).labels,
            labels,
        ) by {
            assert(rest[i] == streams[i + 1]);
        }
        lemma_add_entry_at(rest, labels, entry, at - 1);
        assert(add_entry(streams, labels, entry) =~= expected);
    }
}

/// Adds one entry to its group.
fn add_to_groups<'a>(groups: &mut Vec<StreamGroup<'a>>, entry: &'a LokiEntry)
    requires
        nonnegative(old(groups)@),
        entry.timestamp_unix_nanos >= 0,
    ensures
        nonnegative(final(groups)@),
        groups_view(final(groups)@) == add_entry(
            groups_view(old(groups)@),
            entry@.labels,
            wire_entry_of(entry@),
        ),
{
    let ghost model = groups_view(groups@);
    let ghost raw = groups@;
    let mut at: usize = 0;
    while at < groups.len() && groups[at].labels.is_less(&entry.labels)
        invariant
            at <= groups@.len(),
            groups@ == raw,
            model == groups_view(raw),
            forall|i: int| 0 <= i < at ==> pairs_less((#[trigger] model[i]).labels, entry.labels@),
        decreases groups@.len() - at,
    {
        proof {
            assert(model[at as int] == groups@[at as int]@);
        }
        at = at + 1;
    }
    proof {
        if at < groups@.len() {
            assert(model[at as int] == groups@[at as int]@);
        }
        lemma_add_entry_at(model, entry.labels@, wire_entry_of(entry@), at as int);
    }
    if at < groups.len() && groups[at].labels.same(&entry.labels) {
        let ghost before = groups@[at as int];
        groups[at].entries.push(entry);
        proof {
            let after = groups@[at as int];
            assert(group_wire(after.entries@) =~= group_wire(before.entries@).push(
                wire_entry_of(entry@),
            ));
            assert(groups_view(groups@) =~= model.update(
                at as int,
                WireStream {
                    labels: entry.labels@,
                    entries: model[at as int].entries.push(wire_entry_of(entry@)),
                },
            ));
        }
    } else {
        let mut entries: Vec<&'a LokiEntry> = Vec::new();
        entries.push(entry);
        proof {
            assert(group_wire(entries@) =~= seq![wire_entry_of(entry@)]);
        }
        let group = StreamGroup { labels: &entry.labels, entries };
        proof {
            assert(groups_view(raw.insert(at as int, group)) =~= model.insert(at as int, group@));
        }
        groups.insert(at, group);
    }
}

/// Appends one entry.
fn put_entry(out: &mut Vec<u8>, entry: &LokiEntry) -> (result: Result<(), NativeProtocolError>)
    requires
        entry.timestamp_unix_nanos >= 0,
    ensures
        match result {
            Ok(_) => entry_error(wire_entry_of(entry@)) is None && final(out)@ == old(out)@
                + wire_entry(wire_entry_of(entry@)),
            Err(error) => entry_error(wire_entry_of(entry@)) == Some(error),
        },
{
    let ghost before = out@;
    put_le(out, entry.timestamp_unix_nanos as u128, 8);
    let line = entry.line.as_str().as_bytes();
    match put_u32(out, line.len(), NativeField::LogLine) {
        Ok(_) => {},
        Err(error) => return Err(error),
    }
    if entry.structured_metadata.len() > MAX_METADATA_PER_ENTRY {
        return Err(NativeProtocolError::TooMuchMetadata);
    }
    put_le(out, entry.structured_metadata.len() as u128, 2);
    put_le(out, 0, 2);
    put_bytes(out, line);
    match put_map(
        out,
        &entry.structured_metadata,
        NativeField::MetadataKey,
        NativeField::MetadataValue,
    ) {
        Ok(_) => {},
        Err(error) => return Err(error),
    }
    proof {
        assert(out@ =~= before + wire_entry(wire_entry_of(entry@)));
    }
    Ok(())
}

/// Appends the entries of one group.
fn put_entries(out: &mut Vec<u8>, entries: &Vec<&LokiEntry>) -> (result: Result<
    (),
    NativeProtocolError,
>)
    requires
        forall|i: int| 0 <= i < entries@.len() ==> (#[trigger] entries@[i]).timestamp_unix_nanos >= 0,
    ensures
        match result {
            Ok(_) => entries_error(group_wire(entries@)) is None && final(out)@ == old(out)@
                + wire_entries(group_wire(entries@)),
            Err(error) => entries_error(group_wire(entries@)) == Some(error),
        },
{
    let ghost before = out@;
    let ghost all = group_wire(entries@);
    let mut index: usize = 0;
    proof {
        assert(all.subrange(0, 0) =~= Seq::<WireEntry>::empty());
        assert(before + wire_entries(all.subrange(0, 0)) =~= before);
    }
    while index < entries.len()
        invariant
            index <= entries@.len(),
            all == group_wire(entries@),
            forall|i: int| 0 <= i < entries@.len() ==> (#[trigger] entries@[i]).timestamp_unix_nanos >= 0,
            entries_error(all.subrange(0, index as int)) is None,
            out@ == before + wire_entries(all.subrange(0, index as int)),
        decreases entries@.len() - index,
    {
        let ghost part = all.subrange(0, index + 1);
        proof {
            assert(part.drop_last() =~= all.subrange(0, index as int));
            assert(part.last() == wire_entry_of(entries@[index as int]@));
        }
        match put_entry(out, entries[index]) {
            Ok(_) => {},
            Err(error) => {
                proof {
                    lemma_entries_error_prefix(all, index + 1);
                }
                return Err(error);
            },
        }
        proof {
            assert(out@ =~= before + wire_entries(part));
        }
        index = index + 1;
    }
    proof {
        assert(all.subrange(0, index as int) =~= all);
    }
    Ok(())
}

/// Appends one group.
fn put_group(out: &mut Vec<u8>, group: &StreamGroup<'_>) -> (result: Result<
    (),
    NativeProtocolError,
>)
    requires
        forall|i: int|
            0 <= i < group.entries@.len() ==> (#[trigger] group.entries@[i]).timestamp_unix_nanos >= 0,
        group.entries@.len() <= u32::MAX,
    ensures
        match result {
            Ok(_) => stream_error(group@) is None && final(out)@ == old(out)@ + wire_stream(group@),
            Err(error) => stream_error(group@) == Some(error),
        },
{
    let ghost before = out@;
    if group.labels.len() > MAX_LABELS_PER_STREAM {
        return Err(NativeProtocolError::TooManyLabels);
    }
    put_le(out, group.labels.len() as u128, 2);
    put_le(out, 0, 2);
    put_le(out, group.entries.len() as u128, 4);
    match put_map(out, group.labels, NativeField::LabelKey, NativeField::LabelValue) {
        Ok(_) => {},
        Err(error) => return Err(error),
    }
    match put_entries(out, &group.entries) {
        Ok(_) => {},
        Err(error) => return Err(error),
    }
    proof {
        assert(out@ =~= before + wire_stream(group@));
    }
    Ok(())
}

proof fn lemma_total_split(streams: Seq<WireStream>, at: int)
    requires
        0 <= at < streams.len(),
    ensures
        total_entries(streams) == total_entries(streams.subrange(0, at)) + streams[at].entries.len()
            + total_entries(streams.subrange(at + 1, streams.len() as int)),
    decreases streams.len(),
{
    let front = streams.drop_last();
    if at == streams.len() - 1 {
        assert(streams.subrange(0, at) =~= front);
        assert(streams.subrange(at + 1, streams.len() as int) =~= Seq::empty());
    } else {
        lemma_total_split(front, at);
        assert(front.subrange(0, at) =~= streams.subrange(0, at));
        let tail = streams.subrange(at + 1, streams.len() as int);
        assert(tail.drop_last() =~= front.subrange(at + 1, front.len() as int));
    }
}

proof fn lemma_add_entry_total(streams: Seq<WireStream>, labels: Pairs, entry: WireEntry)
    ensures
        total_entries(add_entry(streams, labels, entry)) == total_entries(streams) + 1,
    decreases streams.len(),
{
    let result = add_entry(streams, labels, entry);
    reveal_with_fuel(total_entries, 2);
    if streams.len() == 0 {
        assert(result.drop_last() =~= Seq::<WireStream>::empty());
    } else {
        let rest = streams.drop_first();
        lemma_total_split(streams, 0);
        assert(streams.subrange(1, streams.len() as int) =~= rest);
        assert(streams.subrange(0, 0) =~= Seq::empty());
        lemma_total_split(result, 0);
        assert(result.subrange(0, 0) =~= Seq::empty());
        if streams[0].labels == labels {
            assert(result.subrange(1, result.len() as int) =~= rest);
        } else if pairs_less(labels, streams[0].labels) {
            assert(result.subrange(1, result.len() as int) =~= streams);
        } else {
            lemma_add_entry_total(rest, labels, entry);
            assert(result.subrange(1, result.len() as int) =~= add_entry(rest, labels, entry));
        }
    }
}

/// Grouping keeps the number of entries.
pub proof fn grouping_keeps_count(entries: Seq<EntryModel>)
    ensures
        total_entries(group_entries(entries)) == entries.len(),
    decreases entries.len(),
{
    if entries.len() > 0 {
        grouping_keeps_count(entries.drop_last());
        lemma_add_entry_total(
            group_entries(entries.drop_last()),
            entries.last().labels,
            wire_entry_of(entries.last()),
        );
    }
}

/// Encodes records with labels stored once per stream.
pub fn encode_native_log_batch(tenant: &str, entries: Vec<LokiEntry>) -> (result: Result<
    Vec<u8>,
    NativeProtocolError,
>)
    ensures
        match result {
            Ok(encoded) => encode_error(tenant@, entries_view(entries@)) is None && encoded@
                == encoded_batch(tenant@, entries_view(entries@)),
            Err(error) => encode_error(tenant@, entries_view(entries@)) == Some(error),
        },
{
    match validate_tenant(tenant) {
        Ok(_) => {},
        Err(error) => return Err(error),
    }
    if entries.len() as u128 > u32::MAX as u128 {
        return Err(NativeProtocolError::TooManyRecords);
    }
    let ghost model = entries_view(entries@);
    let mut groups: Vec<StreamGroup<'_>> = Vec::new();
    let mut index: usize = 0;
    proof {
        assert(model.subrange(0, 0) =~= Seq::<EntryModel>::empty());
        assert(groups_view(groups@) =~= Seq::<WireStream>::empty());
    }
    while index < entries.len()
        invariant
            index <= entries@.len(),
            entries@.len() <= u32::MAX,
            model == entries_view(entries@),
            tenant_error(tenant@) is None,
            groups_view(groups@) == group_entries(model.subrange(0, index as int)),
            forall|i: int| 0 <= i < index ==> (#[trigger] model[i]).timestamp >= 0,
            nonnegative(groups@),
        decreases entries@.len() - index,
    {
        let entry = &entries[index];
        if entry.timestamp_unix_nanos < 0 {
            proof {
                assert(model[index as int].timestamp < 0);
            }
            return Err(NativeProtocolError::NegativeTimestamp);
        }
        proof {
            assert(model.subrange(0, index + 1).drop_last() =~= model.subrange(0, index as int));
        }
        add_to_groups(&mut groups, entry);
        index = index + 1;
    }
    proof {
        assert(model.subrange(0, index as int) =~= model);
        grouping_keeps_count(model);
    }
    if groups.len() > MAX_STREAMS {
        return Err(NativeProtocolError::TooManyStreams);
    }
    let ghost streams = groups_view(groups@);
    let mut encoded: Vec<u8> = Vec::new();
    encoded.push(0x53);
    encoded.push(0x4c);
    encoded.push(0x42);
    encoded.push(0x31);
    let tenant_bytes = tenant.as_bytes();
    put_le(&mut encoded, tenant_bytes.len() as u128, 2);
    put_le(&mut encoded, groups.len() as u128, 2);
    put_le(&mut encoded, entries.len() as u128, 4);
    put_le(&mut encoded, 0, 4);
    put_bytes(&mut encoded, tenant_bytes);
    let ghost head = encoded@;
    proof {
        assert(head =~= batch_magic() + le_bytes(encode_utf8(tenant@).len(), 2) + le_bytes(
            streams.len(),
            2,
        ) + le_bytes(total_entries(streams), 4) + le_bytes(0, 4) + encode_utf8(tenant@));
        assert(streams.subrange(0, 0) =~= Seq::<WireStream>::empty());
        assert(head + wire_streams(streams.subrange(0, 0)) =~= head);
    }
    let mut at: usize = 0;
    while at < groups.len()
        invariant
            at <= groups@.len(),
            streams == groups_view(groups@),
            streams == group_entries(model),
            model == entries_view(entries@),
            model.len() <= u32::MAX,
            total_entries(streams) == model.len(),
            tenant_error(tenant@) is None,
            streams.len() <= MAX_STREAMS,
            forall|i: int| 0 <= i < model.len() ==> (#[trigger] model[i]).timestamp >= 0,
            nonnegative(groups@),
            streams_error(streams.subrange(0, at as int)) is None,
            encoded@ == head + wire_streams(streams.subrange(0, at as int)),
        decreases groups@.len() - at,
    {
        let ghost part = streams.subrange(0, at + 1);
        proof {
            assert(part.drop_last() =~= streams.subrange(0, at as int));
            assert(part.last() == groups@[at as int]@);
            lemma_total_split(streams, at as int);
            assert(streams[at as int].entries.len() == groups@[at as int].entries@.len());
        }
        match put_group(&mut encoded, &groups[at]) {
            Ok(_) => {},
            Err(error) => {
                proof {
                    lemma_streams_error_prefix(streams, at + 1);
                }
                return Err(error);
            },
        }
        proof {
            assert(encoded@ =~= head + wire_streams(part));
        }
        at = at + 1;
    }
    proof {
        assert(streams.subrange(0, at as int) =~= streams);
        assert(encoded@ =~= encoded_batch(tenant@, model));
    }
    if encoded.len() > MAX_NATIVE_FRAME_BYTES {
        return Err(NativeProtocolError::BatchTooLarge(encoded.len() as u64));
    }
    Ok(encoded)
}

} // verus!
