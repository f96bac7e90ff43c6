//! Borrowed views of native batches.
use vstd::prelude::*;

use crate::codec::same_text;
use crate::error::{BlockFault, LogDbError, NativeProtocolError};
use crate::labels::Pairs;
use crate::native_batch::{
    parse_batch, read_batch, BatchReader, BorrowedStream, WireBatch, WireStream,
};
use crate::native_decode::{
    cohort_of, event_fields, events_of, prefixed, prefixed_key, stream_events, update_cohort_hash,
    LABEL_PREFIX, METADATA_PREFIX, TENANT_FIELD,
};
use crate::hash::FNV_OFFSET;
use crate::native_wire::str_pairs;
use crate::record::{CompressionCohortId, EventModel};

verus! {

broadcast use vstd::seq_lib::group_seq_properties;

/// Label with its normalized field name.
#[derive(Debug)]
struct NativeFieldView<'a> {
    key: String,
    value: &'a str,
}

/// Stream header of a view.
#[derive(Debug)]
struct NativeStreamView<'a> {
    labels: Vec<NativeFieldView<'a>>,
    compression_cohort: CompressionCohortId,
}

/// Metadata value with its interned key.
#[derive(Debug)]
struct NativeMetadataView<'a> {
    key_id: usize,
    value: &'a str,
}

/// Record descriptor of a view.
#[derive(Debug)]
struct NativeRecordView<'a> {
    stream_id: usize,
    timestamp_unix_nanos: u64,
    message: &'a str,
    metadata_start: usize,
    metadata_end: usize,
}

/// Interned metadata key with its normalized field name.
#[derive(Debug)]
pub struct NativeMetadataKey<'a> {
    /// Key as it was given.
    pub raw: &'a str,
    /// Name of its field.
    pub normalized: String,
}

/// Interned metadata keys of a batch.
#[derive(Debug)]
pub struct NativeMetadataKeys<'a> {
    /// Keys by number.
    pub entries: Vec<NativeMetadataKey<'a>>,
}

/// Every key holds its normalized name.
pub open spec fn keys_normalized(keys: Seq<NativeMetadataKey>) -> bool {
    forall|i: int|
        0 <= i < keys.len() ==> (#[trigger] keys[i]).normalized@ == METADATA_PREFIX@ + keys[i].raw@
}

/// No key is interned twice.
pub open spec fn keys_distinct(keys: Seq<NativeMetadataKey>) -> bool {
    forall|i: int, j: int|
        0 <= i < j < keys.len() ==> (#[trigger] keys[i]).raw@ != (#[trigger] keys[j]).raw@
}

/// Interned keys after one more key.
pub open spec fn interned_keys(keys: Seq<Seq<char>>, key: Seq<char>) -> Seq<Seq<char>> {
    if keys.contains(key) {
        keys
    } else {
        keys.push(key)
    }
}

/// Number of a key among interned keys: its place, or the next one.
pub open spec fn interned_id(keys: Seq<Seq<char>>, key: Seq<char>) -> int {
    if keys.contains(key) {
        keys.index_of(key)
    } else {
        keys.len() as int
    }
}

/// Interned keys after keys in order, from none on.
pub open spec fn interned_all(keys: Seq<Seq<char>>) -> Seq<Seq<char>>
    decreases keys.len(),
{
    if keys.len() == 0 {
        Seq::empty()
    } else {
        interned_keys(interned_all(keys.drop_last()), keys.last())
    }
}

/// Numbers that keys get in order, from none on.
pub open spec fn interned_ids(keys: Seq<Seq<char>>) -> Seq<int>
    decreases keys.len(),
{
    if keys.len() == 0 {
        Seq::empty()
    } else {
        interned_ids(keys.drop_last()).push(
            interned_id(interned_all(keys.drop_last()), keys.last()),
        )
    }
}

/// Keys are numbered in the order in which they are first seen, from 0 on without a gap: a
/// key that was seen before gets the number that it got then, and a new one the number of
/// different keys before it.
pub proof fn keys_are_numbered_as_seen(keys: Seq<Seq<char>>)
    ensures
        interned_ids(keys).len() == keys.len(),
        interned_all(keys).no_duplicates(),
        interned_all(keys).to_set() == keys.to_set(),
        forall|i: int|
            0 <= i < keys.len() ==> 0 <= #[trigger] interned_ids(keys)[i] < interned_all(
                keys,
            ).len() && interned_all(keys)[interned_ids(keys)[i]] == keys[i],
        forall|i: int, j: int|
            0 <= i < keys.len() && 0 <= j < keys.len() ==> (#[trigger] interned_ids(keys)[i]
                == #[trigger] interned_ids(keys)[j] <==> keys[i] == keys[j]),
        forall|i: int|
            0 <= i < keys.len() && !keys.subrange(0, i).contains(keys[i])
                ==> #[trigger] interned_ids(keys)[i] == keys.subrange(0, i).to_set().len(),
    decreases keys.len(),
{
    let ids = interned_ids(keys);
    let all = interned_all(keys);
    if keys.len() == 0 {
        assert(all.to_set() =~= keys.to_set());
    } else {
        let front = keys.drop_last();
        let last = keys.last();
        let early = interned_all(front);
        let few = interned_ids(front);
        keys_are_numbered_as_seen(front);
        early.unique_seq_to_set();
        assert(keys =~= front.push(last));
        assert(early.contains(last) == front.contains(last)) by {
            assert(early.to_set().contains(last) == front.to_set().contains(last));
        }
        assert(all.to_set() =~= keys.to_set()) by {
            assert forall|key: Seq<char>| all.to_set().contains(key) == keys.to_set().contains(
                key,
            ) by {
                assert(early.to_set().contains(key) == front.to_set().contains(key));
                lemma_push_contains(early, last, key);
                lemma_push_contains(front, last, key);
            }
        }
        assert forall|i: int| 0 <= i < keys.len() implies 0 <= #[trigger] ids[i] < all.len()
            && all[ids[i]] == keys[i] by {
            if i < front.len() {
                assert(ids[i] == few[i]);
                assert(early[few[i]] == front[i]);
                assert(all[few[i]] == early[few[i]]);
            }
        }
        assert forall|i: int, j: int|
            0 <= i < keys.len() && 0 <= j < keys.len() implies (#[trigger] ids[i]
            == #[trigger] ids[j] <==> keys[i] == keys[j]) by {
            assert(all[ids[i]] == keys[i] && all[ids[j]] == keys[j]);
        }
        assert forall|i: int|
            0 <= i < keys.len() && !keys.subrange(0, i).contains(
                keys[i],
            ) implies #[trigger] ids[i] == keys.subrange(0, i).to_set().len() by {
            if i < front.len() {
                assert(ids[i] == few[i]);
                assert(front.subrange(0, i) =~= keys.subrange(0, i));
            } else {
                assert(keys.subrange(0, i) =~= front);
            }
        }
    }
}

proof fn lemma_push_contains(keys: Seq<Seq<char>>, last: Seq<char>, key: Seq<char>)
    ensures
        keys.push(last).contains(key) <==> keys.contains(key) || key == last,
{
    let longer = keys.push(last);
    if keys.contains(key) {
        let i = choose|i: int| 0 <= i < keys.len() && keys[i] == key;
        assert(longer[i] == key);
    }
    assert(longer[keys.len() as int] == last);
}

/// Keys as they were given.
pub open spec fn raw_keys(keys: Seq<NativeMetadataKey>) -> Seq<Seq<char>> {
    keys.map_values(|key: NativeMetadataKey| key.raw@)
}

impl<'a> NativeMetadataKeys<'a> {
    /// No keys.
    pub fn new() -> (keys: Self)
        ensures
            keys_normalized(keys.entries@),
            keys_distinct(keys.entries@),
            raw_keys(keys.entries@) == Seq::<Seq<char>>::empty(),
    {
        let keys = NativeMetadataKeys { entries: Vec::new() };
        proof {
            assert(raw_keys(keys.entries@) =~= Seq::<Seq<char>>::empty());
        }
        keys
    }

    /// Number of `key`, which is added where it is new, with its normalized name.
    pub fn intern(&mut self, key: &'a str) -> (id: usize)
        requires
            keys_normalized(old(self).entries@),
            keys_distinct(old(self).entries@),
        ensures
            keys_normalized(final(self).entries@),
            keys_distinct(final(self).entries@),
            raw_keys(final(self).entries@) == interned_keys(raw_keys(old(self).entries@), key@),
            id == interned_id(raw_keys(old(self).entries@), key@),
            id < final(self).entries@.len(),
            final(self).entries@[id as int].raw@ == key@,
            final(self).entries@.len() >= old(self).entries@.len(),
            final(self).entries@.subrange(0, old(self).entries@.len() as int)
                == old(self).entries@,
    {
        let ghost before = raw_keys(self.entries@);
        let mut id: usize = 0;
        while id < self.entries.len()
            invariant
                id <= self.entries@.len(),
                self.entries@ == old(self).entries@,
                before == raw_keys(self.entries@),
                keys_normalized(self.entries@),
                keys_distinct(self.entries@),
                forall|i: int| 0 <= i < id ==> (#[trigger] self.entries@[i]).raw@ != key@,
            decreases self.entries@.len() - id,
        {
            if same_text(self.entries[id].raw, key) {
                proof {
                    let at = before.index_of(key@);
                    assert(before[id as int] == key@);
                    assert(before.contains(key@));
                    assert(before[at] == key@);
                    assert(self.entries@[at].raw@ == key@);
                    assert(self.entries@.subrange(0, self.entries@.len() as int)
                        =~= self.entries@);
                }
                return id;
            }
            id = id + 1;
        }
        proof {
            assert(!before.contains(key@)) by {
                if before.contains(key@) {
                    let i = choose|i: int| 0 <= i < before.len() && before[i] == key@;
                    assert(self.entries@[i].raw@ == key@);
                }
            }
        }
        let added = NativeMetadataKey { raw: key, normalized: prefixed_key(METADATA_PREFIX, key) };
        self.entries.push(added);
        proof {
            assert(self.entries@.subrange(0, before.len() as int) =~= old(self).entries@);
            assert(raw_keys(self.entries@) =~= before.push(key@));
        }
        id
    }
}

/// Fields of label views.
spec fn label_fields(labels: Seq<NativeFieldView>) -> Pairs {
    labels.map_values(|label: NativeFieldView| (label.key@, label.value@))
}

/// Fields of metadata views.
spec fn metadata_fields(
    keys: Seq<NativeMetadataKey>,
    metadata: Seq<NativeMetadataView>,
) -> Pairs {
    metadata.map_values(
        |item: NativeMetadataView| (keys[item.key_id as int].normalized@, item.value@),
    )
}

/// Fully validated borrowed view over one grouped native append batch.
///
/// The view owns only bounded record descriptors and normalized field-key
/// dictionaries. Message bodies and field values remain slices of the caller's
/// native frame.
#[derive(Debug)]
pub struct NativeBatchView<'a> {
    tenant: &'a str,
    streams: Vec<NativeStreamView<'a>>,
    records: Vec<NativeRecordView<'a>>,
    metadata: Vec<NativeMetadataView<'a>>,
    metadata_keys: NativeMetadataKeys<'a>,
}

/// The event of one record descriptor.
spec fn record_event(
    tenant: Seq<char>,
    streams: Seq<NativeStreamView>,
    keys: Seq<NativeMetadataKey>,
    metadata: Seq<NativeMetadataView>,
    record: NativeRecordView,
) -> EventModel {
    let stream = streams[record.stream_id as int];
    EventModel {
        timestamp: record.timestamp_unix_nanos,
        message: record.message@,
        fields: seq![(TENANT_FIELD@, tenant)] + label_fields(stream.labels@) + metadata_fields(
            keys,
            metadata.subrange(record.metadata_start as int, record.metadata_end as int),
        ),
        cohort: stream.compression_cohort.0,
    }
}

/// Whether a record descriptor points into the view.
spec fn record_valid(
    streams: Seq<NativeStreamView>,
    metadata: Seq<NativeMetadataView>,
    record: NativeRecordView,
) -> bool {
    &&& record.stream_id < streams.len()
    &&& record.metadata_start <= record.metadata_end <= metadata.len()
}

/// Whether all parts of a view fit together.
spec fn parts_valid(
    streams: Seq<NativeStreamView>,
    records: Seq<NativeRecordView>,
    metadata: Seq<NativeMetadataView>,
    keys: Seq<NativeMetadataKey>,
) -> bool {
    &&& forall|i: int| 0 <= i < records.len() ==> record_valid(streams, metadata, #[trigger] records[i])
    &&& forall|i: int| 0 <= i < metadata.len() ==> (#[trigger] metadata[i]).key_id < keys.len()
    &&& forall|i: int|
        0 <= i < records.len() ==> 1 + streams[(#[trigger] records[i]).stream_id as int].labels@.len() + (
        records[i].metadata_end - records[i].metadata_start) <= usize::MAX
}

/// The events of all record descriptors.
spec fn view_events(
    tenant: Seq<char>,
    streams: Seq<NativeStreamView>,
    records: Seq<NativeRecordView>,
    metadata: Seq<NativeMetadataView>,
    keys: Seq<NativeMetadataKey>,
) -> Seq<EventModel> {
    records.map_values(
        |record: NativeRecordView| record_event(tenant, streams, keys, metadata, record),
    )
}

impl<'a> NativeBatchView<'a> {
    #[verifier::type_invariant]
    spec fn parts_fit(self) -> bool {
        parts_valid(self.streams@, self.records@, self.metadata@, self.metadata_keys.entries@)
    }

    /// Tenant of the batch.
    pub closed spec fn tenant_text(&self) -> Seq<char> {
        self.tenant@
    }

    /// Events of the batch.
    pub closed spec fn events(&self) -> Seq<EventModel> {
        view_events(
            self.tenant@,
            self.streams@,
            self.records@,
            self.metadata@,
            self.metadata_keys.entries@,
        )
    }

    /// Tenant of the batch.
    pub fn tenant(&self) -> (tenant: &str)
        ensures
            tenant@ == self.tenant_text(),
    {
        self.tenant
    }

    /// Number of records.
    pub fn record_count(&self) -> (count: usize)
        ensures
            count == self.events().len(),
    {
        self.records.len()
    }

    /// Compression cohort of a record.
    pub fn record_cohort(&self, index: usize) -> (cohort: Option<CompressionCohortId>)
        ensures
            cohort == if index < self.events().len() {
                Some(CompressionCohortId(self.events()[index as int].cohort))
            } else {
                None
            },
    {
        proof {
            use_type_invariant(self);
        }
        if index < self.records.len() {
            let record = &self.records[index];
            Some(self.streams[record.stream_id].compression_cohort)
        } else {
            None
        }
    }

    /// Timestamp of a record.
    pub fn record_timestamp(&self, index: usize) -> (timestamp: Option<u64>)
        ensures
            timestamp == if index < self.events().len() {
                Some(self.events()[index as int].timestamp)
            } else {
                None
            },
    {
        if index < self.records.len() {
            Some(self.records[index].timestamp_unix_nanos)
        } else {
            None
        }
    }

    /// Message of a record.
    pub fn record_message(&self, index: usize) -> (message: Option<&str>)
        ensures
            message is Some <==> index < self.events().len(),
            message matches Some(text) ==> text@ == self.events()[index as int].message,
    {
        if index < self.records.len() {
            Some(self.records[index].message)
        } else {
            None
        }
    }

    /// Number of fields of a record.
    pub fn record_field_count(&self, index: usize) -> (count: Option<usize>)
        ensures
            count is Some <==> index < self.events().len(),
            count matches Some(number) ==> number == self.events()[index as int].fields.len(),
    {
        proof {
            use_type_invariant(self);
        }
        if index < self.records.len() {
            let record = &self.records[index];
            let labels: usize = self.streams[record.stream_id].labels.len();
            Some(1 + labels + (record.metadata_end - record.metadata_start))
        } else {
            None
        }
    }

    /// One field of a record: tenant, labels, then metadata.
    pub fn record_field(&self, record_index: usize, index: usize) -> (field: Option<(&str, &str)>)
        ensures
            field is Some <==> record_index < self.events().len() && index
                < self.events()[record_index as int].fields.len(),
            field matches Some((key, value)) ==> (key@, value@)
                == self.events()[record_index as int].fields[index as int],
    {
        proof {
            use_type_invariant(self);
        }
        if record_index >= self.records.len() {
            return None;
        }
        let record = &self.records[record_index];
        if index == 0 {
            return Some((TENANT_FIELD, self.tenant));
        }
        let stream = &self.streams[record.stream_id];
        if index - 1 < stream.labels.len() {
            let label = &stream.labels[index - 1];
            return Some((label.key.as_str(), label.value));
        }
        let position: usize = index - 1 - stream.labels.len();
        if position >= record.metadata_end - record.metadata_start {
            return None;
        }
        let metadata = &self.metadata[record.metadata_start + position];
        let key = &self.metadata_keys.entries[metadata.key_id];
        proof {
            let part = self.metadata@.subrange(
                record.metadata_start as int,
                record.metadata_end as int,
            );
            assert(part[position as int] == *metadata);
        }
        Some((key.normalized.as_str(), metadata.value))
    }

    /// All fields of a record.
    pub fn record_fields(&self, record_index: usize) -> (result: Result<
        Vec<(&str, &str)>,
        LogDbError,
    >)
        ensures
            match result {
                Ok(fields) => record_index < self.events().len() && str_pairs(fields@)
                    == self.events()[record_index as int].fields,
                Err(error) => record_index >= self.events().len()
                    && error == LogDbError::InvalidBlockEncoding(BlockFault::RecordIndex),
            },
    {
        let count: usize = match self.record_field_count(record_index) {
            Some(count) => count,
            None => return Err(
                LogDbError::InvalidBlockEncoding(BlockFault::RecordIndex),
            ),
        };
        let ghost all = self.events()[record_index as int].fields;
        let mut fields: Vec<(&str, &str)> = Vec::new();
        let mut index: usize = 0;
        proof {
            assert(str_pairs(fields@) =~= all.subrange(0, 0));
        }
        while index < count
            invariant
                index <= count,
                record_index < self.events().len(),
                all == self.events()[record_index as int].fields,
                count == all.len(),
                str_pairs(fields@) == all.subrange(0, index as int),
            decreases count - index,
        {
            match self.record_field(record_index, index) {
                Some((key, value)) => {
                    proof {
                        assert(str_pairs(fields@.push((key, value))) =~= str_pairs(fields@).push(
                            (key@, value@),
                        ));
                        assert(all.subrange(0, index + 1) =~= all.subrange(0, index as int).push(
                            all[index as int],
                        ));
                    }
                    fields.push((key, value));
                },
                None => {},
            }
            index = index + 1;
        }
        proof {
            assert(all.subrange(0, index as int) =~= all);
        }
        Ok(fields)
    }
}

/// Records keep their events while the tables grow.
proof fn lemma_events_stable(
    tenant: Seq<char>,
    streams: Seq<NativeStreamView>,
    records: Seq<NativeRecordView>,
    metadata: Seq<NativeMetadataView>,
    keys: Seq<NativeMetadataKey>,
    more_streams: Seq<NativeStreamView>,
    more_metadata: Seq<NativeMetadataView>,
    more_keys: Seq<NativeMetadataKey>,
)
    requires
        parts_valid(streams, records, metadata, keys),
        streams.is_prefix_of(more_streams),
        metadata.is_prefix_of(more_metadata),
        keys.is_prefix_of(more_keys),
    ensures
        view_events(tenant, more_streams, records, more_metadata, more_keys) == view_events(
            tenant,
            streams,
            records,
            metadata,
            keys,
        ),
{
    let left = view_events(tenant, more_streams, records, more_metadata, more_keys);
    let right = view_events(tenant, streams, records, metadata, keys);
    assert forall|i: int| 0 <= i < records.len() implies left[i] == right[i] by {
        let record = records[i];
        assert(record_valid(streams, metadata, record));
        assert(more_streams[record.stream_id as int] == streams[record.stream_id as int]);
        let a = more_metadata.subrange(record.metadata_start as int, record.metadata_end as int);
        let b = metadata.subrange(record.metadata_start as int, record.metadata_end as int);
        assert(a =~= b) by {
            assert forall|j: int| 0 <= j < b.len() implies a[j] == b[j] by {
                assert(metadata[record.metadata_start + j] == more_metadata[record.metadata_start
                    + j]);
            }
        }
        assert(metadata_fields(more_keys, a) =~= metadata_fields(keys, b)) by {
            assert forall|j: int| 0 <= j < b.len() implies metadata_fields(more_keys, a)[j]
                == metadata_fields(keys, b)[j] by {
                assert(metadata[record.metadata_start + j].key_id < keys.len());
                assert(more_keys[b[j].key_id as int] == keys[b[j].key_id as int]);
            }
        }
    }
    assert(left =~= right);
}

/// Views of the labels of a stream.
fn stream_view<'a>(stream: &BorrowedStream<'a>) -> (view: NativeStreamView<'a>)
    ensures
        label_fields(view.labels@) == prefixed(LABEL_PREFIX@, str_pairs(stream.labels@)),
        view.compression_cohort.0 == cohort_of(str_pairs(stream.labels@)),
{
    let ghost all = str_pairs(stream.labels@);
    let ghost fields = prefixed(LABEL_PREFIX@, all);
    let mut labels: Vec<NativeFieldView<'a>> = Vec::new();
    let mut state: u64 = FNV_OFFSET;
    let mut index: usize = 0;
    proof {
        assert(all.subrange(0, 0) =~= Pairs::empty());
        assert(label_fields(labels@) =~= fields.subrange(0, 0));
    }
    while index < stream.labels.len()
        invariant
            index <= stream.labels@.len(),
            all == str_pairs(stream.labels@),
            fields == prefixed(LABEL_PREFIX@, all),
            state == cohort_of(all.subrange(0, index as int)),
            label_fields(labels@) == fields.subrange(0, index as int),
        decreases stream.labels@.len() - index,
    {
        let (key, value) = stream.labels[index];
        let label = NativeFieldView { key: prefixed_key(LABEL_PREFIX, key), value };
        proof {
            assert(all.subrange(0, index + 1).drop_last() =~= all.subrange(0, index as int));
            assert(fields[index as int] == (label.key@, label.value@));
            assert(label_fields(labels@.push(label)) =~= label_fields(labels@).push(
                (label.key@, label.value@),
            ));
            assert(fields.subrange(0, index + 1) =~= fields.subrange(0, index as int).push(
                fields[index as int],
            ));
        }
        state = update_cohort_hash(state, key, value);
        labels.push(label);
        index = index + 1;
    }
    proof {
        assert(all.subrange(0, index as int) =~= all);
        assert(fields.subrange(0, index as int) =~= fields);
    }
    NativeStreamView { labels, compression_cohort: CompressionCohortId(state) }
}

/// Appends metadata values with interned keys.
fn append_metadata<'a>(
    metadata: &mut Vec<NativeMetadataView<'a>>,
    keys: &mut NativeMetadataKeys<'a>,
    pairs: &Vec<(&'a str, &'a str)>,
)
    requires
        keys_normalized(old(keys).entries@),
        keys_distinct(old(keys).entries@),
        forall|i: int|
            0 <= i < old(metadata)@.len() ==> (#[trigger] old(metadata)@[i]).key_id < old(keys).entries@.len(),
    ensures
        keys_normalized(final(keys).entries@),
        keys_distinct(final(keys).entries@),
        old(keys).entries@.is_prefix_of(final(keys).entries@),
        old(metadata)@.is_prefix_of(final(metadata)@),
        final(metadata)@.len() == old(metadata)@.len() + pairs@.len(),
        forall|i: int|
            0 <= i < final(metadata)@.len() ==> (#[trigger] final(metadata)@[i]).key_id < final(keys).entries@.len(),
        metadata_fields(
            final(keys).entries@,
            final(metadata)@.subrange(
                old(metadata)@.len() as int,
                final(metadata)@.len() as int,
            ),
        ) == prefixed(METADATA_PREFIX@, str_pairs(pairs@)),
{
    let ghost base = metadata@;
    let ghost base_keys = keys.entries@;
    let ghost fields = prefixed(METADATA_PREFIX@, str_pairs(pairs@));
    let mut index: usize = 0;
    while index < pairs.len()
        invariant
            index <= pairs@.len(),
            fields == prefixed(METADATA_PREFIX@, str_pairs(pairs@)),
            keys_normalized(keys.entries@),
            keys_distinct(keys.entries@),
            base_keys.is_prefix_of(keys.entries@),
            base.is_prefix_of(metadata@),
            metadata@.len() == base.len() + index,
            forall|i: int|
                0 <= i < metadata@.len() ==> (#[trigger] metadata@[i]).key_id < keys.entries@.len(),
            forall|i: int|
                0 <= i < index ==> (
                    keys.entries@[(#[trigger] metadata@[base.len() + i]).key_id as int].normalized@,
                    metadata@[base.len() + i].value@,
                ) == fields[i],
        decreases pairs@.len() - index,
    {
        let (key, value) = pairs[index];
        let ghost before_keys = keys.entries@;
        let ghost before = metadata@;
        let key_id: usize = keys.intern(key);
        metadata.push(NativeMetadataView { key_id, value });
        proof {
            assert(before_keys.is_prefix_of(keys.entries@)) by {
                assert(keys.entries@.subrange(0, before_keys.len() as int) =~= before_keys);
            }
            assert forall|i: int| 0 <= i < before_keys.len() implies keys.entries@[i]
                == before_keys[i] by {
                assert(keys.entries@.subrange(0, before_keys.len() as int)[i] == before_keys[i]);
            }
            assert(base_keys.is_prefix_of(keys.entries@)) by {
                assert(keys.entries@.subrange(0, base_keys.len() as int) =~= base_keys);
            }
            assert(base.is_prefix_of(metadata@)) by {
                assert(metadata@.subrange(0, base.len() as int) =~= base);
            }
            assert forall|i: int| 0 <= i < index + 1 implies (
                keys.entries@[(#[trigger] metadata@[base.len() + i]).key_id as int].normalized@,
                metadata@[base.len() + i].value@,
            ) == fields[i] by {
                if i < index {
                    assert(metadata@[base.len() + i] == before[base.len() + i]);
                } else {
                    assert(fields[i] == (METADATA_PREFIX@ + key@, value@));
                }
            }
        }
        index = index + 1;
    }
    proof {
        let part = metadata@.subrange(base.len() as int, metadata@.len() as int);
        assert(metadata_fields(keys.entries@, part) =~= fields) by {
            assert forall|i: int| 0 <= i < fields.len() implies metadata_fields(
                keys.entries@,
                part,
            )[i] == fields[i] by {
                assert(part[i] == metadata@[base.len() + i]);
            }
        }
    }
}

/// Validates a grouped native append while retaining message and value slices
/// directly into `payload`.
pub fn decode_native_log_batch_view(payload: &[u8]) -> (result: Result<
    NativeBatchView<'_>,
    NativeProtocolError,
>)
    ensures
        match result {
            Ok(view) => parse_batch(payload@, BatchReader::View) matches Ok(wire)
                && view.tenant_text() == wire.tenant && view.events() == events_of(
                wire.tenant,
                wire.streams,
            ),
            Err(error) => parse_batch(payload@, BatchReader::View) == Err::<WireBatch, _>(error),
        },
{
    let batch = match read_batch(payload, BatchReader::View) {
        Ok(batch) => batch,
        Err(error) => return Err(error),
    };
    let ghost model = batch@.streams;
    let tenant = batch.tenant;
    let mut streams: Vec<NativeStreamView<'_>> = Vec::new();
    let mut records: Vec<NativeRecordView<'_>> = Vec::new();
    let mut metadata: Vec<NativeMetadataView<'_>> = Vec::new();
    let mut metadata_keys = NativeMetadataKeys::new();
    let mut index: usize = 0;
    proof {
        crate::native_limits::lemma_parsed_counts(payload@, BatchReader::View);
        assert(model.subrange(0, 0) =~= Seq::<WireStream>::empty());
        assert(view_events(tenant@, streams@, records@, metadata@, metadata_keys.entries@)
            =~= Seq::<EventModel>::empty());
    }
    while index < batch.streams.len()
        invariant
            index <= batch.streams@.len(),
            tenant == batch.tenant,
            model == batch@.streams,
            crate::native_limits::counts_fit(model),
            streams@.len() == index,
            keys_normalized(metadata_keys.entries@),
            keys_distinct(metadata_keys.entries@),
            parts_valid(streams@, records@, metadata@, metadata_keys.entries@),
            view_events(tenant@, streams@, records@, metadata@, metadata_keys.entries@)
                == events_of(tenant@, model.subrange(0, index as int)),
        decreases batch.streams@.len() - index,
    {
        let stream = &batch.streams[index];
        let ghost wire = stream@;
        let ghost done = events_of(tenant@, model.subrange(0, index as int));
        let ghost added = stream_events(tenant@, wire);
        let ghost old_streams = streams@;
        proof {
            assert(model[index as int] == wire);
            assert(model.subrange(0, index + 1).drop_last() =~= model.subrange(0, index as int));
            assert(model.subrange(0, index + 1).last() == wire);
        }
        let header = stream_view(stream);
        streams.push(header);
        proof {
            assert(streams@.subrange(0, old_streams.len() as int) =~= old_streams);
            lemma_events_stable(
                tenant@,
                old_streams,
                records@,
                metadata@,
                metadata_keys.entries@,
                streams@,
                metadata@,
                metadata_keys.entries@,
            );
            assert(parts_valid(streams@, records@, metadata@, metadata_keys.entries@));
            assert(done + added.subrange(0, 0) =~= done);
        }
        let mut position: usize = 0;
        while position < stream.entries.len()
            invariant
                position <= stream.entries@.len(),
                index < batch.streams@.len(),
                stream == batch.streams@[index as int],
                wire == stream@,
                model == batch@.streams,
                wire == model[index as int],
                crate::native_limits::counts_fit(model),
                added == stream_events(tenant@, wire),
                streams@.len() == index + 1,
                label_fields(streams@[index as int].labels@) == prefixed(
                    LABEL_PREFIX@,
                    wire.labels,
                ),
                streams@[index as int].compression_cohort.0 == cohort_of(wire.labels),
                keys_normalized(metadata_keys.entries@),
                keys_distinct(metadata_keys.entries@),
                parts_valid(streams@, records@, metadata@, metadata_keys.entries@),
                view_events(tenant@, streams@, records@, metadata@, metadata_keys.entries@) == done
                    + added.subrange(0, position as int),
            decreases stream.entries@.len() - position,
        {
            let entry = &stream.entries[position];
            let ghost old_metadata = metadata@;
            let ghost old_keys = metadata_keys.entries@;
            let start: usize = metadata.len();
            append_metadata(&mut metadata, &mut metadata_keys, &entry.metadata);
            let record = NativeRecordView {
                stream_id: index,
                timestamp_unix_nanos: entry.timestamp,
                message: entry.line,
                metadata_start: start,
                metadata_end: metadata.len(),
            };
            proof {
                assert(streams@.subrange(0, streams@.len() as int) =~= streams@);
                lemma_events_stable(
                    tenant@,
                    streams@,
                    records@,
                    old_metadata,
                    old_keys,
                    streams@,
                    metadata@,
                    metadata_keys.entries@,
                );
                assert(wire.entries[position as int] == entry@);
                assert(label_fields(streams@[index as int].labels@).len() == wire.labels.len());
                let event = record_event(
                    tenant@,
                    streams@,
                    metadata_keys.entries@,
                    metadata@,
                    record,
                );
                assert(event.fields =~= event_fields(tenant@, wire.labels, entry@.metadata));
                assert(event == added[position as int]);
                assert(view_events(
                    tenant@,
                    streams@,
                    records@.push(record),
                    metadata@,
                    metadata_keys.entries@,
                ) =~= view_events(
                    tenant@,
                    streams@,
                    records@,
                    metadata@,
                    metadata_keys.entries@,
                ).push(event));
                assert(done + added.subrange(0, position + 1) =~= (done + added.subrange(
                    0,
                    position as int,
                )).push(added[position as int]));
            }
            records.push(record);
            position = position + 1;
        }
        proof {
            assert(added.subrange(0, position as int) =~= added);
        }
        index = index + 1;
    }
    proof {
        assert(model.subrange(0, index as int) =~= model);
    }
    Ok(NativeBatchView { tenant, streams, records, metadata, metadata_keys })
}

} // verus!
