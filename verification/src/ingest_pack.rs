//! Compressed ingest packs: framing, validation and decoding.
//!
//! A pack holds one compressed structural block per compression cohort. Beside it
//! travels a transient pack with the search index of each block. What stands
//! inside a structural block is encoded and decoded by the caller.
use vstd::prelude::*;

use crate::codec::{bytes_at, le_value, read_u16, read_u32, read_u64};
use crate::compress::{zstd_decompress, zstd_decompressed};
use crate::error::{block_fault, BlockFault, LogDbError, LogDbFault};
use crate::labels::MetadataField;
use crate::native_frame::{blake3_digest, checksum_of, payload_checksum};
use crate::order::{arranged, is_order, order_of, stable_order};
use crate::record::{CompressionCohortId, EventModel, OtlpLogEvent};

verus! {

broadcast use vstd::seq_lib::group_seq_properties;

/// Bytes of a pack header.
pub const INGEST_PACK_HEADER_BYTES: usize = 12;

/// Bytes of a group header.
pub const INGEST_GROUP_HEADER_BYTES: usize = 40;

/// Bytes of a transient pack header.
pub const TRANSIENT_PACK_HEADER_BYTES: usize = 8;

/// Bytes of a transient group header.
pub const TRANSIENT_GROUP_HEADER_BYTES: usize = 20;

/// Most bytes of one structural block.
pub const MAX_INGEST_STRUCTURAL_BYTES: usize = 67108864;

/// First bytes of a pack: `SLW1`.
pub open spec fn pack_magic() -> Seq<u8> {
    seq![83u8, 76u8, 87u8, 49u8]
}

/// First bytes of a transient pack: `SLT1`.
pub open spec fn transient_magic() -> Seq<u8> {
    seq![83u8, 76u8, 84u8, 49u8]
}

/// Header of one compressed group and the place of its block.
pub struct GroupModel {
    /// Compression cohort.
    pub cohort: u64,
    /// Number of records.
    pub record_count: u32,
    /// Bytes of the structural block.
    pub structural_bytes: u32,
    /// Checksum of the compressed block.
    pub checksum: u32,
    /// Lowest timestamp.
    pub min_timestamp: u64,
    /// Highest timestamp.
    pub max_timestamp: u64,
    /// Where the compressed block starts.
    pub start: int,
    /// Where the compressed block ends.
    pub end: int,
}

/// Number of groups that a pack header declares.
pub open spec fn pack_header(payload: Seq<u8>, expected: u32) -> Result<nat, LogDbError> {
    if payload.len() < 12 || payload.subrange(0, 4) != pack_magic() || payload[10] != 0
        || payload[11] != 0 {
        Err(block_fault(BlockFault::PackHeader))
    } else if le_value(payload.subrange(4, 8)) != expected {
        Err(block_fault(BlockFault::PackRecordCount))
    } else {
        Ok(le_value(payload.subrange(8, 10)))
    }
}

/// The group at a place.
pub open spec fn group_at(payload: Seq<u8>, at: int) -> Result<GroupModel, LogDbError> {
    let size = le_value(payload.subrange(at + 16, at + 20));
    if at + 40 > payload.len() {
        Err(block_fault(BlockFault::GroupHeaderTruncated))
    } else if at + 40 + size > payload.len() {
        Err(block_fault(BlockFault::GroupPayloadTruncated))
    } else {
        Ok(
            GroupModel {
                cohort: le_value(payload.subrange(at, at + 8)) as u64,
                record_count: le_value(payload.subrange(at + 8, at + 12)) as u32,
                structural_bytes: le_value(payload.subrange(at + 12, at + 16)) as u32,
                checksum: le_value(payload.subrange(at + 20, at + 24)) as u32,
                min_timestamp: le_value(payload.subrange(at + 24, at + 32)) as u64,
                max_timestamp: le_value(payload.subrange(at + 32, at + 40)) as u64,
                start: at + 40,
                end: at + 40 + size,
            },
        )
    }
}

/// Whether the header of a group is consistent with its compressed block.
pub open spec fn group_valid(payload: Seq<u8>, group: GroupModel) -> bool {
    &&& group.record_count > 0
    &&& 0 < group.structural_bytes <= MAX_INGEST_STRUCTURAL_BYTES
    &&& group.min_timestamp <= group.max_timestamp
    &&& checksum_of(blake3_digest(payload.subrange(group.start, group.end))) == group.checksum
}

/// Where a reader stands in a pack.
pub struct PackPlace {
    /// Byte position.
    pub at: int,
    /// Records of the groups read.
    pub observed: nat,
}

/// The next valid group and the place behind it.
pub open spec fn next_valid(payload: Seq<u8>, place: PackPlace) -> Result<
    (GroupModel, PackPlace),
    LogDbError,
> {
    match group_at(payload, place.at) {
        Err(error) => Err(error),
        Ok(group) => if group_valid(payload, group) {
            Ok(
                (
                    group,
                    PackPlace { at: group.end, observed: place.observed + group.record_count as nat },
                ),
            )
        } else {
            Err(block_fault(BlockFault::InvalidGroup))
        },
    }
}

/// The first `count` groups of a pack and the place behind them.
pub open spec fn pack_groups(payload: Seq<u8>, count: nat) -> Result<
    (Seq<GroupModel>, PackPlace),
    LogDbError,
>
    decreases count,
{
    if count == 0 {
        Ok((Seq::empty(), PackPlace { at: 12, observed: 0 }))
    } else {
        match pack_groups(payload, (count - 1) as nat) {
            Err(error) => Err(error),
            Ok((groups, place)) => match next_valid(payload, place) {
                Err(error) => Err(error),
                Ok((group, next)) => Ok((groups.push(group), next)),
            },
        }
    }
}

/// Whether a pack ends where its groups do, with the declared totals.
pub open spec fn pack_complete(
    payload: Seq<u8>,
    expected: u32,
    group_count: nat,
    place: PackPlace,
) -> bool {
    place.at == payload.len() && place.observed == expected && (expected > 0 ==> group_count > 0)
}

/// All groups of a pack that declares `expected` records.
pub open spec fn parse_pack(payload: Seq<u8>, expected: u32) -> Result<
    Seq<GroupModel>,
    LogDbError,
> {
    match pack_header(payload, expected) {
        Err(error) => Err(error),
        Ok(count) => match pack_groups(payload, count) {
            Err(error) => Err(error),
            Ok((groups, place)) => if pack_complete(payload, expected, count, place) {
                Ok(groups)
            } else {
                Err(block_fault(BlockFault::PackTotals))
            },
        },
    }
}

proof fn lemma_pack_error(payload: Seq<u8>, n: nat, count: nat)
    requires
        n <= count,
        pack_groups(payload, n) is Err,
    ensures
        pack_groups(payload, count) == pack_groups(payload, n),
    decreases count,
{
    if n < count {
        lemma_pack_error(payload, n, (count - 1) as nat);
    }
}

/// Whether a payload starts like a compressed ingest pack.
pub fn is_ingest_pack(payload: &[u8]) -> (is_pack: bool)
    ensures
        is_pack == (payload@.len() >= 4 && payload@.subrange(0, 4) == pack_magic()),
{
    starts_with(payload, &[83u8, 76u8, 87u8, 49u8])
}

fn starts_with(payload: &[u8], magic: &[u8; 4]) -> (starts: bool)
    ensures
        starts == (payload@.len() >= 4 && payload@.subrange(0, 4) == magic@),
{
    payload.len() >= 4 && bytes_at(payload, 0, magic)
}

/// One compressed group.
pub struct IngestGroup {
    /// Compression cohort.
    pub cohort: CompressionCohortId,
    /// Number of records.
    pub record_count: u32,
    /// Bytes of the structural block.
    pub structural_bytes: u32,
    /// Checksum of the compressed block.
    pub checksum: u32,
    /// Lowest timestamp.
    pub min_timestamp_unix_nanos: u64,
    /// Highest timestamp.
    pub max_timestamp_unix_nanos: u64,
    /// Where the compressed block starts.
    pub start: usize,
    /// Where the compressed block ends.
    pub end: usize,
}

impl View for IngestGroup {
    type V = GroupModel;

    open spec fn view(&self) -> GroupModel {
        GroupModel {
            cohort: self.cohort.0,
            record_count: self.record_count,
            structural_bytes: self.structural_bytes,
            checksum: self.checksum,
            min_timestamp: self.min_timestamp_unix_nanos,
            max_timestamp: self.max_timestamp_unix_nanos,
            start: self.start as int,
            end: self.end as int,
        }
    }
}

/// Reader of the groups of a pack.
pub struct IngestPackCursor<'a> {
    /// The pack.
    pub payload: &'a [u8],
    /// Byte position.
    pub cursor: usize,
    /// Declared number of groups.
    pub group_count: u16,
    /// Groups read.
    pub groups_read: u16,
    /// Declared number of records.
    pub expected_record_count: u32,
    /// Records of the groups read.
    pub observed_record_count: u64,
}

impl<'a> IngestPackCursor<'a> {
    /// Where the reader stands.
    pub open spec fn place(self) -> PackPlace {
        PackPlace { at: self.cursor as int, observed: self.observed_record_count as nat }
    }

    /// The reader stands in the payload and has counted the records it read.
    pub open spec fn valid(self) -> bool {
        &&& self.cursor <= self.payload@.len()
        &&& self.groups_read <= self.group_count
        &&& self.observed_record_count <= self.groups_read * 0xffff_ffff
    }

    /// The reader has read the first groups of the payload.
    pub open spec fn on_track(self) -> bool {
        &&& self.valid()
        &&& pack_header(self.payload@, self.expected_record_count) == Ok::<nat, LogDbError>(
            self.group_count as nat,
        )
        &&& pack_groups(self.payload@, self.groups_read as nat) is Ok
        &&& pack_groups(self.payload@, self.groups_read as nat)->Ok_0.1 == self.place()
    }

    /// Starts at the first group of a pack.
    pub fn new(payload: &'a [u8], expected_record_count: u32) -> (result: Result<
        Self,
        LogDbError,
    >)
        ensures
            match result {
                Ok(cursor) => {
                    &&& cursor.on_track()
                    &&& cursor.groups_read == 0
                    &&& cursor.payload == payload
                    &&& cursor.expected_record_count == expected_record_count
                },
                Err(error) => pack_header(payload@, expected_record_count) == Err::<nat, _>(error),
            },
    {
        if payload.len() < INGEST_PACK_HEADER_BYTES || !starts_with(
            payload,
            &[83u8, 76u8, 87u8, 49u8],
        ) || payload[10] != 0 || payload[11] != 0 {
            return Err(LogDbError::InvalidBlockEncoding(BlockFault::PackHeader));
        }
        if read_u32(payload, 4) != expected_record_count {
            return Err(LogDbError::InvalidBlockEncoding(BlockFault::PackRecordCount));
        }
        Ok(
            IngestPackCursor {
                payload,
                cursor: INGEST_PACK_HEADER_BYTES,
                group_count: read_u16(payload, 8),
                groups_read: 0,
                expected_record_count,
                observed_record_count: 0,
            },
        )
    }

    /// Reads the next group and checks it against its compressed block.
    pub fn next_group(&mut self) -> (result: Result<IngestGroup, LogDbError>)
        requires
            old(self).on_track(),
            old(self).groups_read < old(self).group_count,
        ensures
            final(self).payload == old(self).payload,
            final(self).group_count == old(self).group_count,
            final(self).expected_record_count == old(self).expected_record_count,
            match result {
                Ok(group) => {
                    &&& final(self).on_track()
                    &&& final(self).groups_read == old(self).groups_read + 1
                    &&& next_valid(old(self).payload@, old(self).place()) == Ok::<_, LogDbError>(
                        (group@, final(self).place()),
                    )
                },
                Err(error) => next_valid(old(self).payload@, old(self).place()) == Err::<
                    (GroupModel, PackPlace),
                    _,
                >(error) && parse_pack(old(self).payload@, old(self).expected_record_count) == Err::<
                    Seq<GroupModel>,
                    _,
                >(error),
            },
    {
        let total: usize = self.payload.len();
        let at: usize = self.cursor;
        let ghost bytes = self.payload@;
        let ghost done = self.groups_read as nat;
        proof {
            if next_valid(bytes, self.place()) is Err {
                assert(pack_groups(bytes, done + 1) is Err);
                lemma_pack_error(bytes, done + 1, self.group_count as nat);
            }
        }
        if total - at < INGEST_GROUP_HEADER_BYTES {
            return Err(LogDbError::InvalidBlockEncoding(BlockFault::GroupHeaderTruncated));
        }
        let size: u32 = read_u32(self.payload, at + 16);
        let start: usize = at + INGEST_GROUP_HEADER_BYTES;
        if ((total - start) as u64) < size as u64 {
            return Err(LogDbError::InvalidBlockEncoding(BlockFault::GroupPayloadTruncated));
        }
        let end: usize = start + size as usize;
        let group = IngestGroup {
            cohort: CompressionCohortId(read_u64(self.payload, at)),
            record_count: read_u32(self.payload, at + 8),
            structural_bytes: read_u32(self.payload, at + 12),
            checksum: read_u32(self.payload, at + 20),
            min_timestamp_unix_nanos: read_u64(self.payload, at + 24),
            max_timestamp_unix_nanos: read_u64(self.payload, at + 32),
            start,
            end,
        };
        proof {
            assert(group_at(bytes, at as int) == Ok::<GroupModel, LogDbError>(group@));
        }
        if !validate_group(self.payload, &group) {
            return Err(LogDbError::InvalidBlockEncoding(BlockFault::InvalidGroup));
        }
        self.cursor = end;
        proof {
            assert(self.groups_read < 0xffff);
            assert(self.groups_read * 0xffff_ffff <= 0xffff * 0xffff_ffff) by (nonlinear_arith)
                requires
                    self.groups_read < 0xffff,
            ;
        }
        self.observed_record_count = self.observed_record_count + group.record_count as u64;
        self.groups_read = self.groups_read + 1;
        proof {
            assert((done + 1) as nat - 1 == done);
        }
        Ok(group)
    }

    /// Checks that the groups fill the pack.
    pub fn finish(&self) -> (result: Result<(), LogDbError>)
        requires
            self.on_track(),
            self.groups_read == self.group_count,
        ensures
            match result {
                Ok(_) => pack_complete(
                    self.payload@,
                    self.expected_record_count,
                    self.group_count as nat,
                    self.place(),
                ) && parse_pack(self.payload@, self.expected_record_count) is Ok,
                Err(error) => parse_pack(self.payload@, self.expected_record_count) == Err::<
                    Seq<GroupModel>,
                    _,
                >(error),
            },
    {
        if self.cursor != self.payload.len() || self.observed_record_count
            != self.expected_record_count as u64 || (self.expected_record_count > 0
            && self.group_count == 0) {
            return Err(LogDbError::InvalidBlockEncoding(BlockFault::PackTotals));
        }
        Ok(())
    }
}

/// Whether the header of a group is consistent with its compressed block.
fn validate_group(payload: &[u8], group: &IngestGroup) -> (valid: bool)
    requires
        group.start <= group.end <= payload@.len(),
    ensures
        valid == group_valid(payload@, group@),
{
    let compressed = &payload[group.start..group.end];
    proof {
        assert(compressed@ =~= payload@.subrange(group.start as int, group.end as int));
    }
    group.record_count != 0 && group.structural_bytes != 0 && group.structural_bytes as u64
        <= MAX_INGEST_STRUCTURAL_BYTES as u64 && group.min_timestamp_unix_nanos
        <= group.max_timestamp_unix_nanos && payload_checksum(compressed) == group.checksum
}

/// Validates the framing, totals and checksums of a pack.
pub fn validate_ingest_pack(payload: &[u8], expected_record_count: u32) -> (result: Result<
    (),
    LogDbError,
>)
    ensures
        match result {
            Ok(_) => parse_pack(payload@, expected_record_count) is Ok,
            Err(error) => parse_pack(payload@, expected_record_count) == Err::<
                Seq<GroupModel>,
                _,
            >(error),
        },
{
    let mut cursor = match IngestPackCursor::new(payload, expected_record_count) {
        Ok(cursor) => cursor,
        Err(error) => return Err(error),
    };
    while cursor.groups_read < cursor.group_count
        invariant
            cursor.on_track(),
            cursor.payload == payload,
            cursor.expected_record_count == expected_record_count,
        decreases cursor.group_count - cursor.groups_read,
    {
        match cursor.next_group() {
            Ok(_) => {},
            Err(error) => return Err(error),
        }
    }
    cursor.finish()
}

/// What the compressed block of a group decompresses to.
pub open spec fn group_block(payload: Seq<u8>, group: GroupModel) -> Result<Seq<u8>, LogDbFault> {
    match zstd_decompressed(
        payload.subrange(group.start, group.end),
        group.structural_bytes as usize,
    ) {
        Err(text) => Err(LogDbFault::CompressionFailed(text)),
        Ok(block) => if block.len() != group.structural_bytes {
            Err(block_fault(BlockFault::StructuralLength)@)
        } else {
            Ok(block)
        },
    }
}

/// Decompresses the block of a group.
pub fn decompress_group(payload: &[u8], group: &IngestGroup) -> (result: Result<
    Vec<u8>,
    LogDbError,
>)
    requires
        group.start <= group.end <= payload@.len(),
        group.structural_bytes <= isize::MAX,
    ensures
        match result {
            Ok(block) => group_block(payload@, group@) == Ok::<_, LogDbFault>(block@),
            Err(error) => group_block(payload@, group@) == Err::<Seq<u8>, _>(error@),
        },
{
    let compressed = &payload[group.start..group.end];
    proof {
        assert(compressed@ =~= payload@.subrange(group.start as int, group.end as int));
    }
    match zstd_decompress(compressed, group.structural_bytes as usize) {
        Err(text) => Err(LogDbError::CompressionFailed(text)),
        Ok(block) => {
            if block.len() != group.structural_bytes as usize {
                Err(LogDbError::InvalidBlockEncoding(BlockFault::StructuralLength))
            } else {
                Ok(block)
            }
        },
    }
}

/// Record of a structural block, as its decoder gives it.
pub struct StructuralRecord {
    /// Ordinal of the record in its pack.
    pub offset: u64,
    /// Nanosecond Unix timestamp.
    pub timestamp_unix_nanos: u64,
    /// Log message.
    pub message: String,
    /// Indexed fields.
    pub fields: Vec<MetadataField>,
}

impl StructuralRecord {
    /// The event of this record in a cohort.
    pub open spec fn event(self, cohort: u64) -> EventModel {
        EventModel {
            timestamp: self.timestamp_unix_nanos,
            message: self.message@,
            fields: crate::labels::fields_view(self.fields@),
            cohort,
        }
    }
}

/// Numbered events.
pub type Numbered = Seq<(u32, EventModel)>;

/// The numbered events of a group, or the first error.
pub open spec fn numbered(records: Seq<StructuralRecord>, cohort: u64, expected: u32) -> Result<
    Numbered,
    LogDbError,
>
    decreases records.len(),
{
    if records.len() == 0 {
        Ok(Seq::empty())
    } else {
        match numbered(records.drop_last(), cohort, expected) {
            Err(error) => Err(error),
            Ok(front) => if records.last().offset > u32::MAX {
                Err(LogDbError::RecordTooLarge)
            } else if records.last().offset >= expected {
                Err(block_fault(BlockFault::OrdinalRange))
            } else {
                Ok(front.push((records.last().offset as u32, records.last().event(cohort))))
            },
        }
    }
}

proof fn lemma_numbered_error(
    records: Seq<StructuralRecord>,
    n: int,
    cohort: u64,
    expected: u32,
)
    requires
        0 <= n <= records.len(),
        numbered(records.subrange(0, n), cohort, expected) is Err,
    ensures
        numbered(records, cohort, expected) == numbered(records.subrange(0, n), cohort, expected),
    decreases records.len(),
{
    if n < records.len() {
        assert(records.drop_last().subrange(0, n) =~= records.subrange(0, n));
        lemma_numbered_error(records.drop_last(), n, cohort, expected);
    } else {
        assert(records.subrange(0, n) =~= records);
    }
}

/// Numbered events of the groups read so far.
pub struct EventCollector {
    /// Declared number of records.
    pub expected_record_count: u32,
    /// Ordinals with their events.
    pub events: Vec<(u32, OtlpLogEvent)>,
}

/// Values of numbered events.
pub open spec fn numbered_view(events: Seq<(u32, OtlpLogEvent)>) -> Numbered {
    events.map_values(|event: (u32, OtlpLogEvent)| (event.0, event.1@))
}

/// Sort keys of numbered events.
pub open spec fn ordinal_keys(events: Numbered) -> Seq<u128> {
    events.map_values(|event: (u32, EventModel)| event.0 as u128)
}

/// The events by ordinal, where the ordinals are those below `expected`, each once.
pub open spec fn collected(events: Numbered, expected: u32) -> Result<Seq<EventModel>, LogDbError> {
    let sorted = arranged(events, order_of(ordinal_keys(events)));
    if events.len() == expected && forall|i: int|
        0 <= i < sorted.len() ==> (#[trigger] sorted[i]).0 == i {
        Ok(sorted.map_values(|event: (u32, EventModel)| event.1))
    } else {
        Err(block_fault(BlockFault::OrdinalsNotContiguous))
    }
}

impl View for EventCollector {
    type V = Numbered;

    open spec fn view(&self) -> Numbered {
        numbered_view(self.events@)
    }
}

impl EventCollector {
    /// Starts without events.
    pub fn new(expected_record_count: u32) -> (collector: Self)
        ensures
            collector@ == Numbered::empty(),
            collector.expected_record_count == expected_record_count,
    {
        let collector = EventCollector { expected_record_count, events: Vec::new() };
        proof {
            assert(collector@ =~= Numbered::empty());
        }
        collector
    }

    /// Takes in the records of a group.
    pub fn take_records(&mut self, group: &IngestGroup, records: Vec<StructuralRecord>) -> (result:
        Result<(), LogDbError>)
        ensures
            final(self).expected_record_count == old(self).expected_record_count,
            match result {
                Ok(_) => {
                    &&& records@.len() == group.record_count
                    &&& numbered(records@, group.cohort.0, old(self).expected_record_count) is Ok
                    &&& final(self)@ == old(self)@ + numbered(
                        records@,
                        group.cohort.0,
                        old(self).expected_record_count,
                    )->Ok_0
                },
                Err(error) => if records@.len() != group.record_count {
                    error == block_fault(BlockFault::GroupRecordCount)
                } else {
                    numbered(records@, group.cohort.0, old(self).expected_record_count) == Err::<
                        Numbered,
                        _,
                    >(error)
                },
            },
    {
        let ghost all = records@;
        let ghost before = self@;
        let cohort = group.cohort;
        let expected: u32 = self.expected_record_count;
        if records.len() != group.record_count as usize {
            return Err(LogDbError::InvalidBlockEncoding(BlockFault::GroupRecordCount));
        }
        let mut queue = records;
        let ghost mut done: int = 0;
        proof {
            assert(all.subrange(0, 0) =~= Seq::<StructuralRecord>::empty());
            assert(queue@ =~= all.subrange(0, all.len() as int));
            assert(before + Numbered::empty() =~= before);
        }
        while queue.len() > 0
            invariant
                all == records@,
                all.len() == group.record_count,
                0 <= done <= all.len(),
                queue@ == all.subrange(done, all.len() as int),
                cohort == group.cohort,
                expected == self.expected_record_count,
                self.expected_record_count == old(self).expected_record_count,
                numbered(all.subrange(0, done), cohort.0, expected) is Ok,
                self@ == before + numbered(all.subrange(0, done), cohort.0, expected)->Ok_0,
            decreases queue@.len(),
        {
            let record = queue.remove(0);
            let ghost part = all.subrange(0, done + 1);
            let ghost front = numbered(all.subrange(0, done), cohort.0, expected)->Ok_0;
            proof {
                assert(record == all[done]);
                assert(part.drop_last() =~= all.subrange(0, done));
                assert(part.last() == all[done]);
                assert(queue@ =~= all.subrange(done + 1, all.len() as int));
                if numbered(part, cohort.0, expected) is Err {
                    lemma_numbered_error(all, done + 1, cohort.0, expected);
                }
            }
            if record.offset > u32::MAX as u64 {
                return Err(LogDbError::RecordTooLarge);
            }
            let ordinal: u32 = record.offset as u32;
            if ordinal >= expected {
                return Err(LogDbError::InvalidBlockEncoding(BlockFault::OrdinalRange));
            }
            let event = OtlpLogEvent {
                timestamp_unix_nanos: record.timestamp_unix_nanos,
                message: record.message,
                fields: record.fields,
                compression_cohort: cohort,
            };
            proof {
                assert(numbered_view(self.events@.push((ordinal, event))) =~= numbered_view(
                    self.events@,
                ).push((ordinal, event@)));
                assert(event@ == all[done].event(cohort.0));
                assert((before + front).push((ordinal, event@)) =~= before + front.push(
                    (ordinal, event@),
                ));
                done = done + 1;
            }
            self.events.push((ordinal, event));
        }
        proof {
            assert(all.subrange(0, done) =~= all);
        }
        Ok(())
    }

    /// Gives the events in order of their ordinals.
    pub fn into_events(self) -> (result: Result<Vec<OtlpLogEvent>, LogDbError>)
        ensures
            match result {
                Ok(events) => collected(self@, self.expected_record_count) == Ok::<_, LogDbError>(
                    crate::record::events_view(events@),
                ),
                Err(error) => collected(self@, self.expected_record_count) == Err::<
                    Seq<EventModel>,
                    _,
                >(error),
            },
    {
        let ghost model = self@;
        let expected: u32 = self.expected_record_count;
        let events = self.events;
        let mut keys: Vec<u128> = Vec::new();
        let mut index: usize = 0;
        while index < events.len()
            invariant
                index <= events@.len(),
                model == numbered_view(events@),
                keys@.len() == index,
                forall|i: int| 0 <= i < index ==> keys@[i] == ordinal_keys(model)[i],
            decreases events@.len() - index,
        {
            keys.push(events[index].0 as u128);
            index = index + 1;
        }
        proof {
            assert(keys@ =~= ordinal_keys(model));
        }
        let order = stable_order(&keys);
        let ghost sorted = arranged(model, order@);
        if events.len() != expected as usize {
            return Err(LogDbError::InvalidBlockEncoding(BlockFault::OrdinalsNotContiguous));
        }
        let mut result: Vec<OtlpLogEvent> = Vec::new();
        let mut place: usize = 0;
        let ghost wanted = sorted.map_values(|event: (u32, EventModel)| event.1);
        while place < order.len()
            invariant
                place <= order@.len(),
                is_order(keys@, order@),
                order@ == order_of(ordinal_keys(model)),
                keys@.len() == events@.len(),
                model == numbered_view(events@),
                sorted == arranged(model, order@),
                wanted == sorted.map_values(|event: (u32, EventModel)| event.1),
                events@.len() == expected,
                expected == self.expected_record_count,
                model == self@,
                forall|i: int| 0 <= i < place ==> (#[trigger] sorted[i]).0 == i,
                result@.len() == place,
                forall|i: int| 0 <= i < place ==> (#[trigger] result@[i])@ == wanted[i],
            decreases order@.len() - place,
        {
            let at: usize = order[place];
            proof {
                assert(sorted[place as int] == model[at as int]);
                assert(model[at as int] == (events@[at as int].0, events@[at as int].1@));
            }
            if events[at].0 as u64 != place as u64 {
                return Err(LogDbError::InvalidBlockEncoding(BlockFault::OrdinalsNotContiguous));
            }
            result.push(events[at].1.clone());
            place = place + 1;
        }
        proof {
            assert(crate::record::events_view(result@) =~= wanted);
        }
        Ok(result)
    }
}

/// Number of records that a pack declares.
pub open spec fn declared_records(payload: Seq<u8>) -> Result<u32, LogDbError> {
    if payload.len() < 8 {
        Err(block_fault(BlockFault::PackHeaderTruncated))
    } else {
        Ok(le_value(payload.subrange(4, 8)) as u32)
    }
}

/// Number of records that a pack declares.
pub fn declared_record_count(payload: &[u8]) -> (result: Result<u32, LogDbError>)
    ensures
        result == declared_records(payload@),
{
    if payload.len() < 8 {
        return Err(LogDbError::InvalidBlockEncoding(BlockFault::PackHeaderTruncated));
    }
    Ok(read_u32(payload, 4))
}

} // verus!
