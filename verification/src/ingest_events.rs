//! Packing events and getting them back.
use vstd::prelude::*;

use crate::error::{block_fault, BlockFault, LogDbError, LogDbFault};
use crate::ingest_laws::{
    numbered_stored, prepared_pack_gives_back_events, records_of_group, stores,
};
use crate::ingest_pack::{
    collected, declared_record_count, declared_records, decompress_group, group_block, next_valid,
    numbered, pack_complete, pack_groups, pack_header, parse_pack, EventCollector, GroupModel,
    IngestPackCursor, Numbered, PackPlace, StructuralRecord,
};
use crate::ingest_prepare::{
    blocks_view, group_ingest_events, group_native_payload, group_records, groups_view, packed,
    prepare_grouped_ingest_pack, restorable, BlockModel, EncodedBlock, PreparedIngestPack,
};
use crate::native_batch::{parse_batch, BatchReader};
use crate::native_decode::events_of;
use crate::native_laws::readers_agree;
use crate::record::{events_view, EventModel, OtlpLogEvent};

verus! {

broadcast use vstd::seq_lib::group_seq_properties;

/// The pack and the transient pack of events, given the block of each of their groups, or why
/// there are none.
pub open spec fn prepared_events(events: Seq<EventModel>, blocks: Seq<BlockModel>) -> Result<
    (Seq<u8>, Seq<u8>),
    LogDbFault,
> {
    if events.len() > u32::MAX {
        Err(LogDbError::RecordTooLarge@)
    } else {
        packed(events.len() as u32, group_records(events), blocks)
    }
}

/// What a native payload is prepared to: tenant, record count, pack and transient pack, or why
/// it is refused.
pub open spec fn prepared_native(payload: Seq<u8>, blocks: Seq<BlockModel>) -> Result<
    (Seq<char>, u32, Seq<u8>, Seq<u8>),
    LogDbFault,
> {
    match parse_batch(payload, BatchReader::View) {
        Err(error) => Err(LogDbError::InvalidNativePayload(error)@),
        Ok(batch) => {
            let events = events_of(batch.tenant, batch.streams);
            match prepared_events(events, blocks) {
                Err(fault) => Err(fault),
                Ok((pack, transient)) => Ok((batch.tenant, events.len() as u32, pack, transient)),
            }
        },
    }
}

/// Encodes events as a pack, given the block of each of their groups.
pub fn prepare_ingest_pack(events: &Vec<OtlpLogEvent>, blocks: &Vec<EncodedBlock>) -> (result:
    Result<PreparedIngestPack, LogDbError>)
    requires
        events@.len() <= u32::MAX ==> blocks@.len() == group_records(events_view(events@)).len(),
    ensures
        match (prepared_events(events_view(events@), blocks_view(blocks@)), result) {
            (Ok((pack, transient)), Ok(prepared)) => {
                &&& prepared.payload@ == pack
                &&& prepared.transient_context@ == transient
                &&& forall|i: int| 0 <= i < blocks@.len() ==> restorable(#[trigger] blocks@[i]@)
            },
            (Err(fault), Err(error)) => error@ == fault,
            _ => false,
        },
{
    let groups = match group_ingest_events(events) {
        Ok(groups) => groups,
        Err(error) => return Err(error),
    };
    proof {
        assert(groups@.len() == groups_view(groups@).len());
        assert(events@.len() == events_view(events@).len());
    }
    prepare_grouped_ingest_pack(events.len() as u32, &groups, blocks)
}

/// A native payload as a pack.
#[derive(Debug, PartialEq, Eq)]
pub struct PreparedNativeIngestPack {
    /// Tenant of the batch.
    pub tenant: String,
    /// Number of records.
    pub record_count: u32,
    /// The pack with its transient pack.
    pub ingest_pack: PreparedIngestPack,
}

/// Encodes a native payload as a pack, given the block of each group of its records.
pub fn prepare_native_ingest_pack(payload: &[u8], blocks: &Vec<EncodedBlock>) -> (result: Result<
    PreparedNativeIngestPack,
    LogDbError,
>)
    requires
        parse_batch(payload@, BatchReader::View) matches Ok(batch) ==> blocks@.len()
            == group_records(events_of(batch.tenant, batch.streams)).len(),
    ensures
        match (prepared_native(payload@, blocks_view(blocks@)), result) {
            (Ok((tenant, count, pack, transient)), Ok(prepared)) => {
                &&& prepared.tenant@ == tenant
                &&& prepared.record_count == count
                &&& prepared.ingest_pack.payload@ == pack
                &&& prepared.ingest_pack.transient_context@ == transient
                &&& forall|i: int| 0 <= i < blocks@.len() ==> restorable(#[trigger] blocks@[i]@)
            },
            (Err(fault), Err(error)) => error@ == fault,
            _ => false,
        },
{
    let grouped = match group_native_payload(payload) {
        Ok(grouped) => grouped,
        Err(error) => return Err(error),
    };
    proof {
        assert(grouped.groups@.len() == groups_view(grouped.groups@).len());
    }
    match prepare_grouped_ingest_pack(grouped.record_count, &grouped.groups, blocks) {
        Ok(ingest_pack) => Ok(
            PreparedNativeIngestPack {
                tenant: grouped.tenant,
                record_count: grouped.record_count,
                ingest_pack,
            },
        ),
        Err(error) => Err(error),
    }
}

/// A native payload is packed as its events are: reading it as events and packing those gives
/// the same tenant, the same number of records, and the same pack and transient pack, byte for
/// byte, or the same failure.
pub proof fn native_payloads_are_packed_as_events(payload: Seq<u8>, blocks: Seq<BlockModel>)
    ensures
        match parse_batch(payload, BatchReader::Events) {
            Ok(read) => {
                let events = events_of(read.tenant, read.streams);
                match prepared_events(events, blocks) {
                    Ok((pack, transient)) => prepared_native(payload, blocks) == Ok::<
                        _,
                        LogDbFault,
                    >((read.tenant, events.len() as u32, pack, transient)),
                    Err(fault) => prepared_native(payload, blocks) == Err::<
                        (Seq<char>, u32, Seq<u8>, Seq<u8>),
                        _,
                    >(fault),
                }
            },
            Err(_) => prepared_native(payload, blocks) is Err,
        },
{
    readers_agree(payload, BatchReader::View, BatchReader::Events);
}

/// The records of a block among those of all blocks; none where there is no such block.
pub open spec fn records_of_block(decoded: Seq<Seq<StructuralRecord>>, place: int) -> Seq<
    StructuralRecord,
> {
    if place < decoded.len() {
        decoded[place]
    } else {
        Seq::empty()
    }
}

/// The numbered events of the first `count` groups of a pack and the place behind them, given
/// the records of each block.
pub open spec fn numbered_pack(
    payload: Seq<u8>,
    decoded: Seq<Seq<StructuralRecord>>,
    expected: u32,
    count: nat,
) -> Result<(Numbered, PackPlace), LogDbFault>
    decreases count,
{
    if count == 0 {
        Ok((Seq::empty(), PackPlace { at: 12, observed: 0 }))
    } else {
        match numbered_pack(payload, decoded, expected, (count - 1) as nat) {
            Err(fault) => Err(fault),
            Ok((front, place)) => match next_valid(payload, place) {
                Err(error) => Err(error@),
                Ok((group, next)) => match group_block(payload, group) {
                    Err(fault) => Err(fault),
                    Ok(_) => {
                        let records = records_of_block(decoded, count - 1);
                        if records.len() != group.record_count {
                            Err(block_fault(BlockFault::GroupRecordCount)@)
                        } else {
                            match numbered(records, group.cohort, expected) {
                                Err(error) => Err(error@),
                                Ok(list) => Ok((front + list, next)),
                            }
                        }
                    },
                },
            },
        }
    }
}

/// The events of a pack, given the records of each block, or the first fault.
pub open spec fn unpacked(payload: Seq<u8>, decoded: Seq<Seq<StructuralRecord>>) -> Result<
    Seq<EventModel>,
    LogDbFault,
> {
    match declared_records(payload) {
        Err(error) => Err(error@),
        Ok(expected) => match pack_header(payload, expected) {
            Err(error) => Err(error@),
            Ok(count) => match numbered_pack(payload, decoded, expected, count) {
                Err(fault) => Err(fault),
                Ok((list, place)) => if !pack_complete(payload, expected, count, place) {
                    Err(block_fault(BlockFault::PackTotals)@)
                } else {
                    match collected(list, expected) {
                        Err(error) => Err(error@),
                        Ok(events) => Ok(events),
                    }
                },
            },
        },
    }
}

/// Records of blocks.
pub open spec fn record_lists(decoded: Seq<Vec<StructuralRecord>>) -> Seq<Seq<StructuralRecord>> {
    decoded.map_values(|records: Vec<StructuralRecord>| records@)
}

proof fn lemma_numbered_fault(
    payload: Seq<u8>,
    decoded: Seq<Seq<StructuralRecord>>,
    expected: u32,
    n: nat,
    count: nat,
)
    requires
        n <= count,
        numbered_pack(payload, decoded, expected, n) is Err,
    ensures
        numbered_pack(payload, decoded, expected, count) == numbered_pack(
            payload,
            decoded,
            expected,
            n,
        ),
    decreases count,
{
    if n < count {
        lemma_numbered_fault(payload, decoded, expected, n, (count - 1) as nat);
    }
}

/// Decodes a pack into its events, given the records of each block.
pub fn decode_ingest_pack(payload: &[u8], decoded: Vec<Vec<StructuralRecord>>) -> (result: Result<
    Vec<OtlpLogEvent>,
    LogDbError,
>)
    ensures
        match (unpacked(payload@, record_lists(decoded@)), result) {
            (Ok(models), Ok(events)) => events_view(events@) == models,
            (Err(fault), Err(error)) => error@ == fault,
            _ => false,
        },
{
    let ghost lists = record_lists(decoded@);
    let expected: u32 = match declared_record_count(payload) {
        Ok(expected) => expected,
        Err(error) => return Err(error),
    };
    let mut cursor = match IngestPackCursor::new(payload, expected) {
        Ok(cursor) => cursor,
        Err(error) => return Err(error),
    };
    let mut collector = EventCollector::new(expected);
    let mut queue = decoded;
    let ghost total = cursor.group_count as nat;
    proof {
        assert(record_lists(queue@) =~= lists.subrange(0, lists.len() as int));
    }
    while cursor.groups_read < cursor.group_count
        invariant
            cursor.on_track(),
            cursor.payload == payload,
            cursor.expected_record_count == expected,
            cursor.group_count == total,
            cursor.groups_read <= cursor.group_count,
            collector.expected_record_count == expected,
            pack_header(payload@, expected) == Ok::<nat, LogDbError>(total),
            record_lists(queue@) == if cursor.groups_read <= lists.len() {
                lists.subrange(cursor.groups_read as int, lists.len() as int)
            } else {
                Seq::empty()
            },
            numbered_pack(payload@, lists, expected, cursor.groups_read as nat) == Ok::<
                _,
                LogDbFault,
            >((collector@, cursor.place())),
            lists == record_lists(decoded@),
            declared_records(payload@) == Ok::<u32, LogDbError>(expected),
        decreases cursor.group_count - cursor.groups_read,
    {
        let ghost read = cursor.groups_read as int;
        let ghost before = collector@;
        proof {
            if numbered_pack(payload@, lists, expected, (read + 1) as nat) is Err {
                lemma_numbered_fault(payload@, lists, expected, (read + 1) as nat, total);
            }
        }
        let group = match cursor.next_group() {
            Ok(group) => group,
            Err(error) => return Err(error),
        };
        match decompress_group(payload, &group) {
            Ok(_) => {},
            Err(error) => return Err(error),
        }
        let ghost waiting = queue@;
        let records: Vec<StructuralRecord> = if queue.len() > 0 {
            queue.remove(0)
        } else {
            Vec::new()
        };
        proof {
            assert(waiting.len() == record_lists(waiting).len());
            if waiting.len() > 0 {
                assert(record_lists(waiting)[0] == lists[read]);
                assert(queue@ =~= waiting.remove(0));
                assert forall|i: int| 0 <= i < queue@.len() implies record_lists(queue@)[i]
                    == lists[read + 1 + i] by {
                    assert(record_lists(waiting)[i + 1] == lists[read + 1 + i]);
                    assert(queue@[i] == waiting[i + 1]);
                }
                assert(record_lists(queue@) =~= lists.subrange(read + 1, lists.len() as int));
            } else {
                assert(records@ =~= Seq::<StructuralRecord>::empty());
                assert(record_lists(queue@) =~= Seq::<Seq<StructuralRecord>>::empty());
                if read + 1 <= lists.len() {
                    assert(lists.subrange(read, lists.len() as int).len() > 0);
                }
            }
            assert(records@ == records_of_block(lists, read));
        }
        match collector.take_records(&group, records) {
            Ok(_) => {},
            Err(error) => return Err(error),
        }
    }
    match cursor.finish() {
        Ok(_) => {},
        Err(error) => return Err(error),
    }
    collector.into_events()
}

proof fn lemma_same_numbers(
    payload: Seq<u8>,
    decoded: Seq<Seq<StructuralRecord>>,
    expected: u32,
    stored: Seq<GroupModel>,
    count: nat,
)
    requires
        pack_groups(payload, count) is Ok,
        pack_groups(payload, count)->Ok_0.0 == stored.subrange(0, count as int),
        count <= stored.len(),
        count <= decoded.len(),
        numbered_stored(stored, decoded, expected, count) is Ok,
        forall|i: int|
            0 <= i < count ==> group_block(payload, #[trigger] stored[i]) is Ok && decoded[i].len()
                == stored[i].record_count,
    ensures
        numbered_pack(payload, decoded, expected, count) == Ok::<_, LogDbFault>(
            (
                numbered_stored(stored, decoded, expected, count)->Ok_0,
                pack_groups(payload, count)->Ok_0.1,
            ),
        ),
    decreases count,
{
    if count > 0 {
        let last = (count - 1) as nat;
        let (groups, place) = pack_groups(payload, last)->Ok_0;
        let all = pack_groups(payload, count)->Ok_0.0;
        assert(all.drop_last() =~= groups);
        assert(stored.subrange(0, count as int).drop_last() =~= stored.subrange(0, last as int));
        assert(all.last() == stored[last as int]);
        lemma_same_numbers(payload, decoded, expected, stored, last);
        assert(group_block(payload, stored[last as int]) is Ok);
    }
}

proof fn lemma_groups_len(payload: Seq<u8>, count: nat)
    ensures
        pack_groups(payload, count) matches Ok((groups, _)) ==> groups.len() == count,
    decreases count,
{
    if count > 0 {
        lemma_groups_len(payload, (count - 1) as nat);
    }
}

/// Packing events and decoding the pack gives the events back: where each block decodes to the
/// records of its group, a prepared pack validates and holds exactly the events, in their
/// order across cohorts, with their timestamps, messages, fields and cohorts.
pub proof fn packed_events_come_back(
    events: Seq<EventModel>,
    blocks: Seq<BlockModel>,
    decoded: Seq<Seq<StructuralRecord>>,
)
    requires
        events.len() <= u32::MAX,
        blocks.len() == group_records(events).len(),
        decoded.len() == blocks.len(),
        prepared_events(events, blocks) is Ok,
        forall|i: int|
            0 <= i < blocks.len() ==> (#[trigger] blocks[i]).structural.len() > 0 && restorable(
                blocks[i],
            ),
        forall|i: int|
            0 <= i < decoded.len() ==> records_of_group(
                #[trigger] decoded[i],
                group_records(events)[i],
                events,
            ),
    ensures
        parse_pack(prepared_events(events, blocks)->Ok_0.0, events.len() as u32) is Ok,
        unpacked(prepared_events(events, blocks)->Ok_0.0, decoded) == Ok::<_, LogDbFault>(events),
{
    let count = events.len() as u32;
    let groups = group_records(events);
    let payload = prepared_events(events, blocks)->Ok_0.0;
    prepared_pack_gives_back_events(events, blocks, decoded);
    crate::ingest_laws::grouping_partitions_records(events);
    let stored = parse_pack(payload, count)->Ok_0;
    let total = pack_header(payload, count)->Ok_0;
    lemma_groups_len(payload, total);
    assert(stored.subrange(0, total as int) =~= stored);
    assert forall|i: int| 0 <= i < total implies group_block(payload, #[trigger] stored[i]) is Ok
        && decoded[i].len() == stored[i].record_count by {
        assert(records_of_group(decoded[i], groups[i], events));
        assert(stores(payload, stored[i], groups[i], blocks[i]));
    }
    lemma_same_numbers(payload, decoded, count, stored, total);
}

} // verus!
