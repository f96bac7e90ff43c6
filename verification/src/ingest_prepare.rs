//! Preparation of compressed ingest packs.
use vstd::prelude::*;

use crate::codec::{le_bytes, put_bytes, put_le};
use crate::compress::{zstd_compress, zstd_compressed, zstd_decompressed};
use crate::error::{BlockFault, LogDbError, LogDbFault};
use crate::ingest_pack::{pack_magic, transient_magic, MAX_INGEST_STRUCTURAL_BYTES};
use crate::native_batch::{parse_batch, BatchReader};
use crate::native_decode::events_of;
use crate::native_frame::{
    blake3_digest, checksum_of, payload_checksum, MAX_NATIVE_FRAME_BYTES,
};
use crate::native_view::decode_native_log_batch_view;
use crate::record::{events_view, CompressionCohortId, EventModel, OtlpLogEvent};

verus! {

broadcast use vstd::seq_lib::group_seq_properties;

/// Compression level of ingest packs.
pub const INGEST_PACK_ZSTD_LEVEL: i32 = 1;

/// Records of one compression cohort.
#[verifier::ext_equal]
pub struct CohortModel {
    /// Compression cohort.
    pub cohort: u64,
    /// Places of the records in the batch, ascending.
    pub ordinals: Seq<u32>,
    /// Lowest timestamp.
    pub min_timestamp: u64,
    /// Highest timestamp.
    pub max_timestamp: u64,
}

/// First group from `from` on whose cohort is not below a cohort.
pub open spec fn cohort_place(groups: Seq<CohortModel>, cohort: u64, from: int) -> int
    decreases groups.len() - from,
{
    if from >= groups.len() {
        groups.len() as int
    } else if groups[from].cohort >= cohort {
        from
    } else {
        cohort_place(groups, cohort, from + 1)
    }
}

/// Groups in ascending cohort order with one more record.
pub open spec fn add_record(
    groups: Seq<CohortModel>,
    cohort: u64,
    timestamp: u64,
    ordinal: u32,
) -> Seq<CohortModel> {
    let at = cohort_place(groups, cohort, 0);
    if at < groups.len() && groups[at].cohort == cohort {
        groups.update(
            at,
            CohortModel {
                cohort,
                ordinals: groups[at].ordinals.push(ordinal),
                min_timestamp: if timestamp < groups[at].min_timestamp {
                    timestamp
                } else {
                    groups[at].min_timestamp
                },
                max_timestamp: if timestamp > groups[at].max_timestamp {
                    timestamp
                } else {
                    groups[at].max_timestamp
                },
            },
        )
    } else {
        groups.insert(
            at,
            CohortModel {
                cohort,
                ordinals: seq![ordinal],
                min_timestamp: timestamp,
                max_timestamp: timestamp,
            },
        )
    }
}

/// Records grouped by cohort, in ascending cohort order.
pub open spec fn group_records(events: Seq<EventModel>) -> Seq<CohortModel>
    decreases events.len(),
{
    if events.len() == 0 {
        Seq::empty()
    } else {
        add_record(
            group_records(events.drop_last()),
            events.last().cohort,
            events.last().timestamp,
            (events.len() - 1) as u32,
        )
    }
}

/// Records of one compression cohort.
#[derive(Debug, PartialEq, Eq)]
pub struct CohortGroup {
    /// Compression cohort.
    pub cohort: CompressionCohortId,
    /// Places of the records in the batch, ascending.
    pub ordinals: Vec<u32>,
    /// Lowest timestamp.
    pub min_timestamp_unix_nanos: u64,
    /// Highest timestamp.
    pub max_timestamp_unix_nanos: u64,
}

impl View for CohortGroup {
    type V = CohortModel;

    open spec fn view(&self) -> CohortModel {
        CohortModel {
            cohort: self.cohort.0,
            ordinals: self.ordinals@,
            min_timestamp: self.min_timestamp_unix_nanos,
            max_timestamp: self.max_timestamp_unix_nanos,
        }
    }
}

/// Values of groups.
pub open spec fn groups_view(groups: Seq<CohortGroup>) -> Seq<CohortModel> {
    groups.map_values(|group: CohortGroup| group@)
}

pub proof fn lemma_cohort_place(groups: Seq<CohortModel>, cohort: u64, from: int)
    requires
        0 <= from <= groups.len(),
    ensures
        from <= cohort_place(groups, cohort, from) <= groups.len(),
        forall|i: int|
            from <= i < cohort_place(groups, cohort, from) ==> (#[trigger] groups[i]).cohort
                < cohort,
        cohort_place(groups, cohort, from) < groups.len() ==> groups[cohort_place(
            groups,
            cohort,
            from,
        )].cohort >= cohort,
    decreases groups.len() - from,
{
    if from < groups.len() && groups[from].cohort < cohort {
        lemma_cohort_place(groups, cohort, from + 1);
    }
}

/// Adds a record to the group of its cohort.
fn add_to_group(groups: &mut Vec<CohortGroup>, cohort: CompressionCohortId, timestamp: u64, ordinal: u32)
    ensures
        groups_view(final(groups)@) == add_record(
            groups_view(old(groups)@),
            cohort.0,
            timestamp,
            ordinal,
        ),
{
    let ghost model = groups_view(groups@);
    let ghost raw = groups@;
    let mut at: usize = 0;
    while at < groups.len() && groups[at].cohort.0 < cohort.0
        invariant
            at <= groups@.len(),
            model == groups_view(groups@),
            cohort_place(model, cohort.0, 0) == cohort_place(model, cohort.0, at as int),
        decreases groups@.len() - at,
    {
        at = at + 1;
    }
    if at < groups.len() && groups[at].cohort.0 == cohort.0 {
        groups[at].ordinals.push(ordinal);
        if timestamp < groups[at].min_timestamp_unix_nanos {
            groups[at].min_timestamp_unix_nanos = timestamp;
        }
        if timestamp > groups[at].max_timestamp_unix_nanos {
            groups[at].max_timestamp_unix_nanos = timestamp;
        }
        proof {
            assert(model[at as int] == raw[at as int]@);
            assert(groups_view(groups@) =~= add_record(model, cohort.0, timestamp, ordinal));
        }
    } else {
        let mut ordinals: Vec<u32> = Vec::new();
        ordinals.push(ordinal);
        let group = CohortGroup {
            cohort,
            ordinals,
            min_timestamp_unix_nanos: timestamp,
            max_timestamp_unix_nanos: timestamp,
        };
        proof {
            assert(ordinals@ =~= seq![ordinal]);
            assert(groups_view(raw.insert(at as int, group)) =~= model.insert(at as int, group@));
        }
        groups.insert(at, group);
    }
}

/// Groups events by compression cohort.
pub fn group_ingest_events(events: &Vec<OtlpLogEvent>) -> (result: Result<
    Vec<CohortGroup>,
    LogDbError,
>)
    ensures
        match result {
            Ok(groups) => events@.len() <= u32::MAX && groups_view(groups@) == group_records(
                events_view(events@),
            ),
            Err(error) => events@.len() > u32::MAX && error == LogDbError::RecordTooLarge,
        },
{
    if events.len() as u64 > u32::MAX as u64 {
        return Err(LogDbError::RecordTooLarge);
    }
    let ghost model = events_view(events@);
    let mut groups: Vec<CohortGroup> = Vec::new();
    let mut index: usize = 0;
    proof {
        assert(groups_view(groups@) =~= group_records(model.subrange(0, 0)));
    }
    while index < events.len()
        invariant
            index <= events@.len(),
            events@.len() <= u32::MAX,
            model == events_view(events@),
            groups_view(groups@) == group_records(model.subrange(0, index as int)),
        decreases events@.len() - index,
    {
        proof {
            let part = model.subrange(0, index + 1);
            assert(part.drop_last() =~= model.subrange(0, index as int));
            assert(part.last() == events@[index as int]@);
        }
        add_to_group(
            &mut groups,
            events[index].compression_cohort,
            events[index].timestamp_unix_nanos,
            index as u32,
        );
        index = index + 1;
    }
    proof {
        assert(model.subrange(0, index as int) =~= model);
    }
    Ok(groups)
}

/// Grouped records of a native payload.
#[derive(Debug, PartialEq, Eq)]
pub struct NativeGroups {
    /// Tenant of the batch.
    pub tenant: String,
    /// Number of records.
    pub record_count: u32,
    /// Records by compression cohort.
    pub groups: Vec<CohortGroup>,
}

/// Groups the records of a native payload by compression cohort.
pub fn group_native_payload(payload: &[u8]) -> (result: Result<NativeGroups, LogDbError>)
    ensures
        match (parse_batch(payload@, BatchReader::View), result) {
            (Ok(batch), Ok(groups)) => {
                let events = events_of(batch.tenant, batch.streams);
                &&& groups.tenant@ == batch.tenant
                &&& groups.record_count == events.len()
                &&& groups_view(groups.groups@) == group_records(events)
            },
            (Ok(batch), Err(error)) => events_of(batch.tenant, batch.streams).len() > u32::MAX
                && error == LogDbError::RecordTooLarge,
            (Err(error), Err(mapped)) => mapped == LogDbError::InvalidNativePayload(error),
            (Err(_), Ok(_)) => false,
        },
{
    let batch = match decode_native_log_batch_view(payload) {
        Ok(batch) => batch,
        Err(error) => return Err(LogDbError::InvalidNativePayload(error)),
    };
    let count: usize = batch.record_count();
    if count as u64 > u32::MAX as u64 {
        return Err(LogDbError::RecordTooLarge);
    }
    let ghost model = batch.events();
    let tenant = batch.tenant().to_owned();
    let mut groups: Vec<CohortGroup> = Vec::new();
    let mut index: usize = 0;
    proof {
        assert(groups_view(groups@) =~= group_records(model.subrange(0, 0)));
    }
    while index < count
        invariant
            index <= count,
            count == model.len(),
            count <= u32::MAX,
            model == batch.events(),
            groups_view(groups@) == group_records(model.subrange(0, index as int)),
        decreases count - index,
    {
        proof {
            let part = model.subrange(0, index + 1);
            assert(part.drop_last() =~= model.subrange(0, index as int));
            assert(part.last() == model[index as int]);
        }
        match (batch.record_cohort(index), batch.record_timestamp(index)) {
            (Some(cohort), Some(timestamp)) => {
                add_to_group(&mut groups, cohort, timestamp, index as u32);
            },
            _ => {
                return Err(LogDbError::InvalidBlockEncoding(BlockFault::MissingCohort));
            },
        }
        index = index + 1;
    }
    proof {
        assert(model.subrange(0, index as int) =~= model);
    }
    Ok(NativeGroups { tenant, record_count: count as u32, groups })
}

/// Encoded records of one group: the block that is stored, and its search index.
pub struct EncodedBlock {
    /// Structural block.
    pub structural: Vec<u8>,
    /// Encoded search index of the block.
    pub embedded_index: Vec<u8>,
}

/// Value of an encoded block.
#[verifier::ext_equal]
pub struct BlockModel {
    /// Structural block.
    pub structural: Seq<u8>,
    /// Encoded search index of the block.
    pub index: Seq<u8>,
}

impl View for EncodedBlock {
    type V = BlockModel;

    open spec fn view(&self) -> BlockModel {
        BlockModel { structural: self.structural@, index: self.embedded_index@ }
    }
}

/// Values of blocks.
pub open spec fn blocks_view(blocks: Seq<EncodedBlock>) -> Seq<BlockModel> {
    blocks.map_values(|block: EncodedBlock| block@)
}

/// Header bytes of a group.
pub open spec fn group_head(group: CohortModel, structural: nat, compressed: Seq<u8>) -> Seq<u8> {
    le_bytes(group.cohort as nat, 8) + le_bytes(group.ordinals.len(), 4) + le_bytes(structural, 4)
        + le_bytes(compressed.len(), 4) + le_bytes(checksum_of(blake3_digest(compressed)), 4)
        + le_bytes(group.min_timestamp as nat, 8) + le_bytes(group.max_timestamp as nat, 8)
}

/// Header bytes of a transient group.
pub open spec fn transient_head(group: CohortModel, block: BlockModel) -> Seq<u8> {
    le_bytes(group.cohort as nat, 8) + le_bytes(group.ordinals.len(), 4) + le_bytes(
        block.structural.len(),
        4,
    ) + le_bytes(block.index.len(), 4)
}

/// Header bytes of a pack.
pub open spec fn pack_head(record_count: u32, groups: nat) -> Seq<u8> {
    pack_magic() + le_bytes(record_count as nat, 4) + le_bytes(groups, 2) + le_bytes(0, 2)
}

/// Header bytes of a transient pack.
pub open spec fn transient_pack_head(groups: nat) -> Seq<u8> {
    transient_magic() + le_bytes(groups, 2) + le_bytes(0, 2)
}

/// Bytes of one group in a pack and in its transient pack.
pub open spec fn group_bytes(group: CohortModel, block: BlockModel) -> Result<
    (Seq<u8>, Seq<u8>),
    LogDbFault,
> {
    if block.structural.len() > MAX_INGEST_STRUCTURAL_BYTES {
        Err(LogDbError::RecordTooLarge@)
    } else {
        match zstd_compressed(block.structural, INGEST_PACK_ZSTD_LEVEL) {
            Err(text) => Err(LogDbFault::CompressionFailed(text)),
            Ok(compressed) => if group.ordinals.len() > u32::MAX || compressed.len() > u32::MAX
                || block.index.len() > u32::MAX {
                Err(LogDbError::RecordTooLarge@)
            } else {
                Ok(
                    (
                        group_head(group, block.structural.len(), compressed) + compressed,
                        transient_head(group, block) + block.index,
                    ),
                )
            },
        }
    }
}

/// Bytes of a pack and its transient pack up to the first `count` groups.
pub open spec fn packed_groups(
    record_count: u32,
    groups: Seq<CohortModel>,
    blocks: Seq<BlockModel>,
    count: nat,
) -> Result<(Seq<u8>, Seq<u8>), LogDbFault>
    decreases count,
{
    if count == 0 {
        Ok((pack_head(record_count, groups.len()), transient_pack_head(groups.len())))
    } else {
        match packed_groups(record_count, groups, blocks, (count - 1) as nat) {
            Err(error) => Err(error),
            Ok((pack, transient)) => match group_bytes(groups[count - 1], blocks[count - 1]) {
                Err(error) => Err(error),
                Ok((group, live)) => Ok((pack + group, transient + live)),
            },
        }
    }
}

/// Bytes of a pack and its transient pack.
pub open spec fn packed(
    record_count: u32,
    groups: Seq<CohortModel>,
    blocks: Seq<BlockModel>,
) -> Result<(Seq<u8>, Seq<u8>), LogDbFault> {
    if groups.len() > u16::MAX {
        Err(LogDbError::RecordTooLarge@)
    } else {
        match packed_groups(record_count, groups, blocks, groups.len()) {
            Err(error) => Err(error),
            Ok((pack, transient)) => if pack.len() > MAX_NATIVE_FRAME_BYTES {
                Err(LogDbError::RecordTooLarge@)
            } else {
                Ok((pack, transient))
            },
        }
    }
}

proof fn lemma_packed_error(
    record_count: u32,
    groups: Seq<CohortModel>,
    blocks: Seq<BlockModel>,
    n: nat,
    count: nat,
)
    requires
        n <= count,
        packed_groups(record_count, groups, blocks, n) is Err,
    ensures
        packed_groups(record_count, groups, blocks, count) == packed_groups(
            record_count,
            groups,
            blocks,
            n,
        ),
    decreases count,
{
    if n < count {
        lemma_packed_error(record_count, groups, blocks, n, (count - 1) as nat);
    }
}

/// Whether the compressed form of a block decompresses to the block and has a
/// checksum that fits its field.
pub open spec fn restorable(block: BlockModel) -> bool {
    zstd_compressed(block.structural, INGEST_PACK_ZSTD_LEVEL) matches Ok(compressed)
        ==> zstd_decompressed(compressed, block.structural.len() as usize) == Ok::<_, Seq<char>>(
        block.structural,
    ) && checksum_of(blake3_digest(compressed)) <= u32::MAX
}

/// A pack and the transient indexes that travel with it.
#[derive(Debug, PartialEq, Eq)]
pub struct PreparedIngestPack {
    /// Durable pack.
    pub payload: Vec<u8>,
    /// Transient pack.
    pub transient_context: Vec<u8>,
}

/// Appends one group to a pack and its transient pack.
fn append_group(
    encoded: &mut Vec<u8>,
    transient: &mut Vec<u8>,
    group: &CohortGroup,
    block: &EncodedBlock,
) -> (result: Result<(), LogDbError>)
    ensures
        match (group_bytes(group@, block@), result) {
            (Ok((bytes, live)), Ok(_)) => {
                &&& final(encoded)@ == old(encoded)@ + bytes
                &&& final(transient)@ == old(transient)@ + live
                &&& restorable(block@)
            },
            (Err(fault), Err(error)) => error@ == fault,
            _ => false,
        },
{
    if block.structural.len() > MAX_INGEST_STRUCTURAL_BYTES {
        return Err(LogDbError::RecordTooLarge);
    }
    let compressed = match zstd_compress(&block.structural, INGEST_PACK_ZSTD_LEVEL) {
        Ok(compressed) => compressed,
        Err(text) => return Err(LogDbError::CompressionFailed(text)),
    };
    proof {
        assert(zstd_decompressed(compressed@, block.structural@.len() as usize) == Ok::<
            _,
            Seq<char>,
        >(block.structural@));
    }
    let count: u64 = group.ordinals.len() as u64;
    let size: u64 = compressed.len() as u64;
    let index_size: u64 = block.embedded_index.len() as u64;
    if count > u32::MAX as u64 || size > u32::MAX as u64 || index_size > u32::MAX as u64 {
        return Err(LogDbError::RecordTooLarge);
    }
    let ghost before = encoded@;
    let ghost live_before = transient@;
    let structural_size: u128 = block.structural.len() as u128;
    put_le(encoded, group.cohort.0 as u128, 8);
    put_le(encoded, count as u128, 4);
    put_le(encoded, structural_size, 4);
    put_le(encoded, size as u128, 4);
    put_le(encoded, payload_checksum(&compressed) as u128, 4);
    put_le(encoded, group.min_timestamp_unix_nanos as u128, 8);
    put_le(encoded, group.max_timestamp_unix_nanos as u128, 8);
    put_bytes(encoded, &compressed);
    put_le(transient, group.cohort.0 as u128, 8);
    put_le(transient, count as u128, 4);
    put_le(transient, structural_size, 4);
    put_le(transient, index_size as u128, 4);
    put_bytes(transient, &block.embedded_index);
    proof {
        assert(encoded@ =~= before + (group_head(
            group@,
            block.structural@.len(),
            compressed@,
        ) + compressed@));
        assert(transient@ =~= live_before + (transient_head(group@, block@) + block@.index));
    }
    Ok(())
}

/// Encodes groups of records with their blocks as a pack.
pub fn prepare_grouped_ingest_pack(
    record_count: u32,
    groups: &Vec<CohortGroup>,
    blocks: &Vec<EncodedBlock>,
) -> (result: Result<PreparedIngestPack, LogDbError>)
    requires
        groups@.len() == blocks@.len(),
    ensures
        match (packed(record_count, groups_view(groups@), blocks_view(blocks@)), result) {
            (Ok((pack, transient)), Ok(prepared)) => {
                &&& prepared.payload@ == pack
                &&& prepared.transient_context@ == transient
                &&& forall|i: int| 0 <= i < blocks@.len() ==> restorable(#[trigger] blocks@[i]@)
            },
            (Err(fault), Err(error)) => error@ == fault,
            _ => false,
        },
{
    let ghost group_models = groups_view(groups@);
    let ghost block_models = blocks_view(blocks@);
    if groups.len() > u16::MAX as usize {
        return Err(LogDbError::RecordTooLarge);
    }
    let mut encoded: Vec<u8> = Vec::new();
    let mut transient: Vec<u8> = Vec::new();
    put_bytes(&mut encoded, &[83u8, 76u8, 87u8, 49u8]);
    put_le(&mut encoded, record_count as u128, 4);
    put_le(&mut encoded, groups.len() as u128, 2);
    put_le(&mut encoded, 0, 2);
    put_bytes(&mut transient, &[83u8, 76u8, 84u8, 49u8]);
    put_le(&mut transient, groups.len() as u128, 2);
    put_le(&mut transient, 0, 2);
    proof {
        assert([83u8, 76u8, 87u8, 49u8]@ =~= pack_magic());
        assert([83u8, 76u8, 84u8, 49u8]@ =~= transient_magic());
        assert(encoded@ =~= pack_head(record_count, group_models.len()));
        assert(transient@ =~= transient_pack_head(group_models.len()));
    }
    let mut index: usize = 0;
    while index < groups.len()
        invariant
            index <= groups@.len(),
            groups@.len() == blocks@.len(),
            groups@.len() <= u16::MAX,
            group_models == groups_view(groups@),
            block_models == blocks_view(blocks@),
            packed_groups(record_count, group_models, block_models, index as nat) == Ok::<
                _,
                LogDbFault,
            >((encoded@, transient@)),
            forall|i: int| 0 <= i < index ==> restorable(#[trigger] blocks@[i]@),
        decreases groups@.len() - index,
    {
        proof {
            assert(group_models[index as int] == groups@[index as int]@);
            assert(block_models[index as int] == blocks@[index as int]@);
        }
        match append_group(&mut encoded, &mut transient, &groups[index], &blocks[index]) {
            Ok(_) => {},
            Err(error) => {
                proof {
                    assert(packed_groups(
                        record_count,
                        group_models,
                        block_models,
                        (index + 1) as nat,
                    ) is Err);
                    lemma_packed_error(
                        record_count,
                        group_models,
                        block_models,
                        (index + 1) as nat,
                        group_models.len(),
                    );
                }
                return Err(error);
            },
        }
        index = index + 1;
    }
    if encoded.len() > MAX_NATIVE_FRAME_BYTES {
        return Err(LogDbError::RecordTooLarge);
    }
    Ok(PreparedIngestPack { payload: encoded, transient_context: transient })
}

} // verus!
