//! Searchable frames of an ingest pack and the transient pack of their indexes.
use vstd::prelude::*;

use crate::codec::{bytes_at, copy_range, le_value, read_u16, read_u32, read_u64};
use crate::compress::{zstd_decompress, zstd_decompressed};
use crate::error::{block_fault, BlockFault, LogDbError, LogDbFault};
use crate::ingest_pack::{
    decompress_group, group_block, next_valid, pack_header, parse_pack, transient_magic, GroupModel,
    IngestGroup, IngestPackCursor, TRANSIENT_GROUP_HEADER_BYTES, TRANSIENT_PACK_HEADER_BYTES,
};
use crate::record::CompressionCohortId;

verus! {

broadcast use vstd::seq_lib::group_seq_properties;

/// Header of one transient group and the place of its index.
pub struct TransientModel {
    /// Compression cohort.
    pub cohort: u64,
    /// Number of records.
    pub record_count: u32,
    /// Bytes of the structural block.
    pub structural_bytes: u32,
    /// Where the index starts.
    pub start: int,
    /// Where the index ends.
    pub end: int,
}

/// What is wrong with the header of a transient pack beside a pack of some groups.
pub open spec fn transient_header_error(payload: Seq<u8>, groups: nat) -> Option<LogDbError> {
    if payload.len() < 8 || payload.subrange(0, 4) != transient_magic() || payload[6] != 0
        || payload[7] != 0 {
        Some(block_fault(BlockFault::TransientHeader))
    } else if le_value(payload.subrange(4, 6)) != groups {
        Some(block_fault(BlockFault::TransientGroupCount))
    } else {
        None
    }
}

/// The transient group at a place.
pub open spec fn transient_at(payload: Seq<u8>, at: int) -> Result<TransientModel, LogDbError> {
    let size = le_value(payload.subrange(at + 16, at + 20));
    if at + 20 > payload.len() {
        Err(block_fault(BlockFault::TransientHeaderTruncated))
    } else if at + 20 + size > payload.len() {
        Err(block_fault(BlockFault::TransientIndexTruncated))
    } else {
        Ok(
            TransientModel {
                cohort: le_value(payload.subrange(at, at + 8)) as u64,
                record_count: le_value(payload.subrange(at + 8, at + 12)) as u32,
                structural_bytes: le_value(payload.subrange(at + 12, at + 16)) as u32,
                start: at + 20,
                end: at + 20 + size,
            },
        )
    }
}

/// The first `count` transient groups.
pub open spec fn transient_groups(payload: Seq<u8>, count: nat) -> Result<
    (Seq<TransientModel>, int),
    LogDbError,
>
    decreases count,
{
    if count == 0 {
        Ok((Seq::empty(), 8))
    } else {
        match transient_groups(payload, (count - 1) as nat) {
            Err(error) => Err(error),
            Ok((groups, at)) => match transient_at(payload, at) {
                Err(error) => Err(error),
                Ok(group) => Ok((groups.push(group), group.end)),
            },
        }
    }
}

/// One transient group.
pub struct TransientGroup {
    /// Compression cohort.
    pub cohort: CompressionCohortId,
    /// Number of records.
    pub record_count: u32,
    /// Bytes of the structural block.
    pub structural_bytes: u32,
    /// Where the index starts.
    pub start: usize,
    /// Where the index ends.
    pub end: usize,
}

impl View for TransientGroup {
    type V = TransientModel;

    open spec fn view(&self) -> TransientModel {
        TransientModel {
            cohort: self.cohort.0,
            record_count: self.record_count,
            structural_bytes: self.structural_bytes,
            start: self.start as int,
            end: self.end as int,
        }
    }
}

/// Reader of the groups of a transient pack.
pub struct TransientPackCursor<'a> {
    /// The transient pack.
    pub payload: &'a [u8],
    /// Byte position.
    pub cursor: usize,
    /// Declared number of groups.
    pub group_count: u16,
    /// Groups read.
    pub observed_groups: u16,
}

impl<'a> TransientPackCursor<'a> {
    /// The reader has read the first groups of the payload.
    pub open spec fn on_track(self) -> bool {
        &&& self.cursor <= self.payload@.len()
        &&& self.observed_groups <= self.group_count
        &&& transient_header_error(self.payload@, self.group_count as nat) is None
        &&& transient_groups(self.payload@, self.observed_groups as nat) is Ok
        &&& transient_groups(self.payload@, self.observed_groups as nat)->Ok_0.1 == self.cursor
    }

    /// Starts at the first group of a transient pack.
    pub fn new(payload: &'a [u8], expected_group_count: u16) -> (result: Result<Self, LogDbError>)
        ensures
            match result {
                Ok(cursor) => {
                    &&& cursor.on_track()
                    &&& cursor.observed_groups == 0
                    &&& cursor.group_count == expected_group_count
                    &&& cursor.payload == payload
                },
                Err(error) => transient_header_error(payload@, expected_group_count as nat) == Some(
                    error,
                ),
            },
    {
        if payload.len() < TRANSIENT_PACK_HEADER_BYTES || !bytes_at(
            payload,
            0,
            &[83u8, 76u8, 84u8, 49u8],
        ) || payload[6] != 0 || payload[7] != 0 {
            return Err(LogDbError::InvalidBlockEncoding(BlockFault::TransientHeader));
        }
        let group_count: u16 = read_u16(payload, 4);
        if group_count != expected_group_count {
            return Err(LogDbError::InvalidBlockEncoding(BlockFault::TransientGroupCount));
        }
        Ok(
            TransientPackCursor {
                payload,
                cursor: TRANSIENT_PACK_HEADER_BYTES,
                group_count,
                observed_groups: 0,
            },
        )
    }

    /// Reads the next transient group.
    pub fn next_group(&mut self) -> (result: Result<TransientGroup, LogDbError>)
        requires
            old(self).on_track(),
            old(self).observed_groups < old(self).group_count,
        ensures
            final(self).payload == old(self).payload,
            final(self).group_count == old(self).group_count,
            match result {
                Ok(group) => {
                    &&& final(self).on_track()
                    &&& final(self).observed_groups == old(self).observed_groups + 1
                    &&& transient_at(old(self).payload@, old(self).cursor as int) == Ok::<
                        _,
                        LogDbError,
                    >(group@)
                },
                Err(error) => transient_at(old(self).payload@, old(self).cursor as int) == Err::<
                    TransientModel,
                    _,
                >(error),
            },
    {
        let total: usize = self.payload.len();
        let at: usize = self.cursor;
        if total - at < TRANSIENT_GROUP_HEADER_BYTES {
            return Err(LogDbError::InvalidBlockEncoding(BlockFault::TransientHeaderTruncated));
        }
        let size: u32 = read_u32(self.payload, at + 16);
        let start: usize = at + TRANSIENT_GROUP_HEADER_BYTES;
        if ((total - start) as u64) < size as u64 {
            return Err(LogDbError::InvalidBlockEncoding(BlockFault::TransientIndexTruncated));
        }
        let end: usize = start + size as usize;
        let ghost done = self.observed_groups as nat;
        self.cursor = end;
        self.observed_groups = self.observed_groups + 1;
        proof {
            assert((done + 1) as nat - 1 == done);
        }
        Ok(
            TransientGroup {
                cohort: CompressionCohortId(read_u64(self.payload, at)),
                record_count: read_u32(self.payload, at + 8),
                structural_bytes: read_u32(self.payload, at + 12),
                start,
                end,
            },
        )
    }

    /// Checks that the groups fill the transient pack.
    pub fn finish(&self) -> (result: Result<(), LogDbError>)
        ensures
            result == if self.cursor != self.payload@.len() || self.observed_groups
                != self.group_count {
                Err::<(), _>(block_fault(BlockFault::TransientTotals))
            } else {
                Ok(())
            },
    {
        if self.cursor != self.payload.len() || self.observed_groups != self.group_count {
            return Err(LogDbError::InvalidBlockEncoding(BlockFault::TransientTotals));
        }
        Ok(())
    }
}

/// Where the search index of a frame comes from.
pub enum IndexSource {
    /// Encoded index that came with the pack.
    Live(Vec<u8>),
    /// Structural block that holds the index.
    Block(Vec<u8>),
}

/// Value of an index source.
#[verifier::ext_equal]
pub enum SourceModel {
    /// Encoded index that came with the pack.
    Live(Seq<u8>),
    /// Structural block that holds the index.
    Block(Seq<u8>),
}

impl View for IndexSource {
    type V = SourceModel;

    open spec fn view(&self) -> SourceModel {
        match self {
            IndexSource::Live(bytes) => SourceModel::Live(bytes@),
            IndexSource::Block(bytes) => SourceModel::Block(bytes@),
        }
    }
}

/// The index source of a group: the transient group beside it, which must agree
/// with it, or its own block.
pub open spec fn frame_source(
    payload: Seq<u8>,
    group: GroupModel,
    transient: Option<(Seq<u8>, int)>,
) -> Result<SourceModel, LogDbFault> {
    match transient {
        Some((bytes, at)) => match transient_at(bytes, at) {
            Err(error) => Err(error@),
            Ok(live) => if live.cohort != group.cohort || live.record_count != group.record_count
                || live.structural_bytes != group.structural_bytes {
                Err(block_fault(BlockFault::TransientDisagrees)@)
            } else {
                Ok(SourceModel::Live(bytes.subrange(live.start, live.end)))
            },
        },
        None => match group_block(payload, group) {
            Err(error) => Err(error),
            Ok(block) => Ok(SourceModel::Block(block)),
        },
    }
}

/// Reader of the searchable frames of a pack.
pub struct FrameReader<'a> {
    /// Groups of the pack.
    pub pack: IngestPackCursor<'a>,
    /// Groups of the transient pack, where there is one.
    pub transient: Option<TransientPackCursor<'a>>,
}

/// The transient pack of a context: contexts of another kind are ignored.
pub open spec fn usable_context(context: Option<Seq<u8>>) -> Option<Seq<u8>> {
    match context {
        Some(bytes) => if bytes.len() >= 4 && bytes.subrange(0, 4) == transient_magic() {
            Some(bytes)
        } else {
            None
        },
        None => None,
    }
}

/// What is wrong with the headers of a pack and its context.
pub open spec fn reader_error(payload: Seq<u8>, context: Option<Seq<u8>>, expected: u32) -> Option<
    LogDbError,
> {
    match pack_header(payload, expected) {
        Err(error) => Some(error),
        Ok(groups) => match usable_context(context) {
            Some(bytes) => transient_header_error(bytes, groups),
            None => None,
        },
    }
}

/// The bytes behind a context.
pub open spec fn context_bytes(context: Option<&[u8]>) -> Option<Seq<u8>> {
    match context {
        Some(bytes) => Some(bytes@),
        None => None,
    }
}

impl<'a> FrameReader<'a> {
    /// Both readers are on track, at the same group.
    pub open spec fn on_track(self) -> bool {
        &&& self.pack.on_track()
        &&& self.transient matches Some(transient) ==> transient.on_track()
            && transient.group_count == self.pack.group_count && transient.observed_groups
            == self.pack.groups_read
    }

    /// Bytes and position of the transient pack.
    pub open spec fn transient_place(self) -> Option<(Seq<u8>, int)> {
        match self.transient {
            Some(transient) => Some((transient.payload@, transient.cursor as int)),
            None => None,
        }
    }

    /// Starts at the first frame of a pack.
    pub fn new(
        payload: &'a [u8],
        transient_context: Option<&'a [u8]>,
        expected_record_count: u32,
    ) -> (result: Result<Self, LogDbError>)
        ensures
            match result {
                Ok(reader) => {
                    &&& reader.on_track()
                    &&& reader.pack.payload == payload
                    &&& reader.pack.groups_read == 0
                    &&& reader.pack.expected_record_count == expected_record_count
                    &&& reader_error(
                        payload@,
                        context_bytes(transient_context),
                        expected_record_count,
                    ) is None
                    &&& reader.transient is Some == usable_context(
                        context_bytes(transient_context),
                    ) is Some
                    &&& reader.transient matches Some(transient) ==> Some(transient.payload)
                        == transient_context
                },
                Err(error) => reader_error(
                    payload@,
                    context_bytes(transient_context),
                    expected_record_count,
                ) == Some(error),
            },
    {
        let pack = match IngestPackCursor::new(payload, expected_record_count) {
            Ok(pack) => pack,
            Err(error) => return Err(error),
        };
        let transient = match transient_context {
            Some(context) => {
                if context.len() >= 4 && bytes_at(context, 0, &[83u8, 76u8, 84u8, 49u8]) {
                    match TransientPackCursor::new(context, pack.group_count) {
                        Ok(transient) => Some(transient),
                        Err(error) => return Err(error),
                    }
                } else {
                    None
                }
            },
            None => None,
        };
        Ok(FrameReader { pack, transient })
    }

    /// Reads the next group with the source of its index.
    pub fn next_frame(&mut self) -> (result: Result<(IngestGroup, IndexSource), LogDbError>)
        requires
            old(self).on_track(),
            old(self).pack.groups_read < old(self).pack.group_count,
        ensures
            final(self).pack.payload == old(self).pack.payload,
            final(self).pack.group_count == old(self).pack.group_count,
            final(self).pack.expected_record_count == old(self).pack.expected_record_count,
            match result {
                Ok((group, source)) => {
                    &&& final(self).on_track()
                    &&& final(self).pack.groups_read == old(self).pack.groups_read + 1
                    &&& group.start <= group.end <= old(self).pack.payload@.len()
                    &&& next_valid(old(self).pack.payload@, old(self).pack.place()) == Ok::<
                        _,
                        LogDbError,
                    >((group@, final(self).pack.place()))
                    &&& frame_source(
                        old(self).pack.payload@,
                        group@,
                        old(self).transient_place(),
                    ) == Ok::<_, LogDbFault>(source@)
                },
                Err(error) => match next_valid(old(self).pack.payload@, old(self).pack.place()) {
                    Err(first) => error == first,
                    Ok((group, _)) => frame_source(
                        old(self).pack.payload@,
                        group,
                        old(self).transient_place(),
                    ) == Err::<SourceModel, _>(error@),
                },
            },
    {
        let payload = self.pack.payload;
        let group = match self.pack.next_group() {
            Ok(group) => group,
            Err(error) => return Err(error),
        };
        let mut transient: Option<TransientPackCursor<'a>> = None;
        core::mem::swap(&mut transient, &mut self.transient);
        match transient {
            Some(mut cursor) => {
                let bytes = cursor.payload;
                let live = match cursor.next_group() {
                    Ok(live) => live,
                    Err(error) => return Err(error),
                };
                self.transient = Some(cursor);
                if live.cohort != group.cohort || live.record_count != group.record_count
                    || live.structural_bytes != group.structural_bytes {
                    return Err(LogDbError::InvalidBlockEncoding(BlockFault::TransientDisagrees));
                }
                Ok((group, IndexSource::Live(copy_range(bytes, live.start, live.end))))
            },
            None => match decompress_group(payload, &group) {
                Ok(block) => Ok((group, IndexSource::Block(block))),
                Err(error) => Err(error),
            },
        }
    }

    /// Checks that the groups fill both packs.
    pub fn finish(&self) -> (result: Result<(), LogDbError>)
        requires
            self.on_track(),
            self.pack.groups_read == self.pack.group_count,
        ensures
            match result {
                Ok(_) => parse_pack(self.pack.payload@, self.pack.expected_record_count) is Ok
                    && (self.transient matches Some(transient) ==> transient.cursor
                    == transient.payload@.len()),
                Err(error) => match parse_pack(
                    self.pack.payload@,
                    self.pack.expected_record_count,
                ) {
                    Err(first) => error == first,
                    Ok(_) => self.transient is Some && self.transient->0.cursor
                        != self.transient->0.payload@.len() && error == block_fault(
                        BlockFault::TransientTotals,
                    ),
                },
            },
    {
        match self.pack.finish() {
            Ok(_) => {},
            Err(error) => return Err(error),
        }
        match &self.transient {
            Some(transient) => transient.finish(),
            None => Ok(()),
        }
    }
}

/// One searchable frame of an append.
pub struct IndexedIngestFrame {
    /// Number of the frame.
    pub frame_id: u64,
    /// Compression cohort.
    pub cohort: CompressionCohortId,
    /// Number of records.
    pub record_count: u32,
    /// Bytes of the structural block.
    pub structural_bytes: usize,
    /// Lowest timestamp.
    pub min_timestamp_unix_nanos: u64,
    /// Highest timestamp.
    pub max_timestamp_unix_nanos: u64,
    /// Compressed structural block.
    pub compressed: Vec<u8>,
}

/// Makes the frame of a group whose index covers `index_record_count` records.
pub fn indexed_frame(payload: &[u8], group: &IngestGroup, index_record_count: u32) -> (result:
    Result<IndexedIngestFrame, LogDbError>)
    requires
        group.start <= group.end <= payload@.len(),
    ensures
        match result {
            Ok(frame) => {
                &&& index_record_count == group.record_count
                &&& frame.frame_id == 0
                &&& frame.cohort == group.cohort
                &&& frame.record_count == group.record_count
                &&& frame.structural_bytes == group.structural_bytes
                &&& frame.min_timestamp_unix_nanos == group.min_timestamp_unix_nanos
                &&& frame.max_timestamp_unix_nanos == group.max_timestamp_unix_nanos
                &&& frame.compressed@ == payload@.subrange(group.start as int, group.end as int)
            },
            Err(error) => index_record_count != group.record_count && error == block_fault(
                BlockFault::FrameIndexCount,
            ),
        },
{
    if index_record_count != group.record_count {
        return Err(LogDbError::InvalidBlockEncoding(BlockFault::FrameIndexCount));
    }
    Ok(
        IndexedIngestFrame {
            frame_id: 0,
            cohort: group.cohort,
            record_count: index_record_count,
            structural_bytes: group.structural_bytes as usize,
            min_timestamp_unix_nanos: group.min_timestamp_unix_nanos,
            max_timestamp_unix_nanos: group.max_timestamp_unix_nanos,
            compressed: copy_range(payload, group.start, group.end),
        },
    )
}

/// Decompresses the structural block of a frame.
pub fn decompress_frame(frame: &IndexedIngestFrame) -> (result: Result<Vec<u8>, LogDbError>)
    requires
        frame.structural_bytes <= isize::MAX,
    ensures
        match (zstd_decompressed(frame.compressed@, frame.structural_bytes), result) {
            (Ok(block), Ok(bytes)) => block.len() == frame.structural_bytes && bytes@ == block,
            (Ok(block), Err(error)) => block.len() != frame.structural_bytes && error
                == block_fault(BlockFault::StructuralLength),
            (Err(text), Err(error)) => error@ == LogDbFault::CompressionFailed(text),
            (Err(_), Ok(_)) => false,
        },
{
    match zstd_decompress(&frame.compressed, frame.structural_bytes) {
        Err(text) => Err(LogDbError::CompressionFailed(text)),
        Ok(block) => {
            if block.len() != frame.structural_bytes {
                Err(LogDbError::InvalidBlockEncoding(BlockFault::StructuralLength))
            } else {
                Ok(block)
            }
        },
    }
}

} // verus!
