//! Stream-grouped native log batches.
use vstd::prelude::*;
use vstd::utf8::{decode_utf8, encode_utf8, valid_utf8};

use crate::codec::{bytes_at, le_value, read_u16, read_u32, utf8_text};
use crate::error::{NativeField, NativeProtocolError};
use crate::labels::Pairs;
use crate::native_wire::{parse_number, parse_pairs, parse_text, str_pairs, Cursor, Parsed};

verus! {

broadcast use vstd::seq_lib::group_seq_properties;

/// Most labels of one stream.
pub const MAX_LABELS_PER_STREAM: usize = 256;

/// Most metadata pairs of one entry.
pub const MAX_METADATA_PER_ENTRY: usize = 256;

/// Longest tenant in bytes.
pub const MAX_TENANT_BYTES: usize = 1024;

/// Most streams of one batch.
pub const MAX_STREAMS: usize = 65_535;

/// Fixed bytes of a batch before its tenant.
pub const BATCH_HEADER_BYTES: usize = 16;

/// First bytes of a batch: `SLB1`.
pub open spec fn batch_magic() -> Seq<u8> {
    seq![0x53, 0x4c, 0x42, 0x31]
}

/// Who reads a batch. All readers accept the same format; they notice some
/// defects in a different order.
#[derive(Debug, Clone, Copy, PartialEq, Eq, Structural)]
pub enum BatchReader {
    /// Reader of log entries.
    Entries,
    /// Reader of a borrowed view.
    View,
    /// Reader of indexing events, and validation.
    Events,
}

/// One entry of a stream as it stands on the wire.
#[verifier::ext_equal]
pub struct WireEntry {
    /// Nanosecond Unix timestamp.
    pub timestamp: nat,
    /// Log line.
    pub line: Seq<char>,
    /// Metadata in wire order.
    pub metadata: Pairs,
}

/// One stream as it stands on the wire.
#[verifier::ext_equal]
pub struct WireStream {
    /// Labels in wire order.
    pub labels: Pairs,
    /// Entries in wire order.
    pub entries: Seq<WireEntry>,
}

/// One batch as it stands on the wire.
#[verifier::ext_equal]
pub struct WireBatch {
    /// Tenant whose records are carried.
    pub tenant: Seq<char>,
    /// Streams in wire order.
    pub streams: Seq<WireStream>,
}

/// Number of entries of all streams.
pub open spec fn total_entries(streams: Seq<WireStream>) -> nat
    decreases streams.len(),
{
    if streams.len() == 0 {
        0
    } else {
        total_entries(streams.drop_last()) + streams.last().entries.len()
    }
}

/// Error of an empty or repeated metadata key.
pub open spec fn bad_metadata(reader: BatchReader, count: nat) -> NativeProtocolError {
    if reader == BatchReader::Events && count == 1 {
        NativeProtocolError::EmptyMetadata
    } else {
        NativeProtocolError::BadMetadata
    }
}

/// The entry at `at`.
pub open spec fn parse_entry(bytes: Seq<u8>, at: int, reader: BatchReader) -> Parsed<WireEntry> {
    match parse_number(bytes, at, 8, NativeField::Timestamp) {
        Err(error) => Err(error),
        Ok((timestamp, at1)) => if reader != BatchReader::Entries && timestamp > i64::MAX {
            Err(NativeProtocolError::TimestampOutOfRange)
        } else {
            match parse_number(bytes, at1, 4, NativeField::LineLength) {
                Err(error) => Err(error),
                Ok((line_len, at2)) => match parse_number(
                    bytes,
                    at2,
                    2,
                    NativeField::MetadataCount,
                ) {
                    Err(error) => Err(error),
                    Ok((count, at3)) => if count > MAX_METADATA_PER_ENTRY {
                        Err(NativeProtocolError::TooMuchMetadata)
                    } else {
                        match parse_number(bytes, at3, 2, NativeField::EntryReserved) {
                            Err(error) => Err(error),
                            Ok((reserved, at4)) => if reserved != 0 {
                                Err(NativeProtocolError::EntryReservedNotZero)
                            } else {
                                parse_entry_body(bytes, at4, timestamp, line_len, count, reader)
                            },
                        }
                    },
                },
            }
        },
    }
}

/// The line and metadata of an entry at `at`.
pub open spec fn parse_entry_body(
    bytes: Seq<u8>,
    at: int,
    timestamp: nat,
    line_len: nat,
    count: nat,
    reader: BatchReader,
) -> Parsed<WireEntry> {
    match parse_text(bytes, at, line_len, NativeField::LogLine) {
        Err(error) => Err(error),
        Ok((line, next)) => match parse_pairs(
            bytes,
            next,
            count,
            NativeField::MetadataKey,
            NativeField::MetadataValue,
            bad_metadata(reader, count),
        ) {
            Err(error) => Err(error),
            Ok((metadata, end)) => if timestamp > i64::MAX {
                Err(NativeProtocolError::TimestampOutOfRange)
            } else {
                Ok((WireEntry { timestamp, line, metadata }, end))
            },
        },
    }
}

/// The `count` entries at `at`.
pub open spec fn parse_entries(
    bytes: Seq<u8>,
    at: int,
    count: nat,
    reader: BatchReader,
) -> Parsed<Seq<WireEntry>>
    decreases count,
{
    if count == 0 {
        Ok((Seq::empty(), at))
    } else {
        match parse_entries(bytes, at, (count - 1) as nat, reader) {
            Err(error) => Err(error),
            Ok((entries, next)) => match parse_entry(bytes, next, reader) {
                Err(error) => Err(error),
                Ok((entry, end)) => Ok((entries.push(entry), end)),
            },
        }
    }
}

/// The stream at `at`, where `seen` of the `declared` entries came before.
pub open spec fn parse_stream(
    bytes: Seq<u8>,
    at: int,
    seen: nat,
    declared: nat,
    reader: BatchReader,
) -> Parsed<WireStream> {
    match parse_number(bytes, at, 2, NativeField::LabelCount) {
        Err(error) => Err(error),
        Ok((label_count, at1)) => if label_count > MAX_LABELS_PER_STREAM {
            Err(NativeProtocolError::TooManyLabels)
        } else {
            match parse_number(bytes, at1, 2, NativeField::StreamReserved) {
                Err(error) => Err(error),
                Ok((reserved, at2)) => if reserved != 0 {
                    Err(NativeProtocolError::StreamReservedNotZero)
                } else {
                    match parse_number(bytes, at2, 4, NativeField::EntryCount) {
                        Err(error) => Err(error),
                        Ok((entry_count, at3)) => if reader != BatchReader::Entries && seen
                            + entry_count > declared {
                            Err(NativeProtocolError::CountExceedsDeclared)
                        } else {
                            parse_stream_body(
                                bytes,
                                at3,
                                label_count,
                                entry_count,
                                seen,
                                declared,
                                reader,
                            )
                        },
                    }
                },
            }
        },
    }
}

/// The labels and entries of a stream at `at`.
pub open spec fn parse_stream_body(
    bytes: Seq<u8>,
    at: int,
    label_count: nat,
    entry_count: nat,
    seen: nat,
    declared: nat,
    reader: BatchReader,
) -> Parsed<WireStream> {
    match parse_pairs(
        bytes,
        at,
        label_count,
        NativeField::LabelKey,
        NativeField::LabelValue,
        NativeProtocolError::BadLabel,
    ) {
        Err(error) => Err(error),
        Ok((labels, next)) => if seen + entry_count > declared {
            Err(NativeProtocolError::CountExceedsDeclared)
        } else {
            match parse_entries(bytes, next, entry_count, reader) {
                Err(error) => Err(error),
                Ok((entries, end)) => Ok((WireStream { labels, entries }, end)),
            }
        },
    }
}

/// The `count` streams at `at` of a batch that declares `declared` entries.
pub open spec fn parse_streams(
    bytes: Seq<u8>,
    at: int,
    count: nat,
    declared: nat,
    reader: BatchReader,
) -> Parsed<Seq<WireStream>>
    decreases count,
{
    if count == 0 {
        Ok((Seq::empty(), at))
    } else {
        match parse_streams(bytes, at, (count - 1) as nat, declared, reader) {
            Err(error) => Err(error),
            Ok((streams, next)) => match parse_stream(
                bytes,
                next,
                total_entries(streams),
                declared,
                reader,
            ) {
                Err(error) => Err(error),
                Ok((stream, end)) => Ok((streams.push(stream), end)),
            },
        }
    }
}

/// Byte length of a batch's tenant.
pub open spec fn batch_tenant_len(bytes: Seq<u8>) -> nat {
    le_value(bytes.subrange(4, 6))
}

/// Number of streams that a batch declares.
pub open spec fn batch_stream_count(bytes: Seq<u8>) -> nat {
    le_value(bytes.subrange(6, 8))
}

/// Number of records that a batch declares.
pub open spec fn batch_record_count(bytes: Seq<u8>) -> nat {
    le_value(bytes.subrange(8, 12))
}

/// Bytes of a batch's tenant.
pub open spec fn batch_tenant_bytes(bytes: Seq<u8>) -> Seq<u8> {
    bytes.subrange(
        BATCH_HEADER_BYTES as int,
        BATCH_HEADER_BYTES + batch_tenant_len(bytes),
    )
}

/// Why the header and tenant of a batch are invalid, if they are.
pub open spec fn batch_header_error(bytes: Seq<u8>) -> Option<NativeProtocolError> {
    if bytes.len() < BATCH_HEADER_BYTES {
        Some(NativeProtocolError::ShortBatch)
    } else if bytes.subrange(0, 4) != batch_magic() {
        Some(NativeProtocolError::InvalidBatchMagic)
    } else if bytes.subrange(12, 16) != seq![0u8, 0u8, 0u8, 0u8] {
        Some(NativeProtocolError::BatchReserved)
    } else if batch_tenant_len(bytes) > MAX_TENANT_BYTES {
        Some(NativeProtocolError::BatchTenantTooLong)
    } else if BATCH_HEADER_BYTES + batch_tenant_len(bytes) > bytes.len() {
        Some(NativeProtocolError::BatchTenantTruncated)
    } else if !valid_utf8(batch_tenant_bytes(bytes)) {
        Some(NativeProtocolError::BatchTenantNotUtf8)
    } else if decode_utf8(batch_tenant_bytes(bytes)).len() == 0 {
        Some(NativeProtocolError::BatchTenantEmpty)
    } else {
        None
    }
}

/// The batch that a payload holds.
pub open spec fn parse_batch(bytes: Seq<u8>, reader: BatchReader) -> Result<
    WireBatch,
    NativeProtocolError,
> {
    match batch_header_error(bytes) {
        Some(error) => Err(error),
        None => if reader == BatchReader::View && batch_record_count(bytes) > bytes.len() / 16 {
            Err(NativeProtocolError::CountExceedsPayload)
        } else {
            match parse_streams(
                bytes,
                BATCH_HEADER_BYTES + batch_tenant_len(bytes),
                batch_stream_count(bytes),
                batch_record_count(bytes),
                reader,
            ) {
                Err(error) => Err(error),
                Ok((streams, end)) => if total_entries(streams) != batch_record_count(bytes) {
                    Err(
                        NativeProtocolError::RecordCountMismatch(
                            total_entries(streams) as u64,
                            batch_record_count(bytes) as u32,
                        ),
                    )
                } else if end != bytes.len() {
                    Err(NativeProtocolError::TrailingBytes)
                } else {
                    Ok(WireBatch { tenant: decode_utf8(batch_tenant_bytes(bytes)), streams })
                },
            }
        },
    }
}

/// Lightweight information read from a native batch header.
#[derive(Debug, Clone, Copy, PartialEq, Eq)]
pub struct NativeBatchInfo<'a> {
    /// UTF-8 tenant encoded by the batch.
    pub tenant: &'a str,
    /// Number of records declared by the batch.
    pub record_count: u32,
}

/// Returns whether a payload declares the native grouped-batch format.
pub fn is_native_log_batch(payload: &[u8]) -> (native: bool)
    ensures
        native == (payload@.len() >= 4 && payload@.subrange(0, 4) == batch_magic()),
{
    let magic: [u8; 4] = [0x53, 0x4c, 0x42, 0x31];
    proof {
        assert(magic@ =~= batch_magic());
    }
    payload.len() >= 4 && bytes_at(payload, 0, &magic)
}

/// Reads the bounded batch header without decoding its records.
pub fn inspect_native_log_batch(payload: &[u8]) -> (result: Result<
    NativeBatchInfo<'_>,
    NativeProtocolError,
>)
    ensures
        match result {
            Ok(info) => batch_header_error(payload@) is None && info.tenant@ == decode_utf8(
                batch_tenant_bytes(payload@),
            ) && info.record_count == batch_record_count(payload@),
            Err(error) => batch_header_error(payload@) == Some(error),
        },
{
    if payload.len() < BATCH_HEADER_BYTES {
        return Err(NativeProtocolError::ShortBatch);
    }
    if !is_native_log_batch(payload) {
        return Err(NativeProtocolError::InvalidBatchMagic);
    }
    let zeros: [u8; 4] = [0, 0, 0, 0];
    proof {
        assert(zeros@ =~= seq![0u8, 0u8, 0u8, 0u8]);
    }
    if !bytes_at(payload, 12, &zeros) {
        return Err(NativeProtocolError::BatchReserved);
    }
    let tenant_len: usize = read_u16(payload, 4) as usize;
    if tenant_len > MAX_TENANT_BYTES {
        return Err(NativeProtocolError::BatchTenantTooLong);
    }
    let end: usize = BATCH_HEADER_BYTES + tenant_len;
    if end > payload.len() {
        return Err(NativeProtocolError::BatchTenantTruncated);
    }
    let tenant = match utf8_text(&payload[BATCH_HEADER_BYTES..end]) {
        Some(tenant) => tenant,
        None => return Err(NativeProtocolError::BatchTenantNotUtf8),
    };
    if tenant.is_empty() {
        return Err(NativeProtocolError::BatchTenantEmpty);
    }
    Ok(NativeBatchInfo { tenant, record_count: read_u32(payload, 8) })
}

/// Borrowed entry of a stream.
pub struct BorrowedEntry<'a> {
    /// Nanosecond Unix timestamp.
    pub timestamp: u64,
    /// Log line.
    pub line: &'a str,
    /// Metadata in wire order.
    pub metadata: Vec<(&'a str, &'a str)>,
}

impl<'a> View for BorrowedEntry<'a> {
    type V = WireEntry;

    open spec fn view(&self) -> WireEntry {
        WireEntry {
            timestamp: self.timestamp as nat,
            line: self.line@,
            metadata: str_pairs(self.metadata@),
        }
    }
}

/// Borrowed stream of a batch.
pub struct BorrowedStream<'a> {
    /// Labels in wire order.
    pub labels: Vec<(&'a str, &'a str)>,
    /// Entries in wire order.
    pub entries: Vec<BorrowedEntry<'a>>,
}

/// Values of borrowed entries.
pub open spec fn borrowed_entries(entries: Seq<BorrowedEntry>) -> Seq<WireEntry> {
    entries.map_values(|entry: BorrowedEntry| entry@)
}

impl<'a> View for BorrowedStream<'a> {
    type V = WireStream;

    open spec fn view(&self) -> WireStream {
        WireStream { labels: str_pairs(self.labels@), entries: borrowed_entries(self.entries@) }
    }
}

/// Values of borrowed streams.
pub open spec fn borrowed_streams(streams: Seq<BorrowedStream>) -> Seq<WireStream> {
    streams.map_values(|stream: BorrowedStream| stream@)
}

/// Borrowed batch.
pub struct BorrowedBatch<'a> {
    /// Tenant whose records are carried.
    pub tenant: &'a str,
    /// Streams in wire order.
    pub streams: Vec<BorrowedStream<'a>>,
}

impl<'a> View for BorrowedBatch<'a> {
    type V = WireBatch;

    open spec fn view(&self) -> WireBatch {
        WireBatch { tenant: self.tenant@, streams: borrowed_streams(self.streams@) }
    }
}

/// A failure among the first entries is the failure of all of them.
proof fn lemma_parse_entries_error(
    bytes: Seq<u8>,
    at: int,
    few: nat,
    count: nat,
    reader: BatchReader,
)
    requires
        few <= count,
        parse_entries(bytes, at, few, reader) is Err,
    ensures
        parse_entries(bytes, at, count, reader) == parse_entries(bytes, at, few, reader),
    decreases count,
{
    if few < count {
        lemma_parse_entries_error(bytes, at, few, (count - 1) as nat, reader);
    }
}

/// A failure among the first streams is the failure of all of them.
proof fn lemma_parse_streams_error(
    bytes: Seq<u8>,
    at: int,
    few: nat,
    count: nat,
    declared: nat,
    reader: BatchReader,
)
    requires
        few <= count,
        parse_streams(bytes, at, few, declared, reader) is Err,
    ensures
        parse_streams(bytes, at, count, declared, reader) == parse_streams(
            bytes,
            at,
            few,
            declared,
            reader,
        ),
    decreases count,
{
    if few < count {
        lemma_parse_streams_error(bytes, at, few, (count - 1) as nat, declared, reader);
    }
}

/// Reads one entry.
fn read_entry<'a>(cursor: &mut Cursor<'a>, reader: BatchReader) -> (result: Result<
    BorrowedEntry<'a>,
    NativeProtocolError,
>)
    requires
        old(cursor).valid(),
    ensures
        final(cursor).bytes == old(cursor).bytes,
        final(cursor).valid(),
        match result {
            Ok(entry) => parse_entry(old(cursor).bytes@, old(cursor).offset as int, reader) == Ok::<
                _,
                NativeProtocolError,
            >((entry@, final(cursor).offset as int)),
            Err(error) => parse_entry(old(cursor).bytes@, old(cursor).offset as int, reader)
                == Err::<(WireEntry, int), _>(error),
        },
{
    let timestamp: u64 = match cursor.u64(NativeField::Timestamp) {
        Ok(timestamp) => timestamp,
        Err(error) => return Err(error),
    };
    if reader != BatchReader::Entries && timestamp > i64::MAX as u64 {
        return Err(NativeProtocolError::TimestampOutOfRange);
    }
    let line_len: u32 = match cursor.u32(NativeField::LineLength) {
        Ok(line_len) => line_len,
        Err(error) => return Err(error),
    };
    let count: u16 = match cursor.u16(NativeField::MetadataCount) {
        Ok(count) => count,
        Err(error) => return Err(error),
    };
    if count as usize > MAX_METADATA_PER_ENTRY {
        return Err(NativeProtocolError::TooMuchMetadata);
    }
    let reserved: u16 = match cursor.u16(NativeField::EntryReserved) {
        Ok(reserved) => reserved,
        Err(error) => return Err(error),
    };
    if reserved != 0 {
        return Err(NativeProtocolError::EntryReservedNotZero);
    }
    let line = match cursor.string(line_len as usize, NativeField::LogLine) {
        Ok(line) => line,
        Err(error) => return Err(error),
    };
    let bad = if reader == BatchReader::Events && count == 1 {
        NativeProtocolError::EmptyMetadata
    } else {
        NativeProtocolError::BadMetadata
    };
    let metadata = match cursor.pairs(
        count as usize,
        NativeField::MetadataKey,
        NativeField::MetadataValue,
        bad,
    ) {
        Ok(metadata) => metadata,
        Err(error) => return Err(error),
    };
    if timestamp > i64::MAX as u64 {
        return Err(NativeProtocolError::TimestampOutOfRange);
    }
    Ok(BorrowedEntry { timestamp, line, metadata })
}

/// Reads the entries of one stream.
fn read_entries<'a>(cursor: &mut Cursor<'a>, count: usize, reader: BatchReader) -> (result: Result<
    Vec<BorrowedEntry<'a>>,
    NativeProtocolError,
>)
    requires
        old(cursor).valid(),
    ensures
        final(cursor).bytes == old(cursor).bytes,
        final(cursor).valid(),
        match result {
            Ok(entries) => parse_entries(
                old(cursor).bytes@,
                old(cursor).offset as int,
                count as nat,
                reader,
            ) == Ok::<_, NativeProtocolError>(
                (borrowed_entries(entries@), final(cursor).offset as int),
            ) && entries@.len() == count,
            Err(error) => parse_entries(
                old(cursor).bytes@,
                old(cursor).offset as int,
                count as nat,
                reader,
            ) == Err::<(Seq<WireEntry>, int), _>(error),
        },
{
    let ghost bytes = cursor.bytes@;
    let ghost at = cursor.offset as int;
    let mut entries: Vec<BorrowedEntry<'a>> = Vec::new();
    let mut index: usize = 0;
    proof {
        assert(borrowed_entries(entries@) =~= Seq::<WireEntry>::empty());
    }
    while index < count
        invariant
            index <= count,
            entries@.len() == index,
            cursor.bytes == old(cursor).bytes,
            cursor.valid(),
            bytes == old(cursor).bytes@,
            at == old(cursor).offset,
            parse_entries(bytes, at, index as nat, reader) == Ok::<_, NativeProtocolError>(
                (borrowed_entries(entries@), cursor.offset as int),
            ),
        decreases count - index,
    {
        match read_entry(cursor, reader) {
            Ok(entry) => {
                proof {
                    assert(borrowed_entries(entries@.push(entry)) =~= borrowed_entries(
                        entries@,
                    ).push(entry@));
                }
                entries.push(entry);
            },
            Err(error) => {
                proof {
                    lemma_parse_entries_error(bytes, at, (index + 1) as nat, count as nat, reader);
                }
                return Err(error);
            },
        }
        index = index + 1;
    }
    Ok(entries)
}

/// Reads one stream.
fn read_stream<'a>(
    cursor: &mut Cursor<'a>,
    seen: usize,
    declared: u32,
    reader: BatchReader,
) -> (result: Result<BorrowedStream<'a>, NativeProtocolError>)
    requires
        old(cursor).valid(),
        seen <= declared,
    ensures
        final(cursor).bytes == old(cursor).bytes,
        final(cursor).valid(),
        match result {
            Ok(stream) => parse_stream(
                old(cursor).bytes@,
                old(cursor).offset as int,
                seen as nat,
                declared as nat,
                reader,
            ) == Ok::<_, NativeProtocolError>((stream@, final(cursor).offset as int)) && seen
                + stream@.entries.len() <= declared,
            Err(error) => parse_stream(
                old(cursor).bytes@,
                old(cursor).offset as int,
                seen as nat,
                declared as nat,
                reader,
            ) == Err::<(WireStream, int), _>(error),
        },
{
    let label_count: u16 = match cursor.u16(NativeField::LabelCount) {
        Ok(label_count) => label_count,
        Err(error) => return Err(error),
    };
    if label_count as usize > MAX_LABELS_PER_STREAM {
        return Err(NativeProtocolError::TooManyLabels);
    }
    let reserved: u16 = match cursor.u16(NativeField::StreamReserved) {
        Ok(reserved) => reserved,
        Err(error) => return Err(error),
    };
    if reserved != 0 {
        return Err(NativeProtocolError::StreamReservedNotZero);
    }
    let entry_count: u32 = match cursor.u32(NativeField::EntryCount) {
        Ok(entry_count) => entry_count,
        Err(error) => return Err(error),
    };
    let too_many = entry_count as u64 > declared as u64 - seen as u64;
    if reader != BatchReader::Entries && too_many {
        return Err(NativeProtocolError::CountExceedsDeclared);
    }
    let labels = match cursor.pairs(
        label_count as usize,
        NativeField::LabelKey,
        NativeField::LabelValue,
        NativeProtocolError::BadLabel,
    ) {
        Ok(labels) => labels,
        Err(error) => return Err(error),
    };
    if too_many {
        return Err(NativeProtocolError::CountExceedsDeclared);
    }
    let entries = match read_entries(cursor, entry_count as usize, reader) {
        Ok(entries) => entries,
        Err(error) => return Err(error),
    };
    Ok(BorrowedStream { labels, entries })
}

/// Reads a whole batch in place.
pub fn read_batch(payload: &[u8], reader: BatchReader) -> (result: Result<
    BorrowedBatch<'_>,
    NativeProtocolError,
>)
    ensures
        match result {
            Ok(batch) => parse_batch(payload@, reader) == Ok::<_, NativeProtocolError>(batch@),
            Err(error) => parse_batch(payload@, reader) == Err::<WireBatch, _>(error),
        },
{
    let info = match inspect_native_log_batch(payload) {
        Ok(info) => info,
        Err(error) => return Err(error),
    };
    let declared: u32 = info.record_count;
    if reader == BatchReader::View && declared as usize > payload.len() / 16 {
        return Err(NativeProtocolError::CountExceedsPayload);
    }
    let tenant_len: usize = read_u16(payload, 4) as usize;
    let stream_count: usize = read_u16(payload, 6) as usize;
    let start: usize = BATCH_HEADER_BYTES + tenant_len;
    let mut cursor = Cursor::at(payload, start);
    let mut streams: Vec<BorrowedStream<'_>> = Vec::new();
    let mut seen: usize = 0;
    let mut index: usize = 0;
    proof {
        assert(borrowed_streams(streams@) =~= Seq::<WireStream>::empty());
    }
    while index < stream_count
        invariant
            index <= stream_count,
            cursor.bytes == payload,
            cursor.valid(),
            seen <= declared,
            seen == total_entries(borrowed_streams(streams@)),
            parse_streams(payload@, start as int, index as nat, declared as nat, reader) == Ok::<
                _,
                NativeProtocolError,
            >((borrowed_streams(streams@), cursor.offset as int)),
            start == BATCH_HEADER_BYTES + batch_tenant_len(payload@),
            stream_count == batch_stream_count(payload@),
            declared == batch_record_count(payload@),
            batch_header_error(payload@) is None,
            !(reader == BatchReader::View && declared > payload@.len() / 16),
        decreases stream_count - index,
    {
        match read_stream(&mut cursor, seen, declared, reader) {
            Ok(stream) => {
                proof {
                    assert(borrowed_streams(streams@.push(stream)) =~= borrowed_streams(
                        streams@,
                    ).push(stream@));
                    let all = borrowed_streams(streams@).push(stream@);
                    assert(all.drop_last() =~= borrowed_streams(streams@));
                }
                seen = seen + stream.entries.len();
                streams.push(stream);
            },
            Err(error) => {
                proof {
                    lemma_parse_streams_error(
                        payload@,
                        start as int,
                        (index + 1) as nat,
                        stream_count as nat,
                        declared as nat,
                        reader,
                    );
                }
                return Err(error);
            },
        }
        index = index + 1;
    }
    if seen != declared as usize {
        return Err(NativeProtocolError::RecordCountMismatch(seen as u64, declared));
    }
    match cursor.finish() {
        Ok(_) => Ok(BorrowedBatch { tenant: info.tenant, streams }),
        Err(error) => Err(error),
    }
}

} // verus!
