//! Native protocol frames and append acknowledgements.
use vstd::prelude::*;

use crate::codec::{
    bytes_at, le_bytes, le_value, lemma_le_bytes_len, lemma_le_round_trip, lemma_pow256_values,
    put_bytes, put_le, read_u128, read_u32, read_u64,
};
use crate::error::NativeProtocolError;

verus! {

broadcast use vstd::seq_lib::group_seq_properties;

/// Fixed number of bytes in every native protocol frame header.
pub const NATIVE_FRAME_HEADER_BYTES: usize = 32;

/// Production maximum for one native request or response payload.
pub const MAX_NATIVE_FRAME_BYTES: usize = 16_777_216;

/// First bytes of a frame: `SLNP`.
pub open spec fn frame_magic() -> Seq<u8> {
    seq![0x53, 0x4c, 0x4e, 0x50]
}

/// First bytes of an append acknowledgement: `SLA1`.
pub open spec fn ack_magic() -> Seq<u8> {
    seq![0x53, 0x4c, 0x41, 0x31]
}

/// Native operation carried by a frame.
#[derive(Debug, Clone, Copy, PartialEq, Eq, Structural)]
pub enum NativeOpcode {
    /// Append one grouped log batch.
    Append,
    /// Execute an indexed exact-label and term query.
    Query,
    /// Verify the connection and echo the request payload.
    Ping,
    /// Authenticates a connection before any tenant operation is accepted.
    Authenticate,
}

impl NativeOpcode {
    /// Wire byte of the operation.
    pub open spec fn byte(self) -> u8 {
        match self {
            NativeOpcode::Append => 1,
            NativeOpcode::Query => 2,
            NativeOpcode::Ping => 3,
            NativeOpcode::Authenticate => 4,
        }
    }

    /// Wire byte of the operation.
    pub fn to_byte(self) -> (byte: u8)
        ensures
            byte == self.byte(),
    {
        match self {
            NativeOpcode::Append => 1,
            NativeOpcode::Query => 2,
            NativeOpcode::Ping => 3,
            NativeOpcode::Authenticate => 4,
        }
    }

    /// Operation of a wire byte.
    pub fn from_byte(value: u8) -> (result: Result<Self, NativeProtocolError>)
        ensures
            match result {
                Ok(opcode) => opcode.byte() == value,
                Err(error) => !(1 <= value <= 4) && error
                    == NativeProtocolError::UnsupportedOpcode(value),
            },
    {
        match value {
            1 => Ok(NativeOpcode::Append),
            2 => Ok(NativeOpcode::Query),
            3 => Ok(NativeOpcode::Ping),
            4 => Ok(NativeOpcode::Authenticate),
            _ => Err(NativeProtocolError::UnsupportedOpcode(value)),
        }
    }
}

/// Status returned in a native response frame.
#[derive(Debug, Clone, Copy, PartialEq, Eq, Structural)]
pub enum NativeStatus {
    /// The operation completed successfully.
    Success,
    /// The request frame or payload was invalid.
    BadRequest,
    /// The operation failed after validation.
    Internal,
    /// The requested version or operation is unsupported.
    Unsupported,
    /// The connection did not supply the configured production credential.
    Unauthorized,
    /// The service is draining or temporarily unavailable.
    Unavailable,
    /// A bounded admission or rate limit rejected the request.
    TooManyRequests,
    /// Query execution exceeded the configured response deadline.
    Timeout,
}

impl NativeStatus {
    /// Wire byte of the status.
    pub open spec fn byte(self) -> u8 {
        match self {
            NativeStatus::Success => 0,
            NativeStatus::BadRequest => 1,
            NativeStatus::Internal => 2,
            NativeStatus::Unsupported => 3,
            NativeStatus::Unauthorized => 4,
            NativeStatus::Unavailable => 5,
            NativeStatus::TooManyRequests => 6,
            NativeStatus::Timeout => 7,
        }
    }

    /// Wire byte of the status.
    pub fn to_byte(self) -> (byte: u8)
        ensures
            byte == self.byte(),
    {
        match self {
            NativeStatus::Success => 0,
            NativeStatus::BadRequest => 1,
            NativeStatus::Internal => 2,
            NativeStatus::Unsupported => 3,
            NativeStatus::Unauthorized => 4,
            NativeStatus::Unavailable => 5,
            NativeStatus::TooManyRequests => 6,
            NativeStatus::Timeout => 7,
        }
    }

    /// Status of a wire byte.
    pub fn from_byte(value: u8) -> (result: Result<Self, NativeProtocolError>)
        ensures
            match result {
                Ok(status) => status.byte() == value,
                Err(error) => value > 7 && error == NativeProtocolError::UnsupportedStatus(value),
            },
    {
        match value {
            0 => Ok(NativeStatus::Success),
            1 => Ok(NativeStatus::BadRequest),
            2 => Ok(NativeStatus::Internal),
            3 => Ok(NativeStatus::Unsupported),
            4 => Ok(NativeStatus::Unauthorized),
            5 => Ok(NativeStatus::Unavailable),
            6 => Ok(NativeStatus::TooManyRequests),
            7 => Ok(NativeStatus::Timeout),
            _ => Err(NativeProtocolError::UnsupportedStatus(value)),
        }
    }
}

/// BLAKE3 digest of a byte string.
pub uninterp spec fn blake3_digest(bytes: Seq<u8>) -> Seq<u8>;

/// Hashes a byte string.
///
/// Calls `blake3::hash` and takes the bytes of the `Hash` it returns. The digest
/// is a function of the hashed bytes alone.
#[verifier::external_body]
pub(crate) fn blake3_hash(bytes: &[u8]) -> (digest: [u8; 32])
    ensures
        digest@ == blake3_digest(bytes@),
{
    *blake3::hash(bytes).as_bytes()
}

/// First four digest bytes as a little-endian integer.
pub open spec fn checksum_of(digest: Seq<u8>) -> nat {
    le_value(digest.subrange(0, 4))
}

/// Checksum of a digest.
pub fn digest_checksum(digest: &[u8; 32]) -> (checksum: u32)
    ensures
        checksum == checksum_of(digest@),
{
    read_u32(digest, 0)
}

/// Checksum of a payload.
pub fn payload_checksum(payload: &[u8]) -> (checksum: u32)
    ensures
        checksum == checksum_of(blake3_digest(payload@)),
{
    digest_checksum(&blake3_hash(payload))
}

/// Validated fixed header for one multiplexed native frame.
#[derive(Debug, Clone, Copy, PartialEq, Eq, Structural)]
pub struct NativeFrameHeader {
    /// Operation associated with the frame.
    pub opcode: NativeOpcode,
    /// Caller-selected ID copied into the response.
    pub request_id: u128,
    /// Response status; requests must use [`NativeStatus::Success`].
    pub status: NativeStatus,
    /// Whether this frame is a server response.
    pub is_response: bool,
    /// Number of payload bytes following the header.
    pub payload_len: u32,
    /// First four bytes of the payload's BLAKE3 digest.
    pub payload_checksum: u32,
}

/// Why 32 bytes are not a frame header, if they are not.
pub open spec fn header_error(bytes: Seq<u8>) -> Option<NativeProtocolError> {
    let payload_len = le_value(bytes.subrange(24, 28));
    if bytes.subrange(0, 4) != frame_magic() {
        Some(NativeProtocolError::InvalidFrameMagic)
    } else if bytes[4] != 1 {
        Some(NativeProtocolError::UnsupportedVersion(bytes[4]))
    } else if bytes[6] > 1 {
        Some(NativeProtocolError::UnknownFlags)
    } else if payload_len > MAX_NATIVE_FRAME_BYTES {
        Some(NativeProtocolError::FrameTooLarge(payload_len as u64))
    } else if !(1 <= bytes[5] <= 4) {
        Some(NativeProtocolError::UnsupportedOpcode(bytes[5]))
    } else if bytes[7] > 7 {
        Some(NativeProtocolError::UnsupportedStatus(bytes[7]))
    } else {
        None
    }
}

impl NativeFrameHeader {
    /// The header that these parts make for a payload.
    pub open spec fn describes(
        self,
        opcode: NativeOpcode,
        request_id: u128,
        status: NativeStatus,
        is_response: bool,
        payload: Seq<u8>,
    ) -> bool {
        &&& self.opcode == opcode
        &&& self.request_id == request_id
        &&& self.status == status
        &&& self.is_response == is_response
        &&& self.payload_len == payload.len()
        &&& self.payload_checksum == checksum_of(blake3_digest(payload))
    }

    /// The header that these bytes hold.
    pub open spec fn held_by(self, bytes: Seq<u8>) -> bool {
        &&& self.opcode.byte() == bytes[5]
        &&& self.request_id == le_value(bytes.subrange(8, 24))
        &&& self.status.byte() == bytes[7]
        &&& self.is_response == (bytes[6] == 1)
        &&& self.payload_len == le_value(bytes.subrange(24, 28))
        &&& self.payload_checksum == le_value(bytes.subrange(28, 32))
    }

    /// Wire form.
    pub open spec fn wire(self) -> Seq<u8> {
        frame_magic() + seq![
            1u8,
            self.opcode.byte(),
            if self.is_response {
                1u8
            } else {
                0u8
            },
            self.status.byte(),
        ] + le_bytes(self.request_id as nat, 16) + le_bytes(self.payload_len as nat, 4) + le_bytes(
            self.payload_checksum as nat,
            4,
        )
    }

    /// Whether a payload is the one declared.
    pub open spec fn payload_error(self, payload: Seq<u8>) -> Option<NativeProtocolError> {
        if payload.len() != self.payload_len {
            Some(NativeProtocolError::PayloadLengthMismatch)
        } else if checksum_of(blake3_digest(payload)) != self.payload_checksum {
            Some(NativeProtocolError::ChecksumMismatch)
        } else {
            None
        }
    }

    /// Creates a request header for `payload`.
    pub fn request(opcode: NativeOpcode, request_id: u128, payload: &[u8]) -> (result: Result<
        Self,
        NativeProtocolError,
    >)
        ensures
            match result {
                Ok(header) => payload@.len() <= MAX_NATIVE_FRAME_BYTES && header.describes(
                    opcode,
                    request_id,
                    NativeStatus::Success,
                    false,
                    payload@,
                ),
                Err(error) => payload@.len() > MAX_NATIVE_FRAME_BYTES && error
                    == NativeProtocolError::FrameTooLarge(payload@.len() as u64),
            },
    {
        NativeFrameHeader::new(opcode, request_id, NativeStatus::Success, false, payload)
    }

    /// Creates a response header for `payload`.
    pub fn response(
        opcode: NativeOpcode,
        request_id: u128,
        status: NativeStatus,
        payload: &[u8],
    ) -> (result: Result<Self, NativeProtocolError>)
        ensures
            match result {
                Ok(header) => payload@.len() <= MAX_NATIVE_FRAME_BYTES && header.describes(
                    opcode,
                    request_id,
                    status,
                    true,
                    payload@,
                ),
                Err(error) => payload@.len() > MAX_NATIVE_FRAME_BYTES && error
                    == NativeProtocolError::FrameTooLarge(payload@.len() as u64),
            },
    {
        NativeFrameHeader::new(opcode, request_id, status, true, payload)
    }

    fn new(
        opcode: NativeOpcode,
        request_id: u128,
        status: NativeStatus,
        is_response: bool,
        payload: &[u8],
    ) -> (result: Result<Self, NativeProtocolError>)
        ensures
            match result {
                Ok(header) => payload@.len() <= MAX_NATIVE_FRAME_BYTES && header.describes(
                    opcode,
                    request_id,
                    status,
                    is_response,
                    payload@,
                ),
                Err(error) => payload@.len() > MAX_NATIVE_FRAME_BYTES && error
                    == NativeProtocolError::FrameTooLarge(payload@.len() as u64),
            },
    {
        if payload.len() > MAX_NATIVE_FRAME_BYTES {
            return Err(NativeProtocolError::FrameTooLarge(payload.len() as u64));
        }
        Ok(
            NativeFrameHeader {
                opcode,
                request_id,
                status,
                is_response,
                payload_len: payload.len() as u32,
                payload_checksum: payload_checksum(payload),
            },
        )
    }

    /// Encodes this header into its fixed-width wire representation.
    pub fn encode(self) -> (bytes: [u8; NATIVE_FRAME_HEADER_BYTES])
        ensures
            bytes@ == self.wire(),
    {
        let mut encoded: Vec<u8> = Vec::new();
        encoded.push(0x53);
        encoded.push(0x4c);
        encoded.push(0x4e);
        encoded.push(0x50);
        encoded.push(1);
        encoded.push(self.opcode.to_byte());
        encoded.push(
            if self.is_response {
                1
            } else {
                0
            },
        );
        encoded.push(self.status.to_byte());
        put_le(&mut encoded, self.request_id, 16);
        put_le(&mut encoded, self.payload_len as u128, 4);
        put_le(&mut encoded, self.payload_checksum as u128, 4);
        proof {
            lemma_le_bytes_len(self.request_id as nat, 16);
            lemma_le_bytes_len(self.payload_len as nat, 4);
            lemma_le_bytes_len(self.payload_checksum as nat, 4);
            assert(encoded@ =~= self.wire());
        }
        let mut bytes: [u8; NATIVE_FRAME_HEADER_BYTES] = [0; NATIVE_FRAME_HEADER_BYTES];
        let mut index: usize = 0;
        while index < NATIVE_FRAME_HEADER_BYTES
            invariant
                index <= NATIVE_FRAME_HEADER_BYTES,
                encoded@.len() == NATIVE_FRAME_HEADER_BYTES,
                forall|i: int| 0 <= i < index ==> bytes@[i] == encoded@[i],
            decreases NATIVE_FRAME_HEADER_BYTES - index,
        {
            bytes[index] = encoded[index];
            index = index + 1;
        }
        proof {
            assert(bytes@ =~= encoded@);
        }
        bytes
    }

    /// Decodes and validates a fixed-width wire header.
    pub fn decode(bytes: &[u8; NATIVE_FRAME_HEADER_BYTES]) -> (result: Result<
        Self,
        NativeProtocolError,
    >)
        ensures
            match result {
                Ok(header) => header_error(bytes@) is None && header.held_by(bytes@),
                Err(error) => header_error(bytes@) == Some(error),
            },
    {
        let magic: [u8; 4] = [0x53, 0x4c, 0x4e, 0x50];
        proof {
            assert(magic@ =~= frame_magic());
        }
        if !bytes_at(bytes, 0, &magic) {
            return Err(NativeProtocolError::InvalidFrameMagic);
        }
        if bytes[4] != 1 {
            return Err(NativeProtocolError::UnsupportedVersion(bytes[4]));
        }
        if bytes[6] > 1 {
            return Err(NativeProtocolError::UnknownFlags);
        }
        let payload_len: u32 = read_u32(bytes, 24);
        if payload_len as usize > MAX_NATIVE_FRAME_BYTES {
            return Err(NativeProtocolError::FrameTooLarge(payload_len as u64));
        }
        let opcode = match NativeOpcode::from_byte(bytes[5]) {
            Ok(opcode) => opcode,
            Err(error) => return Err(error),
        };
        let status = match NativeStatus::from_byte(bytes[7]) {
            Ok(status) => status,
            Err(error) => return Err(error),
        };
        Ok(
            NativeFrameHeader {
                opcode,
                request_id: read_u128(bytes, 8),
                status,
                is_response: bytes[6] == 1,
                payload_len,
                payload_checksum: read_u32(bytes, 28),
            },
        )
    }

    /// Verifies that `payload` has the declared length and BLAKE3 checksum.
    pub fn verify_payload(self, payload: &[u8]) -> (result: Result<(), NativeProtocolError>)
        ensures
            match result {
                Ok(_) => self.payload_error(payload@) is None,
                Err(error) => self.payload_error(payload@) == Some(error),
            },
    {
        self.verify_digest(payload.len(), &blake3_hash(payload))
    }

    /// Verifies a payload of `len` bytes by its BLAKE3 digest.
    pub fn verify_digest(self, len: usize, digest: &[u8; 32]) -> (result: Result<
        (),
        NativeProtocolError,
    >)
        ensures
            result == if len != self.payload_len {
                Err::<(), _>(NativeProtocolError::PayloadLengthMismatch)
            } else if checksum_of(digest@) != self.payload_checksum {
                Err(NativeProtocolError::ChecksumMismatch)
            } else {
                Ok(())
            },
    {
        if len != self.payload_len as usize {
            return Err(NativeProtocolError::PayloadLengthMismatch);
        }
        if digest_checksum(digest) != self.payload_checksum {
            return Err(NativeProtocolError::ChecksumMismatch);
        }
        Ok(())
    }
}

/// A header whose payload is within the limit reads back from its wire form.
pub proof fn header_round_trip(header: NativeFrameHeader)
    requires
        header.payload_len <= MAX_NATIVE_FRAME_BYTES,
    ensures
        header.wire().len() == NATIVE_FRAME_HEADER_BYTES,
        header_error(header.wire()) is None,
        header.held_by(header.wire()),
{
    let wire = header.wire();
    let id = le_bytes(header.request_id as nat, 16);
    let len = le_bytes(header.payload_len as nat, 4);
    let sum = le_bytes(header.payload_checksum as nat, 4);
    lemma_pow256_values();
    lemma_le_bytes_len(header.request_id as nat, 16);
    lemma_le_bytes_len(header.payload_len as nat, 4);
    lemma_le_bytes_len(header.payload_checksum as nat, 4);
    lemma_le_round_trip(header.request_id as nat, 16);
    lemma_le_round_trip(header.payload_len as nat, 4);
    lemma_le_round_trip(header.payload_checksum as nat, 4);
    assert(wire.subrange(0, 4) =~= frame_magic());
    assert(wire.subrange(8, 24) =~= id);
    assert(wire.subrange(24, 28) =~= len);
    assert(wire.subrange(28, 32) =~= sum);
}

/// Bytes hold at most one header.
pub proof fn held_header_is_unique(left: NativeFrameHeader, right: NativeFrameHeader, bytes: Seq<u8>)
    requires
        left.held_by(bytes),
        right.held_by(bytes),
    ensures
        left == right,
{
}

/// The header made for a payload accepts that payload.
pub proof fn described_payload_verifies(
    header: NativeFrameHeader,
    opcode: NativeOpcode,
    request_id: u128,
    status: NativeStatus,
    is_response: bool,
    payload: Seq<u8>,
)
    requires
        header.describes(opcode, request_id, status, is_response, payload),
    ensures
        header.payload_error(payload) is None,
{
}

/// One complete native wire frame.
#[derive(Debug, Clone, PartialEq, Eq)]
pub struct NativeFrame {
    /// Validated frame header.
    pub header: NativeFrameHeader,
    /// Operation-specific payload.
    pub payload: Vec<u8>,
}

impl NativeFrame {
    /// Creates a request frame.
    pub fn request(opcode: NativeOpcode, request_id: u128, payload: Vec<u8>) -> (result: Result<
        Self,
        NativeProtocolError,
    >)
        ensures
            match result {
                Ok(frame) => payload@.len() <= MAX_NATIVE_FRAME_BYTES && frame.payload@ == payload@
                    && frame.header.describes(
                    opcode,
                    request_id,
                    NativeStatus::Success,
                    false,
                    payload@,
                ),
                Err(error) => payload@.len() > MAX_NATIVE_FRAME_BYTES && error
                    == NativeProtocolError::FrameTooLarge(payload@.len() as u64),
            },
    {
        match NativeFrameHeader::request(opcode, request_id, &payload) {
            Ok(header) => Ok(NativeFrame { header, payload }),
            Err(error) => Err(error),
        }
    }

    /// Creates a response frame.
    pub fn response(
        opcode: NativeOpcode,
        request_id: u128,
        status: NativeStatus,
        payload: Vec<u8>,
    ) -> (result: Result<Self, NativeProtocolError>)
        ensures
            match result {
                Ok(frame) => payload@.len() <= MAX_NATIVE_FRAME_BYTES && frame.payload@ == payload@
                    && frame.header.describes(opcode, request_id, status, true, payload@),
                Err(error) => payload@.len() > MAX_NATIVE_FRAME_BYTES && error
                    == NativeProtocolError::FrameTooLarge(payload@.len() as u64),
            },
    {
        match NativeFrameHeader::response(opcode, request_id, status, &payload) {
            Ok(header) => Ok(NativeFrame { header, payload }),
            Err(error) => Err(error),
        }
    }

    /// Encodes the complete frame.
    pub fn encode(&self) -> (encoded: Vec<u8>)
        ensures
            encoded@ == self.header.wire() + self.payload@,
    {
        let mut encoded: Vec<u8> = Vec::new();
        let header = self.header.encode();
        put_bytes(&mut encoded, &header);
        put_bytes(&mut encoded, &self.payload);
        proof {
            assert(encoded@ =~= self.header.wire() + self.payload@);
        }
        encoded
    }
}

/// Durable coordinates returned after a native append.
///
/// The native server configuration determines whether the response waits for
/// exact-query visibility or only the authoritative compressed WAL commit.
#[derive(Debug, Clone, Copy, PartialEq, Eq, Structural)]
pub struct NativeAppendAck {
    /// Logical tenant partition selected for the batch.
    pub partition_id: u32,
    /// First durable offset reserved for the batch.
    pub first_offset: u64,
    /// Last durable offset reserved for the batch.
    pub last_offset: u64,
}

impl NativeAppendAck {
    /// Wire form.
    pub open spec fn wire(self) -> Seq<u8> {
        ack_magic() + le_bytes(self.partition_id as nat, 4) + le_bytes(self.first_offset as nat, 8)
            + le_bytes(self.last_offset as nat, 8)
    }

    /// Encodes a fixed 24-byte append acknowledgement payload.
    pub fn encode(self) -> (bytes: [u8; 24])
        ensures
            bytes@ == self.wire(),
    {
        let mut encoded: Vec<u8> = Vec::new();
        encoded.push(0x53);
        encoded.push(0x4c);
        encoded.push(0x41);
        encoded.push(0x31);
        put_le(&mut encoded, self.partition_id as u128, 4);
        put_le(&mut encoded, self.first_offset as u128, 8);
        put_le(&mut encoded, self.last_offset as u128, 8);
        proof {
            lemma_le_bytes_len(self.partition_id as nat, 4);
            lemma_le_bytes_len(self.first_offset as nat, 8);
            lemma_le_bytes_len(self.last_offset as nat, 8);
            assert(encoded@ =~= self.wire());
        }
        let mut bytes: [u8; 24] = [0; 24];
        let mut index: usize = 0;
        while index < 24
            invariant
                index <= 24,
                encoded@.len() == 24,
                forall|i: int| 0 <= i < index ==> bytes@[i] == encoded@[i],
            decreases 24 - index,
        {
            bytes[index] = encoded[index];
            index = index + 1;
        }
        proof {
            assert(bytes@ =~= encoded@);
        }
        bytes
    }

    /// Decodes a fixed append acknowledgement payload.
    pub fn decode(payload: &[u8]) -> (result: Result<Self, NativeProtocolError>)
        ensures
            match result {
                Ok(ack) => payload@.len() == 24 && payload@.subrange(0, 4) == ack_magic() && ack
                    == (NativeAppendAck {
                    partition_id: le_value(payload@.subrange(4, 8)) as u32,
                    first_offset: le_value(payload@.subrange(8, 16)) as u64,
                    last_offset: le_value(payload@.subrange(16, 24)) as u64,
                }),
                Err(error) => (payload@.len() != 24 || payload@.subrange(0, 4) != ack_magic())
                    && error == NativeProtocolError::InvalidAcknowledgement,
            },
    {
        let magic: [u8; 4] = [0x53, 0x4c, 0x41, 0x31];
        proof {
            assert(magic@ =~= ack_magic());
        }
        if payload.len() != 24 || !bytes_at(payload, 0, &magic) {
            return Err(NativeProtocolError::InvalidAcknowledgement);
        }
        Ok(
            NativeAppendAck {
                partition_id: read_u32(payload, 4),
                first_offset: read_u64(payload, 8),
                last_offset: read_u64(payload, 16),
            },
        )
    }
}

/// An acknowledgement reads back from its wire form.
pub proof fn ack_round_trip(ack: NativeAppendAck)
    ensures
        ack.wire().len() == 24,
        ack.wire().subrange(0, 4) == ack_magic(),
        le_value(ack.wire().subrange(4, 8)) == ack.partition_id,
        le_value(ack.wire().subrange(8, 16)) == ack.first_offset,
        le_value(ack.wire().subrange(16, 24)) == ack.last_offset,
{
    let wire = ack.wire();
    lemma_pow256_values();
    lemma_le_bytes_len(ack.partition_id as nat, 4);
    lemma_le_bytes_len(ack.first_offset as nat, 8);
    lemma_le_bytes_len(ack.last_offset as nat, 8);
    lemma_le_round_trip(ack.partition_id as nat, 4);
    lemma_le_round_trip(ack.first_offset as nat, 8);
    lemma_le_round_trip(ack.last_offset as nat, 8);
    assert(wire.subrange(0, 4) =~= ack_magic());
    assert(wire.subrange(4, 8) =~= le_bytes(ack.partition_id as nat, 4));
    assert(wire.subrange(8, 16) =~= le_bytes(ack.first_offset as nat, 8));
    assert(wire.subrange(16, 24) =~= le_bytes(ack.last_offset as nat, 8));
}

} // verus!
