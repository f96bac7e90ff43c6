//! Decisions of the native TCP server.
use vstd::prelude::*;
use vstd::utf8::*;

use crate::codec::copy_range;
use crate::error::NativeProtocolError;
use crate::native_encode::{encode_error, encode_native_log_batch, encoded_batch};
use crate::native_frame::{
    NativeAppendAck, NativeFrame, NativeFrameHeader, NativeOpcode, NativeStatus,
    MAX_NATIVE_FRAME_BYTES, NATIVE_FRAME_HEADER_BYTES,
};
use crate::native_query::{decode_native_query, parse_query, NativeQuery};
use crate::record::{entries_view, LokiEntry};

verus! {

broadcast use vstd::seq_lib::group_seq_properties;

/// Most bytes of an error message on the wire.
pub const MAX_ERROR_BYTES: usize = 4096;

/// Runtime limits for the native TCP listener.
#[derive(Debug, Clone, Copy, PartialEq, Eq, Structural)]
pub struct NativeServerConfig {
    /// Largest accepted payload.
    pub max_frame_bytes: usize,
    /// Maximum requests executing concurrently on one connection.
    pub max_in_flight_per_connection: usize,
    /// Wait for exact-query visibility before acknowledging native appends.
    pub wait_for_index: bool,
}

impl Default for NativeServerConfig {
    fn default() -> (config: Self)
        ensures
            config == (NativeServerConfig {
                max_frame_bytes: MAX_NATIVE_FRAME_BYTES,
                max_in_flight_per_connection: 64,
                wait_for_index: true,
            }),
    {
        NativeServerConfig {
            max_frame_bytes: MAX_NATIVE_FRAME_BYTES,
            max_in_flight_per_connection: 64,
            wait_for_index: true,
        }
    }
}

/// What is wrong with the limits of a listener or a frame on its connection.
#[derive(Debug, Clone, Copy, PartialEq, Eq, Structural)]
pub enum NativeServerFault {
    /// Frame limit out of range.
    FrameLimit,
    /// No request may be in flight.
    InFlightLimit,
    /// Frame over the connection's limit.
    FrameOverLimit,
    /// Frame that is not in the protocol's format.
    Protocol(NativeProtocolError),
}

impl NativeServerConfig {
    /// What is wrong with the limits.
    pub open spec fn fault(self) -> Option<NativeServerFault> {
        if self.max_frame_bytes == 0 || self.max_frame_bytes > MAX_NATIVE_FRAME_BYTES {
            Some(NativeServerFault::FrameLimit)
        } else if self.max_in_flight_per_connection == 0 {
            Some(NativeServerFault::InFlightLimit)
        } else {
            None
        }
    }

    /// Checks the limits.
    pub fn validate(self) -> (result: Result<Self, NativeServerFault>)
        ensures
            match result {
                Ok(config) => self.fault() is None && config == self,
                Err(fault) => self.fault() == Some(fault),
            },
    {
        if self.max_frame_bytes == 0 || self.max_frame_bytes > MAX_NATIVE_FRAME_BYTES {
            return Err(NativeServerFault::FrameLimit);
        }
        if self.max_in_flight_per_connection == 0 {
            return Err(NativeServerFault::InFlightLimit);
        }
        Ok(self)
    }

    /// Reads the header of a frame that a connection may send; the payload is read
    /// only where this succeeds.
    pub fn accept_header(&self, bytes: &[u8; NATIVE_FRAME_HEADER_BYTES]) -> (result: Result<
        NativeFrameHeader,
        NativeServerFault,
    >)
        ensures
            match crate::native_frame::header_error(bytes@) {
                Some(error) => result == Err::<NativeFrameHeader, _>(
                    NativeServerFault::Protocol(error),
                ),
                None => match result {
                    Ok(header) => header.held_by(bytes@) && header.payload_len
                        <= self.max_frame_bytes,
                    Err(fault) => fault == NativeServerFault::FrameOverLimit && exists|
                        header: NativeFrameHeader,
                    | #[trigger]
                        header.held_by(bytes@) && header.payload_len > self.max_frame_bytes,
                },
            },
    {
        let header = match NativeFrameHeader::decode(bytes) {
            Ok(header) => header,
            Err(error) => return Err(NativeServerFault::Protocol(error)),
        };
        if header.payload_len as u64 > self.max_frame_bytes as u64 {
            proof {
                assert(header.held_by(bytes@));
            }
            return Err(NativeServerFault::FrameOverLimit);
        }
        Ok(header)
    }
}

/// What the server does about a request.
pub enum NativeAction {
    /// Answers at once.
    Reply(NativeFrame),
    /// Appends a batch.
    Append(Vec<u8>),
    /// Runs a query.
    Query(NativeQuery),
    /// Checks the credential of the connection.
    Authenticate(Vec<u8>),
}

/// A response to a request: same operation and number.
pub open spec fn responds(
    frame: NativeFrame,
    header: NativeFrameHeader,
    status: NativeStatus,
    payload: Seq<u8>,
) -> bool {
    &&& frame.payload@ == payload
    &&& frame.header.describes(header.opcode, header.request_id, status, true, payload)
}

/// Message bytes on the wire: the first bytes of the text.
pub open spec fn error_payload(message: Seq<char>) -> Seq<u8> {
    let bytes = encode_utf8(message);
    if bytes.len() > MAX_ERROR_BYTES {
        bytes.subrange(0, MAX_ERROR_BYTES as int)
    } else {
        bytes
    }
}

/// A successful response.
pub fn ok_frame(header: NativeFrameHeader, payload: Vec<u8>) -> (frame: NativeFrame)
    requires
        payload@.len() <= MAX_NATIVE_FRAME_BYTES,
    ensures
        responds(frame, header, NativeStatus::Success, payload@),
{
    response_frame(header, NativeStatus::Success, payload)
}

fn response_frame(header: NativeFrameHeader, status: NativeStatus, payload: Vec<u8>) -> (frame:
    NativeFrame)
    requires
        payload@.len() <= MAX_NATIVE_FRAME_BYTES,
    ensures
        responds(frame, header, status, payload@),
{
    match NativeFrame::response(header.opcode, header.request_id, status, payload) {
        Ok(frame) => frame,
        Err(_) => {
            proof {
                assert(false);
            }
            NativeFrame { header, payload: Vec::new() }
        },
    }
}

/// A response that carries an error message.
pub fn error_frame(header: NativeFrameHeader, status: NativeStatus, message: &str) -> (frame:
    NativeFrame)
    ensures
        responds(frame, header, status, error_payload(message@)),
{
    let bytes = message.as_bytes();
    let end: usize = if bytes.len() > MAX_ERROR_BYTES {
        MAX_ERROR_BYTES
    } else {
        bytes.len()
    };
    let payload = copy_range(bytes, 0, end);
    proof {
        assert(payload@ =~= error_payload(message@));
    }
    response_frame(header, status, payload)
}

/// A response for a failure of the store.
pub fn store_error_frame(header: NativeFrameHeader, bad_request: bool, message: &str) -> (frame:
    NativeFrame)
    ensures
        responds(
            frame,
            header,
            if bad_request {
                NativeStatus::BadRequest
            } else {
                NativeStatus::Internal
            },
            error_payload(message@),
        ),
{
    let status = if bad_request {
        NativeStatus::BadRequest
    } else {
        NativeStatus::Internal
    };
    error_frame(header, status, message)
}

/// Decides what to do about a received frame.
pub fn dispatch(header: NativeFrameHeader, payload: Vec<u8>) -> (action: NativeAction)
    requires
        payload@.len() <= MAX_NATIVE_FRAME_BYTES,
    ensures
        if header.is_response || header.status != NativeStatus::Success {
            action matches NativeAction::Reply(frame) && responds(
                frame,
                header,
                NativeStatus::BadRequest,
                error_payload("clients must send request frames with status OK"@),
            )
        } else {
            match header.opcode {
                NativeOpcode::Ping => action matches NativeAction::Reply(frame) && responds(
                    frame,
                    header,
                    NativeStatus::Success,
                    payload@,
                ),
                NativeOpcode::Append => action matches NativeAction::Append(batch) && batch@
                    == payload@,
                NativeOpcode::Authenticate => action matches NativeAction::Authenticate(credential)
                    && credential@ == payload@,
                NativeOpcode::Query => match parse_query(payload@) {
                    Ok(model) => action matches NativeAction::Query(query) && query@ == model,
                    Err(error) => action matches NativeAction::Reply(frame) && responds(
                        frame,
                        header,
                        NativeStatus::BadRequest,
                        error_payload(error.text()),
                    ),
                },
            }
        },
{
    if header.is_response || header.status != NativeStatus::Success {
        return NativeAction::Reply(
            error_frame(
                header,
                NativeStatus::BadRequest,
                "clients must send request frames with status OK",
            ),
        );
    }
    match header.opcode {
        NativeOpcode::Ping => NativeAction::Reply(ok_frame(header, payload)),
        NativeOpcode::Append => NativeAction::Append(payload),
        NativeOpcode::Authenticate => NativeAction::Authenticate(payload),
        NativeOpcode::Query => match decode_native_query(&payload) {
            Ok(query) => NativeAction::Query(query),
            Err(error) => NativeAction::Reply(
                error_frame(header, NativeStatus::BadRequest, &error.message()),
            ),
        },
    }
}

/// Answers an append with its coordinates.
pub fn append_reply(header: NativeFrameHeader, ack: NativeAppendAck) -> (frame: NativeFrame)
    ensures
        responds(frame, header, NativeStatus::Success, ack.wire()),
{
    let bytes = ack.encode();
    let payload = copy_range(&bytes, 0, 24);
    proof {
        crate::native_frame::ack_round_trip(ack);
        assert(payload@ =~= ack.wire());
    }
    ok_frame(header, payload)
}

/// Answers a query with its entries.
pub fn query_reply(header: NativeFrameHeader, tenant: &str, entries: Vec<LokiEntry>) -> (frame:
    NativeFrame)
    ensures
        match encode_error(tenant@, entries_view(entries@)) {
            None => responds(
                frame,
                header,
                NativeStatus::Success,
                encoded_batch(tenant@, entries_view(entries@)),
            ),
            Some(error) => responds(
                frame,
                header,
                NativeStatus::Internal,
                error_payload(error.text()),
            ),
        },
{
    match encode_native_log_batch(tenant, entries) {
        Ok(encoded) => ok_frame(header, encoded),
        Err(error) => error_frame(header, NativeStatus::Internal, &error.message()),
    }
}

} // verus!
