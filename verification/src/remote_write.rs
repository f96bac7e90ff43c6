//! The steps of a Remote Write request, in their order.
use vstd::prelude::*;

use crate::loki_entries::snappy_decompressed;
use crate::loki_read::optional_text;
use crate::production::{acquired, ProductionMetricsSnapshot, ProductionRuntime, ServiceState};
use crate::prometheus::{
    authorize, check_scope, decompress_write, negotiate_write, negotiated, schema_view,
    scope_fault, snappy_length, write_admission, write_payload_of, write_permit,
    PrometheusApiConfig, RemoteWriteStats, RemoteWriteVersion, WriteError, WriteFault,
    WriteHeaders, WriteStatus,
};

verus! {

broadcast use vstd::seq_lib::group_seq_properties;

/// How far a write has come.
#[derive(Debug, Clone, Copy, PartialEq, Eq, Structural)]
pub enum WriteStage {
    /// Nothing was done yet.
    Received,
    /// The payload awaits its decoder.
    Decoding {
        /// Bytes of the payload.
        payload_bytes: usize,
    },
    /// The decoded batch awaits its append.
    Appending {
        /// Bytes of the payload.
        payload_bytes: usize,
        /// What the batch holds.
        stats: RemoteWriteStats,
    },
    /// The write was answered.
    Answered,
}

/// A request to write.
#[derive(Debug, PartialEq, Eq)]
pub struct WriteRequest {
    /// Tenant header.
    pub scope: Option<String>,
    /// Bearer token.
    pub bearer: Option<String>,
    /// Headers of the content.
    pub headers: WriteHeaders,
    /// Compressed body.
    pub body: Vec<u8>,
}

/// What is done next with a decoded batch.
#[derive(Debug, Clone, Copy, PartialEq, Eq, Structural)]
pub enum WriteNext {
    /// Append the batch.
    Append,
    /// Answer with success: the batch is empty.
    Answer,
}

/// The payload of a request with its schema, or why the request is refused, and the runtime
/// after it. The tests come in this order: tenant, credential, permit, size, encoding, type,
/// version, decompressed length, decompression.
pub open spec fn received(
    tenant: Seq<char>,
    largest: usize,
    runtime: Option<ProductionRuntime>,
    scope: Option<Seq<char>>,
    bearer: Option<Seq<char>>,
    schema: Result<RemoteWriteVersion, WriteFault>,
    payload: Result<Seq<u8>, WriteFault>,
) -> (Result<(RemoteWriteVersion, Seq<u8>), WriteFault>, Option<ProductionRuntime>) {
    let content = match schema {
        Err(fault) => Err(fault),
        Ok(version) => match payload {
            Err(fault) => Err(fault),
            Ok(bytes) => Ok((version, bytes)),
        },
    };
    match (scope_fault(tenant, scope), runtime) {
        (Some(fault), _) => (Err(fault), runtime),
        (None, None) => (content, None),
        (None, Some(before)) => match write_admission(before, bearer) {
            (Some(fault), after) => (Err(fault), Some(after)),
            (None, after) => (content, Some(after)),
        },
    }
}

/// Why a batch is not appended, if it is not, and the runtime after that.
pub open spec fn reserved(runtime: ProductionRuntime, bytes: usize, elapsed_nanos: u128) -> (
    Option<WriteFault>,
    ProductionRuntime,
) {
    let (rate, allowed) = acquired(runtime.rate, bytes as nat, elapsed_nanos);
    if runtime.lifecycle.state != ServiceState::Ready {
        (
            Some(
                WriteFault {
                    status: WriteStatus::Unavailable,
                    message: "Remote Write ingestion is unavailable"@,
                },
            ),
            runtime.rejecting(),
        )
    } else if !allowed || runtime.ingest.in_flight >= runtime.config.max_ingest_in_flight {
        (
            Some(
                WriteFault {
                    status: WriteStatus::TooManyRequests,
                    message: "Remote Write concurrency or rate limit exceeded"@,
                },
            ),
            ProductionRuntime { rate, ..runtime.rejecting() },
        )
    } else {
        (None, ProductionRuntime { rate, ingest: runtime.ingest.entered(), ..runtime })
    }
}

/// What becomes of a decoded batch, and the runtime after it: an empty batch is answered
/// before a permit is asked for.
pub open spec fn decoded(
    runtime: Option<ProductionRuntime>,
    partitions: usize,
    bytes: usize,
    elapsed_nanos: u128,
) -> (Result<WriteNext, WriteFault>, Option<ProductionRuntime>) {
    if partitions == 0 {
        (Ok(WriteNext::Answer), runtime)
    } else {
        match runtime {
            None => (Ok(WriteNext::Append), None),
            Some(before) => match reserved(before, bytes, elapsed_nanos) {
                (Some(fault), after) => (Err(fault), Some(after)),
                (None, after) => (Ok(WriteNext::Append), Some(after)),
            },
        }
    }
}

/// The runtime with a write counted.
pub open spec fn counted_write(
    runtime: ProductionRuntime,
    bytes: usize,
    records: u64,
) -> ProductionRuntime {
    ProductionRuntime {
        metrics: ProductionMetricsSnapshot {
            ingest_requests: runtime.metrics.ingest_requests.wrapping_add(1),
            ingest_bytes: runtime.metrics.ingest_bytes.wrapping_add(bytes as u64),
            ingest_records: runtime.metrics.ingest_records.wrapping_add(records),
            ..runtime.metrics
        },
        ..runtime
    }
}

/// A Remote Write request on its way.
#[derive(Debug, PartialEq, Eq)]
pub struct RemoteWrite {
    /// How far it has come.
    pub stage: WriteStage,
    /// Whether it holds an HTTP permit.
    pub admitted: bool,
    /// Whether it holds an ingest permit.
    pub reserved: bool,
}

impl RemoteWrite {
    /// A request that nothing was done with yet.
    pub fn new() -> (write: Self)
        ensures
            write == (RemoteWrite {
                stage: WriteStage::Received,
                admitted: false,
                reserved: false,
            }),
    {
        RemoteWrite { stage: WriteStage::Received, admitted: false, reserved: false }
    }

    /// Takes in the request: gives the payload for its decoder, or refuses.
    pub fn receive(
        &mut self,
        config: &PrometheusApiConfig,
        runtime: Option<&mut ProductionRuntime>,
        request: &WriteRequest,
    ) -> (result: Result<(RemoteWriteVersion, Vec<u8>), WriteError>)
        requires
            old(self).stage == WriteStage::Received,
            !old(self).admitted,
            !old(self).reserved,
            runtime matches Some(held) ==> held.well_formed(),
        ensures
            ({
                let before = match runtime {
                    Some(held) => Some(*held),
                    None => None,
                };
                let (outcome, after) = received(
                    config.tenant@,
                    config.max_request_bytes,
                    before,
                    optional_text(request.scope),
                    optional_text(request.bearer),
                    negotiated(
                        config.max_request_bytes,
                        request.body@.len() as usize,
                        optional_text(request.headers.content_encoding),
                        schema_view(request.headers.schema),
                        optional_text(request.headers.version),
                    ),
                    write_payload_of(
                        config.max_request_bytes,
                        snappy_length(request.body@),
                        snappy_decompressed(request.body@),
                    ),
                );
                &&& runtime matches Some(held) ==> final(held).well_formed() && after == Some(
                    *final(held),
                )
                &&& !final(self).reserved
                &&& final(self).admitted == (before is Some && scope_fault(
                    config.tenant@,
                    optional_text(request.scope),
                ) is None && write_admission(before->0, optional_text(request.bearer)).0 is None)
                &&& match (result, outcome) {
                    (Ok((version, payload)), Ok((schema, bytes))) => {
                        &&& version == schema
                        &&& payload@ == bytes
                        &&& final(self).stage == (WriteStage::Decoding {
                            payload_bytes: payload@.len() as usize,
                        })
                    },
                    (Err(error), Err(fault)) => error@ == fault && final(self).stage
                        == WriteStage::Answered,
                    _ => false,
                }
            }),
    {
        self.stage = WriteStage::Answered;
        match check_scope(config, &request.scope) {
            Ok(_) => {},
            Err(error) => return Err(error),
        }
        match runtime {
            Some(held) => match authorize(held, &request.bearer) {
                Ok(_) => {
                    self.admitted = true;
                },
                Err(error) => return Err(error),
            },
            None => {},
        }
        let version = match negotiate_write(config, request.body.len(), &request.headers) {
            Ok(version) => version,
            Err(error) => return Err(error),
        };
        let payload = match decompress_write(config, &request.body) {
            Ok(payload) => payload,
            Err(error) => return Err(error),
        };
        self.stage = WriteStage::Decoding { payload_bytes: payload.len() };
        Ok((version, payload))
    }

    /// Takes in what the decoder made of the payload: how many partitions the batch has and
    /// what it holds, or why it was refused.
    pub fn decode(
        &mut self,
        runtime: Option<&mut ProductionRuntime>,
        batch: Result<(usize, RemoteWriteStats), String>,
        elapsed_nanos: u128,
    ) -> (result: Result<WriteNext, WriteError>)
        requires
            old(self).stage is Decoding,
            !old(self).reserved,
            runtime matches Some(held) ==> held.well_formed(),
        ensures
            ({
                let before = match runtime {
                    Some(held) => Some(*held),
                    None => None,
                };
                let bytes = old(self).stage->Decoding_payload_bytes;
                &&& final(self).admitted == old(self).admitted
                &&& final(self).reserved == (runtime is Some && result == Ok::<_, WriteError>(
                    WriteNext::Append,
                ))
                &&& match batch {
                    Err(message) => {
                        &&& result matches Err(error) && error@ == (WriteFault {
                            status: WriteStatus::BadRequest,
                            message: message@,
                        })
                        &&& final(self).stage == WriteStage::Answered
                        &&& runtime matches Some(held) ==> *final(held) == *held
                    },
                    Ok((partitions, stats)) => {
                        let (outcome, after) = decoded(before, partitions, bytes, elapsed_nanos);
                        &&& runtime matches Some(held) ==> final(held).well_formed() && after
                            == Some(*final(held))
                        &&& match (result, outcome) {
                            (Ok(next), Ok(model)) => next == model && final(self).stage == if next
                                == WriteNext::Append {
                                WriteStage::Appending { payload_bytes: bytes, stats }
                            } else {
                                WriteStage::Answered
                            },
                            (Err(error), Err(fault)) => error@ == fault && final(self).stage
                                == WriteStage::Answered,
                            _ => false,
                        }
                    },
                }
            }),
    {
        let bytes: usize = match self.stage {
            WriteStage::Decoding { payload_bytes } => payload_bytes,
            _ => 0,
        };
        self.stage = WriteStage::Answered;
        let (partitions, stats) = match batch {
            Ok(decoded) => decoded,
            Err(message) => return Err(WriteError { status: WriteStatus::BadRequest, message }),
        };
        if partitions == 0 {
            return Ok(WriteNext::Answer);
        }
        match runtime {
            Some(held) => match write_permit(held, bytes, elapsed_nanos) {
                Ok(_) => {
                    self.reserved = true;
                },
                Err(error) => return Err(error),
            },
            None => {},
        }
        self.stage = WriteStage::Appending { payload_bytes: bytes, stats };
        Ok(WriteNext::Append)
    }

    /// Takes in whether the store took the batch: counts what was written.
    pub fn append(&mut self, runtime: Option<&mut ProductionRuntime>, stored: bool) -> (result:
        Option<RemoteWriteStats>)
        requires
            old(self).stage is Appending,
        ensures
            *final(self) == (RemoteWrite { stage: WriteStage::Answered, ..*old(self) }),
            ({
                let stats = old(self).stage->Appending_stats;
                &&& result == if stored {
                    Some(stats)
                } else {
                    None
                }
                &&& runtime matches Some(held) ==> *final(held) == if stored {
                    counted_write(
                        *held,
                        old(self).stage->Appending_payload_bytes,
                        (stats.all_records() as usize) as u64,
                    )
                } else {
                    *held
                }
            }),
    {
        let (bytes, stats) = match self.stage {
            WriteStage::Appending { payload_bytes, stats } => (payload_bytes, stats),
            _ => (0, RemoteWriteStats { samples: 0, histograms: 0, exemplars: 0 }),
        };
        self.stage = WriteStage::Answered;
        if !stored {
            return None;
        }
        match runtime {
            Some(held) => held.record_ingest(bytes, machine_count(stats.records())),
            None => {},
        }
        Some(stats)
    }

    /// Gives back the permits that the write holds.
    pub fn release(self, runtime: &mut ProductionRuntime)
        requires
            old(runtime).well_formed(),
        ensures
            final(runtime).well_formed(),
            *final(runtime) == (ProductionRuntime {
                http: final(runtime).http,
                ingest: final(runtime).ingest,
                ..*old(runtime)
            }),
            final(runtime).ingest.in_flight == if self.reserved && old(runtime).ingest.in_flight
                > 0 {
                old(runtime).ingest.in_flight - 1
            } else {
                old(runtime).ingest.in_flight as int
            },
            final(runtime).http.in_flight == if self.admitted && old(runtime).http.in_flight > 0 {
                old(runtime).http.in_flight - 1
            } else {
                old(runtime).http.in_flight as int
            },
    {
        if self.reserved {
            runtime.leave_ingest();
        }
        if self.admitted {
            runtime.leave_http();
        }
    }
}

/// A count as a machine word.
#[verifier::truncate]
fn machine_count(records: u64) -> (count: usize)
    ensures
        count == records as usize,
{
    records as usize
}

} // verus!
