//! Prometheus Remote Write: admission, negotiation and the reply.
use vstd::prelude::*;

use crate::codec::{decimal_string, decimal_text, same_text};
use crate::loki_entries::{snappy_decode, snappy_decompressed};
use crate::loki_gate::begins_with;
use crate::loki_read::optional_text;
use crate::production::{acquired, ProductionRuntime, ServiceState};
use crate::text::{ascii_lowered, chars_of, holds_part, lower_ascii, text_of};

verus! {

broadcast use vstd::seq_lib::group_seq_properties;

/// Largest request that a configuration may allow.
pub const MAX_REQUEST_BYTES: usize = 67_108_864;

/// Limits of the Prometheus boundary.
#[derive(Debug, PartialEq, Eq)]
pub struct PrometheusApiConfig {
    /// Tenant of every series.
    pub tenant: String,
    /// Most compressed and decompressed bytes of a request.
    pub max_request_bytes: usize,
    /// Stable logical metric partitions, at least one.
    pub logical_partitions: u16,
}

impl Default for PrometheusApiConfig {
    fn default() -> (config: Self)
        ensures
            config.tenant@ == "default"@,
            config.max_request_bytes == MAX_REQUEST_BYTES,
            config.logical_partitions == 256,
    {
        PrometheusApiConfig {
            tenant: "default".to_owned(),
            max_request_bytes: MAX_REQUEST_BYTES,
            logical_partitions: 256,
        }
    }
}

impl PrometheusApiConfig {
    /// What is wrong with the configuration, if anything.
    pub open spec fn fault(self) -> Option<Seq<char>> {
        if self.tenant@.len() == 0 {
            Some("Prometheus tenant must not be empty"@)
        } else if self.max_request_bytes == 0 || self.max_request_bytes > MAX_REQUEST_BYTES {
            Some("Prometheus request limit must be in 1..=64 MiB"@)
        } else {
            None
        }
    }

    /// Tests the configuration.
    pub fn validate(&self) -> (result: Result<(), &'static str>)
        ensures
            match (result, self.fault()) {
                (Ok(_), None) => true,
                (Err(message), Some(text)) => message@ == text,
                _ => false,
            },
    {
        if chars_of(&self.tenant).len() == 0 {
            return Err("Prometheus tenant must not be empty");
        }
        if self.max_request_bytes == 0 || self.max_request_bytes > MAX_REQUEST_BYTES {
            return Err("Prometheus request limit must be in 1..=64 MiB");
        }
        Ok(())
    }
}

/// Response status of a refused write.
#[derive(Debug, Clone, Copy, PartialEq, Eq, Structural)]
pub enum WriteStatus {
    /// The request is wrong.
    BadRequest,
    /// The credential is missing or wrong.
    Unauthorized,
    /// The tenant is another one.
    Forbidden,
    /// The request is too large.
    PayloadTooLarge,
    /// The encoding or type is not supported.
    UnsupportedMediaType,
    /// A limit is reached.
    TooManyRequests,
    /// The service is not available now.
    Unavailable,
}

impl WriteStatus {
    /// HTTP status code.
    pub open spec fn number(self) -> u16 {
        match self {
            WriteStatus::BadRequest => 400,
            WriteStatus::Unauthorized => 401,
            WriteStatus::Forbidden => 403,
            WriteStatus::PayloadTooLarge => 413,
            WriteStatus::UnsupportedMediaType => 415,
            WriteStatus::TooManyRequests => 429,
            WriteStatus::Unavailable => 503,
        }
    }

    /// HTTP status code.
    pub fn code(self) -> (code: u16)
        ensures
            code == self.number(),
    {
        match self {
            WriteStatus::BadRequest => 400,
            WriteStatus::Unauthorized => 401,
            WriteStatus::Forbidden => 403,
            WriteStatus::PayloadTooLarge => 413,
            WriteStatus::UnsupportedMediaType => 415,
            WriteStatus::TooManyRequests => 429,
            WriteStatus::Unavailable => 503,
        }
    }
}

/// Value of a refused write.
#[verifier::ext_equal]
pub struct WriteFault {
    /// Response status.
    pub status: WriteStatus,
    /// Message for the client.
    pub message: Seq<char>,
}

/// Refused write.
#[derive(Debug, PartialEq, Eq)]
pub struct WriteError {
    /// Response status.
    pub status: WriteStatus,
    /// Message for the client.
    pub message: String,
}

impl View for WriteError {
    type V = WriteFault;

    open spec fn view(&self) -> WriteFault {
        WriteFault { status: self.status, message: self.message@ }
    }
}

fn refuse(status: WriteStatus, message: &str) -> (error: WriteError)
    ensures
        error@ == (WriteFault { status, message: message@ }),
{
    WriteError { status, message: message.to_owned() }
}

/// Whether a request goes on, and the runtime after it.
pub open spec fn write_admission(
    runtime: ProductionRuntime,
    bearer: Option<Seq<char>>,
) -> (Option<WriteFault>, ProductionRuntime) {
    if !(bearer is Some && runtime.config.accepts_token(bearer->0)) {
        (
            Some(
                WriteFault {
                    status: WriteStatus::Unauthorized,
                    message: "valid production bearer token is required"@,
                },
            ),
            runtime.failing_authentication(),
        )
    } else if runtime.http.in_flight >= runtime.config.max_http_in_flight {
        (
            Some(
                WriteFault {
                    status: WriteStatus::TooManyRequests,
                    message: "HTTP concurrency limit exceeded"@,
                },
            ),
            runtime.rejecting(),
        )
    } else {
        (None, crate::loki_gate::serving(runtime))
    }
}

/// What is wrong with the tenant header of a request.
pub open spec fn scope_fault(tenant: Seq<char>, scope: Option<Seq<char>>) -> Option<WriteFault> {
    if scope is Some && scope->0 != tenant {
        Some(
            WriteFault {
                status: WriteStatus::Forbidden,
                message: "tenant header does not match the configured tenant"@,
            },
        )
    } else {
        None
    }
}

/// Tests the tenant header of a request.
pub fn check_scope(config: &PrometheusApiConfig, scope: &Option<String>) -> (result: Result<
    (),
    WriteError,
>)
    ensures
        match (result, scope_fault(config.tenant@, optional_text(*scope))) {
            (Ok(_), None) => true,
            (Err(error), Some(fault)) => error@ == fault,
            _ => false,
        },
{
    match scope {
        Some(tenant) => {
            if !same_text(tenant, &config.tenant) {
                return Err(
                    refuse(
                        WriteStatus::Forbidden,
                        "tenant header does not match the configured tenant",
                    ),
                );
            }
        },
        None => {},
    }
    Ok(())
}

/// Authenticates a request and reserves an HTTP permit for it.
pub fn authorize(runtime: &mut ProductionRuntime, bearer: &Option<String>) -> (result: Result<
    (),
    WriteError,
>)
    requires
        old(runtime).well_formed(),
    ensures
        final(runtime).well_formed(),
        ({
            let (fault, after) = write_admission(*old(runtime), optional_text(*bearer));
            &&& *final(runtime) == after
            &&& match (result, fault) {
                (Ok(_), None) => true,
                (Err(error), Some(fault)) => error@ == fault,
                _ => false,
            }
        }),
{
    let authenticated = match bearer {
        Some(credential) => runtime.authenticates(credential),
        None => {
            runtime.record_authentication_failure();
            false
        },
    };
    if !authenticated {
        return Err(
            refuse(WriteStatus::Unauthorized, "valid production bearer token is required"),
        );
    }
    if runtime.try_http() {
        Ok(())
    } else {
        Err(refuse(WriteStatus::TooManyRequests, "HTTP concurrency limit exceeded"))
    }
}

/// Schema of a Remote Write request.
#[derive(Debug, Clone, Copy, PartialEq, Eq, Structural)]
pub enum RemoteWriteVersion {
    /// First schema.
    V1,
    /// Second schema.
    V2,
}

/// Whether a version header names a schema.
pub open spec fn version_agrees(observed: Seq<char>, version: RemoteWriteVersion) -> bool {
    match version {
        RemoteWriteVersion::V1 => observed == "0.1.0"@ || begins_with(observed, "1."@),
        RemoteWriteVersion::V2 => begins_with(observed, "2."@),
    }
}

/// What is wrong with a version header.
pub open spec fn version_fault(
    observed: Option<Seq<char>>,
    version: RemoteWriteVersion,
) -> Option<WriteFault> {
    match observed {
        None => Some(
            WriteFault {
                status: WriteStatus::BadRequest,
                message: "missing X-Prometheus-Remote-Write-Version"@,
            },
        ),
        Some(text) => if version_agrees(text, version) {
            None
        } else {
            Some(
                WriteFault {
                    status: WriteStatus::BadRequest,
                    message: "Remote Write version header conflicts with Content-Type"@,
                },
            )
        },
    }
}

/// Tests a version header against the schema of the content type.
pub fn validate_version_header(observed: &Option<String>, version: RemoteWriteVersion) -> (result:
    Result<(), WriteError>)
    ensures
        match (result, version_fault(optional_text(*observed), version)) {
            (Ok(_), None) => true,
            (Err(error), Some(fault)) => error@ == fault,
            _ => false,
        },
{
    let text = match observed {
        Some(text) => text,
        None => return Err(
            refuse(WriteStatus::BadRequest, "missing X-Prometheus-Remote-Write-Version"),
        ),
    };
    let characters = chars_of(text);
    let agrees = match version {
        RemoteWriteVersion::V1 => same_text(text, "0.1.0") || holds_part(
            &characters,
            0,
            &chars_of("1."),
        ),
        RemoteWriteVersion::V2 => holds_part(&characters, 0, &chars_of("2.")),
    };
    if agrees {
        Ok(())
    } else {
        Err(
            refuse(
                WriteStatus::BadRequest,
                "Remote Write version header conflicts with Content-Type",
            ),
        )
    }
}

/// Headers of a write: encoding, type, and version; with the schema of the type or what
/// is wrong with it.
#[derive(Debug, PartialEq, Eq)]
pub struct WriteHeaders {
    /// Content encoding.
    pub content_encoding: Option<String>,
    /// Schema of the content type, where there is one.
    pub schema: Option<Result<RemoteWriteVersion, String>>,
    /// Version header.
    pub version: Option<String>,
}

/// Value of the schema of a content type.
pub open spec fn schema_view(schema: Option<Result<RemoteWriteVersion, String>>) -> Option<
    Result<RemoteWriteVersion, Seq<char>>,
> {
    match schema {
        None => None,
        Some(Ok(version)) => Some(Ok(version)),
        Some(Err(message)) => Some(Err(message@)),
    }
}

/// Whether an encoding is Snappy, in any case.
pub open spec fn is_snappy(encoding: Option<Seq<char>>) -> bool {
    match encoding {
        Some(value) => ascii_lowered(value) == "snappy"@,
        None => false,
    }
}

/// The schema of a write, or why it is refused.
pub open spec fn negotiated(
    largest: usize,
    body_bytes: usize,
    encoding: Option<Seq<char>>,
    schema: Option<Result<RemoteWriteVersion, Seq<char>>>,
    version: Option<Seq<char>>,
) -> Result<RemoteWriteVersion, WriteFault> {
    if body_bytes > largest {
        Err(
            WriteFault {
                status: WriteStatus::PayloadTooLarge,
                message: "Remote Write body is too large"@,
            },
        )
    } else if !is_snappy(encoding) {
        Err(
            WriteFault {
                status: WriteStatus::UnsupportedMediaType,
                message: "Remote Write requires Content-Encoding: snappy"@,
            },
        )
    } else {
        match schema {
            None => Err(
                WriteFault {
                    status: WriteStatus::UnsupportedMediaType,
                    message: "Remote Write requires a protobuf Content-Type"@,
                },
            ),
            Some(Err(message)) => Err(
                WriteFault { status: WriteStatus::UnsupportedMediaType, message },
            ),
            Some(Ok(schema)) => match version_fault(version, schema) {
                Some(fault) => Err(fault),
                None => Ok(schema),
            },
        }
    }
}

/// Negotiates the schema of a write.
pub fn negotiate_write(config: &PrometheusApiConfig, body_bytes: usize, headers: &WriteHeaders) -> (
    result: Result<RemoteWriteVersion, WriteError>)
    ensures
        match (
            result,
            negotiated(
                config.max_request_bytes,
                body_bytes,
                optional_text(headers.content_encoding),
                schema_view(headers.schema),
                optional_text(headers.version),
            ),
        ) {
            (Ok(version), Ok(model)) => version == model,
            (Err(error), Err(fault)) => error@ == fault,
            _ => false,
        },
{
    if body_bytes > config.max_request_bytes {
        return Err(refuse(WriteStatus::PayloadTooLarge, "Remote Write body is too large"));
    }
    let snappy = match &headers.content_encoding {
        Some(value) => same_text(&text_of(&lower_ascii(&chars_of(value))), "snappy"),
        None => false,
    };
    if !snappy {
        return Err(
            refuse(
                WriteStatus::UnsupportedMediaType,
                "Remote Write requires Content-Encoding: snappy",
            ),
        );
    }
    let version = match &headers.schema {
        None => return Err(
            refuse(
                WriteStatus::UnsupportedMediaType,
                "Remote Write requires a protobuf Content-Type",
            ),
        ),
        Some(Err(message)) => return Err(refuse(WriteStatus::UnsupportedMediaType, message)),
        Some(Ok(version)) => *version,
    };
    match validate_version_header(&headers.version, version) {
        Ok(_) => Ok(version),
        Err(error) => Err(error),
    }
}

/// Length that a Snappy block decompresses to, or what is wrong with its header.
pub uninterp spec fn snappy_length(block: Seq<u8>) -> Result<usize, Seq<char>>;

/// Reads the decompressed length of a Snappy block.
///
/// Calls `snap::raw::decompress_len`, whose result and error message depend on the
/// block alone.
#[verifier::external_body]
fn snappy_decompressed_length(block: &[u8]) -> (result: Result<usize, String>)
    ensures
        match result {
            Ok(length) => snappy_length(block@) == Ok::<_, Seq<char>>(length),
            Err(message) => snappy_length(block@) == Err::<usize, _>(message@),
        },
{
    snap::raw::decompress_len(block).map_err(|error| error.to_string())
}

/// The payload of a write, given what is known of its Snappy block.
pub open spec fn write_payload_of(
    largest: usize,
    length: Result<usize, Seq<char>>,
    bytes: Result<Seq<u8>, Seq<char>>,
) -> Result<Seq<u8>, WriteFault> {
    match length {
        Err(message) => Err(WriteFault { status: WriteStatus::BadRequest, message }),
        Ok(length) => if length > largest {
            Err(
                WriteFault {
                    status: WriteStatus::PayloadTooLarge,
                    message: "Remote Write Snappy payload expands beyond 64 MiB"@,
                },
            )
        } else {
            match bytes {
                Ok(bytes) => Ok(bytes),
                Err(message) => Err(WriteFault { status: WriteStatus::BadRequest, message }),
            }
        },
    }
}

/// Tests the decompressed length of a write.
pub fn check_write_length(config: &PrometheusApiConfig, length: Result<usize, String>) -> (result:
    Result<usize, WriteError>)
    ensures
        match (result, length) {
            (Ok(bytes), Ok(length)) => bytes == length && length <= config.max_request_bytes,
            (Err(error), Ok(length)) => length > config.max_request_bytes && error@ == (WriteFault {
                status: WriteStatus::PayloadTooLarge,
                message: "Remote Write Snappy payload expands beyond 64 MiB"@,
            }),
            (Err(error), Err(message)) => error@ == (WriteFault {
                status: WriteStatus::BadRequest,
                message: message@,
            }),
            _ => false,
        },
{
    match length {
        Ok(length) => if length <= config.max_request_bytes {
            Ok(length)
        } else {
            Err(
                refuse(
                    WriteStatus::PayloadTooLarge,
                    "Remote Write Snappy payload expands beyond 64 MiB",
                ),
            )
        },
        Err(message) => Err(WriteError { status: WriteStatus::BadRequest, message }),
    }
}

/// Decompresses the body of a write.
pub fn decompress_write(config: &PrometheusApiConfig, body: &[u8]) -> (result: Result<
    Vec<u8>,
    WriteError,
>)
    ensures
        match (
            result,
            write_payload_of(
                config.max_request_bytes,
                snappy_length(body@),
                snappy_decompressed(body@),
            ),
        ) {
            (Ok(bytes), Ok(model)) => bytes@ == model,
            (Err(error), Err(fault)) => error@ == fault,
            _ => false,
        },
{
    match check_write_length(config, snappy_decompressed_length(body)) {
        Ok(_) => {},
        Err(error) => return Err(error),
    }
    match snappy_decode(body) {
        Ok(bytes) => Ok(bytes),
        Err(message) => Err(WriteError { status: WriteStatus::BadRequest, message }),
    }
}

/// Reserves the ingestion of a write.
pub fn write_permit(runtime: &mut ProductionRuntime, bytes: usize, elapsed_nanos: u128) -> (result:
    Result<(), WriteError>)
    requires
        old(runtime).well_formed(),
    ensures
        final(runtime).well_formed(),
        ({
            let (rate, allowed) = acquired(old(runtime).rate, bytes as nat, elapsed_nanos);
            let before = *old(runtime);
            match result {
                Ok(_) => {
                    &&& before.lifecycle.state == ServiceState::Ready
                    &&& allowed
                    &&& before.ingest.in_flight < before.config.max_ingest_in_flight
                    &&& *final(runtime) == (ProductionRuntime {
                        rate,
                        ingest: before.ingest.entered(),
                        ..before
                    })
                },
                Err(error) => if before.lifecycle.state == ServiceState::Ready {
                    &&& !allowed || before.ingest.in_flight >= before.config.max_ingest_in_flight
                    &&& error@ == (WriteFault {
                        status: WriteStatus::TooManyRequests,
                        message: "Remote Write concurrency or rate limit exceeded"@,
                    })
                    &&& *final(runtime) == (ProductionRuntime { rate, ..before.rejecting() })
                } else {
                    &&& error@ == (WriteFault {
                        status: WriteStatus::Unavailable,
                        message: "Remote Write ingestion is unavailable"@,
                    })
                    &&& *final(runtime) == before.rejecting()
                },
            }
        }),
{
    if runtime.try_ingest(bytes, elapsed_nanos) {
        return Ok(());
    }
    if runtime.lifecycle.state() == ServiceState::Ready {
        Err(
            refuse(
                WriteStatus::TooManyRequests,
                "Remote Write concurrency or rate limit exceeded",
            ),
        )
    } else {
        Err(refuse(WriteStatus::Unavailable, "Remote Write ingestion is unavailable"))
    }
}

/// What a write held.
#[derive(Debug, Clone, Copy, PartialEq, Eq, Structural)]
pub struct RemoteWriteStats {
    /// Samples.
    pub samples: u64,
    /// Histograms.
    pub histograms: u64,
    /// Exemplars.
    pub exemplars: u64,
}

impl RemoteWriteStats {
    /// Records of a write: samples and histograms, up to the largest number.
    pub open spec fn all_records(self) -> u64 {
        if self.samples + self.histograms > u64::MAX {
            u64::MAX
        } else {
            (self.samples + self.histograms) as u64
        }
    }

    /// Records of a write: samples and histograms, up to the largest number.
    pub fn records(self) -> (records: u64)
        ensures
            records == self.all_records(),
    {
        self.samples.saturating_add(self.histograms)
    }
}

/// Values of headers.
pub open spec fn headers_view(headers: Seq<(&'static str, String)>) -> Seq<
    (Seq<char>, Seq<char>),
> {
    headers.map_values(|header: (&'static str, String)| (header.0@, header.1@))
}

/// Headers of the reply to a write: how much of each kind was written.
pub fn written_headers(stats: RemoteWriteStats) -> (headers: Vec<(&'static str, String)>)
    ensures
        headers_view(headers@) == seq![
            (
                "x-prometheus-remote-write-samples-written"@,
                decimal_text(stats.samples as nat),
            ),
            (
                "x-prometheus-remote-write-histograms-written"@,
                decimal_text(stats.histograms as nat),
            ),
            (
                "x-prometheus-remote-write-exemplars-written"@,
                decimal_text(stats.exemplars as nat),
            ),
        ],
{
    let mut headers: Vec<(&'static str, String)> = Vec::new();
    headers.push(
        (
            "x-prometheus-remote-write-samples-written",
            decimal_string(stats.samples as u128),
        ),
    );
    headers.push(
        (
            "x-prometheus-remote-write-histograms-written",
            decimal_string(stats.histograms as u128),
        ),
    );
    headers.push(
        (
            "x-prometheus-remote-write-exemplars-written",
            decimal_string(stats.exemplars as u128),
        ),
    );
    proof {
        assert(headers_view(headers@) =~= seq![
            (
                "x-prometheus-remote-write-samples-written"@,
                decimal_text(stats.samples as nat),
            ),
            (
                "x-prometheus-remote-write-histograms-written"@,
                decimal_text(stats.histograms as nat),
            ),
            (
                "x-prometheus-remote-write-exemplars-written"@,
                decimal_text(stats.exemplars as nat),
            ),
        ]);
    }
    headers
}

} // verus!
