//! Failures at the HTTP boundary.
use vstd::prelude::*;

verus! {

/// Response status of a failure.
#[derive(Debug, Clone, Copy, PartialEq, Eq, Structural)]
pub enum ApiStatus {
    /// The request is wrong.
    BadRequest,
    /// The credential is missing or wrong.
    Unauthorized,
    /// The credential does not allow the request.
    Forbidden,
    /// There is no such resource.
    NotFound,
    /// A limit is reached.
    TooManyRequests,
    /// The service failed.
    Internal,
    /// The service is not available now.
    Unavailable,
    /// The request took too long.
    Timeout,
}

impl ApiStatus {
    /// HTTP status code.
    pub open spec fn number(self) -> u16 {
        match self {
            ApiStatus::BadRequest => 400,
            ApiStatus::Unauthorized => 401,
            ApiStatus::Forbidden => 403,
            ApiStatus::NotFound => 404,
            ApiStatus::TooManyRequests => 429,
            ApiStatus::Internal => 500,
            ApiStatus::Unavailable => 503,
            ApiStatus::Timeout => 504,
        }
    }

    /// HTTP status code.
    pub fn code(self) -> (code: u16)
        ensures
            code == self.number(),
    {
        match self {
            ApiStatus::BadRequest => 400,
            ApiStatus::Unauthorized => 401,
            ApiStatus::Forbidden => 403,
            ApiStatus::NotFound => 404,
            ApiStatus::TooManyRequests => 429,
            ApiStatus::Internal => 500,
            ApiStatus::Unavailable => 503,
            ApiStatus::Timeout => 504,
        }
    }

    /// Stable error type of a response body.
    pub open spec fn type_text(self) -> Seq<char> {
        match self {
            ApiStatus::BadRequest => "bad_data"@,
            ApiStatus::Unauthorized => "unauthorized"@,
            ApiStatus::Forbidden => "forbidden"@,
            ApiStatus::TooManyRequests => "rate_limited"@,
            ApiStatus::Unavailable => "unavailable"@,
            ApiStatus::Timeout => "timeout"@,
            _ => "internal"@,
        }
    }

    /// Stable error type of a response body.
    pub fn error_type(self) -> (name: &'static str)
        ensures
            name@ == self.type_text(),
    {
        match self {
            ApiStatus::BadRequest => "bad_data",
            ApiStatus::Unauthorized => "unauthorized",
            ApiStatus::Forbidden => "forbidden",
            ApiStatus::TooManyRequests => "rate_limited",
            ApiStatus::Unavailable => "unavailable",
            ApiStatus::Timeout => "timeout",
            _ => "internal",
        }
    }
}

/// HTTP-boundary failure with a stable response status and safe message.
#[derive(Debug, PartialEq, Eq)]
pub struct LokiApiError {
    /// Response status.
    pub status: ApiStatus,
    /// Message for the client.
    pub message: String,
}

/// Value of a failure.
#[verifier::ext_equal]
pub struct ApiFault {
    /// Response status.
    pub status: ApiStatus,
    /// Message for the client.
    pub message: Seq<char>,
}

impl View for LokiApiError {
    type V = ApiFault;

    open spec fn view(&self) -> ApiFault {
        ApiFault { status: self.status, message: self.message@ }
    }
}

/// A refused request.
pub open spec fn bad(message: Seq<char>) -> ApiFault {
    ApiFault { status: ApiStatus::BadRequest, message }
}

/// Whether a result is the one that a specification gives, with values compared by
/// their models.
pub open spec fn same_outcome<T: View>(
    result: Result<T, LokiApiError>,
    wanted: Result<T::V, ApiFault>,
) -> bool {
    match (result, wanted) {
        (Ok(value), Ok(model)) => value@ == model,
        (Err(error), Err(fault)) => error@ == fault,
        _ => false,
    }
}

/// Whether a result is the one that a specification gives.
pub open spec fn plain_outcome<T>(
    result: Result<T, LokiApiError>,
    wanted: Result<T, ApiFault>,
) -> bool {
    match (result, wanted) {
        (Ok(value), Ok(model)) => value == model,
        (Err(error), Err(fault)) => error@ == fault,
        _ => false,
    }
}

impl LokiApiError {
    /// A failure with a status and message.
    pub fn new(status: ApiStatus, message: &str) -> (error: Self)
        ensures
            error@ == (ApiFault { status, message: message@ }),
    {
        LokiApiError { status, message: message.to_owned() }
    }

    /// A refused request.
    pub fn bad_request(message: &str) -> (error: Self)
        ensures
            error@ == bad(message@),
    {
        LokiApiError::new(ApiStatus::BadRequest, message)
    }

    /// A failure of the service.
    pub fn internal(message: &str) -> (error: Self)
        ensures
            error@ == (ApiFault { status: ApiStatus::Internal, message: message@ }),
    {
        LokiApiError::new(ApiStatus::Internal, message)
    }

    /// Creates a retryable storage or control-plane availability error.
    pub fn backend_unavailable(message: &str) -> (error: Self)
        ensures
            error@ == (ApiFault { status: ApiStatus::Unavailable, message: message@ }),
    {
        LokiApiError::new(ApiStatus::Unavailable, message)
    }

    /// Response status.
    pub fn status(&self) -> (status: ApiStatus)
        ensures
            status == self.status,
    {
        self.status
    }

    /// Whether the request is at fault.
    pub fn is_bad_request(&self) -> (bad: bool)
        ensures
            bad == (self.status == ApiStatus::BadRequest),
    {
        self.status == ApiStatus::BadRequest
    }
}

} // verus!
