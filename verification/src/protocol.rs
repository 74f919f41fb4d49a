//! Protocol capability interfaces shared by detectors, decoders, replay and
//! verification.

use vstd::prelude::*;
use crate::text::str_copy;

verus! {

#[derive(Clone, Copy, Debug, PartialEq, Eq, Structural)]
pub enum CapabilityStatus {
    Available,
    Planned,
    Research,
    Unavailable,
}

#[derive(Clone, Copy, Debug, PartialEq, Eq, Structural)]
pub struct ProtocolCapabilities {
    pub detection: CapabilityStatus,
    pub decoding: CapabilityStatus,
    pub canonicalization: CapabilityStatus,
    pub replay: CapabilityStatus,
    pub verification: CapabilityStatus,
}

impl ProtocolCapabilities {
    pub fn unavailable() -> (c: Self)
        ensures
            c.detection == CapabilityStatus::Unavailable,
            c.decoding == CapabilityStatus::Unavailable,
            c.canonicalization == CapabilityStatus::Unavailable,
            c.replay == CapabilityStatus::Unavailable,
            c.verification == CapabilityStatus::Unavailable,
    {
        ProtocolCapabilities {
            detection: CapabilityStatus::Unavailable,
            decoding: CapabilityStatus::Unavailable,
            canonicalization: CapabilityStatus::Unavailable,
            replay: CapabilityStatus::Unavailable,
            verification: CapabilityStatus::Unavailable,
        }
    }

    /// Every capability planned.
    pub fn planned() -> (c: Self)
        ensures
            c.detection == CapabilityStatus::Planned,
            c.decoding == CapabilityStatus::Planned,
            c.canonicalization == CapabilityStatus::Planned,
            c.replay == CapabilityStatus::Planned,
            c.verification == CapabilityStatus::Planned,
    {
        ProtocolCapabilities {
            detection: CapabilityStatus::Planned,
            decoding: CapabilityStatus::Planned,
            canonicalization: CapabilityStatus::Planned,
            replay: CapabilityStatus::Planned,
            verification: CapabilityStatus::Planned,
        }
    }

    /// Every capability available.
    pub fn available() -> (c: Self)
        ensures
            c.detection == CapabilityStatus::Available,
            c.decoding == CapabilityStatus::Available,
            c.canonicalization == CapabilityStatus::Available,
            c.replay == CapabilityStatus::Available,
            c.verification == CapabilityStatus::Available,
    {
        ProtocolCapabilities {
            detection: CapabilityStatus::Available,
            decoding: CapabilityStatus::Available,
            canonicalization: CapabilityStatus::Available,
            replay: CapabilityStatus::Available,
            verification: CapabilityStatus::Available,
        }
    }
}

#[derive(Clone, Debug, PartialEq, Eq)]
pub enum DetectionResult {
    Confirmed { confidence: u8, evidence: String },
    Probable { confidence: u8, evidence: String },
    NeedMoreData { minimum_additional_bytes: usize },
    Rejected,
    Unknown,
}

/// The rank of a detection: confirmed above probable, then by confidence;
/// other results do not rank.
pub open spec fn detection_score(d: DetectionResult) -> Option<(u8, u8)> {
    match d {
        DetectionResult::Confirmed { confidence, .. } => Some((2u8, confidence)),
        DetectionResult::Probable { confidence, .. } => Some((1u8, confidence)),
        _ => None,
    }
}

impl DetectionResult {
    pub fn score(&self) -> (s: Option<(u8, u8)>)
        ensures
            s == detection_score(*self),
    {
        match self {
            DetectionResult::Confirmed { confidence, .. } => Some((2, *confidence)),
            DetectionResult::Probable { confidence, .. } => Some((1, *confidence)),
            _ => None,
        }
    }
}

/// Bytes that must never be rendered; only `expose` hands them out.
#[derive(Clone)]
pub struct SecretBytes(Vec<u8>);

impl SecretBytes {
    pub fn new(value: Vec<u8>) -> (s: Self)
        ensures
            s@ == value@,
    {
        SecretBytes(value)
    }

    pub fn expose(&self) -> (b: &[u8])
        ensures
            b@ == self@,
    {
        self.0.as_slice()
    }

    /// The text shown wherever the secret would be printed.
    pub fn redacted(&self) -> (s: String)
        ensures
            s@ == "<redacted>"@,
    {
        String::from_str("<redacted>")
    }
}

impl View for SecretBytes {
    type V = Seq<u8>;

    closed spec fn view(&self) -> Seq<u8> {
        self.0@
    }
}

/// Which way bytes travel on a connection.
#[derive(Clone, Copy, Debug, PartialEq, Eq, Structural)]
pub enum Direction {
    ClientToServer,
    ServerToClient,
}

#[derive(Clone, Copy, Debug, PartialEq, Eq, Structural)]
pub enum TransportErrorCategory {
    Refused,
    Timeout,
    Disconnect,
    Io,
    UnsupportedFraming,
}

#[derive(Clone, Copy, Debug, PartialEq, Eq, Structural)]
pub enum VerificationStatus {
    Passed,
    Failed,
    Skipped,
    Inconclusive,
    Unsupported,
}

/// The outcome of verifying one observed response; `details` holds
/// key/value pairs in key order.
#[derive(Clone, Debug, PartialEq, Eq)]
pub struct VerificationResult {
    pub status: VerificationStatus,
    pub summary: String,
    pub details: Vec<(String, String)>,
}

/// Errors reported by `httparse` when a head is invalid.
#[derive(Clone, Copy, Debug, PartialEq, Eq, Structural)]
pub enum HttparseError {
    HeaderName,
    HeaderValue,
    NewLine,
    Status,
    Token,
    TooManyHeaders,
    Version,
    /// A message the parser is not known to report.
    Other,
}

/// Why traffic was judged malformed.
#[derive(Clone, Copy, Debug, PartialEq, Eq, Structural)]
pub enum MalformedReason {
    Head(HttparseError),
    UnsupportedRequestVersion,
    UnsupportedResponseVersion,
    MissingMethod,
    InvalidMethod,
    ConnectTarget,
    MissingTarget,
    UnsupportedTarget,
    RequestTooLarge,
    ResponseTooLarge,
    MissingStatus,
    Informational,
    UnsupportedTransferEncoding,
    CloseDelimited,
    HeadTooLarge,
    NonAsciiHeaderName,
    UnsupportedUpgrade,
    InvalidChunkSize,
    ChunkTooLarge,
    InvalidChunkTerminator,
    DuplicateContentLength,
    InvalidContentLength,
    OverflowingContentLength,
    ReplayNotAuthorized,
    TargetNotIpLiteral,
    TargetNotLoopback,
    InvalidReplayOperation,
    PayloadNotHydrated,
    InvalidAuthorizationValue,
    MalformedResponse,
    ResponseHeadTooLarge,
}

/// The message text of a malformed-traffic reason.
pub open spec fn reason_message(r: MalformedReason) -> Seq<char> {
    match r {
        MalformedReason::Head(HttparseError::HeaderName) => "invalid header name"@,
        MalformedReason::Head(HttparseError::HeaderValue) => "invalid header value"@,
        MalformedReason::Head(HttparseError::NewLine) => "invalid new line"@,
        MalformedReason::Head(HttparseError::Status) => "invalid response status"@,
        MalformedReason::Head(HttparseError::Token) => "invalid token"@,
        MalformedReason::Head(HttparseError::TooManyHeaders) => "too many headers"@,
        MalformedReason::Head(HttparseError::Version) => "invalid HTTP version"@,
        MalformedReason::Head(HttparseError::Other) => "invalid HTTP head"@,
        MalformedReason::UnsupportedRequestVersion => "unsupported HTTP request version"@,
        MalformedReason::UnsupportedResponseVersion => "unsupported HTTP response version"@,
        MalformedReason::MissingMethod => "missing HTTP method"@,
        MalformedReason::InvalidMethod => "invalid HTTP method"@,
        MalformedReason::ConnectTarget => "unsupported CONNECT request target"@,
        MalformedReason::MissingTarget => "missing HTTP request target"@,
        MalformedReason::UnsupportedTarget => "unsupported HTTP request target"@,
        MalformedReason::RequestTooLarge => "request exceeds byte limit"@,
        MalformedReason::ResponseTooLarge => "response exceeds byte limit"@,
        MalformedReason::MissingStatus => "missing HTTP status"@,
        MalformedReason::Informational => "unsupported informational response"@,
        MalformedReason::UnsupportedTransferEncoding => "unsupported transfer encoding"@,
        MalformedReason::CloseDelimited => "unsupported close-delimited response body"@,
        MalformedReason::HeadTooLarge => "HTTP head exceeds decoder limit"@,
        MalformedReason::NonAsciiHeaderName => "HTTP header name is not ASCII"@,
        MalformedReason::UnsupportedUpgrade => "unsupported upgrade"@,
        MalformedReason::InvalidChunkSize => "invalid chunk size"@,
        MalformedReason::ChunkTooLarge => "chunk exceeds byte limit"@,
        MalformedReason::InvalidChunkTerminator => "invalid chunk terminator"@,
        MalformedReason::DuplicateContentLength => "duplicate Content-Length"@,
        MalformedReason::InvalidContentLength => "invalid Content-Length"@,
        MalformedReason::OverflowingContentLength => "overflowing Content-Length"@,
        MalformedReason::ReplayNotAuthorized => "HTTP replay execution is not authorized"@,
        MalformedReason::TargetNotIpLiteral => "HTTP replay target must be an IP literal"@,
        MalformedReason::TargetNotLoopback => "HTTP replay target must be loopback"@,
        MalformedReason::InvalidReplayOperation => "invalid HTTP replay operation"@,
        MalformedReason::PayloadNotHydrated => "HTTP request payload was not hydrated"@,
        MalformedReason::InvalidAuthorizationValue => "invalid runtime Authorization field value"@,
        MalformedReason::MalformedResponse => "malformed HTTP response"@,
        MalformedReason::ResponseHeadTooLarge => "HTTP response head exceeds limit"@,
    }
}

impl MalformedReason {
    /// The message text of this reason.
    pub fn message(&self) -> (s: &'static str)
        ensures
            s@ == reason_message(*self),
    {
        match self {
            MalformedReason::Head(HttparseError::HeaderName) => "invalid header name",
            MalformedReason::Head(HttparseError::HeaderValue) => "invalid header value",
            MalformedReason::Head(HttparseError::NewLine) => "invalid new line",
            MalformedReason::Head(HttparseError::Status) => "invalid response status",
            MalformedReason::Head(HttparseError::Token) => "invalid token",
            MalformedReason::Head(HttparseError::TooManyHeaders) => "too many headers",
            MalformedReason::Head(HttparseError::Version) => "invalid HTTP version",
            MalformedReason::Head(HttparseError::Other) => "invalid HTTP head",
            MalformedReason::UnsupportedRequestVersion => "unsupported HTTP request version",
            MalformedReason::UnsupportedResponseVersion => "unsupported HTTP response version",
            MalformedReason::MissingMethod => "missing HTTP method",
            MalformedReason::InvalidMethod => "invalid HTTP method",
            MalformedReason::ConnectTarget => "unsupported CONNECT request target",
            MalformedReason::MissingTarget => "missing HTTP request target",
            MalformedReason::UnsupportedTarget => "unsupported HTTP request target",
            MalformedReason::RequestTooLarge => "request exceeds byte limit",
            MalformedReason::ResponseTooLarge => "response exceeds byte limit",
            MalformedReason::MissingStatus => "missing HTTP status",
            MalformedReason::Informational => "unsupported informational response",
            MalformedReason::UnsupportedTransferEncoding => "unsupported transfer encoding",
            MalformedReason::CloseDelimited => "unsupported close-delimited response body",
            MalformedReason::HeadTooLarge => "HTTP head exceeds decoder limit",
            MalformedReason::NonAsciiHeaderName => "HTTP header name is not ASCII",
            MalformedReason::UnsupportedUpgrade => "unsupported upgrade",
            MalformedReason::InvalidChunkSize => "invalid chunk size",
            MalformedReason::ChunkTooLarge => "chunk exceeds byte limit",
            MalformedReason::InvalidChunkTerminator => "invalid chunk terminator",
            MalformedReason::DuplicateContentLength => "duplicate Content-Length",
            MalformedReason::InvalidContentLength => "invalid Content-Length",
            MalformedReason::OverflowingContentLength => "overflowing Content-Length",
            MalformedReason::ReplayNotAuthorized => "HTTP replay execution is not authorized",
            MalformedReason::TargetNotIpLiteral => "HTTP replay target must be an IP literal",
            MalformedReason::TargetNotLoopback => "HTTP replay target must be loopback",
            MalformedReason::InvalidReplayOperation => "invalid HTTP replay operation",
            MalformedReason::PayloadNotHydrated => "HTTP request payload was not hydrated",
            MalformedReason::InvalidAuthorizationValue => "invalid runtime Authorization field value",
            MalformedReason::MalformedResponse => "malformed HTTP response",
            MalformedReason::ResponseHeadTooLarge => "HTTP response head exceeds limit",
        }
    }
}

#[derive(Clone, Debug, PartialEq, Eq)]
pub enum ProtocolError {
    Malformed { protocol: String, reason: MalformedReason },
    CapabilityUnavailable(String),
    Duplicate(String),
    Transport { category: TransportErrorCategory, message: String },
    NotRegistered(String),
    Replay(String),
}

} // verus!
