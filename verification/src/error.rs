//! Error types for webhook operations.

use vstd::prelude::*;

verus! {

/// Errors that can occur during webhook operations
///
/// Errors raised by the HTTP client and by URL parsing carry their message.
#[derive(Debug)]
pub enum WebhookError {
    /// HTTP request failed
    HttpError(String),
    /// Invalid URL
    InvalidUrl(String),
    /// Signature verification failed
    SignatureInvalid(String),
    /// Signature missing from request
    SignatureMissing,
    /// Timestamp validation failed
    TimestampInvalid(String),
    /// Payload serialization/deserialization failed
    PayloadError(String),
    /// Delivery failed after all retries
    DeliveryFailed { attempts: u32, message: String },
    /// Endpoint not found
    EndpointNotFound(String),
    /// Configuration error
    ConfigError(String),
    /// Rate limit exceeded
    RateLimitExceeded(String),
    /// Timeout error
    Timeout(u64),
    /// Internal error
    Internal(String),
}

/// Result type for webhook operations
pub type Result<T> = core::result::Result<T, WebhookError>;

} // verus!
