//! Webhook handling: signing and verifying webhook payloads with HMAC,
//! tracking deliveries, and routing events to subscribed endpoints.
//!
//! The library's own functions are verified by Verus against their
//! contracts. The few calls into outside crates and into parts of std that
//! Verus does not specify (HMAC, the clock, random identifiers, UTF-8
//! conversion, lowercasing, walking a hash map) stand behind small trusted
//! wrappers; their contracts are not proved, and each is documented where it
//! is declared.

pub mod clock;
mod config;
pub mod endpoint;
mod error;
pub mod ids;
pub mod payload;
pub mod receiver;
pub mod registry;
mod retry;
pub mod signature;
pub mod text;

pub use clock::Timestamp;
pub use config::{SigningAlgorithm, DEFAULT_TIMESTAMP_TOLERANCE};
pub use endpoint::{WebhookEndpoint, WebhookEndpointBuilder};
pub use error::{Result, WebhookError};
pub use payload::{truncate_string, WebhookDelivery, WebhookDeliveryStatus, WebhookPayload};
pub use receiver::{accept_verified, WebhookHandler, WebhookReceiver};
pub use registry::WebhookRegistry;
pub use retry::{attempt_may_retry, RetryResult};
pub use signature::WebhookSignature;
