//! Webhook payloads and delivery records.

use vstd::prelude::*;
use vstd::utf8::{
    decode_utf8, decode_utf8_encode_utf8, decode_utf8_split, encode_utf8_decode_utf8,
    encode_utf8_valid_utf8, is_char_boundary, is_char_boundary_start_end_of_seq, valid_utf8,
    valid_utf8_concat, valid_utf8_split,
};
use crate::clock::{now, Timestamp};
use crate::ids::{is_v4_uuid, random_uuid, uuid_string, uuid_text};
use crate::text::{
    ascii_string, copy_range, lemma_ascii_utf8, lemma_decimal_roundtrip, lemma_utf8_concat,
    push_decimal, decimal, utf8, utf8_string, ascii_chars, is_ascii_bytes,
};

verus! {

/// A JSON value, carried through unread.
#[verifier::external_type_specification]
#[verifier::external_body]
pub struct ExJsonValue(serde_json::Value);

/// Trusted: `serde_json::Value`'s `Clone` is derived, so a clone is a copy
/// equal to the value cloned.
pub assume_specification[ <serde_json::Value as Clone>::clone ](v: &serde_json::Value) -> (r:
    serde_json::Value)
    ensures
        r == *v,
;

/// The JSON `null` value.
///
/// Trusted: builds `serde_json::Value::Null`. The value is opaque here, so
/// nothing is stated of it.
#[verifier::external_body]
fn json_null() -> serde_json::Value {
    serde_json::Value::Null
}

/// A webhook payload to be sent
#[derive(Debug, Clone)]
pub struct WebhookPayload {
    /// Unique identifier for this webhook delivery
    pub id: String,
    /// Event type (e.g., "user.created", "order.updated")
    pub event: String,
    /// Timestamp when the event occurred
    pub timestamp: Timestamp,
    /// The actual event data
    pub data: serde_json::Value,
    /// Optional metadata
    pub metadata: Option<serde_json::Value>,
}

impl WebhookPayload {
    /// Create a new webhook payload with the given event type
    pub fn new(event: &str) -> (p: Self)
        ensures
            p.event@ == event@,
            exists|u: Seq<u8>| is_v4_uuid(u) && utf8(p.id@) == #[trigger] uuid_text(u),
            p.metadata is None,
    {
        let u = random_uuid();
        let id = uuid_string(&u);
        WebhookPayload {
            id,
            event: event.to_owned(),
            timestamp: now(),
            data: json_null(),
            metadata: None,
        }
    }

    /// Set the payload data
    pub fn with_data(self, data: serde_json::Value) -> (p: Self)
        ensures
            p.data == data,
            p.id == self.id,
            p.event == self.event,
            p.timestamp == self.timestamp,
            p.metadata == self.metadata,
    {
        WebhookPayload { data, ..self }
    }

    /// Set metadata
    pub fn with_metadata(self, metadata: serde_json::Value) -> (p: Self)
        ensures
            p.metadata == Some(metadata),
            p.id == self.id,
            p.event == self.event,
            p.timestamp == self.timestamp,
            p.data == self.data,
    {
        WebhookPayload { metadata: Some(metadata), ..self }
    }

    /// Set a custom ID
    pub fn with_id(self, id: &str) -> (p: Self)
        ensures
            p.id@ == id@,
            p.event == self.event,
            p.timestamp == self.timestamp,
            p.data == self.data,
            p.metadata == self.metadata,
    {
        WebhookPayload { id: id.to_owned(), ..self }
    }

    /// Set a custom timestamp
    pub fn with_timestamp(self, timestamp: Timestamp) -> (p: Self)
        ensures
            p.timestamp == timestamp,
            p.id == self.id,
            p.event == self.event,
            p.data == self.data,
            p.metadata == self.metadata,
    {
        WebhookPayload { timestamp, ..self }
    }
}

/// Status of a webhook delivery attempt
#[derive(Debug, Clone, Copy, PartialEq, Eq, Structural)]
pub enum WebhookDeliveryStatus {
    /// Delivery is pending
    Pending,
    /// Delivery is in progress
    InProgress,
    /// Delivery succeeded
    Succeeded,
    /// Delivery failed but will be retried
    Failed,
    /// Delivery permanently failed (no more retries)
    PermanentlyFailed,
}

impl WebhookDeliveryStatus {
    /// The delivery is complete: it succeeded or failed for good.
    pub open spec fn terminal(self) -> bool {
        self == WebhookDeliveryStatus::Succeeded || self == WebhookDeliveryStatus::PermanentlyFailed
    }

    /// Check if the delivery is complete (success or permanent failure)
    pub fn is_terminal(&self) -> (r: bool)
        ensures
            r == self.terminal(),
    {
        match self {
            WebhookDeliveryStatus::Succeeded | WebhookDeliveryStatus::PermanentlyFailed => true,
            _ => false,
        }
    }

    /// Check if the delivery succeeded
    pub fn is_success(&self) -> (r: bool)
        ensures
            r == (*self == WebhookDeliveryStatus::Succeeded),
    {
        match self {
            WebhookDeliveryStatus::Succeeded => true,
            _ => false,
        }
    }
}

/// Longest response body kept on a delivery record, in bytes.
pub const MAX_RECORDED_BODY: usize = 1024;

/// The last character boundary of `bytes` at or before `i`.
pub open spec fn boundary_at_or_before(bytes: Seq<u8>, i: int) -> int
    decreases i,
{
    if i <= 0 {
        0
    } else if is_char_boundary(bytes, i) {
        i
    } else {
        boundary_at_or_before(bytes, i - 1)
    }
}

/// `...`
pub open spec fn ellipsis() -> Seq<u8> {
    seq![46u8, 46u8, 46u8]
}

/// The UTF-8 bytes of `bytes` truncated to `max_len`: unchanged when short
/// enough, else the longest prefix ending on a character boundary within
/// `max_len - 3` bytes (0 when `max_len < 3`), followed by `...`.
pub open spec fn truncated(bytes: Seq<u8>, max_len: int) -> Seq<u8> {
    if bytes.len() <= max_len {
        bytes
    } else {
        let target = if max_len >= 3 {
            max_len - 3
        } else {
            0
        };
        bytes.subrange(0, boundary_at_or_before(bytes, target)) + ellipsis()
    }
}

proof fn lemma_boundary_at_or_before(bytes: Seq<u8>, i: int)
    requires
        valid_utf8(bytes),
        0 <= i <= bytes.len(),
    ensures
        0 <= boundary_at_or_before(bytes, i) <= i,
        is_char_boundary(bytes, boundary_at_or_before(bytes, i)),
    decreases i,
{
    is_char_boundary_start_end_of_seq(bytes);
    if i > 0 && !is_char_boundary(bytes, i) {
        lemma_boundary_at_or_before(bytes, i - 1);
    }
}

/// Truncate a string to a maximum length in bytes, respecting UTF-8
/// character boundaries: a string longer than `max_len` keeps its longest
/// prefix of whole characters within `max_len - 3` bytes, followed by `...`.
pub fn truncate_string(s: &str, max_len: usize) -> (r: String)
    ensures
        utf8(r@) == truncated(utf8(s@), max_len as int),
{
    let bytes = s.as_bytes();
    if bytes.len() <= max_len {
        return s.to_owned();
    }
    let target: usize = if max_len >= 3 {
        max_len - 3
    } else {
        0
    };
    let mut boundary: usize = if target < bytes.len() {
        target
    } else {
        bytes.len()
    };
    let ghost all = utf8(s@);
    proof {
        encode_utf8_valid_utf8(s@);
        is_char_boundary_start_end_of_seq(all);
    }
    while boundary > 0 && !s.is_char_boundary(boundary)
        invariant
            bytes@ == all,
            all == utf8(s@),
            valid_utf8(all),
            boundary <= target,
            boundary <= all.len(),
            boundary_at_or_before(all, target as int) == boundary_at_or_before(all, boundary as int),
        decreases boundary,
    {
        boundary -= 1;
    }
    proof {
        is_char_boundary_start_end_of_seq(all);
        assert(boundary_at_or_before(all, boundary as int) == boundary);
    }
    let mut out = copy_range(bytes, 0, boundary);
    let ghost prefix = out@;
    out.push(46);
    out.push(46);
    out.push(46);
    let ghost chars = decode_utf8(prefix) + seq!['.', '.', '.'];
    proof {
        valid_utf8_split(all, boundary as int);
        decode_utf8_encode_utf8(prefix);
        lemma_ascii_utf8(ellipsis());
        assert(ascii_chars(ellipsis()) =~= seq!['.', '.', '.']);
        lemma_utf8_concat(decode_utf8(prefix), seq!['.', '.', '.']);
        assert(out@ =~= prefix + ellipsis());
    }
    utf8_string(out, Ghost(chars))
}

/// Truncation keeps whole characters: the result is the string itself when
/// it fits in `max_len` bytes, and otherwise a prefix of its characters
/// followed by `...`, at most `max_len` bytes long when `max_len >= 3`.
pub proof fn law_truncation_keeps_whole_characters(s: Seq<char>, max_len: nat)
    ensures
        utf8(s).len() <= max_len ==> decode_utf8(truncated(utf8(s), max_len as int)) == s,
        utf8(s).len() > max_len ==> exists|k: int|
            0 <= k <= s.len() && decode_utf8(truncated(utf8(s), max_len as int)) == s.subrange(0, k)
                + seq!['.', '.', '.'],
        utf8(s).len() > max_len && max_len >= 3 ==> truncated(utf8(s), max_len as int).len()
            <= max_len,
{
    let all = utf8(s);
    encode_utf8_valid_utf8(s);
    encode_utf8_decode_utf8(s);
    if all.len() > max_len {
        let target = if max_len >= 3 {
            max_len - 3
        } else {
            0
        };
        lemma_boundary_at_or_before(all, target as int);
        let b = boundary_at_or_before(all, target as int);
        let prefix = all.subrange(0, b);
        valid_utf8_split(all, b);
        decode_utf8_split(all, b);
        let pc = decode_utf8(prefix);
        let rest = decode_utf8(all.subrange(b, all.len() as int));
        assert(s == pc + rest);
        assert(pc =~= s.subrange(0, pc.len() as int));
        lemma_ascii_utf8(ellipsis());
        assert(ascii_chars(ellipsis()) =~= seq!['.', '.', '.']);
        decode_utf8_encode_utf8(prefix);
        lemma_utf8_concat(pc, seq!['.', '.', '.']);
        encode_utf8_decode_utf8(pc + seq!['.', '.', '.']);
        assert(truncated(all, max_len as int) == utf8(pc + seq!['.', '.', '.']));
        assert(decode_utf8(truncated(all, max_len as int)) == s.subrange(0, pc.len() as int)
            + seq!['.', '.', '.']);
    }
}


/// Record of a webhook delivery attempt
#[derive(Debug, Clone)]
pub struct WebhookDelivery {
    /// Unique delivery ID
    pub id: String,
    /// The webhook payload
    pub payload: WebhookPayload,
    /// Target endpoint URL
    pub endpoint_url: String,
    /// Current status
    pub status: WebhookDeliveryStatus,
    /// Number of delivery attempts
    pub attempts: u32,
    /// Last attempt timestamp
    pub last_attempt: Option<Timestamp>,
    /// Next retry timestamp (if applicable)
    pub next_retry: Option<Timestamp>,
    /// HTTP status code from last attempt
    pub last_status_code: Option<u16>,
    /// Error message from last failed attempt
    pub last_error: Option<String>,
    /// Response body from last attempt (truncated)
    pub last_response_body: Option<String>,
    /// Created timestamp
    pub created_at: Timestamp,
    /// Updated timestamp
    pub updated_at: Timestamp,
}

/// The response body as a delivery record keeps it: truncated to
/// `MAX_RECORDED_BODY` bytes.
pub open spec fn recorded_body(body: Option<String>, kept: Option<String>) -> bool {
    match body {
        None => kept is None,
        Some(b) => kept matches Some(k) && utf8(k@) == truncated(utf8(b@), MAX_RECORDED_BODY as int),
    }
}

/// The status after a failed attempt: retried later if a retry is scheduled,
/// failed for good otherwise.
pub open spec fn failure_status(next_retry: Option<Timestamp>) -> WebhookDeliveryStatus {
    if next_retry is Some {
        WebhookDeliveryStatus::Failed
    } else {
        WebhookDeliveryStatus::PermanentlyFailed
    }
}

/// `HTTP <status code>`
pub open spec fn http_status_text(status_code: u16) -> Seq<u8> {
    seq![72u8, 84u8, 84u8, 80u8, 32u8] + decimal(status_code as nat)
}

/// The fields that recording an attempt leaves alone.
pub open spec fn same_delivery(a: WebhookDelivery, b: WebhookDelivery) -> bool {
    &&& a.id == b.id
    &&& a.payload == b.payload
    &&& a.endpoint_url == b.endpoint_url
    &&& a.created_at == b.created_at
}

fn keep_body(body: Option<String>) -> (kept: Option<String>)
    ensures
        recorded_body(body, kept),
{
    match body {
        Some(b) => Some(truncate_string(b.as_str(), MAX_RECORDED_BODY)),
        None => None,
    }
}

fn http_status_message(status_code: u16) -> (s: String)
    ensures
        utf8(s@) == http_status_text(status_code),
{
    let mut out: Vec<u8> = vec![72, 84, 84, 80, 32];
    let ghost head = out@;
    push_decimal(status_code as u64, &mut out);
    proof {
        lemma_decimal_roundtrip(status_code as nat);
        let d = decimal(status_code as nat);
        assert(out@ =~= http_status_text(status_code));
        assert(is_ascii_bytes(out@)) by {
            assert forall|i: int| 0 <= i < out@.len() implies #[trigger] out@[i] < 128 by {
                if i >= 5 {
                    assert(out@[i] == d[i - 5]);
                }
            }
        }
        lemma_ascii_utf8(out@);
    }
    ascii_string(out)
}

impl WebhookDelivery {
    /// Create a new delivery record
    pub fn new(payload: WebhookPayload, endpoint_url: &str) -> (d: Self)
        ensures
            d.payload == payload,
            d.endpoint_url@ == endpoint_url@,
            exists|u: Seq<u8>| is_v4_uuid(u) && utf8(d.id@) == #[trigger] uuid_text(u),
            d.status == WebhookDeliveryStatus::Pending,
            d.attempts == 0,
            d.last_attempt is None,
            d.next_retry is None,
            d.last_status_code is None,
            d.last_error is None,
            d.last_response_body is None,
            d.created_at == d.updated_at,
    {
        let t = now();
        let u = random_uuid();
        WebhookDelivery {
            id: uuid_string(&u),
            payload,
            endpoint_url: endpoint_url.to_owned(),
            status: WebhookDeliveryStatus::Pending,
            attempts: 0,
            last_attempt: None,
            next_retry: None,
            last_status_code: None,
            last_error: None,
            last_response_body: None,
            created_at: t,
            updated_at: t,
        }
    }

    /// Record a successful delivery made at `at`
    pub fn mark_succeeded_at(&mut self, status_code: u16, response_body: Option<String>, at: Timestamp)
        requires
            old(self).attempts < u32::MAX,
        ensures
            same_delivery(*final(self), *old(self)),
            final(self).status == WebhookDeliveryStatus::Succeeded,
            final(self).last_attempt == Some(at),
            final(self).updated_at == at,
            final(self).last_status_code == Some(status_code),
            recorded_body(response_body, final(self).last_response_body),
            final(self).last_error is None,
            final(self).next_retry is None,
            final(self).attempts == old(self).attempts + 1,
    {
        self.status = WebhookDeliveryStatus::Succeeded;
        self.last_attempt = Some(at);
        self.last_status_code = Some(status_code);
        self.last_response_body = keep_body(response_body);
        self.last_error = None;
        self.next_retry = None;
        self.updated_at = at;
        self.attempts = self.attempts + 1;
    }

    /// Record a successful delivery
    pub fn mark_succeeded(&mut self, status_code: u16, response_body: Option<String>)
        requires
            old(self).attempts < u32::MAX,
        ensures
            same_delivery(*final(self), *old(self)),
            final(self).status == WebhookDeliveryStatus::Succeeded,
            final(self).last_attempt == Some(final(self).updated_at),
            final(self).last_status_code == Some(status_code),
            recorded_body(response_body, final(self).last_response_body),
            final(self).last_error is None,
            final(self).next_retry is None,
            final(self).attempts == old(self).attempts + 1,
    {
        self.mark_succeeded_at(status_code, response_body, now());
    }

    /// Record a failed delivery made at `at`
    pub fn mark_failed_at(&mut self, error: String, next_retry: Option<Timestamp>, at: Timestamp)
        requires
            old(self).attempts < u32::MAX,
        ensures
            same_delivery(*final(self), *old(self)),
            final(self).status == failure_status(next_retry),
            final(self).last_attempt == Some(at),
            final(self).updated_at == at,
            final(self).last_status_code == old(self).last_status_code,
            final(self).last_response_body == old(self).last_response_body,
            final(self).last_error == Some(error),
            final(self).next_retry == next_retry,
            final(self).attempts == old(self).attempts + 1,
    {
        self.status = if next_retry.is_some() {
            WebhookDeliveryStatus::Failed
        } else {
            WebhookDeliveryStatus::PermanentlyFailed
        };
        self.last_attempt = Some(at);
        self.last_error = Some(error);
        self.next_retry = next_retry;
        self.updated_at = at;
        self.attempts = self.attempts + 1;
    }

    /// Record a failed delivery
    pub fn mark_failed(&mut self, error: String, next_retry: Option<Timestamp>)
        requires
            old(self).attempts < u32::MAX,
        ensures
            same_delivery(*final(self), *old(self)),
            final(self).status == failure_status(next_retry),
            final(self).last_attempt == Some(final(self).updated_at),
            final(self).last_status_code == old(self).last_status_code,
            final(self).last_response_body == old(self).last_response_body,
            final(self).last_error == Some(error),
            final(self).next_retry == next_retry,
            final(self).attempts == old(self).attempts + 1,
    {
        self.mark_failed_at(error, next_retry, now());
    }

    /// Record a failed delivery with HTTP status, made at `at`
    pub fn mark_failed_with_status_at(
        &mut self,
        status_code: u16,
        response_body: Option<String>,
        next_retry: Option<Timestamp>,
        at: Timestamp,
    )
        requires
            old(self).attempts < u32::MAX,
        ensures
            same_delivery(*final(self), *old(self)),
            final(self).status == failure_status(next_retry),
            final(self).last_attempt == Some(at),
            final(self).updated_at == at,
            final(self).last_status_code == Some(status_code),
            recorded_body(response_body, final(self).last_response_body),
            final(self).last_error matches Some(e) && utf8(e@) == http_status_text(status_code),
            final(self).next_retry == next_retry,
            final(self).attempts == old(self).attempts + 1,
    {
        self.status = if next_retry.is_some() {
            WebhookDeliveryStatus::Failed
        } else {
            WebhookDeliveryStatus::PermanentlyFailed
        };
        self.last_attempt = Some(at);
        self.last_status_code = Some(status_code);
        self.last_response_body = keep_body(response_body);
        self.last_error = Some(http_status_message(status_code));
        self.next_retry = next_retry;
        self.updated_at = at;
        self.attempts = self.attempts + 1;
    }

    /// Record a failed delivery with HTTP status
    pub fn mark_failed_with_status(
        &mut self,
        status_code: u16,
        response_body: Option<String>,
        next_retry: Option<Timestamp>,
    )
        requires
            old(self).attempts < u32::MAX,
        ensures
            same_delivery(*final(self), *old(self)),
            final(self).status == failure_status(next_retry),
            final(self).last_attempt == Some(final(self).updated_at),
            final(self).last_status_code == Some(status_code),
            recorded_body(response_body, final(self).last_response_body),
            final(self).last_error matches Some(e) && utf8(e@) == http_status_text(status_code),
            final(self).next_retry == next_retry,
            final(self).attempts == old(self).attempts + 1,
    {
        self.mark_failed_with_status_at(status_code, response_body, next_retry, now());
    }
}

/// A failed attempt leaves the delivery complete exactly when no retry is
/// scheduled; a successful one always completes it, and counts as success.
pub proof fn law_delivery_status_after_attempt(next_retry: Option<Timestamp>)
    ensures
        failure_status(next_retry).terminal() <==> next_retry is None,
        !(failure_status(next_retry) == WebhookDeliveryStatus::Succeeded),
        WebhookDeliveryStatus::Succeeded.terminal(),
{
}

/// A delivery is complete exactly when it succeeded or failed for good: one
/// that is pending, in progress or waiting for a retry is not complete.
pub proof fn law_terminal_statuses(status: WebhookDeliveryStatus)
    ensures
        status.terminal() <==> (status is Succeeded || status is PermanentlyFailed),
        !WebhookDeliveryStatus::Pending.terminal(),
        !WebhookDeliveryStatus::InProgress.terminal(),
        !WebhookDeliveryStatus::Failed.terminal(),
{
}

/// A successful delivery is a complete one.
pub proof fn law_success_is_terminal(status: WebhookDeliveryStatus)
    ensures
        status == WebhookDeliveryStatus::Succeeded ==> status.terminal(),
{
}

} // verus!
