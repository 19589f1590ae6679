use armature_webhooks::{
    truncate_string, Timestamp, WebhookDelivery, WebhookDeliveryStatus, WebhookPayload,
};

fn now() -> Timestamp {
    let now = chrono::Utc::now();
    Timestamp {
        seconds: now.timestamp(),
        nanos: now.timestamp_subsec_nanos(),
    }
}

#[test]
fn test_payload_creation() {
    let data: serde_json::Value = serde_json::from_str(r#"{"user_id": "123"}"#).unwrap();
    let payload = WebhookPayload::new("user.created").with_data(data);

    assert_eq!(payload.event, "user.created");
    assert!(!payload.id.is_empty());
}

#[test]
fn test_delivery_status() {
    assert!(WebhookDeliveryStatus::Succeeded.is_terminal());
    assert!(WebhookDeliveryStatus::PermanentlyFailed.is_terminal());
    assert!(!WebhookDeliveryStatus::Failed.is_terminal());
    assert!(!WebhookDeliveryStatus::Pending.is_terminal());
}

#[test]
fn test_truncate_string_does_not_panic_on_multibyte_boundary() {
    // Each '€' is 3 bytes in UTF-8; with max_len=10 the naive byte-slice
    // `&s[..7]` would land mid-character and panic.
    let body: String = std::iter::repeat('€').take(20).collect();
    let truncated = truncate_string(&body, 10);

    assert!(truncated.ends_with("..."));
    assert!(truncated.len() <= 10);
    assert!(truncated.chars().all(|c| c == '€' || c == '.'));
}

#[test]
fn test_truncate_string_via_mark_succeeded_multibyte_response() {
    let payload = WebhookPayload::new("test");
    let mut delivery = WebhookDelivery::new(payload, "https://example.com/webhook");

    let body: String = std::iter::repeat('日').take(2000).collect();
    // Should not panic.
    delivery.mark_succeeded(200, Some(body));

    let truncated = delivery.last_response_body.unwrap();
    assert!(truncated.len() <= 1024);
    assert!(truncated.ends_with("..."));
}

#[test]
fn test_delivery_lifecycle() {
    let payload = WebhookPayload::new("test");
    let mut delivery = WebhookDelivery::new(payload, "https://example.com/webhook");

    assert_eq!(delivery.status, WebhookDeliveryStatus::Pending);
    assert_eq!(delivery.attempts, 0);

    // Mark as failed with retry
    delivery.mark_failed("Connection timeout".to_string(), Some(now()));
    assert_eq!(delivery.status, WebhookDeliveryStatus::Failed);
    assert_eq!(delivery.attempts, 1);

    // Mark as succeeded
    delivery.mark_succeeded(200, Some("OK".to_string()));
    assert_eq!(delivery.status, WebhookDeliveryStatus::Succeeded);
    assert_eq!(delivery.attempts, 2);
}

#[test]
fn truncate_exact_values() {
    assert_eq!(truncate_string("hello", 5), "hello");
    assert_eq!(truncate_string("hello world", 8), "hello...");
    assert_eq!(truncate_string("hello", 2), "...");
    assert_eq!(truncate_string("hello", 0), "...");
    assert_eq!(truncate_string("", 0), "");
    // "é" is 2 bytes: a budget of 4 bytes before the dots fits two of them.
    assert_eq!(truncate_string("ééééé", 7), "éé...");
    // A budget of 3 bytes cannot fit a second "é".
    assert_eq!(truncate_string("ééééé", 6), "é...");
}

#[test]
fn failure_without_retry_is_permanent() {
    let payload = WebhookPayload::new("test");
    let mut delivery = WebhookDelivery::new(payload, "https://example.com/webhook");
    delivery.mark_failed("boom".to_string(), None);
    assert_eq!(delivery.status, WebhookDeliveryStatus::PermanentlyFailed);
    assert!(delivery.status.is_terminal());
    assert!(!delivery.status.is_success());
    assert_eq!(delivery.last_error, Some("boom".to_string()));
}

#[test]
fn failure_with_status_records_http_code() {
    let payload = WebhookPayload::new("test");
    let mut delivery = WebhookDelivery::new(payload, "https://example.com/webhook");
    delivery.mark_failed_with_status(503, Some("busy".to_string()), Some(now()));
    assert_eq!(delivery.status, WebhookDeliveryStatus::Failed);
    assert_eq!(delivery.last_status_code, Some(503));
    assert_eq!(delivery.last_error, Some("HTTP 503".to_string()));
    assert_eq!(delivery.last_response_body, Some("busy".to_string()));
    assert_eq!(delivery.attempts, 1);

    delivery.mark_failed_with_status(0, None, None);
    assert_eq!(delivery.last_error, Some("HTTP 0".to_string()));
    assert_eq!(delivery.status, WebhookDeliveryStatus::PermanentlyFailed);
}

#[test]
fn success_clears_error_and_retry() {
    let payload = WebhookPayload::new("test");
    let mut delivery = WebhookDelivery::new(payload, "https://example.com/webhook");
    delivery.mark_failed("x".to_string(), Some(now()));
    delivery.mark_succeeded(204, None);
    assert_eq!(delivery.last_error, None);
    assert!(delivery.next_retry.is_none());
    assert_eq!(delivery.last_status_code, Some(204));
    assert!(delivery.status.is_success());
    assert_eq!(delivery.last_attempt, Some(delivery.updated_at));
}

#[test]
fn payload_builders_set_fields() {
    let t = Timestamp { seconds: 1_700_000_000, nanos: 5 };
    let meta: serde_json::Value = serde_json::from_str(r#"{"k": 1}"#).unwrap();
    let payload = WebhookPayload::new("e")
        .with_id("custom")
        .with_timestamp(t)
        .with_metadata(meta.clone());
    assert_eq!(payload.id, "custom");
    assert_eq!(payload.timestamp, t);
    assert_eq!(payload.metadata, Some(meta));
    assert_eq!(payload.data, serde_json::Value::Null);
}

#[test]
fn marks_at_given_times() {
    let t1 = Timestamp { seconds: 100, nanos: 1 };
    let t2 = Timestamp { seconds: 200, nanos: 2 };
    let payload = WebhookPayload::new("test");
    let mut delivery = WebhookDelivery::new(payload, "https://example.com/webhook");
    delivery.mark_failed_at("timeout".to_string(), Some(t2), t1);
    assert_eq!(delivery.last_attempt, Some(t1));
    assert_eq!(delivery.updated_at, t1);
    assert_eq!(delivery.next_retry, Some(t2));
    delivery.mark_failed_with_status_at(500, None, None, t2);
    assert_eq!(delivery.last_attempt, Some(t2));
    assert_eq!(delivery.last_error, Some("HTTP 500".to_string()));
    delivery.mark_succeeded_at(201, Some("created".to_string()), t1);
    assert_eq!(delivery.updated_at, t1);
    assert_eq!(delivery.attempts, 3);
    assert_eq!(delivery.last_response_body, Some("created".to_string()));
}
