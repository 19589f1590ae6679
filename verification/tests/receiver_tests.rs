use std::collections::HashMap;

use armature_webhooks::receiver::choose_signature_header;
use armature_webhooks::{
    accept_verified, SigningAlgorithm, DEFAULT_TIMESTAMP_TOLERANCE, WebhookError, WebhookPayload, WebhookReceiver, WebhookSignature,
};
use hmac::{Hmac, Mac};
use sha2::Sha256;

#[test]
fn test_receiver_creation() {
    let receiver = WebhookReceiver::new("test-secret");
    assert_eq!(receiver.timestamp_tolerance(), 300);
}

#[test]
fn test_receiver_with_tolerance() {
    let receiver = WebhookReceiver::new("test-secret").with_tolerance(60);
    assert_eq!(receiver.timestamp_tolerance(), 60);
}

#[test]
fn test_verify_valid_signature() {
    let secret = "test-secret";
    let receiver = WebhookReceiver::new(secret);
    let signer = WebhookSignature::new(secret);

    let payload = b"test payload";
    let signature = signer.sign(payload);

    let result = receiver.verify(payload, &signature);
    assert!(result.is_ok());
    assert!(result.unwrap());
}

#[test]
fn test_verify_invalid_signature() {
    let receiver = WebhookReceiver::new("correct-secret");

    let payload = b"test payload";
    let wrong_signer = WebhookSignature::new("wrong-secret");
    let signature = wrong_signer.sign(payload);

    let result = receiver.verify(payload, &signature);
    assert!(result.is_ok());
    assert!(!result.unwrap());
}

#[test]
fn test_verify_from_headers() {
    let secret = "test-secret";
    let receiver = WebhookReceiver::new(secret);
    let signer = WebhookSignature::new(secret);

    let payload = b"test payload";
    let signature = signer.sign(payload);

    let mut headers = HashMap::new();
    headers.insert("X-Webhook-Signature".to_string(), signature);

    let result = receiver.verify_from_headers(payload, &headers);
    assert!(result.is_ok());
    assert!(result.unwrap());
}

#[test]
fn test_verify_from_headers_mixed_case() {
    let secret = "test-secret";
    let receiver = WebhookReceiver::new(secret);
    let signer = WebhookSignature::new(secret);

    let payload = b"test payload";
    let signature = signer.sign(payload);

    let mut headers = HashMap::new();
    headers.insert("x-webhook-Signature".to_string(), signature.clone());

    let result = receiver.verify_from_headers(payload, &headers);
    assert!(result.is_ok());
    assert!(result.unwrap());

    let mut headers2 = HashMap::new();
    headers2.insert("X-HUB-SIGNATURE-256".to_string(), signature);

    let result2 = receiver.verify_from_headers(payload, &headers2);
    assert!(result2.is_ok());
    assert!(result2.unwrap());
}

#[test]
fn test_verify_from_headers_deterministic_precedence() {
    let secret = "test-secret";
    let receiver = WebhookReceiver::new(secret);
    let signer = WebhookSignature::new(secret);

    let payload = b"test payload";
    let correct_signature = signer.sign(payload);
    let bogus_signature = "t=1,v1=deadbeef".to_string();

    let mut headers = HashMap::new();
    headers.insert("X-Webhook-Signature".to_string(), correct_signature);
    headers.insert("X-Hub-Signature-256".to_string(), bogus_signature);

    let result = receiver.verify_from_headers(payload, &headers);
    assert!(result.is_ok());
    assert!(result.unwrap());
}

#[test]
fn test_verify_from_headers_github_style_signature() {
    let secret = "test-secret";
    let receiver = WebhookReceiver::new(secret);

    let payload = b"{\"action\":\"opened\"}";
    let mut mac = Hmac::<Sha256>::new_from_slice(secret.as_bytes())
        .expect("HMAC can take any size key");
    mac.update(payload);
    let expected_hex = hex::encode(mac.finalize().into_bytes());

    let mut headers = HashMap::new();
    headers.insert(
        "X-Hub-Signature-256".to_string(),
        format!("sha256={}", expected_hex),
    );

    let result = receiver.verify_from_headers(payload, &headers);
    assert!(result.is_ok());
    assert!(result.unwrap());
}

#[test]
fn test_verify_missing_signature() {
    let receiver = WebhookReceiver::new("test-secret");
    let headers = HashMap::new();

    let result = receiver.verify_from_headers(b"payload", &headers);
    assert!(matches!(result, Err(WebhookError::SignatureMissing)));
}

#[test]
fn test_handler_event_filter() {
    let receiver = WebhookReceiver::new("test-secret");
    let handler = receiver.handler("user.*", |_| Ok(()));

    assert!(handler.matches_event("user.created"));
    assert!(handler.matches_event("user.updated"));
    assert!(handler.matches_event("user.deleted"));

    assert!(!handler.matches_event("order.created"));
    assert!(!handler.matches_event("product.updated"));
}

#[test]
fn test_handler_all_events() {
    let receiver = WebhookReceiver::new("test-secret");
    let handler = receiver.handler("*", |_| Ok(()));

    assert!(handler.matches_event("user.created"));
    assert!(handler.matches_event("order.shipped"));
    assert!(handler.matches_event("anything"));
}

#[test]
fn test_handler_exact_match() {
    let receiver = WebhookReceiver::new("test-secret");
    let handler = receiver.handler("user.created", |_| Ok(()));

    assert!(handler.matches_event("user.created"));
    assert!(!handler.matches_event("user.updated"));
}

#[test]
fn unrelated_headers_mean_missing_signature() {
    let receiver = WebhookReceiver::new("test-secret");
    let mut headers = HashMap::new();
    headers.insert("Content-Type".to_string(), "application/json".to_string());
    let result = receiver.verify_from_headers(b"payload", &headers);
    assert!(matches!(result, Err(WebhookError::SignatureMissing)));
}

#[test]
fn hub_header_used_when_alone_and_wrong() {
    let receiver = WebhookReceiver::new("test-secret");
    let mut headers = HashMap::new();
    headers.insert("X-Hub-Signature-256".to_string(), "sha256=00".to_string());
    let result = receiver.verify_from_headers(b"payload", &headers);
    assert!(matches!(result, Ok(false)));
}

#[test]
fn header_choice_prefers_webhook_signature_and_last_duplicate() {
    let names = |v: &[&str]| v.iter().map(|s| s.to_string()).collect::<Vec<String>>();
    assert_eq!(choose_signature_header(&names(&["x-hub-signature-256", "x-webhook-signature"])), Some(1));
    assert_eq!(choose_signature_header(&names(&["x-webhook-signature", "a", "x-webhook-signature"])), Some(2));
    assert_eq!(choose_signature_header(&names(&["a", "x-hub-signature-256"])), Some(1));
    assert_eq!(choose_signature_header(&names(&["a", "b"])), None);
    assert_eq!(choose_signature_header(&names(&["X-Webhook-Signature"])), None);
}

#[test]
fn header_entries_in_given_order() {
    let receiver = WebhookReceiver::new("s");
    let signer = WebhookSignature::new("s");
    let good = signer.sign_with_timestamp(b"p", "100");
    let entries = vec![
        ("X-Hub-Signature-256".to_string(), "t=100,v1=00".to_string()),
        ("X-WEBHOOK-SIGNATURE".to_string(), good.clone()),
    ];
    assert!(matches!(receiver.verify_header_entries_at(b"p", &entries, 100), Ok(true)));
    let entries = vec![
        ("x-webhook-signature".to_string(), good),
        ("X-Webhook-Signature".to_string(), "t=100,v1=00".to_string()),
    ];
    assert!(matches!(receiver.verify_header_entries_at(b"p", &entries, 100), Ok(false)));
}

#[test]
fn receiver_algorithm_and_tolerance_apply() {
    let signer = WebhookSignature::new("k").with_algorithm(SigningAlgorithm::HmacSha512);
    let header = signer.sign_with_timestamp(b"body", "1000");
    let receiver = WebhookReceiver::new("k").with_algorithm(SigningAlgorithm::HmacSha512).with_tolerance(10);
    assert!(matches!(receiver.verify_at(b"body", &header, 1010), Ok(true)));
    assert!(matches!(receiver.verify_at(b"body", &header, 1011), Err(WebhookError::TimestampInvalid(_))));
    let sha256_receiver = WebhookReceiver::new("k").with_tolerance(10);
    assert!(matches!(sha256_receiver.verify_at(b"body", &header, 1000), Ok(false)));
}

#[test]
fn test_dispatch_skips_unmatched_event() {
    let calls = std::cell::Cell::new(0u32);
    let receiver = WebhookReceiver::new("secret");
    let handler = receiver.handler("user.*", |_| {
        calls.set(calls.get() + 1);
        Ok(())
    });
    let result = handler.dispatch(WebhookPayload::new("order.created"));
    assert!(matches!(result, Ok(false)));
    assert_eq!(calls.get(), 0);
}

#[test]
fn test_dispatch_calls_callback_on_match() {
    let seen = std::cell::RefCell::new(Vec::new());
    let receiver = WebhookReceiver::new("secret");
    let handler = receiver.handler("user.*", |p: WebhookPayload| {
        seen.borrow_mut().push(p.event.clone());
        Ok(())
    });
    let result = handler.dispatch(WebhookPayload::new("user.created"));
    assert!(matches!(result, Ok(true)));
    assert_eq!(seen.borrow().as_slice(), ["user.created".to_string()]);
}

#[test]
fn test_dispatch_returns_callback_error() {
    let receiver = WebhookReceiver::new("secret");
    let handler = receiver.handler("*", |_| Err(WebhookError::Internal("boom".to_string())));
    let result = handler.dispatch(WebhookPayload::new("anything"));
    assert!(matches!(result, Err(WebhookError::Internal(m)) if m == "boom"));
}

#[test]
fn accept_verified_decides_on_the_verification_result() {
    assert!(accept_verified(Ok(true)).is_ok());
    assert!(matches!(
        accept_verified(Ok(false)),
        Err(WebhookError::SignatureInvalid(m)) if m == "Signature verification failed"
    ));
    assert!(matches!(accept_verified(Err(WebhookError::SignatureMissing)), Err(WebhookError::SignatureMissing)));
}

#[test]
fn receiver_defaults_are_the_shared_defaults() {
    assert_eq!(DEFAULT_TIMESTAMP_TOLERANCE, 300);
    let receiver = WebhookReceiver::new("s");
    assert_eq!(receiver.timestamp_tolerance(), DEFAULT_TIMESTAMP_TOLERANCE);
    assert_eq!(SigningAlgorithm::default(), SigningAlgorithm::HmacSha256);
}
