use armature_webhooks::endpoint::{format_secret, pattern_matches};
use armature_webhooks::{Timestamp, WebhookEndpoint};

fn has_event(endpoint: &WebhookEndpoint, event: &str) -> bool {
    endpoint.events.iter().any(|e| e == event)
}

#[test]
fn test_endpoint_creation() {
    let endpoint = WebhookEndpoint::new("https://example.com/webhook");

    assert!(!endpoint.id.is_empty());
    assert!(endpoint.secret.starts_with("whsec_"));
    assert!(endpoint.enabled);
    assert!(endpoint.events.is_empty());
}

#[test]
fn test_endpoint_builder() {
    let endpoint = WebhookEndpoint::builder("https://example.com/webhook")
        .secret("custom-secret")
        .events(vec!["user.created", "user.updated"])
        .description("My webhook")
        .header("X-Custom", "value")
        .build();

    assert_eq!(endpoint.secret, "custom-secret");
    assert!(has_event(&endpoint, "user.created"));
    assert!(has_event(&endpoint, "user.updated"));
    assert_eq!(endpoint.description, Some("My webhook".to_string()));
    assert_eq!(
        endpoint.headers.iter().find(|(k, _)| k == "X-Custom").map(|(_, v)| v),
        Some(&"value".to_string())
    );
}

#[test]
fn test_event_subscription() {
    let mut endpoint = WebhookEndpoint::new("https://example.com");

    endpoint.subscribe("user.created");
    assert!(endpoint.is_subscribed_to("user.created"));
    assert!(!endpoint.is_subscribed_to("user.deleted"));

    endpoint.unsubscribe("user.created");
    assert!(!endpoint.is_subscribed_to("user.created"));
}

#[test]
fn test_wildcard_subscription() {
    let endpoint = WebhookEndpoint::builder("https://example.com")
        .events(vec!["user.*", "order.created"])
        .build();

    // Wildcard should match
    assert!(endpoint.is_subscribed_to("user.created"));
    assert!(endpoint.is_subscribed_to("user.updated"));
    assert!(endpoint.is_subscribed_to("user.deleted"));

    // Exact match
    assert!(endpoint.is_subscribed_to("order.created"));

    // No match
    assert!(!endpoint.is_subscribed_to("order.updated"));
    assert!(!endpoint.is_subscribed_to("product.created"));
}

#[test]
fn test_all_events_subscription() {
    let endpoint = WebhookEndpoint::builder("https://example.com")
        .all_events()
        .build();

    assert!(endpoint.is_subscribed_to("anything"));
    assert!(endpoint.is_subscribed_to("user.created"));
    assert!(endpoint.is_subscribed_to("order.shipped"));
}

#[test]
fn endpoint_test_failure_tracking() {
    let mut endpoint = WebhookEndpoint::new("https://example.com");

    endpoint.record_failure();
    assert_eq!(endpoint.failure_count, 1);
    assert!(endpoint.last_failure.is_some());

    endpoint.record_failure();
    assert_eq!(endpoint.failure_count, 2);

    endpoint.record_success();
    assert_eq!(endpoint.failure_count, 0);
    assert!(endpoint.last_success.is_some());
}

#[test]
fn test_secret_rotation() {
    let mut endpoint = WebhookEndpoint::new("https://example.com");
    let old_secret = endpoint.secret.clone();

    let new_secret = endpoint.rotate_secret();

    assert_ne!(old_secret, new_secret);
    assert_eq!(endpoint.secret, new_secret);
}

#[test]
fn subscribe_twice_keeps_one_entry_and_events_dedup() {
    let mut endpoint = WebhookEndpoint::builder("https://example.com")
        .events(vec!["a", "b", "a"])
        .build();
    assert_eq!(endpoint.events.len(), 2);
    endpoint.subscribe("b");
    assert_eq!(endpoint.events.len(), 2);
    endpoint.subscribe("c");
    assert_eq!(endpoint.events.len(), 3);
}

#[test]
fn unsubscribe_keeps_wildcards() {
    let mut endpoint = WebhookEndpoint::builder("https://example.com")
        .events(vec!["user.*", "user.created"])
        .build();
    endpoint.unsubscribe("user.created");
    assert!(!has_event(&endpoint, "user.created"));
    assert!(endpoint.is_subscribed_to("user.created"));
}

#[test]
fn header_replaces_same_name() {
    let endpoint = WebhookEndpoint::builder("https://example.com")
        .header("X-A", "1")
        .header("X-B", "2")
        .header("X-A", "3")
        .build();
    assert_eq!(
        endpoint.headers,
        vec![
            ("X-A".to_string(), "3".to_string()),
            ("X-B".to_string(), "2".to_string())
        ]
    );
}

#[test]
fn builder_sets_id_and_enabled() {
    let endpoint = WebhookEndpoint::builder("https://example.com")
        .id("custom-id")
        .enabled(false)
        .build();
    assert_eq!(endpoint.id, "custom-id");
    assert!(!endpoint.enabled);
    assert_eq!(endpoint.url, "https://example.com");
}

#[test]
fn enable_resets_failures_and_disable_keeps_them() {
    let mut endpoint = WebhookEndpoint::new("https://example.com");
    endpoint.record_failure();
    endpoint.disable();
    assert!(!endpoint.enabled);
    assert_eq!(endpoint.failure_count, 1);
    endpoint.enable();
    assert!(endpoint.enabled);
    assert_eq!(endpoint.failure_count, 0);
}

#[test]
fn endpoint_ids_are_hyphenated_uuids() {
    let endpoint = WebhookEndpoint::new("https://example.com");
    assert_eq!(endpoint.id.len(), 36);
    let parts: Vec<&str> = endpoint.id.split('-').collect();
    assert_eq!(parts.iter().map(|p| p.len()).collect::<Vec<_>>(), vec![8, 4, 4, 4, 12]);
    assert_eq!(&endpoint.id[14..15], "4");
}

#[test]
fn secret_format_exact() {
    let uuid: Vec<u8> = (0u8..16).collect();
    let secret = format_secret(&uuid, 0xFFFF_FFFF + 0x2a);
    assert_eq!(secret, "whsec_000102030405060708090a0b0c0d0e0f_2a");
    let secret = format_secret(&uuid, 0);
    assert_eq!(secret, "whsec_000102030405060708090a0b0c0d0e0f_0");
}

#[test]
fn pattern_matching_rules() {
    assert!(pattern_matches("*", "anything"));
    assert!(pattern_matches("user.*", "user.created"));
    assert!(pattern_matches("user.*", "user."));
    // The prefix is what precedes ".*", so the dot itself is not required.
    assert!(pattern_matches("user.*", "user"));
    assert!(pattern_matches("user.*", "username.changed"));
    assert!(!pattern_matches("user.*", "use"));
    assert!(pattern_matches(".*", "anything"));
    assert!(pattern_matches("user.created", "user.created"));
    assert!(!pattern_matches("user.created", "user.updated"));
    assert!(!pattern_matches("user*", "user.created"));
    assert!(pattern_matches("日本.*", "日本.語"));
}

#[test]
fn bookkeeping_at_given_times() {
    let t = Timestamp { seconds: 42, nanos: 7 };
    let mut endpoint = WebhookEndpoint::new("https://example.com");
    endpoint.record_failure_at(t);
    assert_eq!(endpoint.last_failure, Some(t));
    assert_eq!(endpoint.updated_at, t);
    endpoint.disable_at(t);
    assert!(!endpoint.enabled);
    endpoint.enable_at(t);
    assert!(endpoint.enabled);
    assert_eq!(endpoint.failure_count, 0);
    endpoint.record_success_at(t);
    assert_eq!(endpoint.last_success, Some(t));
}
