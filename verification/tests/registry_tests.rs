use armature_webhooks::{WebhookEndpoint, WebhookError, WebhookRegistry};

fn create_test_endpoint(id: &str, events: Vec<&str>) -> WebhookEndpoint {
    WebhookEndpoint::builder(&format!("https://example.com/{}", id))
        .id(id)
        .events(events)
        .build()
}

#[test]
fn test_register_and_get() {
    let mut registry = WebhookRegistry::new();

    let endpoint = create_test_endpoint("test-1", vec!["user.created"]);
    let id = registry.register(endpoint);

    let retrieved = registry.get(&id);
    assert!(retrieved.is_some());
    assert_eq!(retrieved.unwrap().id, "test-1");
}

#[test]
fn test_unregister() {
    let mut registry = WebhookRegistry::new();

    let endpoint = create_test_endpoint("test-1", vec![]);
    let id = registry.register(endpoint);

    assert!(registry.contains(&id));
    registry.unregister(&id);
    assert!(!registry.contains(&id));
}

#[test]
fn test_get_endpoints_for_event() {
    let mut registry = WebhookRegistry::new();

    registry.register(create_test_endpoint(
        "ep-1",
        vec!["user.created", "user.updated"],
    ));
    registry.register(create_test_endpoint("ep-2", vec!["user.created"]));
    registry.register(create_test_endpoint("ep-3", vec!["order.created"]));

    let user_created_endpoints = registry.get_endpoints_for_event("user.created");
    assert_eq!(user_created_endpoints.len(), 2);

    let order_endpoints = registry.get_endpoints_for_event("order.created");
    assert_eq!(order_endpoints.len(), 1);

    let no_endpoints = registry.get_endpoints_for_event("product.created");
    assert!(no_endpoints.is_empty());
}

#[test]
fn test_enable_disable() {
    let mut registry = WebhookRegistry::new();

    let endpoint = create_test_endpoint("test-1", vec!["user.created"]);
    let id = registry.register(endpoint);

    assert!(registry.get(&id).unwrap().enabled);

    registry.disable(&id).unwrap();
    assert!(!registry.get(&id).unwrap().enabled);

    let endpoints = registry.get_endpoints_for_event("user.created");
    assert!(endpoints.is_empty());

    registry.enable(&id).unwrap();
    assert!(registry.get(&id).unwrap().enabled);
}

#[test]
fn registry_test_failure_tracking() {
    let mut registry = WebhookRegistry::new();

    let endpoint = create_test_endpoint("test-1", vec![]);
    let id = registry.register(endpoint);

    registry.record_failure(&id).unwrap();
    registry.record_failure(&id).unwrap();
    registry.record_failure(&id).unwrap();

    assert_eq!(registry.get(&id).unwrap().failure_count, 3);

    let failing = registry.get_failing_endpoints(3);
    assert_eq!(failing.len(), 1);

    registry.record_success(&id).unwrap();
    assert_eq!(registry.get(&id).unwrap().failure_count, 0);
}

#[test]
fn test_find_by_url() {
    let mut registry = WebhookRegistry::new();

    registry.register(WebhookEndpoint::new("https://api.example.com/webhook"));
    registry.register(WebhookEndpoint::new("https://hooks.example.com/receive"));
    registry.register(WebhookEndpoint::new("https://other.com/webhook"));

    let example_endpoints = registry.find_by_url("example.com");
    assert_eq!(example_endpoints.len(), 2);

    let webhook_endpoints = registry.find_by_url("webhook");
    assert_eq!(webhook_endpoints.len(), 2);
}

#[test]
fn test_count() {
    let mut registry = WebhookRegistry::new();
    assert_eq!(registry.count(), 0);

    registry.register(create_test_endpoint("1", vec![]));
    registry.register(create_test_endpoint("2", vec![]));
    assert_eq!(registry.count(), 2);

    registry.clear();
    assert_eq!(registry.count(), 0);
}

#[test]
fn missing_ids_are_reported() {
    let mut registry = WebhookRegistry::new();
    let e = create_test_endpoint("a", vec![]);
    match registry.update("nope", e) {
        Err(WebhookError::EndpointNotFound(id)) => assert_eq!(id, "nope"),
        other => panic!("unexpected {:?}", other),
    }
    assert!(matches!(registry.enable("nope"), Err(WebhookError::EndpointNotFound(_))));
    assert!(matches!(registry.disable("nope"), Err(WebhookError::EndpointNotFound(_))));
    assert!(matches!(registry.record_success("nope"), Err(WebhookError::EndpointNotFound(_))));
    assert!(matches!(registry.record_failure("nope"), Err(WebhookError::EndpointNotFound(_))));
    assert!(registry.unregister("nope").is_none());
    assert!(registry.get("nope").is_none());
    assert_eq!(registry.count(), 0);
}

#[test]
fn reregistering_replaces_in_place() {
    let mut registry = WebhookRegistry::new();
    registry.register(create_test_endpoint("a", vec!["x"]));
    registry.register(create_test_endpoint("b", vec![]));
    registry.register(create_test_endpoint("a", vec!["y"]));
    assert_eq!(registry.count(), 2);
    let all = registry.get_all();
    assert_eq!(all[0].id, "a");
    assert_eq!(all[0].events, vec!["y".to_string()]);
    assert_eq!(all[1].id, "b");
}

#[test]
fn update_and_enabled_disabled_lists() {
    let mut registry = WebhookRegistry::new();
    registry.register(create_test_endpoint("a", vec![]));
    registry.register(create_test_endpoint("b", vec![]));
    let replacement = create_test_endpoint("a", vec!["z"]).clone();
    registry.update("a", replacement).unwrap();
    assert_eq!(registry.get("a").unwrap().events, vec!["z".to_string()]);
    registry.disable("b").unwrap();
    assert_eq!(registry.get_enabled().len(), 1);
    assert_eq!(registry.get_disabled().len(), 1);
    assert_eq!(registry.get_disabled()[0].id, "b");
}

#[test]
fn with_endpoint_applies_changes() {
    let mut registry = WebhookRegistry::new();
    registry.register(create_test_endpoint("a", vec![]));
    let n = registry.with_endpoint("a", |e| {
        e.subscribe("order.created");
        e.events.len()
    });
    assert_eq!(n.unwrap(), 1);
    assert!(registry.get("a").unwrap().is_subscribed_to("order.created"));
    assert!(matches!(registry.with_endpoint("zz", |_| ()), Err(WebhookError::EndpointNotFound(_))));
}
