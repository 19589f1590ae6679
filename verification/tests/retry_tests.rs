use armature_webhooks::{attempt_may_retry, RetryResult};

#[test]
fn test_retry_result() {
    let success: RetryResult<i32> = RetryResult::Success(42);
    assert!(success.is_success());
    assert_eq!(success.ok(), Some(42));

    let retry: RetryResult<i32> = RetryResult::Retry {
        attempt: 1,
        error: "timeout".to_string(),
    };
    assert!(retry.should_retry());
}

#[test]
fn failed_result_is_neither_success_nor_retry() {
    let failed: RetryResult<i32> = RetryResult::Failed {
        attempts: 3,
        error: "gone".to_string(),
    };
    assert!(!failed.is_success());
    assert!(!failed.should_retry());
    assert_eq!(failed.ok(), None);

    let retry: RetryResult<i32> = RetryResult::Retry {
        attempt: 1,
        error: "timeout".to_string(),
    };
    assert!(!retry.is_success());
    assert_eq!(retry.ok(), None);
}

#[test]
fn attempts_below_the_limit_may_retry() {
    assert!(attempt_may_retry(0, 3));
    assert!(attempt_may_retry(1, 3));
    assert!(attempt_may_retry(2, 3));
    assert!(!attempt_may_retry(3, 3));
    assert!(!attempt_may_retry(0, 0));
}
