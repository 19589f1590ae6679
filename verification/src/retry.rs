//! Outcomes of retried operations.

use vstd::prelude::*;

verus! {

/// Whether another attempt may follow attempt number `attempt` when at most
/// `max_attempts` retries are allowed.
pub fn attempt_may_retry(attempt: u32, max_attempts: u32) -> (r: bool)
    ensures
        r == (attempt < max_attempts),
{
    attempt < max_attempts
}

/// Result of a retry operation
#[derive(Debug, Clone)]
pub enum RetryResult<T> {
    /// Operation succeeded
    Success(T),
    /// Operation failed but can be retried
    Retry { attempt: u32, error: String },
    /// Operation failed and should not be retried
    Failed { attempts: u32, error: String },
}

impl<T> RetryResult<T> {
    /// Check if the result is successful
    pub fn is_success(&self) -> (r: bool)
        ensures
            r == self is Success,
    {
        match self {
            RetryResult::Success(_) => true,
            _ => false,
        }
    }

    /// Check if the result indicates a retry should be attempted
    pub fn should_retry(&self) -> (r: bool)
        ensures
            r == self is Retry,
    {
        match self {
            RetryResult::Retry { .. } => true,
            _ => false,
        }
    }

    /// Get the inner value if successful
    pub fn ok(self) -> (r: Option<T>)
        ensures
            match self {
                RetryResult::Success(v) => r == Some(v),
                _ => r is None,
            },
    {
        match self {
            RetryResult::Success(v) => Some(v),
            _ => None,
        }
    }
}

/// A successful result is never one to retry, nor a final failure.
pub proof fn law_success_never_retries<T>(r: RetryResult<T>)
    requires
        r is Success,
    ensures
        !(r is Retry),
        !(r is Failed),
{
}

} // verus!
