//! Signing algorithms and verification defaults.

use vstd::prelude::*;

verus! {

/// The default accepted distance, in seconds, between a signature's
/// timestamp and the current time: five minutes.
pub const DEFAULT_TIMESTAMP_TOLERANCE: u64 = 300;

/// Supported signing algorithms
#[non_exhaustive]
#[derive(Debug, Clone, Copy, PartialEq, Eq, Structural)]
pub enum SigningAlgorithm {
    /// HMAC-SHA256 (default, most common)
    HmacSha256,
    /// HMAC-SHA512 (more secure)
    HmacSha512,
}

impl Default for SigningAlgorithm {
    fn default() -> (alg: Self)
        ensures
            alg == SigningAlgorithm::HmacSha256,
    {
        SigningAlgorithm::HmacSha256
    }
}

impl SigningAlgorithm {
    /// The algorithm's name as written in headers.
    pub open spec fn header_name(self) -> Seq<char> {
        match self {
            SigningAlgorithm::HmacSha256 => "sha256"@,
            SigningAlgorithm::HmacSha512 => "sha512"@,
        }
    }

    /// Get the algorithm name for headers
    pub fn header_value(&self) -> (name: &'static str)
        ensures
            name@ == self.header_name(),
    {
        match self {
            SigningAlgorithm::HmacSha256 => "sha256",
            SigningAlgorithm::HmacSha512 => "sha512",
        }
    }
}

} // verus!
