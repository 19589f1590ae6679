use armature_webhooks::SigningAlgorithm;

#[test]
fn test_signing_algorithm() {
    assert_eq!(SigningAlgorithm::HmacSha256.header_value(), "sha256");
    assert_eq!(SigningAlgorithm::HmacSha512.header_value(), "sha512");
}

#[test]
fn default_signing_algorithm_is_sha256() {
    assert_eq!(SigningAlgorithm::default(), SigningAlgorithm::HmacSha256);
}
