use armature_webhooks::signature::{parse_signature_header, within_tolerance_window};
use armature_webhooks::{SigningAlgorithm, WebhookError, WebhookSignature};
use hmac::{Hmac, Mac};
use sha2::{Sha256, Sha512};

fn hmac256_hex(key: &[u8], msg: &[u8]) -> String {
    let mut mac = Hmac::<Sha256>::new_from_slice(key).unwrap();
    mac.update(msg);
    hex::encode(mac.finalize().into_bytes())
}

fn hmac512_hex(key: &[u8], msg: &[u8]) -> String {
    let mut mac = Hmac::<Sha512>::new_from_slice(key).unwrap();
    mac.update(msg);
    hex::encode(mac.finalize().into_bytes())
}

#[test]
fn sign_with_timestamp_exact_value() {
    let signer = WebhookSignature::new("secret");
    let header = signer.sign_with_timestamp(b"hello", "1700000000");
    let expected = format!("t=1700000000,v1={}", hmac256_hex(b"secret", b"1700000000.hello"));
    assert_eq!(header, expected);

    let signer = signer.with_algorithm(SigningAlgorithm::HmacSha512);
    let header = signer.sign_with_timestamp(b"hello", "1700000000");
    let expected = format!("t=1700000000,v1={}", hmac512_hex(b"secret", b"1700000000.hello"));
    assert_eq!(header, expected);
}

#[test]
fn sign_stamps_current_time() {
    let signer = WebhookSignature::new("secret");
    let before = chrono::Utc::now().timestamp();
    let header = signer.sign(b"x");
    let after = chrono::Utc::now().timestamp();
    let t: i64 = header.split(',').next().unwrap().strip_prefix("t=").unwrap().parse().unwrap();
    assert!(before <= t && t <= after);
    assert_eq!(header, signer.sign_with_timestamp(b"x", &t.to_string()));
}

#[test]
fn verify_at_accepts_and_rejects() {
    let signer = WebhookSignature::new("k");
    let header = signer.sign_with_timestamp(b"payload", "1000");
    assert!(matches!(signer.verify_at(b"payload", &header, 0, 1000), Ok(true)));
    assert!(matches!(signer.verify_at(b"payload", &header, 5, 995), Ok(true)));
    assert!(matches!(signer.verify_at(b"payload", &header, 5, 1005), Ok(true)));
    assert!(matches!(signer.verify_at(b"payloaD", &header, 5, 1000), Ok(false)));
    match signer.verify_at(b"payload", &header, 5, 1006) {
        Err(WebhookError::TimestampInvalid(m)) => assert_eq!(m, "Timestamp outside the tolerance window"),
        other => panic!("unexpected {:?}", other),
    }
    assert!(matches!(signer.verify_at(b"payload", &header, 5, 994), Err(WebhookError::TimestampInvalid(_))));
    assert!(matches!(signer.verify_at(b"payload", &header, u64::MAX, i64::MIN), Ok(true)));
}

#[test]
fn malformed_headers() {
    let signer = WebhookSignature::new("k");
    for header in ["", "v1=abc", "t=100", "garbage", "t=100;v1=abc"] {
        match signer.verify_at(b"p", header, 10, 100) {
            Err(WebhookError::SignatureInvalid(m)) => assert_eq!(m, "Invalid signature header format"),
            other => panic!("unexpected {:?} for {:?}", other, header),
        }
    }
    for header in ["t=abc,v1=00", "t=,v1=00", "t=99999999999999999999,v1=00", "t=+,v1=00", "t=+-1,v1=00"] {
        match signer.verify_at(b"p", header, 10, 100) {
            Err(WebhookError::TimestampInvalid(m)) => assert_eq!(m, "Invalid timestamp in signature header"),
            other => panic!("unexpected {:?} for {:?}", other, header),
        }
    }
}

#[test]
fn only_the_exact_signed_header_is_accepted() {
    let signer = WebhookSignature::new("k");
    let good = hmac256_hex(b"k", b"100.p");
    let exact = format!("t=100,v1={}", good);
    assert!(matches!(signer.verify_at(b"p", &exact, 0, 100), Ok(true)));
    let extra = format!("t=100,v1={},v1=00", good);
    assert!(matches!(signer.verify_at(b"p", &extra, 0, 100), Ok(false)));
    let padded = format!("t=100, v1=0000 , v1={} ", good);
    assert!(matches!(signer.verify_at(b"p", &padded, 0, 100), Ok(false)));
    let reordered = format!("v1={},t=100", good);
    assert!(matches!(signer.verify_at(b"p", &reordered, 0, 100), Ok(false)));
    let plus = format!("t=+100,v1={}", hmac256_hex(b"k", b"+100.p"));
    assert!(matches!(signer.verify_at(b"p", &plus, 0, 100), Ok(true)));
    let header = "t=-5,v1=00";
    assert!(matches!(signer.verify_at(b"p", header, 10, -1), Ok(false)));
}

#[test]
fn github_scheme() {
    let signer = WebhookSignature::new("k").with_algorithm(SigningAlgorithm::HmacSha512);
    let good = format!("sha256={}", hmac256_hex(b"k", b"body"));
    assert!(matches!(signer.verify_at(b"body", &good, 0, 0), Ok(true)));
    let mut wrong = good.clone().into_bytes();
    let last = wrong.len() - 1;
    wrong[last] = if wrong[last] == b'0' { b'1' } else { b'0' };
    let wrong = String::from_utf8(wrong).unwrap();
    assert!(matches!(signer.verify_at(b"body", &wrong, 0, 0), Ok(false)));
    let upper = good.to_uppercase().replace("SHA256=", "sha256=");
    let same = upper == good;
    assert_eq!(signer.verify_at(b"body", &upper, 0, 0).ok(), Some(same));
}

#[test]
fn header_parts() {
    let p = parse_signature_header(b" t=12 ,v1=ab,x=1,v1=cd, v1= ");
    assert_eq!(p.timestamp, Some(b"12".to_vec()));
    assert_eq!(p.signatures, vec![b"ab".to_vec(), b"cd".to_vec(), Vec::new()]);
    let p = parse_signature_header(b"");
    assert_eq!(p.timestamp, None);
    assert!(p.signatures.is_empty());
    assert!(within_tolerance_window(10, 20, 10));
    assert!(!within_tolerance_window(10, 21, 10));
    assert!(within_tolerance_window(i64::MIN, i64::MAX, u64::MAX));
    assert!(!within_tolerance_window(i64::MIN, i64::MAX, 0));
}

#[test]
fn tampered_payload_does_not_verify() {
    let signer = WebhookSignature::new("s");
    let issued = signer.sign(b"abc");
    let mut tampered = b"abc".to_vec();
    tampered.push(0xAA);
    assert!(!matches!(signer.verify(&tampered, &issued, u64::MAX), Ok(true)));
    assert!(matches!(signer.verify(b"abc", &issued, u64::MAX), Ok(true)));
}
