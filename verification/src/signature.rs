//! Webhook signatures: HMAC over the payload, carried in a header.
//!
//! Two header schemes are understood:
//! * `t=<timestamp>,v1=<hex>`: the MAC (HMAC-SHA256 or HMAC-SHA512, as
//!   configured) of `<timestamp>.<payload>`, in lowercase hexadecimal. The
//!   timestamp must lie within a tolerance of the current time, and the
//!   header is accepted only when it is, byte for byte, the header that signs
//!   the payload at its own timestamp.
//! * `sha256=<hex>`: HMAC-SHA256 of the raw payload, with no timestamp.

use vstd::prelude::*;
use hmac::Mac;
use crate::clock::now;
use crate::config::SigningAlgorithm;
use crate::error::WebhookError;
use crate::text::{
    append_bytes, constant_time_eq, copy_range, has_prefix, hex_encode, hex_lower,
    is_ascii_bytes, lemma_ascii_utf8, lemma_decimal_ascii, lemma_hex_lower_ascii, parse_i64,
    parse_signed, push_signed_decimal, signed_decimal, split_bytes, split_on, starts_with, trim,
    trim_whitespace, utf8, utf8_string, views, lemma_utf8_concat, ascii_chars, ascii_string,
};

verus! {

// ---------------------------------------------------------------------------
// HMAC
// ---------------------------------------------------------------------------

/// The HMAC-SHA256 tag of `message` under `key`.
pub uninterp spec fn hmac_sha256_tag(key: Seq<u8>, message: Seq<u8>) -> Seq<u8>;

/// The HMAC-SHA512 tag of `message` under `key`.
pub uninterp spec fn hmac_sha512_tag(key: Seq<u8>, message: Seq<u8>) -> Seq<u8>;

/// HMAC-SHA256 of `message` under `key`.
///
/// Trusted: calls `hmac::Hmac::<sha2::Sha256>::new_from_slice`, `update` and
/// `finalize`. The result is named `hmac_sha256_tag` of the key and the
/// message; it is 32 bytes, the output size of SHA-256. The hmac crate's
/// source returns `Ok` from `new_from_slice` for every key length, so the
/// error branch is never taken.
#[verifier::external_body]
fn hmac_sha256(key: &[u8], message: &[u8]) -> (tag: Vec<u8>)
    ensures
        tag@ == hmac_sha256_tag(key@, message@),
        tag@.len() == 32,
{
    match hmac::Hmac::<sha2::Sha256>::new_from_slice(key) {
        Ok(mut mac) => {
            mac.update(message);
            mac.finalize().into_bytes().to_vec()
        },
        Err(_) => Vec::new(),
    }
}

/// HMAC-SHA512 of `message` under `key`.
///
/// Trusted: calls `hmac::Hmac::<sha2::Sha512>::new_from_slice`, `update` and
/// `finalize`. The result is named `hmac_sha512_tag` of the key and the
/// message; it is 64 bytes, the output size of SHA-512. As above, the error
/// branch is never taken.
#[verifier::external_body]
fn hmac_sha512(key: &[u8], message: &[u8]) -> (tag: Vec<u8>)
    ensures
        tag@ == hmac_sha512_tag(key@, message@),
        tag@.len() == 64,
{
    match hmac::Hmac::<sha2::Sha512>::new_from_slice(key) {
        Ok(mut mac) => {
            mac.update(message);
            mac.finalize().into_bytes().to_vec()
        },
        Err(_) => Vec::new(),
    }
}

/// The MAC of `message` under `key` with the given algorithm.
pub open spec fn mac_tag(algorithm: SigningAlgorithm, key: Seq<u8>, message: Seq<u8>) -> Seq<u8> {
    match algorithm {
        SigningAlgorithm::HmacSha256 => hmac_sha256_tag(key, message),
        SigningAlgorithm::HmacSha512 => hmac_sha512_tag(key, message),
    }
}

fn compute_mac(algorithm: SigningAlgorithm, key: &[u8], message: &[u8]) -> (tag: Vec<u8>)
    ensures
        tag@ == mac_tag(algorithm, key@, message@),
{
    match algorithm {
        SigningAlgorithm::HmacSha256 => hmac_sha256(key, message),
        SigningAlgorithm::HmacSha512 => hmac_sha512(key, message),
    }
}

// ---------------------------------------------------------------------------
// Header format
// ---------------------------------------------------------------------------

/// `t=`
pub open spec fn timestamp_tag() -> Seq<u8> {
    seq![116u8, 61u8]
}

/// `v1=`
pub open spec fn signature_tag() -> Seq<u8> {
    seq![118u8, 49u8, 61u8]
}

/// `sha256=`
pub open spec fn github_tag() -> Seq<u8> {
    seq![115u8, 104u8, 97u8, 50u8, 53u8, 54u8, 61u8]
}

fn timestamp_tag_bytes() -> (b: Vec<u8>)
    ensures
        b@ == timestamp_tag(),
{
    let b: Vec<u8> = vec![116, 61];
    assert(b@ =~= timestamp_tag());
    b
}

fn signature_tag_bytes() -> (b: Vec<u8>)
    ensures
        b@ == signature_tag(),
{
    let b: Vec<u8> = vec![118, 49, 61];
    assert(b@ =~= signature_tag());
    b
}

fn github_tag_bytes() -> (b: Vec<u8>)
    ensures
        b@ == github_tag(),
{
    let b: Vec<u8> = vec![115, 104, 97, 50, 53, 54, 61];
    assert(b@ =~= github_tag());
    b
}

/// The bytes that a timestamped signature covers: `<timestamp>.<payload>`.
pub open spec fn signed_message(timestamp: Seq<u8>, payload: Seq<u8>) -> Seq<u8> {
    timestamp + seq![46u8] + payload
}

/// The `v1` value that signs `payload` at `timestamp`.
pub open spec fn expected_signature(
    algorithm: SigningAlgorithm,
    key: Seq<u8>,
    timestamp: Seq<u8>,
    payload: Seq<u8>,
) -> Seq<u8> {
    hex_lower(mac_tag(algorithm, key, signed_message(timestamp, payload)))
}

/// The header `t=<timestamp>,v1=<hex>` that signs `payload` at `timestamp`.
pub open spec fn signature_header(
    algorithm: SigningAlgorithm,
    key: Seq<u8>,
    timestamp: Seq<u8>,
    payload: Seq<u8>,
) -> Seq<u8> {
    timestamp_tag() + timestamp + seq![44u8] + signature_tag() + expected_signature(
        algorithm,
        key,
        timestamp,
        payload,
    )
}

/// The header `sha256=<hex>` that signs `payload` in the untimed scheme.
pub open spec fn github_header(key: Seq<u8>, payload: Seq<u8>) -> Seq<u8> {
    github_tag() + hex_lower(hmac_sha256_tag(key, payload))
}

/// The comma-separated fields of a header, each trimmed of whitespace.
pub open spec fn header_fields(header: Seq<u8>) -> Seq<Seq<u8>> {
    split_on(header, 44u8).map_values(|f: Seq<u8>| trim(f))
}

/// What follows `tag` in the first field that starts with it.
pub open spec fn first_value(fields: Seq<Seq<u8>>, tag: Seq<u8>) -> Option<Seq<u8>>
    decreases fields.len(),
{
    if fields.len() == 0 {
        None
    } else {
        match first_value(fields.drop_last(), tag) {
            Some(v) => Some(v),
            None => if has_prefix(fields.last(), tag) {
                Some(fields.last().subrange(tag.len() as int, fields.last().len() as int))
            } else {
                None
            },
        }
    }
}

/// What follows `tag` in each field that starts with it, in order.
pub open spec fn all_values(fields: Seq<Seq<u8>>, tag: Seq<u8>) -> Seq<Seq<u8>>
    decreases fields.len(),
{
    if fields.len() == 0 {
        Seq::empty()
    } else {
        let front = all_values(fields.drop_last(), tag);
        if has_prefix(fields.last(), tag) {
            front.push(fields.last().subrange(tag.len() as int, fields.last().len() as int))
        } else {
            front
        }
    }
}

/// `t` lies within `tolerance` seconds of `now`, before or after.
pub open spec fn within_tolerance(t: int, now: int, tolerance: int) -> bool {
    now - tolerance <= t && t <= now + tolerance
}

/// How a signature header fares against a payload.
#[derive(Debug, Clone, Copy, PartialEq, Eq, Structural)]
pub enum Verdict {
    /// The header carries a signature of the payload.
    Valid,
    /// The header is well formed but carries no signature of the payload.
    Invalid,
    /// The header lacks a timestamp or a signature.
    Malformed,
    /// The timestamp is no decimal `i64`.
    BadTimestamp,
    /// The timestamp lies outside the tolerance window.
    Expired,
}

/// The verdict on `header` for `payload`, with the given key, tolerance and
/// current time (in seconds since the Unix epoch).
pub open spec fn verdict(
    algorithm: SigningAlgorithm,
    key: Seq<u8>,
    payload: Seq<u8>,
    header: Seq<u8>,
    tolerance: u64,
    now: i64,
) -> Verdict {
    if has_prefix(header, github_tag()) {
        if header.subrange(7, header.len() as int) == hex_lower(hmac_sha256_tag(key, payload)) {
            Verdict::Valid
        } else {
            Verdict::Invalid
        }
    } else {
        let fields = header_fields(header);
        match first_value(fields, timestamp_tag()) {
            None => Verdict::Malformed,
            Some(ts) => {
                let sigs = all_values(fields, signature_tag());
                if sigs.len() == 0 {
                    Verdict::Malformed
                } else {
                    match parse_signed(ts) {
                        None => Verdict::BadTimestamp,
                        Some(t) => if !within_tolerance(t, now as int, tolerance as int) {
                            Verdict::Expired
                        } else if header == signature_header(algorithm, key, ts, payload) {
                            Verdict::Valid
                        } else {
                            Verdict::Invalid
                        },
                    }
                }
            },
        }
    }
}

/// `r` is what verification returns for the verdict `v`.
pub open spec fn reports(r: Result<bool, WebhookError>, v: Verdict) -> bool {
    match v {
        Verdict::Valid => r == Ok::<bool, WebhookError>(true),
        Verdict::Invalid => r == Ok::<bool, WebhookError>(false),
        Verdict::Malformed => r matches Err(WebhookError::SignatureInvalid(m)) && m@
            == "Invalid signature header format"@,
        Verdict::BadTimestamp => r matches Err(WebhookError::TimestampInvalid(m)) && m@
            == "Invalid timestamp in signature header"@,
        Verdict::Expired => r matches Err(WebhookError::TimestampInvalid(m)) && m@
            == "Timestamp outside the tolerance window"@,
    }
}

/// The fields of a timestamped signature header.
pub struct ParsedHeader {
    /// What follows `t=` in the first field that starts with it.
    pub timestamp: Option<Vec<u8>>,
    /// What follows `v1=` in each field that starts with it.
    pub signatures: Vec<Vec<u8>>,
}

/// Splits a `t=..,v1=..` header into its timestamp and signatures.
pub fn parse_signature_header(header: &[u8]) -> (p: ParsedHeader)
    ensures
        match p.timestamp {
            Some(t) => first_value(header_fields(header@), timestamp_tag()) == Some(t@),
            None => first_value(header_fields(header@), timestamp_tag()) is None,
        },
        views(p.signatures@) == all_values(header_fields(header@), signature_tag()),
{
    let fields = split_bytes(header, 44);
    let ghost all = header_fields(header@);
    let t_tag = timestamp_tag_bytes();
    let v_tag = signature_tag_bytes();
    let mut timestamp: Option<Vec<u8>> = None;
    let mut signatures: Vec<Vec<u8>> = Vec::new();
    let mut i: usize = 0;
    assert(all.subrange(0, 0) =~= Seq::<Seq<u8>>::empty());
    assert(views(signatures@) =~= Seq::<Seq<u8>>::empty());
    while i < fields.len()
        invariant
            t_tag@ == timestamp_tag(),
            v_tag@ == signature_tag(),
            all == header_fields(header@),
            views(fields@) == split_on(header@, 44u8),
            all.len() == fields@.len(),
            i <= fields@.len(),
            match timestamp {
                Some(t) => first_value(all.subrange(0, i as int), timestamp_tag()) == Some(t@),
                None => first_value(all.subrange(0, i as int), timestamp_tag()) is None,
            },
            views(signatures@) == all_values(all.subrange(0, i as int), signature_tag()),
        decreases fields@.len() - i,
    {
        let field = trim_whitespace(&fields[i]);
        let ghost pre = all.subrange(0, i + 1);
        assert(pre.drop_last() =~= all.subrange(0, i as int));
        assert(fields@[i as int]@ == views(fields@)[i as int]);
        assert(pre.last() == field@);
        if timestamp.is_none() && starts_with(&field, &t_tag) {
            timestamp = Some(copy_range(&field, 2, field.len()));
        }
        if starts_with(&field, &v_tag) {
            let ghost before = views(signatures@);
            signatures.push(copy_range(&field, 3, field.len()));
            assert(views(signatures@) =~= before.push(field@.subrange(3, field@.len() as int)));
        }
        i += 1;
    }
    assert(all.subrange(0, i as int) =~= all);
    ParsedHeader { timestamp, signatures }
}

/// Whether `t` lies within `tolerance` seconds of `now`.
pub fn within_tolerance_window(t: i64, now: i64, tolerance: u64) -> (r: bool)
    ensures
        r == within_tolerance(t as int, now as int, tolerance as int),
{
    let d: i128 = (now as i128) - (t as i128);
    let tol = tolerance as i128;
    -tol <= d && d <= tol
}

// ---------------------------------------------------------------------------
// Signer and verifier
// ---------------------------------------------------------------------------

/// Signs and verifies webhook payloads with a shared secret.
#[derive(Debug, Clone)]
pub struct WebhookSignature {
    secret: String,
    algorithm: SigningAlgorithm,
}

impl WebhookSignature {
    /// The shared secret.
    pub closed spec fn secret(&self) -> Seq<char> {
        self.secret@
    }

    /// The configured MAC algorithm.
    pub closed spec fn algorithm(&self) -> SigningAlgorithm {
        self.algorithm
    }

    /// The MAC key: the secret's UTF-8 bytes.
    pub open spec fn key(&self) -> Seq<u8> {
        utf8(self.secret())
    }

    /// Create a signer with the given secret, using HMAC-SHA256.
    pub fn new(secret: &str) -> (s: Self)
        ensures
            s.secret() == secret@,
            s.algorithm() == SigningAlgorithm::HmacSha256,
    {
        WebhookSignature { secret: secret.to_owned(), algorithm: SigningAlgorithm::HmacSha256 }
    }

    /// Use the given MAC algorithm for the timestamped scheme.
    pub fn with_algorithm(self, algorithm: SigningAlgorithm) -> (s: Self)
        ensures
            s.secret() == self.secret(),
            s.algorithm() == algorithm,
    {
        WebhookSignature { secret: self.secret, algorithm }
    }

    /// A copy of this signer.
    pub fn duplicate(&self) -> (s: Self)
        ensures
            s.secret() == self.secret(),
            s.algorithm() == self.algorithm(),
    {
        WebhookSignature { secret: self.secret.clone(), algorithm: self.algorithm }
    }

    fn key_bytes(&self) -> (k: &[u8])
        ensures
            k@ == self.key(),
    {
        self.secret.as_str().as_bytes()
    }

    /// Sign `payload` at the given timestamp: `t=<timestamp>,v1=<hex MAC>`.
    pub fn sign_with_timestamp(&self, payload: &[u8], timestamp: &str) -> (header: String)
        ensures
            utf8(header@) == signature_header(
                self.algorithm(),
                self.key(),
                utf8(timestamp@),
                payload@,
            ),
    {
        let ts = timestamp.as_bytes();
        let mut message: Vec<u8> = Vec::new();
        append_bytes(&mut message, ts);
        message.push(46);
        append_bytes(&mut message, payload);
        assert(message@ =~= signed_message(ts@, payload@));
        let tag = compute_mac(self.algorithm, self.key_bytes(), &message);
        let hex = hex_encode(&tag);
        let mut out = timestamp_tag_bytes();
        append_bytes(&mut out, ts);
        out.push(44);
        let v_tag = signature_tag_bytes();
        append_bytes(&mut out, &v_tag);
        append_bytes(&mut out, &hex);
        let ghost hex_chars = ascii_chars(hex@);
        let ghost chars = seq!['t', '=', ] + timestamp@ + seq![',', 'v', '1', '='] + hex_chars;
        proof {
            lemma_hex_lower_ascii(tag@);
            lemma_ascii_utf8(hex@);
            let a = seq!['t', '='];
            let b = seq![',', 'v', '1', '='];
            lemma_ascii_utf8(timestamp_tag());
            lemma_ascii_utf8(seq![44u8] + signature_tag());
            assert(ascii_chars(timestamp_tag()) =~= a);
            assert(ascii_chars(seq![44u8] + signature_tag()) =~= b);
            lemma_utf8_concat(a, timestamp@);
            lemma_utf8_concat(a + timestamp@, b);
            lemma_utf8_concat(a + timestamp@ + b, hex_chars);
            assert(out@ =~= timestamp_tag() + ts@ + (seq![44u8] + signature_tag()) + hex@);
            assert(utf8(chars) =~= out@);
            assert(out@ =~= signature_header(self.algorithm, self.key(), ts@, payload@));
        }
        utf8_string(out, Ghost(chars))
    }

    /// Sign `payload` at the current time.
    pub fn sign(&self, payload: &[u8]) -> (header: String)
        ensures
            exists|t: i64|
                t >= 0 && utf8(header@) == #[trigger] signature_header(
                    self.algorithm(),
                    self.key(),
                    signed_decimal(t as int),
                    payload@,
                ),
    {
        let t = now();
        let mut digits: Vec<u8> = Vec::new();
        push_signed_decimal(t.seconds, &mut digits);
        assert(digits@ =~= signed_decimal(t.seconds as int));
        proof {
            lemma_decimal_ascii(t.seconds as int);
            lemma_ascii_utf8(digits@);
        }
        let timestamp = ascii_string(digits);
        self.sign_with_timestamp(payload, timestamp.as_str())
    }

    /// Verify `header` for `payload` as of `now` (seconds since the Unix
    /// epoch), accepting timestamps within `tolerance` seconds of it.
    pub fn verify_at(&self, payload: &[u8], header: &str, tolerance: u64, now: i64) -> (r: Result<
        bool,
        WebhookError,
    >)
        ensures
            reports(
                r,
                verdict(self.algorithm(), self.key(), payload@, utf8(header@), tolerance, now),
            ),
    {
        let h = header.as_bytes();
        let key = self.key_bytes();
        let g_tag = github_tag_bytes();
        if starts_with(h, &g_tag) {
            let given = copy_range(h, 7, h.len());
            let tag = hmac_sha256(key, payload);
            let expected = hex_encode(&tag);
            return Ok(constant_time_eq(&given, &expected));
        }
        let parsed = parse_signature_header(h);
        let ts = match parsed.timestamp {
            Some(ts) => ts,
            None => {
                return Err(WebhookError::SignatureInvalid("Invalid signature header format".to_owned()));
            },
        };
        if parsed.signatures.len() == 0 {
            return Err(WebhookError::SignatureInvalid("Invalid signature header format".to_owned()));
        }
        let t = match parse_i64(&ts) {
            Some(t) => t,
            None => {
                return Err(WebhookError::TimestampInvalid("Invalid timestamp in signature header".to_owned()));
            },
        };
        if !within_tolerance_window(t, now, tolerance) {
            return Err(WebhookError::TimestampInvalid("Timestamp outside the tolerance window".to_owned()));
        }
        let mut message: Vec<u8> = Vec::new();
        append_bytes(&mut message, &ts);
        message.push(46);
        append_bytes(&mut message, payload);
        assert(message@ =~= signed_message(ts@, payload@));
        let tag = compute_mac(self.algorithm, key, &message);
        let hex = hex_encode(&tag);
        let mut expected = timestamp_tag_bytes();
        append_bytes(&mut expected, &ts);
        expected.push(44);
        let v_tag = signature_tag_bytes();
        append_bytes(&mut expected, &v_tag);
        append_bytes(&mut expected, &hex);
        assert(expected@ =~= signature_header(self.algorithm, key@, ts@, payload@));
        Ok(constant_time_eq(h, &expected))
    }

    /// Verify `header` for `payload` at the current time, accepting
    /// timestamps within `tolerance` seconds of it.
    pub fn verify(&self, payload: &[u8], header: &str, tolerance: u64) -> (r: Result<
        bool,
        WebhookError,
    >)
        ensures
            exists|now: i64|
                now >= 0 && #[trigger] reports(
                    r,
                    verdict(self.algorithm(), self.key(), payload@, utf8(header@), tolerance, now),
                ),
    {
        let t = now();
        self.verify_at(payload, header, tolerance, t.seconds)
    }
}

} // verus!

verus! {

// ---------------------------------------------------------------------------
// Laws
// ---------------------------------------------------------------------------

/// A lowercase hexadecimal digit.
pub open spec fn is_hex_digit(b: u8) -> bool {
    (48 <= b <= 57) || (97 <= b <= 102)
}

proof fn lemma_hex_lower_digits(bytes: Seq<u8>)
    ensures
        forall|i: int|
            0 <= i < hex_lower(bytes).len() ==> is_hex_digit(#[trigger] hex_lower(bytes)[i]),
    decreases bytes.len(),
{
    if bytes.len() > 0 {
        lemma_hex_lower_digits(bytes.drop_last());
        let h = hex_lower(bytes);
        let front = hex_lower(bytes.drop_last());
        assert forall|i: int| 0 <= i < h.len() implies is_hex_digit(#[trigger] h[i]) by {
            if i < front.len() {
                assert(h[i] == front[i]);
            }
        }
    }
}

/// Appending bytes free of the separator extends the last piece.
proof fn lemma_split_extend(p: Seq<u8>, y: Seq<u8>, sep: u8)
    requires
        forall|i: int| 0 <= i < y.len() ==> #[trigger] y[i] != sep,
    ensures
        split_on(p, sep).len() >= 1,
        split_on(p + y, sep) == split_on(p, sep).update(
            split_on(p, sep).len() - 1,
            split_on(p, sep).last() + y,
        ),
    decreases y.len(),
{
    crate::text::lemma_split_nonempty(p, sep);
    if y.len() == 0 {
        assert(p + y =~= p);
        let s = split_on(p, sep);
        assert(s.last() + y =~= s.last());
        assert(s.update(s.len() - 1, s.last() + y) =~= s);
    } else {
        let y0 = y.drop_last();
        assert forall|i: int| 0 <= i < y0.len() implies #[trigger] y0[i] != sep by {
            assert(y0[i] == y[i]);
        }
        lemma_split_extend(p, y0, sep);
        assert((p + y).drop_last() =~= p + y0);
        assert((p + y).last() == y.last());
        let s = split_on(p, sep);
        let front = split_on(p + y0, sep);
        assert(y[y.len() - 1] != sep);
        assert(front.len() == s.len());
        assert(front.last() == s.last() + y0);
        assert((s.last() + y0).push(y.last()) =~= s.last() + y);
        assert(split_on(p + y, sep) =~= s.update(s.len() - 1, s.last() + y));
    }
}

/// `a,b` splits into `a` and `b` when neither holds a comma.
proof fn lemma_split_two(a: Seq<u8>, b: Seq<u8>)
    requires
        forall|i: int| 0 <= i < a.len() ==> #[trigger] a[i] != 44u8,
        forall|i: int| 0 <= i < b.len() ==> #[trigger] b[i] != 44u8,
    ensures
        split_on(a + seq![44u8] + b, 44u8) == seq![a, b],
{
    let e = Seq::<u8>::empty();
    lemma_split_extend(e, a, 44u8);
    assert(e + a =~= a);
    assert(split_on(e, 44u8) =~= seq![e]);
    assert(split_on(a, 44u8) =~= seq![a]);
    let a1 = a + seq![44u8];
    assert(a1.drop_last() =~= a);
    assert(split_on(a1, 44u8) =~= seq![a, e]);
    lemma_split_extend(a1, b, 44u8);
    assert(split_on(a1 + b, 44u8) =~= seq![a, b]);
}

/// A field whose first and last bytes are not whitespace is its own trim.
proof fn lemma_trim_fixed(s: Seq<u8>)
    requires
        s.len() > 0,
        !crate::text::is_space(s[0]),
        !crate::text::is_space(s.last()),
    ensures
        trim(s) == s,
{
    assert(crate::text::trim_start(s) == s);
    assert(crate::text::trim_end(s) == s);
}

/// A signed header reads back as what was signed: no `sha256=` prefix, the
/// timestamp as its first `t` value, and the MAC as its only `v1` value.
proof fn lemma_signed_header_fields(
    algorithm: SigningAlgorithm,
    key: Seq<u8>,
    timestamp: Seq<u8>,
    payload: Seq<u8>,
)
    requires
        forall|i: int| 0 <= i < timestamp.len() ==> #[trigger] timestamp[i] != 44u8,
        timestamp.len() > 0 ==> !crate::text::is_space(timestamp.last()),
    ensures
        ({
            let h = signature_header(algorithm, key, timestamp, payload);
            &&& !has_prefix(h, github_tag())
            &&& first_value(header_fields(h), timestamp_tag()) == Some(timestamp)
            &&& all_values(header_fields(h), signature_tag()) == seq![
                expected_signature(algorithm, key, timestamp, payload),
            ]
        }),
{
    let hex = expected_signature(algorithm, key, timestamp, payload);
    let a = timestamp_tag() + timestamp;
    let b = signature_tag() + hex;
    let h = signature_header(algorithm, key, timestamp, payload);
    assert(h =~= a + seq![44u8] + b);
    lemma_hex_lower_digits(mac_tag(algorithm, key, signed_message(timestamp, payload)));
    assert forall|i: int| 0 <= i < a.len() implies #[trigger] a[i] != 44u8 by {
        if i >= 2 {
            assert(a[i] == timestamp[i - 2]);
        }
    }
    assert forall|i: int| 0 <= i < b.len() implies #[trigger] b[i] != 44u8 by {
        if i >= 3 {
            assert(b[i] == hex[i - 3]);
            assert(is_hex_digit(hex[i - 3]));
        }
    }
    lemma_split_two(a, b);
    assert(a[0] == 116u8);
    if timestamp.len() > 0 {
        assert(a.last() == timestamp.last());
    }
    lemma_trim_fixed(a);
    assert(b[0] == 118u8);
    if hex.len() > 0 {
        assert(b.last() == hex.last());
        assert(is_hex_digit(hex[hex.len() - 1]));
    }
    lemma_trim_fixed(b);
    let fields = header_fields(h);
    assert(fields =~= seq![a, b]);
    assert(!has_prefix(h, github_tag())) by {
        assert(h[0] == 116u8);
        if h.len() >= 7 {
            assert(h.subrange(0, 7)[0] == h[0]);
            assert(h.subrange(0, 7)[0] != github_tag()[0]);
        }
    }
    assert(seq![a, b].drop_last() =~= seq![a]);
    assert(seq![a].drop_last() =~= Seq::<Seq<u8>>::empty());
    assert(a.subrange(0, 2) =~= timestamp_tag());
    assert(a.subrange(2, a.len() as int) =~= timestamp);
    let none = Seq::<Seq<u8>>::empty();
    assert(first_value(none, timestamp_tag()) is None);
    assert(all_values(none, signature_tag()) =~= none);
    assert(seq![a].last() == a);
    assert(seq![a, b].last() == b);
    assert(has_prefix(a, timestamp_tag()));
    assert(first_value(seq![a], timestamp_tag()) == Some(timestamp));
    assert(first_value(fields, timestamp_tag()) == Some(timestamp));
    assert(!has_prefix(a, signature_tag())) by {
        if a.len() >= 3 {
            assert(a.subrange(0, 3)[0] == a[0]);
            assert(a.subrange(0, 3)[0] != signature_tag()[0]);
        }
    }
    assert(b.subrange(0, 3) =~= signature_tag());
    assert(b.subrange(3, b.len() as int) =~= hex);
    assert(all_values(seq![a], signature_tag()) =~= Seq::<Seq<u8>>::empty());
    assert(all_values(fields, signature_tag()) =~= seq![hex]);
}

/// A header made by signing verifies: for any timestamp that parses to a time
/// within the tolerance of `now`, holds no comma and does not end in
/// whitespace, the header `t=<timestamp>,v1=<MAC>` that signs `payload` with
/// the same key and algorithm is judged valid.
pub proof fn law_signed_header_verifies(
    algorithm: SigningAlgorithm,
    key: Seq<u8>,
    timestamp: Seq<u8>,
    payload: Seq<u8>,
    tolerance: u64,
    now: i64,
)
    requires
        forall|i: int| 0 <= i < timestamp.len() ==> #[trigger] timestamp[i] != 44u8,
        timestamp.len() > 0 ==> !crate::text::is_space(timestamp.last()),
        parse_signed(timestamp) matches Some(t) && within_tolerance(t, now as int, tolerance as int),
    ensures
        verdict(
            algorithm,
            key,
            payload,
            signature_header(algorithm, key, timestamp, payload),
            tolerance,
            now,
        ) == Verdict::Valid,
{
    lemma_signed_header_fields(algorithm, key, timestamp, payload);
}

/// A header signed for one payload is accepted for another payload only if
/// the two MACs at that timestamp coincide.
pub proof fn law_signed_header_binds_payload(
    algorithm: SigningAlgorithm,
    key: Seq<u8>,
    timestamp: Seq<u8>,
    payload: Seq<u8>,
    other: Seq<u8>,
    tolerance: u64,
    now: i64,
)
    requires
        forall|i: int| 0 <= i < timestamp.len() ==> #[trigger] timestamp[i] != 44u8,
        timestamp.len() > 0 ==> !crate::text::is_space(timestamp.last()),
        verdict(
            algorithm,
            key,
            other,
            signature_header(algorithm, key, timestamp, payload),
            tolerance,
            now,
        ) == Verdict::Valid,
    ensures
        expected_signature(algorithm, key, timestamp, other) == expected_signature(
            algorithm,
            key,
            timestamp,
            payload,
        ),
{
    lemma_signed_header_fields(algorithm, key, timestamp, payload);
    let hex = expected_signature(algorithm, key, timestamp, payload);
    let mine = expected_signature(algorithm, key, timestamp, other);
    let prefix = timestamp_tag() + timestamp + seq![44u8] + signature_tag();
    let h = signature_header(algorithm, key, timestamp, payload);
    assert(h =~= prefix + hex);
    assert(signature_header(algorithm, key, timestamp, other) =~= prefix + mine);
    assert(hex =~= h.subrange(prefix.len() as int, h.len() as int));
    assert(mine =~= h.subrange(prefix.len() as int, h.len() as int));
}

/// What `sign` produces verifies for the same payload, key and algorithm
/// whenever the signing time lies within the tolerance of `now`.
pub proof fn law_sign_then_verify(
    algorithm: SigningAlgorithm,
    key: Seq<u8>,
    signed_at: i64,
    payload: Seq<u8>,
    tolerance: u64,
    now: i64,
)
    requires
        within_tolerance(signed_at as int, now as int, tolerance as int),
    ensures
        verdict(
            algorithm,
            key,
            payload,
            signature_header(algorithm, key, signed_decimal(signed_at as int), payload),
            tolerance,
            now,
        ) == Verdict::Valid,
{
    let ts = signed_decimal(signed_at as int);
    crate::text::lemma_signed_decimal_roundtrip(signed_at);
    crate::text::lemma_decimal_roundtrip(if signed_at < 0 { (-(signed_at as int)) as nat } else { signed_at as nat });
    assert forall|i: int| 0 <= i < ts.len() implies #[trigger] ts[i] != 44u8 by {
        if signed_at < 0 {
            if i > 0 {
                assert(ts[i] == crate::text::decimal((-(signed_at as int)) as nat)[i - 1]);
            }
        }
    }
    if signed_at < 0 {
        assert(ts.last() == crate::text::decimal((-(signed_at as int)) as nat).last());
    }
    law_signed_header_verifies(algorithm, key, ts, payload, tolerance, now);
}

/// A `sha256=` header carrying the HMAC-SHA256 of the payload in lowercase
/// hexadecimal verifies, whatever the tolerance, the current time and the
/// algorithm configured for the timestamped scheme.
pub proof fn law_github_header_verifies(
    algorithm: SigningAlgorithm,
    key: Seq<u8>,
    payload: Seq<u8>,
    tolerance: u64,
    now: i64,
)
    ensures
        verdict(algorithm, key, payload, github_header(key, payload), tolerance, now)
            == Verdict::Valid,
{
    let h = github_header(key, payload);
    assert(h.subrange(0, 7) =~= github_tag());
    assert(h.subrange(7, h.len() as int) =~= hex_lower(hmac_sha256_tag(key, payload)));
}

/// A `sha256=` header carrying anything but the payload's HMAC-SHA256 in
/// lowercase hexadecimal is rejected.
pub proof fn law_github_header_mismatch_rejected(
    algorithm: SigningAlgorithm,
    key: Seq<u8>,
    payload: Seq<u8>,
    given: Seq<u8>,
    tolerance: u64,
    now: i64,
)
    requires
        given != hex_lower(hmac_sha256_tag(key, payload)),
    ensures
        verdict(algorithm, key, payload, github_tag() + given, tolerance, now)
            == Verdict::Invalid,
{
    let h = github_tag() + given;
    assert(h.subrange(0, 7) =~= github_tag());
    assert(h.subrange(7, h.len() as int) =~= given);
}

/// No made-up header is accepted: an accepted header is either exactly the
/// `sha256=` header that signs the payload, or exactly the header
/// `t=<timestamp>,v1=<MAC>` that signs the payload at its own timestamp, with
/// that timestamp inside the tolerance window.
pub proof fn law_only_exact_headers_accepted(
    algorithm: SigningAlgorithm,
    key: Seq<u8>,
    payload: Seq<u8>,
    header: Seq<u8>,
    tolerance: u64,
    now: i64,
)
    requires
        verdict(algorithm, key, payload, header, tolerance, now) == Verdict::Valid,
    ensures
        header == github_header(key, payload) || exists|ts: Seq<u8>|
            #![trigger signature_header(algorithm, key, ts, payload)]
            {
                &&& header == signature_header(algorithm, key, ts, payload)
                &&& parse_signed(ts) matches Some(t)
                &&& within_tolerance(t, now as int, tolerance as int)
            },
{
    if has_prefix(header, github_tag()) {
        assert(header =~= header.subrange(0, 7) + header.subrange(7, header.len() as int));
    } else {
        let ts = first_value(header_fields(header), timestamp_tag())->Some_0;
        assert(header == signature_header(algorithm, key, ts, payload));
    }
}

/// A timestamped header whose timestamp lies outside the tolerance window is
/// never accepted, whatever MAC it carries.
pub proof fn law_stale_timestamp_rejected(
    algorithm: SigningAlgorithm,
    key: Seq<u8>,
    payload: Seq<u8>,
    header: Seq<u8>,
    tolerance: u64,
    now: i64,
)
    requires
        !has_prefix(header, github_tag()),
        first_value(header_fields(header), timestamp_tag()) matches Some(ts) && parse_signed(ts) matches Some(t)
            && !within_tolerance(t, now as int, tolerance as int),
    ensures
        verdict(algorithm, key, payload, header, tolerance, now) != Verdict::Valid,
{
}

} // verus!
