//! Webhook receiver for handling incoming webhooks.

use vstd::prelude::*;
use std::collections::HashMap;
use crate::config::{SigningAlgorithm, DEFAULT_TIMESTAMP_TOLERANCE};
use crate::endpoint::{event_matches, pattern_matches};
use crate::error::WebhookError;
use crate::payload::WebhookPayload;
use crate::signature::{reports, verdict, WebhookSignature};
use crate::text::utf8;

verus! {

// ---------------------------------------------------------------------------
// Header names
// ---------------------------------------------------------------------------

/// The Unicode lowercase form of a string.
pub uninterp spec fn lowercase(s: Seq<char>) -> Seq<char>;

/// The lowercase form of `s`.
///
/// Trusted: calls `str::to_lowercase`. The result depends on `s` alone (the
/// Unicode lowercase mapping, which takes tables to state) and is named
/// `lowercase`.
#[verifier::external_body]
fn to_lowercase(s: &str) -> (r: String)
    ensures
        r@ == lowercase(s@),
{
    s.to_lowercase()
}

/// The name-value pairs of a header map, in the map's iteration order.
///
/// Trusted: walks `HashMap::iter`, which visits every pair once in an order
/// that depends on the map's random hasher, and clones each pair. The order
/// is not stated; that the pairs are exactly those of the map is.
#[verifier::external_body]
fn header_entries(headers: &HashMap<String, String>) -> (entries: Vec<(String, String)>)
    ensures
        entries@.len() == headers@.len(),
        forall|i: int|
            0 <= i < entries@.len() ==> headers@.contains_key(#[trigger] entries@[i].0)
                && headers@[entries@[i].0] == entries@[i].1,
        forall|k: String|
            headers@.contains_key(k) ==> exists|i: int|
                0 <= i < entries@.len() && #[trigger] entries@[i].0 == k,
{
    let mut entries = Vec::new();
    for (k, v) in headers.iter() {
        entries.push((k.clone(), v.clone()));
    }
    entries
}

/// The signature header names, lowercase, in order of preference:
/// `x-webhook-signature`, then `x-hub-signature-256`.
pub open spec fn signature_header_names() -> Seq<Seq<char>> {
    seq!["x-webhook-signature"@, "x-hub-signature-256"@]
}

/// The last position in `keys` that holds `name`.
pub open spec fn last_index_of(keys: Seq<Seq<char>>, name: Seq<char>) -> Option<int>
    decreases keys.len(),
{
    if keys.len() == 0 {
        None
    } else if keys.last() == name {
        Some(keys.len() - 1)
    } else {
        last_index_of(keys.drop_last(), name)
    }
}

/// The position of the header to verify, given the lowercase header names in
/// order: the last `x-webhook-signature` if there is one, else the last
/// `x-hub-signature-256` (a later pair overrides an earlier one of the same
/// lowercase name).
pub open spec fn chosen_header(keys: Seq<Seq<char>>) -> Option<int> {
    match last_index_of(keys, signature_header_names()[0]) {
        Some(i) => Some(i),
        None => last_index_of(keys, signature_header_names()[1]),
    }
}

proof fn lemma_last_index_of(keys: Seq<Seq<char>>, name: Seq<char>)
    ensures
        last_index_of(keys, name) matches Some(i) ==> 0 <= i < keys.len() && keys[i] == name,
        last_index_of(keys, name) is None ==> !keys.contains(name),
    decreases keys.len(),
{
    if keys.len() > 0 {
        lemma_last_index_of(keys.drop_last(), name);
        if keys.last() != name && keys.contains(name) {
            let k = choose|k: int| 0 <= k < keys.len() && keys[k] == name;
            assert(keys.drop_last()[k] == name);
        }
    }
}

/// `X-Webhook-Signature` wins over `X-Hub-Signature-256`: among lowercase
/// header names, a `x-webhook-signature` is chosen whenever there is one, a
/// `x-hub-signature-256` only when there is none, and nothing when neither
/// is present.
pub proof fn law_signature_header_precedence(keys: Seq<Seq<char>>)
    ensures
        keys.contains(signature_header_names()[0]) ==> (chosen_header(keys) matches Some(i) && 0
            <= i < keys.len() && keys[i] == signature_header_names()[0]),
        !keys.contains(signature_header_names()[0]) && keys.contains(signature_header_names()[1])
            ==> (chosen_header(keys) matches Some(i) && 0 <= i < keys.len() && keys[i]
            == signature_header_names()[1]),
        !keys.contains(signature_header_names()[0]) && !keys.contains(signature_header_names()[1])
            ==> chosen_header(keys) is None,
{
    lemma_last_index_of(keys, signature_header_names()[0]);
    lemma_last_index_of(keys, signature_header_names()[1]);
}

/// The views of a sequence of strings.
pub open spec fn lowered_views(v: Seq<String>) -> Seq<Seq<char>> {
    v.map_values(|s: String| s@)
}

/// The position of the header to verify among lowercase header names.
pub fn choose_signature_header(lowered: &Vec<String>) -> (r: Option<usize>)
    ensures
        match r {
            Some(i) => chosen_header(lowered_views(lowered@)) == Some(i as int) && i < lowered@.len(),
            None => chosen_header(lowered_views(lowered@)) is None,
        },
{
    let primary = "x-webhook-signature".to_owned();
    let secondary = "x-hub-signature-256".to_owned();
    let ghost keys = lowered_views(lowered@);
    let mut first: Option<usize> = None;
    let mut second: Option<usize> = None;
    let mut i: usize = 0;
    assert(keys.subrange(0, 0) =~= Seq::<Seq<char>>::empty());
    while i < lowered.len()
        invariant
            keys == lowered_views(lowered@),
            primary@ == signature_header_names()[0],
            secondary@ == signature_header_names()[1],
            i <= keys.len(),
            match first {
                Some(j) => last_index_of(keys.subrange(0, i as int), primary@) == Some(j as int),
                None => last_index_of(keys.subrange(0, i as int), primary@) is None,
            },
            match second {
                Some(j) => last_index_of(keys.subrange(0, i as int), secondary@) == Some(j as int),
                None => last_index_of(keys.subrange(0, i as int), secondary@) is None,
            },
        decreases keys.len() - i,
    {
        let ghost pre = keys.subrange(0, i + 1);
        assert(pre.drop_last() =~= keys.subrange(0, i as int));
        assert(pre.last() == lowered@[i as int]@);
        if lowered[i] == primary {
            first = Some(i);
        }
        if lowered[i] == secondary {
            second = Some(i);
        }
        i += 1;
    }
    assert(keys.subrange(0, i as int) =~= keys);
    proof {
        lemma_last_index_of(keys, primary@);
        lemma_last_index_of(keys, secondary@);
    }
    match first {
        Some(j) => Some(j),
        None => second,
    }
}

// ---------------------------------------------------------------------------
// Receiver
// ---------------------------------------------------------------------------

/// Receiver for incoming webhooks
#[derive(Debug, Clone)]
pub struct WebhookReceiver {
    signature: WebhookSignature,
    timestamp_tolerance: u64,
}

/// The header map holds a name whose lowercase form is `name`.
pub open spec fn has_header_named(headers: Map<String, String>, name: Seq<char>) -> bool {
    exists|k: String| headers.contains_key(k) && #[trigger] lowercase(k@) == name
}

/// The lowercase name of the header to verify: `x-webhook-signature` when
/// present, else `x-hub-signature-256`.
pub open spec fn preferred_header_name(headers: Map<String, String>) -> Seq<char> {
    if has_header_named(headers, signature_header_names()[0]) {
        signature_header_names()[0]
    } else {
        signature_header_names()[1]
    }
}

impl WebhookReceiver {
    /// The signer that checks signatures.
    pub closed spec fn signer(&self) -> WebhookSignature {
        self.signature
    }

    /// The accepted distance, in seconds, between a signature's timestamp and now.
    pub closed spec fn tolerance(&self) -> u64 {
        self.timestamp_tolerance
    }

    /// Create a new receiver with the given secret and the default algorithm
    /// (HMAC-SHA256) and timestamp tolerance (300 seconds), the defaults that
    /// the client configuration uses too.
    pub fn new(secret: &str) -> (r: Self)
        ensures
            r.signer().secret() == secret@,
            r.signer().algorithm() == SigningAlgorithm::HmacSha256,
            r.tolerance() == 300,
    {
        WebhookReceiver {
            signature: WebhookSignature::new(secret).with_algorithm(SigningAlgorithm::default()),
            timestamp_tolerance: DEFAULT_TIMESTAMP_TOLERANCE,
        }
    }

    /// Set the timestamp tolerance in seconds
    pub fn with_tolerance(self, seconds: u64) -> (r: Self)
        ensures
            r.signer() == self.signer(),
            r.tolerance() == seconds,
    {
        WebhookReceiver { timestamp_tolerance: seconds, ..self }
    }

    /// Set the signing algorithm
    pub fn with_algorithm(self, algorithm: SigningAlgorithm) -> (r: Self)
        ensures
            r.signer().secret() == self.signer().secret(),
            r.signer().algorithm() == algorithm,
            r.tolerance() == self.tolerance(),
    {
        WebhookReceiver {
            signature: self.signature.with_algorithm(algorithm),
            timestamp_tolerance: self.timestamp_tolerance,
        }
    }

    /// The timestamp tolerance in seconds.
    pub fn timestamp_tolerance(&self) -> (s: u64)
        ensures
            s == self.tolerance(),
    {
        self.timestamp_tolerance
    }

    /// A copy of this receiver.
    pub fn duplicate(&self) -> (r: Self)
        ensures
            r.signer().secret() == self.signer().secret(),
            r.signer().algorithm() == self.signer().algorithm(),
            r.tolerance() == self.tolerance(),
    {
        WebhookReceiver {
            signature: self.signature.duplicate(),
            timestamp_tolerance: self.timestamp_tolerance,
        }
    }

    /// Verify an incoming webhook signature as of `now` (seconds since the
    /// Unix epoch).
    pub fn verify_at(&self, payload: &[u8], signature: &str, now: i64) -> (r: Result<
        bool,
        WebhookError,
    >)
        ensures
            reports(
                r,
                verdict(
                    self.signer().algorithm(),
                    self.signer().key(),
                    payload@,
                    utf8(signature@),
                    self.tolerance(),
                    now,
                ),
            ),
    {
        self.signature.verify_at(payload, signature, self.timestamp_tolerance, now)
    }

    /// Verify an incoming webhook signature
    pub fn verify(&self, payload: &[u8], signature: &str) -> (r: Result<bool, WebhookError>)
        ensures
            exists|now: i64|
                now >= 0 && #[trigger] reports(
                    r,
                    verdict(
                        self.signer().algorithm(),
                        self.signer().key(),
                        payload@,
                        utf8(signature@),
                        self.tolerance(),
                        now,
                    ),
                ),
    {
        let t = crate::clock::now();
        self.verify_at(payload, signature, t.seconds)
    }

    /// Verify the signature among header pairs given in some order, as of
    /// `now`: the header is picked by its lowercase name (see
    /// [`chosen_header`]); without one the signature is missing.
    pub fn verify_header_entries_at(
        &self,
        payload: &[u8],
        entries: &Vec<(String, String)>,
        now: i64,
    ) -> (r: Result<bool, WebhookError>)
        ensures
            ({
                let keys = entries@.map_values(|p: (String, String)| lowercase(p.0@));
                match chosen_header(keys) {
                    None => r matches Err(WebhookError::SignatureMissing),
                    Some(i) => reports(
                        r,
                        verdict(
                            self.signer().algorithm(),
                            self.signer().key(),
                            payload@,
                            utf8(entries@[i].1@),
                            self.tolerance(),
                            now,
                        ),
                    ),
                }
            }),
    {
        let mut lowered: Vec<String> = Vec::new();
        let mut i: usize = 0;
        let ghost keys = entries@.map_values(|p: (String, String)| lowercase(p.0@));
        while i < entries.len()
            invariant
                keys == entries@.map_values(|p: (String, String)| lowercase(p.0@)),
                i <= entries@.len(),
                lowered_views(lowered@) == keys.subrange(0, i as int),
            decreases entries@.len() - i,
        {
            let l = to_lowercase(entries[i].0.as_str());
            assert(keys[i as int] == lowercase(entries@[i as int].0@));
            let ghost before = lowered_views(lowered@);
            lowered.push(l);
            assert(lowered_views(lowered@) =~= before.push(l@));
            i += 1;
            assert(lowered_views(lowered@) =~= keys.subrange(0, i as int));
        }
        assert(keys.subrange(0, i as int) =~= keys);
        match choose_signature_header(&lowered) {
            None => Err(WebhookError::SignatureMissing),
            Some(j) => self.verify_at(payload, entries[j].1.as_str(), now),
        }
    }

    /// Verify signature from HTTP headers
    ///
    /// Header names are matched case-insensitively. `X-Webhook-Signature` is
    /// verified when present, else `X-Hub-Signature-256` (in either scheme);
    /// without either the signature is missing.
    pub fn verify_from_headers(&self, payload: &[u8], headers: &HashMap<String, String>) -> (r:
        Result<bool, WebhookError>)
        ensures
            !has_header_named(headers@, signature_header_names()[0]) && !has_header_named(
                headers@,
                signature_header_names()[1],
            ) ==> r matches Err(WebhookError::SignatureMissing),
            has_header_named(headers@, signature_header_names()[0]) || has_header_named(
                headers@,
                signature_header_names()[1],
            ) ==> exists|k: String, now: i64|
                {
                    &&& now >= 0
                    &&& headers@.contains_key(k)
                    &&& lowercase(k@) == preferred_header_name(headers@)
                    &&& #[trigger] reports(
                        r,
                        verdict(
                            self.signer().algorithm(),
                            self.signer().key(),
                            payload@,
                            utf8(headers@[k]@),
                            self.tolerance(),
                            now,
                        ),
                    )
                },
    {
        let entries = header_entries(headers);
        let t = crate::clock::now();
        let r = self.verify_header_entries_at(payload, &entries, t.seconds);
        proof {
            let keys = entries@.map_values(|p: (String, String)| lowercase(p.0@));
            let n0 = signature_header_names()[0];
            let n1 = signature_header_names()[1];
            lemma_last_index_of(keys, n0);
            lemma_last_index_of(keys, n1);
            if has_header_named(headers@, n0) {
                let k = choose|k: String| headers@.contains_key(k) && #[trigger] lowercase(k@) == n0;
                let i = choose|i: int| 0 <= i < entries@.len() && #[trigger] entries@[i].0 == k;
                assert(keys[i] == n0);
            }
            if has_header_named(headers@, n1) {
                let k = choose|k: String| headers@.contains_key(k) && #[trigger] lowercase(k@) == n1;
                let i = choose|i: int| 0 <= i < entries@.len() && #[trigger] entries@[i].0 == k;
                assert(keys[i] == n1);
            }
            match chosen_header(keys) {
                Some(i) => {
                    let k = entries@[i].0;
                    assert(headers@.contains_key(k));
                    if last_index_of(keys, n0) is None {
                        assert(!has_header_named(headers@, n0)) by {
                            if has_header_named(headers@, n0) {
                                let k0 = choose|k: String| headers@.contains_key(k) && #[trigger] lowercase(k@) == n0;
                                let i0 = choose|i: int| 0 <= i < entries@.len() && #[trigger] entries@[i].0 == k0;
                                assert(keys[i0] == n0);
                                assert(keys.contains(n0));
                            }
                        }
                    }
                    assert(lowercase(k@) == preferred_header_name(headers@));
                    assert(headers@[k] == entries@[i].1);
                },
                None => {
                    if has_header_named(headers@, n0) {
                        let k0 = choose|k: String| headers@.contains_key(k) && #[trigger] lowercase(k@) == n0;
                        let i0 = choose|i: int| 0 <= i < entries@.len() && #[trigger] entries@[i].0 == k0;
                        assert(keys.contains(n0));
                    }
                    if has_header_named(headers@, n1) {
                        let k1 = choose|k: String| headers@.contains_key(k) && #[trigger] lowercase(k@) == n1;
                        let i1 = choose|i: int| 0 <= i < entries@.len() && #[trigger] entries@[i].0 == k1;
                        assert(keys.contains(n1));
                    }
                },
            }
        }
        r
    }

    /// Create a handler for specific event types
    pub fn handler<F>(&self, event_filter: &str, callback: F) -> (h: WebhookHandler<F>) where
        F: Fn(WebhookPayload) -> Result<(), WebhookError>,
        ensures
            h.filter() == event_filter@,
            h.callback_fn() == callback,
            h.receiver().signer().secret() == self.signer().secret(),
            h.receiver().signer().algorithm() == self.signer().algorithm(),
            h.receiver().tolerance() == self.tolerance(),
    {
        WebhookHandler {
            receiver: self.duplicate(),
            event_filter: event_filter.to_owned(),
            callback,
        }
    }
}

/// Whether a received webhook may be read, given what verifying its
/// signature returned: a valid signature lets it through, an invalid one is
/// refused as a failed verification, and an error from verifying is passed
/// on unchanged.
pub fn accept_verified(verified: Result<bool, WebhookError>) -> (r: Result<(), WebhookError>)
    ensures
        match verified {
            Ok(true) => r is Ok,
            Ok(false) => r matches Err(WebhookError::SignatureInvalid(m)) && m@
                == "Signature verification failed"@,
            Err(e) => r == Err::<(), WebhookError>(e),
        },
{
    match verified {
        Ok(true) => Ok(()),
        Ok(false) => Err(WebhookError::SignatureInvalid("Signature verification failed".to_owned())),
        Err(e) => Err(e),
    }
}

/// A webhook handler that filters and processes specific events
pub struct WebhookHandler<F> {
    receiver: WebhookReceiver,
    event_filter: String,
    callback: F,
}

impl<F> WebhookHandler<F> {
    /// The event filter: an event name, `*`, or `<prefix>.*`.
    pub closed spec fn filter(&self) -> Seq<char> {
        self.event_filter@
    }

    /// The receiver that verifies incoming requests.
    pub closed spec fn receiver(&self) -> WebhookReceiver {
        self.receiver
    }

    /// The receiver that verifies incoming requests.
    pub fn get_receiver(&self) -> (r: &WebhookReceiver)
        ensures
            *r == self.receiver(),
    {
        &self.receiver
    }

    /// The callback that processes matching events.
    pub closed spec fn callback_fn(&self) -> F {
        self.callback
    }

    /// The callback that processes matching events.
    pub fn callback(&self) -> (f: &F)
        ensures
            *f == self.callback_fn(),
    {
        &self.callback
    }

    /// Check if an event matches the filter
    pub fn matches_event(&self, event: &str) -> (r: bool)
        ensures
            r == event_matches(self.filter(), event@),
    {
        pattern_matches(self.event_filter.as_str(), event)
    }
}

impl<F> WebhookHandler<F> where F: Fn(WebhookPayload) -> Result<(), WebhookError> {
    /// Hand a verified, decoded webhook to the callback when its event
    /// matches the filter.
    ///
    /// Returns `Ok(false)` without calling the callback when the event does
    /// not match; otherwise calls it once and returns `Ok(true)`, or the
    /// callback's error.
    pub fn dispatch(&self, webhook: WebhookPayload) -> (r: Result<bool, WebhookError>)
        requires
            forall|p: WebhookPayload| #[trigger] self.callback_fn().requires((p,)),
        ensures
            !event_matches(self.filter(), webhook.event@) ==> r == Ok::<bool, WebhookError>(false),
            event_matches(self.filter(), webhook.event@) ==> exists|out: Result<(), WebhookError>|
                #[trigger] self.callback_fn().ensures((webhook,), out) && match out {
                    Ok(_) => r == Ok::<bool, WebhookError>(true),
                    Err(e) => r == Err::<bool, WebhookError>(e),
                },
    {
        if !self.matches_event(webhook.event.as_str()) {
            return Ok(false);
        }
        let ghost handed = webhook;
        assert(self.callback_fn().requires((handed,)));
        let out = (self.callback)(webhook);
        assert(self.callback_fn().ensures((handed,), out));
        match out {
            Ok(()) => Ok(true),
            Err(e) => Err(e),
        }
    }
}

} // verus!
