//! Webhook endpoint configuration and event subscriptions.

use vstd::prelude::*;
use crate::clock::{now, Timestamp};
use crate::ids::{is_v4_uuid, random_uuid, uuid_string, uuid_text};
use crate::text::{
    append_bytes, ascii_string, constant_time_eq, copy_range, ends_with, has_prefix, has_suffix,
    hex_encode, hex_lower, hex_number, is_ascii_bytes, lemma_ascii_utf8, lemma_hex_lower_ascii,
    lemma_hex_number_ascii, lemma_utf8_injective, push_hex_number, starts_with, utf8,
};

verus! {

// ---------------------------------------------------------------------------
// Event patterns
// ---------------------------------------------------------------------------

/// `*`
pub open spec fn star() -> Seq<u8> {
    seq![42u8]
}

/// `.*`
pub open spec fn dot_star() -> Seq<u8> {
    seq![46u8, 42u8]
}

/// Whether the subscription or filter `pattern` covers `event`: the same
/// name, `*` (every event), or `<prefix>.*` (every event whose name starts
/// with `<prefix>`; the dot before `*` is not part of the prefix, so
/// `user.*` also covers `user` and `username`).
pub open spec fn event_matches(pattern: Seq<char>, event: Seq<char>) -> bool {
    let p = utf8(pattern);
    ||| pattern == event
    ||| p == star()
    ||| has_suffix(p, dot_star()) && has_prefix(utf8(event), p.subrange(0, p.len() - 2))
}

/// Whether `pattern` covers `event` (see [`event_matches`]).
pub fn pattern_matches(pattern: &str, event: &str) -> (r: bool)
    ensures
        r == event_matches(pattern@, event@),
{
    let p = pattern.as_bytes();
    let e = event.as_bytes();
    if constant_time_eq(p, e) {
        proof {
            lemma_utf8_injective(pattern@, event@);
        }
        return true;
    }
    if p.len() == 1 && p[0] == 42 {
        assert(p@ =~= star());
        return true;
    }
    let suffix: Vec<u8> = vec![46, 42];
    assert(suffix@ =~= dot_star());
    if ends_with(p, &suffix) {
        let prefix = copy_range(p, 0, p.len() - 2);
        return starts_with(e, &prefix);
    }
    assert(p@ != star());
    false
}

/// `*` covers every event.
pub proof fn law_star_matches_everything(event: Seq<char>)
    ensures
        event_matches(seq!['*'], event),
{
    crate::text::lemma_ascii_utf8(star());
    assert(crate::text::ascii_chars(star()) =~= seq!['*']);
}

/// Every name covers itself.
pub proof fn law_event_matches_itself(event: Seq<char>)
    ensures
        event_matches(event, event),
{
}

/// `<prefix>.*` covers every event whose name extends `<prefix>`.
pub proof fn law_wildcard_covers_extensions(prefix: Seq<char>, rest: Seq<char>)
    ensures
        event_matches(prefix + seq!['.', '*'], prefix + rest),
{
    let dots = seq!['.', '*'];
    crate::text::lemma_utf8_concat(prefix, dots);
    crate::text::lemma_utf8_concat(prefix, rest);
    crate::text::lemma_ascii_utf8(dot_star());
    assert(crate::text::ascii_chars(dot_star()) =~= dots);
    let p = utf8(prefix + dots);
    let pb = utf8(prefix);
    assert(p =~= pb + dot_star());
    assert(p.subrange(p.len() - 2, p.len() as int) =~= dot_star());
    assert(p.subrange(0, p.len() - 2) =~= pb);
    assert(utf8(prefix + rest).subrange(0, pb.len() as int) =~= pb);
}

/// A filter that is neither `*` nor ends in `.*` covers an event exactly
/// when the two names are the same: no other event, not even one whose name
/// starts with the filter, is covered.
pub proof fn law_plain_filter_matches_only_itself(pattern: Seq<char>, event: Seq<char>)
    requires
        !has_suffix(utf8(pattern), dot_star()),
        utf8(pattern) != star(),
    ensures
        event_matches(pattern, event) <==> pattern == event,
{
}

/// `<prefix>.*` covers an event exactly when the event is that very name or
/// the event's bytes are the whole of `<prefix>` followed by anything: a
/// shorter part of `<prefix>` (up to an earlier dot, say) is not enough.
pub proof fn law_wildcard_covers_only_extensions(prefix: Seq<char>, event: Seq<char>)
    ensures
        event_matches(prefix + seq!['.', '*'], event) <==> (event == prefix + seq!['.', '*']
            || exists|rest: Seq<u8>| utf8(event) == utf8(prefix) + rest),
{
    let dots = seq!['.', '*'];
    crate::text::lemma_utf8_concat(prefix, dots);
    crate::text::lemma_ascii_utf8(dot_star());
    assert(crate::text::ascii_chars(dot_star()) =~= dots);
    let p = utf8(prefix + dots);
    let pb = utf8(prefix);
    assert(p =~= pb + dot_star());
    assert(p.len() >= 2);
    assert(p != star());
    assert(p.subrange(p.len() - 2, p.len() as int) =~= dot_star());
    assert(has_suffix(p, dot_star()));
    assert(p.subrange(0, p.len() - 2) =~= pb);
    let e = utf8(event);
    if has_prefix(e, pb) {
        let rest = e.subrange(pb.len() as int, e.len() as int);
        assert(e =~= pb + rest);
    }
    assert forall|rest: Seq<u8>| e == pb + rest implies has_prefix(e, pb) by {
        assert(e.subrange(0, pb.len() as int) =~= pb);
    }
}

/// After subscribing to an event, the endpoint is subscribed to it.
pub proof fn law_subscribed_after_subscribe(
    before: EndpointView,
    after: EndpointView,
    event: Seq<char>,
)
    requires
        after.event_set() == before.event_set().insert(event),
    ensures
        after.subscribed(event),
{
    assert(after.event_set().contains(event));
    assert(event_matches(event, event));
}

/// After unsubscribing from an event, the endpoint is no longer subscribed
/// to it unless another subscription (a wildcard) still covers it.
pub proof fn law_unsubscribed_after_unsubscribe(
    before: EndpointView,
    after: EndpointView,
    event: Seq<char>,
)
    requires
        after.event_set() == before.event_set().remove(event),
        forall|s: Seq<char>| #[trigger] before.event_set().contains(s) && s != event ==> !event_matches(s, event),
    ensures
        !after.subscribed(event),
{
    assert forall|s: Seq<char>| #[trigger] after.event_set().contains(s) implies !event_matches(s, event) by {
        assert(before.event_set().contains(s) && s != event);
    }
}

// ---------------------------------------------------------------------------
// Secrets
// ---------------------------------------------------------------------------

/// `whsec_`
pub open spec fn secret_tag() -> Seq<u8> {
    seq![119u8, 104u8, 115u8, 101u8, 99u8, 95u8]
}

/// A signing secret made from a UUID's bytes and a nanosecond clock reading:
/// `whsec_<32 hex digits>_<hex of the reading modulo 0xFFFFFFFF>`.
pub open spec fn secret_text(uuid: Seq<u8>, nanos: nat) -> Seq<u8> {
    secret_tag() + hex_lower(uuid) + seq![95u8] + hex_number(nanos % 0xFFFF_FFFF)
}

/// The signing secret made from a UUID's bytes and a nanosecond clock reading.
pub fn format_secret(uuid: &[u8], nanos: u128) -> (s: String)
    ensures
        utf8(s@) == secret_text(uuid@, nanos as nat),
{
    let mut out: Vec<u8> = vec![119, 104, 115, 101, 99, 95];
    let hex = hex_encode(uuid);
    append_bytes(&mut out, &hex);
    out.push(95);
    let ghost before = out@;
    push_hex_number(nanos % 0xFFFF_FFFF, &mut out);
    proof {
        lemma_hex_lower_ascii(uuid@);
        lemma_hex_number_ascii((nanos % 0xFFFF_FFFF) as nat);
        let t = secret_text(uuid@, nanos as nat);
        assert(out@ =~= t);
        let h = hex_lower(uuid@);
        let n = hex_number((nanos % 0xFFFF_FFFF) as nat);
        assert(is_ascii_bytes(t)) by {
            assert forall|i: int| 0 <= i < t.len() implies #[trigger] t[i] < 128 by {
                if 6 <= i < 6 + h.len() {
                    assert(t[i] == h[i - 6]);
                } else if i > 6 + h.len() {
                    assert(t[i] == n[i - 7 - h.len()]);
                }
            }
        }
        lemma_ascii_utf8(t);
    }
    ascii_string(out)
}

/// A fresh signing secret.
fn generate_secret() -> (s: String)
    ensures
        exists|u: Seq<u8>, n: nat| u.len() == 16 && utf8(s@) == #[trigger] secret_text(u, n),
{
    let u = random_uuid();
    let t = now();
    format_secret(&u, t.as_unix_nanos())
}

/// Every generated secret starts with `whsec_`.
pub proof fn law_secret_prefix(uuid: Seq<u8>, nanos: nat)
    ensures
        has_prefix(secret_text(uuid, nanos), secret_tag()),
{
    let t = secret_text(uuid, nanos);
    assert(t.subrange(0, 6) =~= secret_tag());
}

// ---------------------------------------------------------------------------
// Endpoints
// ---------------------------------------------------------------------------

/// The views of a sequence of strings.
pub open spec fn string_views(v: Seq<String>) -> Seq<Seq<char>> {
    v.map_values(|s: String| s@)
}

/// The views of a sequence of string pairs.
pub open spec fn pair_views(v: Seq<(String, String)>) -> Seq<(Seq<char>, Seq<char>)> {
    v.map_values(|p: (String, String)| (p.0@, p.1@))
}

/// No two pairs share a name.
pub open spec fn distinct_names(h: Seq<(Seq<char>, Seq<char>)>) -> bool {
    forall|i: int, j: int| 0 <= i < h.len() && 0 <= j < h.len() && i != j ==> h[i].0 != h[j].0
}

/// The contents of a [`WebhookEndpoint`], field by field, with strings as
/// character sequences.
#[verifier::ext_equal]
pub struct EndpointView {
    /// Unique endpoint ID
    pub id: Seq<char>,
    /// Target URL
    pub url: Seq<char>,
    /// Signing secret
    pub secret: Seq<char>,
    /// Subscribed events, in order
    pub events: Seq<Seq<char>>,
    /// Whether the endpoint is active
    pub enabled: bool,
    /// Description
    pub description: Option<Seq<char>>,
    /// Custom headers, in order
    pub headers: Seq<(Seq<char>, Seq<char>)>,
    /// Created timestamp
    pub created_at: Timestamp,
    /// Updated timestamp
    pub updated_at: Timestamp,
    /// Last successful delivery timestamp
    pub last_success: Option<Timestamp>,
    /// Last failed delivery timestamp
    pub last_failure: Option<Timestamp>,
    /// Consecutive failure count
    pub failure_count: u32,
}

impl EndpointView {
    /// The subscribed event names.
    pub open spec fn event_set(self) -> Set<Seq<char>> {
        Set::new(|e: Seq<char>| self.events.contains(e))
    }

    /// Each event is listed once and each header name once, as in a set and a map.
    pub open spec fn wf(self) -> bool {
        self.events.no_duplicates() && distinct_names(self.headers)
    }

    /// The endpoint is subscribed to `event`.
    pub open spec fn subscribed(self, event: Seq<char>) -> bool {
        exists|s: Seq<char>| #[trigger] self.event_set().contains(s) && event_matches(s, event)
    }
}

/// The view of an optional string.
pub open spec fn option_view(o: Option<String>) -> Option<Seq<char>> {
    match o {
        Some(s) => Some(s@),
        None => None,
    }
}

/// A registered webhook endpoint
#[derive(Debug, Clone)]
pub struct WebhookEndpoint {
    /// Unique endpoint ID
    pub id: String,
    /// Target URL for webhook delivery
    pub url: String,
    /// Signing secret for this endpoint
    pub secret: String,
    /// Events this endpoint is subscribed to, each once
    pub events: Vec<String>,
    /// Whether this endpoint is active
    pub enabled: bool,
    /// Description for this endpoint
    pub description: Option<String>,
    /// Custom headers to include with requests, each name once
    pub headers: Vec<(String, String)>,
    /// Created timestamp
    pub created_at: Timestamp,
    /// Updated timestamp
    pub updated_at: Timestamp,
    /// Last successful delivery timestamp
    pub last_success: Option<Timestamp>,
    /// Last failed delivery timestamp
    pub last_failure: Option<Timestamp>,
    /// Consecutive failure count
    pub failure_count: u32,
}

impl View for WebhookEndpoint {
    type V = EndpointView;

    open spec fn view(&self) -> EndpointView {
        EndpointView {
            id: self.id@,
            url: self.url@,
            secret: self.secret@,
            events: string_views(self.events@),
            enabled: self.enabled,
            description: option_view(self.description),
            headers: pair_views(self.headers@),
            created_at: self.created_at,
            updated_at: self.updated_at,
            last_success: self.last_success,
            last_failure: self.last_failure,
            failure_count: self.failure_count,
        }
    }
}

impl WebhookEndpoint {
    /// Create a new endpoint with the given URL
    pub fn new(url: &str) -> (e: Self)
        ensures
            e@.wf(),
            e@.url == url@,
            exists|u: Seq<u8>| is_v4_uuid(u) && utf8(e@.id) == #[trigger] uuid_text(u),
            exists|u: Seq<u8>, n: nat| u.len() == 16 && utf8(e@.secret) == #[trigger] secret_text(u, n),
            e@.events.len() == 0,
            e@.enabled,
            e@.description is None,
            e@.headers.len() == 0,
            e@.created_at == e@.updated_at,
            e@.last_success is None,
            e@.last_failure is None,
            e@.failure_count == 0,
    {
        let t = now();
        let u = random_uuid();
        let e = WebhookEndpoint {
            id: uuid_string(&u),
            url: url.to_owned(),
            secret: generate_secret(),
            events: Vec::new(),
            enabled: true,
            description: None,
            headers: Vec::new(),
            created_at: t,
            updated_at: t,
            last_success: None,
            last_failure: None,
            failure_count: 0,
        };
        assert(e@.events =~= Seq::<Seq<char>>::empty());
        assert(e@.headers =~= Seq::<(Seq<char>, Seq<char>)>::empty());
        e
    }

    /// Create a builder for custom configuration
    pub fn builder(url: &str) -> (b: WebhookEndpointBuilder)
        ensures
            b@.wf(),
            b@.url == url@,
            b@.events.len() == 0,
            b@.enabled,
            b@.description is None,
            b@.headers.len() == 0,
            b@.failure_count == 0,
    {
        WebhookEndpointBuilder::new(url)
    }

    /// Set the signing secret
    pub fn with_secret(self, secret: &str) -> (e: Self)
        ensures
            e@ == (EndpointView { secret: secret@, ..self@ }),
    {
        WebhookEndpoint { secret: secret.to_owned(), ..self }
    }

    /// Subscribe to exactly the given events (each kept once)
    pub fn with_events(self, events: Vec<&str>) -> (e: Self)
        ensures
            e@ == (EndpointView { events: e@.events, ..self@ }),
            e@.event_set() == Set::new(|x: Seq<char>| exists|i: int| 0 <= i < events@.len() && #[trigger] events@[i]@ == x),
            e@.events.no_duplicates(),
    {
        let list = distinct_strings(&events);
        let e = WebhookEndpoint { events: list, ..self };
        assert(e@.event_set() =~= Set::new(|x: Seq<char>| exists|i: int| 0 <= i < events@.len() && #[trigger] events@[i]@ == x));
        e
    }

    /// Add a single event subscription
    pub fn subscribe(&mut self, event: &str)
        ensures
            final(self)@ == (EndpointView { events: final(self)@.events, ..old(self)@ }),
            final(self)@.event_set() == old(self)@.event_set().insert(event@),
            old(self)@.wf() ==> final(self)@.wf(),
    {
        let e = event.to_owned();
        let ghost before = self@.events;
        if !contains_string(&self.events, &e) {
            self.events.push(e);
            assert(self@.events =~= before.push(event@));
            proof {
                if before.no_duplicates() {
                    assert forall|i: int, j: int|
                        0 <= i < self@.events.len() && 0 <= j < self@.events.len() && i
                            != j implies self@.events[i] != self@.events[j] by {
                        if i < before.len() && j < before.len() {
                        } else if i == before.len() {
                            assert(before[j] != event@);
                        } else {
                            assert(before[i] != event@);
                        }
                    }
                }
                assert forall|x: Seq<char>| self@.events.contains(x) <==> (before.contains(x) || x == event@) by {
                    vstd::seq_lib::lemma_seq_contains_after_push(before, event@, x);
                }
            }
        }
        assert(self@.event_set() =~= old(self)@.event_set().insert(event@));
    }

    /// Remove an event subscription
    pub fn unsubscribe(&mut self, event: &str)
        ensures
            final(self)@ == (EndpointView { events: final(self)@.events, ..old(self)@ }),
            final(self)@.event_set() == old(self)@.event_set().remove(event@),
            old(self)@.wf() ==> final(self)@.wf(),
    {
        let e = event.to_owned();
        let mut kept: Vec<String> = Vec::new();
        let mut i: usize = 0;
        let ghost all = self@.events;
        while i < self.events.len()
            invariant
                all == self@.events,
                all.len() == self.events@.len(),
                i <= all.len(),
                e@ == event@,
                forall|x: Seq<char>| string_views(kept@).contains(x) <==> (x != event@ && exists|k: int| 0 <= k < i && #[trigger] all[k] == x),
                all.no_duplicates() ==> string_views(kept@).no_duplicates(),
            decreases all.len() - i,
        {
            let ghost before = string_views(kept@);
            if !(self.events[i] == e) {
                assert(all[i as int] != event@);
                kept.push(self.events[i].clone());
                assert(string_views(kept@) =~= before.push(all[i as int]));
                proof {
                    if all.no_duplicates() {
                        assert(!before.contains(all[i as int])) by {
                            if before.contains(all[i as int]) {
                                let k = choose|k: int| 0 <= k < i && #[trigger] all[k] == all[i as int];
                            }
                        }
                        assert forall|a: int, b: int|
                            0 <= a < string_views(kept@).len() && 0 <= b < string_views(kept@).len() && a != b
                            implies string_views(kept@)[a] != string_views(kept@)[b] by {
                            if a == before.len() {
                                assert(before.contains(before[b]));
                            } else if b == before.len() {
                                assert(before.contains(before[a]));
                            }
                        }
                    }
                    assert forall|x: Seq<char>| string_views(kept@).contains(x) <==> (before.contains(x) || x == all[i as int]) by {
                        vstd::seq_lib::lemma_seq_contains_after_push(before, all[i as int], x);
                    }
                }
            } else {
                assert(all[i as int] == event@);
                assert(string_views(kept@) == before);
            }
            assert forall|x: Seq<char>| #[trigger] string_views(kept@).contains(x) <==> (before.contains(x) || (x == all[i as int] && x != event@)) by {}
            proof {
                assert forall|x: Seq<char>| string_views(kept@).contains(x) <==> (x != event@ && exists|k: int| 0 <= k < i + 1 && #[trigger] all[k] == x) by {
                    if string_views(kept@).contains(x) {
                        if before.contains(x) {
                            let k = choose|k: int| 0 <= k < i && #[trigger] all[k] == x;
                            assert(0 <= k < i + 1 && all[k] == x);
                        } else {
                            assert(all[i as int] == x);
                        }
                    }
                    if x != event@ && exists|k: int| 0 <= k < i + 1 && #[trigger] all[k] == x {
                        let k = choose|k: int| 0 <= k < i + 1 && #[trigger] all[k] == x;
                        if k < i {
                            assert(0 <= k < i && all[k] == x);
                            assert(before.contains(x));
                        } else {
                            assert(x == all[i as int]);
                        }
                    }
                }
            }
            i += 1;
        }
        self.events = kept;
        assert(self@.event_set() =~= old(self)@.event_set().remove(event@)) by {
            assert forall|x: Seq<char>| self@.event_set().contains(x) <==> old(self)@.event_set().remove(event@).contains(x) by {
                if old(self)@.events.contains(x) && x != event@ {
                    let k = choose|k: int| 0 <= k < all.len() && all[k] == x;
                }
            }
        }
    }

    /// Check if this endpoint is subscribed to an event
    pub fn is_subscribed_to(&self, event: &str) -> (r: bool)
        ensures
            r == self@.subscribed(event@),
    {
        let mut i: usize = 0;
        while i < self.events.len()
            invariant
                i <= self.events@.len(),
                forall|k: int| 0 <= k < i ==> !event_matches(#[trigger] self@.events[k], event@),
            decreases self.events@.len() - i,
        {
            if pattern_matches(self.events[i].as_str(), event) {
                assert(self@.event_set().contains(self@.events[i as int]));
                return true;
            }
            i += 1;
        }
        assert forall|s: Seq<char>| #[trigger] self@.event_set().contains(s) implies !event_matches(s, event@) by {
            let k = choose|k: int| 0 <= k < self@.events.len() && self@.events[k] == s;
        }
        false
    }

    /// Record a successful delivery made at `at`
    pub fn record_success_at(&mut self, at: Timestamp)
        ensures
            final(self)@ == (EndpointView {
                last_success: Some(at),
                failure_count: 0,
                updated_at: at,
                ..old(self)@
            }),
    {
        self.last_success = Some(at);
        self.failure_count = 0;
        self.updated_at = at;
    }

    /// Record a successful delivery
    pub fn record_success(&mut self)
        ensures
            final(self)@ == (EndpointView {
                last_success: Some(final(self)@.updated_at),
                failure_count: 0,
                updated_at: final(self)@.updated_at,
                ..old(self)@
            }),
    {
        self.record_success_at(now());
    }

    /// Record a failed delivery made at `at`
    pub fn record_failure_at(&mut self, at: Timestamp)
        requires
            old(self).failure_count < u32::MAX,
        ensures
            final(self)@ == (EndpointView {
                last_failure: Some(at),
                failure_count: (old(self)@.failure_count + 1) as u32,
                updated_at: at,
                ..old(self)@
            }),
    {
        self.last_failure = Some(at);
        self.failure_count = self.failure_count + 1;
        self.updated_at = at;
    }

    /// Record a failed delivery
    pub fn record_failure(&mut self)
        requires
            old(self).failure_count < u32::MAX,
        ensures
            final(self)@ == (EndpointView {
                last_failure: Some(final(self)@.updated_at),
                failure_count: (old(self)@.failure_count + 1) as u32,
                updated_at: final(self)@.updated_at,
                ..old(self)@
            }),
    {
        self.record_failure_at(now());
    }

    /// Disable the endpoint at `at`
    pub fn disable_at(&mut self, at: Timestamp)
        ensures
            final(self)@ == (EndpointView { enabled: false, updated_at: at, ..old(self)@ }),
    {
        self.enabled = false;
        self.updated_at = at;
    }

    /// Disable the endpoint
    pub fn disable(&mut self)
        ensures
            final(self)@ == (EndpointView {
                enabled: false,
                updated_at: final(self)@.updated_at,
                ..old(self)@
            }),
    {
        self.disable_at(now());
    }

    /// Enable the endpoint at `at`
    pub fn enable_at(&mut self, at: Timestamp)
        ensures
            final(self)@ == (EndpointView {
                enabled: true,
                failure_count: 0,
                updated_at: at,
                ..old(self)@
            }),
    {
        self.enabled = true;
        self.failure_count = 0;
        self.updated_at = at;
    }

    /// Enable the endpoint
    pub fn enable(&mut self)
        ensures
            final(self)@ == (EndpointView {
                enabled: true,
                failure_count: 0,
                updated_at: final(self)@.updated_at,
                ..old(self)@
            }),
    {
        self.enable_at(now());
    }

    /// Regenerate the signing secret
    pub fn rotate_secret(&mut self) -> (s: String)
        ensures
            final(self)@ == (EndpointView {
                secret: s@,
                updated_at: final(self)@.updated_at,
                ..old(self)@
            }),
            exists|u: Seq<u8>, n: nat| u.len() == 16 && utf8(s@) == #[trigger] secret_text(u, n),
    {
        self.secret = generate_secret();
        self.updated_at = now();
        self.secret.clone()
    }

    /// A copy of this endpoint.
    pub fn duplicate(&self) -> (e: Self)
        ensures
            e@ == self@,
    {
        let e = WebhookEndpoint {
            id: self.id.clone(),
            url: self.url.clone(),
            secret: self.secret.clone(),
            events: clone_strings(&self.events),
            enabled: self.enabled,
            description: match &self.description {
                Some(d) => Some(d.clone()),
                None => None,
            },
            headers: clone_pairs(&self.headers),
            created_at: self.created_at,
            updated_at: self.updated_at,
            last_success: self.last_success,
            last_failure: self.last_failure,
            failure_count: self.failure_count,
        };
        assert(e@ =~= self@);
        e
    }
}

fn clone_strings(v: &Vec<String>) -> (r: Vec<String>)
    ensures
        r@ == v@,
{
    let mut r: Vec<String> = Vec::new();
    let mut i: usize = 0;
    while i < v.len()
        invariant
            i <= v@.len(),
            r@ == v@.subrange(0, i as int),
        decreases v@.len() - i,
    {
        r.push(v[i].clone());
        i += 1;
        assert(r@ =~= v@.subrange(0, i as int));
    }
    assert(v@.subrange(0, v@.len() as int) =~= v@);
    r
}

fn clone_pairs(v: &Vec<(String, String)>) -> (r: Vec<(String, String)>)
    ensures
        r@ == v@,
{
    let mut r: Vec<(String, String)> = Vec::new();
    let mut i: usize = 0;
    while i < v.len()
        invariant
            i <= v@.len(),
            r@ == v@.subrange(0, i as int),
        decreases v@.len() - i,
    {
        let (a, b) = &v[i];
        r.push((a.clone(), b.clone()));
        i += 1;
        assert(r@ =~= v@.subrange(0, i as int));
    }
    assert(v@.subrange(0, v@.len() as int) =~= v@);
    r
}

fn contains_string(v: &Vec<String>, s: &String) -> (r: bool)
    ensures
        r == string_views(v@).contains(s@),
{
    let mut i: usize = 0;
    while i < v.len()
        invariant
            i <= v@.len(),
            forall|k: int| 0 <= k < i ==> #[trigger] string_views(v@)[k] != s@,
        decreases v@.len() - i,
    {
        if v[i] == *s {
            assert(string_views(v@)[i as int] == s@);
            return true;
        }
        i += 1;
    }
    false
}

/// The given names as owned strings, each kept once, in first-seen order.
fn distinct_strings(names: &Vec<&str>) -> (r: Vec<String>)
    ensures
        string_views(r@).no_duplicates(),
        forall|x: Seq<char>| string_views(r@).contains(x) <==> exists|i: int| 0 <= i < names@.len() && #[trigger] names@[i]@ == x,
{
    let mut r: Vec<String> = Vec::new();
    let mut i: usize = 0;
    while i < names.len()
        invariant
            i <= names@.len(),
            string_views(r@).no_duplicates(),
            forall|x: Seq<char>| string_views(r@).contains(x) <==> exists|k: int| 0 <= k < i && #[trigger] names@[k]@ == x,
        decreases names@.len() - i,
    {
        let s = names[i].to_owned();
        let ghost before = string_views(r@);
        let ghost y = names@[i as int]@;
        if !contains_string(&r, &s) {
            r.push(s);
            assert(string_views(r@) =~= before.push(y));
            assert forall|a: int, b: int|
                0 <= a < string_views(r@).len() && 0 <= b < string_views(r@).len() && a != b
                implies string_views(r@)[a] != string_views(r@)[b] by {
                if a == before.len() {
                    assert(before.contains(before[b]));
                } else if b == before.len() {
                    assert(before.contains(before[a]));
                }
            }
            assert forall|x: Seq<char>| string_views(r@).contains(x) <==> (before.contains(x) || x == y) by {
                vstd::seq_lib::lemma_seq_contains_after_push(before, y, x);
            }
        }
        assert forall|x: Seq<char>| string_views(r@).contains(x) <==> exists|k: int| 0 <= k < i + 1 && #[trigger] names@[k]@ == x by {
            if exists|k: int| 0 <= k < i + 1 && #[trigger] names@[k]@ == x {
                let k = choose|k: int| 0 <= k < i + 1 && #[trigger] names@[k]@ == x;
                if k < i {
                    assert(before.contains(x));
                }
            }
            if string_views(r@).contains(x) && !before.contains(x) {
                assert(x == y);
            }
        }
        i += 1;
    }
    r
}

// ---------------------------------------------------------------------------
// Builder
// ---------------------------------------------------------------------------

/// Builder for WebhookEndpoint
#[derive(Debug, Clone)]
pub struct WebhookEndpointBuilder {
    endpoint: WebhookEndpoint,
}

impl View for WebhookEndpointBuilder {
    type V = EndpointView;

    /// The endpoint being built.
    closed spec fn view(&self) -> EndpointView {
        self.endpoint@
    }
}

impl WebhookEndpointBuilder {
    /// Create a new builder
    pub fn new(url: &str) -> (b: Self)
        ensures
            b@.wf(),
            b@.url == url@,
            b@.events.len() == 0,
            b@.enabled,
            b@.description is None,
            b@.headers.len() == 0,
            b@.failure_count == 0,
    {
        WebhookEndpointBuilder { endpoint: WebhookEndpoint::new(url) }
    }

    /// Set a custom ID
    pub fn id(self, id: &str) -> (b: Self)
        ensures
            b@ == (EndpointView { id: id@, ..self@ }),
    {
        WebhookEndpointBuilder { endpoint: WebhookEndpoint { id: id.to_owned(), ..self.endpoint } }
    }

    /// Set the signing secret
    pub fn secret(self, secret: &str) -> (b: Self)
        ensures
            b@ == (EndpointView { secret: secret@, ..self@ }),
    {
        WebhookEndpointBuilder { endpoint: self.endpoint.with_secret(secret) }
    }

    /// Subscribe to exactly the given events (each kept once)
    pub fn events(self, events: Vec<&str>) -> (b: Self)
        ensures
            b@ == (EndpointView { events: b@.events, ..self@ }),
            b@.event_set() == Set::new(|x: Seq<char>| exists|i: int| 0 <= i < events@.len() && #[trigger] events@[i]@ == x),
            b@.events.no_duplicates(),
    {
        WebhookEndpointBuilder { endpoint: self.endpoint.with_events(events) }
    }

    /// Subscribe to all events
    pub fn all_events(self) -> (b: Self)
        ensures
            b@ == (EndpointView { events: b@.events, ..self@ }),
            b@.event_set() == self@.event_set().insert(seq!['*']),
            self@.wf() ==> b@.wf(),
    {
        let mut e = self.endpoint;
        proof {
            reveal_strlit("*");
        }
        assert("*"@ =~= seq!['*']);
        e.subscribe("*");
        WebhookEndpointBuilder { endpoint: e }
    }

    /// Set the description
    pub fn description(self, desc: &str) -> (b: Self)
        ensures
            b@ == (EndpointView { description: Some(desc@), ..self@ }),
    {
        WebhookEndpointBuilder { endpoint: WebhookEndpoint { description: Some(desc.to_owned()), ..self.endpoint } }
    }

    /// Add a custom header, replacing any header of the same name
    pub fn header(self, key: &str, value: &str) -> (b: Self)
        ensures
            b@ == (EndpointView { headers: b@.headers, ..self@ }),
            if exists|i: int| 0 <= i < self@.headers.len() && #[trigger] self@.headers[i].0 == key@ {
                exists|i: int| 0 <= i < self@.headers.len() && #[trigger] self@.headers[i].0 == key@
                    && b@.headers == self@.headers.update(i, (key@, value@))
            } else {
                b@.headers == self@.headers.push((key@, value@))
            },
            self@.wf() ==> b@.wf(),
    {
        let mut e = self.endpoint;
        let k = key.to_owned();
        let v = value.to_owned();
        let mut i: usize = 0;
        let ghost old_h = e@.headers;
        while i < e.headers.len()
            invariant
                e == self.endpoint,
                old_h == e@.headers,
                old_h.len() == e.headers@.len(),
                i <= old_h.len(),
                k@ == key@,
                v@ == value@,
                forall|j: int| 0 <= j < i ==> #[trigger] old_h[j].0 != key@,
            decreases old_h.len() - i,
        {
            if e.headers[i].0 == k {
                e.headers.set(i, (k, v));
                assert(e@.headers =~= old_h.update(i as int, (key@, value@)));
                proof {
                    if distinct_names(old_h) {
                        assert forall|a: int, c: int| 0 <= a < e@.headers.len() && 0 <= c < e@.headers.len() && a != c implies e@.headers[a].0 != e@.headers[c].0 by {
                            if a == i {
                                assert(old_h[c].0 != old_h[i as int].0);
                            } else if c == i {
                                assert(old_h[a].0 != old_h[i as int].0);
                            } else {
                                assert(old_h[a].0 != old_h[c].0);
                            }
                        }
                    }
                }
                let b = WebhookEndpointBuilder { endpoint: e };
                assert(b@ =~= (EndpointView { headers: b@.headers, ..self@ }));
                assert(self@.headers[i as int].0 == key@);
                assert(b@.headers == self@.headers.update(i as int, (key@, value@)));
                return b;
            }
            i += 1;
        }
        e.headers.push((k, v));
        assert(e@.headers =~= old_h.push((key@, value@)));
        proof {
            if distinct_names(old_h) {
                assert forall|a: int, c: int| 0 <= a < e@.headers.len() && 0 <= c < e@.headers.len() && a != c implies e@.headers[a].0 != e@.headers[c].0 by {
                    if a == old_h.len() {
                        assert(old_h[c].0 != key@);
                    } else if c == old_h.len() {
                        assert(old_h[a].0 != key@);
                    }
                }
            }
        }
        let b = WebhookEndpointBuilder { endpoint: e };
        assert(b@ =~= (EndpointView { headers: b@.headers, ..self@ }));
        b
    }

    /// Set enabled status
    pub fn enabled(self, enabled: bool) -> (b: Self)
        ensures
            b@ == (EndpointView { enabled, ..self@ }),
    {
        WebhookEndpointBuilder { endpoint: WebhookEndpoint { enabled, ..self.endpoint } }
    }

    /// Build the endpoint
    pub fn build(self) -> (e: WebhookEndpoint)
        ensures
            e@ == self@,
    {
        self.endpoint
    }
}

} // verus!
