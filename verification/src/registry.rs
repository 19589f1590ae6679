//! Webhook endpoint registry.
//!
//! Endpoints are kept under their registration key, in registration order;
//! re-registering a key replaces its endpoint in place.

use vstd::prelude::*;
use crate::endpoint::{EndpointView, WebhookEndpoint};
use crate::error::WebhookError;
use crate::text::{contains_bytes, has_infix, utf8};

verus! {

/// The keys of registry entries.
pub open spec fn entry_keys(s: Seq<(String, WebhookEndpoint)>) -> Seq<Seq<char>> {
    s.map_values(|p: (String, WebhookEndpoint)| p.0@)
}

/// The endpoints of registry entries.
pub open spec fn entry_values(s: Seq<(String, WebhookEndpoint)>) -> Seq<EndpointView> {
    s.map_values(|p: (String, WebhookEndpoint)| p.1@)
}

/// The map from key to endpoint that registry entries stand for.
pub open spec fn entry_map(s: Seq<(String, WebhookEndpoint)>) -> Map<Seq<char>, EndpointView> {
    Map::new(
        |k: Seq<char>| entry_keys(s).contains(k),
        |k: Seq<char>| entry_values(s)[entry_keys(s).index_of(k)],
    )
}

/// The endpoints of `s` that satisfy `p`, in order.
pub open spec fn select(s: Seq<EndpointView>, p: spec_fn(EndpointView) -> bool) -> Seq<
    EndpointView,
>
    decreases s.len(),
{
    if s.len() == 0 {
        s
    } else if p(s.last()) {
        select(s.drop_last(), p).push(s.last())
    } else {
        select(s.drop_last(), p)
    }
}

/// `r` reports that no endpoint is registered under `id`.
pub open spec fn not_found(r: Result<(), WebhookError>, id: Seq<char>) -> bool {
    r matches Err(WebhookError::EndpointNotFound(m)) && m@ == id
}

/// The views of a sequence of endpoints.
pub open spec fn endpoint_views(v: Seq<WebhookEndpoint>) -> Seq<EndpointView> {
    v.map_values(|e: WebhookEndpoint| e@)
}

proof fn lemma_lookup(s: Seq<(String, WebhookEndpoint)>, i: int)
    requires
        entry_keys(s).no_duplicates(),
        0 <= i < s.len(),
    ensures
        entry_map(s).contains_key(s[i].0@),
        entry_map(s)[s[i].0@] == s[i].1@,
{
    let keys = entry_keys(s);
    assert(keys[i] == s[i].0@);
    let j = keys.index_of(s[i].0@);
    assert(keys.contains(s[i].0@));
    assert(0 <= j < keys.len() && keys[j] == s[i].0@);
    assert(j == i);
}

proof fn lemma_absent(s: Seq<(String, WebhookEndpoint)>, k: Seq<char>)
    requires
        !entry_keys(s).contains(k),
    ensures
        !entry_map(s).contains_key(k),
{
}

proof fn lemma_map_ext(s: Seq<(String, WebhookEndpoint)>, t: Seq<(String, WebhookEndpoint)>, m: Map<Seq<char>, EndpointView>)
    requires
        entry_keys(t).no_duplicates(),
        forall|k: Seq<char>| m.contains_key(k) <==> entry_keys(t).contains(k),
        forall|i: int| 0 <= i < t.len() ==> m[#[trigger] t[i].0@] == t[i].1@,
    ensures
        entry_map(t) == m,
{
    assert forall|k: Seq<char>| #[trigger] entry_map(t).contains_key(k) implies entry_map(t)[k] == m[k] by {
        let i = entry_keys(t).index_of(k);
        assert(entry_keys(t)[i] == k);
        lemma_lookup(t, i);
        assert(t[i].0@ == k);
    }
    assert(entry_map(t) =~= m);
}

proof fn lemma_push(s: Seq<(String, WebhookEndpoint)>, x: (String, WebhookEndpoint))
    requires
        entry_keys(s).no_duplicates(),
        !entry_keys(s).contains(x.0@),
    ensures
        entry_keys(s.push(x)).no_duplicates(),
        entry_keys(s.push(x)) == entry_keys(s).push(x.0@),
        entry_values(s.push(x)) == entry_values(s).push(x.1@),
        entry_map(s.push(x)) == entry_map(s).insert(x.0@, x.1@),
{
    let t = s.push(x);
    assert(entry_keys(t) =~= entry_keys(s).push(x.0@));
    assert(entry_values(t) =~= entry_values(s).push(x.1@));
    assert forall|a: int, b: int| 0 <= a < entry_keys(t).len() && 0 <= b < entry_keys(t).len() && a != b implies entry_keys(t)[a] != entry_keys(t)[b] by {
        if a == s.len() {
            assert(entry_keys(s).contains(entry_keys(s)[b]));
        } else if b == s.len() {
            assert(entry_keys(s).contains(entry_keys(s)[a]));
        }
    }
    let m = entry_map(s).insert(x.0@, x.1@);
    assert forall|k: Seq<char>| m.contains_key(k) <==> entry_keys(t).contains(k) by {
        vstd::seq_lib::lemma_seq_contains_after_push(entry_keys(s), x.0@, k);
    }
    assert forall|i: int| 0 <= i < t.len() implies m[#[trigger] t[i].0@] == t[i].1@ by {
        if i < s.len() {
            lemma_lookup(s, i);
            assert(entry_keys(s)[i] == s[i].0@);
            assert(s[i].0@ != x.0@);
        }
    }
    lemma_map_ext(s, t, m);
}

proof fn lemma_update(s: Seq<(String, WebhookEndpoint)>, i: int, x: (String, WebhookEndpoint))
    requires
        entry_keys(s).no_duplicates(),
        0 <= i < s.len(),
        s[i].0@ == x.0@,
    ensures
        entry_keys(s.update(i, x)) == entry_keys(s),
        entry_values(s.update(i, x)) == entry_values(s).update(i, x.1@),
        entry_map(s.update(i, x)) == entry_map(s).insert(x.0@, x.1@),
{
    let t = s.update(i, x);
    assert(entry_keys(t) =~= entry_keys(s));
    assert(entry_values(t) =~= entry_values(s).update(i, x.1@));
    let m = entry_map(s).insert(x.0@, x.1@);
    lemma_lookup(s, i);
    assert forall|k: Seq<char>| m.contains_key(k) <==> entry_keys(t).contains(k) by {}
    assert forall|j: int| 0 <= j < t.len() implies m[#[trigger] t[j].0@] == t[j].1@ by {
        if j != i {
            lemma_lookup(s, j);
            assert(entry_keys(s)[j] != entry_keys(s)[i]);
        }
    }
    lemma_map_ext(s, t, m);
}

proof fn lemma_remove(s: Seq<(String, WebhookEndpoint)>, i: int)
    requires
        entry_keys(s).no_duplicates(),
        0 <= i < s.len(),
    ensures
        entry_keys(s.remove(i)).no_duplicates(),
        entry_keys(s.remove(i)) == entry_keys(s).remove(i),
        entry_values(s.remove(i)) == entry_values(s).remove(i),
        entry_map(s.remove(i)) == entry_map(s).remove(s[i].0@),
{
    let t = s.remove(i);
    let ks = entry_keys(s);
    assert(entry_keys(t) =~= ks.remove(i));
    assert(entry_values(t) =~= entry_values(s).remove(i));
    assert forall|a: int, b: int| 0 <= a < entry_keys(t).len() && 0 <= b < entry_keys(t).len() && a != b implies entry_keys(t)[a] != entry_keys(t)[b] by {
        let a2 = if a < i { a } else { a + 1 };
        let b2 = if b < i { b } else { b + 1 };
        assert(entry_keys(t)[a] == ks[a2]);
        assert(entry_keys(t)[b] == ks[b2]);
    }
    let m = entry_map(s).remove(s[i].0@);
    lemma_lookup(s, i);
    assert forall|k: Seq<char>| m.contains_key(k) <==> entry_keys(t).contains(k) by {
        if entry_keys(t).contains(k) {
            let j = choose|j: int| 0 <= j < entry_keys(t).len() && entry_keys(t)[j] == k;
            let j2 = if j < i { j } else { j + 1 };
            assert(ks[j2] == k);
            assert(ks[i] != ks[j2]);
        }
        if m.contains_key(k) {
            let j = choose|j: int| 0 <= j < ks.len() && ks[j] == k;
            assert(j != i);
            let j2 = if j < i { j } else { j - 1 };
            assert(entry_keys(t)[j2] == k);
        }
    }
    assert forall|j: int| 0 <= j < t.len() implies m[#[trigger] t[j].0@] == t[j].1@ by {
        let j2 = if j < i { j } else { j + 1 };
        assert(t[j] == s[j2]);
        lemma_lookup(s, j2);
        assert(ks[j2] != ks[i]);
    }
    lemma_map_ext(s, t, m);
}

proof fn lemma_count(s: Seq<(String, WebhookEndpoint)>)
    requires
        entry_keys(s).no_duplicates(),
    ensures
        entry_map(s).dom().finite(),
        entry_map(s).dom().len() == s.len(),
{
    entry_keys(s).unique_seq_to_set();
    assert(entry_map(s).dom() =~= entry_keys(s).to_set());
}

/// What a query asks of an endpoint.
enum Selection<'a> {
    Subscribed(&'a str),
    All,
    Enabled,
    Disabled,
    Failing(u32),
    UrlContains(&'a str),
}

spec fn selected(sel: Selection, e: EndpointView) -> bool {
    match sel {
        Selection::Subscribed(event) => e.enabled && e.subscribed(event@),
        Selection::All => true,
        Selection::Enabled => e.enabled,
        Selection::Disabled => !e.enabled,
        Selection::Failing(threshold) => e.failure_count >= threshold,
        Selection::UrlContains(pattern) => has_infix(utf8(e.url), utf8(pattern@)),
    }
}

fn is_selected(sel: &Selection, e: &WebhookEndpoint) -> (r: bool)
    ensures
        r == selected(*sel, e@),
{
    match sel {
        Selection::Subscribed(event) => e.enabled && e.is_subscribed_to(event),
        Selection::All => true,
        Selection::Enabled => e.enabled,
        Selection::Disabled => !e.enabled,
        Selection::Failing(threshold) => e.failure_count >= *threshold,
        Selection::UrlContains(pattern) => contains_bytes(e.url.as_str().as_bytes(), pattern.as_bytes()),
    }
}

/// Registry for managing webhook endpoints
///
/// A registry has one owner; handles that share one registry, between
/// threads too, hold it behind a lock.
#[derive(Debug)]
pub struct WebhookRegistry {
    entries: Vec<(String, WebhookEndpoint)>,
}

impl Default for WebhookRegistry {
    fn default() -> (r: Self)
        ensures
            r.wf(),
            r@ == Map::<Seq<char>, EndpointView>::empty(),
            r.listing().len() == 0,
    {
        WebhookRegistry::new()
    }
}

impl View for WebhookRegistry {
    type V = Map<Seq<char>, EndpointView>;

    /// The registered endpoints by key.
    closed spec fn view(&self) -> Map<Seq<char>, EndpointView> {
        entry_map(self.entries@)
    }
}

impl WebhookRegistry {
    /// The registration keys, in registration order.
    pub closed spec fn keys(&self) -> Seq<Seq<char>> {
        entry_keys(self.entries@)
    }

    /// The registered endpoints, in registration order.
    pub closed spec fn listing(&self) -> Seq<EndpointView> {
        entry_values(self.entries@)
    }

    /// Each key is registered once.
    #[verifier::type_invariant]
    pub closed spec fn wf(&self) -> bool {
        entry_keys(self.entries@).no_duplicates()
    }

    /// The key order and the listing agree with the map: the `i`-th key maps to
    /// the `i`-th endpoint, and the keys are exactly the map's keys, each once.
    pub proof fn lemma_listing_agrees(&self)
        requires
            self.wf(),
        ensures
            self.keys().len() == self.listing().len(),
            self.keys().no_duplicates(),
            forall|k: Seq<char>| self@.contains_key(k) <==> self.keys().contains(k),
            forall|i: int|
                0 <= i < self.keys().len() ==> self@[#[trigger] self.keys()[i]]
                    == self.listing()[i],
            self@.dom().finite(),
            self@.dom().len() == self.listing().len(),
    {
        assert forall|i: int| 0 <= i < self.keys().len() implies self@[#[trigger] self.keys()[i]]
            == self.listing()[i] by {
            lemma_lookup(self.entries@, i);
        }
        lemma_count(self.entries@);
    }

    /// Create a new empty registry
    pub fn new() -> (r: Self)
        ensures
            r.wf(),
            r@ == Map::<Seq<char>, EndpointView>::empty(),
            r.listing().len() == 0,
    {
        let r = WebhookRegistry { entries: Vec::new() };
        assert(r@ =~= Map::<Seq<char>, EndpointView>::empty());
        r
    }

    /// Moves the entries out, leaving none behind.
    fn take_entries(&mut self) -> (v: Vec<(String, WebhookEndpoint)>)
        ensures
            v@ == old(self).entries@,
            final(self).entries@.len() == 0,
    {
        let mut v: Vec<(String, WebhookEndpoint)> = Vec::new();
        std::mem::swap(&mut v, &mut self.entries);
        v
    }

    fn position(&self, id: &str) -> (r: Option<usize>)
        ensures
            match r {
                Some(i) => i < self.entries@.len() && self.entries@[i as int].0@ == id@,
                None => !entry_keys(self.entries@).contains(id@),
            },
    {
        let key = id.to_owned();
        let mut i: usize = 0;
        while i < self.entries.len()
            invariant
                key@ == id@,
                i <= self.entries@.len(),
                forall|j: int| 0 <= j < i ==> #[trigger] entry_keys(self.entries@)[j] != id@,
            decreases self.entries@.len() - i,
        {
            if self.entries[i].0 == key {
                return Some(i);
            }
            i += 1;
        }
        None
    }

    /// Register an endpoint under its ID, replacing any endpoint registered
    /// under that ID; returns the ID.
    pub fn register(&mut self, endpoint: WebhookEndpoint) -> (id: String)
        ensures
            final(self).wf(),
            id == endpoint.id,
            final(self)@ == old(self)@.insert(endpoint@.id, endpoint@),
            old(self)@.contains_key(endpoint@.id) ==> final(self).keys() == old(self).keys(),
            !old(self)@.contains_key(endpoint@.id) ==> final(self).keys() == old(self).keys().push(endpoint@.id)
                && final(self).listing() == old(self).listing().push(endpoint@),
    {
        proof {
            use_type_invariant(&*self);
        }
        let id = endpoint.id.clone();
        let key = endpoint.id.clone();
        match self.position(id.as_str()) {
            Some(i) => {
                proof {
                    lemma_update(self.entries@, i as int, (key, endpoint));
                    lemma_lookup(self.entries@, i as int);
                }
                let mut entries = self.take_entries();
                entries.set(i, (key, endpoint));
                self.entries = entries;
            },
            None => {
                proof {
                    lemma_push(self.entries@, (key, endpoint));
                    lemma_absent(self.entries@, id@);
                }
                let mut entries = self.take_entries();
                entries.push((key, endpoint));
                self.entries = entries;
            },
        }
        id
    }

    /// Unregister an endpoint by ID
    pub fn unregister(&mut self, id: &str) -> (r: Option<WebhookEndpoint>)
        ensures
            final(self).wf(),
            final(self)@ == old(self)@.remove(id@),
            match r {
                Some(e) => old(self)@.contains_key(id@) && e@ == old(self)@[id@],
                None => !old(self)@.contains_key(id@),
            },
    {
        proof {
            use_type_invariant(&*self);
        }
        match self.position(id) {
            Some(i) => {
                proof {
                    lemma_remove(self.entries@, i as int);
                    lemma_lookup(self.entries@, i as int);
                }
                let mut entries = self.take_entries();
                let (_, e) = entries.remove(i);
                self.entries = entries;
                Some(e)
            },
            None => {
                proof {
                    lemma_absent(self.entries@, id@);
                }
                assert(self@ =~= old(self)@.remove(id@));
                None
            },
        }
    }

    /// Get an endpoint by ID
    pub fn get(&self, id: &str) -> (r: Option<WebhookEndpoint>)
        ensures
            match r {
                Some(e) => self@.contains_key(id@) && e@ == self@[id@],
                None => !self@.contains_key(id@),
            },
    {
        proof {
            use_type_invariant(self);
        }
        match self.position(id) {
            Some(i) => {
                proof {
                    lemma_lookup(self.entries@, i as int);
                }
                Some(self.entries[i].1.duplicate())
            },
            None => None,
        }
    }

    fn collect(&self, sel: Selection) -> (r: Vec<WebhookEndpoint>)
        ensures
            endpoint_views(r@) == select(self.listing(), |e: EndpointView| selected(sel, e)),
    {
        let ghost p = |e: EndpointView| selected(sel, e);
        let ghost all = self.listing();
        let mut r: Vec<WebhookEndpoint> = Vec::new();
        let mut i: usize = 0;
        assert(all.subrange(0, 0) =~= Seq::<EndpointView>::empty());
        assert(endpoint_views(r@) =~= Seq::<EndpointView>::empty());
        while i < self.entries.len()
            invariant
                all == self.listing(),
                all.len() == self.entries@.len(),
                p == (|e: EndpointView| selected(sel, e)),
                i <= all.len(),
                endpoint_views(r@) == select(all.subrange(0, i as int), p),
            decreases all.len() - i,
        {
            let ghost pre = all.subrange(0, i + 1);
            assert(pre.drop_last() =~= all.subrange(0, i as int));
            assert(pre.last() == self.entries@[i as int].1@);
            let ghost before = endpoint_views(r@);
            if is_selected(&sel, &self.entries[i].1) {
                let e = self.entries[i].1.duplicate();
                r.push(e);
                assert(endpoint_views(r@) =~= before.push(pre.last()));
            }
            i += 1;
        }
        assert(all.subrange(0, i as int) =~= all);
        r
    }

    /// Get all endpoints subscribed to an event
    pub fn get_endpoints_for_event(&self, event: &str) -> (r: Vec<WebhookEndpoint>)
        ensures
            endpoint_views(r@) == select(
                self.listing(),
                |e: EndpointView| e.enabled && e.subscribed(event@),
            ),
    {
        let r = self.collect(Selection::Subscribed(event));
        assert((|e: EndpointView| selected(Selection::Subscribed(event), e)) =~= (|e: EndpointView|
            e.enabled && e.subscribed(event@)));
        r
    }

    /// Get all registered endpoints
    pub fn get_all(&self) -> (r: Vec<WebhookEndpoint>)
        ensures
            endpoint_views(r@) == select(self.listing(), |e: EndpointView| true),
    {
        let r = self.collect(Selection::All);
        assert((|e: EndpointView| selected(Selection::All, e)) =~= (|e: EndpointView| true));
        r
    }

    /// Get all enabled endpoints
    pub fn get_enabled(&self) -> (r: Vec<WebhookEndpoint>)
        ensures
            endpoint_views(r@) == select(self.listing(), |e: EndpointView| e.enabled),
    {
        let r = self.collect(Selection::Enabled);
        assert((|e: EndpointView| selected(Selection::Enabled, e)) =~= (|e: EndpointView|
            e.enabled));
        r
    }

    /// Get all disabled endpoints
    pub fn get_disabled(&self) -> (r: Vec<WebhookEndpoint>)
        ensures
            endpoint_views(r@) == select(self.listing(), |e: EndpointView| !e.enabled),
    {
        let r = self.collect(Selection::Disabled);
        assert((|e: EndpointView| selected(Selection::Disabled, e)) =~= (|e: EndpointView|
            !e.enabled));
        r
    }

    /// Get endpoints with high failure counts
    pub fn get_failing_endpoints(&self, threshold: u32) -> (r: Vec<WebhookEndpoint>)
        ensures
            endpoint_views(r@) == select(
                self.listing(),
                |e: EndpointView| e.failure_count >= threshold,
            ),
    {
        let r = self.collect(Selection::Failing(threshold));
        assert((|e: EndpointView| selected(Selection::Failing(threshold), e)) =~= (|e: EndpointView|
            e.failure_count >= threshold));
        r
    }

    /// Get endpoints by URL pattern
    pub fn find_by_url(&self, url_pattern: &str) -> (r: Vec<WebhookEndpoint>)
        ensures
            endpoint_views(r@) == select(
                self.listing(),
                |e: EndpointView| has_infix(utf8(e.url), utf8(url_pattern@)),
            ),
    {
        let r = self.collect(Selection::UrlContains(url_pattern));
        assert((|e: EndpointView| selected(Selection::UrlContains(url_pattern), e)) =~= (|e: EndpointView|
            has_infix(utf8(e.url), utf8(url_pattern@))));
        r
    }

    /// Get the number of registered endpoints
    pub fn count(&self) -> (n: usize)
        ensures
            n == self@.dom().len(),
            n == self.listing().len(),
    {
        proof {
            use_type_invariant(self);
        }
        proof {
            lemma_count(self.entries@);
        }
        self.entries.len()
    }

    /// Check if an endpoint exists
    pub fn contains(&self, id: &str) -> (r: bool)
        ensures
            r == self@.contains_key(id@),
    {
        match self.position(id) {
            Some(i) => {
                assert(entry_keys(self.entries@)[i as int] == id@);
                true
            },
            None => false,
        }
    }

    /// Update an endpoint
    pub fn update(&mut self, id: &str, endpoint: WebhookEndpoint) -> (r: Result<(), WebhookError>)
        ensures
            final(self).wf(),
            old(self)@.contains_key(id@) ==> r is Ok && final(self)@ == old(self)@.insert(
                id@,
                endpoint@,
            ) && final(self).keys() == old(self).keys(),
            !old(self)@.contains_key(id@) ==> not_found(r, id@) && final(self)@ == old(self)@
                && final(self).listing() == old(self).listing(),
    {
        proof {
            use_type_invariant(&*self);
        }
        match self.position(id) {
            Some(i) => {
                let key = id.to_owned();
                proof {
                    lemma_update(self.entries@, i as int, (key, endpoint));
                    lemma_lookup(self.entries@, i as int);
                }
                let mut entries = self.take_entries();
                entries.set(i, (key, endpoint));
                self.entries = entries;
                Ok(())
            },
            None => {
                proof {
                    lemma_absent(self.entries@, id@);
                }
                Err(WebhookError::EndpointNotFound(id.to_owned()))
            },
        }
    }

    /// Enable an endpoint
    pub fn enable(&mut self, id: &str) -> (r: Result<(), WebhookError>)
        ensures
            final(self).wf(),
            old(self)@.contains_key(id@) ==> r is Ok && final(self).keys() == old(self).keys()
                && final(self)@ == old(self)@.insert(
                id@,
                EndpointView {
                    enabled: true,
                    failure_count: 0,
                    updated_at: final(self)@[id@].updated_at,
                    ..old(self)@[id@]
                },
            ),
            !old(self)@.contains_key(id@) ==> not_found(r, id@) && final(self)@ == old(self)@
                && final(self).listing() == old(self).listing(),
    {
        proof {
            use_type_invariant(&*self);
        }
        match self.position(id) {
            Some(i) => {
                let mut entries = self.take_entries();
                let (key, mut e) = entries.remove(i);
                e.enable();
                proof {
                    lemma_lookup(old(self).entries@, i as int);
                    assert(old(self).entries@.remove(i as int).insert(i as int, (key, e)) =~= old(
                        self,
                    ).entries@.update(i as int, (key, e)));
                    lemma_update(old(self).entries@, i as int, (key, e));
                }
                entries.insert(i, (key, e));
                self.entries = entries;
                Ok(())
            },
            None => {
                proof {
                    lemma_absent(self.entries@, id@);
                }
                Err(WebhookError::EndpointNotFound(id.to_owned()))
            },
        }
    }

    /// Disable an endpoint
    pub fn disable(&mut self, id: &str) -> (r: Result<(), WebhookError>)
        ensures
            final(self).wf(),
            old(self)@.contains_key(id@) ==> r is Ok && final(self).keys() == old(self).keys()
                && final(self)@ == old(self)@.insert(
                id@,
                EndpointView {
                    enabled: false,
                    updated_at: final(self)@[id@].updated_at,
                    ..old(self)@[id@]
                },
            ),
            !old(self)@.contains_key(id@) ==> not_found(r, id@) && final(self)@ == old(self)@
                && final(self).listing() == old(self).listing(),
    {
        proof {
            use_type_invariant(&*self);
        }
        match self.position(id) {
            Some(i) => {
                let mut entries = self.take_entries();
                let (key, mut e) = entries.remove(i);
                e.disable();
                proof {
                    lemma_lookup(old(self).entries@, i as int);
                    assert(old(self).entries@.remove(i as int).insert(i as int, (key, e)) =~= old(
                        self,
                    ).entries@.update(i as int, (key, e)));
                    lemma_update(old(self).entries@, i as int, (key, e));
                }
                entries.insert(i, (key, e));
                self.entries = entries;
                Ok(())
            },
            None => {
                proof {
                    lemma_absent(self.entries@, id@);
                }
                Err(WebhookError::EndpointNotFound(id.to_owned()))
            },
        }
    }

    /// Record a successful delivery for an endpoint
    pub fn record_success(&mut self, id: &str) -> (r: Result<(), WebhookError>)
        ensures
            final(self).wf(),
            old(self)@.contains_key(id@) ==> r is Ok && final(self).keys() == old(self).keys()
                && final(self)@ == old(self)@.insert(
                id@,
                EndpointView {
                    last_success: Some(final(self)@[id@].updated_at),
                    failure_count: 0,
                    updated_at: final(self)@[id@].updated_at,
                    ..old(self)@[id@]
                },
            ),
            !old(self)@.contains_key(id@) ==> not_found(r, id@) && final(self)@ == old(self)@
                && final(self).listing() == old(self).listing(),
    {
        proof {
            use_type_invariant(&*self);
        }
        match self.position(id) {
            Some(i) => {
                let mut entries = self.take_entries();
                let (key, mut e) = entries.remove(i);
                e.record_success();
                proof {
                    lemma_lookup(old(self).entries@, i as int);
                    assert(old(self).entries@.remove(i as int).insert(i as int, (key, e)) =~= old(
                        self,
                    ).entries@.update(i as int, (key, e)));
                    lemma_update(old(self).entries@, i as int, (key, e));
                }
                entries.insert(i, (key, e));
                self.entries = entries;
                Ok(())
            },
            None => {
                proof {
                    lemma_absent(self.entries@, id@);
                }
                Err(WebhookError::EndpointNotFound(id.to_owned()))
            },
        }
    }

    /// Record a failed delivery for an endpoint
    pub fn record_failure(&mut self, id: &str) -> (r: Result<(), WebhookError>)
        requires
            old(self)@.contains_key(id@) ==> old(self)@[id@].failure_count < u32::MAX,
        ensures
            final(self).wf(),
            old(self)@.contains_key(id@) ==> r is Ok && final(self).keys() == old(self).keys()
                && final(self)@ == old(self)@.insert(
                id@,
                EndpointView {
                    last_failure: Some(final(self)@[id@].updated_at),
                    failure_count: (old(self)@[id@].failure_count + 1) as u32,
                    updated_at: final(self)@[id@].updated_at,
                    ..old(self)@[id@]
                },
            ),
            !old(self)@.contains_key(id@) ==> not_found(r, id@) && final(self)@ == old(self)@
                && final(self).listing() == old(self).listing(),
    {
        proof {
            use_type_invariant(&*self);
        }
        match self.position(id) {
            Some(i) => {
                proof {
                    lemma_lookup(self.entries@, i as int);
                }
                let mut entries = self.take_entries();
                let (key, mut e) = entries.remove(i);
                e.record_failure();
                proof {
                    assert(old(self).entries@.remove(i as int).insert(i as int, (key, e)) =~= old(
                        self,
                    ).entries@.update(i as int, (key, e)));
                    lemma_update(old(self).entries@, i as int, (key, e));
                }
                entries.insert(i, (key, e));
                self.entries = entries;
                Ok(())
            },
            None => {
                proof {
                    lemma_absent(self.entries@, id@);
                }
                Err(WebhookError::EndpointNotFound(id.to_owned()))
            },
        }
    }

    /// Run `f` on the endpoint registered under `id`, keeping what it changes.
    ///
    /// `f` is handed the endpoint registered under `id`; that registration
    /// becomes what `f` leaves behind, and the result is what `f` returned.
    /// Every other registration is untouched.
    pub fn with_endpoint<F, R>(&mut self, id: &str, f: F) -> (r: Result<R, WebhookError>) where
        F: FnOnce(&mut WebhookEndpoint) -> R,
        requires
            forall|e: &mut WebhookEndpoint| #[trigger] f.requires((e,)),
        ensures
            final(self).wf(),
            final(self).keys() == old(self).keys(),
            final(self)@.dom() == old(self)@.dom(),
            forall|k: Seq<char>| k != id@ && #[trigger] old(self)@.contains_key(k) ==> final(self)@[k] == old(self)@[k],
            old(self)@.contains_key(id@) ==> (r matches Ok(out) && exists|m: &mut WebhookEndpoint|
                f.ensures((m,), out) && (*m)@ == old(self)@[id@] && (*final(m))@ == final(self)@[id@]),
            !old(self)@.contains_key(id@) ==> (r matches Err(WebhookError::EndpointNotFound(m))
                && m@ == id@) && final(self)@ == old(self)@,
    {
        proof {
            use_type_invariant(&*self);
        }
        match self.position(id) {
            Some(i) => {
                proof {
                    lemma_lookup(self.entries@, i as int);
                }
                let mut entries = self.take_entries();
                let (key, mut e) = entries.remove(i);
                let ghost before = e;
                let out = f(&mut e);
                assert(exists|m: &mut WebhookEndpoint|
                    f.ensures((m,), out) && *m == before && *final(m) == e);
                proof {
                    assert(old(self).entries@.remove(i as int).insert(i as int, (key, e)) =~= old(
                        self,
                    ).entries@.update(i as int, (key, e)));
                    lemma_update(old(self).entries@, i as int, (key, e));
                }
                entries.insert(i, (key, e));
                self.entries = entries;
                assert(self@.dom() =~= old(self)@.dom());
                Ok(out)
            },
            None => {
                proof {
                    lemma_absent(self.entries@, id@);
                }
                Err(WebhookError::EndpointNotFound(id.to_owned()))
            },
        }
    }

    /// Clear all endpoints
    pub fn clear(&mut self)
        ensures
            final(self).wf(),
            final(self)@ == Map::<Seq<char>, EndpointView>::empty(),
            final(self).listing().len() == 0,
    {
        self.entries = Vec::new();
        assert(self@ =~= Map::<Seq<char>, EndpointView>::empty());
    }
}

/// A query returns exactly the listed endpoints that satisfy its condition:
/// each result satisfies it and is listed, and each listed endpoint that
/// satisfies it is among the results (so a disabled endpoint is never
/// returned for an event).
pub proof fn law_select_exact(s: Seq<EndpointView>, p: spec_fn(EndpointView) -> bool)
    ensures
        forall|x: EndpointView| #[trigger] select(s, p).contains(x) <==> (s.contains(x) && p(x)),
        select(s, p).len() <= s.len(),
    decreases s.len(),
{
    if s.len() > 0 {
        law_select_exact(s.drop_last(), p);
        let front = select(s.drop_last(), p);
        assert forall|x: EndpointView| #[trigger] select(s, p).contains(x) <==> (s.contains(x) && p(x)) by {
            if p(s.last()) {
                vstd::seq_lib::lemma_seq_contains_after_push(front, s.last(), x);
            }
            if s.contains(x) && x != s.last() {
                let i = choose|i: int| 0 <= i < s.len() && s[i] == x;
                assert(s.drop_last()[i] == x);
            }
            if s.drop_last().contains(x) {
                let i = choose|i: int| 0 <= i < s.drop_last().len() && s.drop_last()[i] == x;
                assert(s[i] == x);
            }
            assert(s.contains(s.last())) by {
                assert(s[s.len() - 1] == s.last());
            }
        }
    } else {
        assert(select(s, p) =~= Seq::<EndpointView>::empty());
    }
}

/// Registering an endpoint makes it retrievable under its ID, and leaves
/// every other registration as it was.
pub proof fn law_register_then_get(
    registered: Map<Seq<char>, EndpointView>,
    endpoint: EndpointView,
    other: Seq<char>,
)
    ensures
        registered.insert(endpoint.id, endpoint).contains_key(endpoint.id),
        registered.insert(endpoint.id, endpoint)[endpoint.id] == endpoint,
        other != endpoint.id ==> (registered.insert(endpoint.id, endpoint).contains_key(other)
            <==> registered.contains_key(other)),
        other != endpoint.id && registered.contains_key(other) ==> registered.insert(
            endpoint.id,
            endpoint,
        )[other] == registered[other],
{
}

/// After unregistering an ID nothing is registered under it, and every other
/// registration is as it was.
pub proof fn law_unregister_removes(registered: Map<Seq<char>, EndpointView>, id: Seq<char>, other: Seq<char>)
    ensures
        !registered.remove(id).contains_key(id),
        other != id ==> (registered.remove(id).contains_key(other) <==> registered.contains_key(other)),
{
}

} // verus!
