# armature_webhooks

Webhook handling — HMAC signing and verification of payloads, delivery
records, endpoint subscriptions and an endpoint registry — written in Verus,
with the library's own functions proved against their contracts. Calls into
outside crates and into the parts of std that Verus does not specify stand
behind a few small trusted wrappers, whose contracts are believed, not
proved.

## Layout

- `src/` — the verified library.
  - `signature.rs`: the `t=<timestamp>,v1=<hex>` and `sha256=<hex>` header
    schemes, `WebhookSignature`, and the laws that a signed header verifies
    and that only the exact header that signs the payload is accepted.
  - `receiver.rs`: `WebhookReceiver`, case-insensitive header lookup with a
    fixed precedence, and event filters for handlers.
  - `endpoint.rs`: endpoints, their subscriptions and wildcard patterns.
  - `registry.rs`: the endpoint registry, modelled as a map from key to
    endpoint together with the registration order; that each key is
    registered once is a type invariant.
  - `payload.rs`: payloads, delivery records and UTF-8-safe truncation.
  - `text.rs`, `ids.rs`, `clock.rs`: byte-level text handling, UUID text,
    and the clock.
- `app/` — what the library cannot hold: configuration and retry policies
  (floating point), JSON encoding, `Display` for errors, receiving a request
  end to end, and a registry shared between threads.
- `tests/` — tests run against the compiled library.
