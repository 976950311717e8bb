# nmp-engine

The reducer core of a nostr client engine: which requests are on which relay,
what each live observation has delivered, which writes are on their way, how far
each session has authenticated, and what has to be done next. Everything under
`src/` is verified with Verus; nothing there opens a socket, reads a clock or
touches a disk.

## Layout

- `src/key.rs`, `sorted.rs`, `reverse.rs`, `tally.rs`, `owner_index.rs`: ordered
  maps and sets, and indexes from owners to what they own.
- `src/ids.rs`, `wire.rs`: identities and filters. Relays, filters, demands and
  the like are named by numbers that the caller hands out.
- `src/request_attempt.rs`, `request_replacements.rs`, `request_targets.rs`,
  `requests.rs`, `request_effects.rs`, `request_retries.rs`, `plan_delta.rs`,
  `planned_reads.rs`, `plan_roles.rs`, `wire_admission.rs`: the life of a wire
  request.
  `request_laws.rs` states what holds of it whatever the order of events.
- `src/rows.rs`, `projection.rs`, `matching.rs`, `observations.rs`,
  `observation_registry.rs`, `opening.rs`, `committed.rs`, `evidence.rs`: what an
  observation delivers and why. `projection_laws.rs` relates what was told to a
  full read of the store.
- `src/pending_writes.rs`, `lane_projection.rs`, `semantic_delivery.rs`,
  `receipts.rs`, `relay_ack.rs`, `retry.rs`, `routing_facts.rs`: writes.
- `src/auth.rs`, `session_registry.rs`, `diagnostics.rs`: sessions.
- `src/nip77_sessions.rs`: reconciliation with relays that support it.
- `src/core_state.rs`, `core_observations.rs`, `turns.rs`, `effects.rs`: the parts
  together, and what they ask of the executor.
- `src/text.rs`: texts that are put together from parts.
- `src/outside.rs` and `src/matching.rs` hold the three calls into outside crates
  whose contracts are taken on trust: building an authentication event, matching
  an event against a filter (both `nostr`), and hashing a challenge (`blake3`).
- `app/` performs what the core decides, against a resolver, a router, a store and
  a transport.
- `tests/` runs the library on concrete values.
