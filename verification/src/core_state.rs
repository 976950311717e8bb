//! The state of the engine as a whole, and the rules that span its parts.

use vstd::prelude::*;

use crate::auth::AuthSessionState;
use crate::ids::{
    EventId, HandleId, IntentId, ObservationId, PublicKey, ReceiptId, Relay, RelaySessionKey, TransportRelayHandle,
};
use crate::key::{is_listing, lemma_listing_members, lemma_push_contains, Pair};
use crate::observation_registry::Observations;
use crate::observations::{BranchState, ObservationState};
use crate::pending_writes::{PendingWrite, PendingWrites};
use crate::planned_reads::{PlannedReads, ReadsView};
use crate::request_targets::{ActiveRequestTarget, LiveTarget, RequestTargets};
use crate::requests::{Requests, RequestsView};
use crate::routing_facts::{AuthorRouteReplacement, RoutingFactStore};
use crate::session_registry::SessionRegistry;
use crate::sorted::{SortedMap, SortedSet};
use crate::text::{decimal, decimal_text, join_text};

verus! {

/// The state of the engine.
pub struct CoreState {
    pub routing_facts: RoutingFactStore,
    /// How many relays one request may be spread over.
    pub cap: usize,
    pub observations: Observations,
    pub targets: RequestTargets,
    pub requests: Requests,
    pub reads: PlannedReads,
    pub sessions: SessionRegistry,
    pub pending: PendingWrites,
    /// The time of the last turn.
    pub clock: u64,
    pub active_pubkey: Option<PublicKey>,
    pub next_attempt_correlation: Option<u64>,
    /// The session of every publication that awaits its hand-off.
    pub attempt_correlations: SortedMap<u64, RelaySessionKey>,
    /// What a transport worker last reported.
    pub transport_degraded: Option<String>,
    pub max_publish_attempts: u64,
    pub default_max_publish_attempts: u64,
}

/// The sessions that need a worker.
pub struct RelayWorkerRequirements {
    /// Every session that is to be kept open.
    pub all: SortedSet<RelaySessionKey>,
    /// Those of them that a write is bound to.
    pub writes: SortedSet<RelaySessionKey>,
}

/// What a transport worker reports.
#[derive(Clone, Debug)]
pub struct RelayHealth {
    pub invalid_signature_count: u64,
    pub undecodable_frame_count: u64,
    pub last_error: Option<String>,
}

/// What is owned by the live observations, all together.
#[derive(Clone, Copy, Debug, PartialEq, Eq, Structural)]
pub struct CoreObservationOwnershipCensus {
    pub handles: usize,
    pub histories: usize,
    pub history_handles: usize,
    pub resolver_nodes: usize,
    pub demand_atoms: usize,
    pub planned_sessions: usize,
    pub pending_execution_owner_keys: usize,
    pub pending_execution_owners: usize,
    pub active_execution_owners: usize,
    pub live_wire_owners: usize,
}

/// Whether a pending write needs a session.
pub open spec fn write_needs(w: PendingWrite, s: RelaySessionKey) -> bool {
    s.authenticate_as == Some(w.signing_pubkey) && (w.pending_relays@.contains(s.relay)
        || w.lane_projection.nonterminal@.contains(s.relay))
}

impl CoreState {
    pub open spec fn wf(&self) -> bool {
        &&& self.targets.wf()
        &&& self.requests.wf()
        &&& self.reads.wf()
        &&& self.pending.consistent()
        &&& self.pending.projected()
    }

    /// Everything starts empty, and at time zero.
    pub fn new_with_routing_facts(
        routing_facts: RoutingFactStore,
        cap: usize,
        default_max_publish_attempts: u64,
    ) -> (r: Self)
        ensures
            r.wf(),
            r.routing_facts == routing_facts,
            r.cap == cap,
            r.observations.observations@ == Map::<ObservationId, ObservationState>::empty(),
            r.observations.handles@ == Map::<HandleId, BranchState>::empty(),
            r.observations.next_observation_id == 0,
            r.targets.declared() == Map::<Pair<HandleId, ActiveRequestTarget>, usize>::empty(),
            r.targets.active() == Map::<Pair<HandleId, LiveTarget>, usize>::empty(),
            r.targets.live() == Map::<LiveTarget, usize>::empty(),
            r.requests@ == (RequestsView {
                attempts: Map::empty(),
                retries: Map::empty(),
                next_id: Some(0u64),
                replacements: Map::empty(),
                pending: Map::empty(),
                active: Map::empty(),
                live: Map::empty(),
                metadata: Map::empty(),
                transfers: Map::empty(),
            }),
            r.reads@ == (ReadsView {
                sessions: Set::empty(),
                information: Map::empty(),
                events: Map::empty(),
            }),
            r.sessions.slot_to_relay@ == Map::<u32, (TransportRelayHandle, RelaySessionKey)>::empty(),
            r.sessions.connected_relays@ == Set::<RelaySessionKey>::empty(),
            r.sessions.ever_connected_relays@ == Set::<RelaySessionKey>::empty(),
            r.sessions.auth_ready_sessions@ == Map::<RelaySessionKey, TransportRelayHandle>::empty(),
            r.sessions.auth_probe_sessions@ == Map::<RelaySessionKey, TransportRelayHandle>::empty(),
            r.sessions.auth_required_sessions@ == Set::<RelaySessionKey>::empty(),
            r.sessions.auth_sessions@ == Map::<RelaySessionKey, AuthSessionState>::empty(),
            r.sessions.next_auth_epoch == Some(1u64),
            r.sessions.next_auth_operation == Some(1u64),
            r.sessions.relay_open_failures@ == Map::<RelaySessionKey, String>::empty(),
            r.pending.rows() == Map::<ReceiptId, PendingWrite>::empty(),
            r.pending.intents() == Map::<IntentId, ReceiptId>::empty(),
            r.pending.events() == Set::<Pair<EventId, ReceiptId>>::empty(),
            r.pending.lanes() == Set::<Pair<Relay, ReceiptId>>::empty(),
            r.clock == 0,
            r.active_pubkey is None,
            r.next_attempt_correlation == Some(0u64),
            r.attempt_correlations@ == Map::<u64, RelaySessionKey>::empty(),
            r.transport_degraded is None,
            r.max_publish_attempts == default_max_publish_attempts,
            r.default_max_publish_attempts == default_max_publish_attempts,
    {
        CoreState {
            routing_facts,
            cap,
            observations: Observations::new(),
            targets: RequestTargets::new(),
            requests: Requests::new(),
            reads: PlannedReads::new(),
            sessions: SessionRegistry::new(),
            pending: PendingWrites::new(),
            clock: 0,
            active_pubkey: None,
            next_attempt_correlation: Some(0),
            attempt_correlations: SortedMap::new(),
            transport_degraded: None,
            max_publish_attempts: default_max_publish_attempts,
            default_max_publish_attempts,
        }
    }

    /// How often a publication is tried at most. Zero stands for the default.
    pub fn with_max_publish_attempts(self, max_publish_attempts: u64) -> (r: Self)
        ensures
            r == (CoreState {
                max_publish_attempts: if max_publish_attempts == 0 {
                    self.default_max_publish_attempts
                } else {
                    max_publish_attempts
                },
                ..self
            }),
    {
        let mut r = self;
        r.max_publish_attempts =
            if max_publish_attempts == 0 {
                r.default_max_publish_attempts
            } else {
                max_publish_attempts
            };
        r
    }

    /// Takes on the time of a turn.
    pub fn advance_clock(&mut self, now: u64)
        ensures
            *final(self) == (CoreState { clock: now, ..*old(self) }),
    {
        self.clock = now;
    }

    /// The sessions that writes need: those of every publication on its way, and
    /// those of every pending write for a relay that it has not finished with.
    pub open spec fn write_workers(&self) -> Set<RelaySessionKey> {
        Set::new(
            |s: RelaySessionKey|
                {
                    ||| exists|c: u64| #[trigger]
                        self.attempt_correlations@.contains_key(c) && self.attempt_correlations@[c] == s
                    ||| exists|id: ReceiptId| #[trigger]
                        self.pending.rows().contains_key(id) && write_needs(self.pending.rows()[id], s)
                },
        )
    }

    /// The sessions that are kept open: those that the plan reads from, and those
    /// that writes need.
    pub open spec fn required(&self, planned: Set<RelaySessionKey>) -> Set<RelaySessionKey> {
        planned.union(self.write_workers())
    }

    /// The sessions of every publication on its way.
    fn correlated_sessions(&self) -> (r: SortedSet<RelaySessionKey>)
        ensures
            r@ == Set::new(
                |s: RelaySessionKey|
                    exists|c: u64| #[trigger]
                        self.attempt_correlations@.contains_key(c) && self.attempt_correlations@[c] == s,
            ),
    {
        let mut r: SortedSet<RelaySessionKey> = SortedSet::new();
        let n = self.attempt_correlations.len();
        let ghost q = self.attempt_correlations.keys();
        let mut i: usize = 0;
        while i < n
            invariant
                i <= n,
                n == q.len(),
                q == self.attempt_correlations.keys(),
                is_listing(q, self.attempt_correlations@.dom()),
                forall|s: RelaySessionKey| #[trigger]
                    r@.contains(s) <==> exists|j: int|
                        0 <= j < i && self.attempt_correlations@[#[trigger] q[j]] == s,
            decreases n - i,
        {
            let session = *self.attempt_correlations.value_at(i);
            let ghost before = r@;
            r.insert(session);
            assert forall|s: RelaySessionKey| #[trigger] r@.contains(s) <==> exists|j: int|
                0 <= j < i + 1 && self.attempt_correlations@[#[trigger] q[j]] == s by {
                if before.contains(s) {
                    let j = choose|j: int|
                        0 <= j < i && self.attempt_correlations@[#[trigger] q[j]] == s;
                    assert(self.attempt_correlations@[q[j]] == s);
                }
                if s == session {
                    assert(self.attempt_correlations@[q[i as int]] == s);
                }
            }
            i = i + 1;
        }
        proof {
            let want = Set::new(
                |s: RelaySessionKey|
                    exists|c: u64| #[trigger]
                        self.attempt_correlations@.contains_key(c) && self.attempt_correlations@[c] == s,
            );
            lemma_listing_members(q, self.attempt_correlations@.dom());
            assert forall|s: RelaySessionKey| r@.contains(s) <==> want.contains(s) by {
                if r@.contains(s) {
                    let j = choose|j: int|
                        0 <= j < n && self.attempt_correlations@[#[trigger] q[j]] == s;
                    assert(q.contains(q[j]));
                    assert(self.attempt_correlations@.contains_key(q[j]));
                }
                if want.contains(s) {
                    let c = choose|c: u64| #[trigger]
                        self.attempt_correlations@.contains_key(c) && self.attempt_correlations@[c] == s;
                    assert(q.contains(c));
                    let j = choose|j: int| 0 <= j < q.len() && q[j] == c;
                    assert(self.attempt_correlations@[q[j]] == s);
                }
            }
            assert(r@ =~= want);
        }
        r
    }

    pub fn write_relay_workers(&self) -> (r: SortedSet<RelaySessionKey>)
        ensures
            r@ == self.write_workers(),
    {
        let mut r = self.correlated_sessions();
        let ghost sent = r@;
        let ids = self.pending.receipt_ids();
        let mut i: usize = 0;
        while i < ids.len()
            invariant
                i <= ids@.len(),
                is_listing(ids@, self.pending.rows().dom()),
                forall|s: RelaySessionKey| #[trigger]
                    r@.contains(s) <==> sent.contains(s) || exists|j: int|
                        0 <= j < i && write_needs(self.pending.rows()[#[trigger] ids@[j]], s),
            decreases ids@.len() - i,
        {
            let id = ids[i];
            assert(self.pending.rows().dom().contains(ids@[i as int]));
            let write = self.pending.index(&id);
            let ghost before = r@;
            add_sessions(&mut r, &write.pending_relays, write.signing_pubkey);
            let ghost between = r@;
            add_sessions(&mut r, &write.lane_projection.nonterminal, write.signing_pubkey);
            assert forall|s: RelaySessionKey| #[trigger] r@.contains(s) <==> sent.contains(s) || exists|j: int|
                0 <= j < i + 1 && write_needs(self.pending.rows()[#[trigger] ids@[j]], s) by {
                assert(r@.contains(s) <==> before.contains(s) || write_needs(*write, s));
                if before.contains(s) && !sent.contains(s) {
                    let j = choose|j: int|
                        0 <= j < i && write_needs(self.pending.rows()[#[trigger] ids@[j]], s);
                    assert(write_needs(self.pending.rows()[ids@[j]], s));
                }
                if write_needs(*write, s) {
                    assert(write_needs(self.pending.rows()[ids@[i as int]], s));
                }
            }
            i = i + 1;
        }
        proof {
            lemma_listing_members(ids@, self.pending.rows().dom());
            assert forall|s: RelaySessionKey| r@.contains(s) <==> self.write_workers().contains(s) by {
                if r@.contains(s) && !sent.contains(s) {
                    let j = choose|j: int|
                        0 <= j < ids@.len() && write_needs(self.pending.rows()[#[trigger] ids@[j]], s);
                    assert(ids@.contains(ids@[j]));
                    assert(self.pending.rows().contains_key(ids@[j]));
                }
                if exists|id: ReceiptId| #[trigger]
                    self.pending.rows().contains_key(id) && write_needs(self.pending.rows()[id], s) {
                    let id = choose|id: ReceiptId| #[trigger]
                        self.pending.rows().contains_key(id) && write_needs(self.pending.rows()[id], s);
                    assert(ids@.contains(id));
                    let j = choose|j: int| 0 <= j < ids@.len() && ids@[j] == id;
                    assert(write_needs(self.pending.rows()[ids@[j]], s));
                }
            }
            assert(r@ =~= self.write_workers());
        }
        r
    }

    /// The sessions that need a worker. `planned` are those that the current plan
    /// reads from.
    pub fn relay_worker_requirements(&self, planned: &SortedSet<RelaySessionKey>) -> (r: RelayWorkerRequirements)
        ensures
            r.writes@ == self.write_workers(),
            r.all@ == self.required(planned@),
    {
        let writes = self.write_relay_workers();
        let mut all = planned.copy();
        all.extend(&writes);
        assert(all@ =~= self.required(planned@));
        RelayWorkerRequirements { all, writes }
    }

    /// Forgets what is known of sessions that nothing needs any more: why one
    /// could not be opened, and that its relay demanded authentication. Says
    /// whether a failure was forgotten.
    pub fn prune_unowned_relay_state(&mut self, planned: &SortedSet<RelaySessionKey>) -> (changed: bool)
        ensures
            ({
                let failures = old(self).sessions.relay_open_failures@;
                let keep = old(self).required(planned@);
                &&& *final(self) == (CoreState { sessions: final(self).sessions, ..*old(self) })
                &&& final(self).sessions == (SessionRegistry {
                    relay_open_failures: final(self).sessions.relay_open_failures,
                    auth_required_sessions: final(self).sessions.auth_required_sessions,
                    ..old(self).sessions
                })
                &&& final(self).sessions.relay_open_failures@ == failures.restrict(keep)
                &&& final(self).sessions.auth_required_sessions@
                    == old(self).sessions.auth_required_sessions@.intersect(keep)
                &&& changed == (failures != failures.restrict(keep))
            }),
    {
        let ghost failures = self.sessions.relay_open_failures@;
        let ghost keep = self.required(planned@);
        if self.sessions.relay_open_failures.is_empty() && self.sessions.auth_required_sessions.is_empty() {
            assert(failures =~= failures.restrict(keep));
            assert(self.sessions.auth_required_sessions@ =~= self.sessions.auth_required_sessions@.intersect(
                keep,
            ));
            return false;
        }
        let required = self.relay_worker_requirements(planned);
        let changed = drop_failures(&mut self.sessions.relay_open_failures, &required.all);
        keep_members(&mut self.sessions.auth_required_sessions, &required.all);
        changed
    }

    /// A worker for a session could not be opened. Says whether anybody needs
    /// the session: where nobody does, nothing changes.
    pub fn on_relay_open_failed(
        &mut self,
        session: RelaySessionKey,
        reason: String,
        planned: &SortedSet<RelaySessionKey>,
    ) -> (needed: bool)
        ensures
            needed == old(self).required(planned@).contains(session),
            !needed ==> *final(self) == *old(self),
            needed ==> {
                &&& *final(self) == (CoreState { sessions: final(self).sessions, ..*old(self) })
                &&& final(self).sessions == (SessionRegistry {
                    relay_open_failures: final(self).sessions.relay_open_failures,
                    ..old(self).sessions
                })
                &&& final(self).sessions.relay_open_failures@
                    == old(self).sessions.relay_open_failures@.insert(session, reason)
            },
    {
        let required = self.relay_worker_requirements(planned);
        if required.all.contains(&session) {
            self.sessions.relay_open_failures.insert(session, reason);
            true
        } else {
            false
        }
    }

    /// What is told of the transport after a report.
    pub open spec fn health_text(handle: TransportRelayHandle, health: RelayHealth) -> Option<Seq<char>> {
        match health.last_error {
            Some(error) => Some(error@),
            None => if health.invalid_signature_count > 0 {
                Some(
                    "relay slot "@ + decimal(handle.slot as nat) + (" rejected "@ + decimal(
                        health.invalid_signature_count as nat,
                    ) + " invalid signature frame(s)"@),
                )
            } else {
                None
            },
        }
    }

    /// A worker reports on one connection. A report of any other connection than
    /// the one that occupies the slot is dropped. Otherwise gives back whether
    /// what the session has returned so far can no longer be trusted.
    pub fn on_relay_health(
        &mut self,
        handle: TransportRelayHandle,
        session: RelaySessionKey,
        health: RelayHealth,
    ) -> (r: Option<bool>)
        ensures
            r is Some <==> old(self).sessions.occupies(handle, session),
            r is None ==> *final(self) == *old(self),
            r matches Some(erase) ==> {
                &&& *final(self) == (CoreState {
                    transport_degraded: final(self).transport_degraded,
                    ..*old(self)
                })
                &&& crate::diagnostics::maybe_text(final(self).transport_degraded)
                    == CoreState::health_text(handle, health)
                &&& erase == (health.invalid_signature_count > 0 || health.undecodable_frame_count > 0
                    || health.last_error is Some)
            },
    {
        if !self.sessions.same_slot_owner(handle, &session) {
            return None;
        }
        let erase = health.invalid_signature_count > 0 || health.undecodable_frame_count > 0
            || health.last_error.is_some();
        self.transport_degraded =
        match health.last_error {
            Some(error) => Some(error),
            None => if health.invalid_signature_count > 0 {
                let slot = decimal_text(handle.slot as u64);
                let head = join_text("relay slot ", slot.as_str());
                let count = decimal_text(health.invalid_signature_count);
                let middle = join_text(" rejected ", count.as_str());
                let tail = join_text(middle.as_str(), " invalid signature frame(s)");
                Some(join_text(head.as_str(), tail.as_str()))
            } else {
                None
            },
        };
        Some(erase)
    }

    /// The next time at which anything is due: `expiry` of a stored row,
    /// `delivery` of a publication, a claim that waits or a request that is
    /// tried again.
    pub fn next_deadline(&self, expiry: Option<u64>, delivery: Option<u64>) -> (r: Option<u64>)
        ensures
            match r {
                None => {
                    &&& expiry is None
                    &&& delivery is None
                    &&& self.requests@.transfers.dom() == Set::<crate::ids::RequestKey>::empty()
                    &&& self.requests@.retries.dom() == Set::<crate::ids::RequestKey>::empty()
                },
                Some(due) => self.due_at(expiry, delivery, due) && forall|other: u64|
                    self.due_at(expiry, delivery, other) ==> due <= other,
            },
    {
        let transfer = self.requests.next_transfer_due();
        let retry = self.requests.next_retry_due();
        let r = earlier(earlier(expiry, delivery), earlier(transfer, retry));
        proof {
            match r {
                None => {
                    assert(self.requests@.transfers.dom() =~= Set::<crate::ids::RequestKey>::empty());
                    assert(self.requests@.retries.dom() =~= Set::<crate::ids::RequestKey>::empty());
                },
                Some(due) => {
                    assert forall|other: u64| self.due_at(expiry, delivery, other) implies due <= other by {
                        if exists|k: crate::ids::RequestKey| #[trigger]
                            self.requests@.transfers.contains_key(k) && self.requests@.transfers[k].due
                                == other {
                            assert(transfer is Some);
                        } else if exists|k: crate::ids::RequestKey| #[trigger]
                            self.requests@.retries.contains_key(k) && self.requests@.retries[k].due
                                == other {
                            assert(retry is Some);
                        }
                    }
                },
            }
        }
        r
    }

    /// Whether something is due at one time.
    pub open spec fn due_at(&self, expiry: Option<u64>, delivery: Option<u64>, time: u64) -> bool {
        ||| expiry == Some(time)
        ||| delivery == Some(time)
        ||| exists|k: crate::ids::RequestKey| #[trigger]
            self.requests@.transfers.contains_key(k) && self.requests@.transfers[k].due == time
        ||| exists|k: crate::ids::RequestKey| #[trigger]
            self.requests@.retries.contains_key(k) && self.requests@.retries[k].due == time
    }

    /// Takes on a new answer for one author. Says whether plans and open routes
    /// have to be computed again.
    pub fn replace_author_routes(&mut self, author: PublicKey, replacement: AuthorRouteReplacement) -> (news: bool)
        ensures
            *final(self) == (CoreState { routing_facts: final(self).routing_facts, ..*old(self) }),
            final(self).routing_facts.authors() == old(self).routing_facts.authors().insert(
                author,
                replacement@,
            ),
            final(self).routing_facts.app_relays() == old(self).routing_facts.app_relays(),
            final(self).routing_facts.fallback_relays() == old(self).routing_facts.fallback_relays(),
            news == (old(self).routing_facts.routes(author) != replacement@),
    {
        self.routing_facts.replace_author_routes(author, replacement)
    }
}

/// The earlier of two times.
pub open spec fn earlier_spec(a: Option<u64>, b: Option<u64>) -> Option<u64> {
    match (a, b) {
        (Some(x), Some(y)) => Some(if x <= y {
            x
        } else {
            y
        }),
        (Some(x), None) => Some(x),
        (None, _) => b,
    }
}

fn earlier(a: Option<u64>, b: Option<u64>) -> (r: Option<u64>)
    ensures
        r == earlier_spec(a, b),
{
    match (a, b) {
        (Some(x), Some(y)) => Some(if x <= y {
            x
        } else {
            y
        }),
        (Some(x), None) => Some(x),
        (None, _) => b,
    }
}

/// Adds the sessions of an author on some relays.
fn add_sessions(r: &mut SortedSet<RelaySessionKey>, relays: &SortedSet<Relay>, author: PublicKey)
    ensures
        forall|s: RelaySessionKey| #[trigger]
            final(r)@.contains(s) <==> old(r)@.contains(s) || (s.authenticate_as == Some(author)
                && relays@.contains(s.relay)),
{
    let list = relays.list();
    let mut i: usize = 0;
    while i < list.len()
        invariant
            i <= list@.len(),
            is_listing(list@, relays@),
            forall|s: RelaySessionKey| #[trigger]
                r@.contains(s) <==> old(r)@.contains(s) || (s.authenticate_as == Some(author) && list@.take(
                    i as int,
                ).contains(s.relay)),
        decreases list@.len() - i,
    {
        let relay = list[i];
        proof {
            assert(list@.take(i + 1) =~= list@.take(i as int).push(relay));
            lemma_push_contains(list@.take(i as int), relay);
        }
        r.insert(RelaySessionKey::new(relay, Some(author)));
        i = i + 1;
    }
    proof {
        assert(list@.take(i as int) =~= list@);
        lemma_listing_members(list@, relays@);
    }
}

/// Drops the members of a set that another set does not have.
fn keep_members(r: &mut SortedSet<RelaySessionKey>, keep: &SortedSet<RelaySessionKey>)
    ensures
        final(r)@ == old(r)@.intersect(keep@),
{
    let list = r.list();
    let ghost before = r@;
    let mut i: usize = 0;
    while i < list.len()
        invariant
            i <= list@.len(),
            is_listing(list@, before),
            before == old(r)@,
            forall|s: RelaySessionKey| #[trigger]
                r@.contains(s) <==> before.contains(s) && (keep@.contains(s) || !list@.take(
                    i as int,
                ).contains(s)),
        decreases list@.len() - i,
    {
        let session = list[i];
        proof {
            assert(list@.take(i + 1) =~= list@.take(i as int).push(session));
            lemma_push_contains(list@.take(i as int), session);
        }
        if !keep.contains(&session) {
            r.remove(&session);
        }
        i = i + 1;
    }
    proof {
        assert(list@.take(i as int) =~= list@);
        lemma_listing_members(list@, before);
        assert(r@ =~= before.intersect(keep@));
    }
}

/// Drops the failures of sessions that a set does not have. Says whether there
/// was any.
fn drop_failures(r: &mut SortedMap<RelaySessionKey, String>, keep: &SortedSet<RelaySessionKey>) -> (changed: bool)
    ensures
        final(r)@ == old(r)@.restrict(keep@),
        changed == (old(r)@ != old(r)@.restrict(keep@)),
{
    let list = r.key_list();
    let ghost before = r@;
    let mut changed = false;
    let mut i: usize = 0;
    assert(r@ =~= before.remove_keys(Set::empty()));
    while i < list.len()
        invariant
            i <= list@.len(),
            is_listing(list@, before.dom()),
            before == old(r)@,
            forall|s: RelaySessionKey| #[trigger]
                r@.contains_key(s) <==> before.contains_key(s) && (keep@.contains(s) || !list@.take(
                    i as int,
                ).contains(s)),
            forall|s: RelaySessionKey| #[trigger] r@.contains_key(s) ==> r@[s] == before[s],
            changed <==> exists|j: int| 0 <= j < i && !keep@.contains(#[trigger] list@[j]),
        decreases list@.len() - i,
    {
        let session = list[i];
        let ghost was = changed;
        proof {
            assert(list@.take(i + 1) =~= list@.take(i as int).push(session));
            lemma_push_contains(list@.take(i as int), session);
        }
        if !keep.contains(&session) {
            r.remove(&session);
            changed = true;
            assert(!keep@.contains(list@[i as int]));
        }
        proof {
            if was {
                let j = choose|j: int| 0 <= j < i && !keep@.contains(#[trigger] list@[j]);
                assert(!keep@.contains(list@[j]));
            }
        }
        i = i + 1;
    }
    proof {
        assert(list@.take(i as int) =~= list@);
        lemma_listing_members(list@, before.dom());
        let want = before.restrict(keep@);
        assert(r@ =~= want);
        if changed {
            let j = choose|j: int| 0 <= j < list@.len() && !keep@.contains(#[trigger] list@[j]);
            assert(list@.contains(list@[j]));
            assert(before.contains_key(list@[j]));
            assert(!want.contains_key(list@[j]));
        } else {
            assert forall|s: RelaySessionKey| before.contains_key(s) implies keep@.contains(s) by {
                assert(list@.contains(s));
                let j = choose|j: int| 0 <= j < list@.len() && list@[j] == s;
                assert(keep@.contains(list@[j]));
            }
            assert(before =~= want);
        }
    }
    changed
}

/// The earlier of two times is one of them and after neither; a time alone is earlier
/// than none.
pub proof fn earlier_time_comes_first(a: Option<u64>, b: Option<u64>)
    ensures
        earlier_spec(a, b) is None <==> a is None && b is None,
        earlier_spec(a, b) == a || earlier_spec(a, b) == b,
        a is Some ==> earlier_spec(a, b)->0 <= a->0,
        b is Some ==> earlier_spec(a, b)->0 <= b->0,
{
}

/// A report with an error is told by that error, whatever else it says; one without is
/// told of if and only if it has counted invalid signatures, with the slot and then the
/// count.
pub proof fn report_is_told_by_its_error(handle: TransportRelayHandle, health: RelayHealth)
    ensures
        health.last_error matches Some(error) ==> CoreState::health_text(handle, health) == Some(error@),
        health.last_error is None && health.invalid_signature_count == 0 ==> CoreState::health_text(
            handle,
            health,
        ) is None,
        health.last_error is None && health.invalid_signature_count > 0 ==> {
            let t = CoreState::health_text(handle, health)->0;
            let slot = decimal(handle.slot as nat);
            let count = decimal(health.invalid_signature_count as nat);
            let from = "relay slot "@.len() as int;
            let then_at = from + slot.len() + " rejected "@.len();
            &&& CoreState::health_text(handle, health) is Some
            &&& t.take(from) == "relay slot "@
            &&& t.skip(from).take(slot.len() as int) == slot
            &&& t.skip(then_at).take(count.len() as int) == count
            &&& t.skip(then_at + count.len()) == " invalid signature frame(s)"@
        },
{
    if health.last_error is None && health.invalid_signature_count > 0 {
        let t = CoreState::health_text(handle, health)->0;
        let slot = decimal(handle.slot as nat);
        let count = decimal(health.invalid_signature_count as nat);
        let from = "relay slot "@.len() as int;
        let then_at = from + slot.len() + " rejected "@.len();
        assert(t.take(from) =~= "relay slot "@);
        assert(t.skip(from).take(slot.len() as int) =~= slot);
        assert(t.skip(then_at).take(count.len() as int) =~= count);
        assert(t.skip(then_at + count.len()) =~= " invalid signature frame(s)"@);
    }
}

} // verus!
