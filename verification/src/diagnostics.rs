//! What the engine tells of its own health.

use vstd::prelude::*;

use crate::auth::{AuthDenialSource, AuthSessionPhase, AuthSessionState};
use crate::core_state::CoreState;
use crate::ids::{EventId, PublicKey, ReceiptId, Relay, RelaySessionKey, TransportRelayHandle};
use crate::key::{
    is_listing, lemma_listing_exists, lemma_listing_members, lemma_listing_of, lemma_push_contains,
    listing_of, Key,
};
use crate::outside::{blake3_hex, hash_text};
use crate::planned_reads::{PlannedReads, ReadsView};
use crate::session_registry::SessionRegistry;
use crate::sorted::SortedMap;
use crate::text::join_text;

verus! {

/// How far the authentication of a protected session has come.
#[derive(Clone, Copy, Debug, PartialEq, Eq, Structural)]
pub enum AuthDiagnosticsPhase {
    AwaitingChallenge,
    AwaitingPolicy,
    AwaitingSignature,
    AwaitingSend,
    AwaitingRelayAck,
    Ready,
    Denied,
    Error,
}

/// What is told of one protected session.
#[derive(Clone, Debug)]
pub struct AuthDiagnosticsSnapshot {
    pub relay: Relay,
    pub authenticate_as: Option<PublicKey>,
    pub transport_slot: u32,
    pub transport_generation: u64,
    pub epoch_sequence: Option<u64>,
    /// The challenge itself is a secret of the session: only its hash is told.
    pub challenge_hash: Option<String>,
    pub phase: AuthDiagnosticsPhase,
    pub policy_bound: bool,
    pub signer_bound: bool,
    pub auth_event_id: Option<EventId>,
    pub denial_source: Option<AuthDenialSource>,
    pub denial_reason: Option<String>,
}

pub struct AuthRowView {
    pub relay: Relay,
    pub authenticate_as: Option<PublicKey>,
    pub transport_slot: u32,
    pub transport_generation: u64,
    pub epoch_sequence: Option<u64>,
    pub challenge_hash: Option<Seq<char>>,
    pub phase: AuthDiagnosticsPhase,
    pub policy_bound: bool,
    pub signer_bound: bool,
    pub auth_event_id: Option<EventId>,
    pub denial_source: Option<AuthDenialSource>,
    pub denial_reason: Option<Seq<char>>,
}

/// The text of an optional string.
pub open spec fn maybe_text(s: Option<String>) -> Option<Seq<char>> {
    match s {
        Some(t) => Some(t@),
        None => None,
    }
}

impl View for AuthDiagnosticsSnapshot {
    type V = AuthRowView;

    open spec fn view(&self) -> AuthRowView {
        AuthRowView {
            relay: self.relay,
            authenticate_as: self.authenticate_as,
            transport_slot: self.transport_slot,
            transport_generation: self.transport_generation,
            epoch_sequence: self.epoch_sequence,
            challenge_hash: maybe_text(self.challenge_hash),
            phase: self.phase,
            policy_bound: self.policy_bound,
            signer_bound: self.signer_bound,
            auth_event_id: self.auth_event_id,
            denial_source: self.denial_source,
            denial_reason: maybe_text(self.denial_reason),
        }
    }
}

/// A protected session that is connected and has not been challenged.
pub open spec fn unchallenged_row(handle: TransportRelayHandle, session: RelaySessionKey) -> AuthRowView {
    AuthRowView {
        relay: session.relay,
        authenticate_as: session.authenticate_as,
        transport_slot: handle.slot,
        transport_generation: handle.generation,
        epoch_sequence: None,
        challenge_hash: None,
        phase: AuthDiagnosticsPhase::AwaitingChallenge,
        policy_bound: false,
        signer_bound: false,
        auth_event_id: None,
        denial_source: None,
        denial_reason: None,
    }
}

/// The phase that is told of a session, and the event that is on its way or has
/// been accepted.
pub open spec fn told_phase(phase: AuthSessionPhase) -> (AuthDiagnosticsPhase, Option<EventId>) {
    match phase {
        AuthSessionPhase::AwaitingPolicy { .. } => (AuthDiagnosticsPhase::AwaitingPolicy, None),
        AuthSessionPhase::AwaitingSignature { .. } => (AuthDiagnosticsPhase::AwaitingSignature, None),
        AuthSessionPhase::AwaitingSend { event_id, .. } => (
            AuthDiagnosticsPhase::AwaitingSend,
            Some(event_id),
        ),
        AuthSessionPhase::AwaitingOk { event_id } => (
            AuthDiagnosticsPhase::AwaitingRelayAck,
            Some(event_id),
        ),
        AuthSessionPhase::Ready { event_id } => (AuthDiagnosticsPhase::Ready, Some(event_id)),
        AuthSessionPhase::Denied { .. } => (AuthDiagnosticsPhase::Denied, None),
        AuthSessionPhase::Error => (AuthDiagnosticsPhase::Error, None),
    }
}

/// A session in its current epoch.
pub open spec fn epoch_row(session: RelaySessionKey, state: AuthSessionState) -> AuthRowView {
    AuthRowView {
        relay: session.relay,
        authenticate_as: session.authenticate_as,
        transport_slot: state.epoch.handle.slot,
        transport_generation: state.epoch.handle.generation,
        epoch_sequence: Some(state.epoch.sequence),
        challenge_hash: if state.challenge@.len() == 0 {
            None
        } else {
            Some(blake3_hex(state.challenge@))
        },
        phase: told_phase(state.phase).0,
        policy_bound: state.policy_instance is Some,
        signer_bound: state.signer_instance is Some,
        auth_event_id: told_phase(state.phase).1,
        denial_source: match state.phase {
            AuthSessionPhase::Denied { source, .. } => Some(source),
            _ => None,
        },
        denial_reason: match state.phase {
            AuthSessionPhase::Denied { reason, .. } => Some(reason@),
            _ => None,
        },
    }
}

/// The protected sessions that occupy a list of slots and are connected: a later
/// slot takes the place of an earlier one of the same session.
pub open spec fn slot_rows(reg: SessionRegistry, slots: Seq<u32>) -> Map<RelaySessionKey, AuthRowView>
    decreases slots.len(),
{
    if slots.len() == 0 {
        Map::empty()
    } else {
        let before = slot_rows(reg, slots.drop_last());
        let (handle, session) = reg.slot_to_relay@[slots.last()];
        if session.authenticate_as is Some && reg.connected_relays@.contains(session) {
            before.insert(session, unchallenged_row(handle, session))
        } else {
            before
        }
    }
}

/// What is told of every protected session: of each one in an epoch where it
/// stands, of every other that is connected that it awaits a challenge.
pub open spec fn auth_rows(reg: SessionRegistry) -> Map<RelaySessionKey, AuthRowView> {
    let open = slot_rows(reg, listing_of(reg.slot_to_relay@.dom()));
    Map::new(
        |s: RelaySessionKey| open.contains_key(s) || reg.auth_sessions@.contains_key(s),
        |s: RelaySessionKey|
            if reg.auth_sessions@.contains_key(s) {
                epoch_row(s, reg.auth_sessions@[s])
            } else {
                open[s]
            },
    )
}

pub open spec fn rows_text(m: Map<RelaySessionKey, AuthDiagnosticsSnapshot>) -> Map<RelaySessionKey, AuthRowView> {
    m.map_values(|r: AuthDiagnosticsSnapshot| r@)
}

/// What a relay says of itself, as it is told.
#[derive(Clone, Debug)]
pub struct Nip11Diagnostics {
    pub supported_nips: Option<Vec<u16>>,
    pub document_revision: String,
    pub freshness: String,
    pub last_error: Option<String>,
}

fn copy_text(s: &Option<String>) -> (r: Option<String>)
    ensures
        maybe_text(r) == maybe_text(*s),
{
    match s {
        Some(t) => Some(t.clone()),
        None => None,
    }
}

fn snapshot_of(session: &RelaySessionKey, state: &AuthSessionState) -> (r: AuthDiagnosticsSnapshot)
    ensures
        r@ == epoch_row(*session, *state),
{
    let (phase, auth_event_id) = match &state.phase {
        AuthSessionPhase::AwaitingPolicy { .. } => (AuthDiagnosticsPhase::AwaitingPolicy, None),
        AuthSessionPhase::AwaitingSignature { .. } => (AuthDiagnosticsPhase::AwaitingSignature, None),
        AuthSessionPhase::AwaitingSend { event_id, .. } => (
            AuthDiagnosticsPhase::AwaitingSend,
            Some(*event_id),
        ),
        AuthSessionPhase::AwaitingOk { event_id } => (
            AuthDiagnosticsPhase::AwaitingRelayAck,
            Some(*event_id),
        ),
        AuthSessionPhase::Ready { event_id } => (AuthDiagnosticsPhase::Ready, Some(*event_id)),
        AuthSessionPhase::Denied { .. } => (AuthDiagnosticsPhase::Denied, None),
        AuthSessionPhase::Error => (AuthDiagnosticsPhase::Error, None),
    };
    let (denial_source, denial_reason) = match &state.phase {
        AuthSessionPhase::Denied { source, reason } => (Some(*source), Some(reason.clone())),
        _ => (None, None),
    };
    let challenge_hash = if state.challenge.as_str().is_empty() {
        None
    } else {
        Some(hash_text(state.challenge.as_str()))
    };
    AuthDiagnosticsSnapshot {
        relay: session.relay,
        authenticate_as: session.authenticate_as,
        transport_slot: state.epoch.handle.slot,
        transport_generation: state.epoch.handle.generation,
        epoch_sequence: Some(state.epoch.sequence),
        challenge_hash,
        phase,
        policy_bound: state.policy_instance.is_some(),
        signer_bound: state.signer_instance.is_some(),
        auth_event_id,
        denial_source,
        denial_reason,
    }
}

impl SessionRegistry {
    /// Every connected protected session, as one that awaits its challenge.
    fn unchallenged_sessions(&self) -> (r: SortedMap<RelaySessionKey, AuthDiagnosticsSnapshot>)
        ensures
            rows_text(r@) == slot_rows(*self, listing_of(self.slot_to_relay@.dom())),
    {
        let mut r: SortedMap<RelaySessionKey, AuthDiagnosticsSnapshot> = SortedMap::new();
        let n = self.slot_to_relay.len();
        let ghost slots = self.slot_to_relay.keys();
        let mut i: usize = 0;
        proof {
            assert(slots.take(0) =~= Seq::<u32>::empty());
            assert(rows_text(r@) =~= Map::<RelaySessionKey, AuthRowView>::empty());
        }
        while i < n
            invariant
                i <= n,
                n == slots.len(),
                slots == self.slot_to_relay.keys(),
                is_listing(slots, self.slot_to_relay@.dom()),
                rows_text(r@) == slot_rows(*self, slots.take(i as int)),
            decreases n - i,
        {
            let (handle, session) = *self.slot_to_relay.value_at(i);
            proof {
                assert(slots.take(i + 1).drop_last() =~= slots.take(i as int));
                assert(slots.take(i + 1).last() == slots[i as int]);
            }
            let ghost before = r@;
            if session.authenticate_as.is_some() && self.connected_relays.contains(&session) {
                let row = AuthDiagnosticsSnapshot {
                    relay: session.relay,
                    authenticate_as: session.authenticate_as,
                    transport_slot: handle.slot,
                    transport_generation: handle.generation,
                    epoch_sequence: None,
                    challenge_hash: None,
                    phase: AuthDiagnosticsPhase::AwaitingChallenge,
                    policy_bound: false,
                    signer_bound: false,
                    auth_event_id: None,
                    denial_source: None,
                    denial_reason: None,
                };
                r.insert(session, row);
                assert(rows_text(r@) =~= rows_text(before).insert(
                    session,
                    unchallenged_row(handle, session),
                ));
            }
            i = i + 1;
        }
        proof {
            assert(slots.take(i as int) =~= slots);
            lemma_listing_of(slots, self.slot_to_relay@.dom());
        }
        r
    }

    /// What is told of every protected session, in the order of the sessions.
    pub fn auth_diagnostics(&self) -> (r: SortedMap<RelaySessionKey, AuthDiagnosticsSnapshot>)
        ensures
            rows_text(r@) == auth_rows(*self),
    {
        let mut r = self.unchallenged_sessions();
        let ghost open = rows_text(r@);
        let n = self.auth_sessions.len();
        let ghost q = self.auth_sessions.keys();
        let mut i: usize = 0;
        while i < n
            invariant
                i <= n,
                n == q.len(),
                q == self.auth_sessions.keys(),
                is_listing(q, self.auth_sessions@.dom()),
                forall|s: RelaySessionKey| #[trigger]
                    r@.contains_key(s) <==> open.contains_key(s) || q.take(i as int).contains(s),
                forall|s: RelaySessionKey| #[trigger]
                    r@.contains_key(s) ==> r@[s]@ == (if q.take(i as int).contains(s) {
                        epoch_row(s, self.auth_sessions@[s])
                    } else {
                        open[s]
                    }),
            decreases n - i,
        {
            let session = self.auth_sessions.key_at(i);
            proof {
                assert(q.take(i + 1) =~= q.take(i as int).push(session));
                lemma_push_contains(q.take(i as int), session);
            }
            let row = snapshot_of(&session, self.auth_sessions.value_at(i));
            r.insert(session, row);
            i = i + 1;
        }
        proof {
            assert(q.take(i as int) =~= q);
            lemma_listing_members(q, self.auth_sessions@.dom());
            assert(rows_text(r@) =~= auth_rows(*self));
        }
        r
    }

    /// The first session that could not be opened, and why.
    pub fn first_open_failure(&self) -> (r: Option<(RelaySessionKey, &String)>)
        ensures
            ({
                let q = listing_of(self.relay_open_failures@.dom());
                match r {
                    None => self.relay_open_failures@ == Map::<RelaySessionKey, String>::empty(),
                    Some((session, reason)) => q.len() > 0 && session == q[0] && *reason
                        == self.relay_open_failures@[q[0]],
                }
            }),
    {
        let n = self.relay_open_failures.len();
        proof {
            lemma_listing_of(self.relay_open_failures.keys(), self.relay_open_failures@.dom());
            lemma_listing_members(self.relay_open_failures.keys(), self.relay_open_failures@.dom());
        }
        if n == 0 {
            assert(self.relay_open_failures@ =~= Map::<RelaySessionKey, String>::empty());
            None
        } else {
            Some((self.relay_open_failures.key_at(0), self.relay_open_failures.value_at(0)))
        }
    }
}

/// What is told of the transport: the first session that could not be opened, by
/// the address of its relay and the reason, or else what a worker last reported.
pub fn transport_degraded(open_failure: Option<(&str, &str)>, reported: &Option<String>) -> (r: Option<String>)
    ensures
        maybe_text(r) == match open_failure {
            Some((relay, reason)) => Some(relay@ + (": "@ + reason@)),
            None => maybe_text(*reported),
        },
{
    match open_failure {
        Some((relay, reason)) => {
            let tail = join_text(": ", reason);
            Some(join_text(relay, tail.as_str()))
        },
        None => copy_text(reported),
    }
}

/// Whether a relay's document counts as fresh.
pub open spec fn freshness_text(now: u64, fresh_until: u64) -> Seq<char> {
    if now < fresh_until {
        "fresh"@
    } else {
        "stale"@
    }
}

/// What is told of a relay's own document under one session. It says nothing of a
/// session that is bound to an identity.
pub open spec fn tells_document(
    reads: ReadsView,
    session: RelaySessionKey,
    now: u64,
    told: Option<Nip11Diagnostics>,
) -> bool {
    match told {
        None => session.authenticate_as is Some || !reads.information.contains_key(session.relay),
        Some(told) => {
            let info = reads.information[session.relay];
            &&& session.authenticate_as is None
            &&& reads.information.contains_key(session.relay)
            &&& match told.supported_nips {
                Some(nips) => info.supported_nips matches Some(known) && nips@ == known@,
                None => info.supported_nips is None,
            }
            &&& told.document_revision@ == info.document_revision@
            &&& told.freshness@ == freshness_text(now, info.fresh_until)
            &&& maybe_text(told.last_error) == maybe_text(info.last_error)
        },
    }
}

impl PlannedReads {
    pub fn nip11_diagnostics(&self, session: &RelaySessionKey, now: u64) -> (r: Option<Nip11Diagnostics>)
        ensures
            tells_document(self@, *session, now, r),
    {
        if session.authenticate_as.is_some() {
            return None;
        }
        match self.information_of(&session.relay) {
            None => None,
            Some(info) => {
                let freshness = if now < info.fresh_until {
                    "fresh".to_owned()
                } else {
                    "stale".to_owned()
                };
                let supported_nips = match &info.supported_nips {
                    Some(nips) => Some(copy_numbers(nips)),
                    None => None,
                };
                Some(
                    Nip11Diagnostics {
                        supported_nips,
                        document_revision: info.document_revision.clone(),
                        freshness,
                        last_error: copy_text(&info.last_error),
                    },
                )
            },
        }
    }
}

fn copy_numbers(q: &Vec<u16>) -> (r: Vec<u16>)
    ensures
        r@ == q@,
{
    let mut r: Vec<u16> = Vec::new();
    let mut i: usize = 0;
    while i < q.len()
        invariant
            i <= q@.len(),
            r@ == q@.take(i as int),
        decreases q@.len() - i,
    {
        r.push(q[i]);
        assert(r@ =~= q@.take(i + 1));
        i = i + 1;
    }
    assert(r@ =~= q@);
    r
}

/// What is told of one session that the plan reads from.
#[derive(Clone, Debug)]
pub struct RelayDiagnosticsSnapshot {
    pub session: RelaySessionKey,
    pub nip11: Option<Nip11Diagnostics>,
}

/// Everything that the engine tells of its own health.
#[derive(Debug)]
pub struct DiagnosticsSnapshot {
    pub transport_degraded: Option<String>,
    /// The protected sessions, in their order.
    pub auth_sessions: SortedMap<RelaySessionKey, AuthDiagnosticsSnapshot>,
    /// The writes that are stuck.
    pub stalled_writes: Vec<ReceiptId>,
    pub stalled_write_total: u64,
    /// The sessions that the plan reads from.
    pub relays: Vec<RelayDiagnosticsSnapshot>,
}

/// What is told of the transport.
pub open spec fn degraded(core: CoreState, addresses: Map<Relay, String>) -> Option<Seq<char>> {
    let failures = core.sessions.relay_open_failures@;
    if failures.dom() == Set::<RelaySessionKey>::empty() {
        maybe_text(core.transport_degraded)
    } else {
        let first = listing_of(failures.dom())[0];
        Some(addresses[first.relay]@ + (": "@ + failures[first]@))
    }
}

impl CoreState {
    /// Tells everything: why a session could not be opened or what a worker last
    /// reported, how far each protected session has authenticated, the writes that
    /// are stuck, and what each relay of the plan says of itself. `planned` are the
    /// sessions that the router tells of, in its order; `addresses` are those of
    /// the relays.
    pub fn diagnostics_snapshot(
        &self,
        planned: &Vec<RelaySessionKey>,
        stalled_writes: Vec<ReceiptId>,
        stalled_write_total: u64,
        addresses: &SortedMap<Relay, String>,
    ) -> (r: DiagnosticsSnapshot)
        requires
            forall|s: RelaySessionKey| #[trigger]
                self.sessions.relay_open_failures@.contains_key(s) ==> addresses@.contains_key(s.relay),
        ensures
            maybe_text(r.transport_degraded) == degraded(*self, addresses@),
            rows_text(r.auth_sessions@) == auth_rows(self.sessions),
            r.stalled_writes == stalled_writes,
            r.stalled_write_total == stalled_write_total,
            r.relays@.len() == planned@.len(),
            forall|i: int|
                0 <= i < planned@.len() ==> (#[trigger] r.relays@[i]).session == planned@[i]
                    && tells_document(self.reads@, planned@[i], self.clock, r.relays@[i].nip11),
    {
        let ghost failures = self.sessions.relay_open_failures@;
        let told = match self.sessions.first_open_failure() {
            None => {
                assert(failures.dom() =~= Set::<RelaySessionKey>::empty());
                transport_degraded(None, &self.transport_degraded)
            },
            Some((session, reason)) => {
                let _ = self.sessions.relay_open_failures.len();
                proof {
                    lemma_listing_of(self.sessions.relay_open_failures.keys(), failures.dom());
                    assert(failures.dom().contains(listing_of(failures.dom())[0]));
                    assert(failures.contains_key(session));
                }
                match addresses.get(&session.relay) {
                    Some(address) => transport_degraded(
                        Some((address.as_str(), reason.as_str())),
                        &self.transport_degraded,
                    ),
                    None => None,
                }
            },
        };
        let mut relays: Vec<RelayDiagnosticsSnapshot> = Vec::new();
        let mut i: usize = 0;
        while i < planned.len()
            invariant
                i <= planned@.len(),
                relays@.len() == i,
                forall|j: int|
                    0 <= j < i ==> (#[trigger] relays@[j]).session == planned@[j] && tells_document(
                        self.reads@,
                        planned@[j],
                        self.clock,
                        relays@[j].nip11,
                    ),
            decreases planned@.len() - i,
        {
            let nip11 = self.reads.nip11_diagnostics(&planned[i], self.clock);
            relays.push(RelayDiagnosticsSnapshot { session: planned[i], nip11 });
            i = i + 1;
        }
        DiagnosticsSnapshot {
            transport_degraded: told,
            auth_sessions: self.sessions.auth_diagnostics(),
            stalled_writes,
            stalled_write_total,
            relays,
        }
    }
}

/// Each stage of an authentication is told as itself, and the event that is on its way
/// or was accepted is told exactly where there is one.
pub proof fn every_stage_is_told_as_itself(phase: AuthSessionPhase)
    ensures
        told_phase(phase).0 is AwaitingPolicy <==> phase is AwaitingPolicy,
        told_phase(phase).0 is AwaitingSignature <==> phase is AwaitingSignature,
        told_phase(phase).0 is AwaitingSend <==> phase is AwaitingSend,
        told_phase(phase).0 is AwaitingRelayAck <==> phase is AwaitingOk,
        told_phase(phase).0 is Ready <==> phase is Ready,
        told_phase(phase).0 is Denied <==> phase is Denied,
        told_phase(phase).0 is Error <==> phase is Error,
        phase matches AuthSessionPhase::AwaitingSend { event_id, .. } ==> told_phase(phase).1 == Some(event_id),
        phase matches AuthSessionPhase::AwaitingOk { event_id } ==> told_phase(phase).1 == Some(event_id),
        phase matches AuthSessionPhase::Ready { event_id } ==> told_phase(phase).1 == Some(event_id),
        told_phase(phase).1 is Some ==> phase is AwaitingSend || phase is AwaitingOk || phase is Ready,
{
}

/// What is told of a session in an epoch: its relay and account, the connection and the
/// number of the epoch, the hash of its challenge and never the challenge, which
/// capabilities are bound, and who denied it and why exactly where it is denied.
pub proof fn session_is_told_by_its_epoch(session: RelaySessionKey, state: AuthSessionState)
    ensures
        ({
            let row = epoch_row(session, state);
            &&& row.relay == session.relay
            &&& row.authenticate_as == session.authenticate_as
            &&& row.transport_slot == state.epoch.handle.slot
            &&& row.transport_generation == state.epoch.handle.generation
            &&& row.epoch_sequence == Some(state.epoch.sequence)
            &&& row.challenge_hash is Some <==> state.challenge@.len() > 0
            &&& row.challenge_hash matches Some(hash) ==> hash == blake3_hex(state.challenge@)
            &&& row.phase == told_phase(state.phase).0
            &&& row.auth_event_id == told_phase(state.phase).1
            &&& row.policy_bound <==> state.policy_instance is Some
            &&& row.signer_bound <==> state.signer_instance is Some
            &&& row.denial_source is Some <==> state.phase is Denied
            &&& row.denial_reason is Some <==> state.phase is Denied
            &&& state.phase matches AuthSessionPhase::Denied { source, reason } ==> row.denial_source
                == Some(source) && row.denial_reason == Some(reason@)
        }),
{
}

proof fn lemma_slot_rows(reg: SessionRegistry, slots: Seq<u32>, s: RelaySessionKey)
    ensures
        slot_rows(reg, slots).contains_key(s) <==> s.authenticate_as is Some && reg.connected_relays@.contains(
            s,
        ) && exists|i: int| 0 <= i < slots.len() && reg.slot_to_relay@[#[trigger] slots[i]].1 == s,
        slot_rows(reg, slots).contains_key(s) ==> exists|i: int|
            0 <= i < slots.len() && reg.slot_to_relay@[#[trigger] slots[i]].1 == s && slot_rows(reg, slots)[s]
                == unchallenged_row(reg.slot_to_relay@[slots[i]].0, s),
    decreases slots.len(),
{
    if slots.len() > 0 {
        let rest = slots.drop_last();
        let n = rest.len() as int;
        lemma_slot_rows(reg, rest, s);
        assert(slots.last() == slots[n]);
        assert forall|i: int| 0 <= i < n implies #[trigger] rest[i] == slots[i] by {}
        if slot_rows(reg, rest).contains_key(s) {
            let i = choose|i: int|
                0 <= i < rest.len() && reg.slot_to_relay@[#[trigger] rest[i]].1 == s && slot_rows(reg, rest)[s]
                    == unchallenged_row(reg.slot_to_relay@[rest[i]].0, s);
            assert(reg.slot_to_relay@[slots[i]].1 == s);
        }
        if exists|i: int| 0 <= i < slots.len() && reg.slot_to_relay@[#[trigger] slots[i]].1 == s {
            let i = choose|i: int| 0 <= i < slots.len() && reg.slot_to_relay@[#[trigger] slots[i]].1 == s;
            if i < n {
                assert(reg.slot_to_relay@[rest[i]].1 == s);
            }
        }
        if reg.slot_to_relay@[slots[n]].1 == s {
            assert(reg.slot_to_relay@[slots[n]].1 == s);
        }
    }
}

/// A session is told of if and only if it is in an epoch, or it is protected,
/// connected, and occupies a slot. One that is in no epoch awaits its challenge on a
/// connection that occupies a slot for it, and nothing else is said of it.
pub proof fn protected_sessions_are_told_of(reg: SessionRegistry, s: RelaySessionKey)
    requires
        reg.slot_to_relay@.dom().finite(),
    ensures
        auth_rows(reg).contains_key(s) <==> reg.auth_sessions@.contains_key(s) || (s.authenticate_as is Some
            && reg.connected_relays@.contains(s) && exists|slot: u32| #[trigger]
            reg.slot_to_relay@.contains_key(slot) && reg.slot_to_relay@[slot].1 == s),
        reg.auth_sessions@.contains_key(s) ==> auth_rows(reg)[s] == epoch_row(s, reg.auth_sessions@[s]),
        auth_rows(reg).contains_key(s) && !reg.auth_sessions@.contains_key(s) ==> {
            let row = auth_rows(reg)[s];
            &&& row.relay == s.relay
            &&& row.authenticate_as == s.authenticate_as
            &&& row.phase is AwaitingChallenge
            &&& row.epoch_sequence is None
            &&& row.challenge_hash is None
            &&& row.auth_event_id is None
            &&& row.denial_source is None
            &&& row.denial_reason is None
            &&& !row.policy_bound
            &&& !row.signer_bound
            &&& exists|slot: u32| #[trigger]
                reg.slot_to_relay@.contains_key(slot) && reg.slot_to_relay@[slot].1 == s
                    && row.transport_slot == reg.slot_to_relay@[slot].0.slot && row.transport_generation
                    == reg.slot_to_relay@[slot].0.generation
        },
{
    let dom = reg.slot_to_relay@.dom();
    lemma_listing_exists(dom);
    let q = listing_of(dom);
    lemma_listing_members(q, dom);
    lemma_slot_rows(reg, q, s);
    if slot_rows(reg, q).contains_key(s) {
        let i = choose|i: int|
            0 <= i < q.len() && reg.slot_to_relay@[#[trigger] q[i]].1 == s && slot_rows(reg, q)[s]
                == unchallenged_row(reg.slot_to_relay@[q[i]].0, s);
        assert(q.contains(q[i]));
        assert(reg.slot_to_relay@.contains_key(q[i]));
    }
    if exists|slot: u32| #[trigger] reg.slot_to_relay@.contains_key(slot) && reg.slot_to_relay@[slot].1 == s {
        let slot = choose|slot: u32| #[trigger]
            reg.slot_to_relay@.contains_key(slot) && reg.slot_to_relay@[slot].1 == s;
        assert(q.contains(slot));
        let i = choose|i: int| 0 <= i < q.len() && q[i] == slot;
        assert(reg.slot_to_relay@[q[i]].1 == s);
    }
}

/// A relay's document counts as fresh until its time, and as stale from then on.
pub proof fn document_is_fresh_until_its_time(now: u64, fresh_until: u64)
    ensures
        now < fresh_until ==> freshness_text(now, fresh_until) == "fresh"@,
        now >= fresh_until ==> freshness_text(now, fresh_until) == "stale"@,
{
}

/// What a relay says of itself is told under its open session only, and exactly as it
/// is known.
pub proof fn document_is_told_under_the_open_session(
    reads: ReadsView,
    session: RelaySessionKey,
    now: u64,
    told: Option<Nip11Diagnostics>,
)
    requires
        tells_document(reads, session, now, told),
    ensures
        told is Some <==> session.authenticate_as is None && reads.information.contains_key(session.relay),
        told matches Some(t) ==> {
            let info = reads.information[session.relay];
            &&& t.document_revision@ == info.document_revision@
            &&& t.supported_nips is Some == info.supported_nips is Some
            &&& info.supported_nips matches Some(known) ==> t.supported_nips->0@ == known@
            &&& t.last_error is Some == info.last_error is Some
            &&& info.last_error matches Some(e) ==> t.last_error->0@ == e@
            &&& t.freshness@ == (if now < info.fresh_until {
                "fresh"@
            } else {
                "stale"@
            })
        },
{
}

/// What is told of the transport: where a session could not be opened, the one that
/// comes first, by the address of its relay and its reason; otherwise what a worker
/// last reported, word for word.
pub proof fn first_open_failure_is_told(core: CoreState, addresses: Map<Relay, String>, first: RelaySessionKey)
    requires
        core.sessions.relay_open_failures@.dom().finite(),
        core.sessions.relay_open_failures@.contains_key(first),
        forall|s: RelaySessionKey| #[trigger]
            core.sessions.relay_open_failures@.contains_key(s) && s != first ==> Key::rank(first)
                < Key::rank(s),
    ensures
        degraded(core, addresses) == Some(
            addresses[first.relay]@ + ": "@ + core.sessions.relay_open_failures@[first]@,
        ),
{
    let failures = core.sessions.relay_open_failures@;
    assert(failures.dom().contains(first));
    lemma_listing_exists(failures.dom());
    let q = listing_of(failures.dom());
    lemma_listing_members(q, failures.dom());
    assert(q.contains(first));
    let i = choose|i: int| 0 <= i < q.len() && q[i] == first;
    assert(failures.dom().contains(q[0]));
    if i != 0 {
        assert(Key::rank(q[0]) < Key::rank(q[i]));
        assert(q[0] != first);
        assert(failures.contains_key(q[0]));
    }
    assert(addresses[first.relay]@ + (": "@ + failures[first]@) =~= addresses[first.relay]@ + ": "@
        + failures[first]@);
}

/// Where every session could be opened, what a worker last reported is told.
pub proof fn worker_report_is_told(core: CoreState, addresses: Map<Relay, String>)
    requires
        core.sessions.relay_open_failures@.dom() == Set::<RelaySessionKey>::empty(),
    ensures
        core.transport_degraded matches Some(t) ==> degraded(core, addresses) == Some(t@),
        core.transport_degraded is None ==> degraded(core, addresses) is None,
{
}

/// A text that is there is told as it is, and none is told where there is none.
pub proof fn text_is_told_as_it_is(s: Option<String>)
    ensures
        maybe_text(s) is Some <==> s is Some,
        s matches Some(t) ==> maybe_text(s)->0 == t@,
{
}

} // verus!
