//! Which transport session occupies which slot, and how far each protected
//! session has come in its authentication.

use vstd::prelude::*;

use crate::auth::{
    AuthDenialSource, AuthEpoch, AuthOpToken, AuthPolicyOutcome, AuthSessionPhase, AuthSessionState,
};
use crate::ids::{AuthCapabilityInstance, PublicKey, Relay, RelaySessionKey, TransportRelayHandle};
use crate::key::{lemma_listing_members, lemma_push_contains};
use crate::outside::{
    auth_event_id, auth_tags, build_auth_event, relay_address, tags_text, UnsignedEvent,
    AUTH_EVENT_KIND,
};
use crate::sorted::{SortedMap, SortedSet};

verus! {

/// An authentication event may be dated at most this far into the future.
pub const AUTH_MAX_FUTURE_SECS: u64 = 600;

/// Never issued as a sequence; it stands for the epoch of an exhausted counter.
pub const AUTH_SEQUENCE_SENTINEL: u64 = 0xffff_ffff_ffff_ffff;

/// Whether a write may be attempted on a session now.
#[derive(Clone, Copy, Debug, PartialEq, Eq, Structural)]
pub enum WriteGate {
    Open,
    AwaitingProbe,
    AwaitingAuth,
}

/// What a policy result changed.
pub enum AuthTransition {
    NoChange,
    SignatureRequested { token: AuthOpToken, unsigned: UnsignedEvent },
    Denied { session: RelaySessionKey, source: AuthDenialSource, reason: String },
    Errored { session: RelaySessionKey },
}

/// What a counter issues, and what it is left with.
pub open spec fn issue(next: Option<u64>) -> (Option<u64>, Option<u64>) {
    match next {
        None => (None, None),
        Some(n) => if n == AUTH_SEQUENCE_SENTINEL {
            (None, None)
        } else {
            (Some(n), Some((n + 1) as u64))
        },
    }
}

/// The sequences that a counter issues rise, and never reach the sentinel.
pub proof fn issued_sequences_rise(next: Option<u64>)
    ensures
        issue(next).0 != Some(AUTH_SEQUENCE_SENTINEL),
        issue(next).0 matches Some(first) ==> (issue(issue(next).1).0 matches Some(second) ==> first
            < second),
        issue(next).0 is None ==> issue(issue(next).1).0 is None,
{
}

/// The date of the next authentication event: after the last one, not before
/// now, and not too far ahead. None where no such date exists.
pub open spec fn auth_created_at(last: Option<u64>, now: u64) -> Option<u64> {
    let earliest: int = match last {
        Some(last) => if last + 1 > now {
            last + 1
        } else {
            now as int
        },
        None => now as int,
    };
    if earliest <= u64::MAX && now + AUTH_MAX_FUTURE_SECS <= u64::MAX && earliest <= now
        + AUTH_MAX_FUTURE_SECS && (last matches Some(l) ==> l < u64::MAX) {
        Some(earliest as u64)
    } else {
        None
    }
}

/// Dates of authentication events on one session strictly rise and stay inside
/// the window that a relay accepts.
pub proof fn auth_dates_rise(last: Option<u64>, now: u64)
    ensures
        auth_created_at(last, now) matches Some(at) ==> {
            &&& now <= at <= now + AUTH_MAX_FUTURE_SECS
            &&& last matches Some(l) ==> l < at
        },
{
}

/// The address of a relay, where one is known and is well formed.
pub open spec fn address_of(addresses: Map<Relay, String>, relay: Relay) -> Option<Seq<char>> {
    if addresses.contains_key(relay) {
        relay_address(addresses[relay]@)
    } else {
        None
    }
}

/// The event that one challenge asks to be signed.
pub open spec fn is_auth_event(
    event: UnsignedEvent,
    challenge: Seq<char>,
    relay: Seq<char>,
    created_at: u64,
    pubkey: PublicKey,
) -> bool {
    &&& event.pubkey == pubkey
    &&& event.created_at == created_at
    &&& event.kind == AUTH_EVENT_KIND
    &&& event.content@ == Seq::<char>::empty()
    &&& tags_text(event.tags) == auth_tags(challenge, relay)
    &&& event.id == auth_event_id(challenge, relay, created_at, pubkey.hi, pubkey.lo)
}

/// Everything known of the transport sessions.
pub struct SessionRegistry {
    /// The exact connection and session that occupy each slot.
    pub slot_to_relay: SortedMap<u32, (TransportRelayHandle, RelaySessionKey)>,
    /// Sessions connected now.
    pub connected_relays: SortedSet<RelaySessionKey>,
    /// Sessions that have ever been connected.
    pub ever_connected_relays: SortedSet<RelaySessionKey>,
    /// The connection on which a protected session has authenticated.
    pub auth_ready_sessions: SortedMap<RelaySessionKey, TransportRelayHandle>,
    /// Connections whose first frame is still awaited for a challenge.
    pub auth_probe_sessions: SortedMap<RelaySessionKey, TransportRelayHandle>,
    /// Sessions whose relay has demanded authentication.
    pub auth_required_sessions: SortedSet<RelaySessionKey>,
    /// The current epoch of each protected session.
    pub auth_sessions: SortedMap<RelaySessionKey, AuthSessionState>,
    pub next_auth_epoch: Option<u64>,
    pub next_auth_operation: Option<u64>,
    /// Why a worker for a session could not be opened.
    pub relay_open_failures: SortedMap<RelaySessionKey, String>,
}

impl SessionRegistry {
    pub fn new() -> (r: Self)
        ensures
            r.slot_to_relay@ == Map::<u32, (TransportRelayHandle, RelaySessionKey)>::empty(),
            r.connected_relays@ == Set::<RelaySessionKey>::empty(),
            r.ever_connected_relays@ == Set::<RelaySessionKey>::empty(),
            r.auth_ready_sessions@ == Map::<RelaySessionKey, TransportRelayHandle>::empty(),
            r.auth_probe_sessions@ == Map::<RelaySessionKey, TransportRelayHandle>::empty(),
            r.auth_required_sessions@ == Set::<RelaySessionKey>::empty(),
            r.auth_sessions@ == Map::<RelaySessionKey, AuthSessionState>::empty(),
            r.next_auth_epoch == Some(1u64),
            r.next_auth_operation == Some(1u64),
            r.relay_open_failures@ == Map::<RelaySessionKey, String>::empty(),
    {
        SessionRegistry {
            slot_to_relay: SortedMap::new(),
            connected_relays: SortedSet::new(),
            ever_connected_relays: SortedSet::new(),
            auth_ready_sessions: SortedMap::new(),
            auth_probe_sessions: SortedMap::new(),
            auth_required_sessions: SortedSet::new(),
            auth_sessions: SortedMap::new(),
            next_auth_epoch: Some(1),
            next_auth_operation: Some(1),
            relay_open_failures: SortedMap::new(),
        }
    }

    /// Issues the next sequence of a counter. The sentinel is never issued: a
    /// counter that reaches it is exhausted.
    pub fn mint_auth_sequence(next: &mut Option<u64>) -> (r: Option<u64>)
        ensures
            (r, *final(next)) == issue(*old(next)),
    {
        match *next {
            None => None,
            Some(issued) => {
                if issued == AUTH_SEQUENCE_SENTINEL {
                    *next = None;
                    None
                } else {
                    *next = Some(issued + 1);
                    Some(issued)
                }
            },
        }
    }

    pub fn mint_auth_epoch(&mut self, handle: TransportRelayHandle, session: &RelaySessionKey) -> (r: Option<
        AuthEpoch,
    >)
        ensures
            *final(self) == (SessionRegistry {
                next_auth_epoch: issue(old(self).next_auth_epoch).1,
                ..*old(self)
            }),
            r == (match issue(old(self).next_auth_epoch).0 {
                Some(sequence) => Some(AuthEpoch { handle, session: *session, sequence }),
                None => None,
            }),
    {
        match Self::mint_auth_sequence(&mut self.next_auth_epoch) {
            Some(sequence) => Some(AuthEpoch { handle, session: *session, sequence }),
            None => None,
        }
    }

    pub fn mint_auth_operation(&mut self, epoch: &AuthEpoch) -> (r: Option<AuthOpToken>)
        ensures
            *final(self) == (SessionRegistry {
                next_auth_operation: issue(old(self).next_auth_operation).1,
                ..*old(self)
            }),
            r == (match issue(old(self).next_auth_operation).0 {
                Some(sequence) => Some(AuthOpToken { epoch: *epoch, sequence }),
                None => None,
            }),
    {
        match Self::mint_auth_sequence(&mut self.next_auth_operation) {
            Some(sequence) => Some(AuthOpToken { epoch: *epoch, sequence }),
            None => None,
        }
    }

    /// The slot of `handle` is occupied by exactly this connection and session.
    pub open spec fn occupies(&self, handle: TransportRelayHandle, session: RelaySessionKey) -> bool {
        self.slot_to_relay@.contains_key(handle.slot) && self.slot_to_relay@[handle.slot] == (
            handle,
            session,
        )
    }

    /// The epoch is the current one of a connected session on its own slot.
    pub open spec fn current_epoch(&self, epoch: AuthEpoch) -> bool {
        &&& self.connected_relays@.contains(epoch.session)
        &&& self.occupies(epoch.handle, epoch.session)
        &&& self.auth_sessions@.contains_key(epoch.session)
        &&& self.auth_sessions@[epoch.session].epoch == epoch
    }

    pub fn exact_current_auth_epoch(&self, epoch: &AuthEpoch) -> (b: bool)
        ensures
            b == self.current_epoch(*epoch),
    {
        self.is_current_transport_session(epoch.handle, &epoch.session) && match self.auth_sessions.get(
            &epoch.session,
        ) {
            Some(state) => state.epoch == *epoch,
            None => false,
        }
    }

    pub fn is_current_transport_session(
        &self,
        handle: TransportRelayHandle,
        session: &RelaySessionKey,
    ) -> (b: bool)
        ensures
            b == (self.connected_relays@.contains(*session) && self.occupies(handle, *session)),
    {
        self.connected_relays.contains(session) && self.same_slot_owner(handle, session)
    }

    pub fn is_connected(&self, session: &RelaySessionKey) -> (b: bool)
        ensures
            b == self.connected_relays@.contains(*session),
    {
        self.connected_relays.contains(session)
    }

    /// Whether a write may be attempted: not while the first frame of the
    /// connection is awaited, and not while a demanded authentication is
    /// outstanding.
    pub fn write_gate(&self, session: &RelaySessionKey) -> (g: WriteGate)
        ensures
            g == (if self.auth_probe_sessions@.contains_key(*session) {
                WriteGate::AwaitingProbe
            } else if self.auth_required_sessions@.contains(*session)
                && !self.auth_ready_sessions@.contains_key(*session) {
                WriteGate::AwaitingAuth
            } else {
                WriteGate::Open
            }),
    {
        if self.auth_probe_sessions.contains(session) {
            WriteGate::AwaitingProbe
        } else if self.auth_required_sessions.contains(session) && !self.auth_ready_sessions.contains(
            session,
        ) {
            WriteGate::AwaitingAuth
        } else {
            WriteGate::Open
        }
    }

    pub fn requires_auth(&self, session: &RelaySessionKey) -> (b: bool)
        ensures
            b == self.auth_required_sessions@.contains(*session),
    {
        self.auth_required_sessions.contains(session)
    }

    /// Forgets that a session has authenticated, and says whether it had.
    pub fn take_ready(&mut self, session: &RelaySessionKey) -> (b: bool)
        ensures
            b == old(self).auth_ready_sessions@.contains_key(*session),
            final(self).auth_ready_sessions@ == old(self).auth_ready_sessions@.remove(*session),
            *final(self) == (SessionRegistry {
                auth_ready_sessions: final(self).auth_ready_sessions,
                ..*old(self)
            }),
    {
        self.auth_ready_sessions.remove(session).is_some()
    }

    pub fn take_auth_state(&mut self, session: &RelaySessionKey) -> (r: Option<AuthSessionState>)
        ensures
            match r {
                Some(state) => old(self).auth_sessions@.contains_key(*session) && state == old(
                    self,
                ).auth_sessions@[*session],
                None => !old(self).auth_sessions@.contains_key(*session),
            },
            final(self).auth_sessions@ == old(self).auth_sessions@.remove(*session),
            *final(self) == (SessionRegistry {
                auth_sessions: final(self).auth_sessions,
                ..*old(self)
            }),
    {
        self.auth_sessions.remove(session)
    }

    /// The protected sessions that have authenticated.
    pub fn ready_sessions(&self) -> (r: SortedSet<RelaySessionKey>)
        ensures
            r@ == self.auth_ready_sessions@.dom(),
    {
        let keys = self.auth_ready_sessions.key_list();
        let mut r: SortedSet<RelaySessionKey> = SortedSet::new();
        let mut i: usize = 0;
        while i < keys.len()
            invariant
                i <= keys@.len(),
                forall|s: RelaySessionKey| #[trigger]
                    r@.contains(s) <==> keys@.take(i as int).contains(s),
            decreases keys@.len() - i,
        {
            proof {
                assert(keys@.take(i + 1) =~= keys@.take(i as int).push(keys@[i as int]));
                lemma_push_contains(keys@.take(i as int), keys@[i as int]);
            }
            r.insert(keys[i]);
            i = i + 1;
        }
        proof {
            assert(keys@.take(i as int) =~= keys@);
            lemma_listing_members(keys@, self.auth_ready_sessions@.dom());
            assert(r@ =~= self.auth_ready_sessions@.dom());
        }
        r
    }

    pub fn same_slot_owner(&self, handle: TransportRelayHandle, session: &RelaySessionKey) -> (b: bool)
        ensures
            b == self.occupies(handle, *session),
    {
        match self.slot_to_relay.get(&handle.slot) {
            Some(occupant) => occupant.0 == handle && occupant.1 == *session,
            None => false,
        }
    }

    /// The slot has been reopened since this connection.
    pub fn is_stale_generation(&self, handle: TransportRelayHandle) -> (b: bool)
        ensures
            b == (self.slot_to_relay@.contains_key(handle.slot)
                && self.slot_to_relay@[handle.slot].0.generation > handle.generation),
    {
        match self.slot_to_relay.get(&handle.slot) {
            Some(occupant) => occupant.0.generation > handle.generation,
            None => false,
        }
    }

    /// The other session that occupies the slot, if one does.
    pub fn displaced_slot_owner(
        &self,
        handle: TransportRelayHandle,
        incoming: &RelaySessionKey,
    ) -> (r: Option<RelaySessionKey>)
        ensures
            r == (if self.slot_to_relay@.contains_key(handle.slot)
                && self.slot_to_relay@[handle.slot].1 != *incoming {
                Some(self.slot_to_relay@[handle.slot].1)
            } else {
                None
            }),
    {
        match self.slot_to_relay.get(&handle.slot) {
            Some(occupant) => if occupant.1 != *incoming {
                Some(occupant.1)
            } else {
                None
            },
            None => None,
        }
    }

    /// `self` is `before` with a session no longer connected and its probe
    /// dropped.
    pub open spec fn disconnected_from(&self, before: SessionRegistry, session: RelaySessionKey) -> bool {
        &&& self.connected_relays@ == before.connected_relays@.remove(session)
        &&& self.auth_probe_sessions@ == before.auth_probe_sessions@.remove(session)
        &&& *self == (SessionRegistry {
            connected_relays: self.connected_relays,
            auth_probe_sessions: self.auth_probe_sessions,
            ..before
        })
    }

    pub fn release_displaced(&mut self, displaced: &RelaySessionKey)
        ensures
            final(self).disconnected_from(*old(self), *displaced),
    {
        self.connected_relays.remove(displaced);
        self.auth_probe_sessions.remove(displaced);
    }

    pub fn clear_open_failure(&mut self, session: &RelaySessionKey) -> (b: bool)
        ensures
            b == old(self).relay_open_failures@.contains_key(*session),
            final(self).relay_open_failures@ == old(self).relay_open_failures@.remove(*session),
            *final(self) == (SessionRegistry {
                relay_open_failures: final(self).relay_open_failures,
                ..*old(self)
            }),
    {
        self.relay_open_failures.remove(session).is_some()
    }

    /// The session of a reported disconnect, where the exact connection and
    /// session still occupy the slot.
    pub fn validated_occupant(
        &self,
        handle: TransportRelayHandle,
        reported_session: &RelaySessionKey,
    ) -> (r: Option<RelaySessionKey>)
        ensures
            r == (if self.occupies(handle, *reported_session) {
                Some(*reported_session)
            } else {
                None
            }),
    {
        if self.same_slot_owner(handle, reported_session) {
            Some(*reported_session)
        } else {
            None
        }
    }

    /// Marks a session as no longer connected. That it once was is kept.
    pub fn mark_disconnected(&mut self, session: &RelaySessionKey)
        ensures
            final(self).disconnected_from(*old(self), *session),
    {
        self.connected_relays.remove(session);
        self.auth_probe_sessions.remove(session);
    }

    /// Takes the slot for a connection, marks its session connected, and sets
    /// or drops its probe where the connection is a new one of a protected
    /// session.
    pub fn claim_slot(
        &mut self,
        handle: TransportRelayHandle,
        session: &RelaySessionKey,
        same_physical_session: bool,
    )
        ensures
            final(self).slot_to_relay@ == old(self).slot_to_relay@.insert(
                handle.slot,
                (handle, *session),
            ),
            final(self).connected_relays@ == old(self).connected_relays@.insert(*session),
            final(self).ever_connected_relays@ == old(self).ever_connected_relays@.insert(*session),
            final(self).auth_probe_sessions@ == (if same_physical_session
                || session.authenticate_as is None {
                old(self).auth_probe_sessions@
            } else if old(self).auth_required_sessions@.contains(*session) {
                old(self).auth_probe_sessions@.remove(*session)
            } else {
                old(self).auth_probe_sessions@.insert(*session, handle)
            }),
            *final(self) == (SessionRegistry {
                slot_to_relay: final(self).slot_to_relay,
                connected_relays: final(self).connected_relays,
                ever_connected_relays: final(self).ever_connected_relays,
                auth_probe_sessions: final(self).auth_probe_sessions,
                ..*old(self)
            }),
    {
        self.slot_to_relay.insert(handle.slot, (handle, *session));
        self.connected_relays.insert(*session);
        self.ever_connected_relays.insert(*session);
        if !same_physical_session && session.authenticate_as.is_some() {
            if self.auth_required_sessions.contains(session) {
                self.auth_probe_sessions.remove(session);
            } else {
                self.auth_probe_sessions.insert(*session, handle);
            }
        }
    }

    /// The session whose view a write is checked against: its own once it has
    /// authenticated, else the relay's open one.
    pub fn authenticated_view(&self, session: &RelaySessionKey) -> (r: RelaySessionKey)
        ensures
            r == (if self.auth_ready_sessions@.contains_key(*session) {
                *session
            } else {
                RelaySessionKey { relay: session.relay, authenticate_as: None }
            }),
    {
        if self.auth_ready_sessions.contains(session) {
            *session
        } else {
            RelaySessionKey::unauthenticated(session.relay)
        }
    }

    /// The transport has no session: it counts as not connected. Its slot and
    /// its epoch stay, since no connection was seen to end.
    pub fn transport_has_no_session(&mut self, session: &RelaySessionKey)
        ensures
            final(self).connected_relays@ == old(self).connected_relays@.remove(*session),
            *final(self) == (SessionRegistry {
                connected_relays: final(self).connected_relays,
                ..*old(self)
            }),
    {
        self.connected_relays.remove(session);
    }

    /// The relay answered a write with a demand to authenticate.
    pub fn relay_demanded_auth(&mut self, session: &RelaySessionKey)
        ensures
            final(self).auth_probe_sessions@ == old(self).auth_probe_sessions@.remove(*session),
            final(self).auth_required_sessions@ == old(self).auth_required_sessions@.insert(*session),
            *final(self) == (SessionRegistry {
                auth_probe_sessions: final(self).auth_probe_sessions,
                auth_required_sessions: final(self).auth_required_sessions,
                ..*old(self)
            }),
    {
        self.auth_probe_sessions.remove(session);
        self.auth_required_sessions.insert(*session);
    }

    /// A policy result is heeded: it is for the operation that the current
    /// epoch awaits, and comes from the policy that the epoch is bound to, or
    /// says that there is none where none is bound.
    pub open spec fn heeds(
        &self,
        token: AuthOpToken,
        instance: Option<AuthCapabilityInstance>,
        outcome: AuthPolicyOutcome,
    ) -> bool {
        let state = self.auth_sessions@[token.epoch.session];
        &&& self.current_epoch(token.epoch)
        &&& state.phase matches AuthSessionPhase::AwaitingPolicy { token: current } && current == token
        &&& if instance is None {
            state.policy_instance is None && outcome is Unavailable
        } else {
            instance == state.policy_instance
        }
    }

    /// `self` is `before` with the state of one session replaced.
    pub open spec fn restated(
        &self,
        before: SessionRegistry,
        session: RelaySessionKey,
        phase: AuthSessionPhase,
        last_created_at: Option<u64>,
    ) -> bool {
        &&& self.auth_sessions@ == before.auth_sessions@.insert(
            session,
            AuthSessionState { phase, last_created_at, ..before.auth_sessions@[session] },
        )
        &&& *self == (SessionRegistry {
            auth_sessions: self.auth_sessions,
            next_auth_operation: self.next_auth_operation,
            ..before
        })
    }

    fn set_phase(&mut self, session: &RelaySessionKey, phase: AuthSessionPhase)
        requires
            old(self).auth_sessions@.contains_key(*session),
        ensures
            final(self).restated(
                *old(self),
                *session,
                phase,
                old(self).auth_sessions@[*session].last_created_at,
            ),
            final(self).next_auth_operation == old(self).next_auth_operation,
    {
        if let Some(state) = self.auth_sessions.get_mut(session) {
            state.phase = phase;
        }
    }

    /// Applies one policy result to the session's authentication. `addresses` are
    /// the addresses of the relays; the event to be signed names that of the
    /// session's own relay.
    pub fn apply_policy_completion(
        &mut self,
        token: AuthOpToken,
        instance: Option<AuthCapabilityInstance>,
        outcome: AuthPolicyOutcome,
        now: u64,
        addresses: &SortedMap<Relay, String>,
    ) -> (r: AuthTransition)
        ensures
            !old(self).heeds(token, instance, outcome) ==> r is NoChange && *final(self) == *old(self),
            old(self).heeds(token, instance, outcome) ==> {
                let session = token.epoch.session;
                let state = old(self).auth_sessions@[session];
                match outcome {
                    AuthPolicyOutcome::Allow => {
                        let at = auth_created_at(state.last_created_at, now);
                        let sequence = issue(old(self).next_auth_operation).0;
                        let address = address_of(addresses@, session.relay);
                        if session.authenticate_as is Some && at is Some && address is Some
                            && sequence is Some {
                            let sign = AuthOpToken { epoch: token.epoch, sequence: sequence->0 };
                            &&& r matches AuthTransition::SignatureRequested { token: t, unsigned }
                                && t == sign && is_auth_event(
                                unsigned,
                                state.challenge@,
                                address->0,
                                at->0,
                                session.authenticate_as->0,
                            )
                            &&& final(self).auth_sessions@[session].phase
                                matches AuthSessionPhase::AwaitingSignature { token: t, unsigned } && t
                                == sign && is_auth_event(
                                unsigned,
                                state.challenge@,
                                address->0,
                                at->0,
                                session.authenticate_as->0,
                            )
                            &&& final(self).restated(
                                *old(self),
                                session,
                                final(self).auth_sessions@[session].phase,
                                at,
                            )
                            &&& final(self).next_auth_operation == issue(old(self).next_auth_operation).1
                        } else {
                            &&& r matches AuthTransition::Errored { session: s } && s == session
                            &&& final(self).restated(
                                *old(self),
                                session,
                                AuthSessionPhase::Error,
                                state.last_created_at,
                            )
                            &&& final(self).next_auth_operation == (if session.authenticate_as is Some
                                && at is Some && address is Some {
                                issue(old(self).next_auth_operation).1
                            } else {
                                old(self).next_auth_operation
                            })
                        }
                    },
                    AuthPolicyOutcome::Deny { reason } => {
                        &&& r matches AuthTransition::Denied { session: s, source, reason: why } && s
                            == session && source == AuthDenialSource::Policy && why == reason
                        &&& final(self).auth_sessions@[session].phase matches AuthSessionPhase::Denied {
                            source,
                            reason: why,
                        } && source == AuthDenialSource::Policy && why@ == reason@
                        &&& final(self).restated(
                            *old(self),
                            session,
                            final(self).auth_sessions@[session].phase,
                            state.last_created_at,
                        )
                        &&& final(self).next_auth_operation == old(self).next_auth_operation
                    },
                    _ => {
                        &&& r matches AuthTransition::Errored { session: s } && s == session
                        &&& final(self).restated(
                            *old(self),
                            session,
                            AuthSessionPhase::Error,
                            state.last_created_at,
                        )
                        &&& final(self).next_auth_operation == old(self).next_auth_operation
                    },
                }
            },
    {
        if !self.exact_current_auth_epoch(&token.epoch) {
            return AuthTransition::NoChange;
        }
        let session = token.epoch.session;
        let (awaited, bound, last) = match self.auth_sessions.get(&session) {
            None => {
                return AuthTransition::NoChange;
            },
            Some(state) => {
                let awaited = match &state.phase {
                    AuthSessionPhase::AwaitingPolicy { token: current } => *current == token,
                    _ => false,
                };
                let bound = match instance {
                    Some(given) => match state.policy_instance {
                        Some(held) => given == held,
                        None => false,
                    },
                    None => match &outcome {
                        AuthPolicyOutcome::Unavailable => state.policy_instance.is_none(),
                        _ => false,
                    },
                };
                (awaited, bound, state.last_created_at)
            },
        };
        if !awaited || !bound {
            return AuthTransition::NoChange;
        }
        match outcome {
            AuthPolicyOutcome::Allow => {
                let expected_pubkey = match session.authenticate_as {
                    Some(key) => key,
                    None => {
                        self.set_phase(&session, AuthSessionPhase::Error);
                        return AuthTransition::Errored { session };
                    },
                };
                let created_at = match next_auth_date(last, now) {
                    Some(at) => at,
                    None => {
                        self.set_phase(&session, AuthSessionPhase::Error);
                        return AuthTransition::Errored { session };
                    },
                };
                let built = match (self.auth_sessions.get(&session), addresses.get(&session.relay)) {
                    (Some(state), Some(address)) => build_auth_event(
                        state.challenge.as_str(),
                        address.as_str(),
                        created_at,
                        expected_pubkey,
                    ),
                    _ => None,
                };
                let unsigned = match built {
                    Some(unsigned) => unsigned,
                    None => {
                        self.set_phase(&session, AuthSessionPhase::Error);
                        return AuthTransition::Errored { session };
                    },
                };
                let sequence = match Self::mint_auth_sequence(&mut self.next_auth_operation) {
                    Some(sequence) => sequence,
                    None => {
                        self.set_phase(&session, AuthSessionPhase::Error);
                        return AuthTransition::Errored { session };
                    },
                };
                let sign = AuthOpToken { epoch: token.epoch, sequence };
                let kept = unsigned.copy();
                if let Some(state) = self.auth_sessions.get_mut(&session) {
                    state.last_created_at = Some(created_at);
                    state.policy_instance = instance;
                    state.phase = AuthSessionPhase::AwaitingSignature { token: sign, unsigned: kept };
                }
                AuthTransition::SignatureRequested { token: sign, unsigned }
            },
            AuthPolicyOutcome::Deny { reason } => {
                let kept = reason.clone();
                self.set_phase(
                    &session,
                    AuthSessionPhase::Denied { source: AuthDenialSource::Policy, reason: kept },
                );
                AuthTransition::Denied { session, source: AuthDenialSource::Policy, reason }
            },
            AuthPolicyOutcome::Unavailable | AuthPolicyOutcome::Error { .. } => {
                self.set_phase(&session, AuthSessionPhase::Error);
                AuthTransition::Errored { session }
            },
        }
    }
}

/// The date of the next authentication event, where one is left.
pub fn next_auth_date(last: Option<u64>, now: u64) -> (r: Option<u64>)
    ensures
        r == auth_created_at(last, now),
{
    let minimum: u64 = match last {
        Some(last) => match last.checked_add(1) {
            Some(next) => if next > now {
                next
            } else {
                now
            },
            None => {
                return None;
            },
        },
        None => now,
    };
    match now.checked_add(AUTH_MAX_FUTURE_SECS) {
        Some(maximum) => if minimum > maximum {
            None
        } else {
            Some(minimum)
        },
        None => None,
    }
}

/// A counter issues its next number and goes on to the one after, until it reaches the
/// sentinel, which it never issues; from there on it issues nothing.
pub proof fn counter_issues_every_number_once(n: u64)
    ensures
        n < 0xffff_ffff_ffff_ffff ==> issue(Some(n)).0 == Some(n) && issue(Some(n)).1 == Some((n + 1) as u64),
        issue(Some(0xffff_ffff_ffff_ffff)) == (None::<u64>, None::<u64>),
        issue(None) == (None::<u64>, None::<u64>),
{
}

/// The date of an authentication event is the first that is neither before now nor
/// taken: where any date within ten minutes from now is later than the last one, there
/// is a date, and it is no later than that one.
pub proof fn auth_date_is_the_first_possible(last: Option<u64>, now: u64, at: u64)
    requires
        now + 600 <= u64::MAX,
        now <= at <= now + 600,
        last matches Some(l) ==> l < at,
    ensures
        auth_created_at(last, now) matches Some(first) && now <= first <= at && (last matches Some(l) ==> l
            < first),
{
}

/// A connection occupies a slot only as itself: the slot names this very connection,
/// with its generation, and this very session.
pub proof fn slot_names_its_connection(r: SessionRegistry, handle: TransportRelayHandle, session: RelaySessionKey)
    ensures
        r.occupies(handle, session) <==> r.slot_to_relay@.contains_key(handle.slot)
            && r.slot_to_relay@[handle.slot].0.slot == handle.slot && r.slot_to_relay@[handle.slot].0.generation
            == handle.generation && r.slot_to_relay@[handle.slot].1 == session,
{
}

/// An epoch counts if and only if its session is connected, its own connection still
/// occupies the slot, and it is the epoch that the session is in.
pub proof fn epoch_counts_on_its_own_connection(r: SessionRegistry, epoch: AuthEpoch)
    ensures
        r.current_epoch(epoch) <==> r.connected_relays@.contains(epoch.session) && r.slot_to_relay@.contains_key(
            epoch.handle.slot,
        ) && r.slot_to_relay@[epoch.handle.slot] == (epoch.handle, epoch.session)
            && r.auth_sessions@.contains_key(epoch.session) && r.auth_sessions@[epoch.session].epoch == epoch,
{
}

/// A policy result that is late, for another operation, of another epoch or of another
/// policy changes nothing; only the result that the session awaits, from the policy that
/// it is bound to, does. That no policy is there is heeded only where none is bound.
pub proof fn only_the_awaited_result_is_heeded(
    r: SessionRegistry,
    token: AuthOpToken,
    instance: Option<AuthCapabilityInstance>,
    outcome: AuthPolicyOutcome,
)
    requires
        r.heeds(token, instance, outcome),
    ensures
        ({
            let state = r.auth_sessions@[token.epoch.session];
            &&& r.connected_relays@.contains(token.epoch.session)
            &&& r.slot_to_relay@.contains_key(token.epoch.handle.slot)
            &&& r.slot_to_relay@[token.epoch.handle.slot] == (token.epoch.handle, token.epoch.session)
            &&& r.auth_sessions@.contains_key(token.epoch.session)
            &&& state.epoch == token.epoch
            &&& state.phase == (AuthSessionPhase::AwaitingPolicy { token })
            &&& instance == state.policy_instance
            &&& instance is None ==> outcome == AuthPolicyOutcome::Unavailable
        }),
{
}

/// The result that a session awaits, from the policy that it is bound to, is heeded.
pub proof fn awaited_result_is_heeded(
    r: SessionRegistry,
    token: AuthOpToken,
    instance: AuthCapabilityInstance,
    outcome: AuthPolicyOutcome,
)
    requires
        r.connected_relays@.contains(token.epoch.session),
        r.slot_to_relay@.contains_key(token.epoch.handle.slot),
        r.slot_to_relay@[token.epoch.handle.slot] == (token.epoch.handle, token.epoch.session),
        r.auth_sessions@.contains_key(token.epoch.session),
        r.auth_sessions@[token.epoch.session].epoch == token.epoch,
        r.auth_sessions@[token.epoch.session].phase == (AuthSessionPhase::AwaitingPolicy { token }),
        r.auth_sessions@[token.epoch.session].policy_instance == Some(instance),
    ensures
        r.heeds(token, Some(instance), outcome),
{
}

/// A session that is no longer connected keeps its slot, its epoch and that it was once
/// connected; only its probe goes with it. No other session is touched.
pub proof fn disconnection_takes_one_session(
    before: SessionRegistry,
    after: SessionRegistry,
    session: RelaySessionKey,
    other: RelaySessionKey,
)
    requires
        after.disconnected_from(before, session),
        other != session,
    ensures
        !after.connected_relays@.contains(session),
        !after.auth_probe_sessions@.contains_key(session),
        after.connected_relays@.contains(other) == before.connected_relays@.contains(other),
        after.auth_probe_sessions@.contains_key(other) == before.auth_probe_sessions@.contains_key(other),
        after.slot_to_relay == before.slot_to_relay,
        after.ever_connected_relays == before.ever_connected_relays,
        after.auth_sessions == before.auth_sessions,
        after.auth_ready_sessions == before.auth_ready_sessions,
        after.auth_required_sessions == before.auth_required_sessions,
        after.relay_open_failures == before.relay_open_failures,
{
}

/// A session's authentication goes on in the same epoch, for the same challenge and
/// with the same capabilities; only how far it has come and the last date change. No
/// other session is touched.
pub proof fn authentication_goes_on_in_its_epoch(
    before: SessionRegistry,
    after: SessionRegistry,
    session: RelaySessionKey,
    phase: AuthSessionPhase,
    last_created_at: Option<u64>,
    other: RelaySessionKey,
)
    requires
        before.auth_sessions@.contains_key(session),
        after.restated(before, session, phase, last_created_at),
        other != session,
    ensures
        ({
            let was = before.auth_sessions@[session];
            let is = after.auth_sessions@[session];
            &&& after.auth_sessions@.contains_key(session)
            &&& is.phase == phase
            &&& is.last_created_at == last_created_at
            &&& is.epoch == was.epoch
            &&& is.challenge == was.challenge
            &&& is.policy_instance == was.policy_instance
            &&& is.signer_instance == was.signer_instance
            &&& after.auth_sessions@.contains_key(other) == before.auth_sessions@.contains_key(other)
            &&& before.auth_sessions@.contains_key(other) ==> after.auth_sessions@[other]
                == before.auth_sessions@[other]
            &&& after.connected_relays == before.connected_relays
            &&& after.auth_ready_sessions == before.auth_ready_sessions
            &&& after.slot_to_relay == before.slot_to_relay
            &&& after.next_auth_epoch == before.next_auth_epoch
        }),
{
}

/// The event that a challenge asks to be signed is by the account of the session, of
/// the kind for authentication, without content, and names the challenge and then the
/// relay.
pub proof fn auth_event_names_challenge_and_relay(
    event: UnsignedEvent,
    challenge: Seq<char>,
    relay: Seq<char>,
    created_at: u64,
    pubkey: PublicKey,
)
    requires
        is_auth_event(event, challenge, relay, created_at, pubkey),
    ensures
        event.pubkey == pubkey,
        event.created_at == created_at,
        event.kind == 22242,
        event.content@.len() == 0,
        event.tags@.len() == 2,
        event.tags@[0]@.len() == 2,
        event.tags@[0]@[0]@ == "challenge"@,
        event.tags@[0]@[1]@ == challenge,
        event.tags@[1]@.len() == 2,
        event.tags@[1]@[0]@ == "relay"@,
        event.tags@[1]@[1]@ == relay,
{
    let t = tags_text(event.tags);
    assert(t == auth_tags(challenge, relay));
    assert(t.len() == 2);
    assert(t[0] == seq!["challenge"@, challenge]);
    assert(t[1] == seq!["relay"@, relay]);
    assert(t[0].len() == 2 && t[1].len() == 2);
    assert(t[0][0] == "challenge"@ && t[0][1] == challenge);
    assert(t[1][0] == "relay"@ && t[1][1] == relay);
}

/// A relay's address is known only where one is given for that relay, and is the one
/// that this address stands for.
pub proof fn address_is_of_the_relay_itself(addresses: Map<Relay, String>, relay: Relay)
    ensures
        address_of(addresses, relay) is Some ==> addresses.contains_key(relay),
        addresses.contains_key(relay) ==> address_of(addresses, relay) == relay_address(addresses[relay]@),
{
}

} // verus!
