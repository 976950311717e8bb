//! One turn of the engine: a message comes in, and something has to be done.

use vstd::prelude::*;

use crate::auth::{
    AuthCapability, AuthOpToken, AuthPolicyOutcome, AuthSendCompletion, AuthSignerOutcome,
};
use crate::core_observations::undeclared;
use crate::core_state::{CoreState, RelayHealth};
use crate::diagnostics::maybe_text;
use crate::ids::{
    AuthCapabilityInstance, EventId, HandleId, ObservationId, PublicKey, ReceiptId, Relay, RelaySessionKey,
    TransportRelayHandle,
};
use crate::key::{lemma_listing_exists, lemma_listing_members, lemma_listing_of, listing_of, Key};
use crate::planned_reads::RelayInformationCapabilityEvidence;
use crate::session_registry::SessionRegistry;
use crate::sorted::SortedSet;

verus! {

/// A message to the engine. Queries, write intents, frames and the like are named
/// by numbers: the executor holds them.
pub enum EngineMsg {
    Subscribe(u64),
    FlushWireAdmission(u64),
    Unsubscribe(ObservationId),
    SubscribeHistory(u64),
    RequestRows(u64, usize),
    CommitHistoryLoad(u64),
    RollbackHistoryLoad(u64),
    UnsubscribeHistory(u64),
    SetActivePubkey(Option<PublicKey>),
    Publish(u64),
    RelayConnected(TransportRelayHandle, RelaySessionKey),
    AuthProbeReleased(TransportRelayHandle, RelaySessionKey),
    RelayInformationResolved(Relay, Option<RelayInformationCapabilityEvidence>),
    RelayDisconnected(TransportRelayHandle, RelaySessionKey, u64),
    RelayHealth(TransportRelayHandle, RelaySessionKey, RelayHealth),
    RelayOpenFailed(RelaySessionKey, String),
    RelayFrame(TransportRelayHandle, RelaySessionKey, u64),
    RelayFrames(Vec<(TransportRelayHandle, RelaySessionKey, u64)>),
    SignerCompleted(ReceiptId, u64, Option<EventId>),
    SignerUnavailable(ReceiptId, u64),
    SignerAttached(PublicKey),
    AuthPolicyCompleted(AuthOpToken, Option<AuthCapabilityInstance>, AuthPolicyOutcome),
    AuthSignerCompleted(AuthOpToken, Option<AuthCapabilityInstance>, AuthSignerOutcome),
    AuthCapabilityBound { token: AuthOpToken, capability: AuthCapability, instance: AuthCapabilityInstance },
    AuthSendCompleted(AuthSendCompletion),
    AuthCapabilityInvalidated(PublicKey, AuthCapability, AuthCapabilityInstance),
    CancelWrite(ReceiptId),
    EventHandoff(u64, u64),
    Tick(u64),
}

/// What a message asks of the executor.
pub enum Reaction {
    Nothing,
    /// Do what the message says.
    Perform(EngineMsg),
    /// Tell the diagnostics. Where a session is named, forget what it has
    /// returned so far.
    TellDiagnostics { erase: Option<RelaySessionKey> },
    /// Tell the diagnostics, and read every observation and every history anew.
    RefreshEverything,
    /// Tell an observation that it is withdrawn, as its last fact with this
    /// number, and release its branches.
    Release { id: ObservationId, branches: Vec<HandleId>, sequence: u64 },
    /// Do what is due.
    Maintain,
}

/// What is told at the end of a turn.
#[derive(Clone, Copy, Debug, PartialEq, Eq, Structural)]
pub enum ClosingEffect {
    /// The diagnostics have changed.
    DiagnosticsChanged,
    /// Here are the diagnostics.
    EmitDiagnostics,
}

/// One step of doing what is due.
#[derive(Clone, Copy, Debug, PartialEq, Eq, Structural)]
pub enum MaintenanceStep {
    /// Write down the claims that wait.
    RetryClaimTransfers(u64),
    /// Send the requests again that were refused.
    RetryRequests(u64),
    /// Resolve the routes of writes that are not complete.
    RewriteOpenRoutes,
    /// Do what is due of the publications.
    ConsumePublishDeadlines(u64),
    /// Take away the rows that have expired.
    ExpireRows(u64),
}

/// One step after the account was changed.
#[derive(Clone, Copy, Debug, PartialEq, Eq, Structural)]
pub enum AccountStep {
    Reconcile(HandleId),
    Recompile,
    SignerAttached(PublicKey),
}

/// What follows once the resolver has taken on another account.
pub open spec fn account_steps(handles: Set<HandleId>, account: Option<PublicKey>) -> Seq<AccountStep> {
    let reconciled = listing_of(handles).map_values(|h: HandleId| AccountStep::Reconcile(h)).push(
        AccountStep::Recompile,
    );
    match account {
        Some(pk) => reconciled.push(AccountStep::SignerAttached(pk)),
        None => reconciled,
    }
}

impl CoreState {
    /// Takes in one message. `planned` are the sessions that the plan reads from.
    pub fn handle(&mut self, msg: EngineMsg, planned: &SortedSet<RelaySessionKey>) -> (r: Reaction)
        requires
            old(self).targets.wf(),
        ensures
            final(self).targets.wf(),
            match msg {
                EngineMsg::FlushWireAdmission(now) => {
                    &&& *final(self) == (CoreState { clock: now, ..*old(self) })
                    &&& r == Reaction::Perform(msg)
                },
                EngineMsg::Tick(now) => {
                    &&& *final(self) == (CoreState { clock: now, ..*old(self) })
                    &&& r is Maintain
                },
                EngineMsg::SetActivePubkey(pk) => {
                    &&& *final(self) == (CoreState { active_pubkey: pk, ..*old(self) })
                    &&& r == Reaction::Perform(msg)
                },
                EngineMsg::RelayHealth(handle, session, health) => if old(self).sessions.occupies(
                    handle,
                    session,
                ) {
                    &&& *final(self) == (CoreState {
                        transport_degraded: final(self).transport_degraded,
                        ..*old(self)
                    })
                    &&& maybe_text(final(self).transport_degraded) == CoreState::health_text(handle, health)
                    &&& r == (Reaction::TellDiagnostics {
                        erase: if health.invalid_signature_count > 0 || health.undecodable_frame_count > 0
                            || health.last_error is Some {
                            Some(session)
                        } else {
                            None
                        },
                    })
                } else {
                    r is Nothing && *final(self) == *old(self)
                },
                EngineMsg::RelayOpenFailed(session, reason) => if old(self).required(planned@).contains(
                    session,
                ) {
                    &&& *final(self) == (CoreState { sessions: final(self).sessions, ..*old(self) })
                    &&& final(self).sessions == (SessionRegistry {
                        relay_open_failures: final(self).sessions.relay_open_failures,
                        ..old(self).sessions
                    })
                    &&& final(self).sessions.relay_open_failures@
                        == old(self).sessions.relay_open_failures@.insert(session, reason)
                    &&& r is RefreshEverything
                } else {
                    r is Nothing && *final(self) == *old(self)
                },
                EngineMsg::Unsubscribe(id) => {
                    let state = old(self).observations.observations@[id];
                    &&& *final(self) == (CoreState {
                        targets: final(self).targets,
                        observations: final(self).observations,
                        ..*old(self)
                    })
                    &&& final(self).observations.next_observation_id
                        == old(self).observations.next_observation_id
                    &&& final(self).observations.observations@ == old(self).observations.observations@.remove(id)
                    &&& if old(self).observations.observations@.contains_key(id) {
                        &&& r matches Reaction::Release { id: told, branches, sequence } && told == id
                            && branches == state.branches && sequence == (if state.next_sequence
                            == u64::MAX {
                            u64::MAX
                        } else {
                            (state.next_sequence + 1) as u64
                        })
                        &&& final(self).observations.handles@
                            == old(self).observations.handles@.remove_keys(state.branches@.to_set())
                        &&& final(self).targets.declared() == undeclared(
                            old(self).targets.declared(),
                            state.branches@,
                        )
                        &&& final(self).targets.active() == undeclared(
                            old(self).targets.active(),
                            state.branches@,
                        )
                    } else {
                        &&& r is Nothing
                        &&& final(self).observations.handles@ == old(self).observations.handles@
                        &&& final(self).targets == old(self).targets
                    }
                },
                _ => r == Reaction::Perform(msg) && *final(self) == *old(self),
            },
    {
        match msg {
            EngineMsg::FlushWireAdmission(now) => {
                self.advance_clock(now);
                Reaction::Perform(EngineMsg::FlushWireAdmission(now))
            },
            EngineMsg::Tick(now) => {
                self.advance_clock(now);
                Reaction::Maintain
            },
            EngineMsg::SetActivePubkey(pk) => {
                self.active_pubkey = pk;
                Reaction::Perform(EngineMsg::SetActivePubkey(pk))
            },
            EngineMsg::RelayHealth(handle, session, health) => {
                match self.on_relay_health(handle, session, health) {
                    None => Reaction::Nothing,
                    Some(true) => Reaction::TellDiagnostics { erase: Some(session) },
                    Some(false) => Reaction::TellDiagnostics { erase: None },
                }
            },
            EngineMsg::RelayOpenFailed(session, reason) => {
                if self.on_relay_open_failed(session, reason, planned) {
                    Reaction::RefreshEverything
                } else {
                    Reaction::Nothing
                }
            },
            EngineMsg::Unsubscribe(id) => match self.on_unsubscribe(&id) {
                Some((branches, sequence)) => Reaction::Release { id, branches, sequence },
                None => Reaction::Nothing,
            },
            other => Reaction::Perform(other),
        }
    }

    /// Ends a turn. What is known of sessions that nothing needs any more is
    /// forgotten. `stalled_changed` says whether other writes are stuck than
    /// before.
    pub fn close_turn(&mut self, stalled_changed: bool, planned: &SortedSet<RelaySessionKey>) -> (r: Vec<ClosingEffect>)
        ensures
            ({
                let failures = old(self).sessions.relay_open_failures@;
                let keep = old(self).required(planned@);
                &&& *final(self) == (CoreState { sessions: final(self).sessions, ..*old(self) })
                &&& final(self).sessions == (SessionRegistry {
                    relay_open_failures: final(self).sessions.relay_open_failures,
                    auth_required_sessions: final(self).sessions.auth_required_sessions,
                    ..old(self).sessions
                })
                &&& final(self).sessions.relay_open_failures@ == failures.restrict(keep)
                &&& final(self).sessions.auth_required_sessions@
                    == old(self).sessions.auth_required_sessions@.intersect(keep)
                &&& r@ == (if stalled_changed {
                    seq![ClosingEffect::DiagnosticsChanged]
                } else {
                    Seq::<ClosingEffect>::empty()
                }) + (if failures != failures.restrict(keep) {
                    seq![ClosingEffect::EmitDiagnostics]
                } else {
                    Seq::<ClosingEffect>::empty()
                })
            }),
    {
        let mut r: Vec<ClosingEffect> = Vec::new();
        if stalled_changed {
            r.push(ClosingEffect::DiagnosticsChanged);
        }
        assert(r@ =~= (if stalled_changed {
            seq![ClosingEffect::DiagnosticsChanged]
        } else {
            Seq::<ClosingEffect>::empty()
        }));
        let ghost first = r@;
        if self.prune_unowned_relay_state(planned) {
            r.push(ClosingEffect::EmitDiagnostics);
            assert(r@ =~= first + seq![ClosingEffect::EmitDiagnostics]);
        } else {
            assert(r@ =~= first + Seq::<ClosingEffect>::empty());
        }
        r
    }

    /// When publications that wait for the answer to a read are looked at again
    /// at the end of a turn: at the time of the turn, where any waits.
    pub fn wake_parked(&self, any_parked: bool) -> (r: Option<u64>)
        ensures
            r == (if any_parked {
                Some(self.clock)
            } else {
                None
            }),
    {
        if any_parked {
            Some(self.clock)
        } else {
            None
        }
    }

    /// What is due at a tick, in order. Routes are resolved before publications
    /// are looked at, so that a route that is new makes progress in the same
    /// tick.
    pub fn tick(&mut self, now: u64) -> (r: Vec<MaintenanceStep>)
        ensures
            *final(self) == (CoreState { clock: now, ..*old(self) }),
            r@ == seq![
                MaintenanceStep::RetryClaimTransfers(now),
                MaintenanceStep::RetryRequests(now),
                MaintenanceStep::RewriteOpenRoutes,
                MaintenanceStep::ConsumePublishDeadlines(now),
                MaintenanceStep::ExpireRows(now),
            ],
    {
        self.clock = now;
        let mut r: Vec<MaintenanceStep> = Vec::new();
        r.push(MaintenanceStep::RetryClaimTransfers(now));
        r.push(MaintenanceStep::RetryRequests(now));
        r.push(MaintenanceStep::RewriteOpenRoutes);
        r.push(MaintenanceStep::ConsumePublishDeadlines(now));
        r.push(MaintenanceStep::ExpireRows(now));
        r
    }

    /// Takes on another account. `resolved` says whether the resolver took it on
    /// too; where it did not, nothing follows.
    pub fn on_set_active_pubkey(&mut self, account: Option<PublicKey>, resolved: bool) -> (r: Vec<AccountStep>)
        ensures
            *final(self) == (CoreState { active_pubkey: account, ..*old(self) }),
            r@ == (if resolved {
                account_steps(old(self).observations.handles@.dom(), account)
            } else {
                Seq::<AccountStep>::empty()
            }),
    {
        self.active_pubkey = account;
        let mut r: Vec<AccountStep> = Vec::new();
        if !resolved {
            return r;
        }
        let handles = self.observations.handles.key_list();
        proof {
            lemma_listing_of(handles@, self.observations.handles@.dom());
        }
        let mut i: usize = 0;
        while i < handles.len()
            invariant
                i <= handles@.len(),
                r@.len() == i,
                forall|j: int| 0 <= j < i ==> (#[trigger] r@[j]) == AccountStep::Reconcile(handles@[j]),
            decreases handles@.len() - i,
        {
            r.push(AccountStep::Reconcile(handles[i]));
            i = i + 1;
        }
        assert(r@ =~= handles@.map_values(|h: HandleId| AccountStep::Reconcile(h)));
        r.push(AccountStep::Recompile);
        if let Some(pk) = account {
            r.push(AccountStep::SignerAttached(pk));
        }
        r
    }
}

/// After a change of account every branch is reconciled once, in rising order, then
/// everything is planned anew, once; and last of all the signer of the new account is
/// attached, where there is one.
pub proof fn account_change_reaches_every_branch(handles: Set<HandleId>, account: Option<PublicKey>, h: HandleId)
    requires
        handles.finite(),
    ensures
        ({
            let q = account_steps(handles, account);
            let n = handles.len() as int;
            &&& q.contains(AccountStep::Reconcile(h)) <==> handles.contains(h)
            &&& q.no_duplicates()
            &&& q[n] == AccountStep::Recompile
            &&& account matches Some(pk) ==> q.len() == n + 2 && q[n + 1] == AccountStep::SignerAttached(pk)
            &&& account is None ==> q.len() == n + 1
            &&& forall|i: int, j: int|
                0 <= i < j < n ==> #[trigger] q[i] is Reconcile && #[trigger] q[j] is Reconcile
                    && q[i]->Reconcile_0.0 < q[j]->Reconcile_0.0
            &&& forall|i: int| 0 <= i < n ==> #[trigger] q[i] is Reconcile
        }),
{
    lemma_listing_exists(handles);
    let p = listing_of(handles);
    lemma_listing_members(p, handles);
    let q = account_steps(handles, account);
    let n = handles.len() as int;
    assert forall|i: int| 0 <= i < n implies #[trigger] q[i] == AccountStep::Reconcile(p[i]) by {}
    assert forall|i: int, j: int| 0 <= i < j < n implies #[trigger] q[i] is Reconcile && #[trigger] q[j] is Reconcile
        && q[i]->Reconcile_0.0 < q[j]->Reconcile_0.0 by {
        assert(p[i].rank() < p[j].rank());
    }
    if handles.contains(h) {
        assert(p.contains(h));
        let i = choose|i: int| 0 <= i < p.len() && p[i] == h;
        assert(q[i] == AccountStep::Reconcile(h));
    }
    if q.contains(AccountStep::Reconcile(h)) {
        let i = choose|i: int| 0 <= i < q.len() && q[i] == AccountStep::Reconcile(h);
        assert(p.contains(p[i]));
    }
    assert forall|i: int, j: int| 0 <= i < q.len() && 0 <= j < q.len() && i != j implies q[i] != q[j] by {
        if i < n && j < n {
            assert(p[i] != p[j]);
        }
    }
}

} // verus!
