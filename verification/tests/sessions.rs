//! Transport sessions, authentication, diagnostics, and the turns of the engine.

use nmp_engine::auth::{
    AuthDenialSource, AuthEpoch, AuthOpToken, AuthPolicyOutcome, AuthSendCompletion, AuthSendOutcome,
    AuthSessionPhase, AuthSessionState,
};
use nmp_engine::core_state::{CoreState, RelayHealth};
use nmp_engine::diagnostics::{transport_degraded, AuthDiagnosticsPhase};
use nmp_engine::evidence::{HandleAcquisition, ScopeAcquisition};
use nmp_engine::ids::{
    AuthCapabilityInstance, DemandKey, EventId, HandleId, ObservationId, PublicKey, ReceiptId, Relay,
    RelaySessionKey, TransportRelayHandle,
};
use nmp_engine::opening::{ObservationOpen, OpenedBranch, OpeningAction, OpeningEvent};
use nmp_engine::planned_reads::{AdvertisedRelayLimits, RelayInformationCapabilityEvidence};
use nmp_engine::request_targets::ActiveRequestTarget;
use nmp_engine::routing_facts::RoutingFactStore;
use nmp_engine::session_registry::{next_auth_date, AuthTransition, SessionRegistry, WriteGate};
use nmp_engine::sorted::{SortedMap, SortedSet};
use nmp_engine::turns::{AccountStep, ClosingEffect, EngineMsg, MaintenanceStep, Reaction};
use nmp_engine::wire_admission::{
    recompile, reconcile_pending_wire_cohort, refresh_pending_wire_atoms, release_wire_atom_owner,
    retain_wire_atom_owner, withdraw_wire_demand, AdmissionVerdict, AtomReleased, AtomRetained,
    PlanTurnStep,
};

const HANDLE: TransportRelayHandle = TransportRelayHandle { slot: 3, generation: 1 };

fn account() -> PublicKey {
    let bytes = nostr::Keys::parse("0000000000000000000000000000000000000000000000000000000000000003")
        .unwrap()
        .public_key()
        .to_bytes();
    let number = |part: &[u8]| part.iter().fold(0u128, |n, byte| (n << 8) | u128::from(*byte));
    PublicKey { hi: number(&bytes[..16]), lo: number(&bytes[16..]) }
}

fn protected() -> RelaySessionKey {
    RelaySessionKey::new(Relay(1), Some(account()))
}

fn token() -> AuthOpToken {
    AuthOpToken { epoch: AuthEpoch { handle: HANDLE, session: protected(), sequence: 1 }, sequence: 1 }
}

/// A registry with one challenged session whose policy is asked.
fn challenged(challenge: &str) -> SessionRegistry {
    let mut sessions = SessionRegistry::new();
    sessions.claim_slot(HANDLE, &protected(), false);
    let epoch = sessions.mint_auth_epoch(HANDLE, &protected()).unwrap();
    assert_eq!(epoch, token().epoch);
    let operation = sessions.mint_auth_operation(&epoch).unwrap();
    assert_eq!(operation, token());
    sessions.auth_sessions.insert(
        protected(),
        AuthSessionState {
            epoch,
            challenge: challenge.to_owned(),
            last_created_at: None,
            policy_instance: Some(AuthCapabilityInstance(9)),
            signer_instance: None,
            phase: AuthSessionPhase::AwaitingPolicy { token: operation },
        },
    );
    sessions
}

/// The addresses of two relays, the first of which is that of the session.
fn addresses(first: &str) -> SortedMap<Relay, String> {
    let mut map = SortedMap::new();
    map.insert(Relay(1), first.to_owned());
    map.insert(Relay(2), "wss://other.example".to_owned());
    map
}

fn complete(sessions: &mut SessionRegistry, outcome: AuthPolicyOutcome, relay: &str) -> AuthTransition {
    let known = addresses(relay);
    sessions.apply_policy_completion(token(), Some(AuthCapabilityInstance(9)), outcome, 1000, &known)
}

#[test]
fn an_allowed_challenge_asks_for_the_signature_of_its_exact_event() {
    let mut sessions = challenged("abc");
    match complete(&mut sessions, AuthPolicyOutcome::Allow, "wss://relay.example") {
        AuthTransition::SignatureRequested { token: sign, unsigned } => {
            assert_eq!(sign.epoch, token().epoch);
            assert_eq!(sign.sequence, 2);
            assert_eq!(unsigned.kind, 22242);
            assert_eq!(unsigned.pubkey, account());
            assert_eq!(unsigned.created_at, 1000);
            assert_eq!(unsigned.content, "");
            assert_eq!(unsigned.tags[0], vec!["challenge".to_owned(), "abc".to_owned()]);
            assert_eq!(unsigned.tags[1], vec!["relay".to_owned(), "wss://relay.example".to_owned()]);
            let keys =
                nostr::Keys::parse("0000000000000000000000000000000000000000000000000000000000000003")
                    .unwrap();
            let url = nostr::RelayUrl::parse("wss://relay.example").unwrap();
            let outside = nostr::EventBuilder::auth("abc", url)
                .custom_created_at(nostr::Timestamp::from(1000u64))
                .build(keys.public_key());
            let bytes = outside.id.unwrap().to_bytes();
            let number = |part: &[u8]| part.iter().fold(0u128, |n, byte| (n << 8) | u128::from(*byte));
            assert_eq!(unsigned.id, EventId { hi: number(&bytes[..16]), lo: number(&bytes[16..]) });
        }
        _ => panic!("the signature is asked for"),
    }
    let state = sessions.auth_sessions.get(&protected()).unwrap();
    assert_eq!(state.last_created_at, Some(1000));
    assert!(matches!(state.phase, AuthSessionPhase::AwaitingSignature { .. }));
}

#[test]
fn a_refused_policy_is_final_and_an_error_is_not_a_refusal() {
    let mut sessions = challenged("abc");
    let no = AuthPolicyOutcome::Deny { reason: "not here".to_owned() };
    match complete(&mut sessions, no, "wss://relay.example") {
        AuthTransition::Denied { session, source, reason } => {
            assert_eq!(session, protected());
            assert_eq!(source, AuthDenialSource::Policy);
            assert_eq!(reason, "not here");
        }
        _ => panic!("denied"),
    }

    for (outcome, relay) in [
        (AuthPolicyOutcome::Unavailable, "wss://relay.example"),
        (AuthPolicyOutcome::Error { reason: "broken".to_owned() }, "wss://relay.example"),
        (AuthPolicyOutcome::Allow, "no relay at all"),
    ] {
        let mut sessions = challenged("abc");
        assert!(matches!(complete(&mut sessions, outcome, relay), AuthTransition::Errored { .. }));
        let state = sessions.auth_sessions.get(&protected()).unwrap();
        assert!(matches!(state.phase, AuthSessionPhase::Error));
    }
}

#[test]
fn a_completion_of_another_epoch_or_instance_changes_nothing() {
    let mut sessions = challenged("abc");
    let mut stale = token();
    stale.sequence = 7;
    let other = sessions.apply_policy_completion(
        stale,
        Some(AuthCapabilityInstance(9)),
        AuthPolicyOutcome::Allow,
        1000,
        &addresses("wss://relay.example"),
    );
    assert!(matches!(other, AuthTransition::NoChange));
    let other = sessions.apply_policy_completion(
        token(),
        Some(AuthCapabilityInstance(10)),
        AuthPolicyOutcome::Allow,
        1000,
        &addresses("wss://relay.example"),
    );
    assert!(matches!(other, AuthTransition::NoChange));
    sessions.mark_disconnected(&protected());
    let late = complete(&mut sessions, AuthPolicyOutcome::Allow, "wss://relay.example");
    assert!(matches!(late, AuthTransition::NoChange));
}

#[test]
fn dates_and_sequences_rise() {
    assert_eq!(next_auth_date(None, 50), Some(50));
    assert_eq!(next_auth_date(Some(50), 50), Some(51));
    assert_eq!(next_auth_date(Some(649), 50), Some(650));
    assert_eq!(next_auth_date(Some(650), 50), None);
    assert_eq!(next_auth_date(Some(u64::MAX), 50), None);
    let mut next = Some(u64::MAX - 1);
    assert_eq!(SessionRegistry::mint_auth_sequence(&mut next), Some(u64::MAX - 1));
    assert_eq!(SessionRegistry::mint_auth_sequence(&mut next), None);
}

#[test]
fn a_send_is_completed_for_its_exact_operation() {
    let end = AuthSendCompletion::for_operation(&token(), AuthSendOutcome::Accepted);
    assert_eq!(end.handle, HANDLE);
    assert_eq!(end.session, protected());
    assert_eq!(end.operation, 1);
}

#[test]
fn slots_are_claimed_displaced_and_released() {
    let mut sessions = SessionRegistry::new();
    let public = RelaySessionKey::unauthenticated(Relay(1));
    sessions.claim_slot(HANDLE, &public, false);
    assert!(sessions.is_connected(&public));
    assert!(sessions.same_slot_owner(HANDLE, &public));
    let next = TransportRelayHandle { slot: 3, generation: 2 };
    assert!(!sessions.is_stale_generation(next));
    assert_eq!(sessions.validated_occupant(next, &public), None);
    assert_eq!(sessions.validated_occupant(HANDLE, &public), Some(public));
    sessions.claim_slot(next, &protected(), false);
    assert!(sessions.is_stale_generation(HANDLE));
    assert_eq!(sessions.write_gate(&protected()), WriteGate::AwaitingProbe);
}

#[test]
fn diagnostics_tell_the_hash_of_a_challenge() {
    let mut sessions = challenged("abc");
    let other = RelaySessionKey::new(Relay(2), Some(account()));
    sessions.claim_slot(TransportRelayHandle { slot: 8, generation: 4 }, &other, false);
    sessions.claim_slot(
        TransportRelayHandle { slot: 9, generation: 1 },
        &RelaySessionKey::unauthenticated(Relay(2)),
        false,
    );
    let rows = sessions.auth_diagnostics();
    assert_eq!(rows.len(), 2);
    let row = rows.get(&protected()).unwrap();
    assert_eq!(row.phase, AuthDiagnosticsPhase::AwaitingPolicy);
    assert_eq!(
        row.challenge_hash.as_deref(),
        Some("6437b3ac38465133ffb63b75273a8db548c558465d79db03fd359c6cd5bd9d85")
    );
    assert_eq!(row.epoch_sequence, Some(1));
    assert!(row.policy_bound);
    assert!(!row.signer_bound);
    let row = rows.get(&other).unwrap();
    assert_eq!(row.phase, AuthDiagnosticsPhase::AwaitingChallenge);
    assert_eq!(row.transport_slot, 8);
    assert_eq!(row.transport_generation, 4);
    assert_eq!(row.challenge_hash, None);

    let mut denied = challenged("");
    complete(&mut denied, AuthPolicyOutcome::Deny { reason: "no".to_owned() }, "");
    let rows = denied.auth_diagnostics();
    let row = rows.get(&protected()).unwrap();
    assert_eq!(row.phase, AuthDiagnosticsPhase::Denied);
    assert_eq!(row.challenge_hash, None);
    assert_eq!(row.denial_source, Some(AuthDenialSource::Policy));
    assert_eq!(row.denial_reason.as_deref(), Some("no"));
}

fn fresh_core() -> CoreState {
    CoreState::new_with_routing_facts(RoutingFactStore::new(Vec::new(), Vec::new()), 20, 8)
}

fn no_plan() -> SortedSet<RelaySessionKey> {
    SortedSet::new()
}

#[test]
fn a_health_report_counts_only_for_the_occupant() {
    let mut core = fresh_core();
    let public = RelaySessionKey::unauthenticated(Relay(1));
    core.sessions.claim_slot(HANDLE, &public, false);
    let report = |invalid: u64, error: Option<&str>| RelayHealth {
        invalid_signature_count: invalid,
        undecodable_frame_count: 0,
        last_error: error.map(|text| text.to_owned()),
    };
    let bad = EngineMsg::RelayHealth(HANDLE, public, report(12, None));
    match core.handle(bad, &no_plan()) {
        Reaction::TellDiagnostics { erase } => assert_eq!(erase, Some(public)),
        _ => panic!("told"),
    }
    assert_eq!(
        core.transport_degraded.as_deref(),
        Some("relay slot 3 rejected 12 invalid signature frame(s)")
    );
    let other = TransportRelayHandle { slot: 3, generation: 2 };
    let late = EngineMsg::RelayHealth(other, public, report(0, Some("late")));
    assert!(matches!(core.handle(late, &no_plan()), Reaction::Nothing));
    let broken = EngineMsg::RelayHealth(HANDLE, public, report(1, Some("broken")));
    core.handle(broken, &no_plan());
    assert_eq!(core.transport_degraded.as_deref(), Some("broken"));
    let fine = EngineMsg::RelayHealth(HANDLE, public, report(0, None));
    match core.handle(fine, &no_plan()) {
        Reaction::TellDiagnostics { erase } => assert_eq!(erase, None),
        _ => panic!("told"),
    }
    assert_eq!(core.transport_degraded, None);
}

#[test]
fn a_failure_to_open_counts_only_while_the_session_is_needed() {
    let mut core = fresh_core();
    let public = RelaySessionKey::unauthenticated(Relay(1));
    let mut plan = SortedSet::new();
    plan.insert(public);
    let failed = || EngineMsg::RelayOpenFailed(public, "refused".to_owned());
    assert!(matches!(core.handle(failed(), &no_plan()), Reaction::Nothing));
    assert!(core.sessions.first_open_failure().is_none());
    assert!(matches!(core.handle(failed(), &plan), Reaction::RefreshEverything));
    let (session, reason) = core.sessions.first_open_failure().unwrap();
    assert_eq!(session, public);
    assert_eq!(reason, "refused");
    assert_eq!(
        transport_degraded(Some(("wss://relay.example", reason.as_str())), &Some("other".to_owned())),
        Some("wss://relay.example: refused".to_owned())
    );
    assert_eq!(transport_degraded(None, &Some("other".to_owned())), Some("other".to_owned()));

    assert!(core.close_turn(false, &plan).is_empty());
    assert!(core.sessions.first_open_failure().is_some());
    assert_eq!(
        core.close_turn(true, &no_plan()),
        vec![ClosingEffect::DiagnosticsChanged, ClosingEffect::EmitDiagnostics]
    );
    assert!(core.sessions.first_open_failure().is_none());
    assert!(core.close_turn(false, &no_plan()).is_empty());
}

#[test]
fn turns_keep_the_clock_and_the_account() {
    let mut core = fresh_core();
    assert!(matches!(core.handle(EngineMsg::Tick(77), &no_plan()), Reaction::Maintain));
    assert_eq!(core.clock, 77);
    assert_eq!(
        core.tick(78),
        vec![
            MaintenanceStep::RetryClaimTransfers(78),
            MaintenanceStep::RetryRequests(78),
            MaintenanceStep::RewriteOpenRoutes,
            MaintenanceStep::ConsumePublishDeadlines(78),
            MaintenanceStep::ExpireRows(78),
        ]
    );
    assert_eq!(core.wake_parked(true), Some(78));
    assert_eq!(core.wake_parked(false), None);
    assert!(matches!(
        core.handle(EngineMsg::Subscribe(4), &no_plan()),
        Reaction::Perform(EngineMsg::Subscribe(4))
    ));

    core.observations.take_on(
        vec![HandleId(9), HandleId(2)],
        vec![
            HandleAcquisition { scopes: vec![ScopeAcquisition::Live] },
            HandleAcquisition { scopes: vec![ScopeAcquisition::CacheOnly] },
        ],
        &vec![false, false],
        None,
    );
    assert!(core.on_set_active_pubkey(Some(account()), false).is_empty());
    assert_eq!(core.active_pubkey, Some(account()));
    assert_eq!(
        core.on_set_active_pubkey(Some(account()), true),
        vec![
            AccountStep::Reconcile(HandleId(2)),
            AccountStep::Reconcile(HandleId(9)),
            AccountStep::Recompile,
            AccountStep::SignerAttached(account()),
        ]
    );
    match core.handle(EngineMsg::Unsubscribe(ObservationId(0)), &no_plan()) {
        Reaction::Release { branches, sequence, .. } => {
            assert_eq!(branches, vec![HandleId(9), HandleId(2)]);
            assert_eq!(sequence, 1);
        }
        _ => panic!("released"),
    }
    assert!(matches!(
        core.handle(EngineMsg::Unsubscribe(ObservationId(0)), &no_plan()),
        Reaction::Nothing
    ));
}

#[test]
fn the_next_deadline_is_the_earliest() {
    let core = fresh_core();
    assert_eq!(core.next_deadline(None, None), None);
    assert_eq!(core.next_deadline(Some(9), None), Some(9));
    assert_eq!(core.next_deadline(Some(9), Some(4)), Some(4));
}

#[test]
fn zero_attempts_stand_for_the_default() {
    assert_eq!(fresh_core().with_max_publish_attempts(0).max_publish_attempts, 8);
    assert_eq!(fresh_core().with_max_publish_attempts(3).max_publish_attempts, 3);
}

#[test]
fn a_relay_document_is_told_of_its_public_session_only() {
    let mut core = fresh_core();
    core.reads.set_information(
        Relay(1),
        RelayInformationCapabilityEvidence {
            supported_nips: Some(vec![1, 77]),
            max_subscriptions: Some(20),
            max_subid_length: Some(u64::MAX),
            document_revision: "r1".to_owned(),
            fresh_until: 100,
            last_error: None,
        },
    );
    let public = RelaySessionKey::unauthenticated(Relay(1));
    let told = core.reads.nip11_diagnostics(&public, 99).unwrap();
    assert_eq!(told.supported_nips, Some(vec![1, 77]));
    assert_eq!(told.freshness, "fresh");
    assert_eq!(told.document_revision, "r1");
    assert_eq!(core.reads.nip11_diagnostics(&public, 100).unwrap().freshness, "stale");
    assert!(core.reads.nip11_diagnostics(&protected(), 99).is_none());
    let budget = core.reads.compile_budget();
    assert_eq!(
        budget.get(&Relay(1)),
        Some(&AdvertisedRelayLimits {
            max_subscriptions: Some(20),
            max_subid_length: Some(usize::MAX),
        })
    );
}

#[test]
fn demands_wait_for_the_wire_until_they_are_served() {
    let atom = AtomRetained {
        first_owner: true,
        evidence_grew: false,
        covered: false,
        incomplete: true,
        waiting: false,
    };
    assert_eq!(retain_wire_atom_owner(atom), AdmissionVerdict::Wait);
    assert_eq!(
        retain_wire_atom_owner(AtomRetained { covered: true, ..atom }),
        AdmissionVerdict::Served
    );
    assert_eq!(
        retain_wire_atom_owner(AtomRetained { first_owner: false, ..atom }),
        AdmissionVerdict::Unchanged
    );
    assert_eq!(
        retain_wire_atom_owner(AtomRetained { first_owner: false, evidence_grew: true, ..atom }),
        AdmissionVerdict::Wait
    );
    assert_eq!(
        release_wire_atom_owner(AtomReleased::Ownerless { final_atom: 4 }),
        (Some(4), AdmissionVerdict::Unchanged)
    );
    assert_eq!(
        release_wire_atom_owner(AtomReleased::Survived { waiting: true }),
        (None, AdmissionVerdict::Wait)
    );
    assert_eq!(release_wire_atom_owner(AtomReleased::Unowned), (None, AdmissionVerdict::Unchanged));

    let mut limited = SortedSet::new();
    limited.insert(DemandKey(2));
    let cohort = vec![DemandKey(3), DemandKey(2), DemandKey(1)];
    assert_eq!(
        reconcile_pending_wire_cohort(&cohort, &limited),
        vec![DemandKey(3), DemandKey(1)]
    );
    let mut live = SortedMap::new();
    live.insert(DemandKey(1), 10u64);
    live.insert(DemandKey(2), 20u64);
    let waiting = refresh_pending_wire_atoms(&live, &limited);
    assert_eq!(waiting.key_list(), vec![DemandKey(2)]);
}

#[test]
fn nothing_is_sent_before_everything_is_told() {
    assert_eq!(recompile().last(), Some(&PlanTurnStep::SendWire));
    let mut core = fresh_core();
    assert!(core.flush_wire_admission(5, None).is_empty());
    assert_eq!(core.clock, 5);
    let steps = core.flush_wire_admission(6, Some(true));
    assert_eq!(steps.len(), 7);
    assert_eq!(steps[2], PlanTurnStep::TellDiagnosticsChanged);
    assert_eq!(steps.last(), Some(&PlanTurnStep::SendWire));
    assert_eq!(
        withdraw_wire_demand(false, false, false, false),
        vec![PlanTurnStep::ApplyMetadataRemovals]
    );
    assert_eq!(
        withdraw_wire_demand(false, false, false, true),
        vec![PlanTurnStep::ApplyMetadataRemovals, PlanTurnStep::ArmAdmission]
    );
    assert_eq!(
        withdraw_wire_demand(true, false, true, false),
        vec![
            PlanTurnStep::ApplyMetadataRemovals,
            PlanTurnStep::ApplyPlanDelta,
            PlanTurnStep::SendWire,
            PlanTurnStep::TellDiagnosticsChanged,
            PlanTurnStep::RefreshChangedEvidence,
        ]
    );
}

#[test]
fn a_session_whose_relay_has_no_address_cannot_authenticate() {
    let mut sessions = challenged("abc");
    let nowhere = SortedMap::new();
    let end = sessions.apply_policy_completion(
        token(),
        Some(AuthCapabilityInstance(9)),
        AuthPolicyOutcome::Allow,
        1000,
        &nowhere,
    );
    assert!(matches!(end, AuthTransition::Errored { .. }));
}

#[test]
fn the_snapshot_tells_everything_at_once() {
    let mut core = fresh_core();
    core.sessions = challenged("abc");
    core.clock = 99;
    core.transport_degraded = Some("slow".to_owned());
    core.reads.set_information(
        Relay(1),
        RelayInformationCapabilityEvidence {
            supported_nips: None,
            max_subscriptions: None,
            max_subid_length: None,
            document_revision: "r1".to_owned(),
            fresh_until: 100,
            last_error: Some("timeout".to_owned()),
        },
    );
    let public = RelaySessionKey::unauthenticated(Relay(1));
    let planned = vec![public, protected()];
    let known = addresses("wss://relay.example");
    let told = core.diagnostics_snapshot(&planned, vec![ReceiptId(6)], 3, &known);
    assert_eq!(told.transport_degraded.as_deref(), Some("slow"));
    assert_eq!(told.auth_sessions.key_list(), vec![protected()]);
    assert_eq!(told.stalled_writes, vec![ReceiptId(6)]);
    assert_eq!(told.stalled_write_total, 3);
    assert_eq!(told.relays.len(), 2);
    let document = told.relays[0].nip11.as_ref().unwrap();
    assert_eq!(document.freshness, "fresh");
    assert_eq!(document.last_error.as_deref(), Some("timeout"));
    assert!(told.relays[1].nip11.is_none());

    core.sessions.relay_open_failures.insert(public, "refused".to_owned());
    let told = core.diagnostics_snapshot(&planned, Vec::new(), 0, &known);
    assert_eq!(told.transport_degraded.as_deref(), Some("wss://relay.example: refused"));
}

#[test]
fn a_fresh_engine_can_issue_its_first_epoch() {
    let mut core = fresh_core();
    assert_eq!(core.sessions.next_auth_epoch, Some(1));
    assert_eq!(core.sessions.next_auth_operation, Some(1));
    assert!(core.sessions.ever_connected_relays.is_empty());
    assert_eq!(core.sessions.mint_auth_epoch(HANDLE, &protected()).unwrap().sequence, 1);
}

#[test]
fn a_refused_opening_takes_its_targets_back() {
    let mut core = fresh_core();
    let (opening, _) = core.observations.begin_opening(1, None);
    let branch = OpenedBranch { handle: HandleId(5), strict: false };
    let (opening, _) = core.open_observation(opening, OpeningEvent::Subscribed(branch));
    let live = HandleAcquisition { scopes: vec![ScopeAcquisition::Live] };
    let (opening, _) = core.open_observation(opening, OpeningEvent::Decided(live));
    let (opening, _) = core.open_observation(opening, OpeningEvent::RowsRead(SortedMap::new()));
    let target = ActiveRequestTarget { demand: DemandKey(1), scope: 0, path: 0, revision: 0 };
    core.reconcile_observation_resolution(&HandleId(5), &vec![target], true);
    assert_eq!(core.targets.declared_handles(), vec![HandleId(5)]);
    assert_eq!(core.targets.live_targets().len(), 1);
    let (_, action) =
        core.open_observation(opening, OpeningEvent::EvidenceFailed("broken".to_owned()));
    assert!(matches!(action, OpeningAction::Finish(ObservationOpen::Refused { .. })));
    assert!(core.targets.declared_handles().is_empty());
    assert!(core.targets.live_targets().is_empty());
    assert!(core.observations.handles.is_empty());
}
