//! The life of wire requests.

use nmp_engine::core_state::CoreState;
use nmp_engine::effects::{effects_of_plan, part_wire_effects, settled_effects, Effect};
use nmp_engine::evidence::{HandleAcquisition, ScopeAcquisition};
use nmp_engine::ids::{
    CoverageKey, DemandKey, FilterHash, HandleId, ObservationId, PublicKey, Relay, RelaySessionKey,
    RequestAttemptId, RequestKey, SubId, TransportRelayHandle,
};
use nmp_engine::plan_delta::{
    apply_router_plan_delta, plan_fits, PlanEffects, PlanStep, PlannedOp, SentOp,
};
use nmp_engine::planned_reads::{PlanDeltaMode, PlannedReads};
use nmp_engine::request_attempt::{LocalSendRefusal, RequestHandoffOutcome};
use nmp_engine::request_effects::{SessionOp, WireReq};
use nmp_engine::request_replacements::RequestReplacement;
use nmp_engine::request_targets::{ActiveRequestTarget, RequestTargets};
use nmp_engine::requests::{
    committed_keys, completion_batch, home_of, CompletedCoverageClaim, CoverageInterval,
    PlanExecutionMetadata, RequestMetadataRemoval, RequestMetadataUpdate, RequestOrder, RequestSend,
    Requests,
};
use nmp_engine::routing_facts::RoutingFactStore;
use nmp_engine::sorted::{SortedMap, SortedSet};
use nmp_engine::wire::{ConcreteFilter, WireOp};
use nmp_engine::wire_admission::HandleRemoval;

const HANDLE: TransportRelayHandle = TransportRelayHandle { slot: 93, generation: 1 };

fn session() -> RelaySessionKey {
    RelaySessionKey::unauthenticated(Relay(1))
}

fn sub(n: u64) -> SubId {
    SubId(Relay(1), n, None)
}

fn key(n: u64) -> RequestKey {
    RequestKey { session: session(), sub_id: sub(n) }
}

fn filter(n: u64) -> ConcreteFilter {
    ConcreteFilter { hash: FilterHash(n), limit: None }
}

fn claims(list: &[u64]) -> SortedSet<CoverageKey> {
    let mut set = SortedSet::new();
    for n in list {
        set.insert(CoverageKey(*n));
    }
    set
}

fn demands(list: &[u64]) -> SortedSet<DemandKey> {
    let mut set = SortedSet::new();
    for n in list {
        set.insert(DemandKey(*n));
    }
    set
}

fn send(n: u64) -> RequestSend {
    RequestSend {
        session: session(),
        sub_id: sub(n),
        filter: filter(n),
        coverage_claims: claims(&[n]),
        owner_demands: demands(&[n]),
    }
}

fn req(n: u64, revision: u64) -> PlanStep {
    PlanStep {
        session: session(),
        op: PlannedOp::Req {
            sub_id: sub(n),
            filter: filter(n),
            coverage_claims: claims(&[n]),
            owner_demands: demands(&[n]),
            revision,
        },
    }
}

fn close(n: u64) -> PlanStep {
    PlanStep { session: session(), op: PlannedOp::Close(sub(n)) }
}

fn planned(on: bool) -> SortedSet<RelaySessionKey> {
    let mut set = SortedSet::new();
    if on {
        set.insert(session());
    }
    set
}

/// Requests and the sessions that they read from.
struct Fixture {
    requests: Requests,
    reads: PlannedReads,
}

impl Fixture {
    fn new() -> Fixture {
        Fixture { requests: Requests::new(), reads: PlannedReads::new() }
    }

    fn plan(&mut self, replacements: Vec<RequestReplacement>, steps: Vec<PlanStep>) -> PlanEffects {
        let on = steps.iter().any(|step| matches!(step.op, PlannedOp::Req { .. }));
        apply_router_plan_delta(
            &mut self.requests,
            &mut self.reads,
            &replacements,
            &steps,
            PlanDeltaMode::Full,
            &planned(on),
            &SortedSet::new(),
        )
    }

    fn accept(&mut self, attempt_id: RequestAttemptId) -> Vec<RequestOrder> {
        let outcome = RequestHandoffOutcome::Accepted { attempt_id, handle: HANDLE };
        self.requests.consume_wire_request_handoff(outcome, 100).orders
    }

    fn refuse(&mut self, attempt_id: RequestAttemptId) -> Vec<RequestOrder> {
        let cause = LocalSendRefusal::SessionUnavailable;
        let outcome = RequestHandoffOutcome::Refused { attempt_id, cause };
        self.requests.consume_wire_request_handoff(outcome, 100).orders
    }

    fn is_live(&self, n: u64) -> bool {
        self.requests.wire_request_is_live(&key(n), &filter(n), HANDLE)
    }
}

fn only_request(sent: &[SentOp]) -> (SubId, ConcreteFilter, RequestAttemptId) {
    let found: Vec<_> = sent
        .iter()
        .filter_map(|op| match op.op {
            WireOp::Req(sub_id, filter) => Some((sub_id, filter, op.attempt.unwrap())),
            WireOp::Close(_) => None,
        })
        .collect();
    assert_eq!(found.len(), 1);
    found[0]
}

fn replacement(prior: u64, next: u64) -> RequestReplacement {
    RequestReplacement { session: session(), prior_sub_id: sub(prior), next_sub_id: sub(next) }
}

#[test]
fn changed_filter_uses_fresh_id_keeps_old_on_refusal_and_retires_it_only_after_accept() {
    let mut fixture = Fixture::new();
    let opened = fixture.plan(Vec::new(), vec![req(11, 1)]);
    let (first_sub, first_filter, first_attempt) = only_request(&opened.sent);
    fixture.accept(first_attempt);
    assert!(fixture.is_live(11));

    let replaced = fixture.plan(vec![replacement(11, 22)], vec![close(11), req(22, 2)]);
    let (second_sub, second_filter, second_attempt) = only_request(&replaced.sent);
    assert_ne!(first_sub, second_sub);
    assert!(replaced.sent.iter().all(|op| op.op != WireOp::Close(first_sub)));
    assert!(fixture.is_live(11));

    let refused = fixture.refuse(second_attempt);
    assert!(refused.iter().all(|order| !matches!(order, RequestOrder::Close { .. })));
    assert!(fixture.is_live(11));
    assert_eq!(fixture.requests.attempt_census().retry_jobs, 1);
    let due = fixture.requests.next_retry_due().expect("one retry waits");
    assert_eq!(due, 103);

    let retried = fixture.requests.retry_due_request_attempts(due, &vec![3], &SortedMap::new());
    let (retried_sub, retried_filter, retry_attempt) = only_request(&retried);
    assert_eq!(retried_sub, second_sub);
    assert_eq!(retried_filter, second_filter);
    let accepted = fixture.accept(retry_attempt);
    let closes = accepted
        .iter()
        .filter(|order| **order == RequestOrder::Close { session: session(), sub_id: first_sub })
        .count();
    assert_eq!(closes, 1);
    assert!(!fixture.is_live(11));
    assert!(fixture.is_live(22));
    assert_eq!(fixture.requests.counts().awaiting_stored_events, 1);

    let mut covered = Vec::new();
    for (revision, claim) in [(1, CoverageKey(11)), (3, CoverageKey(22))] {
        if fixture.requests.settle_request(revision).is_some() {
            covered.push(claim);
        }
    }
    assert_eq!(covered, vec![CoverageKey(22)]);
    assert_eq!(fixture.requests.finished_stored_events().list(), vec![key(22)]);

    let closed = fixture.plan(Vec::new(), vec![close(22)]);
    assert!(closed.sent.iter().any(|op| op.op == WireOp::Close(second_sub)));
    let counts = fixture.requests.counts();
    assert_eq!(counts.live, 0);
    assert_eq!(counts.awaiting_handoff, 0);
    assert_eq!(counts.awaiting_stored_events, 0);
    assert_eq!(counts.replacements, 0);
    assert_eq!(counts.claim_transfers, 0);
    assert_eq!(fixture.requests.attempt_census().attempts, 0);
    assert_eq!(fixture.requests.attempt_census().retry_jobs, 0);
    assert_eq!(fixture.requests.plan_count(), 0);
    assert_ne!(first_filter, second_filter);
}

#[test]
fn accepted_byte_changed_replacements_retain_only_one_current_request() {
    let mut fixture = Fixture::new();
    let opened = fixture.plan(Vec::new(), vec![req(10, 10)]);
    let (mut current, _, attempt) = only_request(&opened.sent);
    fixture.accept(attempt);

    for author in 11..=42u64 {
        let changed = vec![replacement(author - 1, author)];
        let effects = fixture.plan(changed, vec![close(author - 1), req(author, author)]);
        let (next, _, next_attempt) = only_request(&effects.sent);
        assert_ne!(current, next);
        assert_eq!(fixture.requests.counts().replacements, 1);
        fixture.accept(next_attempt);
        let counts = fixture.requests.counts();
        assert_eq!(counts.replacements, 0);
        assert_eq!(counts.live, 1);
        assert_eq!(counts.awaiting_stored_events, 1);
        current = next;
    }

    fixture.plan(Vec::new(), vec![close(42)]);
    let counts = fixture.requests.counts();
    assert_eq!(counts.live, 0);
    assert_eq!(counts.awaiting_stored_events, 0);
    assert_eq!(counts.awaiting_handoff, 0);
    assert_eq!(counts.replacements, 0);
    assert_eq!(fixture.requests.attempt_census().attempts, 0);
    assert_eq!(fixture.requests.plan_count(), 0);
}

#[test]
fn protected_retry_cannot_cross_to_a_fresh_unauthenticated_transport_generation() {
    let account = PublicKey { hi: 5, lo: 6 };
    let session = RelaySessionKey::new(Relay(9), Some(account));
    let sub_id = SubId(Relay(9), 1007, Some(account));
    let first_handle = TransportRelayHandle { slot: 95, generation: 1 };
    let mut requests = Requests::new();
    requests.install_plan_execution_metadata(
        sub_id,
        PlanExecutionMetadata {
            filter: filter(1),
            coverage_claims: claims(&[1]),
            owner_demands: demands(&[1]),
        },
    );
    let attempt_id = requests.record_observed_request(
        RequestSend {
            session,
            sub_id,
            filter: filter(1),
            coverage_claims: claims(&[1]),
            owner_demands: demands(&[1]),
        },
        1,
    );
    requests.consume_wire_request_handoff(
        RequestHandoffOutcome::Refused {
            attempt_id,
            cause: LocalSendRefusal::WorkerAdmissionRefused { handle: first_handle },
        },
        0,
    );
    assert_eq!(requests.attempt_census().retry_jobs, 1);

    let mut orders = Vec::new();
    requests.abandon_session_subs(&session, &mut orders);
    let census = requests.attempt_census();
    assert_eq!(census.retry_jobs, 0);
    assert_eq!(census.retry_session_keys, 0);
    assert_eq!(census.attempts, 0);
    assert!(requests.next_retry_due().is_none());
    assert!(requests.awaiting_request_keys().is_empty());
    assert_eq!(orders, vec![RequestOrder::ClearSession(session)]);
    requests.retire_plan_execution_metadata(&sub_id, &mut orders);
    assert_eq!(orders.last(), Some(&RequestOrder::ReleaseLiveClaims(sub_id)));
    assert_eq!(requests.plan_count(), 0);
    assert_eq!(requests.counts().awaiting_handoff, 0);
    assert_eq!(requests.counts().live, 0);
}

fn install_candidate(requests: &mut Requests, n: u64, list: &[u64]) -> RequestAttemptId {
    requests.install_plan_execution_metadata(
        sub(n),
        PlanExecutionMetadata {
            filter: filter(n),
            coverage_claims: claims(list),
            owner_demands: demands(list),
        },
    );
    requests.record_observed_request(
        RequestSend {
            session: session(),
            sub_id: sub(n),
            filter: filter(n),
            coverage_claims: claims(list),
            owner_demands: demands(list),
        },
        n,
    )
}

#[test]
fn a_result_for_an_unknown_attempt_is_ignored() {
    let mut fixture = Fixture::new();
    assert!(fixture.accept(RequestAttemptId(77)).is_empty());
    assert_eq!(fixture.requests.counts().live, 0);
}

#[test]
fn an_end_of_an_earlier_send_never_finishes_a_later_one() {
    let mut fixture = Fixture::new();
    let first = fixture.requests.record_observed_request(send(5), 1);
    fixture.accept(first);
    let second = fixture.requests.record_observed_request(send(5), 2);
    fixture.accept(second);
    assert!(fixture.requests.settle_request(1).is_some());
    assert!(fixture.requests.finished_stored_events().is_empty());
    assert!(fixture.requests.settle_request(2).is_some());
    assert_eq!(fixture.requests.finished_stored_events().list(), vec![key(5)]);
}

#[test]
fn backoff_goes_on_over_repeated_refusals() {
    let mut fixture = Fixture::new();
    let mut attempt = install_candidate(&mut fixture.requests, 6, &[6]);
    for (turn, wait) in [3u64, 6, 12, 24, 48, 96, 192, 300, 300].iter().enumerate() {
        fixture.refuse(attempt);
        let due = fixture.requests.next_retry_due().unwrap();
        assert_eq!(due, 100 + wait);
        assert!(fixture.requests.due_retry_keys(due - 1).is_empty());
        let sent = fixture.requests.retry_due_request_attempts(due, &vec![1000 + turn as u64], &SortedMap::new());
        attempt = only_request(&sent).2;
    }
}

#[test]
fn a_retry_that_the_plan_no_longer_asks_for_is_dropped() {
    let mut fixture = Fixture::new();
    let attempt = install_candidate(&mut fixture.requests, 6, &[6]);
    fixture.refuse(attempt);
    let mut orders = Vec::new();
    fixture.requests.retire_plan_execution_metadata(&sub(6), &mut orders);
    assert!(fixture.requests.retry_due_request_attempts(1000, &vec![1], &SortedMap::new()).is_empty());
    assert!(fixture.requests.next_retry_due().is_none());
}

#[test]
fn giving_a_session_up_gives_its_replacements_up() {
    let mut fixture = Fixture::new();
    let opened = fixture.plan(Vec::new(), vec![req(11, 1)]);
    fixture.accept(only_request(&opened.sent).2);
    fixture.plan(vec![replacement(11, 22)], vec![close(11), req(22, 2)]);
    let mut orders = Vec::new();
    fixture.requests.abandon_request_replacements_for_session(&session(), &mut orders);
    assert_eq!(orders, vec![RequestOrder::ReleaseLiveClaims(sub(11))]);
    assert_eq!(fixture.requests.counts().replacements, 0);
    assert!(!fixture.requests.is_successor(&sub(22)));
}

#[test]
fn closing_a_waiting_successor_closes_both_sides() {
    let mut fixture = Fixture::new();
    let opened = fixture.plan(Vec::new(), vec![req(11, 1)]);
    fixture.accept(only_request(&opened.sent).2);
    fixture.plan(vec![replacement(11, 22)], vec![close(11), req(22, 2)]);
    let closed = fixture.plan(Vec::new(), vec![close(22)]);
    assert!(closed.sent.is_empty());
    assert_eq!(
        closed.orders.last(),
        Some(&RequestOrder::Close { session: session(), sub_id: sub(11) })
    );
    assert!(!fixture.is_live(11));
    assert_eq!(fixture.requests.counts().awaiting_handoff, 0);
}

/// A request that has delivered its stored events for one span.
fn finished(n: u64) -> Fixture {
    let mut fixture = Fixture::new();
    let attempt = fixture.requests.record_observed_request(send(n), 1);
    fixture.accept(attempt);
    let interval = CoverageInterval { from: 10, through: 20 };
    let end = fixture.requests.persist_attributed_completion(
        &sub(n),
        1,
        FilterHash(n),
        Some(interval),
        &Some(vec![CompletedCoverageClaim { key: CoverageKey(n), interval }]),
        true,
    );
    assert_eq!(end.committed.unwrap().list(), vec![CoverageKey(n)]);
    assert!(end.retained.is_none());
    fixture.requests.settle_request(1).unwrap();
    fixture
}

#[test]
fn added_claims_wait_until_they_are_written_down() {
    let mut fixture = finished(5);
    let due = fixture.requests.transfer_finished_request_claims(
        &key(5),
        FilterHash(5),
        true,
        &claims(&[6]),
        true,
        50,
    );
    assert!(due);
    let (batch, interval) = fixture.requests.claim_transfer_batch(&key(5)).unwrap();
    assert_eq!(batch.list(), vec![CoverageKey(6)]);
    assert_eq!(interval, CoverageInterval { from: 10, through: 20 });

    let (written, held) = fixture.requests.attempt_request_claim_transfer(&key(5), false, 50);
    assert!(written.is_empty());
    assert!(!held);
    assert_eq!(fixture.requests.next_transfer_due(), Some(53));
    assert!(fixture.requests.due_claim_transfers(52).is_empty());
    assert_eq!(fixture.requests.due_claim_transfers(53), vec![key(5)]);

    let later = fixture.requests.transfer_finished_request_claims(
        &key(5),
        FilterHash(5),
        true,
        &claims(&[7]),
        true,
        51,
    );
    assert!(!later);
    let (written, held) = fixture.requests.attempt_request_claim_transfer(&key(5), true, 53);
    assert_eq!(written.list(), vec![CoverageKey(6), CoverageKey(7)]);
    assert!(held);
    assert_eq!(fixture.requests.next_transfer_due(), None);
}

#[test]
fn claims_without_a_finished_request_or_a_shape_do_not_wait() {
    let mut fixture = finished(5);
    for (had_previous, added, shaped, hash) in [
        (false, vec![6u64], true, 5u64),
        (true, vec![], true, 5),
        (true, vec![6], false, 5),
        (true, vec![6], true, 9),
    ] {
        assert!(!fixture.requests.transfer_finished_request_claims(
            &key(5),
            FilterHash(hash),
            had_previous,
            &claims(&added),
            shaped,
            50,
        ));
        assert_eq!(fixture.requests.next_transfer_due(), None);
    }
}

#[test]
fn a_later_completion_takes_over_the_claims_that_wait() {
    let mut fixture = finished(5);
    fixture.requests.transfer_finished_request_claims(
        &key(5),
        FilterHash(5),
        true,
        &claims(&[6]),
        true,
        50,
    );
    let again = fixture.requests.record_observed_request(send(5), 2);
    fixture.accept(again);
    let interval = CoverageInterval { from: 5, through: 30 };
    let completed = Some(vec![CompletedCoverageClaim { key: CoverageKey(6), interval }]);
    let failed = fixture.requests.persist_attributed_completion(
        &sub(5),
        2,
        FilterHash(5),
        Some(interval),
        &completed,
        false,
    );
    assert!(failed.committed.is_none());
    assert!(failed.retained.is_none());
    assert_eq!(fixture.requests.next_transfer_due(), Some(50));
    let end = fixture.requests.persist_attributed_completion(
        &sub(5),
        2,
        FilterHash(5),
        Some(interval),
        &completed,
        true,
    );
    assert_eq!(end.committed.unwrap().list(), vec![CoverageKey(6)]);
    assert_eq!(end.retained.unwrap().list(), vec![CoverageKey(6)]);
    assert_eq!(fixture.requests.next_transfer_due(), None);
}

/// Whether claims added to a finished request can wait to be written down: only
/// where the request remembers the span that it was complete for.
fn remembers_its_span(fixture: &mut Fixture) -> bool {
    fixture.requests.settle_request(1).unwrap();
    fixture.requests.transfer_finished_request_claims(
        &key(5),
        FilterHash(5),
        true,
        &claims(&[6]),
        true,
        50,
    )
}

#[test]
fn an_end_that_writes_nothing_down_leaves_no_span() {
    let interval = CoverageInterval { from: 10, through: 20 };
    let one = vec![CompletedCoverageClaim { key: CoverageKey(5), interval }];
    for (completed, written, told, remembers) in [
        (None, true, None, false),
        (Some(Vec::new()), true, Some(Vec::new()), false),
        (Some(Vec::new()), false, Some(Vec::new()), false),
        (Some(one.clone()), false, None, false),
        (Some(one), true, Some(vec![CoverageKey(5)]), true),
    ] {
        let mut fixture = Fixture::new();
        let attempt = fixture.requests.record_observed_request(send(5), 1);
        fixture.accept(attempt);
        let end = fixture.requests.persist_attributed_completion(
            &sub(5),
            1,
            FilterHash(5),
            Some(interval),
            &completed,
            written,
        );
        assert_eq!(end.committed.map(|keys| keys.list()), told);
        assert!(end.retained.is_none());
        assert_eq!(remembers_its_span(&mut fixture), remembers);
    }
}

#[test]
fn the_keys_that_stand_written_down_are_those_of_the_claims() {
    let interval = CoverageInterval { from: 1, through: 2 };
    let three: Vec<_> = [9u64, 4, 9]
        .iter()
        .map(|n| CompletedCoverageClaim { key: CoverageKey(*n), interval })
        .collect();
    assert!(committed_keys(&None, true).is_none());
    assert!(committed_keys(&None, false).is_none());
    assert!(committed_keys(&Some(Vec::new()), false).unwrap().is_empty());
    assert!(committed_keys(&Some(three.clone()), false).is_none());
    let keys = committed_keys(&Some(three), true).unwrap();
    assert_eq!(keys.list(), vec![CoverageKey(4), CoverageKey(9)]);
}

#[test]
fn claims_are_filed_under_the_identity_that_proved_them() {
    let account = PublicKey { hi: 7, lo: 8 };
    let asked_as = SubId(Relay(1), 5, Some(account));
    let completed = Some(vec![
        CompletedCoverageClaim {
            key: CoverageKey(4),
            interval: CoverageInterval { from: 1, through: 2 },
        },
        CompletedCoverageClaim {
            key: CoverageKey(3),
            interval: CoverageInterval { from: 5, through: 9 },
        },
    ]);
    let batch = completion_batch(&asked_as, &completed);
    assert_eq!(batch.len(), 2);
    assert!(batch.iter().all(|entry| entry.session == home_of(&asked_as)));
    assert_ne!(batch[0].session, session());
    assert_eq!(batch[0].key, CoverageKey(4));
    assert_eq!(batch[0].interval, CoverageInterval { from: 1, through: 2 });
    assert_eq!(batch[1].key, CoverageKey(3));
    assert_eq!(batch[1].interval, CoverageInterval { from: 5, through: 9 });
    assert!(completion_batch(&asked_as, &None).is_empty());
    assert!(completion_batch(&asked_as, &Some(Vec::new())).is_empty());
}

#[test]
fn removed_claims_are_released_unless_the_relay_still_serves_them() {
    let mut fixture = Fixture::new();
    let attempt = install_candidate(&mut fixture.requests, 5, &[1, 2, 3]);
    let removal = RequestMetadataRemoval {
        session: session(),
        sub_id: sub(5),
        filter_hash: FilterHash(5),
        removed_coverage_claims: claims(&[1, 2]),
        removed_owner_demands: demands(&[1, 2]),
    };
    let detached =
        fixture.requests.apply_request_metadata_removals(&vec![removal], &vec![claims(&[2])]);
    assert_eq!(detached[0].list(), vec![CoverageKey(1)]);
    fixture.accept(attempt);
    let (_, owners) = fixture.requests.settle_request(5).unwrap();
    assert_eq!(owners.list(), vec![DemandKey(3)]);
}

#[test]
fn a_delta_and_a_replay_carry_their_attempts() {
    let mut fixture = Fixture::new();
    let first = fixture.requests.record_observed_request(send(5), 1);
    let second = fixture.requests.record_observed_request(send(5), 2);
    assert_ne!(first, second);
    let ops = vec![
        SessionOp { session: session(), op: WireOp::Req(sub(5), filter(5)) },
        SessionOp { session: session(), op: WireOp::Close(sub(9)) },
    ];
    let delta = fixture.requests.attempted_wire_delta(ops.clone());
    assert_eq!(delta.ops(), &ops);
    assert_eq!(delta.attempt_id(&session(), &sub(5), &filter(5)), second);

    let replayed = vec![WireReq { sub_id: sub(5), filter: filter(5) }];
    let replay = fixture.requests.attempted_replay(&session(), replayed.clone());
    assert_eq!(replay.requests(), &replayed);
    assert_eq!(replay.attempts(), &vec![second]);
    assert_eq!(fixture.requests.attempt_for(&key(6), FilterHash(5)), None);
    assert_eq!(fixture.requests.awaiting_total(), 2);
    assert!(fixture.requests.assert_consistent().is_ok());
}

fn target(demand: u64, scope: u64) -> ActiveRequestTarget {
    ActiveRequestTarget { demand: DemandKey(demand), scope, path: 0, revision: 0 }
}

fn fresh_core() -> CoreState {
    CoreState::new_with_routing_facts(RoutingFactStore::new(Vec::new(), Vec::new()), 20, 8)
}

fn acquired(scopes: Vec<ScopeAcquisition>) -> HandleAcquisition {
    HandleAcquisition { scopes }
}

#[test]
fn a_settled_request_is_told_to_the_observations_that_ask_for_it() {
    let mut core = fresh_core();
    let handle = HandleId(4);
    let id = core.observations.take_on(
        vec![handle],
        vec![acquired(vec![ScopeAcquisition::Live, ScopeAcquisition::CacheOnly])],
        &vec![false],
        None,
    );
    core.reconcile_observation_resolution(&handle, &vec![target(1, 0), target(1, 0), target(2, 1)], true);
    assert_eq!(core.observations_for_demands(&demands(&[1])), vec![id]);
    assert!(core.observations_for_demands(&demands(&[2])).is_empty());

    let attempt = core.requests.record_observed_request(send(1), 1);
    core.requests.consume_wire_request_handoff(
        RequestHandoffOutcome::Accepted { attempt_id: attempt, handle: HANDLE },
        0,
    );
    let (observers, relay, owners) = core.emit_request_settled(1).unwrap();
    assert_eq!(observers, vec![id]);
    assert_eq!(relay, Relay(1));
    assert_eq!(owners.list(), vec![DemandKey(1)]);
    assert!(core.emit_request_settled(1).is_none());
    assert!(core.retire_request_evidence(1).is_empty());

    let live = core.targets.live_targets().len();
    core.rebuild_activations();
    assert_eq!(core.targets.live_targets().len(), live);

    let census = core.observation_ownership_census(1, 2, 3, 4, 5);
    assert_eq!(census.handles, 1);
    assert_eq!(census.live_wire_owners, 1);
    assert_eq!(census.pending_execution_owners, 0);
    assert_eq!(census.planned_sessions, 5);
    assert!(core.assert_owner_consistency().is_ok());

    let removal = HandleRemoval { handle, removed: true, demand_released: true };
    let kept = HandleRemoval { handle, removed: false, demand_released: true };
    assert_eq!(core.targets.consume_closed_atom(&DemandKey(1), &vec![kept, removal]), 1);
    assert!(core.observations_for_demands(&demands(&[1])).is_empty());

    let (branches, sequence) = core.on_unsubscribe(&id).unwrap();
    assert_eq!(branches, vec![handle]);
    assert_eq!(sequence, 1);
    assert!(core.targets.declared_handles().is_empty());
    assert!(core.on_unsubscribe(&ObservationId(0)).is_none());
}

#[test]
fn a_plan_opens_only_sessions_that_still_have_to_authenticate() {
    let account = PublicKey { hi: 1, lo: 2 };
    let protected = RelaySessionKey::new(Relay(3), Some(account));
    let mut core = fresh_core();
    let mut sessions = SortedSet::new();
    sessions.insert(protected);
    sessions.insert(session());
    let full = core.apply_router_plan_delta(&Vec::new(), &Vec::new(), PlanDeltaMode::Full, &sessions);
    assert_eq!(full.ensure_read, vec![protected]);
    assert!(full.diagnostics);
    core.sessions.auth_ready_sessions.insert(protected, HANDLE);
    let again = core.apply_router_plan_delta(&Vec::new(), &Vec::new(), PlanDeltaMode::Full, &sessions);
    assert!(again.ensure_read.is_empty());
    let some = core.apply_router_plan_delta(
        &Vec::new(),
        &vec![req(5, 1)],
        PlanDeltaMode::Incremental,
        &sessions,
    );
    assert!(!some.diagnostics);
    assert_eq!(only_request(&some.sent).0, sub(5));
}

#[test]
fn the_effects_of_a_plan_are_told_before_they_are_sent() {
    let mut fixture = Fixture::new();
    let opened = fixture.plan(Vec::new(), vec![req(11, 1), req(12, 2)]);
    let effects = effects_of_plan(&opened);
    assert_eq!(effects.len(), 2);
    let (told, wire) = part_wire_effects(effects);
    assert!(matches!(told.as_slice(), [Effect::EmitDiagnostics]));
    match wire.as_slice() {
        [Effect::Wire(delta)] => {
            assert_eq!(delta.ops().len(), 2);
            assert_eq!(
                Some(delta.attempt_id(&session(), &sub(12), &filter(12))),
                opened.sent[1].attempt
            );
        }
        _ => panic!("one delta is sent"),
    }
    let settled = settled_effects(&vec![ObservationId(4), ObservationId(7)], Relay(1));
    assert!(matches!(
        settled.as_slice(),
        [
            Effect::RequestSettled(ObservationId(4), Relay(1)),
            Effect::RequestSettled(ObservationId(7), Relay(1))
        ]
    ));
}

#[test]
fn a_cancelled_replacement_is_closed_on_the_wire() {
    let mut fixture = Fixture::new();
    let opened = fixture.plan(Vec::new(), vec![req(11, 1)]);
    fixture.accept(only_request(&opened.sent).2);
    fixture.plan(vec![replacement(11, 22)], vec![close(11), req(22, 2)]);
    let closed = fixture.plan(Vec::new(), vec![close(22)]);
    let (_, wire) = part_wire_effects(effects_of_plan(&closed));
    match wire.as_slice() {
        [Effect::Wire(delta)] => {
            assert_eq!(delta.ops(), &vec![SessionOp { session: session(), op: WireOp::Close(sub(11)) }]);
        }
        _ => panic!("the predecessor is closed"),
    }
}

#[test]
fn a_plan_that_names_a_successor_twice_does_not_fit() {
    let fixture = Fixture::new();
    assert!(plan_fits(&fixture.requests, &vec![replacement(1, 2)], &vec![req(2, 1)]));
    let twice = vec![replacement(1, 2), replacement(3, 2)];
    assert!(!plan_fits(&fixture.requests, &twice, &Vec::new()));
    let mut astray = req(2, 1);
    astray.session = RelaySessionKey::unauthenticated(Relay(8));
    assert!(!plan_fits(&fixture.requests, &Vec::new(), &vec![astray]));
}

#[test]
fn giving_up_twice_is_the_same_as_once() {
    let mut fixture = Fixture::new();
    let kept = fixture.requests.record_observed_request(send(4), 4);
    fixture.accept(kept);
    let attempt = fixture.requests.record_observed_request(send(5), 5);
    fixture.accept(attempt);
    let mut orders = Vec::new();
    fixture.requests.abandon_sub(&sub(5), &mut orders);
    let once = fixture.requests.counts();
    fixture.requests.abandon_sub(&sub(5), &mut orders);
    assert_eq!(fixture.requests.counts(), once);
    assert!(fixture.is_live(4));
    assert!(!fixture.is_live(5));
}

#[test]
fn a_connection_that_closes_keeps_what_a_later_one_carries() {
    let mut fixture = Fixture::new();
    let attempt = fixture.requests.record_observed_request(send(4), 4);
    fixture.accept(attempt);
    let earlier = TransportRelayHandle { slot: 93, generation: 0 };
    fixture.requests.close_requests_for_session(&session(), earlier);
    fixture.requests.close_requests_for_sub(&key(4), earlier);
    assert!(fixture.is_live(4));
    assert!(fixture.requests.session_has_live_generation(&session(), HANDLE));
    fixture.requests.close_requests_for_session(&session(), HANDLE);
    assert!(!fixture.is_live(4));
    assert!(!fixture.requests.session_has_live_generation(&session(), HANDLE));
}

#[test]
fn activation_is_undone_by_retirement_and_idempotent() {
    let mut targets = RequestTargets::new();
    let handle = HandleId(3);
    let mut scopes = SortedSet::new();
    scopes.insert(0u64);
    targets.reconcile_resolution(&handle, &vec![target(1, 0), target(2, 1)], None);
    assert!(targets.live_targets().is_empty());
    targets.activate_handle(&handle, &scopes);
    let live = targets.live_targets();
    assert_eq!(live.len(), 1);
    assert!(targets.has_live_demand(&DemandKey(1)));
    targets.activate_handle(&handle, &scopes);
    assert_eq!(targets.live_targets(), live);
    targets.deactivate_handle(&handle);
    assert!(targets.live_targets().is_empty());
    assert_eq!(targets.declared_handles(), vec![handle]);
    assert!(targets.assert_consistent().is_ok());
}

#[test]
fn an_ordinary_retry_goes_out_with_what_the_plan_gained() {
    let mut fixture = Fixture::new();
    let attempt = install_candidate(&mut fixture.requests, 5, &[1]);
    fixture.refuse(attempt);
    fixture.requests.apply_request_metadata_update(&RequestMetadataUpdate {
        session: session(),
        sub_id: sub(5),
        filter_hash: FilterHash(5),
        added_coverage_claims: claims(&[2]),
        added_owner_demands: demands(&[2]),
    });
    let due = fixture.requests.next_retry_due().unwrap();
    let sent = fixture.requests.retry_due_request_attempts(due, &vec![9], &SortedMap::new());
    let (sub_id, sent_filter, id) = only_request(&sent);
    assert_eq!((sub_id, sent_filter), (sub(5), filter(5)));
    assert_ne!(id, attempt);
    let again = fixture.requests.attempt(&id).unwrap();
    assert_eq!(again.coverage_claims.list(), vec![CoverageKey(1), CoverageKey(2)]);
    assert_eq!(again.owner_demands.list(), vec![DemandKey(1), DemandKey(2)]);
    assert_eq!(fixture.requests.attempt_census().retry_jobs, 0);
}

#[test]
fn retries_that_are_due_together_each_carry_what_their_plan_gained() {
    let mut fixture = Fixture::new();
    for n in [5u64, 6, 7] {
        let attempt = install_candidate(&mut fixture.requests, n, &[n]);
        fixture.refuse(attempt);
    }
    for (n, added) in [(5u64, 50u64), (7, 70)] {
        fixture.requests.apply_request_metadata_update(&RequestMetadataUpdate {
            session: session(),
            sub_id: sub(n),
            filter_hash: FilterHash(n),
            added_coverage_claims: claims(&[added]),
            added_owner_demands: demands(&[added]),
        });
    }
    let mut orders = Vec::new();
    fixture.requests.retire_plan_execution_metadata(&sub(6), &mut orders);
    let due = fixture.requests.next_retry_due().unwrap();
    let sent =
        fixture.requests.retry_due_request_attempts(due, &vec![91, 92, 93], &SortedMap::new());
    assert_eq!(sent.len(), 2);
    for (op, (n, added)) in sent.iter().zip([(5u64, 50u64), (7, 70)]) {
        assert_eq!(op.session, session());
        assert_eq!(op.op, WireOp::Req(sub(n), filter(n)));
        let again = fixture.requests.attempt(&op.attempt.unwrap()).unwrap();
        assert_eq!(again.coverage_claims.list(), vec![CoverageKey(n), CoverageKey(added)]);
        assert_eq!(again.owner_demands.list(), vec![DemandKey(n), DemandKey(added)]);
        assert_eq!(again.retry_failures, 1);
    }
    assert_ne!(sent[0].attempt, sent[1].attempt);
    assert_eq!(fixture.requests.attempt_census().retry_jobs, 0);
}

#[test]
fn a_successor_that_an_earlier_replacement_takes_over_may_be_named_again() {
    let mut fixture = Fixture::new();
    let opened = fixture.plan(Vec::new(), vec![req(1, 1)]);
    fixture.accept(only_request(&opened.sent).2);
    fixture.plan(vec![replacement(1, 2)], vec![close(1), req(2, 2)]);
    assert!(!plan_fits(&fixture.requests, &vec![replacement(9, 2)], &Vec::new()));
    let over = vec![replacement(2, 3), replacement(8, 2)];
    assert!(plan_fits(&fixture.requests, &over, &Vec::new()));
    fixture.plan(over, Vec::new());
    assert!(fixture.requests.is_successor(&sub(2)));
    assert!(fixture.requests.is_successor(&sub(3)));
}
