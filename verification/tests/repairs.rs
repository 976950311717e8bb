//! Plans that are repaired by reconciliation: the candidate that is to become the
//! live tail, the reconciliation, and the fetches that stand in for it.

use nmp_engine::ids::{
    CoverageKey, DemandKey, FilterHash, Relay, RelaySessionKey, RequestAttemptId, RequestKey, SubId,
    TransportRelayHandle,
};
use nmp_engine::nip77_sessions::{NegSession, Nip77Sessions, PendingNegHandoff, RepairPhase, TemporaryReq};
use nmp_engine::plan_delta::SentOp;
use nmp_engine::plan_roles::{apply_plan_metadata_update, RoleOf};
use nmp_engine::request_attempt::{LocalSendRefusal, RequestHandoffOutcome};
use nmp_engine::requests::{
    PlanExecutionMetadata, RequestMetadataUpdate, RequestOrder, RequestSend, Requests,
};
use nmp_engine::session_registry::SessionRegistry;
use nmp_engine::sorted::SortedSet;
use nmp_engine::wire::{ConcreteFilter, WireOp};

const INCUMBENT: u64 = 1;
const ADDED: u64 = 2;

fn relay() -> Relay {
    Relay(1)
}

fn session() -> RelaySessionKey {
    RelaySessionKey::unauthenticated(relay())
}

fn sub(n: u64) -> SubId {
    SubId(relay(), n, None)
}

fn key(sub_id: SubId) -> RequestKey {
    RequestKey { session: session(), sub_id }
}

fn filter(n: u64) -> ConcreteFilter {
    ConcreteFilter { hash: FilterHash(n), limit: None }
}

fn claims(list: &[u64]) -> SortedSet<CoverageKey> {
    let mut set = SortedSet::new();
    for n in list {
        set.insert(CoverageKey(*n));
    }
    set
}

fn demands(list: &[u64]) -> SortedSet<DemandKey> {
    let mut set = SortedSet::new();
    for n in list {
        set.insert(DemandKey(*n));
    }
    set
}

/// One plan with its repair, and a log of the claims that each current send earns.
struct Fixture {
    requests: Requests,
    repairs: Nip77Sessions,
    log: Vec<(SubId, SortedSet<CoverageKey>)>,
    revision: u64,
    clock: u64,
}

impl Fixture {
    fn new() -> Fixture {
        let mut requests = Requests::new();
        requests.install_plan_execution_metadata(
            Fixture::plan(),
            PlanExecutionMetadata {
                filter: filter(500),
                coverage_claims: claims(&[INCUMBENT]),
                owner_demands: demands(&[INCUMBENT]),
            },
        );
        Fixture { requests, repairs: Nip77Sessions::new(), log: Vec::new(), revision: 0, clock: 100 }
    }

    fn plan() -> SubId {
        sub(500)
    }

    fn logged(&mut self, sub_id: SubId, earned: SortedSet<CoverageKey>) {
        self.log.retain(|(other, _)| *other != sub_id);
        self.log.push((sub_id, earned));
    }

    fn current_claims(&self, sub_id: SubId) -> Vec<CoverageKey> {
        match self.log.iter().find(|(other, _)| *other == sub_id) {
            Some((_, earned)) => earned.list(),
            None => Vec::new(),
        }
    }

    /// Sends a request of a role. Its own filter is not the plan's.
    fn send(&mut self, sub_id: SubId, carried: &[u64]) {
        self.revision += 1;
        self.requests.record_observed_request(
            RequestSend {
                session: session(),
                sub_id,
                filter: filter(sub_id.1),
                coverage_claims: claims(carried),
                owner_demands: demands(carried),
            },
            self.revision,
        );
        self.logged(sub_id, claims(carried));
    }

    fn begin_candidate(&mut self) -> SubId {
        let candidate = sub(501);
        self.repairs.insert_handoff(
            candidate,
            PendingNegHandoff {
                plan_sub_id: Fixture::plan(),
                probed: relay(),
                prior_live_sub_id: None,
                filter: filter(500),
                started_at: 0,
            },
        );
        self.send(candidate, &[INCUMBENT]);
        candidate
    }

    fn open_session(&mut self) -> SubId {
        let neg = sub(502);
        self.repairs.insert_session(
            neg,
            NegSession {
                plan_sub_id: Fixture::plan(),
                relay: relay(),
                filter: filter(500),
                started_at: 0,
            },
        );
        self.send(neg, &[INCUMBENT]);
        neg
    }

    fn open_neg(&mut self, candidate: SubId) -> SubId {
        self.repairs.take_handoff(&candidate).expect("the candidate is a pending handoff");
        let mut orders = Vec::new();
        self.requests.abandon_sub(&candidate, &mut orders);
        self.log.retain(|(other, _)| *other != candidate);
        self.open_session()
    }

    fn activate_live(&mut self, candidate: SubId) -> SubId {
        self.repairs.take_handoff(&candidate).expect("the candidate is a pending handoff");
        self.repairs.set_live(Fixture::plan(), candidate);
        self.open_session()
    }

    fn fallback_to_backlog(&mut self, candidate: SubId) -> SubId {
        self.repairs.take_handoff(&candidate).expect("the candidate is a pending handoff");
        let backlog = sub(503);
        self.repairs.insert_backfill(
            backlog,
            TemporaryReq::BacklogActivatesLive {
                plan_sub_id: Fixture::plan(),
                live_sub_id: candidate,
                prior_live_sub_id: None,
            },
        );
        self.send(backlog, &[INCUMBENT]);
        backlog
    }

    fn finish_neg_with_missing_id(&mut self, neg: SubId) -> SubId {
        self.repairs.take_session(&neg).expect("the reconciliation session is open");
        let fetch = sub(504);
        self.repairs.insert_backfill(
            fetch,
            TemporaryReq::MissingIds { plan_sub_id: Fixture::plan(), neg_sub_id: neg },
        );
        self.send(fetch, &[]);
        fetch
    }

    fn update(&mut self) {
        let update = RequestMetadataUpdate {
            session: session(),
            sub_id: Fixture::plan(),
            filter_hash: FilterHash(500),
            added_coverage_claims: claims(&[ADDED]),
            added_owner_demands: demands(&[ADDED]),
        };
        let told = apply_plan_metadata_update(&mut self.requests, &self.repairs, &update);
        for (sub_id, earned) in &mut self.log {
            if told.contains(sub_id) {
                earned.extend(&update.added_coverage_claims);
            }
        }
    }

    fn assert_role_updated(&self, role: SubId) {
        assert_eq!(self.current_claims(role), vec![CoverageKey(INCUMBENT), CoverageKey(ADDED)]);
        assert_eq!(
            self.requests.awaited_demands(&key(role)).unwrap().list(),
            vec![DemandKey(INCUMBENT), DemandKey(ADDED)]
        );
    }

    fn attempt_of(&self, role: SubId) -> RequestAttemptId {
        self.requests
            .attempt_for(&key(role), FilterHash(role.1))
            .expect("role owns an exact pending attempt")
    }

    fn refuse(&mut self, role: SubId) -> Vec<RequestOrder> {
        let attempt_id = self.attempt_of(role);
        let orders = self
            .requests
            .consume_wire_request_handoff(
                RequestHandoffOutcome::Refused {
                    attempt_id,
                    cause: LocalSendRefusal::SessionUnavailable,
                },
                self.clock,
            )
            .orders;
        for order in &orders {
            if let RequestOrder::DiscardSend { sub_id, .. } = order {
                self.log.retain(|(other, _)| other != sub_id);
            }
        }
        orders
    }

    fn accept(&mut self, role: SubId, handle: TransportRelayHandle) {
        let attempt_id = self.attempt_of(role);
        self.requests.consume_wire_request_handoff(
            RequestHandoffOutcome::Accepted { attempt_id, handle },
            self.clock,
        );
    }

    /// Sends again what is due.
    fn tick(&mut self, now: u64) -> Vec<SentOp> {
        self.clock = now;
        let roles = self.repairs.role_owners();
        let sent = self.requests.retry_due_request_attempts(now, &vec![1001, 1002, 1003], &roles);
        for op in &sent {
            if let WireOp::Req(sub_id, _) = op.op {
                let attempt = self.requests.attempt(&op.attempt.unwrap()).unwrap();
                let earned = attempt.coverage_claims.copy();
                self.logged(sub_id, earned);
            }
        }
        sent
    }

    fn retry_jobs(&self) -> usize {
        self.requests.attempt_census().retry_jobs
    }

    fn finish(mut self) {
        let gone = self.repairs.cancel_repair_for_plan(&Fixture::plan());
        let mut orders = Vec::new();
        for sub_id in gone.abandon_and_close.iter().chain(&gone.abandon_only) {
            self.requests.abandon_sub(sub_id, &mut orders);
        }
        for (sub_id, _) in &gone.neg_closes {
            self.requests.abandon_sub(sub_id, &mut orders);
        }
        self.requests.retire_plan_execution_metadata(&Fixture::plan(), &mut orders);
        assert!(!self.repairs.has_repair_state(&Fixture::plan()));
        let counts = self.repairs.counts();
        assert_eq!((counts.handoffs, counts.sessions, counts.backfills), (0, 0, 0));
        assert_eq!(self.requests.plan_count(), 0);
        let census = self.requests.attempt_census();
        assert_eq!(census.attempts, 0);
        assert_eq!(census.session_keys, 0);
        assert_eq!(census.retry_jobs, 0);
        assert_eq!(census.retry_session_keys, 0);
        let counts = self.requests.counts();
        assert_eq!(counts.awaiting_handoff, 0);
        assert_eq!(counts.awaiting_stored_events, 0);
        assert_eq!(counts.live, 0);
        assert_eq!(counts.claim_transfers, 0);
    }
}

#[test]
fn zero_wire_metadata_attach_extends_the_live_candidate_generation() {
    let mut fixture = Fixture::new();
    let candidate = fixture.begin_candidate();
    fixture.update();
    fixture.assert_role_updated(candidate);
    assert_eq!(fixture.requests.plan_count(), 1);
    fixture.finish();
}

#[test]
fn zero_wire_metadata_attach_extends_the_open_neg_generation() {
    let mut fixture = Fixture::new();
    let candidate = fixture.begin_candidate();
    let neg = fixture.open_neg(candidate);
    fixture.update();
    fixture.assert_role_updated(neg);
    fixture.finish();
}

#[test]
fn zero_wire_metadata_attach_extends_the_retained_neg_owner_during_missing_id_backfill() {
    let mut fixture = Fixture::new();
    let candidate = fixture.begin_candidate();
    let neg = fixture.open_neg(candidate);
    fixture.finish_neg_with_missing_id(neg);
    fixture.update();
    fixture.assert_role_updated(neg);
    fixture.finish();
}

#[test]
fn zero_wire_metadata_attach_extends_candidate_and_backlog_generations() {
    let mut fixture = Fixture::new();
    let candidate = fixture.begin_candidate();
    let backlog = fixture.fallback_to_backlog(candidate);
    fixture.update();
    fixture.assert_role_updated(candidate);
    fixture.assert_role_updated(backlog);
    fixture.finish();
}

#[test]
fn exact_public_disconnect_retires_the_active_nip77_child_and_every_reverse_owner() {
    let mut fixture = Fixture::new();
    let handle = TransportRelayHandle { slot: 91, generation: 1 };
    let mut sessions = SessionRegistry::new();
    sessions.claim_slot(handle, &session(), false);

    let candidate = fixture.begin_candidate();
    fixture.accept(candidate, handle);
    let neg = fixture.activate_live(candidate);
    assert_eq!(fixture.repairs.live_for_plan(&Fixture::plan()), Some(candidate));
    assert_eq!(fixture.repairs.phase_of(&neg), Some(RepairPhase::Reconciling));

    assert_eq!(sessions.validated_occupant(handle, &session()), Some(session()));
    sessions.mark_disconnected(&session());
    fixture.repairs.drop_live_for_relay(&relay());
    fixture.repairs.take_handoffs_on_relay(&relay());
    fixture.repairs.take_sessions_on_relay(&relay());
    fixture.repairs.take_backfills_on_relay(&relay());
    let mut orders = Vec::new();
    fixture.requests.abandon_session_subs(&session(), &mut orders);

    assert!(!fixture.repairs.has_repair_state(&Fixture::plan()));
    assert_eq!(fixture.repairs.phase_of(&neg), None);
    assert_eq!(fixture.repairs.phase_of(&candidate), None);
    let census = fixture.requests.attempt_census();
    assert_eq!(census.attempts, 0);
    assert_eq!(census.session_keys, 0);
    assert_eq!(census.retry_jobs, 0);
    assert_eq!(census.retry_session_keys, 0);
    fixture.finish();
}

#[test]
fn refused_live_candidate_never_becomes_active_and_keeps_one_owned_retry_deadline() {
    let mut fixture = Fixture::new();
    let candidate = fixture.begin_candidate();
    fixture.refuse(candidate);
    assert_eq!(fixture.repairs.live_for_plan(&Fixture::plan()), None);
    assert_eq!(fixture.repairs.phase_of(&candidate), Some(RepairPhase::Handoff));
    assert_eq!(fixture.retry_jobs(), 1);
    let due = fixture.requests.next_retry_due().expect("one deadline");

    let retried = fixture.tick(due);
    assert!(!retried.is_empty());
    assert_eq!(fixture.repairs.live_for_plan(&Fixture::plan()), None);
    assert_eq!(fixture.requests.attempt_census().attempts, 1);
    fixture.finish();
}

#[test]
fn refused_live_candidate_retry_receives_later_zero_wire_plan_metadata() {
    let mut fixture = Fixture::new();
    let candidate = fixture.begin_candidate();
    fixture.refuse(candidate);
    fixture.update();

    let due = fixture.requests.next_retry_due().unwrap();
    let retried = fixture.tick(due);
    assert_eq!(retried.len(), 1);
    assert_eq!(retried[0].op, WireOp::Req(candidate, filter(candidate.1)));
    fixture.assert_role_updated(candidate);
    fixture.accept(candidate, TransportRelayHandle { slot: 92, generation: 1 });
    let (_, owners) = fixture.requests.settle_request(1001).unwrap();
    assert_eq!(owners.list(), vec![DemandKey(INCUMBENT), DemandKey(ADDED)]);
    fixture.finish();
}

#[test]
fn stray_eose_cannot_advance_refused_candidate_missing_id_or_backlog_roles() {
    let mut fixture = Fixture::new();
    let candidate = fixture.begin_candidate();
    fixture.refuse(candidate);
    assert!(fixture.requests.settle_request(fixture.revision).is_none());
    assert_eq!(fixture.repairs.phase_of(&candidate), Some(RepairPhase::Handoff));
    assert_eq!(fixture.repairs.live_for_plan(&Fixture::plan()), None);
    assert_eq!(fixture.retry_jobs(), 1);
    fixture.finish();

    let mut fixture = Fixture::new();
    let live = fixture.begin_candidate();
    let neg = fixture.open_neg(live);
    let missing = fixture.finish_neg_with_missing_id(neg);
    fixture.refuse(missing);
    assert!(fixture.requests.settle_request(fixture.revision).is_none());
    assert_eq!(fixture.repairs.phase_of(&missing), Some(RepairPhase::Backfill));
    assert_eq!(fixture.retry_jobs(), 1);
    fixture.finish();

    let mut fixture = Fixture::new();
    let live = fixture.begin_candidate();
    let backlog = fixture.fallback_to_backlog(live);
    fixture.refuse(backlog);
    assert!(fixture.requests.settle_request(fixture.revision).is_none());
    assert_eq!(fixture.repairs.phase_of(&backlog), Some(RepairPhase::Backfill));
    assert_eq!(fixture.retry_jobs(), 1);
    fixture.finish();
}

#[test]
fn refused_missing_id_and_backlog_roles_each_keep_one_retry_and_teardown_exactly() {
    let mut fixture = Fixture::new();
    let candidate = fixture.begin_candidate();
    let neg = fixture.open_neg(candidate);
    let missing = fixture.finish_neg_with_missing_id(neg);
    fixture.refuse(missing);
    assert_eq!(fixture.retry_jobs(), 1);
    assert_eq!(fixture.repairs.live_for_plan(&Fixture::plan()), None);
    fixture.finish();

    let mut fixture = Fixture::new();
    let candidate = fixture.begin_candidate();
    let backlog = fixture.fallback_to_backlog(candidate);
    fixture.refuse(backlog);
    assert_eq!(fixture.retry_jobs(), 1);
    assert_eq!(fixture.repairs.live_for_plan(&Fixture::plan()), None);
    fixture.finish();
}

#[test]
fn missing_id_retry_stays_claimless_when_plan_metadata_grows() {
    let mut fixture = Fixture::new();
    let candidate = fixture.begin_candidate();
    let neg = fixture.open_neg(candidate);
    let missing = fixture.finish_neg_with_missing_id(neg);
    fixture.refuse(missing);
    fixture.update();
    let due = fixture.requests.next_retry_due().unwrap();
    let retried = fixture.tick(due);
    assert_eq!(retried.len(), 1);

    assert!(fixture.requests.awaited_demands(&key(missing)).unwrap().is_empty());
    assert!(fixture.current_claims(missing).is_empty());
    let attempt = fixture.requests.attempt(&fixture.attempt_of(missing)).unwrap();
    assert!(attempt.owner_demands.is_empty());
    assert!(attempt.coverage_claims.is_empty());
    fixture.finish();
}

#[test]
fn a_role_is_told_by_its_plan() {
    let mut fixture = Fixture::new();
    let candidate = fixture.begin_candidate();
    let roles = fixture.repairs.role_owners();
    assert_eq!(
        roles.get(&candidate),
        Some(&RoleOf { plan: Fixture::plan(), filter: Some(filter(500)), follows: true })
    );
    let backlog = fixture.fallback_to_backlog(candidate);
    let roles = fixture.repairs.role_owners();
    let follower = RoleOf { plan: Fixture::plan(), filter: None, follows: true };
    assert_eq!(roles.get(&backlog), Some(&follower));
    assert_eq!(roles.get(&candidate), Some(&follower));
    assert_eq!(
        fixture.repairs.following_sub_ids(&Fixture::plan()).list(),
        vec![Fixture::plan(), candidate, backlog]
    );
    fixture.finish();
}

#[test]
fn an_update_for_another_filter_reaches_no_role() {
    let mut fixture = Fixture::new();
    let candidate = fixture.begin_candidate();
    let told = apply_plan_metadata_update(
        &mut fixture.requests,
        &fixture.repairs,
        &RequestMetadataUpdate {
            session: session(),
            sub_id: Fixture::plan(),
            filter_hash: FilterHash(9),
            added_coverage_claims: claims(&[ADDED]),
            added_owner_demands: demands(&[ADDED]),
        },
    );
    assert_eq!(told, vec![Fixture::plan()]);
    assert_eq!(
        fixture.requests.awaited_demands(&key(candidate)).unwrap().list(),
        vec![DemandKey(INCUMBENT)]
    );
    fixture.finish();
}
