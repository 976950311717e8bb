//! Writes, receipts, routes and the waiting times between attempts.

use nmp_engine::core_state::CoreState;
use nmp_engine::ids::{EventId, IntentId, PublicKey, ReceiptId, Relay, RelaySessionKey};
use nmp_engine::lane_projection::LaneRecoveryError;
use nmp_engine::pending_writes::{
    LaneWorkerProjection, PendingWrite, PendingWriteTarget, PendingWrites, PublishQueueLane,
    PublishQueueLaneKey, PublishQueueLaneState, WriteFault,
};
use nmp_engine::receipts::{PublishError, ReattachOutcome, ReceiptReplayCursor, ReceiptReplayPage};
use nmp_engine::relay_ack::{classify_relay_ack, PublishQueueTransientCause, RelayAckClass};
use nmp_engine::retry::{retry_delay_secs, unjittered_retry_delay_secs};
use nmp_engine::routing_facts::{
    AuthorRouteReplacement, AuthorRouteState, AuthorRoutes, RoutingFactStore,
};
use nmp_engine::semantic_delivery::{MaterializationDeliveryOwner, MaterializationRef};
use nmp_engine::sorted::{SortedMap, SortedSet};

const AUTHOR: PublicKey = PublicKey { hi: 1, lo: 2 };

fn event(n: u128) -> EventId {
    EventId { hi: 0, lo: n }
}

fn relays(list: &[u64]) -> SortedSet<Relay> {
    let mut set = SortedSet::new();
    for n in list {
        set.insert(Relay(*n));
    }
    set
}

fn write(intent: u64, frozen: EventId) -> PendingWrite {
    PendingWrite {
        target: PendingWriteTarget::Event,
        routing_valid: true,
        intent_id: IntentId(intent),
        accepted_at: 5,
        signing_pubkey: AUTHOR,
        frozen,
        already_signed: false,
        sign_request_in_flight: false,
        sign_generation: 0,
        event_id: None,
        pending_relays: SortedSet::new(),
        attempt_ordinals: SortedMap::new(),
        lane_projection: LaneWorkerProjection::new(),
        durable_routes: SortedSet::new(),
        route_complete: false,
        destinations_reported: false,
        route_needs: SortedSet::new(),
    }
}

fn lane(intent: u64, relay: u64, id: EventId, open: bool) -> PublishQueueLane {
    PublishQueueLane {
        key: PublishQueueLaneKey { intent_id: IntentId(intent), relay: Relay(relay), event_id: id },
        revision: 1,
        state: if open { PublishQueueLaneState::Open } else { PublishQueueLaneState::Terminal },
    }
}

fn one_write() -> PendingWrites {
    let mut writes = PendingWrites::new();
    writes.insert(ReceiptId(1), write(7, event(9)));
    writes.remember_indexes(ReceiptId(1), Some(IntentId(7)), event(9));
    writes
}

#[test]
fn a_write_is_found_by_intent_event_and_lane() {
    let mut writes = one_write();
    assert_eq!(writes.receipt_for_intent(&IntentId(7)), Some(ReceiptId(1)));
    assert_eq!(writes.receipts_for_event(&event(9)).unwrap().list(), vec![ReceiptId(1)]);
    assert!(writes.assert_consistent().is_ok());

    let both = vec![lane(7, 1, event(9), true), lane(7, 2, event(9), false)];
    let given: Result<_, String> = writes.bootstrap_projected_lanes(&IntentId(7), Ok(both));
    assert_eq!(given.unwrap().len(), 2);
    assert_eq!(writes.receipts_with_lane_on(&Relay(1)), vec![ReceiptId(1)]);
    assert_eq!(writes.receipts_with_lane_on(&Relay(2)), vec![ReceiptId(1)]);
    assert_eq!(writes.index(&ReceiptId(1)).lane_projection.required_relays(), vec![Relay(1)]);
    assert!(!writes.index(&ReceiptId(1)).lane_projection.can_close());

    let done: Result<_, String> =
        writes.commit_lane_transition(Ok(((), lane(7, 1, event(9), false))));
    assert!(done.is_ok());
    assert!(writes.index(&ReceiptId(1)).lane_projection.can_close());
    assert!(writes.assert_consistent().is_ok());

    let failed: Result<((), PublishQueueLane), String> =
        writes.commit_lane_transition(Err("disk".to_owned()));
    assert_eq!(failed.unwrap_err(), "disk");
    assert!(writes.index(&ReceiptId(1)).lane_projection.can_close());
}

#[test]
fn lanes_of_another_generation_are_refused_as_a_whole() {
    let mut writes = one_write();
    let mixed = vec![lane(7, 1, event(9), true), lane(7, 2, event(8), true)];
    let refused: Result<_, LaneRecoveryError<String>> =
        writes.recover_semantic_generation_lanes(&IntentId(7), &event(9), Ok(mixed));
    assert!(matches!(refused, Err(LaneRecoveryError::NonCurrentGeneration)));
    assert!(writes.receipts_with_lane_on(&Relay(1)).is_empty());
    let broken: Result<_, LaneRecoveryError<String>> =
        writes.recover_semantic_generation_lanes(&IntentId(7), &event(9), Err("disk".to_owned()));
    assert!(matches!(broken, Err(LaneRecoveryError::Store(e)) if e == "disk"));
    let current = vec![lane(7, 1, event(9), true)];
    let taken: Result<_, LaneRecoveryError<String>> =
        writes.recover_semantic_generation_lanes(&IntentId(7), &event(9), Ok(current));
    assert!(taken.is_ok());
    assert_eq!(writes.receipts_with_lane_on(&Relay(1)), vec![ReceiptId(1)]);
}

#[test]
fn a_write_without_its_intent_is_a_fault() {
    let mut writes = one_write();
    writes.forget_intent(&IntentId(7));
    assert_eq!(writes.assert_consistent(), Err(WriteFault::IntentNotIndexed(ReceiptId(1))));
    writes.adopt_intent(IntentId(7), ReceiptId(1));
    assert!(writes.assert_consistent().is_ok());
    writes.index_receipt_under_event(event(3), ReceiptId(8));
    assert_eq!(
        writes.assert_consistent(),
        Err(WriteFault::StrayEvent(event(3), ReceiptId(8)))
    );
    writes.unindex_receipt_from_event(&event(3), &ReceiptId(8));
    assert!(writes.assert_consistent().is_ok());
}

#[test]
fn writes_need_their_sessions_until_they_are_done() {
    let mut core =
        CoreState::new_with_routing_facts(RoutingFactStore::new(Vec::new(), Vec::new()), 20, 8);
    let mut pending = write(7, event(9));
    pending.pending_relays = relays(&[4]);
    core.pending.insert(ReceiptId(1), pending);
    core.pending.remember_indexes(ReceiptId(1), Some(IntentId(7)), event(9));
    let lanes = vec![lane(7, 1, event(9), true), lane(7, 2, event(9), false)];
    core.pending.replace_lane_projection(&ReceiptId(1), &lanes);
    let other = RelaySessionKey::unauthenticated(Relay(6));
    core.attempt_correlations.insert(0, other);
    let planned_session = RelaySessionKey::unauthenticated(Relay(5));
    let mut planned = SortedSet::new();
    planned.insert(planned_session);

    let needed = core.relay_worker_requirements(&planned);
    let author = Some(AUTHOR);
    let mut writes = needed.writes.list();
    writes.sort_by_key(|s| s.relay.0);
    assert_eq!(
        writes,
        vec![
            RelaySessionKey::new(Relay(1), author),
            RelaySessionKey::new(Relay(4), author),
            other,
        ]
    );
    assert_eq!(needed.all.len(), 4);
    assert!(needed.all.contains(&planned_session));
}

#[test]
fn the_smallest_contributor_publishes() {
    let owner =
        MaterializationDeliveryOwner::new(MaterializationRef(3), &vec![IntentId(9), IntentId(4)])
            .unwrap();
    assert_eq!(owner.physical_owner(), IntentId(4));
    assert_eq!(owner.members(), vec![IntentId(4), IntentId(9)]);
    assert_eq!(owner.materialization(), MaterializationRef(3));
    assert!(MaterializationDeliveryOwner::new(MaterializationRef(3), &Vec::new()).is_none());
}

#[test]
fn waiting_times_are_capped_and_spread() {
    let times: Vec<u64> = (0..10).map(unjittered_retry_delay_secs).collect();
    assert_eq!(times, vec![3, 3, 6, 12, 24, 48, 96, 192, 300, 300]);
    assert_eq!(unjittered_retry_delay_secs(u32::MAX), 300);
    let relay = b"wss://relay.example";
    assert_eq!(retry_delay_secs(7, relay, 1), 6);
    assert_eq!(retry_delay_secs(7, relay, 3), 13);
    assert_eq!(retry_delay_secs(7, relay, 9), 300);
    assert_eq!(retry_delay_secs(1, b"wss://other.example", 0), 6);
    assert_eq!(retry_delay_secs(u64::MAX, b"", u64::MAX), 303);
}

#[test]
fn answers_of_relays_are_told_apart_by_their_prefix() {
    let refused = |message: &str| classify_relay_ack(false, message);
    assert_eq!(classify_relay_ack(true, "rate-limited: later"), RelayAckClass::Acked);
    assert_eq!(refused("duplicate: have it"), RelayAckClass::Acked);
    assert_eq!(
        refused("rate-limited: slow down"),
        RelayAckClass::Transient(PublishQueueTransientCause::RelayRateLimited)
    );
    assert_eq!(
        refused("error: disk: full"),
        RelayAckClass::Transient(PublishQueueTransientCause::RelayError)
    );
    assert_eq!(refused("auth-required: please"), RelayAckClass::WaitingAuth);
    assert_eq!(refused("blocked: no"), RelayAckClass::Rejected);
    assert_eq!(refused("duplicate"), RelayAckClass::Rejected);
    assert_eq!(refused(""), RelayAckClass::Rejected);
    assert_eq!(refused("Error: é"), RelayAckClass::Rejected);
}

#[test]
fn errors_say_what_is_wrong() {
    let identity = PublicKey { hi: 0xab, lo: 1 };
    let author = PublicKey { hi: 0, lo: 0xf0 };
    let why = || "broken".to_owned();
    for (error, text) in [
        (PublishError::EngineShuttingDown, "engine is shutting down".to_owned()),
        (
            PublishError::PersistenceFailed { reason: why() },
            "the write could not be recorded: broken".to_owned(),
        ),
        (
            PublishError::NoCurrentAccount,
            "publishing with the current-account identity requires a current account".to_owned(),
        ),
        (
            PublishError::SignatureInvalid { reason: why() },
            "the supplied signature does not verify: broken".to_owned(),
        ),
        (
            PublishError::IdentityContradictsSignedAuthor { identity, author },
            format!(
                "explicit identity {}ab{}1 does not match the signed event author {}f0",
                "0".repeat(30),
                "0".repeat(31),
                "0".repeat(62)
            ),
        ),
        (
            PublishError::ReservedKind { kind: 22242 },
            "kind:22242 is reserved for reducer-owned relay authentication".to_owned(),
        ),
        (
            PublishError::EmptyExplicitRoute,
            "an explicit route naming no relays is refused: it never degrades into Auto".to_owned(),
        ),
        (
            PublishError::AlreadyExpired,
            "the event was already expired at acceptance".to_owned(),
        ),
        (
            PublishError::ReplaceableOperationRefused { reason: why() },
            "the replaceable operation was refused: broken".to_owned(),
        ),
    ] {
        assert_eq!(error.message(), text);
    }
}

#[test]
fn a_receipt_that_is_not_attached_has_nothing_to_replay() {
    assert!(ReattachOutcome::Attached.is_attached());
    assert!(!ReattachOutcome::NotFound.is_attached());
    let page = ReceiptReplayPage::unavailable(ReattachOutcome::RetainedButUnreadable);
    assert!(!page.is_attached());
    assert!(page.facts.is_empty());
    assert!(page.next_cursor.is_none());
    assert_eq!(ReceiptReplayCursor::new(ReceiptId(4)).receipt_id(), ReceiptId(4));
}

#[test]
fn only_a_new_answer_for_an_author_is_news() {
    let mut facts = RoutingFactStore::new(vec![Relay(1)], vec![Relay(2), Relay(1)]);
    assert_eq!(facts.operator_app_relays(), &vec![Relay(1)]);
    assert_eq!(facts.operator_fallback_relays(), &vec![Relay(2), Relay(1)]);
    assert!(matches!(facts.author_routes(&AUTHOR), AuthorRouteState::Unknown));
    let routes = || {
        AuthorRouteReplacement::Present(AuthorRoutes { write: relays(&[3]), read: relays(&[4]) })
    };
    assert!(facts.replace_author_routes(AUTHOR, routes()));
    assert!(!facts.replace_author_routes(AUTHOR, routes()));
    match facts.author_routes(&AUTHOR) {
        AuthorRouteState::Present(known) => {
            assert_eq!(known.write.list(), vec![Relay(3)]);
            assert_eq!(known.read.list(), vec![Relay(4)]);
        }
        _ => panic!("known"),
    }
    assert!(facts.replace_author_routes(AUTHOR, AuthorRouteReplacement::Absent));
    assert!(matches!(facts.author_routes(&AUTHOR), AuthorRouteState::Absent));
}

#[test]
fn a_row_that_is_taken_out_and_put_back_changes_nothing() {
    let mut writes = one_write();
    let lanes = vec![lane(7, 1, event(9), true)];
    writes.replace_lane_projection(&ReceiptId(1), &lanes);
    let row = writes.remove(&ReceiptId(1)).unwrap();
    assert!(writes.assert_consistent().is_err());
    writes.insert(ReceiptId(1), row);
    assert!(writes.assert_consistent().is_ok());
    assert_eq!(writes.receipts_with_lane_on(&Relay(1)), vec![ReceiptId(1)]);
    let row = writes.remove(&ReceiptId(1)).unwrap();
    writes.forget_indexes(ReceiptId(1), &row);
    assert!(writes.assert_consistent().is_ok());
    assert!(writes.receipt_ids().is_empty());
}

#[test]
fn only_an_ordinary_write_takes_an_ordinary_signature() {
    assert!(PendingWriteTarget::Event.accepts_ordinary_signer());
    let exact = PendingWriteTarget::ReplaceableOperation { expected_event_id: event(1) };
    assert!(!exact.accepts_ordinary_signer());
}
