//! Records that are indexed by their owners, and evidence.

use nmp_engine::evidence::{
    acquisition_evidence_for_scopes, bounded_scopes, decide_handle_acquisition, plan_is_fresh_for,
    trial_plan_scopes, wire_atoms_for_handle, AcquisitionEvidence, Freshness, HandleAcquisition,
    ScopeAcquisition, ShortfallFact, SourceEvidence, SourceStatus,
};
use nmp_engine::ids::{EventId, FilterHash, Relay, RelaySessionKey, SubId};
use nmp_engine::nip77_sessions::{NegSession, Nip77Sessions, PendingNegHandoff, RepairPhase, TemporaryReq};
use nmp_engine::owner_index::{MirrorFault, OwnerIndexed};
use nmp_engine::request_replacements::RequestReplacement;
use nmp_engine::rows::{newest_ids, nip01_newest_first};
use nmp_engine::sorted::{SortedMap, SortedSet};
use nmp_engine::wire::ConcreteFilter;

fn session(relay: u64) -> RelaySessionKey {
    RelaySessionKey::unauthenticated(Relay(relay))
}

fn sub(relay: u64, n: u64) -> SubId {
    SubId(Relay(relay), n, None)
}

fn replacement(relay: u64, n: u64) -> RequestReplacement {
    RequestReplacement {
        session: session(relay),
        prior_sub_id: sub(relay, n + 100),
        next_sub_id: sub(relay, n),
    }
}

fn three() -> OwnerIndexed<RelaySessionKey, SubId, RequestReplacement> {
    let mut index = OwnerIndexed::new("replacement");
    index.insert(sub(1, 1), replacement(1, 1));
    index.insert(sub(1, 2), replacement(1, 2));
    index.insert(sub(2, 3), replacement(2, 3));
    index
}

#[test]
fn children_leave_with_their_owner() {
    let mut index = three();
    assert_eq!(index.len(), 3);
    assert_eq!(index.owner_keys(), 2);
    assert_eq!(index.owner_edges(), 3);
    assert_eq!(index.children_of(&session(1)).list(), vec![sub(1, 1), sub(1, 2)]);
    let gone = index.take_owner(&session(1));
    assert_eq!(gone.len(), 2);
    assert_eq!(gone[0].0, sub(1, 1));
    assert_eq!(index.len(), 1);
    assert_eq!(index.owner_keys(), 1);
    assert!(index.take(&sub(2, 3)).is_some());
    assert!(index.take(&sub(2, 3)).is_none());
    assert_eq!(index.owner_keys(), 0);
    assert!(index.assert_consistent().is_ok());
}

#[test]
fn a_swap_between_owners_that_keeps_every_count_is_found() {
    let mut index = three();
    index.take(&sub(1, 2));
    let (keys, edges) = (index.owner_keys(), index.owner_edges());
    index.swap_owners_for_test(&session(1), &session(2));
    assert_eq!((index.owner_keys(), index.owner_edges()), (keys, edges));
    assert!(matches!(
        index.assert_consistent(),
        Err(MirrorFault::NotNamedByOwner { child }) if child == sub(1, 1)
    ));
}

#[test]
fn children_that_match_are_taken() {
    let mut index = three();
    let gone = index.take_where(|child: &SubId, _value: &RequestReplacement| child.1 >= 2);
    assert_eq!(gone.len(), 2);
    assert_eq!(index.iter().len(), 1);
    assert!(index.assert_consistent().is_ok());
}

fn filter() -> ConcreteFilter {
    ConcreteFilter { hash: FilterHash(1), limit: None }
}

#[test]
fn a_cancelled_plan_leaves_no_repair_behind() {
    let plan = sub(1, 500);
    let mut repairs = Nip77Sessions::new();
    repairs.insert_handoff(
        sub(1, 1),
        PendingNegHandoff {
            plan_sub_id: plan,
            probed: Relay(1),
            prior_live_sub_id: None,
            filter: filter(),
            started_at: 10,
        },
    );
    repairs.insert_session(
        sub(1, 2),
        NegSession { plan_sub_id: plan, relay: Relay(1), filter: filter(), started_at: 20 },
    );
    repairs.insert_backfill(
        sub(1, 3),
        TemporaryReq::MissingIds { plan_sub_id: plan, neg_sub_id: sub(1, 2) },
    );
    assert_eq!(repairs.phase_of(&sub(1, 1)), Some(RepairPhase::Handoff));
    assert_eq!(repairs.phase_of(&sub(1, 2)), Some(RepairPhase::Reconciling));
    assert_eq!(repairs.phase_of(&sub(1, 3)), Some(RepairPhase::Backfill));
    assert_eq!(repairs.earliest_liveness_deadline(30), Some(40));
    assert!(repairs.has_reconciling_session_on_relay(&Relay(1)));
    assert!(repairs.has_missing_ids_backfill_on_relay(&Relay(1)));
    assert!(!repairs.has_backlog_fallback_on_relay(&Relay(1)));
    assert_eq!(repairs.counts().handoffs, 1);
    assert!(repairs.assert_consistent().is_ok());

    let gone = repairs.cancel_repair_for_plan(&plan);
    assert_eq!(gone.neg_closes, vec![(sub(1, 2), Relay(1))]);
    assert!(!repairs.has_repair_state(&plan));
    assert_eq!(repairs.counts().sessions, 0);
    assert_eq!(repairs.counts().backfills, 0);
}

#[test]
fn a_handoff_is_stale_after_its_deadline() {
    let mut repairs = Nip77Sessions::new();
    repairs.insert_handoff(
        sub(1, 1),
        PendingNegHandoff {
            plan_sub_id: sub(1, 500),
            probed: Relay(1),
            prior_live_sub_id: None,
            filter: filter(),
            started_at: 10,
        },
    );
    assert!(repairs.take_stale_handoffs(39, 30).is_empty());
    assert_eq!(repairs.take_stale_handoffs(40, 30).len(), 1);
    let first = repairs.mint_incarnation();
    assert_ne!(first, repairs.mint_incarnation());
}

fn read_through(relay: u64, through: Option<u64>) -> AcquisitionEvidence {
    AcquisitionEvidence {
        sources: vec![SourceEvidence {
            relay: Relay(relay),
            status: SourceStatus::Requesting,
            reconciled_through: through,
        }],
        shortfall: Vec::new(),
    }
}

#[test]
fn freshness_needs_every_source() {
    assert!(plan_is_fresh_for(&read_through(1, Some(70)), 30, 100));
    assert!(!plan_is_fresh_for(&read_through(1, Some(69)), 30, 100));
    assert!(!plan_is_fresh_for(&read_through(1, None), 30, 100));
    let none = AcquisitionEvidence { sources: Vec::new(), shortfall: Vec::new() };
    assert!(!plan_is_fresh_for(&none, 30, 100));
    let mut short = read_through(1, Some(100));
    short.shortfall.push(ShortfallFact::NoResolvedDemand);
    assert!(!plan_is_fresh_for(&short, 30, 100));
}

#[test]
fn evidence_without_any_scope_says_so() {
    let nothing = HandleAcquisition { scopes: Vec::new() };
    let evidence: Result<Vec<AcquisitionEvidence>, String> =
        acquisition_evidence_for_scopes(0, &nothing, Ok(Vec::new()));
    assert_eq!(evidence.unwrap()[0].shortfall, vec![ShortfallFact::NoResolvedDemand]);
    let broken: Result<Vec<AcquisitionEvidence>, String> =
        acquisition_evidence_for_scopes(0, &nothing, Err("disk".to_owned()));
    assert_eq!(broken.unwrap_err(), "disk");
}

#[test]
fn a_satisfied_age_asks_no_relay() {
    let scopes = vec![Freshness::MaxAge { seconds: 30 }];
    assert_eq!(trial_plan_scopes(&scopes, Freshness::MaxAge { seconds: 30 }), Some(vec![0]));
    assert_eq!(trial_plan_scopes(&vec![Freshness::Live], Freshness::Live), None);
    let decided: Result<HandleAcquisition, String> = decide_handle_acquisition(
        &scopes,
        Freshness::MaxAge { seconds: 30 },
        Ok(vec![read_through(1, Some(90))]),
        100,
    );
    let decided = decided.unwrap();
    assert!(matches!(decided.scopes[0], ScopeAcquisition::CoverageSatisfied { .. }));
    assert!(!decided.scopes[0].contributes_wire());
}

#[test]
fn newest_come_first_and_ties_go_by_id() {
    let id = |n: u128| EventId { hi: 0, lo: n };
    assert_eq!(nip01_newest_first((20, id(5)), (10, id(1))), std::cmp::Ordering::Less);
    assert_eq!(nip01_newest_first((10, id(1)), (10, id(2))), std::cmp::Ordering::Less);
    assert_eq!(nip01_newest_first((10, id(2)), (10, id(2))), std::cmp::Ordering::Equal);
    let mut dates = SortedMap::new();
    dates.insert(id(1), 10u64);
    dates.insert(id(2), 10u64);
    dates.insert(id(3), 20u64);
    assert_eq!(newest_ids(&dates, 2).list(), vec![id(1), id(3)]);
    assert_eq!(newest_ids(&dates, 0).list(), vec![]);
}

#[test]
fn only_live_demands_ask_their_relays() {
    let atoms = |list: &[u64]| {
        let mut set = SortedSet::new();
        for n in list {
            set.insert(*n);
        }
        set
    };
    let scopes = vec![atoms(&[1, 2]), atoms(&[3]), atoms(&[2, 4])];
    let decided = HandleAcquisition {
        scopes: vec![ScopeAcquisition::Live, ScopeAcquisition::CacheOnly, ScopeAcquisition::Live],
    };
    assert_eq!(wire_atoms_for_handle(&scopes, &decided).list(), vec![1, 2, 4]);
    let cached = HandleAcquisition { scopes: vec![ScopeAcquisition::CacheOnly] };
    assert!(wire_atoms_for_handle(&scopes, &cached).is_empty());
    let mixed = vec![Freshness::Live, Freshness::MaxAge { seconds: 3 }, Freshness::CacheOnly];
    assert_eq!(bounded_scopes(&mixed, Freshness::MaxAge { seconds: 9 }), vec![0, 1]);
    assert_eq!(bounded_scopes(&mixed, Freshness::CacheOnly), vec![1]);
}
