//! What observations deliver, step by step, against a small store.

use std::collections::{BTreeMap, BTreeSet};

use nmp_engine::committed::{invalidated_events, CommitStep};
use nmp_engine::evidence::{
    AcquisitionEvidence, HandleAcquisition, ScopeAcquisition, SourceEvidence, SourceStatus,
};
use nmp_engine::ids::{EventId, FilterHash, HandleId, ObservationId, Relay};
use nmp_engine::matching::{CommittedCurrentRow, CommittedRowChanges};
use nmp_engine::observation_registry::{EvidenceRefresh, Observations};
use nmp_engine::observations::{
    effective_row_limit, observation_rows_for, pinned_relays, rows_for, DirectProjection, ReadRouting,
    RootAtom, RowsSeed, StoredRow,
};
use nmp_engine::opening::{ObservationOpen, OpenedBranch, OpeningAction, OpeningEvent};
use nmp_engine::rows::{EventSignature, Row, RowDelta, RowSignature, SigState, SignedEvent};
use nmp_engine::sorted::{SortedMap, SortedSet};
use nmp_engine::wire::ConcreteFilter;
use nostr::{EventBuilder, JsonUtil, Keys, Kind, Tag, Timestamp};

fn keys() -> Keys {
    Keys::parse("0000000000000000000000000000000000000000000000000000000000000003").unwrap()
}

fn other_keys() -> Keys {
    Keys::parse("0000000000000000000000000000000000000000000000000000000000000005").unwrap()
}

fn room_event(keys: &Keys, room: usize, ordinal: usize, created_at: u64) -> nostr::Event {
    EventBuilder::new(Kind::from(9u16), format!("room-{room}-event-{ordinal}"))
        .tag(Tag::parse(["h".to_owned(), format!("room-{room}")]).unwrap())
        .custom_created_at(Timestamp::from(created_at))
        .sign_with_keys(keys)
        .unwrap()
}

fn deletion_of(keys: &Keys, target: &nostr::Event, created_at: u64) -> nostr::Event {
    EventBuilder::new(Kind::EventDeletion, "")
        .tag(Tag::event(target.id))
        .custom_created_at(Timestamp::from(created_at))
        .sign_with_keys(keys)
        .unwrap()
}

fn room_filter(room: usize, kind: u16) -> String {
    format!("{{\"kinds\":[{kind}],\"#h\":[\"room-{room}\"]}}")
}

fn whole_room_filter(room: usize) -> String {
    format!("{{\"#h\":[\"room-{room}\"]}}")
}

fn number(bytes: &[u8]) -> u128 {
    bytes.iter().fold(0u128, |value, byte| (value << 8) | u128::from(*byte))
}

fn id_of(id: nostr::EventId) -> EventId {
    let bytes = id.to_bytes();
    EventId { hi: number(&bytes[..16]), lo: number(&bytes[16..]) }
}

fn outer_id(id: &EventId) -> nostr::EventId {
    let mut bytes = [0u8; 32];
    bytes[..16].copy_from_slice(&id.hi.to_be_bytes());
    bytes[16..].copy_from_slice(&id.lo.to_be_bytes());
    nostr::EventId::from_byte_array(bytes)
}

fn signed(event: &nostr::Event) -> SignedEvent {
    let sig: &[u8] = event.sig.as_ref();
    SignedEvent {
        id: id_of(event.id),
        created_at: event.created_at.as_secs(),
        sig: EventSignature {
            r_hi: number(&sig[..16]),
            r_lo: number(&sig[16..32]),
            s_hi: number(&sig[32..48]),
            s_lo: number(&sig[48..]),
        },
        text: event.as_json(),
    }
}

fn relay_set(relays: &BTreeSet<u64>) -> SortedSet<Relay> {
    let mut set = SortedSet::new();
    for relay in relays {
        set.insert(Relay(*relay));
    }
    set
}

fn relays_of(set: &SortedSet<Relay>) -> BTreeSet<u64> {
    set.list().iter().map(|relay| relay.0).collect()
}

/// One event that the store keeps, visible or not.
#[derive(Clone)]
struct Kept {
    event: nostr::Event,
    seen: BTreeSet<u64>,
    local: Option<SigState>,
    active: bool,
}

type Visible = BTreeMap<nostr::EventId, Kept>;

/// A store that keeps everything and works out what is visible.
#[derive(Default)]
struct Store {
    kept: Vec<Kept>,
    now: u64,
}

fn deletes(deletion: &nostr::Event, target: &nostr::Event) -> bool {
    let wanted = target.id.to_hex();
    deletion.kind == Kind::EventDeletion
        && deletion.pubkey == target.pubkey
        && deletion.tags.iter().any(|tag| {
            let parts = tag.as_slice();
            parts.len() > 1 && parts[0] == "e" && parts[1] == wanted
        })
}

fn replaceable(kind: Kind) -> bool {
    kind.as_u16() == 3 || (10_000..20_000).contains(&kind.as_u16())
}

fn expires_at(event: &nostr::Event) -> Option<u64> {
    for tag in event.tags.iter() {
        let parts = tag.as_slice();
        if parts.len() > 1 && parts[0] == "expiration" {
            return Some(parts[1].parse().unwrap());
        }
    }
    None
}

impl Store {
    fn visible(&self) -> Visible {
        let mut rows = BTreeMap::new();
        for row in self.kept.iter().filter(|row| row.active) {
            let deleted = self.kept.iter().any(|other| other.active && deletes(&other.event, &row.event));
            let superseded = replaceable(row.event.kind)
                && self.kept.iter().any(|other| {
                    other.active
                        && other.event.kind == row.event.kind
                        && other.event.pubkey == row.event.pubkey
                        && other.event.created_at > row.event.created_at
                });
            let expired = expires_at(&row.event).is_some_and(|at| at <= self.now);
            if !deleted && !superseded && !expired {
                rows.insert(row.event.id, row.clone());
            }
        }
        rows
    }

    fn put(&mut self, event: &nostr::Event, relay: Option<u64>, local: Option<SigState>) {
        if let Some(row) = self.kept.iter_mut().find(|row| row.event.id == event.id) {
            row.seen.extend(relay);
            row.active = true;
            return;
        }
        self.kept.push(Kept {
            event: event.clone(),
            seen: relay.into_iter().collect(),
            local,
            active: true,
        });
    }

    fn cancel(&mut self, event: &nostr::Event) {
        for row in self.kept.iter_mut().filter(|row| row.event.id == event.id) {
            row.active = false;
        }
    }
}

fn current(row: &Kept) -> CommittedCurrentRow {
    CommittedCurrentRow {
        event: signed(&row.event),
        observed_relays: relay_set(&row.seen),
        signature_state: row.local.unwrap_or(SigState::Signed),
    }
}

/// What differs between two states of the store.
fn changes_between(before: &Visible, after: &Visible) -> CommittedRowChanges {
    let mut changes = CommittedRowChanges {
        inserted: Vec::new(),
        removed: Vec::new(),
        provenance_grew: Vec::new(),
        updated: Vec::new(),
    };
    for (id, row) in before {
        if !after.contains_key(id) {
            changes.removed.push(signed(&row.event));
        }
    }
    for (id, row) in after {
        match before.get(id) {
            None => changes.inserted.push(current(row)),
            Some(old) if old.seen != row.seen => changes.provenance_grew.push(current(row)),
            Some(_) => {}
        }
    }
    changes
}

#[derive(Clone, Debug, PartialEq)]
enum Told {
    Added(nostr::EventId, BTreeSet<u64>),
    Updated(nostr::EventId),
    Grew(nostr::EventId, BTreeSet<u64>),
    Removed(nostr::EventId),
}

fn told(deltas: &[RowDelta]) -> Vec<Told> {
    deltas
        .iter()
        .map(|delta| match delta {
            RowDelta::Added(row) => Told::Added(outer_id(&row.id), relays_of(&row.sources)),
            RowDelta::Updated(row) => Told::Updated(outer_id(&row.id)),
            RowDelta::SourcesGrew { id, sources } => Told::Grew(outer_id(id), relays_of(sources)),
            RowDelta::Removed(id) => Told::Removed(outer_id(id)),
        })
        .collect()
}

/// One live observation of one branch, and what it was told.
struct Shown {
    id: ObservationId,
    handle: HandleId,
    filters: Vec<String>,
    limit: Option<usize>,
    subtree: usize,
    pins: Option<BTreeSet<u64>>,
    batches: Vec<Vec<Told>>,
}

impl Shown {
    fn atoms(&self) -> Vec<RootAtom> {
        self.filters
            .iter()
            .map(|text| RootAtom {
                filter: ConcreteFilter { hash: FilterHash(1), limit: self.limit },
                text: text.clone(),
            })
            .collect()
    }

    fn routing(&self) -> Vec<ReadRouting> {
        match &self.pins {
            Some(pins) => vec![ReadRouting::Explicit(pins.iter().map(|relay| Relay(*relay)).collect())],
            None => vec![ReadRouting::Auto],
        }
    }

    fn read(&self, rows: &Visible) -> SortedMap<EventId, Row> {
        let strict = self.pins.is_some();
        let pin = pinned_relays(strict, &self.routing()).map(|relays| relays_of(&relays));
        let mut reads = Vec::new();
        for text in &self.filters {
            let filter = nostr::Filter::from_json(text).unwrap();
            let read: Vec<StoredRow> = rows
                .values()
                .filter(|row| filter.match_event(&row.event, nostr::filter::MatchEventOptions::new()))
                .map(|row| StoredRow {
                    event: signed(&row.event),
                    local: row.local,
                    seen: relay_set(&row.seen),
                    visible_under_pin: match &pin {
                        Some(pins) => pins.intersection(&row.seen).next().is_some(),
                        None => true,
                    },
                })
                .collect();
            reads.push(read);
        }
        let branch = rows_for(reads, strict, &self.routing(), effective_row_limit(&self.atoms()));
        observation_rows_for(vec![branch], None)
    }
}

fn no_evidence() -> Vec<AcquisitionEvidence> {
    vec![AcquisitionEvidence { sources: Vec::new(), shortfall: Vec::new() }]
}

/// The engine around the store, as far as rows go.
struct World {
    registry: Observations,
    store: Store,
    shown: Vec<Shown>,
    reads: usize,
    compiles: usize,
    invalidated: Vec<Vec<nostr::EventId>>,
}

impl World {
    fn new() -> World {
        World {
            registry: Observations::new(),
            store: Store::default(),
            shown: Vec::new(),
            reads: 0,
            compiles: 0,
            invalidated: Vec::new(),
        }
    }

    fn subscribe(&mut self, filters: Vec<String>, limit: Option<usize>) -> usize {
        self.subscribe_as(filters, limit, 1, None)
    }

    fn subscribe_as(
        &mut self,
        filters: Vec<String>,
        limit: Option<usize>,
        subtree: usize,
        pins: Option<BTreeSet<u64>>,
    ) -> usize {
        let handle = HandleId(self.shown.len() as u64 + 100);
        let (opening, action) = self.registry.begin_opening(1, None);
        assert!(matches!(action, OpeningAction::SubscribeBranch(0)));
        let branch = OpenedBranch { handle, strict: pins.is_some() };
        let (opening, action) = self.registry.open_observation(opening, OpeningEvent::Subscribed(branch));
        assert!(matches!(action, OpeningAction::DecideFreshness(h) if h == handle));
        let live = HandleAcquisition { scopes: vec![ScopeAcquisition::Live] };
        let (opening, action) = self.registry.open_observation(opening, OpeningEvent::Decided(live));
        let id = match action {
            OpeningAction::ReadRows(id) => id,
            _ => panic!("rows are read next"),
        };
        let mut shown = Shown { id, handle, filters, limit, subtree, pins, batches: Vec::new() };
        let rows = shown.read(&self.store.visible());
        let (opening, action) = self.registry.open_observation(opening, OpeningEvent::RowsRead(rows));
        assert!(matches!(action, OpeningAction::ReconcileAndReadEvidence(o) if o == id));
        let (_, action) =
            self.registry.open_observation(opening, OpeningEvent::EvidenceRead(no_evidence()));
        match action {
            OpeningAction::Finish(ObservationOpen::Opened { id: told_id, seed }) => {
                assert_eq!(told_id, id);
                shown.batches.push(told(&seed.deltas));
            }
            _ => panic!("the observation opens"),
        }
        self.shown.push(shown);
        self.shown.len() - 1
    }

    fn reset(&mut self) {
        self.reads = 0;
        self.compiles = 0;
        self.invalidated.clear();
        for shown in &mut self.shown {
            shown.batches.clear();
        }
    }

    fn refresh(&mut self, at: usize) {
        self.reads += 1;
        let rows = self.shown[at].read(&self.store.visible());
        let id = self.shown[at].id;
        if let Some(seed) = self.registry.refresh_observation(&id, rows, no_evidence()) {
            self.deliver(at, &seed);
        }
    }

    fn deliver(&mut self, at: usize, seed: &RowsSeed) {
        self.shown[at].batches.push(told(&seed.deltas));
    }

    /// The branches whose filter takes any row of a change.
    fn affected(&self, before: &Visible, after: &Visible) -> Vec<HandleId> {
        let mut handles = Vec::new();
        for shown in &self.shown {
            let touched = shown.filters.iter().any(|text| {
                let filter = nostr::Filter::from_json(text).unwrap();
                let takes =
                    |row: &Kept| filter.match_event(&row.event, nostr::filter::MatchEventOptions::new());
                before.iter().any(|(id, row)| {
                    takes(row) && after.get(id).map(|now| now.seen.clone()) != Some(row.seen.clone())
                }) || after.iter().any(|(id, row)| takes(row) && !before.contains_key(id))
            });
            if touched {
                handles.push(shown.handle);
            }
        }
        handles
    }

    fn commit(&mut self, before: &Visible, demand_changed: bool) {
        let after = self.store.visible();
        let affected = self.affected(before, &after);
        let changes = changes_between(before, &after);
        let histories: SortedMap<HandleId, u64> = SortedMap::new();
        let steps =
            self.registry.apply_committed_mutation(&histories, &changes, &affected, demand_changed);
        for step in steps {
            match step {
                CommitStep::Invalidate(ids) => {
                    self.invalidated.push(ids.iter().map(outer_id).collect());
                }
                CommitStep::Reconcile(_) => {}
                CommitStep::Recompile => {
                    self.compiles += 1;
                    for at in 0..self.shown.len() {
                        self.refresh(at);
                    }
                }
                CommitStep::ApplyToObservation(id) => {
                    let at = self.shown.iter().position(|shown| shown.id == id).unwrap();
                    let atoms = self.shown[at].atoms();
                    let subtree = self.shown[at].subtree;
                    match self.registry.try_apply_committed_row_changes(&id, &atoms, subtree, &changes) {
                        DirectProjection::Applied(Some(seed)) => self.deliver(at, &seed),
                        DirectProjection::Applied(None) => {}
                        DirectProjection::NeedsFullRead => self.refresh(at),
                    }
                }
                _ => panic!("no other step is asked for"),
            }
        }
    }

    fn ingest(&mut self, batch: &[(nostr::Event, u64)]) {
        let before = self.store.visible();
        for (event, relay) in batch {
            self.store.put(event, Some(*relay), None);
        }
        self.commit(&before, false);
    }

    fn accept(&mut self, event: &nostr::Event, demand_changed: bool) {
        let before = self.store.visible();
        self.store.put(event, None, Some(SigState::Pending));
        self.commit(&before, demand_changed);
    }

    fn cancel(&mut self, event: &nostr::Event) {
        let before = self.store.visible();
        self.store.cancel(event);
        self.commit(&before, false);
    }

    fn expire(&mut self, now: u64) {
        let before = self.store.visible();
        self.store.now = now;
        self.commit(&before, false);
    }

    /// What is remembered is what a full read gives.
    fn assert_remembered(&self, at: usize) {
        let oracle = self.shown[at].read(&self.store.visible());
        let state = self.registry.observations.get(&self.shown[at].id).unwrap();
        let ids: Vec<EventId> = oracle.key_list();
        assert_eq!(state.last_rows.ids(), ids);
        for id in &ids {
            let row = oracle.get(id).unwrap();
            let kept = state.last_rows.get(id).unwrap();
            assert_eq!(kept.created_at, row.created_at);
            assert_eq!(kept.signature_state, row.signature);
            assert_eq!(relays_of(&kept.sources), relays_of(&row.sources));
        }
    }
}

fn only(relay: u64) -> BTreeSet<u64> {
    BTreeSet::from([relay])
}

#[test]
fn local_signed_acceptance_updates_unlimited_handle_without_projection_read() {
    let keys = keys();
    let mut world = World::new();
    world.store.put(&room_event(&keys, 7, 0, 10), Some(1), None);
    let handle = world.subscribe(vec![whole_room_filter(7)], None);
    world.reset();

    let arriving = room_event(&keys, 7, 1, 12);
    let before = world.store.visible();
    world.store.put(&arriving, None, Some(SigState::Signed));
    world.commit(&before, false);

    assert_eq!(world.reads, 0);
    assert_eq!(world.compiles, 0);
    assert_eq!(world.shown[handle].batches, vec![vec![Told::Added(arriving.id, BTreeSet::new())]]);
    world.assert_remembered(handle);
}

#[test]
fn demand_changing_local_acceptance_keeps_the_full_refresh_oracle() {
    let author = keys();
    let followed = other_keys();
    let mut world = World::new();
    let post = EventBuilder::new(Kind::TextNote, "already cached")
        .custom_created_at(Timestamp::from(10u64))
        .sign_with_keys(&followed)
        .unwrap();
    world.store.put(&post, Some(1), None);
    let handle = world.subscribe_as(Vec::new(), None, 1, None);
    world.reset();

    let contacts = EventBuilder::new(Kind::ContactList, "")
        .tag(Tag::public_key(followed.public_key()))
        .custom_created_at(Timestamp::from(20u64))
        .sign_with_keys(&author)
        .unwrap();
    world.shown[handle].filters =
        vec![format!("{{\"kinds\":[1],\"authors\":[\"{}\"]}}", followed.public_key().to_hex())];
    world.shown[handle].subtree = 2;
    world.accept(&contacts, true);

    assert_eq!(world.compiles, 1);
    assert_eq!(world.reads, 1);
    assert!(world.shown[handle].batches[0].contains(&Told::Added(post.id, only(1))));
    world.assert_remembered(handle);
}

#[test]
fn local_compensation_removes_pending_row_without_projection_read() {
    let keys = keys();
    let mut world = World::new();
    let handle = world.subscribe(vec![whole_room_filter(9)], None);
    world.reset();

    let pending = room_event(&keys, 9, 0, 21);
    world.accept(&pending, false);
    assert_eq!(world.shown[handle].batches, vec![vec![Told::Added(pending.id, BTreeSet::new())]]);
    assert_eq!(world.reads, 0);
    assert_eq!(world.compiles, 0);

    world.reset();
    world.cancel(&pending);
    assert_eq!(world.reads, 0);
    assert_eq!(world.compiles, 0);
    assert_eq!(world.shown[handle].batches, vec![vec![Told::Removed(pending.id)]]);
    world.assert_remembered(handle);
}

#[test]
fn local_top_n_compensation_uses_one_bounded_backfill_read() {
    let keys = keys();
    let mut world = World::new();
    let oldest = room_event(&keys, 10, 0, 10);
    let retained = room_event(&keys, 10, 1, 20);
    world.store.put(&oldest, Some(1), None);
    world.store.put(&retained, Some(1), None);
    let handle = world.subscribe(vec![room_filter(10, 9)], Some(2));
    world.reset();

    let pending = room_event(&keys, 10, 2, 30);
    world.accept(&pending, false);
    assert_eq!(world.reads, 0);
    assert_eq!(world.compiles, 0);
    assert!(world.shown[handle].batches[0].contains(&Told::Added(pending.id, BTreeSet::new())));
    assert!(world.shown[handle].batches[0].contains(&Told::Removed(oldest.id)));
    world.assert_remembered(handle);

    world.reset();
    world.cancel(&pending);
    assert_eq!(world.reads, 1);
    assert_eq!(world.compiles, 0);
    assert_eq!(world.shown[handle].batches.len(), 1);
    assert!(world.shown[handle].batches[0].contains(&Told::Removed(pending.id)));
    assert!(world.shown[handle].batches[0].contains(&Told::Added(oldest.id, only(1))));
    world.assert_remembered(handle);
}

#[test]
fn local_replaceable_compensation_restores_predecessor_without_projection_read() {
    let keys = keys();
    let mut world = World::new();
    let predecessor = EventBuilder::new(Kind::ContactList, "old")
        .tag(Tag::public_key(other_keys().public_key()))
        .custom_created_at(Timestamp::from(10u64))
        .sign_with_keys(&keys)
        .unwrap();
    world.store.put(&predecessor, Some(1), None);
    let handle = world.subscribe(vec!["{}".to_owned()], None);
    world.reset();

    let winner = EventBuilder::new(Kind::ContactList, "new")
        .tag(Tag::public_key(other_keys().public_key()))
        .custom_created_at(Timestamp::from(20u64))
        .sign_with_keys(&keys)
        .unwrap();
    world.accept(&winner, false);
    assert_eq!(world.reads, 0);
    assert_eq!(world.compiles, 0);
    assert_eq!(world.shown[handle].batches.len(), 1);
    assert!(world.shown[handle].batches[0].contains(&Told::Added(winner.id, BTreeSet::new())));
    assert!(world.shown[handle].batches[0].contains(&Told::Removed(predecessor.id)));
    world.assert_remembered(handle);

    world.reset();
    world.cancel(&winner);
    assert_eq!(world.reads, 0);
    assert_eq!(world.compiles, 0);
    assert_eq!(world.shown[handle].batches.len(), 1);
    assert!(world.shown[handle].batches[0].contains(&Told::Added(predecessor.id, only(1))));
    assert!(world.shown[handle].batches[0].contains(&Told::Removed(winner.id)));
    world.assert_remembered(handle);
}

#[test]
fn local_kind5_compensation_reveals_target_without_projection_read() {
    let keys = keys();
    let mut world = World::new();
    let target = room_event(&keys, 13, 0, 10);
    world.store.put(&target, Some(1), None);
    let handle = world.subscribe(vec![whole_room_filter(13)], None);
    world.reset();

    let deletion = deletion_of(&keys, &target, 20);
    world.accept(&deletion, false);
    assert_eq!(world.reads, 0);
    assert_eq!(world.compiles, 0);
    assert_eq!(world.shown[handle].batches, vec![vec![Told::Removed(target.id)]]);
    world.assert_remembered(handle);

    world.reset();
    world.cancel(&deletion);
    assert_eq!(world.reads, 0);
    assert_eq!(world.compiles, 0);
    assert_eq!(world.shown[handle].batches, vec![vec![Told::Added(target.id, only(1))]]);
    world.assert_remembered(handle);
}

#[test]
fn nip40_expiry_removes_unlimited_row_without_projection_read() {
    let keys = keys();
    let mut world = World::new();
    let expiring = EventBuilder::new(Kind::from(9u16), "expires")
        .tag(Tag::parse(["h".to_owned(), "room-11".to_owned()]).unwrap())
        .tag(Tag::expiration(Timestamp::from(100u64)))
        .custom_created_at(Timestamp::from(50u64))
        .sign_with_keys(&keys)
        .unwrap();
    world.store.put(&expiring, Some(1), None);
    let handle = world.subscribe(vec![whole_room_filter(11)], None);
    world.reset();

    world.expire(100);

    assert_eq!(world.reads, 0);
    assert_eq!(world.compiles, 0);
    assert_eq!(world.shown[handle].batches, vec![vec![Told::Removed(expiring.id)]]);
    world.assert_remembered(handle);
}

#[test]
fn mixed_local_accept_compensate_and_expiry_match_forced_full_refresh() {
    let keys = keys();
    let predecessor = EventBuilder::new(Kind::ContactList, "old")
        .custom_created_at(Timestamp::from(10u64))
        .sign_with_keys(&keys)
        .unwrap();
    let target = room_event(&keys, 31, 0, 11);
    let expiring = EventBuilder::new(Kind::TextNote, "expires")
        .tag(Tag::expiration(Timestamp::from(100u64)))
        .custom_created_at(Timestamp::from(12u64))
        .sign_with_keys(&keys)
        .unwrap();
    let mut world = World::new();
    for event in [&predecessor, &target, &expiring] {
        world.store.put(event, Some(1), None);
    }
    let handle = world.subscribe(vec!["{}".to_owned()], None);
    world.reset();
    world.assert_remembered(handle);

    let winner = EventBuilder::new(Kind::ContactList, "new")
        .custom_created_at(Timestamp::from(20u64))
        .sign_with_keys(&keys)
        .unwrap();
    world.accept(&winner, false);
    world.assert_remembered(handle);

    let deletion = deletion_of(&keys, &target, 30);
    world.accept(&deletion, false);
    world.assert_remembered(handle);

    world.accept(&room_event(&keys, 31, 1, 40), false);
    world.assert_remembered(handle);

    world.cancel(&deletion);
    world.assert_remembered(handle);

    world.cancel(&winner);
    world.assert_remembered(handle);

    world.expire(100);
    world.assert_remembered(handle);
    assert_eq!(world.reads, 0);
    let state = world.registry.observations.get(&world.shown[handle].id).unwrap();
    assert!(!state.last_rows.contains(&id_of(expiring.id)));
}

#[test]
fn ordinary_room_batch_queries_only_the_matching_handle_and_skips_router_compile() {
    let keys = keys();
    let mut world = World::new();
    for room in 0..64usize {
        for ordinal in 0..4usize {
            world.store.put(&room_event(&keys, room, ordinal, (room * 4 + ordinal + 1) as u64), Some(1), None);
        }
    }
    for room in 0..64usize {
        world.subscribe(vec![room_filter(room, 9)], Some(200));
    }
    world.reset();

    let arriving = room_event(&keys, 17, 99, 50_000);
    world.ingest(&[(arriving.clone(), 1)]);
    assert_eq!(world.reads, 0);
    assert_eq!(world.compiles, 0);
    for (room, shown) in world.shown.iter().enumerate() {
        if room == 17 {
            assert_eq!(shown.batches, vec![vec![Told::Added(arriving.id, only(1))]]);
        } else {
            assert!(shown.batches.is_empty(), "unrelated room {room} was refreshed");
        }
    }

    world.reset();
    world.ingest(&[(arriving.clone(), 1)]);
    assert_eq!(world.reads, 0);
    assert!(world.shown.iter().all(|shown| shown.batches.is_empty()));

    world.reset();
    world.ingest(&[(arriving.clone(), 2)]);
    assert_eq!(world.reads, 0);
    assert_eq!(world.compiles, 0);
    for (room, shown) in world.shown.iter().enumerate() {
        if room == 17 {
            assert_eq!(shown.batches, vec![vec![Told::Grew(arriving.id, BTreeSet::from([1, 2]))]]);
        } else {
            assert!(shown.batches.is_empty(), "unrelated room {room} was refreshed");
        }
    }
}

#[test]
fn top_n_insert_queries_only_its_handle_and_emits_eviction_delta() {
    let keys = keys();
    let mut world = World::new();
    let oldest = room_event(&keys, 7, 0, 10);
    world.store.put(&oldest, Some(1), None);
    world.store.put(&room_event(&keys, 7, 1, 20), Some(1), None);
    world.store.put(&room_event(&keys, 8, 0, 10), Some(1), None);
    let affected = world.subscribe(vec![room_filter(7, 9)], Some(2));
    let other = world.subscribe(vec![room_filter(8, 9)], Some(2));
    world.reset();

    let newest = room_event(&keys, 7, 2, 40);
    world.ingest(&[(newest.clone(), 1)]);

    assert_eq!(world.reads, 0);
    assert_eq!(world.shown[affected].batches.len(), 1);
    assert!(world.shown[affected].batches[0].contains(&Told::Added(newest.id, only(1))));
    assert!(world.shown[affected].batches[0].contains(&Told::Removed(oldest.id)));
    assert!(world.shown[other].batches.is_empty());
}

#[test]
fn top_n_visible_removal_uses_one_bounded_backfill_read() {
    let keys = keys();
    let mut world = World::new();
    let oldest = room_event(&keys, 21, 0, 10);
    let newest = room_event(&keys, 21, 2, 30);
    world.store.put(&oldest, Some(1), None);
    world.store.put(&room_event(&keys, 21, 1, 20), Some(1), None);
    world.store.put(&newest, Some(1), None);
    let handle = world.subscribe(vec![room_filter(21, 9)], Some(2));
    world.reset();

    world.ingest(&[(deletion_of(&keys, &newest, 40), 1)]);

    assert_eq!(world.reads, 1);
    assert_eq!(world.shown[handle].batches.len(), 1);
    assert!(world.shown[handle].batches[0].contains(&Told::Added(oldest.id, only(1))));
    assert!(world.shown[handle].batches[0].contains(&Told::Removed(newest.id)));
}

#[test]
fn top_n_equal_timestamp_id_tie_is_applied_without_store_read() {
    let keys = keys();
    let tied = |content: &str| {
        EventBuilder::new(Kind::from(9u16), content)
            .tag(Tag::parse(["h".to_owned(), "room-22".to_owned()]).unwrap())
            .custom_created_at(Timestamp::from(50u64))
            .sign_with_keys(&keys)
            .unwrap()
    };
    let mut pair = [tied("a"), tied("b")];
    pair.sort_by_key(|event| event.id);
    let arriving = pair[0].clone();
    let seeded = pair[1].clone();
    let mut world = World::new();
    world.store.put(&seeded, Some(1), None);
    let handle = world.subscribe(vec![room_filter(22, 9)], Some(1));
    world.reset();

    world.ingest(&[(arriving.clone(), 1)]);

    assert_eq!(world.reads, 0);
    assert_eq!(world.shown[handle].batches.len(), 1);
    assert!(world.shown[handle].batches[0].contains(&Told::Added(arriving.id, only(1))));
    assert!(world.shown[handle].batches[0].contains(&Told::Removed(seeded.id)));
}

#[test]
fn same_batch_insert_and_delete_is_a_zero_query_zero_delta_net_noop() {
    let keys = keys();
    let mut world = World::new();
    let handle = world.subscribe(vec![room_filter(23, 9)], Some(200));
    world.reset();
    let target = room_event(&keys, 23, 0, 10);
    let deletion = deletion_of(&keys, &target, 20);

    world.ingest(&[(target, 1), (deletion, 1)]);

    assert_eq!(world.reads, 0);
    assert!(world.shown[handle].batches.is_empty());
}

#[test]
fn same_batch_multi_relay_insert_emits_complete_initial_sources_without_read() {
    let keys = keys();
    let mut world = World::new();
    let handle = world.subscribe(vec![room_filter(24, 9)], Some(200));
    world.reset();
    let event = room_event(&keys, 24, 0, 10);

    world.ingest(&[(event.clone(), 1), (event.clone(), 2)]);

    assert_eq!(world.reads, 0);
    assert_eq!(world.shown[handle].batches, vec![vec![Told::Added(event.id, BTreeSet::from([1, 2]))]]);
}

#[test]
fn replaceable_supersession_invalidates_old_and_new_matches_only() {
    let keys = keys();
    let replaceable = |room: usize, created_at: u64| {
        EventBuilder::new(Kind::from(10_000u16), format!("winner-{room}"))
            .tag(Tag::parse(["h".to_owned(), format!("room-{room}")]).unwrap())
            .custom_created_at(Timestamp::from(created_at))
            .sign_with_keys(&keys)
            .unwrap()
    };
    let mut world = World::new();
    let old = replaceable(3, 10);
    world.store.put(&old, Some(1), None);
    for room in [3usize, 4, 5] {
        world.subscribe(vec![room_filter(room, 10_000)], Some(10));
    }
    world.reset();

    let new = replaceable(4, 20);
    world.ingest(&[(new.clone(), 1)]);

    assert_eq!(world.shown[1].batches, vec![vec![Told::Added(new.id, only(1))]]);
    assert_eq!(world.shown[0].batches, vec![vec![Told::Removed(old.id)]]);
    assert!(world.shown[2].batches.is_empty());
    assert_eq!(world.reads, 0);
}

#[test]
fn kind_five_removed_row_invalidates_matching_handle_without_shape_luck() {
    let keys = keys();
    let mut world = World::new();
    let target = room_event(&keys, 12, 0, 10);
    world.store.put(&target, Some(1), None);
    let affected = world.subscribe(vec![room_filter(12, 9)], Some(200));
    let unrelated = world.subscribe(vec![room_filter(13, 9)], Some(200));
    world.reset();

    world.ingest(&[(deletion_of(&keys, &target, 20), 1)]);

    assert_eq!(world.reads, 0);
    assert_eq!(world.shown[affected].batches, vec![vec![Told::Removed(target.id)]]);
    assert!(world.shown[unrelated].batches.is_empty());
}

#[test]
fn strict_pinned_projection_keeps_provenance_filtering_on_the_refresh_oracle() {
    let keys = keys();
    let (pinned, other) = (1u64, 2u64);
    let mut world = World::new();
    let handle = world.subscribe_as(vec![room_filter(25, 9)], Some(200), 1, Some(only(pinned)));
    world.reset();

    let event = room_event(&keys, 25, 0, 10);
    world.ingest(&[(event.clone(), other)]);
    assert_eq!(world.reads, 1);
    assert!(world.shown[handle].batches.is_empty());

    world.reset();
    world.ingest(&[(event.clone(), pinned)]);
    assert_eq!(world.reads, 1);
    assert_eq!(
        world.shown[handle].batches,
        vec![vec![Told::Added(event.id, BTreeSet::from([pinned, other]))]]
    );
}

#[test]
fn one_resolved_root_with_a_derived_subtree_uses_the_refresh_oracle() {
    let followed = other_keys();
    let mut world = World::new();
    let filter = format!("{{\"kinds\":[9],\"authors\":[\"{}\"]}}", followed.public_key().to_hex());
    let handle = world.subscribe_as(vec![filter], None, 2, None);
    world.reset();

    let post = EventBuilder::new(Kind::from(9u16), "followed post")
        .custom_created_at(Timestamp::from(20u64))
        .sign_with_keys(&followed)
        .unwrap();
    world.ingest(&[(post.clone(), 1)]);

    assert_eq!(world.reads, 1);
    assert_eq!(world.shown[handle].batches, vec![vec![Told::Added(post.id, only(1))]]);
}

#[test]
fn incomplete_projection_forces_one_recovery_read_before_direct_deltas_resume() {
    let keys = keys();
    let mut world = World::new();
    let handle = world.subscribe(vec![whole_room_filter(28)], None);
    world.reset();
    let id = world.shown[handle].id;
    world.registry.refresh_failed(&id);

    let first = room_event(&keys, 28, 0, 10);
    world.ingest(&[(first.clone(), 1)]);
    assert_eq!(world.reads, 1);
    assert!(world.registry.observations.get(&id).unwrap().projection_complete);
    assert_eq!(world.shown[handle].batches, vec![vec![Told::Added(first.id, only(1))]]);

    world.reset();
    let second = room_event(&keys, 28, 1, 20);
    world.ingest(&[(second.clone(), 1)]);
    assert_eq!(world.reads, 0);
    assert_eq!(world.shown[handle].batches, vec![vec![Told::Added(second.id, only(1))]]);
}

#[test]
fn fixed_seed_mixed_batches_match_a_forced_full_refresh_after_every_commit() {
    let keys = keys();
    let (first, second) = (1u64, 2u64);
    let mut world = World::new();
    let handle = world.subscribe(vec![whole_room_filter(26)], None);
    world.reset();
    let mut app_rows: BTreeMap<nostr::EventId, BTreeSet<u64>> = BTreeMap::new();
    let mut candidates: Vec<nostr::Event> = Vec::new();
    let mut seed = 0x4d59_5df4_d0f3_3173u64;

    for step in 0..256u64 {
        seed = seed.wrapping_mul(6_364_136_223_846_793_005).wrapping_add(1_442_695_040_888_963_407);
        let created_at = 1_000 + step / 3;
        let batch = match seed % 5 {
            0 => {
                let event = room_event(&keys, 26, step as usize, created_at);
                candidates.push(event.clone());
                vec![(event, first)]
            }
            1 if !candidates.is_empty() => {
                let event = candidates[(seed as usize) % candidates.len()].clone();
                vec![(event, second)]
            }
            2 if !candidates.is_empty() => {
                let target = &candidates[(seed as usize) % candidates.len()];
                vec![(deletion_of(&keys, target, 100_000 + step), first)]
            }
            3 => {
                let event = EventBuilder::new(Kind::from(10_000u16), format!("revision-{step}"))
                    .tag(Tag::parse(["h".to_owned(), "room-26".to_owned()]).unwrap())
                    .custom_created_at(Timestamp::from(200_000 + step))
                    .sign_with_keys(&keys)
                    .unwrap();
                candidates.push(event.clone());
                vec![(event, first)]
            }
            _ => vec![(room_event(&keys, 27, step as usize, created_at), first)],
        };

        world.reset();
        world.ingest(&batch);
        assert_eq!(world.reads, 0, "unlimited ordinary handle re-read history at step {step}");

        for delta in world.shown[handle].batches.iter().flatten() {
            match delta {
                Told::Added(id, sources) => {
                    app_rows.insert(*id, sources.clone());
                }
                Told::Grew(id, sources) => {
                    *app_rows.get_mut(id).expect("source growth follows add") = sources.clone();
                }
                Told::Removed(id) => {
                    app_rows.remove(id);
                }
                Told::Updated(_) => {}
            }
        }

        world.assert_remembered(handle);
        let state = world.registry.observations.get(&world.shown[handle].id).unwrap();
        assert_eq!(app_rows.len(), state.last_rows.len());
        for (id, sources) in &app_rows {
            assert_eq!(*sources, relays_of(&state.last_rows.get(&id_of(*id)).unwrap().sources));
        }
    }
}

#[test]
fn resolver_internal_handle_is_filtered_before_any_projection_read() {
    let registry = Observations::new();
    let internal = HandleId(1);
    assert!(registry.observations_of_branches(&vec![internal]).is_empty());
    let histories: SortedMap<HandleId, u64> = SortedMap::new();
    let nothing = changes_between(&Visible::new(), &Visible::new());
    assert!(registry.apply_committed_mutation(&histories, &nothing, &vec![internal], false).is_empty());
}

#[test]
fn eose_refreshes_live_evidence_without_event_index_query() {
    let mut world = World::new();
    let handle = world.subscribe(vec!["{\"kinds\":[1]}".to_owned()], None);
    world.reset();
    let id = world.shown[handle].id;

    assert_eq!(world.registry.evidence_refresh(&id), EvidenceRefresh::EvidenceOnly);
    let source = SourceEvidence {
        relay: Relay(7),
        status: SourceStatus::Requesting,
        reconciled_through: Some(101),
    };
    let evidence = vec![AcquisitionEvidence { sources: vec![source], shortfall: Vec::new() }];
    let seed = world.registry.refresh_observation_evidence(&id, evidence).expect("evidence advances");
    assert!(seed.deltas.is_empty());
    assert_eq!(seed.evidence[0].sources[0].reconciled_through, Some(101));
    assert_eq!(world.reads, 0);

    let again = vec![AcquisitionEvidence { sources: vec![source], shortfall: Vec::new() }];
    assert!(world.registry.refresh_observation_evidence(&id, again).is_none());
}

#[test]
fn evidence_only_refresh_falls_back_for_incomplete_projections() {
    let mut world = World::new();
    let handle = world.subscribe(vec!["{\"kinds\":[1]}".to_owned()], None);
    world.reset();
    let id = world.shown[handle].id;
    world.registry.refresh_failed(&id);

    assert_eq!(world.registry.evidence_refresh(&id), EvidenceRefresh::FullRead);
    world.refresh(handle);

    assert_eq!(world.reads, 1);
    assert!(world.registry.observations.get(&id).unwrap().projection_complete);
    assert_eq!(world.registry.evidence_refresh(&ObservationId(99)), EvidenceRefresh::Nothing);
}

#[test]
fn a_promoted_row_is_told_as_updated() {
    let keys = keys();
    let mut world = World::new();
    let handle = world.subscribe(vec![whole_room_filter(40)], None);
    let event = room_event(&keys, 40, 0, 10);
    world.accept(&event, false);
    world.reset();

    world.store.kept[0].local = Some(SigState::Signed);
    let changes = CommittedRowChanges {
        inserted: Vec::new(),
        removed: Vec::new(),
        provenance_grew: Vec::new(),
        updated: vec![current(&world.store.kept[0])],
    };
    let id = world.shown[handle].id;
    let atoms = world.shown[handle].atoms();
    match world.registry.try_apply_committed_row_changes(&id, &atoms, 1, &changes) {
        DirectProjection::Applied(Some(seed)) => match &seed.deltas[0] {
            RowDelta::Updated(row) => {
                assert_eq!(outer_id(&row.id), event.id);
                assert!(matches!(row.signature, RowSignature::Signed(_)));
            }
            _ => panic!("the row is restated"),
        },
        _ => panic!("the change is applied"),
    }
    world.assert_remembered(handle);
}

#[test]
fn unseen_changes_tell_nothing() {
    let keys = keys();
    let mut world = World::new();
    let handle = world.subscribe(vec![whole_room_filter(41)], None);
    world.reset();
    let before = world.store.visible();
    world.store.put(&room_event(&keys, 42, 0, 10), Some(1), None);
    let changes = changes_between(&before, &world.store.visible());
    assert!(invalidated_events(&changes).is_empty());
    let id = world.shown[handle].id;
    let atoms = world.shown[handle].atoms();
    assert!(matches!(
        world.registry.try_apply_committed_row_changes(&id, &atoms, 1, &changes),
        DirectProjection::Applied(None)
    ));
}

#[test]
fn a_refused_opening_leaves_nothing_behind() {
    let mut registry = Observations::new();
    let (opening, _) = registry.begin_opening(2, Some(5));
    let first = OpenedBranch { handle: HandleId(1), strict: false };
    let (opening, action) = registry.open_observation(opening, OpeningEvent::Subscribed(first));
    assert!(matches!(action, OpeningAction::SubscribeBranch(1)));
    let (_, action) =
        registry.open_observation(opening, OpeningEvent::SubscribeRefused("no store".to_owned()));
    match action {
        OpeningAction::Finish(ObservationOpen::Refused { reason, branches }) => {
            assert_eq!(branches, vec![HandleId(1)]);
            assert_eq!(reason, "canonical query resolution failed: no store");
        }
        _ => panic!("refused"),
    }

    for (failing, prefix) in [
        ("decision", "query freshness decision failed: broken"),
        ("rows", "canonical row projection failed: broken"),
        ("evidence", "acquisition evidence projection failed: broken"),
    ] {
        let (opening, _) = registry.begin_opening(1, None);
        let branch = OpenedBranch { handle: HandleId(3), strict: false };
        let (opening, _) = registry.open_observation(opening, OpeningEvent::Subscribed(branch));
        let broken = "broken".to_owned();
        let action = if failing == "decision" {
            registry.open_observation(opening, OpeningEvent::DecisionFailed(broken)).1
        } else {
            let live = HandleAcquisition { scopes: vec![ScopeAcquisition::Live] };
            let (opening, _) = registry.open_observation(opening, OpeningEvent::Decided(live));
            assert!(registry.handles.contains(&HandleId(3)));
            if failing == "rows" {
                registry.open_observation(opening, OpeningEvent::RowsFailed(broken)).1
            } else {
                let (opening, _) =
                    registry.open_observation(opening, OpeningEvent::RowsRead(SortedMap::new()));
                registry.open_observation(opening, OpeningEvent::EvidenceFailed(broken)).1
            }
        };
        match action {
            OpeningAction::Finish(ObservationOpen::Refused { reason, branches }) => {
                assert_eq!(branches, vec![HandleId(3)]);
                assert_eq!(reason, prefix);
            }
            _ => panic!("refused"),
        }
        assert!(registry.handles.is_empty());
        assert!(registry.observations.is_empty());
    }
}

#[test]
fn a_query_without_branches_opens_at_once() {
    let mut registry = Observations::new();
    let (_, action) = registry.begin_opening(0, None);
    assert!(matches!(action, OpeningAction::ReadRows(ObservationId(0))));
    assert_eq!(registry.next_observation_id, 1);
}

#[test]
fn removed_events_are_invalidated_before_anything_else() {
    let keys = keys();
    let mut world = World::new();
    let (first, second) = (room_event(&keys, 50, 0, 10), room_event(&keys, 51, 0, 11));
    world.store.put(&first, Some(1), None);
    world.store.put(&second, Some(1), None);
    let before = world.store.visible();
    world.store.cancel(&first);
    world.store.cancel(&second);
    let changes = changes_between(&before, &world.store.visible());
    let ids: Vec<EventId> = changes.removed.iter().map(|event| event.id).collect();
    assert_eq!(ids.len(), 2);
    let histories: SortedMap<HandleId, u64> = SortedMap::new();
    let none = Vec::new();
    for (changed, recompiled, broad, rest) in [
        (false, false, false, vec![]),
        (true, false, false, vec![CommitStep::Recompile]),
        (false, true, false, vec![CommitStep::Recompile]),
        (
            false,
            false,
            true,
            vec![CommitStep::RefreshAllObservations, CommitStep::RefreshAllHistories],
        ),
    ] {
        let steps = world.registry.apply_committed_mutation_with(
            &histories, &changes, &none, changed, recompiled, broad,
        );
        assert_eq!(steps[0], CommitStep::Invalidate(ids.clone()));
        assert_eq!(steps[1..], rest[..]);
    }

    let handle = world.subscribe(vec![whole_room_filter(52)], None);
    let target = room_event(&keys, 52, 0, 12);
    world.ingest(&[(target.clone(), 1)]);
    world.reset();
    world.ingest(&[(deletion_of(&keys, &target, 20), 1)]);
    assert_eq!(world.invalidated, vec![vec![target.id]]);
    assert_eq!(world.shown[handle].batches, vec![vec![Told::Removed(target.id)]]);
}

#[test]
fn strictness_needs_relays_to_be_strict_about() {
    let named = vec![ReadRouting::Auto, ReadRouting::Explicit(vec![Relay(4), Relay(3)])];
    assert_eq!(pinned_relays(true, &named).unwrap().list(), vec![Relay(3), Relay(4)]);
    assert!(pinned_relays(false, &named).is_none());
    assert!(pinned_relays(true, &vec![ReadRouting::Auto]).is_none());
    let row = || StoredRow {
        event: signed(&room_event(&keys(), 60, 0, 1)),
        local: None,
        seen: relay_set(&only(9)),
        visible_under_pin: false,
    };
    assert_eq!(rows_for(vec![vec![row()]], true, &vec![ReadRouting::Auto], None).len(), 1);
    assert_eq!(rows_for(vec![vec![row()]], false, &named, None).len(), 1);
    assert_eq!(rows_for(vec![vec![row()]], true, &named, None).len(), 0);
}
