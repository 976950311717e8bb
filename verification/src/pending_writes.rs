//! Typed ownership for the durable write obligations that the reducer holds
//! open, and the indexes that mirror them.

use vstd::prelude::*;

use crate::ids::{EventId, IntentId, PublicKey, ReceiptId, Relay};
use crate::key::{is_listing, lemma_listing_members, lemma_push_contains, same, Pair};
use crate::reverse::{held_by, ReverseIndex};
use crate::sorted::{SortedMap, SortedSet};

verus! {

/// Names one durable publish lane: one frozen event of one intent on one relay.
#[derive(Clone, Copy, Debug, PartialEq, Eq, Structural)]
pub struct PublishQueueLaneKey {
    pub intent_id: IntentId,
    pub relay: Relay,
    pub event_id: EventId,
}

/// Whether a lane still has work to do.
#[derive(Clone, Copy, Debug, PartialEq, Eq, Structural)]
pub enum PublishQueueLaneState {
    Open,
    Terminal,
}

/// The committed state of one durable publish lane.
#[derive(Clone, Copy, Debug, PartialEq, Eq, Structural)]
pub struct PublishQueueLane {
    pub key: PublishQueueLaneKey,
    pub revision: u64,
    pub state: PublishQueueLaneState,
}

/// Rebuildable view of one intent's durable lane rows.
pub struct LaneWorkerProjection {
    pub persisted: SortedSet<Relay>,
    pub nonterminal: SortedSet<Relay>,
    /// The latest committed open row by relay.
    pub current_nonterminal: SortedMap<Relay, PublishQueueLane>,
}

/// The last state that a run of lane rows gives one relay.
pub open spec fn last_lane(lanes: Seq<PublishQueueLane>, relay: Relay) -> Option<PublishQueueLane>
    decreases lanes.len(),
{
    if lanes.len() == 0 {
        None
    } else if lanes.last().key.relay == relay {
        Some(lanes.last())
    } else {
        last_lane(lanes.drop_last(), relay)
    }
}

/// Whether a lane still asks for a worker.
pub open spec fn is_open(lane: PublishQueueLane) -> bool {
    lane.state != PublishQueueLaneState::Terminal
}

impl LaneWorkerProjection {
    /// Every relay with work left has a persisted lane and a current row.
    pub open spec fn wf(&self) -> bool {
        &&& self.nonterminal@ == self.current_nonterminal@.dom()
        &&& self.nonterminal@.subset_of(self.persisted@)
    }

    /// The projection says of each relay what the last of its rows says.
    pub open spec fn projects(&self, lanes: Seq<PublishQueueLane>) -> bool {
        &&& self.wf()
        &&& forall|r: Relay| #[trigger] self.persisted@.contains(r) <==> last_lane(lanes, r) is Some
        &&& forall|r: Relay| #[trigger]
            self.nonterminal@.contains(r) <==> (last_lane(lanes, r) matches Some(lane) && is_open(lane))
        &&& forall|r: Relay| #[trigger]
            self.current_nonterminal@.contains_key(r) ==> Some(self.current_nonterminal@[r])
                == last_lane(lanes, r)
    }

    /// The projection of no lanes.
    pub fn new() -> (r: Self)
        ensures
            r.projects(Seq::empty()),
            r.persisted@ == Set::<Relay>::empty(),
            r.nonterminal@ == Set::<Relay>::empty(),
    {
        let r = LaneWorkerProjection {
            persisted: SortedSet::new(),
            nonterminal: SortedSet::new(),
            current_nonterminal: SortedMap::new(),
        };
        assert(r.nonterminal@ =~= r.current_nonterminal@.dom());
        r
    }

    /// Rebuilds the projection from every retained lane of an intent.
    pub fn from_recovered(lanes: &Vec<PublishQueueLane>) -> (r: Self)
        ensures
            r.projects(lanes@),
    {
        let mut r = LaneWorkerProjection::new();
        let mut i: usize = 0;
        assert(lanes@.take(0) =~= Seq::<PublishQueueLane>::empty());
        while i < lanes.len()
            invariant
                i <= lanes@.len(),
                r.projects(lanes@.take(i as int)),
            decreases lanes@.len() - i,
        {
            let lane = lanes[i];
            let ghost before = r;
            r.apply(&lane);
            proof {
                let next = lanes@.take(i + 1);
                assert(next.drop_last() =~= lanes@.take(i as int));
                assert(next.last() == lane);
                assert forall|x: Relay| #[trigger] r.persisted@.contains(x) <==> last_lane(next, x) is Some by {
                    assert(before.persisted@.contains(x) <==> last_lane(lanes@.take(i as int), x) is Some);
                }
                assert forall|x: Relay| #[trigger]
                    r.nonterminal@.contains(x) <==> (last_lane(next, x) matches Some(l) && is_open(l)) by {
                    assert(before.nonterminal@.contains(x) <==> (last_lane(lanes@.take(i as int), x)
                        matches Some(l) && is_open(l)));
                }
                assert forall|x: Relay| #[trigger] r.current_nonterminal@.contains_key(x) implies Some(
                    r.current_nonterminal@[x],
                ) == last_lane(next, x) by {
                    if x != lane.key.relay {
                        assert(before.current_nonterminal@.contains_key(x));
                    }
                }
            }
            i = i + 1;
        }
        assert(lanes@.take(i as int) =~= lanes@);
        r
    }

    /// Applies one committed lane state. Says whether the relay is new to the
    /// projection and so needs reverse indexing.
    pub fn apply(&mut self, lane: &PublishQueueLane) -> (newly_persisted: bool)
        requires
            old(self).wf(),
        ensures
            final(self).wf(),
            newly_persisted == !old(self).persisted@.contains(lane.key.relay),
            final(self).persisted@ == old(self).persisted@.insert(lane.key.relay),
            final(self).nonterminal@ == (if is_open(*lane) {
                old(self).nonterminal@.insert(lane.key.relay)
            } else {
                old(self).nonterminal@.remove(lane.key.relay)
            }),
            final(self).current_nonterminal@ == (if is_open(*lane) {
                old(self).current_nonterminal@.insert(lane.key.relay, *lane)
            } else {
                old(self).current_nonterminal@.remove(lane.key.relay)
            }),
    {
        let relay = lane.key.relay;
        let newly_persisted = self.persisted.insert(relay);
        match lane.state {
            PublishQueueLaneState::Terminal => {
                self.nonterminal.remove(&relay);
                self.current_nonterminal.remove(&relay);
            },
            PublishQueueLaneState::Open => {
                self.nonterminal.insert(relay);
                self.current_nonterminal.insert(relay, *lane);
            },
        }
        assert(self.nonterminal@ =~= self.current_nonterminal@.dom());
        newly_persisted
    }

    /// The relays that still need a worker, in rising order.
    pub fn required_relays(&self) -> (q: Vec<Relay>)
        ensures
            is_listing(q@, self.nonterminal@),
    {
        self.nonterminal.list()
    }

    /// Whether every lane is known and none has work left.
    pub fn can_close(&self) -> (b: bool)
        ensures
            b == (self.persisted@ != Set::<Relay>::empty() && self.nonterminal@ == Set::<
                Relay,
            >::empty()),
    {
        !self.persisted.is_empty() && self.nonterminal.is_empty()
    }
}

/// What a write is to produce.
#[derive(Clone, Copy, Debug, PartialEq, Eq, Structural)]
pub enum PendingWriteTarget {
    Event,
    /// One exact generation of a replaceable value.
    ReplaceableOperation { expected_event_id: EventId },
}

impl PendingWriteTarget {
    /// Whether an ordinary signer result may promote the write.
    pub fn accepts_ordinary_signer(&self) -> (b: bool)
        ensures
            b == (*self is Event),
    {
        match self {
            PendingWriteTarget::Event => true,
            PendingWriteTarget::ReplaceableOperation { .. } => false,
        }
    }
}

/// One open write obligation.
pub struct PendingWrite {
    pub target: PendingWriteTarget,
    /// False only when a persisted routing snapshot cannot be decoded.
    pub routing_valid: bool,
    pub intent_id: IntentId,
    /// When the obligation was accepted.
    pub accepted_at: u64,
    /// The signer identity frozen at acceptance.
    pub signing_pubkey: PublicKey,
    /// The id of the exact body that was accepted.
    pub frozen: EventId,
    pub already_signed: bool,
    /// At most one signer operation is outstanding.
    pub sign_request_in_flight: bool,
    pub sign_generation: u64,
    pub event_id: Option<EventId>,
    /// Relays sent to and not yet terminal.
    pub pending_relays: SortedSet<Relay>,
    /// The started ordinal that awaits its end, by relay.
    pub attempt_ordinals: SortedMap<Relay, u64>,
    pub lane_projection: LaneWorkerProjection,
    /// Every relay that the intent has ever durably resolved to.
    pub durable_routes: SortedSet<Relay>,
    /// False while resolution still waits for a provider.
    pub route_complete: bool,
    /// Whether the destinations have been reported at least once.
    pub destinations_reported: bool,
    /// The authors whose routes the last resolution still needs.
    pub route_needs: SortedSet<PublicKey>,
}

/// The lanes that a set of rows persists, by relay.
pub open spec fn persisted_lanes(rows: Map<ReceiptId, PendingWrite>) -> Set<Pair<Relay, ReceiptId>> {
    Set::new(
        |e: Pair<Relay, ReceiptId>|
            rows.contains_key(e.1) && rows[e.1].lane_projection.persisted@.contains(e.0),
    )
}

/// The lane index after one receipt moves from one set of relays to another.
pub open spec fn moved_lanes(
    lanes: Set<Pair<Relay, ReceiptId>>,
    id: ReceiptId,
    previous: Set<Relay>,
    next: Set<Relay>,
) -> Set<Pair<Relay, ReceiptId>> {
    Set::new(
        |e: Pair<Relay, ReceiptId>|
            if e.1 == id && previous.contains(e.0) != next.contains(e.0) {
                next.contains(e.0)
            } else {
                lanes.contains(e)
            },
    )
}

/// How the indexes can disagree with the rows.
#[derive(Clone, Copy, Debug, PartialEq, Eq)]
pub enum WriteFault {
    /// A row is not the one that its own intent names.
    IntentNotIndexed(ReceiptId),
    /// A row persists a lane that the lane index does not know.
    LaneNotIndexed(ReceiptId, Relay),
    /// An intent names a receipt that is not live, or not its own.
    StrayIntent(IntentId, ReceiptId),
    /// An event names a receipt that is not live.
    StrayEvent(EventId, ReceiptId),
    /// The lane index names a lane that no live row persists.
    StrayLane(Relay, ReceiptId),
}

/// Every open durable write obligation, keyed by the receipt that owns it.
pub struct PendingWrites {
    pending: SortedMap<ReceiptId, PendingWrite>,
    intent_receipts: SortedMap<IntentId, ReceiptId>,
    event_to_receipts: ReverseIndex<EventId, ReceiptId>,
    receipts_by_lane_relay: ReverseIndex<Relay, ReceiptId>,
}

impl PendingWrites {
    /// The live rows.
    pub closed spec fn rows(&self) -> Map<ReceiptId, PendingWrite> {
        self.pending@
    }

    /// Which receipt owns each intent.
    pub closed spec fn intents(&self) -> Map<IntentId, ReceiptId> {
        self.intent_receipts@
    }

    /// Which receipts own the exact bytes of each event.
    pub closed spec fn events(&self) -> Set<Pair<EventId, ReceiptId>> {
        self.event_to_receipts@
    }

    /// Which receipts have a lane on each relay.
    pub closed spec fn lanes(&self) -> Set<Pair<Relay, ReceiptId>> {
        self.receipts_by_lane_relay@
    }

    /// The intent index is a bijection with the rows' own intents, the event
    /// index names live rows only, and the lane index is exactly the lanes that
    /// the rows persist.
    pub open spec fn consistent(&self) -> bool {
        &&& forall|id: ReceiptId| #[trigger]
            self.rows().contains_key(id) ==> self.intents().contains_key(self.rows()[id].intent_id)
                && self.intents()[self.rows()[id].intent_id] == id
        &&& forall|i: IntentId| #[trigger]
            self.intents().contains_key(i) ==> self.rows().contains_key(self.intents()[i])
                && self.rows()[self.intents()[i]].intent_id == i
        &&& forall|e: Pair<EventId, ReceiptId>| #[trigger]
            self.events().contains(e) ==> self.rows().contains_key(e.1)
        &&& self.lanes() == persisted_lanes(self.rows())
    }

    /// Every row's projection is well formed.
    pub open spec fn projected(&self) -> bool {
        forall|id: ReceiptId| #[trigger]
            self.rows().contains_key(id) ==> self.rows()[id].lane_projection.wf()
    }

    pub fn new() -> (r: Self)
        ensures
            r.rows() == Map::<ReceiptId, PendingWrite>::empty(),
            r.intents() == Map::<IntentId, ReceiptId>::empty(),
            r.events() == Set::<Pair<EventId, ReceiptId>>::empty(),
            r.lanes() == Set::<Pair<Relay, ReceiptId>>::empty(),
            r.consistent(),
            r.projected(),
    {
        let r = PendingWrites {
            pending: SortedMap::new(),
            intent_receipts: SortedMap::new(),
            event_to_receipts: ReverseIndex::new(),
            receipts_by_lane_relay: ReverseIndex::new(),
        };
        assert(r.lanes() =~= persisted_lanes(r.rows()));
        r
    }

    /// A row that is known to be live.
    pub fn index(&self, id: &ReceiptId) -> (r: &PendingWrite)
        requires
            self.rows().contains_key(*id),
        ensures
            *r == self.rows()[*id],
    {
        let found = self.pending.get(id);
        found.unwrap()
    }

    pub fn get(&self, id: &ReceiptId) -> (r: Option<&PendingWrite>)
        ensures
            match r {
                Some(row) => self.rows().contains_key(*id) && *row == self.rows()[*id],
                None => !self.rows().contains_key(*id),
            },
    {
        self.pending.get(id)
    }

    /// One row, open to change in place. No index follows the change.
    pub fn get_mut(&mut self, id: &ReceiptId) -> (r: Option<&mut PendingWrite>)
        ensures
            match r {
                Some(row) => old(self).rows().contains_key(*id) && *row == old(self).rows()[*id]
                    && final(self).rows() == old(self).rows().insert(*id, *final(row)),
                None => !old(self).rows().contains_key(*id) && final(self).rows() == old(self).rows(),
            },
            final(self).intents() == old(self).intents(),
            final(self).events() == old(self).events(),
            final(self).lanes() == old(self).lanes(),
    {
        self.pending.get_mut(id)
    }

    pub fn contains(&self, id: &ReceiptId) -> (b: bool)
        ensures
            b == self.rows().contains_key(*id),
    {
        self.pending.contains(id)
    }

    /// The live receipts, in rising order.
    pub fn receipt_ids(&self) -> (q: Vec<ReceiptId>)
        ensures
            is_listing(q@, self.rows().dom()),
    {
        self.pending.key_list()
    }

    /// The live rows, in the order of their receipts.
    pub fn iter(&self) -> (out: Vec<(ReceiptId, &PendingWrite)>)
        ensures
            is_listing(Seq::new(out@.len(), |i: int| out@[i].0), self.rows().dom()),
            forall|i: int| 0 <= i < out@.len() ==> *(#[trigger] out@[i]).1 == self.rows()[out@[i].0],
    {
        let n = self.pending.len();
        let mut out: Vec<(ReceiptId, &PendingWrite)> = Vec::new();
        let mut i: usize = 0;
        while i < n
            invariant
                i <= n,
                n == self.pending.keys().len(),
                out@.len() == i,
                forall|j: int|
                    0 <= j < i ==> (#[trigger] out@[j]).0 == self.pending.keys()[j] && *out@[j].1
                        == self.rows()[out@[j].0],
            decreases n - i,
        {
            out.push((self.pending.key_at(i), self.pending.value_at(i)));
            i = i + 1;
        }
        assert(Seq::new(out@.len(), |i: int| out@[i].0) =~= self.pending.keys());
        out
    }

    /// Puts a row in place without touching any index.
    pub fn insert(&mut self, id: ReceiptId, pending: PendingWrite)
        ensures
            final(self).rows() == old(self).rows().insert(id, pending),
            final(self).intents() == old(self).intents(),
            final(self).events() == old(self).events(),
            final(self).lanes() == old(self).lanes(),
    {
        self.pending.insert(id, pending);
    }

    /// Takes a row out without touching any index.
    pub fn remove(&mut self, id: &ReceiptId) -> (r: Option<PendingWrite>)
        ensures
            final(self).rows() == old(self).rows().remove(*id),
            final(self).intents() == old(self).intents(),
            final(self).events() == old(self).events(),
            final(self).lanes() == old(self).lanes(),
            match r {
                Some(row) => old(self).rows().contains_key(*id) && row == old(self).rows()[*id],
                None => !old(self).rows().contains_key(*id),
            },
    {
        self.pending.remove(id)
    }

    pub fn receipt_for_intent(&self, intent_id: &IntentId) -> (r: Option<ReceiptId>)
        ensures
            match r {
                Some(id) => self.intents().contains_key(*intent_id) && id == self.intents()[*intent_id],
                None => !self.intents().contains_key(*intent_id),
            },
    {
        match self.intent_receipts.get(intent_id) {
            Some(id) => Some(*id),
            None => None,
        }
    }

    /// Names one receipt as the owner of an intent and of the exact frozen
    /// bytes. A write without an intent is not indexed.
    pub fn remember_indexes(&mut self, id: ReceiptId, intent_id: Option<IntentId>, event_id: EventId)
        ensures
            final(self).rows() == old(self).rows(),
            final(self).lanes() == old(self).lanes(),
            final(self).intents() == (match intent_id {
                Some(i) => old(self).intents().insert(i, id),
                None => old(self).intents(),
            }),
            final(self).events() == (match intent_id {
                Some(i) => old(self).events().insert(Pair(event_id, id)),
                None => old(self).events(),
            }),
    {
        if let Some(intent_id) = intent_id {
            self.intent_receipts.insert(intent_id, id);
            self.index_receipt_under_event(event_id, id);
        }
    }

    /// Names one receipt as the owner of an intent whose row is already live.
    pub fn adopt_intent(&mut self, intent_id: IntentId, id: ReceiptId)
        ensures
            final(self).rows() == old(self).rows(),
            final(self).intents() == old(self).intents().insert(intent_id, id),
            final(self).events() == old(self).events(),
            final(self).lanes() == old(self).lanes(),
    {
        self.intent_receipts.insert(intent_id, id);
    }

    /// Drops an intent's claim on a receipt when no row is left.
    pub fn forget_intent(&mut self, intent_id: &IntentId)
        ensures
            final(self).rows() == old(self).rows(),
            final(self).intents() == old(self).intents().remove(*intent_id),
            final(self).events() == old(self).events(),
            final(self).lanes() == old(self).lanes(),
    {
        self.intent_receipts.remove(intent_id);
    }

    /// Takes a discarded write out of all three indexes: its intent, every
    /// event that still names it, and its lanes.
    pub fn forget_indexes(&mut self, id: ReceiptId, pending: &PendingWrite)
        ensures
            final(self).rows() == old(self).rows(),
            final(self).intents() == old(self).intents().remove(pending.intent_id),
            final(self).events() == Set::new(
                |e: Pair<EventId, ReceiptId>| old(self).events().contains(e) && e.1 != id,
            ),
            final(self).lanes() == moved_lanes(
                old(self).lanes(),
                id,
                pending.lane_projection.persisted@,
                Set::empty(),
            ),
    {
        self.intent_receipts.remove(&pending.intent_id);
        self.event_to_receipts.drop_child(&id);
        let none: SortedSet<Relay> = SortedSet::new();
        self.update_lane_relay_index(id, &pending.lane_projection.persisted, &none);
    }

    /// Names one receipt as owning the exact bytes of an event.
    pub fn index_receipt_under_event(&mut self, event_id: EventId, id: ReceiptId)
        ensures
            final(self).rows() == old(self).rows(),
            final(self).intents() == old(self).intents(),
            final(self).events() == old(self).events().insert(Pair(event_id, id)),
            final(self).lanes() == old(self).lanes(),
    {
        self.event_to_receipts.add_edge(event_id, id);
    }

    /// Releases one receipt's claim on the exact bytes of an event.
    pub fn unindex_receipt_from_event(&mut self, event_id: &EventId, id: &ReceiptId)
        ensures
            final(self).rows() == old(self).rows(),
            final(self).intents() == old(self).intents(),
            final(self).events() == old(self).events().remove(Pair(*event_id, *id)),
            final(self).lanes() == old(self).lanes(),
    {
        self.event_to_receipts.drop_edge(event_id, id);
    }

    /// The receipts that own the exact bytes of an event, where there are any.
    pub fn receipts_for_event(&self, event_id: &EventId) -> (r: Option<SortedSet<ReceiptId>>)
        ensures
            match r {
                Some(ids) => ids@ == held_by(self.events(), *event_id) && ids@ != Set::<
                    ReceiptId,
                >::empty(),
                None => held_by(self.events(), *event_id) == Set::<ReceiptId>::empty(),
            },
    {
        let ids = self.event_to_receipts.held(event_id);
        if ids.is_empty() {
            None
        } else {
            Some(ids)
        }
    }

    /// Every event with every receipt that owns its bytes.
    pub fn indexed_events(&self) -> (out: Vec<Pair<EventId, ReceiptId>>)
        ensures
            is_listing(out@, self.events()),
    {
        self.event_to_receipts.edges()
    }

    /// Relay ingest committed the signed bytes that an intent waited for: the
    /// obligation is signed and no signer request is outstanding any more.
    pub fn adopt_ingested_signature(&mut self, intent_id: &IntentId) -> (r: Option<ReceiptId>)
        ensures
            final(self).intents() == old(self).intents(),
            final(self).events() == old(self).events(),
            final(self).lanes() == old(self).lanes(),
            match r {
                Some(id) => {
                    &&& old(self).intents().contains_key(*intent_id)
                    &&& id == old(self).intents()[*intent_id]
                    &&& old(self).rows().contains_key(id)
                    &&& final(self).rows() == old(self).rows().insert(
                        id,
                        (PendingWrite {
                            already_signed: true,
                            sign_request_in_flight: false,
                            ..old(self).rows()[id]
                        }),
                    )
                },
                None => {
                    &&& final(self).rows() == old(self).rows()
                    &&& !(old(self).intents().contains_key(*intent_id) && old(self).rows().contains_key(
                        old(self).intents()[*intent_id],
                    ))
                },
            },
    {
        match self.receipt_for_intent(intent_id) {
            None => None,
            Some(id) => match self.pending.get_mut(&id) {
                None => None,
                Some(pending) => {
                    pending.already_signed = true;
                    pending.sign_request_in_flight = false;
                    Some(id)
                },
            },
        }
    }

    /// The store promoted this intent together with another receipt's
    /// signature: the row follows.
    pub fn adopt_co_signature(&mut self, intent_id: &IntentId) -> (r: Option<ReceiptId>)
        ensures
            final(self).intents() == old(self).intents(),
            final(self).events() == old(self).events(),
            final(self).lanes() == old(self).lanes(),
            match r {
                Some(id) => {
                    &&& old(self).intents().contains_key(*intent_id)
                    &&& id == old(self).intents()[*intent_id]
                    &&& old(self).rows().contains_key(id)
                    &&& final(self).rows() == old(self).rows().insert(
                        id,
                        (PendingWrite { already_signed: true, ..old(self).rows()[id] }),
                    )
                },
                None => {
                    &&& final(self).rows() == old(self).rows()
                    &&& !(old(self).intents().contains_key(*intent_id) && old(self).rows().contains_key(
                        old(self).intents()[*intent_id],
                    ))
                },
            },
    {
        match self.receipt_for_intent(intent_id) {
            None => None,
            Some(id) => match self.pending.get_mut(&id) {
                None => None,
                Some(pending) => {
                    pending.already_signed = true;
                    Some(id)
                },
            },
        }
    }

    /// Moves one receipt in the lane index from one set of relays to another.
    fn update_lane_relay_index(
        &mut self,
        id: ReceiptId,
        previous: &SortedSet<Relay>,
        next: &SortedSet<Relay>,
    )
        ensures
            final(self).pending == old(self).pending,
            final(self).intent_receipts == old(self).intent_receipts,
            final(self).event_to_receipts == old(self).event_to_receipts,
            final(self).lanes() == moved_lanes(old(self).lanes(), id, previous@, next@),
    {
        let ghost before = self.receipts_by_lane_relay@;
        let leaving = previous.list();
        let mut i: usize = 0;
        while i < leaving.len()
            invariant
                i <= leaving@.len(),
                self.pending == old(self).pending,
                self.intent_receipts == old(self).intent_receipts,
                self.event_to_receipts == old(self).event_to_receipts,
                forall|e: Pair<Relay, ReceiptId>| #[trigger]
                    self.receipts_by_lane_relay@.contains(e) <==> before.contains(e) && !(e.1 == id && leaving@.take(
                        i as int,
                    ).contains(e.0) && !next@.contains(e.0)),
            decreases leaving@.len() - i,
        {
            proof {
                assert(leaving@.take(i + 1) =~= leaving@.take(i as int).push(leaving@[i as int]));
                lemma_push_contains(leaving@.take(i as int), leaving@[i as int]);
            }
            let relay = leaving[i];
            if !next.contains(&relay) {
                self.receipts_by_lane_relay.drop_edge(&relay, &id);
            }
            i = i + 1;
        }
        let ghost pruned = self.receipts_by_lane_relay@;
        let joining = next.list();
        let mut j: usize = 0;
        proof {
            assert(leaving@.take(i as int) =~= leaving@);
            lemma_listing_members(leaving@, previous@);
            lemma_listing_members(joining@, next@);
        }
        while j < joining.len()
            invariant
                j <= joining@.len(),
                self.pending == old(self).pending,
                self.intent_receipts == old(self).intent_receipts,
                self.event_to_receipts == old(self).event_to_receipts,
                forall|e: Pair<Relay, ReceiptId>| #[trigger]
                    self.receipts_by_lane_relay@.contains(e) <==> pruned.contains(e) || (e.1 == id && joining@.take(
                        j as int,
                    ).contains(e.0) && !previous@.contains(e.0)),
            decreases joining@.len() - j,
        {
            proof {
                assert(joining@.take(j + 1) =~= joining@.take(j as int).push(joining@[j as int]));
                lemma_push_contains(joining@.take(j as int), joining@[j as int]);
            }
            let relay = joining[j];
            if !previous.contains(&relay) {
                self.receipts_by_lane_relay.add_edge(relay, id);
            }
            j = j + 1;
        }
        proof {
            assert(joining@.take(j as int) =~= joining@);
            assert(self.receipts_by_lane_relay@ =~= moved_lanes(before, id, previous@, next@));
        }
    }

    /// Replaces one receipt's projection by that of a complete lane set. Says
    /// whether a row owns the receipt.
    pub fn replace_lane_projection(&mut self, id: &ReceiptId, lanes: &Vec<PublishQueueLane>) -> (r: bool)
        ensures
            r == old(self).rows().contains_key(*id),
            final(self).intents() == old(self).intents(),
            final(self).events() == old(self).events(),
            !r ==> final(self).rows() == old(self).rows() && final(self).lanes() == old(self).lanes(),
            r ==> {
                let row = final(self).rows()[*id];
                let prior = old(self).rows()[*id];
                &&& row.lane_projection.projects(lanes@)
                &&& row == (PendingWrite { lane_projection: row.lane_projection, ..prior })
                &&& final(self).rows() == old(self).rows().insert(*id, row)
                &&& final(self).lanes() == moved_lanes(
                    old(self).lanes(),
                    *id,
                    prior.lane_projection.persisted@,
                    row.lane_projection.persisted@,
                )
            },
            old(self).consistent() ==> final(self).consistent(),
            old(self).projected() ==> final(self).projected(),
    {
        let previous = match self.pending.get(id) {
            Some(pending) => pending.lane_projection.persisted.copy(),
            None => {
                return false;
            },
        };
        let next = LaneWorkerProjection::from_recovered(lanes);
        self.update_lane_relay_index(*id, &previous, &next.persisted);
        if let Some(pending) = self.pending.get_mut(id) {
            pending.lane_projection = next;
        }
        proof {
            if old(self).consistent() {
                lemma_projection_moved(*old(self), *self, *id);
            }
        }
        true
    }

    /// Empties one receipt's projection and takes it out of the lane index.
    pub fn reset_lane_projection(&mut self, id: &ReceiptId)
        ensures
            final(self).intents() == old(self).intents(),
            final(self).events() == old(self).events(),
            !old(self).rows().contains_key(*id) ==> final(self).rows() == old(self).rows()
                && final(self).lanes() == old(self).lanes(),
            old(self).rows().contains_key(*id) ==> {
                let row = final(self).rows()[*id];
                let prior = old(self).rows()[*id];
                &&& row.lane_projection.projects(Seq::empty())
                &&& row == (PendingWrite { lane_projection: row.lane_projection, ..prior })
                &&& final(self).rows() == old(self).rows().insert(*id, row)
                &&& final(self).lanes() == moved_lanes(
                    old(self).lanes(),
                    *id,
                    prior.lane_projection.persisted@,
                    Set::empty(),
                )
            },
            old(self).consistent() ==> final(self).consistent(),
            old(self).projected() ==> final(self).projected(),
    {
        let previous = match self.pending.get(id) {
            Some(pending) => pending.lane_projection.persisted.copy(),
            None => {
                return;
            },
        };
        let none: SortedSet<Relay> = SortedSet::new();
        self.update_lane_relay_index(*id, &previous, &none);
        if let Some(pending) = self.pending.get_mut(id) {
            pending.lane_projection = LaneWorkerProjection::new();
        }
        proof {
            if old(self).consistent() {
                assert(self.rows()[*id].lane_projection.persisted@ =~= Set::<Relay>::empty());
                lemma_projection_moved(*old(self), *self, *id);
            }
        }
    }

    /// Applies one committed lane state to a row. Says whether a row owns the
    /// receipt.
    pub fn apply_committed_lane(&mut self, id: &ReceiptId, lane: &PublishQueueLane) -> (r: bool)
        requires
            old(self).projected(),
        ensures
            r == old(self).rows().contains_key(*id),
            final(self).intents() == old(self).intents(),
            final(self).events() == old(self).events(),
            !r ==> final(self).rows() == old(self).rows() && final(self).lanes() == old(self).lanes(),
            r ==> {
                let row = final(self).rows()[*id];
                let prior = old(self).rows()[*id];
                let relay = lane.key.relay;
                &&& row == (PendingWrite { lane_projection: row.lane_projection, ..prior })
                &&& final(self).rows() == old(self).rows().insert(*id, row)
                &&& row.lane_projection.persisted@ == prior.lane_projection.persisted@.insert(relay)
                &&& row.lane_projection.nonterminal@ == (if is_open(*lane) {
                    prior.lane_projection.nonterminal@.insert(relay)
                } else {
                    prior.lane_projection.nonterminal@.remove(relay)
                })
                &&& row.lane_projection.current_nonterminal@ == (if is_open(*lane) {
                    prior.lane_projection.current_nonterminal@.insert(relay, *lane)
                } else {
                    prior.lane_projection.current_nonterminal@.remove(relay)
                })
                &&& final(self).lanes() == (if prior.lane_projection.persisted@.contains(relay) {
                    old(self).lanes()
                } else {
                    old(self).lanes().insert(Pair(relay, *id))
                })
            },
            old(self).consistent() ==> final(self).consistent(),
            final(self).projected(),
    {
        if !self.pending.contains(id) {
            return false;
        }
        let newly_persisted = match self.pending.get_mut(id) {
            None => false,
            Some(pending) => pending.lane_projection.apply(lane),
        };
        if newly_persisted {
            let none: SortedSet<Relay> = SortedSet::new();
            let one = SortedSet::singleton(lane.key.relay);
            self.update_lane_relay_index(*id, &none, &one);
            assert(self.lanes() =~= old(self).lanes().insert(Pair(lane.key.relay, *id)));
        }
        proof {
            if old(self).consistent() {
                let before = old(self).rows()[*id].lane_projection.persisted@;
                let after = self.rows()[*id].lane_projection.persisted@;
                assert(self.lanes() =~= moved_lanes(old(self).lanes(), *id, before, after));
                lemma_projection_moved(*old(self), *self, *id);
            }
        }
        true
    }

    /// The receipts with a lane on a relay, in rising order.
    pub fn receipts_with_lane_on(&self, relay: &Relay) -> (q: Vec<ReceiptId>)
        ensures
            is_listing(q@, held_by(self.lanes(), *relay)),
    {
        self.receipts_by_lane_relay.held(relay).list()
    }

    /// `f` names a disagreement that is there.
    pub open spec fn has_fault(&self, f: WriteFault) -> bool {
        match f {
            WriteFault::IntentNotIndexed(id) => self.rows().contains_key(id) && !(
            self.intents().contains_key(self.rows()[id].intent_id)
                && self.intents()[self.rows()[id].intent_id] == id),
            WriteFault::LaneNotIndexed(id, relay) => self.rows().contains_key(id)
                && self.rows()[id].lane_projection.persisted@.contains(relay) && !self.lanes().contains(
                Pair(relay, id),
            ),
            WriteFault::StrayIntent(i, id) => self.intents().contains_key(i) && self.intents()[i] == id
                && !(self.rows().contains_key(id) && self.rows()[id].intent_id == i),
            WriteFault::StrayEvent(e, id) => self.events().contains(Pair(e, id))
                && !self.rows().contains_key(id),
            WriteFault::StrayLane(r, id) => self.lanes().contains(Pair(r, id)) && !(
            self.rows().contains_key(id) && self.rows()[id].lane_projection.persisted@.contains(r)),
        }
    }

    /// Compares every index with the rows by identity.
    pub fn assert_consistent(&self) -> (r: Result<(), WriteFault>)
        ensures
            match r {
                Ok(()) => self.consistent(),
                Err(f) => !self.consistent() && self.has_fault(f),
            },
    {
        let n = self.pending.len();
        let ghost ids = self.pending.keys();
        let mut i: usize = 0;
        while i < n
            invariant
                i <= n,
                n == ids.len(),
                ids == self.pending.keys(),
                is_listing(ids, self.rows().dom()),
                forall|j: int|
                    0 <= j < i ==> {
                        let id = #[trigger] ids[j];
                        let row = self.rows()[id];
                        &&& self.intents().contains_key(row.intent_id)
                        &&& self.intents()[row.intent_id] == id
                        &&& forall|r: Relay| #[trigger]
                            row.lane_projection.persisted@.contains(r) ==> self.lanes().contains(
                                Pair(r, id),
                            )
                    },
            decreases n - i,
        {
            let id = self.pending.key_at(i);
            let row = self.pending.value_at(i);
            assert(self.rows().contains_key(id));
            let named = match self.intent_receipts.get(&row.intent_id) {
                Some(owner) => same(owner, &id),
                None => false,
            };
            if !named {
                return Err(WriteFault::IntentNotIndexed(id));
            }
            let relays = row.lane_projection.persisted.list();
            let mut j: usize = 0;
            while j < relays.len()
                invariant
                    j <= relays@.len(),
                    self.rows().contains_key(id),
                    *row == self.rows()[id],
                    is_listing(relays@, row.lane_projection.persisted@),
                    forall|k: int| 0 <= k < j ==> self.lanes().contains(Pair(#[trigger] relays@[k], id)),
                decreases relays@.len() - j,
            {
                let relay = relays[j];
                assert(row.lane_projection.persisted@.contains(relays@[j as int]));
                if !self.receipts_by_lane_relay.contains(&relay, &id) {
                    assert(persisted_lanes(self.rows()).contains(Pair(relay, id)));
                    return Err(WriteFault::LaneNotIndexed(id, relay));
                }
                j = j + 1;
            }
            assert forall|r: Relay| #[trigger]
                row.lane_projection.persisted@.contains(r) implies self.lanes().contains(Pair(r, id)) by {
                assert(relays@.contains(r));
                let k = choose|k: int| 0 <= k < relays@.len() && relays@[k] == r;
                assert(self.lanes().contains(Pair(relays@[k], id)));
            }
            i = i + 1;
        }
        let m = self.intent_receipts.len();
        let ghost intents = self.intent_receipts.keys();
        i = 0;
        while i < m
            invariant
                i <= m,
                m == intents.len(),
                intents == self.intent_receipts.keys(),
                is_listing(intents, self.intents().dom()),
                forall|j: int|
                    0 <= j < i ==> {
                        let id = self.intents()[#[trigger] intents[j]];
                        self.rows().contains_key(id) && self.rows()[id].intent_id == intents[j]
                    },
            decreases m - i,
        {
            let intent = self.intent_receipts.key_at(i);
            let id = *self.intent_receipts.value_at(i);
            assert(self.intents().contains_key(intent));
            let holds = match self.pending.get(&id) {
                Some(row) => same(&row.intent_id, &intent),
                None => false,
            };
            if !holds {
                return Err(WriteFault::StrayIntent(intent, id));
            }
            i = i + 1;
        }
        let events = self.event_to_receipts.edges();
        i = 0;
        while i < events.len()
            invariant
                i <= events@.len(),
                is_listing(events@, self.events()),
                forall|j: int| 0 <= j < i ==> self.rows().contains_key((#[trigger] events@[j]).1),
            decreases events@.len() - i,
        {
            let edge = events[i];
            assert(self.events().contains(events@[i as int]));
            if !self.pending.contains(&edge.1) {
                assert(Pair(edge.0, edge.1) == edge);
                return Err(WriteFault::StrayEvent(edge.0, edge.1));
            }
            i = i + 1;
        }
        let lanes = self.receipts_by_lane_relay.edges();
        i = 0;
        while i < lanes.len()
            invariant
                i <= lanes@.len(),
                is_listing(lanes@, self.lanes()),
                forall|j: int| 0 <= j < i ==> persisted_lanes(self.rows()).contains(#[trigger] lanes@[j]),
            decreases lanes@.len() - i,
        {
            let edge = lanes[i];
            assert(self.lanes().contains(lanes@[i as int]));
            let holds = match self.pending.get(&edge.1) {
                Some(row) => row.lane_projection.persisted.contains(&edge.0),
                None => false,
            };
            if !holds {
                assert(Pair(edge.0, edge.1) == edge);
                assert(!persisted_lanes(self.rows()).contains(edge));
                return Err(WriteFault::StrayLane(edge.0, edge.1));
            }
            i = i + 1;
        }
        proof {
            lemma_listing_members(ids, self.rows().dom());
            lemma_listing_members(intents, self.intents().dom());
            lemma_listing_members(events@, self.events());
            lemma_listing_members(lanes@, self.lanes());
            assert forall|id: ReceiptId| #[trigger]
                self.rows().contains_key(id) implies self.intents().contains_key(
                self.rows()[id].intent_id,
            ) && self.intents()[self.rows()[id].intent_id] == id by {
                assert(ids.contains(id));
                let j = choose|j: int| 0 <= j < ids.len() && ids[j] == id;
                assert(self.intents()[self.rows()[ids[j]].intent_id] == ids[j]);
            }
            assert forall|t: IntentId| #[trigger]
                self.intents().contains_key(t) implies self.rows().contains_key(self.intents()[t])
                && self.rows()[self.intents()[t]].intent_id == t by {
                assert(intents.contains(t));
                let j = choose|j: int| 0 <= j < intents.len() && intents[j] == t;
                assert(self.rows().contains_key(self.intents()[intents[j]]));
            }
            assert forall|e: Pair<EventId, ReceiptId>| #[trigger]
                self.events().contains(e) implies self.rows().contains_key(e.1) by {
                assert(events@.contains(e));
                let j = choose|j: int| 0 <= j < events@.len() && events@[j] == e;
                assert(self.rows().contains_key(events@[j].1));
            }
            assert forall|e: Pair<Relay, ReceiptId>| self.lanes().contains(e) <==> persisted_lanes(
                self.rows(),
            ).contains(e) by {
                if self.lanes().contains(e) {
                    assert(lanes@.contains(e));
                    let j = choose|j: int| 0 <= j < lanes@.len() && lanes@[j] == e;
                    assert(persisted_lanes(self.rows()).contains(lanes@[j]));
                }
                if persisted_lanes(self.rows()).contains(e) {
                    assert(ids.contains(e.1));
                    let j = choose|j: int| 0 <= j < ids.len() && ids[j] == e.1;
                    assert(self.rows()[ids[j]].lane_projection.persisted@.contains(e.0));
                    assert(self.lanes().contains(Pair(e.0, ids[j])));
                    assert(Pair(e.0, ids[j]) == e);
                }
            }
            assert(self.lanes() =~= persisted_lanes(self.rows()));
        }
        Ok(())
    }
}

proof fn lemma_projection_moved(before: PendingWrites, after: PendingWrites, id: ReceiptId)
    requires
        before.consistent(),
        before.rows().contains_key(id),
        after.intents() == before.intents(),
        after.events() == before.events(),
        after.rows() == before.rows().insert(id, after.rows()[id]),
        after.rows()[id].intent_id == before.rows()[id].intent_id,
        after.lanes() == moved_lanes(
            before.lanes(),
            id,
            before.rows()[id].lane_projection.persisted@,
            after.rows()[id].lane_projection.persisted@,
        ),
    ensures
        after.consistent(),
{
    assert forall|i: ReceiptId| #[trigger] after.rows().contains_key(i) implies after.intents().contains_key(
        after.rows()[i].intent_id,
    ) && after.intents()[after.rows()[i].intent_id] == i by {
        assert(before.rows().contains_key(i));
    }
    assert forall|t: IntentId| #[trigger] after.intents().contains_key(t) implies after.rows().contains_key(
        after.intents()[t],
    ) && after.rows()[after.intents()[t]].intent_id == t by {
        assert(before.intents().contains_key(t));
    }
    assert forall|e: Pair<EventId, ReceiptId>| #[trigger]
        after.events().contains(e) implies after.rows().contains_key(e.1) by {
        assert(before.events().contains(e));
    }
    assert(after.lanes() =~= persisted_lanes(after.rows()));
}

/// A new write that has no lane yet leaves the indexes in step with the rows:
/// its row is put in place, and its intent and its bytes are named.
pub proof fn admission_keeps_consistency(
    before: PendingWrites,
    after: PendingWrites,
    id: ReceiptId,
    row: PendingWrite,
    event_id: EventId,
)
    requires
        before.consistent(),
        !before.rows().contains_key(id),
        !before.intents().contains_key(row.intent_id),
        row.lane_projection.persisted@ == Set::<Relay>::empty(),
        after.rows() == before.rows().insert(id, row),
        after.intents() == before.intents().insert(row.intent_id, id),
        after.events() == before.events().insert(Pair(event_id, id)),
        after.lanes() == before.lanes(),
    ensures
        after.consistent(),
{
    assert forall|i: ReceiptId| #[trigger] after.rows().contains_key(i) implies after.intents().contains_key(
        after.rows()[i].intent_id,
    ) && after.intents()[after.rows()[i].intent_id] == i by {
        if i != id {
            assert(before.rows().contains_key(i));
        }
    }
    assert forall|t: IntentId| #[trigger] after.intents().contains_key(t) implies after.rows().contains_key(
        after.intents()[t],
    ) && after.rows()[after.intents()[t]].intent_id == t by {
        if t != row.intent_id {
            assert(before.intents().contains_key(t));
        }
    }
    assert forall|e: Pair<EventId, ReceiptId>| #[trigger]
        after.events().contains(e) implies after.rows().contains_key(e.1) by {
        if e != Pair(event_id, id) {
            assert(before.events().contains(e));
        }
    }
    assert(after.lanes() =~= persisted_lanes(after.rows()));
}

/// A discarded write leaves the indexes in step with the rows: its row is
/// taken out, and its intent, its events and its lanes are forgotten.
pub proof fn discard_keeps_consistency(before: PendingWrites, after: PendingWrites, id: ReceiptId)
    requires
        before.consistent(),
        before.rows().contains_key(id),
        after.rows() == before.rows().remove(id),
        after.intents() == before.intents().remove(before.rows()[id].intent_id),
        after.events() == Set::new(
            |e: Pair<EventId, ReceiptId>| before.events().contains(e) && e.1 != id,
        ),
        after.lanes() == moved_lanes(
            before.lanes(),
            id,
            before.rows()[id].lane_projection.persisted@,
            Set::empty(),
        ),
    ensures
        after.consistent(),
{
    assert forall|i: ReceiptId| #[trigger] after.rows().contains_key(i) implies after.intents().contains_key(
        after.rows()[i].intent_id,
    ) && after.intents()[after.rows()[i].intent_id] == i by {
        assert(before.rows().contains_key(i));
    }
    assert forall|t: IntentId| #[trigger] after.intents().contains_key(t) implies after.rows().contains_key(
        after.intents()[t],
    ) && after.rows()[after.intents()[t]].intent_id == t by {
        assert(before.intents().contains_key(t));
    }
    assert forall|e: Pair<EventId, ReceiptId>| #[trigger]
        after.events().contains(e) implies after.rows().contains_key(e.1) by {
        assert(before.events().contains(e));
    }
    assert(after.lanes() =~= persisted_lanes(after.rows()));
}

/// Taking a row out and putting the same row back changes nothing.
pub proof fn transient_removal_is_undone(before: PendingWrites, id: ReceiptId)
    requires
        before.rows().contains_key(id),
    ensures
        before.rows().remove(id).insert(id, before.rows()[id]) == before.rows(),
{
    assert(before.rows().remove(id).insert(id, before.rows()[id]) =~= before.rows());
}

} // verus!
