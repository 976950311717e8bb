//! What holds of pending writes, and of the sessions that they need.

use vstd::prelude::*;

use crate::core_state::CoreState;
use crate::ids::{EventId, IntentId, ReceiptId, Relay, RelaySessionKey};
use crate::key::Pair;
use crate::pending_writes::{
    is_open, last_lane, moved_lanes, persisted_lanes, LaneWorkerProjection, PendingWrites,
    PublishQueueLane, PublishQueueLaneState, WriteFault,
};
use crate::requests::RequestsView;

verus! {

/// One row of a run of lane rows is the last for its relay.
pub open spec fn last_for(lanes: Seq<PublishQueueLane>, i: int, relay: Relay) -> bool {
    0 <= i < lanes.len() && lanes[i].key.relay == relay && forall|j: int|
        i < j < lanes.len() ==> (#[trigger] lanes[j]).key.relay != relay
}

proof fn lemma_last_lane(lanes: Seq<PublishQueueLane>, relay: Relay)
    ensures
        last_lane(lanes, relay) is None <==> forall|i: int|
            0 <= i < lanes.len() ==> (#[trigger] lanes[i]).key.relay != relay,
        last_lane(lanes, relay) is Some ==> exists|i: int| #[trigger]
            last_for(lanes, i, relay) && last_lane(lanes, relay) == Some(lanes[i]),
        forall|i: int| #[trigger] last_for(lanes, i, relay) ==> last_lane(lanes, relay) == Some(lanes[i]),
    decreases lanes.len(),
{
    if lanes.len() > 0 {
        let rest = lanes.drop_last();
        let n = rest.len() as int;
        lemma_last_lane(rest, relay);
        assert(lanes.last() == lanes[n]);
        assert forall|i: int| 0 <= i < n implies #[trigger] rest[i] == lanes[i] by {}
        if lanes.last().key.relay == relay {
            assert(last_for(lanes, n, relay));
            assert forall|i: int| #[trigger] last_for(lanes, i, relay) implies i == n by {
                if i < n {
                    assert(lanes[n].key.relay != relay);
                }
            }
        } else {
            if last_lane(rest, relay) is Some {
                let i = choose|i: int| #[trigger]
                    last_for(rest, i, relay) && last_lane(rest, relay) == Some(rest[i]);
                assert(last_for(lanes, i, relay)) by {
                    assert forall|j: int| i < j < lanes.len() implies (#[trigger] lanes[j]).key.relay
                        != relay by {
                        if j < n {
                            assert(rest[j].key.relay != relay);
                        }
                    }
                }
            } else {
                assert forall|i: int| 0 <= i < lanes.len() implies (#[trigger] lanes[i]).key.relay != relay by {
                    if i < n {
                        assert(rest[i].key.relay != relay);
                    }
                }
            }
            assert forall|i: int| #[trigger] last_for(lanes, i, relay) implies last_lane(lanes, relay)
                == Some(lanes[i]) by {
                assert(i < n);
                assert(last_for(rest, i, relay)) by {
                    assert forall|j: int| i < j < rest.len() implies (#[trigger] rest[j]).key.relay != relay by {
                        assert(lanes[j].key.relay != relay);
                    }
                }
            }
        }
    }
}

/// A projection of lane rows knows a relay if and only if some row is for it. A relay
/// still needs a worker if and only if the last of its rows is open, and that row is
/// its current one.
pub proof fn last_row_of_a_relay_counts(p: LaneWorkerProjection, lanes: Seq<PublishQueueLane>, relay: Relay)
    requires
        p.projects(lanes),
    ensures
        p.persisted@.contains(relay) <==> exists|i: int|
            0 <= i < lanes.len() && (#[trigger] lanes[i]).key.relay == relay,
        p.nonterminal@.contains(relay) <==> exists|i: int| #[trigger]
            last_for(lanes, i, relay) && lanes[i].state == PublishQueueLaneState::Open,
        p.current_nonterminal@.contains_key(relay) <==> p.nonterminal@.contains(relay),
        forall|i: int| #[trigger]
            last_for(lanes, i, relay) && p.nonterminal@.contains(relay) ==> p.current_nonterminal@[relay]
                == lanes[i],
{
    lemma_last_lane(lanes, relay);
    if exists|i: int| #[trigger] last_for(lanes, i, relay) && lanes[i].state == PublishQueueLaneState::Open {
        let i = choose|i: int| #[trigger]
            last_for(lanes, i, relay) && lanes[i].state == PublishQueueLaneState::Open;
        assert(last_lane(lanes, relay) == Some(lanes[i]));
    }
    assert(p.current_nonterminal@.contains_key(relay) <==> p.current_nonterminal@.dom().contains(relay));
}

/// Two projections of the same rows say the same.
pub proof fn rows_determine_their_projection(
    a: LaneWorkerProjection,
    b: LaneWorkerProjection,
    lanes: Seq<PublishQueueLane>,
)
    requires
        a.projects(lanes),
        b.projects(lanes),
    ensures
        a.persisted@ == b.persisted@,
        a.nonterminal@ == b.nonterminal@,
        a.current_nonterminal@ == b.current_nonterminal@,
{
    assert(a.persisted@ =~= b.persisted@) by {
        assert forall|r: Relay| a.persisted@.contains(r) <==> b.persisted@.contains(r) by {}
    }
    assert(a.nonterminal@ =~= b.nonterminal@) by {
        assert forall|r: Relay| a.nonterminal@.contains(r) <==> b.nonterminal@.contains(r) by {}
    }
    assert(a.current_nonterminal@.dom() =~= b.current_nonterminal@.dom());
    assert forall|r: Relay| a.current_nonterminal@.contains_key(r) implies a.current_nonterminal@[r]
        == b.current_nonterminal@[r] by {
        assert(b.current_nonterminal@.dom().contains(r));
    }
    assert(a.current_nonterminal@ =~= b.current_nonterminal@);
}

/// Applying one more committed row gives what a recovery from all rows gives.
pub proof fn applied_row_matches_a_recovery(
    before: PendingWrites,
    after: PendingWrites,
    id: ReceiptId,
    lanes: Seq<PublishQueueLane>,
    lane: PublishQueueLane,
)
    requires
        before.rows().contains_key(id),
        before.rows()[id].lane_projection.projects(lanes),
        after.applied_lane(before, id, lane),
    ensures
        after.rows()[id].lane_projection.projects(lanes.push(lane)),
        after.rows().remove(id) == before.rows().remove(id),
        after.intents() == before.intents(),
        after.events() == before.events(),
{
    let p = before.rows()[id].lane_projection;
    let q = after.rows()[id].lane_projection;
    let all = lanes.push(lane);
    assert(all.drop_last() =~= lanes);
    assert(all.last() == lane);
    assert(q.nonterminal@ =~= q.current_nonterminal@.dom()) by {
        assert(p.nonterminal@ == p.current_nonterminal@.dom());
    }
    assert forall|r: Relay| #[trigger] q.persisted@.contains(r) <==> last_lane(all, r) is Some by {
        assert(p.persisted@.contains(r) <==> last_lane(lanes, r) is Some);
    }
    assert forall|r: Relay| #[trigger] q.nonterminal@.contains(r) <==> (last_lane(all, r) matches Some(l)
        && is_open(l)) by {
        assert(p.nonterminal@.contains(r) <==> (last_lane(lanes, r) matches Some(l) && is_open(l)));
    }
    assert forall|r: Relay| #[trigger] q.current_nonterminal@.contains_key(r) implies Some(
        q.current_nonterminal@[r],
    ) == last_lane(all, r) by {
        if r != lane.key.relay {
            assert(p.current_nonterminal@.contains_key(r));
        }
    }
    assert(after.rows().remove(id) =~= before.rows().remove(id));
}

/// A lane still asks for a worker if and only if it is open.
pub proof fn open_lane_asks_for_a_worker(lane: PublishQueueLane)
    ensures
        is_open(lane) <==> lane.state == PublishQueueLaneState::Open,
{
}

/// The indexes agree with the rows if and only if every row is the one that its own
/// intent names, every intent names a live row of its own, every event names live rows,
/// and a relay is indexed for a receipt exactly where its row persists a lane there.
pub proof fn indexes_agree_with_the_rows(w: PendingWrites)
    ensures
        w.consistent() <==> {
            &&& forall|id: ReceiptId| #[trigger]
                w.rows().contains_key(id) ==> w.intents().contains_key(w.rows()[id].intent_id)
                    && w.intents()[w.rows()[id].intent_id] == id
            &&& forall|i: IntentId| #[trigger]
                w.intents().contains_key(i) ==> w.rows().contains_key(w.intents()[i])
                    && w.rows()[w.intents()[i]].intent_id == i
            &&& forall|e: EventId, id: ReceiptId|
                #[trigger] w.events().contains(Pair(e, id)) ==> w.rows().contains_key(id)
            &&& forall|r: Relay, id: ReceiptId|
                #[trigger] w.lanes().contains(Pair(r, id)) <==> w.rows().contains_key(id)
                    && w.rows()[id].lane_projection.persisted@.contains(r)
        },
{
    if forall|e: EventId, id: ReceiptId|
        #[trigger] w.events().contains(Pair(e, id)) ==> w.rows().contains_key(id) {
        assert forall|e: Pair<EventId, ReceiptId>| #[trigger] w.events().contains(e) implies w.rows().contains_key(
            e.1,
        ) by {
            assert(e == Pair(e.0, e.1));
        }
    }
    if forall|r: Relay, id: ReceiptId|
        #[trigger] w.lanes().contains(Pair(r, id)) <==> w.rows().contains_key(id)
            && w.rows()[id].lane_projection.persisted@.contains(r) {
        assert forall|e: Pair<Relay, ReceiptId>| w.lanes().contains(e) <==> persisted_lanes(
            w.rows(),
        ).contains(e) by {
            assert(e == Pair(e.0, e.1));
        }
        assert(w.lanes() =~= persisted_lanes(w.rows()));
    }
    if w.consistent() {
        assert forall|r: Relay, id: ReceiptId|
            #[trigger] w.lanes().contains(Pair(r, id)) <==> w.rows().contains_key(id)
                && w.rows()[id].lane_projection.persisted@.contains(r) by {
            assert(w.lanes().contains(Pair(r, id)) <==> persisted_lanes(w.rows()).contains(Pair(r, id)));
        }
    }
}

/// Wherever the indexes do not agree with the rows there is a fault to name, and a
/// named fault is never there where they agree.
pub proof fn named_fault_is_a_disagreement(w: PendingWrites, f: WriteFault)
    requires
        w.has_fault(f),
    ensures
        !w.consistent(),
        match f {
            WriteFault::IntentNotIndexed(id) => w.rows().contains_key(id),
            WriteFault::LaneNotIndexed(id, relay) => w.rows()[id].lane_projection.persisted@.contains(relay)
                && !w.lanes().contains(Pair(relay, id)),
            WriteFault::StrayIntent(i, id) => w.intents().contains_key(i) && w.intents()[i] == id,
            WriteFault::StrayEvent(e, id) => w.events().contains(Pair(e, id)) && !w.rows().contains_key(id),
            WriteFault::StrayLane(r, id) => w.lanes().contains(Pair(r, id)),
        },
{
    match f {
        WriteFault::LaneNotIndexed(id, relay) => {
            assert(persisted_lanes(w.rows()).contains(Pair(relay, id)));
        },
        WriteFault::StrayLane(r, id) => {
            assert(!persisted_lanes(w.rows()).contains(Pair(r, id)));
        },
        _ => {},
    }
}

/// A receipt that moves from some relays to others is indexed for exactly the others,
/// where it was indexed for exactly the first; no other receipt moves.
pub proof fn moved_receipt_is_indexed_where_it_goes(
    lanes: Set<Pair<Relay, ReceiptId>>,
    id: ReceiptId,
    previous: Set<Relay>,
    next: Set<Relay>,
    relay: Relay,
    other: ReceiptId,
)
    requires
        forall|r: Relay| #[trigger] lanes.contains(Pair(r, id)) <==> previous.contains(r),
    ensures
        moved_lanes(lanes, id, previous, next).contains(Pair(relay, id)) <==> next.contains(relay),
        other != id ==> (moved_lanes(lanes, id, previous, next).contains(Pair(relay, other))
            <==> lanes.contains(Pair(relay, other))),
{
}

/// The row that owns an intent is the live row that the intent names.
pub proof fn intent_is_owned_by_the_row_it_names(w: PendingWrites, i: IntentId, id: ReceiptId)
    ensures
        w.owner_row(i) == Some(id) <==> w.intents().contains_key(i) && w.intents()[i] == id
            && w.rows().contains_key(id),
{
}

/// A recovery that is taken over replaces the projection of one row, and leaves the
/// rest of the row, every other row, every intent and every event as they are. The
/// receipt is then indexed for exactly the relays of the recovered rows.
pub proof fn recovery_replaces_one_projection(
    before: PendingWrites,
    after: PendingWrites,
    id: ReceiptId,
    lanes: Seq<PublishQueueLane>,
    relay: Relay,
)
    requires
        before.consistent(),
        before.rows().contains_key(id),
        after.replaced_lanes(before, id, lanes),
    ensures
        after.rows().remove(id) == before.rows().remove(id),
        after.rows()[id].intent_id == before.rows()[id].intent_id,
        after.rows()[id].already_signed == before.rows()[id].already_signed,
        after.rows()[id].pending_relays == before.rows()[id].pending_relays,
        after.intents() == before.intents(),
        after.events() == before.events(),
        after.lanes().contains(Pair(relay, id)) <==> exists|i: int|
            0 <= i < lanes.len() && (#[trigger] lanes[i]).key.relay == relay,
{
    assert(after.rows().remove(id) =~= before.rows().remove(id));
    let p = before.rows()[id].lane_projection.persisted@;
    let q = after.rows()[id].lane_projection.persisted@;
    assert forall|r: Relay| #[trigger] before.lanes().contains(Pair(r, id)) <==> p.contains(r) by {
        assert(before.lanes().contains(Pair(r, id)) <==> persisted_lanes(before.rows()).contains(
            Pair(r, id),
        ));
    }
    moved_receipt_is_indexed_where_it_goes(before.lanes(), id, p, q, relay, id);
    last_row_of_a_relay_counts(after.rows()[id].lane_projection, lanes, relay);
}

/// Two states with the same rows and indexes are the same as far as writes go.
pub proof fn unchanged_writes_agree(a: PendingWrites, b: PendingWrites)
    requires
        a.same_as(b),
    ensures
        a.rows() == b.rows(),
        a.intents() == b.intents(),
        a.events() == b.events(),
        a.lanes() == b.lanes(),
{
}

/// Writes need a session if and only if a publication on its way is bound to it, or a
/// pending write is to be published as the account of the session on a relay that it
/// has been sent to and is not finished with, or where one of its lanes is still open.
pub proof fn writes_need_the_sessions_they_are_bound_to(core: CoreState, s: RelaySessionKey)
    ensures
        core.write_workers().contains(s) <==> {
            ||| exists|c: u64| #[trigger]
                core.attempt_correlations@.contains_key(c) && core.attempt_correlations@[c] == s
            ||| exists|id: ReceiptId| #[trigger]
                core.pending.rows().contains_key(id) && {
                    let w = core.pending.rows()[id];
                    s.authenticate_as == Some(w.signing_pubkey) && (w.pending_relays@.contains(s.relay)
                        || w.lane_projection.nonterminal@.contains(s.relay))
                }
        },
{
}

/// A session is kept open if and only if the plan reads from it or a write needs it.
pub proof fn needed_sessions_are_kept_open(core: CoreState, planned: Set<RelaySessionKey>, s: RelaySessionKey)
    ensures
        core.required(planned).contains(s) <==> planned.contains(s) || core.write_workers().contains(s),
{
}

/// Something is due at a time if and only if a stored row expires or a publication is
/// due at it, or a claim or a retry waits for it.
pub proof fn deadlines_are_of_four_kinds(
    core: CoreState,
    expiry: Option<u64>,
    delivery: Option<u64>,
    time: u64,
)
    ensures
        core.due_at(expiry, delivery, time) <==> {
            let v: RequestsView = core.requests@;
            ||| expiry matches Some(t) && t == time
            ||| delivery matches Some(t) && t == time
            ||| exists|k: crate::ids::RequestKey| #[trigger]
                v.transfers.contains_key(k) && v.transfers[k].due == time
            ||| exists|k: crate::ids::RequestKey| #[trigger]
                v.retries.contains_key(k) && v.retries[k].due == time
        },
{
}

} // verus!
