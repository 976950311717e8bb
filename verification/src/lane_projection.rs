//! The one door for durable lane projection.
//!
//! The store stays authoritative. What is applied here is the exact state that
//! a store operation committed; where the operation failed, nothing changes.

use vstd::prelude::*;

use crate::ids::{EventId, IntentId, ReceiptId};
use crate::key::{same, Pair};
use crate::pending_writes::{
    is_open, moved_lanes, PendingWrite, PendingWrites, PublishQueueLane,
};

verus! {

/// Why the lanes of a generation could not be taken over.
#[derive(Clone, Copy, Debug, PartialEq, Eq, Structural)]
pub enum LaneRecoveryError<E> {
    /// The store gave no answer.
    Store(E),
    /// A lane belongs to another event than the current one.
    NonCurrentGeneration,
}

/// Whether every lane belongs to one event.
fn all_of_event(lanes: &Vec<PublishQueueLane>, event_id: &EventId) -> (b: bool)
    ensures
        b == !exists|i: int| 0 <= i < lanes@.len() && (#[trigger] lanes@[i]).key.event_id != *event_id,
{
    let mut i: usize = 0;
    while i < lanes.len()
        invariant
            i <= lanes@.len(),
            forall|j: int| 0 <= j < i ==> (#[trigger] lanes@[j]).key.event_id == *event_id,
        decreases lanes@.len() - i,
    {
        if !same(&lanes[i].key.event_id, event_id) {
            assert(lanes@[i as int].key.event_id != *event_id);
            return false;
        }
        i = i + 1;
    }
    true
}

impl PendingWrites {
    /// The receipt whose live row owns an intent.
    pub open spec fn owner_row(&self, intent_id: IntentId) -> Option<ReceiptId> {
        if self.intents().contains_key(intent_id) && self.rows().contains_key(
            self.intents()[intent_id],
        ) {
            Some(self.intents()[intent_id])
        } else {
            None
        }
    }

    /// Nothing changed.
    pub open spec fn same_as(&self, other: PendingWrites) -> bool {
        &&& self.rows() == other.rows()
        &&& self.intents() == other.intents()
        &&& self.events() == other.events()
        &&& self.lanes() == other.lanes()
    }

    /// `self` is `before` with one committed lane applied to the row `id`.
    pub open spec fn applied_lane(&self, before: PendingWrites, id: ReceiptId, lane: PublishQueueLane) -> bool {
        let row = self.rows()[id];
        let prior = before.rows()[id];
        let relay = lane.key.relay;
        &&& self.intents() == before.intents()
        &&& self.events() == before.events()
        &&& row == (PendingWrite { lane_projection: row.lane_projection, ..prior })
        &&& self.rows() == before.rows().insert(id, row)
        &&& row.lane_projection.persisted@ == prior.lane_projection.persisted@.insert(relay)
        &&& row.lane_projection.nonterminal@ == (if is_open(lane) {
            prior.lane_projection.nonterminal@.insert(relay)
        } else {
            prior.lane_projection.nonterminal@.remove(relay)
        })
        &&& row.lane_projection.current_nonterminal@ == (if is_open(lane) {
            prior.lane_projection.current_nonterminal@.insert(relay, lane)
        } else {
            prior.lane_projection.current_nonterminal@.remove(relay)
        })
        &&& self.lanes() == (if prior.lane_projection.persisted@.contains(relay) {
            before.lanes()
        } else {
            before.lanes().insert(Pair(relay, id))
        })
    }

    /// `self` is `before` with the row `id` projected anew from `lanes`.
    pub open spec fn replaced_lanes(
        &self,
        before: PendingWrites,
        id: ReceiptId,
        lanes: Seq<PublishQueueLane>,
    ) -> bool {
        let row = self.rows()[id];
        let prior = before.rows()[id];
        &&& self.intents() == before.intents()
        &&& self.events() == before.events()
        &&& row.lane_projection.projects(lanes)
        &&& row == (PendingWrite { lane_projection: row.lane_projection, ..prior })
        &&& self.rows() == before.rows().insert(id, row)
        &&& self.lanes() == moved_lanes(
            before.lanes(),
            id,
            prior.lane_projection.persisted@,
            row.lane_projection.persisted@,
        )
    }

    /// Hands the result of a store operation on one lane on, after the lane
    /// that it committed has been applied to the row that owns it.
    pub fn commit_lane_transition<T, E>(
        &mut self,
        result: Result<(T, PublishQueueLane), E>,
    ) -> (r: Result<(T, PublishQueueLane), E>)
        requires
            old(self).projected(),
        ensures
            r == result,
            final(self).projected(),
            old(self).consistent() ==> final(self).consistent(),
            match result {
                Err(_) => final(self).same_as(*old(self)),
                Ok((_, lane)) => match old(self).owner_row(lane.key.intent_id) {
                    None => final(self).same_as(*old(self)),
                    Some(id) => final(self).applied_lane(*old(self), id, lane),
                },
            },
    {
        match result {
            Err(error) => Err(error),
            Ok((value, lane)) => {
                if let Some(id) = self.receipt_for_intent(&lane.key.intent_id) {
                    self.apply_committed_lane(&id, &lane);
                }
                Ok((value, lane))
            },
        }
    }

    /// Establishes one intent's projection from its durable lanes, as the
    /// store gave them.
    pub fn bootstrap_projected_lanes<E>(
        &mut self,
        intent_id: &IntentId,
        lanes: Result<Vec<PublishQueueLane>, E>,
    ) -> (r: Result<Vec<PublishQueueLane>, E>)
        ensures
            r == lanes,
            old(self).consistent() ==> final(self).consistent(),
            old(self).projected() ==> final(self).projected(),
            match lanes {
                Err(_) => final(self).same_as(*old(self)),
                Ok(lanes) => match old(self).owner_row(*intent_id) {
                    None => final(self).same_as(*old(self)),
                    Some(id) => final(self).replaced_lanes(*old(self), id, lanes@),
                },
            },
    {
        match lanes {
            Err(error) => Err(error),
            Ok(lanes) => {
                if let Some(id) = self.receipt_for_intent(intent_id) {
                    self.replace_lane_projection(&id, &lanes);
                }
                Ok(lanes)
            },
        }
    }

    /// Rebuilds the projection of a semantic owner from the lanes of the
    /// current generation. The event id is the fence: a lane of any other
    /// event refuses the whole set, and nothing changes.
    pub fn recover_semantic_generation_lanes<E>(
        &mut self,
        intent_id: &IntentId,
        event_id: &EventId,
        lanes: Result<Vec<PublishQueueLane>, E>,
    ) -> (r: Result<Vec<PublishQueueLane>, LaneRecoveryError<E>>)
        ensures
            old(self).consistent() ==> final(self).consistent(),
            old(self).projected() ==> final(self).projected(),
            match lanes {
                Err(e) => r == Err::<Vec<PublishQueueLane>, LaneRecoveryError<E>>(
                    LaneRecoveryError::Store(e),
                ) && final(self).same_as(*old(self)),
                Ok(rows) => if exists|i: int|
                    0 <= i < rows@.len() && (#[trigger] rows@[i]).key.event_id != *event_id {
                    r == Err::<Vec<PublishQueueLane>, LaneRecoveryError<E>>(
                        LaneRecoveryError::NonCurrentGeneration,
                    ) && final(self).same_as(*old(self))
                } else {
                    r == Ok::<Vec<PublishQueueLane>, LaneRecoveryError<E>>(rows) && match old(
                        self,
                    ).owner_row(*intent_id) {
                        None => final(self).same_as(*old(self)),
                        Some(id) => final(self).replaced_lanes(*old(self), id, rows@),
                    }
                },
            },
    {
        match lanes {
            Err(error) => Err(LaneRecoveryError::Store(error)),
            Ok(lanes) => {
                if !all_of_event(&lanes, event_id) {
                    return Err(LaneRecoveryError::NonCurrentGeneration);
                }
                if let Some(id) = self.receipt_for_intent(intent_id) {
                    self.replace_lane_projection(&id, &lanes);
                }
                Ok(lanes)
            },
        }
    }
}

} // verus!
