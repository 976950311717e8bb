//! What becomes of a request and of the one that takes its place.

use vstd::prelude::*;

use crate::ids::{DemandKey, RelaySessionKey, RequestAttemptId, RequestKey, SubId};
use crate::key::{lemma_listing_exists, lemma_listing_members, listing_of};
use crate::request_attempt::{AttemptView, RetryView};
use crate::request_replacements::successors_on;
use crate::requests::{
    attempt_sessions, awaiting_over, orders_of_successor, retry_sessions, PendingView, RequestOrder,
    RequestsView, StoredEvents,
};

verus! {

/// A replacement that is cancelled goes with all that was under way for its successor and
/// for the request that it would have replaced: their attempts, their retries, their
/// records and what they have open. Where there is no such replacement, nothing changes.
pub proof fn cancelled_replacement_takes_both(v: RequestsView, successor: SubId, id: RequestAttemptId)
    ensures
        ({
            let w = v.cancel_replacement(successor);
            let r = v.replacements[successor];
            &&& !v.replacements.contains_key(successor) ==> w == v
            &&& v.replacements.contains_key(successor) ==> {
                &&& w.replacements == v.replacements.remove(successor)
                &&& w.metadata == v.metadata.remove(successor).remove(r.prior_sub_id)
                &&& w.attempts.contains_key(id) <==> v.attempts.contains_key(id) && v.attempts[id].sub_id
                    != successor && v.attempts[id].sub_id != r.prior_sub_id
                &&& w.attempts.contains_key(id) ==> w.attempts[id] == v.attempts[id]
                &&& forall|k: RequestKey| #[trigger]
                    w.retries.contains_key(k) <==> v.retries.contains_key(k) && k.sub_id != successor
                        && k.sub_id != r.prior_sub_id
                &&& !w.transfers.contains_key(RequestKey { session: r.session, sub_id: r.prior_sub_id })
                &&& forall|k: RequestKey| #[trigger]
                    w.live.contains_key(k) <==> v.live.contains_key(k) && !(k.sub_id == successor
                        && k.session.relay == successor.0 && k.session.authenticate_as == successor.2) && !(
                    k.sub_id == r.prior_sub_id && k.session.relay == r.prior_sub_id.0
                        && k.session.authenticate_as == r.prior_sub_id.2)
                &&& forall|k: RequestKey| #[trigger] w.live.contains_key(k) ==> w.live[k] == v.live[k]
                &&& w.next_id == v.next_id
            }
        }),
{
}

/// A replacement that is complete retires the request that it replaces and nothing of its
/// successor.
pub proof fn completed_replacement_retires_the_former(
    v: RequestsView,
    successor: SubId,
    id: RequestAttemptId,
    key: RequestKey,
)
    requires
        v.replacements.contains_key(successor),
    ensures
        ({
            let w = v.complete_replacement(successor);
            let prior = v.replacements[successor].prior_sub_id;
            &&& w.replacements == v.replacements.remove(successor)
            &&& w.metadata == v.metadata.remove(prior)
            &&& w.attempts.contains_key(id) <==> v.attempts.contains_key(id) && v.attempts[id].sub_id != prior
            &&& w.attempts.contains_key(id) ==> w.attempts[id] == v.attempts[id]
            &&& w.retries.contains_key(key) <==> v.retries.contains_key(key) && key.sub_id != prior
            &&& !w.transfers.contains_key(
                RequestKey { session: v.replacements[successor].session, sub_id: prior },
            )
            &&& key.sub_id != prior ==> w.live.contains_key(key) == v.live.contains_key(key)
                && w.pending.contains_key(key) == v.pending.contains_key(key) && w.transfers.contains_key(key)
                == v.transfers.contains_key(key)
            &&& key.sub_id != prior && v.live.contains_key(key) ==> w.live[key] == v.live[key]
            &&& key.sub_id == prior && key.session.relay == prior.0 && key.session.authenticate_as == prior.2
                ==> !w.live.contains_key(key) && !w.pending.contains_key(key)
        }),
{
}

/// Where there is nothing to complete, nothing changes.
pub proof fn completion_without_a_replacement_changes_nothing(v: RequestsView, successor: SubId)
    requires
        !v.replacements.contains_key(successor),
    ensures
        v.complete_replacement(successor) == v,
{
}

/// A successor that is given up is discarded, then its claims are released, and nothing
/// else is ordered of it.
pub proof fn given_up_successor_is_discarded(successor: SubId)
    ensures
        orders_of_successor(successor).len() == 2,
        orders_of_successor(successor)[0] == RequestOrder::DiscardSub(successor),
        orders_of_successor(successor)[1] == RequestOrder::ReleaseLiveClaims(successor),
{
}

/// A transfer that is dropped and a record that is retired go alone.
pub proof fn one_record_goes_alone(v: RequestsView, key: RequestKey, sub_id: SubId)
    ensures
        v.drop_transfer(key).transfers == v.transfers.remove(key),
        v.drop_transfer(key).metadata == v.metadata,
        v.drop_transfer(key).live == v.live,
        v.drop_transfer(key).attempts == v.attempts,
        v.drop_transfer(key).retries == v.retries,
        v.drop_transfer(key).pending == v.pending,
        v.drop_transfer(key).active == v.active,
        v.drop_transfer(key).replacements == v.replacements,
        v.retire_metadata(sub_id).metadata == v.metadata.remove(sub_id),
        v.retire_metadata(sub_id).transfers == v.transfers,
        v.retire_metadata(sub_id).live == v.live,
        v.retire_metadata(sub_id).attempts == v.attempts,
        v.retire_metadata(sub_id).retries == v.retries,
        v.retire_metadata(sub_id).pending == v.pending,
        v.retire_metadata(sub_id).active == v.active,
        v.retire_metadata(sub_id).replacements == v.replacements,
{
}

/// The requests that a session's replacements would have replaced are named one for each
/// replacement on that session.
pub proof fn every_replaced_request_is_named(v: RequestsView, session: RelaySessionKey, prior: SubId)
    requires
        v.replacements.dom().finite(),
    ensures
        v.predecessors_on(session).contains(prior) <==> exists|s: SubId| #[trigger]
            v.replacements.contains_key(s) && v.replacements[s].session == session
                && v.replacements[s].prior_sub_id == prior,
        v.predecessors_on(session).len() == v.replacements.dom().filter(
            |s: SubId| v.replacements[s].session == session,
        ).len(),
{
    let on = successors_on(v.replacements, session);
    assert(on =~= v.replacements.dom().filter(|s: SubId| v.replacements[s].session == session));
    vstd::set_lib::lemma_set_subset_finite(v.replacements.dom(), on);
    lemma_listing_exists(on);
    let q = listing_of(on);
    lemma_listing_members(q, on);
    let p = v.predecessors_on(session);
    if p.contains(prior) {
        let i = choose|i: int| 0 <= i < p.len() && p[i] == prior;
        assert(q.contains(q[i]));
        assert(v.replacements.contains_key(q[i]));
    }
    if exists|s: SubId| #[trigger]
        v.replacements.contains_key(s) && v.replacements[s].session == session
            && v.replacements[s].prior_sub_id == prior {
        let s = choose|s: SubId| #[trigger]
            v.replacements.contains_key(s) && v.replacements[s].session == session
                && v.replacements[s].prior_sub_id == prior;
        assert(q.contains(s));
        let i = choose|i: int| 0 <= i < q.len() && q[i] == s;
        assert(p[i] == prior);
    }
}

/// A request that follows a plan gains the plan's new demands wherever it stands: at the
/// end of its queue, whatever its filter, and in the stream that is open for it. No other
/// request changes.
pub proof fn follower_gains_the_demands(
    v: RequestsView,
    key: RequestKey,
    demands: Set<DemandKey>,
    other: RequestKey,
    revision: u64,
)
    requires
        other != key,
    ensures
        ({
            let w = v.follow(key, demands);
            &&& v.pending.contains_key(key) && v.pending[key].len() > 0 ==> w.pending.contains_key(key)
                && w.pending[key].len() == v.pending[key].len() && w.pending[key].last().owner_demands
                == v.pending[key].last().owner_demands.union(demands)
            &&& v.live.contains_key(key) && (v.live[key].stored_events matches StoredEvents::Streaming {
                request_revision,
                ..
            } && request_revision == revision) && v.active.contains_key(revision)
                ==> w.active[revision].owner_demands == v.active[revision].owner_demands.union(demands)
            &&& w.pending.contains_key(other) == v.pending.contains_key(other)
            &&& v.pending.contains_key(other) ==> w.pending[other] == v.pending[other]
            &&& w.live == v.live
            &&& w.attempts == v.attempts
            &&& w.retries == v.retries
            &&& w.metadata == v.metadata
            &&& w.transfers == v.transfers
            &&& w.replacements == v.replacements
        }),
{
    if v.active.contains_key(revision) {
        assert(v.active[revision].owner_demands.union(demands).union(demands)
            =~= v.active[revision].owner_demands.union(demands));
    }
    if v.pending.contains_key(key) && v.pending[key].len() > 0 {
        assert(v.pending[key].last().owner_demands.union(demands).union(demands)
            =~= v.pending[key].last().owner_demands.union(demands));
    }
}

/// A session is counted once something of it is under way, or a retry of it is parked.
pub proof fn busy_sessions_are_counted(
    a: Map<RequestAttemptId, AttemptView>,
    r: Map<RequestKey, RetryView>,
    s: RelaySessionKey,
)
    ensures
        attempt_sessions(a).contains(s) <==> exists|id: RequestAttemptId| #[trigger]
            a.contains_key(id) && a[id].session == s,
        retry_sessions(r).contains(s) <==> exists|k: RequestKey| #[trigger]
            r.contains_key(k) && r[k].attempt.session == s,
{
}

/// Every request that awaits its hand-off is counted, queue after queue.
pub proof fn every_queue_is_counted(q: Seq<RequestKey>, pending: Map<RequestKey, Seq<PendingView>>, key: RequestKey)
    ensures
        awaiting_over(q.push(key), pending) == awaiting_over(q, pending) + pending[key].len(),
        awaiting_over(Seq::empty(), pending) == 0,
{
    assert(q.push(key).drop_last() =~= q);
}

} // verus!
