//! Wire operations together with the attempts that they belong to.

use vstd::prelude::*;

use crate::ids::{FilterHash, RelaySessionKey, RequestAttemptId, RequestKey, SubId};
use crate::key::Pair;
use crate::requests::{latest_attempt, queue_at, Requests, RequestsView};
use crate::sorted::SortedMap;
use crate::wire::{ConcreteFilter, WireOp};

verus! {

/// What one attempt of a delta is known by.
pub type SentKey = Pair<RequestKey, FilterHash>;

pub open spec fn sent_key(session: RelaySessionKey, sub_id: SubId, hash: FilterHash) -> SentKey {
    Pair(RequestKey { session, sub_id }, hash)
}

/// One operation for one session.
#[derive(Clone, Copy, Debug, PartialEq, Eq, Structural)]
pub struct SessionOp {
    pub session: RelaySessionKey,
    pub op: WireOp,
}

/// A delta, with the attempt of every request that it carries.
#[derive(Debug)]
pub struct AttemptedWireDelta {
    ops: Vec<SessionOp>,
    attempts: SortedMap<SentKey, RequestAttemptId>,
}

/// The attempts of the requests of a delta: a later request takes the place of
/// an earlier one with the same filter.
pub open spec fn attempts_of(v: RequestsView, q: Seq<SessionOp>) -> Map<SentKey, RequestAttemptId>
    decreases q.len(),
{
    if q.len() == 0 {
        Map::empty()
    } else {
        let before = attempts_of(v, q.drop_last());
        match q.last().op {
            WireOp::Req(sub_id, filter) => before.insert(
                sent_key(q.last().session, sub_id, filter.hash),
                latest_attempt(
                    queue_at(v.pending, RequestKey { session: q.last().session, sub_id }),
                    filter.hash,
                )->0,
            ),
            WireOp::Close(_) => before,
        }
    }
}

/// Whether every request of a delta awaits its result.
pub open spec fn all_awaited(v: RequestsView, q: Seq<SessionOp>) -> bool {
    forall|i: int|
        0 <= i < q.len() ==> ((#[trigger] q[i]).op matches WireOp::Req(sub_id, filter) ==> latest_attempt(
            queue_at(v.pending, RequestKey { session: q[i].session, sub_id }),
            filter.hash,
        ) is Some)
}

impl AttemptedWireDelta {
    pub closed spec fn operations(&self) -> Seq<SessionOp> {
        self.ops@
    }

    pub closed spec fn attempts(&self) -> Map<SentKey, RequestAttemptId> {
        self.attempts@
    }

    pub fn new(ops: Vec<SessionOp>, attempts: SortedMap<SentKey, RequestAttemptId>) -> (r: Self)
        ensures
            r.operations() == ops@,
            r.attempts() == attempts@,
    {
        AttemptedWireDelta { ops, attempts }
    }

    pub fn ops(&self) -> (r: &Vec<SessionOp>)
        ensures
            r@ == self.operations(),
    {
        &self.ops
    }

    /// The attempt of one request of the delta.
    pub fn attempt_id(&self, session: &RelaySessionKey, sub_id: &SubId, filter: &ConcreteFilter) -> (r: RequestAttemptId)
        requires
            self.attempts().contains_key(sent_key(*session, *sub_id, filter.hash)),
        ensures
            r == self.attempts()[sent_key(*session, *sub_id, filter.hash)],
    {
        let key = Pair(RequestKey { session: *session, sub_id: *sub_id }, filter.hash);
        match self.attempts.get(&key) {
            Some(id) => *id,
            None => RequestAttemptId(0),
        }
    }
}

/// One request of a reconnect.
#[derive(Clone, Copy, Debug, PartialEq, Eq, Structural)]
pub struct WireReq {
    pub sub_id: SubId,
    pub filter: ConcreteFilter,
}

/// The requests of a reconnect, each with its attempt at the same place.
#[derive(Debug)]
pub struct AttemptedReplay {
    requests: Vec<WireReq>,
    attempts: Vec<RequestAttemptId>,
}

impl AttemptedReplay {
    pub closed spec fn reqs(&self) -> Seq<WireReq> {
        self.requests@
    }

    pub closed spec fn ids(&self) -> Seq<RequestAttemptId> {
        self.attempts@
    }

    #[verifier::type_invariant]
    closed spec fn aligned(&self) -> bool {
        self.requests@.len() == self.attempts@.len()
    }

    pub fn new(requests: Vec<WireReq>, attempts: Vec<RequestAttemptId>) -> (r: Self)
        requires
            requests@.len() == attempts@.len(),
        ensures
            r.reqs() == requests@,
            r.ids() == attempts@,
    {
        AttemptedReplay { requests, attempts }
    }

    pub fn requests(&self) -> (r: &Vec<WireReq>)
        ensures
            r@ == self.reqs(),
            r@.len() == self.ids().len(),
    {
        proof {
            use_type_invariant(self);
        }
        &self.requests
    }

    pub fn attempts(&self) -> (r: &Vec<RequestAttemptId>)
        ensures
            r@ == self.ids(),
            r@.len() == self.reqs().len(),
    {
        proof {
            use_type_invariant(self);
        }
        &self.attempts
    }
}

impl Requests {
    /// Puts the attempt beside every request of a delta. Each of them awaits its
    /// result.
    pub fn attempted_wire_delta(&self, ops: Vec<SessionOp>) -> (r: AttemptedWireDelta)
        requires
            all_awaited(self@, ops@),
        ensures
            r.operations() == ops@,
            r.attempts() == attempts_of(self@, ops@),
    {
        let ghost q = ops@;
        let mut attempts: SortedMap<SentKey, RequestAttemptId> = SortedMap::new();
        let mut i: usize = 0;
        assert(q.take(0) =~= Seq::<SessionOp>::empty());
        while i < ops.len()
            invariant
                i <= q.len(),
                q == ops@,
                all_awaited(self@, q),
                attempts@ == attempts_of(self@, q.take(i as int)),
            decreases q.len() - i,
        {
            let op = ops[i];
            proof {
                assert(q.take(i + 1).drop_last() =~= q.take(i as int));
                assert(q.take(i + 1).last() == op);
                assert(q[i as int] == op);
            }
            if let WireOp::Req(sub_id, filter) = op.op {
                let key = RequestKey { session: op.session, sub_id };
                if let Some(id) = self.attempt_for(&key, filter.hash) {
                    attempts.insert(Pair(key, filter.hash), id);
                }
            }
            i = i + 1;
        }
        assert(q.take(i as int) =~= q);
        AttemptedWireDelta::new(ops, attempts)
    }

    /// Puts the attempt beside every request that a reconnect sends again.
    pub fn attempted_replay(&self, session: &RelaySessionKey, requests: Vec<WireReq>) -> (r: AttemptedReplay)
        requires
            forall|i: int|
                0 <= i < requests@.len() ==> latest_attempt(
                    queue_at(
                        self@.pending,
                        RequestKey { session: *session, sub_id: (#[trigger] requests@[i]).sub_id },
                    ),
                    requests@[i].filter.hash,
                ) is Some,
        ensures
            r.reqs() == requests@,
            r.ids() == Seq::new(
                requests@.len(),
                |i: int|
                    latest_attempt(
                        queue_at(
                            self@.pending,
                            RequestKey { session: *session, sub_id: requests@[i].sub_id },
                        ),
                        requests@[i].filter.hash,
                    )->0,
            ),
    {
        let mut attempts: Vec<RequestAttemptId> = Vec::new();
        let mut i: usize = 0;
        while i < requests.len()
            invariant
                i <= requests@.len(),
                attempts@.len() == i,
                forall|j: int|
                    0 <= j < requests@.len() ==> latest_attempt(
                        queue_at(
                            self@.pending,
                            RequestKey { session: *session, sub_id: (#[trigger] requests@[j]).sub_id },
                        ),
                        requests@[j].filter.hash,
                    ) is Some,
                forall|j: int|
                    0 <= j < i ==> (#[trigger] attempts@[j]) == latest_attempt(
                        queue_at(
                            self@.pending,
                            RequestKey { session: *session, sub_id: requests@[j].sub_id },
                        ),
                        requests@[j].filter.hash,
                    )->0,
            decreases requests@.len() - i,
        {
            let request = requests[i];
            assert(requests@[i as int] == request);
            let key = RequestKey { session: *session, sub_id: request.sub_id };
            if let Some(id) = self.attempt_for(&key, request.filter.hash) {
                attempts.push(id);
            }
            i = i + 1;
        }
        let r = AttemptedReplay::new(requests, attempts);
        assert(r.ids() =~= Seq::new(
            requests@.len(),
            |i: int|
                latest_attempt(
                    queue_at(
                        self@.pending,
                        RequestKey { session: *session, sub_id: requests@[i].sub_id },
                    ),
                    requests@[i].filter.hash,
                )->0,
        ));
        r
    }
}

/// The attempt that stands beside a request just sent is the one that was issued
/// for it.
pub proof fn sent_request_carries_its_own_attempt(
    v: RequestsView,
    send: crate::requests::SendView,
    revision: u64,
)
    ensures
        latest_attempt(
            queue_at(
                v.record(send, revision).pending,
                RequestKey { session: send.session, sub_id: send.sub_id },
            ),
            send.filter.hash,
        ) == Some(RequestAttemptId(v.next_id->0)),
{
    let key = RequestKey { session: send.session, sub_id: send.sub_id };
    let q = queue_at(v.record(send, revision).pending, key);
    assert(q.last().attempt_id == RequestAttemptId(v.next_id->0));
}

/// A delta carries, for every request in it, the attempt that was sent last with its
/// filter on its session, and an attempt for nothing else.
pub proof fn delta_names_the_latest_attempts(v: RequestsView, q: Seq<SessionOp>, key: SentKey)
    ensures
        attempts_of(v, q).contains_key(key) <==> exists|i: int|
            0 <= i < q.len() && (#[trigger] q[i]).session == key.0.session && (q[i].op matches WireOp::Req(
                sub_id,
                filter,
            ) && sub_id == key.0.sub_id && filter.hash == key.1),
        attempts_of(v, q).contains_key(key) ==> attempts_of(v, q)[key] == latest_attempt(
            queue_at(v.pending, key.0),
            key.1,
        )->0,
    decreases q.len(),
{
    if q.len() > 0 {
        let rest = q.drop_last();
        let n = rest.len() as int;
        delta_names_the_latest_attempts(v, rest, key);
        assert(q.last() == q[n]);
        if attempts_of(v, rest).contains_key(key) {
            let i = choose|i: int|
                0 <= i < rest.len() && (#[trigger] rest[i]).session == key.0.session && (
                rest[i].op matches WireOp::Req(sub_id, filter) && sub_id == key.0.sub_id && filter.hash
                    == key.1);
            assert(q[i] == rest[i]);
        }
        if exists|i: int|
            0 <= i < q.len() && (#[trigger] q[i]).session == key.0.session && (q[i].op matches WireOp::Req(
                sub_id,
                filter,
            ) && sub_id == key.0.sub_id && filter.hash == key.1) {
            let i = choose|i: int|
                0 <= i < q.len() && (#[trigger] q[i]).session == key.0.session && (q[i].op
                    matches WireOp::Req(sub_id, filter) && sub_id == key.0.sub_id && filter.hash == key.1);
            if i < n {
                assert(rest[i] == q[i]);
            }
        }
    }
}

} // verus!
