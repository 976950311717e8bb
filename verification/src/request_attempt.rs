//! Typed ownership for one exact local request-send attempt, and the retries
//! parked behind it.

use vstd::prelude::*;

use crate::ids::{
    CoverageKey, DemandKey, RelaySessionKey, RequestAttemptId, RequestKey, SubId,
    TransportRelayHandle,
};
use crate::key::{
    is_listing, lemma_image, lemma_is_listing, lemma_listing_members, lemma_push_contains, same, Key,
    Pair,
};
use crate::retry::{backoff_secs, unjittered_retry_delay_secs};
use crate::reverse::{owners_of, without_owner, ReverseIndex};
use crate::sorted::{SortedMap, SortedSet};
use crate::wire::ConcreteFilter;

verus! {

/// A local transport refusal is a fact about this process, never the relay.
#[derive(Clone, Copy, Debug, PartialEq, Eq, Structural)]
pub enum LocalSendRefusal {
    SessionUnavailable,
    WorkerAdmissionRefused { handle: TransportRelayHandle },
}

/// Closed transport result for exactly one reducer-owned send attempt.
#[derive(Clone, Copy, Debug, PartialEq, Eq, Structural)]
pub enum RequestHandoffOutcome {
    Accepted { attempt_id: RequestAttemptId, handle: TransportRelayHandle },
    Refused { attempt_id: RequestAttemptId, cause: LocalSendRefusal },
}

impl RequestHandoffOutcome {
    pub open spec fn spec_attempt_id(&self) -> RequestAttemptId {
        match self {
            RequestHandoffOutcome::Accepted { attempt_id, .. } => *attempt_id,
            RequestHandoffOutcome::Refused { attempt_id, .. } => *attempt_id,
        }
    }

    pub fn attempt_id(&self) -> (id: RequestAttemptId)
        ensures
            id == self.spec_attempt_id(),
    {
        match self {
            RequestHandoffOutcome::Accepted { attempt_id, .. } => *attempt_id,
            RequestHandoffOutcome::Refused { attempt_id, .. } => *attempt_id,
        }
    }
}

/// What one local send attempt was made for.
pub struct RequestAttemptState {
    pub session: RelaySessionKey,
    pub sub_id: SubId,
    pub filter: ConcreteFilter,
    pub coverage_claims: SortedSet<CoverageKey>,
    pub owner_demands: SortedSet<DemandKey>,
    pub request_revision: Option<u64>,
    /// Refusals already observed for this one retry goal. Carried through a
    /// new attempt so that backoff never starts over.
    pub retry_failures: u32,
}

impl RequestAttemptState {
    pub open spec fn key(&self) -> RequestKey {
        RequestKey { session: self.session, sub_id: self.sub_id }
    }

    /// The deadline record that a refusal of this attempt belongs to.
    pub fn retry_key(&self) -> (r: Option<RequestKey>)
        ensures
            r == Some(self.key()),
    {
        Some(RequestKey { session: self.session, sub_id: self.sub_id })
    }
}

/// A refused attempt that waits for its deadline.
pub struct PendingRequestRetry {
    pub attempt: RequestAttemptState,
    pub due: u64,
    pub failures: u32,
}

/// What an attempt was made for.
pub struct AttemptView {
    pub session: RelaySessionKey,
    pub sub_id: SubId,
    pub filter: ConcreteFilter,
    pub coverage_claims: Set<CoverageKey>,
    pub owner_demands: Set<DemandKey>,
    pub request_revision: Option<u64>,
    pub retry_failures: u32,
}

impl View for RequestAttemptState {
    type V = AttemptView;

    open spec fn view(&self) -> AttemptView {
        AttemptView {
            session: self.session,
            sub_id: self.sub_id,
            filter: self.filter,
            coverage_claims: self.coverage_claims@,
            owner_demands: self.owner_demands@,
            request_revision: self.request_revision,
            retry_failures: self.retry_failures,
        }
    }
}

/// What a parked retry says.
pub struct RetryView {
    pub attempt: AttemptView,
    pub due: u64,
    pub failures: u32,
}

impl View for PendingRequestRetry {
    type V = RetryView;

    open spec fn view(&self) -> RetryView {
        RetryView { attempt: self.attempt@, due: self.due, failures: self.failures }
    }
}

/// How the mirrors of the attempts can disagree.
#[derive(Clone, Copy, Debug, PartialEq, Eq)]
pub enum AttemptFault {
    /// A live attempt is not named by its own subscription.
    NotNamedBySub(RequestAttemptId),
    /// A live attempt is not named by its own session.
    NotNamedBySession(RequestAttemptId),
    /// A subscription names an attempt that is not live, or not its own.
    StraySubEdge(SubId, RequestAttemptId),
    /// A session names an attempt that is not live, or not its own.
    StraySessionEdge(RelaySessionKey, RequestAttemptId),
    /// A parked retry is not the one that its own subscription names.
    RetryNotNamedBySub(RequestKey),
    /// A parked retry is not named by its own session.
    RetryNotNamedBySession(RequestKey),
    /// A subscription names a retry that is not parked, or not its own.
    StrayRetrySubEdge(SubId, RequestKey),
    /// A session names a retry that is not parked, or not its own.
    StrayRetrySessionEdge(RelaySessionKey, RequestKey),
}

/// How many records each index holds.
#[derive(Clone, Copy, Debug, PartialEq, Eq)]
pub struct RequestAttemptCounts {
    pub attempts: usize,
    pub sub_keys: usize,
    pub sub_edges: usize,
    pub session_keys: usize,
    pub session_edges: usize,
    pub retry_jobs: usize,
    pub retry_sub_keys: usize,
    pub retry_session_keys: usize,
    pub retry_session_edges: usize,
}

pub open spec fn sub_mirror(a: Map<RequestAttemptId, RequestAttemptState>) -> Set<
    Pair<SubId, RequestAttemptId>,
> {
    Set::new(|e: Pair<SubId, RequestAttemptId>| a.contains_key(e.1) && a[e.1].sub_id == e.0)
}

pub open spec fn session_mirror(a: Map<RequestAttemptId, RequestAttemptState>) -> Set<
    Pair<RelaySessionKey, RequestAttemptId>,
> {
    Set::new(|e: Pair<RelaySessionKey, RequestAttemptId>| a.contains_key(e.1) && a[e.1].session == e.0)
}

pub open spec fn retry_session_mirror(r: Map<RequestKey, PendingRequestRetry>) -> Set<
    Pair<RelaySessionKey, RequestKey>,
> {
    Set::new(
        |e: Pair<RelaySessionKey, RequestKey>| r.contains_key(e.1) && r[e.1].attempt.session == e.0,
    )
}

/// Every parked retry is the one that its own subscription names, and no
/// subscription names any other.
pub open spec fn retry_sub_mirrored(
    named: Map<SubId, RequestKey>,
    r: Map<RequestKey, PendingRequestRetry>,
) -> bool {
    &&& forall|k: RequestKey| #[trigger]
        r.contains_key(k) ==> named.contains_key(r[k].attempt.sub_id) && named[r[k].attempt.sub_id] == k
    &&& forall|s: SubId| #[trigger]
        named.contains_key(s) ==> r.contains_key(named[s]) && r[named[s]].attempt.sub_id == s
}

/// Every retry is parked under the request that it repeats.
pub open spec fn retries_keyed(r: Map<RequestKey, PendingRequestRetry>) -> bool {
    forall|k: RequestKey| #[trigger] r.contains_key(k) ==> r[k].attempt.key() == k
}

pub open spec fn attempts_for_sub(
    a: Map<RequestAttemptId, RequestAttemptState>,
    sub_id: SubId,
) -> Set<RequestAttemptId> {
    Set::new(|id: RequestAttemptId| a.contains_key(id) && a[id].sub_id == sub_id)
}

pub open spec fn attempts_for_session(
    a: Map<RequestAttemptId, RequestAttemptState>,
    session: RelaySessionKey,
) -> Set<RequestAttemptId> {
    Set::new(|id: RequestAttemptId| a.contains_key(id) && a[id].session == session)
}

pub open spec fn retries_for_sub(
    r: Map<RequestKey, PendingRequestRetry>,
    sub_id: SubId,
) -> Set<RequestKey> {
    Set::new(|k: RequestKey| r.contains_key(k) && k.sub_id == sub_id)
}

pub open spec fn retries_for_session(
    r: Map<RequestKey, PendingRequestRetry>,
    session: RelaySessionKey,
) -> Set<RequestKey> {
    Set::new(|k: RequestKey| r.contains_key(k) && k.session == session)
}

/// A number that does not go past the largest one.
pub open spec fn capped(n: int, most: int) -> int {
    if n <= most {
        n
    } else {
        most
    }
}

/// The record that a refusal of `attempt` at `now` leaves behind.
pub open spec fn parked(attempt: RequestAttemptState, now: u64) -> PendingRequestRetry {
    let failures = capped(attempt.retry_failures + 1, u32::MAX as int) as u32;
    PendingRequestRetry {
        attempt,
        due: capped(now + backoff_secs(failures as nat), u64::MAX as int) as u64,
        failures,
    }
}

/// Every local request-send attempt that the reducer owns, and the retries
/// parked behind them.
pub struct RequestAttempts {
    attempts: SortedMap<RequestAttemptId, RequestAttemptState>,
    by_sub: ReverseIndex<SubId, RequestAttemptId>,
    by_session: ReverseIndex<RelaySessionKey, RequestAttemptId>,
    next_id: Option<u64>,
    retries: SortedMap<RequestKey, PendingRequestRetry>,
    retry_by_sub: SortedMap<SubId, RequestKey>,
    retries_by_session: ReverseIndex<RelaySessionKey, RequestKey>,
}

proof fn lemma_attempt_insert(
    a: Map<RequestAttemptId, RequestAttemptState>,
    id: RequestAttemptId,
    v: RequestAttemptState,
)
    requires
        !a.contains_key(id),
    ensures
        sub_mirror(a.insert(id, v)) == sub_mirror(a).insert(Pair(v.sub_id, id)),
        session_mirror(a.insert(id, v)) == session_mirror(a).insert(Pair(v.session, id)),
{
    assert(sub_mirror(a.insert(id, v)) =~= sub_mirror(a).insert(Pair(v.sub_id, id)));
    assert(session_mirror(a.insert(id, v)) =~= session_mirror(a).insert(Pair(v.session, id)));
}

proof fn lemma_attempt_remove(a: Map<RequestAttemptId, RequestAttemptState>, id: RequestAttemptId)
    requires
        a.contains_key(id),
    ensures
        sub_mirror(a.remove(id)) == sub_mirror(a).remove(Pair(a[id].sub_id, id)),
        session_mirror(a.remove(id)) == session_mirror(a).remove(Pair(a[id].session, id)),
{
    assert(sub_mirror(a.remove(id)) =~= sub_mirror(a).remove(Pair(a[id].sub_id, id)));
    assert(session_mirror(a.remove(id)) =~= session_mirror(a).remove(Pair(a[id].session, id)));
}

proof fn lemma_remove_next<K, V>(m: Map<K, V>, q: Seq<K>, i: int)
    requires
        0 <= i < q.len(),
    ensures
        m.remove_keys(q.take(i).to_set()).remove(q[i]) == m.remove_keys(q.take(i + 1).to_set()),
{
    assert(q.take(i + 1) =~= q.take(i).push(q[i]));
    lemma_push_contains(q.take(i), q[i]);
    assert forall|k: K| q.take(i + 1).to_set().contains(k) <==> q.take(i).to_set().contains(k) || k
        == q[i] by {
        assert(q.take(i + 1).contains(k) <==> q.take(i).contains(k) || k == q[i]);
    }
    assert(m.remove_keys(q.take(i).to_set()).remove(q[i]) =~= m.remove_keys(q.take(i + 1).to_set()));
}

proof fn lemma_remove_none<K, V>(m: Map<K, V>, q: Seq<K>)
    ensures
        m.remove_keys(q.take(0).to_set()) == m,
{
    assert(m.remove_keys(q.take(0).to_set()) =~= m);
}

impl RequestAttempts {
    /// The live attempts.
    pub closed spec fn attempts(&self) -> Map<RequestAttemptId, RequestAttemptState> {
        self.attempts@
    }

    /// The parked retries.
    pub closed spec fn retries(&self) -> Map<RequestKey, PendingRequestRetry> {
        self.retries@
    }

    /// The next identity to be minted, where one is left.
    pub closed spec fn next_id(&self) -> Option<u64> {
        self.next_id
    }

    /// The four mirrors say what the two maps say.
    pub closed spec fn mirrored(&self) -> bool {
        &&& self.by_sub@ == sub_mirror(self.attempts@)
        &&& self.by_session@ == session_mirror(self.attempts@)
        &&& retry_sub_mirrored(self.retry_by_sub@, self.retries@)
        &&& self.retries_by_session@ == retry_session_mirror(self.retries@)
    }

    /// The mirrors hold, retries stand under their own request, and every
    /// identity in use was minted before.
    pub open spec fn wf(&self) -> bool {
        &&& self.mirrored()
        &&& retries_keyed(self.retries())
        &&& forall|id: RequestAttemptId| #[trigger]
            self.attempts().contains_key(id) ==> match self.next_id() {
                Some(n) => id.0 < n,
                None => true,
            }
    }

    pub fn new() -> (r: Self)
        ensures
            r.wf(),
            r.attempts() == Map::<RequestAttemptId, RequestAttemptState>::empty(),
            r.retries() == Map::<RequestKey, PendingRequestRetry>::empty(),
            r.next_id() == Some(0u64),
    {
        let r = RequestAttempts {
            attempts: SortedMap::new(),
            by_sub: ReverseIndex::new(),
            by_session: ReverseIndex::new(),
            next_id: Some(0),
            retries: SortedMap::new(),
            retry_by_sub: SortedMap::new(),
            retries_by_session: ReverseIndex::new(),
        };
        assert(r.by_sub@ =~= sub_mirror(r.attempts@));
        assert(r.by_session@ =~= session_mirror(r.attempts@));
        assert(r.retries_by_session@ =~= retry_session_mirror(r.retries@));
        r
    }

    /// Takes on one new attempt under an identity never used before.
    pub fn mint(&mut self, attempt: RequestAttemptState) -> (id: RequestAttemptId)
        requires
            old(self).wf(),
            old(self).next_id() is Some,
        ensures
            final(self).wf(),
            Some(id.0) == old(self).next_id(),
            !old(self).attempts().contains_key(id),
            final(self).attempts() == old(self).attempts().insert(id, attempt),
            final(self).retries() == old(self).retries(),
            final(self).next_id() == (if id.0 == u64::MAX {
                None
            } else {
                Some((id.0 + 1) as u64)
            }),
    {
        let value: u64 = match self.next_id {
            Some(value) => value,
            None => 0,
        };
        self.next_id = value.checked_add(1);
        let id = RequestAttemptId(value);
        proof {
            assert(!old(self).attempts().contains_key(id));
            lemma_attempt_insert(self.attempts@, id, attempt);
        }
        self.by_sub.add_edge(attempt.sub_id, id);
        self.by_session.add_edge(attempt.session, id);
        self.attempts.insert(id, attempt);
        assert forall|id: RequestAttemptId| #[trigger]
            self.attempts().contains_key(id) implies match self.next_id() {
            Some(n) => id.0 < n,
            None => true,
        } by {
            assert(id != RequestAttemptId(value) ==> old(self).attempts().contains_key(id));
        }
        id
    }

    /// The number of the next attempt. None once every number is spent.
    pub fn next_attempt(&self) -> (r: Option<u64>)
        ensures
            r == self.next_id(),
    {
        self.next_id
    }

    /// Removes the attempt that a transport result speaks of.
    pub fn take(&mut self, outcome: &RequestHandoffOutcome) -> (r: Option<RequestAttemptState>)
        requires
            old(self).wf(),
        ensures
            final(self).wf(),
            final(self).attempts() == old(self).attempts().remove(outcome.spec_attempt_id()),
            final(self).retries() == old(self).retries(),
            final(self).next_id() == old(self).next_id(),
            match r {
                Some(a) => old(self).attempts().contains_key(outcome.spec_attempt_id()) && a == old(
                    self,
                ).attempts()[outcome.spec_attempt_id()],
                None => !old(self).attempts().contains_key(outcome.spec_attempt_id()),
            },
    {
        self.remove(outcome.attempt_id())
    }

    fn remove(&mut self, attempt_id: RequestAttemptId) -> (r: Option<RequestAttemptState>)
        requires
            old(self).wf(),
        ensures
            final(self).wf(),
            final(self).attempts() == old(self).attempts().remove(attempt_id),
            final(self).retries() == old(self).retries(),
            final(self).next_id() == old(self).next_id(),
            match r {
                Some(a) => old(self).attempts().contains_key(attempt_id) && a == old(self).attempts()[attempt_id],
                None => !old(self).attempts().contains_key(attempt_id),
            },
    {
        match self.attempts.remove(&attempt_id) {
            Some(attempt) => {
                proof {
                    lemma_attempt_remove(old(self).attempts@, attempt_id);
                }
                self.by_sub.drop_edge(&attempt.sub_id, &attempt_id);
                self.by_session.drop_edge(&attempt.session, &attempt_id);
                Some(attempt)
            },
            None => {
                assert(self.attempts@ =~= old(self).attempts@);
                None
            },
        }
    }

    /// Retires every attempt and the parked retry of one subscription.
    pub fn retire_for_sub(&mut self, sub_id: &SubId)
        requires
            old(self).wf(),
        ensures
            final(self).wf(),
            final(self).attempts() == old(self).attempts().remove_keys(
                attempts_for_sub(old(self).attempts(), *sub_id),
            ),
            final(self).retries() == old(self).retries().remove_keys(
                retries_for_sub(old(self).retries(), *sub_id),
            ),
            final(self).next_id() == old(self).next_id(),
    {
        let ghost before = *old(self);
        let bucket = self.by_sub.take_owner(sub_id);
        let ids = bucket.list();
        let ghost gone = attempts_for_sub(before.attempts@, *sub_id);
        let mut i: usize = 0;
        proof {
            lemma_listing_members(ids@, bucket@);
            assert(bucket@ =~= gone);
            lemma_remove_none(before.attempts@, ids@);
        }
        while i < ids.len()
            invariant
                i <= ids@.len(),
                ids@.to_set() == gone,
                ids@.no_duplicates(),
                gone == attempts_for_sub(before.attempts@, *sub_id),
                self.attempts@ == before.attempts@.remove_keys(ids@.take(i as int).to_set()),
                self.by_session@ == session_mirror(self.attempts@),
                self.by_sub@ == without_owner(sub_mirror(before.attempts@), *sub_id),
                self.next_id == before.next_id,
                self.retries == before.retries,
                self.retry_by_sub == before.retry_by_sub,
                self.retries_by_session == before.retries_by_session,
            decreases ids@.len() - i,
        {
            let id = ids[i];
            proof {
                assert(ids@.to_set().contains(ids@[i as int]));
                assert(!ids@.take(i as int).contains(id));
                lemma_remove_next(before.attempts@, ids@, i as int);
                lemma_attempt_remove(self.attempts@, id);
            }
            if let Some(attempt) = self.attempts.remove(&id) {
                self.by_session.drop_edge(&attempt.session, &id);
            }
            i = i + 1;
        }
        proof {
            assert(ids@.take(i as int) =~= ids@);
            assert(self.by_sub@ =~= sub_mirror(self.attempts@));
            assert(self.mirrored());
            assert(retries_keyed(self.retries@));
            assert forall|id: RequestAttemptId| #[trigger]
                self.attempts().contains_key(id) implies match self.next_id() {
                Some(n) => id.0 < n,
                None => true,
            } by {
                assert(old(self).attempts().contains_key(id));
            }
            }
        self.cancel_retry_for_sub(sub_id);
    }

    /// Retires every attempt and every parked retry of one session.
    pub fn retire_for_session(&mut self, session: &RelaySessionKey)
        requires
            old(self).wf(),
        ensures
            final(self).wf(),
            final(self).attempts() == old(self).attempts().remove_keys(
                attempts_for_session(old(self).attempts(), *session),
            ),
            final(self).retries() == old(self).retries().remove_keys(
                retries_for_session(old(self).retries(), *session),
            ),
            final(self).next_id() == old(self).next_id(),
    {
        let ghost before = *old(self);
        let bucket = self.by_session.take_owner(session);
        let ids = bucket.list();
        let ghost gone = attempts_for_session(before.attempts@, *session);
        let mut i: usize = 0;
        proof {
            lemma_listing_members(ids@, bucket@);
            assert(bucket@ =~= gone);
            lemma_remove_none(before.attempts@, ids@);
        }
        while i < ids.len()
            invariant
                i <= ids@.len(),
                ids@.to_set() == gone,
                ids@.no_duplicates(),
                gone == attempts_for_session(before.attempts@, *session),
                self.attempts@ == before.attempts@.remove_keys(ids@.take(i as int).to_set()),
                self.by_sub@ == sub_mirror(self.attempts@),
                self.by_session@ == without_owner(session_mirror(before.attempts@), *session),
                self.next_id == before.next_id,
                self.retries == before.retries,
                self.retry_by_sub == before.retry_by_sub,
                self.retries_by_session == before.retries_by_session,
            decreases ids@.len() - i,
        {
            let id = ids[i];
            proof {
                assert(ids@.to_set().contains(ids@[i as int]));
                assert(!ids@.take(i as int).contains(id));
                lemma_remove_next(before.attempts@, ids@, i as int);
                lemma_attempt_remove(self.attempts@, id);
            }
            if let Some(attempt) = self.attempts.remove(&id) {
                self.by_sub.drop_edge(&attempt.sub_id, &id);
            }
            i = i + 1;
        }
        proof {
            assert(ids@.take(i as int) =~= ids@);
            assert(self.by_session@ =~= session_mirror(self.attempts@));
        }
        let parked = self.retries_by_session.take_owner(session);
        let keys = parked.list();
        let ghost away = retries_for_session(before.retries@, *session);
        let mut j: usize = 0;
        proof {
            lemma_listing_members(keys@, parked@);
            assert(parked@ =~= away);
            lemma_remove_none(before.retries@, keys@);
        }
        while j < keys.len()
            invariant
                j <= keys@.len(),
                keys@.to_set() == away,
                keys@.no_duplicates(),
                away == retries_for_session(before.retries@, *session),
                retries_keyed(before.retries@),
                self.retries@ == before.retries@.remove_keys(keys@.take(j as int).to_set()),
                retry_sub_mirrored(self.retry_by_sub@, self.retries@),
                self.retries_by_session@ == without_owner(
                    retry_session_mirror(before.retries@),
                    *session,
                ),
                self.next_id == before.next_id,
                self.attempts@ == before.attempts@.remove_keys(gone),
                self.by_sub@ == sub_mirror(self.attempts@),
                self.by_session@ == session_mirror(self.attempts@),
            decreases keys@.len() - j,
        {
            let key = keys[j];
            proof {
                assert(keys@.to_set().contains(keys@[j as int]));
                assert(!keys@.take(j as int).contains(key));
                lemma_remove_next(before.retries@, keys@, j as int);
            }
            if let Some(pending) = self.retries.remove(&key) {
                self.retry_by_sub.remove(&pending.attempt.sub_id);
            }
            j = j + 1;
        }
        proof {
            assert(keys@.take(j as int) =~= keys@);
            assert(self.retries_by_session@ =~= retry_session_mirror(self.retries@));
            assert(self.mirrored());
            assert(retries_keyed(self.retries@));
            assert forall|id: RequestAttemptId| #[trigger]
                self.attempts().contains_key(id) implies match self.next_id() {
                Some(n) => id.0 < n,
                None => true,
            } by {
                assert(old(self).attempts().contains_key(id));
            }
            }
    }

    /// Parks a refused attempt until its deadline.
    pub fn schedule_retry(&mut self, attempt: RequestAttemptState, now: u64)
        requires
            old(self).wf(),
            forall|k: RequestKey| #[trigger]
                old(self).retries().contains_key(k) && k.sub_id == attempt.sub_id ==> k.session
                    == attempt.session,
        ensures
            final(self).wf(),
            final(self).attempts() == old(self).attempts(),
            final(self).next_id() == old(self).next_id(),
            final(self).retries() == old(self).retries().insert(attempt.key(), parked(attempt, now)),
    {
        if let Some(key) = attempt.retry_key() {
            let failures = attempt.retry_failures.saturating_add(1);
            let _prior = self.remove_retry(&key);
            let ghost cleared = *self;
            self.retry_by_sub.insert(attempt.sub_id, key);
            self.retries_by_session.add_edge(attempt.session, key);
            let due = now.saturating_add(unjittered_retry_delay_secs(failures));
            self.retries.insert(key, PendingRequestRetry { attempt, due, failures });
            proof {
                assert(self.retries@ =~= old(self).retries@.insert(key, parked(attempt, now)));
                assert(self.retries_by_session@ =~= retry_session_mirror(self.retries@));
                assert(retry_sub_mirrored(self.retry_by_sub@, self.retries@)) by {
                    assert forall|k: RequestKey| #[trigger]
                        self.retries@.contains_key(k) implies self.retry_by_sub@.contains_key(
                        self.retries@[k].attempt.sub_id,
                    ) && self.retry_by_sub@[self.retries@[k].attempt.sub_id] == k by {
                        if k != key {
                            assert(cleared.retries@.contains_key(k));
                        }
                    }
                    assert forall|s: SubId| #[trigger]
                        self.retry_by_sub@.contains_key(s) implies self.retries@.contains_key(
                        self.retry_by_sub@[s],
                    ) && self.retries@[self.retry_by_sub@[s]].attempt.sub_id == s by {
                        if s != attempt.sub_id {
                            assert(cleared.retry_by_sub@.contains_key(s));
                        }
                    }
                }
            }
        }
    }

    pub fn clear_retry_for_attempt(&mut self, attempt: &RequestAttemptState)
        requires
            old(self).wf(),
        ensures
            final(self).wf(),
            final(self).attempts() == old(self).attempts(),
            final(self).next_id() == old(self).next_id(),
            final(self).retries() == old(self).retries().remove(attempt.key()),
    {
        if let Some(key) = attempt.retry_key() {
            self.remove_retry(&key);
        }
    }

    /// Cancels the retry parked behind one subscription.
    pub fn cancel_retry_for_sub(&mut self, sub_id: &SubId)
        requires
            old(self).wf(),
        ensures
            final(self).wf(),
            final(self).attempts() == old(self).attempts(),
            final(self).next_id() == old(self).next_id(),
            final(self).retries() == old(self).retries().remove_keys(
                retries_for_sub(old(self).retries(), *sub_id),
            ),
    {
        let ghost before = *old(self);
        match self.retry_by_sub.remove(sub_id) {
            None => {
                assert(self.retry_by_sub@ =~= before.retry_by_sub@);
                assert(before.retries@.remove_keys(retries_for_sub(before.retries@, *sub_id))
                    =~= before.retries@);
            },
            Some(key) => {
                if let Some(pending) = self.retries.remove(&key) {
                    self.retries_by_session.drop_edge(&pending.attempt.session, &key);
                }
                proof {
                    assert(self.retries@ =~= before.retries@.remove_keys(
                        retries_for_sub(before.retries@, *sub_id),
                    ));
                    assert(self.retries_by_session@ =~= retry_session_mirror(self.retries@));
                    assert(retry_sub_mirrored(self.retry_by_sub@, self.retries@));
                    assert(retries_keyed(self.retries@));
                    assert(self.mirrored());
                }
            },
        }
        assert(self.mirrored());
        assert(retries_keyed(self.retries()));
        assert(self.attempts() == old(self).attempts());
        assert forall|id: RequestAttemptId| #[trigger]
            self.attempts().contains_key(id) implies match self.next_id() {
            Some(n) => id.0 < n,
            None => true,
        } by {
            assert(old(self).attempts().contains_key(id));
        }
    }

    fn remove_retry(&mut self, key: &RequestKey) -> (r: Option<PendingRequestRetry>)
        requires
            old(self).wf(),
        ensures
            final(self).wf(),
            final(self).attempts() == old(self).attempts(),
            final(self).next_id() == old(self).next_id(),
            final(self).retries() == old(self).retries().remove(*key),
            match r {
                Some(p) => old(self).retries().contains_key(*key) && p == old(self).retries()[*key],
                None => !old(self).retries().contains_key(*key),
            },
    {
        let ghost before = *old(self);
        let r = match self.retries.remove(key) {
            None => {
                assert(self.retries@ =~= before.retries@);
                None
            },
            Some(pending) => {
                self.retry_by_sub.remove(&pending.attempt.sub_id);
                self.retries_by_session.drop_edge(&pending.attempt.session, key);
                assert(self.retries_by_session@ =~= retry_session_mirror(self.retries@));
                assert(retry_sub_mirrored(self.retry_by_sub@, self.retries@));
                assert(retries_keyed(self.retries@));
                assert(self.mirrored());
                Some(pending)
            },
        };
        assert(self.mirrored());
        assert(retries_keyed(self.retries()));
        assert(self.attempts() == old(self).attempts());
        assert forall|id: RequestAttemptId| #[trigger]
            self.attempts().contains_key(id) implies match self.next_id() {
            Some(n) => id.0 < n,
            None => true,
        } by {
            assert(old(self).attempts().contains_key(id));
        }
        r
    }

    pub fn get(&self, id: &RequestAttemptId) -> (r: Option<&RequestAttemptState>)
        ensures
            match r {
                Some(a) => self.attempts().contains_key(*id) && *a == self.attempts()[*id],
                None => !self.attempts().contains_key(*id),
            },
    {
        self.attempts.get(id)
    }

    /// The requests that still wait for an answer of any kind.
    pub open spec fn awaiting(&self) -> Set<RequestKey> {
        Set::new(
            |k: RequestKey|
                self.retries().contains_key(k) || exists|id: RequestAttemptId| #[trigger]
                    self.attempts().contains_key(id) && self.attempts()[id].key() == k,
        )
    }

    /// Every request that awaits its end: in flight, or parked for a retry.
    pub fn awaiting_evidence_keys(&self) -> (r: SortedSet<RequestKey>)
        requires
            self.wf(),
        ensures
            r@ == self.awaiting(),
    {
        let mut r: SortedSet<RequestKey> = SortedSet::new();
        let n = self.attempts.len();
        let mut i: usize = 0;
        let ghost ids = self.attempts.keys();
        while i < n
            invariant
                i <= n,
                n == ids.len(),
                ids == self.attempts.keys(),
                is_listing(ids, self.attempts@.dom()),
                forall|k: RequestKey| #[trigger]
                    r@.contains(k) <==> exists|j: int| 0 <= j < i && self.attempts@[#[trigger] ids[j]].key() == k,
            decreases n - i,
        {
            let attempt = self.attempts.value_at(i);
            let key = RequestKey { session: attempt.session, sub_id: attempt.sub_id };
            let ghost prior = r@;
            r.insert(key);
            assert forall|k: RequestKey| #[trigger] r@.contains(k) <==> exists|j: int|
                0 <= j < i + 1 && self.attempts@[#[trigger] ids[j]].key() == k by {
                if prior.contains(k) {
                    let j = choose|j: int| 0 <= j < i && self.attempts@[#[trigger] ids[j]].key() == k;
                    assert(self.attempts@[ids[j]].key() == k);
                }
                if k == key {
                    assert(self.attempts@[ids[i as int]].key() == k);
                }
            }
            i = i + 1;
        }
        let parked = self.retries.key_list();
        let m = parked.len();
        let ghost flying = r@;
        let mut at: usize = 0;
        while at < m
            invariant
                at <= m,
                m == parked@.len(),
                forall|k: RequestKey| #[trigger]
                    r@.contains(k) <==> flying.contains(k) || parked@.take(at as int).contains(k),
            decreases m - at,
        {
            proof {
                assert(parked@.take(at + 1) =~= parked@.take(at as int).push(parked@[at as int]));
                lemma_push_contains(parked@.take(at as int), parked@[at as int]);
            }
            r.insert(parked[at]);
            at = at + 1;
        }
        proof {
            assert(parked@.take(m as int) =~= parked@);
            lemma_listing_members(parked@, self.retries@.dom());
            assert forall|k: RequestKey| r@.contains(k) <==> self.awaiting().contains(k) by {
                if flying.contains(k) {
                    let j = choose|j: int| 0 <= j < n && self.attempts@[#[trigger] ids[j]].key() == k;
                    assert(self.attempts@.dom().contains(ids[j]));
                    assert(self.attempts().contains_key(ids[j]));
                }
                if exists|id: RequestAttemptId| #[trigger]
                    self.attempts().contains_key(id) && self.attempts()[id].key() == k {
                    let id = choose|id: RequestAttemptId| #[trigger]
                        self.attempts().contains_key(id) && self.attempts()[id].key() == k;
                    assert(self.attempts@.dom().contains(id));
                    let j = choose|j: int| 0 <= j < ids.len() && ids[j] == id;
                    assert(self.attempts@[ids[j]].key() == k);
                    assert(flying.contains(k));
                }
            }
            assert(r@ =~= self.awaiting());
        }
        r
    }

    /// The attempts behind the retries parked on one session, in the order of
    /// their requests.
    pub fn retried_attempts_for_session(&self, session: &RelaySessionKey) -> (out: Vec<
        &RequestAttemptState,
    >)
        requires
            self.wf(),
        ensures
            is_listing(
                Seq::new(out@.len(), |i: int| out@[i].key()),
                retries_for_session(self.retries(), *session),
            ),
            forall|i: int|
                0 <= i < out@.len() ==> *(#[trigger] out@[i]) == self.retries()[out@[i].key()].attempt,
    {
        let n = self.retries.len();
        let ghost q = self.retries.keys();
        let mut out: Vec<&RequestAttemptState> = Vec::new();
        let mut i: usize = 0;
        while i < n
            invariant
                i <= n,
                n == q.len(),
                q == self.retries.keys(),
                self.wf(),
                is_listing(q, self.retries@.dom()),
                forall|a: int|
                    0 <= a < out@.len() ==> {
                        &&& q.take(i as int).contains((#[trigger] out@[a]).key())
                        &&& out@[a].session == *session
                        &&& *out@[a] == self.retries@[out@[a].key()].attempt
                    },
                forall|a: int, b: int|
                    0 <= a < b < out@.len() ==> (#[trigger] out@[a]).key().rank() < (
                    #[trigger] out@[b]).key().rank(),
                forall|j: int|
                    0 <= j < i && (#[trigger] q[j]).session == *session ==> exists|a: int|
                        0 <= a < out@.len() && (#[trigger] out@[a]).key() == q[j],
            decreases n - i,
        {
            let pending = self.retries.value_at(i);
            let ghost prior = out@;
            proof {
                assert(q.take(i + 1) =~= q.take(i as int).push(q[i as int]));
                lemma_push_contains(q.take(i as int), q[i as int]);
                assert(self.retries().contains_key(q[i as int]));
                assert forall|a: int| 0 <= a < prior.len() implies (#[trigger] prior[a]).key().rank()
                    < q[i as int].rank() by {
                    let k = choose|k: int| 0 <= k < i && q.take(i as int)[k] == prior[a].key();
                    assert(q[k].rank() < q[i as int].rank());
                }
            }
            if same(&pending.attempt.session, session) {
                out.push(&pending.attempt);
                assert(out@[prior.len() as int].key() == q[i as int]);
            }
            assert forall|j: int| 0 <= j < i + 1 && (#[trigger] q[j]).session == *session implies exists|a: int|
                0 <= a < out@.len() && (#[trigger] out@[a]).key() == q[j] by {
                if j < i {
                    let a = choose|a: int| 0 <= a < prior.len() && (#[trigger] prior[a]).key() == q[j];
                    assert(out@[a].key() == q[j]);
                }
            }
            i = i + 1;
        }
        proof {
            let keys = Seq::new(out@.len(), |i: int| out@[i].key());
            let s = retries_for_session(self.retries(), *session);
            assert(q.take(n as int) =~= q);
            lemma_listing_members(q, self.retries@.dom());
            assert forall|k: RequestKey| #[trigger] s.contains(k) <==> keys.contains(k) by {
                if s.contains(k) {
                    assert(q.contains(k));
                    let j = choose|j: int| 0 <= j < q.len() && q[j] == k;
                    let a = choose|a: int| 0 <= a < out@.len() && (#[trigger] out@[a]).key() == q[j];
                    assert(keys[a] == k);
                }
                if keys.contains(k) {
                    let a = choose|a: int| 0 <= a < keys.len() && keys[a] == k;
                    assert(q.contains(out@[a].key()));
                }
            }
            lemma_is_listing(keys, s);
        }
        out
    }

    /// The earliest parked deadline.
    pub fn next_retry_due(&self) -> (r: Option<u64>)
        ensures
            match r {
                Some(due) => {
                    &&& exists|k: RequestKey| #[trigger]
                        self.retries().contains_key(k) && self.retries()[k].due == due
                    &&& forall|k: RequestKey| #[trigger]
                        self.retries().contains_key(k) ==> due <= self.retries()[k].due
                },
                None => self.retries() == Map::<RequestKey, PendingRequestRetry>::empty(),
            },
    {
        let n = self.retries.len();
        let ghost q = self.retries.keys();
        let mut r: Option<u64> = None;
        let mut i: usize = 0;
        while i < n
            invariant
                i <= n,
                n == q.len(),
                q == self.retries.keys(),
                is_listing(q, self.retries@.dom()),
                r is None <==> i == 0,
                r matches Some(due) ==> {
                    &&& exists|j: int| 0 <= j < i && self.retries@[#[trigger] q[j]].due == due
                    &&& forall|j: int| 0 <= j < i ==> due <= self.retries@[#[trigger] q[j]].due
                },
            decreases n - i,
        {
            let due = self.retries.value_at(i).due;
            assert(self.retries@[q[i as int]].due == due);
            r = match r {
                Some(best) => if due < best {
                    Some(due)
                } else {
                    Some(best)
                },
                None => Some(due),
            };
            i = i + 1;
        }
        proof {
            lemma_listing_members(q, self.retries@.dom());
            if let Some(due) = r {
                let j = choose|j: int| 0 <= j < i && self.retries@[#[trigger] q[j]].due == due;
                assert(self.retries().contains_key(q[j]));
                assert forall|k: RequestKey| #[trigger] self.retries().contains_key(k) implies due
                    <= self.retries()[k].due by {
                    assert(q.contains(k));
                    let j = choose|j: int| 0 <= j < q.len() && q[j] == k;
                    assert(due <= self.retries@[q[j]].due);
                }
            } else {
                assert(self.retries@ =~= Map::<RequestKey, PendingRequestRetry>::empty());
            }
        }
        r
    }

    /// The retries whose deadline has passed.
    pub open spec fn due_at(&self, now: u64) -> Set<RequestKey> {
        Set::new(|k: RequestKey| self.retries().contains_key(k) && self.retries()[k].due <= now)
    }

    /// The retries whose deadline has passed, in the order of their requests.
    pub fn due_retry_keys(&self, now: u64) -> (out: Vec<RequestKey>)
        ensures
            is_listing(out@, self.due_at(now)),
    {
        let n = self.retries.len();
        let ghost q = self.retries.keys();
        let mut out: Vec<RequestKey> = Vec::new();
        let mut i: usize = 0;
        while i < n
            invariant
                i <= n,
                n == q.len(),
                q == self.retries.keys(),
                is_listing(q, self.retries@.dom()),
                forall|k: RequestKey| #[trigger]
                    out@.contains(k) <==> q.take(i as int).contains(k) && self.retries@[k].due <= now,
                forall|a: int, b: int|
                    0 <= a < b < out@.len() ==> (#[trigger] out@[a]).rank() < (#[trigger] out@[b]).rank(),
            decreases n - i,
        {
            let key = self.retries.key_at(i);
            let ghost prior = out@;
            proof {
                assert(q.take(i + 1) =~= q.take(i as int).push(key));
                lemma_push_contains(q.take(i as int), key);
                lemma_push_contains(prior, key);
                assert forall|a: int| 0 <= a < prior.len() implies (#[trigger] prior[a]).rank()
                    < key.rank() by {
                    assert(prior.contains(prior[a]));
                    let k = choose|k: int| 0 <= k < i && q.take(i as int)[k] == prior[a];
                    assert(q[k].rank() < q[i as int].rank());
                }
            }
            if self.retries.value_at(i).due <= now {
                out.push(key);
            }
            i = i + 1;
        }
        proof {
            assert(q.take(n as int) =~= q);
            lemma_listing_members(q, self.retries@.dom());
            lemma_is_listing(out@, self.due_at(now));
        }
        out
    }

    pub fn take_retry(&mut self, key: &RequestKey) -> (r: Option<PendingRequestRetry>)
        requires
            old(self).wf(),
        ensures
            final(self).wf(),
            final(self).attempts() == old(self).attempts(),
            final(self).next_id() == old(self).next_id(),
            final(self).retries() == old(self).retries().remove(*key),
            match r {
                Some(p) => old(self).retries().contains_key(*key) && p == old(self).retries()[*key],
                None => !old(self).retries().contains_key(*key),
            },
    {
        self.remove_retry(key)
    }

    /// Carries the failure count of a retry onto the attempt that it became.
    pub fn set_retry_failures(&mut self, attempt_id: &RequestAttemptId, failures: u32)
        requires
            old(self).wf(),
            old(self).attempts().contains_key(*attempt_id),
        ensures
            final(self).wf(),
            final(self).retries() == old(self).retries(),
            final(self).next_id() == old(self).next_id(),
            final(self).attempts() == old(self).attempts().insert(
                *attempt_id,
                (RequestAttemptState {
                    retry_failures: failures,
                    ..old(self).attempts()[*attempt_id]
                }),
            ),
    {
        if let Some(attempt) = self.attempts.get_mut(attempt_id) {
            attempt.retry_failures = failures;
        }
        assert(sub_mirror(self.attempts@) =~= sub_mirror(old(self).attempts@));
        assert(session_mirror(self.attempts@) =~= session_mirror(old(self).attempts@));
    }

    /// How many records each index holds: every mirror has one edge for each
    /// record that it mirrors.
    pub fn counts(&self) -> (r: RequestAttemptCounts)
        requires
            self.wf(),
        ensures
            r.attempts == self.attempts().len(),
            r.sub_edges == r.attempts,
            r.session_edges == r.attempts,
            r.sub_keys == owners_of(sub_mirror(self.attempts())).len(),
            r.session_keys == owners_of(session_mirror(self.attempts())).len(),
            r.retry_jobs == self.retries().len(),
            r.retry_sub_keys == r.retry_jobs,
            r.retry_session_edges == r.retry_jobs,
            r.retry_session_keys == owners_of(retry_session_mirror(self.retries())).len(),
    {
        let attempts = self.attempts.len();
        let retry_jobs = self.retries.len();
        proof {
            let a = self.attempts@;
            let f = |id: RequestAttemptId| Pair(a[id].sub_id, id);
            let g = |id: RequestAttemptId| Pair(a[id].session, id);
            assert forall|e: Pair<SubId, RequestAttemptId>| #[trigger]
                sub_mirror(a).contains(e) implies exists|id: RequestAttemptId|
                a.dom().contains(id) && #[trigger] f(id) == e by {
                assert(a.dom().contains(e.1) && f(e.1) == e);
            }
            assert forall|e: Pair<RelaySessionKey, RequestAttemptId>| #[trigger]
                session_mirror(a).contains(e) implies exists|id: RequestAttemptId|
                a.dom().contains(id) && #[trigger] g(id) == e by {
                assert(a.dom().contains(e.1) && g(e.1) == e);
            }
            lemma_image(a.dom(), f, sub_mirror(a));
            lemma_image(a.dom(), g, session_mirror(a));
            let r = self.retries@;
            let h = |k: RequestKey| Pair(r[k].attempt.session, k);
            assert forall|e: Pair<RelaySessionKey, RequestKey>| #[trigger]
                retry_session_mirror(r).contains(e) implies exists|k: RequestKey|
                r.dom().contains(k) && #[trigger] h(k) == e by {
                assert(r.dom().contains(e.1) && h(e.1) == e);
            }
            lemma_image(r.dom(), h, retry_session_mirror(r));
            let s = |k: RequestKey| k.sub_id;
            assert forall|x: RequestKey, y: RequestKey| r.dom().contains(x) && r.dom().contains(y) && s(x)
                == s(y) implies x == y by {
                assert(r.contains_key(x) && r.contains_key(y));
            }
            assert forall|t: SubId| self.retry_by_sub@.dom().contains(t) implies exists|k: RequestKey|
                r.dom().contains(k) && #[trigger] s(k) == t by {
                assert(self.retry_by_sub@.contains_key(t));
                let k = self.retry_by_sub@[t];
                assert(r.contains_key(k) && s(k) == t);
            }
            lemma_image(r.dom(), s, self.retry_by_sub@.dom());
        }
        RequestAttemptCounts {
            attempts,
            sub_keys: self.by_sub.owner_count(),
            sub_edges: self.by_sub.edge_count(),
            session_keys: self.by_session.owner_count(),
            session_edges: self.by_session.edge_count(),
            retry_jobs,
            retry_sub_keys: self.retry_by_sub.len(),
            retry_session_keys: self.retries_by_session.owner_count(),
            retry_session_edges: self.retries_by_session.edge_count(),
        }
    }

    /// `f` names a disagreement that is there.
    pub closed spec fn has_fault(&self, f: AttemptFault) -> bool {
        match f {
            AttemptFault::NotNamedBySub(id) => self.attempts@.contains_key(id) && !self.by_sub@.contains(
                Pair(self.attempts@[id].sub_id, id),
            ),
            AttemptFault::NotNamedBySession(id) => self.attempts@.contains_key(id)
                && !self.by_session@.contains(Pair(self.attempts@[id].session, id)),
            AttemptFault::StraySubEdge(s, id) => self.by_sub@.contains(Pair(s, id)) && !(
            self.attempts@.contains_key(id) && self.attempts@[id].sub_id == s),
            AttemptFault::StraySessionEdge(s, id) => self.by_session@.contains(Pair(s, id)) && !(
            self.attempts@.contains_key(id) && self.attempts@[id].session == s),
            AttemptFault::RetryNotNamedBySub(k) => self.retries@.contains_key(k) && !(
            self.retry_by_sub@.contains_key(self.retries@[k].attempt.sub_id)
                && self.retry_by_sub@[self.retries@[k].attempt.sub_id] == k),
            AttemptFault::RetryNotNamedBySession(k) => self.retries@.contains_key(k)
                && !self.retries_by_session@.contains(Pair(self.retries@[k].attempt.session, k)),
            AttemptFault::StrayRetrySubEdge(s, k) => self.retry_by_sub@.contains_key(s)
                && self.retry_by_sub@[s] == k && !(self.retries@.contains_key(k)
                && self.retries@[k].attempt.sub_id == s),
            AttemptFault::StrayRetrySessionEdge(s, k) => self.retries_by_session@.contains(Pair(s, k))
                && !(self.retries@.contains_key(k) && self.retries@[k].attempt.session == s),
        }
    }

    /// Compares all four mirrors by identity, in both directions.
    pub fn assert_consistent(&self) -> (r: Result<(), AttemptFault>)
        ensures
            match r {
                Ok(()) => self.mirrored(),
                Err(f) => !self.mirrored() && self.has_fault(f),
            },
    {
        let n = self.attempts.len();
        let ghost ids = self.attempts.keys();
        let mut i: usize = 0;
        while i < n
            invariant
                i <= n,
                n == ids.len(),
                ids == self.attempts.keys(),
                is_listing(ids, self.attempts@.dom()),
                forall|j: int|
                    0 <= j < i ==> self.by_sub@.contains(Pair(self.attempts@[#[trigger] ids[j]].sub_id, ids[j]))
                        && self.by_session@.contains(Pair(self.attempts@[ids[j]].session, ids[j])),
            decreases n - i,
        {
            let id = self.attempts.key_at(i);
            let attempt = self.attempts.value_at(i);
            if !self.by_sub.contains(&attempt.sub_id, &id) {
                assert(sub_mirror(self.attempts@).contains(Pair(attempt.sub_id, id)));
                return Err(AttemptFault::NotNamedBySub(id));
            }
            if !self.by_session.contains(&attempt.session, &id) {
                assert(session_mirror(self.attempts@).contains(Pair(attempt.session, id)));
                return Err(AttemptFault::NotNamedBySession(id));
            }
            i = i + 1;
        }
        let subs = self.by_sub.edges();
        i = 0;
        while i < subs.len()
            invariant
                i <= subs@.len(),
                is_listing(subs@, self.by_sub@),
                forall|j: int| 0 <= j < i ==> sub_mirror(self.attempts@).contains(#[trigger] subs@[j]),
            decreases subs@.len() - i,
        {
            let edge = subs[i];
            assert(self.by_sub@.contains(subs@[i as int]));
            let holds = match self.attempts.get(&edge.1) {
                Some(attempt) => same(&attempt.sub_id, &edge.0),
                None => false,
            };
            if !holds {
                assert(!sub_mirror(self.attempts@).contains(edge));
                return Err(AttemptFault::StraySubEdge(edge.0, edge.1));
            }
            i = i + 1;
        }
        let sessions = self.by_session.edges();
        i = 0;
        while i < sessions.len()
            invariant
                i <= sessions@.len(),
                is_listing(sessions@, self.by_session@),
                forall|j: int|
                    0 <= j < i ==> session_mirror(self.attempts@).contains(#[trigger] sessions@[j]),
            decreases sessions@.len() - i,
        {
            let edge = sessions[i];
            assert(self.by_session@.contains(sessions@[i as int]));
            let holds = match self.attempts.get(&edge.1) {
                Some(attempt) => same(&attempt.session, &edge.0),
                None => false,
            };
            if !holds {
                assert(!session_mirror(self.attempts@).contains(edge));
                return Err(AttemptFault::StraySessionEdge(edge.0, edge.1));
            }
            i = i + 1;
        }
        proof {
            lemma_listing_members(ids, self.attempts@.dom());
            lemma_listing_members(subs@, self.by_sub@);
            lemma_listing_members(sessions@, self.by_session@);
            assert forall|e: Pair<SubId, RequestAttemptId>| self.by_sub@.contains(e) <==> sub_mirror(
                self.attempts@,
            ).contains(e) by {
                if self.by_sub@.contains(e) {
                    let j = choose|j: int| 0 <= j < subs@.len() && subs@[j] == e;
                    assert(subs@.contains(e));
                    assert(sub_mirror(self.attempts@).contains(subs@[j]));
                }
                if sub_mirror(self.attempts@).contains(e) {
                    assert(ids.contains(e.1));
                    let j = choose|j: int| 0 <= j < ids.len() && ids[j] == e.1;
                    assert(self.by_sub@.contains(Pair(self.attempts@[ids[j]].sub_id, ids[j])));
                }
            }
            assert(self.by_sub@ =~= sub_mirror(self.attempts@));
            assert forall|e: Pair<RelaySessionKey, RequestAttemptId>| self.by_session@.contains(e)
                <==> session_mirror(self.attempts@).contains(e) by {
                if self.by_session@.contains(e) {
                    assert(sessions@.contains(e));
                    let j = choose|j: int| 0 <= j < sessions@.len() && sessions@[j] == e;
                    assert(session_mirror(self.attempts@).contains(sessions@[j]));
                }
                if session_mirror(self.attempts@).contains(e) {
                    assert(ids.contains(e.1));
                    let j = choose|j: int| 0 <= j < ids.len() && ids[j] == e.1;
                    assert(self.by_session@.contains(Pair(self.attempts@[ids[j]].session, ids[j])));
                }
            }
            assert(self.by_session@ =~= session_mirror(self.attempts@));
        }
        self.retries_consistent()
    }

    fn retries_consistent(&self) -> (r: Result<(), AttemptFault>)
        requires
            self.by_sub@ == sub_mirror(self.attempts@),
            self.by_session@ == session_mirror(self.attempts@),
        ensures
            match r {
                Ok(()) => self.mirrored(),
                Err(f) => !self.mirrored() && self.has_fault(f),
            },
    {
        let n = self.retries.len();
        let ghost keys = self.retries.keys();
        let mut i: usize = 0;
        while i < n
            invariant
                i <= n,
                n == keys.len(),
                keys == self.retries.keys(),
                is_listing(keys, self.retries@.dom()),
                forall|j: int|
                    0 <= j < i ==> {
                        let k = #[trigger] keys[j];
                        let s = self.retries@[k].attempt.sub_id;
                        &&& self.retry_by_sub@.contains_key(s)
                        &&& self.retry_by_sub@[s] == k
                        &&& self.retries_by_session@.contains(Pair(self.retries@[k].attempt.session, k))
                    },
            decreases n - i,
        {
            let key = self.retries.key_at(i);
            let pending = self.retries.value_at(i);
            assert(self.retries@.contains_key(key));
            let named = match self.retry_by_sub.get(&pending.attempt.sub_id) {
                Some(mapped) => same(mapped, &key),
                None => false,
            };
            if !named {
                return Err(AttemptFault::RetryNotNamedBySub(key));
            }
            if !self.retries_by_session.contains(&pending.attempt.session, &key) {
                assert(retry_session_mirror(self.retries@).contains(
                    Pair(pending.attempt.session, key),
                ));
                return Err(AttemptFault::RetryNotNamedBySession(key));
            }
            i = i + 1;
        }
        let m = self.retry_by_sub.len();
        let ghost subs = self.retry_by_sub.keys();
        i = 0;
        while i < m
            invariant
                i <= m,
                m == subs.len(),
                subs == self.retry_by_sub.keys(),
                is_listing(subs, self.retry_by_sub@.dom()),
                forall|j: int|
                    0 <= j < i ==> {
                        let k = self.retry_by_sub@[#[trigger] subs[j]];
                        self.retries@.contains_key(k) && self.retries@[k].attempt.sub_id == subs[j]
                    },
            decreases m - i,
        {
            let sub_id = self.retry_by_sub.key_at(i);
            let key = *self.retry_by_sub.value_at(i);
            assert(self.retry_by_sub@.contains_key(sub_id));
            let holds = match self.retries.get(&key) {
                Some(pending) => same(&pending.attempt.sub_id, &sub_id),
                None => false,
            };
            if !holds {
                return Err(AttemptFault::StrayRetrySubEdge(sub_id, key));
            }
            i = i + 1;
        }
        let sessions = self.retries_by_session.edges();
        i = 0;
        while i < sessions.len()
            invariant
                i <= sessions@.len(),
                is_listing(sessions@, self.retries_by_session@),
                forall|j: int|
                    0 <= j < i ==> retry_session_mirror(self.retries@).contains(#[trigger] sessions@[j]),
            decreases sessions@.len() - i,
        {
            let edge = sessions[i];
            assert(self.retries_by_session@.contains(sessions@[i as int]));
            let holds = match self.retries.get(&edge.1) {
                Some(pending) => same(&pending.attempt.session, &edge.0),
                None => false,
            };
            if !holds {
                assert(!retry_session_mirror(self.retries@).contains(edge));
                return Err(AttemptFault::StrayRetrySessionEdge(edge.0, edge.1));
            }
            i = i + 1;
        }
        proof {
            lemma_listing_members(keys, self.retries@.dom());
            lemma_listing_members(subs, self.retry_by_sub@.dom());
            lemma_listing_members(sessions@, self.retries_by_session@);
            assert forall|k: RequestKey| #[trigger]
                self.retries@.contains_key(k) implies self.retry_by_sub@.contains_key(
                self.retries@[k].attempt.sub_id,
            ) && self.retry_by_sub@[self.retries@[k].attempt.sub_id] == k by {
                assert(keys.contains(k));
                let j = choose|j: int| 0 <= j < keys.len() && keys[j] == k;
                assert(self.retry_by_sub@[self.retries@[keys[j]].attempt.sub_id] == keys[j]);
            }
            assert forall|s: SubId| #[trigger]
                self.retry_by_sub@.contains_key(s) implies self.retries@.contains_key(
                self.retry_by_sub@[s],
            ) && self.retries@[self.retry_by_sub@[s]].attempt.sub_id == s by {
                assert(subs.contains(s));
                let j = choose|j: int| 0 <= j < subs.len() && subs[j] == s;
                assert(self.retries@.contains_key(self.retry_by_sub@[subs[j]]));
            }
            assert forall|e: Pair<RelaySessionKey, RequestKey>| self.retries_by_session@.contains(e)
                <==> retry_session_mirror(self.retries@).contains(e) by {
                if self.retries_by_session@.contains(e) {
                    assert(sessions@.contains(e));
                    let j = choose|j: int| 0 <= j < sessions@.len() && sessions@[j] == e;
                    assert(retry_session_mirror(self.retries@).contains(sessions@[j]));
                }
                if retry_session_mirror(self.retries@).contains(e) {
                    assert(keys.contains(e.1));
                    let j = choose|j: int| 0 <= j < keys.len() && keys[j] == e.1;
                    assert(self.retries_by_session@.contains(
                        Pair(self.retries@[keys[j]].attempt.session, keys[j]),
                    ));
                }
            }
            assert(self.retries_by_session@ =~= retry_session_mirror(self.retries@));
        }
        Ok(())
    }
}

/// A refused attempt is parked as it was sent, has failed once more, and comes due when
/// the wait for that many failures is over.
pub proof fn refusal_counts_and_waits(attempt: RequestAttemptState, now: u64)
    ensures
        parked(attempt, now).attempt == attempt,
        attempt.retry_failures < u32::MAX ==> parked(attempt, now).failures == attempt.retry_failures + 1,
        attempt.retry_failures == u32::MAX ==> parked(attempt, now).failures == u32::MAX,
        now + backoff_secs(parked(attempt, now).failures as nat) <= u64::MAX ==> parked(attempt, now).due
            == now + backoff_secs(parked(attempt, now).failures as nat),
        now + backoff_secs(parked(attempt, now).failures as nat) > u64::MAX ==> parked(attempt, now).due
            == u64::MAX,
{
}

/// A request waits for an answer if and only if an attempt of it is under way or a retry
/// of it is parked; a retry is due if and only if its time has come.
pub proof fn request_waits_for_its_own_answer(
    table: RequestAttempts,
    session: RelaySessionKey,
    sub_id: SubId,
    now: u64,
)
    ensures
        ({
            let k = RequestKey { session, sub_id };
            &&& table.awaiting().contains(k) <==> table.retries().contains_key(k) || exists|
                id: RequestAttemptId,
            | #[trigger]
                table.attempts().contains_key(id) && table.attempts()[id].session == session
                    && table.attempts()[id].sub_id == sub_id
            &&& table.due_at(now).contains(k) <==> table.retries().contains_key(k) && now
                >= table.retries()[k].due
        }),
{
    let k = RequestKey { session, sub_id };
    if exists|id: RequestAttemptId| #[trigger]
        table.attempts().contains_key(id) && table.attempts()[id].session == session
            && table.attempts()[id].sub_id == sub_id {
        let id = choose|id: RequestAttemptId| #[trigger]
            table.attempts().contains_key(id) && table.attempts()[id].session == session
                && table.attempts()[id].sub_id == sub_id;
        assert(table.attempts()[id].key() == k);
    }
}

/// What is found by subscription or by session is exactly what names it.
pub proof fn attempts_are_found_by_what_they_name(
    a: Map<RequestAttemptId, RequestAttemptState>,
    r: Map<RequestKey, PendingRequestRetry>,
    session: RelaySessionKey,
    sub_id: SubId,
    id: RequestAttemptId,
    k: RequestKey,
)
    ensures
        attempts_for_sub(a, sub_id).contains(id) <==> a.contains_key(id) && a[id].sub_id == sub_id,
        attempts_for_session(a, session).contains(id) <==> a.contains_key(id) && a[id].session == session,
        retries_for_sub(r, sub_id).contains(k) <==> r.contains_key(k) && k.sub_id == sub_id,
        retries_for_session(r, session).contains(k) <==> r.contains_key(k) && k.session == session,
{
}

} // verus!
