//! The subscriptions that play a part for a plan, and how the plan's own record
//! reaches them.

use vstd::prelude::*;

use crate::ids::{DemandKey, FilterHash, RequestKey, SubId};
use crate::key::{
    is_listing, lemma_listing_exists, lemma_listing_members, lemma_listing_of, lemma_push_contains, listing_of,
};
use crate::nip77_sessions::{
    of_plan, role_ids_of, NegSession, Nip77Sessions, PendingNegHandoff, TemporaryReq,
};
use crate::owner_index::IndexedChild;
use crate::request_attempt::AttemptView;
use crate::requests::{
    home_key, home_of, queue_at, streaming, MetadataView, RequestMetadataUpdate, Requests, RequestsView,
};
use crate::sorted::{SortedMap, SortedSet};
use crate::wire::ConcreteFilter;

verus! {

/// The part that one subscription plays for a plan.
#[derive(Clone, Copy, Debug, PartialEq, Eq, Structural)]
pub struct RoleOf {
    pub plan: SubId,
    /// The plan's filter when the part was taken on, where it is known.
    pub filter: Option<ConcreteFilter>,
    /// Whether the subscription carries what the plan carries. A fetch of missing
    /// ids proves nothing for the plan, and carries nothing of it.
    pub follows: bool,
}

/// The part that an attempt plays: that of its subscription, or else that of a
/// plan of its own.
pub open spec fn role_in(roles: Map<SubId, RoleOf>, a: AttemptView) -> RoleOf {
    if roles.contains_key(a.sub_id) {
        roles[a.sub_id]
    } else {
        RoleOf { plan: a.sub_id, filter: Some(a.filter), follows: true }
    }
}

/// An attempt with what its plan has gained meanwhile.
pub open spec fn with_gain(a: AttemptView, m: MetadataView, follows: bool) -> AttemptView {
    if follows {
        AttemptView {
            coverage_claims: a.coverage_claims.union(m.coverage_claims),
            owner_demands: a.owner_demands.union(m.owner_demands),
            ..a
        }
    } else {
        a
    }
}

/// A part that carries what the plan carries, with no filter of its own to go by.
pub open spec fn follower(plan: SubId) -> RoleOf {
    RoleOf { plan, filter: None, follows: true }
}

/// The subscription that a fetch keeps besides itself: the candidate that it will
/// make live, or the reconciliation whose missing ids it fetches.
pub open spec fn kept_by(request: TemporaryReq) -> Option<SubId> {
    match request {
        TemporaryReq::MissingIds { neg_sub_id, .. } => Some(neg_sub_id),
        TemporaryReq::Backlog { .. } => None,
        TemporaryReq::BacklogActivatesLive { live_sub_id, .. } => Some(live_sub_id),
    }
}

/// The subscriptions that the fetches of a list keep, each as a follower of the
/// plan: a later fetch takes the place of an earlier one.
pub open spec fn kept_roles(b: Map<SubId, TemporaryReq>, q: Seq<SubId>) -> Map<SubId, RoleOf>
    decreases q.len(),
{
    if q.len() == 0 {
        Map::empty()
    } else {
        let before = kept_roles(b, q.drop_last());
        match kept_by(b[q.last()]) {
            Some(s) => before.insert(s, follower(b[q.last()].owner())),
            None => before,
        }
    }
}

/// The part that every subscription of a repair plays.
pub open spec fn roles_by_sub(
    handoffs: Map<SubId, PendingNegHandoff>,
    sessions: Map<SubId, NegSession>,
    backfills: Map<SubId, TemporaryReq>,
) -> Map<SubId, RoleOf> {
    let kept = kept_roles(backfills, listing_of(backfills.dom()));
    Map::new(
        |s: SubId|
            handoffs.contains_key(s) || sessions.contains_key(s) || backfills.contains_key(s)
                || kept.contains_key(s),
        |s: SubId|
            if handoffs.contains_key(s) {
                RoleOf { plan: handoffs[s].owner(), filter: Some(handoffs[s].filter), follows: true }
            } else if sessions.contains_key(s) {
                RoleOf { plan: sessions[s].owner(), filter: Some(sessions[s].filter), follows: true }
            } else if backfills.contains_key(s) {
                RoleOf {
                    plan: backfills[s].owner(),
                    filter: None,
                    follows: !(backfills[s] is MissingIds),
                }
            } else {
                kept[s]
            },
    )
}

/// The subscriptions that a plan's own record reaches: its roles, and the
/// reconciliations whose missing ids are being fetched.
pub open spec fn followers_of(
    handoffs: Map<SubId, PendingNegHandoff>,
    sessions: Map<SubId, NegSession>,
    backfills: Map<SubId, TemporaryReq>,
    plan: SubId,
) -> Set<SubId> {
    Set::new(
        |s: SubId|
            role_ids_of(handoffs, sessions, backfills, plan).contains(s) || exists|c: SubId| #[trigger]
                of_plan(backfills, plan).contains(c) && backfills[c] is MissingIds && kept_by(backfills[c])
                    == Some(s),
    )
}

impl Nip77Sessions {
    /// The part that every subscription of a repair plays.
    pub fn role_owners(&self) -> (r: SortedMap<SubId, RoleOf>)
        requires
            self.wf(),
        ensures
            r@ == roles_by_sub(self.handoffs(), self.sessions(), self.backfills()),
    {
        let ghost h = self.handoffs();
        let ghost s = self.sessions();
        let ghost b = self.backfills();
        let mut r: SortedMap<SubId, RoleOf> = SortedMap::new();
        let fetches = self.backfill_list();
        let ghost bq = Seq::new(fetches@.len(), |i: int| fetches@[i].0);
        let mut i: usize = 0;
        assert(bq.take(0) =~= Seq::<SubId>::empty());
        while i < fetches.len()
            invariant
                i <= fetches@.len(),
                b == self.backfills(),
                bq == Seq::new(fetches@.len(), |i: int| fetches@[i].0),
                forall|j: int| 0 <= j < fetches@.len() ==> (#[trigger] fetches@[j]).1 == b[fetches@[j].0],
                r@ == kept_roles(b, bq.take(i as int)),
            decreases fetches@.len() - i,
        {
            let request = fetches[i].1;
            proof {
                assert(bq.take(i + 1).drop_last() =~= bq.take(i as int));
                assert(bq.take(i + 1).last() == fetches@[i as int].0);
            }
            let plan = *request.owner_key();
            match request {
                TemporaryReq::MissingIds { neg_sub_id, .. } => {
                    r.insert(neg_sub_id, RoleOf { plan, filter: None, follows: true });
                },
                TemporaryReq::Backlog { .. } => {},
                TemporaryReq::BacklogActivatesLive { live_sub_id, .. } => {
                    r.insert(live_sub_id, RoleOf { plan, filter: None, follows: true });
                },
            }
            i = i + 1;
        }
        let ghost kept = r@;
        proof {
            assert(bq.take(i as int) =~= bq);
            lemma_listing_of(bq, b.dom());
            lemma_listing_members(bq, b.dom());
        }
        i = 0;
        while i < fetches.len()
            invariant
                i <= fetches@.len(),
                bq == Seq::new(fetches@.len(), |i: int| fetches@[i].0),
                forall|j: int| 0 <= j < fetches@.len() ==> (#[trigger] fetches@[j]).1 == b[fetches@[j].0],
                forall|x: SubId| #[trigger]
                    r@.contains_key(x) <==> kept.contains_key(x) || bq.take(i as int).contains(x),
                forall|x: SubId| #[trigger]
                    r@.contains_key(x) ==> r@[x] == (if bq.take(i as int).contains(x) {
                        RoleOf { plan: b[x].owner(), filter: None, follows: !(b[x] is MissingIds) }
                    } else {
                        kept[x]
                    }),
            decreases fetches@.len() - i,
        {
            let (sub_id, request) = fetches[i];
            proof {
                assert(bq[i as int] == sub_id);
                assert(bq.take(i + 1) =~= bq.take(i as int).push(sub_id));
                lemma_push_contains(bq.take(i as int), sub_id);
            }
            let follows = match request {
                TemporaryReq::MissingIds { .. } => false,
                _ => true,
            };
            r.insert(sub_id, RoleOf { plan: *request.owner_key(), filter: None, follows });
            i = i + 1;
        }
        let ghost with_fetches = r@;
        assert(bq.take(i as int) =~= bq);
        let open = self.session_list();
        let ghost sq = Seq::new(open@.len(), |i: int| open@[i].0);
        i = 0;
        while i < open.len()
            invariant
                i <= open@.len(),
                sq == Seq::new(open@.len(), |i: int| open@[i].0),
                forall|j: int| 0 <= j < open@.len() ==> (#[trigger] open@[j]).1 == s[open@[j].0],
                forall|x: SubId| #[trigger]
                    r@.contains_key(x) <==> with_fetches.contains_key(x) || sq.take(i as int).contains(x),
                forall|x: SubId| #[trigger]
                    r@.contains_key(x) ==> r@[x] == (if sq.take(i as int).contains(x) {
                        RoleOf { plan: s[x].owner(), filter: Some(s[x].filter), follows: true }
                    } else {
                        with_fetches[x]
                    }),
            decreases open@.len() - i,
        {
            let (sub_id, session) = open[i];
            proof {
                assert(sq[i as int] == sub_id);
                assert(sq.take(i + 1) =~= sq.take(i as int).push(sub_id));
                lemma_push_contains(sq.take(i as int), sub_id);
            }
            r.insert(
                sub_id,
                RoleOf { plan: *session.owner_key(), filter: Some(session.filter), follows: true },
            );
            i = i + 1;
        }
        let ghost with_sessions = r@;
        proof {
            assert(sq.take(i as int) =~= sq);
            lemma_listing_members(sq, s.dom());
        }
        let waiting = self.handoff_list();
        let ghost hq = Seq::new(waiting@.len(), |i: int| waiting@[i].0);
        i = 0;
        while i < waiting.len()
            invariant
                i <= waiting@.len(),
                hq == Seq::new(waiting@.len(), |i: int| waiting@[i].0),
                forall|j: int| 0 <= j < waiting@.len() ==> (#[trigger] waiting@[j]).1 == h[waiting@[j].0],
                forall|x: SubId| #[trigger]
                    r@.contains_key(x) <==> with_sessions.contains_key(x) || hq.take(i as int).contains(x),
                forall|x: SubId| #[trigger]
                    r@.contains_key(x) ==> r@[x] == (if hq.take(i as int).contains(x) {
                        RoleOf { plan: h[x].owner(), filter: Some(h[x].filter), follows: true }
                    } else {
                        with_sessions[x]
                    }),
            decreases waiting@.len() - i,
        {
            let (sub_id, handoff) = waiting[i];
            proof {
                assert(hq[i as int] == sub_id);
                assert(hq.take(i + 1) =~= hq.take(i as int).push(sub_id));
                lemma_push_contains(hq.take(i as int), sub_id);
            }
            r.insert(
                sub_id,
                RoleOf { plan: *handoff.owner_key(), filter: Some(handoff.filter), follows: true },
            );
            i = i + 1;
        }
        proof {
            assert(hq.take(i as int) =~= hq);
            lemma_listing_members(hq, h.dom());
            assert(r@ =~= roles_by_sub(h, s, b));
        }
        r
    }

    /// The subscriptions that a plan's own record reaches.
    pub fn following_sub_ids(&self, plan_sub_id: &SubId) -> (r: SortedSet<SubId>)
        requires
            self.wf(),
        ensures
            r@ == followers_of(self.handoffs(), self.sessions(), self.backfills(), *plan_sub_id),
    {
        let mut r = self.role_sub_ids_for_plan(plan_sub_id);
        let ghost base = r@;
        let ghost b = self.backfills();
        let fetches = self.backfill_list();
        let ghost q = Seq::new(fetches@.len(), |i: int| fetches@[i].0);
        let mut i: usize = 0;
        while i < fetches.len()
            invariant
                i <= fetches@.len(),
                q == Seq::new(fetches@.len(), |i: int| fetches@[i].0),
                is_listing(q, b.dom()),
                forall|j: int| 0 <= j < fetches@.len() ==> (#[trigger] fetches@[j]).1 == b[fetches@[j].0],
                forall|s: SubId| #[trigger]
                    r@.contains(s) <==> base.contains(s) || exists|j: int|
                        0 <= j < i && b[#[trigger] q[j]].owner() == *plan_sub_id && b[q[j]] is MissingIds
                            && kept_by(b[q[j]]) == Some(s),
            decreases fetches@.len() - i,
        {
            let ghost before = r@;
            let request = fetches[i].1;
            assert(q[i as int] == fetches@[i as int].0);
            if let TemporaryReq::MissingIds { plan_sub_id: plan, neg_sub_id } = request {
                if plan == *plan_sub_id {
                    r.insert(neg_sub_id);
                }
            }
            assert forall|s: SubId| #[trigger] r@.contains(s) <==> base.contains(s) || exists|j: int|
                0 <= j < i + 1 && b[#[trigger] q[j]].owner() == *plan_sub_id && b[q[j]] is MissingIds
                    && kept_by(b[q[j]]) == Some(s) by {
                if before.contains(s) && !base.contains(s) {
                    let j = choose|j: int|
                        0 <= j < i && b[#[trigger] q[j]].owner() == *plan_sub_id && b[q[j]] is MissingIds
                            && kept_by(b[q[j]]) == Some(s);
                    assert(b[q[j]].owner() == *plan_sub_id);
                } else if r@.contains(s) && !before.contains(s) {
                    assert(b[q[i as int]].owner() == *plan_sub_id);
                }
            }
            i = i + 1;
        }
        proof {
            let want = followers_of(self.handoffs(), self.sessions(), b, *plan_sub_id);
            lemma_listing_members(q, b.dom());
            assert forall|s: SubId| r@.contains(s) <==> want.contains(s) by {
                if r@.contains(s) && !base.contains(s) {
                    let j = choose|j: int|
                        0 <= j < q.len() && b[#[trigger] q[j]].owner() == *plan_sub_id && b[q[j]] is MissingIds
                            && kept_by(b[q[j]]) == Some(s);
                    assert(q.contains(q[j]));
                    assert(of_plan(b, *plan_sub_id).contains(q[j]));
                }
                if want.contains(s) && !base.contains(s) {
                    let c = choose|c: SubId| #[trigger]
                        of_plan(b, *plan_sub_id).contains(c) && b[c] is MissingIds && kept_by(b[c]) == Some(s);
                    assert(q.contains(c));
                    let j = choose|j: int| 0 <= j < q.len() && q[j] == c;
                    assert(b[q[j]].owner() == *plan_sub_id);
                }
            }
            assert(r@ =~= want);
        }
        r
    }
}

impl RequestsView {
    /// What a plan gains reaches the current request of one of its roles, whatever
    /// that request's own filter is.
    pub open spec fn follow(self, key: RequestKey, demands: Set<DemandKey>) -> RequestsView {
        let q = queue_at(self.pending, key);
        let sent = if q.len() > 0 {
            self.edit_owners(key, q.last().filter.hash, demands, true)
        } else {
            self
        };
        if sent.live.contains_key(key) {
            sent.edit_owners(key, sent.live[key].filter.hash, demands, true)
        } else {
            sent
        }
    }

    pub open spec fn follow_all(self, q: Seq<SubId>, demands: Set<DemandKey>) -> RequestsView
        decreases q.len(),
    {
        if q.len() == 0 {
            self
        } else {
            self.follow_all(q.drop_last(), demands).follow(home_key(q.last()), demands)
        }
    }

    /// Whether the plan of an update is on record with the filter that the update
    /// is for.
    pub open spec fn plans(self, sub_id: SubId, hash: FilterHash) -> bool {
        self.metadata.contains_key(sub_id) && self.metadata[sub_id].filter.hash == hash
    }

    /// What a plan change adds reaches the plan's record, the plan's own request,
    /// and, where the plan still has the same filter, the request of every other
    /// subscription that follows it.
    pub open spec fn update_plan(self, update: RequestMetadataUpdate, followers: Set<SubId>) -> RequestsView {
        let own = self.extend_metadata(
            update.sub_id,
            update.filter_hash,
            update.added_coverage_claims@,
            update.added_owner_demands@,
        ).edit_owners(
            RequestKey { session: update.session, sub_id: update.sub_id },
            update.filter_hash,
            update.added_owner_demands@,
            true,
        );
        if self.plans(update.sub_id, update.filter_hash) {
            own.follow_all(listing_of(followers.remove(update.sub_id)), update.added_owner_demands@)
        } else {
            own
        }
    }
}

/// Takes on what a plan change adds, for the plan and for every subscription that
/// follows it. Gives back, in rising order, the subscriptions whose current sends
/// are to earn the added claims.
pub fn apply_plan_metadata_update(
    requests: &mut Requests,
    repairs: &Nip77Sessions,
    update: &RequestMetadataUpdate,
) -> (told: Vec<SubId>)
    requires
        old(requests).wf(),
        repairs.wf(),
    ensures
        final(requests).wf(),
        ({
            let followers = followers_of(
                repairs.handoffs(),
                repairs.sessions(),
                repairs.backfills(),
                update.sub_id,
            );
            &&& final(requests)@ == old(requests)@.update_plan(*update, followers)
            &&& is_listing(
                told@,
                if old(requests)@.plans(update.sub_id, update.filter_hash) {
                    followers
                } else {
                    set![update.sub_id]
                },
            )
        }),
{
    let planned = requests.plans(&update.sub_id, update.filter_hash);
    let ghost demands = update.added_owner_demands@;
    requests.apply_request_metadata_update(update);
    if !planned {
        let own = SortedSet::singleton(update.sub_id);
        assert(own@ =~= set![update.sub_id]);
        return own.list();
    }
    let ghost own = requests@;
    let followers = repairs.following_sub_ids(&update.sub_id);
    let mut others = followers.copy();
    others.remove(&update.sub_id);
    let list = others.list();
    let ghost q = list@;
    proof {
        lemma_listing_of(q, followers@.remove(update.sub_id));
        assert(q.take(0) =~= Seq::<SubId>::empty());
    }
    let mut i: usize = 0;
    while i < list.len()
        invariant
            i <= q.len(),
            q == list@,
            demands == update.added_owner_demands@,
            requests.wf(),
            requests@ == own.follow_all(q.take(i as int), demands),
        decreases q.len() - i,
    {
        proof {
            assert(q.take(i + 1).drop_last() =~= q.take(i as int));
            assert(q.take(i + 1).last() == q[i as int]);
        }
        let key = RequestKey { session: home_of(&list[i]), sub_id: list[i] };
        requests.follow_plan(&key, &update.added_owner_demands);
        i = i + 1;
    }
    assert(q.take(i as int) =~= q);
    followers.list()
}

/// What a plan has gained goes out with a parked retry of any subscription that
/// follows it, and nothing that the retry had is lost. A retry that does not follow
/// the plan is sent as it was parked.
pub proof fn retry_carries_what_the_plan_gained(a: AttemptView, m: MetadataView, follows: bool)
    ensures
        follows ==> m.coverage_claims.subset_of(with_gain(a, m, follows).coverage_claims)
            && m.owner_demands.subset_of(with_gain(a, m, follows).owner_demands),
        a.coverage_claims.subset_of(with_gain(a, m, follows).coverage_claims),
        a.owner_demands.subset_of(with_gain(a, m, follows).owner_demands),
        !follows ==> with_gain(a, m, follows) == a,
        with_gain(a, m, follows).filter == a.filter,
        with_gain(a, m, follows).sub_id == a.sub_id,
{
}

/// What a request that awaits its result, and one that streams, are for under one
/// key.
spec fn carries(v: RequestsView, key: RequestKey, demands: Set<DemandKey>) -> bool {
    let q = queue_at(v.pending, key);
    &&& q.len() > 0 ==> demands.subset_of(q.last().owner_demands)
    &&& v.live.contains_key(key) ==> (streaming(v.live, key, v.live[key].filter.hash) matches Some(r) ==> (
    v.active.contains_key(r) ==> demands.subset_of(v.active[r].owner_demands)))
}

proof fn lemma_follow_carries(v: RequestsView, key: RequestKey, demands: Set<DemandKey>)
    ensures
        carries(v.follow(key, demands), key, demands),
        v.follow(key, demands).live == v.live,
        queue_at(v.follow(key, demands).pending, key).len() == queue_at(v.pending, key).len(),
{
}

proof fn lemma_follow_keeps(v: RequestsView, key: RequestKey, other: RequestKey, demands: Set<DemandKey>)
    requires
        carries(v, other, demands),
    ensures
        carries(v.follow(key, demands), other, demands),
        queue_at(v.follow(key, demands).pending, other).len() == queue_at(v.pending, other).len(),
{
    if key == other {
        lemma_follow_carries(v, key, demands);
    }
}

proof fn lemma_follow_all_carries(v: RequestsView, q: Seq<SubId>, demands: Set<DemandKey>, s: SubId)
    requires
        q.contains(s),
    ensures
        carries(v.follow_all(q, demands), home_key(s), demands),
    decreases q.len(),
{
    let before = v.follow_all(q.drop_last(), demands);
    if q.last() == s {
        lemma_follow_carries(before, home_key(s), demands);
    } else {
        let i = choose|i: int| 0 <= i < q.len() && q[i] == s;
        assert(q.drop_last()[i] == s);
        lemma_follow_all_carries(v, q.drop_last(), demands, s);
        lemma_follow_keeps(before, home_key(q.last()), home_key(s), demands);
    }
}

/// What a plan change adds reaches every subscription that follows the plan: the
/// request of it that awaits its result, and the one that streams, are for the
/// added demands too.
pub proof fn plan_update_reaches_every_follower(
    v: RequestsView,
    update: RequestMetadataUpdate,
    followers: Set<SubId>,
    s: SubId,
)
    requires
        v.plans(update.sub_id, update.filter_hash),
        followers.finite(),
        followers.contains(s),
        s != update.sub_id,
    ensures
        ({
            let after = v.update_plan(update, followers);
            let key = home_key(s);
            let q = queue_at(after.pending, key);
            &&& q.len() > 0 ==> update.added_owner_demands@.subset_of(q.last().owner_demands)
            &&& after.live.contains_key(key) ==> (streaming(
                after.live,
                key,
                after.live[key].filter.hash,
            ) matches Some(r) ==> (after.active.contains_key(r) ==> update.added_owner_demands@.subset_of(
                after.active[r].owner_demands,
            )))
        }),
{
    let others = followers.remove(update.sub_id);
    lemma_listing_exists(others);
    lemma_listing_members(listing_of(others), others);
    assert(listing_of(others).contains(s));
    let own = v.extend_metadata(
        update.sub_id,
        update.filter_hash,
        update.added_coverage_claims@,
        update.added_owner_demands@,
    ).edit_owners(
        RequestKey { session: update.session, sub_id: update.sub_id },
        update.filter_hash,
        update.added_owner_demands@,
        true,
    );
    lemma_follow_all_carries(own, listing_of(others), update.added_owner_demands@, s);
}

/// A repair plays its part for the plan that it names. A hand-off and a reconciliation
/// carry what the plan carries, for the filter that they were started with; a fetch goes
/// by no filter, and carries it unless it fetches missing ids.
pub proof fn repairs_play_their_own_part(
    handoffs: Map<SubId, PendingNegHandoff>,
    sessions: Map<SubId, NegSession>,
    backfills: Map<SubId, TemporaryReq>,
    s: SubId,
)
    ensures
        ({
            let roles = roles_by_sub(handoffs, sessions, backfills);
            &&& handoffs.contains_key(s) ==> roles.contains_key(s) && roles[s].plan == handoffs[s].plan_sub_id
                && roles[s].filter == Some(handoffs[s].filter) && roles[s].follows
            &&& sessions.contains_key(s) && !handoffs.contains_key(s) ==> roles.contains_key(s)
                && roles[s].plan == sessions[s].plan_sub_id && roles[s].filter == Some(sessions[s].filter)
                && roles[s].follows
            &&& backfills.contains_key(s) && !handoffs.contains_key(s) && !sessions.contains_key(s)
                ==> roles.contains_key(s) && roles[s].filter is None && match backfills[s] {
                TemporaryReq::MissingIds { plan_sub_id, .. } => roles[s].plan == plan_sub_id
                    && !roles[s].follows,
                TemporaryReq::Backlog { plan_sub_id } => roles[s].plan == plan_sub_id && roles[s].follows,
                TemporaryReq::BacklogActivatesLive { plan_sub_id, .. } => roles[s].plan == plan_sub_id
                    && roles[s].follows,
            }
        }),
{
}

proof fn lemma_kept_roles(b: Map<SubId, TemporaryReq>, q: Seq<SubId>, s: SubId)
    ensures
        kept_roles(b, q).contains_key(s) <==> exists|i: int|
            0 <= i < q.len() && kept_by(b[#[trigger] q[i]]) == Some(s),
        kept_roles(b, q).contains_key(s) ==> kept_roles(b, q)[s].filter is None && kept_roles(b, q)[s].follows
            && exists|i: int|
            0 <= i < q.len() && kept_by(b[#[trigger] q[i]]) == Some(s) && b[q[i]].owner() == kept_roles(
                b,
                q,
            )[s].plan,
    decreases q.len(),
{
    if q.len() > 0 {
        let rest = q.drop_last();
        let n = rest.len() as int;
        lemma_kept_roles(b, rest, s);
        assert(q.last() == q[n]);
        assert forall|i: int| 0 <= i < n implies #[trigger] rest[i] == q[i] by {}
        if kept_roles(b, rest).contains_key(s) {
            let i = choose|i: int|
                0 <= i < rest.len() && kept_by(b[#[trigger] rest[i]]) == Some(s) && b[rest[i]].owner()
                    == kept_roles(b, rest)[s].plan;
            assert(kept_by(b[q[i]]) == Some(s));
        }
        if exists|i: int| 0 <= i < q.len() && kept_by(b[#[trigger] q[i]]) == Some(s) {
            let i = choose|i: int| 0 <= i < q.len() && kept_by(b[#[trigger] q[i]]) == Some(s);
            if i < n {
                assert(kept_by(b[rest[i]]) == Some(s));
            }
        }
        if kept_by(b[q[n]]) == Some(s) {
            assert(kept_roles(b, q)[s].plan == b[q[n]].owner());
        }
    }
}

/// A subscription that is no repair itself plays a part if and only if a fetch keeps
/// it: the candidate that a backlog fetch will make live, or the reconciliation whose
/// missing ids are fetched. It then carries what the plan of such a fetch carries.
pub proof fn kept_subscription_follows_the_fetch(
    handoffs: Map<SubId, PendingNegHandoff>,
    sessions: Map<SubId, NegSession>,
    backfills: Map<SubId, TemporaryReq>,
    s: SubId,
)
    requires
        backfills.dom().finite(),
        !handoffs.contains_key(s),
        !sessions.contains_key(s),
        !backfills.contains_key(s),
    ensures
        ({
            let roles = roles_by_sub(handoffs, sessions, backfills);
            &&& roles.contains_key(s) <==> exists|c: SubId| #[trigger]
                backfills.contains_key(c) && (match backfills[c] {
                    TemporaryReq::MissingIds { neg_sub_id, .. } => neg_sub_id == s,
                    TemporaryReq::Backlog { .. } => false,
                    TemporaryReq::BacklogActivatesLive { live_sub_id, .. } => live_sub_id == s,
                })
            &&& roles.contains_key(s) ==> roles[s].follows && roles[s].filter is None && exists|c: SubId|
                #[trigger] backfills.contains_key(c) && backfills[c].plan() == roles[s].plan
        }),
{
    lemma_listing_exists(backfills.dom());
    let q = listing_of(backfills.dom());
    lemma_listing_members(q, backfills.dom());
    lemma_kept_roles(backfills, q, s);
    let roles = roles_by_sub(handoffs, sessions, backfills);
    if roles.contains_key(s) {
        let i = choose|i: int|
            0 <= i < q.len() && kept_by(backfills[#[trigger] q[i]]) == Some(s) && backfills[q[i]].owner()
                == kept_roles(backfills, q)[s].plan;
        assert(q.contains(q[i]));
        assert(backfills.contains_key(q[i]));
    }
    if exists|c: SubId| #[trigger]
        backfills.contains_key(c) && (match backfills[c] {
            TemporaryReq::MissingIds { neg_sub_id, .. } => neg_sub_id == s,
            TemporaryReq::Backlog { .. } => false,
            TemporaryReq::BacklogActivatesLive { live_sub_id, .. } => live_sub_id == s,
        }) {
        let c = choose|c: SubId| #[trigger]
            backfills.contains_key(c) && (match backfills[c] {
                TemporaryReq::MissingIds { neg_sub_id, .. } => neg_sub_id == s,
                TemporaryReq::Backlog { .. } => false,
                TemporaryReq::BacklogActivatesLive { live_sub_id, .. } => live_sub_id == s,
            });
        assert(q.contains(c));
        let i = choose|i: int| 0 <= i < q.len() && q[i] == c;
        assert(kept_by(backfills[q[i]]) == Some(s));
    }
}

/// What a plan gains reaches the subscriptions that carry it, and the reconciliations
/// whose missing ids are being fetched for it.
pub proof fn plan_reaches_what_carries_it(
    handoffs: Map<SubId, PendingNegHandoff>,
    sessions: Map<SubId, NegSession>,
    backfills: Map<SubId, TemporaryReq>,
    plan: SubId,
    s: SubId,
)
    ensures
        followers_of(handoffs, sessions, backfills, plan).contains(s) <==> {
            ||| role_ids_of(handoffs, sessions, backfills, plan).contains(s)
            ||| exists|c: SubId| #[trigger]
                backfills.contains_key(c) && (backfills[c] matches TemporaryReq::MissingIds {
                    plan_sub_id,
                    neg_sub_id,
                } && plan_sub_id == plan && neg_sub_id == s)
        },
{
    if exists|c: SubId| #[trigger]
        of_plan(backfills, plan).contains(c) && backfills[c] is MissingIds && kept_by(backfills[c]) == Some(s) {
        let c = choose|c: SubId| #[trigger]
            of_plan(backfills, plan).contains(c) && backfills[c] is MissingIds && kept_by(backfills[c])
                == Some(s);
        assert(backfills.contains_key(c));
    }
    if exists|c: SubId| #[trigger]
        backfills.contains_key(c) && (backfills[c] matches TemporaryReq::MissingIds { plan_sub_id, neg_sub_id }
            && plan_sub_id == plan && neg_sub_id == s) {
        let c = choose|c: SubId| #[trigger]
            backfills.contains_key(c) && (backfills[c] matches TemporaryReq::MissingIds {
                plan_sub_id,
                neg_sub_id,
            } && plan_sub_id == plan && neg_sub_id == s);
        assert(of_plan(backfills, plan).contains(c));
    }
}

/// A plan update whose filter is no longer the plan's changes neither the plan's record
/// nor any other subscription's request.
pub proof fn outdated_update_reaches_nobody_else(
    v: RequestsView,
    update: RequestMetadataUpdate,
    followers: Set<SubId>,
    other: RequestKey,
)
    requires
        !(v.metadata.contains_key(update.sub_id) && v.metadata[update.sub_id].filter.hash
            == update.filter_hash),
        other != (RequestKey { session: update.session, sub_id: update.sub_id }),
    ensures
        v.update_plan(update, followers).metadata == v.metadata,
        v.update_plan(update, followers).pending.contains_key(other) == v.pending.contains_key(other),
        v.pending.contains_key(other) ==> v.update_plan(update, followers).pending[other] == v.pending[other],
        v.update_plan(update, followers).live == v.live,
{
}

} // verus!
