//! Set reconciliation below a router plan: pending hand-offs, open
//! reconciliations and temporary fetches, each owned by one plan.

use vstd::prelude::*;

use crate::ids::{Relay, SubId};
use crate::key::{
    is_listing, lemma_is_listing, lemma_listing_exists, lemma_listing_members, lemma_listing_of,
    lemma_push_contains, listing_of, same, Key,
};
use crate::owner_index::{IndexedChild, MirrorFault, OwnerIndexed};
use crate::sorted::{SortedMap, SortedSet};
use crate::wire::ConcreteFilter;

verus! {

/// A live candidate whose acceptance decides whether reconciliation opens.
#[derive(Clone, Copy, Debug, PartialEq, Eq, Structural)]
pub struct PendingNegHandoff {
    pub plan_sub_id: SubId,
    /// The relay that was proven to support reconciliation.
    pub probed: Relay,
    pub prior_live_sub_id: Option<SubId>,
    pub filter: ConcreteFilter,
    pub started_at: u64,
}

/// One open reconciliation.
#[derive(Clone, Copy, Debug, PartialEq, Eq, Structural)]
pub struct NegSession {
    pub plan_sub_id: SubId,
    pub relay: Relay,
    pub filter: ConcreteFilter,
    pub started_at: u64,
}

/// One temporary fetch.
#[derive(Clone, Copy, Debug, PartialEq, Eq, Structural)]
pub enum TemporaryReq {
    /// Fetches what a reconciliation found missing. It claims no coverage.
    MissingIds { plan_sub_id: SubId, neg_sub_id: SubId },
    /// Fetches the backlog in place of a reconciliation.
    Backlog { plan_sub_id: SubId },
    /// Fetches the backlog, and makes a candidate the live tail when done.
    BacklogActivatesLive {
        plan_sub_id: SubId,
        live_sub_id: SubId,
        prior_live_sub_id: Option<SubId>,
    },
}

impl TemporaryReq {
    pub open spec fn plan(self) -> SubId {
        match self {
            TemporaryReq::MissingIds { plan_sub_id, .. } => plan_sub_id,
            TemporaryReq::Backlog { plan_sub_id } => plan_sub_id,
            TemporaryReq::BacklogActivatesLive { plan_sub_id, .. } => plan_sub_id,
        }
    }
}

impl IndexedChild<SubId> for PendingNegHandoff {
    open spec fn owner(self) -> SubId {
        self.plan_sub_id
    }

    fn owner_key(&self) -> (o: &SubId) {
        &self.plan_sub_id
    }
}

impl IndexedChild<SubId> for NegSession {
    open spec fn owner(self) -> SubId {
        self.plan_sub_id
    }

    fn owner_key(&self) -> (o: &SubId) {
        &self.plan_sub_id
    }
}

impl IndexedChild<SubId> for TemporaryReq {
    open spec fn owner(self) -> SubId {
        self.plan()
    }

    fn owner_key(&self) -> (o: &SubId) {
        match self {
            TemporaryReq::MissingIds { plan_sub_id, .. } => plan_sub_id,
            TemporaryReq::Backlog { plan_sub_id } => plan_sub_id,
            TemporaryReq::BacklogActivatesLive { plan_sub_id, .. } => plan_sub_id,
        }
    }
}

/// The part that one child plays for its plan.
#[derive(Clone, Copy, Debug, PartialEq, Eq, Structural)]
pub enum PlanRole {
    Handoff(PendingNegHandoff),
    Session(NegSession),
    Backfill(TemporaryReq),
}

/// The stage that a child has reached.
#[derive(Clone, Copy, Debug, PartialEq, Eq, Structural)]
pub enum RepairPhase {
    Handoff,
    Reconciling,
    Backfill,
}

/// What the withdrawal of a plan's repair asks of its caller.
pub struct PlanRepairWithdrawal {
    pub abandon_and_close: Vec<SubId>,
    pub abandon_only: Vec<SubId>,
    pub neg_closes: Vec<(SubId, Relay)>,
    pub children_touched: u64,
}

/// How many records each index holds.
#[derive(Clone, Copy, Debug, PartialEq, Eq)]
pub struct Nip77Counts {
    pub live: usize,
    pub handoffs: usize,
    pub handoff_plan_keys: usize,
    pub handoff_plan_edges: usize,
    pub sessions: usize,
    pub session_plan_keys: usize,
    pub session_plan_edges: usize,
    pub backfills: usize,
    pub backfill_plan_keys: usize,
    pub backfill_plan_edges: usize,
}

/// A point in time that does not go past the last one.
pub open spec fn after_secs(at: u64, secs: u64) -> u64 {
    if at + secs <= u64::MAX {
        (at + secs) as u64
    } else {
        u64::MAX
    }
}

/// What one temporary fetch adds to the requests that are abandoned and
/// closed.
pub open spec fn closes_of(
    sub_id: SubId,
    request: TemporaryReq,
    live: Option<SubId>,
) -> Seq<SubId> {
    match request {
        TemporaryReq::BacklogActivatesLive { live_sub_id, prior_live_sub_id, .. } => {
            match prior_live_sub_id {
                Some(prior) => if live != Some(prior) {
                    seq![live_sub_id, prior, sub_id]
                } else {
                    seq![live_sub_id, sub_id]
                },
                None => seq![live_sub_id, sub_id],
            }
        },
        _ => seq![sub_id],
    }
}

/// What one temporary fetch adds to the requests that are only abandoned.
pub open spec fn abandons_of(request: TemporaryReq) -> Seq<SubId> {
    match request {
        TemporaryReq::MissingIds { neg_sub_id, .. } => seq![neg_sub_id],
        _ => Seq::empty(),
    }
}

pub open spec fn closes_over(
    q: Seq<SubId>,
    m: Map<SubId, TemporaryReq>,
    live: Option<SubId>,
) -> Seq<SubId>
    decreases q.len(),
{
    if q.len() == 0 {
        Seq::empty()
    } else {
        closes_over(q.drop_last(), m, live) + closes_of(q.last(), m[q.last()], live)
    }
}

pub open spec fn abandons_over(q: Seq<SubId>, m: Map<SubId, TemporaryReq>) -> Seq<SubId>
    decreases q.len(),
{
    if q.len() == 0 {
        Seq::empty()
    } else {
        abandons_over(q.drop_last(), m) + abandons_of(m[q.last()])
    }
}

/// Every reconciliation state, by the plan that owns it.
pub struct Nip77Sessions {
    handoffs: OwnerIndexed<SubId, SubId, PendingNegHandoff>,
    sessions: OwnerIndexed<SubId, SubId, NegSession>,
    backfills: OwnerIndexed<SubId, SubId, TemporaryReq>,
    live: SortedMap<SubId, SubId>,
    next_incarnation: u64,
}

/// The children of one plan in a map of owned values.
pub open spec fn of_plan<V: IndexedChild<SubId>>(m: Map<SubId, V>, plan: SubId) -> Set<SubId> {
    Set::new(|c: SubId| m.contains_key(c) && m[c].owner() == plan)
}

proof fn lemma_children_of_plan<V: IndexedChild<SubId>>(
    index: OwnerIndexed<SubId, SubId, V>,
    plan: SubId,
)
    ensures
        index.children(plan) == of_plan(index@, plan),
{
    assert(index.children(plan) =~= of_plan(index@, plan));
}

/// What a removal by a test leaves: everything that the test does not pick.
proof fn lemma_taken<V>(before: Map<SubId, V>, after: Map<SubId, V>, gone: Set<SubId>)
    requires
        after.submap_of(before),
        forall|c: SubId| #[trigger] gone.contains(c) ==> before.contains_key(c),
        forall|c: SubId| #[trigger] after.contains_key(c) ==> !gone.contains(c),
        forall|c: SubId|
            before.contains_key(c) && !(#[trigger] after.contains_key(c)) ==> gone.contains(c),
    ensures
        after == before.remove_keys(gone),
        before.dom().difference(after.dom()) == gone,
{
    assert forall|c: SubId| #[trigger] after.contains_key(c) <==> before.remove_keys(gone).contains_key(c) by {
        if after.contains_key(c) {
            assert(after.dom().contains(c));
            assert(before.contains_key(c));
        }
    }
    assert(after =~= before.remove_keys(gone));
    assert forall|c: SubId| before.dom().difference(after.dom()).contains(c) <==> gone.contains(c) by {
        assert(after.contains_key(c) == after.dom().contains(c));
    }
    assert(before.dom().difference(after.dom()) =~= gone);
}

impl Nip77Sessions {
    pub closed spec fn handoffs(&self) -> Map<SubId, PendingNegHandoff> {
        self.handoffs@
    }

    pub closed spec fn sessions(&self) -> Map<SubId, NegSession> {
        self.sessions@
    }

    pub closed spec fn backfills(&self) -> Map<SubId, TemporaryReq> {
        self.backfills@
    }

    /// The live tail of each plan.
    pub closed spec fn live(&self) -> Map<SubId, SubId> {
        self.live@
    }

    pub closed spec fn next_incarnation(&self) -> u64 {
        self.next_incarnation
    }

    /// All three mirrors hold.
    pub closed spec fn wf(&self) -> bool {
        &&& self.handoffs.wf()
        &&& self.sessions.wf()
        &&& self.backfills.wf()
    }

    /// The live tail of one plan, where it has one.
    pub open spec fn live_tail(&self, plan: SubId) -> Option<SubId> {
        if self.live().contains_key(plan) {
            Some(self.live()[plan])
        } else {
            None
        }
    }

    pub fn new() -> (r: Self)
        ensures
            r.wf(),
            r.handoffs() == Map::<SubId, PendingNegHandoff>::empty(),
            r.sessions() == Map::<SubId, NegSession>::empty(),
            r.backfills() == Map::<SubId, TemporaryReq>::empty(),
            r.live() == Map::<SubId, SubId>::empty(),
            r.next_incarnation() == 0,
    {
        Nip77Sessions {
            handoffs: OwnerIndexed::new("NIP-77 handoff"),
            sessions: OwnerIndexed::new("NIP-77 reconciliation"),
            backfills: OwnerIndexed::new("NIP-77 backfill"),
            live: SortedMap::new(),
            next_incarnation: 0,
        }
    }

    /// Issues the next incarnation number, which is never issued again.
    pub fn mint_incarnation(&mut self) -> (n: u64)
        requires
            old(self).wf(),
            old(self).next_incarnation() < u64::MAX,
        ensures
            n == old(self).next_incarnation(),
            final(self).next_incarnation() == n + 1,
            final(self).wf(),
            final(self).handoffs() == old(self).handoffs(),
            final(self).sessions() == old(self).sessions(),
            final(self).backfills() == old(self).backfills(),
            final(self).live() == old(self).live(),
    {
        let n = self.next_incarnation;
        self.next_incarnation = n + 1;
        n
    }

    pub fn live_for_plan(&self, plan: &SubId) -> (r: Option<SubId>)
        ensures
            r == self.live_tail(*plan),
    {
        match self.live.get(plan) {
            Some(sub_id) => Some(*sub_id),
            None => None,
        }
    }

    pub fn set_live(&mut self, plan: SubId, live_sub_id: SubId)
        requires
            old(self).wf(),
        ensures
            final(self).wf(),
            final(self).live() == old(self).live().insert(plan, live_sub_id),
            final(self).handoffs() == old(self).handoffs(),
            final(self).sessions() == old(self).sessions(),
            final(self).backfills() == old(self).backfills(),
            final(self).next_incarnation() == old(self).next_incarnation(),
    {
        self.live.insert(plan, live_sub_id);
    }

    pub fn take_live(&mut self, plan: &SubId) -> (r: Option<SubId>)
        requires
            old(self).wf(),
        ensures
            final(self).wf(),
            r == old(self).live_tail(*plan),
            final(self).live() == old(self).live().remove(*plan),
            final(self).handoffs() == old(self).handoffs(),
            final(self).sessions() == old(self).sessions(),
            final(self).backfills() == old(self).backfills(),
            final(self).next_incarnation() == old(self).next_incarnation(),
    {
        self.live.remove(plan)
    }

    /// Forgets the live tail of every plan on one relay.
    pub fn drop_live_for_relay(&mut self, relay: &Relay)
        requires
            old(self).wf(),
        ensures
            final(self).wf(),
            final(self).live() == old(self).live().remove_keys(
                Set::new(|plan: SubId| plan.0 == *relay),
            ),
            final(self).handoffs() == old(self).handoffs(),
            final(self).sessions() == old(self).sessions(),
            final(self).backfills() == old(self).backfills(),
            final(self).next_incarnation() == old(self).next_incarnation(),
    {
        let plans = self.live.key_list();
        let ghost before = self.live@;
        let mut i: usize = 0;
        while i < plans.len()
            invariant
                i <= plans@.len(),
                is_listing(plans@, before.dom()),
                self.handoffs == old(self).handoffs,
                self.sessions == old(self).sessions,
                self.backfills == old(self).backfills,
                self.next_incarnation == old(self).next_incarnation,
                forall|p: SubId| #[trigger]
                    self.live@.contains_key(p) <==> before.contains_key(p) && !(p.0 == *relay
                        && plans@.take(i as int).contains(p)),
                forall|p: SubId| #[trigger] self.live@.contains_key(p) ==> self.live@[p] == before[p],
            decreases plans@.len() - i,
        {
            let plan = plans[i];
            proof {
                assert(plans@.take(i + 1) =~= plans@.take(i as int).push(plan));
                lemma_push_contains(plans@.take(i as int), plan);
            }
            if same(&plan.0, relay) {
                self.live.remove(&plan);
            }
            i = i + 1;
        }
        proof {
            assert(plans@.take(i as int) =~= plans@);
            lemma_listing_members(plans@, before.dom());
            let away = Set::new(|plan: SubId| plan.0 == *relay);
            assert forall|p: SubId| self.live@.contains_key(p) <==> before.remove_keys(away).contains_key(p) by {
                if before.contains_key(p) {
                    assert(plans@.contains(p));
                }
            }
            assert(self.live@ =~= before.remove_keys(away));
        }
    }

    pub fn has_live_on_relay(&self, relay: &Relay) -> (b: bool)
        ensures
            b == exists|p: SubId| #[trigger] self.live().contains_key(p) && p.0 == *relay,
    {
        let plans = self.live.key_list();
        let mut i: usize = 0;
        while i < plans.len()
            invariant
                i <= plans@.len(),
                is_listing(plans@, self.live().dom()),
                forall|j: int| 0 <= j < i ==> (#[trigger] plans@[j]).0 != *relay,
            decreases plans@.len() - i,
        {
            if same(&plans[i].0, relay) {
                assert(self.live().dom().contains(plans@[i as int]));
                assert(self.live().contains_key(plans@[i as int]));
                return true;
            }
            i = i + 1;
        }
        assert forall|p: SubId| #[trigger] self.live().contains_key(p) implies p.0 != *relay by {
            assert(self.live().dom().contains(p));
            let j = choose|j: int| 0 <= j < plans@.len() && plans@[j] == p;
            assert(plans@[j].0 != *relay);
        }
        false
    }

    /// Whether a plan owns repair state of any kind.
    pub fn has_repair_state(&self, plan: &SubId) -> (b: bool)
        requires
            self.wf(),
        ensures
            b == (self.live().contains_key(*plan) || of_plan(self.handoffs(), *plan) != Set::<
                SubId,
            >::empty() || of_plan(self.sessions(), *plan) != Set::<SubId>::empty() || of_plan(
                self.backfills(),
                *plan,
            ) != Set::<SubId>::empty()),
    {
        proof {
            lemma_children_of_plan(self.handoffs, *plan);
            lemma_children_of_plan(self.sessions, *plan);
            lemma_children_of_plan(self.backfills, *plan);
        }
        self.live.contains(plan) || !self.handoffs.children_of(plan).is_empty()
            || !self.sessions.children_of(plan).is_empty() || !self.backfills.children_of(
            plan,
        ).is_empty()
    }

    /// The stage that one child has reached, where it is live.
    pub fn phase_of(&self, sub_id: &SubId) -> (r: Option<RepairPhase>)
        ensures
            r == (if self.handoffs().contains_key(*sub_id) {
                Some(RepairPhase::Handoff)
            } else if self.sessions().contains_key(*sub_id) {
                Some(RepairPhase::Reconciling)
            } else if self.backfills().contains_key(*sub_id) {
                Some(RepairPhase::Backfill)
            } else {
                None
            }),
    {
        if self.handoffs.contains(sub_id) {
            Some(RepairPhase::Handoff)
        } else if self.sessions.contains(sub_id) {
            Some(RepairPhase::Reconciling)
        } else if self.backfills.contains(sub_id) {
            Some(RepairPhase::Backfill)
        } else {
            None
        }
    }

    pub fn insert_handoff(&mut self, sub_id: SubId, handoff: PendingNegHandoff)
        requires
            old(self).wf(),
            !old(self).handoffs().contains_key(sub_id),
        ensures
            final(self).wf(),
            final(self).handoffs() == old(self).handoffs().insert(sub_id, handoff),
            final(self).sessions() == old(self).sessions(),
            final(self).backfills() == old(self).backfills(),
            final(self).live() == old(self).live(),
            final(self).next_incarnation() == old(self).next_incarnation(),
    {
        self.handoffs.insert(sub_id, handoff);
    }

    pub fn take_handoff(&mut self, sub_id: &SubId) -> (r: Option<PendingNegHandoff>)
        requires
            old(self).wf(),
        ensures
            final(self).wf(),
            final(self).handoffs() == old(self).handoffs().remove(*sub_id),
            final(self).sessions() == old(self).sessions(),
            final(self).backfills() == old(self).backfills(),
            final(self).live() == old(self).live(),
            final(self).next_incarnation() == old(self).next_incarnation(),
            match r {
                Some(v) => old(self).handoffs().contains_key(*sub_id) && v == old(self).handoffs()[*sub_id],
                None => !old(self).handoffs().contains_key(*sub_id),
            },
    {
        self.handoffs.take(sub_id)
    }

    pub fn is_pending_handoff(&self, sub_id: &SubId) -> (b: bool)
        ensures
            b == self.handoffs().contains_key(*sub_id),
    {
        self.handoffs.contains(sub_id)
    }

    pub fn insert_session(&mut self, sub_id: SubId, session: NegSession)
        requires
            old(self).wf(),
            !old(self).sessions().contains_key(sub_id),
        ensures
            final(self).wf(),
            final(self).sessions() == old(self).sessions().insert(sub_id, session),
            final(self).handoffs() == old(self).handoffs(),
            final(self).backfills() == old(self).backfills(),
            final(self).live() == old(self).live(),
            final(self).next_incarnation() == old(self).next_incarnation(),
    {
        self.sessions.insert(sub_id, session);
    }

    pub fn take_session(&mut self, sub_id: &SubId) -> (r: Option<NegSession>)
        requires
            old(self).wf(),
        ensures
            final(self).wf(),
            final(self).sessions() == old(self).sessions().remove(*sub_id),
            final(self).handoffs() == old(self).handoffs(),
            final(self).backfills() == old(self).backfills(),
            final(self).live() == old(self).live(),
            final(self).next_incarnation() == old(self).next_incarnation(),
            match r {
                Some(v) => old(self).sessions().contains_key(*sub_id) && v == old(self).sessions()[*sub_id],
                None => !old(self).sessions().contains_key(*sub_id),
            },
    {
        self.sessions.take(sub_id)
    }

    pub fn get_session(&self, sub_id: &SubId) -> (r: Option<&NegSession>)
        ensures
            match r {
                Some(v) => self.sessions().contains_key(*sub_id) && *v == self.sessions()[*sub_id],
                None => !self.sessions().contains_key(*sub_id),
            },
    {
        self.sessions.get(sub_id)
    }

    /// One open reconciliation, open to change in place. The mirror holds
    /// afterwards as long as it still reports the plan it had.
    pub fn get_session_mut(&mut self, sub_id: &SubId) -> (r: Option<&mut NegSession>)
        requires
            old(self).wf(),
        ensures
            match r {
                Some(v) => {
                    &&& old(self).sessions().contains_key(*sub_id)
                    &&& *v == old(self).sessions()[*sub_id]
                    &&& final(self).sessions() == old(self).sessions().insert(*sub_id, *final(v))
                    &&& final(v).plan_sub_id == old(self).sessions()[*sub_id].plan_sub_id
                        ==> final(self).wf()
                },
                None => !old(self).sessions().contains_key(*sub_id) && final(self).sessions() == old(
                    self,
                ).sessions() && final(self).wf(),
            },
            final(self).handoffs() == old(self).handoffs(),
            final(self).backfills() == old(self).backfills(),
            final(self).live() == old(self).live(),
            final(self).next_incarnation() == old(self).next_incarnation(),
    {
        self.sessions.get_mut(sub_id)
    }

    pub fn insert_backfill(&mut self, sub_id: SubId, request: TemporaryReq)
        requires
            old(self).wf(),
            !old(self).backfills().contains_key(sub_id),
        ensures
            final(self).wf(),
            final(self).backfills() == old(self).backfills().insert(sub_id, request),
            final(self).handoffs() == old(self).handoffs(),
            final(self).sessions() == old(self).sessions(),
            final(self).live() == old(self).live(),
            final(self).next_incarnation() == old(self).next_incarnation(),
    {
        self.backfills.insert(sub_id, request);
    }

    pub fn take_backfill(&mut self, sub_id: &SubId) -> (r: Option<TemporaryReq>)
        requires
            old(self).wf(),
        ensures
            final(self).wf(),
            final(self).backfills() == old(self).backfills().remove(*sub_id),
            final(self).handoffs() == old(self).handoffs(),
            final(self).sessions() == old(self).sessions(),
            final(self).live() == old(self).live(),
            final(self).next_incarnation() == old(self).next_incarnation(),
            match r {
                Some(v) => old(self).backfills().contains_key(*sub_id) && v == old(self).backfills()[*sub_id],
                None => !old(self).backfills().contains_key(*sub_id),
            },
    {
        self.backfills.take(sub_id)
    }

    pub fn is_handoff_child_of(&self, plan: &SubId, sub_id: &SubId) -> (b: bool)
        requires
            self.wf(),
        ensures
            b == of_plan(self.handoffs(), *plan).contains(*sub_id),
    {
        self.handoffs.children_of(plan).contains(sub_id)
    }

    pub fn is_backfill_child_of(&self, plan: &SubId, sub_id: &SubId) -> (b: bool)
        requires
            self.wf(),
        ensures
            b == of_plan(self.backfills(), *plan).contains(*sub_id),
    {
        self.backfills.children_of(plan).contains(sub_id)
    }

    /// The hand-offs that are past their deadline.
    pub open spec fn stale_handoffs(&self, now: u64, deadline_secs: u64) -> Set<SubId> {
        Set::new(
            |c: SubId|
                self.handoffs().contains_key(c) && now >= after_secs(
                    self.handoffs()[c].started_at,
                    deadline_secs,
                ),
        )
    }

    /// The reconciliations that are past their deadline.
    pub open spec fn stale_sessions(&self, now: u64, deadline_secs: u64) -> Set<SubId> {
        Set::new(
            |c: SubId|
                self.sessions().contains_key(c) && now >= after_secs(
                    self.sessions()[c].started_at,
                    deadline_secs,
                ),
        )
    }

    pub fn take_stale_handoffs(&mut self, now: u64, deadline_secs: u64) -> (out: Vec<
        (SubId, PendingNegHandoff),
    >)
        requires
            old(self).wf(),
        ensures
            final(self).wf(),
            final(self).handoffs() == old(self).handoffs().remove_keys(
                old(self).stale_handoffs(now, deadline_secs),
            ),
            is_listing(
                Seq::new(out@.len(), |i: int| out@[i].0),
                old(self).stale_handoffs(now, deadline_secs),
            ),
            forall|i: int| 0 <= i < out@.len() ==> (#[trigger] out@[i]).1 == old(self).handoffs()[out@[i].0],
            final(self).sessions() == old(self).sessions(),
            final(self).backfills() == old(self).backfills(),
            final(self).live() == old(self).live(),
            final(self).next_incarnation() == old(self).next_incarnation(),
    {
        let ghost before = *old(self);
        let stale = |_child: &SubId, handoff: &PendingNegHandoff| -> (b: bool)
            ensures
                b == (now >= after_secs(handoff.started_at, deadline_secs)),
            { now >= handoff.started_at.saturating_add(deadline_secs) };
        let out = self.handoffs.take_where(stale);
        proof {
            lemma_out_of(before.handoffs@, self.handoffs@, out@);
            lemma_taken(
                before.handoffs@,
                self.handoffs@,
                before.stale_handoffs(now, deadline_secs),
            );
        }
        out
    }

    pub fn take_stale_sessions(&mut self, now: u64, deadline_secs: u64) -> (out: Vec<
        (SubId, NegSession),
    >)
        requires
            old(self).wf(),
        ensures
            final(self).wf(),
            final(self).sessions() == old(self).sessions().remove_keys(
                old(self).stale_sessions(now, deadline_secs),
            ),
            is_listing(
                Seq::new(out@.len(), |i: int| out@[i].0),
                old(self).stale_sessions(now, deadline_secs),
            ),
            forall|i: int| 0 <= i < out@.len() ==> (#[trigger] out@[i]).1 == old(self).sessions()[out@[i].0],
            final(self).handoffs() == old(self).handoffs(),
            final(self).backfills() == old(self).backfills(),
            final(self).live() == old(self).live(),
            final(self).next_incarnation() == old(self).next_incarnation(),
    {
        let ghost before = *old(self);
        let stale = |_child: &SubId, session: &NegSession| -> (b: bool)
            ensures
                b == (now >= after_secs(session.started_at, deadline_secs)),
            { now >= session.started_at.saturating_add(deadline_secs) };
        let out = self.sessions.take_where(stale);
        proof {
            lemma_out_of(before.sessions@, self.sessions@, out@);
            lemma_taken(
                before.sessions@,
                self.sessions@,
                before.stale_sessions(now, deadline_secs),
            );
        }
        out
    }

    /// The earliest deadline of any hand-off or reconciliation.
    pub fn earliest_liveness_deadline(&self, deadline_secs: u64) -> (r: Option<u64>)
        ensures
            match r {
                Some(at) => {
                    &&& (exists|c: SubId| #[trigger]
                        self.sessions().contains_key(c) && after_secs(
                            self.sessions()[c].started_at,
                            deadline_secs,
                        ) == at) || (exists|c: SubId| #[trigger]
                        self.handoffs().contains_key(c) && after_secs(
                            self.handoffs()[c].started_at,
                            deadline_secs,
                        ) == at)
                    &&& forall|c: SubId| #[trigger]
                        self.sessions().contains_key(c) ==> at <= after_secs(
                            self.sessions()[c].started_at,
                            deadline_secs,
                        )
                    &&& forall|c: SubId| #[trigger]
                        self.handoffs().contains_key(c) ==> at <= after_secs(
                            self.handoffs()[c].started_at,
                            deadline_secs,
                        )
                },
                None => self.sessions() == Map::<SubId, NegSession>::empty() && self.handoffs() == Map::<
                    SubId,
                    PendingNegHandoff,
                >::empty(),
            },
    {
        let sessions = self.sessions.iter();
        let handoffs = self.handoffs.iter();
        let ghost sq = Seq::new(sessions@.len(), |i: int| sessions@[i].0);
        let ghost hq = Seq::new(handoffs@.len(), |i: int| handoffs@[i].0);
        let mut r: Option<u64> = None;
        let mut i: usize = 0;
        while i < sessions.len()
            invariant
                i <= sessions@.len(),
                is_listing(sq, self.sessions().dom()),
                sq.len() == sessions@.len(),
                forall|j: int|
                    0 <= j < sessions@.len() ==> (#[trigger] sessions@[j]).0 == sq[j] && *sessions@[j].1
                        == self.sessions()[sq[j]],
                r is None <==> i == 0,
                r matches Some(at) ==> {
                    &&& exists|c: SubId| #[trigger]
                        self.sessions().contains_key(c) && after_secs(
                            self.sessions()[c].started_at,
                            deadline_secs,
                        ) == at
                    &&& forall|j: int|
                        0 <= j < i ==> at <= after_secs(
                            self.sessions()[#[trigger] sq[j]].started_at,
                            deadline_secs,
                        )
                },
            decreases sessions@.len() - i,
        {
            let at = sessions[i].1.started_at.saturating_add(deadline_secs);
            assert(sessions@[i as int].0 == sq[i as int]);
            assert(self.sessions().dom().contains(sq[i as int]));
            assert(self.sessions().contains_key(sq[i as int]));
            r = match r {
                Some(best) => if at < best {
                    Some(at)
                } else {
                    Some(best)
                },
                None => Some(at),
            };
            i = i + 1;
        }
        let mut k: usize = 0;
        while k < handoffs.len()
            invariant
                i == sessions@.len(),
                i == sq.len(),
                k <= handoffs@.len(),
                is_listing(hq, self.handoffs().dom()),
                hq.len() == handoffs@.len(),
                forall|j: int|
                    0 <= j < handoffs@.len() ==> (#[trigger] handoffs@[j]).0 == hq[j] && *handoffs@[j].1
                        == self.handoffs()[hq[j]],
                r is None <==> i == 0 && k == 0,
                r matches Some(at) ==> {
                    &&& (exists|c: SubId| #[trigger]
                        self.sessions().contains_key(c) && after_secs(
                            self.sessions()[c].started_at,
                            deadline_secs,
                        ) == at) || (exists|c: SubId| #[trigger]
                        self.handoffs().contains_key(c) && after_secs(
                            self.handoffs()[c].started_at,
                            deadline_secs,
                        ) == at)
                    &&& forall|j: int|
                        0 <= j < i ==> at <= after_secs(
                            self.sessions()[#[trigger] sq[j]].started_at,
                            deadline_secs,
                        )
                    &&& forall|j: int|
                        0 <= j < k ==> at <= after_secs(
                            self.handoffs()[#[trigger] hq[j]].started_at,
                            deadline_secs,
                        )
                },
            decreases handoffs@.len() - k,
        {
            let at = handoffs[k].1.started_at.saturating_add(deadline_secs);
            assert(handoffs@[k as int].0 == hq[k as int]);
            assert(self.handoffs().dom().contains(hq[k as int]));
            assert(self.handoffs().contains_key(hq[k as int]));
            r = match r {
                Some(best) => if at < best {
                    Some(at)
                } else {
                    Some(best)
                },
                None => Some(at),
            };
            k = k + 1;
        }
        proof {
            lemma_listing_members(sq, self.sessions().dom());
            lemma_listing_members(hq, self.handoffs().dom());
            match r {
                Some(at) => {
                    assert forall|c: SubId| #[trigger] self.sessions().contains_key(c) implies at
                        <= after_secs(self.sessions()[c].started_at, deadline_secs) by {
                        assert(sq.contains(c));
                        let j = choose|j: int| 0 <= j < sq.len() && sq[j] == c;
                        assert(at <= after_secs(self.sessions()[sq[j]].started_at, deadline_secs));
                    }
                    assert forall|c: SubId| #[trigger] self.handoffs().contains_key(c) implies at
                        <= after_secs(self.handoffs()[c].started_at, deadline_secs) by {
                        assert(hq.contains(c));
                        let j = choose|j: int| 0 <= j < hq.len() && hq[j] == c;
                        assert(at <= after_secs(self.handoffs()[hq[j]].started_at, deadline_secs));
                    }
                },
                None => {
                    assert(self.sessions() =~= Map::<SubId, NegSession>::empty());
                    assert(self.handoffs() =~= Map::<SubId, PendingNegHandoff>::empty());
                },
            }
        }
        r
    }

    /// Takes every hand-off whose relay was probed as `relay`.
    pub fn take_handoffs_probed_on_relay(&mut self, relay: &Relay) -> (out: Vec<
        (SubId, PendingNegHandoff),
    >)
        requires
            old(self).wf(),
        ensures
            ({
                let gone = Set::new(
                    |c: SubId|
                        old(self).handoffs().contains_key(c) && old(self).handoffs()[c].probed == *relay,
                );
                &&& final(self).handoffs() == old(self).handoffs().remove_keys(gone)
                &&& is_listing(Seq::new(out@.len(), |i: int| out@[i].0), gone)
            }),
            forall|i: int| 0 <= i < out@.len() ==> (#[trigger] out@[i]).1 == old(self).handoffs()[out@[i].0],
            final(self).wf(),
            final(self).sessions() == old(self).sessions(),
            final(self).backfills() == old(self).backfills(),
            final(self).live() == old(self).live(),
            final(self).next_incarnation() == old(self).next_incarnation(),
    {
        let ghost before = *old(self);
        let on = *relay;
        let drop = |_child: &SubId, handoff: &PendingNegHandoff| -> (b: bool)
            ensures
                b == (handoff.probed == on),
            { same(&handoff.probed, &on) };
        let out = self.handoffs.take_where(drop);
        proof {
            let gone = Set::new(
                |c: SubId| before.handoffs().contains_key(c) && before.handoffs()[c].probed == *relay,
            );
            lemma_out_of(before.handoffs@, self.handoffs@, out@);
            lemma_taken(before.handoffs@, self.handoffs@, gone);
        }
        out
    }

    /// Takes every hand-off whose own request is on `relay`.
    pub fn take_handoffs_on_relay(&mut self, relay: &Relay) -> (out: Vec<(SubId, PendingNegHandoff)>)
        requires
            old(self).wf(),
        ensures
            ({
                let gone = Set::new(|c: SubId| old(self).handoffs().contains_key(c) && c.0 == *relay);
                &&& final(self).handoffs() == old(self).handoffs().remove_keys(gone)
                &&& is_listing(Seq::new(out@.len(), |i: int| out@[i].0), gone)
            }),
            forall|i: int| 0 <= i < out@.len() ==> (#[trigger] out@[i]).1 == old(self).handoffs()[out@[i].0],
            final(self).wf(),
            final(self).sessions() == old(self).sessions(),
            final(self).backfills() == old(self).backfills(),
            final(self).live() == old(self).live(),
            final(self).next_incarnation() == old(self).next_incarnation(),
    {
        let ghost before = *old(self);
        let on = *relay;
        let drop = |child: &SubId, _handoff: &PendingNegHandoff| -> (b: bool)
            ensures
                b == (child.0 == on),
            { same(&child.0, &on) };
        let out = self.handoffs.take_where(drop);
        proof {
            let gone = Set::new(|c: SubId| before.handoffs().contains_key(c) && c.0 == *relay);
            lemma_out_of(before.handoffs@, self.handoffs@, out@);
            lemma_taken(before.handoffs@, self.handoffs@, gone);
        }
        out
    }

    pub fn take_sessions_on_relay(&mut self, relay: &Relay) -> (out: Vec<(SubId, NegSession)>)
        requires
            old(self).wf(),
        ensures
            ({
                let gone = Set::new(
                    |c: SubId|
                        old(self).sessions().contains_key(c) && old(self).sessions()[c].relay == *relay,
                );
                &&& final(self).sessions() == old(self).sessions().remove_keys(gone)
                &&& is_listing(Seq::new(out@.len(), |i: int| out@[i].0), gone)
            }),
            forall|i: int| 0 <= i < out@.len() ==> (#[trigger] out@[i]).1 == old(self).sessions()[out@[i].0],
            final(self).wf(),
            final(self).handoffs() == old(self).handoffs(),
            final(self).backfills() == old(self).backfills(),
            final(self).live() == old(self).live(),
            final(self).next_incarnation() == old(self).next_incarnation(),
    {
        let ghost before = *old(self);
        let on = *relay;
        let drop = |_child: &SubId, session: &NegSession| -> (b: bool)
            ensures
                b == (session.relay == on),
            { same(&session.relay, &on) };
        let out = self.sessions.take_where(drop);
        proof {
            let gone = Set::new(
                |c: SubId| before.sessions().contains_key(c) && before.sessions()[c].relay == *relay,
            );
            lemma_out_of(before.sessions@, self.sessions@, out@);
            lemma_taken(before.sessions@, self.sessions@, gone);
        }
        out
    }

    pub fn take_backfills_on_relay(&mut self, relay: &Relay) -> (out: Vec<(SubId, TemporaryReq)>)
        requires
            old(self).wf(),
        ensures
            ({
                let gone = Set::new(|c: SubId| old(self).backfills().contains_key(c) && c.0 == *relay);
                &&& final(self).backfills() == old(self).backfills().remove_keys(gone)
                &&& is_listing(Seq::new(out@.len(), |i: int| out@[i].0), gone)
            }),
            forall|i: int| 0 <= i < out@.len() ==> (#[trigger] out@[i]).1 == old(self).backfills()[out@[i].0],
            final(self).wf(),
            final(self).handoffs() == old(self).handoffs(),
            final(self).sessions() == old(self).sessions(),
            final(self).live() == old(self).live(),
            final(self).next_incarnation() == old(self).next_incarnation(),
    {
        let ghost before = *old(self);
        let on = *relay;
        let drop = |child: &SubId, _request: &TemporaryReq| -> (b: bool)
            ensures
                b == (child.0 == on),
            { same(&child.0, &on) };
        let out = self.backfills.take_where(drop);
        proof {
            let gone = Set::new(|c: SubId| before.backfills().contains_key(c) && c.0 == *relay);
            lemma_out_of(before.backfills@, self.backfills@, out@);
            lemma_taken(before.backfills@, self.backfills@, gone);
        }
        out
    }

    pub fn has_pending_handoff_on_relay(&self, relay: &Relay) -> (b: bool)
        ensures
            b == exists|c: SubId| #[trigger] self.handoffs().contains_key(c) && c.0 == *relay,
    {
        let entries = self.handoffs.iter();
        let ghost q = Seq::new(entries@.len(), |i: int| entries@[i].0);
        let mut i: usize = 0;
        while i < entries.len()
            invariant
                i <= entries@.len(),
                q.len() == entries@.len(),
                is_listing(q, self.handoffs().dom()),
                forall|j: int| 0 <= j < q.len() ==> #[trigger] q[j] == entries@[j].0,
                forall|j: int| 0 <= j < i ==> (#[trigger] q[j]).0 != *relay,
            decreases entries@.len() - i,
        {
            assert(q[i as int] == entries@[i as int].0);
            if same(&entries[i].0.0, relay) {
                assert(self.handoffs().dom().contains(q[i as int]));
                assert(self.handoffs().contains_key(q[i as int]));
                return true;
            }
            i = i + 1;
        }
        assert forall|c: SubId| #[trigger] self.handoffs().contains_key(c) implies c.0 != *relay by {
            assert(self.handoffs().dom().contains(c));
            let j = choose|j: int| 0 <= j < q.len() && q[j] == c;
            assert(q[j].0 != *relay);
        }
        false
    }

    pub fn has_reconciling_session_on_relay(&self, relay: &Relay) -> (b: bool)
        ensures
            b == exists|c: SubId| #[trigger]
                self.sessions().contains_key(c) && self.sessions()[c].relay == *relay,
    {
        let entries = self.sessions.iter();
        let ghost q = Seq::new(entries@.len(), |i: int| entries@[i].0);
        let mut i: usize = 0;
        while i < entries.len()
            invariant
                i <= entries@.len(),
                q.len() == entries@.len(),
                is_listing(q, self.sessions().dom()),
                forall|j: int|
                    0 <= j < q.len() ==> #[trigger] q[j] == entries@[j].0 && *entries@[j].1
                        == self.sessions()[q[j]],
                forall|j: int| 0 <= j < i ==> self.sessions()[#[trigger] q[j]].relay != *relay,
            decreases entries@.len() - i,
        {
            assert(q[i as int] == entries@[i as int].0);
            if same(&entries[i].1.relay, relay) {
                assert(self.sessions().dom().contains(q[i as int]));
                assert(self.sessions().contains_key(q[i as int]));
                return true;
            }
            i = i + 1;
        }
        assert forall|c: SubId| #[trigger] self.sessions().contains_key(c) implies self.sessions()[c].relay
            != *relay by {
            assert(self.sessions().dom().contains(c));
            let j = choose|j: int| 0 <= j < q.len() && q[j] == c;
            assert(self.sessions()[q[j]].relay != *relay);
        }
        false
    }

    /// Whether any fetch on a relay is, or is not, for missing ids.
    fn has_backfill_on_relay(&self, relay: &Relay, missing_ids: bool) -> (b: bool)
        ensures
            b == exists|c: SubId| #[trigger]
                self.backfills().contains_key(c) && c.0 == *relay && (self.backfills()[c] is MissingIds)
                    == missing_ids,
    {
        let entries = self.backfills.iter();
        let ghost q = Seq::new(entries@.len(), |i: int| entries@[i].0);
        let mut i: usize = 0;
        while i < entries.len()
            invariant
                i <= entries@.len(),
                q.len() == entries@.len(),
                is_listing(q, self.backfills().dom()),
                forall|j: int|
                    0 <= j < q.len() ==> #[trigger] q[j] == entries@[j].0 && *entries@[j].1
                        == self.backfills()[q[j]],
                forall|j: int|
                    0 <= j < i ==> !((#[trigger] q[j]).0 == *relay && (self.backfills()[q[j]] is MissingIds)
                        == missing_ids),
            decreases entries@.len() - i,
        {
            assert(q[i as int] == entries@[i as int].0);
            let missing = match entries[i].1 {
                TemporaryReq::MissingIds { .. } => true,
                _ => false,
            };
            if same(&entries[i].0.0, relay) && missing == missing_ids {
                assert(self.backfills().dom().contains(q[i as int]));
                assert(self.backfills().contains_key(q[i as int]));
                return true;
            }
            i = i + 1;
        }
        assert forall|c: SubId| #[trigger] self.backfills().contains_key(c) implies !(c.0 == *relay && (
        self.backfills()[c] is MissingIds) == missing_ids) by {
            assert(self.backfills().dom().contains(c));
            let j = choose|j: int| 0 <= j < q.len() && q[j] == c;
            assert(q[j].0 == c.0);
        }
        false
    }

    pub fn has_backlog_fallback_on_relay(&self, relay: &Relay) -> (b: bool)
        ensures
            b == exists|c: SubId| #[trigger]
                self.backfills().contains_key(c) && c.0 == *relay && !(self.backfills()[c] is MissingIds),
    {
        self.has_backfill_on_relay(relay, false)
    }

    pub fn has_missing_ids_backfill_on_relay(&self, relay: &Relay) -> (b: bool)
        ensures
            b == exists|c: SubId| #[trigger]
                self.backfills().contains_key(c) && c.0 == *relay && self.backfills()[c] is MissingIds,
    {
        self.has_backfill_on_relay(relay, true)
    }

    /// The reconciliations on one relay with their filters, in rising order.
    pub fn sessions_on_relay(&self, relay: &Relay) -> (out: Vec<(SubId, ConcreteFilter)>)
        ensures
            is_listing(
                Seq::new(out@.len(), |i: int| out@[i].0),
                Set::new(
                    |c: SubId| self.sessions().contains_key(c) && self.sessions()[c].relay == *relay,
                ),
            ),
            forall|i: int|
                0 <= i < out@.len() ==> (#[trigger] out@[i]).1 == self.sessions()[out@[i].0].filter,
    {
        let entries = self.sessions.iter();
        let ghost q = Seq::new(entries@.len(), |i: int| entries@[i].0);
        let mut out: Vec<(SubId, ConcreteFilter)> = Vec::new();
        let mut i: usize = 0;
        while i < entries.len()
            invariant
                i <= entries@.len(),
                q.len() == entries@.len(),
                is_listing(q, self.sessions().dom()),
                forall|j: int|
                    0 <= j < q.len() ==> #[trigger] q[j] == entries@[j].0 && *entries@[j].1
                        == self.sessions()[q[j]],
                forall|a: int|
                    0 <= a < out@.len() ==> {
                        &&& q.take(i as int).contains((#[trigger] out@[a]).0)
                        &&& self.sessions()[out@[a].0].relay == *relay
                        &&& out@[a].1 == self.sessions()[out@[a].0].filter
                    },
                forall|a: int, b: int|
                    0 <= a < b < out@.len() ==> (#[trigger] out@[a]).0.rank() < (#[trigger] out@[b]).0.rank(),
                forall|j: int|
                    0 <= j < i && self.sessions()[#[trigger] q[j]].relay == *relay ==> exists|a: int|
                        0 <= a < out@.len() && (#[trigger] out@[a]).0 == q[j],
            decreases entries@.len() - i,
        {
            let ghost prior = out@;
            let sub_id = entries[i].0;
            proof {
                assert(q[i as int] == entries@[i as int].0);
                assert(q.take(i + 1) =~= q.take(i as int).push(sub_id));
                lemma_push_contains(q.take(i as int), sub_id);
                assert forall|a: int| 0 <= a < prior.len() implies (#[trigger] prior[a]).0.rank()
                    < sub_id.rank() by {
                    let k = choose|k: int| 0 <= k < i && q.take(i as int)[k] == prior[a].0;
                    assert(q[k].rank() < q[i as int].rank());
                }
            }
            if same(&entries[i].1.relay, relay) {
                out.push((sub_id, entries[i].1.filter));
                assert(out@[prior.len() as int].0 == q[i as int]);
            }
            assert forall|j: int| 0 <= j < i + 1 && self.sessions()[#[trigger] q[j]].relay == *relay implies exists|
                a: int,
            | 0 <= a < out@.len() && (#[trigger] out@[a]).0 == q[j] by {
                if j < i {
                    let a = choose|a: int| 0 <= a < prior.len() && (#[trigger] prior[a]).0 == q[j];
                    assert(out@[a].0 == q[j]);
                }
            }
            i = i + 1;
        }
        proof {
            let keys = Seq::new(out@.len(), |i: int| out@[i].0);
            let s = Set::new(
                |c: SubId| self.sessions().contains_key(c) && self.sessions()[c].relay == *relay,
            );
            assert(q.take(i as int) =~= q);
            lemma_listing_members(q, self.sessions().dom());
            assert forall|c: SubId| #[trigger] s.contains(c) <==> keys.contains(c) by {
                if s.contains(c) {
                    assert(q.contains(c));
                    let j = choose|j: int| 0 <= j < q.len() && q[j] == c;
                    let a = choose|a: int| 0 <= a < out@.len() && (#[trigger] out@[a]).0 == q[j];
                    assert(keys[a] == c);
                }
                if keys.contains(c) {
                    let a = choose|a: int| 0 <= a < keys.len() && keys[a] == c;
                    assert(q.contains(out@[a].0));
                }
            }
            lemma_is_listing(keys, s);
        }
        out
    }
}

/// The removed children of an index with their values.
proof fn lemma_out_of<V>(before: Map<SubId, V>, after: Map<SubId, V>, out: Seq<(SubId, V)>)
    requires
        is_listing(Seq::new(out.len(), |i: int| out[i].0), before.dom().difference(after.dom())),
    ensures
        forall|c: SubId|
            before.contains_key(c) && !(#[trigger] after.contains_key(c)) ==> exists|i: int|
                0 <= i < out.len() && (#[trigger] out[i]).0 == c,
{
    let q = Seq::new(out.len(), |i: int| out[i].0);
    assert forall|c: SubId| before.contains_key(c) && !(#[trigger] after.contains_key(c)) implies exists|i: int|
        0 <= i < out.len() && (#[trigger] out[i]).0 == c by {
        assert(before.dom().difference(after.dom()).contains(c));
        assert(q.contains(c));
        let i = choose|i: int| 0 <= i < q.len() && q[i] == c;
        assert(out[i].0 == c);
    }
}

/// The parts that the children of one plan play: hand-offs, then
/// reconciliations, then fetches, each in rising order.
pub open spec fn roles_of(
    handoffs: Map<SubId, PendingNegHandoff>,
    sessions: Map<SubId, NegSession>,
    backfills: Map<SubId, TemporaryReq>,
    plan: SubId,
) -> Seq<(SubId, PlanRole)> {
    let h = listing_of(of_plan(handoffs, plan));
    let s = listing_of(of_plan(sessions, plan));
    let b = listing_of(of_plan(backfills, plan));
    Seq::new(h.len(), |i: int| (h[i], PlanRole::Handoff(handoffs[h[i]]))) + Seq::new(
        s.len(),
        |i: int| (s[i], PlanRole::Session(sessions[s[i]])),
    ) + Seq::new(b.len(), |i: int| (b[i], PlanRole::Backfill(backfills[b[i]])))
}

/// The subscriptions whose claims and owners follow the plan's own: the plan,
/// its hand-offs and reconciliations, and its backlog fetches with the
/// candidates that these will make live. A fetch of missing ids is none.
pub open spec fn role_ids_of(
    handoffs: Map<SubId, PendingNegHandoff>,
    sessions: Map<SubId, NegSession>,
    backfills: Map<SubId, TemporaryReq>,
    plan: SubId,
) -> Set<SubId> {
    Set::new(
        |s: SubId|
            {
                ||| s == plan
                ||| of_plan(handoffs, plan).contains(s)
                ||| of_plan(sessions, plan).contains(s)
                ||| of_plan(backfills, plan).contains(s) && !(backfills[s] is MissingIds)
                ||| exists|c: SubId| #[trigger]
                    of_plan(backfills, plan).contains(c) && activates(backfills[c], s)
            },
    )
}

/// Whether a fetch makes `s` the live tail when it is done.
pub open spec fn activates(request: TemporaryReq, s: SubId) -> bool {
    match request {
        TemporaryReq::BacklogActivatesLive { live_sub_id, .. } => live_sub_id == s,
        _ => false,
    }
}

impl Nip77Sessions {
    pub fn roles_for_plan(&self, plan_sub_id: &SubId) -> (roles: Vec<(SubId, PlanRole)>)
        requires
            self.wf(),
        ensures
            roles@ == roles_of(self.handoffs(), self.sessions(), self.backfills(), *plan_sub_id),
    {
        proof {
            lemma_children_of_plan(self.handoffs, *plan_sub_id);
            lemma_children_of_plan(self.sessions, *plan_sub_id);
            lemma_children_of_plan(self.backfills, *plan_sub_id);
        }
        let mut roles: Vec<(SubId, PlanRole)> = Vec::new();
        let handoffs = self.handoffs.children_of(plan_sub_id).list();
        let sessions = self.sessions.children_of(plan_sub_id).list();
        let backfills = self.backfills.children_of(plan_sub_id).list();
        proof {
            lemma_listing_of(handoffs@, of_plan(self.handoffs@, *plan_sub_id));
            lemma_listing_of(sessions@, of_plan(self.sessions@, *plan_sub_id));
            lemma_listing_of(backfills@, of_plan(self.backfills@, *plan_sub_id));
        }
        let ghost first = Seq::new(
            handoffs@.len(),
            |i: int| (handoffs@[i], PlanRole::Handoff(self.handoffs@[handoffs@[i]])),
        );
        let ghost second = Seq::new(
            sessions@.len(),
            |i: int| (sessions@[i], PlanRole::Session(self.sessions@[sessions@[i]])),
        );
        let ghost third = Seq::new(
            backfills@.len(),
            |i: int| (backfills@[i], PlanRole::Backfill(self.backfills@[backfills@[i]])),
        );
        let mut i: usize = 0;
        while i < handoffs.len()
            invariant
                i <= handoffs@.len(),
                is_listing(handoffs@, of_plan(self.handoffs@, *plan_sub_id)),
                first.len() == handoffs@.len(),
                forall|j: int|
                    0 <= j < first.len() ==> #[trigger] first[j] == (
                        handoffs@[j],
                        PlanRole::Handoff(self.handoffs@[handoffs@[j]]),
                    ),
                roles@ == first.take(i as int),
            decreases handoffs@.len() - i,
        {
            let child = handoffs[i];
            assert(of_plan(self.handoffs@, *plan_sub_id).contains(handoffs@[i as int]));
            if let Some(handoff) = self.handoffs.get(&child) {
                roles.push((child, PlanRole::Handoff(*handoff)));
            }
            assert(first[i as int] == roles@.last());
            assert(first.take(i + 1) =~= first.take(i as int).push(first[i as int]));
            i = i + 1;
        }
        assert(roles@ =~= first + second.take(0));
        i = 0;
        while i < sessions.len()
            invariant
                i <= sessions@.len(),
                is_listing(sessions@, of_plan(self.sessions@, *plan_sub_id)),
                second.len() == sessions@.len(),
                forall|j: int|
                    0 <= j < second.len() ==> #[trigger] second[j] == (
                        sessions@[j],
                        PlanRole::Session(self.sessions@[sessions@[j]]),
                    ),
                roles@ == first + second.take(i as int),
            decreases sessions@.len() - i,
        {
            let child = sessions[i];
            assert(of_plan(self.sessions@, *plan_sub_id).contains(sessions@[i as int]));
            if let Some(session) = self.sessions.get(&child) {
                roles.push((child, PlanRole::Session(*session)));
            }
            assert(second[i as int] == roles@.last());
            assert(second.take(i + 1) =~= second.take(i as int).push(second[i as int]));
            assert(first + second.take(i + 1) =~= (first + second.take(i as int)).push(second[i as int]));
            i = i + 1;
        }
        assert(second.take(i as int) =~= second);
        assert(roles@ =~= first + second + third.take(0));
        i = 0;
        while i < backfills.len()
            invariant
                i <= backfills@.len(),
                is_listing(backfills@, of_plan(self.backfills@, *plan_sub_id)),
                third.len() == backfills@.len(),
                forall|j: int|
                    0 <= j < third.len() ==> #[trigger] third[j] == (
                        backfills@[j],
                        PlanRole::Backfill(self.backfills@[backfills@[j]]),
                    ),
                roles@ == first + second + third.take(i as int),
            decreases backfills@.len() - i,
        {
            let child = backfills[i];
            assert(of_plan(self.backfills@, *plan_sub_id).contains(backfills@[i as int]));
            if let Some(request) = self.backfills.get(&child) {
                roles.push((child, PlanRole::Backfill(*request)));
            }
            assert(third[i as int] == roles@.last());
            assert(third.take(i + 1) =~= third.take(i as int).push(third[i as int]));
            assert(first + second + third.take(i + 1) =~= (first + second + third.take(i as int)).push(
                third[i as int],
            ));
            i = i + 1;
        }
        assert(third.take(i as int) =~= third);
        roles
    }

    pub fn role_sub_ids_for_plan(&self, plan_sub_id: &SubId) -> (r: SortedSet<SubId>)
        requires
            self.wf(),
        ensures
            r@ == role_ids_of(self.handoffs(), self.sessions(), self.backfills(), *plan_sub_id),
    {
        proof {
            lemma_children_of_plan(self.handoffs, *plan_sub_id);
            lemma_children_of_plan(self.sessions, *plan_sub_id);
            lemma_children_of_plan(self.backfills, *plan_sub_id);
        }
        let mut r = SortedSet::singleton(*plan_sub_id);
        r.extend(&self.handoffs.children_of(plan_sub_id));
        r.extend(&self.sessions.children_of(plan_sub_id));
        let ghost base = r@;
        let ghost kids = of_plan(self.backfills@, *plan_sub_id);
        let backfills = self.backfills.children_of(plan_sub_id).list();
        let ghost q = backfills@;
        let ghost b = self.backfills@;
        let mut i: usize = 0;
        while i < backfills.len()
            invariant
                i <= q.len(),
                q == backfills@,
                b == self.backfills@,
                is_listing(q, kids),
                kids == of_plan(b, *plan_sub_id),
                forall|s: SubId| #[trigger]
                    r@.contains(s) <==> base.contains(s) || (q.take(i as int).contains(s)
                        && !(b[s] is MissingIds)) || exists|j: int|
                        0 <= j < i && activates(b[#[trigger] q[j]], s),
            decreases q.len() - i,
        {
            let child = backfills[i];
            let ghost prior = r@;
            proof {
                assert(kids.contains(q[i as int]));
                assert(q.take(i + 1) =~= q.take(i as int).push(child));
                lemma_push_contains(q.take(i as int), child);
            }
            if let Some(request) = self.backfills.get(&child) {
                match request {
                    TemporaryReq::MissingIds { .. } => {},
                    TemporaryReq::Backlog { .. } => {
                        r.insert(child);
                    },
                    TemporaryReq::BacklogActivatesLive { live_sub_id, .. } => {
                        r.insert(child);
                        r.insert(*live_sub_id);
                    },
                }
            }
            assert forall|s: SubId| #[trigger] r@.contains(s) <==> base.contains(s) || (q.take(
                i + 1,
            ).contains(s) && !(b[s] is MissingIds)) || exists|j: int|
                0 <= j < i + 1 && activates(b[#[trigger] q[j]], s) by {
                if exists|j: int| 0 <= j < i && activates(b[#[trigger] q[j]], s) {
                    let j = choose|j: int| 0 <= j < i && activates(b[#[trigger] q[j]], s);
                    assert(activates(b[q[j]], s));
                }
                if activates(b[q[i as int]], s) {
                    assert(r@.contains(s));
                }
            }
            i = i + 1;
        }
        proof {
            assert(q.take(i as int) =~= q);
            lemma_listing_members(q, kids);
            let want = role_ids_of(self.handoffs@, self.sessions@, b, *plan_sub_id);
            assert forall|s: SubId| r@.contains(s) <==> want.contains(s) by {
                if exists|j: int| 0 <= j < q.len() && activates(b[#[trigger] q[j]], s) {
                    let j = choose|j: int| 0 <= j < q.len() && activates(b[#[trigger] q[j]], s);
                    assert(kids.contains(q[j]));
                }
                if exists|c: SubId| #[trigger] kids.contains(c) && activates(b[c], s) {
                    let c = choose|c: SubId| #[trigger] kids.contains(c) && activates(b[c], s);
                    assert(q.contains(c));
                    let j = choose|j: int| 0 <= j < q.len() && q[j] == c;
                    assert(activates(b[q[j]], s));
                }
            }
            assert(r@ =~= want);
        }
        r
    }

    /// Withdraws every temporary fetch of one plan.
    pub fn retire_backfills_for_plan(&mut self, plan_sub_id: &SubId) -> (w: PlanRepairWithdrawal)
        requires
            old(self).wf(),
            of_plan(old(self).backfills(), *plan_sub_id).len() <= u64::MAX,
        ensures
            final(self).wf(),
            final(self).handoffs() == old(self).handoffs(),
            final(self).sessions() == old(self).sessions(),
            final(self).live() == old(self).live(),
            final(self).next_incarnation() == old(self).next_incarnation(),
            final(self).backfills() == old(self).backfills().remove_keys(
                of_plan(old(self).backfills(), *plan_sub_id),
            ),
            w.abandon_and_close@ == closes_over(
                listing_of(of_plan(old(self).backfills(), *plan_sub_id)),
                old(self).backfills(),
                old(self).live_tail(*plan_sub_id),
            ),
            w.abandon_only@ == abandons_over(
                listing_of(of_plan(old(self).backfills(), *plan_sub_id)),
                old(self).backfills(),
            ),
            w.neg_closes@ == Seq::<(SubId, Relay)>::empty(),
            w.children_touched == of_plan(old(self).backfills(), *plan_sub_id).len(),
    {
        let ghost before = *old(self);
        let ghost b = before.backfills@;
        let ghost live = before.live_tail(*plan_sub_id);
        proof {
            lemma_children_of_plan(self.backfills, *plan_sub_id);
        }
        let temporary = self.backfills.take_owner(plan_sub_id);
        let ghost q = Seq::new(temporary@.len(), |i: int| temporary@[i].0);
        proof {
            lemma_listing_of(q, of_plan(b, *plan_sub_id));
            assert(q.take(0) =~= Seq::<SubId>::empty());
        }
        let live_now = self.live_for_plan(plan_sub_id);
        let mut abandon_and_close: Vec<SubId> = Vec::new();
        let mut abandon_only: Vec<SubId> = Vec::new();
        let mut i: usize = 0;
        while i < temporary.len()
            invariant
                i <= temporary@.len(),
                q.len() == temporary@.len(),
                live_now == live,
                forall|j: int| 0 <= j < q.len() ==> #[trigger] temporary@[j] == (q[j], b[q[j]]),
                abandon_and_close@ == closes_over(q.take(i as int), b, live),
                abandon_only@ == abandons_over(q.take(i as int), b),
            decreases temporary@.len() - i,
        {
            let sub_id = temporary[i].0;
            let request = temporary[i].1;
            let ghost closes = abandon_and_close@;
            let ghost abandons = abandon_only@;
            proof {
                assert(temporary@[i as int] == (q[i as int], b[q[i as int]]));
                assert(q.take(i + 1).drop_last() =~= q.take(i as int));
                assert(q.take(i + 1).last() == sub_id);
            }
            match request {
                TemporaryReq::MissingIds { neg_sub_id, .. } => {
                    abandon_only.push(neg_sub_id);
                },
                TemporaryReq::BacklogActivatesLive { live_sub_id, prior_live_sub_id, .. } => {
                    abandon_and_close.push(live_sub_id);
                    if let Some(prior) = prior_live_sub_id {
                        let current = match live_now {
                            Some(live_sub_id) => same(&live_sub_id, &prior),
                            None => false,
                        };
                        if !current {
                            abandon_and_close.push(prior);
                        }
                    }
                },
                TemporaryReq::Backlog { .. } => {},
            }
            abandon_and_close.push(sub_id);
            assert(abandon_and_close@ =~= closes + closes_of(sub_id, request, live));
            assert(abandon_only@ =~= abandons + abandons_of(request));
            i = i + 1;
        }
        assert(q.take(i as int) =~= q);
        PlanRepairWithdrawal {
            abandon_and_close,
            abandon_only,
            neg_closes: Vec::new(),
            children_touched: temporary.len() as u64,
        }
    }

    /// Withdraws everything that one plan's repair owns, but for its live tail.
    pub fn cancel_repair_for_plan(&mut self, plan_sub_id: &SubId) -> (w: PlanRepairWithdrawal)
        requires
            old(self).wf(),
            of_plan(old(self).handoffs(), *plan_sub_id).len() + of_plan(
                old(self).sessions(),
                *plan_sub_id,
            ).len() + of_plan(old(self).backfills(), *plan_sub_id).len() <= u64::MAX,
        ensures
            final(self).wf(),
            final(self).live() == old(self).live(),
            final(self).next_incarnation() == old(self).next_incarnation(),
            final(self).handoffs() == old(self).handoffs().remove_keys(
                of_plan(old(self).handoffs(), *plan_sub_id),
            ),
            final(self).sessions() == old(self).sessions().remove_keys(
                of_plan(old(self).sessions(), *plan_sub_id),
            ),
            final(self).backfills() == old(self).backfills().remove_keys(
                of_plan(old(self).backfills(), *plan_sub_id),
            ),
            w.abandon_and_close@ == listing_of(of_plan(old(self).handoffs(), *plan_sub_id))
                + closes_over(
                listing_of(of_plan(old(self).backfills(), *plan_sub_id)),
                old(self).backfills(),
                old(self).live_tail(*plan_sub_id),
            ),
            w.abandon_only@ == abandons_over(
                listing_of(of_plan(old(self).backfills(), *plan_sub_id)),
                old(self).backfills(),
            ),
            w.neg_closes@ == Seq::new(
                listing_of(of_plan(old(self).sessions(), *plan_sub_id)).len(),
                |i: int|
                    (
                        listing_of(of_plan(old(self).sessions(), *plan_sub_id))[i],
                        old(self).sessions()[listing_of(
                            of_plan(old(self).sessions(), *plan_sub_id),
                        )[i]].relay,
                    ),
            ),
            w.children_touched == of_plan(old(self).handoffs(), *plan_sub_id).len() + of_plan(
                old(self).sessions(),
                *plan_sub_id,
            ).len() + of_plan(old(self).backfills(), *plan_sub_id).len(),
    {
        let ghost before = *old(self);
        proof {
            lemma_children_of_plan(self.handoffs, *plan_sub_id);
            lemma_children_of_plan(self.sessions, *plan_sub_id);
        }
        let pending = self.handoffs.take_owner(plan_sub_id);
        let open = self.sessions.take_owner(plan_sub_id);
        let ghost hq = Seq::new(pending@.len(), |i: int| pending@[i].0);
        let ghost sq = Seq::new(open@.len(), |i: int| open@[i].0);
        proof {
            lemma_listing_of(hq, of_plan(before.handoffs@, *plan_sub_id));
            lemma_listing_of(sq, of_plan(before.sessions@, *plan_sub_id));
        }
        let mut abandon_and_close: Vec<SubId> = Vec::new();
        let mut i: usize = 0;
        while i < pending.len()
            invariant
                i <= pending@.len(),
                hq.len() == pending@.len(),
                forall|j: int| 0 <= j < hq.len() ==> #[trigger] hq[j] == pending@[j].0,
                abandon_and_close@ == hq.take(i as int),
            decreases pending@.len() - i,
        {
            abandon_and_close.push(pending[i].0);
            assert(hq[i as int] == pending@[i as int].0);
            assert(hq.take(i + 1) =~= hq.take(i as int).push(hq[i as int]));
            i = i + 1;
        }
        assert(hq.take(i as int) =~= hq);
        let ghost closes = Seq::new(sq.len(), |i: int| (sq[i], before.sessions@[sq[i]].relay));
        let mut neg_closes: Vec<(SubId, Relay)> = Vec::new();
        i = 0;
        while i < open.len()
            invariant
                i <= open@.len(),
                sq.len() == open@.len(),
                closes.len() == sq.len(),
                forall|j: int| 0 <= j < sq.len() ==> #[trigger] open@[j] == (sq[j], before.sessions@[sq[j]]),
                forall|j: int|
                    0 <= j < sq.len() ==> #[trigger] closes[j] == (sq[j], before.sessions@[sq[j]].relay),
                neg_closes@ == closes.take(i as int),
            decreases open@.len() - i,
        {
            neg_closes.push((open[i].0, open[i].1.relay));
            assert(open@[i as int] == (sq[i as int], before.sessions@[sq[i as int]]));
            assert(closes.take(i + 1) =~= closes.take(i as int).push(closes[i as int]));
            i = i + 1;
        }
        assert(closes.take(i as int) =~= closes);
        let rest = self.retire_backfills_for_plan(plan_sub_id);
        let ghost first = abandon_and_close@;
        let mut more = rest.abandon_and_close;
        abandon_and_close.append(&mut more);
        assert(neg_closes@ =~= Seq::new(
            listing_of(of_plan(before.sessions(), *plan_sub_id)).len(),
            |i: int|
                (
                    listing_of(of_plan(before.sessions(), *plan_sub_id))[i],
                    before.sessions()[listing_of(of_plan(before.sessions(), *plan_sub_id))[i]].relay,
                ),
        ));
        PlanRepairWithdrawal {
            abandon_and_close,
            abandon_only: rest.abandon_only,
            neg_closes,
            children_touched: pending.len() as u64 + open.len() as u64 + rest.children_touched,
        }
    }

    /// Compares the three mirrors by identity: the hand-offs first, then the
    /// reconciliations, then the fetches.
    pub fn assert_consistent(&self) -> (r: Result<(), (RepairPhase, MirrorFault<SubId, SubId>)>)
        ensures
            r is Ok <==> self.wf(),
            r matches Err((phase, f)) ==> self.first_fault(phase, f),
    {
        if let Err(fault) = self.handoffs.assert_consistent() {
            return Err((RepairPhase::Handoff, fault));
        }
        if let Err(fault) = self.sessions.assert_consistent() {
            return Err((RepairPhase::Reconciling, fault));
        }
        if let Err(fault) = self.backfills.assert_consistent() {
            return Err((RepairPhase::Backfill, fault));
        }
        Ok(())
    }

    /// `f` is the first thing that is wrong.
    pub closed spec fn first_fault(&self, phase: RepairPhase, f: MirrorFault<SubId, SubId>) -> bool {
        match phase {
            RepairPhase::Handoff => !self.handoffs.wf() && self.handoffs.first_fault(f),
            RepairPhase::Reconciling => self.handoffs.wf() && !self.sessions.wf()
                && self.sessions.first_fault(f),
            RepairPhase::Backfill => self.handoffs.wf() && self.sessions.wf() && !self.backfills.wf()
                && self.backfills.first_fault(f),
        }
    }

    /// How many records each index holds.
    pub fn counts(&self) -> (r: Nip77Counts)
        requires
            self.wf(),
        ensures
            r.live == self.live().len(),
            r.handoffs == self.handoffs().len(),
            r.handoff_plan_edges == r.handoffs,
            r.sessions == self.sessions().len(),
            r.session_plan_edges == r.sessions,
            r.backfills == self.backfills().len(),
            r.backfill_plan_edges == r.backfills,
            r.handoff_plan_keys == plans_of(self.handoffs()).len(),
            r.session_plan_keys == plans_of(self.sessions()).len(),
            r.backfill_plan_keys == plans_of(self.backfills()).len(),
    {
        proof {
            self.handoffs.lemma_owners();
            self.sessions.lemma_owners();
            self.backfills.lemma_owners();
            assert(self.handoffs.owning() =~= plans_of(self.handoffs@));
            assert(self.sessions.owning() =~= plans_of(self.sessions@));
            assert(self.backfills.owning() =~= plans_of(self.backfills@));
        }
        Nip77Counts {
            live: self.live.len(),
            handoffs: self.handoffs.len(),
            handoff_plan_keys: self.handoffs.owner_keys(),
            handoff_plan_edges: self.handoffs.owner_edges(),
            sessions: self.sessions.len(),
            session_plan_keys: self.sessions.owner_keys(),
            session_plan_edges: self.sessions.owner_edges(),
            backfills: self.backfills.len(),
            backfill_plan_keys: self.backfills.owner_keys(),
            backfill_plan_edges: self.backfills.owner_edges(),
        }
    }
}

/// The plans that own anything in a map of owned values.
pub open spec fn plans_of<V: IndexedChild<SubId>>(m: Map<SubId, V>) -> Set<SubId> {
    Set::new(|p: SubId| exists|c: SubId| #[trigger] m.contains_key(c) && m[c].owner() == p)
}

/// A withdrawal leaves the plan with no repair state but its live tail.
pub proof fn cancellation_leaves_no_children<V: IndexedChild<SubId>>(m: Map<SubId, V>, plan: SubId)
    ensures
        of_plan(m.remove_keys(of_plan(m, plan)), plan) == Set::<SubId>::empty(),
        forall|other: SubId|
            other != plan ==> of_plan(m.remove_keys(of_plan(m, plan)), other) == of_plan(m, other),
{
    let after = m.remove_keys(of_plan(m, plan));
    assert(of_plan(after, plan) =~= Set::<SubId>::empty());
    assert forall|other: SubId| other != plan implies of_plan(after, other) == of_plan(m, other) by {
        assert(of_plan(after, other) =~= of_plan(m, other));
    }
}

/// A list of children with their values is that of a map.
pub open spec fn lists_map<V>(out: Seq<(SubId, V)>, m: Map<SubId, V>) -> bool {
    &&& is_listing(Seq::new(out.len(), |i: int| out[i].0), m.dom())
    &&& forall|i: int| 0 <= i < out.len() ==> (#[trigger] out[i]).1 == m[out[i].0]
}

impl Nip77Sessions {
    /// Every pending hand-off, in rising order.
    pub fn handoff_list(&self) -> (out: Vec<(SubId, PendingNegHandoff)>)
        ensures
            lists_map(out@, self.handoffs()),
    {
        let entries = self.handoffs.iter();
        let mut out: Vec<(SubId, PendingNegHandoff)> = Vec::new();
        let mut i: usize = 0;
        while i < entries.len()
            invariant
                i <= entries@.len(),
                out@.len() == i,
                forall|j: int|
                    0 <= j < i ==> (#[trigger] out@[j]).0 == entries@[j].0 && out@[j].1 == *entries@[j].1,
            decreases entries@.len() - i,
        {
            out.push((entries[i].0, *entries[i].1));
            i = i + 1;
        }
        assert(Seq::new(out@.len(), |i: int| out@[i].0) =~= Seq::new(
            entries@.len(),
            |i: int| entries@[i].0,
        ));
        out
    }

    /// Every open reconciliation, in rising order.
    pub fn session_list(&self) -> (out: Vec<(SubId, NegSession)>)
        ensures
            lists_map(out@, self.sessions()),
    {
        let entries = self.sessions.iter();
        let mut out: Vec<(SubId, NegSession)> = Vec::new();
        let mut i: usize = 0;
        while i < entries.len()
            invariant
                i <= entries@.len(),
                out@.len() == i,
                forall|j: int|
                    0 <= j < i ==> (#[trigger] out@[j]).0 == entries@[j].0 && out@[j].1 == *entries@[j].1,
            decreases entries@.len() - i,
        {
            out.push((entries[i].0, *entries[i].1));
            i = i + 1;
        }
        assert(Seq::new(out@.len(), |i: int| out@[i].0) =~= Seq::new(
            entries@.len(),
            |i: int| entries@[i].0,
        ));
        out
    }

    /// Every temporary fetch, in rising order.
    pub fn backfill_list(&self) -> (out: Vec<(SubId, TemporaryReq)>)
        ensures
            lists_map(out@, self.backfills()),
    {
        let entries = self.backfills.iter();
        let mut out: Vec<(SubId, TemporaryReq)> = Vec::new();
        let mut i: usize = 0;
        while i < entries.len()
            invariant
                i <= entries@.len(),
                out@.len() == i,
                forall|j: int|
                    0 <= j < i ==> (#[trigger] out@[j]).0 == entries@[j].0 && out@[j].1 == *entries@[j].1,
            decreases entries@.len() - i,
        {
            out.push((entries[i].0, *entries[i].1));
            i = i + 1;
        }
        assert(Seq::new(out@.len(), |i: int| out@[i].0) =~= Seq::new(
            entries@.len(),
            |i: int| entries@[i].0,
        ));
        out
    }
}

/// A deadline is past once as many seconds have gone by as it allows, and not before;
/// no deadline is after the end of time.
pub proof fn deadline_is_past_after_its_seconds(at: u64, secs: u64, now: u64)
    ensures
        at + secs <= u64::MAX ==> (now >= after_secs(at, secs) <==> now >= at + secs),
        at + secs > u64::MAX ==> after_secs(at, secs) == u64::MAX,
{
}

/// Before the end of time, what is stale is exactly what was started long enough ago.
pub proof fn stale_repairs_were_started_long_ago(r: Nip77Sessions, now: u64, secs: u64, c: SubId)
    requires
        now < u64::MAX,
    ensures
        r.stale_handoffs(now, secs).contains(c) <==> r.handoffs().contains_key(c)
            && r.handoffs()[c].started_at + secs <= now,
        r.stale_sessions(now, secs).contains(c) <==> r.sessions().contains_key(c)
            && r.sessions()[c].started_at + secs <= now,
{
}

/// Every child belongs to the plan that it names.
pub proof fn children_belong_to_the_plan_they_name(
    handoff: PendingNegHandoff,
    session: NegSession,
    request: TemporaryReq,
)
    ensures
        handoff.owner() == handoff.plan_sub_id,
        session.owner() == session.plan_sub_id,
        request matches TemporaryReq::MissingIds { plan_sub_id, .. } ==> request.owner() == plan_sub_id,
        request matches TemporaryReq::Backlog { plan_sub_id } ==> request.owner() == plan_sub_id,
        request matches TemporaryReq::BacklogActivatesLive { plan_sub_id, .. } ==> request.owner()
            == plan_sub_id,
{
}

/// A fetch that is withdrawn is abandoned and closed itself. One that would have made a
/// candidate live closes the candidate before it, and the earlier tail that the
/// candidate would have replaced, unless that tail is still the live one. A fetch of
/// missing ids leaves its reconciliation to be abandoned, without a close.
pub proof fn withdrawn_fetch_closes_what_it_opened(sub_id: SubId, request: TemporaryReq, live: Option<SubId>)
    ensures
        closes_of(sub_id, request, live).last() == sub_id,
        request matches TemporaryReq::BacklogActivatesLive { live_sub_id, prior_live_sub_id, .. } ==> {
            let q = closes_of(sub_id, request, live);
            &&& q[0] == live_sub_id
            &&& prior_live_sub_id is Some && live != prior_live_sub_id ==> q.len() == 3 && q[1]
                == prior_live_sub_id->0
            &&& prior_live_sub_id is None || live == prior_live_sub_id ==> q.len() == 2
        },
        !(request is BacklogActivatesLive) ==> closes_of(sub_id, request, live).len() == 1,
        request matches TemporaryReq::MissingIds { neg_sub_id, .. } ==> abandons_of(request) == seq![
            neg_sub_id,
        ],
        !(request is MissingIds) ==> abandons_of(request).len() == 0,
{
}

/// Several fetches that are withdrawn close what each of them closes, in order.
pub proof fn withdrawn_fetches_close_in_order(
    q: Seq<SubId>,
    m: Map<SubId, TemporaryReq>,
    live: Option<SubId>,
    c: SubId,
)
    ensures
        closes_over(q.push(c), m, live) == closes_over(q, m, live) + closes_of(c, m[c], live),
        abandons_over(q.push(c), m) == abandons_over(q, m) + abandons_of(m[c]),
        closes_over(Seq::empty(), m, live).len() == 0,
        abandons_over(Seq::empty(), m).len() == 0,
{
    assert(q.push(c).drop_last() =~= q);
}

/// The children of a plan are exactly those that name it.
pub proof fn children_of_a_plan_name_it(
    handoffs: Map<SubId, PendingNegHandoff>,
    sessions: Map<SubId, NegSession>,
    plan: SubId,
    c: SubId,
)
    ensures
        of_plan(handoffs, plan).contains(c) <==> handoffs.contains_key(c) && handoffs[c].plan_sub_id == plan,
        of_plan(sessions, plan).contains(c) <==> sessions.contains_key(c) && sessions[c].plan_sub_id == plan,
{
}

/// The subscriptions that carry what a plan carries: the plan itself, its hand-offs,
/// its reconciliations, its backlog fetches, and the candidates that these will make
/// live. A fetch of missing ids carries nothing of the plan.
pub proof fn plan_is_carried_by_its_children(
    handoffs: Map<SubId, PendingNegHandoff>,
    sessions: Map<SubId, NegSession>,
    backfills: Map<SubId, TemporaryReq>,
    plan: SubId,
    s: SubId,
)
    ensures
        role_ids_of(handoffs, sessions, backfills, plan).contains(s) <==> {
            ||| s == plan
            ||| handoffs.contains_key(s) && handoffs[s].plan_sub_id == plan
            ||| sessions.contains_key(s) && sessions[s].plan_sub_id == plan
            ||| backfills.contains_key(s) && (backfills[s] matches TemporaryReq::Backlog { plan_sub_id }
                && plan_sub_id == plan)
            ||| backfills.contains_key(s) && (backfills[s] matches TemporaryReq::BacklogActivatesLive {
                plan_sub_id,
                ..
            } && plan_sub_id == plan)
            ||| exists|c: SubId| #[trigger]
                backfills.contains_key(c) && (backfills[c] matches TemporaryReq::BacklogActivatesLive {
                    plan_sub_id,
                    live_sub_id,
                    ..
                } && plan_sub_id == plan && live_sub_id == s)
        },
{
    if exists|c: SubId| #[trigger] of_plan(backfills, plan).contains(c) && activates(backfills[c], s) {
        let c = choose|c: SubId| #[trigger] of_plan(backfills, plan).contains(c) && activates(backfills[c], s);
        assert(backfills.contains_key(c));
    }
    if exists|c: SubId| #[trigger]
        backfills.contains_key(c) && (backfills[c] matches TemporaryReq::BacklogActivatesLive {
            plan_sub_id,
            live_sub_id,
            ..
        } && plan_sub_id == plan && live_sub_id == s) {
        let c = choose|c: SubId| #[trigger]
            backfills.contains_key(c) && (backfills[c] matches TemporaryReq::BacklogActivatesLive {
                plan_sub_id,
                live_sub_id,
                ..
            } && plan_sub_id == plan && live_sub_id == s);
        assert(of_plan(backfills, plan).contains(c));
    }
}

/// The parts that the children of a plan play name every child of the plan once, with
/// what it is: hand-offs first, then reconciliations, then fetches.
pub proof fn every_child_plays_its_part(
    handoffs: Map<SubId, PendingNegHandoff>,
    sessions: Map<SubId, NegSession>,
    backfills: Map<SubId, TemporaryReq>,
    plan: SubId,
    c: SubId,
)
    requires
        handoffs.dom().finite(),
        sessions.dom().finite(),
        backfills.dom().finite(),
    ensures
        ({
            let q = roles_of(handoffs, sessions, backfills, plan);
            &&& q.contains((c, PlanRole::Handoff(handoffs[c]))) <==> handoffs.contains_key(c)
                && handoffs[c].plan_sub_id == plan
            &&& q.contains((c, PlanRole::Session(sessions[c]))) <==> sessions.contains_key(c)
                && sessions[c].plan_sub_id == plan
            &&& q.contains((c, PlanRole::Backfill(backfills[c]))) <==> backfills.contains_key(c)
                && backfills[c].owner() == plan
            &&& forall|i: int, j: int|
                0 <= i < j < q.len() ==> !((#[trigger] q[i]).1 is Session && (#[trigger] q[j]).1 is Handoff)
                    && !(q[i].1 is Backfill && !(q[j].1 is Backfill))
        }),
{
    let hs = of_plan(handoffs, plan);
    let ss = of_plan(sessions, plan);
    let bs = of_plan(backfills, plan);
    assert(hs.subset_of(handoffs.dom()));
    assert(ss.subset_of(sessions.dom()));
    assert(bs.subset_of(backfills.dom()));
    vstd::set_lib::lemma_set_subset_finite(handoffs.dom(), hs);
    vstd::set_lib::lemma_set_subset_finite(sessions.dom(), ss);
    vstd::set_lib::lemma_set_subset_finite(backfills.dom(), bs);
    lemma_listing_exists(hs);
    lemma_listing_exists(ss);
    lemma_listing_exists(bs);
    let h = listing_of(hs);
    let s = listing_of(ss);
    let b = listing_of(bs);
    lemma_listing_members(h, hs);
    lemma_listing_members(s, ss);
    lemma_listing_members(b, bs);
    let q = roles_of(handoffs, sessions, backfills, plan);
    assert(q.len() == h.len() + s.len() + b.len());
    assert forall|i: int| 0 <= i < q.len() implies #[trigger] q[i] == (if i < h.len() {
        (h[i], PlanRole::Handoff(handoffs[h[i]]))
    } else if i < h.len() + s.len() {
        (s[i - h.len()], PlanRole::Session(sessions[s[i - h.len()]]))
    } else {
        (b[i - h.len() - s.len()], PlanRole::Backfill(backfills[b[i - h.len() - s.len()]]))
    }) by {}
    if hs.contains(c) {
        assert(h.contains(c));
        let i = choose|i: int| 0 <= i < h.len() && h[i] == c;
        assert(q[i] == (c, PlanRole::Handoff(handoffs[c])));
    }
    if ss.contains(c) {
        assert(s.contains(c));
        let i = choose|i: int| 0 <= i < s.len() && s[i] == c;
        assert(q[h.len() + i] == (c, PlanRole::Session(sessions[c])));
    }
    if bs.contains(c) {
        assert(b.contains(c));
        let i = choose|i: int| 0 <= i < b.len() && b[i] == c;
        assert(q[h.len() + s.len() + i] == (c, PlanRole::Backfill(backfills[c])));
    }
    if q.contains((c, PlanRole::Handoff(handoffs[c]))) {
        let i = choose|i: int| 0 <= i < q.len() && q[i] == (c, PlanRole::Handoff(handoffs[c]));
        assert(h.contains(h[i]));
    }
    if q.contains((c, PlanRole::Session(sessions[c]))) {
        let i = choose|i: int| 0 <= i < q.len() && q[i] == (c, PlanRole::Session(sessions[c]));
        assert(s.contains(s[i - h.len()]));
    }
    if q.contains((c, PlanRole::Backfill(backfills[c]))) {
        let i = choose|i: int| 0 <= i < q.len() && q[i] == (c, PlanRole::Backfill(backfills[c]));
        assert(b.contains(b[i - h.len() - s.len()]));
    }
}

/// The live tail of a plan is the one that is on record for it.
pub proof fn live_tail_is_on_record(r: Nip77Sessions, plan: SubId, tail: SubId)
    ensures
        r.live_tail(plan) == Some(tail) <==> r.live().contains_key(plan) && r.live()[plan] == tail,
{
}

/// A plan is counted if and only if a child names it, and a list of children gives each
/// of them once, as it is.
pub proof fn plans_and_children_are_all_there<V: IndexedChild<SubId>>(
    m: Map<SubId, V>,
    p: SubId,
    out: Seq<(SubId, V)>,
    c: SubId,
)
    ensures
        plans_of(m).contains(p) <==> exists|d: SubId| #[trigger] m.contains_key(d) && m[d].owner() == p,
        lists_map(out, m) ==> out.len() == m.dom().len() && (m.contains_key(c) <==> out.contains((c, m[c]))),
{
    if lists_map(out, m) {
        let q = Seq::new(out.len(), |i: int| out[i].0);
        lemma_listing_members(q, m.dom());
        if m.contains_key(c) {
            assert(m.dom().contains(c));
            assert(q.contains(c));
            let i = choose|i: int| 0 <= i < q.len() && q[i] == c;
            assert(out[i].0 == c && out[i].1 == m[c]);
            assert(out[i] == (c, m[c]));
        }
        if out.contains((c, m[c])) {
            let i = choose|i: int| 0 <= i < out.len() && out[i] == (c, m[c]);
            assert(q[i] == c);
            assert(q.contains(c));
        }
    }
}

} // verus!
