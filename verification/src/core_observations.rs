//! Where observations, their branches and the requests for them meet.

use vstd::prelude::*;

use crate::core_state::{CoreObservationOwnershipCensus, CoreState};
use crate::evidence::ScopeAcquisition;
use crate::ids::{DemandKey, HandleId, ObservationId, Relay};
use crate::key::{
    is_listing, lemma_listing_members, lemma_listing_of, lemma_push_contains, listing_of, Pair,
};
use crate::observation_registry::{live_scopes, Observations};
use crate::opening::{
    answers, in_step, opening_step, ObservationOpen, Opening, OpeningAction, OpeningEvent,
};
use crate::pending_writes::WriteFault;
use crate::request_targets::{
    activation, counted, demands_reach_their_live_targets, ActiveRequestTarget, LiveTarget, RequestTarget,
    TargetFault,
};
use crate::requests::{awaiting_over, RequestFault, Requests};
use crate::sorted::SortedSet;
use crate::tally::{row_of, with_row, without_row};

verus! {

/// How one of the owners can disagree with itself.
#[derive(Clone, Copy, Debug)]
pub enum OwnerFault {
    Targets(TargetFault),
    Requests(RequestFault),
    Writes(WriteFault),
}

/// The scopes of one branch that ask their relays.
pub open spec fn scopes_of(observations: Observations, id: HandleId) -> Set<u64> {
    if observations.handles@.contains_key(id) {
        live_scopes(observations.handles@[id].acquisition.scopes@)
    } else {
        Set::empty()
    }
}

/// The activations after the branches of a list, one after the other, have been
/// made live.
pub open spec fn activated(
    observations: Observations,
    declared: Map<Pair<HandleId, ActiveRequestTarget>, usize>,
    q: Seq<HandleId>,
) -> Map<Pair<HandleId, LiveTarget>, usize>
    decreases q.len(),
{
    if q.len() == 0 {
        Map::empty()
    } else {
        with_row(
            activated(observations, declared, q.drop_last()),
            q.last(),
            activation(q.last(), row_of(declared, q.last()), scopes_of(observations, q.last())),
        )
    }
}

/// What is declared after some branches are gone.
pub open spec fn undeclared<C>(m: Map<Pair<HandleId, C>, usize>, gone: Seq<HandleId>) -> Map<
    Pair<HandleId, C>,
    usize,
> {
    m.remove_keys(Set::new(|e: Pair<HandleId, C>| gone.contains(e.0)))
}

/// The branches that have a declaration.
pub open spec fn declaring(declared: Map<Pair<HandleId, ActiveRequestTarget>, usize>) -> Set<HandleId> {
    Set::new(|id: HandleId| row_of(declared, id) != Map::<ActiveRequestTarget, usize>::empty())
}

impl CoreState {
    /// The observations that an end of a request for some demands is news for.
    pub open spec fn observers_of(&self, demands: Set<DemandKey>) -> Set<ObservationId> {
        Set::new(
            |o: ObservationId|
                exists|t: RequestTarget| #[trigger]
                    self.targets.targets_of(demands).contains(t) && self.observations.handles@.contains_key(
                        t.handle,
                    ) && self.observations.handles@[t.handle].observation == o,
        )
    }

    /// Every observation with a live target for any of the demands, in rising
    /// order.
    pub fn observations_for_demands(&self, owner_demands: &SortedSet<DemandKey>) -> (r: Vec<ObservationId>)
        ensures
            is_listing(r@, self.observers_of(owner_demands@)),
    {
        let targets = self.targets.targets_for_demands(owner_demands);
        let ghost all = self.targets.targets_of(owner_demands@);
        let mut ids: SortedSet<ObservationId> = SortedSet::new();
        let mut i: usize = 0;
        while i < targets.len()
            invariant
                i <= targets@.len(),
                is_listing(targets@, all),
                forall|o: ObservationId| #[trigger]
                    ids@.contains(o) <==> exists|j: int|
                        0 <= j < i && self.observations.handles@.contains_key((#[trigger] targets@[j]).handle)
                            && self.observations.handles@[targets@[j].handle].observation == o,
            decreases targets@.len() - i,
        {
            let ghost before = ids@;
            if let Some(id) = self.observations.branch_observation(&targets[i].handle) {
                ids.insert(id);
            }
            assert forall|o: ObservationId| #[trigger] ids@.contains(o) <==> exists|j: int|
                0 <= j < i + 1 && self.observations.handles@.contains_key((#[trigger] targets@[j]).handle)
                    && self.observations.handles@[targets@[j].handle].observation == o by {
                if before.contains(o) {
                    let j = choose|j: int|
                        0 <= j < i && self.observations.handles@.contains_key((#[trigger] targets@[j]).handle)
                            && self.observations.handles@[targets@[j].handle].observation == o;
                    assert(self.observations.handles@.contains_key(targets@[j].handle));
                } else if ids@.contains(o) {
                    assert(self.observations.handles@.contains_key(targets@[i as int].handle));
                }
            }
            i = i + 1;
        }
        proof {
            lemma_listing_members(targets@, all);
            let want = self.observers_of(owner_demands@);
            assert forall|o: ObservationId| ids@.contains(o) <==> want.contains(o) by {
                if ids@.contains(o) {
                    let j = choose|j: int|
                        0 <= j < targets@.len() && self.observations.handles@.contains_key(
                            (#[trigger] targets@[j]).handle,
                        ) && self.observations.handles@[targets@[j].handle].observation == o;
                    assert(targets@.contains(targets@[j]));
                    assert(all.contains(targets@[j]));
                }
                if want.contains(o) {
                    let t = choose|t: RequestTarget| #[trigger]
                        all.contains(t) && self.observations.handles@.contains_key(t.handle)
                            && self.observations.handles@[t.handle].observation == o;
                    assert(targets@.contains(t));
                    let j = choose|j: int| 0 <= j < targets@.len() && targets@[j] == t;
                    assert(self.observations.handles@.contains_key(targets@[j].handle));
                }
            }
            assert(ids@ =~= want);
        }
        ids.list()
    }

    /// A request has delivered all its stored events, and what it proves is
    /// written down. Gives back the observations to tell, with the relay that
    /// has answered, and the demands that the request was for.
    pub fn emit_request_settled(&mut self, revision: u64) -> (r: Option<
        (Vec<ObservationId>, Relay, SortedSet<DemandKey>),
    >)
        requires
            old(self).requests.wf(),
        ensures
            final(self).requests.wf(),
            *final(self) == (CoreState { requests: final(self).requests, ..*old(self) }),
            match r {
                None => !old(self).requests@.active.contains_key(revision) && final(self).requests@ == old(
                    self,
                ).requests@,
                Some((observers, relay, demands)) => {
                    let a = old(self).requests@.active[revision];
                    &&& old(self).requests@.active.contains_key(revision)
                    &&& is_listing(observers@, old(self).observers_of(a.owner_demands))
                    &&& relay == a.session.relay
                    &&& demands@ == a.owner_demands
                    &&& final(self).requests@ == old(self).requests@.settle(revision).finish_stored(a)
                },
            },
    {
        match self.requests.settle_request(revision) {
            None => None,
            Some((session, demands)) => {
                let observers = self.observations_for_demands(&demands);
                assert(self.observers_of(demands@) =~= old(self).observers_of(demands@));
                Some((observers, session.relay, demands))
            },
        }
    }

    /// A request has delivered all its stored events, but what it proves could
    /// not be written down: nobody is told. Gives back the demands that the
    /// request was for.
    pub fn retire_request_evidence(&mut self, revision: u64) -> (demands: SortedSet<DemandKey>)
        requires
            old(self).requests.wf(),
        ensures
            final(self).requests.wf(),
            *final(self) == (CoreState { requests: final(self).requests, ..*old(self) }),
            if old(self).requests@.active.contains_key(revision) {
                let a = old(self).requests@.active[revision];
                &&& demands@ == a.owner_demands
                &&& final(self).requests@ == old(self).requests@.settle(revision).finish_stored(a)
            } else {
                &&& demands@ == Set::<DemandKey>::empty()
                &&& final(self).requests@ == old(self).requests@
            },
    {
        match self.requests.settle_request(revision) {
            None => SortedSet::new(),
            Some((_, demands)) => demands,
        }
    }

    /// Declares anew what one branch asks for, from its resolved filter nodes.
    /// `attached` says whether the branch is on the wire.
    pub fn reconcile_observation_resolution(
        &mut self,
        id: &HandleId,
        nodes: &Vec<ActiveRequestTarget>,
        attached: bool,
    )
        requires
            old(self).targets.wf(),
        ensures
            final(self).targets.wf(),
            *final(self) == (CoreState { targets: final(self).targets, ..*old(self) }),
            final(self).targets.declared() == with_row(old(self).targets.declared(), *id, counted(nodes@)),
            final(self).targets.active() == (if attached {
                with_row(
                    old(self).targets.active(),
                    *id,
                    activation(*id, counted(nodes@), scopes_of(old(self).observations, *id)),
                )
            } else {
                without_row(old(self).targets.active(), *id)
            }),
    {
        if attached {
            let scopes = self.observations.wire_contributing_scopes(id);
            self.targets.reconcile_resolution(id, nodes, Some(&scopes));
        } else {
            self.targets.reconcile_resolution(id, nodes, None);
        }
    }

    /// Makes live what a branch declares, as far as its scopes ask their relays.
    pub fn activate_request_targets_for_handle(&mut self, id: &HandleId)
        requires
            old(self).targets.wf(),
        ensures
            final(self).targets.wf(),
            *final(self) == (CoreState { targets: final(self).targets, ..*old(self) }),
            final(self).targets.declared() == old(self).targets.declared(),
            final(self).targets.active() == with_row(
                old(self).targets.active(),
                *id,
                activation(
                    *id,
                    row_of(old(self).targets.declared(), *id),
                    scopes_of(old(self).observations, *id),
                ),
            ),
    {
        let scopes = self.observations.wire_contributing_scopes(id);
        self.targets.activate_handle(id, &scopes);
    }

    /// Derives every live target anew from what the branches declare.
    pub fn rebuild_activations(&mut self)
        requires
            old(self).targets.wf(),
        ensures
            final(self).targets.wf(),
            *final(self) == (CoreState { targets: final(self).targets, ..*old(self) }),
            final(self).targets.declared() == old(self).targets.declared(),
            final(self).targets.active() == activated(
                old(self).observations,
                old(self).targets.declared(),
                listing_of(declaring(old(self).targets.declared())),
            ),
    {
        self.targets.forget_activations();
        let handles = self.targets.declared_handles();
        let ghost declared = self.targets.declared();
        let ghost observations = self.observations;
        proof {
            assert(declaring(declared) =~= Set::new(
                |id: HandleId|
                    row_of(self.targets.declared(), id) != Map::<ActiveRequestTarget, usize>::empty(),
            ));
            lemma_listing_of(handles@, declaring(declared));
            assert(handles@.take(0) =~= Seq::<HandleId>::empty());
        }
        let mut i: usize = 0;
        while i < handles.len()
            invariant
                i <= handles@.len(),
                self.targets.wf(),
                *self == (CoreState { targets: self.targets, ..*old(self) }),
                observations == self.observations,
                declared == self.targets.declared(),
                self.targets.active() == activated(observations, declared, handles@.take(i as int)),
            decreases handles@.len() - i,
        {
            let id = handles[i];
            proof {
                assert(handles@.take(i + 1).drop_last() =~= handles@.take(i as int));
                assert(handles@.take(i + 1).last() == id);
            }
            self.activate_request_targets_for_handle(&id);
            i = i + 1;
        }
        assert(handles@.take(i as int) =~= handles@);
    }

    /// Takes an observation off the books, with its branches and all that they
    /// declare. Gives back the branches, which have to be released, and the
    /// number of the last fact that the observation tells.
    pub fn on_unsubscribe(&mut self, id: &ObservationId) -> (r: Option<(Vec<HandleId>, u64)>)
        requires
            old(self).targets.wf(),
        ensures
            final(self).targets.wf(),
            *final(self) == (CoreState {
                targets: final(self).targets,
                observations: final(self).observations,
                ..*old(self)
            }),
            final(self).observations.next_observation_id == old(self).observations.next_observation_id,
            final(self).observations.observations@ == old(self).observations.observations@.remove(*id),
            match r {
                None => {
                    &&& !old(self).observations.observations@.contains_key(*id)
                    &&& final(self).observations.handles@ == old(self).observations.handles@
                    &&& final(self).targets == old(self).targets
                },
                Some((branches, sequence)) => {
                    let state = old(self).observations.observations@[*id];
                    &&& old(self).observations.observations@.contains_key(*id)
                    &&& branches == state.branches
                    &&& sequence == (if state.next_sequence == u64::MAX {
                        u64::MAX
                    } else {
                        (state.next_sequence + 1) as u64
                    })
                    &&& final(self).observations.handles@ == old(self).observations.handles@.remove_keys(
                        branches@.to_set(),
                    )
                    &&& final(self).targets.declared() == undeclared(
                        old(self).targets.declared(),
                        branches@,
                    )
                    &&& final(self).targets.active() == undeclared(old(self).targets.active(), branches@)
                },
            },
    {
        match self.observations.withdraw(id) {
            None => None,
            Some((branches, sequence)) => {
                self.release_targets(&branches);
                Some((branches, sequence))
            },
        }
    }

    /// Forgets all that some branches declare, and all of it that is live.
    fn release_targets(&mut self, branches: &Vec<HandleId>)
        requires
            old(self).targets.wf(),
        ensures
            final(self).targets.wf(),
            *final(self) == (CoreState { targets: final(self).targets, ..*old(self) }),
            final(self).targets.declared() == undeclared(old(self).targets.declared(), branches@),
            final(self).targets.active() == undeclared(old(self).targets.active(), branches@),
    {
        let ghost declared = self.targets.declared();
        let ghost active = self.targets.active();
        let ghost q = branches@;
        proof {
            assert(undeclared(declared, q.take(0)) =~= declared);
            assert(undeclared(active, q.take(0)) =~= active);
        }
        let mut i: usize = 0;
        while i < branches.len()
            invariant
                i <= q.len(),
                q == branches@,
                self.targets.wf(),
                *self == (CoreState { targets: self.targets, ..*old(self) }),
                self.targets.declared() == undeclared(declared, q.take(i as int)),
                self.targets.active() == undeclared(active, q.take(i as int)),
            decreases q.len() - i,
        {
            let branch = branches[i];
            proof {
                assert(q.take(i + 1) =~= q.take(i as int).push(branch));
                lemma_push_contains(q.take(i as int), branch);
            }
            let none: Vec<ActiveRequestTarget> = Vec::new();
            self.targets.reconcile_resolution(&branch, &none, None);
            proof {
                assert(counted(none@) =~= Map::<ActiveRequestTarget, usize>::empty());
                assert(self.targets.declared() =~= undeclared(declared, q.take(i + 1)));
                assert(self.targets.active() =~= undeclared(active, q.take(i + 1)));
            }
            i = i + 1;
        }
        assert(q.take(i as int) =~= q);
    }

    /// Goes one step further in an opening. Where the step refuses it, all that its
    /// branches have declared goes too.
    pub fn open_observation(&mut self, opening: Opening, event: OpeningEvent) -> (r: (Opening, OpeningAction))
        requires
            old(self).targets.wf(),
            in_step(old(self).observations, opening),
            answers(opening, event),
        ensures
            final(self).targets.wf(),
            in_step(final(self).observations, r.0),
            opening_step(old(self).observations, opening, event, final(self).observations, r.0, r.1),
            *final(self) == (CoreState {
                targets: final(self).targets,
                observations: final(self).observations,
                ..*old(self)
            }),
            match r.1 {
                OpeningAction::Finish(ObservationOpen::Refused { branches, .. }) => {
                    &&& final(self).targets.declared() == undeclared(
                        old(self).targets.declared(),
                        branches@,
                    )
                    &&& final(self).targets.active() == undeclared(old(self).targets.active(), branches@)
                },
                _ => final(self).targets == old(self).targets,
            },
    {
        let (next, action) = self.observations.open_observation(opening, event);
        if let OpeningAction::Finish(ObservationOpen::Refused { branches, .. }) = &action {
            self.release_targets(branches);
        }
        (next, action)
    }

    /// The census of what live observations own. What the resolver and the
    /// history own is handed in.
    pub fn observation_ownership_census(
        &self,
        histories: usize,
        history_handles: usize,
        resolver_nodes: usize,
        demand_atoms: usize,
        planned_sessions: usize,
    ) -> (r: CoreObservationOwnershipCensus)
        requires
            awaiting_over(listing_of(self.requests@.pending.dom()), self.requests@.pending) <= usize::MAX,
        ensures
            r.handles == self.observations.handles@.len(),
            r.histories == histories,
            r.history_handles == history_handles,
            r.resolver_nodes == resolver_nodes,
            r.demand_atoms == demand_atoms,
            r.planned_sessions == planned_sessions,
            r.pending_execution_owner_keys == self.requests@.pending.len(),
            r.pending_execution_owners == awaiting_over(
                listing_of(self.requests@.pending.dom()),
                self.requests@.pending,
            ),
            r.active_execution_owners == self.requests@.active.len(),
            r.live_wire_owners == self.requests@.live.len(),
    {
        let counts = self.requests.counts();
        CoreObservationOwnershipCensus {
            handles: self.observations.handles.len(),
            histories,
            history_handles,
            resolver_nodes,
            demand_atoms,
            planned_sessions,
            pending_execution_owner_keys: counts.awaiting_handoff,
            pending_execution_owners: self.requests.awaiting_total(),
            active_execution_owners: counts.awaiting_stored_events,
            live_wire_owners: counts.live,
        }
    }

    /// Compares every owner's indexes with what they mirror, and names the first
    /// that disagrees.
    pub fn assert_owner_consistency(&self) -> (r: Result<(), OwnerFault>)
        requires
            self.targets.all_countable(),
        ensures
            match r {
                Ok(()) => self.targets.wf() && self.requests.replacements_mirrored()
                    && self.requests.attempts_mirrored() && self.pending.consistent(),
                Err(OwnerFault::Targets(f)) => !self.targets.wf() && self.targets.has_fault(f),
                Err(OwnerFault::Requests(f)) => self.targets.wf() && match f {
                    RequestFault::Replacement(m) => !self.requests.replacements_mirrored()
                        && self.requests.replacement_fault(m),
                    RequestFault::Attempt(a) => self.requests.replacements_mirrored()
                        && !self.requests.attempts_mirrored() && self.requests.attempt_fault(a),
                },
                Err(OwnerFault::Writes(f)) => self.targets.wf() && self.requests.replacements_mirrored()
                    && self.requests.attempts_mirrored() && !self.pending.consistent()
                    && self.pending.has_fault(f),
            },
    {
        match self.targets.assert_consistent() {
            Err(fault) => {
                return Err(OwnerFault::Targets(fault));
            },
            Ok(()) => {},
        }
        match self.requests.assert_consistent() {
            Err(fault) => {
                return Err(OwnerFault::Requests(fault));
            },
            Ok(()) => {},
        }
        match self.pending.assert_consistent() {
            Err(fault) => Err(OwnerFault::Writes(fault)),
            Ok(()) => Ok(()),
        }
    }
}

/// After every live target has been derived anew, each branch of the list is live
/// to the full extent of its scopes, and no other branch is live at all.
pub proof fn rebuilt_activations_are_exact(
    observations: Observations,
    declared: Map<Pair<HandleId, ActiveRequestTarget>, usize>,
    q: Seq<HandleId>,
    id: HandleId,
)
    requires
        q.no_duplicates(),
    ensures
        row_of(activated(observations, declared, q), id) == (if q.contains(id) {
            activation(id, row_of(declared, id), scopes_of(observations, id))
        } else {
            Map::<LiveTarget, usize>::empty()
        }),
    decreases q.len(),
{
    let all = activated(observations, declared, q);
    if q.len() == 0 {
        assert(row_of(all, id) =~= Map::<LiveTarget, usize>::empty());
    } else {
        let before = q.drop_last();
        rebuilt_activations_are_exact(observations, declared, before, id);
        assert(q =~= before.push(q.last()));
        lemma_push_contains(before, q.last());
        let a = activation(q.last(), row_of(declared, q.last()), scopes_of(observations, q.last()));
        if id == q.last() {
            assert(row_of(all, id) =~= a);
        } else {
            assert(row_of(all, id) =~= row_of(activated(observations, declared, before), id));
        }
    }
}

/// A refused opening takes back every target that its branches have declared, and
/// every one that is live: what is declared, and what is live, is what it was
/// before the opening, whatever the branches declared in between.
pub proof fn refused_opening_takes_its_targets_back<C>(
    before: Map<Pair<HandleId, C>, usize>,
    between: Map<Pair<HandleId, C>, usize>,
    branches: Seq<HandleId>,
)
    requires
        forall|e: Pair<HandleId, C>| #[trigger] before.contains_key(e) ==> !branches.contains(e.0),
        forall|e: Pair<HandleId, C>|
            !branches.contains(e.0) ==> (#[trigger] between.contains_key(e) <==> before.contains_key(e)),
        forall|e: Pair<HandleId, C>| #[trigger] before.contains_key(e) ==> between[e] == before[e],
    ensures
        undeclared(between, branches) == before,
{
    assert(undeclared(between, branches) =~= before);
}

/// A branch asks its relays in exactly those scopes for which that was decided, and a
/// branch that is not on the books asks nowhere.
pub proof fn branch_asks_where_it_was_decided(observations: Observations, id: HandleId, s: u64)
    ensures
        scopes_of(observations, id).contains(s) <==> observations.handles@.contains_key(id) && s
            < observations.handles@[id].acquisition.scopes@.len()
            && observations.handles@[id].acquisition.scopes@[s as int] == ScopeAcquisition::Live,
{
}

/// A branch counts as declaring if and only if it declares a target.
pub proof fn declaring_branch_has_a_target(
    declared: Map<Pair<HandleId, ActiveRequestTarget>, usize>,
    id: HandleId,
)
    ensures
        declaring(declared).contains(id) <==> exists|t: ActiveRequestTarget| #[trigger]
            declared.contains_key(Pair(id, t)),
{
    if forall|t: ActiveRequestTarget| !(#[trigger] declared.contains_key(Pair(id, t))) {
        assert(row_of(declared, id) =~= Map::<ActiveRequestTarget, usize>::empty());
    }
    if row_of(declared, id) == Map::<ActiveRequestTarget, usize>::empty() {
        assert forall|t: ActiveRequestTarget| !(#[trigger] declared.contains_key(Pair(id, t))) by {
            assert(row_of(declared, id).contains_key(t) == declared.contains_key(Pair(id, t)));
        }
    }
}

/// An end of a request is news for exactly the observations that own a branch which is
/// live for one of its demands.
pub proof fn news_reaches_the_owning_observations(core: CoreState, demands: Set<DemandKey>, o: ObservationId)
    ensures
        core.observers_of(demands).contains(o) <==> exists|d: DemandKey, t: RequestTarget|
            demands.contains(d) && #[trigger] core.targets.live().contains_key(Pair(d, t))
                && core.observations.handles@.contains_key(t.handle)
                && core.observations.handles@[t.handle].observation == o,
{
    if core.observers_of(demands).contains(o) {
        let t = choose|t: RequestTarget| #[trigger]
            core.targets.targets_of(demands).contains(t) && core.observations.handles@.contains_key(t.handle)
                && core.observations.handles@[t.handle].observation == o;
        demands_reach_their_live_targets(core.targets, demands, t);
        let d = choose|d: DemandKey| #[trigger]
            core.targets.live().contains_key(Pair(d, t)) && demands.contains(d);
        assert(core.targets.live().contains_key(Pair(d, t)));
    }
    if exists|d: DemandKey, t: RequestTarget|
        demands.contains(d) && #[trigger] core.targets.live().contains_key(Pair(d, t))
            && core.observations.handles@.contains_key(t.handle)
            && core.observations.handles@[t.handle].observation == o {
        let (d, t) = choose|d: DemandKey, t: RequestTarget|
            demands.contains(d) && #[trigger] core.targets.live().contains_key(Pair(d, t))
                && core.observations.handles@.contains_key(t.handle)
                && core.observations.handles@[t.handle].observation == o;
        demands_reach_their_live_targets(core.targets, demands, t);
        assert(core.targets.targets_of(demands).contains(t));
    }
}

} // verus!
