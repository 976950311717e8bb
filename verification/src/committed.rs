//! What a committed change of the store asks for.

use vstd::prelude::*;

use crate::ids::{EventId, HandleId, ObservationId};
use crate::key::{
    is_listing, lemma_listing_exists, lemma_listing_members, lemma_listing_of, listing_of,
};
use crate::matching::CommittedRowChanges;
use crate::observation_registry::Observations;
use crate::rows::SignedEvent;
use crate::sorted::{SortedMap, SortedSet};

verus! {

/// One thing to do after a change is committed.
#[derive(Clone, Debug, PartialEq, Eq)]
pub enum CommitStep {
    /// Answer nothing from these events any more: the change removes them.
    Invalidate(Vec<EventId>),
    /// Declare anew what a branch asks for.
    Reconcile(HandleId),
    /// Compute the plan anew, which reads every observation and history anew.
    Recompile,
    RefreshAllObservations,
    RefreshAllHistories,
    /// Apply the change to one observation, or read it anew where that cannot be
    /// done.
    ApplyToObservation(ObservationId),
    /// Apply the change to one history, or read it anew where that cannot be
    /// done.
    ApplyToHistory(u64),
}

/// What a step says.
pub enum CommitStepView {
    Invalidate(Seq<EventId>),
    Reconcile(HandleId),
    Recompile,
    RefreshAllObservations,
    RefreshAllHistories,
    ApplyToObservation(ObservationId),
    ApplyToHistory(u64),
}

impl View for CommitStep {
    type V = CommitStepView;

    open spec fn view(&self) -> CommitStepView {
        match self {
            CommitStep::Invalidate(ids) => CommitStepView::Invalidate(ids@),
            CommitStep::Reconcile(h) => CommitStepView::Reconcile(*h),
            CommitStep::Recompile => CommitStepView::Recompile,
            CommitStep::RefreshAllObservations => CommitStepView::RefreshAllObservations,
            CommitStep::RefreshAllHistories => CommitStepView::RefreshAllHistories,
            CommitStep::ApplyToObservation(o) => CommitStepView::ApplyToObservation(*o),
            CommitStep::ApplyToHistory(s) => CommitStepView::ApplyToHistory(*s),
        }
    }
}

/// What a list of steps says.
pub open spec fn steps_text(q: Seq<CommitStep>) -> Seq<CommitStepView> {
    Seq::new(q.len(), |i: int| q[i]@)
}

/// The ids of the events that a change removes, in its order.
pub open spec fn removed_ids(removed: Seq<SignedEvent>) -> Seq<EventId> {
    removed.map_values(|e: SignedEvent| e.id)
}

/// The histories of a list of branches.
pub open spec fn histories_of(histories: Map<HandleId, u64>, branches: Seq<HandleId>) -> Set<u64> {
    Set::new(
        |s: u64|
            exists|i: int|
                0 <= i < branches.len() && histories.contains_key(#[trigger] branches[i])
                    && histories[branches[i]] == s,
    )
}

/// What is to be done, in order. The events that a change removes are invalidated
/// before anything else. A change of the demand makes the branches that it touches
/// declare anew and the plan be computed anew; that reads everything anew, so that
/// nothing is left to apply. Without it, either everything is read anew, or the
/// change is applied to what it touches and nothing else.
pub open spec fn commit_steps(
    registry: Observations,
    histories: Map<HandleId, u64>,
    removed: Seq<EventId>,
    affected: Seq<HandleId>,
    demand_changed: bool,
    force_recompile: bool,
    force_broad_refresh: bool,
) -> Seq<CommitStepView> {
    (if removed.len() > 0 {
        seq![CommitStepView::Invalidate(removed)]
    } else {
        Seq::empty()
    }) + projection_steps(
        registry,
        histories,
        affected,
        demand_changed,
        force_recompile,
        force_broad_refresh,
    )
}

/// What is to be done once removed events are invalidated.
pub open spec fn projection_steps(
    registry: Observations,
    histories: Map<HandleId, u64>,
    affected: Seq<HandleId>,
    demand_changed: bool,
    force_recompile: bool,
    force_broad_refresh: bool,
) -> Seq<CommitStepView> {
    if demand_changed {
        affected.map_values(|h: HandleId| CommitStepView::Reconcile(h)).push(CommitStepView::Recompile)
    } else if force_recompile {
        seq![CommitStepView::Recompile]
    } else if force_broad_refresh {
        seq![CommitStepView::RefreshAllObservations, CommitStepView::RefreshAllHistories]
    } else {
        listing_of(registry.owners_of_branches(affected)).map_values(
            |o: ObservationId| CommitStepView::ApplyToObservation(o),
        ) + listing_of(histories_of(histories, affected)).map_values(
            |s: u64| CommitStepView::ApplyToHistory(s),
        )
    }
}

/// The histories of a list of branches, each once and in rising order.
pub fn histories_of_branches(histories: &SortedMap<HandleId, u64>, branches: &Vec<HandleId>) -> (q: Vec<u64>)
    ensures
        is_listing(q@, histories_of(histories@, branches@)),
{
    let mut ids: SortedSet<u64> = SortedSet::new();
    let mut i: usize = 0;
    while i < branches.len()
        invariant
            i <= branches@.len(),
            forall|s: u64| #[trigger]
                ids@.contains(s) <==> exists|j: int|
                    0 <= j < i && histories@.contains_key(#[trigger] branches@[j])
                        && histories@[branches@[j]] == s,
        decreases branches@.len() - i,
    {
        let ghost before = ids@;
        if let Some(s) = histories.get(&branches[i]) {
            ids.insert(*s);
        }
        assert forall|s: u64| #[trigger] ids@.contains(s) <==> exists|j: int|
            0 <= j < i + 1 && histories@.contains_key(#[trigger] branches@[j]) && histories@[branches@[j]]
                == s by {
            if before.contains(s) {
                let j = choose|j: int|
                    0 <= j < i && histories@.contains_key(#[trigger] branches@[j]) && histories@[branches@[j]]
                        == s;
                assert(histories@.contains_key(branches@[j]));
            } else if ids@.contains(s) {
                assert(histories@.contains_key(branches@[i as int]));
            }
        }
        i = i + 1;
    }
    assert(ids@ =~= histories_of(histories@, branches@));
    ids.list()
}

/// The rows that a change takes away, which no committed observation may be
/// answered from any more.
pub fn invalidated_events(changes: &CommittedRowChanges) -> (r: Vec<EventId>)
    ensures
        r@ == removed_ids(changes.removed@),
{
    let mut r: Vec<EventId> = Vec::new();
    let mut i: usize = 0;
    while i < changes.removed.len()
        invariant
            i <= changes.removed@.len(),
            r@.len() == i,
            forall|j: int| 0 <= j < i ==> (#[trigger] r@[j]) == changes.removed@[j].id,
        decreases changes.removed@.len() - i,
    {
        r.push(changes.removed[i].id);
        i = i + 1;
    }
    assert(r@ =~= removed_ids(changes.removed@));
    r
}

impl Observations {
    /// What is to be done once removed events are invalidated.
    fn steps_of_projection(
        &self,
        histories: &SortedMap<HandleId, u64>,
        affected: &Vec<HandleId>,
        demand_changed: bool,
        force_recompile: bool,
        force_broad_refresh: bool,
    ) -> (steps: Vec<CommitStep>)
        ensures
            steps_text(steps@) == projection_steps(
                *self,
                histories@,
                affected@,
                demand_changed,
                force_recompile,
                force_broad_refresh,
            ),
    {
        let mut steps: Vec<CommitStep> = Vec::new();
        if demand_changed {
            let mut i: usize = 0;
            while i < affected.len()
                invariant
                    i <= affected@.len(),
                    steps@.len() == i,
                    forall|j: int|
                        0 <= j < i ==> (#[trigger] steps@[j])@ == CommitStepView::Reconcile(affected@[j]),
                decreases affected@.len() - i,
            {
                steps.push(CommitStep::Reconcile(affected[i]));
                i = i + 1;
            }
            steps.push(CommitStep::Recompile);
            assert(steps_text(steps@) =~= affected@.map_values(
                |h: HandleId| CommitStepView::Reconcile(h),
            ).push(CommitStepView::Recompile));
            return steps;
        }
        if force_recompile {
            steps.push(CommitStep::Recompile);
            assert(steps_text(steps@) =~= seq![CommitStepView::Recompile]);
            return steps;
        }
        if force_broad_refresh {
            steps.push(CommitStep::RefreshAllObservations);
            steps.push(CommitStep::RefreshAllHistories);
            assert(steps_text(steps@) =~= seq![
                CommitStepView::RefreshAllObservations,
                CommitStepView::RefreshAllHistories,
            ]);
            return steps;
        }
        let owners = self.observations_of_branches(affected);
        let sessions = histories_of_branches(histories, affected);
        proof {
            lemma_listing_of(owners@, self.owners_of_branches(affected@));
            lemma_listing_of(sessions@, histories_of(histories@, affected@));
        }
        let mut i: usize = 0;
        while i < owners.len()
            invariant
                i <= owners@.len(),
                steps@.len() == i,
                forall|j: int|
                    0 <= j < i ==> (#[trigger] steps@[j])@ == CommitStepView::ApplyToObservation(owners@[j]),
            decreases owners@.len() - i,
        {
            steps.push(CommitStep::ApplyToObservation(owners[i]));
            i = i + 1;
        }
        let ghost first = steps@;
        let mut k: usize = 0;
        while k < sessions.len()
            invariant
                k <= sessions@.len(),
                steps@.len() == first.len() + k,
                forall|j: int| 0 <= j < first.len() ==> (#[trigger] steps@[j]) == first[j],
                forall|j: int|
                    first.len() <= j < first.len() + k ==> (#[trigger] steps@[j])@
                        == CommitStepView::ApplyToHistory(sessions@[j - first.len()]),
            decreases sessions@.len() - k,
        {
            steps.push(CommitStep::ApplyToHistory(sessions[k]));
            k = k + 1;
        }
        proof {
            let a = owners@.map_values(|o: ObservationId| CommitStepView::ApplyToObservation(o));
            let b = sessions@.map_values(|s: u64| CommitStepView::ApplyToHistory(s));
            assert(steps_text(steps@) =~= a + b);
        }
        steps
    }

    /// Decides what a committed change asks for. `affected` are the branches that
    /// it touches, and `histories` says which branches belong to a history.
    pub fn apply_committed_mutation_with(
        &self,
        histories: &SortedMap<HandleId, u64>,
        changes: &CommittedRowChanges,
        affected: &Vec<HandleId>,
        demand_changed: bool,
        force_recompile: bool,
        force_broad_refresh: bool,
    ) -> (steps: Vec<CommitStep>)
        ensures
            steps_text(steps@) == commit_steps(
                *self,
                histories@,
                removed_ids(changes.removed@),
                affected@,
                demand_changed,
                force_recompile,
                force_broad_refresh,
            ),
    {
        let invalidated = invalidated_events(changes);
        let ghost removed = invalidated@;
        let mut rest = self.steps_of_projection(
            histories,
            affected,
            demand_changed,
            force_recompile,
            force_broad_refresh,
        );
        let ghost tail = rest@;
        let mut steps: Vec<CommitStep> = Vec::new();
        if invalidated.len() > 0 {
            steps.push(CommitStep::Invalidate(invalidated));
        }
        let ghost first = steps@;
        steps.append(&mut rest);
        proof {
            assert(steps@ =~= first + tail);
            if removed.len() > 0 {
                assert(steps_text(first) =~= seq![CommitStepView::Invalidate(removed)]);
            } else {
                assert(steps_text(first) =~= Seq::<CommitStepView>::empty());
            }
            assert(steps_text(steps@) =~= steps_text(first) + steps_text(tail));
        }
        steps
    }

    /// The same with no evidence but the change itself.
    pub fn apply_committed_mutation(
        &self,
        histories: &SortedMap<HandleId, u64>,
        changes: &CommittedRowChanges,
        affected: &Vec<HandleId>,
        demand_changed: bool,
    ) -> (steps: Vec<CommitStep>)
        ensures
            steps_text(steps@) == commit_steps(
                *self,
                histories@,
                removed_ids(changes.removed@),
                affected@,
                demand_changed,
                false,
                false,
            ),
    {
        self.apply_committed_mutation_with(histories, changes, affected, demand_changed, false, false)
    }

    /// The observations and the histories whose evidence has to be computed anew,
    /// because some of their branches ask for what has changed.
    pub fn evidence_targets(&self, histories: &SortedMap<HandleId, u64>, candidates: &Vec<HandleId>) -> (r: (
        Vec<ObservationId>,
        Vec<u64>,
    ))
        ensures
            is_listing(r.0@, self.owners_of_branches(candidates@)),
            is_listing(
                r.1@,
                Set::new(
                    |s: u64|
                        exists|i: int|
                            0 <= i < candidates@.len() && !self.handles@.contains_key(
                                #[trigger] candidates@[i],
                            ) && histories@.contains_key(candidates@[i]) && histories@[candidates@[i]] == s,
                ),
            ),
    {
        let owners = self.observations_of_branches(candidates);
        let mut ids: SortedSet<u64> = SortedSet::new();
        let mut i: usize = 0;
        while i < candidates.len()
            invariant
                i <= candidates@.len(),
                forall|s: u64| #[trigger]
                    ids@.contains(s) <==> exists|j: int|
                        0 <= j < i && !self.handles@.contains_key(#[trigger] candidates@[j])
                            && histories@.contains_key(candidates@[j]) && histories@[candidates@[j]] == s,
            decreases candidates@.len() - i,
        {
            let ghost before = ids@;
            if !self.handles.contains(&candidates[i]) {
                if let Some(s) = histories.get(&candidates[i]) {
                    ids.insert(*s);
                }
            }
            assert forall|s: u64| #[trigger] ids@.contains(s) <==> exists|j: int|
                0 <= j < i + 1 && !self.handles@.contains_key(#[trigger] candidates@[j])
                    && histories@.contains_key(candidates@[j]) && histories@[candidates@[j]] == s by {
                if before.contains(s) {
                    let j = choose|j: int|
                        0 <= j < i && !self.handles@.contains_key(#[trigger] candidates@[j])
                            && histories@.contains_key(candidates@[j]) && histories@[candidates@[j]] == s;
                    assert(!self.handles@.contains_key(candidates@[j]));
                } else if ids@.contains(s) {
                    assert(!self.handles@.contains_key(candidates@[i as int]));
                }
            }
            i = i + 1;
        }
        assert(ids@ =~= Set::new(
            |s: u64|
                exists|i: int|
                    0 <= i < candidates@.len() && !self.handles@.contains_key(#[trigger] candidates@[i])
                        && histories@.contains_key(candidates@[i]) && histories@[candidates@[i]] == s,
        ));
        (owners, ids.list())
    }
}

/// The events that a change removes are invalidated first, and once, whatever else
/// the change asks for. A change that removes nothing invalidates nothing.
pub proof fn removed_events_are_invalidated_first(
    registry: Observations,
    histories: Map<HandleId, u64>,
    removed: Seq<EventId>,
    affected: Seq<HandleId>,
    demand_changed: bool,
    force_recompile: bool,
    force_broad_refresh: bool,
)
    ensures
        ({
            let steps = commit_steps(
                registry,
                histories,
                removed,
                affected,
                demand_changed,
                force_recompile,
                force_broad_refresh,
            );
            &&& removed.len() > 0 ==> steps.len() > 0 && steps[0] == CommitStepView::Invalidate(removed)
            &&& forall|i: int|
                0 <= i < steps.len() && (#[trigger] steps[i]) is Invalidate ==> i == 0 && removed.len() > 0
        }),
{
}

/// A change that leaves the demand alone touches only the observations that own
/// one of its branches, each of them once.
pub proof fn stable_change_touches_its_owners_once(
    registry: Observations,
    histories: Map<HandleId, u64>,
    removed: Seq<EventId>,
    affected: Seq<HandleId>,
    owners: Seq<ObservationId>,
    id: ObservationId,
)
    requires
        is_listing(owners, registry.owners_of_branches(affected)),
    ensures
        ({
            let steps = commit_steps(registry, histories, removed, affected, false, false, false);
            &&& steps.contains(CommitStepView::ApplyToObservation(id))
                <==> registry.owners_of_branches(affected).contains(id)
            &&& forall|i: int, j: int|
                0 <= i < j < steps.len() && (#[trigger] steps[i]) == CommitStepView::ApplyToObservation(id)
                    ==> (#[trigger] steps[j]) != CommitStepView::ApplyToObservation(id)
            &&& !steps.contains(CommitStepView::Recompile)
        }),
{
    lemma_listing_of(owners, registry.owners_of_branches(affected));
    lemma_listing_members(owners, registry.owners_of_branches(affected));
    let a = owners.map_values(|o: ObservationId| CommitStepView::ApplyToObservation(o));
    let steps = commit_steps(registry, histories, removed, affected, false, false, false);
    let n: int = if removed.len() > 0 {
        1
    } else {
        0
    };
    assert forall|i: int| 0 <= i < a.len() implies (#[trigger] steps[n + i]) == a[i] by {}
    if registry.owners_of_branches(affected).contains(id) {
        assert(owners.contains(id));
        let i = choose|i: int| 0 <= i < owners.len() && owners[i] == id;
        assert(steps[n + i] == CommitStepView::ApplyToObservation(id));
    }
    if steps.contains(CommitStepView::ApplyToObservation(id)) {
        let i = choose|i: int| 0 <= i < steps.len() && steps[i] == CommitStepView::ApplyToObservation(id);
        assert(n <= i < n + a.len());
        assert(owners.contains(owners[i - n]));
    }
    assert forall|i: int, j: int|
        0 <= i < j < steps.len() && (#[trigger] steps[i]) == CommitStepView::ApplyToObservation(id) implies (
    #[trigger] steps[j]) != CommitStepView::ApplyToObservation(id) by {
        if steps[j] == CommitStepView::ApplyToObservation(id) {
            assert(n <= i < j < n + a.len());
            assert(owners[i - n] == owners[j - n]);
        }
    }
}

/// A change of the demand is never applied row by row: the plan is computed anew
/// and everything is read anew.
pub proof fn demand_change_reads_everything_anew(
    registry: Observations,
    histories: Map<HandleId, u64>,
    removed: Seq<EventId>,
    affected: Seq<HandleId>,
    force_recompile: bool,
    force_broad_refresh: bool,
)
    ensures
        ({
            let steps = commit_steps(
                registry,
                histories,
                removed,
                affected,
                true,
                force_recompile,
                force_broad_refresh,
            );
            &&& steps.len() > 0
            &&& steps.last() == CommitStepView::Recompile
            &&& forall|i: int|
                0 <= i < steps.len() ==> !((#[trigger] steps[i]) is ApplyToObservation) && !(
                steps[i] is ApplyToHistory)
        }),
{
}

/// What a change that leaves the demand alone, and that nothing forces, asks for:
/// that every history and every observation that owns a branch which the change
/// touches takes the change on, each once, the observations before the histories,
/// and nothing else besides the invalidation of what is removed.
pub proof fn stable_change_reaches_every_owner(
    registry: Observations,
    histories: Map<HandleId, u64>,
    removed: Seq<EventId>,
    affected: Seq<HandleId>,
)
    ensures
        ({
            let steps = commit_steps(registry, histories, removed, affected, false, false, false);
            &&& forall|s: u64| #[trigger]
                steps.contains(CommitStepView::ApplyToHistory(s)) <==> exists|i: int|
                    0 <= i < affected.len() && histories.contains_key(#[trigger] affected[i])
                        && histories[affected[i]] == s
            &&& forall|o: ObservationId| #[trigger]
                steps.contains(CommitStepView::ApplyToObservation(o)) <==> exists|i: int|
                    0 <= i < affected.len() && registry.handles@.contains_key(#[trigger] affected[i])
                        && registry.handles@[affected[i]].observation == o
            &&& steps.no_duplicates()
            &&& forall|i: int, j: int|
                0 <= i < j < steps.len() && (#[trigger] steps[j]) is ApplyToObservation ==> !((
                #[trigger] steps[i]) is ApplyToHistory)
            &&& forall|i: int|
                0 <= i < steps.len() ==> (#[trigger] steps[i]) is ApplyToObservation
                    || steps[i] is ApplyToHistory || (i == 0 && steps[i] == CommitStepView::Invalidate(
                    removed,
                ))
        }),
{
    let owned = Set::new(
        |o: ObservationId|
            exists|i: int|
                0 <= i < affected.len() && registry.handles@.contains_key(#[trigger] affected[i])
                    && registry.handles@[affected[i]].observation == o,
    );
    let kept = Set::new(
        |s: u64|
            exists|i: int|
                0 <= i < affected.len() && histories.contains_key(#[trigger] affected[i])
                    && histories[affected[i]] == s,
    );
    assert(registry.owners_of_branches(affected) =~= owned);
    assert(histories_of(histories, affected) =~= kept);
    let all_owners = affected.map_values(|h: HandleId| registry.handles@[h].observation);
    let all_kept = affected.map_values(|h: HandleId| histories[h]);
    assert(owned.subset_of(all_owners.to_set())) by {
        assert forall|o: ObservationId| owned.contains(o) implies all_owners.to_set().contains(o) by {
            let i = choose|i: int|
                0 <= i < affected.len() && registry.handles@.contains_key(#[trigger] affected[i])
                    && registry.handles@[affected[i]].observation == o;
            assert(all_owners[i] == o);
        }
    }
    assert(kept.subset_of(all_kept.to_set())) by {
        assert forall|s: u64| kept.contains(s) implies all_kept.to_set().contains(s) by {
            let i = choose|i: int|
                0 <= i < affected.len() && histories.contains_key(#[trigger] affected[i])
                    && histories[affected[i]] == s;
            assert(all_kept[i] == s);
        }
    }
    vstd::seq_lib::seq_to_set_is_finite(all_owners);
    vstd::seq_lib::seq_to_set_is_finite(all_kept);
    vstd::set_lib::lemma_set_subset_finite(all_owners.to_set(), owned);
    vstd::set_lib::lemma_set_subset_finite(all_kept.to_set(), kept);
    lemma_listing_exists(owned);
    lemma_listing_exists(kept);
    let p = listing_of(owned);
    let q = listing_of(kept);
    lemma_listing_members(p, owned);
    lemma_listing_members(q, kept);
    let steps = commit_steps(registry, histories, removed, affected, false, false, false);
    let n: int = if removed.len() > 0 {
        1
    } else {
        0
    };
    assert(steps.len() == n + p.len() + q.len());
    assert forall|i: int| 0 <= i < p.len() implies #[trigger] steps[n + i]
        == CommitStepView::ApplyToObservation(p[i]) by {}
    assert forall|i: int| 0 <= i < q.len() implies #[trigger] steps[n + p.len() + i]
        == CommitStepView::ApplyToHistory(q[i]) by {}
    assert forall|i: int| 0 <= i < steps.len() implies #[trigger] steps[i] == (if i < n {
        CommitStepView::Invalidate(removed)
    } else if i < n + p.len() {
        CommitStepView::ApplyToObservation(p[i - n])
    } else {
        CommitStepView::ApplyToHistory(q[i - n - p.len()])
    }) by {
        if n <= i < n + p.len() {
            assert(steps[n + (i - n)] == CommitStepView::ApplyToObservation(p[i - n]));
        } else if i >= n + p.len() {
            let k = i - n - p.len();
            assert(steps[n + p.len() + k] == CommitStepView::ApplyToHistory(q[k]));
        }
    }
    assert forall|s: u64| #[trigger] steps.contains(CommitStepView::ApplyToHistory(s)) <==> kept.contains(
        s,
    ) by {
        if steps.contains(CommitStepView::ApplyToHistory(s)) {
            let i = choose|i: int| 0 <= i < steps.len() && steps[i] == CommitStepView::ApplyToHistory(s);
            assert(q.contains(q[i - n - p.len()]));
        }
        if kept.contains(s) {
            assert(q.contains(s));
            let i = choose|i: int| 0 <= i < q.len() && q[i] == s;
            assert(steps[n + p.len() + i] == CommitStepView::ApplyToHistory(s));
        }
    }
    assert forall|o: ObservationId| #[trigger]
        steps.contains(CommitStepView::ApplyToObservation(o)) <==> owned.contains(o) by {
        if steps.contains(CommitStepView::ApplyToObservation(o)) {
            let i = choose|i: int|
                0 <= i < steps.len() && steps[i] == CommitStepView::ApplyToObservation(o);
            assert(p.contains(p[i - n]));
        }
        if owned.contains(o) {
            assert(p.contains(o));
            let i = choose|i: int| 0 <= i < p.len() && p[i] == o;
            assert(steps[n + i] == CommitStepView::ApplyToObservation(o));
        }
    }
    assert forall|i: int, j: int| 0 <= i < steps.len() && 0 <= j < steps.len() && i != j implies steps[i]
        != steps[j] by {}
}

/// What a change of the demand asks for: that every branch which it touches, and no
/// other, declares anew, and that the plan is computed anew after that, once. A plan
/// that is forced is computed anew as well, and a forced refresh reads every
/// observation and every history anew; neither applies anything row by row.
pub proof fn wider_change_asks_for_everything_once(
    registry: Observations,
    histories: Map<HandleId, u64>,
    affected: Seq<HandleId>,
    force_recompile: bool,
    force_broad_refresh: bool,
)
    ensures
        ({
            let none = Seq::<EventId>::empty();
            let steps = commit_steps(
                registry,
                histories,
                none,
                affected,
                true,
                force_recompile,
                force_broad_refresh,
            );
            &&& steps.len() == affected.len() + 1
            &&& forall|i: int|
                0 <= i < affected.len() ==> #[trigger] steps[i] == CommitStepView::Reconcile(affected[i])
            &&& steps[affected.len() as int] == CommitStepView::Recompile
        }),
        ({
            let none = Seq::<EventId>::empty();
            let steps = commit_steps(
                registry,
                histories,
                none,
                affected,
                false,
                true,
                force_broad_refresh,
            );
            steps.len() == 1 && steps[0] == CommitStepView::Recompile
        }),
        ({
            let none = Seq::<EventId>::empty();
            let steps = commit_steps(registry, histories, none, affected, false, false, true);
            &&& steps.len() == 2
            &&& steps[0] == CommitStepView::RefreshAllObservations
            &&& steps[1] == CommitStepView::RefreshAllHistories
        }),
{
}

/// What a change removes does not alter what else it asks for: the steps of a change
/// that removes something are its invalidation and then the steps of the same change
/// that removes nothing.
pub proof fn removal_only_adds_its_invalidation(
    registry: Observations,
    histories: Map<HandleId, u64>,
    removed: Seq<SignedEvent>,
    affected: Seq<HandleId>,
    demand_changed: bool,
    force_recompile: bool,
    force_broad_refresh: bool,
)
    requires
        removed.len() > 0,
    ensures
        ({
            let with = commit_steps(
                registry,
                histories,
                removed_ids(removed),
                affected,
                demand_changed,
                force_recompile,
                force_broad_refresh,
            );
            let without = commit_steps(
                registry,
                histories,
                Seq::empty(),
                affected,
                demand_changed,
                force_recompile,
                force_broad_refresh,
            );
            &&& with.len() == without.len() + 1
            &&& with.skip(1) == without
            &&& with[0] matches CommitStepView::Invalidate(ids) && ids.len() == removed.len() && forall|i: int|
                0 <= i < removed.len() ==> #[trigger] ids[i] == removed[i].id
        }),
{
    let with = commit_steps(
        registry,
        histories,
        removed_ids(removed),
        affected,
        demand_changed,
        force_recompile,
        force_broad_refresh,
    );
    let without = commit_steps(
        registry,
        histories,
        Seq::empty(),
        affected,
        demand_changed,
        force_recompile,
        force_broad_refresh,
    );
    assert(with.skip(1) =~= without);
}

} // verus!
