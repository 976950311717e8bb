//! Every live observation and every branch below one.

use vstd::prelude::*;

use crate::evidence::{
    copy_evidence, evidence_view, same_evidence, AcquisitionEvidence, HandleAcquisition,
    ScopeAcquisition,
};
use crate::ids::{EventId, HandleId, ObservationId};
use crate::key::{is_listing, lemma_push_contains};
use crate::matching::{match_changes, seen_changes, CommittedRowChanges};
use crate::observations::{
    last_evidence_view, remembered, BranchState, DirectProjection, ObservationState, RootAtom, RowsSeed,
};
use crate::projection::{bodies_text, diff};
use crate::rows::{deltas_view, RememberedRows, Row};
use crate::sorted::{SortedMap, SortedSet};

verus! {

/// Every live observation and every branch below one.
pub struct Observations {
    pub observations: SortedMap<ObservationId, ObservationState>,
    pub handles: SortedMap<HandleId, BranchState>,
    pub next_observation_id: u64,
}

/// What a refresh of an observation's evidence has to do.
#[derive(Clone, Copy, Debug, PartialEq, Eq, Structural)]
pub enum EvidenceRefresh {
    /// The observation is gone.
    Nothing,
    /// A read failed before: the rows have to be read as well.
    FullRead,
    /// The evidence alone has to be computed.
    EvidenceOnly,
}

/// The wire scopes of a list of decisions: the places of those that are live.
pub open spec fn live_scopes(scopes: Seq<ScopeAcquisition>) -> Set<u64> {
    Set::new(|s: u64| s < scopes.len() && scopes[s as int] is Live)
}

impl Observations {
    pub fn new() -> (r: Self)
        ensures
            r.observations@ == Map::<ObservationId, ObservationState>::empty(),
            r.handles@ == Map::<HandleId, BranchState>::empty(),
            r.next_observation_id == 0,
    {
        Observations {
            observations: SortedMap::new(),
            handles: SortedMap::new(),
            next_observation_id: 0,
        }
    }

    /// The branch that a change could be applied to without a read: the only
    /// one of an observation without a limit of its own.
    pub open spec fn sole_branch(&self, id: ObservationId) -> Option<HandleId> {
        let state = self.observations@[id];
        if self.observations@.contains_key(id) && state.branches@.len() == 1
            && state.aggregate_result_limit is None {
            Some(state.branches@[0])
        } else {
            None
        }
    }

    pub fn direct_branch(&self, id: &ObservationId) -> (r: Option<HandleId>)
        ensures
            r == self.sole_branch(*id),
    {
        match self.observations.get(id) {
            None => None,
            Some(state) => if state.branches.len() == 1 && state.aggregate_result_limit.is_none() {
                Some(state.branches[0])
            } else {
                None
            },
        }
    }

    /// Whether a change can be applied to an observation without a read: one
    /// branch, one concrete filter and nothing below it, no pin, and a complete
    /// delivery before.
    pub open spec fn direct(&self, id: ObservationId, root_atoms: nat, subtree_atoms: nat) -> bool {
        let state = self.observations@[id];
        &&& self.sole_branch(id) is Some
        &&& root_atoms == 1
        &&& subtree_atoms == 1
        &&& self.handles@.contains_key(self.sole_branch(id)->0)
        &&& !self.handles@[self.sole_branch(id)->0].strict
        &&& state.last_evidence is Some
        &&& state.projection_complete
    }

    /// Whether nothing is left to deliver to: the observation is gone, or its
    /// only branch is.
    pub open spec fn nobody(&self, id: ObservationId, root_atoms: nat, subtree_atoms: nat) -> bool {
        !self.observations@.contains_key(id) || (self.sole_branch(id) is Some && root_atoms == 1
            && subtree_atoms == 1 && !self.handles@.contains_key(self.sole_branch(id)->0))
    }

    /// Delivers a committed change to one observation without a read, where
    /// that can be done. `root_atoms` and `subtree_atoms` are what the resolver
    /// gives for the observation's branch.
    pub fn try_apply_committed_row_changes(
        &mut self,
        id: &ObservationId,
        root_atoms: &Vec<RootAtom>,
        subtree_atoms: usize,
        changes: &CommittedRowChanges,
    ) -> (r: DirectProjection)
        ensures
            final(self).handles == old(self).handles,
            final(self).next_observation_id == old(self).next_observation_id,
            old(self).nobody(*id, root_atoms@.len(), subtree_atoms as nat) ==> r
                == DirectProjection::Applied(None) && *final(self) == *old(self),
            !old(self).nobody(*id, root_atoms@.len(), subtree_atoms as nat) && !old(self).direct(
                *id,
                root_atoms@.len(),
                subtree_atoms as nat,
            ) ==> r is NeedsFullRead && *final(self) == *old(self),
            old(self).direct(*id, root_atoms@.len(), subtree_atoms as nat) ==> {
                let state = old(self).observations@[*id];
                let next = final(self).observations@[*id];
                let limit = root_atoms@[0].filter.limit;
                let ch = seen_changes(*changes, root_atoms@[0].text@);
                if state.loses_from_full_window(limit, ch) {
                    &&& r is NeedsFullRead
                    &&& final(self).observations@ == old(self).observations@
                } else {
                    &&& final(self).observations@ == old(self).observations@.insert(*id, next)
                    &&& next == (ObservationState { last_rows: next.last_rows, ..state })
                    &&& next.last_rows@ == state.rows_after(limit, ch)
                    &&& r matches DirectProjection::Applied(out) && match out {
                        None => state.silent(limit, ch),
                        Some(seed) => {
                            &&& !state.silent(limit, ch)
                            &&& deltas_view(seed.deltas@) == state.deltas_after(limit, ch)
                            &&& Some(evidence_view(seed.evidence@)) == last_evidence_view(
                                state.last_evidence,
                            )
                        },
                    }
                }
            },
    {
        let (branches, limited, deliverable) = match self.observations.get(id) {
            None => {
                return DirectProjection::Applied(None);
            },
            Some(state) => (
                state.branches.len(),
                state.aggregate_result_limit.is_some(),
                state.last_evidence.is_some() && state.projection_complete,
            ),
        };
        if branches != 1 || limited {
            return DirectProjection::NeedsFullRead;
        }
        if root_atoms.len() != 1 || subtree_atoms != 1 {
            return DirectProjection::NeedsFullRead;
        }
        let branch = match self.direct_branch(id) {
            Some(branch) => branch,
            None => {
                return DirectProjection::NeedsFullRead;
            },
        };
        let strict = match self.handles.get(&branch) {
            None => {
                return DirectProjection::Applied(None);
            },
            Some(state) => state.strict,
        };
        if strict || !deliverable {
            return DirectProjection::NeedsFullRead;
        }
        let matched = match_changes(root_atoms[0].text.as_str(), changes);
        let limit = root_atoms[0].filter.limit;
        match self.observations.get_mut(id) {
            None => DirectProjection::NeedsFullRead,
            Some(state) => {
                let r = state.apply_direct(limit, &matched);
                proof {
                    let before = old(self).observations@;
                    if before[*id].loses_from_full_window(limit, matched@) {
                        assert(before.insert(*id, before[*id]) =~= before);
                    }
                }
                r
            },
        }
    }

    /// The observations of a list of branches.
    pub open spec fn owners_of_branches(&self, branches: Seq<HandleId>) -> Set<ObservationId> {
        Set::new(
            |o: ObservationId|
                exists|i: int|
                    0 <= i < branches.len() && self.handles@.contains_key(#[trigger] branches[i])
                        && self.handles@[branches[i]].observation == o,
        )
    }

    /// The observations that a change to some branches concerns, each once and
    /// in rising order.
    pub fn observations_of_branches(&self, branches: &Vec<HandleId>) -> (q: Vec<ObservationId>)
        ensures
            is_listing(q@, self.owners_of_branches(branches@)),
    {
        let mut ids: SortedSet<ObservationId> = SortedSet::new();
        let mut i: usize = 0;
        while i < branches.len()
            invariant
                i <= branches@.len(),
                forall|o: ObservationId| #[trigger]
                    ids@.contains(o) <==> exists|j: int|
                        0 <= j < i && self.handles@.contains_key(#[trigger] branches@[j])
                            && self.handles@[branches@[j]].observation == o,
            decreases branches@.len() - i,
        {
            let ghost prior = ids@;
            match self.handles.get(&branches[i]) {
                Some(state) => {
                    ids.insert(state.observation);
                },
                None => {},
            }
            assert forall|o: ObservationId| #[trigger] ids@.contains(o) <==> exists|j: int|
                0 <= j < i + 1 && self.handles@.contains_key(#[trigger] branches@[j])
                    && self.handles@[branches@[j]].observation == o by {
                if prior.contains(o) {
                    let j = choose|j: int|
                        0 <= j < i && self.handles@.contains_key(#[trigger] branches@[j])
                            && self.handles@[branches@[j]].observation == o;
                    assert(self.handles@.contains_key(branches@[j]));
                }
                if self.handles@.contains_key(branches@[i as int])
                    && self.handles@[branches@[i as int]].observation == o {
                    assert(ids@.contains(o));
                }
            }
            i = i + 1;
        }
        assert(ids@ =~= self.owners_of_branches(branches@));
        ids.list()
    }

    /// Delivers a full read to one observation.
    pub fn refresh_observation(
        &mut self,
        id: &ObservationId,
        current: SortedMap<EventId, Row>,
        evidence: Vec<AcquisitionEvidence>,
    ) -> (r: Option<RowsSeed>)
        ensures
            final(self).handles == old(self).handles,
            final(self).next_observation_id == old(self).next_observation_id,
            !old(self).observations@.contains_key(*id) ==> r is None && final(self).observations@ == old(
                self,
            ).observations@,
            old(self).observations@.contains_key(*id) ==> {
                let state = old(self).observations@[*id];
                let next = final(self).observations@[*id];
                let rows = remembered(bodies_text(current@));
                let same = rows == state.last_rows@ && last_evidence_view(state.last_evidence) == Some(
                    evidence_view(evidence@),
                );
                &&& final(self).observations@ == old(self).observations@.insert(*id, next)
                &&& next == (ObservationState {
                    projection_complete: true,
                    last_rows: next.last_rows,
                    last_evidence: next.last_evidence,
                    ..state
                })
                &&& next.last_rows@ == rows
                &&& last_evidence_view(next.last_evidence) == Some(evidence_view(evidence@))
                &&& match r {
                    None => same,
                    Some(seed) => {
                        &&& !same
                        &&& deltas_view(seed.deltas@) == diff(
                            state.last_rows@,
                            rows,
                            bodies_text(current@),
                        )
                        &&& evidence_view(seed.evidence@) == evidence_view(evidence@)
                    },
                }
            },
    {
        match self.observations.get_mut(id) {
            None => None,
            Some(state) => state.apply_observation_projection(current, evidence),
        }
    }

    /// A read failed: what was delivered may have missed something.
    pub fn refresh_failed(&mut self, id: &ObservationId)
        ensures
            final(self).handles == old(self).handles,
            final(self).next_observation_id == old(self).next_observation_id,
            final(self).observations@ == (if old(self).observations@.contains_key(*id) {
                old(self).observations@.insert(
                    *id,
                    (ObservationState {
                        projection_complete: false,
                        ..old(self).observations@[*id]
                    }),
                )
            } else {
                old(self).observations@
            }),
    {
        if let Some(state) = self.observations.get_mut(id) {
            state.projection_complete = false;
        }
    }

    pub fn evidence_refresh(&self, id: &ObservationId) -> (r: EvidenceRefresh)
        ensures
            r == (if !self.observations@.contains_key(*id) {
                EvidenceRefresh::Nothing
            } else if !self.observations@[*id].projection_complete {
                EvidenceRefresh::FullRead
            } else {
                EvidenceRefresh::EvidenceOnly
            }),
    {
        match self.observations.get(id) {
            None => EvidenceRefresh::Nothing,
            Some(state) => if state.projection_complete {
                EvidenceRefresh::EvidenceOnly
            } else {
                EvidenceRefresh::FullRead
            },
        }
    }

    /// Delivers new evidence alone, where it is new. The rows stay.
    pub fn refresh_observation_evidence(
        &mut self,
        id: &ObservationId,
        evidence: Vec<AcquisitionEvidence>,
    ) -> (r: Option<RowsSeed>)
        ensures
            final(self).handles == old(self).handles,
            final(self).next_observation_id == old(self).next_observation_id,
            ({
                let state = old(self).observations@[*id];
                let next = final(self).observations@[*id];
                if old(self).observations@.contains_key(*id) && last_evidence_view(state.last_evidence)
                    != Some(evidence_view(evidence@)) {
                    &&& final(self).observations@ == old(self).observations@.insert(*id, next)
                    &&& next == (ObservationState { last_evidence: next.last_evidence, ..state })
                    &&& last_evidence_view(next.last_evidence) == Some(evidence_view(evidence@))
                    &&& r matches Some(seed) && seed.deltas@.len() == 0 && evidence_view(seed.evidence@)
                        == evidence_view(evidence@)
                } else {
                    r is None && final(self).observations@ == old(self).observations@
                }
            }),
    {
        let unchanged = match self.observations.get(id) {
            None => true,
            Some(state) => match &state.last_evidence {
                Some(last) => same_evidence(last, &evidence),
                None => false,
            },
        };
        if unchanged {
            return None;
        }
        if let Some(state) = self.observations.get_mut(id) {
            state.last_evidence = Some(copy_evidence(&evidence));
        }
        Some(RowsSeed { deltas: Vec::new(), evidence })
    }

    /// The scopes of one branch that ask their relays.
    pub fn wire_contributing_scopes(&self, id: &HandleId) -> (r: SortedSet<u64>)
        ensures
            r@ == (if self.handles@.contains_key(*id) {
                live_scopes(self.handles@[*id].acquisition.scopes@)
            } else {
                Set::<u64>::empty()
            }),
    {
        let mut r: SortedSet<u64> = SortedSet::new();
        if let Some(state) = self.handles.get(id) {
            let scopes = &state.acquisition.scopes;
            let mut i: usize = 0;
            while i < scopes.len()
                invariant
                    i <= scopes@.len(),
                    forall|s: u64| #[trigger] r@.contains(s) <==> s < i && scopes@[s as int] is Live,
                decreases scopes@.len() - i,
            {
                if scopes[i].contributes_wire() {
                    r.insert(i as u64);
                }
                i = i + 1;
            }
            assert(r@ =~= live_scopes(scopes@));
        }
        r
    }

    pub fn branch_observation(&self, id: &HandleId) -> (r: Option<ObservationId>)
        ensures
            r == (if self.handles@.contains_key(*id) {
                Some(self.handles@[*id].observation)
            } else {
                None
            }),
    {
        match self.handles.get(id) {
            Some(state) => Some(state.observation),
            None => None,
        }
    }

    /// Takes on a new observation whose branches are open and decided, with
    /// nothing delivered yet. Branch and acquisition lists are of one length.
    pub fn take_on(
        &mut self,
        branches: Vec<HandleId>,
        acquisitions: Vec<HandleAcquisition>,
        strict: &Vec<bool>,
        aggregate_result_limit: Option<usize>,
    ) -> (id: ObservationId)
        requires
            branches@.len() == acquisitions@.len(),
            branches@.len() == strict@.len(),
            branches@.no_duplicates(),
        ensures
            id.0 == old(self).next_observation_id,
            final(self).next_observation_id == (if id.0 == u64::MAX {
                0
            } else {
                (id.0 + 1) as u64
            }),
            ({
                let state = final(self).observations@[id];
                &&& final(self).observations@ == old(self).observations@.insert(id, state)
                &&& state.branches == branches
                &&& state.aggregate_result_limit == aggregate_result_limit
                &&& state.last_rows@ == Map::<EventId, crate::rows::RememberedView>::empty()
                &&& state.last_evidence is None
                &&& !state.projection_complete
                &&& state.next_sequence == 0
            }),
            forall|h: HandleId| #[trigger]
                final(self).handles@.contains_key(h) <==> old(self).handles@.contains_key(h)
                    || branches@.contains(h),
            forall|i: int|
                0 <= i < branches@.len() ==> final(self).handles@[#[trigger] branches@[i]] == (BranchState {
                    acquisition: acquisitions@[i],
                    observation: id,
                    strict: strict@[i],
                }),
            forall|h: HandleId|
                old(self).handles@.contains_key(h) && !branches@.contains(h) ==> (
                #[trigger] final(self).handles@[h]) == old(self).handles@[h],
    {
        let id = ObservationId(self.next_observation_id);
        self.next_observation_id = self.next_observation_id.wrapping_add(1);
        let ghost given = acquisitions@;
        let mut left = acquisitions;
        let n = branches.len();
        let ghost before = self.handles@;
        let mut i: usize = n;
        assert(branches@.skip(n as int) =~= Seq::<HandleId>::empty());
        while i > 0
            invariant
                i <= n,
                n == branches@.len(),
                n == given.len(),
                n == strict@.len(),
                branches@.no_duplicates(),
                left@ == given.take(i as int),
                self.observations == old(self).observations,
                forall|h: HandleId| #[trigger]
                    self.handles@.contains_key(h) <==> before.contains_key(h) || branches@.skip(
                        i as int,
                    ).contains(h),
                forall|j: int|
                    i <= j < n ==> self.handles@[#[trigger] branches@[j]] == (BranchState {
                        acquisition: given[j],
                        observation: id,
                        strict: strict@[j],
                    }),
                forall|h: HandleId|
                    before.contains_key(h) && !branches@.contains(h) ==> (#[trigger] self.handles@[h])
                        == before[h],
                self.next_observation_id == (if id.0 == u64::MAX {
                    0
                } else {
                    (id.0 + 1) as u64
                }),
            decreases i,
        {
            i = i - 1;
            let branch = branches[i];
            let ghost prior = self.handles@;
            proof {
                assert(branches@.skip(i as int) =~= seq![branch] + branches@.skip(i + 1));
                assert forall|h: HandleId| branches@.skip(i as int).contains(h) <==> h == branch
                    || branches@.skip(i + 1).contains(h) by {
                    let whole = branches@.skip(i as int);
                    let tail = branches@.skip(i + 1);
                    if h == branch {
                        assert(whole[0] == h);
                    }
                    if tail.contains(h) {
                        let k = choose|k: int| 0 <= k < tail.len() && tail[k] == h;
                        assert(whole[k + 1] == h);
                    }
                    if whole.contains(h) {
                        let k = choose|k: int| 0 <= k < whole.len() && whole[k] == h;
                        if k > 0 {
                            assert(tail[k - 1] == h);
                        }
                    }
                }
            }
            let acquisition = left.pop();
            if let Some(acquisition) = acquisition {
                self.handles.insert(
                    branch,
                    BranchState { acquisition, observation: id, strict: strict[i] },
                );
            }
            proof {
                assert(left@ =~= given.take(i as int));
                assert(branches@.contains(branches@[i as int]));
                assert forall|j: int| i <= j < n implies self.handles@[#[trigger] branches@[j]] == (
                BranchState { acquisition: given[j], observation: id, strict: strict@[j] }) by {
                    if j > i {
                        assert(branches@[j] != branches@[i as int]);
                        assert(prior[branches@[j]] == (BranchState {
                            acquisition: given[j],
                            observation: id,
                            strict: strict@[j],
                        }));
                    }
                }
            }
        }
        assert(branches@.skip(0) =~= branches@);
        self.observations.insert(
            id,
            ObservationState {
                branches,
                aggregate_result_limit,
                last_rows: RememberedRows::new(),
                last_evidence: None,
                projection_complete: false,
                next_sequence: 0,
            },
        );
        id
    }

    /// Takes an observation off the books: its branches have to be released.
    /// Gives back the branches, and the number of the last fact that it tells.
    pub fn withdraw(&mut self, id: &ObservationId) -> (r: Option<(Vec<HandleId>, u64)>)
        ensures
            final(self).next_observation_id == old(self).next_observation_id,
            final(self).observations@ == old(self).observations@.remove(*id),
            match r {
                None => !old(self).observations@.contains_key(*id) && final(self).handles@ == old(
                    self,
                ).handles@,
                Some((branches, sequence)) => {
                    let state = old(self).observations@[*id];
                    &&& old(self).observations@.contains_key(*id)
                    &&& branches == state.branches
                    &&& sequence == (if state.next_sequence == u64::MAX {
                        u64::MAX
                    } else {
                        (state.next_sequence + 1) as u64
                    })
                    &&& final(self).handles@ == old(self).handles@.remove_keys(branches@.to_set())
                },
            },
    {
        match self.observations.remove(id) {
            None => None,
            Some(state) => {
                let sequence = state.next_sequence.saturating_add(1);
                self.release_branches(&state.branches);
                Some((state.branches, sequence))
            },
        }
    }

    /// Takes a list of branches off the books.
    pub fn release_branches(&mut self, branches: &Vec<HandleId>)
        ensures
            final(self).observations == old(self).observations,
            final(self).next_observation_id == old(self).next_observation_id,
            final(self).handles@ == old(self).handles@.remove_keys(branches@.to_set()),
    {
        let ghost before = self.handles@;
        let mut i: usize = 0;
        assert(before.remove_keys(branches@.take(0).to_set()) =~= before);
        while i < branches.len()
            invariant
                i <= branches@.len(),
                self.observations == old(self).observations,
                self.next_observation_id == old(self).next_observation_id,
                self.handles@ == before.remove_keys(branches@.take(i as int).to_set()),
            decreases branches@.len() - i,
        {
            let branch = branches[i];
            proof {
                let done = branches@.take(i as int);
                let next = branches@.take(i + 1);
                assert(next =~= done.push(branch));
                lemma_push_contains(done, branch);
                assert forall|h: HandleId| next.to_set().contains(h) <==> done.to_set().contains(h) || h
                    == branch by {
                    assert(next.contains(h) <==> done.contains(h) || h == branch);
                }
                assert(before.remove_keys(done.to_set()).remove(branch) =~= before.remove_keys(
                    next.to_set(),
                ));
            }
            self.handles.remove(&branch);
            i = i + 1;
        }
        assert(branches@.take(i as int) =~= branches@);
    }
}

/// The scopes of a branch that ask their relays are exactly the places at which it was
/// decided that the relays are asked.
pub proof fn live_places_ask_their_relays(scopes: Seq<ScopeAcquisition>, s: u64)
    ensures
        live_scopes(scopes).contains(s) <==> s < scopes.len() && scopes[s as int] == ScopeAcquisition::Live,
{
}

} // verus!
