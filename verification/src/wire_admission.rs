//! Which demands still have to be put on the wire, and in which order a change of
//! the plan takes effect.

use vstd::prelude::*;

use crate::core_state::CoreState;
use crate::ids::{DemandKey, HandleId};
use crate::key::{is_listing, lemma_listing_members, lemma_push_contains, Pair};
use crate::request_targets::{LiveTarget, RequestTargets};
use crate::sorted::{SortedMap, SortedSet};

verus! {

/// What becomes of a demand's place among those that wait for the wire.
#[derive(Clone, Copy, Debug, PartialEq, Eq, Structural)]
pub enum AdmissionVerdict {
    /// It waits, with its current atom.
    Wait,
    /// It no longer waits.
    Served,
    /// Nothing changes.
    Unchanged,
}

/// What is known when a branch comes to own an atom.
#[derive(Clone, Copy, Debug, PartialEq, Eq, Structural)]
pub struct AtomRetained {
    /// Nobody owned the demand before.
    pub first_owner: bool,
    /// The atom is now backed by more routing evidence than before.
    pub evidence_grew: bool,
    /// A request that is already on the wire covers the atom.
    pub covered: bool,
    /// The plan does not reach every relay that the demand asks for.
    pub incomplete: bool,
    /// The demand waits already.
    pub waiting: bool,
}

/// What became of an atom that a branch gave up.
#[derive(Clone, Copy, Debug, PartialEq, Eq, Structural)]
pub enum AtomReleased {
    /// The branch did not own it.
    Unowned,
    /// Nobody owns the demand any more.
    Ownerless { final_atom: u64 },
    /// Others still own the demand.
    Survived { waiting: bool },
}

/// A new owner makes a demand wait where the plan does not reach every relay for
/// it. The first owner of a demand that a request covers already has it served at
/// once; a later owner matters only where it brings new evidence, or where the
/// demand waits anyway.
pub fn retain_wire_atom_owner(atom: AtomRetained) -> (r: AdmissionVerdict)
    ensures
        r == (if atom.first_owner {
            if atom.covered {
                AdmissionVerdict::Served
            } else if atom.incomplete {
                AdmissionVerdict::Wait
            } else {
                AdmissionVerdict::Unchanged
            }
        } else if (atom.evidence_grew && atom.incomplete) || atom.waiting {
            AdmissionVerdict::Wait
        } else {
            AdmissionVerdict::Unchanged
        }),
{
    if atom.first_owner {
        if atom.covered {
            AdmissionVerdict::Served
        } else if atom.incomplete {
            AdmissionVerdict::Wait
        } else {
            AdmissionVerdict::Unchanged
        }
    } else if (atom.evidence_grew && atom.incomplete) || atom.waiting {
        AdmissionVerdict::Wait
    } else {
        AdmissionVerdict::Unchanged
    }
}

/// What follows when a branch gives an atom up: the atom that has to be closed,
/// which only the last owner leaves behind, and the place of the demand among
/// those that wait.
pub fn release_wire_atom_owner(released: AtomReleased) -> (r: (Option<u64>, AdmissionVerdict))
    ensures
        r.0 == (match released {
            AtomReleased::Ownerless { final_atom } => Some(final_atom),
            _ => None,
        }),
        r.1 == (if released == (AtomReleased::Survived { waiting: true }) {
            AdmissionVerdict::Wait
        } else {
            AdmissionVerdict::Unchanged
        }),
{
    match released {
        AtomReleased::Unowned => (None, AdmissionVerdict::Unchanged),
        AtomReleased::Ownerless { final_atom } => (Some(final_atom), AdmissionVerdict::Unchanged),
        AtomReleased::Survived { waiting } => if waiting {
            (None, AdmissionVerdict::Wait)
        } else {
            (None, AdmissionVerdict::Unchanged)
        },
    }
}

/// The demands of a cohort that no longer wait once the plan has taken them on:
/// all but those that a limit has kept out.
pub open spec fn served_of(cohort: Seq<DemandKey>, limited: Set<DemandKey>) -> Seq<DemandKey>
    decreases cohort.len(),
{
    if cohort.len() == 0 {
        Seq::empty()
    } else if limited.contains(cohort.last()) {
        served_of(cohort.drop_last(), limited)
    } else {
        served_of(cohort.drop_last(), limited).push(cohort.last())
    }
}

pub fn reconcile_pending_wire_cohort(cohort: &Vec<DemandKey>, limited: &SortedSet<DemandKey>) -> (r: Vec<DemandKey>)
    ensures
        r@ == served_of(cohort@, limited@),
{
    let mut r: Vec<DemandKey> = Vec::new();
    let ghost q = cohort@;
    assert(q.take(0) =~= Seq::<DemandKey>::empty());
    let mut i: usize = 0;
    while i < cohort.len()
        invariant
            i <= q.len(),
            q == cohort@,
            r@ == served_of(q.take(i as int), limited@),
        decreases q.len() - i,
    {
        proof {
            assert(q.take(i + 1).drop_last() =~= q.take(i as int));
            assert(q.take(i + 1).last() == q[i as int]);
        }
        if !limited.contains(&cohort[i]) {
            r.push(cohort[i]);
        }
        i = i + 1;
    }
    assert(q.take(i as int) =~= q);
    r
}

/// The demands that wait after the plan was computed anew: those that are live
/// and that it does not reach every relay for.
pub fn refresh_pending_wire_atoms(live: &SortedMap<DemandKey, u64>, incomplete: &SortedSet<DemandKey>) -> (r: SortedMap<
    DemandKey,
    u64,
>)
    ensures
        r@ == live@.restrict(incomplete@),
{
    let mut r: SortedMap<DemandKey, u64> = SortedMap::new();
    let n = live.len();
    let ghost q = live.keys();
    let mut i: usize = 0;
    while i < n
        invariant
            i <= n,
            n == q.len(),
            q == live.keys(),
            is_listing(q, live@.dom()),
            forall|k: DemandKey| #[trigger]
                r@.contains_key(k) <==> q.take(i as int).contains(k) && incomplete@.contains(k),
            forall|k: DemandKey| #[trigger] r@.contains_key(k) ==> r@[k] == live@[k],
        decreases n - i,
    {
        let key = live.key_at(i);
        proof {
            assert(q.take(i + 1) =~= q.take(i as int).push(key));
            lemma_push_contains(q.take(i as int), key);
        }
        if incomplete.contains(&key) {
            r.insert(key, *live.value_at(i));
        }
        i = i + 1;
    }
    proof {
        assert(q.take(i as int) =~= q);
        lemma_listing_members(q, live@.dom());
        assert(r@ =~= live@.restrict(incomplete@));
    }
    r
}

/// What became of one branch's hold on an atom that the resolver has closed.
#[derive(Clone, Copy, Debug, PartialEq, Eq, Structural)]
pub struct HandleRemoval {
    pub handle: HandleId,
    /// The branch did hold the atom.
    pub removed: bool,
    /// It was the branch's last atom of the demand.
    pub demand_released: bool,
}

/// How many branches of a list did hold the atom.
pub open spec fn removed_count(q: Seq<HandleRemoval>) -> nat
    decreases q.len(),
{
    if q.len() == 0 {
        0
    } else {
        removed_count(q.drop_last()) + if q.last().removed {
            1nat
        } else {
            0
        }
    }
}

/// The live targets of one demand that go with the branches of a list.
pub open spec fn released_targets(q: Seq<HandleRemoval>, demand: DemandKey) -> Set<Pair<HandleId, LiveTarget>> {
    Set::new(
        |e: Pair<HandleId, LiveTarget>|
            e.1.0 == demand && exists|i: int|
                0 <= i < q.len() && (#[trigger] q[i]).handle == e.0 && q[i].removed && q[i].demand_released,
    )
}

impl RequestTargets {
    /// The resolver has closed one atom of a demand. Takes the live targets of
    /// every branch that held nothing else of the demand. Gives back how many
    /// holds on the atom are gone.
    pub fn consume_closed_atom(&mut self, demand: &DemandKey, removals: &Vec<HandleRemoval>) -> (released: usize)
        requires
            old(self).wf(),
        ensures
            final(self).wf(),
            final(self).declared() == old(self).declared(),
            final(self).active() == old(self).active().remove_keys(released_targets(removals@, *demand)),
            released == removed_count(removals@),
    {
        let ghost q = removals@;
        let ghost before = self.active();
        let mut released: usize = 0;
        let mut i: usize = 0;
        proof {
            assert(q.take(0) =~= Seq::<HandleRemoval>::empty());
            assert(before.remove_keys(released_targets(q.take(0), *demand)) =~= before);
        }
        while i < removals.len()
            invariant
                i <= q.len(),
                q == removals@,
                self.wf(),
                self.declared() == old(self).declared(),
                self.active() == before.remove_keys(released_targets(q.take(i as int), *demand)),
                released == removed_count(q.take(i as int)),
                released <= i,
            decreases q.len() - i,
        {
            let removal = removals[i];
            let ghost done = q.take(i as int);
            let ghost next = q.take(i + 1);
            proof {
                assert(next.drop_last() =~= done);
                assert(next.last() == removal);
                assert forall|e: Pair<HandleId, LiveTarget>| released_targets(next, *demand).contains(e)
                    <==> released_targets(done, *demand).contains(e) || (e.1.0 == *demand && e.0
                    == removal.handle && removal.removed && removal.demand_released) by {
                    if released_targets(done, *demand).contains(e) {
                        let k = choose|k: int|
                            0 <= k < done.len() && (#[trigger] done[k]).handle == e.0 && done[k].removed
                                && done[k].demand_released;
                        assert(next[k] == done[k]);
                    }
                    if e.1.0 == *demand && e.0 == removal.handle && removal.removed
                        && removal.demand_released {
                        assert(next[i as int] == removal);
                    }
                    if released_targets(next, *demand).contains(e) {
                        let k = choose|k: int|
                            0 <= k < next.len() && (#[trigger] next[k]).handle == e.0 && next[k].removed
                                && next[k].demand_released;
                        if k < i {
                            assert(done[k] == next[k]);
                        }
                    }
                }
            }
            if removal.removed {
                released = released + 1;
                if removal.demand_released {
                    self.deactivate_handle_demand(&removal.handle, demand);
                }
            }
            assert(self.active() =~= before.remove_keys(released_targets(next, *demand)));
            i = i + 1;
        }
        assert(q.take(i as int) =~= q);
        released
    }
}

/// One step of putting a change of the plan in force.
#[derive(Clone, Copy, Debug, PartialEq, Eq, Structural)]
pub enum PlanTurnStep {
    RebuildWireOwnership,
    FlushAuthorRouteNeeds,
    SetActiveDemand,
    /// Compute the plan of the whole demand.
    Compile,
    ApplyMetadataUpdates,
    /// Take away what the plan no longer wants of each request.
    ApplyMetadataRemovals,
    /// Put the plan in force, but send nothing yet.
    ApplyPlanDelta,
    TellDiagnosticsChanged,
    RefreshChangedEvidence,
    RefreshTransferredEvidence,
    RefreshPendingAtoms,
    ReconcileCohort,
    RefreshAllObservations,
    RefreshAllHistories,
    /// Send what the plan wants sent.
    SendWire,
    ArmAdmission,
}

/// The plan of the whole demand is computed anew.
pub fn recompile() -> (r: Vec<PlanTurnStep>)
    ensures
        r@ == seq![
            PlanTurnStep::RebuildWireOwnership,
            PlanTurnStep::FlushAuthorRouteNeeds,
            PlanTurnStep::SetActiveDemand,
            PlanTurnStep::Compile,
            PlanTurnStep::ApplyMetadataUpdates,
            PlanTurnStep::ApplyPlanDelta,
            PlanTurnStep::RefreshTransferredEvidence,
            PlanTurnStep::RefreshPendingAtoms,
            PlanTurnStep::RefreshAllObservations,
            PlanTurnStep::RefreshAllHistories,
            PlanTurnStep::SendWire,
        ],
{
    let mut r: Vec<PlanTurnStep> = Vec::new();
    r.push(PlanTurnStep::RebuildWireOwnership);
    r.push(PlanTurnStep::FlushAuthorRouteNeeds);
    r.push(PlanTurnStep::SetActiveDemand);
    r.push(PlanTurnStep::Compile);
    r.push(PlanTurnStep::ApplyMetadataUpdates);
    r.push(PlanTurnStep::ApplyPlanDelta);
    r.push(PlanTurnStep::RefreshTransferredEvidence);
    r.push(PlanTurnStep::RefreshPendingAtoms);
    r.push(PlanTurnStep::RefreshAllObservations);
    r.push(PlanTurnStep::RefreshAllHistories);
    r.push(PlanTurnStep::SendWire);
    r
}

/// What happens once the router has planned for the demands that wait.
pub open spec fn admission_steps(diagnostics_changed: bool) -> Seq<PlanTurnStep> {
    seq![PlanTurnStep::ApplyMetadataUpdates, PlanTurnStep::ApplyPlanDelta] + (if diagnostics_changed {
        seq![PlanTurnStep::TellDiagnosticsChanged]
    } else {
        Seq::empty()
    }) + seq![
        PlanTurnStep::RefreshChangedEvidence,
        PlanTurnStep::RefreshTransferredEvidence,
        PlanTurnStep::ReconcileCohort,
        PlanTurnStep::SendWire,
    ]
}

/// What happens when demands are taken off the wire, once the router has said
/// what that changes. What it takes from requests that stay is taken in any case.
pub open spec fn withdrawal_steps(
    wire_changed: bool,
    coverage_changed: bool,
    diagnostics_changed: bool,
    admission_needed: bool,
) -> Seq<PlanTurnStep> {
    seq![PlanTurnStep::ApplyMetadataRemovals] + (if wire_changed || coverage_changed || diagnostics_changed {
        seq![PlanTurnStep::ApplyPlanDelta, PlanTurnStep::SendWire] + (if diagnostics_changed {
            seq![PlanTurnStep::TellDiagnosticsChanged]
        } else {
            Seq::empty()
        }) + seq![PlanTurnStep::RefreshChangedEvidence]
    } else {
        Seq::empty()
    }) + (if admission_needed {
        seq![PlanTurnStep::ArmAdmission]
    } else {
        Seq::empty()
    })
}

impl CoreState {
    /// Puts the demands that wait on the wire. `admitted` says whether the
    /// router's plan for them changes the diagnostics; it is none where no demand
    /// waits, and nothing was planned. The clock follows either way.
    pub fn flush_wire_admission(&mut self, now: u64, admitted: Option<bool>) -> (r: Vec<PlanTurnStep>)
        ensures
            *final(self) == (CoreState { clock: now, ..*old(self) }),
            r@ == (match admitted {
                Some(diagnostics_changed) => admission_steps(diagnostics_changed),
                None => Seq::<PlanTurnStep>::empty(),
            }),
    {
        self.advance_clock(now);
        let mut r: Vec<PlanTurnStep> = Vec::new();
        if let Some(diagnostics_changed) = admitted {
            r.push(PlanTurnStep::ApplyMetadataUpdates);
            r.push(PlanTurnStep::ApplyPlanDelta);
            if diagnostics_changed {
                r.push(PlanTurnStep::TellDiagnosticsChanged);
            }
            r.push(PlanTurnStep::RefreshChangedEvidence);
            r.push(PlanTurnStep::RefreshTransferredEvidence);
            r.push(PlanTurnStep::ReconcileCohort);
            r.push(PlanTurnStep::SendWire);
            assert(r@ =~= admission_steps(diagnostics_changed));
        }
        r
    }
}

pub fn withdraw_wire_demand(
    wire_changed: bool,
    coverage_changed: bool,
    diagnostics_changed: bool,
    admission_needed: bool,
) -> (r: Vec<PlanTurnStep>)
    ensures
        r@ == withdrawal_steps(wire_changed, coverage_changed, diagnostics_changed, admission_needed),
{
    let mut r: Vec<PlanTurnStep> = Vec::new();
    r.push(PlanTurnStep::ApplyMetadataRemovals);
    if wire_changed || coverage_changed || diagnostics_changed {
        r.push(PlanTurnStep::ApplyPlanDelta);
        r.push(PlanTurnStep::SendWire);
        if diagnostics_changed {
            r.push(PlanTurnStep::TellDiagnosticsChanged);
        }
        r.push(PlanTurnStep::RefreshChangedEvidence);
    }
    if admission_needed {
        r.push(PlanTurnStep::ArmAdmission);
    }
    assert(r@ =~= withdrawal_steps(
        wire_changed,
        coverage_changed,
        diagnostics_changed,
        admission_needed,
    ));
    r
}

/// When demands are put on the wire, everything that is told of them is told
/// before anything is sent: the answer of the transport can come back at once.
pub proof fn admission_tells_before_it_sends(diagnostics_changed: bool)
    ensures
        ({
            let q = admission_steps(diagnostics_changed);
            &&& q.last() == PlanTurnStep::SendWire
            &&& forall|i: int| 0 <= i < q.len() - 1 ==> (#[trigger] q[i]) != PlanTurnStep::SendWire
        }),
{
}

/// The demands that no longer wait are those of the cohort that no limit has kept out,
/// in the order of the cohort.
pub proof fn limited_demands_go_on_waiting(cohort: Seq<DemandKey>, limited: Set<DemandKey>)
    ensures
        served_of(cohort, limited) == cohort.filter(|d: DemandKey| !limited.contains(d)),
    decreases cohort.len(),
{
    reveal(Seq::filter);
    if cohort.len() > 0 {
        limited_demands_go_on_waiting(cohort.drop_last(), limited);
    } else {
        assert(served_of(cohort, limited) =~= cohort.filter(|d: DemandKey| !limited.contains(d)));
    }
}

/// As many branches are counted as did hold the atom.
pub proof fn only_holders_are_counted(q: Seq<HandleRemoval>)
    ensures
        removed_count(q) == q.filter(|r: HandleRemoval| r.removed).len(),
    decreases q.len(),
{
    reveal(Seq::filter);
    if q.len() > 0 {
        only_holders_are_counted(q.drop_last());
    }
}

/// A live target goes if and only if it is one of the demand, and its branch did hold
/// the atom as the last one of the demand.
pub proof fn last_atom_takes_its_targets(q: Seq<HandleRemoval>, demand: DemandKey, e: Pair<HandleId, LiveTarget>)
    ensures
        released_targets(q, demand).contains(e) <==> e.1.0 == demand && exists|r: HandleRemoval| #[trigger]
            q.contains(r) && r.handle == e.0 && r.removed && r.demand_released,
{
    if exists|r: HandleRemoval| #[trigger] q.contains(r) && r.handle == e.0 && r.removed && r.demand_released {
        let r = choose|r: HandleRemoval| #[trigger]
            q.contains(r) && r.handle == e.0 && r.removed && r.demand_released;
        let i = choose|i: int| 0 <= i < q.len() && q[i] == r;
        assert(q[i].handle == e.0);
    }
    if released_targets(q, demand).contains(e) {
        let i = choose|i: int|
            0 <= i < q.len() && (#[trigger] q[i]).handle == e.0 && q[i].removed && q[i].demand_released;
        assert(q.contains(q[i]));
    }
}

/// An admission begins with the requests that stay, then puts the plan in force; it
/// tells of changed diagnostics if and only if they changed; it refreshes the evidence
/// that changed and the evidence that was carried over, then the cohort, each once.
pub proof fn admission_takes_every_step_once(diagnostics_changed: bool)
    ensures
        ({
            let q = admission_steps(diagnostics_changed);
            &&& q.no_duplicates()
            &&& q.contains(PlanTurnStep::ApplyMetadataUpdates)
            &&& q.contains(PlanTurnStep::ApplyPlanDelta)
            &&& q.contains(PlanTurnStep::TellDiagnosticsChanged) <==> diagnostics_changed
            &&& q.contains(PlanTurnStep::RefreshChangedEvidence)
            &&& q.contains(PlanTurnStep::RefreshTransferredEvidence)
            &&& q.contains(PlanTurnStep::ReconcileCohort)
            &&& q.contains(PlanTurnStep::SendWire)
            &&& q.len() == 6 + (if diagnostics_changed {
                1int
            } else {
                0
            })
            &&& q.index_of(PlanTurnStep::ApplyMetadataUpdates) < q.index_of(PlanTurnStep::ApplyPlanDelta)
            &&& q.index_of(PlanTurnStep::ApplyPlanDelta) < q.index_of(PlanTurnStep::RefreshChangedEvidence)
            &&& diagnostics_changed ==> q.index_of(PlanTurnStep::ApplyPlanDelta) < q.index_of(
                PlanTurnStep::TellDiagnosticsChanged,
            ) < q.index_of(PlanTurnStep::RefreshChangedEvidence)
            &&& q.index_of(PlanTurnStep::RefreshChangedEvidence) < q.index_of(
                PlanTurnStep::RefreshTransferredEvidence,
            ) < q.index_of(PlanTurnStep::ReconcileCohort)
        }),
{
    let q = admission_steps(diagnostics_changed);
    let n = if diagnostics_changed {
        1int
    } else {
        0
    };
    assert(q[0] == PlanTurnStep::ApplyMetadataUpdates);
    assert(q[1] == PlanTurnStep::ApplyPlanDelta);
    if diagnostics_changed {
        assert(q[2] == PlanTurnStep::TellDiagnosticsChanged);
    }
    assert(q[2 + n] == PlanTurnStep::RefreshChangedEvidence);
    assert(q[3 + n] == PlanTurnStep::RefreshTransferredEvidence);
    assert(q[4 + n] == PlanTurnStep::ReconcileCohort);
    assert(q[5 + n] == PlanTurnStep::SendWire);
}

/// A withdrawal first takes from the requests that stay what they lose. The plan is put
/// in force and the wire is served if and only if anything changed, and in that order;
/// changed diagnostics are told if and only if they changed; the evidence is refreshed
/// with every change; and a new admission is armed, last of all, if and only if one is
/// needed.
pub proof fn withdrawal_does_what_has_changed(
    wire_changed: bool,
    coverage_changed: bool,
    diagnostics_changed: bool,
    admission_needed: bool,
)
    ensures
        ({
            let q = withdrawal_steps(wire_changed, coverage_changed, diagnostics_changed, admission_needed);
            let changed = wire_changed || coverage_changed || diagnostics_changed;
            &&& q.no_duplicates()
            &&& q[0] == PlanTurnStep::ApplyMetadataRemovals
            &&& q.contains(PlanTurnStep::ApplyPlanDelta) <==> changed
            &&& q.contains(PlanTurnStep::SendWire) <==> changed
            &&& q.contains(PlanTurnStep::RefreshChangedEvidence) <==> changed
            &&& q.contains(PlanTurnStep::TellDiagnosticsChanged) <==> diagnostics_changed
            &&& q.contains(PlanTurnStep::ArmAdmission) <==> admission_needed
            &&& admission_needed ==> q.last() == PlanTurnStep::ArmAdmission
            &&& changed ==> q.index_of(PlanTurnStep::ApplyPlanDelta) < q.index_of(PlanTurnStep::SendWire)
                < q.index_of(PlanTurnStep::RefreshChangedEvidence)
            &&& diagnostics_changed ==> q.index_of(PlanTurnStep::SendWire) < q.index_of(
                PlanTurnStep::TellDiagnosticsChanged,
            ) < q.index_of(PlanTurnStep::RefreshChangedEvidence)
            &&& forall|s: PlanTurnStep| #[trigger]
                q.contains(s) ==> s == PlanTurnStep::ApplyMetadataRemovals || s
                    == PlanTurnStep::ApplyPlanDelta || s == PlanTurnStep::SendWire || s
                    == PlanTurnStep::TellDiagnosticsChanged || s == PlanTurnStep::RefreshChangedEvidence || s
                    == PlanTurnStep::ArmAdmission
        }),
{
    let q = withdrawal_steps(wire_changed, coverage_changed, diagnostics_changed, admission_needed);
    let n = if diagnostics_changed {
        1int
    } else {
        0
    };
    if wire_changed || coverage_changed || diagnostics_changed {
        assert(q[1] == PlanTurnStep::ApplyPlanDelta);
        assert(q[2] == PlanTurnStep::SendWire);
        if diagnostics_changed {
            assert(q[3] == PlanTurnStep::TellDiagnosticsChanged);
        }
        assert(q[3 + n] == PlanTurnStep::RefreshChangedEvidence);
        if admission_needed {
            assert(q[4 + n] == PlanTurnStep::ArmAdmission);
        }
    } else if admission_needed {
        assert(q[1] == PlanTurnStep::ArmAdmission);
    }
}

} // verus!
