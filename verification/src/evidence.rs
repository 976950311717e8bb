//! What is known of where a query's rows come from, and how fresh they are.

use vstd::prelude::*;

use crate::ids::{DemandKey, Relay};
use crate::sorted::SortedSet;

verus! {

/// How a source stands.
#[derive(Clone, Copy, Debug, PartialEq, Eq, Structural)]
pub enum SourceStatus {
    /// Never connected so far.
    Connecting,
    /// Connected now.
    Requesting,
    /// Was connected, and is not now.
    Disconnected,
}

/// One relay that a query reads from.
#[derive(Clone, Copy, Debug, PartialEq, Eq, Structural)]
pub struct SourceEvidence {
    pub relay: Relay,
    pub status: SourceStatus,
    /// Up to when everything that the relay holds has been read.
    pub reconciled_through: Option<u64>,
}

/// Why a query may see less than there is.
#[derive(Clone, Copy, Debug, PartialEq, Eq, Structural)]
pub enum ShortfallFact {
    /// The query has resolved to nothing that could be asked for.
    NoResolvedDemand,
    /// No relay is planned for a demand.
    NoPlannedSource { demand: DemandKey },
    /// A demand was left out for want of room.
    LocalLimit { demand: DemandKey },
}

/// Where the rows of one branch come from.
#[derive(Debug)]
pub struct AcquisitionEvidence {
    pub sources: Vec<SourceEvidence>,
    pub shortfall: Vec<ShortfallFact>,
}

/// What the evidence of one branch says.
pub struct EvidenceView {
    pub sources: Seq<SourceEvidence>,
    pub shortfall: Seq<ShortfallFact>,
}

impl View for AcquisitionEvidence {
    type V = EvidenceView;

    open spec fn view(&self) -> EvidenceView {
        EvidenceView { sources: self.sources@, shortfall: self.shortfall@ }
    }
}

/// What the evidence of a list of branches says.
pub open spec fn evidence_view(q: Seq<AcquisitionEvidence>) -> Seq<EvidenceView> {
    Seq::new(q.len(), |i: int| q[i]@)
}

fn same_sources(a: &Vec<SourceEvidence>, b: &Vec<SourceEvidence>) -> (r: bool)
    ensures
        r == (a@ == b@),
{
    if a.len() != b.len() {
        return false;
    }
    let mut i: usize = 0;
    while i < a.len()
        invariant
            i <= a@.len(),
            a@.len() == b@.len(),
            forall|j: int| 0 <= j < i ==> #[trigger] a@[j] == b@[j],
        decreases a@.len() - i,
    {
        if a[i] != b[i] {
            assert(a@[i as int] != b@[i as int]);
            return false;
        }
        i = i + 1;
    }
    assert(a@ =~= b@);
    true
}

fn same_shortfall(a: &Vec<ShortfallFact>, b: &Vec<ShortfallFact>) -> (r: bool)
    ensures
        r == (a@ == b@),
{
    if a.len() != b.len() {
        return false;
    }
    let mut i: usize = 0;
    while i < a.len()
        invariant
            i <= a@.len(),
            a@.len() == b@.len(),
            forall|j: int| 0 <= j < i ==> #[trigger] a@[j] == b@[j],
        decreases a@.len() - i,
    {
        if a[i] != b[i] {
            assert(a@[i as int] != b@[i as int]);
            return false;
        }
        i = i + 1;
    }
    assert(a@ =~= b@);
    true
}

impl AcquisitionEvidence {
    /// The evidence of a branch that has resolved to nothing.
    pub fn no_resolved_demand() -> (r: AcquisitionEvidence)
        ensures
            r@.sources == Seq::<SourceEvidence>::empty(),
            r@.shortfall == seq![ShortfallFact::NoResolvedDemand],
    {
        let mut shortfall: Vec<ShortfallFact> = Vec::new();
        shortfall.push(ShortfallFact::NoResolvedDemand);
        let r = AcquisitionEvidence { sources: Vec::new(), shortfall };
        assert(r@.shortfall =~= seq![ShortfallFact::NoResolvedDemand]);
        r
    }

    /// Other evidence that says the same.
    pub fn copy(&self) -> (r: AcquisitionEvidence)
        ensures
            r@ == self@,
    {
        let mut sources: Vec<SourceEvidence> = Vec::new();
        let mut i: usize = 0;
        while i < self.sources.len()
            invariant
                i <= self.sources@.len(),
                sources@ == self.sources@.take(i as int),
            decreases self.sources@.len() - i,
        {
            sources.push(self.sources[i]);
            i = i + 1;
            assert(sources@ =~= self.sources@.take(i as int));
        }
        let mut shortfall: Vec<ShortfallFact> = Vec::new();
        let mut j: usize = 0;
        while j < self.shortfall.len()
            invariant
                j <= self.shortfall@.len(),
                shortfall@ == self.shortfall@.take(j as int),
            decreases self.shortfall@.len() - j,
        {
            shortfall.push(self.shortfall[j]);
            j = j + 1;
            assert(shortfall@ =~= self.shortfall@.take(j as int));
        }
        assert(sources@ =~= self.sources@);
        assert(shortfall@ =~= self.shortfall@);
        AcquisitionEvidence { sources, shortfall }
    }

    pub fn equals(&self, other: &AcquisitionEvidence) -> (r: bool)
        ensures
            r == (self@ == other@),
    {
        same_sources(&self.sources, &other.sources) && same_shortfall(&self.shortfall, &other.shortfall)
    }
}

/// Whether two lists of evidence say the same.
pub fn same_evidence(a: &Vec<AcquisitionEvidence>, b: &Vec<AcquisitionEvidence>) -> (r: bool)
    ensures
        r == (evidence_view(a@) == evidence_view(b@)),
{
    if a.len() != b.len() {
        assert(evidence_view(a@).len() != evidence_view(b@).len());
        return false;
    }
    let mut i: usize = 0;
    while i < a.len()
        invariant
            i <= a@.len(),
            a@.len() == b@.len(),
            forall|j: int| 0 <= j < i ==> (#[trigger] a@[j])@ == b@[j]@,
        decreases a@.len() - i,
    {
        if !a[i].equals(&b[i]) {
            assert(evidence_view(a@)[i as int] != evidence_view(b@)[i as int]);
            return false;
        }
        i = i + 1;
    }
    assert(evidence_view(a@) =~= evidence_view(b@));
    true
}

/// Another list of evidence that says the same.
pub fn copy_evidence(q: &Vec<AcquisitionEvidence>) -> (r: Vec<AcquisitionEvidence>)
    ensures
        evidence_view(r@) == evidence_view(q@),
{
    let mut r: Vec<AcquisitionEvidence> = Vec::new();
    let mut i: usize = 0;
    while i < q.len()
        invariant
            i <= q@.len(),
            r@.len() == i,
            forall|j: int| 0 <= j < i ==> (#[trigger] r@[j])@ == q@[j]@,
        decreases q@.len() - i,
    {
        let one = q[i].copy();
        r.push(one);
        i = i + 1;
    }
    assert(evidence_view(r@) =~= evidence_view(q@));
    r
}

/// How fresh the rows of one demand must be when it opens.
#[derive(Clone, Copy, Debug, PartialEq, Eq, Structural)]
pub enum Freshness {
    Live,
    CacheOnly,
    MaxAge { seconds: u64 },
}

/// What was decided for one demand when it opened. Only a live one asks its
/// relays; a satisfied one keeps the evidence that justified asking nothing.
#[derive(Debug)]
pub enum ScopeAcquisition {
    Live,
    CoverageSatisfied { evidence: AcquisitionEvidence },
    CacheOnly,
}

impl ScopeAcquisition {
    pub fn contributes_wire(&self) -> (b: bool)
        ensures
            b == (*self is Live),
    {
        match self {
            ScopeAcquisition::Live => true,
            _ => false,
        }
    }

    pub fn opening_evidence(&self) -> (r: Option<&AcquisitionEvidence>)
        ensures
            match r {
                Some(e) => *self matches ScopeAcquisition::CoverageSatisfied { evidence } && evidence == *e,
                None => !(*self is CoverageSatisfied),
            },
    {
        match self {
            ScopeAcquisition::CoverageSatisfied { evidence } => Some(evidence),
            _ => None,
        }
    }
}

/// The decisions for every demand of one branch, the root first.
#[derive(Debug)]
pub struct HandleAcquisition {
    pub scopes: Vec<ScopeAcquisition>,
}

/// What a decision says.
pub enum DecisionView {
    Live,
    CoverageSatisfied(EvidenceView),
    CacheOnly,
}

impl View for ScopeAcquisition {
    type V = DecisionView;

    open spec fn view(&self) -> DecisionView {
        match self {
            ScopeAcquisition::Live => DecisionView::Live,
            ScopeAcquisition::CoverageSatisfied { evidence } => DecisionView::CoverageSatisfied(evidence@),
            ScopeAcquisition::CacheOnly => DecisionView::CacheOnly,
        }
    }
}

pub open spec fn decisions_view(q: Seq<ScopeAcquisition>) -> Seq<DecisionView> {
    Seq::new(q.len(), |i: int| q[i]@)
}

/// The evidence shows that every source was read completely, and recently
/// enough: something is planned, nothing falls short, and each source has been
/// read up to at most `max_age_seconds` ago.
pub open spec fn fresh(evidence: EvidenceView, max_age_seconds: u64, now: u64) -> bool {
    &&& evidence.sources.len() > 0
    &&& evidence.shortfall.len() == 0
    &&& forall|i: int|
        0 <= i < evidence.sources.len() ==> ((#[trigger] evidence.sources[i]).reconciled_through
            matches Some(through) && through + max_age_seconds >= now)
}

pub fn plan_is_fresh_for(evidence: &AcquisitionEvidence, max_age_seconds: u64, now: u64) -> (b: bool)
    ensures
        b == fresh(evidence@, max_age_seconds, now),
{
    let cutoff: u64 = now.saturating_sub(max_age_seconds);
    if evidence.sources.len() == 0 || evidence.shortfall.len() > 0 {
        return false;
    }
    let mut i: usize = 0;
    while i < evidence.sources.len()
        invariant
            i <= evidence.sources@.len(),
            cutoff == (if now >= max_age_seconds {
                now - max_age_seconds
            } else {
                0
            }),
            forall|j: int|
                0 <= j < i ==> ((#[trigger] evidence.sources@[j]).reconciled_through matches Some(through)
                    && through + max_age_seconds >= now),
        decreases evidence.sources@.len() - i,
    {
        let reached = match evidence.sources[i].reconciled_through {
            Some(through) => through >= cutoff,
            None => false,
        };
        if !reached {
            assert(!(evidence@.sources[i as int].reconciled_through matches Some(through) && through
                + max_age_seconds >= now));
            return false;
        }
        i = i + 1;
    }
    true
}

/// A longer tolerated age never makes fresh evidence stale.
pub proof fn freshness_widens_with_age(evidence: EvidenceView, less: u64, more: u64, now: u64)
    requires
        less <= more,
        fresh(evidence, less, now),
    ensures
        fresh(evidence, more, now),
{
}

/// The freshness asked of each demand, with that of the root put first.
pub open spec fn asked(scopes: Seq<Freshness>, root: Freshness) -> Seq<Freshness> {
    if scopes.len() > 0 {
        scopes.update(0, root)
    } else {
        scopes
    }
}

/// How many demands of a list ask for a bounded age.
pub open spec fn bounded_count(q: Seq<Freshness>) -> nat
    decreases q.len(),
{
    if q.len() == 0 {
        0
    } else {
        bounded_count(q.drop_last()) + if q.last() is MaxAge {
            1nat
        } else {
            0nat
        }
    }
}

/// The places of the demands that ask for a bounded age: their opening evidence
/// has to be read before a decision can be taken.
pub open spec fn bounded_places(q: Seq<Freshness>) -> Seq<usize>
    decreases q.len(),
{
    if q.len() == 0 {
        Seq::empty()
    } else if q.last() is MaxAge {
        bounded_places(q.drop_last()).push((q.len() - 1) as usize)
    } else {
        bounded_places(q.drop_last())
    }
}

proof fn lemma_bounded_places(q: Seq<Freshness>)
    ensures
        bounded_places(q).len() == bounded_count(q),
    decreases q.len(),
{
    if q.len() > 0 {
        lemma_bounded_places(q.drop_last());
    }
}

pub fn bounded_scopes(scopes: &Vec<Freshness>, root_freshness: Freshness) -> (r: Vec<usize>)
    ensures
        r@ == bounded_places(asked(scopes@, root_freshness)),
        r@.len() == bounded_count(asked(scopes@, root_freshness)),
{
    let ghost want = asked(scopes@, root_freshness);
    let mut r: Vec<usize> = Vec::new();
    let mut i: usize = 0;
    assert(want.take(0) =~= Seq::<Freshness>::empty());
    while i < scopes.len()
        invariant
            i <= scopes@.len(),
            want == asked(scopes@, root_freshness),
            want.len() == scopes@.len(),
            r@ == bounded_places(want.take(i as int)),
        decreases scopes@.len() - i,
    {
        proof {
            assert(want.take(i + 1).drop_last() =~= want.take(i as int));
            assert(want.take(i + 1).last() == want[i as int]);
        }
        let freshness = if i == 0 {
            root_freshness
        } else {
            scopes[i]
        };
        match freshness {
            Freshness::MaxAge { .. } => {
                r.push(i);
            },
            _ => {},
        }
        i = i + 1;
    }
    proof {
        assert(want.take(i as int) =~= want);
        lemma_bounded_places(want);
    }
    r
}

/// The demands that a trial plan must cover, where any demand asks for a
/// bounded age: all but those that read the cache only.
pub open spec fn trial_scopes(q: Seq<Freshness>) -> Set<int> {
    Set::new(|i: int| 0 <= i < q.len() && !(q[i] is CacheOnly))
}

/// A place is in a list of places.
pub open spec fn lists(q: Seq<usize>, i: int) -> bool {
    exists|a: int| 0 <= a < q.len() && #[trigger] q[a] == i
}

/// Which demands a trial plan must cover before a decision can be taken. None
/// where no demand asks for a bounded age, so that no trial plan is needed.
pub fn trial_plan_scopes(scopes: &Vec<Freshness>, root_freshness: Freshness) -> (r: Option<Vec<usize>>)
    ensures
        r is Some <==> exists|i: int|
            0 <= i < scopes@.len() && #[trigger] asked(scopes@, root_freshness)[i] is MaxAge,
        r matches Some(q) ==> {
            &&& forall|a: int, b: int| 0 <= a < b < q@.len() ==> #[trigger] q@[a] < #[trigger] q@[b]
            &&& forall|i: int| #[trigger]
                trial_scopes(asked(scopes@, root_freshness)).contains(i) <==> lists(q@, i)
        },
{
    let ghost want = asked(scopes@, root_freshness);
    let mut out: Vec<usize> = Vec::new();
    let mut bounded = false;
    let mut i: usize = 0;
    while i < scopes.len()
        invariant
            i <= scopes@.len(),
            want == asked(scopes@, root_freshness),
            want.len() == scopes@.len(),
            bounded == exists|j: int| 0 <= j < i && #[trigger] want[j] is MaxAge,
            forall|a: int| 0 <= a < out@.len() ==> #[trigger] out@[a] < i,
            forall|a: int, b: int| 0 <= a < b < out@.len() ==> #[trigger] out@[a] < #[trigger] out@[b],
            forall|j: int|
                0 <= j < i && !(#[trigger] want[j] is CacheOnly) ==> exists|a: int|
                    0 <= a < out@.len() && #[trigger] out@[a] == j,
            forall|a: int| 0 <= a < out@.len() ==> !(want[#[trigger] out@[a] as int] is CacheOnly),
        decreases scopes@.len() - i,
    {
        let freshness = if i == 0 {
            root_freshness
        } else {
            scopes[i]
        };
        assert(freshness == want[i as int]);
        let ghost prior = out@;
        match freshness {
            Freshness::MaxAge { .. } => {
                bounded = true;
                out.push(i);
            },
            Freshness::Live => {
                out.push(i);
            },
            Freshness::CacheOnly => {},
        }
        proof {
            if bounded {
                if freshness is MaxAge {
                    assert(want[i as int] is MaxAge);
                }
            }
            assert forall|j: int| 0 <= j < i + 1 && !(#[trigger] want[j] is CacheOnly) implies exists|a: int|
                0 <= a < out@.len() && #[trigger] out@[a] == j by {
                if j < i {
                    let a = choose|a: int| 0 <= a < prior.len() && #[trigger] prior[a] == j;
                    assert(out@[a] == j);
                } else {
                    assert(out@[prior.len() as int] == j);
                }
            }
        }
        i = i + 1;
    }
    if bounded {
        proof {
            assert forall|x: int| #[trigger] trial_scopes(want).contains(x) <==> lists(out@, x) by {
                if trial_scopes(want).contains(x) {
                    assert(!(want[x] is CacheOnly));
                }
                if lists(out@, x) {
                    let a = choose|a: int| 0 <= a < out@.len() && #[trigger] out@[a] == x;
                    assert(!(want[out@[a] as int] is CacheOnly));
                }
            }
        }
        Some(out)
    } else {
        None
    }
}

/// What is decided for one demand. `opening` is the evidence read for it,
/// where it asks for a bounded age.
pub open spec fn decided(freshness: Freshness, opening: EvidenceView, now: u64) -> DecisionView {
    match freshness {
        Freshness::Live => DecisionView::Live,
        Freshness::CacheOnly => DecisionView::CacheOnly,
        Freshness::MaxAge { seconds } => if fresh(opening, seconds, now) {
            DecisionView::CoverageSatisfied(opening)
        } else {
            DecisionView::Live
        },
    }
}

/// What is decided for every demand. The demands with a bounded age take the
/// given evidence in turn.
pub open spec fn all_decided(q: Seq<Freshness>, openings: Seq<EvidenceView>, now: u64) -> Seq<DecisionView>
    decreases q.len(),
{
    if q.len() == 0 {
        Seq::empty()
    } else {
        let rest = q.drop_last();
        all_decided(rest, openings, now).push(
            decided(q.last(), openings[bounded_count(rest) as int], now),
        )
    }
}

/// Decides for each demand of a branch whether its relays are asked. `openings`
/// is the evidence that was read against the trial plan, one for each demand
/// with a bounded age, or the first failure to read one.
pub fn decide_handle_acquisition<E>(
    scopes: &Vec<Freshness>,
    root_freshness: Freshness,
    openings: Result<Vec<AcquisitionEvidence>, E>,
    now: u64,
) -> (r: Result<HandleAcquisition, E>)
    requires
        openings matches Ok(read) ==> read@.len() == bounded_count(asked(scopes@, root_freshness)),
    ensures
        match openings {
            Err(e) => r == Err::<HandleAcquisition, E>(e),
            Ok(read) => r matches Ok(acquisition) && decisions_view(acquisition.scopes@) == all_decided(
                asked(scopes@, root_freshness),
                evidence_view(read@),
                now,
            ),
        },
{
    let read = match openings {
        Ok(read) => read,
        Err(error) => {
            return Err(error);
        },
    };
    let ghost want = asked(scopes@, root_freshness);
    let mut out: Vec<ScopeAcquisition> = Vec::new();
    let total = read.len();
    let mut taken: usize = 0;
    let mut i: usize = 0;
    assert(want.take(0) =~= Seq::<Freshness>::empty());
    assert(decisions_view(out@) =~= Seq::<DecisionView>::empty());
    while i < scopes.len()
        invariant
            i <= scopes@.len(),
            want == asked(scopes@, root_freshness),
            want.len() == scopes@.len(),
            taken == bounded_count(want.take(i as int)),
            total == read@.len(),
            total == bounded_count(want),
            decisions_view(out@) == all_decided(want.take(i as int), evidence_view(read@), now),
        decreases scopes@.len() - i,
    {
        let freshness = if i == 0 {
            root_freshness
        } else {
            scopes[i]
        };
        let ghost prior = out@;
        proof {
            assert(freshness == want[i as int]);
            assert(want.take(i + 1).drop_last() =~= want.take(i as int));
            assert(want.take(i + 1).last() == freshness);
            lemma_bounded_prefix(want, i + 1);
        }
        let decision = match freshness {
            Freshness::Live => ScopeAcquisition::Live,
            Freshness::CacheOnly => ScopeAcquisition::CacheOnly,
            Freshness::MaxAge { seconds } => {
                let evidence = &read[taken];
                assert(evidence_view(read@)[taken as int] == evidence@);
                taken = taken + 1;
                if plan_is_fresh_for(evidence, seconds, now) {
                    ScopeAcquisition::CoverageSatisfied { evidence: evidence.copy() }
                } else {
                    ScopeAcquisition::Live
                }
            },
        };
        out.push(decision);
        assert(decisions_view(out@) =~= decisions_view(prior).push(decision@));
        i = i + 1;
    }
    assert(want.take(i as int) =~= want);
    Ok(HandleAcquisition { scopes: out })
}

proof fn lemma_bounded_prefix(q: Seq<Freshness>, i: int)
    requires
        0 <= i <= q.len(),
    ensures
        bounded_count(q.take(i)) <= bounded_count(q),
    decreases q.len() - i,
{
    if i < q.len() {
        assert(q.take(i + 1).drop_last() =~= q.take(i));
        lemma_bounded_prefix(q, i + 1);
    } else {
        assert(q.take(i) =~= q);
    }
}

/// Where the evidence of one demand comes from.
#[derive(Clone, Copy, Debug, PartialEq, Eq, Structural)]
pub enum EvidenceOrigin {
    /// What justified asking nothing when the demand opened.
    Opening,
    /// The plan in force.
    LivePlan,
    /// A plan with nothing in it.
    EmptyPlan,
}

pub open spec fn origin_of(d: DecisionView) -> EvidenceOrigin {
    match d {
        DecisionView::Live => EvidenceOrigin::LivePlan,
        DecisionView::CoverageSatisfied(_) => EvidenceOrigin::Opening,
        DecisionView::CacheOnly => EvidenceOrigin::EmptyPlan,
    }
}

/// Where the evidence of each demand comes from. `scopes` is how many demands
/// the branch has now; a demand without a decision has no evidence.
pub fn evidence_origins(scopes: usize, acquisition: &HandleAcquisition) -> (out: Vec<EvidenceOrigin>)
    ensures
        out@.len() == (if scopes <= acquisition.scopes@.len() {
            scopes as int
        } else {
            acquisition.scopes@.len() as int
        }),
        forall|i: int| 0 <= i < out@.len() ==> #[trigger] out@[i] == origin_of(acquisition.scopes@[i]@),
{
    let mut out: Vec<EvidenceOrigin> = Vec::new();
    let mut i: usize = 0;
    while i < scopes && i < acquisition.scopes.len()
        invariant
            i <= scopes,
            i <= acquisition.scopes@.len(),
            out@.len() == i,
            forall|j: int| 0 <= j < i ==> #[trigger] out@[j] == origin_of(acquisition.scopes@[j]@),
        decreases scopes - i,
    {
        let origin = match &acquisition.scopes[i] {
            ScopeAcquisition::Live => EvidenceOrigin::LivePlan,
            ScopeAcquisition::CoverageSatisfied { .. } => EvidenceOrigin::Opening,
            ScopeAcquisition::CacheOnly => EvidenceOrigin::EmptyPlan,
        };
        out.push(origin);
        i = i + 1;
    }
    out
}

/// How many of the first demands have evidence that is computed from a plan.
pub open spec fn planned_count(q: Seq<DecisionView>) -> nat
    decreases q.len(),
{
    if q.len() == 0 {
        0
    } else {
        planned_count(q.drop_last()) + if q.last() is CoverageSatisfied {
            0nat
        } else {
            1nat
        }
    }
}

/// The evidence of each demand: its opening evidence, or the next one that was
/// computed from a plan.
pub open spec fn evidence_parts(q: Seq<DecisionView>, computed: Seq<EvidenceView>) -> Seq<EvidenceView>
    decreases q.len(),
{
    if q.len() == 0 {
        Seq::empty()
    } else {
        let rest = q.drop_last();
        evidence_parts(rest, computed).push(
            match q.last() {
                DecisionView::CoverageSatisfied(e) => e,
                _ => computed[planned_count(rest) as int],
            },
        )
    }
}

/// The evidence of a branch, demand by demand. Where there is no demand with a
/// decision, one entry says that nothing has been resolved. `computed` is what
/// was computed from the plans, one for each demand that is not satisfied, or
/// the first failure to compute one.
pub fn acquisition_evidence_for_scopes<E>(
    scopes: usize,
    acquisition: &HandleAcquisition,
    computed: Result<Vec<AcquisitionEvidence>, E>,
) -> (r: Result<Vec<AcquisitionEvidence>, E>)
    requires
        computed matches Ok(read) ==> read@.len() == planned_count(
            decisions_view(acquisition.scopes@).take(
                if scopes <= acquisition.scopes@.len() {
                    scopes as int
                } else {
                    acquisition.scopes@.len() as int
                },
            ),
        ),
    ensures
        match computed {
            Err(e) => r == Err::<Vec<AcquisitionEvidence>, E>(e),
            Ok(read) => {
                let q = decisions_view(acquisition.scopes@).take(
                    if scopes <= acquisition.scopes@.len() {
                        scopes as int
                    } else {
                        acquisition.scopes@.len() as int
                    },
                );
                r matches Ok(parts) && evidence_view(parts@) == (if q.len() == 0 {
                    seq![
                        EvidenceView {
                            sources: Seq::empty(),
                            shortfall: seq![ShortfallFact::NoResolvedDemand],
                        },
                    ]
                } else {
                    evidence_parts(q, evidence_view(read@))
                })
            },
        },
{
    let read = match computed {
        Ok(read) => read,
        Err(error) => {
            return Err(error);
        },
    };
    let n: usize = if scopes <= acquisition.scopes.len() {
        scopes
    } else {
        acquisition.scopes.len()
    };
    let ghost all = decisions_view(acquisition.scopes@);
    let ghost q = all.take(n as int);
    let mut parts: Vec<AcquisitionEvidence> = Vec::new();
    let total = read.len();
    let mut taken: usize = 0;
    let mut i: usize = 0;
    assert(q.take(0) =~= Seq::<DecisionView>::empty());
    assert(evidence_view(parts@) =~= Seq::<EvidenceView>::empty());
    while i < n
        invariant
            i <= n,
            n <= acquisition.scopes@.len(),
            all == decisions_view(acquisition.scopes@),
            q == all.take(n as int),
            taken == planned_count(q.take(i as int)),
            total == read@.len(),
            total == planned_count(q),
            evidence_view(parts@) == evidence_parts(q.take(i as int), evidence_view(read@)),
            parts@.len() == i,
        decreases n - i,
    {
        let ghost prior = parts@;
        let decision = &acquisition.scopes[i];
        proof {
            assert(q.take(i + 1).drop_last() =~= q.take(i as int));
            assert(q.take(i + 1).last() == decision@);
            lemma_planned_prefix(q, i + 1);
        }
        let part = match decision.opening_evidence() {
            Some(evidence) => evidence.copy(),
            None => {
                assert(evidence_view(read@)[taken as int] == read@[taken as int]@);
                let part = read[taken].copy();
                taken = taken + 1;
                part
            },
        };
        parts.push(part);
        assert(evidence_view(parts@) =~= evidence_view(prior).push(part@));
        i = i + 1;
    }
    assert(q.take(i as int) =~= q);
    if parts.len() == 0 {
        let none = AcquisitionEvidence::no_resolved_demand();
        parts.push(none);
        assert(evidence_view(parts@) =~= seq![
            EvidenceView { sources: Seq::empty(), shortfall: seq![ShortfallFact::NoResolvedDemand] },
        ]);
    }
    Ok(parts)
}

proof fn lemma_planned_prefix(q: Seq<DecisionView>, i: int)
    requires
        0 <= i <= q.len(),
    ensures
        planned_count(q.take(i)) <= planned_count(q),
    decreases q.len() - i,
{
    if i < q.len() {
        assert(q.take(i + 1).drop_last() =~= q.take(i));
        lemma_planned_prefix(q, i + 1);
    } else {
        assert(q.take(i) =~= q);
    }
}

/// What a branch asks its relays for: the atoms of its live demands.
pub open spec fn wire_atoms(scopes: Seq<Set<u64>>, decided: Seq<ScopeAcquisition>) -> Set<u64> {
    Set::new(
        |atom: u64|
            exists|i: int|
                0 <= i < scopes.len() && i < decided.len() && (#[trigger] decided[i]) is Live
                    && scopes[i].contains(atom),
    )
}

/// The atoms of each demand of a branch, as sets.
pub open spec fn atoms_of(scopes: Seq<SortedSet<u64>>) -> Seq<Set<u64>> {
    Seq::new(scopes.len(), |i: int| scopes[i]@)
}

pub fn wire_atoms_for_handle(scopes: &Vec<SortedSet<u64>>, acquisition: &HandleAcquisition) -> (r: SortedSet<u64>)
    ensures
        r@ == wire_atoms(atoms_of(scopes@), acquisition.scopes@),
{
    let ghost sets = atoms_of(scopes@);
    let ghost decided = acquisition.scopes@;
    let mut r: SortedSet<u64> = SortedSet::new();
    let mut i: usize = 0;
    while i < scopes.len() && i < acquisition.scopes.len()
        invariant
            i <= scopes@.len(),
            i <= decided.len(),
            sets == atoms_of(scopes@),
            decided == acquisition.scopes@,
            forall|atom: u64| #[trigger]
                r@.contains(atom) <==> exists|j: int|
                    0 <= j < i && (#[trigger] decided[j]) is Live && sets[j].contains(atom),
        decreases scopes@.len() - i,
    {
        let ghost before = r@;
        if acquisition.scopes[i].contributes_wire() {
            r.extend(&scopes[i]);
        }
        assert forall|atom: u64| #[trigger] r@.contains(atom) <==> exists|j: int|
            0 <= j < i + 1 && (#[trigger] decided[j]) is Live && sets[j].contains(atom) by {
            if before.contains(atom) {
                let j = choose|j: int|
                    0 <= j < i && (#[trigger] decided[j]) is Live && sets[j].contains(atom);
                assert(decided[j] is Live);
            } else if r@.contains(atom) {
                assert(decided[i as int] is Live && sets[i as int].contains(atom));
            }
        }
        i = i + 1;
    }
    assert(r@ =~= wire_atoms(sets, decided));
    r
}

/// A branch whose every demand reads the cache or is satisfied asks its relays
/// for nothing.
pub proof fn satisfied_branch_asks_nothing(scopes: Seq<Set<u64>>, decided: Seq<ScopeAcquisition>)
    requires
        forall|i: int| 0 <= i < decided.len() ==> !((#[trigger] decided[i]) is Live),
    ensures
        wire_atoms(scopes, decided) == Set::<u64>::empty(),
{
    assert(wire_atoms(scopes, decided) =~= Set::<u64>::empty());
}

proof fn lemma_places(q: Seq<Freshness>)
    requires
        q.len() <= usize::MAX,
    ensures
        forall|a: int| 0 <= a < bounded_places(q).len() ==> (#[trigger] bounded_places(q)[a]) < q.len(),
        forall|a: int, b: int|
            0 <= a < b < bounded_places(q).len() ==> #[trigger] bounded_places(q)[a]
                < #[trigger] bounded_places(q)[b],
        forall|i: int| 0 <= i < q.len() ==> ((#[trigger] q[i]) is MaxAge <==> lists(bounded_places(q), i)),
        bounded_places(q).len() == bounded_count(q),
    decreases q.len(),
{
    if q.len() > 0 {
        let rest = q.drop_last();
        lemma_places(rest);
        let p = bounded_places(rest);
        let r = bounded_places(q);
        assert forall|i: int| 0 <= i < q.len() implies ((#[trigger] q[i]) is MaxAge <==> lists(r, i)) by {
            if i < rest.len() {
                assert(rest[i] == q[i]);
                if lists(p, i) {
                    let a = choose|a: int| 0 <= a < p.len() && #[trigger] p[a] == i;
                    assert(r[a] == i);
                }
                if lists(r, i) {
                    let a = choose|a: int| 0 <= a < r.len() && #[trigger] r[a] == i;
                    assert(p[a] == i);
                }
            } else {
                if q[i] is MaxAge {
                    assert(r[p.len() as int] == i);
                }
                if lists(r, i) {
                    let a = choose|a: int| 0 <= a < r.len() && #[trigger] r[a] == i;
                    if a < p.len() {
                        assert(p[a] < rest.len());
                    }
                }
            }
        }
    }
}

proof fn lemma_decided_at(q: Seq<Freshness>, openings: Seq<EvidenceView>, now: u64)
    requires
        q.len() <= usize::MAX,
    ensures
        all_decided(q, openings, now).len() == q.len(),
        forall|i: int|
            0 <= i < q.len() ==> (q[i] is Live ==> (#[trigger] all_decided(q, openings, now)[i]) is Live),
        forall|i: int|
            0 <= i < q.len() ==> (q[i] is CacheOnly ==> (#[trigger] all_decided(
                q,
                openings,
                now,
            )[i]) is CacheOnly),
        forall|a: int|
            0 <= a < bounded_places(q).len() ==> all_decided(q, openings, now)[(
            #[trigger] bounded_places(q)[a]) as int] == decided(
                q[bounded_places(q)[a] as int],
                openings[a],
                now,
            ),
    decreases q.len(),
{
    if q.len() > 0 {
        let rest = q.drop_last();
        lemma_decided_at(rest, openings, now);
        lemma_places(rest);
        lemma_places(q);
        let p = bounded_places(rest);
        let r = bounded_places(q);
        let before = all_decided(rest, openings, now);
        let d = all_decided(q, openings, now);
        assert forall|i: int| 0 <= i < q.len() && q[i] is Live implies (#[trigger] d[i]) is Live by {
            if i < rest.len() {
                assert(rest[i] == q[i]);
                assert(d[i] == before[i]);
            }
        }
        assert forall|i: int| 0 <= i < q.len() && q[i] is CacheOnly implies (#[trigger] d[i]) is CacheOnly by {
            if i < rest.len() {
                assert(rest[i] == q[i]);
                assert(d[i] == before[i]);
            }
        }
        assert forall|a: int| 0 <= a < r.len() implies d[(#[trigger] r[a]) as int] == decided(
            q[r[a] as int],
            openings[a],
            now,
        ) by {
            if a < p.len() {
                assert(r[a] == p[a]);
                assert(p[a] < rest.len());
                assert(rest[p[a] as int] == q[r[a] as int]);
                assert(d[r[a] as int] == before[p[a] as int]);
            }
        }
    }
}

/// The freshness that is asked of one demand: that of the root for the first, its own
/// for every other.
pub proof fn root_decides_for_the_first_demand(scopes: Seq<Freshness>, root: Freshness, i: int)
    requires
        0 <= i < scopes.len(),
    ensures
        asked(scopes, root).len() == scopes.len(),
        asked(scopes, root)[i] == (if i == 0 {
            root
        } else {
            scopes[i]
        }),
{
}

/// Opening evidence is read for exactly the demands that ask for a bounded age, each
/// once and in order.
pub proof fn evidence_is_read_for_bounded_demands(scopes: Seq<Freshness>, root: Freshness)
    requires
        scopes.len() <= usize::MAX,
    ensures
        ({
            let places = bounded_places(asked(scopes, root));
            &&& forall|a: int, b: int|
                0 <= a < b < places.len() ==> #[trigger] places[a] < #[trigger] places[b]
            &&& forall|a: int|
                0 <= a < places.len() ==> (#[trigger] places[a]) < scopes.len() && (if places[a] == 0 {
                    root is MaxAge
                } else {
                    scopes[places[a] as int] is MaxAge
                })
            &&& forall|i: int|
                0 <= i < scopes.len() && (if i == 0 {
                    root is MaxAge
                } else {
                    (#[trigger] scopes[i]) is MaxAge
                }) ==> exists|a: int| 0 <= a < places.len() && #[trigger] places[a] == i
        }),
{
    let q = asked(scopes, root);
    let places = bounded_places(q);
    lemma_places(q);
    assert forall|a: int| 0 <= a < places.len() implies (#[trigger] places[a]) < scopes.len() && (if places[a]
        == 0 {
        root is MaxAge
    } else {
        scopes[places[a] as int] is MaxAge
    }) by {
        assert(lists(places, places[a] as int));
        assert(q[places[a] as int] is MaxAge);
    }
    assert forall|i: int|
        0 <= i < scopes.len() && (if i == 0 {
            root is MaxAge
        } else {
            (#[trigger] scopes[i]) is MaxAge
        }) implies exists|a: int| 0 <= a < places.len() && #[trigger] places[a] == i by {
        assert(q[i] is MaxAge);
        assert(lists(places, i));
    }
}

/// What is decided when a branch opens. A demand that asks for live rows asks its
/// relays. A demand reads the cache only where it asked for that, and never because
/// its cache is too old. A demand with a bounded age is satisfied if and only if its
/// own opening evidence names a source, nothing falls short, and every source has been
/// read up to at most that long ago; it then keeps that evidence, and asks its relays
/// otherwise.
pub proof fn stale_demand_asks_its_relays(
    scopes: Seq<Freshness>,
    root: Freshness,
    openings: Seq<EvidenceView>,
    now: u64,
)
    requires
        scopes.len() <= usize::MAX,
        openings.len() == bounded_places(asked(scopes, root)).len(),
    ensures
        ({
            let d = all_decided(asked(scopes, root), openings, now);
            let places = bounded_places(asked(scopes, root));
            &&& d.len() == scopes.len()
            &&& forall|i: int|
                0 <= i < scopes.len() ==> ((#[trigger] d[i]) is CacheOnly <==> (if i == 0 {
                    root
                } else {
                    scopes[i]
                }) is CacheOnly)
            &&& forall|i: int|
                0 <= i < scopes.len() && (if i == 0 {
                    root
                } else {
                    scopes[i]
                }) is Live ==> (#[trigger] d[i]) is Live
            &&& forall|i: int|
                0 <= i < scopes.len() && (#[trigger] d[i]) is CoverageSatisfied ==> (if i == 0 {
                    root
                } else {
                    scopes[i]
                }) is MaxAge
            &&& forall|a: int|
                0 <= a < places.len() ==> {
                    let i = (#[trigger] places[a]) as int;
                    let seconds = (if i == 0 {
                        root
                    } else {
                        scopes[i]
                    })->seconds;
                    let satisfied = openings[a].sources.len() > 0 && openings[a].shortfall.len() == 0
                        && forall|k: int|
                        0 <= k < openings[a].sources.len() ==> ((
                        #[trigger] openings[a].sources[k]).reconciled_through matches Some(through) && now
                            <= through + seconds);
                    d[i] == (if satisfied {
                        DecisionView::CoverageSatisfied(openings[a])
                    } else {
                        DecisionView::Live
                    })
                }
        }),
{
    let q = asked(scopes, root);
    let d = all_decided(q, openings, now);
    let places = bounded_places(q);
    lemma_places(q);
    lemma_decided_at(q, openings, now);
    assert forall|i: int| 0 <= i < scopes.len() implies q[i] == (if i == 0 {
        root
    } else {
        scopes[i]
    }) by {}
    assert forall|a: int| 0 <= a < places.len() implies q[(#[trigger] places[a]) as int] is MaxAge by {
        assert(lists(places, places[a] as int));
    }
    assert forall|i: int| 0 <= i < scopes.len() && q[i] is MaxAge implies !((#[trigger] d[i]) is CacheOnly) by {
        assert(lists(places, i));
        let a = choose|a: int| 0 <= a < places.len() && #[trigger] places[a] == i;
        assert(d[places[a] as int] == decided(q[places[a] as int], openings[a], now));
    }
    assert forall|a: int| 0 <= a < places.len() implies ({
        let i = (#[trigger] places[a]) as int;
        let seconds = (if i == 0 {
            root
        } else {
            scopes[i]
        })->seconds;
        let satisfied = openings[a].sources.len() > 0 && openings[a].shortfall.len() == 0 && forall|k: int|
            0 <= k < openings[a].sources.len() ==> ((#[trigger] openings[a].sources[k]).reconciled_through
                matches Some(through) && now <= through + seconds);
        d[i] == (if satisfied {
            DecisionView::CoverageSatisfied(openings[a])
        } else {
            DecisionView::Live
        })
    }) by {
        let i = places[a] as int;
        let seconds = q[i]->seconds;
        assert(d[places[a] as int] == decided(q[i], openings[a], now));
        let satisfied = openings[a].sources.len() > 0 && openings[a].shortfall.len() == 0 && forall|k: int|
            0 <= k < openings[a].sources.len() ==> ((#[trigger] openings[a].sources[k]).reconciled_through
                matches Some(through) && now <= through + seconds);
        assert(satisfied == fresh(openings[a], seconds, now));
    }
}

/// A trial plan covers exactly the demands that do not read the cache only.
pub proof fn trial_plan_leaves_out_the_cache_only(scopes: Seq<Freshness>, root: Freshness, i: int)
    ensures
        trial_scopes(asked(scopes, root)).contains(i) <==> 0 <= i < scopes.len() && !((if i == 0 {
            root
        } else {
            scopes[i]
        }) is CacheOnly),
{
}

proof fn lemma_planned_at(q: Seq<DecisionView>, computed: Seq<EvidenceView>)
    ensures
        evidence_parts(q, computed).len() == q.len(),
        forall|i: int|
            0 <= i < q.len() ==> #[trigger] evidence_parts(q, computed)[i] == (match q[i] {
                DecisionView::CoverageSatisfied(e) => e,
                _ => computed[planned_count(q.take(i)) as int],
            }),
    decreases q.len(),
{
    if q.len() > 0 {
        let rest = q.drop_last();
        lemma_planned_at(rest, computed);
        assert forall|i: int| 0 <= i < q.len() implies #[trigger] evidence_parts(q, computed)[i] == (match q[i] {
            DecisionView::CoverageSatisfied(e) => e,
            _ => computed[planned_count(q.take(i)) as int],
        }) by {
            if i < rest.len() {
                assert(rest.take(i) =~= q.take(i));
                assert(rest[i] == q[i]);
                assert(evidence_parts(q, computed)[i] == evidence_parts(rest, computed)[i]);
            } else {
                assert(q.take(i) =~= rest);
            }
        }
    }
}

/// The evidence of a satisfied demand is the one that it opened with, and where none
/// is satisfied the computed evidence is taken as it stands, in order.
pub proof fn satisfied_demand_keeps_its_evidence(q: Seq<DecisionView>, computed: Seq<EvidenceView>, i: int)
    requires
        0 <= i < q.len(),
    ensures
        evidence_parts(q, computed).len() == q.len(),
        q[i] matches DecisionView::CoverageSatisfied(e) ==> evidence_parts(q, computed)[i] == e,
        (forall|j: int| 0 <= j <= i ==> !((#[trigger] q[j]) is CoverageSatisfied)) ==> evidence_parts(
            q,
            computed,
        )[i] == computed[i],
        !(q[i] is CoverageSatisfied) ==> exists|k: int|
            0 <= k <= i && evidence_parts(q, computed)[i] == #[trigger] computed[k],
{
    lemma_planned_at(q, computed);
    lemma_planned_count(q.take(i));
    if forall|j: int| 0 <= j <= i ==> !((#[trigger] q[j]) is CoverageSatisfied) {
        lemma_all_planned(q.take(i));
    }
    if !(q[i] is CoverageSatisfied) {
        let k = planned_count(q.take(i)) as int;
        assert(evidence_parts(q, computed)[i] == computed[k]);
        assert(0 <= k <= i);
    }
}

proof fn lemma_planned_count(q: Seq<DecisionView>)
    ensures
        planned_count(q) <= q.len(),
    decreases q.len(),
{
    if q.len() > 0 {
        lemma_planned_count(q.drop_last());
    }
}

proof fn lemma_all_planned(q: Seq<DecisionView>)
    requires
        forall|j: int| 0 <= j < q.len() ==> !((#[trigger] q[j]) is CoverageSatisfied),
    ensures
        planned_count(q) == q.len(),
    decreases q.len(),
{
    if q.len() > 0 {
        assert(!(q[q.len() - 1] is CoverageSatisfied));
        lemma_all_planned(q.drop_last());
    }
}

/// No computed evidence is taken twice or passed over: of two demands with only
/// satisfied ones between them, the later takes the evidence that follows the one
/// which the earlier takes.
pub proof fn computed_evidence_is_taken_in_order(
    q: Seq<DecisionView>,
    computed: Seq<EvidenceView>,
    i: int,
    j: int,
)
    requires
        0 <= i < j < q.len(),
        !(q[i] is CoverageSatisfied),
        !(q[j] is CoverageSatisfied),
        forall|k: int| i < k < j ==> (#[trigger] q[k]) is CoverageSatisfied,
    ensures
        exists|k: int|
            0 <= k <= i && evidence_parts(q, computed)[i] == #[trigger] computed[k] && evidence_parts(
                q,
                computed,
            )[j] == computed[k + 1],
{
    lemma_run(q, i, j);
    lemma_planned_at(q, computed);
    lemma_planned_count(q.take(i));
    let k = planned_count(q.take(i)) as int;
    assert(evidence_parts(q, computed)[i] == computed[k]);
    assert(evidence_parts(q, computed)[j] == computed[k + 1]);
    assert(0 <= k <= i);
}

proof fn lemma_run(q: Seq<DecisionView>, i: int, j: int)
    requires
        0 <= i < j <= q.len(),
        !(q[i] is CoverageSatisfied),
        forall|k: int| i < k < j ==> (#[trigger] q[k]) is CoverageSatisfied,
    ensures
        planned_count(q.take(j)) == planned_count(q.take(i)) + 1,
    decreases j - i,
{
    assert(q.take(j).drop_last() =~= q.take(j - 1));
    assert(q.take(j).last() == q[j - 1]);
    if j > i + 1 {
        lemma_run(q, i, j - 1);
    }
}

/// Where the evidence of a demand comes from: from the plan in force exactly where the
/// demand asks its relays, and from what it opened with exactly where it is satisfied.
pub proof fn evidence_comes_from_the_decision(d: DecisionView)
    ensures
        origin_of(d) is LivePlan <==> d is Live,
        origin_of(d) is Opening <==> d is CoverageSatisfied,
        origin_of(d) is EmptyPlan <==> d is CacheOnly,
{
}

/// A branch asks its relays for the atoms of its live demands and for nothing else.
pub proof fn live_demands_ask_for_their_atoms(scopes: Seq<Set<u64>>, decided: Seq<ScopeAcquisition>, atom: u64)
    ensures
        wire_atoms(scopes, decided).contains(atom) <==> exists|i: int|
            0 <= i < scopes.len() && i < decided.len() && (#[trigger] decided[i]) == ScopeAcquisition::Live
                && scopes[i].contains(atom),
{
}

} // verus!
