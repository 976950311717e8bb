//! Typed ownership for observation execution targets: which branch executes
//! which filter path against which logical demand, and which of those are
//! live on the wire.
//!
//! What a branch declares and what of it is live are kept apart: a branch
//! whose freshness decision suppresses a scope still owns its declaration, and
//! gets it back unchanged when the scope contributes again.

use vstd::prelude::*;

use crate::ids::{DemandKey, HandleId};
use crate::key::{
    is_listing, lemma_image, lemma_is_listing, lemma_listing_exists, lemma_listing_members, lemma_listing_of, lemma_push_contains,
    listing_of, same, Key, Pair,
};
use crate::sorted::{SortedMap, SortedSet};
use crate::tally::{row_of, total, with_row, without_row, Tally};

verus! {

/// One current filter-resolution owner below a branch handle. The path is
/// named by a number.
#[derive(Clone, Copy, Debug, PartialEq, Eq, Structural)]
pub struct ActiveRequestTarget {
    pub demand: DemandKey,
    pub scope: u64,
    pub path: u64,
    pub revision: u64,
}

/// Reverse-index value for one current observation execution target.
#[derive(Clone, Copy, Debug, PartialEq, Eq, Structural)]
pub struct RequestTarget {
    pub handle: HandleId,
    pub path: u64,
    pub revision: u64,
}

impl Key for ActiveRequestTarget {
    open spec fn rank(self) -> int {
        Pair(Pair(self.demand, self.scope), Pair(self.path, self.revision)).rank()
    }

    open spec fn bound() -> int {
        <Pair<Pair<DemandKey, u64>, Pair<u64, u64>> as Key>::bound()
    }

    proof fn rank_in_bound(a: Self) {
        <Pair<Pair<DemandKey, u64>, Pair<u64, u64>> as Key>::rank_in_bound(
            Pair(Pair(a.demand, a.scope), Pair(a.path, a.revision)),
        );
    }

    proof fn rank_injective(a: Self, b: Self) {
        <Pair<Pair<DemandKey, u64>, Pair<u64, u64>> as Key>::rank_injective(
            Pair(Pair(a.demand, a.scope), Pair(a.path, a.revision)),
            Pair(Pair(b.demand, b.scope), Pair(b.path, b.revision)),
        );
    }

    fn precedes(&self, other: &Self) -> (b: bool) {
        Pair(Pair(self.demand, self.scope), Pair(self.path, self.revision)).precedes(
            &Pair(Pair(other.demand, other.scope), Pair(other.path, other.revision)),
        )
    }
}

impl Key for RequestTarget {
    open spec fn rank(self) -> int {
        Pair(self.handle, Pair(self.path, self.revision)).rank()
    }

    open spec fn bound() -> int {
        <Pair<HandleId, Pair<u64, u64>> as Key>::bound()
    }

    proof fn rank_in_bound(a: Self) {
        <Pair<HandleId, Pair<u64, u64>> as Key>::rank_in_bound(
            Pair(a.handle, Pair(a.path, a.revision)),
        );
    }

    proof fn rank_injective(a: Self, b: Self) {
        <Pair<HandleId, Pair<u64, u64>> as Key>::rank_injective(
            Pair(a.handle, Pair(a.path, a.revision)),
            Pair(b.handle, Pair(b.path, b.revision)),
        );
    }

    fn precedes(&self, other: &Self) -> (b: bool) {
        Pair(self.handle, Pair(self.path, self.revision)).precedes(
            &Pair(other.handle, Pair(other.path, other.revision)),
        )
    }
}

/// One demand's live target.
pub type LiveTarget = Pair<DemandKey, RequestTarget>;

/// The live target that a declared one becomes: its scope is folded away.
pub open spec fn folded(id: HandleId, target: ActiveRequestTarget) -> LiveTarget {
    Pair(
        target.demand,
        RequestTarget { handle: id, path: target.path, revision: target.revision },
    )
}

/// The references that the declared targets in `q` give one live target.
pub open spec fn refs_over(
    id: HandleId,
    q: Seq<ActiveRequestTarget>,
    declared: Map<ActiveRequestTarget, usize>,
    scopes: Set<u64>,
    live: LiveTarget,
) -> nat
    decreases q.len(),
{
    if q.len() == 0 {
        0
    } else {
        refs_over(id, q.drop_last(), declared, scopes, live) + if scopes.contains(q.last().scope)
            && folded(id, q.last()) == live {
            declared[q.last()] as nat
        } else {
            0
        }
    }
}

/// The references that a declaration gives one live target.
pub open spec fn refs(
    id: HandleId,
    declared: Map<ActiveRequestTarget, usize>,
    scopes: Set<u64>,
    live: LiveTarget,
) -> nat {
    refs_over(id, listing_of(declared.dom()), declared, scopes, live)
}

/// What of a declaration is live while `scopes` contribute wire.
pub open spec fn activation(
    id: HandleId,
    declared: Map<ActiveRequestTarget, usize>,
    scopes: Set<u64>,
) -> Map<LiveTarget, usize> {
    Map::new(
        |live: LiveTarget|
            exists|t: ActiveRequestTarget| #[trigger]
                declared.contains_key(t) && scopes.contains(t.scope) && folded(id, t) == live,
        |live: LiveTarget| refs(id, declared, scopes, live) as usize,
    )
}

/// No live target of the declaration has more references than can be counted.
pub open spec fn countable(id: HandleId, declared: Map<ActiveRequestTarget, usize>) -> bool {
    forall|live: LiveTarget| #[trigger] refs(id, declared, Set::full(), live) <= usize::MAX
}

proof fn lemma_refs_monotone(
    id: HandleId,
    q: Seq<ActiveRequestTarget>,
    declared: Map<ActiveRequestTarget, usize>,
    scopes: Set<u64>,
    live: LiveTarget,
)
    ensures
        refs_over(id, q, declared, scopes, live) <= refs_over(id, q, declared, Set::full(), live),
    decreases q.len(),
{
    if q.len() > 0 {
        lemma_refs_monotone(id, q.drop_last(), declared, scopes, live);
    }
}

proof fn lemma_refs_prefix(
    id: HandleId,
    q: Seq<ActiveRequestTarget>,
    declared: Map<ActiveRequestTarget, usize>,
    scopes: Set<u64>,
    live: LiveTarget,
    i: int,
)
    requires
        0 <= i <= q.len(),
    ensures
        refs_over(id, q.take(i), declared, scopes, live) <= refs_over(id, q, declared, scopes, live),
    decreases q.len() - i,
{
    if i < q.len() {
        assert(q.take(i + 1).drop_last() =~= q.take(i));
        lemma_refs_prefix(id, q, declared, scopes, live, i + 1);
    } else {
        assert(q.take(i) =~= q);
    }
}

proof fn lemma_refs_none(
    id: HandleId,
    q: Seq<ActiveRequestTarget>,
    declared: Map<ActiveRequestTarget, usize>,
    scopes: Set<u64>,
    live: LiveTarget,
)
    requires
        forall|i: int|
            0 <= i < q.len() ==> !(scopes.contains((#[trigger] q[i]).scope) && folded(id, q[i]) == live),
    ensures
        refs_over(id, q, declared, scopes, live) == 0,
    decreases q.len(),
{
    if q.len() > 0 {
        lemma_refs_none(id, q.drop_last(), declared, scopes, live);
        assert(q.last() == q[q.len() - 1]);
    }
}

/// What walking the live targets of some demands had to examine.
#[derive(Clone, Copy, Debug, PartialEq, Eq)]
pub struct DemandWalk {
    pub demand_keys_touched: u64,
    pub candidates_examined: u64,
}

/// How many records each layer holds.
#[derive(Clone, Copy, Debug, PartialEq, Eq)]
pub struct RequestTargetCounts {
    pub handles: usize,
    pub demand_keys: usize,
    pub edges: usize,
    pub refs: usize,
    pub active_handles: usize,
    pub active_demand_keys: usize,
    pub active_edges: usize,
    pub active_refs: usize,
}

/// How the live layer can disagree with itself or with the declarations.
#[derive(Clone, Copy, Debug, PartialEq, Eq)]
pub enum TargetFault {
    /// A handle has live targets but declares none.
    NoDeclaration { handle: HandleId },
    /// A handle's activation names a target of another handle.
    ForeignTarget { handle: HandleId, live: LiveTarget },
    /// A live target claims more references than its handle declares.
    TooManyRefs { handle: HandleId, live: LiveTarget },
    /// The demand index does not have the entry that an activation has.
    NotIndexed { live: LiveTarget },
    /// The demand index has an entry that no activation has.
    NotActivated { live: LiveTarget },
}

/// Every execution target of every branch.
pub struct RequestTargets {
    by_handle: Tally<HandleId, ActiveRequestTarget>,
    by_demand: Tally<DemandKey, RequestTarget>,
    active_by_handle_demand: Tally<HandleId, LiveTarget>,
}

impl RequestTargets {
    /// What each branch declares.
    pub closed spec fn declared(&self) -> Map<Pair<HandleId, ActiveRequestTarget>, usize> {
        self.by_handle@
    }

    /// What is live, by demand.
    pub closed spec fn live(&self) -> Map<LiveTarget, usize> {
        self.by_demand@
    }

    /// What is live, by branch.
    pub closed spec fn active(&self) -> Map<Pair<HandleId, LiveTarget>, usize> {
        self.active_by_handle_demand@
    }

    /// A branch's activation names only its own targets, and none with more
    /// references than the branch declares.
    pub open spec fn traced(&self) -> bool {
        forall|e: Pair<HandleId, LiveTarget>| #[trigger]
            self.active().contains_key(e) ==> {
                &&& e.1.1.handle == e.0
                &&& row_of(self.declared(), e.0) != Map::<ActiveRequestTarget, usize>::empty()
                &&& self.active()[e] <= refs(e.0, row_of(self.declared(), e.0), Set::full(), e.1)
            }
    }

    /// The demand index is the exact merge of every branch's activation.
    pub open spec fn merged(&self) -> bool {
        &&& forall|e: Pair<HandleId, LiveTarget>| #[trigger]
            self.active().contains_key(e) ==> self.live().contains_key(e.1) && self.live()[e.1]
                == self.active()[e]
        &&& forall|l: LiveTarget| #[trigger]
            self.live().contains_key(l) ==> self.active().contains_key(Pair(l.1.handle, l))
    }

    pub open spec fn all_countable(&self) -> bool {
        forall|id: HandleId| countable(id, #[trigger] row_of(self.declared(), id))
    }

    pub open spec fn wf(&self) -> bool {
        &&& self.traced()
        &&& self.merged()
        &&& self.all_countable()
    }

    pub fn new() -> (r: Self)
        ensures
            r.wf(),
            r.declared() == Map::<Pair<HandleId, ActiveRequestTarget>, usize>::empty(),
            r.active() == Map::<Pair<HandleId, LiveTarget>, usize>::empty(),
            r.live() == Map::<LiveTarget, usize>::empty(),
    {
        let r = RequestTargets {
            by_handle: Tally::new(),
            by_demand: Tally::new(),
            active_by_handle_demand: Tally::new(),
        };
        proof {
            let none = Map::<ActiveRequestTarget, usize>::empty();
            assert forall|id: HandleId| countable(id, #[trigger] row_of(r.declared(), id)) by {
                assert(row_of(r.declared(), id) =~= none);
                lemma_is_listing(Seq::<ActiveRequestTarget>::empty(), none.dom());
                lemma_listing_of(Seq::<ActiveRequestTarget>::empty(), none.dom());
            }
        }
        r
    }

    /// Retires every live target of one branch. Its declaration stays.
    pub fn deactivate_handle(&mut self, id: &HandleId)
        requires
            old(self).wf(),
        ensures
            final(self).wf(),
            final(self).declared() == old(self).declared(),
            final(self).active() == without_row(old(self).active(), *id),
    {
        let ghost before = *old(self);
        let row = self.active_by_handle_demand.take_row(id);
        let n = row.len();
        let ghost q = row.keys();
        let mut i: usize = 0;
        proof {
            lemma_listing_members(q, row@.dom());
            assert(before.live().remove_keys(q.take(0).to_set()) =~= before.live());
        }
        while i < n
            invariant
                i <= n,
                n == q.len(),
                q == row.keys(),
                q.no_duplicates(),
                is_listing(q, row@.dom()),
                before.wf(),
                row@ == row_of(before.active(), *id),
                self.by_handle == before.by_handle,
                self.active_by_handle_demand@ == without_row(before.active(), *id),
                self.by_demand@ == before.live().remove_keys(q.take(i as int).to_set()),
            decreases n - i,
        {
            let live = row.key_at(i);
            let count = *row.value_at(i);
            proof {
                assert(before.active().contains_key(Pair(*id, live)));
                assert(!q.take(i as int).contains(live));
                lemma_drop_next(before.live(), q, i as int);
            }
            self.by_demand.lower(&live.0, &live.1, count);
            i = i + 1;
        }
        proof {
            assert(q.take(n as int) =~= q);
            let gone = row@.dom();
            lemma_listing_members(q, gone);
            assert forall|l: LiveTarget| self.live().contains_key(l) <==> before.live().contains_key(l)
                && l.1.handle != *id by {
                if before.live().contains_key(l) {
                    assert(before.active().contains_key(Pair(l.1.handle, l)));
                    assert(gone.contains(l) <==> before.active().contains_key(Pair(*id, l)));
                    if gone.contains(l) {
                        assert(before.active().contains_key(Pair(*id, l)));
                    }
                }
            }
            assert(self.wf()) by {
                assert forall|e: Pair<HandleId, LiveTarget>| #[trigger]
                    self.active().contains_key(e) implies self.live().contains_key(e.1)
                    && self.live()[e.1] == self.active()[e] by {
                    assert(before.active().contains_key(e));
                }
                assert forall|l: LiveTarget| #[trigger]
                    self.live().contains_key(l) implies self.active().contains_key(Pair(l.1.handle, l)) by {
                    assert(before.live().contains_key(l));
                    assert(before.active().contains_key(Pair(l.1.handle, l)));
                }
                assert forall|e: Pair<HandleId, LiveTarget>| #[trigger]
                    self.active().contains_key(e) implies {
                    &&& e.1.1.handle == e.0
                    &&& row_of(self.declared(), e.0) != Map::<ActiveRequestTarget, usize>::empty()
                    &&& self.active()[e] <= refs(e.0, row_of(self.declared(), e.0), Set::full(), e.1)
                } by {
                    assert(before.active().contains_key(e));
                }
                assert(self.declared() == before.declared());
                assert(before.all_countable());
                assert forall|o: HandleId| countable(o, #[trigger] row_of(self.declared(), o)) by {
                    assert(countable(o, row_of(before.declared(), o)));
                }
            }
        }
    }

    /// What of the declaration of one branch is live for the given scopes.
    fn fold_declared(
        id: &HandleId,
        declared: &SortedMap<ActiveRequestTarget, usize>,
        active_scopes: &SortedSet<u64>,
    ) -> (active: SortedMap<LiveTarget, usize>)
        requires
            countable(*id, declared@),
        ensures
            active@ == activation(*id, declared@, active_scopes@),
            forall|l: LiveTarget| #[trigger]
                active@.contains_key(l) ==> active@[l] as nat <= refs(
                    *id,
                    declared@,
                    Set::full(),
                    l,
                ),
    {
        let n = declared.len();
        let ghost q = declared.keys();
        let ghost scopes = active_scopes@;
        let mut active: SortedMap<LiveTarget, usize> = SortedMap::new();
        let mut i: usize = 0;
        proof {
            lemma_listing_of(q, declared@.dom());
            assert(q.take(0) =~= Seq::<ActiveRequestTarget>::empty());
        }
        while i < n
            invariant
                i <= n,
                n == q.len(),
                q == declared.keys(),
                scopes == active_scopes@,
                is_listing(q, declared@.dom()),
                q == listing_of(declared@.dom()),
                countable(*id, declared@),
                forall|l: LiveTarget| #[trigger]
                    active@.contains_key(l) <==> exists|j: int|
                        0 <= j < i && scopes.contains((#[trigger] q[j]).scope) && folded(*id, q[j]) == l,
                forall|l: LiveTarget| #[trigger]
                    active@.contains_key(l) ==> active@[l] as nat == refs_over(
                        *id,
                        q.take(i as int),
                        declared@,
                        scopes,
                        l,
                    ),
            decreases n - i,
        {
            let target = declared.key_at(i);
            let count = *declared.value_at(i);
            let ghost prior = active@;
            proof {
                assert(q.take(i + 1).drop_last() =~= q.take(i as int));
                assert(q.take(i + 1).last() == target);
            }
            if active_scopes.contains(&target.scope) {
                let live = Pair(
                    target.demand,
                    RequestTarget { handle: *id, path: target.path, revision: target.revision },
                );
                let had: usize = match active.get(&live) {
                    Some(had) => *had,
                    None => 0,
                };
                proof {
                    assert(live == folded(*id, target));
                    if !prior.contains_key(live) {
                        lemma_refs_none(*id, q.take(i as int), declared@, scopes, live);
                    }
                    assert(had as nat == refs_over(*id, q.take(i as int), declared@, scopes, live));
                    lemma_refs_prefix(*id, q, declared@, scopes, live, i + 1);
                    lemma_refs_monotone(*id, q, declared@, scopes, live);
                    assert(refs(*id, declared@, Set::full(), live) <= usize::MAX);
                }
                active.insert(live, had + count);
            }
            proof {
                assert forall|l: LiveTarget| #[trigger] active@.contains_key(l) <==> exists|j: int|
                    0 <= j < i + 1 && scopes.contains((#[trigger] q[j]).scope) && folded(*id, q[j]) == l by {
                    if prior.contains_key(l) {
                        let j = choose|j: int|
                            0 <= j < i && scopes.contains((#[trigger] q[j]).scope) && folded(*id, q[j])
                                == l;
                        assert(scopes.contains(q[j].scope) && folded(*id, q[j]) == l);
                    }
                    if scopes.contains(target.scope) && folded(*id, target) == l {
                        assert(scopes.contains(q[i as int].scope) && folded(*id, q[i as int]) == l);
                    }
                }
            }
            i = i + 1;
        }
        proof {
            assert(q.take(n as int) =~= q);
            let want = activation(*id, declared@, scopes);
            assert forall|l: LiveTarget| active@.contains_key(l) <==> want.contains_key(l) by {
                if active@.contains_key(l) {
                    let j = choose|j: int|
                        0 <= j < n && scopes.contains((#[trigger] q[j]).scope) && folded(*id, q[j]) == l;
                    assert(declared@.dom().contains(q[j]));
                    assert(declared@.contains_key(q[j]));
                }
                if want.contains_key(l) {
                    let t = choose|t: ActiveRequestTarget| #[trigger]
                        declared@.contains_key(t) && scopes.contains(t.scope) && folded(*id, t) == l;
                    assert(declared@.dom().contains(t));
                    let j = choose|j: int| 0 <= j < q.len() && q[j] == t;
                    assert(scopes.contains(q[j].scope) && folded(*id, q[j]) == l);
                }
            }
            assert forall|l: LiveTarget| #[trigger] active@.contains_key(l) implies active@[l] == want[l]
                && active@[l] as nat <= refs(*id, declared@, Set::full(), l) by {
                lemma_refs_monotone(*id, q, declared@, scopes, l);
                assert(want.contains_key(l));
            }
            assert(active@ =~= want);
        }
        active
    }

    /// Makes live every declared target of a branch whose scope contributes
    /// wire, in place of any activation it had.
    pub fn activate_handle(&mut self, id: &HandleId, active_scopes: &SortedSet<u64>)
        requires
            old(self).wf(),
        ensures
            final(self).wf(),
            final(self).declared() == old(self).declared(),
            final(self).active() == with_row(
                old(self).active(),
                *id,
                activation(*id, row_of(old(self).declared(), *id), active_scopes@),
            ),
    {
        self.deactivate_handle(id);
        let ghost before = *self;
        let ghost declared = row_of(before.declared(), *id);
        match self.by_handle.row(id) {
            None => {
                proof {
                    assert(activation(*id, declared, active_scopes@) =~= Map::<
                        LiveTarget,
                        usize,
                    >::empty());
                    assert(self.active() =~= with_row(
                        old(self).active(),
                        *id,
                        activation(*id, declared, active_scopes@),
                    ));
                }
            },
            Some(row) => {
                assert(countable(*id, row_of(before.declared(), *id)));
                let active = Self::fold_declared(id, row, active_scopes);
                let n = active.len();
                let ghost q = active.keys();
                let ghost want = active@;
                let mut i: usize = 0;
                proof {
                    lemma_listing_members(q, want.dom());
                    assert forall|l: LiveTarget| #[trigger] want.contains_key(l) implies l.1.handle == *id
                        && !before.live().contains_key(l) by {
                        if before.live().contains_key(l) {
                            assert(before.active().contains_key(Pair(l.1.handle, l)));
                        }
                    }
                    assert(before.live() =~= before.live().union_prefer_right(
                        want.restrict(q.take(0).to_set()),
                    ));
                }
                while i < n
                    invariant
                        i <= n,
                        n == q.len(),
                        q == active.keys(),
                        want == active@,
                        q.no_duplicates(),
                        is_listing(q, want.dom()),
                        self.by_handle == before.by_handle,
                        self.active_by_handle_demand == before.active_by_handle_demand,
                        forall|l: LiveTarget| #[trigger]
                            want.contains_key(l) ==> !before.live().contains_key(l),
                        self.by_demand@ == before.live().union_prefer_right(
                            want.restrict(q.take(i as int).to_set()),
                        ),
                    decreases n - i,
                {
                    let live = active.key_at(i);
                    let count = *active.value_at(i);
                    proof {
                        assert(want.contains_key(live));
                        assert(!q.take(i as int).contains(live));
                        assert(!self.by_demand@.contains_key(Pair(live.0, live.1)));
                        lemma_restrict_next(before.live(), want, q, i as int);
                    }
                    self.by_demand.raise(&live.0, &live.1, count);
                    i = i + 1;
                }
                proof {
                    assert(q.take(n as int) =~= q);
                    assert(want.restrict(q.to_set()) =~= want);
                }
                self.active_by_handle_demand.set_row(id, active);
                proof {
                    assert(self.active() =~= with_row(old(self).active(), *id, want));
                    assert forall|e: Pair<HandleId, LiveTarget>| #[trigger]
                        self.active().contains_key(e) implies self.live().contains_key(e.1)
                        && self.live()[e.1] == self.active()[e] && e.1.1.handle == e.0 && row_of(
                        self.declared(),
                        e.0,
                    ) != Map::<ActiveRequestTarget, usize>::empty() && self.active()[e] <= refs(
                        e.0,
                        row_of(self.declared(), e.0),
                        Set::full(),
                        e.1,
                    ) by {
                        if e.0 == *id {
                            assert(want.contains_key(e.1));
                        } else {
                            assert(before.active().contains_key(e));
                            assert(!want.contains_key(e.1));
                        }
                    }
                    assert forall|l: LiveTarget| #[trigger]
                        self.live().contains_key(l) implies self.active().contains_key(
                        Pair(l.1.handle, l),
                    ) by {
                        if want.contains_key(l) {
                            assert(l.1.handle == *id);
                        } else {
                            assert(before.live().contains_key(l));
                            assert(before.active().contains_key(Pair(l.1.handle, l)));
                        }
                    }
                }
            },
        }
    }

    /// Replaces one branch's declared targets, retires whatever it had live,
    /// and derives the live layer anew from the scopes that contribute wire,
    /// if the branch is on the wire at all.
    pub fn replace_for_handle(
        &mut self,
        id: &HandleId,
        declared: SortedMap<ActiveRequestTarget, usize>,
        active_scopes: Option<&SortedSet<u64>>,
    )
        requires
            old(self).wf(),
            countable(*id, declared@),
        ensures
            final(self).wf(),
            final(self).declared() == with_row(old(self).declared(), *id, declared@),
            final(self).active() == (match active_scopes {
                Some(scopes) => with_row(
                    old(self).active(),
                    *id,
                    activation(*id, declared@, scopes@),
                ),
                None => without_row(old(self).active(), *id),
            }),
    {
        self.deactivate_handle(id);
        let ghost before = *self;
        let ghost put = declared@;
        self.by_handle.set_row(id, declared);
        proof {
            assert(row_of(self.declared(), *id) =~= put);
            assert forall|o: HandleId| o != *id implies #[trigger] row_of(self.declared(), o) == row_of(
                before.declared(),
                o,
            ) by {
                assert(row_of(self.declared(), o) =~= row_of(before.declared(), o));
            }
            assert forall|e: Pair<HandleId, LiveTarget>| #[trigger] self.active().contains_key(e) implies {
                &&& e.1.1.handle == e.0
                &&& row_of(self.declared(), e.0) != Map::<ActiveRequestTarget, usize>::empty()
                &&& self.active()[e] <= refs(e.0, row_of(self.declared(), e.0), Set::full(), e.1)
            } by {
                assert(before.active().contains_key(e));
                assert(e.0 != *id);
            }
            assert(self.merged()) by {
                assert(self.active() == before.active() && self.live() == before.live());
                assert(before.merged());
            }
            assert forall|o: HandleId| countable(o, #[trigger] row_of(self.declared(), o)) by {
                if o != *id {
                    assert(countable(o, row_of(before.declared(), o)));
                }
            }
            assert(self.wf());
        }
        if let Some(scopes) = active_scopes {
            self.activate_handle(id, scopes);
            assert(self.active() =~= with_row(
                old(self).active(),
                *id,
                activation(*id, put, scopes@),
            ));
        }
    }

    /// Retires one branch's targets for one logical demand and leaves its
    /// others live.
    pub fn deactivate_handle_demand(&mut self, id: &HandleId, demand: &DemandKey)
        requires
            old(self).wf(),
        ensures
            final(self).wf(),
            final(self).declared() == old(self).declared(),
            final(self).active() == old(self).active().remove_keys(
                Set::new(|e: Pair<HandleId, LiveTarget>| e.0 == *id && e.1.0 == *demand),
            ),
    {
        let ghost before = *old(self);
        let row = self.active_by_handle_demand.take_row(id);
        let n = row.len();
        let ghost q = row.keys();
        let mut kept: SortedMap<LiveTarget, usize> = SortedMap::new();
        let mut i: usize = 0;
        proof {
            lemma_listing_members(q, row@.dom());
        }
        while i < n
            invariant
                i <= n,
                n == q.len(),
                q == row.keys(),
                q.no_duplicates(),
                is_listing(q, row@.dom()),
                before.wf(),
                row@ == row_of(before.active(), *id),
                self.by_handle == before.by_handle,
                self.active_by_handle_demand@ == without_row(before.active(), *id),
                forall|l: LiveTarget| #[trigger]
                    kept@.contains_key(l) <==> q.take(i as int).contains(l) && l.0 != *demand,
                forall|l: LiveTarget| #[trigger] kept@.contains_key(l) ==> kept@[l] == row@[l],
                forall|l: LiveTarget| #[trigger]
                    self.by_demand@.contains_key(l) <==> before.live().contains_key(l) && !(q.take(
                        i as int,
                    ).contains(l) && l.0 == *demand),
                forall|l: LiveTarget| #[trigger]
                    self.by_demand@.contains_key(l) ==> self.by_demand@[l] == before.live()[l],
            decreases n - i,
        {
            let live = row.key_at(i);
            let count = *row.value_at(i);
            proof {
                assert(before.active().contains_key(Pair(*id, live)));
                assert(!q.take(i as int).contains(live));
                assert(q.take(i + 1) =~= q.take(i as int).push(live));
                lemma_push_contains(q.take(i as int), live);
                assert(Pair(live.0, live.1) == live);
                assert(self.by_demand@.contains_key(live));
            }
            if same(&live.0, demand) {
                self.by_demand.lower(&live.0, &live.1, count);
            } else {
                kept.insert(live, count);
            }
            i = i + 1;
        }
        let ghost left = kept@;
        self.active_by_handle_demand.set_row(id, kept);
        proof {
            assert(q.take(n as int) =~= q);
            lemma_listing_members(q, row@.dom());
            let away = Set::new(|e: Pair<HandleId, LiveTarget>| e.0 == *id && e.1.0 == *demand);
            assert forall|e: Pair<HandleId, LiveTarget>| self.active().contains_key(e)
                <==> before.active().remove_keys(away).contains_key(e) by {
                if e.0 == *id {
                    assert(left.contains_key(e.1) <==> q.contains(e.1) && e.1.0 != *demand);
                    assert(row@.dom().contains(e.1) <==> before.active().contains_key(Pair(*id, e.1)));
                    assert(Pair(*id, e.1) == e);
                }
            }
            assert(self.active() =~= before.active().remove_keys(away));
            assert forall|e: Pair<HandleId, LiveTarget>| #[trigger] self.active().contains_key(e) implies self.live().contains_key(
            e.1) && self.live()[e.1] == self.active()[e] && e.1.1.handle == e.0 && row_of(
                self.declared(),
                e.0,
            ) != Map::<ActiveRequestTarget, usize>::empty() && self.active()[e] <= refs(
                e.0,
                row_of(self.declared(), e.0),
                Set::full(),
                e.1,
            ) by {
                assert(before.active().contains_key(e));
                assert(before.live().contains_key(e.1));
                if q.contains(e.1) && e.1.0 == *demand {
                    assert(before.active().contains_key(Pair(*id, e.1)));
                }
                assert(self.by_demand@.contains_key(e.1));
            }
            assert forall|l: LiveTarget| #[trigger]
                self.live().contains_key(l) implies self.active().contains_key(Pair(l.1.handle, l)) by {
                assert(before.live().contains_key(l));
                assert(before.active().contains_key(Pair(l.1.handle, l)));
                if l.1.handle == *id && l.0 == *demand {
                    assert(row@.dom().contains(l));
                }
            }
            assert(self.declared() == before.declared());
            assert forall|o: HandleId| countable(o, #[trigger] row_of(self.declared(), o)) by {
                assert(countable(o, row_of(before.declared(), o)));
            }
        }
    }

    /// Forgets every activation and keeps every declaration.
    pub fn forget_activations(&mut self)
        requires
            old(self).wf(),
        ensures
            final(self).wf(),
            final(self).declared() == old(self).declared(),
            final(self).active() == Map::<Pair<HandleId, LiveTarget>, usize>::empty(),
            final(self).live() == Map::<LiveTarget, usize>::empty(),
    {
        self.by_demand = Tally::new();
        self.active_by_handle_demand = Tally::new();
        assert(self.declared() == old(self).declared());
        assert forall|o: HandleId| countable(o, #[trigger] row_of(self.declared(), o)) by {
            assert(countable(o, row_of(old(self).declared(), o)));
        }
    }

    /// Every branch with a declaration, in rising order.
    pub fn declared_handles(&self) -> (q: Vec<HandleId>)
        ensures
            is_listing(
                q@,
                Set::new(
                    |id: HandleId|
                        row_of(self.declared(), id) != Map::<ActiveRequestTarget, usize>::empty(),
                ),
            ),
    {
        self.by_handle.owner_list()
    }

    /// The live targets of the given demands.
    pub open spec fn targets_of(&self, demands: Set<DemandKey>) -> Set<RequestTarget> {
        Set::new(
            |t: RequestTarget|
                exists|d: DemandKey| #[trigger] demands.contains(d) && self.live().contains_key(Pair(d, t)),
        )
    }

    /// Every live execution target that any of `owner_demands` owns, in rising
    /// order.
    pub fn targets_for_demands(&self, owner_demands: &SortedSet<DemandKey>) -> (r: Vec<RequestTarget>)
        ensures
            is_listing(r@, self.targets_of(owner_demands@)),
    {
        let n = owner_demands.len();
        let ghost q = owner_demands.items();
        let mut targets: SortedSet<RequestTarget> = SortedSet::new();
        let mut i: usize = 0;
        while i < n
            invariant
                i <= n,
                n == q.len(),
                q == owner_demands.items(),
                is_listing(q, owner_demands@),
                forall|t: RequestTarget| #[trigger]
                    targets@.contains(t) <==> exists|j: int|
                        0 <= j < i && self.live().contains_key(Pair(#[trigger] q[j], t)),
            decreases n - i,
        {
            let demand = owner_demands.at(i);
            let ghost prior = targets@;
            let row = self.live_row(&demand);
            targets.extend(&row);
            proof {
                assert forall|t: RequestTarget| #[trigger] targets@.contains(t) <==> exists|j: int|
                    0 <= j < i + 1 && self.live().contains_key(Pair(#[trigger] q[j], t)) by {
                    if prior.contains(t) {
                        let j = choose|j: int|
                            0 <= j < i && self.live().contains_key(Pair(#[trigger] q[j], t));
                        assert(self.live().contains_key(Pair(q[j], t)));
                    }
                    if row@.contains(t) {
                        assert(self.live().contains_key(Pair(q[i as int], t)));
                    }
                }
            }
            i = i + 1;
        }
        proof {
            assert forall|t: RequestTarget| targets@.contains(t) <==> self.targets_of(
                owner_demands@,
            ).contains(t) by {
                if targets@.contains(t) {
                    let j = choose|j: int|
                        0 <= j < n && self.live().contains_key(Pair(#[trigger] q[j], t));
                    assert(owner_demands@.contains(q[j]));
                }
                if self.targets_of(owner_demands@).contains(t) {
                    let d = choose|d: DemandKey| #[trigger]
                        owner_demands@.contains(d) && self.live().contains_key(Pair(d, t));
                    assert(q.contains(d));
                    let j = choose|j: int| 0 <= j < q.len() && q[j] == d;
                    assert(self.live().contains_key(Pair(q[j], t)));
                }
            }
            assert(targets@ =~= self.targets_of(owner_demands@));
        }
        targets.list()
    }

    /// The same targets, with what the walk had to examine to find them.
    pub fn live_targets_for_demands(&self, owner_demands: &SortedSet<DemandKey>) -> (r: (
        Vec<RequestTarget>,
        DemandWalk,
    ))
        requires
            examined_over(listing_of(owner_demands@), self.live()) <= u64::MAX,
        ensures
            is_listing(r.0@, self.targets_of(owner_demands@)),
            r.1.demand_keys_touched == owner_demands@.len(),
            r.1.candidates_examined == examined_over(listing_of(owner_demands@), self.live()),
    {
        let n = owner_demands.len();
        let ghost q = owner_demands.items();
        let mut examined: u64 = 0;
        let mut i: usize = 0;
        proof {
            lemma_listing_of(q, owner_demands@);
            assert(q.take(0) =~= Seq::<DemandKey>::empty());
        }
        while i < n
            invariant
                i <= n,
                n == q.len(),
                q == owner_demands.items(),
                is_listing(q, owner_demands@),
                examined == examined_over(q.take(i as int), self.live()),
                examined_over(q, self.live()) <= u64::MAX,
            decreases n - i,
        {
            let demand = owner_demands.at(i);
            proof {
                assert(q.take(i + 1).drop_last() =~= q.take(i as int));
                assert(q.take(i + 1).last() == demand);
                lemma_examined_prefix(q, self.live(), i + 1);
            }
            let row = self.live_row(&demand);
            let found = row.len() as u64;
            examined = examined + found;
            i = i + 1;
        }
        assert(q.take(n as int) =~= q);
        (
            self.targets_for_demands(owner_demands),
            DemandWalk { demand_keys_touched: n as u64, candidates_examined: examined },
        )
    }

    /// The live targets of one demand.
    fn live_row(&self, demand: &DemandKey) -> (r: SortedSet<RequestTarget>)
        ensures
            r@ == row_of(self.live(), *demand).dom(),
    {
        let mut r: SortedSet<RequestTarget> = SortedSet::new();
        match self.by_demand.row(demand) {
            None => {},
            Some(row) => {
                let keys = row.key_list();
                let mut i: usize = 0;
                while i < keys.len()
                    invariant
                        i <= keys@.len(),
                        forall|t: RequestTarget| #[trigger]
                            r@.contains(t) <==> keys@.take(i as int).contains(t),
                    decreases keys@.len() - i,
                {
                    proof {
                        assert(keys@.take(i + 1) =~= keys@.take(i as int).push(keys@[i as int]));
                        lemma_push_contains(keys@.take(i as int), keys@[i as int]);
                    }
                    r.insert(keys[i]);
                    i = i + 1;
                }
                proof {
                    assert(keys@.take(i as int) =~= keys@);
                    lemma_listing_members(keys@, row@.dom());
                }
            },
        }
        assert(r@ =~= row_of(self.live(), *demand).dom());
        r
    }

    pub fn live_target_count(&self, demand: &DemandKey) -> (n: usize)
        ensures
            n == row_of(self.live(), *demand).len(),
    {
        self.live_row(demand).len()
    }

    pub fn has_live_demand(&self, demand: &DemandKey) -> (b: bool)
        ensures
            b == (row_of(self.live(), *demand) != Map::<RequestTarget, usize>::empty()),
    {
        self.by_demand.row(demand).is_some()
    }

    /// The live targets of one demand with their references.
    pub fn declared_live_for_demand(&self, demand: &DemandKey) -> (r: SortedMap<RequestTarget, usize>)
        ensures
            r@ == row_of(self.live(), *demand),
    {
        match self.by_demand.row(demand) {
            Some(row) => row.copy(),
            None => SortedMap::new(),
        }
    }

    /// What one branch declares.
    pub fn declared_for_handle(&self, id: &HandleId) -> (r: SortedMap<ActiveRequestTarget, usize>)
        ensures
            r@ == row_of(self.declared(), *id),
    {
        match self.by_handle.row(id) {
            Some(row) => row.copy(),
            None => SortedMap::new(),
        }
    }

    /// Adds one declared target to a branch, through the same replacement.
    pub fn declare_for_handle(
        &mut self,
        id: &HandleId,
        target: ActiveRequestTarget,
        count: usize,
        active_scopes: Option<&SortedSet<u64>>,
    )
        requires
            old(self).wf(),
            countable(*id, row_of(old(self).declared(), *id).insert(target, count)),
        ensures
            final(self).wf(),
            final(self).declared() == with_row(
                old(self).declared(),
                *id,
                row_of(old(self).declared(), *id).insert(target, count),
            ),
            final(self).active() == (match active_scopes {
                Some(scopes) => with_row(
                    old(self).active(),
                    *id,
                    activation(
                        *id,
                        row_of(old(self).declared(), *id).insert(target, count),
                        scopes@,
                    ),
                ),
                None => without_row(old(self).active(), *id),
            }),
    {
        let mut declared = self.declared_for_handle(id);
        declared.insert(target, count);
        self.replace_for_handle(id, declared, active_scopes);
    }

    /// Every live target across every demand, by demand.
    pub fn live_targets(&self) -> (out: Vec<LiveTarget>)
        ensures
            is_listing(out@, self.live().dom()),
    {
        self.by_demand.entries()
    }

    /// Every branch with at least one live target.
    pub fn live_handles(&self) -> (r: SortedSet<HandleId>)
        ensures
            r@ == Set::new(
                |h: HandleId|
                    exists|l: LiveTarget| #[trigger] self.live().contains_key(l) && l.1.handle == h,
            ),
    {
        let entries = self.by_demand.entries();
        let mut r: SortedSet<HandleId> = SortedSet::new();
        let mut i: usize = 0;
        while i < entries.len()
            invariant
                i <= entries@.len(),
                forall|h: HandleId| #[trigger]
                    r@.contains(h) <==> exists|j: int| 0 <= j < i && (#[trigger] entries@[j]).1.handle == h,
            decreases entries@.len() - i,
        {
            let handle = entries[i].1.handle;
            let ghost prior = r@;
            r.insert(handle);
            assert forall|h: HandleId| #[trigger] r@.contains(h) <==> exists|j: int|
                0 <= j < i + 1 && (#[trigger] entries@[j]).1.handle == h by {
                if prior.contains(h) {
                    let j = choose|j: int| 0 <= j < i && (#[trigger] entries@[j]).1.handle == h;
                    assert(entries@[j].1.handle == h);
                }
                if h == handle {
                    assert(entries@[i as int].1.handle == h);
                }
            }
            i = i + 1;
        }
        proof {
            let want = Set::new(
                |h: HandleId|
                    exists|l: LiveTarget| #[trigger] self.live().contains_key(l) && l.1.handle == h,
            );
            lemma_listing_members(entries@, self.live().dom());
            assert forall|h: HandleId| r@.contains(h) <==> want.contains(h) by {
                if r@.contains(h) {
                    let j = choose|j: int|
                        0 <= j < entries@.len() && (#[trigger] entries@[j]).1.handle == h;
                    assert(self.live().dom().contains(entries@[j]));
                    assert(self.live().contains_key(entries@[j]));
                }
                if want.contains(h) {
                    let l = choose|l: LiveTarget| #[trigger]
                        self.live().contains_key(l) && l.1.handle == h;
                    assert(entries@.contains(l));
                    let j = choose|j: int| 0 <= j < entries@.len() && entries@[j] == l;
                    assert(entries@[j].1.handle == h);
                }
            }
            assert(r@ =~= want);
        }
        r
    }

    /// How many records each layer holds. Each live target is counted once by
    /// its demand and once by its branch.
    pub fn counts(&self) -> (r: RequestTargetCounts)
        requires
            self.wf(),
            total(self.live()) <= usize::MAX,
            total(self.active()) <= usize::MAX,
        ensures
            r.handles == self.by_handle_owners().len(),
            r.edges == self.live().len(),
            r.active_edges == self.active().len(),
            r.active_edges == r.edges,
            r.refs == total(self.live()),
            r.active_refs == total(self.active()),
            r.demand_keys == Set::new(
                |d: DemandKey| row_of(self.live(), d) != Map::<RequestTarget, usize>::empty(),
            ).len(),
            r.active_handles == Set::new(
                |h: HandleId| row_of(self.active(), h) != Map::<LiveTarget, usize>::empty(),
            ).len(),
            r.active_demand_keys == Set::new(
                |p: Pair<HandleId, DemandKey>|
                    exists|e: Pair<HandleId, LiveTarget>| #[trigger]
                        self.active().contains_key(e) && Pair(e.0, e.1.0) == p,
            ).len(),
    {
        let active = self.active_by_handle_demand.entries();
        let live = self.by_demand.entries();
        proof {
            let f = |l: LiveTarget| Pair(l.1.handle, l);
            assert forall|e: Pair<HandleId, LiveTarget>| #[trigger]
                self.active().dom().contains(e) implies exists|l: LiveTarget|
                self.live().dom().contains(l) && #[trigger] f(l) == e by {
                assert(self.active().contains_key(e));
                assert(self.live().dom().contains(e.1) && f(e.1) == e);
            }
            assert forall|l: LiveTarget| self.live().dom().contains(l) implies self.active().dom().contains(
                #[trigger] f(l),
            ) by {
                assert(self.live().contains_key(l));
            }
            lemma_image(self.live().dom(), f, self.active().dom());
        }
        let mut pairs: SortedSet<Pair<HandleId, DemandKey>> = SortedSet::new();
        let mut i: usize = 0;
        while i < active.len()
            invariant
                i <= active@.len(),
                forall|p: Pair<HandleId, DemandKey>| #[trigger]
                    pairs@.contains(p) <==> exists|j: int|
                        0 <= j < i && Pair((#[trigger] active@[j]).0, active@[j].1.0) == p,
            decreases active@.len() - i,
        {
            let pair = Pair(active[i].0, active[i].1.0);
            let ghost prior = pairs@;
            pairs.insert(pair);
            assert forall|p: Pair<HandleId, DemandKey>| #[trigger] pairs@.contains(p) <==> exists|j: int|
                0 <= j < i + 1 && Pair((#[trigger] active@[j]).0, active@[j].1.0) == p by {
                if prior.contains(p) {
                    let j = choose|j: int|
                        0 <= j < i && Pair((#[trigger] active@[j]).0, active@[j].1.0) == p;
                    assert(Pair(active@[j].0, active@[j].1.0) == p);
                }
                if p == pair {
                    assert(Pair(active@[i as int].0, active@[i as int].1.0) == p);
                }
            }
            i = i + 1;
        }
        proof {
            let want = Set::new(
                |p: Pair<HandleId, DemandKey>|
                    exists|e: Pair<HandleId, LiveTarget>| #[trigger]
                        self.active().contains_key(e) && Pair(e.0, e.1.0) == p,
            );
            lemma_listing_members(active@, self.active().dom());
            assert forall|p: Pair<HandleId, DemandKey>| pairs@.contains(p) <==> want.contains(p) by {
                if pairs@.contains(p) {
                    let j = choose|j: int|
                        0 <= j < active@.len() && Pair((#[trigger] active@[j]).0, active@[j].1.0) == p;
                    assert(self.active().dom().contains(active@[j]));
                    assert(self.active().contains_key(active@[j]));
                }
                if want.contains(p) {
                    let e = choose|e: Pair<HandleId, LiveTarget>| #[trigger]
                        self.active().contains_key(e) && Pair(e.0, e.1.0) == p;
                    assert(active@.contains(e));
                    let j = choose|j: int| 0 <= j < active@.len() && active@[j] == e;
                    assert(Pair(active@[j].0, active@[j].1.0) == p);
                }
            }
            assert(pairs@ =~= want);
        }
        RequestTargetCounts {
            handles: self.by_handle.owner_list().len(),
            demand_keys: self.by_demand.owner_list().len(),
            edges: live.len(),
            refs: self.by_demand.sum(),
            active_handles: self.active_by_handle_demand.owner_list().len(),
            active_demand_keys: pairs.len(),
            active_edges: active.len(),
            active_refs: self.active_by_handle_demand.sum(),
        }
    }

    /// The branches with a declaration.
    pub open spec fn by_handle_owners(&self) -> Set<HandleId> {
        Set::new(
            |id: HandleId| row_of(self.declared(), id) != Map::<ActiveRequestTarget, usize>::empty(),
        )
    }

    /// The references that a branch declares for one live target.
    fn declared_refs(
        id: &HandleId,
        declared: &SortedMap<ActiveRequestTarget, usize>,
        live: &LiveTarget,
    ) -> (r: usize)
        requires
            countable(*id, declared@),
            live.1.handle == *id,
        ensures
            r == refs(*id, declared@, Set::full(), *live),
    {
        let n = declared.len();
        let ghost q = declared.keys();
        let ghost every = Set::<u64>::full();
        let mut total: usize = 0;
        let mut i: usize = 0;
        proof {
            lemma_listing_of(q, declared@.dom());
            assert(q.take(0) =~= Seq::<ActiveRequestTarget>::empty());
            assert(refs(*id, declared@, every, *live) <= usize::MAX);
        }
        while i < n
            invariant
                i <= n,
                n == q.len(),
                q == declared.keys(),
                every == Set::<u64>::full(),
                live.1.handle == *id,
                total == refs_over(*id, q.take(i as int), declared@, every, *live),
                refs_over(*id, q, declared@, every, *live) <= usize::MAX,
            decreases n - i,
        {
            let target = declared.key_at(i);
            let count = *declared.value_at(i);
            proof {
                assert(q.take(i + 1).drop_last() =~= q.take(i as int));
                assert(q.take(i + 1).last() == target);
                lemma_refs_prefix(*id, q, declared@, every, *live, i + 1);
            }
            if same(&target.demand, &live.0) && target.path == live.1.path && target.revision
                == live.1.revision {
                assert(folded(*id, target) == *live);
                total = total + count;
            }
            i = i + 1;
        }
        assert(q.take(n as int) =~= q);
        total
    }

    /// `f` names a disagreement that is there.
    pub open spec fn has_fault(&self, f: TargetFault) -> bool {
        match f {
            TargetFault::NoDeclaration { handle } => row_of(self.declared(), handle) == Map::<
                ActiveRequestTarget,
                usize,
            >::empty() && row_of(self.active(), handle) != Map::<LiveTarget, usize>::empty(),
            TargetFault::ForeignTarget { handle, live } => self.active().contains_key(Pair(handle, live))
                && live.1.handle != handle,
            TargetFault::TooManyRefs { handle, live } => self.active().contains_key(Pair(handle, live))
                && self.active()[Pair(handle, live)] > refs(
                handle,
                row_of(self.declared(), handle),
                Set::full(),
                live,
            ),
            TargetFault::NotIndexed { live } => self.active().contains_key(Pair(live.1.handle, live)) && !(
            self.live().contains_key(live) && self.live()[live] == self.active()[Pair(
                live.1.handle,
                live,
            )]),
            TargetFault::NotActivated { live } => self.live().contains_key(live)
                && !self.active().contains_key(Pair(live.1.handle, live)),
        }
    }

    /// Checks that every live target traces back to a declaration, and that
    /// the demand index is the exact merge of the activations.
    pub fn assert_consistent(&self) -> (r: Result<(), TargetFault>)
        requires
            self.all_countable(),
        ensures
            match r {
                Ok(()) => self.wf(),
                Err(f) => !self.wf() && self.has_fault(f),
            },
    {
        let active = self.active_by_handle_demand.entries();
        let mut i: usize = 0;
        while i < active.len()
            invariant
                i <= active@.len(),
                is_listing(active@, self.active().dom()),
                self.all_countable(),
                forall|j: int|
                    0 <= j < i ==> {
                        let e = #[trigger] active@[j];
                        &&& e.1.1.handle == e.0
                        &&& row_of(self.declared(), e.0) != Map::<ActiveRequestTarget, usize>::empty()
                        &&& self.active()[e] <= refs(e.0, row_of(self.declared(), e.0), Set::full(), e.1)
                        &&& self.live().contains_key(e.1)
                        &&& self.live()[e.1] == self.active()[e]
                    },
            decreases active@.len() - i,
        {
            let entry = active[i];
            let handle = entry.0;
            let live = entry.1;
            assert(self.active().dom().contains(active@[i as int]));
            assert(self.active().contains_key(entry));
            let count: usize = match self.active_by_handle_demand.get(&handle, &live) {
                Some(count) => count,
                None => 0,
            };
            assert(countable(handle, row_of(self.declared(), handle)));
            match self.by_handle.row(&handle) {
                None => {
                    assert(row_of(self.active(), handle).contains_key(live));
                    return Err(TargetFault::NoDeclaration { handle });
                },
                Some(row) => {
                    if !same(&live.1.handle, &handle) {
                        return Err(TargetFault::ForeignTarget { handle, live });
                    }
                    if Self::declared_refs(&handle, row, &live) < count {
                        return Err(TargetFault::TooManyRefs { handle, live });
                    }
                },
            }
            let indexed = match self.by_demand.get(&live.0, &live.1) {
                Some(n) => n == count,
                None => false,
            };
            if !indexed {
                assert(Pair(live.0, live.1) == live);
                return Err(TargetFault::NotIndexed { live });
            }
            i = i + 1;
        }
        let indexed = self.by_demand.entries();
        i = 0;
        while i < indexed.len()
            invariant
                i <= indexed@.len(),
                is_listing(indexed@, self.live().dom()),
                forall|j: int|
                    0 <= j < i ==> self.active().contains_key(
                        Pair((#[trigger] indexed@[j]).1.handle, indexed@[j]),
                    ),
            decreases indexed@.len() - i,
        {
            let live = indexed[i];
            assert(self.live().dom().contains(indexed@[i as int]));
            assert(self.live().contains_key(live));
            if self.active_by_handle_demand.get(&live.1.handle, &live).is_none() {
                return Err(TargetFault::NotActivated { live });
            }
            i = i + 1;
        }
        proof {
            lemma_listing_members(active@, self.active().dom());
            lemma_listing_members(indexed@, self.live().dom());
            assert forall|e: Pair<HandleId, LiveTarget>| #[trigger] self.active().contains_key(e) implies {
                &&& e.1.1.handle == e.0
                &&& row_of(self.declared(), e.0) != Map::<ActiveRequestTarget, usize>::empty()
                &&& self.active()[e] <= refs(e.0, row_of(self.declared(), e.0), Set::full(), e.1)
                &&& self.live().contains_key(e.1)
                &&& self.live()[e.1] == self.active()[e]
            } by {
                assert(active@.contains(e));
                let j = choose|j: int| 0 <= j < active@.len() && active@[j] == e;
                assert(self.live().contains_key(active@[j].1));
            }
            assert forall|l: LiveTarget| #[trigger]
                self.live().contains_key(l) implies self.active().contains_key(Pair(l.1.handle, l)) by {
                assert(indexed@.contains(l));
                let j = choose|j: int| 0 <= j < indexed@.len() && indexed@[j] == l;
                assert(self.active().contains_key(Pair(indexed@[j].1.handle, indexed@[j])));
            }
        }
        Ok(())
    }
}

/// The sizes of the rows of the demands in `q`, added up.
pub open spec fn examined_over(q: Seq<DemandKey>, live: Map<LiveTarget, usize>) -> nat
    decreases q.len(),
{
    if q.len() == 0 {
        0
    } else {
        examined_over(q.drop_last(), live) + row_of(live, q.last()).len()
    }
}

proof fn lemma_examined_prefix(q: Seq<DemandKey>, live: Map<LiveTarget, usize>, i: int)
    requires
        0 <= i <= q.len(),
    ensures
        examined_over(q.take(i), live) <= examined_over(q, live),
    decreases q.len() - i,
{
    if i < q.len() {
        assert(q.take(i + 1).drop_last() =~= q.take(i));
        lemma_examined_prefix(q, live, i + 1);
    } else {
        assert(q.take(i) =~= q);
    }
}

/// What is live by demand follows from what is live by branch: two states with
/// the same activations have the same demand index.
pub proof fn activations_determine_live(a: RequestTargets, b: RequestTargets)
    requires
        a.wf(),
        b.wf(),
        a.active() == b.active(),
    ensures
        a.live() == b.live(),
{
    assert forall|l: LiveTarget| a.live().contains_key(l) <==> b.live().contains_key(l) by {
        let e = Pair(l.1.handle, l);
        if a.live().contains_key(l) {
            assert(a.active().contains_key(e));
            assert(b.active().contains_key(e));
        }
        if b.live().contains_key(l) {
            assert(b.active().contains_key(e));
            assert(a.active().contains_key(e));
        }
    }
    assert forall|l: LiveTarget| a.live().contains_key(l) implies a.live()[l] == b.live()[l] by {
        let e = Pair(l.1.handle, l);
        assert(a.active().contains_key(e));
        assert(b.active().contains_key(e));
    }
    assert(a.live() =~= b.live());
}

/// Activating a branch a second time for the same scopes changes nothing.
pub proof fn activation_is_idempotent(
    active: Map<Pair<HandleId, LiveTarget>, usize>,
    declared: Map<Pair<HandleId, ActiveRequestTarget>, usize>,
    id: HandleId,
    scopes: Set<u64>,
)
    ensures
        ({
            let once = with_row(active, id, activation(id, row_of(declared, id), scopes));
            with_row(once, id, activation(id, row_of(declared, id), scopes)) == once
        }),
{
    let once = with_row(active, id, activation(id, row_of(declared, id), scopes));
    assert(with_row(once, id, activation(id, row_of(declared, id), scopes)) =~= once);
}

/// Retiring a branch undoes its activation, where it had none before.
pub proof fn retirement_undoes_activation(
    active: Map<Pair<HandleId, LiveTarget>, usize>,
    id: HandleId,
    row: Map<LiveTarget, usize>,
)
    requires
        row_of(active, id) == Map::<LiveTarget, usize>::empty(),
    ensures
        without_row(with_row(active, id, row), id) == active,
{
    assert forall|e: Pair<HandleId, LiveTarget>| e.0 == id implies !active.contains_key(e) by {
        assert(row_of(active, id).contains_key(e.1) <==> active.contains_key(Pair(id, e.1)));
        assert(Pair(id, e.1) == e);
    }
    assert(without_row(with_row(active, id, row), id) =~= active);
}

proof fn lemma_drop_next<K, V>(m: Map<K, V>, q: Seq<K>, i: int)
    requires
        0 <= i < q.len(),
    ensures
        m.remove_keys(q.take(i).to_set()).remove(q[i]) == m.remove_keys(q.take(i + 1).to_set()),
{
    assert(q.take(i + 1) =~= q.take(i).push(q[i]));
    lemma_push_contains(q.take(i), q[i]);
    assert forall|k: K| q.take(i + 1).to_set().contains(k) <==> q.take(i).to_set().contains(k) || k
        == q[i] by {
        assert(q.take(i + 1).contains(k) <==> q.take(i).contains(k) || k == q[i]);
    }
    assert(m.remove_keys(q.take(i).to_set()).remove(q[i]) =~= m.remove_keys(q.take(i + 1).to_set()));
}

proof fn lemma_restrict_next<K, V>(m: Map<K, V>, add: Map<K, V>, q: Seq<K>, i: int)
    requires
        0 <= i < q.len(),
        add.contains_key(q[i]),
    ensures
        m.union_prefer_right(add.restrict(q.take(i).to_set())).insert(q[i], add[q[i]])
            == m.union_prefer_right(add.restrict(q.take(i + 1).to_set())),
{
    assert(q.take(i + 1) =~= q.take(i).push(q[i]));
    lemma_push_contains(q.take(i), q[i]);
    assert forall|k: K| q.take(i + 1).to_set().contains(k) <==> q.take(i).to_set().contains(k) || k
        == q[i] by {
        assert(q.take(i + 1).contains(k) <==> q.take(i).contains(k) || k == q[i]);
    }
    assert(m.union_prefer_right(add.restrict(q.take(i).to_set())).insert(q[i], add[q[i]])
        =~= m.union_prefer_right(add.restrict(q.take(i + 1).to_set())));
}

/// How often a value occurs in a list.
pub open spec fn occurrences(nodes: Seq<ActiveRequestTarget>, t: ActiveRequestTarget) -> nat
    decreases nodes.len(),
{
    if nodes.len() == 0 {
        0
    } else {
        occurrences(nodes.drop_last(), t) + if nodes.last() == t {
            1nat
        } else {
            0
        }
    }
}

/// What a list of resolved filter nodes declares: each target as often as it
/// occurs.
pub open spec fn counted(nodes: Seq<ActiveRequestTarget>) -> Map<ActiveRequestTarget, usize> {
    Map::new(
        |t: ActiveRequestTarget| nodes.contains(t),
        |t: ActiveRequestTarget| occurrences(nodes, t) as usize,
    )
}

/// How many places of a list hold a value of another list.
spec fn places_in(nodes: Seq<ActiveRequestTarget>, q: Seq<ActiveRequestTarget>) -> nat
    decreases nodes.len(),
{
    if nodes.len() == 0 {
        0
    } else {
        places_in(nodes.drop_last(), q) + if q.contains(nodes.last()) {
            1nat
        } else {
            0
        }
    }
}

proof fn lemma_occurrences(nodes: Seq<ActiveRequestTarget>, t: ActiveRequestTarget)
    ensures
        occurrences(nodes, t) <= nodes.len(),
        occurrences(nodes, t) > 0 <==> nodes.contains(t),
    decreases nodes.len(),
{
    if nodes.len() > 0 {
        lemma_occurrences(nodes.drop_last(), t);
        assert(nodes =~= nodes.drop_last().push(nodes.last()));
        lemma_push_contains(nodes.drop_last(), nodes.last());
    }
}

proof fn lemma_places_push(nodes: Seq<ActiveRequestTarget>, q: Seq<ActiveRequestTarget>, t: ActiveRequestTarget)
    requires
        !q.contains(t),
    ensures
        places_in(nodes, q.push(t)) == places_in(nodes, q) + occurrences(nodes, t),
        places_in(nodes, q) <= nodes.len(),
    decreases nodes.len(),
{
    if nodes.len() > 0 {
        lemma_places_push(nodes.drop_last(), q, t);
        lemma_push_contains(q, t);
    }
}

proof fn lemma_refs_of_nodes(
    id: HandleId,
    nodes: Seq<ActiveRequestTarget>,
    q: Seq<ActiveRequestTarget>,
    live: LiveTarget,
)
    requires
        q.no_duplicates(),
        nodes.len() <= usize::MAX,
        forall|i: int| 0 <= i < q.len() ==> nodes.contains(#[trigger] q[i]),
    ensures
        refs_over(id, q, counted(nodes), Set::full(), live) <= places_in(nodes, q) <= nodes.len(),
    decreases q.len(),
{
    if q.len() > 0 {
        let rest = q.drop_last();
        let t = q.last();
        assert forall|i: int| 0 <= i < rest.len() implies nodes.contains(#[trigger] rest[i]) by {
            assert(rest[i] == q[i]);
        }
        lemma_refs_of_nodes(id, nodes, rest, live);
        assert(!rest.contains(t)) by {
            if rest.contains(t) {
                let i = choose|i: int| 0 <= i < rest.len() && rest[i] == t;
                assert(q[i] == q[q.len() - 1]);
            }
        }
        assert(q =~= rest.push(t));
        lemma_places_push(nodes, rest, t);
        lemma_occurrences(nodes, t);
        assert(q[q.len() - 1] == t);
        assert(counted(nodes).contains_key(t));
        lemma_places_bound(nodes, q);
    } else {
        lemma_places_bound(nodes, q);
    }
}

proof fn lemma_places_bound(nodes: Seq<ActiveRequestTarget>, q: Seq<ActiveRequestTarget>)
    ensures
        places_in(nodes, q) <= nodes.len(),
    decreases nodes.len(),
{
    if nodes.len() > 0 {
        lemma_places_bound(nodes.drop_last(), q);
    }
}

/// A list of nodes never declares more references than can be counted.
proof fn lemma_counted_countable(id: HandleId, nodes: Seq<ActiveRequestTarget>)
    requires
        nodes.len() <= usize::MAX,
        counted(nodes).dom().finite(),
    ensures
        countable(id, counted(nodes)),
{
    let q = listing_of(counted(nodes).dom());
    lemma_listing_exists(counted(nodes).dom());
    lemma_listing_members(q, counted(nodes).dom());
    assert forall|live: LiveTarget| #[trigger] refs(id, counted(nodes), Set::full(), live) <= usize::MAX by {
        assert forall|i: int| 0 <= i < q.len() implies nodes.contains(#[trigger] q[i]) by {
            assert(q.contains(q[i]));
        }
        lemma_refs_of_nodes(id, nodes, q, live);
    }
}

fn count_nodes(nodes: &Vec<ActiveRequestTarget>) -> (r: SortedMap<ActiveRequestTarget, usize>)
    ensures
        r@ == counted(nodes@),
        nodes@.len() <= usize::MAX,
{
    let mut r: SortedMap<ActiveRequestTarget, usize> = SortedMap::new();
    let mut i: usize = 0;
    assert(r@ =~= counted(nodes@.take(0)));
    while i < nodes.len()
        invariant
            i <= nodes@.len(),
            r@ == counted(nodes@.take(i as int)),
        decreases nodes@.len() - i,
    {
        let node = nodes[i];
        let ghost prefix = nodes@.take(i as int);
        let ghost next = nodes@.take(i + 1);
        proof {
            assert(next =~= prefix.push(node));
            assert(next.drop_last() =~= prefix);
            lemma_push_contains(prefix, node);
            lemma_occurrences(prefix, node);
            lemma_occurrences(next, node);
            assert forall|t: ActiveRequestTarget| t != node implies #[trigger] occurrences(next, t)
                == occurrences(prefix, t) by {}
        }
        let n = match r.get(&node) {
            Some(n) => *n,
            None => 0,
        };
        assert(n == occurrences(prefix, node));
        r.insert(node, n + 1);
        assert(r@ =~= counted(next));
        i = i + 1;
    }
    assert(nodes@.take(i as int) =~= nodes@);
    r
}

impl RequestTargets {
    /// Declares anew what the resolved filter nodes of one branch ask for. A
    /// branch on the wire has its live targets derived anew as well.
    pub fn reconcile_resolution(
        &mut self,
        id: &HandleId,
        nodes: &Vec<ActiveRequestTarget>,
        active_scopes: Option<&SortedSet<u64>>,
    )
        requires
            old(self).wf(),
        ensures
            final(self).wf(),
            final(self).declared() == with_row(old(self).declared(), *id, counted(nodes@)),
            final(self).active() == (match active_scopes {
                Some(scopes) => with_row(
                    old(self).active(),
                    *id,
                    activation(*id, counted(nodes@), scopes@),
                ),
                None => without_row(old(self).active(), *id),
            }),
    {
        let declared = count_nodes(nodes);
        let _ = declared.len();
        proof {
            vstd::seq_lib::seq_to_set_is_finite(declared.keys());
            lemma_listing_members(declared.keys(), declared@.dom());
            lemma_counted_countable(*id, nodes@);
        }
        self.replace_for_handle(id, declared, active_scopes);
    }
}

/// A branch makes a target live if and only if it declares the target's demand, path
/// and revision in a scope that contributes wire, and always in its own name.
pub proof fn branch_is_live_where_its_scopes_are(
    id: HandleId,
    declared: Map<ActiveRequestTarget, usize>,
    scopes: Set<u64>,
    live: LiveTarget,
)
    ensures
        activation(id, declared, scopes).contains_key(live) <==> live.1.handle == id && exists|
            t: ActiveRequestTarget,
        | #[trigger]
            declared.contains_key(t) && scopes.contains(t.scope) && t.demand == live.0 && t.path
                == live.1.path && t.revision == live.1.revision,
{
    if live.1.handle == id && exists|t: ActiveRequestTarget| #[trigger]
        declared.contains_key(t) && scopes.contains(t.scope) && t.demand == live.0 && t.path == live.1.path
            && t.revision == live.1.revision {
        let t = choose|t: ActiveRequestTarget| #[trigger]
            declared.contains_key(t) && scopes.contains(t.scope) && t.demand == live.0 && t.path
                == live.1.path && t.revision == live.1.revision;
        assert(declared.contains_key(t) && folded(id, t) == live);
    }
}

proof fn lemma_refs_split(
    id: HandleId,
    q: Seq<ActiveRequestTarget>,
    declared: Map<ActiveRequestTarget, usize>,
    a: Set<u64>,
    b: Set<u64>,
    live: LiveTarget,
)
    requires
        a.disjoint(b),
    ensures
        refs_over(id, q, declared, a.union(b), live) == refs_over(id, q, declared, a, live) + refs_over(
            id,
            q,
            declared,
            b,
            live,
        ),
    decreases q.len(),
{
    if q.len() > 0 {
        lemma_refs_split(id, q.drop_last(), declared, a, b, live);
    }
}

/// The references of a live target add up over the scopes that contribute wire.
pub proof fn references_add_up_over_scopes(
    id: HandleId,
    declared: Map<ActiveRequestTarget, usize>,
    a: Set<u64>,
    b: Set<u64>,
    live: LiveTarget,
)
    requires
        a.disjoint(b),
    ensures
        refs(id, declared, a.union(b), live) == refs(id, declared, a, live) + refs(id, declared, b, live),
{
    lemma_refs_split(id, listing_of(declared.dom()), declared, a, b, live);
}

proof fn lemma_refs_alone(
    id: HandleId,
    q: Seq<ActiveRequestTarget>,
    declared: Map<ActiveRequestTarget, usize>,
    t: ActiveRequestTarget,
    live: LiveTarget,
)
    requires
        q.no_duplicates(),
        live == Pair(t.demand, RequestTarget { handle: id, path: t.path, revision: t.revision }),
    ensures
        refs_over(id, q, declared, set![t.scope], live) == (if q.contains(t) {
            declared[t] as nat
        } else {
            0
        }),
    decreases q.len(),
{
    if q.len() > 0 {
        let rest = q.drop_last();
        lemma_refs_alone(id, rest, declared, t, live);
        lemma_push_contains(rest, q.last());
        assert(rest.push(q.last()) =~= q);
        if rest.contains(t) && q.last() == t {
            let i = choose|i: int| 0 <= i < rest.len() && rest[i] == t;
            assert(q[i] == q[q.len() - 1]);
        }
        if q.last() == t {
            assert(q.contains(t));
        }
    }
}

/// Within one scope, a live target has as many references as the branch declares for
/// the demand, path and revision in that scope.
pub proof fn one_scope_gives_its_own_references(
    id: HandleId,
    declared: Map<ActiveRequestTarget, usize>,
    t: ActiveRequestTarget,
    live: LiveTarget,
)
    requires
        declared.dom().finite(),
        live == Pair(t.demand, RequestTarget { handle: id, path: t.path, revision: t.revision }),
    ensures
        refs(id, declared, set![t.scope], live) == (if declared.contains_key(t) {
            declared[t] as nat
        } else {
            0
        }),
{
    lemma_listing_exists(declared.dom());
    let q = listing_of(declared.dom());
    lemma_listing_members(q, declared.dom());
    lemma_refs_alone(id, q, declared, t, live);
    assert(declared.dom().contains(t) <==> q.contains(t));
}

/// What is live has as many references as its declaration gives it.
pub proof fn activation_carries_its_references(
    id: HandleId,
    declared: Map<ActiveRequestTarget, usize>,
    scopes: Set<u64>,
    live: LiveTarget,
)
    requires
        activation(id, declared, scopes).contains_key(live),
        refs(id, declared, scopes, live) <= usize::MAX,
    ensures
        activation(id, declared, scopes)[live] == refs(id, declared, scopes, live),
{
}

proof fn lemma_occurrences_count(nodes: Seq<ActiveRequestTarget>, t: ActiveRequestTarget)
    ensures
        occurrences(nodes, t) == nodes.to_multiset().count(t),
    decreases nodes.len(),
{
    broadcast use vstd::seq_lib::group_to_multiset_ensures;

    if nodes.len() > 0 {
        lemma_occurrences_count(nodes.drop_last(), t);
        assert(nodes.drop_last().push(nodes.last()) =~= nodes);
    } else {
        assert(nodes.to_multiset().len() == 0);
    }
}

/// A list of resolved nodes declares exactly the nodes in it, each as many times as it
/// stands there.
pub proof fn declaration_counts_every_node(nodes: Seq<ActiveRequestTarget>, t: ActiveRequestTarget)
    requires
        nodes.len() <= usize::MAX,
    ensures
        counted(nodes).contains_key(t) <==> nodes.contains(t),
        nodes.contains(t) ==> counted(nodes)[t] == nodes.to_multiset().count(t),
{
    lemma_occurrences_count(nodes, t);
    vstd::seq_lib::to_multiset_len(nodes);
    assert(nodes.to_multiset().count(t) <= nodes.to_multiset().len()) by {
        broadcast use vstd::multiset::group_multiset_axioms;

    }
}

/// The targets of some demands are exactly what is live for one of them.
pub proof fn demands_reach_their_live_targets(r: RequestTargets, demands: Set<DemandKey>, t: RequestTarget)
    ensures
        r.targets_of(demands).contains(t) <==> exists|d: DemandKey| #[trigger]
            r.live().contains_key(Pair(d, t)) && demands.contains(d),
{
    if exists|d: DemandKey| #[trigger] r.live().contains_key(Pair(d, t)) && demands.contains(d) {
        let d = choose|d: DemandKey| #[trigger] r.live().contains_key(Pair(d, t)) && demands.contains(d);
        assert(demands.contains(d));
    }
    if r.targets_of(demands).contains(t) {
        let d = choose|d: DemandKey| #[trigger] demands.contains(d) && r.live().contains_key(Pair(d, t));
        assert(r.live().contains_key(Pair(d, t)));
    }
}

/// Where the two indexes agree, no disagreement can be named.
pub proof fn sound_targets_have_no_fault(r: RequestTargets, f: TargetFault)
    requires
        r.wf(),
    ensures
        !r.has_fault(f),
{
    match f {
        TargetFault::NoDeclaration { handle } => {
            assert forall|l: LiveTarget| row_of(r.declared(), handle) == Map::<
                ActiveRequestTarget,
                usize,
            >::empty() implies !(#[trigger] row_of(r.active(), handle).contains_key(l)) by {
                if r.active().contains_key(Pair(handle, l)) {
                    assert(r.traced());
                }
            }
            if row_of(r.declared(), handle) == Map::<ActiveRequestTarget, usize>::empty() {
                assert(row_of(r.active(), handle) =~= Map::<LiveTarget, usize>::empty());
            }
        },
        _ => {},
    }
}

/// A branch that is live for a target is live in its own name only, declares
/// something, and the target is live for its demand with the same references.
pub proof fn indexes_of_targets_agree(r: RequestTargets, id: HandleId, live: LiveTarget)
    requires
        r.wf(),
    ensures
        r.active().contains_key(Pair(id, live)) <==> r.live().contains_key(live) && live.1.handle == id,
        r.active().contains_key(Pair(id, live)) ==> r.live()[live] == r.active()[Pair(id, live)] && exists|
            t: ActiveRequestTarget,
        | #[trigger]
            r.declared().contains_key(Pair(id, t)),
{
    let e = Pair(id, live);
    if r.active().contains_key(e) {
        assert(r.live().contains_key(e.1));
        if forall|t: ActiveRequestTarget| !(#[trigger] r.declared().contains_key(Pair(id, t))) {
            assert(row_of(r.declared(), id) =~= Map::<ActiveRequestTarget, usize>::empty());
        }
    }
    if r.live().contains_key(live) {
        assert(r.active().contains_key(Pair(live.1.handle, live)));
    }
}

} // verus!
