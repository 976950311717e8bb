//! Children keyed by their own id, mirrored by the owner that holds them.
//!
//! A duplicate child id is refused, and once the forward map says that a child
//! exists its reverse edge exists too: the two directions are one relation.

use vstd::prelude::*;

use crate::key::{is_listing, same, Key};
use crate::sorted::{SortedMap, SortedSet};

verus! {

/// A value that is owned by exactly one key of type `Owner`.
pub trait IndexedChild<Owner>: Sized {
    spec fn owner(self) -> Owner;

    fn owner_key(&self) -> (o: &Owner)
        ensures
            *o == self.owner(),
    ;
}

/// How the two directions of an index can disagree.
#[derive(Clone, Copy, Debug, PartialEq, Eq)]
pub enum MirrorFault<Owner, Child> {
    /// A child's own owner has no reverse set.
    NoReverseSet { child: Child },
    /// A child is not named by the owner it reports.
    NotNamedByOwner { child: Child },
    /// An owner keeps an empty reverse set.
    EmptyReverseSet { owner: Owner },
    /// An owner names a child that is not live.
    ChildNotLive { owner: Owner, child: Child },
    /// A child is indexed under an owner it does not report.
    WrongOwner { owner: Owner, child: Child },
}

/// Children keyed by their own id, with the reverse index from the owner that
/// holds them.
#[verifier::reject_recursive_types(Owner)]
#[verifier::reject_recursive_types(Child)]
pub struct OwnerIndexed<Owner: Key, Child: Key, V> {
    what: &'static str,
    by_child: SortedMap<Child, V>,
    by_owner: SortedMap<Owner, SortedSet<Child>>,
}

impl<Owner: Key, Child: Key, V> View for OwnerIndexed<Owner, Child, V> {
    type V = Map<Child, V>;

    closed spec fn view(&self) -> Map<Child, V> {
        self.by_child@
    }
}

/// The total size of the reverse sets of the owners in `q`.
pub open spec fn edges_over<Owner, Child>(q: Seq<Owner>, m: Map<Owner, Set<Child>>) -> nat
    decreases q.len(),
{
    if q.len() == 0 {
        0
    } else {
        edges_over(q.drop_last(), m) + m[q.last()].len()
    }
}

impl<Owner: Key, Child: Key, V> OwnerIndexed<Owner, Child, V> {
    /// The cluster that this index serves, for reports.
    pub closed spec fn what(&self) -> Seq<char> {
        self.what@
    }

    /// The reverse index as it stands.
    pub closed spec fn owners(&self) -> Map<Owner, Set<Child>> {
        Map::new(|o: Owner| self.by_owner@.contains_key(o), |o: Owner| self.by_owner@[o]@)
    }

    /// The owners of the reverse index in rising order.
    pub closed spec fn owner_list(&self) -> Seq<Owner> {
        self.by_owner.keys()
    }

    /// The number of reverse edges as they stand.
    pub open spec fn edges(&self) -> nat {
        edges_over(self.owner_list(), self.owners())
    }

    pub fn new(what: &'static str) -> (r: Self)
        ensures
            r.what() == what@,
            r@ == Map::<Child, V>::empty(),
            r.owners() == Map::<Owner, Set<Child>>::empty(),
    {
        let r = OwnerIndexed { what, by_child: SortedMap::new(), by_owner: SortedMap::new() };
        assert(r.owners() =~= Map::<Owner, Set<Child>>::empty());
        r
    }

    pub fn get(&self, child: &Child) -> (r: Option<&V>)
        ensures
            match r {
                Some(v) => self@.contains_key(*child) && *v == self@[*child],
                None => !self@.contains_key(*child),
            },
    {
        self.by_child.get(child)
    }

    pub fn contains(&self, child: &Child) -> (b: bool)
        ensures
            b == self@.contains_key(*child),
    {
        self.by_child.contains(child)
    }

    pub fn len(&self) -> (n: usize)
        ensures
            n == self@.len(),
            self@.dom().finite(),
    {
        self.by_child.len()
    }

    pub fn is_empty(&self) -> (b: bool)
        ensures
            b == (self@ == Map::<Child, V>::empty() && self.owners() == Map::<
                Owner,
                Set<Child>,
            >::empty()),
    {
        let b = self.by_child.is_empty() && self.by_owner.is_empty();
        proof {
            let none = Map::<Owner, Set<Child>>::empty();
            if self.by_owner@ == Map::<Owner, SortedSet<Child>>::empty() {
                assert(self.owners() =~= none);
            } else if self.owners() == none {
                assert forall|o: Owner| !self.by_owner@.contains_key(o) by {
                    assert(!none.contains_key(o));
                }
                assert(self.by_owner@ =~= Map::<Owner, SortedSet<Child>>::empty());
            }
        }
        b
    }

    /// How many owners hold a reverse set.
    pub fn owner_keys(&self) -> (n: usize)
        ensures
            n == self.owners().len(),
    {
        assert(self.owners().dom() =~= self.by_owner@.dom());
        self.by_owner.len()
    }

    /// Exchanges the reverse sets of two owners and leaves the forward map
    /// alone: the two directions then disagree with every count unchanged.
    pub fn swap_owners_for_test(&mut self, a: &Owner, b: &Owner)
        requires
            *a != *b,
            old(self).owners().contains_key(*a),
            old(self).owners().contains_key(*b),
        ensures
            final(self)@ == old(self)@,
            final(self).what() == old(self).what(),
            final(self).owners() == old(self).owners().insert(*a, old(self).owners()[*b]).insert(
                *b,
                old(self).owners()[*a],
            ),
    {
        let first = self.by_owner.remove(a);
        let second = self.by_owner.remove(b);
        if let (Some(first), Some(second)) = (first, second) {
            self.by_owner.insert(*a, second);
            self.by_owner.insert(*b, first);
        }
        assert(self.owners() =~= old(self).owners().insert(*a, old(self).owners()[*b]).insert(
            *b,
            old(self).owners()[*a],
        ));
    }
}

proof fn lemma_edges_grow<Owner, Child>(q: Seq<Owner>, m: Map<Owner, Set<Child>>, i: int)
    requires
        0 <= i <= q.len(),
    ensures
        edges_over(q.take(i), m) <= edges_over(q, m),
    decreases q.len() - i,
{
    if i < q.len() {
        assert(q.take(i + 1).drop_last() =~= q.take(i));
        lemma_edges_grow(q, m, i + 1);
    } else {
        assert(q.take(i) =~= q);
    }
}

impl<Owner: Key, Child: Key, V: IndexedChild<Owner>> OwnerIndexed<Owner, Child, V> {
    /// The live children that report `owner`.
    pub open spec fn children(&self, owner: Owner) -> Set<Child> {
        Set::new(|c: Child| self@.contains_key(c) && self@[c].owner() == owner)
    }

    /// What the forward map says of one child's reverse edge.
    pub open spec fn child_fault(&self, c: Child) -> Option<MirrorFault<Owner, Child>> {
        let o = self@[c].owner();
        if !self.owners().contains_key(o) {
            Some(MirrorFault::NoReverseSet { child: c })
        } else if !self.owners()[o].contains(c) {
            Some(MirrorFault::NotNamedByOwner { child: c })
        } else {
            None
        }
    }

    /// Whether one reverse edge leads to a child that reports its owner.
    pub open spec fn edge_holds(&self, o: Owner, c: Child) -> bool {
        self@.contains_key(c) && self@[c].owner() == o
    }

    /// Whether one owner's reverse set is as it must be.
    pub open spec fn owner_holds(&self, o: Owner) -> bool {
        &&& self.owners()[o] != Set::<Child>::empty()
        &&& forall|c: Child| #[trigger] self.owners()[o].contains(c) ==> self.edge_holds(o, c)
    }

    /// The two directions are one relation, and no owner keeps an empty set.
    pub open spec fn wf(&self) -> bool {
        &&& forall|c: Child| #[trigger] self@.contains_key(c) ==> self.child_fault(c) is None
        &&& forall|o: Owner| #[trigger] self.owners().contains_key(o) ==> self.owner_holds(o)
    }

    /// `f` is what is wrong with the reverse set of `o`.
    pub open spec fn owner_fault(&self, o: Owner, f: MirrorFault<Owner, Child>) -> bool {
        match f {
            MirrorFault::EmptyReverseSet { owner } => owner == o && self.owners()[o] == Set::<
                Child,
            >::empty(),
            MirrorFault::ChildNotLive { owner, child } => {
                &&& owner == o
                &&& self.owners()[o].contains(child)
                &&& !self@.contains_key(child)
                &&& forall|c: Child| #[trigger]
                    self.owners()[o].contains(c) && c.rank() < child.rank() ==> self.edge_holds(o, c)
            },
            MirrorFault::WrongOwner { owner, child } => {
                &&& owner == o
                &&& self.owners()[o].contains(child)
                &&& self@.contains_key(child)
                &&& self@[child].owner() != o
                &&& forall|c: Child| #[trigger]
                    self.owners()[o].contains(c) && c.rank() < child.rank() ==> self.edge_holds(o, c)
            },
            _ => false,
        }
    }

    /// `f` is the first thing that is wrong: the children in order, then the
    /// owners in order.
    pub open spec fn first_fault(&self, f: MirrorFault<Owner, Child>) -> bool {
        ||| exists|c: Child|
            {
                &&& #[trigger] self@.contains_key(c)
                &&& self.child_fault(c) == Some(f)
                &&& forall|d: Child| #[trigger]
                    self@.contains_key(d) && d.rank() < c.rank() ==> self.child_fault(d) is None
            }
        ||| {
            &&& forall|c: Child| #[trigger] self@.contains_key(c) ==> self.child_fault(c) is None
            &&& exists|o: Owner|
                {
                    &&& #[trigger] self.owners().contains_key(o)
                    &&& self.owner_fault(o, f)
                    &&& forall|p: Owner| #[trigger]
                        self.owners().contains_key(p) && p.rank() < o.rank() ==> self.owner_holds(p)
                }
        }
    }

    /// Indexes one new child under the owner that holds it.
    pub fn insert(&mut self, child: Child, value: V)
        requires
            old(self).wf(),
            !old(self)@.contains_key(child),
        ensures
            final(self).wf(),
            final(self)@ == old(self)@.insert(child, value),
            final(self).what() == old(self).what(),
    {
        let owner = *value.owner_key();
        let mut set = match self.by_owner.remove(&owner) {
            Some(set) => set,
            None => SortedSet::new(),
        };
        set.insert(child);
        self.by_owner.insert(owner, set);
        self.by_child.insert(child, value);
        proof {
            let before = old(self);
            assert forall|o: Owner| self.owners().contains_key(o) <==> before.owners().contains_key(o) || o
                == owner by {}
            assert forall|o: Owner| o != owner && before.owners().contains_key(o) implies self.owners()[o]
                == before.owners()[o] by {}
            assert(self.owners()[owner].contains(child));
            assert forall|c: Child| #[trigger] self@.contains_key(c) implies self.child_fault(c) is None by {
                if c != child {
                    assert(before@.contains_key(c));
                    assert(before.child_fault(c) is None);
                }
            }
            assert forall|o: Owner| #[trigger] self.owners().contains_key(o) implies self.owner_holds(o) by {
                if before.owners().contains_key(o) {
                    assert(before.owner_holds(o));
                }
                if o == owner {
                    assert(self.owners()[o].contains(child));
                }
                assert forall|c: Child| #[trigger]
                    self.owners()[o].contains(c) implies self.edge_holds(o, c) by {
                    if c != child {
                        assert(before.owners()[o].contains(c));
                        assert(before.edge_holds(o, c));
                    } else {
                        if o != owner {
                            assert(before.edge_holds(o, c));
                        }
                    }
                }
                if o != owner {
                    assert(self.owners()[o] == before.owners()[o]);
                }
            }
        }
    }

    /// Removes one child and prunes its owner's set.
    pub fn take(&mut self, child: &Child) -> (r: Option<V>)
        requires
            old(self).wf(),
        ensures
            final(self).wf(),
            final(self)@ == old(self)@.remove(*child),
            final(self).what() == old(self).what(),
            match r {
                Some(v) => old(self)@.contains_key(*child) && v == old(self)@[*child],
                None => !old(self)@.contains_key(*child),
            },
    {
        let ghost before = *old(self);
        match self.by_child.remove(child) {
            None => {
                assert(self.by_child@ =~= before.by_child@);
                assert(self.owners() =~= before.owners());
                assert forall|c: Child| #[trigger] self@.contains_key(c) implies self.child_fault(c) is None by {
                    assert(before@.contains_key(c));
                    assert(before.child_fault(c) is None);
                }
                assert forall|o: Owner| #[trigger] self.owners().contains_key(o) implies self.owner_holds(
                    o,
                ) by {
                    assert(before.owner_holds(o));
                    assert forall|c: Child| #[trigger]
                        self.owners()[o].contains(c) implies self.edge_holds(o, c) by {
                        assert(before.edge_holds(o, c));
                    }
                }
                None
            },
            Some(value) => {
                let owner = *value.owner_key();
                assert(before.child_fault(*child) is None);
                if let Some(mut set) = self.by_owner.remove(&owner) {
                    set.remove(child);
                    if !set.is_empty() {
                        self.by_owner.insert(owner, set);
                    }
                }
                proof {
                    assert forall|o: Owner| o != owner implies (self.owners().contains_key(o)
                        <==> before.owners().contains_key(o)) && (self.owners().contains_key(o)
                        ==> self.owners()[o] == before.owners()[o]) by {}
                    let left = before.owners()[owner].remove(*child);
                    assert(self.owners().contains_key(owner) ==> self.owners()[owner] == left && left
                        != Set::<Child>::empty());
                    assert(!self.owners().contains_key(owner) ==> left =~= Set::<Child>::empty());
                    assert forall|c: Child| #[trigger] self@.contains_key(c) implies self.child_fault(
                        c,
                    ) is None by {
                        assert(before@.contains_key(c));
                        assert(before.child_fault(c) is None);
                        if self@[c].owner() == owner {
                            assert(left.contains(c));
                        }
                    }
                    assert forall|o: Owner| #[trigger]
                        self.owners().contains_key(o) implies self.owner_holds(o) by {
                        assert(before.owners().contains_key(o));
                        assert(before.owner_holds(o));
                        assert forall|c: Child| #[trigger]
                            self.owners()[o].contains(c) implies self.edge_holds(o, c) by {
                            assert(before.owners()[o].contains(c));
                            assert(before.edge_holds(o, c));
                            if c == *child {
                                assert(o == owner);
                            }
                        }
                    }
                }
                Some(value)
            },
        }
    }

    /// The reverse set of an owner that keeps the mirror is its children.
    proof fn lemma_reverse_is_children(&self, owner: Owner)
        requires
            self.wf(),
        ensures
            self.owners().contains_key(owner) ==> self.owners()[owner] == self.children(owner),
            !self.owners().contains_key(owner) ==> self.children(owner) == Set::<Child>::empty(),
    {
        if self.owners().contains_key(owner) {
            assert(self.owner_holds(owner));
            assert forall|c: Child| self.owners()[owner].contains(c) <==> self.children(owner).contains(c) by {
                if self.owners()[owner].contains(c) {
                    assert(self.edge_holds(owner, c));
                }
                if self.children(owner).contains(c) {
                    assert(self.child_fault(c) is None);
                }
            }
            assert(self.owners()[owner] =~= self.children(owner));
        } else {
            assert forall|c: Child| !self.children(owner).contains(c) by {
                if self.children(owner).contains(c) {
                    assert(self.child_fault(c) is None);
                }
            }
            assert(self.children(owner) =~= Set::<Child>::empty());
        }
    }

    /// The owners that live children report.
    pub open spec fn owning(&self) -> Set<Owner> {
        Set::new(|o: Owner| exists|c: Child| #[trigger] self@.contains_key(c) && self@[c].owner() == o)
    }

    /// The reverse index has a set for exactly the owners of live children.
    pub proof fn lemma_owners(&self)
        requires
            self.wf(),
        ensures
            self.owners().dom() == self.owning(),
    {
        assert forall|o: Owner| self.owners().dom().contains(o) <==> self.owning().contains(o) by {
            if self.owners().contains_key(o) {
                assert(self.owner_holds(o));
                assert(exists|c: Child| self.owners()[o].contains(c)) by {
                    if forall|c: Child| !self.owners()[o].contains(c) {
                        assert(self.owners()[o] =~= Set::<Child>::empty());
                    }
                }
                let c = choose|c: Child| self.owners()[o].contains(c);
                assert(self.edge_holds(o, c));
            }
            if self.owning().contains(o) {
                let c = choose|c: Child| #[trigger] self@.contains_key(c) && self@[c].owner() == o;
                assert(self.child_fault(c) is None);
            }
        }
        assert(self.owners().dom() =~= self.owning());
    }

    /// How many reverse edges there are: as many as there are children, where
    /// the mirror holds.
    pub fn owner_edges(&self) -> (n: usize)
        requires
            self.wf() || self.edges() <= usize::MAX,
        ensures
            n == self.edges(),
            self.wf() ==> n == self@.len(),
    {
        let owners = self.by_owner.len();
        let mut total: usize = 0;
        let mut i: usize = 0;
        let live = self.by_child.len();
        proof {
            assert(self.owner_list().take(0) =~= Seq::<Owner>::empty());
            assert(self.by_owner@.dom() =~= self.owners().dom());
            if self.wf() {
                self.lemma_edges_are_children();
            }
        }
        while i < owners
            invariant
                i <= owners,
                owners == self.owner_list().len(),
                total == edges_over(self.owner_list().take(i as int), self.owners()),
                self.edges() <= usize::MAX,
            decreases owners - i,
        {
            let children = self.by_owner.value_at(i).len();
            proof {
                let q = self.owner_list();
                assert(q.take(i + 1).drop_last() =~= q.take(i as int));
                assert(q.take(i + 1).last() == q[i as int]);
                lemma_edges_grow(q, self.owners(), i + 1);
            }
            total = total + children;
            i = i + 1;
        }
        assert(self.owner_list().take(owners as int) =~= self.owner_list());
        total
    }

    proof fn lemma_edges_are_children(&self)
        requires
            self.wf(),
            is_listing(self.owner_list(), self.owners().dom()),
            self@.dom().finite(),
        ensures
            self.edges() == self@.len(),
    {
        let q = self.owner_list();
        self.lemma_edges_upto(q.len() as int);
        assert(q.take(q.len() as int) =~= q);
        let all = self.children_upto(q.len() as int);
        assert forall|c: Child| all.contains(c) <==> self@.dom().contains(c) by {
            if self@.contains_key(c) {
                assert(self.child_fault(c) is None);
                let o = self@[c].owner();
                assert(self.owners().dom().contains(o));
                let j = choose|j: int| 0 <= j < q.len() && q[j] == o;
                assert(q[j] == o);
            }
        }
        assert(all =~= self@.dom());
    }

    /// The children of the first `i` owners.
    spec fn children_upto(&self, i: int) -> Set<Child> {
        Set::new(
            |c: Child|
                self@.contains_key(c) && exists|j: int|
                    0 <= j < i && #[trigger] self.owner_list()[j] == self@[c].owner(),
        )
    }

    proof fn lemma_edges_upto(&self, i: int)
        requires
            self.wf(),
            is_listing(self.owner_list(), self.owners().dom()),
            self@.dom().finite(),
            0 <= i <= self.owner_list().len(),
        ensures
            self.children_upto(i).finite(),
            self.children_upto(i).len() == edges_over(self.owner_list().take(i), self.owners()),
        decreases i,
    {
        let q = self.owner_list();
        assert(self.children_upto(i).subset_of(self@.dom()));
        vstd::set_lib::lemma_set_subset_finite(self@.dom(), self.children_upto(i));
        if i == 0 {
            assert(self.children_upto(0) =~= Set::<Child>::empty());
            assert(q.take(0) =~= Seq::<Owner>::empty());
        } else {
            self.lemma_edges_upto(i - 1);
            let o = q[i - 1];
            assert(self.owners().dom().contains(o));
            self.lemma_reverse_is_children(o);
            let before = self.children_upto(i - 1);
            let row = self.children(o);
            assert(row.subset_of(self@.dom()));
            vstd::set_lib::lemma_set_subset_finite(self@.dom(), row);
            assert(before.disjoint(row)) by {
                assert forall|c: Child| before.contains(c) implies !row.contains(c) by {
                    let j = choose|j: int| 0 <= j < i - 1 && #[trigger] q[j] == self@[c].owner();
                    assert(q[j].rank() < q[i - 1].rank());
                }
            }
            vstd::set_lib::lemma_set_disjoint_lens(before, row);
            assert forall|c: Child| self.children_upto(i).contains(c) <==> (before + row).contains(c) by {
                if self.children_upto(i).contains(c) {
                    let j = choose|j: int| 0 <= j < i && #[trigger] q[j] == self@[c].owner();
                    if j < i - 1 {
                        assert(q[j] == self@[c].owner());
                    }
                }
                if row.contains(c) {
                    assert(q[i - 1] == self@[c].owner());
                }
                if before.contains(c) {
                    let j = choose|j: int| 0 <= j < i - 1 && #[trigger] q[j] == self@[c].owner();
                    assert(q[j] == self@[c].owner());
                }
            }
            assert(self.children_upto(i) =~= before + row);
            assert(q.take(i).drop_last() =~= q.take(i - 1));
            assert(q.take(i).last() == o);
        }
    }

    pub fn children_of(&self, owner: &Owner) -> (r: SortedSet<Child>)
        requires
            self.wf(),
        ensures
            r@ == self.children(*owner),
    {
        proof {
            self.lemma_reverse_is_children(*owner);
        }
        match self.by_owner.get(owner) {
            Some(set) => set.copy(),
            None => SortedSet::new(),
        }
    }

    /// Removes each of the given children, which are live and distinct.
    fn take_each(&mut self, departing: &Vec<Child>) -> (out: Vec<(Child, V)>)
        requires
            old(self).wf(),
            forall|i: int| 0 <= i < departing@.len() ==> old(self)@.contains_key(#[trigger] departing@[i]),
            forall|i: int, j: int|
                0 <= i < j < departing@.len() ==> #[trigger] departing@[i] != #[trigger] departing@[j],
        ensures
            final(self).wf(),
            final(self).what() == old(self).what(),
            final(self)@ == old(self)@.remove_keys(departing@.to_set()),
            out@.len() == departing@.len(),
            forall|i: int| 0 <= i < out@.len() ==> #[trigger] out@[i] == (departing@[i], old(self)@[departing@[i]]),
    {
        let ghost before = *old(self);
        let mut out: Vec<(Child, V)> = Vec::new();
        let mut i: usize = 0;
        assert(before@.remove_keys(departing@.take(0).to_set()) =~= before@);
        while i < departing.len()
            invariant
                self.wf(),
                self.what() == before.what(),
                i <= departing@.len(),
                self@ == before@.remove_keys(departing@.take(i as int).to_set()),
                out@.len() == i,
                forall|j: int| 0 <= j < i ==> #[trigger] out@[j] == (departing@[j], before@[departing@[j]]),
                forall|j: int| 0 <= j < departing@.len() ==> before@.contains_key(#[trigger] departing@[j]),
                forall|a: int, b: int|
                    0 <= a < b < departing@.len() ==> #[trigger] departing@[a] != #[trigger] departing@[b],
            decreases departing@.len() - i,
        {
            let child = departing[i];
            proof {
                let done = departing@.take(i as int).to_set();
                assert(!done.contains(child));
                assert(before@.contains_key(departing@[i as int]));
                assert(self@.contains_key(child));
                let next = departing@.take(i + 1);
                assert(next =~= departing@.take(i as int).push(child));
                assert forall|c: Child| next.to_set().contains(c) <==> done.contains(c) || c == child by {
                    if done.contains(c) {
                        let k = choose|k: int| 0 <= k < i && departing@.take(i as int)[k] == c;
                        assert(next[k] == c);
                    }
                    if c == child {
                        assert(next[i as int] == c);
                    }
                }
                assert(before@.remove_keys(done).remove(child) =~= before@.remove_keys(next.to_set()));
            }
            if let Some(value) = self.take(&child) {
                out.push((child, value));
            }
            i = i + 1;
        }
        assert(departing@.take(i as int) =~= departing@);
        out
    }

    /// Removes every child of one owner, in the order of the children.
    pub fn take_owner(&mut self, owner: &Owner) -> (out: Vec<(Child, V)>)
        requires
            old(self).wf(),
        ensures
            final(self).wf(),
            final(self).what() == old(self).what(),
            final(self)@ == old(self)@.remove_keys(old(self).children(*owner)),
            is_listing(Seq::new(out@.len(), |i: int| out@[i].0), old(self).children(*owner)),
            forall|i: int| 0 <= i < out@.len() ==> (#[trigger] out@[i]).1 == old(self)@[out@[i].0],
    {
        let children = self.children_of(owner);
        let departing = children.list();
        proof {
            let q = departing@;
            assert forall|i: int| 0 <= i < q.len() implies old(self)@.contains_key(#[trigger] q[i]) by {
                assert(old(self).children(*owner).contains(q[i]));
            }
            assert forall|i: int, j: int| 0 <= i < j < q.len() implies #[trigger] q[i] != #[trigger] q[j] by {
                assert(q[i].rank() < q[j].rank());
            }
            assert(q.to_set() =~= old(self).children(*owner));
        }
        let out = self.take_each(&departing);
        assert(Seq::new(out@.len(), |i: int| out@[i].0) =~= departing@);
        out
    }

    /// Removes every child that `drop` picks, in the order of the children.
    pub fn take_where<F: Fn(&Child, &V) -> bool>(&mut self, drop: F) -> (out: Vec<(Child, V)>)
        requires
            old(self).wf(),
            forall|c: &Child, v: &V| #[trigger] call_requires(drop, (c, v)),
        ensures
            final(self).wf(),
            final(self).what() == old(self).what(),
            is_listing(
                Seq::new(out@.len(), |i: int| out@[i].0),
                old(self)@.dom().difference(final(self)@.dom()),
            ),
            final(self)@.submap_of(old(self)@),
            forall|i: int| 0 <= i < out@.len() ==> (#[trigger] out@[i]).1 == old(self)@[out@[i].0],
            forall|i: int|
                0 <= i < out@.len() ==> call_ensures(drop, (&out@[i].0, &(#[trigger] out@[i]).1), true),
            forall|c: Child| #[trigger]
                final(self)@.contains_key(c) ==> call_ensures(drop, (&c, &old(self)@[c]), false),
    {
        let ghost before = *old(self);
        let n = self.by_child.len();
        let mut departing: Vec<Child> = Vec::new();
        let mut i: usize = 0;
        let ghost q = self.by_child.keys();
        while i < n
            invariant
                *self == before,
                n == q.len(),
                q == self.by_child.keys(),
                is_listing(q, self.by_child@.dom()),
                i <= n,
                forall|c: &Child, v: &V| #[trigger] call_requires(drop, (c, v)),
                forall|a: int| 0 <= a < departing@.len() ==> q.take(i as int).contains(#[trigger] departing@[a]),
                forall|a: int, b: int|
                    0 <= a < b < departing@.len() ==> (#[trigger] departing@[a]).rank() < (
                    #[trigger] departing@[b]).rank(),
                forall|a: int|
                    0 <= a < departing@.len() ==> call_ensures(
                        drop,
                        (&#[trigger] departing@[a], &before@[departing@[a]]),
                        true,
                    ),
                forall|a: int|
                    0 <= a < i ==> departing@.contains(#[trigger] q[a]) || call_ensures(
                        drop,
                        (&q[a], &before@[q[a]]),
                        false,
                    ),
            decreases n - i,
        {
            let child = self.by_child.key_at(i);
            let value = self.by_child.value_at(i);
            let ghost prior = departing@;
            assert(q.take(i + 1) =~= q.take(i as int).push(child));
            assert(q.take(i + 1)[i as int] == child);
            assert forall|x: Child| q.take(i as int).contains(x) implies q.take(i + 1).contains(x)
                && x.rank() < child.rank() by {
                let k = choose|k: int| 0 <= k < i && q.take(i as int)[k] == x;
                assert(q.take(i + 1)[k] == x);
                assert(q[k].rank() < q[i as int].rank());
            }
            let gone = drop(&child, value);
            if gone {
                departing.push(child);
                assert(departing@[prior.len() as int] == child);
            }
            assert forall|a: int| 0 <= a < i + 1 implies departing@.contains(#[trigger] q[a]) || call_ensures(
                drop,
                (&q[a], &before@[q[a]]),
                false,
            ) by {
                if a < i && prior.contains(q[a]) {
                    let k = choose|k: int| 0 <= k < prior.len() && prior[k] == q[a];
                    assert(departing@[k] == q[a]);
                }
            }
            i = i + 1;
        }
        assert(q.take(n as int) =~= q);
        proof {
            assert forall|a: int| 0 <= a < departing@.len() implies before@.contains_key(
                #[trigger] departing@[a],
            ) by {
                assert(q.contains(departing@[a]));
                let k = choose|k: int| 0 <= k < q.len() && q[k] == departing@[a];
                assert(before@.dom().contains(q[k]));
            }
            let gone = departing@.to_set();
            assert(departing@.no_duplicates());
            departing@.unique_seq_to_set();
            vstd::seq_lib::seq_to_set_is_finite(departing@);
            assert(before@.dom().difference(before@.remove_keys(gone).dom()) =~= gone);
            assert forall|i: int| 0 <= i < departing@.len() implies gone.contains(
                #[trigger] departing@[i],
            ) by {}
            assert(is_listing(departing@, gone));
        }
        let out = self.take_each(&departing);
        proof {
            assert(Seq::new(out@.len(), |i: int| out@[i].0) =~= departing@);
            assert forall|c: Child| #[trigger] self@.contains_key(c) implies call_ensures(
                drop,
                (&c, &before@[c]),
                false,
            ) by {
                assert(before@.dom().contains(c));
                assert(q.contains(c));
                let k = choose|k: int| 0 <= k < q.len() && q[k] == c;
                assert(!departing@.contains(q[k]));
            }
        }
        out
    }

    /// One live child, open to change in place. The mirror holds afterwards as
    /// long as the child still reports the owner it had.
    pub fn get_mut(&mut self, child: &Child) -> (r: Option<&mut V>)
        requires
            old(self).wf(),
        ensures
            match r {
                Some(v) => {
                    &&& old(self)@.contains_key(*child)
                    &&& *v == old(self)@[*child]
                    &&& final(self)@ == old(self)@.insert(*child, *final(v))
                    &&& final(v).owner() == old(self)@[*child].owner() ==> final(self).wf()
                },
                None => !old(self)@.contains_key(*child) && final(self)@ == old(self)@
                    && final(self).wf(),
            },
            final(self).owners() == old(self).owners(),
            final(self).what() == old(self).what(),
    {
        let ghost before = *self;
        proof {
            assert forall|v: V, after: Self|
                #![trigger before.by_child@.insert(*child, v), after.wf()]
                before@.contains_key(*child) && v.owner() == before@[*child].owner() && after.by_owner
                    == before.by_owner && after@ == before@.insert(*child, v) implies after.wf() by {
                assert(after.owners() =~= before.owners());
                assert forall|c: Child| #[trigger] after@.contains_key(c) implies after.child_fault(
                    c,
                ) is None by {
                    assert(before@.contains_key(c));
                    assert(before.child_fault(c) is None);
                }
                assert forall|o: Owner| #[trigger] after.owners().contains_key(o) implies after.owner_holds(
                    o,
                ) by {
                    assert(before.owner_holds(o));
                    assert forall|c: Child| #[trigger]
                        after.owners()[o].contains(c) implies after.edge_holds(o, c) by {
                        assert(before.edge_holds(o, c));
                    }
                }
            }
        }
        self.by_child.get_mut(child)
    }

    /// The live children with their values, in the order of the children.
    pub fn iter(&self) -> (out: Vec<(Child, &V)>)
        ensures
            is_listing(Seq::new(out@.len(), |i: int| out@[i].0), self@.dom()),
            forall|i: int| 0 <= i < out@.len() ==> *(#[trigger] out@[i]).1 == self@[out@[i].0],
    {
        let n = self.by_child.len();
        let mut out: Vec<(Child, &V)> = Vec::new();
        let mut i: usize = 0;
        while i < n
            invariant
                i <= n,
                n == self.by_child.keys().len(),
                out@.len() == i,
                forall|j: int|
                    0 <= j < i ==> (#[trigger] out@[j]).0 == self.by_child.keys()[j] && *out@[j].1
                        == self@[out@[j].0],
            decreases n - i,
        {
            out.push((self.by_child.key_at(i), self.by_child.value_at(i)));
            i = i + 1;
        }
        assert(Seq::new(out@.len(), |i: int| out@[i].0) =~= self.by_child.keys());
        out
    }

    /// Compares both directions by identity, which no count can do: a child
    /// indexed under the wrong owner leaves every count as it was.
    pub fn assert_consistent(&self) -> (r: Result<(), MirrorFault<Owner, Child>>)
        ensures
            match r {
                Ok(()) => self.wf(),
                Err(f) => self.first_fault(f) && !self.wf(),
            },
    {
        let n = self.by_child.len();
        let mut i: usize = 0;
        while i < n
            invariant
                i <= n,
                n == self.by_child.keys().len(),
                is_listing(self.by_child.keys(), self@.dom()),
                forall|j: int| 0 <= j < i ==> self.child_fault(#[trigger] self.by_child.keys()[j]) is None,
            decreases n - i,
        {
            let child = self.by_child.key_at(i);
            let owner = *self.by_child.value_at(i).owner_key();
            proof {
                assert forall|d: Child| #[trigger]
                    self@.contains_key(d) && d.rank() < child.rank() implies self.child_fault(d) is None by {
                    assert(self@.dom().contains(d));
                    let q = self.by_child.keys();
                    let k = choose|k: int| 0 <= k < q.len() && q[k] == d;
                    if k > i {
                        assert(q[i as int].rank() < q[k].rank());
                    }
                }
            }
            match self.by_owner.get(&owner) {
                None => {
                    let fault = MirrorFault::NoReverseSet { child };
                    assert(self.child_fault(child) == Some(fault));
                    return Err(fault);
                },
                Some(set) => {
                    if !set.contains(&child) {
                        let fault = MirrorFault::NotNamedByOwner { child };
                        assert(self.child_fault(child) == Some(fault));
                        return Err(fault);
                    }
                },
            }
            i = i + 1;
        }
        assert forall|c: Child| #[trigger] self@.contains_key(c) implies self.child_fault(c) is None by {
            assert(self@.dom().contains(c));
            let q = self.by_child.keys();
            let k = choose|k: int| 0 <= k < q.len() && q[k] == c;
            assert(self.child_fault(q[k]) is None);
        }
        let owners = self.by_owner.len();
        let mut at: usize = 0;
        while at < owners
            invariant
                at <= owners,
                owners == self.by_owner.keys().len(),
                is_listing(self.by_owner.keys(), self.by_owner@.dom()),
                forall|c: Child| #[trigger] self@.contains_key(c) ==> self.child_fault(c) is None,
                forall|j: int| 0 <= j < at ==> self.owner_holds(#[trigger] self.by_owner.keys()[j]),
            decreases owners - at,
        {
            let owner = self.by_owner.key_at(at);
            let set = self.by_owner.value_at(at);
            assert(self.owners().contains_key(owner) && self.owners()[owner] == set@);
            proof {
                assert forall|p: Owner| #[trigger]
                    self.owners().contains_key(p) && p.rank() < owner.rank() implies self.owner_holds(p) by {
                    assert(self.by_owner@.dom().contains(p));
                    let q = self.by_owner.keys();
                    let k = choose|k: int| 0 <= k < q.len() && q[k] == p;
                    if k > at {
                        assert(q[at as int].rank() < q[k].rank());
                    }
                    assert(self.owner_holds(q[k]));
                }
            }
            if set.is_empty() {
                let fault = MirrorFault::EmptyReverseSet { owner };
                assert(self.owner_fault(owner, fault));
                return Err(fault);
            }
            let m = set.len();
            let mut j: usize = 0;
            while j < m
                invariant
                    j <= m,
                    m == set.items().len(),
                    is_listing(set.items(), set@),
                    self.owners().contains_key(owner),
                    self.owners()[owner] == set@,
                    forall|c: Child| #[trigger] self@.contains_key(c) ==> self.child_fault(c) is None,
                    forall|p: Owner| #[trigger]
                        self.owners().contains_key(p) && p.rank() < owner.rank() ==> self.owner_holds(p),
                    forall|k: int| 0 <= k < j ==> self.edge_holds(owner, #[trigger] set.items()[k]),
                decreases m - j,
            {
                let child = set.at(j);
                proof {
                    assert forall|c: Child| #[trigger]
                        self.owners()[owner].contains(c) && c.rank() < child.rank() implies self.edge_holds(
                        owner,
                        c,
                    ) by {
                        assert(set@.contains(c));
                        let q = set.items();
                        let k = choose|k: int| 0 <= k < q.len() && q[k] == c;
                        if k > j {
                            assert(q[j as int].rank() < q[k].rank());
                        }
                        assert(self.edge_holds(owner, q[k]));
                    }
                }
                match self.by_child.get(&child) {
                    None => {
                        let fault = MirrorFault::ChildNotLive { owner, child };
                        assert(self.owner_fault(owner, fault));
                        assert(!self.owner_holds(owner)) by {
                            assert(self.owners()[owner].contains(child));
                        }
                        return Err(fault);
                    },
                    Some(value) => {
                        if !same(value.owner_key(), &owner) {
                            let fault = MirrorFault::WrongOwner { owner, child };
                            assert(self.owner_fault(owner, fault));
                            assert(!self.owner_holds(owner)) by {
                                assert(self.owners()[owner].contains(child));
                            }
                            return Err(fault);
                        }
                    },
                }
                j = j + 1;
            }
            assert(self.owner_holds(owner)) by {
                assert forall|c: Child| #[trigger]
                    self.owners()[owner].contains(c) implies self.edge_holds(owner, c) by {
                    assert(set@.contains(c));
                    let q = set.items();
                    let k = choose|k: int| 0 <= k < q.len() && q[k] == c;
                    assert(self.edge_holds(owner, q[k]));
                }
            }
            at = at + 1;
        }
        assert forall|o: Owner| #[trigger] self.owners().contains_key(o) implies self.owner_holds(o) by {
            assert(self.by_owner@.dom().contains(o));
            let q = self.by_owner.keys();
            let k = choose|k: int| 0 <= k < q.len() && q[k] == o;
            assert(self.owner_holds(q[k]));
        }
        Ok(())
    }
}

/// In a sound index a child is named by an owner if and only if it is there and reports
/// that owner, and an owner is there if and only if some child reports it.
pub proof fn owners_name_their_own_children<Owner: Key, Child: Key, V: IndexedChild<Owner>>(
    index: OwnerIndexed<Owner, Child, V>,
    o: Owner,
    c: Child,
)
    requires
        index.wf(),
    ensures
        index.owners().contains_key(o) && index.owners()[o].contains(c) <==> index@.contains_key(c)
            && index@[c].owner() == o,
        index.owners().contains_key(o) <==> exists|d: Child| #[trigger]
            index@.contains_key(d) && index@[d].owner() == o,
        index.children(o).contains(c) <==> index@.contains_key(c) && index@[c].owner() == o,
{
    index.lemma_owners();
    assert(index.owners().contains_key(o) <==> index.owning().contains(o));
    if index.owners().contains_key(o) {
        assert(index.owner_holds(o));
        if index.owners()[o].contains(c) {
            assert(index.edge_holds(o, c));
        }
    }
    if index@.contains_key(c) && index@[c].owner() == o {
        assert(index.child_fault(c) is None);
    }
}

} // verus!
