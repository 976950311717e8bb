//! A relation from owners to what they hold, with no owner that holds nothing.

use vstd::prelude::*;

use crate::key::{
    is_listing, lemma_is_listing, lemma_listing_members, lemma_pair_order, lemma_push_contains,
    strictly_rising, Key, Pair,
};
use crate::sorted::{SortedMap, SortedSet};

verus! {

/// What one owner holds in a relation.
pub open spec fn held_by<O, C>(edges: Set<Pair<O, C>>, owner: O) -> Set<C> {
    Set::new(|c: C| edges.contains(Pair(owner, c)))
}

/// The edges of every other owner.
pub open spec fn without_owner<O, C>(edges: Set<Pair<O, C>>, owner: O) -> Set<Pair<O, C>> {
    Set::new(|e: Pair<O, C>| edges.contains(e) && e.0 != owner)
}

/// The owners that hold anything.
pub open spec fn owners_of<O, C>(edges: Set<Pair<O, C>>) -> Set<O> {
    Set::new(|o: O| exists|c: C| edges.contains(Pair(o, c)))
}

/// The reverse direction of an index: for each owner, what it holds.
#[verifier::reject_recursive_types(O)]
#[verifier::reject_recursive_types(C)]
pub struct ReverseIndex<O: Key, C: Key> {
    sets: SortedMap<O, SortedSet<C>>,
}

impl<O: Key, C: Key> View for ReverseIndex<O, C> {
    type V = Set<Pair<O, C>>;

    closed spec fn view(&self) -> Set<Pair<O, C>> {
        edges_in(self.sets@)
    }
}

spec fn edges_in<O: Key, C: Key>(sets: Map<O, SortedSet<C>>) -> Set<Pair<O, C>> {
    Set::new(|e: Pair<O, C>| sets.contains_key(e.0) && sets[e.0]@.contains(e.1))
}

spec fn none_empty<O: Key, C: Key>(sets: Map<O, SortedSet<C>>) -> bool {
    forall|o: O| #[trigger] sets.contains_key(o) ==> sets[o]@ != Set::<C>::empty()
}

impl<O: Key, C: Key> ReverseIndex<O, C> {
    #[verifier::type_invariant]
    spec fn holds_no_empty_set(self) -> bool {
        none_empty(self.sets@)
    }

    pub fn new() -> (r: Self)
        ensures
            r@ == Set::<Pair<O, C>>::empty(),
    {
        let r = ReverseIndex { sets: SortedMap::new() };
        assert(r@ =~= Set::<Pair<O, C>>::empty());
        r
    }

    pub fn contains(&self, owner: &O, child: &C) -> (b: bool)
        ensures
            b == self@.contains(Pair(*owner, *child)),
    {
        match self.sets.get(owner) {
            Some(set) => set.contains(child),
            None => false,
        }
    }

    /// Whether the owner holds anything.
    pub fn holds_any(&self, owner: &O) -> (b: bool)
        ensures
            b == (held_by(self@, *owner) != Set::<C>::empty()),
    {
        proof {
            use_type_invariant(self);
        }
        let b = self.sets.contains(owner);
        proof {
            if b {
                assert(held_by(self@, *owner) =~= self.sets@[*owner]@);
            } else {
                assert(held_by(self@, *owner) =~= Set::<C>::empty());
            }
        }
        b
    }

    /// What one owner holds.
    pub fn held(&self, owner: &O) -> (r: SortedSet<C>)
        ensures
            r@ == held_by(self@, *owner),
    {
        match self.sets.get(owner) {
            Some(set) => {
                assert(held_by(self@, *owner) =~= set@);
                set.copy()
            },
            None => {
                assert(held_by(self@, *owner) =~= Set::<C>::empty());
                SortedSet::new()
            },
        }
    }

    /// Adds one edge.
    pub fn add_edge(&mut self, owner: O, child: C)
        ensures
            final(self)@ == old(self)@.insert(Pair(owner, child)),
    {
        proof {
            use_type_invariant(&*self);
        }
        let ghost before = self.sets@;
        let mut sets: SortedMap<O, SortedSet<C>> = SortedMap::new();
        std::mem::swap(&mut self.sets, &mut sets);
        let mut set = match sets.remove(&owner) {
            Some(set) => set,
            None => SortedSet::new(),
        };
        set.insert(child);
        assert(set@.contains(child));
        sets.insert(owner, set);
        self.sets = sets;
        assert(edges_in(self.sets@) =~= edges_in(before).insert(Pair(owner, child)));
    }

    /// Drops one edge and says whether it was there.
    pub fn drop_edge(&mut self, owner: &O, child: &C) -> (b: bool)
        ensures
            final(self)@ == old(self)@.remove(Pair(*owner, *child)),
            b == old(self)@.contains(Pair(*owner, *child)),
    {
        proof {
            use_type_invariant(&*self);
        }
        let ghost before = self.sets@;
        let mut sets: SortedMap<O, SortedSet<C>> = SortedMap::new();
        std::mem::swap(&mut self.sets, &mut sets);
        let b = match sets.remove(owner) {
            Some(mut set) => {
                let b = set.remove(child);
                if !set.is_empty() {
                    sets.insert(*owner, set);
                }
                b
            },
            None => false,
        };
        self.sets = sets;
        proof {
            let left = before[*owner]@.remove(*child);
            assert forall|e: Pair<O, C>| edges_in(self.sets@).contains(e) <==> edges_in(before).remove(
                Pair(*owner, *child),
            ).contains(e) by {
                if e.0 == *owner && before.contains_key(*owner) {
                    assert(left.contains(e.1) <==> before[*owner]@.contains(e.1) && e.1 != *child);
                }
            }
        }
        assert(edges_in(self.sets@) =~= edges_in(before).remove(Pair(*owner, *child)));
        b
    }

    /// Drops every edge of one owner and gives back what it held.
    pub fn take_owner(&mut self, owner: &O) -> (r: SortedSet<C>)
        ensures
            r@ == held_by(old(self)@, *owner),
            final(self)@ == without_owner(old(self)@, *owner),
    {
        proof {
            use_type_invariant(&*self);
        }
        let ghost before = self.sets@;
        let mut sets: SortedMap<O, SortedSet<C>> = SortedMap::new();
        std::mem::swap(&mut self.sets, &mut sets);
        let r = match sets.remove(owner) {
            Some(set) => set,
            None => SortedSet::new(),
        };
        self.sets = sets;
        assert(r@ =~= held_by(edges_in(before), *owner));
        assert(edges_in(self.sets@) =~= without_owner(edges_in(before), *owner));
        r
    }

    /// Drops every edge to one child.
    pub fn drop_child(&mut self, child: &C)
        ensures
            final(self)@ == Set::new(|e: Pair<O, C>| old(self)@.contains(e) && e.1 != *child),
    {
        let owners = self.owners();
        let ghost before = self@;
        let mut i: usize = 0;
        while i < owners.len()
            invariant
                i <= owners@.len(),
                forall|e: Pair<O, C>| #[trigger]
                    self@.contains(e) <==> before.contains(e) && !(e.1 == *child && owners@.take(
                        i as int,
                    ).contains(e.0)),
            decreases owners@.len() - i,
        {
            proof {
                assert(owners@.take(i + 1) =~= owners@.take(i as int).push(owners@[i as int]));
                lemma_push_contains(owners@.take(i as int), owners@[i as int]);
            }
            let owner = owners[i];
            self.drop_edge(&owner, child);
            i = i + 1;
        }
        proof {
            assert(owners@.take(i as int) =~= owners@);
            lemma_listing_members(owners@, owners_of(before));
            assert forall|e: Pair<O, C>| self@.contains(e) <==> before.contains(e) && e.1 != *child by {
                if before.contains(e) {
                    assert(before.contains(Pair(e.0, e.1)));
                    assert(owners_of(before).contains(e.0));
                    assert(owners@.contains(e.0));
                }
            }
            assert(self@ =~= Set::new(|e: Pair<O, C>| before.contains(e) && e.1 != *child));
        }
    }

    /// The owners that hold anything, in rising order.
    pub fn owners(&self) -> (q: Vec<O>)
        ensures
            is_listing(q@, owners_of(self@)),
    {
        proof {
            use_type_invariant(self);
            assert forall|o: O| self.sets@.dom().contains(o) <==> owners_of(self@).contains(o) by {
                if self.sets@.dom().contains(o) {
                    assert(exists|c: C| self.sets@[o]@.contains(c)) by {
                        if forall|c: C| !self.sets@[o]@.contains(c) {
                            assert(self.sets@[o]@ =~= Set::<C>::empty());
                        }
                    }
                    let c = choose|c: C| self.sets@[o]@.contains(c);
                    assert(self@.contains(Pair(o, c)));
                }
            }
            assert(self.sets@.dom() =~= owners_of(self@));
        }
        self.sets.key_list()
    }

    /// Every edge, by owner and then by what it holds.
    pub fn edges(&self) -> (out: Vec<Pair<O, C>>)
        ensures
            is_listing(out@, self@),
    {
        let n = self.sets.len();
        let ghost q = self.sets.keys();
        let mut out: Vec<Pair<O, C>> = Vec::new();
        let mut i: usize = 0;
        while i < n
            invariant
                i <= n,
                n == q.len(),
                q == self.sets.keys(),
                is_listing(q, self.sets@.dom()),
                strictly_rising(out@),
                forall|e: Pair<O, C>|
                    #[trigger] out@.contains(e) <==> q.take(i as int).contains(e.0) && self@.contains(e),
            decreases n - i,
        {
            let owner = self.sets.key_at(i);
            let set = self.sets.value_at(i);
            let m = set.len();
            let ghost s = set.items();
            let mut j: usize = 0;
            proof {
                assert(q.take(i + 1) =~= q.take(i as int).push(owner));
                lemma_push_contains(q.take(i as int), owner);
                assert(s.take(0) =~= Seq::<C>::empty());
                assert(!q.take(i as int).contains(owner)) by {
                    if q.take(i as int).contains(owner) {
                        let k = choose|k: int| 0 <= k < i && q.take(i as int)[k] == owner;
                        assert(q[k].rank() < q[i as int].rank());
                    }
                }
            }
            while j < m
                invariant
                    i < n,
                    n == q.len(),
                    owner == q[i as int],
                    self.sets@.contains_key(owner),
                    *set == self.sets@[owner],
                    strictly_rising(q),
                    !q.take(i as int).contains(owner),
                    j <= m,
                    m == s.len(),
                    s == set.items(),
                    is_listing(s, set@),
                    strictly_rising(out@),
                    forall|e: Pair<O, C>|
                        #[trigger] out@.contains(e) <==> (q.take(i as int).contains(e.0) && self@.contains(e))
                            || (e.0 == owner && s.take(j as int).contains(e.1)),
                decreases m - j,
            {
                let child = set.at(j);
                let edge = Pair(owner, child);
                let ghost prior = out@;
                proof {
                    assert forall|a: int| 0 <= a < prior.len() implies (#[trigger] prior[a]).rank()
                        < edge.rank() by {
                        let e = prior[a];
                        assert(prior.contains(e));
                        lemma_pair_order(e, edge);
                        if e.0 == owner {
                            let k = choose|k: int| 0 <= k < j && s.take(j as int)[k] == e.1;
                            assert(s[k].rank() < s[j as int].rank());
                        } else {
                            let k = choose|k: int| 0 <= k < i && q.take(i as int)[k] == e.0;
                            assert(q[k].rank() < q[i as int].rank());
                        }
                    }
                    lemma_push_contains(prior, edge);
                    assert(s.take(j + 1) =~= s.take(j as int).push(child));
                    lemma_push_contains(s.take(j as int), child);
                }
                out.push(edge);
                assert(out@ == prior.push(edge));
                j = j + 1;
            }
            proof {
                assert(s.take(m as int) =~= s);
                lemma_listing_members(s, set@);
                assert forall|e: Pair<O, C>| #[trigger] out@.contains(e) <==> q.take(i + 1).contains(e.0)
                    && self@.contains(e) by {}
            }
            i = i + 1;
        }
        proof {
            assert(q.take(n as int) =~= q);
            lemma_listing_members(q, self.sets@.dom());
            lemma_is_listing(out@, self@);
        }
        out
    }

    /// How many owners hold anything.
    pub fn owner_count(&self) -> (n: usize)
        ensures
            n == owners_of(self@).len(),
    {
        self.owners().len()
    }

    /// How many edges there are.
    pub fn edge_count(&self) -> (n: usize)
        ensures
            n == self@.len(),
            self@.finite(),
    {
        self.edges().len()
    }
}

/// An owner holds what an edge leads to from it, owns anything if and only if it holds
/// anything, and loses all of that, and nothing else does, when its edges go.
pub proof fn owners_hold_their_edges<O, C>(edges: Set<Pair<O, C>>, owner: O, e: Pair<O, C>)
    ensures
        held_by(edges, e.0).contains(e.1) <==> edges.contains(e),
        without_owner(edges, owner).contains(e) <==> edges.contains(e) && e.0 != owner,
        owners_of(edges).contains(owner) <==> held_by(edges, owner) != Set::<C>::empty(),
{
    assert(Pair(e.0, e.1) == e);
    if owners_of(edges).contains(owner) {
        let c = choose|c: C| edges.contains(Pair(owner, c));
        assert(held_by(edges, owner).contains(c));
    }
    if held_by(edges, owner) != Set::<C>::empty() {
        if forall|c: C| !held_by(edges, owner).contains(c) {
            assert(held_by(edges, owner) =~= Set::<C>::empty());
        }
        let c = choose|c: C| held_by(edges, owner).contains(c);
        assert(edges.contains(Pair(owner, c)));
    }
}

} // verus!
