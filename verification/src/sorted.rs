//! Ordered maps and sets over identities.
//!
//! Both keep their members in rising order, so that a walk over one is a
//! function of what it holds and of nothing else.

use vstd::prelude::*;

use crate::key::{is_listing, lemma_listing_members, lemma_push_contains, strictly_rising, Key};

verus! {

pub open spec fn has_key<K, V>(s: Seq<(K, V)>, k: K) -> bool {
    exists|i: int| 0 <= i < s.len() && (#[trigger] s[i]).0 == k
}

pub open spec fn place_of<K, V>(s: Seq<(K, V)>, k: K) -> int {
    choose|i: int| 0 <= i < s.len() && (#[trigger] s[i]).0 == k
}

/// What a list of entries says of each key.
pub open spec fn map_of<K, V>(s: Seq<(K, V)>) -> Map<K, V> {
    Map::new(|k: K| has_key(s, k), |k: K| s[place_of(s, k)].1)
}

pub open spec fn keys_of<K, V>(s: Seq<(K, V)>) -> Seq<K> {
    Seq::new(s.len(), |i: int| s[i].0)
}

pub open spec fn entries_rise<K: Key, V>(s: Seq<(K, V)>) -> bool {
    forall|i: int, j: int| 0 <= i < j < s.len() ==> (#[trigger] s[i]).0.rank() < (#[trigger] s[j]).0.rank()
}

proof fn lemma_place<K: Key, V>(s: Seq<(K, V)>, i: int)
    requires
        entries_rise(s),
        0 <= i < s.len(),
    ensures
        has_key(s, s[i].0),
        place_of(s, s[i].0) == i,
        map_of(s).contains_key(s[i].0),
        map_of(s)[s[i].0] == s[i].1,
{
    let j = place_of(s, s[i].0);
    assert(has_key(s, s[i].0));
    assert(0 <= j < s.len() && s[j].0 == s[i].0);
    if j < i {
        assert(s[j].0.rank() < s[i].0.rank());
    } else if i < j {
        assert(s[i].0.rank() < s[j].0.rank());
    }
}

proof fn lemma_insert<K: Key, V>(s: Seq<(K, V)>, i: int, k: K, v: V)
    requires
        entries_rise(s),
        0 <= i <= s.len(),
        forall|j: int| 0 <= j < i ==> (#[trigger] s[j]).0.rank() < k.rank(),
        forall|j: int| i <= j < s.len() ==> k.rank() < (#[trigger] s[j]).0.rank(),
    ensures
        entries_rise(s.insert(i, (k, v))),
        !map_of(s).contains_key(k),
        map_of(s.insert(i, (k, v))) == map_of(s).insert(k, v),
{
    let t = s.insert(i, (k, v));
    assert(entries_rise(t)) by {
        assert forall|a: int, b: int| 0 <= a < b < t.len() implies (#[trigger] t[a]).0.rank() < (
        #[trigger] t[b]).0.rank() by {
            let a0 = if a < i { a } else { a - 1 };
            let b0 = if b < i { b } else { b - 1 };
            if a != i {
                assert(t[a] == s[a0]);
            }
            if b != i {
                assert(t[b] == s[b0]);
            }
        }
    }
    if map_of(s).contains_key(k) {
        let j = place_of(s, k);
        assert(s[j].0 == k);
        assert(false);
    }
    assert(t[i] == (k, v));
    lemma_place(t, i);
    assert forall|x: K| map_of(t).contains_key(x) == map_of(s).insert(k, v).contains_key(x) by {
        if has_key(s, x) {
            let j = place_of(s, x);
            let j1 = if j < i { j } else { j + 1 };
            assert(t[j1] == s[j]);
            assert(has_key(t, x));
        }
        if has_key(t, x) {
            let j = place_of(t, x);
            let j0 = if j < i { j } else { j - 1 };
            if j != i {
                assert(t[j] == s[j0]);
                assert(has_key(s, x));
            }
        }
    }
    assert forall|x: K| map_of(t).contains_key(x) implies map_of(t)[x] == map_of(s).insert(k, v)[x] by {
        if x != k {
            assert(has_key(s, x));
            let j = place_of(s, x);
            let j1 = if j < i { j } else { j + 1 };
            assert(t[j1] == s[j]);
            lemma_place(s, j);
            lemma_place(t, j1);
        }
    }
    assert(map_of(t) =~= map_of(s).insert(k, v));
}

proof fn lemma_remove<K: Key, V>(s: Seq<(K, V)>, i: int)
    requires
        entries_rise(s),
        0 <= i < s.len(),
    ensures
        entries_rise(s.remove(i)),
        map_of(s.remove(i)) == map_of(s).remove(s[i].0),
{
    let t = s.remove(i);
    assert forall|a: int| 0 <= a < t.len() implies #[trigger] t[a] == s[if a < i {
        a
    } else {
        a + 1
    }] by {}
    assert(entries_rise(t));
    lemma_place(s, i);
    let k = s[i].0;
    if has_key(t, k) {
        let j = place_of(t, k);
        assert(t[j].0 == k);
        let j0 = if j < i { j } else { j + 1 };
        assert(t[j] == s[j0]);
        lemma_place(s, j0);
        assert(false);
    }
    assert forall|x: K| map_of(t).contains_key(x) == map_of(s).remove(k).contains_key(x) by {
        if has_key(s, x) && x != k {
            let j = place_of(s, x);
            let j1 = if j < i { j } else { j - 1 };
            assert(s[j].0 == x);
            assert(t[j1] == s[j]);
        }
        if has_key(t, x) {
            let j = place_of(t, x);
            assert(t[j].0 == x);
        }
    }
    assert forall|x: K| map_of(t).contains_key(x) implies map_of(t)[x] == map_of(s).remove(k)[x] by {
        let j = place_of(t, x);
        assert(t[j].0 == x);
        let j0 = if j < i { j } else { j + 1 };
        assert(t[j] == s[j0]);
        lemma_place(s, j0);
    }
    assert(map_of(t) =~= map_of(s).remove(k));
}

proof fn lemma_update<K: Key, V>(s: Seq<(K, V)>, i: int, v: V)
    requires
        entries_rise(s),
        0 <= i < s.len(),
    ensures
        entries_rise(s.update(i, (s[i].0, v))),
        map_of(s.update(i, (s[i].0, v))) == map_of(s).insert(s[i].0, v),
{
    let t = s.update(i, (s[i].0, v));
    let k = s[i].0;
    assert forall|a: int| 0 <= a < t.len() implies (#[trigger] t[a]).0 == s[a].0 by {}
    assert(entries_rise(t));
    lemma_place(s, i);
    lemma_place(t, i);
    assert forall|x: K| map_of(t).contains_key(x) == map_of(s).insert(k, v).contains_key(x) by {
        if has_key(s, x) {
            let j = place_of(s, x);
            assert(t[j].0 == x);
        }
        if has_key(t, x) {
            let j = place_of(t, x);
            assert(s[j].0 == x);
        }
    }
    assert forall|x: K| map_of(t).contains_key(x) implies map_of(t)[x] == map_of(s).insert(k, v)[x] by {
        let j = place_of(t, x);
        assert(t[j].0 == x);
        lemma_place(t, j);
        lemma_place(s, j);
    }
    assert(map_of(t) =~= map_of(s).insert(k, v));
}

proof fn lemma_listing<K: Key, V>(s: Seq<(K, V)>)
    requires
        entries_rise(s),
    ensures
        is_listing(keys_of(s), map_of(s).dom()),
{
    let q = keys_of(s);
    assert(strictly_rising(q));
    assert forall|k: K| #[trigger] map_of(s).dom().contains(k) implies q.contains(k) by {
        let i = place_of(s, k);
        assert(s[i].0 == k);
        assert(q[i] == k);
    }
    assert forall|i: int| 0 <= i < q.len() implies map_of(s).dom().contains(#[trigger] q[i]) by {
        lemma_place(s, i);
    }
    assert(q.no_duplicates());
    q.unique_seq_to_set();
    assert(q.to_set() =~= map_of(s).dom());
    vstd::seq_lib::seq_to_set_is_finite(q);
}

/// A map from identities to values, walked in the order of the identities.
#[derive(Debug)]
#[verifier::reject_recursive_types(K)]
pub struct SortedMap<K: Key, V> {
    places: Vec<K>,
    values: Vec<V>,
}

impl<K: Key, V> View for SortedMap<K, V> {
    type V = Map<K, V>;

    closed spec fn view(&self) -> Map<K, V> {
        map_of(self.entries())
    }
}

impl<K: Key, V> SortedMap<K, V> {
    spec fn entries(&self) -> Seq<(K, V)> {
        Seq::new(self.places@.len(), |i: int| (self.places@[i], self.values@[i]))
    }

    #[verifier::type_invariant]
    spec fn ordered(self) -> bool {
        &&& strictly_rising(self.places@)
        &&& self.values@.len() == self.places@.len()
    }

    proof fn lemma_ordered(&self)
        requires
            self.ordered(),
        ensures
            entries_rise(self.entries()),
            keys_of(self.entries()) == self.places@,
            is_listing(self.places@, self@.dom()),
    {
        let s = self.entries();
        assert(entries_rise(s));
        assert(keys_of(s) =~= self.places@);
        lemma_listing(s);
    }

    /// The keys in rising order.
    pub closed spec fn keys(&self) -> Seq<K> {
        self.places@
    }

    pub fn new() -> (r: Self)
        ensures
            r@ == Map::<K, V>::empty(),
    {
        let r = SortedMap { places: Vec::new(), values: Vec::new() };
        assert(r@ =~= Map::<K, V>::empty());
        r
    }

    /// The place of the first key that does not stand before `k`.
    fn locate(&self, k: &K) -> (i: usize)
        ensures
            i <= self.places@.len(),
            forall|j: int| 0 <= j < i ==> (#[trigger] self.places@[j]).rank() < k.rank(),
            forall|j: int| i <= j < self.places@.len() ==> k.rank() <= (#[trigger] self.places@[j]).rank(),
    {
        proof {
            use_type_invariant(self);
        }
        let mut lo: usize = 0;
        let mut hi: usize = self.places.len();
        while lo < hi
            invariant
                lo <= hi <= self.places@.len(),
                strictly_rising(self.places@),
                forall|j: int| 0 <= j < lo ==> (#[trigger] self.places@[j]).rank() < k.rank(),
                forall|j: int|
                    hi <= j < self.places@.len() ==> k.rank() <= (#[trigger] self.places@[j]).rank(),
            decreases hi - lo,
        {
            let mid: usize = lo + (hi - lo) / 2;
            if self.places[mid].precedes(k) {
                assert forall|j: int| 0 <= j < mid + 1 implies (#[trigger] self.places@[j]).rank()
                    < k.rank() by {
                    if j < mid {
                        assert(self.places@[j].rank() < self.places@[mid as int].rank());
                    }
                }
                lo = mid + 1;
            } else {
                assert forall|j: int| mid <= j < self.places@.len() implies k.rank() <= (
                #[trigger] self.places@[j]).rank() by {
                    if j > mid {
                        assert(self.places@[mid as int].rank() < self.places@[j].rank());
                    }
                }
                hi = mid;
            }
        }
        lo
    }

    /// The place of `k`, where it is a key.
    fn find(&self, k: &K) -> (r: Option<usize>)
        ensures
            match r {
                Some(i) => i < self.places@.len() && self.places@[i as int] == *k
                    && self@.contains_key(*k) && self@[*k] == self.values@[i as int],
                None => !self@.contains_key(*k),
            },
    {
        proof {
            use_type_invariant(self);
            self.lemma_ordered();
        }
        let i = self.locate(k);
        let ghost s = self.entries();
        if i < self.places.len() && !k.precedes(&self.places[i]) {
            proof {
                K::rank_injective(self.places@[i as int], *k);
                assert(s[i as int].0 == *k);
                lemma_place(s, i as int);
            }
            Some(i)
        } else {
            assert(!has_key(s, *k)) by {
                if has_key(s, *k) {
                    let j = place_of(s, *k);
                    assert(s[j].0 == *k);
                    assert(self.places@[j] == *k);
                    if j > i {
                        assert(self.places@[i as int].rank() < self.places@[j].rank());
                    }
                }
            }
            None
        }
    }

    pub fn len(&self) -> (n: usize)
        ensures
            n == self@.len(),
            n == self.keys().len(),
            is_listing(self.keys(), self@.dom()),
    {
        proof {
            use_type_invariant(self);
            self.lemma_ordered();
        }
        self.places.len()
    }

    pub fn is_empty(&self) -> (b: bool)
        ensures
            b == (self@ == Map::<K, V>::empty()),
            b == (self@.len() == 0),
            self@.dom().finite(),
    {
        let n = self.len();
        assert(n == 0 ==> self@ =~= Map::<K, V>::empty());
        n == 0
    }

    pub fn contains(&self, k: &K) -> (b: bool)
        ensures
            b == self@.contains_key(*k),
    {
        self.find(k).is_some()
    }

    pub fn get(&self, k: &K) -> (r: Option<&V>)
        ensures
            match r {
                Some(v) => self@.contains_key(*k) && *v == self@[*k],
                None => !self@.contains_key(*k),
            },
    {
        proof {
            use_type_invariant(self);
        }
        match self.find(k) {
            Some(i) => Some(&self.values[i]),
            None => None,
        }
    }

    /// The key at place `i` of the walk.
    pub fn key_at(&self, i: usize) -> (k: K)
        requires
            i < self.keys().len(),
        ensures
            k == self.keys()[i as int],
            self@.contains_key(k),
            is_listing(self.keys(), self@.dom()),
    {
        proof {
            use_type_invariant(self);
            self.lemma_ordered();
            lemma_place(self.entries(), i as int);
        }
        self.places[i]
    }

    /// The value at place `i` of the walk.
    pub fn value_at(&self, i: usize) -> (v: &V)
        requires
            i < self.keys().len(),
        ensures
            self@.contains_key(self.keys()[i as int]),
            *v == self@[self.keys()[i as int]],
    {
        proof {
            use_type_invariant(self);
            self.lemma_ordered();
            lemma_place(self.entries(), i as int);
        }
        &self.values[i]
    }

    /// Sets the value of one key and gives back the value it had.
    pub fn insert(&mut self, k: K, v: V) -> (r: Option<V>)
        ensures
            final(self)@ == old(self)@.insert(k, v),
            match r {
                Some(prior) => old(self)@.contains_key(k) && prior == old(self)@[k],
                None => !old(self)@.contains_key(k),
            },
    {
        proof {
            use_type_invariant(&*self);
            self.lemma_ordered();
        }
        let ghost s = self.entries();
        match self.find(&k) {
            Some(i) => {
                proof {
                    lemma_update(s, i as int, v);
                }
                let mut whole = SortedMap::new();
                std::mem::swap(self, &mut whole);
                let SortedMap { places, mut values } = whole;
                values.push(v);
                let prior = values.swap_remove(i);
                *self = SortedMap { places, values };
                assert(self.entries() =~= s.update(i as int, (k, v)));
                Some(prior)
            },
            None => {
                let i = self.locate(&k);
                proof {
                    assert forall|j: int| i <= j < s.len() implies k.rank() < (#[trigger] s[j]).0.rank() by {
                        if k.rank() == s[j].0.rank() {
                            K::rank_injective(k, s[j].0);
                            lemma_place(s, j);
                        }
                    }
                    lemma_insert(s, i as int, k, v);
                }
                let mut whole = SortedMap::new();
                std::mem::swap(self, &mut whole);
                let SortedMap { mut places, mut values } = whole;
                places.insert(i, k);
                values.insert(i, v);
                proof {
                    let t = s.insert(i as int, (k, v));
                    assert forall|j: int| 0 <= j < t.len() implies (#[trigger] places@[j]) == t[j].0 by {}
                }
                *self = SortedMap { places, values };
                assert(self.entries() =~= s.insert(i as int, (k, v)));
                None
            },
        }
    }

    /// Drops one key and gives back the value it had.
    pub fn remove(&mut self, k: &K) -> (r: Option<V>)
        ensures
            final(self)@ == old(self)@.remove(*k),
            match r {
                Some(prior) => old(self)@.contains_key(*k) && prior == old(self)@[*k],
                None => !old(self)@.contains_key(*k),
            },
    {
        proof {
            use_type_invariant(&*self);
            self.lemma_ordered();
        }
        let ghost s = self.entries();
        match self.find(k) {
            Some(i) => {
                proof {
                    lemma_remove(s, i as int);
                }
                let mut whole = SortedMap::new();
                std::mem::swap(self, &mut whole);
                let SortedMap { mut places, mut values } = whole;
                places.remove(i);
                let prior = values.remove(i);
                proof {
                    let t = s.remove(i as int);
                    assert forall|j: int| 0 <= j < t.len() implies (#[trigger] places@[j]) == t[j].0 by {}
                }
                *self = SortedMap { places, values };
                assert(self.entries() =~= s.remove(i as int));
                Some(prior)
            },
            None => {
                assert(self@.remove(*k) =~= self@);
                None
            },
        }
    }

    /// The value of one key, open to change in place.
    pub fn get_mut(&mut self, k: &K) -> (r: Option<&mut V>)
        ensures
            match r {
                Some(v) => old(self)@.contains_key(*k) && *v == old(self)@[*k] && final(self)@
                    == old(self)@.insert(*k, *final(v)),
                None => !old(self)@.contains_key(*k) && final(self)@ == old(self)@,
            },
    {
        proof {
            use_type_invariant(&*self);
            self.lemma_ordered();
        }
        match self.find(k) {
            Some(i) => {
                let ghost s = self.entries();
                let ghost before = *self;
                proof {
                    assert forall|v: V, after: Self|
                        #![trigger before.values@.update(i as int, v), after.entries()]
                        after.places@ == before.places@ && after.values@ == before.values@.update(
                            i as int,
                            v,
                        ) implies map_of(after.entries()) == map_of(s).insert(*k, v) by {
                        lemma_update(s, i as int, v);
                        assert(after.entries() =~= s.update(i as int, (*k, v)));
                    }
                }
                Some(&mut self.values[i])
            },
            None => None,
        }
    }

    /// The keys in rising order.
    pub fn key_list(&self) -> (q: Vec<K>)
        ensures
            q@ == self.keys(),
            is_listing(q@, self@.dom()),
    {
        let n = self.len();
        let mut q: Vec<K> = Vec::new();
        let mut i: usize = 0;
        while i < n
            invariant
                i <= n,
                n == self.keys().len(),
                q@ == self.keys().take(i as int),
            decreases n - i,
        {
            let k = self.key_at(i);
            q.push(k);
            i = i + 1;
            assert(q@ =~= self.keys().take(i as int));
        }
        assert(q@ =~= self.keys());
        q
    }
}

impl<K: Key, V: Copy> SortedMap<K, V> {
    /// Another map with the same entries.
    pub fn copy(&self) -> (r: SortedMap<K, V>)
        ensures
            r@ == self@,
    {
        let n = self.len();
        let mut r: SortedMap<K, V> = SortedMap::new();
        let mut i: usize = 0;
        while i < n
            invariant
                i <= n,
                n == self.keys().len(),
                is_listing(self.keys(), self@.dom()),
                forall|k: K| r@.contains_key(k) <==> #[trigger] self.keys().take(i as int).contains(k),
                forall|k: K| #[trigger] r@.contains_key(k) ==> r@[k] == self@[k],
            decreases n - i,
        {
            let k = self.key_at(i);
            let v = *self.value_at(i);
            proof {
                assert(self.keys().take(i + 1) =~= self.keys().take(i as int).push(k));
                lemma_push_contains(self.keys().take(i as int), k);
            }
            r.insert(k, v);
            i = i + 1;
        }
        proof {
            assert(self.keys().take(n as int) =~= self.keys());
            lemma_listing_members(self.keys(), self@.dom());
            assert forall|k: K| r@.dom().contains(k) <==> self@.dom().contains(k) by {
                assert(r@.contains_key(k) <==> self.keys().take(n as int).contains(k));
            }
            assert(r@ =~= self@);
        }
        r
    }
}

/// A set of identities, walked in their order.
#[derive(Debug)]
#[verifier::reject_recursive_types(K)]
pub struct SortedSet<K: Key> {
    members: SortedMap<K, ()>,
}

impl<K: Key> View for SortedSet<K> {
    type V = Set<K>;

    closed spec fn view(&self) -> Set<K> {
        self.members@.dom()
    }
}

impl<K: Key> SortedSet<K> {
    /// The members in rising order.
    pub closed spec fn items(&self) -> Seq<K> {
        self.members.keys()
    }

    pub fn new() -> (r: Self)
        ensures
            r@ == Set::<K>::empty(),
    {
        let r = SortedSet { members: SortedMap::new() };
        assert(r@ =~= Set::<K>::empty());
        r
    }

    /// The set of one member.
    pub fn singleton(k: K) -> (r: Self)
        ensures
            r@ == Set::<K>::empty().insert(k),
    {
        let mut r = SortedSet::new();
        r.insert(k);
        r
    }

    pub fn len(&self) -> (n: usize)
        ensures
            n == self@.len(),
            n == self.items().len(),
            is_listing(self.items(), self@),
    {
        self.members.len()
    }

    pub fn is_empty(&self) -> (b: bool)
        ensures
            b == (self@ == Set::<K>::empty()),
            b == (self@.len() == 0),
            self@.finite(),
    {
        let n = self.len();
        assert(n == 0 ==> self@ =~= Set::<K>::empty());
        n == 0
    }

    pub fn contains(&self, k: &K) -> (b: bool)
        ensures
            b == self@.contains(*k),
    {
        self.members.contains(k)
    }

    /// The member at place `i` of the walk.
    pub fn at(&self, i: usize) -> (k: K)
        requires
            i < self.items().len(),
        ensures
            k == self.items()[i as int],
            self@.contains(k),
            is_listing(self.items(), self@),
    {
        self.members.key_at(i)
    }

    /// Adds a member and says whether it is new.
    pub fn insert(&mut self, k: K) -> (b: bool)
        ensures
            final(self)@ == old(self)@.insert(k),
            b == !old(self)@.contains(k),
    {
        let b = self.members.insert(k, ()).is_none();
        assert(self@ =~= old(self)@.insert(k));
        b
    }

    /// Drops a member and says whether it was one.
    pub fn remove(&mut self, k: &K) -> (b: bool)
        ensures
            final(self)@ == old(self)@.remove(*k),
            b == old(self)@.contains(*k),
    {
        let b = self.members.remove(k).is_some();
        assert(self@ =~= old(self)@.remove(*k));
        b
    }

    /// Adds every member of `other`.
    pub fn extend(&mut self, other: &SortedSet<K>)
        ensures
            final(self)@ == old(self)@.union(other@),
    {
        let n = other.len();
        let mut i: usize = 0;
        while i < n
            invariant
                i <= n,
                n == other.items().len(),
                is_listing(other.items(), other@),
                forall|k: K|
                    self@.contains(k) <==> old(self)@.contains(k) || other.items().take(i as int).contains(k),
            decreases n - i,
        {
            let k = other.at(i);
            self.insert(k);
            assert(other.items().take(i + 1) =~= other.items().take(i as int).push(k));
            assert forall|x: K|
                self@.contains(x) <==> old(self)@.contains(x) || other.items().take(i + 1).contains(x) by {
                lemma_push_contains(other.items().take(i as int), k);
            }
            i = i + 1;
        }
        assert(other.items().take(n as int) =~= other.items());
        assert forall|k: K| self@.contains(k) <==> old(self)@.union(other@).contains(k) by {
            if other.items().contains(k) {
                let j = choose|j: int| 0 <= j < other.items().len() && other.items()[j] == k;
                assert(other@.contains(other.items()[j]));
            }
        }
        assert(self@ =~= old(self)@.union(other@));
    }

    /// Another set with the same members.
    pub fn copy(&self) -> (r: SortedSet<K>)
        ensures
            r@ == self@,
    {
        let mut r = SortedSet::new();
        r.extend(self);
        assert(r@ =~= self@);
        r
    }

    /// Whether every member is one of `other`.
    pub fn is_subset(&self, other: &SortedSet<K>) -> (b: bool)
        ensures
            b == self@.subset_of(other@),
    {
        let n = self.len();
        let mut i: usize = 0;
        while i < n
            invariant
                i <= n,
                n == self.items().len(),
                is_listing(self.items(), self@),
                forall|j: int| 0 <= j < i ==> other@.contains(#[trigger] self.items()[j]),
            decreases n - i,
        {
            let k = self.at(i);
            if !other.contains(&k) {
                return false;
            }
            i = i + 1;
        }
        assert forall|k: K| self@.contains(k) implies other@.contains(k) by {
            assert(self.items().contains(k));
        }
        true
    }

    /// Whether both sets have the same members.
    pub fn equals(&self, other: &SortedSet<K>) -> (b: bool)
        ensures
            b == (self@ == other@),
    {
        let b = self.is_subset(other) && other.is_subset(self);
        assert(b ==> self@ =~= other@);
        b
    }

    /// Whether no member is one of `other`.
    pub fn is_disjoint(&self, other: &SortedSet<K>) -> (b: bool)
        ensures
            b == self@.disjoint(other@),
    {
        let n = self.len();
        let mut i: usize = 0;
        while i < n
            invariant
                i <= n,
                n == self.items().len(),
                is_listing(self.items(), self@),
                forall|j: int| 0 <= j < i ==> !other@.contains(#[trigger] self.items()[j]),
            decreases n - i,
        {
            let k = self.at(i);
            if other.contains(&k) {
                return false;
            }
            i = i + 1;
        }
        assert forall|k: K| self@.contains(k) implies !other@.contains(k) by {
            assert(self.items().contains(k));
        }
        true
    }

    /// The first member of the walk.
    pub fn first(&self) -> (r: Option<K>)
        ensures
            match r {
                Some(k) => self@.contains(k) && forall|x: K| #[trigger]
                    self@.contains(x) ==> k.rank() <= x.rank(),
                None => self@ == Set::<K>::empty(),
            },
    {
        if self.is_empty() {
            None
        } else {
            let n = self.len();
            let k = self.at(0);
            assert forall|x: K| #[trigger] self@.contains(x) implies k.rank() <= x.rank() by {
                assert(self.items().contains(x));
                let j = choose|j: int| 0 <= j < self.items().len() && self.items()[j] == x;
                if j > 0 {
                    assert(self.items()[0].rank() < self.items()[j].rank());
                }
            }
            Some(k)
        }
    }

    /// The members in rising order.
    pub fn list(&self) -> (q: Vec<K>)
        ensures
            q@ == self.items(),
            is_listing(q@, self@),
    {
        self.members.key_list()
    }
}

} // verus!
