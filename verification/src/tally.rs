//! Counts of what owners hold, with no row kept for an owner that holds
//! nothing.

use vstd::prelude::*;

use crate::key::{
    is_listing, lemma_is_listing, lemma_listing_members, lemma_listing_of, lemma_pair_order,
    lemma_push_contains, listing_of, strictly_rising, Key, Pair,
};
use crate::sorted::SortedMap;

verus! {

/// The row of one owner.
pub open spec fn row_of<O, C>(m: Map<Pair<O, C>, usize>, owner: O) -> Map<C, usize> {
    Map::new(|c: C| m.contains_key(Pair(owner, c)), |c: C| m[Pair(owner, c)])
}

/// The table without the row of one owner.
pub open spec fn without_row<O, C>(m: Map<Pair<O, C>, usize>, owner: O) -> Map<Pair<O, C>, usize> {
    Map::new(|e: Pair<O, C>| m.contains_key(e) && e.0 != owner, |e: Pair<O, C>| m[e])
}

/// The table with the row of one owner put in place of what it had.
pub open spec fn with_row<O, C>(
    m: Map<Pair<O, C>, usize>,
    owner: O,
    row: Map<C, usize>,
) -> Map<Pair<O, C>, usize> {
    Map::new(
        |e: Pair<O, C>|
            if e.0 == owner {
                row.contains_key(e.1)
            } else {
                m.contains_key(e)
            },
        |e: Pair<O, C>|
            if e.0 == owner {
                row[e.1]
            } else {
                m[e]
            },
    )
}

/// The count of one entry; an entry that is not there counts nothing.
pub open spec fn count_at<K>(m: Map<K, usize>, k: K) -> nat {
    if m.contains_key(k) {
        m[k] as nat
    } else {
        0
    }
}

/// The sum of the counts of the entries in `q`.
pub open spec fn total_over<K>(q: Seq<K>, m: Map<K, usize>) -> nat
    decreases q.len(),
{
    if q.len() == 0 {
        0
    } else {
        total_over(q.drop_last(), m) + m[q.last()] as nat
    }
}

/// The sum of all counts.
pub open spec fn total<K: Key>(m: Map<K, usize>) -> nat {
    total_over(listing_of(m.dom()), m)
}

proof fn lemma_total_prefix<K>(q: Seq<K>, m: Map<K, usize>, i: int)
    requires
        0 <= i <= q.len(),
    ensures
        total_over(q.take(i), m) <= total_over(q, m),
    decreases q.len() - i,
{
    if i < q.len() {
        assert(q.take(i + 1).drop_last() =~= q.take(i));
        lemma_total_prefix(q, m, i + 1);
    } else {
        assert(q.take(i) =~= q);
    }
}

/// A table of counts by owner and by what is held.
#[verifier::reject_recursive_types(O)]
#[verifier::reject_recursive_types(C)]
pub struct Tally<O: Key, C: Key> {
    rows: SortedMap<O, SortedMap<C, usize>>,
}

spec fn cells<O: Key, C: Key>(rows: Map<O, SortedMap<C, usize>>) -> Map<Pair<O, C>, usize> {
    Map::new(
        |e: Pair<O, C>| rows.contains_key(e.0) && rows[e.0]@.contains_key(e.1),
        |e: Pair<O, C>| rows[e.0]@[e.1],
    )
}

spec fn no_bare_row<O: Key, C: Key>(rows: Map<O, SortedMap<C, usize>>) -> bool {
    forall|o: O| #[trigger] rows.contains_key(o) ==> rows[o]@ != Map::<C, usize>::empty()
}

impl<O: Key, C: Key> View for Tally<O, C> {
    type V = Map<Pair<O, C>, usize>;

    closed spec fn view(&self) -> Map<Pair<O, C>, usize> {
        cells(self.rows@)
    }
}

impl<O: Key, C: Key> Tally<O, C> {
    #[verifier::type_invariant]
    spec fn keeps_no_bare_row(self) -> bool {
        no_bare_row(self.rows@)
    }

    /// The owners that have a row.
    pub open spec fn owners(&self) -> Set<O> {
        Set::new(|o: O| row_of(self@, o) != Map::<C, usize>::empty())
    }

    pub fn new() -> (r: Self)
        ensures
            r@ == Map::<Pair<O, C>, usize>::empty(),
    {
        let r = Tally { rows: SortedMap::new() };
        assert(r@ =~= Map::<Pair<O, C>, usize>::empty());
        r
    }

    /// The row of one owner, where it holds anything.
    pub fn row(&self, owner: &O) -> (r: Option<&SortedMap<C, usize>>)
        ensures
            match r {
                Some(row) => row@ == row_of(self@, *owner) && row@ != Map::<C, usize>::empty(),
                None => row_of(self@, *owner) == Map::<C, usize>::empty(),
            },
    {
        proof {
            use_type_invariant(self);
        }
        let r = self.rows.get(owner);
        proof {
            match r {
                Some(row) => {
                    assert(row@ =~= row_of(self@, *owner));
                },
                None => {
                    assert(row_of(self@, *owner) =~= Map::<C, usize>::empty());
                },
            }
        }
        r
    }

    /// The owners that have a row, in rising order.
    pub fn owner_list(&self) -> (q: Vec<O>)
        ensures
            is_listing(q@, self.owners()),
    {
        proof {
            use_type_invariant(self);
            assert forall|o: O| self.rows@.dom().contains(o) <==> self.owners().contains(o) by {
                if self.rows@.contains_key(o) {
                    assert(row_of(self@, o) =~= self.rows@[o]@);
                } else {
                    assert(row_of(self@, o) =~= Map::<C, usize>::empty());
                }
            }
            assert(self.rows@.dom() =~= self.owners());
        }
        self.rows.key_list()
    }

    /// Drops the row of one owner and gives it back.
    pub fn take_row(&mut self, owner: &O) -> (r: SortedMap<C, usize>)
        ensures
            r@ == row_of(old(self)@, *owner),
            final(self)@ == without_row(old(self)@, *owner),
    {
        proof {
            use_type_invariant(&*self);
        }
        let ghost before = self.rows@;
        let mut rows: SortedMap<O, SortedMap<C, usize>> = SortedMap::new();
        std::mem::swap(&mut self.rows, &mut rows);
        let r = match rows.remove(owner) {
            Some(row) => row,
            None => SortedMap::new(),
        };
        self.rows = rows;
        assert(r@ =~= row_of(cells(before), *owner));
        assert(cells(self.rows@) =~= without_row(cells(before), *owner));
        r
    }

    /// Puts a row in place of what the owner had.
    pub fn set_row(&mut self, owner: &O, row: SortedMap<C, usize>)
        ensures
            final(self)@ == with_row(old(self)@, *owner, row@),
    {
        proof {
            use_type_invariant(&*self);
        }
        let ghost before = self.rows@;
        let ghost put = row@;
        let mut rows: SortedMap<O, SortedMap<C, usize>> = SortedMap::new();
        std::mem::swap(&mut self.rows, &mut rows);
        if row.is_empty() {
            rows.remove(owner);
        } else {
            rows.insert(*owner, row);
        }
        self.rows = rows;
        assert(cells(self.rows@) =~= with_row(cells(before), *owner, put));
    }

    pub fn get(&self, owner: &O, child: &C) -> (r: Option<usize>)
        ensures
            match r {
                Some(n) => self@.contains_key(Pair(*owner, *child)) && n == self@[Pair(*owner, *child)],
                None => !self@.contains_key(Pair(*owner, *child)),
            },
    {
        match self.rows.get(owner) {
            Some(row) => match row.get(child) {
                Some(n) => Some(*n),
                None => None,
            },
            None => None,
        }
    }

    /// Sets one count.
    fn put(&mut self, owner: &O, child: &C, n: usize)
        ensures
            final(self)@ == old(self)@.insert(Pair(*owner, *child), n),
    {
        proof {
            use_type_invariant(&*self);
        }
        let ghost before = self.rows@;
        let mut rows: SortedMap<O, SortedMap<C, usize>> = SortedMap::new();
        std::mem::swap(&mut self.rows, &mut rows);
        let mut row = match rows.remove(owner) {
            Some(row) => row,
            None => SortedMap::new(),
        };
        row.insert(*child, n);
        assert(row@.contains_key(*child));
        rows.insert(*owner, row);
        self.rows = rows;
        assert(cells(self.rows@) =~= cells(before).insert(Pair(*owner, *child), n));
    }

    /// Drops one entry, and the row with its last entry.
    pub fn drop_entry(&mut self, owner: &O, child: &C)
        ensures
            final(self)@ == old(self)@.remove(Pair(*owner, *child)),
    {
        proof {
            use_type_invariant(&*self);
        }
        let ghost before = self.rows@;
        let mut rows: SortedMap<O, SortedMap<C, usize>> = SortedMap::new();
        std::mem::swap(&mut self.rows, &mut rows);
        if let Some(mut row) = rows.remove(owner) {
            row.remove(child);
            if !row.is_empty() {
                rows.insert(*owner, row);
            }
        }
        self.rows = rows;
        proof {
            assert forall|e: Pair<O, C>| cells(self.rows@).contains_key(e) <==> cells(before).remove(
                Pair(*owner, *child),
            ).contains_key(e) by {
                if e.0 == *owner && before.contains_key(*owner) {
                    let left = before[*owner]@.remove(*child);
                    assert(left.contains_key(e.1) <==> before[*owner]@.contains_key(e.1) && e.1 != *child);
                }
            }
            assert(cells(self.rows@) =~= cells(before).remove(Pair(*owner, *child)));
        }
    }

    /// Raises one count; an entry that is not there starts at nothing.
    pub fn raise(&mut self, owner: &O, child: &C, n: usize)
        requires
            count_at(old(self)@, Pair(*owner, *child)) + n <= usize::MAX,
        ensures
            final(self)@ == old(self)@.insert(
                Pair(*owner, *child),
                (count_at(old(self)@, Pair(*owner, *child)) + n) as usize,
            ),
    {
        let prior: usize = match self.get(owner, child) {
            Some(prior) => prior,
            None => 0,
        };
        self.put(owner, child, prior + n);
    }

    /// Lowers one count and drops the entry when nothing is left of it.
    pub fn lower(&mut self, owner: &O, child: &C, n: usize)
        requires
            old(self)@.contains_key(Pair(*owner, *child)),
            old(self)@[Pair(*owner, *child)] >= n,
        ensures
            final(self)@ == (if old(self)@[Pair(*owner, *child)] == n {
                old(self)@.remove(Pair(*owner, *child))
            } else {
                old(self)@.insert(
                    Pair(*owner, *child),
                    (old(self)@[Pair(*owner, *child)] - n) as usize,
                )
            }),
    {
        let prior: usize = match self.get(owner, child) {
            Some(prior) => prior,
            None => n,
        };
        if prior == n {
            self.drop_entry(owner, child);
        } else {
            self.put(owner, child, prior - n);
        }
    }

    /// Every entry, by owner and then by what it holds.
    pub fn entries(&self) -> (out: Vec<Pair<O, C>>)
        ensures
            is_listing(out@, self@.dom()),
    {
        let n = self.rows.len();
        let ghost q = self.rows.keys();
        let mut out: Vec<Pair<O, C>> = Vec::new();
        let mut i: usize = 0;
        while i < n
            invariant
                i <= n,
                n == q.len(),
                q == self.rows.keys(),
                is_listing(q, self.rows@.dom()),
                strictly_rising(out@),
                forall|e: Pair<O, C>|
                    #[trigger] out@.contains(e) <==> q.take(i as int).contains(e.0) && self@.contains_key(e),
            decreases n - i,
        {
            let owner = self.rows.key_at(i);
            let row = self.rows.value_at(i);
            let m = row.len();
            let ghost s = row.keys();
            let mut j: usize = 0;
            proof {
                assert(q.take(i + 1) =~= q.take(i as int).push(owner));
                lemma_push_contains(q.take(i as int), owner);
                assert(s.take(0) =~= Seq::<C>::empty());
                assert(!q.take(i as int).contains(owner)) by {
                    if q.take(i as int).contains(owner) {
                        let k = choose|k: int| 0 <= k < i && q.take(i as int)[k] == owner;
                        assert(q[k].rank() < q[i as int].rank());
                    }
                }
            }
            while j < m
                invariant
                    i < n,
                    n == q.len(),
                    owner == q[i as int],
                    self.rows@.contains_key(owner),
                    *row == self.rows@[owner],
                    strictly_rising(q),
                    !q.take(i as int).contains(owner),
                    j <= m,
                    m == s.len(),
                    s == row.keys(),
                    is_listing(s, row@.dom()),
                    strictly_rising(out@),
                    forall|e: Pair<O, C>|
                        #[trigger] out@.contains(e) <==> (q.take(i as int).contains(e.0) && self@.contains_key(e))
                            || (e.0 == owner && s.take(j as int).contains(e.1)),
                decreases m - j,
            {
                let child = row.key_at(j);
                let edge = Pair(owner, child);
                let ghost prior = out@;
                proof {
                    assert forall|a: int| 0 <= a < prior.len() implies (#[trigger] prior[a]).rank()
                        < edge.rank() by {
                        let e = prior[a];
                        assert(prior.contains(e));
                        lemma_pair_order(e, edge);
                        if e.0 == owner {
                            let k = choose|k: int| 0 <= k < j && s.take(j as int)[k] == e.1;
                            assert(s[k].rank() < s[j as int].rank());
                        } else {
                            let k = choose|k: int| 0 <= k < i && q.take(i as int)[k] == e.0;
                            assert(q[k].rank() < q[i as int].rank());
                        }
                    }
                    lemma_push_contains(prior, edge);
                    assert(s.take(j + 1) =~= s.take(j as int).push(child));
                    lemma_push_contains(s.take(j as int), child);
                }
                out.push(edge);
                assert(out@ == prior.push(edge));
                j = j + 1;
            }
            proof {
                assert(s.take(m as int) =~= s);
                lemma_listing_members(s, row@.dom());
                assert forall|e: Pair<O, C>| #[trigger] out@.contains(e) <==> q.take(i + 1).contains(e.0)
                    && self@.contains_key(e) by {}
            }
            i = i + 1;
        }
        proof {
            assert(q.take(n as int) =~= q);
            lemma_listing_members(q, self.rows@.dom());
            lemma_is_listing(out@, self@.dom());
        }
        out
    }

    /// The sum of all counts.
    pub fn sum(&self) -> (n: usize)
        requires
            total(self@) <= usize::MAX,
        ensures
            n == total(self@),
    {
        let entries = self.entries();
        let ghost q = entries@;
        let mut n: usize = 0;
        let mut i: usize = 0;
        proof {
            lemma_listing_of(q, self@.dom());
            assert(q.take(0) =~= Seq::<Pair<O, C>>::empty());
        }
        while i < entries.len()
            invariant
                i <= q.len(),
                q == entries@,
                is_listing(q, self@.dom()),
                n == total_over(q.take(i as int), self@),
                total_over(q, self@) <= usize::MAX,
            decreases q.len() - i,
        {
            let entry = entries[i];
            assert(self@.dom().contains(q[i as int]));
            let count: usize = match self.get(&entry.0, &entry.1) {
                Some(count) => count,
                None => 0,
            };
            proof {
                assert(Pair(entry.0, entry.1) == entry);
                assert(q.take(i + 1).drop_last() =~= q.take(i as int));
                assert(q.take(i + 1).last() == entry);
                lemma_total_prefix(q, self@, i + 1);
            }
            n = n + count;
            i = i + 1;
        }
        assert(q.take(i as int) =~= q);
        n
    }
}

/// A row that was put in place is there as it was put; the rows of other owners are as
/// they were; and a row that was taken away is empty.
pub proof fn rows_change_on_their_own<O, C>(
    m: Map<Pair<O, C>, usize>,
    owner: O,
    row: Map<C, usize>,
    other: O,
    c: C,
)
    requires
        other != owner,
    ensures
        row_of(m, owner).contains_key(c) <==> m.contains_key(Pair(owner, c)),
        m.contains_key(Pair(owner, c)) ==> row_of(m, owner)[c] == m[Pair(owner, c)],
        row_of(with_row(m, owner, row), owner) == row,
        row_of(with_row(m, owner, row), other) == row_of(m, other),
        row_of(without_row(m, owner), owner) == Map::<C, usize>::empty(),
        row_of(without_row(m, owner), other) == row_of(m, other),
{
    assert(row_of(with_row(m, owner, row), owner) =~= row);
    assert(row_of(with_row(m, owner, row), other) =~= row_of(m, other));
    assert(row_of(without_row(m, owner), owner) =~= Map::<C, usize>::empty());
    assert(row_of(without_row(m, owner), other) =~= row_of(m, other));
}

/// A count that is there counts as itself, one that is not counts nothing.
pub proof fn absent_counts_are_nothing<K>(m: Map<K, usize>, k: K)
    ensures
        m.contains_key(k) ==> count_at(m, k) == m[k],
        !m.contains_key(k) ==> count_at(m, k) == 0,
{
}

} // verus!
