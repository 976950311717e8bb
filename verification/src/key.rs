//! Identities that can stand in an ordered collection.
//!
//! Every identity of the engine is a plain value with a place in one total
//! order. The order is given by a number, the identity's rank: two identities
//! of one rank are the same identity.

use vstd::prelude::*;

verus! {

/// A plain value that is ordered by a rank of its own.
pub trait Key: Copy {
    /// The value's place in the order.
    spec fn rank(self) -> int;

    /// A number above every rank.
    spec fn bound() -> int;

    proof fn rank_in_bound(a: Self)
        ensures
            0 <= a.rank() < Self::bound(),
    ;

    proof fn rank_injective(a: Self, b: Self)
        requires
            a.rank() == b.rank(),
        ensures
            a == b,
    ;

    /// Whether this value stands strictly before `other`.
    fn precedes(&self, other: &Self) -> (b: bool)
        ensures
            b == (self.rank() < other.rank()),
    ;
}

/// Whether two identities are the same one.
pub fn same<K: Key>(a: &K, b: &K) -> (r: bool)
    ensures
        r == (*a == *b),
{
    let r = !a.precedes(b) && !b.precedes(a);
    proof {
        if r {
            K::rank_injective(*a, *b);
        }
    }
    r
}

/// A list of identities in strictly rising order.
pub open spec fn strictly_rising<K: Key>(q: Seq<K>) -> bool {
    forall|i: int, j: int| 0 <= i < j < q.len() ==> (#[trigger] q[i]).rank() < (#[trigger] q[j]).rank()
}

/// `q` lists the members of `s`, each once, in rising order.
pub open spec fn is_listing<K: Key>(q: Seq<K>, s: Set<K>) -> bool {
    &&& strictly_rising(q)
    &&& s.finite()
    &&& q.len() == s.len()
    &&& forall|k: K| #[trigger] s.contains(k) ==> q.contains(k)
    &&& forall|i: int| 0 <= i < q.len() ==> s.contains(#[trigger] q[i])
}

/// A finite set has one listing: the order leaves nothing open.
pub proof fn listing_is_unique<K: Key>(p: Seq<K>, q: Seq<K>, s: Set<K>)
    requires
        is_listing(p, s),
        is_listing(q, s),
    ensures
        p == q,
    decreases p.len(),
{
    if p.len() > 0 {
        let n = p.len() - 1;
        assert(s.contains(p[n]));
        assert(s.contains(q[n]));
        let i = choose|i: int| 0 <= i < q.len() && q[i] == p[n];
        let j = choose|j: int| 0 <= j < p.len() && p[j] == q[n];
        assert(q.contains(p[n]) && p.contains(q[n]));
        assert(q[i].rank() <= q[n].rank());
        assert(p[j].rank() <= p[n].rank());
        K::rank_injective(p[n], q[n]);
        let rest = s.remove(p[n]);
        let p0 = p.drop_last();
        let q0 = q.drop_last();
        assert(is_listing(p0, rest)) by {
            lemma_listing_drop_last(p, s);
        }
        assert(is_listing(q0, rest)) by {
            lemma_listing_drop_last(q, s);
        }
        listing_is_unique(p0, q0, rest);
        assert(p =~= p0.push(p[n]));
        assert(q =~= q0.push(q[n]));
    } else {
        assert(p =~= q);
    }
}

proof fn lemma_listing_drop_last<K: Key>(p: Seq<K>, s: Set<K>)
    requires
        is_listing(p, s),
        p.len() > 0,
    ensures
        is_listing(p.drop_last(), s.remove(p.last())),
{
    let rest = s.remove(p.last());
    let p0 = p.drop_last();
    assert(s.contains(p[p.len() - 1]));
    assert forall|k: K| #[trigger] rest.contains(k) implies p0.contains(k) by {
        assert(s.contains(k));
        let i = choose|i: int| 0 <= i < p.len() && p[i] == k;
        assert(p0[i] == k);
    }
    assert forall|i: int| 0 <= i < p0.len() implies rest.contains(#[trigger] p0[i]) by {
        assert(s.contains(p[i]));
        assert(p[i].rank() < p[p.len() - 1].rank());
    }
}

/// A rising list with the same members as a set lists that set.
pub proof fn lemma_is_listing<K: Key>(q: Seq<K>, s: Set<K>)
    requires
        strictly_rising(q),
        forall|k: K| #[trigger] s.contains(k) <==> q.contains(k),
    ensures
        is_listing(q, s),
{
    assert(q.no_duplicates());
    q.unique_seq_to_set();
    vstd::seq_lib::seq_to_set_is_finite(q);
    assert(q.to_set() =~= s);
    assert forall|i: int| 0 <= i < q.len() implies s.contains(#[trigger] q[i]) by {
        assert(q.contains(q[i]));
    }
}

/// What a listing says of membership.
pub proof fn lemma_listing_members<K: Key>(q: Seq<K>, s: Set<K>)
    requires
        is_listing(q, s),
    ensures
        forall|k: K| s.contains(k) <==> #[trigger] q.contains(k),
        q.to_set() == s,
        q.no_duplicates(),
{
    assert forall|k: K| s.contains(k) <==> #[trigger] q.contains(k) by {
        if q.contains(k) {
            let i = choose|i: int| 0 <= i < q.len() && q[i] == k;
            assert(s.contains(q[i]));
        }
    }
    assert(q.to_set() =~= s);
}

/// Pairs compare by their first part, then by their second.
pub proof fn lemma_pair_order<A: Key, B: Key>(x: Pair<A, B>, y: Pair<A, B>)
    ensures
        (x.rank() < y.rank()) == (x.0.rank() < y.0.rank() || (x.0.rank() == y.0.rank() && x.1.rank()
            < y.1.rank())),
{
    B::rank_in_bound(x.1);
    B::rank_in_bound(y.1);
    lemma_pair_rank(x.0.rank(), x.1.rank(), y.0.rank(), y.1.rank(), B::bound());
}

/// The listing of a finite set.
pub open spec fn listing_of<K: Key>(s: Set<K>) -> Seq<K> {
    choose|q: Seq<K>| is_listing(q, s)
}

/// Any listing of a set is its listing.
pub proof fn lemma_listing_of<K: Key>(q: Seq<K>, s: Set<K>)
    requires
        is_listing(q, s),
    ensures
        listing_of(s) == q,
{
    listing_is_unique(listing_of(s), q, s);
}

/// The last member of a finite, non-empty set.
proof fn lemma_last_member<K: Key>(s: Set<K>) -> (m: K)
    requires
        s.finite(),
        s.len() > 0,
    ensures
        s.contains(m),
        forall|x: K| #[trigger] s.contains(x) && x != m ==> x.rank() < m.rank(),
    decreases s.len(),
{
    let a = s.choose();
    let rest = s.remove(a);
    if rest.len() == 0 {
        assert forall|x: K| #[trigger] s.contains(x) && x != a implies x.rank() < a.rank() by {
            assert(rest.contains(x));
        }
        a
    } else {
        let b = lemma_last_member(rest);
        if a.rank() < b.rank() {
            assert forall|x: K| #[trigger] s.contains(x) && x != b implies x.rank() < b.rank() by {
                if x != a {
                    assert(rest.contains(x));
                }
            }
            b
        } else {
            if a.rank() == b.rank() {
                K::rank_injective(a, b);
            }
            assert forall|x: K| #[trigger] s.contains(x) && x != a implies x.rank() < a.rank() by {
                assert(rest.contains(x));
            }
            a
        }
    }
}

/// A finite set has a listing.
pub proof fn lemma_listing_exists<K: Key>(s: Set<K>)
    requires
        s.finite(),
    ensures
        is_listing(listing_of(s), s),
    decreases s.len(),
{
    if s.len() == 0 {
        let q = Seq::<K>::empty();
        assert(is_listing(q, s));
    } else {
        let m = lemma_last_member(s);
        let rest = s.remove(m);
        lemma_listing_exists(rest);
        let p = listing_of(rest);
        let q = p.push(m);
        lemma_listing_members(p, rest);
        lemma_push_contains(p, m);
        assert(strictly_rising(q)) by {
            assert forall|i: int, j: int| 0 <= i < j < q.len() implies (#[trigger] q[i]).rank() < (
            #[trigger] q[j]).rank() by {
                if j < p.len() {
                    assert(p[i].rank() < p[j].rank());
                } else {
                    assert(rest.contains(p[i]));
                }
            }
        }
        assert forall|k: K| #[trigger] s.contains(k) <==> q.contains(k) by {
            assert(rest.contains(k) <==> p.contains(k));
        }
        lemma_is_listing(q, s);
    }
}

/// How membership grows with one more element.
pub proof fn lemma_push_contains<K>(s: Seq<K>, k: K)
    ensures
        forall|x: K| #[trigger] s.push(k).contains(x) <==> s.contains(x) || x == k,
{
    let t = s.push(k);
    assert forall|x: K| #[trigger] t.contains(x) <==> s.contains(x) || x == k by {
        if s.contains(x) {
            let i = choose|i: int| 0 <= i < s.len() && s[i] == x;
            assert(t[i] == x);
        }
        if x == k {
            assert(t[s.len() as int] == x);
        }
    }
}

/// A set and its image under a map that keeps its members apart are of one
/// size.
pub proof fn lemma_image<A, B>(s: Set<A>, f: spec_fn(A) -> B, t: Set<B>)
    requires
        s.finite(),
        forall|x: A, y: A| s.contains(x) && s.contains(y) && #[trigger] f(x) == #[trigger] f(y) ==> x == y,
        forall|x: A| s.contains(x) ==> t.contains(#[trigger] f(x)),
        forall|y: B| #[trigger] t.contains(y) ==> exists|x: A| s.contains(x) && #[trigger] f(x) == y,
    ensures
        t.finite(),
        t.len() == s.len(),
    decreases s.len(),
{
    if s.len() == 0 {
        assert(s =~= Set::<A>::empty());
        assert(t =~= Set::<B>::empty());
    } else {
        let a = s.choose();
        let s0 = s.remove(a);
        let t0 = t.remove(f(a));
        assert forall|y: B| #[trigger] t0.contains(y) implies exists|x: A|
            s0.contains(x) && #[trigger] f(x) == y by {
            let x = choose|x: A| s.contains(x) && #[trigger] f(x) == y;
            assert(s0.contains(x) && f(x) == y);
        }
        lemma_image(s0, f, t0);
        assert(t =~= t0.insert(f(a)));
    }
}

proof fn lemma_pair_rank(a: int, b: int, c: int, d: int, m: int)
    by (nonlinear_arith)
    requires
        0 <= b < m,
        0 <= d < m,
    ensures
        a * m + b == c * m + d ==> a == c && b == d,
        (a * m + b < c * m + d) == (a < c || (a == c && b < d)),
{
    if a < c {
        assert((a + 1) * m <= c * m);
    } else if a > c {
        assert((c + 1) * m <= a * m);
    }
}

proof fn lemma_pair_bound(a: int, b: int, m: int, n: int)
    by (nonlinear_arith)
    requires
        0 <= a < n,
        0 <= b < m,
    ensures
        0 <= a * m + b < n * m,
{
    assert((a + 1) * m <= n * m);
}

impl Key for u64 {
    open spec fn rank(self) -> int {
        self as int
    }

    open spec fn bound() -> int {
        0x1_0000_0000_0000_0000
    }

    proof fn rank_in_bound(a: Self) {
    }

    proof fn rank_injective(a: Self, b: Self) {
    }

    fn precedes(&self, other: &Self) -> (b: bool) {
        *self < *other
    }
}

impl Key for u32 {
    open spec fn rank(self) -> int {
        self as int
    }

    open spec fn bound() -> int {
        0x1_0000_0000
    }

    proof fn rank_in_bound(a: Self) {
    }

    proof fn rank_injective(a: Self, b: Self) {
    }

    fn precedes(&self, other: &Self) -> (b: bool) {
        *self < *other
    }
}

impl Key for u128 {
    open spec fn rank(self) -> int {
        self as int
    }

    open spec fn bound() -> int {
        u128::MAX + 1
    }

    proof fn rank_in_bound(a: Self) {
    }

    proof fn rank_injective(a: Self, b: Self) {
    }

    fn precedes(&self, other: &Self) -> (b: bool) {
        *self < *other
    }
}

/// Two identities taken as one, ordered by the first part, then by the second.
#[derive(Clone, Copy, Debug, PartialEq, Eq)]
pub struct Pair<A, B>(pub A, pub B);

impl<A: Key, B: Key> Key for Pair<A, B> {
    open spec fn rank(self) -> int {
        self.0.rank() * B::bound() + self.1.rank()
    }

    open spec fn bound() -> int {
        A::bound() * B::bound()
    }

    proof fn rank_in_bound(a: Self) {
        A::rank_in_bound(a.0);
        B::rank_in_bound(a.1);
        lemma_pair_bound(a.0.rank(), a.1.rank(), B::bound(), A::bound());
    }

    proof fn rank_injective(a: Self, b: Self) {
        B::rank_in_bound(a.1);
        B::rank_in_bound(b.1);
        lemma_pair_rank(a.0.rank(), a.1.rank(), b.0.rank(), b.1.rank(), B::bound());
        A::rank_injective(a.0, b.0);
        B::rank_injective(a.1, b.1);
    }

    fn precedes(&self, other: &Self) -> (b: bool) {
        proof {
            B::rank_in_bound(self.1);
            B::rank_in_bound(other.1);
            lemma_pair_rank(
                self.0.rank(),
                self.1.rank(),
                other.0.rank(),
                other.1.rank(),
                B::bound(),
            );
        }
        if self.0.precedes(&other.0) {
            true
        } else if other.0.precedes(&self.0) {
            false
        } else {
            self.1.precedes(&other.1)
        }
    }
}

/// `None` stands before every `Some`.
impl<A: Key> Key for Option<A> {
    open spec fn rank(self) -> int {
        match self {
            None => 0,
            Some(a) => a.rank() + 1,
        }
    }

    open spec fn bound() -> int {
        A::bound() + 1
    }

    proof fn rank_in_bound(a: Self) {
        match a {
            None => {
                let any: A = arbitrary();
                A::rank_in_bound(any);
            },
            Some(x) => {
                A::rank_in_bound(x);
            },
        }
    }

    proof fn rank_injective(a: Self, b: Self) {
        if let Some(x) = a {
            A::rank_in_bound(x);
        }
        if let Some(y) = b {
            A::rank_in_bound(y);
        }
        if let (Some(x), Some(y)) = (a, b) {
            A::rank_injective(x, y);
        }
    }

    fn precedes(&self, other: &Self) -> (b: bool) {
        match (self, other) {
            (None, Some(y)) => {
                proof {
                    A::rank_in_bound(*y);
                }
                true
            },
            (Some(x), Some(y)) => x.precedes(y),
            (Some(x), None) => {
                proof {
                    A::rank_in_bound(*x);
                }
                false
            },
            (None, None) => false,
        }
    }
}

} // verus!
