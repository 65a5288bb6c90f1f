//! First-fit clustering: each item joins the first cluster whose first member it is linked
//! to, or opens a new cluster. Items are compared with first members only, so the result
//! depends on the order of the items unless the link is an equivalence.

use vstd::prelude::*;

verus! {

/// A finite list of items, numbered from zero, with a link between a first member and a
/// later item.
pub trait Linkage {
    /// The number of items.
    spec fn count(&self) -> nat;

    /// Whether `item` is linked to the first member `rep`.
    spec fn linked(&self, rep: int, item: int) -> bool;

    /// The number of items.
    fn size(&self) -> (n: usize)
        ensures
            n == self.count(),
    ;

    /// Whether `item` is linked to the first member `rep`.
    fn test(&self, rep: usize, item: usize) -> (r: bool)
        requires
            rep < self.count(),
            item < self.count(),
        ensures
            r == self.linked(rep as int, item as int),
    ;
}

/// Whether cluster `k` has a member at position `p`.
pub open spec fn slot(c: Seq<Vec<usize>>, k: int, p: int) -> bool {
    0 <= k < c.len() && 0 <= p < c[k]@.len()
}

/// The member of cluster `k` at position `p`.
pub open spec fn at(c: Seq<Vec<usize>>, k: int, p: int) -> int {
    c[k]@[p] as int
}

/// Whether some cluster holds item `m`.
pub open spec fn holds(c: Seq<Vec<usize>>, m: int) -> bool {
    exists|k: int, p: int| slot(c, k, p) && #[trigger] at(c, k, p) == m
}

/// The clusters hold each of the items `0..n` exactly once, and nothing else.
pub open spec fn is_partition(c: Seq<Vec<usize>>, n: int) -> bool {
    &&& forall|k: int, p: int| slot(c, k, p) ==> 0 <= #[trigger] at(c, k, p) < n
    &&& forall|j: int, p: int, k: int, q: int|
        slot(c, j, p) && slot(c, k, q) && #[trigger] at(c, j, p) == #[trigger] at(c, k, q) ==> j
            == k && p == q
    &&& forall|m: int| 0 <= m < n ==> #[trigger] holds(c, m)
}

/// No cluster is empty, members stand in rising order, and so do the first members.
pub open spec fn is_ordered(c: Seq<Vec<usize>>) -> bool {
    &&& forall|k: int| 0 <= k < c.len() ==> (#[trigger] c[k])@.len() > 0
    &&& forall|k: int, p: int, q: int|
        slot(c, k, p) && slot(c, k, q) && p < q ==> #[trigger] at(c, k, p) < #[trigger] at(c, k, q)
    &&& forall|j: int, k: int| 0 <= j < k < c.len() ==> #[trigger] at(c, j, 0) < #[trigger] at(c, k, 0)
}

/// Each member is linked to the first member of its cluster and to the first member of no
/// earlier cluster.
pub open spec fn is_first_fit(link: spec_fn(int, int) -> bool, c: Seq<Vec<usize>>) -> bool {
    &&& forall|k: int, p: int| slot(c, k, p) && p > 0 ==> link(at(c, k, 0), #[trigger] at(c, k, p))
    &&& forall|j: int, k: int, p: int|
        0 <= j < k && slot(c, k, p) ==> !link(#[trigger] at(c, j, 0), #[trigger] at(c, k, p))
}

/// The link of a list of items.
pub open spec fn link_of<L: Linkage>(l: &L) -> spec_fn(int, int) -> bool {
    |rep: int, item: int| l.linked(rep, item)
}

/// The first-fit clustering of the items `0..n` under a link.
pub open spec fn is_clustering(link: spec_fn(int, int) -> bool, c: Seq<Vec<usize>>, n: int) -> bool {
    is_partition(c, n) && is_ordered(c) && is_first_fit(link, c)
}

/// The first-fit clustering of the items `0..n` of `l`.
pub open spec fn clusters_of<L: Linkage>(l: &L, c: Seq<Vec<usize>>, n: int) -> bool {
    is_clustering(link_of(l), c, n)
}

/// Whether items `a` and `b` stand in one cluster.
pub open spec fn together(c: Seq<Vec<usize>>, a: int, b: int) -> bool {
    exists|k: int, p: int, q: int| slot(c, k, p) && slot(c, k, q) && at(c, k, p) == a && at(c, k, q) == b
}

/// The link goes both ways between any two of the items `0..n` and carries over a common
/// item.
pub open spec fn is_symmetric_transitive(link: spec_fn(int, int) -> bool, n: int) -> bool {
    &&& forall|a: int, b: int| 0 <= a < n && 0 <= b < n && #[trigger] link(a, b) ==> link(b, a)
    &&& forall|a: int, b: int, c: int|
        0 <= a < n && 0 <= b < n && 0 <= c < n && #[trigger] link(a, b) && #[trigger] link(b, c) ==> link(
            a,
            c,
        )
}

/// Where the link is symmetric and transitive the clusters are its classes: two different
/// items stand in one cluster exactly when they are linked.
pub proof fn lemma_clusters_are_classes(
    link: spec_fn(int, int) -> bool,
    c: Seq<Vec<usize>>,
    n: int,
    a: int,
    b: int,
)
    requires
        is_clustering(link, c, n),
        is_symmetric_transitive(link, n),
        0 <= a < n,
        0 <= b < n,
    ensures
        together(c, a, b) <==> (a == b || link(a, b)),
{
    assert(holds(c, a));
    assert(holds(c, b));
    let (k, p) = choose|k: int, p: int| slot(c, k, p) && #[trigger] at(c, k, p) == a;
    let (j, q) = choose|j: int, q: int| slot(c, j, q) && #[trigger] at(c, j, q) == b;
    assert(c[k]@.len() > 0 && c[j]@.len() > 0);
    assert(slot(c, k, 0) && slot(c, j, 0));
    let rk = at(c, k, 0);
    let rj = at(c, j, 0);
    assert(0 <= rk < n && 0 <= rj < n);
    if together(c, a, b) {
        let (i, x, y) = choose|i: int, x: int, y: int|
            slot(c, i, x) && slot(c, i, y) && at(c, i, x) == a && at(c, i, y) == b;
        assert(i == k && x == p);
        assert(i == j && y == q);
        if p != q {
            if p == 0 {
                assert(link(rk, at(c, k, q)));
            } else if q == 0 {
                assert(link(rk, at(c, k, p)));
                assert(link(b, a));
            } else {
                assert(link(rk, at(c, k, p)));
                assert(link(rk, at(c, k, q)));
                assert(link(a, rk));
            }
        }
    }
    if a == b {
        assert(slot(c, k, p) && slot(c, k, p) && at(c, k, p) == a && at(c, k, p) == b);
    } else if link(a, b) {
        assert(link(b, a));
        if k < j {
            if p > 0 {
                assert(link(rk, at(c, k, p)));
            }
            assert(link(rk, b));
            assert(!link(at(c, k, 0), at(c, j, q)));
        } else if j < k {
            if q > 0 {
                assert(link(rj, at(c, j, q)));
            }
            assert(link(rj, a));
            assert(!link(at(c, j, 0), at(c, k, p)));
        }
        assert(k == j);
        assert(slot(c, k, p) && slot(c, k, q) && at(c, k, p) == a && at(c, k, q) == b);
    }
}

/// Clusters the items of `l` by first fit.
pub fn first_fit<L: Linkage>(l: &L) -> (c: Vec<Vec<usize>>)
    ensures
        clusters_of(l, c@, l.count() as int),
{
    let n = l.size();
    let mut c: Vec<Vec<usize>> = Vec::new();
    let mut m: usize = 0;
    while m < n
        invariant
            n == l.count(),
            m <= n,
            clusters_of(l, c@, m as int),
        decreases n - m,
    {
        let ghost before = c@;
        let mut k: usize = 0;
        let mut placed = false;
        while k < c.len() && !placed
            invariant
                n == l.count(),
                m < n,
                c@ == before,
                clusters_of(l, before, m as int),
                k <= c.len(),
                !placed ==> forall|j: int| 0 <= j < k ==> !l.linked(#[trigger] at(before, j, 0), m as int),
                placed ==> k < c.len() && l.linked(at(before, k as int, 0), m as int) && forall|j: int|
                    0 <= j < k ==> !l.linked(#[trigger] at(before, j, 0), m as int),
            decreases c.len() - k + (if placed { 0int } else { 1int }),
        {
            assert(slot(before, k as int, 0));
            let rep: usize = c[k][0];
            assert(rep as int == at(before, k as int, 0));
            if l.test(rep, m) {
                placed = true;
            } else {
                k += 1;
            }
        }
        if placed {
            c[k].push(m);
            proof {
                lemma_join(l, before, c@, k as int, m as int);
            }
        } else {
            let mut fresh: Vec<usize> = Vec::new();
            fresh.push(m);
            c.push(fresh);
            proof {
                lemma_open(l, before, c@, m as int);
            }
        }
        m += 1;
    }
    c
}

/// Adding item `m` to cluster `k`, the first one that it fits, keeps a first-fit clustering.
proof fn lemma_join<L: Linkage>(l: &L, c: Seq<Vec<usize>>, d: Seq<Vec<usize>>, k: int, m: int)
    requires
        clusters_of(l, c, m),
        0 <= k < c.len(),
        d.len() == c.len(),
        d[k]@ == c[k]@.push(m as usize),
        forall|j: int| 0 <= j < c.len() && j != k ==> d[j] == c[j],
        0 <= m <= usize::MAX,
        l.linked(at(c, k, 0), m),
        forall|j: int| 0 <= j < k ==> !l.linked(#[trigger] at(c, j, 0), m),
    ensures
        clusters_of(l, d, m + 1),
{
    let last = c[k]@.len() as int;
    assert(c[k]@.len() > 0);
    assert forall|j: int, p: int| slot(c, j, p) implies slot(d, j, p) && at(d, j, p) == at(c, j, p) by {}
    assert forall|j: int, p: int| slot(d, j, p) implies (slot(c, j, p) && at(d, j, p) == at(c, j, p))
        || (j == k && p == last && at(d, j, p) == m) by {}
    assert(slot(d, k, last) && at(d, k, last) == m);
    assert forall|j: int, p: int| slot(d, j, p) implies 0 <= #[trigger] at(d, j, p) < m + 1 by {
        if slot(c, j, p) {
            assert(at(c, j, p) < m);
        }
    }
    assert forall|j: int, p: int, i: int, q: int|
        slot(d, j, p) && slot(d, i, q) && #[trigger] at(d, j, p) == #[trigger] at(d, i, q) implies j
        == i && p == q by {
        if slot(c, j, p) {
            assert(at(c, j, p) < m);
        }
        if slot(c, i, q) {
            assert(at(c, i, q) < m);
        }
    }
    assert forall|x: int| 0 <= x < m + 1 implies #[trigger] holds(d, x) by {
        if x < m {
            assert(holds(c, x));
            let (j, p) = choose|j: int, p: int| slot(c, j, p) && #[trigger] at(c, j, p) == x;
            assert(slot(d, j, p) && at(d, j, p) == x);
        } else {
            assert(slot(d, k, last) && at(d, k, last) == x);
        }
    }
    assert(is_partition(d, m + 1));
    assert forall|j: int| 0 <= j < d.len() implies (#[trigger] d[j])@.len() > 0 by {
        assert(c[j]@.len() > 0);
    }
    assert forall|j: int, p: int, q: int| slot(d, j, p) && slot(d, j, q) && p < q implies #[trigger] at(
        d,
        j,
        p,
    ) < #[trigger] at(d, j, q) by {
        assert(slot(c, j, p));
        assert(at(c, j, p) < m);
        if slot(c, j, q) {
            assert(at(c, j, p) < at(c, j, q));
        }
    }
    assert forall|i: int, j: int| 0 <= i < j < d.len() implies #[trigger] at(d, i, 0) < #[trigger] at(
        d,
        j,
        0,
    ) by {
        assert(slot(c, i, 0) && slot(c, j, 0));
        assert(at(c, i, 0) < at(c, j, 0));
    }
    assert(is_ordered(d));
    assert forall|j: int, p: int| slot(d, j, p) && p > 0 implies l.linked(
        at(d, j, 0),
        #[trigger] at(d, j, p),
    ) by {
        assert(slot(c, j, 0));
        if slot(c, j, p) {
            assert(l.linked(at(c, j, 0), at(c, j, p)));
        }
    }
    assert forall|i: int, j: int, p: int| 0 <= i < j && slot(d, j, p) implies !l.linked(
        #[trigger] at(d, i, 0),
        #[trigger] at(d, j, p),
    ) by {
        assert(slot(c, i, 0));
        if slot(c, j, p) {
            assert(!l.linked(at(c, i, 0), at(c, j, p)));
        }
    }
    assert(is_first_fit(link_of(l), d));
}

/// Opening a new cluster for item `m`, which fits none, keeps a first-fit clustering.
proof fn lemma_open<L: Linkage>(l: &L, c: Seq<Vec<usize>>, d: Seq<Vec<usize>>, m: int)
    requires
        clusters_of(l, c, m),
        d.len() == c.len() + 1,
        d[c.len() as int]@ == seq![m as usize],
        forall|j: int| 0 <= j < c.len() ==> d[j] == c[j],
        0 <= m <= usize::MAX,
        forall|j: int| 0 <= j < c.len() ==> !l.linked(#[trigger] at(c, j, 0), m),
    ensures
        clusters_of(l, d, m + 1),
{
    let k = c.len() as int;
    assert forall|j: int, p: int| slot(c, j, p) implies slot(d, j, p) && at(d, j, p) == at(c, j, p) by {}
    assert forall|j: int, p: int| slot(d, j, p) implies (slot(c, j, p) && at(d, j, p) == at(c, j, p))
        || (j == k && p == 0 && at(d, j, p) == m) by {}
    assert(slot(d, k, 0) && at(d, k, 0) == m);
    assert forall|j: int, p: int| slot(d, j, p) implies 0 <= #[trigger] at(d, j, p) < m + 1 by {
        if slot(c, j, p) {
            assert(at(c, j, p) < m);
        }
    }
    assert forall|j: int, p: int, i: int, q: int|
        slot(d, j, p) && slot(d, i, q) && #[trigger] at(d, j, p) == #[trigger] at(d, i, q) implies j
        == i && p == q by {
        if slot(c, j, p) {
            assert(at(c, j, p) < m);
        }
        if slot(c, i, q) {
            assert(at(c, i, q) < m);
        }
    }
    assert forall|x: int| 0 <= x < m + 1 implies #[trigger] holds(d, x) by {
        if x < m {
            assert(holds(c, x));
            let (j, p) = choose|j: int, p: int| slot(c, j, p) && #[trigger] at(c, j, p) == x;
            assert(slot(d, j, p) && at(d, j, p) == x);
        } else {
            assert(slot(d, k, 0) && at(d, k, 0) == x);
        }
    }
    assert(is_partition(d, m + 1));
    assert forall|j: int| 0 <= j < d.len() implies (#[trigger] d[j])@.len() > 0 by {
        if j < k {
            assert(c[j]@.len() > 0);
        }
    }
    assert forall|j: int, p: int, q: int| slot(d, j, p) && slot(d, j, q) && p < q implies #[trigger] at(
        d,
        j,
        p,
    ) < #[trigger] at(d, j, q) by {
        assert(slot(c, j, p) && slot(c, j, q));
        assert(at(c, j, p) < at(c, j, q));
    }
    assert forall|i: int, j: int| 0 <= i < j < d.len() implies #[trigger] at(d, i, 0) < #[trigger] at(
        d,
        j,
        0,
    ) by {
        assert(c[i]@.len() > 0);
        assert(slot(c, i, 0));
        assert(at(c, i, 0) < m);
        if j < k {
            assert(c[j]@.len() > 0);
            assert(slot(c, j, 0));
            assert(at(c, i, 0) < at(c, j, 0));
        }
    }
    assert(is_ordered(d));
    assert forall|j: int, p: int| slot(d, j, p) && p > 0 implies l.linked(
        at(d, j, 0),
        #[trigger] at(d, j, p),
    ) by {
        assert(slot(c, j, p) && slot(c, j, 0));
        assert(l.linked(at(c, j, 0), at(c, j, p)));
    }
    assert forall|i: int, j: int, p: int| 0 <= i < j && slot(d, j, p) implies !l.linked(
        #[trigger] at(d, i, 0),
        #[trigger] at(d, j, p),
    ) by {
        assert(c[i]@.len() > 0);
        assert(slot(c, i, 0));
        if slot(c, j, p) {
            assert(!l.linked(at(c, i, 0), at(c, j, p)));
        }
    }
    assert(is_first_fit(link_of(l), d));
}

} // verus!
