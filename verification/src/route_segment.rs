//! The rewiring of the 2-opt move inside one route: the stretch of the route
//! between the successor of U and V is walked backwards.
use vstd::prelude::*;
use crate::local_search::{NodeLinks, route_loaded};
use crate::route_moves::cut_node;
use crate::route_reversal::{flipped, lemma_flip_step, lemma_subrange_grow};

verus! {

/// A route laid out in the links: start depot `d`, the clients `a`, end depot `de`
/// (which leads back to `d`); the nodes are distinct.
pub open spec fn one_route(
    next: Seq<usize>,
    prev: Seq<usize>,
    route: Seq<usize>,
    d: int,
    de: int,
    r: usize,
    a: Seq<usize>,
) -> bool {
    &&& next.len() == prev.len() == route.len() <= usize::MAX
    &&& 0 <= d < next.len()
    &&& 0 <= de < next.len()
    &&& d != de
    &&& a.no_duplicates()
    &&& forall|k: int| 0 <= k < a.len() ==> #[trigger] a[k] < next.len()
    &&& !a.contains(d as usize)
    &&& !a.contains(de as usize)
    &&& route_loaded(next, prev, route, d, de, r, a)
}

/// U and V lie in the route that starts at depot `d`: U is its start depot or its
/// `i`-th client, V its `j`-th client, with at least one client between them.
pub open spec fn segment_cut(
    next: Seq<usize>,
    prev: Seq<usize>,
    route: Seq<usize>,
    d: int,
    r: usize,
    a: Seq<usize>,
    i: int,
    j: int,
    u: int,
    v: int,
) -> bool {
    &&& 0 <= d < prev.len()
    &&& one_route(next, prev, route, d, prev[d] as int, r, a)
    &&& 0 <= i
    &&& i + 2 <= j <= a.len()
    &&& u == cut_node(d, a, i)
    &&& v == a[j - 1]
}

/// The route after its clients `i..j` are put in reverse order; the other nodes
/// keep their links, and every node its label.
pub open spec fn segment_reversed(
    n0: Seq<usize>,
    p0: Seq<usize>,
    r0: Seq<usize>,
    n1: Seq<usize>,
    p1: Seq<usize>,
    r1: Seq<usize>,
    d: int,
    r: usize,
    a: Seq<usize>,
    i: int,
    j: int,
) -> bool {
    &&& one_route(n1, p1, r1, d, p0[d] as int, r, a.take(i) + a.subrange(i, j).reverse() + a.skip(j))
    &&& r1 == r0
    &&& forall|x: int|
        0 <= x < n0.len() && !a.contains(x as usize) && x != d && x != p0[d] ==> #[trigger] n1[x]
            == n0[x]
    &&& forall|x: int|
        0 <= x < n0.len() && !a.contains(x as usize) && x != d && x != p0[d] ==> #[trigger] p1[x]
            == p0[x]
}

/// The clients of a route are determined by the links and its depots.
proof fn lemma_one_route_unique(
    next: Seq<usize>,
    prev: Seq<usize>,
    route: Seq<usize>,
    d: int,
    de: int,
    r1: usize,
    r2: usize,
    a1: Seq<usize>,
    a2: Seq<usize>,
)
    requires
        one_route(next, prev, route, d, de, r1, a1),
        one_route(next, prev, route, d, de, r2, a2),
    ensures
        a1 == a2,
{
    let m = if a1.len() < a2.len() {
        a1.len() as int
    } else {
        a2.len() as int
    };
    if m > 0 {
        lemma_one_route_prefix(next, prev, route, d, de, r1, r2, a1, a2, m - 1);
    }
    if a1.len() < a2.len() {
        if a1.len() == 0 {
            assert(next[d] == de);
            assert(next[d] == a2[0]);
            assert(a2.contains(a2[0]));
        } else {
            assert(a1[m - 1] == a2[m - 1]);
            assert(next[a1[m - 1] as int] == de);
            assert(next[a2[m - 1] as int] == a2[m]);
            assert(a2.contains(a2[m]));
        }
        assert(false);
    }
    if a2.len() < a1.len() {
        if a2.len() == 0 {
            assert(next[d] == de);
            assert(next[d] == a1[0]);
            assert(a1.contains(a1[0]));
        } else {
            assert(a1[m - 1] == a2[m - 1]);
            assert(next[a2[m - 1] as int] == de);
            assert(next[a1[m - 1] as int] == a1[m]);
            assert(a1.contains(a1[m]));
        }
        assert(false);
    }
    assert(a1 =~= a2);
}

proof fn lemma_one_route_prefix(
    next: Seq<usize>,
    prev: Seq<usize>,
    route: Seq<usize>,
    d: int,
    de: int,
    r1: usize,
    r2: usize,
    a1: Seq<usize>,
    a2: Seq<usize>,
    m: int,
)
    requires
        one_route(next, prev, route, d, de, r1, a1),
        one_route(next, prev, route, d, de, r2, a2),
        0 <= m < a1.len(),
        m < a2.len(),
    ensures
        forall|k: int| 0 <= k <= m ==> #[trigger] a1[k] == a2[k],
    decreases m,
{
    if m > 0 {
        lemma_one_route_prefix(next, prev, route, d, de, r1, r2, a1, a2, m - 1);
        assert(a1[m - 1] == a2[m - 1]);
        assert(next[a1[m - 1] as int] == a1[m]);
        assert(next[a2[m - 1] as int] == a2[m]);
    } else {
        assert(next[d] == a1[0]);
        assert(next[d] == a2[0]);
    }
}

/// The state after the segment is reversed, from the links after the flips of the
/// clients strictly between X and V.
pub open spec fn segment_setting(
    n0: Seq<usize>,
    p0: Seq<usize>,
    r0: Seq<usize>,
    n2: Seq<usize>,
    p2: Seq<usize>,
    nf: Seq<usize>,
    pf: Seq<usize>,
    d: int,
    de: int,
    r: usize,
    a: Seq<usize>,
    i: int,
    j: int,
    u: int,
    v: int,
    x: int,
    y: int,
) -> bool {
    &&& one_route(n0, p0, r0, d, de, r, a)
    &&& 0 <= i
    &&& i + 2 <= j <= a.len()
    &&& u == cut_node(d, a, i)
    &&& v == a[j - 1]
    &&& x == a[i]
    &&& y == (if j < a.len() {
        a[j] as int
    } else {
        de
    })
    &&& n2 == flipped(n0, p0, a.subrange(i + 1, j - 1)).0
    &&& p2 == flipped(n0, p0, a.subrange(i + 1, j - 1)).1
    &&& nf == n2.update(x, y as usize).update(v, p0[v]).update(u, v as usize)
    &&& pf == p2.update(x, n0[x]).update(v, u as usize).update(y, x as usize)
}

/// Which clients lie strictly between X and V.
proof fn lemma_inner_clients(a: Seq<usize>, i: int, j: int)
    requires
        a.no_duplicates(),
        0 <= i,
        i + 2 <= j <= a.len(),
    ensures
        forall|m: int| 0 <= m < a.len() ==> (a.subrange(i + 1, j - 1).contains(#[trigger] a[m]) <==> i + 1 <= m < j - 1),
{
    let s = a.subrange(i + 1, j - 1);
    assert forall|m: int| 0 <= m < a.len() implies (s.contains(#[trigger] a[m]) <==> i + 1 <= m < j - 1) by {
        if i + 1 <= m < j - 1 {
            assert(s[m - i - 1] == a[m]);
        }
        if s.contains(a[m]) {
            let t = choose|t: int| 0 <= t < s.len() && #[trigger] s[t] == a[m];
            assert(a[i + 1 + t] == a[m]);
        }
    }
}

/// The reversed route: its depots and its first and last nodes.
proof fn lemma_segment_ends(
    n0: Seq<usize>,
    p0: Seq<usize>,
    r0: Seq<usize>,
    n2: Seq<usize>,
    p2: Seq<usize>,
    nf: Seq<usize>,
    pf: Seq<usize>,
    d: int,
    de: int,
    r: usize,
    a: Seq<usize>,
    i: int,
    j: int,
    u: int,
    v: int,
    x: int,
    y: int,
)
    requires
        segment_setting(n0, p0, r0, n2, p2, nf, pf, d, de, r, a, i, j, u, v, x, y),
    ensures
        ({
            let w = a.take(i) + a.subrange(i, j).reverse() + a.skip(j);
            let k = w.len() as int;
            &&& pf[d] == de
            &&& nf[de] == d
            &&& nf[d] == (if k == 0 { de as usize } else { w[0] })
            &&& pf[de] == (if k == 0 { d as usize } else { w[k - 1] })
        }),
{
    let la = a.len() as int;
    let w = a.take(i) + a.subrange(i, j).reverse() + a.skip(j);
    let k = w.len() as int;
    lemma_inner_clients(a, i, j);
    assert(k == la);
    assert forall|t: int| 0 <= t < la implies #[trigger] w[t] == (if i <= t < j {
        a[j - 1 - (t - i)]
    } else {
        a[t]
    }) by {
        if i <= t < j {
            assert(w[t] == a.subrange(i, j).reverse()[t - i]);
        }
    }
    assert(a.contains(a[i]));
    assert(a.contains(a[j - 1]));
    if i > 0 {
        assert(a.contains(a[i - 1]));
    }
    if j < la {
        assert(a.contains(a[j]));
    }
    assert(!a.subrange(i + 1, j - 1).contains(d as usize)) by {
        if a.subrange(i + 1, j - 1).contains(d as usize) {
            let t = choose|t: int| 0 <= t < j - i - 2 && #[trigger] a.subrange(i + 1, j - 1)[t] == d as usize;
            assert(a[i + 1 + t] == d as usize);
        }
    }
    assert(!a.subrange(i + 1, j - 1).contains(de as usize)) by {
        if a.subrange(i + 1, j - 1).contains(de as usize) {
            let t = choose|t: int| 0 <= t < j - i - 2 && #[trigger] a.subrange(i + 1, j - 1)[t] == de as usize;
            assert(a[i + 1 + t] == de as usize);
        }
    }
    assert(pf[d] == de) by {
        assert(p0[d] == de);
    }
    assert(nf[de] == d) by {
        assert(n0[de] == d);
    }
    assert(nf[d] == (if k == 0 {
        de as usize
    } else {
        w[0]
    })) by {
        if i > 0 {
            assert(n0[d] == a[0]);
            assert(a[0] != a[i]);
            assert(a[0] != a[j - 1]);
        }
    }
    assert(pf[de] == (if k == 0 {
        d as usize
    } else {
        w[k - 1]
    })) by {
        if j < la {
            assert(p0[de] == a[la - 1]);
        }
    }
}

/// The reversed route: the successors of its clients.
proof fn lemma_segment_next(
    n0: Seq<usize>,
    p0: Seq<usize>,
    r0: Seq<usize>,
    n2: Seq<usize>,
    p2: Seq<usize>,
    nf: Seq<usize>,
    pf: Seq<usize>,
    d: int,
    de: int,
    r: usize,
    a: Seq<usize>,
    i: int,
    j: int,
    u: int,
    v: int,
    x: int,
    y: int,
)
    requires
        segment_setting(n0, p0, r0, n2, p2, nf, pf, d, de, r, a, i, j, u, v, x, y),
    ensures
        forall|t: int|
            0 <= t < (a.take(i) + a.subrange(i, j).reverse() + a.skip(j)).len() ==> #[trigger] nf[(a.take(i) + a.subrange(i, j).reverse() + a.skip(j))[t] as int] == (if t == (a.take(i) + a.subrange(i, j).reverse() + a.skip(j)).len() - 1 {
                de as usize
            } else {
                (a.take(i) + a.subrange(i, j).reverse() + a.skip(j))[t + 1]
            }),
{
    let la = a.len() as int;
    let w = a.take(i) + a.subrange(i, j).reverse() + a.skip(j);
    let k = w.len() as int;
    lemma_inner_clients(a, i, j);
    assert(k == la);
    assert forall|t: int| 0 <= t < la implies #[trigger] w[t] == (if i <= t < j {
        a[j - 1 - (t - i)]
    } else {
        a[t]
    }) by {
        if i <= t < j {
            assert(w[t] == a.subrange(i, j).reverse()[t - i]);
        }
    }
    assert(a.contains(a[i]));
    assert(a.contains(a[j - 1]));
    if i > 0 {
        assert(a.contains(a[i - 1]));
    }
    if j < la {
        assert(a.contains(a[j]));
    }
    assert forall|t: int| 0 <= t < k implies #[trigger] nf[w[t] as int] == (if t == k - 1 {
        de as usize
    } else {
        w[t + 1]
    }) by {
        if t < i {
            assert(a[t] != a[i]);
            assert(a[t] != a[j - 1]);
            if t < i - 1 {
                assert(a[t] != a[i - 1]);
                assert(n0[a[t] as int] == a[t + 1]);
            }
        } else if t < j {
            let m = j - 1 - (t - i);
            if m == j - 1 {
                assert(p0[a[m] as int] == a[m - 1]);
                if i > 0 {
                    assert(a[m] != a[i - 1]);
                }
            } else if m > i {
                assert(p0[a[m] as int] == a[m - 1]);
                assert(a[m] != a[i]);
                assert(a[m] != a[j - 1]);
                if i > 0 {
                    assert(a[m] != a[i - 1]);
                }
            } else {
                assert(a[m] != a[j - 1]);
                if i > 0 {
                    assert(a[m] != a[i - 1]);
                }
            }
        } else {
            assert(a[t] != a[i]);
            assert(a[t] != a[j - 1]);
            if i > 0 {
                assert(a[t] != a[i - 1]);
            }
            if t < la - 1 {
                assert(n0[a[t] as int] == a[t + 1]);
            }
        }
    }
}

/// The reversed route: the predecessors of its clients.
proof fn lemma_segment_prev(
    n0: Seq<usize>,
    p0: Seq<usize>,
    r0: Seq<usize>,
    n2: Seq<usize>,
    p2: Seq<usize>,
    nf: Seq<usize>,
    pf: Seq<usize>,
    d: int,
    de: int,
    r: usize,
    a: Seq<usize>,
    i: int,
    j: int,
    u: int,
    v: int,
    x: int,
    y: int,
)
    requires
        segment_setting(n0, p0, r0, n2, p2, nf, pf, d, de, r, a, i, j, u, v, x, y),
    ensures
        forall|t: int|
            0 <= t < (a.take(i) + a.subrange(i, j).reverse() + a.skip(j)).len() ==> #[trigger] pf[(a.take(i) + a.subrange(i, j).reverse() + a.skip(j))[t] as int] == (if t == 0 {
                d as usize
            } else {
                (a.take(i) + a.subrange(i, j).reverse() + a.skip(j))[t - 1]
            }),
{
    let la = a.len() as int;
    let w = a.take(i) + a.subrange(i, j).reverse() + a.skip(j);
    let k = w.len() as int;
    lemma_inner_clients(a, i, j);
    assert(k == la);
    assert forall|t: int| 0 <= t < la implies #[trigger] w[t] == (if i <= t < j {
        a[j - 1 - (t - i)]
    } else {
        a[t]
    }) by {
        if i <= t < j {
            assert(w[t] == a.subrange(i, j).reverse()[t - i]);
        }
    }
    assert(a.contains(a[i]));
    assert(a.contains(a[j - 1]));
    if i > 0 {
        assert(a.contains(a[i - 1]));
    }
    if j < la {
        assert(a.contains(a[j]));
    }
    assert forall|t: int| 0 <= t < k implies #[trigger] pf[w[t] as int] == (if t == 0 {
        d as usize
    } else {
        w[t - 1]
    }) by {
        if t < i {
            assert(a[t] != a[i]);
            assert(a[t] != a[j - 1]);
            if j < la {
                assert(a[t] != a[j]);
            }
            assert(p0[a[t] as int] == (if t == 0 { d as usize } else { a[t - 1] }));
        } else if t < j {
            let m = j - 1 - (t - i);
            if m == j - 1 {
            } else if m > i {
                assert(n0[a[m] as int] == a[m + 1]);
                assert(a[m] != a[j - 1]);
                assert(a[m] != a[i]);
                if j < la {
                    assert(a[m] != a[j]);
                }
            } else {
                assert(n0[a[m] as int] == a[m + 1]);
                assert(a[m] != a[j - 1]);
                if j < la {
                    assert(a[m] != a[j]);
                }
            }
        } else {
            assert(a[t] != a[j - 1]);
            if t > j {
                assert(a[t] != a[j]);
                assert(a[t] != a[i]);
                assert(p0[a[t] as int] == a[t - 1]);
            }
        }
    }
}

/// The reversed route holds the same distinct clients.
proof fn lemma_segment_shape(
    n0: Seq<usize>,
    p0: Seq<usize>,
    r0: Seq<usize>,
    n2: Seq<usize>,
    p2: Seq<usize>,
    nf: Seq<usize>,
    pf: Seq<usize>,
    d: int,
    de: int,
    r: usize,
    a: Seq<usize>,
    i: int,
    j: int,
    u: int,
    v: int,
    x: int,
    y: int,
)
    requires
        segment_setting(n0, p0, r0, n2, p2, nf, pf, d, de, r, a, i, j, u, v, x, y),
    ensures
        (a.take(i) + a.subrange(i, j).reverse() + a.skip(j)).no_duplicates(),
        forall|t: int| 0 <= t < (a.take(i) + a.subrange(i, j).reverse() + a.skip(j)).len() ==> #[trigger] (a.take(i) + a.subrange(i, j).reverse() + a.skip(j))[t] < n0.len(),
        !(a.take(i) + a.subrange(i, j).reverse() + a.skip(j)).contains(d as usize),
        !(a.take(i) + a.subrange(i, j).reverse() + a.skip(j)).contains(de as usize),
        forall|t: int| 0 <= t < (a.take(i) + a.subrange(i, j).reverse() + a.skip(j)).len() ==> #[trigger] r0[(a.take(i) + a.subrange(i, j).reverse() + a.skip(j))[t] as int] == r,
{
    let la = a.len() as int;
    let w = a.take(i) + a.subrange(i, j).reverse() + a.skip(j);
    let k = w.len() as int;
    lemma_inner_clients(a, i, j);
    assert(k == la);
    assert forall|t: int| 0 <= t < la implies #[trigger] w[t] == (if i <= t < j {
        a[j - 1 - (t - i)]
    } else {
        a[t]
    }) by {
        if i <= t < j {
            assert(w[t] == a.subrange(i, j).reverse()[t - i]);
        }
    }
    assert(a.contains(a[i]));
    assert(a.contains(a[j - 1]));
    if i > 0 {
        assert(a.contains(a[i - 1]));
    }
    if j < la {
        assert(a.contains(a[j]));
    }
    assert forall|t1: int, t2: int| 0 <= t1 < k && 0 <= t2 < k && t1 != t2 implies w[t1] != w[t2] by {
        let m1 = if i <= t1 < j { j - 1 - (t1 - i) } else { t1 };
        let m2 = if i <= t2 < j { j - 1 - (t2 - i) } else { t2 };
        assert(a[m1] != a[m2]);
    }
    assert forall|t: int| 0 <= t < k implies #[trigger] w[t] < n0.len() && w[t] != d as usize && w[t] != de as usize && r0[w[t] as int] == r by {
        let m = if i <= t < j { j - 1 - (t - i) } else { t };
        assert(a.contains(a[m]));
    }
}

/// The reversal of the segment, from the links after the flips.
proof fn lemma_segment(
    n0: Seq<usize>,
    p0: Seq<usize>,
    r0: Seq<usize>,
    n2: Seq<usize>,
    p2: Seq<usize>,
    nf: Seq<usize>,
    pf: Seq<usize>,
    d: int,
    de: int,
    r: usize,
    a: Seq<usize>,
    i: int,
    j: int,
    u: int,
    v: int,
    x: int,
    y: int,
)
    requires
        segment_setting(n0, p0, r0, n2, p2, nf, pf, d, de, r, a, i, j, u, v, x, y),
    ensures
        one_route(nf, pf, r0, d, de, r, a.take(i) + a.subrange(i, j).reverse() + a.skip(j)),
        forall|z: int| 0 <= z < n0.len() && !a.contains(z as usize) && z != d && z != de ==> #[trigger] nf[z] == n0[z],
        forall|z: int| 0 <= z < n0.len() && !a.contains(z as usize) && z != d && z != de ==> #[trigger] pf[z] == p0[z],
{
    lemma_segment_ends(n0, p0, r0, n2, p2, nf, pf, d, de, r, a, i, j, u, v, x, y);
    lemma_segment_next(n0, p0, r0, n2, p2, nf, pf, d, de, r, a, i, j, u, v, x, y);
    lemma_segment_prev(n0, p0, r0, n2, p2, nf, pf, d, de, r, a, i, j, u, v, x, y);
    lemma_segment_shape(n0, p0, r0, n2, p2, nf, pf, d, de, r, a, i, j, u, v, x, y);
    let la = a.len() as int;
    lemma_inner_clients(a, i, j);
    assert(a.contains(a[i]));
    assert(a.contains(a[j - 1]));
    if i > 0 {
        assert(a.contains(a[i - 1]));
    }
    if j < la {
        assert(a.contains(a[j]));
    }
    assert forall|z: int| 0 <= z < n0.len() && !a.contains(z as usize) && z != d && z != de implies !#[trigger] a.subrange(i + 1, j - 1).contains(z as usize) by {
        if a.subrange(i + 1, j - 1).contains(z as usize) {
            let t = choose|t: int| 0 <= t < j - i - 2 && #[trigger] a.subrange(i + 1, j - 1)[t] == z as usize;
            assert(a[i + 1 + t] == z as usize);
        }
    }
}

impl NodeLinks {
    /// 2-opt rewiring inside one route: with U before V in the route that starts at
    /// `depot`, and at least one client between them, replaces (U, X) and (V, Y), X
    /// and Y their successors, by (U, V) and (X, Y), walking the stretch from X to V
    /// backwards. (The links alone do not tell where a route starts; `depot` names
    /// the route for the contract.)
    pub fn reverse_segment(&mut self, u: usize, v: usize, depot: usize)
        requires
            old(self).well_sized(),
            exists|r: usize, a: Seq<usize>, i: int, j: int|
                segment_cut(
                    old(self).next@,
                    old(self).prev@,
                    old(self).route@,
                    depot as int,
                    r,
                    a,
                    i,
                    j,
                    u as int,
                    v as int,
                ),
        ensures
            final(self).well_sized(),
            forall|r: usize, a: Seq<usize>, i: int, j: int|
                #[trigger] segment_cut(
                    old(self).next@,
                    old(self).prev@,
                    old(self).route@,
                    depot as int,
                    r,
                    a,
                    i,
                    j,
                    u as int,
                    v as int,
                ) ==> segment_reversed(
                    old(self).next@,
                    old(self).prev@,
                    old(self).route@,
                    final(self).next@,
                    final(self).prev@,
                    final(self).route@,
                    depot as int,
                    r,
                    a,
                    i,
                    j,
                ),
    {
        let ghost n0: Seq<usize> = self.next@;
        let ghost p0: Seq<usize> = self.prev@;
        let ghost r0: Seq<usize> = self.route@;
        let nb_nodes: usize = self.next.len();
        let ghost (r, a, i, j) = choose|r: usize, a: Seq<usize>, i: int, j: int|
            segment_cut(n0, p0, r0, depot as int, r, a, i, j, u as int, v as int);
        let ghost de: int = p0[depot as int] as int;
        let ghost la: int = a.len() as int;
        proof {
            lemma_inner_clients(a, i, j);
            assert(a.contains(a[i]));
            assert(a.contains(a[j - 1]));
            if i > 0 {
                assert(n0[a[i - 1] as int] == a[i]);
                assert(a.contains(a[i - 1]));
            } else {
                assert(n0[depot as int] == a[0]);
            }
            assert(n0[a[i] as int] == a[i + 1]);
            if j < la {
                assert(n0[a[j - 1] as int] == a[j]);
                assert(a.contains(a[j]));
            } else {
                assert(n0[a[j - 1] as int] == de);
            }
        }
        let x: usize = self.next[u];
        let y: usize = self.next[v];
        let mut node_num: usize = self.next[x];
        self.prev.set(x, node_num);
        self.next.set(x, y);

        // Walk the clients strictly between X and V, flipping their links
        let ghost mut k: int = 0;
        while node_num != v
            invariant
                self.well_sized(),
                self.next@.len() == nb_nodes,
                n0.len() == nb_nodes,
                p0.len() == nb_nodes,
                segment_cut(n0, p0, r0, depot as int, r, a, i, j, u as int, v as int),
                la == a.len(),
                x == a[i],
                v == a[j - 1],
                forall|m: int| 0 <= m < a.len() ==> (a.subrange(i + 1, j - 1).contains(#[trigger] a[m]) <==> i + 1 <= m < j - 1),
                0 <= k <= j - i - 2,
                node_num == a[i + 1 + k],
                self.next@ == flipped(n0, p0, a.subrange(i + 1, i + 1 + k)).0.update(x as int, y),
                self.prev@ == flipped(n0, p0, a.subrange(i + 1, i + 1 + k)).1.update(x as int, n0[x as int]),
                self.route@ == r0,
            decreases j - i - 2 - k,
        {
            proof {
                if i + 1 + k >= j - 1 {
                    assert(a[i + 1 + k] == a[j - 1]);
                    assert(false);
                }
                let c = a[i + 1 + k];
                assert(a.contains(c));
                let s0 = a.subrange(i + 1, i + 1 + k);
                assert(!s0.contains(c)) by {
                    if s0.contains(c) {
                        let t = choose|t: int| 0 <= t < s0.len() && #[trigger] s0[t] == c;
                        assert(a[i + 1 + t] == c);
                    }
                }
                assert(c != x);
                assert(n0[c as int] == a[i + 2 + k]);
                lemma_subrange_grow(a, i + 1, i + 1 + k, i + 1, i + 2 + k, c);
                lemma_flip_step(n0, p0, s0, a.subrange(i + 1, i + 2 + k), c);
            }
            let temp: usize = self.next[node_num];
            let pv: usize = self.prev[node_num];
            self.next.set(node_num, pv);
            self.prev.set(node_num, temp);
            node_num = temp;
            proof {
                k = k + 1;
            }
        }
        proof {
            assert(a[i + 1 + k] == a[j - 1]);
            assert(i + 1 + k == j - 1);
            assert(a.subrange(i + 1, j - 1).contains(v) == false);
        }
        let ghost n2: Seq<usize> = flipped(n0, p0, a.subrange(i + 1, j - 1)).0;
        let ghost p2: Seq<usize> = flipped(n0, p0, a.subrange(i + 1, j - 1)).1;
        let pv: usize = self.prev[v];
        self.next.set(v, pv);
        self.prev.set(v, u);
        self.next.set(u, v);
        self.prev.set(y, x);
        proof {
            lemma_segment(
                n0, p0, r0, n2, p2, self.next@, self.prev@, depot as int, de, r, a, i, j, u as int,
                v as int, x as int, y as int,
            );
            assert forall|r2: usize, a2: Seq<usize>, i2: int, j2: int|
                #[trigger] segment_cut(n0, p0, r0, depot as int, r2, a2, i2, j2, u as int, v as int)
                implies segment_reversed(n0, p0, r0, self.next@, self.prev@, self.route@, depot as int, r2, a2, i2, j2) by {
                lemma_one_route_unique(n0, p0, r0, depot as int, de, r, r2, a, a2);
                if i != i2 {
                    if i > 0 && i2 > 0 {
                        assert(a[i - 1] == a[i2 - 1]);
                    } else if i > 0 {
                        assert(a.contains(a[i - 1]));
                    } else {
                        assert(a.contains(a[i2 - 1]));
                    }
                }
                if j != j2 {
                    assert(a[j - 1] == a[j2 - 1]);
                }
                if r != r2 {
                    assert(r0[a[0] as int] == r);
                    assert(r0[a[0] as int] == r2);
                }
            }
        }
    }
}

/// A route that the links read back: one laid out from `depot` whose clients are at
/// most `nb_clients` and whose end depot is above it.
pub open spec fn readable_route(
    next: Seq<usize>,
    prev: Seq<usize>,
    route: Seq<usize>,
    depot: int,
    nb_clients: int,
    r: usize,
    a: Seq<usize>,
) -> bool {
    &&& 0 <= depot < prev.len()
    &&& one_route(next, prev, route, depot, prev[depot] as int, r, a)
    &&& nb_clients < prev[depot]
    &&& forall|k: int| 0 <= k < a.len() ==> #[trigger] a[k] <= nb_clients
}

impl NodeLinks {
    /// The clients of the route that starts at `depot`, in order: the nodes met
    /// from the depot until the next node above `nb_clients` (a depot).
    pub fn route_clients(&self, depot: usize, nb_clients: usize) -> (clients: Vec<usize>)
        requires
            exists|r: usize, a: Seq<usize>|
                readable_route(self.next@, self.prev@, self.route@, depot as int, nb_clients as int, r, a),
        ensures
            forall|r: usize, a: Seq<usize>|
                #[trigger] readable_route(self.next@, self.prev@, self.route@, depot as int, nb_clients as int, r, a)
                    ==> clients@ == a,
    {
        let ghost (r, a) = choose|r: usize, a: Seq<usize>|
            readable_route(self.next@, self.prev@, self.route@, depot as int, nb_clients as int, r, a);
        let ghost de: int = self.prev@[depot as int] as int;
        let mut clients: Vec<usize> = Vec::new();
        let mut x: usize = self.next[depot];
        proof {
            if a.len() > 0 {
                assert(x == a[0]);
            }
        }
        let ghost mut k: int = 0;
        while x <= nb_clients
            invariant
                readable_route(self.next@, self.prev@, self.route@, depot as int, nb_clients as int, r, a),
                de == self.prev@[depot as int],
                0 <= k <= a.len(),
                clients@ == a.take(k),
                x == (if k < a.len() {
                    a[k] as int
                } else {
                    de
                }),
            decreases a.len() - k,
        {
            proof {
                if k >= a.len() {
                    assert(false);
                }
                if k + 1 < a.len() {
                    assert(self.next@[a[k] as int] == a[k + 1]);
                } else {
                    assert(self.next@[a[k] as int] == de);
                }
                assert(a.contains(a[k]));
                assert(a.take(k).push(a[k]) =~= a.take(k + 1));
            }
            clients.push(x);
            x = self.next[x];
            proof {
                k = k + 1;
            }
        }
        proof {
            if k < a.len() {
                assert(a[k] <= nb_clients);
            }
            assert(a.take(k) =~= a);
            assert forall|r2: usize, a2: Seq<usize>|
                #[trigger] readable_route(self.next@, self.prev@, self.route@, depot as int, nb_clients as int, r2, a2)
                implies clients@ == a2 by {
                lemma_one_route_unique(self.next@, self.prev@, self.route@, depot as int, de, r, r2, a, a2);
            }
        }
        clients
    }
}

/// What `load_route` writes, `route_clients` reads back: a route loaded with
/// distinct clients at most `nb_clients`, between two distinct depots above
/// `nb_clients`, is a route that reads as those clients.
pub proof fn lemma_loaded_route_reads_back(
    next: Seq<usize>,
    prev: Seq<usize>,
    route: Seq<usize>,
    depot: int,
    depot_end: int,
    r: usize,
    clients: Seq<usize>,
    nb_clients: int,
)
    requires
        route_loaded(next, prev, route, depot, depot_end, r, clients),
        next.len() == prev.len() == route.len() <= usize::MAX,
        0 <= nb_clients,
        nb_clients < depot < next.len(),
        nb_clients < depot_end < next.len(),
        depot != depot_end,
        clients.no_duplicates(),
        forall|k: int| 0 <= k < clients.len() ==> #[trigger] clients[k] <= nb_clients,
    ensures
        readable_route(next, prev, route, depot, nb_clients, r, clients),
{
    assert(prev[depot] == depot_end);
    assert(!clients.contains(depot as usize)) by {
        if clients.contains(depot as usize) {
            let k = choose|k: int| 0 <= k < clients.len() && clients[k] == depot as usize;
            assert(clients[k] <= nb_clients);
        }
    }
    assert(!clients.contains(depot_end as usize)) by {
        if clients.contains(depot_end as usize) {
            let k = choose|k: int| 0 <= k < clients.len() && clients[k] == depot_end as usize;
            assert(clients[k] <= nb_clients);
        }
    }
    assert forall|k: int| 0 <= k < clients.len() implies #[trigger] clients[k] < next.len() by {
        assert(clients[k] <= nb_clients);
    }
}

/// Reversing the same stretch of a route twice gives the route back: after the
/// clients `i..j` are reversed, reversing again between the same positions restores
/// the route, its links and its labels.
pub proof fn lemma_reverse_segment_twice(
    n0: Seq<usize>,
    p0: Seq<usize>,
    r0: Seq<usize>,
    n1: Seq<usize>,
    p1: Seq<usize>,
    r1: Seq<usize>,
    n2: Seq<usize>,
    p2: Seq<usize>,
    r2: Seq<usize>,
    d: int,
    r: usize,
    a: Seq<usize>,
    i: int,
    j: int,
)
    requires
        0 <= d < p0.len(),
        0 <= i <= j <= a.len(),
        segment_reversed(n0, p0, r0, n1, p1, r1, d, r, a, i, j),
        segment_reversed(
            n1,
            p1,
            r1,
            n2,
            p2,
            r2,
            d,
            r,
            a.take(i) + a.subrange(i, j).reverse() + a.skip(j),
            i,
            j,
        ),
    ensures
        one_route(n2, p2, r2, d, p0[d] as int, r, a),
        r2 == r0,
{
    let w = a.take(i) + a.subrange(i, j).reverse() + a.skip(j);
    assert(p1[d] == p0[d]);
    assert(w.len() == a.len());
    let back = w.take(i) + w.subrange(i, j).reverse() + w.skip(j);
    assert forall|t: int| 0 <= t < a.len() implies #[trigger] back[t] == a[t] by {
        if i <= t < j {
            assert(back[t] == w.subrange(i, j).reverse()[t - i]);
            assert(w[j - 1 - (t - i)] == a.subrange(i, j).reverse()[j - 1 - (t - i) - i]);
        }
    }
    assert(back =~= a);
}

} // verus!
