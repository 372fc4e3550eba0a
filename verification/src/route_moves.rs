//! The rewiring of the 2-opt* moves of the local search: two routes exchange
//! their tails after given nodes, straight or reversed.
use vstd::prelude::*;
use crate::local_search::{NodeLinks, route_loaded};

verus! {

/// Two routes laid out in the links: route `ru` runs from start depot `du` to end
/// depot `duf` through the clients `a`, route `rv` from `dv` to `dvf` through `b`.
/// The four depots are distinct nodes above `nb_clients`; the clients are distinct
/// nodes at most `nb_clients`.
pub open spec fn two_routes(
    next: Seq<usize>,
    prev: Seq<usize>,
    route: Seq<usize>,
    nb_clients: int,
    du: int,
    duf: int,
    ru: usize,
    a: Seq<usize>,
    dv: int,
    dvf: int,
    rv: usize,
    b: Seq<usize>,
) -> bool {
    &&& next.len() == prev.len() == route.len() <= usize::MAX
    &&& 0 <= nb_clients
    &&& nb_clients < du < next.len()
    &&& nb_clients < duf < next.len()
    &&& nb_clients < dv < next.len()
    &&& nb_clients < dvf < next.len()
    &&& du != duf && du != dv && du != dvf && duf != dv && duf != dvf && dv != dvf
    &&& a.no_duplicates()
    &&& b.no_duplicates()
    &&& forall|k: int| 0 <= k < a.len() ==> #[trigger] a[k] <= nb_clients
    &&& forall|k: int| 0 <= k < b.len() ==> #[trigger] b[k] <= nb_clients
    &&& forall|k1: int, k2: int| 0 <= k1 < a.len() && 0 <= k2 < b.len() ==> #[trigger] a[k1] != #[trigger] b[k2]
    &&& route_loaded(next, prev, route, du, duf, ru, a)
    &&& route_loaded(next, prev, route, dv, dvf, rv, b)
}

/// The node after which a route is cut when `c` of its clients stay in front: the
/// start depot for `c == 0`, else the `c`-th client.
pub open spec fn cut_node(d: int, s: Seq<usize>, c: int) -> int {
    if c == 0 {
        d
    } else {
        s[c - 1] as int
    }
}

/// `u` cuts route `a` after its `ia` first clients and `v` cuts route `b` after its
/// `jb` first clients, the end depots being the predecessors of the start depots.
pub open spec fn cut_routes(
    next: Seq<usize>,
    prev: Seq<usize>,
    route: Seq<usize>,
    nb_clients: int,
    du: int,
    ru: usize,
    a: Seq<usize>,
    ia: int,
    dv: int,
    rv: usize,
    b: Seq<usize>,
    jb: int,
    u: int,
    v: int,
) -> bool {
    &&& 0 <= du < prev.len()
    &&& 0 <= dv < prev.len()
    &&& two_routes(next, prev, route, nb_clients, du, prev[du] as int, ru, a, dv, prev[dv] as int, rv, b)
    &&& 0 <= ia <= a.len()
    &&& 0 <= jb <= b.len()
    &&& u == cut_node(du, a, ia)
    &&& v == cut_node(dv, b, jb)
}

/// The route labels after every node of `s` is given label `r`.
pub open spec fn relabel(route: Seq<usize>, s: Seq<usize>, r: usize) -> Seq<usize> {
    Seq::new(route.len(), |x: int| if s.contains(x as usize) { r } else { route[x] })
}

/// The clients of a route are determined by the links: two client sequences laid
/// out between the same depots are equal.
pub proof fn lemma_route_unique(
    next: Seq<usize>,
    prev: Seq<usize>,
    route1: Seq<usize>,
    route2: Seq<usize>,
    d: int,
    de: int,
    r1: usize,
    r2: usize,
    a1: Seq<usize>,
    a2: Seq<usize>,
    nb_clients: int,
)
    requires
        route_loaded(next, prev, route1, d, de, r1, a1),
        route_loaded(next, prev, route2, d, de, r2, a2),
        forall|k: int| 0 <= k < a1.len() ==> #[trigger] a1[k] <= nb_clients,
        forall|k: int| 0 <= k < a2.len() ==> #[trigger] a2[k] <= nb_clients,
        nb_clients < de <= usize::MAX,
    ensures
        a1 == a2,
{
    let m = if a1.len() < a2.len() {
        a1.len() as int
    } else {
        a2.len() as int
    };
    if m > 0 {
        lemma_route_prefix(next, prev, route1, route2, d, de, r1, r2, a1, a2, m - 1);
    }
    if a1.len() < a2.len() {
        if a1.len() == 0 {
            assert(a2[0] <= nb_clients);
        } else {
            assert(a1[m - 1] == a2[m - 1]);
            assert(a2[m] <= nb_clients);
            assert(next[a1[m - 1] as int] == de);
            assert(next[a2[m - 1] as int] == a2[m]);
        }
        assert(false);
    }
    if a2.len() < a1.len() {
        if a2.len() == 0 {
            assert(a1[0] <= nb_clients);
        } else {
            assert(a1[m - 1] == a2[m - 1]);
            assert(a1[m] <= nb_clients);
            assert(next[a2[m - 1] as int] == de);
            assert(next[a1[m - 1] as int] == a1[m]);
        }
        assert(false);
    }
    assert(a1 =~= a2);
}

proof fn lemma_route_prefix(
    next: Seq<usize>,
    prev: Seq<usize>,
    route1: Seq<usize>,
    route2: Seq<usize>,
    d: int,
    de: int,
    r1: usize,
    r2: usize,
    a1: Seq<usize>,
    a2: Seq<usize>,
    m: int,
)
    requires
        route_loaded(next, prev, route1, d, de, r1, a1),
        route_loaded(next, prev, route2, d, de, r2, a2),
        forall|k: int| 0 <= k < a1.len() ==> #[trigger] a1[k] < de,
        forall|k: int| 0 <= k < a2.len() ==> #[trigger] a2[k] < de,
        0 <= m < a1.len(),
        m < a2.len(),
    ensures
        forall|k: int| 0 <= k <= m ==> #[trigger] a1[k] == a2[k],
    decreases m,
{
    if m > 0 {
        lemma_route_prefix(next, prev, route1, route2, d, de, r1, r2, a1, a2, m - 1);
        assert(a1[m - 1] == a2[m - 1]);
        assert(next[a1[m - 1] as int] == a1[m]);
        assert(next[a2[m - 1] as int] == a2[m]);
    }
}

/// After the tails of two cut routes are exchanged: the first route keeps its
/// `ia` first clients and continues with the clients of the second route after its
/// `jb` first ones, and the other way round; every other node keeps its links, and
/// every node outside the two routes its label.
pub open spec fn tails_exchanged(
    n0: Seq<usize>,
    p0: Seq<usize>,
    r0: Seq<usize>,
    n1: Seq<usize>,
    p1: Seq<usize>,
    r1: Seq<usize>,
    nb_clients: int,
    du: int,
    ru: usize,
    a: Seq<usize>,
    ia: int,
    dv: int,
    rv: usize,
    b: Seq<usize>,
    jb: int,
) -> bool {
    &&& two_routes(
        n1,
        p1,
        r1,
        nb_clients,
        du,
        p0[du] as int,
        ru,
        a.take(ia) + b.skip(jb),
        dv,
        p0[dv] as int,
        rv,
        b.take(jb) + a.skip(ia),
    )
    &&& n1.len() == n0.len()
    &&& forall|x: int|
        0 <= x < n0.len() && !a.contains(x as usize) && !b.contains(x as usize) && x != du && x
            != dv && x != p0[du] && x != p0[dv] ==> #[trigger] n1[x] == n0[x]
    &&& forall|x: int|
        0 <= x < n0.len() && !a.contains(x as usize) && !b.contains(x as usize) && x != du && x
            != dv && x != p0[du] && x != p0[dv] ==> #[trigger] p1[x] == p0[x]
    &&& forall|x: int|
        0 <= x < n0.len() && !a.contains(x as usize) && !b.contains(x as usize) ==> #[trigger] r1[x]
            == r0[x]
}

/// The state after the tails are exchanged, from the values that the rewiring
/// reads: U and V, their successors X and Y, the last client P of route V (U when
/// that tail is empty) and the last node of route U.
pub open spec fn exchange_setting(
    n0: Seq<usize>,
    p0: Seq<usize>,
    r0: Seq<usize>,
    nf: Seq<usize>,
    pf: Seq<usize>,
    rf: Seq<usize>,
    nc: int,
    du: int,
    duf: int,
    ru: usize,
    a: Seq<usize>,
    ia: int,
    dv: int,
    dvf: int,
    rv: usize,
    b: Seq<usize>,
    jb: int,
    u: int,
    v: int,
    x: int,
    y: int,
    p: int,
    dup: int,
) -> bool {
    &&& two_routes(n0, p0, r0, nc, du, duf, ru, a, dv, dvf, rv, b)
    &&& 0 <= ia <= a.len()
    &&& 0 <= jb <= b.len()
    &&& u == cut_node(du, a, ia)
    &&& v == cut_node(dv, b, jb)
    &&& x == (if ia < a.len() {
        a[ia] as int
    } else {
        duf
    })
    &&& y == (if jb < b.len() {
        b[jb] as int
    } else {
        dvf
    })
    &&& p == (if jb < b.len() {
        b[b.len() - 1] as int
    } else {
        u
    })
    &&& dup == (if a.len() > 0 {
        a[a.len() - 1] as int
    } else {
        du
    })
    &&& ({
        let n1 = n0.update(u, y as usize).update(v, x as usize).update(p, duf as usize);
        let p2 = p0.update(y, u as usize).update(x, v as usize).update(duf, p as usize);
        if ia == a.len() {
            &&& nf == n1.update(v, dvf as usize)
            &&& pf == p2.update(dvf, v as usize)
        } else {
            &&& nf == n1.update(dup, dvf as usize)
            &&& pf == p2.update(dvf, dup as usize)
        }
    })
    &&& rf == relabel(relabel(r0, b.skip(jb), ru), a.skip(ia), rv)
}

/// Route U after the exchange: its depots and its first and last nodes.
proof fn lemma_exchanged_u_ends(
    n0: Seq<usize>,
    p0: Seq<usize>,
    r0: Seq<usize>,
    nf: Seq<usize>,
    pf: Seq<usize>,
    rf: Seq<usize>,
    nc: int,
    du: int,
    duf: int,
    ru: usize,
    a: Seq<usize>,
    ia: int,
    dv: int,
    dvf: int,
    rv: usize,
    b: Seq<usize>,
    jb: int,
    u: int,
    v: int,
    x: int,
    y: int,
    p: int,
    dup: int,
)
    requires
        exchange_setting(n0, p0, r0, nf, pf, rf, nc, du, duf, ru, a, ia, dv, dvf, rv, b, jb, u, v, x, y, p, dup),
    ensures
        ({
            let uu = a.take(ia) + b.skip(jb);
            let k = uu.len() as int;
            &&& pf[du] == duf
            &&& nf[duf] == du
            &&& nf[du] == (if k == 0 { duf as usize } else { uu[0] })
            &&& pf[duf] == (if k == 0 { du as usize } else { uu[k - 1] })
        }),
{
    let la = a.len() as int;
    let lb = b.len() as int;
    let a1 = a.take(ia);
    let b2 = b.skip(jb);
    let uu = a1 + b2;
    let k = uu.len() as int;
    assert(k == ia + lb - jb);
    if ia > 0 {
        assert(a[ia - 1] <= nc);
    }
    if ia < la {
        assert(a[ia] <= nc);
    }
    if jb > 0 {
        assert(b[jb - 1] <= nc);
    }
    if jb < lb {
        assert(b[jb] <= nc);
        assert(b[lb - 1] <= nc);
    }
    if la > 0 {
        assert(a[la - 1] <= nc);
    }
    // Which node is which
    assert(u != v) by {
        if ia > 0 && jb > 0 {
            assert(a[ia - 1] != b[jb - 1]);
        }
    }
    assert(pf[du] == duf) by {
        assert(p0[du] == duf);
    }
    assert(nf[duf] == du) by {
        assert(n0[duf] == du);
        if ia > 0 {
            assert(u != duf);
        }
        if jb < lb {
            assert(p != duf);
        }
    }
    assert(nf[du] == (if k == 0 {
        duf as usize
    } else {
        uu[0]
    })) by {
        if ia > 0 {
            assert(uu[0] == a[0]);
            assert(n0[du] == a[0]);
            if jb < lb {
                assert(p != du);
            }
            if ia < la {
                assert(dup != du);
            }
        } else if jb < lb {
            assert(uu[0] == b[jb]);
            assert(p != du);
            if la > 0 {
                assert(dup != du);
            }
        }
    }
    assert(pf[duf] == (if k == 0 {
        du as usize
    } else {
        uu[k - 1]
    })) by {
        if jb < lb {
            assert(uu[k - 1] == b[lb - 1]);
        } else if ia > 0 {
            assert(uu[k - 1] == a[ia - 1]);
        }
    }
}

/// Route U after the exchange: the labels of its clients.
proof fn lemma_exchanged_u_labels(
    n0: Seq<usize>,
    p0: Seq<usize>,
    r0: Seq<usize>,
    nf: Seq<usize>,
    pf: Seq<usize>,
    rf: Seq<usize>,
    nc: int,
    du: int,
    duf: int,
    ru: usize,
    a: Seq<usize>,
    ia: int,
    dv: int,
    dvf: int,
    rv: usize,
    b: Seq<usize>,
    jb: int,
    u: int,
    v: int,
    x: int,
    y: int,
    p: int,
    dup: int,
)
    requires
        exchange_setting(n0, p0, r0, nf, pf, rf, nc, du, duf, ru, a, ia, dv, dvf, rv, b, jb, u, v, x, y, p, dup),
    ensures
        forall|i: int| 0 <= i < (a.take(ia) + b.skip(jb)).len() ==> #[trigger] rf[(a.take(ia) + b.skip(jb))[i] as int] == ru,
{
    let la = a.len() as int;
    let lb = b.len() as int;
    let a1 = a.take(ia);
    let b2 = b.skip(jb);
    let uu = a1 + b2;
    let k = uu.len() as int;
    assert(k == ia + lb - jb);
    if ia > 0 {
        assert(a[ia - 1] <= nc);
    }
    if ia < la {
        assert(a[ia] <= nc);
    }
    if jb > 0 {
        assert(b[jb - 1] <= nc);
    }
    if jb < lb {
        assert(b[jb] <= nc);
        assert(b[lb - 1] <= nc);
    }
    if la > 0 {
        assert(a[la - 1] <= nc);
    }
    assert forall|i: int| 0 <= i < k implies #[trigger] rf[uu[i] as int] == ru by {
        if i < ia {
            assert(uu[i] == a[i]);
            assert(r0[a[i] as int] == ru);
            assert(a[i] <= nc);
            assert(!b.skip(jb).contains(a[i])) by {
                if b.skip(jb).contains(a[i]) {
                    let m = choose|m: int| 0 <= m < lb - jb && b.skip(jb)[m] == a[i];
                    assert(b[jb + m] == a[i]);
                }
            }
            assert(!a.skip(ia).contains(a[i])) by {
                if a.skip(ia).contains(a[i]) {
                    let m = choose|m: int| 0 <= m < la - ia && a.skip(ia)[m] == a[i];
                    assert(a[ia + m] == a[i]);
                }
            }
        } else {
            let j = jb + i - ia;
            assert(uu[i] == b[j]);
            assert(b[j] <= nc);
            assert(b.skip(jb)[i - ia] == b[j]);
            assert(!a.skip(ia).contains(b[j])) by {
                if a.skip(ia).contains(b[j]) {
                    let m = choose|m: int| 0 <= m < la - ia && a.skip(ia)[m] == b[j];
                    assert(a[ia + m] == b[j]);
                }
            }
        }
    }
}

/// Route U after the exchange: the successors of its clients.
proof fn lemma_exchanged_u_next(
    n0: Seq<usize>,
    p0: Seq<usize>,
    r0: Seq<usize>,
    nf: Seq<usize>,
    pf: Seq<usize>,
    rf: Seq<usize>,
    nc: int,
    du: int,
    duf: int,
    ru: usize,
    a: Seq<usize>,
    ia: int,
    dv: int,
    dvf: int,
    rv: usize,
    b: Seq<usize>,
    jb: int,
    u: int,
    v: int,
    x: int,
    y: int,
    p: int,
    dup: int,
)
    requires
        exchange_setting(n0, p0, r0, nf, pf, rf, nc, du, duf, ru, a, ia, dv, dvf, rv, b, jb, u, v, x, y, p, dup),
    ensures
        forall|i: int|
            0 <= i < (a.take(ia) + b.skip(jb)).len() ==> #[trigger] nf[(a.take(ia) + b.skip(jb))[i] as int] == (if i == (a.take(ia) + b.skip(jb)).len() - 1 {
                duf as usize
            } else {
                (a.take(ia) + b.skip(jb))[i + 1]
            }),
{
    let la = a.len() as int;
    let lb = b.len() as int;
    let a1 = a.take(ia);
    let b2 = b.skip(jb);
    let uu = a1 + b2;
    let k = uu.len() as int;
    assert(k == ia + lb - jb);
    if ia > 0 {
        assert(a[ia - 1] <= nc);
    }
    if ia < la {
        assert(a[ia] <= nc);
    }
    if jb > 0 {
        assert(b[jb - 1] <= nc);
    }
    if jb < lb {
        assert(b[jb] <= nc);
        assert(b[lb - 1] <= nc);
    }
    if la > 0 {
        assert(a[la - 1] <= nc);
    }
    assert forall|i: int| 0 <= i < k implies #[trigger] nf[uu[i] as int] == (if i == k - 1 {
        duf as usize
    } else {
        uu[i + 1]
    }) by {
        if i < ia {
            assert(uu[i] == a[i]);
            assert(a[i] <= nc);
            if i < ia - 1 {
                assert(uu[i + 1] == a[i + 1]);
                assert(n0[a[i] as int] == a[i + 1]);
                assert(a[i] != a[ia - 1]);
                if jb < lb {
                    assert(a[i] != b[lb - 1]);
                }
                if jb > 0 {
                    assert(a[i] != b[jb - 1]);
                }
                if ia < la {
                    assert(a[i] != a[la - 1]);
                }
            } else {
                if jb < lb {
                    assert(uu[i + 1] == b[jb]);
                    assert(a[i] != b[lb - 1]);
                }
                if ia < la {
                    assert(a[i] != a[la - 1]);
                }
            }
        } else {
            let j = jb + i - ia;
            assert(uu[i] == b[j]);
            assert(b[j] <= nc);
            if jb > 0 {
                assert(b[j] != b[jb - 1]);
            }
            if ia > 0 {
                assert(b[j] != a[ia - 1]);
            }
            if la > 0 {
                assert(b[j] != a[la - 1]);
            }
            if j < lb - 1 {
                assert(uu[i + 1] == b[j + 1]);
                assert(n0[b[j] as int] == b[j + 1]);
                assert(b[j] != b[lb - 1]);
            }
        }
    }
}

/// Route U after the exchange: the predecessors of its clients.
proof fn lemma_exchanged_u_prev(
    n0: Seq<usize>,
    p0: Seq<usize>,
    r0: Seq<usize>,
    nf: Seq<usize>,
    pf: Seq<usize>,
    rf: Seq<usize>,
    nc: int,
    du: int,
    duf: int,
    ru: usize,
    a: Seq<usize>,
    ia: int,
    dv: int,
    dvf: int,
    rv: usize,
    b: Seq<usize>,
    jb: int,
    u: int,
    v: int,
    x: int,
    y: int,
    p: int,
    dup: int,
)
    requires
        exchange_setting(n0, p0, r0, nf, pf, rf, nc, du, duf, ru, a, ia, dv, dvf, rv, b, jb, u, v, x, y, p, dup),
    ensures
        forall|i: int|
            0 <= i < (a.take(ia) + b.skip(jb)).len() ==> #[trigger] pf[(a.take(ia) + b.skip(jb))[i] as int] == (if i == 0 {
                du as usize
            } else {
                (a.take(ia) + b.skip(jb))[i - 1]
            }),
{
    let la = a.len() as int;
    let lb = b.len() as int;
    let a1 = a.take(ia);
    let b2 = b.skip(jb);
    let uu = a1 + b2;
    let k = uu.len() as int;
    assert(k == ia + lb - jb);
    if ia > 0 {
        assert(a[ia - 1] <= nc);
    }
    if ia < la {
        assert(a[ia] <= nc);
    }
    if jb > 0 {
        assert(b[jb - 1] <= nc);
    }
    if jb < lb {
        assert(b[jb] <= nc);
        assert(b[lb - 1] <= nc);
    }
    if la > 0 {
        assert(a[la - 1] <= nc);
    }
    assert forall|i: int| 0 <= i < k implies #[trigger] pf[uu[i] as int] == (if i == 0 {
        du as usize
    } else {
        uu[i - 1]
    }) by {
        if i < ia {
            assert(uu[i] == a[i]);
            assert(a[i] <= nc);
            if i > 0 {
                assert(uu[i - 1] == a[i - 1]);
            }
            assert(p0[a[i] as int] == (if i == 0 { du as usize } else { a[i - 1] }));
            if ia < la {
                assert(a[i] != a[ia]);
            }
            if jb < lb {
                assert(a[i] != b[jb]);
            }
        } else {
            let j = jb + i - ia;
            assert(uu[i] == b[j]);
            assert(b[j] <= nc);
            if ia < la {
                assert(b[j] != a[ia]);
            }
            if j > jb {
                assert(uu[i - 1] == b[j - 1]);
                assert(p0[b[j] as int] == b[j - 1]);
                assert(b[j] != b[jb]);
            } else if i > 0 {
                assert(uu[i - 1] == a[ia - 1]);
            }
        }
    }
}

/// Route V after the exchange: its depots and its first and last nodes.
proof fn lemma_exchanged_v_ends(
    n0: Seq<usize>,
    p0: Seq<usize>,
    r0: Seq<usize>,
    nf: Seq<usize>,
    pf: Seq<usize>,
    rf: Seq<usize>,
    nc: int,
    du: int,
    duf: int,
    ru: usize,
    a: Seq<usize>,
    ia: int,
    dv: int,
    dvf: int,
    rv: usize,
    b: Seq<usize>,
    jb: int,
    u: int,
    v: int,
    x: int,
    y: int,
    p: int,
    dup: int,
)
    requires
        exchange_setting(n0, p0, r0, nf, pf, rf, nc, du, duf, ru, a, ia, dv, dvf, rv, b, jb, u, v, x, y, p, dup),
    ensures
        ({
            let vv = b.take(jb) + a.skip(ia);
            let k = vv.len() as int;
            &&& pf[dv] == dvf
            &&& nf[dvf] == dv
            &&& nf[dv] == (if k == 0 { dvf as usize } else { vv[0] })
            &&& pf[dvf] == (if k == 0 { dv as usize } else { vv[k - 1] })
        }),
{
    let la = a.len() as int;
    let lb = b.len() as int;
    let b1 = b.take(jb);
    let a2 = a.skip(ia);
    let vv = b1 + a2;
    let k = vv.len() as int;
    assert(k == jb + la - ia);
    if ia > 0 {
        assert(a[ia - 1] <= nc);
    }
    if ia < la {
        assert(a[ia] <= nc);
    }
    if jb > 0 {
        assert(b[jb - 1] <= nc);
    }
    if jb < lb {
        assert(b[jb] <= nc);
        assert(b[lb - 1] <= nc);
    }
    if la > 0 {
        assert(a[la - 1] <= nc);
    }
    assert(pf[dv] == dvf) by {
        assert(p0[dv] == dvf);
    }
    assert(nf[dvf] == dv) by {
        assert(n0[dvf] == dv);
        if jb > 0 {
            assert(v != dvf);
        }
    }
    assert(nf[dv] == (if k == 0 {
        dvf as usize
    } else {
        vv[0]
    })) by {
        if jb > 0 {
            assert(vv[0] == b[0]);
            assert(n0[dv] == b[0]);
        } else if ia < la {
            assert(vv[0] == a[ia]);
        }
    }
    assert(pf[dvf] == (if k == 0 {
        dv as usize
    } else {
        vv[k - 1]
    })) by {
        if ia < la {
            assert(vv[k - 1] == a[la - 1]);
        } else if jb > 0 {
            assert(vv[k - 1] == b[jb - 1]);
        }
    }
}

/// Route V after the exchange: the labels of its clients.
proof fn lemma_exchanged_v_labels(
    n0: Seq<usize>,
    p0: Seq<usize>,
    r0: Seq<usize>,
    nf: Seq<usize>,
    pf: Seq<usize>,
    rf: Seq<usize>,
    nc: int,
    du: int,
    duf: int,
    ru: usize,
    a: Seq<usize>,
    ia: int,
    dv: int,
    dvf: int,
    rv: usize,
    b: Seq<usize>,
    jb: int,
    u: int,
    v: int,
    x: int,
    y: int,
    p: int,
    dup: int,
)
    requires
        exchange_setting(n0, p0, r0, nf, pf, rf, nc, du, duf, ru, a, ia, dv, dvf, rv, b, jb, u, v, x, y, p, dup),
    ensures
        forall|i: int| 0 <= i < (b.take(jb) + a.skip(ia)).len() ==> #[trigger] rf[(b.take(jb) + a.skip(ia))[i] as int] == rv,
{
    let la = a.len() as int;
    let lb = b.len() as int;
    let b1 = b.take(jb);
    let a2 = a.skip(ia);
    let vv = b1 + a2;
    let k = vv.len() as int;
    assert(k == jb + la - ia);
    if ia > 0 {
        assert(a[ia - 1] <= nc);
    }
    if ia < la {
        assert(a[ia] <= nc);
    }
    if jb > 0 {
        assert(b[jb - 1] <= nc);
    }
    if jb < lb {
        assert(b[jb] <= nc);
        assert(b[lb - 1] <= nc);
    }
    if la > 0 {
        assert(a[la - 1] <= nc);
    }
    assert forall|i: int| 0 <= i < k implies #[trigger] rf[vv[i] as int] == rv by {
        if i < jb {
            assert(vv[i] == b[i]);
            assert(r0[b[i] as int] == rv);
            assert(b[i] <= nc);
            assert(!b.skip(jb).contains(b[i])) by {
                if b.skip(jb).contains(b[i]) {
                    let m = choose|m: int| 0 <= m < lb - jb && b.skip(jb)[m] == b[i];
                    assert(b[jb + m] == b[i]);
                }
            }
            assert(!a.skip(ia).contains(b[i])) by {
                if a.skip(ia).contains(b[i]) {
                    let m = choose|m: int| 0 <= m < la - ia && a.skip(ia)[m] == b[i];
                    assert(a[ia + m] == b[i]);
                }
            }
        } else {
            let m = ia + i - jb;
            assert(vv[i] == a[m]);
            assert(a[m] <= nc);
            assert(a.skip(ia)[i - jb] == a[m]);
        }
    }
}

/// Route V after the exchange: the successors of its clients.
proof fn lemma_exchanged_v_next(
    n0: Seq<usize>,
    p0: Seq<usize>,
    r0: Seq<usize>,
    nf: Seq<usize>,
    pf: Seq<usize>,
    rf: Seq<usize>,
    nc: int,
    du: int,
    duf: int,
    ru: usize,
    a: Seq<usize>,
    ia: int,
    dv: int,
    dvf: int,
    rv: usize,
    b: Seq<usize>,
    jb: int,
    u: int,
    v: int,
    x: int,
    y: int,
    p: int,
    dup: int,
)
    requires
        exchange_setting(n0, p0, r0, nf, pf, rf, nc, du, duf, ru, a, ia, dv, dvf, rv, b, jb, u, v, x, y, p, dup),
    ensures
        forall|i: int|
            0 <= i < (b.take(jb) + a.skip(ia)).len() ==> #[trigger] nf[(b.take(jb) + a.skip(ia))[i] as int] == (if i == (b.take(jb) + a.skip(ia)).len() - 1 {
                dvf as usize
            } else {
                (b.take(jb) + a.skip(ia))[i + 1]
            }),
{
    let la = a.len() as int;
    let lb = b.len() as int;
    let b1 = b.take(jb);
    let a2 = a.skip(ia);
    let vv = b1 + a2;
    let k = vv.len() as int;
    assert(k == jb + la - ia);
    if ia > 0 {
        assert(a[ia - 1] <= nc);
    }
    if ia < la {
        assert(a[ia] <= nc);
    }
    if jb > 0 {
        assert(b[jb - 1] <= nc);
    }
    if jb < lb {
        assert(b[jb] <= nc);
        assert(b[lb - 1] <= nc);
    }
    if la > 0 {
        assert(a[la - 1] <= nc);
    }
    assert forall|i: int| 0 <= i < k implies #[trigger] nf[vv[i] as int] == (if i == k - 1 {
        dvf as usize
    } else {
        vv[i + 1]
    }) by {
        if i < jb {
            assert(vv[i] == b[i]);
            assert(b[i] <= nc);
            if ia > 0 {
                assert(b[i] != a[ia - 1]);
            }
            if la > 0 {
                assert(b[i] != a[la - 1]);
            }
            if i < jb - 1 {
                assert(vv[i + 1] == b[i + 1]);
                assert(n0[b[i] as int] == b[i + 1]);
                assert(b[i] != b[jb - 1]);
                if jb < lb {
                    assert(b[i] != b[lb - 1]);
                }
            } else {
                if ia < la {
                    assert(vv[i + 1] == a[ia]);
                }
                if jb < lb {
                    assert(b[i] != b[lb - 1]);
                }
            }
        } else {
            let m = ia + i - jb;
            assert(vv[i] == a[m]);
            assert(a[m] <= nc);
            if ia > 0 {
                assert(a[m] != a[ia - 1]);
            }
            if jb > 0 {
                assert(a[m] != b[jb - 1]);
            }
            if jb < lb {
                assert(a[m] != b[lb - 1]);
            }
            if m < la - 1 {
                assert(vv[i + 1] == a[m + 1]);
                assert(n0[a[m] as int] == a[m + 1]);
                assert(a[m] != a[la - 1]);
            }
        }
    }
}

/// Route V after the exchange: the predecessors of its clients.
proof fn lemma_exchanged_v_prev(
    n0: Seq<usize>,
    p0: Seq<usize>,
    r0: Seq<usize>,
    nf: Seq<usize>,
    pf: Seq<usize>,
    rf: Seq<usize>,
    nc: int,
    du: int,
    duf: int,
    ru: usize,
    a: Seq<usize>,
    ia: int,
    dv: int,
    dvf: int,
    rv: usize,
    b: Seq<usize>,
    jb: int,
    u: int,
    v: int,
    x: int,
    y: int,
    p: int,
    dup: int,
)
    requires
        exchange_setting(n0, p0, r0, nf, pf, rf, nc, du, duf, ru, a, ia, dv, dvf, rv, b, jb, u, v, x, y, p, dup),
    ensures
        forall|i: int|
            0 <= i < (b.take(jb) + a.skip(ia)).len() ==> #[trigger] pf[(b.take(jb) + a.skip(ia))[i] as int] == (if i == 0 {
                dv as usize
            } else {
                (b.take(jb) + a.skip(ia))[i - 1]
            }),
{
    let la = a.len() as int;
    let lb = b.len() as int;
    let b1 = b.take(jb);
    let a2 = a.skip(ia);
    let vv = b1 + a2;
    let k = vv.len() as int;
    assert(k == jb + la - ia);
    if ia > 0 {
        assert(a[ia - 1] <= nc);
    }
    if ia < la {
        assert(a[ia] <= nc);
    }
    if jb > 0 {
        assert(b[jb - 1] <= nc);
    }
    if jb < lb {
        assert(b[jb] <= nc);
        assert(b[lb - 1] <= nc);
    }
    if la > 0 {
        assert(a[la - 1] <= nc);
    }
    assert forall|i: int| 0 <= i < k implies #[trigger] pf[vv[i] as int] == (if i == 0 {
        dv as usize
    } else {
        vv[i - 1]
    }) by {
        if i < jb {
            assert(vv[i] == b[i]);
            assert(b[i] <= nc);
            if i > 0 {
                assert(vv[i - 1] == b[i - 1]);
            }
            assert(p0[b[i] as int] == (if i == 0 { dv as usize } else { b[i - 1] }));
            if jb < lb {
                assert(b[i] != b[jb]);
            }
            if ia < la {
                assert(b[i] != a[ia]);
            }
        } else {
            let m = ia + i - jb;
            assert(vv[i] == a[m]);
            assert(a[m] <= nc);
            if jb < lb {
                assert(a[m] != b[jb]);
            }
            if m > ia {
                assert(vv[i - 1] == a[m - 1]);
                assert(p0[a[m] as int] == a[m - 1]);
                assert(a[m] != a[ia]);
            } else if i > 0 {
                assert(vv[i - 1] == b[jb - 1]);
            }
        }
    }
}

/// The two routes after the exchange hold distinct clients.
proof fn lemma_exchanged_shape(
    n0: Seq<usize>,
    p0: Seq<usize>,
    r0: Seq<usize>,
    nf: Seq<usize>,
    pf: Seq<usize>,
    rf: Seq<usize>,
    nc: int,
    du: int,
    duf: int,
    ru: usize,
    a: Seq<usize>,
    ia: int,
    dv: int,
    dvf: int,
    rv: usize,
    b: Seq<usize>,
    jb: int,
    u: int,
    v: int,
    x: int,
    y: int,
    p: int,
    dup: int,
)
    requires
        exchange_setting(n0, p0, r0, nf, pf, rf, nc, du, duf, ru, a, ia, dv, dvf, rv, b, jb, u, v, x, y, p, dup),
    ensures
        (a.take(ia) + b.skip(jb)).no_duplicates(),
        (b.take(jb) + a.skip(ia)).no_duplicates(),
        forall|k: int| 0 <= k < (a.take(ia) + b.skip(jb)).len() ==> #[trigger] (a.take(ia) + b.skip(jb))[k] <= nc,
        forall|k: int| 0 <= k < (b.take(jb) + a.skip(ia)).len() ==> #[trigger] (b.take(jb) + a.skip(ia))[k] <= nc,
        forall|k1: int, k2: int|
            0 <= k1 < (a.take(ia) + b.skip(jb)).len() && 0 <= k2 < (b.take(jb) + a.skip(ia)).len() ==> #[trigger] (a.take(ia) + b.skip(jb))[k1]
                != #[trigger] (b.take(jb) + a.skip(ia))[k2],
{
    let la = a.len() as int;
    let lb = b.len() as int;
    let uu = a.take(ia) + b.skip(jb);
    let vv = b.take(jb) + a.skip(ia);
    // Position of each client of the new routes in the old ones
    assert forall|k: int| 0 <= k < uu.len() implies #[trigger] uu[k] == (if k < ia {
        a[k]
    } else {
        b[jb + k - ia]
    }) by {}
    assert forall|k: int| 0 <= k < vv.len() implies #[trigger] vv[k] == (if k < jb {
        b[k]
    } else {
        a[ia + k - jb]
    }) by {}
    assert forall|k1: int, k2: int| 0 <= k1 < uu.len() && 0 <= k2 < uu.len() && k1 != k2 implies uu[k1] != uu[k2] by {
        if k1 < ia && k2 >= ia {
            assert(a[k1] != b[jb + k2 - ia]);
        } else if k2 < ia && k1 >= ia {
            assert(a[k2] != b[jb + k1 - ia]);
        }
    }
    assert forall|k1: int, k2: int| 0 <= k1 < vv.len() && 0 <= k2 < vv.len() && k1 != k2 implies vv[k1] != vv[k2] by {
        if k1 < jb && k2 >= jb {
            assert(a[ia + k2 - jb] != b[k1]);
        } else if k2 < jb && k1 >= jb {
            assert(a[ia + k1 - jb] != b[k2]);
        }
    }
    assert forall|k: int| 0 <= k < uu.len() implies #[trigger] uu[k] <= nc by {
        if k < ia {
            assert(a[k] <= nc);
        } else {
            assert(b[jb + k - ia] <= nc);
        }
    }
    assert forall|k: int| 0 <= k < vv.len() implies #[trigger] vv[k] <= nc by {
        if k < jb {
            assert(b[k] <= nc);
        } else {
            assert(a[ia + k - jb] <= nc);
        }
    }
    assert forall|k1: int, k2: int| 0 <= k1 < uu.len() && 0 <= k2 < vv.len() implies #[trigger] uu[k1] != #[trigger] vv[k2] by {
        if k1 < ia && k2 < jb {
            assert(a[k1] != b[k2]);
        } else if k1 >= ia && k2 >= jb {
            assert(a[ia + k2 - jb] != b[jb + k1 - ia]);
        }
    }
}

/// After the exchange, the nodes outside the two routes keep their links and labels.
proof fn lemma_exchanged_frame(
    n0: Seq<usize>,
    p0: Seq<usize>,
    r0: Seq<usize>,
    nf: Seq<usize>,
    pf: Seq<usize>,
    rf: Seq<usize>,
    nc: int,
    du: int,
    duf: int,
    ru: usize,
    a: Seq<usize>,
    ia: int,
    dv: int,
    dvf: int,
    rv: usize,
    b: Seq<usize>,
    jb: int,
    u: int,
    v: int,
    x: int,
    y: int,
    p: int,
    dup: int,
)
    requires
        exchange_setting(n0, p0, r0, nf, pf, rf, nc, du, duf, ru, a, ia, dv, dvf, rv, b, jb, u, v, x, y, p, dup),
    ensures
        forall|z: int|
            0 <= z < n0.len() && !a.contains(z as usize) && !b.contains(z as usize) && z != du && z
                != dv && z != duf && z != dvf ==> #[trigger] nf[z] == n0[z],
        forall|z: int|
            0 <= z < n0.len() && !a.contains(z as usize) && !b.contains(z as usize) && z != du && z
                != dv && z != duf && z != dvf ==> #[trigger] pf[z] == p0[z],
        forall|z: int|
            0 <= z < n0.len() && !a.contains(z as usize) && !b.contains(z as usize) ==> #[trigger] rf[z]
                == r0[z],
{
    let la = a.len() as int;
    let lb = b.len() as int;
    if ia > 0 {
        assert(a.contains(a[ia - 1]));
    }
    if ia < la {
        assert(a.contains(a[ia]));
    }
    if jb > 0 {
        assert(b.contains(b[jb - 1]));
    }
    if jb < lb {
        assert(b.contains(b[jb]));
        assert(b.contains(b[lb - 1]));
    }
    if la > 0 {
        assert(a.contains(a[la - 1]));
    }
    assert forall|z: int| 0 <= z < n0.len() && !a.contains(z as usize) && !b.contains(z as usize) implies #[trigger] rf[z] == r0[z] by {
        if b.skip(jb).contains(z as usize) {
            let m = choose|m: int| 0 <= m < lb - jb && b.skip(jb)[m] == z as usize;
            assert(b[jb + m] == z as usize);
        }
        if a.skip(ia).contains(z as usize) {
            let m = choose|m: int| 0 <= m < la - ia && a.skip(ia)[m] == z as usize;
            assert(a[ia + m] == z as usize);
        }
    }
}

/// The exchange of the tails, from the values that the rewiring reads.
proof fn lemma_exchanged(
    n0: Seq<usize>,
    p0: Seq<usize>,
    r0: Seq<usize>,
    nf: Seq<usize>,
    pf: Seq<usize>,
    rf: Seq<usize>,
    nc: int,
    du: int,
    duf: int,
    ru: usize,
    a: Seq<usize>,
    ia: int,
    dv: int,
    dvf: int,
    rv: usize,
    b: Seq<usize>,
    jb: int,
    u: int,
    v: int,
    x: int,
    y: int,
    p: int,
    dup: int,
)
    requires
        exchange_setting(n0, p0, r0, nf, pf, rf, nc, du, duf, ru, a, ia, dv, dvf, rv, b, jb, u, v, x, y, p, dup),
    ensures
        tails_exchanged(n0, p0, r0, nf, pf, rf, nc, du, ru, a, ia, dv, rv, b, jb),
{
    lemma_exchanged_u_ends(n0, p0, r0, nf, pf, rf, nc, du, duf, ru, a, ia, dv, dvf, rv, b, jb, u, v, x, y, p, dup);
    lemma_exchanged_u_labels(n0, p0, r0, nf, pf, rf, nc, du, duf, ru, a, ia, dv, dvf, rv, b, jb, u, v, x, y, p, dup);
    lemma_exchanged_u_next(n0, p0, r0, nf, pf, rf, nc, du, duf, ru, a, ia, dv, dvf, rv, b, jb, u, v, x, y, p, dup);
    lemma_exchanged_u_prev(n0, p0, r0, nf, pf, rf, nc, du, duf, ru, a, ia, dv, dvf, rv, b, jb, u, v, x, y, p, dup);
    lemma_exchanged_v_ends(n0, p0, r0, nf, pf, rf, nc, du, duf, ru, a, ia, dv, dvf, rv, b, jb, u, v, x, y, p, dup);
    lemma_exchanged_v_labels(n0, p0, r0, nf, pf, rf, nc, du, duf, ru, a, ia, dv, dvf, rv, b, jb, u, v, x, y, p, dup);
    lemma_exchanged_v_next(n0, p0, r0, nf, pf, rf, nc, du, duf, ru, a, ia, dv, dvf, rv, b, jb, u, v, x, y, p, dup);
    lemma_exchanged_v_prev(n0, p0, r0, nf, pf, rf, nc, du, duf, ru, a, ia, dv, dvf, rv, b, jb, u, v, x, y, p, dup);
    lemma_exchanged_shape(n0, p0, r0, nf, pf, rf, nc, du, duf, ru, a, ia, dv, dvf, rv, b, jb, u, v, x, y, p, dup);
    lemma_exchanged_frame(n0, p0, r0, nf, pf, rf, nc, du, duf, ru, a, ia, dv, dvf, rv, b, jb, u, v, x, y, p, dup);
}

impl NodeLinks {
    /// 2-opt* rewiring: with U in route `route_u` (start depot `depot_u`) and V in
    /// route `route_v` (start depot `depot_v`), replaces (U, X) and (V, Y), X and Y
    /// their successors, by (U, Y) and (V, X); each route keeps its end depot. Nodes
    /// above `nb_clients` are depots.
    pub fn exchange_tails(
        &mut self,
        u: usize,
        v: usize,
        depot_u: usize,
        depot_v: usize,
        route_u: usize,
        route_v: usize,
        nb_clients: usize,
    )
        requires
            old(self).well_sized(),
            exists|a: Seq<usize>, ia: int, b: Seq<usize>, jb: int|
                cut_routes(
                    old(self).next@,
                    old(self).prev@,
                    old(self).route@,
                    nb_clients as int,
                    depot_u as int,
                    route_u,
                    a,
                    ia,
                    depot_v as int,
                    route_v,
                    b,
                    jb,
                    u as int,
                    v as int,
                ),
        ensures
            final(self).well_sized(),
            forall|a: Seq<usize>, ia: int, b: Seq<usize>, jb: int|
                #[trigger] cut_routes(
                    old(self).next@,
                    old(self).prev@,
                    old(self).route@,
                    nb_clients as int,
                    depot_u as int,
                    route_u,
                    a,
                    ia,
                    depot_v as int,
                    route_v,
                    b,
                    jb,
                    u as int,
                    v as int,
                ) ==> tails_exchanged(
                    old(self).next@,
                    old(self).prev@,
                    old(self).route@,
                    final(self).next@,
                    final(self).prev@,
                    final(self).route@,
                    nb_clients as int,
                    depot_u as int,
                    route_u,
                    a,
                    ia,
                    depot_v as int,
                    route_v,
                    b,
                    jb,
                ),
    {
        let ghost n0: Seq<usize> = self.next@;
        let ghost p0: Seq<usize> = self.prev@;
        let ghost r0: Seq<usize> = self.route@;
        let nb_nodes: usize = self.route.len();
        let ghost nc: int = nb_clients as int;
        let ghost (a, ia, b, jb) = choose|a: Seq<usize>, ia: int, b: Seq<usize>, jb: int|
            cut_routes(n0, p0, r0, nc, depot_u as int, route_u, a, ia, depot_v as int, route_v, b, jb, u as int, v as int);
        let ghost duf: int = p0[depot_u as int] as int;
        let ghost dvf: int = p0[depot_v as int] as int;
        proof {
            if ia > 0 {
                assert(a[ia - 1] <= nc);
            }
            if jb > 0 {
                assert(b[jb - 1] <= nc);
            }
            if ia < a.len() {
                assert(n0[u as int] == a[ia]);
            } else {
                assert(n0[u as int] == duf);
            }
            if jb < b.len() {
                assert(n0[v as int] == b[jb]);
            } else {
                assert(n0[v as int] == dvf);
            }
            if a.len() > 0 {
                assert(p0[duf] == a[a.len() - 1]);
            } else {
                assert(p0[duf] == depot_u);
            }
        }
        let x: usize = self.next[u];
        let y: usize = self.next[v];
        let depot_u_fin: usize = self.prev[depot_u];
        let depot_v_fin: usize = self.prev[depot_v];
        let depot_u_pred: usize = self.prev[depot_u_fin];

        // The clients of the tail of route V move to route U
        let mut count: usize = y;
        let ghost mut k: int = 0;
        while count <= nb_clients
            invariant
                self.well_sized(),
                self.next@ == n0,
                self.prev@ == p0,
                0 <= jb <= jb + k <= b.len(),
                cut_routes(n0, p0, r0, nc, depot_u as int, route_u, a, ia, depot_v as int, route_v, b, jb, u as int, v as int),
                nc == nb_clients,
                r0.len() == nb_nodes,
                dvf == p0[depot_v as int],
                count == (if jb + k < b.len() {
                    b[jb + k] as int
                } else {
                    dvf
                }),
                self.route@ == relabel(r0, b.subrange(jb, jb + k), route_u),
            decreases b.len() - jb - k,
        {
            proof {
                if jb + k >= b.len() {
                    assert(false);
                }
                assert(b[jb + k] <= nc);
                if jb + k + 1 < b.len() {
                    assert(n0[b[jb + k] as int] == b[jb + k + 1]);
                } else {
                    assert(n0[b[jb + k] as int] == dvf);
                }
            }
            let ghost before: Seq<usize> = self.route@;
            self.route.set(count, route_u);
            proof {
                let s1 = b.subrange(jb, jb + k + 1);
                let s0 = b.subrange(jb, jb + k);
                let c = b[jb + k];
                assert(self.route@ == before.update(c as int, route_u));
                assert(s1[k] == c);
                assert forall|t: int| 0 <= t < r0.len() implies #[trigger] self.route@[t]
                    == relabel(r0, s1, route_u)[t] by {
                    let tu = t as usize;
                    assert(tu as int == t);
                    if t == c as int {
                        assert(s1.contains(tu));
                    } else {
                        assert(self.route@[t] == before[t]);
                        if s1.contains(tu) {
                            let m = choose|m: int| 0 <= m < s1.len() && s1[m] == tu;
                            assert(m != k);
                            assert(s0[m] == tu);
                            assert(s0.contains(tu));
                        } else {
                            if s0.contains(tu) {
                                let m = choose|m: int| 0 <= m < s0.len() && s0[m] == tu;
                                assert(s1[m] == tu);
                            }
                        }
                    }
                }
                assert(self.route@ =~= relabel(r0, s1, route_u));
                k = k + 1;
            }
            count = self.next[count];
        }
        proof {
            if jb + k < b.len() {
                assert(b[jb + k] <= nc);
            }
        }
        let ghost r_mid: Seq<usize> = self.route@;

        // The clients of the tail of route U move to route V
        count = x;
        let ghost mut k2: int = 0;
        while count <= nb_clients
            invariant
                self.well_sized(),
                self.next@ == n0,
                self.prev@ == p0,
                0 <= ia <= ia + k2 <= a.len(),
                cut_routes(n0, p0, r0, nc, depot_u as int, route_u, a, ia, depot_v as int, route_v, b, jb, u as int, v as int),
                nc == nb_clients,
                r0.len() == nb_nodes,
                duf == p0[depot_u as int],
                count == (if ia + k2 < a.len() {
                    a[ia + k2] as int
                } else {
                    duf
                }),
                r_mid.len() == r0.len(),
                self.route@ == relabel(r_mid, a.subrange(ia, ia + k2), route_v),
            decreases a.len() - ia - k2,
        {
            proof {
                if ia + k2 >= a.len() {
                    assert(false);
                }
                assert(a[ia + k2] <= nc);
                if ia + k2 + 1 < a.len() {
                    assert(n0[a[ia + k2] as int] == a[ia + k2 + 1]);
                } else {
                    assert(n0[a[ia + k2] as int] == duf);
                }
            }
            let ghost before: Seq<usize> = self.route@;
            self.route.set(count, route_v);
            proof {
                let s1 = a.subrange(ia, ia + k2 + 1);
                let s0 = a.subrange(ia, ia + k2);
                let c = a[ia + k2];
                assert(self.route@ == before.update(c as int, route_v));
                assert(s1[k2] == c);
                assert forall|t: int| 0 <= t < r0.len() implies #[trigger] self.route@[t]
                    == relabel(r_mid, s1, route_v)[t] by {
                    let tu = t as usize;
                    assert(tu as int == t);
                    if t == c as int {
                        assert(s1.contains(tu));
                    } else {
                        assert(self.route@[t] == before[t]);
                        if s1.contains(tu) {
                            let m = choose|m: int| 0 <= m < s1.len() && s1[m] == tu;
                            assert(m != k2);
                            assert(s0[m] == tu);
                            assert(s0.contains(tu));
                        } else {
                            if s0.contains(tu) {
                                let m = choose|m: int| 0 <= m < s0.len() && s0[m] == tu;
                                assert(s1[m] == tu);
                            }
                        }
                    }
                }
                assert(self.route@ =~= relabel(r_mid, s1, route_v));
                k2 = k2 + 1;
            }
            count = self.next[count];
        }
        proof {
            if ia + k2 < a.len() {
                assert(a[ia + k2] <= nc);
            }
        }

        self.next.set(u, y);
        self.prev.set(y, u);
        self.next.set(v, x);
        self.prev.set(x, v);
        let p: usize = self.prev[depot_v_fin];
        self.prev.set(depot_u_fin, p);
        self.next.set(p, depot_u_fin);
        if x > nb_clients {
            self.next.set(v, depot_v_fin);
            self.prev.set(depot_v_fin, v);
        } else {
            self.prev.set(depot_v_fin, depot_u_pred);
            self.next.set(depot_u_pred, depot_v_fin);
        }
        proof {
            let la = a.len() as int;
            let lb = b.len() as int;
            assert(b.subrange(jb, jb + k) =~= b.skip(jb));
            assert(a.subrange(ia, ia + k2) =~= a.skip(ia));
            lemma_exchanged(
                n0, p0, r0, self.next@, self.prev@, self.route@, nc, depot_u as int, duf, route_u,
                a, ia, depot_v as int, dvf, route_v, b, jb, u as int, v as int, x as int, y as int,
                p as int, depot_u_pred as int,
            );
            assert forall|a2: Seq<usize>, ia2: int, b2: Seq<usize>, jb2: int|
                #[trigger] cut_routes(n0, p0, r0, nc, depot_u as int, route_u, a2, ia2, depot_v as int, route_v, b2, jb2, u as int, v as int)
                implies tails_exchanged(n0, p0, r0, self.next@, self.prev@, self.route@, nc, depot_u as int, route_u, a2, ia2, depot_v as int, route_v, b2, jb2) by {
                lemma_route_unique(n0, p0, r0, r0, depot_u as int, duf, route_u, route_u, a, a2, nc);
                lemma_route_unique(n0, p0, r0, r0, depot_v as int, dvf, route_v, route_v, b, b2, nc);
                if ia != ia2 {
                    if ia > 0 && ia2 > 0 {
                        assert(a[ia - 1] == a[ia2 - 1]);
                    } else if ia > 0 {
                        assert(a[ia - 1] <= nc);
                    } else {
                        assert(a[ia2 - 1] <= nc);
                    }
                }
                if jb != jb2 {
                    if jb > 0 && jb2 > 0 {
                        assert(b[jb - 1] == b[jb2 - 1]);
                    } else if jb > 0 {
                        assert(b[jb - 1] <= nc);
                    } else {
                        assert(b[jb2 - 1] <= nc);
                    }
                }
            }
        }
    }
}

/// Exchanging the tails twice at the same cut gives the two routes back: the second
/// exchange, after U and V again (the routes keep their first `ia` and `jb`
/// clients), restores both routes with their links and labels.
pub proof fn lemma_exchange_tails_twice(
    n0: Seq<usize>,
    p0: Seq<usize>,
    r0: Seq<usize>,
    n1: Seq<usize>,
    p1: Seq<usize>,
    r1: Seq<usize>,
    n2: Seq<usize>,
    p2: Seq<usize>,
    r2: Seq<usize>,
    nc: int,
    du: int,
    ru: usize,
    a: Seq<usize>,
    ia: int,
    dv: int,
    rv: usize,
    b: Seq<usize>,
    jb: int,
)
    requires
        0 <= du < p0.len(),
        0 <= dv < p0.len(),
        0 <= ia <= a.len(),
        0 <= jb <= b.len(),
        tails_exchanged(n0, p0, r0, n1, p1, r1, nc, du, ru, a, ia, dv, rv, b, jb),
        tails_exchanged(
            n1,
            p1,
            r1,
            n2,
            p2,
            r2,
            nc,
            du,
            ru,
            a.take(ia) + b.skip(jb),
            ia,
            dv,
            rv,
            b.take(jb) + a.skip(ia),
            jb,
        ),
    ensures
        two_routes(n2, p2, r2, nc, du, p0[du] as int, ru, a, dv, p0[dv] as int, rv, b),
{
    let a1 = a.take(ia) + b.skip(jb);
    let b1 = b.take(jb) + a.skip(ia);
    assert(p1[du] == p0[du]);
    assert(p1[dv] == p0[dv]);
    assert(a1.take(ia) + b1.skip(jb) =~= a);
    assert(b1.take(jb) + a1.skip(ia) =~= b);
}

} // verus!
