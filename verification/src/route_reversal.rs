//! The rewiring of the 2-opt* move that joins each route's head with the other
//! route's head reversed, and each route's tail reversed with the other's tail.
use vstd::prelude::*;
use crate::local_search::{NodeLinks, route_loaded};
use crate::route_moves::{two_routes, cut_node, cut_routes, relabel, lemma_route_unique};

verus! {

/// The links after the successor and the predecessor of every node of `s` are
/// exchanged.
pub open spec fn flipped(next: Seq<usize>, prev: Seq<usize>, s: Seq<usize>) -> (Seq<usize>, Seq<usize>) {
    (
        Seq::new(next.len(), |z: int| if s.contains(z as usize) { prev[z] } else { next[z] }),
        Seq::new(prev.len(), |z: int| if s.contains(z as usize) { next[z] } else { prev[z] }),
    )
}

/// After the reversed exchange: the first route keeps its `ia` first clients and
/// continues with the `jb` first clients of the second route in reverse order; the
/// second route starts with the remaining clients of the first route in reverse
/// order and continues with its own clients after its `jb` first ones. Every other
/// node keeps its links, and every node outside the two routes its label.
pub open spec fn reversed_tails_exchanged(
    n0: Seq<usize>,
    p0: Seq<usize>,
    r0: Seq<usize>,
    n1: Seq<usize>,
    p1: Seq<usize>,
    r1: Seq<usize>,
    nb_clients: int,
    du: int,
    ru: usize,
    a: Seq<usize>,
    ia: int,
    dv: int,
    rv: usize,
    b: Seq<usize>,
    jb: int,
) -> bool {
    &&& two_routes(
        n1,
        p1,
        r1,
        nb_clients,
        du,
        p0[du] as int,
        ru,
        a.take(ia) + b.take(jb).reverse(),
        dv,
        p0[dv] as int,
        rv,
        a.skip(ia).reverse() + b.skip(jb),
    )
    &&& n1.len() == n0.len()
    &&& forall|x: int|
        0 <= x < n0.len() && !a.contains(x as usize) && !b.contains(x as usize) && x != du && x
            != dv && x != p0[du] && x != p0[dv] ==> #[trigger] n1[x] == n0[x]
    &&& forall|x: int|
        0 <= x < n0.len() && !a.contains(x as usize) && !b.contains(x as usize) && x != du && x
            != dv && x != p0[du] && x != p0[dv] ==> #[trigger] p1[x] == p0[x]
    &&& forall|x: int|
        0 <= x < n0.len() && !a.contains(x as usize) && !b.contains(x as usize) ==> #[trigger] r1[x]
            == r0[x]
}

/// The clients whose links the reversal flips: the tail of the first route and the
/// head of the second.
pub open spec fn moved(a: Seq<usize>, ia: int, b: Seq<usize>, jb: int, z: usize) -> bool {
    a.skip(ia).contains(z) || b.take(jb).contains(z)
}

/// Which clients of the two routes are flipped.
proof fn lemma_moved_clients(a: Seq<usize>, ia: int, b: Seq<usize>, jb: int, nc: int)
    requires
        a.no_duplicates(),
        b.no_duplicates(),
        forall|k: int| 0 <= k < a.len() ==> #[trigger] a[k] <= nc,
        forall|k: int| 0 <= k < b.len() ==> #[trigger] b[k] <= nc,
        forall|k1: int, k2: int| 0 <= k1 < a.len() && 0 <= k2 < b.len() ==> #[trigger] a[k1] != #[trigger] b[k2],
        0 <= ia <= a.len(),
        0 <= jb <= b.len(),
    ensures
        forall|m: int| 0 <= m < a.len() ==> (moved(a, ia, b, jb, #[trigger] a[m]) <==> m >= ia),
        forall|m: int| 0 <= m < b.len() ==> (moved(a, ia, b, jb, #[trigger] b[m]) <==> m < jb),
        forall|z: usize| moved(a, ia, b, jb, z) ==> z <= nc,
{
    assert forall|m: int| 0 <= m < a.len() implies (moved(a, ia, b, jb, #[trigger] a[m]) <==> m >= ia) by {
        if m >= ia {
            assert(a.skip(ia)[m - ia] == a[m]);
        }
        if a.skip(ia).contains(a[m]) {
            let t = choose|t: int| 0 <= t < a.len() - ia && a.skip(ia)[t] == a[m];
            assert(a[ia + t] == a[m]);
        }
        if b.take(jb).contains(a[m]) {
            let t = choose|t: int| 0 <= t < jb && b.take(jb)[t] == a[m];
            assert(b[t] == a[m]);
        }
    }
    assert forall|m: int| 0 <= m < b.len() implies (moved(a, ia, b, jb, #[trigger] b[m]) <==> m < jb) by {
        if m < jb {
            assert(b.take(jb)[m] == b[m]);
        }
        if a.skip(ia).contains(b[m]) {
            let t = choose|t: int| 0 <= t < a.len() - ia && a.skip(ia)[t] == b[m];
            assert(a[ia + t] == b[m]);
        }
        if b.take(jb).contains(b[m]) {
            let t = choose|t: int| 0 <= t < jb && b.take(jb)[t] == b[m];
            assert(b[t] == b[m]);
        }
    }
    assert forall|z: usize| moved(a, ia, b, jb, z) implies z <= nc by {
        if a.skip(ia).contains(z) {
            let t = choose|t: int| 0 <= t < a.len() - ia && a.skip(ia)[t] == z;
            assert(a[ia + t] == z);
        } else {
            let t = choose|t: int| 0 <= t < jb && b.take(jb)[t] == z;
            assert(b[t] == z);
        }
    }
}

/// The state after the reversed exchange, from the links after the flips and the
/// values that the rewiring reads: U and V, their successors X and Y, the first
/// client of route V and the last client of route U.
pub open spec fn reversal_setting(
    n0: Seq<usize>,
    p0: Seq<usize>,
    r0: Seq<usize>,
    n2: Seq<usize>,
    p2: Seq<usize>,
    nf: Seq<usize>,
    pf: Seq<usize>,
    rf: Seq<usize>,
    nc: int,
    du: int,
    duf: int,
    ru: usize,
    a: Seq<usize>,
    ia: int,
    dv: int,
    dvf: int,
    rv: usize,
    b: Seq<usize>,
    jb: int,
    u: int,
    v: int,
    x: int,
    y: int,
    dvs: int,
    nn: int,
) -> bool {
    &&& two_routes(n0, p0, r0, nc, du, duf, ru, a, dv, dvf, rv, b)
    &&& 0 <= ia <= a.len()
    &&& 0 <= jb <= b.len()
    &&& !(ia == a.len() && jb == 0)
    &&& u == cut_node(du, a, ia)
    &&& v == cut_node(dv, b, jb)
    &&& x == (if ia < a.len() {
        a[ia] as int
    } else {
        duf
    })
    &&& y == (if jb < b.len() {
        b[jb] as int
    } else {
        dvf
    })
    &&& dvs == (if b.len() > 0 {
        b[0] as int
    } else {
        dvf
    })
    &&& nn == (if a.len() > 0 {
        a[a.len() - 1] as int
    } else {
        du
    })
    &&& n2.len() == n0.len()
    &&& p2.len() == n0.len()
    &&& forall|z: int|
        0 <= z < n0.len() ==> #[trigger] n2[z] == (if moved(a, ia, b, jb, z as usize) {
            p0[z]
        } else {
            n0[z]
        })
    &&& forall|z: int|
        0 <= z < n0.len() ==> #[trigger] p2[z] == (if moved(a, ia, b, jb, z as usize) {
            n0[z]
        } else {
            p0[z]
        })
    &&& ({
        let n3 = n2.update(u, v as usize).update(x, y as usize);
        let p3 = p2.update(v, u as usize).update(y, x as usize);
        if ia == a.len() {
            &&& nf == n3.update(duf, du as usize).update(dvs, duf as usize).update(dv, y as usize)
            &&& pf == p3.update(duf, dvs as usize).update(y, dv as usize)
        } else if jb == 0 {
            &&& nf == n3.update(dv, nn as usize).update(u, duf as usize)
            &&& pf == p3.update(nn, dv as usize).update(dv, dvf as usize).update(duf, u as usize)
        } else {
            &&& nf == n3.update(dv, nn as usize).update(dvs, duf as usize)
            &&& pf == p3.update(nn, dv as usize).update(duf, dvs as usize)
        }
    })
    &&& rf == relabel(relabel(r0, a.skip(ia), rv), b.take(jb), ru)
}

/// Route U after the reversed exchange: its depots and its first and last nodes.
proof fn lemma_reversed_u_ends(
    n0: Seq<usize>,
    p0: Seq<usize>,
    r0: Seq<usize>,
    n2: Seq<usize>,
    p2: Seq<usize>,
    nf: Seq<usize>,
    pf: Seq<usize>,
    rf: Seq<usize>,
    nc: int,
    du: int,
    duf: int,
    ru: usize,
    a: Seq<usize>,
    ia: int,
    dv: int,
    dvf: int,
    rv: usize,
    b: Seq<usize>,
    jb: int,
    u: int,
    v: int,
    x: int,
    y: int,
    dvs: int,
    nn: int,
)
    requires
        reversal_setting(n0, p0, r0, n2, p2, nf, pf, rf, nc, du, duf, ru, a, ia, dv, dvf, rv, b, jb, u, v, x, y, dvs, nn),
    ensures
        ({
            let uu = a.take(ia) + b.take(jb).reverse();
            let k = uu.len() as int;
            &&& pf[du] == duf
            &&& nf[duf] == du
            &&& nf[du] == (if k == 0 { duf as usize } else { uu[0] })
            &&& pf[duf] == (if k == 0 { du as usize } else { uu[k - 1] })
        }),
{
    let la = a.len() as int;
    let lb = b.len() as int;
    lemma_moved_clients(a, ia, b, jb, nc);
    if ia > 0 {
        assert(a[ia - 1] <= nc);
    }
    if ia < la {
        assert(a[ia] <= nc);
    }
    if jb > 0 {
        assert(b[jb - 1] <= nc);
    }
    if jb < lb {
        assert(b[jb] <= nc);
    }
    if la > 0 {
        assert(a[la - 1] <= nc);
    }
    if lb > 0 {
        assert(b[0] <= nc);
        assert(b[lb - 1] <= nc);
    }
    let uu = a.take(ia) + b.take(jb).reverse();
    let k = uu.len() as int;
    assert(k == ia + jb);
    assert(pf[du] == duf) by {
        assert(p0[du] == duf);
        assert(!moved(a, ia, b, jb, du as usize));
    }
    assert(nf[duf] == du) by {
        assert(n0[duf] == du);
        assert(!moved(a, ia, b, jb, duf as usize));
    }
    assert(nf[du] == (if k == 0 {
        duf as usize
    } else {
        uu[0]
    })) by {
        assert(!moved(a, ia, b, jb, du as usize));
        if ia > 0 {
            assert(uu[0] == a[0]);
            assert(n0[du] == a[0]);
        } else if jb > 0 {
            assert(uu[0] == b.take(jb).reverse()[0]);
            assert(uu[0] == b[jb - 1]);
        }
    }
    assert(pf[duf] == (if k == 0 {
        du as usize
    } else {
        uu[k - 1]
    })) by {
        if jb > 0 {
            assert(uu[k - 1] == b.take(jb).reverse()[jb - 1]);
            assert(uu[k - 1] == b[0]);
        } else if ia > 0 {
            assert(uu[k - 1] == a[ia - 1]);
        }
    }
}

/// Route U after the reversed exchange: the labels of its clients.
proof fn lemma_reversed_u_labels(
    n0: Seq<usize>,
    p0: Seq<usize>,
    r0: Seq<usize>,
    n2: Seq<usize>,
    p2: Seq<usize>,
    nf: Seq<usize>,
    pf: Seq<usize>,
    rf: Seq<usize>,
    nc: int,
    du: int,
    duf: int,
    ru: usize,
    a: Seq<usize>,
    ia: int,
    dv: int,
    dvf: int,
    rv: usize,
    b: Seq<usize>,
    jb: int,
    u: int,
    v: int,
    x: int,
    y: int,
    dvs: int,
    nn: int,
)
    requires
        reversal_setting(n0, p0, r0, n2, p2, nf, pf, rf, nc, du, duf, ru, a, ia, dv, dvf, rv, b, jb, u, v, x, y, dvs, nn),
    ensures
        forall|i: int| 0 <= i < (a.take(ia) + b.take(jb).reverse()).len() ==> #[trigger] rf[(a.take(ia) + b.take(jb).reverse())[i] as int] == ru,
{
    let la = a.len() as int;
    let lb = b.len() as int;
    lemma_moved_clients(a, ia, b, jb, nc);
    if ia > 0 {
        assert(a[ia - 1] <= nc);
    }
    if ia < la {
        assert(a[ia] <= nc);
    }
    if jb > 0 {
        assert(b[jb - 1] <= nc);
    }
    if jb < lb {
        assert(b[jb] <= nc);
    }
    if la > 0 {
        assert(a[la - 1] <= nc);
    }
    if lb > 0 {
        assert(b[0] <= nc);
        assert(b[lb - 1] <= nc);
    }
    let uu = a.take(ia) + b.take(jb).reverse();
    let k = uu.len() as int;
    assert forall|i: int| 0 <= i < k implies #[trigger] rf[uu[i] as int] == ru by {
        if i < ia {
            assert(uu[i] == a[i]);
            assert(r0[a[i] as int] == ru);
            assert(!moved(a, ia, b, jb, a[i]));
        } else {
            let m = jb - 1 - (i - ia);
            assert(uu[i] == b.take(jb).reverse()[i - ia]);
            assert(uu[i] == b[m]);
            assert(b.take(jb)[m] == b[m]);
            assert(b.take(jb).contains(b[m]));
        }
    }
}

/// Route U after the reversed exchange: the successors of its clients.
proof fn lemma_reversed_u_next(
    n0: Seq<usize>,
    p0: Seq<usize>,
    r0: Seq<usize>,
    n2: Seq<usize>,
    p2: Seq<usize>,
    nf: Seq<usize>,
    pf: Seq<usize>,
    rf: Seq<usize>,
    nc: int,
    du: int,
    duf: int,
    ru: usize,
    a: Seq<usize>,
    ia: int,
    dv: int,
    dvf: int,
    rv: usize,
    b: Seq<usize>,
    jb: int,
    u: int,
    v: int,
    x: int,
    y: int,
    dvs: int,
    nn: int,
)
    requires
        reversal_setting(n0, p0, r0, n2, p2, nf, pf, rf, nc, du, duf, ru, a, ia, dv, dvf, rv, b, jb, u, v, x, y, dvs, nn),
    ensures
        forall|i: int|
            0 <= i < (a.take(ia) + b.take(jb).reverse()).len() ==> #[trigger] nf[(a.take(ia) + b.take(jb).reverse())[i] as int] == (if i == (a.take(ia) + b.take(jb).reverse()).len() - 1 {
                duf as usize
            } else {
                (a.take(ia) + b.take(jb).reverse())[i + 1]
            }),
{
    let la = a.len() as int;
    let lb = b.len() as int;
    lemma_moved_clients(a, ia, b, jb, nc);
    if ia > 0 {
        assert(a[ia - 1] <= nc);
    }
    if ia < la {
        assert(a[ia] <= nc);
    }
    if jb > 0 {
        assert(b[jb - 1] <= nc);
    }
    if jb < lb {
        assert(b[jb] <= nc);
    }
    if la > 0 {
        assert(a[la - 1] <= nc);
    }
    if lb > 0 {
        assert(b[0] <= nc);
        assert(b[lb - 1] <= nc);
    }
    let uu = a.take(ia) + b.take(jb).reverse();
    let k = uu.len() as int;
    assert forall|i: int| 0 <= i < k implies #[trigger] nf[uu[i] as int] == (if i == k - 1 {
        duf as usize
    } else {
        uu[i + 1]
    }) by {
        if i < ia {
            assert(uu[i] == a[i]);
            assert(a[i] <= nc);
            assert(!moved(a, ia, b, jb, a[i]));
            if la > 0 && ia < la {
                assert(a[i] != a[la - 1]);
            }
            if lb > 0 {
                assert(a[i] != b[0]);
            }
            if ia < la {
                assert(a[i] != a[ia]);
            }
            if i < ia - 1 {
                assert(uu[i + 1] == a[i + 1]);
                assert(n0[a[i] as int] == a[i + 1]);
            } else if jb > 0 {
                assert(uu[i + 1] == b.take(jb).reverse()[0]);
                assert(uu[i + 1] == b[jb - 1]);
            }
        } else {
            let m = jb - 1 - (i - ia);
            assert(uu[i] == b.take(jb).reverse()[i - ia]);
            assert(uu[i] == b[m]);
            assert(b[m] <= nc);
            assert(moved(a, ia, b, jb, b[m]));
            if ia > 0 {
                assert(b[m] != a[ia - 1]);
            }
            if ia < la {
                assert(b[m] != a[ia]);
            }
            if la > 0 {
                assert(b[m] != a[la - 1]);
            }
            if m > 0 {
                assert(uu[i + 1] == b.take(jb).reverse()[i + 1 - ia]);
                assert(uu[i + 1] == b[m - 1]);
                assert(p0[b[m] as int] == b[m - 1]);
                assert(b[m] != b[0]);
            }
        }
    }
}

/// Route U after the reversed exchange: the predecessors of its clients.
proof fn lemma_reversed_u_prev(
    n0: Seq<usize>,
    p0: Seq<usize>,
    r0: Seq<usize>,
    n2: Seq<usize>,
    p2: Seq<usize>,
    nf: Seq<usize>,
    pf: Seq<usize>,
    rf: Seq<usize>,
    nc: int,
    du: int,
    duf: int,
    ru: usize,
    a: Seq<usize>,
    ia: int,
    dv: int,
    dvf: int,
    rv: usize,
    b: Seq<usize>,
    jb: int,
    u: int,
    v: int,
    x: int,
    y: int,
    dvs: int,
    nn: int,
)
    requires
        reversal_setting(n0, p0, r0, n2, p2, nf, pf, rf, nc, du, duf, ru, a, ia, dv, dvf, rv, b, jb, u, v, x, y, dvs, nn),
    ensures
        forall|i: int|
            0 <= i < (a.take(ia) + b.take(jb).reverse()).len() ==> #[trigger] pf[(a.take(ia) + b.take(jb).reverse())[i] as int] == (if i == 0 {
                du as usize
            } else {
                (a.take(ia) + b.take(jb).reverse())[i - 1]
            }),
{
    let la = a.len() as int;
    let lb = b.len() as int;
    lemma_moved_clients(a, ia, b, jb, nc);
    if ia > 0 {
        assert(a[ia - 1] <= nc);
    }
    if ia < la {
        assert(a[ia] <= nc);
    }
    if jb > 0 {
        assert(b[jb - 1] <= nc);
    }
    if jb < lb {
        assert(b[jb] <= nc);
    }
    if la > 0 {
        assert(a[la - 1] <= nc);
    }
    if lb > 0 {
        assert(b[0] <= nc);
        assert(b[lb - 1] <= nc);
    }
    let uu = a.take(ia) + b.take(jb).reverse();
    let k = uu.len() as int;
    assert forall|i: int| 0 <= i < k implies #[trigger] pf[uu[i] as int] == (if i == 0 {
        du as usize
    } else {
        uu[i - 1]
    }) by {
        if i < ia {
            assert(uu[i] == a[i]);
            assert(a[i] <= nc);
            assert(!moved(a, ia, b, jb, a[i]));
            if i > 0 {
                assert(uu[i - 1] == a[i - 1]);
            }
            assert(p0[a[i] as int] == (if i == 0 { du as usize } else { a[i - 1] }));
            if jb > 0 {
                assert(a[i] != b[jb - 1]);
            }
            if jb < lb {
                assert(a[i] != b[jb]);
            }
            if la > 0 && ia < la {
                assert(a[i] != a[la - 1]);
            }
        } else {
            let m = jb - 1 - (i - ia);
            assert(uu[i] == b.take(jb).reverse()[i - ia]);
            assert(uu[i] == b[m]);
            assert(b[m] <= nc);
            assert(moved(a, ia, b, jb, b[m]));
            if jb < lb {
                assert(b[m] != b[jb]);
            }
            if la > 0 {
                assert(b[m] != a[la - 1]);
            }
            if m < jb - 1 {
                assert(uu[i - 1] == b.take(jb).reverse()[i - 1 - ia]);
                assert(uu[i - 1] == b[m + 1]);
                assert(n0[b[m] as int] == b[m + 1]);
            } else if i > 0 {
                assert(uu[i - 1] == a[ia - 1]);
            }
        }
    }
}

/// Route V after the reversed exchange: its depots and its first and last nodes.
proof fn lemma_reversed_v_ends(
    n0: Seq<usize>,
    p0: Seq<usize>,
    r0: Seq<usize>,
    n2: Seq<usize>,
    p2: Seq<usize>,
    nf: Seq<usize>,
    pf: Seq<usize>,
    rf: Seq<usize>,
    nc: int,
    du: int,
    duf: int,
    ru: usize,
    a: Seq<usize>,
    ia: int,
    dv: int,
    dvf: int,
    rv: usize,
    b: Seq<usize>,
    jb: int,
    u: int,
    v: int,
    x: int,
    y: int,
    dvs: int,
    nn: int,
)
    requires
        reversal_setting(n0, p0, r0, n2, p2, nf, pf, rf, nc, du, duf, ru, a, ia, dv, dvf, rv, b, jb, u, v, x, y, dvs, nn),
    ensures
        ({
            let vv = a.skip(ia).reverse() + b.skip(jb);
            let k = vv.len() as int;
            &&& pf[dv] == dvf
            &&& nf[dvf] == dv
            &&& nf[dv] == (if k == 0 { dvf as usize } else { vv[0] })
            &&& pf[dvf] == (if k == 0 { dv as usize } else { vv[k - 1] })
        }),
{
    let la = a.len() as int;
    let lb = b.len() as int;
    lemma_moved_clients(a, ia, b, jb, nc);
    if ia > 0 {
        assert(a[ia - 1] <= nc);
    }
    if ia < la {
        assert(a[ia] <= nc);
    }
    if jb > 0 {
        assert(b[jb - 1] <= nc);
    }
    if jb < lb {
        assert(b[jb] <= nc);
    }
    if la > 0 {
        assert(a[la - 1] <= nc);
    }
    if lb > 0 {
        assert(b[0] <= nc);
        assert(b[lb - 1] <= nc);
    }
    let vv = a.skip(ia).reverse() + b.skip(jb);
    let k = vv.len() as int;
    assert(k == la - ia + lb - jb);
    assert(pf[dv] == dvf) by {
        assert(p0[dv] == dvf);
        assert(!moved(a, ia, b, jb, dv as usize));
    }
    assert(nf[dvf] == dv) by {
        assert(n0[dvf] == dv);
        assert(!moved(a, ia, b, jb, dvf as usize));
    }
    assert(nf[dv] == (if k == 0 {
        dvf as usize
    } else {
        vv[0]
    })) by {
        if ia < la {
            assert(vv[0] == a.skip(ia).reverse()[0]);
            assert(vv[0] == a[la - 1]);
        } else if jb < lb {
            assert(vv[0] == b[jb]);
        }
    }
    assert(pf[dvf] == (if k == 0 {
        dv as usize
    } else {
        vv[k - 1]
    })) by {
        assert(!moved(a, ia, b, jb, dvf as usize));
        if jb < lb {
            assert(vv[k - 1] == b[lb - 1]);
            assert(p0[dvf] == b[lb - 1]);
        } else if ia < la {
            assert(vv[k - 1] == a.skip(ia).reverse()[la - ia - 1]);
            assert(vv[k - 1] == a[ia]);
        }
    }
}

/// Route V after the reversed exchange: the labels of its clients.
proof fn lemma_reversed_v_labels(
    n0: Seq<usize>,
    p0: Seq<usize>,
    r0: Seq<usize>,
    n2: Seq<usize>,
    p2: Seq<usize>,
    nf: Seq<usize>,
    pf: Seq<usize>,
    rf: Seq<usize>,
    nc: int,
    du: int,
    duf: int,
    ru: usize,
    a: Seq<usize>,
    ia: int,
    dv: int,
    dvf: int,
    rv: usize,
    b: Seq<usize>,
    jb: int,
    u: int,
    v: int,
    x: int,
    y: int,
    dvs: int,
    nn: int,
)
    requires
        reversal_setting(n0, p0, r0, n2, p2, nf, pf, rf, nc, du, duf, ru, a, ia, dv, dvf, rv, b, jb, u, v, x, y, dvs, nn),
    ensures
        forall|i: int| 0 <= i < (a.skip(ia).reverse() + b.skip(jb)).len() ==> #[trigger] rf[(a.skip(ia).reverse() + b.skip(jb))[i] as int] == rv,
{
    let la = a.len() as int;
    let lb = b.len() as int;
    lemma_moved_clients(a, ia, b, jb, nc);
    if ia > 0 {
        assert(a[ia - 1] <= nc);
    }
    if ia < la {
        assert(a[ia] <= nc);
    }
    if jb > 0 {
        assert(b[jb - 1] <= nc);
    }
    if jb < lb {
        assert(b[jb] <= nc);
    }
    if la > 0 {
        assert(a[la - 1] <= nc);
    }
    if lb > 0 {
        assert(b[0] <= nc);
        assert(b[lb - 1] <= nc);
    }
    let vv = a.skip(ia).reverse() + b.skip(jb);
    let k = vv.len() as int;
    assert forall|i: int| 0 <= i < k implies #[trigger] rf[vv[i] as int] == rv by {
        if i < la - ia {
            let m = la - 1 - i;
            assert(vv[i] == a.skip(ia).reverse()[i]);
            assert(vv[i] == a[m]);
            assert(a.skip(ia)[m - ia] == a[m]);
            assert(a.skip(ia).contains(a[m]));
            assert(!b.take(jb).contains(a[m])) by {
                if b.take(jb).contains(a[m]) {
                    let t = choose|t: int| 0 <= t < jb && b.take(jb)[t] == a[m];
                    assert(b[t] == a[m]);
                }
            }
        } else {
            let j = jb + i - (la - ia);
            assert(vv[i] == b[j]);
            assert(r0[b[j] as int] == rv);
            assert(!moved(a, ia, b, jb, b[j]));
        }
    }
}

/// Route V after the reversed exchange: the successors of its clients.
proof fn lemma_reversed_v_next(
    n0: Seq<usize>,
    p0: Seq<usize>,
    r0: Seq<usize>,
    n2: Seq<usize>,
    p2: Seq<usize>,
    nf: Seq<usize>,
    pf: Seq<usize>,
    rf: Seq<usize>,
    nc: int,
    du: int,
    duf: int,
    ru: usize,
    a: Seq<usize>,
    ia: int,
    dv: int,
    dvf: int,
    rv: usize,
    b: Seq<usize>,
    jb: int,
    u: int,
    v: int,
    x: int,
    y: int,
    dvs: int,
    nn: int,
)
    requires
        reversal_setting(n0, p0, r0, n2, p2, nf, pf, rf, nc, du, duf, ru, a, ia, dv, dvf, rv, b, jb, u, v, x, y, dvs, nn),
    ensures
        forall|i: int|
            0 <= i < (a.skip(ia).reverse() + b.skip(jb)).len() ==> #[trigger] nf[(a.skip(ia).reverse() + b.skip(jb))[i] as int] == (if i == (a.skip(ia).reverse() + b.skip(jb)).len() - 1 {
                dvf as usize
            } else {
                (a.skip(ia).reverse() + b.skip(jb))[i + 1]
            }),
{
    let la = a.len() as int;
    let lb = b.len() as int;
    lemma_moved_clients(a, ia, b, jb, nc);
    if ia > 0 {
        assert(a[ia - 1] <= nc);
    }
    if ia < la {
        assert(a[ia] <= nc);
    }
    if jb > 0 {
        assert(b[jb - 1] <= nc);
    }
    if jb < lb {
        assert(b[jb] <= nc);
    }
    if la > 0 {
        assert(a[la - 1] <= nc);
    }
    if lb > 0 {
        assert(b[0] <= nc);
        assert(b[lb - 1] <= nc);
    }
    let vv = a.skip(ia).reverse() + b.skip(jb);
    let k = vv.len() as int;
    assert forall|i: int| 0 <= i < k implies #[trigger] nf[vv[i] as int] == (if i == k - 1 {
        dvf as usize
    } else {
        vv[i + 1]
    }) by {
        if i < la - ia {
            let m = la - 1 - i;
            assert(vv[i] == a.skip(ia).reverse()[i]);
            assert(vv[i] == a[m]);
            assert(a[m] <= nc);
            assert(moved(a, ia, b, jb, a[m]));
            if ia > 0 {
                assert(a[m] != a[ia - 1]);
            }
            if jb > 0 {
                assert(a[m] != b[jb - 1]);
            }
            if lb > 0 {
                assert(a[m] != b[0]);
            }
            if m > ia {
                assert(vv[i + 1] == a.skip(ia).reverse()[i + 1]);
                assert(vv[i + 1] == a[m - 1]);
                assert(p0[a[m] as int] == a[m - 1]);
                assert(a[m] != a[ia]);
            } else if jb < lb {
                assert(vv[i + 1] == b[jb]);
            }
        } else {
            let j = jb + i - (la - ia);
            assert(vv[i] == b[j]);
            assert(b[j] <= nc);
            assert(!moved(a, ia, b, jb, b[j]));
            if ia > 0 {
                assert(b[j] != a[ia - 1]);
            }
            if ia < la {
                assert(b[j] != a[ia]);
            }
            if jb > 0 {
                assert(b[j] != b[jb - 1]);
                assert(b[j] != b[0]);
            }
            if j < lb - 1 {
                assert(vv[i + 1] == b[j + 1]);
                assert(n0[b[j] as int] == b[j + 1]);
            }
        }
    }
}

/// Route V after the reversed exchange: the predecessors of its clients.
proof fn lemma_reversed_v_prev(
    n0: Seq<usize>,
    p0: Seq<usize>,
    r0: Seq<usize>,
    n2: Seq<usize>,
    p2: Seq<usize>,
    nf: Seq<usize>,
    pf: Seq<usize>,
    rf: Seq<usize>,
    nc: int,
    du: int,
    duf: int,
    ru: usize,
    a: Seq<usize>,
    ia: int,
    dv: int,
    dvf: int,
    rv: usize,
    b: Seq<usize>,
    jb: int,
    u: int,
    v: int,
    x: int,
    y: int,
    dvs: int,
    nn: int,
)
    requires
        reversal_setting(n0, p0, r0, n2, p2, nf, pf, rf, nc, du, duf, ru, a, ia, dv, dvf, rv, b, jb, u, v, x, y, dvs, nn),
    ensures
        forall|i: int|
            0 <= i < (a.skip(ia).reverse() + b.skip(jb)).len() ==> #[trigger] pf[(a.skip(ia).reverse() + b.skip(jb))[i] as int] == (if i == 0 {
                dv as usize
            } else {
                (a.skip(ia).reverse() + b.skip(jb))[i - 1]
            }),
{
    let la = a.len() as int;
    let lb = b.len() as int;
    lemma_moved_clients(a, ia, b, jb, nc);
    if ia > 0 {
        assert(a[ia - 1] <= nc);
    }
    if ia < la {
        assert(a[ia] <= nc);
    }
    if jb > 0 {
        assert(b[jb - 1] <= nc);
    }
    if jb < lb {
        assert(b[jb] <= nc);
    }
    if la > 0 {
        assert(a[la - 1] <= nc);
    }
    if lb > 0 {
        assert(b[0] <= nc);
        assert(b[lb - 1] <= nc);
    }
    let vv = a.skip(ia).reverse() + b.skip(jb);
    let k = vv.len() as int;
    assert forall|i: int| 0 <= i < k implies #[trigger] pf[vv[i] as int] == (if i == 0 {
        dv as usize
    } else {
        vv[i - 1]
    }) by {
        if i < la - ia {
            let m = la - 1 - i;
            assert(vv[i] == a.skip(ia).reverse()[i]);
            assert(vv[i] == a[m]);
            assert(a[m] <= nc);
            assert(moved(a, ia, b, jb, a[m]));
            if jb > 0 {
                assert(a[m] != b[jb - 1]);
            }
            if jb < lb {
                assert(a[m] != b[jb]);
            }
            if i > 0 {
                assert(vv[i - 1] == a.skip(ia).reverse()[i - 1]);
                assert(vv[i - 1] == a[m + 1]);
                assert(n0[a[m] as int] == a[m + 1]);
                assert(a[m] != a[la - 1]);
            }
        } else {
            let j = jb + i - (la - ia);
            assert(vv[i] == b[j]);
            assert(b[j] <= nc);
            assert(!moved(a, ia, b, jb, b[j]));
            if la > 0 {
                assert(b[j] != a[la - 1]);
            }
            if jb > 0 {
                assert(b[j] != b[jb - 1]);
            }
            if j > jb {
                assert(vv[i - 1] == b[j - 1]);
                assert(p0[b[j] as int] == b[j - 1]);
                assert(b[j] != b[jb]);
            } else if i > 0 {
                assert(vv[i - 1] == a.skip(ia).reverse()[i - 1]);
                assert(vv[i - 1] == a[ia]);
            }
        }
    }
}

/// The two routes after the reversed exchange hold distinct clients.
proof fn lemma_reversed_shape(
    n0: Seq<usize>,
    p0: Seq<usize>,
    r0: Seq<usize>,
    n2: Seq<usize>,
    p2: Seq<usize>,
    nf: Seq<usize>,
    pf: Seq<usize>,
    rf: Seq<usize>,
    nc: int,
    du: int,
    duf: int,
    ru: usize,
    a: Seq<usize>,
    ia: int,
    dv: int,
    dvf: int,
    rv: usize,
    b: Seq<usize>,
    jb: int,
    u: int,
    v: int,
    x: int,
    y: int,
    dvs: int,
    nn: int,
)
    requires
        reversal_setting(n0, p0, r0, n2, p2, nf, pf, rf, nc, du, duf, ru, a, ia, dv, dvf, rv, b, jb, u, v, x, y, dvs, nn),
    ensures
        (a.take(ia) + b.take(jb).reverse()).no_duplicates(),
        (a.skip(ia).reverse() + b.skip(jb)).no_duplicates(),
        forall|k: int| 0 <= k < (a.take(ia) + b.take(jb).reverse()).len() ==> #[trigger] (a.take(ia) + b.take(jb).reverse())[k] <= nc,
        forall|k: int| 0 <= k < (a.skip(ia).reverse() + b.skip(jb)).len() ==> #[trigger] (a.skip(ia).reverse() + b.skip(jb))[k] <= nc,
        forall|k1: int, k2: int|
            0 <= k1 < (a.take(ia) + b.take(jb).reverse()).len() && 0 <= k2 < (a.skip(ia).reverse() + b.skip(jb)).len() ==> #[trigger] (a.take(ia) + b.take(jb).reverse())[k1]
                != #[trigger] (a.skip(ia).reverse() + b.skip(jb))[k2],
{
    let la = a.len() as int;
    let lb = b.len() as int;
    lemma_moved_clients(a, ia, b, jb, nc);
    if ia > 0 {
        assert(a[ia - 1] <= nc);
    }
    if ia < la {
        assert(a[ia] <= nc);
    }
    if jb > 0 {
        assert(b[jb - 1] <= nc);
    }
    if jb < lb {
        assert(b[jb] <= nc);
    }
    if la > 0 {
        assert(a[la - 1] <= nc);
    }
    if lb > 0 {
        assert(b[0] <= nc);
        assert(b[lb - 1] <= nc);
    }
    let uu = a.take(ia) + b.take(jb).reverse();
    let vv = a.skip(ia).reverse() + b.skip(jb);
    assert forall|k: int| 0 <= k < uu.len() implies #[trigger] uu[k] == (if k < ia {
        a[k]
    } else {
        b[jb - 1 - (k - ia)]
    }) by {
        if k >= ia {
            assert(uu[k] == b.take(jb).reverse()[k - ia]);
        }
    }
    assert forall|k: int| 0 <= k < vv.len() implies #[trigger] vv[k] == (if k < la - ia {
        a[la - 1 - k]
    } else {
        b[jb + k - (la - ia)]
    }) by {
        if k < la - ia {
            assert(vv[k] == a.skip(ia).reverse()[k]);
        }
    }
    assert forall|k1: int, k2: int| 0 <= k1 < uu.len() && 0 <= k2 < uu.len() && k1 != k2 implies uu[k1] != uu[k2] by {
        if k1 < ia && k2 >= ia {
            assert(a[k1] != b[jb - 1 - (k2 - ia)]);
        } else if k2 < ia && k1 >= ia {
            assert(a[k2] != b[jb - 1 - (k1 - ia)]);
        }
    }
    assert forall|k1: int, k2: int| 0 <= k1 < vv.len() && 0 <= k2 < vv.len() && k1 != k2 implies vv[k1] != vv[k2] by {
        if k1 < la - ia && k2 >= la - ia {
            assert(a[la - 1 - k1] != b[jb + k2 - (la - ia)]);
        } else if k2 < la - ia && k1 >= la - ia {
            assert(a[la - 1 - k2] != b[jb + k1 - (la - ia)]);
        }
    }
    assert forall|k: int| 0 <= k < uu.len() implies #[trigger] uu[k] <= nc by {
        if k < ia {
            assert(a[k] <= nc);
        } else {
            assert(b[jb - 1 - (k - ia)] <= nc);
        }
    }
    assert forall|k: int| 0 <= k < vv.len() implies #[trigger] vv[k] <= nc by {
        if k < la - ia {
            assert(a[la - 1 - k] <= nc);
        } else {
            assert(b[jb + k - (la - ia)] <= nc);
        }
    }
    assert forall|k1: int, k2: int| 0 <= k1 < uu.len() && 0 <= k2 < vv.len() implies #[trigger] uu[k1] != #[trigger] vv[k2] by {
        if k1 < ia && k2 < la - ia {
            assert(a[k1] != a[la - 1 - k2]);
        } else if k1 < ia {
            assert(a[k1] != b[jb + k2 - (la - ia)]);
        } else if k2 < la - ia {
            assert(a[la - 1 - k2] != b[jb - 1 - (k1 - ia)]);
        } else {
            assert(b[jb - 1 - (k1 - ia)] != b[jb + k2 - (la - ia)]);
        }
    }
}

/// After the reversed exchange, the nodes outside the two routes keep their links
/// and labels.
proof fn lemma_reversed_frame(
    n0: Seq<usize>,
    p0: Seq<usize>,
    r0: Seq<usize>,
    n2: Seq<usize>,
    p2: Seq<usize>,
    nf: Seq<usize>,
    pf: Seq<usize>,
    rf: Seq<usize>,
    nc: int,
    du: int,
    duf: int,
    ru: usize,
    a: Seq<usize>,
    ia: int,
    dv: int,
    dvf: int,
    rv: usize,
    b: Seq<usize>,
    jb: int,
    u: int,
    v: int,
    x: int,
    y: int,
    dvs: int,
    nn: int,
)
    requires
        reversal_setting(n0, p0, r0, n2, p2, nf, pf, rf, nc, du, duf, ru, a, ia, dv, dvf, rv, b, jb, u, v, x, y, dvs, nn),
    ensures
        forall|z: int|
            0 <= z < n0.len() && !a.contains(z as usize) && !b.contains(z as usize) && z != du && z
                != dv && z != duf && z != dvf ==> #[trigger] nf[z] == n0[z],
        forall|z: int|
            0 <= z < n0.len() && !a.contains(z as usize) && !b.contains(z as usize) && z != du && z
                != dv && z != duf && z != dvf ==> #[trigger] pf[z] == p0[z],
        forall|z: int|
            0 <= z < n0.len() && !a.contains(z as usize) && !b.contains(z as usize) ==> #[trigger] rf[z]
                == r0[z],
{
    let la = a.len() as int;
    let lb = b.len() as int;
    lemma_moved_clients(a, ia, b, jb, nc);
    if ia > 0 {
        assert(a[ia - 1] <= nc);
    }
    if ia < la {
        assert(a[ia] <= nc);
    }
    if jb > 0 {
        assert(b[jb - 1] <= nc);
    }
    if jb < lb {
        assert(b[jb] <= nc);
    }
    if la > 0 {
        assert(a[la - 1] <= nc);
    }
    if lb > 0 {
        assert(b[0] <= nc);
        assert(b[lb - 1] <= nc);
    }
    if ia > 0 {
        assert(a.contains(a[ia - 1]));
    }
    if ia < la {
        assert(a.contains(a[ia]));
    }
    if jb > 0 {
        assert(b.contains(b[jb - 1]));
    }
    if jb < lb {
        assert(b.contains(b[jb]));
    }
    if la > 0 {
        assert(a.contains(a[la - 1]));
    }
    if lb > 0 {
        assert(b.contains(b[0]));
    }
    assert forall|z: int| 0 <= z < n0.len() && !a.contains(z as usize) && !b.contains(z as usize) implies !#[trigger] moved(a, ia, b, jb, z as usize) by {
        if a.skip(ia).contains(z as usize) {
            let t = choose|t: int| 0 <= t < la - ia && a.skip(ia)[t] == z as usize;
            assert(a[ia + t] == z as usize);
        }
        if b.take(jb).contains(z as usize) {
            let t = choose|t: int| 0 <= t < jb && b.take(jb)[t] == z as usize;
            assert(b[t] == z as usize);
        }
    }
}

/// The reversed exchange of the tails, from the links after the flips and the values
/// that the rewiring reads.
proof fn lemma_reversed(
    n0: Seq<usize>,
    p0: Seq<usize>,
    r0: Seq<usize>,
    n2: Seq<usize>,
    p2: Seq<usize>,
    nf: Seq<usize>,
    pf: Seq<usize>,
    rf: Seq<usize>,
    nc: int,
    du: int,
    duf: int,
    ru: usize,
    a: Seq<usize>,
    ia: int,
    dv: int,
    dvf: int,
    rv: usize,
    b: Seq<usize>,
    jb: int,
    u: int,
    v: int,
    x: int,
    y: int,
    dvs: int,
    nn: int,
)
    requires
        reversal_setting(n0, p0, r0, n2, p2, nf, pf, rf, nc, du, duf, ru, a, ia, dv, dvf, rv, b, jb, u, v, x, y, dvs, nn),
    ensures
        reversed_tails_exchanged(n0, p0, r0, nf, pf, rf, nc, du, ru, a, ia, dv, rv, b, jb),
{
    lemma_reversed_u_ends(n0, p0, r0, n2, p2, nf, pf, rf, nc, du, duf, ru, a, ia, dv, dvf, rv, b, jb, u, v, x, y, dvs, nn);
    lemma_reversed_u_labels(n0, p0, r0, n2, p2, nf, pf, rf, nc, du, duf, ru, a, ia, dv, dvf, rv, b, jb, u, v, x, y, dvs, nn);
    lemma_reversed_u_next(n0, p0, r0, n2, p2, nf, pf, rf, nc, du, duf, ru, a, ia, dv, dvf, rv, b, jb, u, v, x, y, dvs, nn);
    lemma_reversed_u_prev(n0, p0, r0, n2, p2, nf, pf, rf, nc, du, duf, ru, a, ia, dv, dvf, rv, b, jb, u, v, x, y, dvs, nn);
    lemma_reversed_v_ends(n0, p0, r0, n2, p2, nf, pf, rf, nc, du, duf, ru, a, ia, dv, dvf, rv, b, jb, u, v, x, y, dvs, nn);
    lemma_reversed_v_labels(n0, p0, r0, n2, p2, nf, pf, rf, nc, du, duf, ru, a, ia, dv, dvf, rv, b, jb, u, v, x, y, dvs, nn);
    lemma_reversed_v_next(n0, p0, r0, n2, p2, nf, pf, rf, nc, du, duf, ru, a, ia, dv, dvf, rv, b, jb, u, v, x, y, dvs, nn);
    lemma_reversed_v_prev(n0, p0, r0, n2, p2, nf, pf, rf, nc, du, duf, ru, a, ia, dv, dvf, rv, b, jb, u, v, x, y, dvs, nn);
    lemma_reversed_shape(n0, p0, r0, n2, p2, nf, pf, rf, nc, du, duf, ru, a, ia, dv, dvf, rv, b, jb, u, v, x, y, dvs, nn);
    lemma_reversed_frame(n0, p0, r0, n2, p2, nf, pf, rf, nc, du, duf, ru, a, ia, dv, dvf, rv, b, jb, u, v, x, y, dvs, nn);
}

/// Flipping the links of one more node.
pub proof fn lemma_flip_step(n: Seq<usize>, p: Seq<usize>, s0: Seq<usize>, s1: Seq<usize>, c: usize)
    requires
        n.len() == p.len() <= usize::MAX,
        c < n.len(),
        !s0.contains(c),
        forall|z: usize| #[trigger] s1.contains(z) <==> (s0.contains(z) || z == c),
    ensures
        flipped(n, p, s1).0 == flipped(n, p, s0).0.update(c as int, p[c as int]),
        flipped(n, p, s1).1 == flipped(n, p, s0).1.update(c as int, n[c as int]),
{
    let f0 = flipped(n, p, s0);
    let f1 = flipped(n, p, s1);
    assert forall|z: int| 0 <= z < n.len() implies #[trigger] f1.0[z] == f0.0.update(c as int, p[c as int])[z] by {
        assert(z as usize as int == z);
        assert(s1.contains(z as usize) == (s0.contains(z as usize) || z as usize == c));
    }
    assert forall|z: int| 0 <= z < n.len() implies #[trigger] f1.1[z] == f0.1.update(c as int, n[c as int])[z] by {
        assert(z as usize as int == z);
        assert(s1.contains(z as usize) == (s0.contains(z as usize) || z as usize == c));
    }
    assert(f1.0 =~= f0.0.update(c as int, p[c as int]));
    assert(f1.1 =~= f0.1.update(c as int, n[c as int]));
}

/// Relabelling one more node.
proof fn lemma_relabel_step(r: Seq<usize>, s0: Seq<usize>, s1: Seq<usize>, c: usize, l: usize)
    requires
        c < r.len(),
        r.len() <= usize::MAX,
        forall|z: usize| #[trigger] s1.contains(z) <==> (s0.contains(z) || z == c),
    ensures
        relabel(r, s1, l) == relabel(r, s0, l).update(c as int, l),
{
    assert forall|z: int| 0 <= z < r.len() implies #[trigger] relabel(r, s1, l)[z] == relabel(r, s0, l).update(c as int, l)[z] by {
        assert(z as usize as int == z);
        assert(s1.contains(z as usize) == (s0.contains(z as usize) || z as usize == c));
    }
    assert(relabel(r, s1, l) =~= relabel(r, s0, l).update(c as int, l));
}

/// A longer stretch of a sequence holds what a shorter one holds and one more element.
pub proof fn lemma_subrange_grow(s: Seq<usize>, lo: int, hi: int, lo2: int, hi2: int, c: usize)
    requires
        0 <= lo2 <= lo <= hi <= hi2 <= s.len(),
        (lo2 == lo - 1 && hi2 == hi && c == s[lo2]) || (lo2 == lo && hi2 == hi + 1 && c == s[hi]),
    ensures
        forall|z: usize| #[trigger] s.subrange(lo2, hi2).contains(z) <==> (s.subrange(lo, hi).contains(z) || z == c),
{
    assert forall|z: usize| #[trigger] s.subrange(lo2, hi2).contains(z) <==> (s.subrange(lo, hi).contains(z) || z == c) by {
        if s.subrange(lo2, hi2).contains(z) {
            let t = choose|t: int| 0 <= t < hi2 - lo2 && s.subrange(lo2, hi2)[t] == z;
            if lo2 + t >= lo && lo2 + t < hi {
                assert(s.subrange(lo, hi)[lo2 + t - lo] == z);
            }
        }
        if s.subrange(lo, hi).contains(z) {
            let t = choose|t: int| 0 <= t < hi - lo && s.subrange(lo, hi)[t] == z;
            assert(s.subrange(lo2, hi2)[lo + t - lo2] == z);
        }
        if z == c {
            if lo2 == lo - 1 {
                assert(s.subrange(lo2, hi2)[0] == z);
            } else {
                assert(s.subrange(lo2, hi2)[hi - lo2] == z);
            }
        }
    }
}

impl NodeLinks {
    /// 2-opt* rewiring with reversal: with U in route `route_u` (start depot
    /// `depot_u`) and V in route `route_v` (start depot `depot_v`), replaces (U, X)
    /// and (V, Y), X and Y their successors, by (U, V) and (X, Y): route U continues
    /// from U with the head of route V walked backwards, and route V starts with the
    /// tail of route U walked backwards, then continues with Y. Each route keeps its
    /// depots. Nodes above `nb_clients` are depots; X and V are not both depots.
    pub fn exchange_reversed_tails(
        &mut self,
        u: usize,
        v: usize,
        depot_u: usize,
        depot_v: usize,
        route_u: usize,
        route_v: usize,
        nb_clients: usize,
    )
        requires
            old(self).well_sized(),
            exists|a: Seq<usize>, ia: int, b: Seq<usize>, jb: int|
                cut_routes(
                    old(self).next@,
                    old(self).prev@,
                    old(self).route@,
                    nb_clients as int,
                    depot_u as int,
                    route_u,
                    a,
                    ia,
                    depot_v as int,
                    route_v,
                    b,
                    jb,
                    u as int,
                    v as int,
                ) && !(ia == a.len() && jb == 0),
        ensures
            final(self).well_sized(),
            forall|a: Seq<usize>, ia: int, b: Seq<usize>, jb: int|
                #[trigger] cut_routes(
                    old(self).next@,
                    old(self).prev@,
                    old(self).route@,
                    nb_clients as int,
                    depot_u as int,
                    route_u,
                    a,
                    ia,
                    depot_v as int,
                    route_v,
                    b,
                    jb,
                    u as int,
                    v as int,
                ) && !(ia == a.len() && jb == 0) ==> reversed_tails_exchanged(
                    old(self).next@,
                    old(self).prev@,
                    old(self).route@,
                    final(self).next@,
                    final(self).prev@,
                    final(self).route@,
                    nb_clients as int,
                    depot_u as int,
                    route_u,
                    a,
                    ia,
                    depot_v as int,
                    route_v,
                    b,
                    jb,
                ),
    {
        let ghost n0: Seq<usize> = self.next@;
        let ghost p0: Seq<usize> = self.prev@;
        let ghost r0: Seq<usize> = self.route@;
        let ghost nc: int = nb_clients as int;
        let nb_nodes: usize = self.route.len();
        let ghost (a, ia, b, jb) = choose|a: Seq<usize>, ia: int, b: Seq<usize>, jb: int|
            cut_routes(n0, p0, r0, nc, depot_u as int, route_u, a, ia, depot_v as int, route_v, b, jb, u as int, v as int) && !(ia == a.len() && jb == 0);
        let ghost duf: int = p0[depot_u as int] as int;
        let ghost dvf: int = p0[depot_v as int] as int;
        let ghost la: int = a.len() as int;
        let ghost lb: int = b.len() as int;
        proof {
            lemma_moved_clients(a, ia, b, jb, nc);
            if ia > 0 {
                assert(a[ia - 1] <= nc);
            }
            if jb > 0 {
                assert(b[jb - 1] <= nc);
            }
            if ia < la {
                assert(n0[u as int] == a[ia]);
                assert(a[ia] <= nc);
            } else {
                assert(n0[u as int] == duf);
            }
            if jb < lb {
                assert(n0[v as int] == b[jb]);
                assert(b[jb] <= nc);
            } else {
                assert(n0[v as int] == dvf);
            }
            if la > 0 {
                assert(p0[duf] == a[la - 1]);
                assert(a[la - 1] <= nc);
            } else {
                assert(p0[duf] == depot_u);
            }
            if lb > 0 {
                assert(n0[depot_v as int] == b[0]);
                assert(b[0] <= nc);
            } else {
                assert(n0[depot_v as int] == dvf);
            }
        }
        let x: usize = self.next[u];
        let y: usize = self.next[v];
        let depot_u_fin: usize = self.prev[depot_u];
        let depot_v_fin: usize = self.prev[depot_v];
        let depot_v_suiv: usize = self.next[depot_v];

        // Walk the tail of route U forwards, flipping its links; it moves to route V
        let mut xx: usize = x;
        let ghost mut k: int = 0;
        while xx <= nb_clients
            invariant
                self.well_sized(),
                self.route@.len() == nb_nodes,
                r0.len() == nb_nodes,
                n0.len() == nb_nodes,
                p0.len() == nb_nodes,
                cut_routes(n0, p0, r0, nc, depot_u as int, route_u, a, ia, depot_v as int, route_v, b, jb, u as int, v as int),
                nc == nb_clients,
                la == a.len(),
                duf == p0[depot_u as int],
                0 <= ia <= ia + k <= la,
                xx == (if ia + k < la {
                    a[ia + k] as int
                } else {
                    duf
                }),
                self.next@ == flipped(n0, p0, a.subrange(ia, ia + k)).0,
                self.prev@ == flipped(n0, p0, a.subrange(ia, ia + k)).1,
                self.route@ == relabel(r0, a.subrange(ia, ia + k), route_v),
            decreases la - ia - k,
        {
            proof {
                if ia + k >= la {
                    assert(a[la - 1] <= nc);
                    assert(false);
                }
                let c = a[ia + k];
                assert(c <= nc);
                let s0 = a.subrange(ia, ia + k);
                assert(!s0.contains(c)) by {
                    if s0.contains(c) {
                        let t = choose|t: int| 0 <= t < s0.len() && #[trigger] s0[t] == c;
                        assert(a[ia + t] == c);
                    }
                }
                if ia + k + 1 < la {
                    assert(n0[c as int] == a[ia + k + 1]);
                    assert(a[ia + k + 1] <= nc);
                } else {
                    assert(n0[c as int] == duf);
                }
                lemma_subrange_grow(a, ia, ia + k, ia, ia + k + 1, c);
                lemma_flip_step(n0, p0, a.subrange(ia, ia + k), a.subrange(ia, ia + k + 1), c);
                lemma_relabel_step(r0, a.subrange(ia, ia + k), a.subrange(ia, ia + k + 1), c, route_v);
            }
            let temp: usize = self.next[xx];
            let pv: usize = self.prev[xx];
            self.next.set(xx, pv);
            self.prev.set(xx, temp);
            self.route.set(xx, route_v);
            xx = temp;
            proof {
                k = k + 1;
            }
        }
        proof {
            if ia + k < la {
                assert(a[ia + k] <= nc);
            }
            assert(a.subrange(ia, ia + k) =~= a.skip(ia));
        }
        let ghost n1: Seq<usize> = self.next@;
        let ghost p1: Seq<usize> = self.prev@;
        let ghost r1: Seq<usize> = self.route@;

        // Walk the head of route V backwards from V, flipping its links; it moves to
        // route U
        let mut vv: usize = v;
        let ghost mut k2: int = 0;
        while vv <= nb_clients
            invariant
                self.well_sized(),
                self.route@.len() == nb_nodes,
                r0.len() == nb_nodes,
                n0.len() == nb_nodes,
                p0.len() == nb_nodes,
                n1.len() == nb_nodes,
                p1.len() == nb_nodes,
                r1.len() == nb_nodes,
                cut_routes(n0, p0, r0, nc, depot_u as int, route_u, a, ia, depot_v as int, route_v, b, jb, u as int, v as int),
                nc == nb_clients,
                lb == b.len(),
                la == a.len(),
                0 <= k2 <= jb <= lb,
                n1 == flipped(n0, p0, a.skip(ia)).0,
                p1 == flipped(n0, p0, a.skip(ia)).1,
                forall|m: int| 0 <= m < a.len() ==> (moved(a, ia, b, jb, #[trigger] a[m]) <==> m >= ia),
                forall|m: int| 0 <= m < b.len() ==> (moved(a, ia, b, jb, #[trigger] b[m]) <==> m < jb),
                vv == (if k2 < jb {
                    b[jb - 1 - k2] as int
                } else {
                    depot_v as int
                }),
                self.next@ == flipped(n1, p1, b.subrange(jb - k2, jb)).0,
                self.prev@ == flipped(n1, p1, b.subrange(jb - k2, jb)).1,
                self.route@ == relabel(r1, b.subrange(jb - k2, jb), route_u),
            decreases jb - k2,
        {
            proof {
                if k2 >= jb {
                    assert(false);
                }
                let c = b[jb - 1 - k2];
                assert(c <= nc);
                let s0 = b.subrange(jb - k2, jb);
                assert(!s0.contains(c)) by {
                    if s0.contains(c) {
                        let t = choose|t: int| 0 <= t < s0.len() && #[trigger] s0[t] == c;
                        assert(b[jb - k2 + t] == c);
                    }
                }
                assert(!moved(a, ia, b, jb, c) || !a.skip(ia).contains(c)) by {
                    if a.skip(ia).contains(c) {
                        let t = choose|t: int| 0 <= t < la - ia && a.skip(ia)[t] == c;
                        assert(a[ia + t] == c);
                    }
                }
                assert(!a.skip(ia).contains(c)) by {
                    if a.skip(ia).contains(c) {
                        let t = choose|t: int| 0 <= t < la - ia && a.skip(ia)[t] == c;
                        assert(a[ia + t] == c);
                    }
                }
                assert(p1[c as int] == p0[c as int]);
                if jb - 1 - k2 > 0 {
                    assert(p0[c as int] == b[jb - 2 - k2]);
                    assert(b[jb - 2 - k2] <= nc);
                } else {
                    assert(p0[c as int] == depot_v);
                }
                lemma_subrange_grow(b, jb - k2, jb, jb - k2 - 1, jb, c);
                lemma_flip_step(n1, p1, b.subrange(jb - k2, jb), b.subrange(jb - k2 - 1, jb), c);
                lemma_relabel_step(r1, b.subrange(jb - k2, jb), b.subrange(jb - k2 - 1, jb), c, route_u);
            }
            let temp: usize = self.prev[vv];
            let nx: usize = self.next[vv];
            self.prev.set(vv, nx);
            self.next.set(vv, temp);
            self.route.set(vv, route_u);
            vv = temp;
            proof {
                k2 = k2 + 1;
            }
        }
        proof {
            assert(b.subrange(jb - k2, jb) =~= b.take(jb));
        }
        let ghost n2: Seq<usize> = self.next@;
        let ghost p2: Seq<usize> = self.prev@;

        self.next.set(u, v);
        self.prev.set(v, u);
        self.next.set(x, y);
        self.prev.set(y, x);
        if x > nb_clients {
            self.next.set(depot_u_fin, depot_u);
            self.prev.set(depot_u_fin, depot_v_suiv);
            self.next.set(depot_v_suiv, depot_u_fin);
            self.next.set(depot_v, y);
            self.prev.set(y, depot_v);
        } else if v > nb_clients {
            let nn: usize = self.prev[depot_u_fin];
            self.next.set(depot_v, nn);
            self.prev.set(nn, depot_v);
            self.prev.set(depot_v, depot_v_fin);
            self.prev.set(depot_u_fin, u);
            self.next.set(u, depot_u_fin);
        } else {
            let nn: usize = self.prev[depot_u_fin];
            self.next.set(depot_v, nn);
            self.prev.set(nn, depot_v);
            self.prev.set(depot_u_fin, depot_v_suiv);
            self.next.set(depot_v_suiv, depot_u_fin);
        }
        proof {
            assert forall|z: int| 0 <= z < n0.len() implies #[trigger] n2[z] == (if moved(a, ia, b, jb, z as usize) {
                p0[z]
            } else {
                n0[z]
            }) by {
                assert(z as usize as int == z);
            }
            assert forall|z: int| 0 <= z < n0.len() implies #[trigger] p2[z] == (if moved(a, ia, b, jb, z as usize) {
                n0[z]
            } else {
                p0[z]
            }) by {
                assert(z as usize as int == z);
            }
            lemma_reversed(
                n0, p0, r0, n2, p2, self.next@, self.prev@, self.route@, nc, depot_u as int, duf,
                route_u, a, ia, depot_v as int, dvf, route_v, b, jb, u as int, v as int, x as int,
                y as int, depot_v_suiv as int, (if la > 0 { a[la - 1] as int } else { depot_u as int }),
            );
            assert forall|a2: Seq<usize>, ia2: int, b2: Seq<usize>, jb2: int|
                #[trigger] cut_routes(n0, p0, r0, nc, depot_u as int, route_u, a2, ia2, depot_v as int, route_v, b2, jb2, u as int, v as int)
                    && !(ia2 == a2.len() && jb2 == 0)
                implies reversed_tails_exchanged(n0, p0, r0, self.next@, self.prev@, self.route@, nc, depot_u as int, route_u, a2, ia2, depot_v as int, route_v, b2, jb2) by {
                lemma_route_unique(n0, p0, r0, r0, depot_u as int, duf, route_u, route_u, a, a2, nc);
                lemma_route_unique(n0, p0, r0, r0, depot_v as int, dvf, route_v, route_v, b, b2, nc);
                if ia != ia2 {
                    if ia > 0 && ia2 > 0 {
                        assert(a[ia - 1] == a[ia2 - 1]);
                    } else if ia > 0 {
                        assert(a[ia - 1] <= nc);
                    } else {
                        assert(a[ia2 - 1] <= nc);
                    }
                }
                if jb != jb2 {
                    if jb > 0 && jb2 > 0 {
                        assert(b[jb - 1] == b[jb2 - 1]);
                    } else if jb > 0 {
                        assert(b[jb - 1] <= nc);
                    } else {
                        assert(b[jb2 - 1] <= nc);
                    }
                }
            }
        }
    }
}

} // verus!
