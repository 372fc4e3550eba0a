//! Relocation of a client, as the local search's insertion performs it: from one
//! route to another (the route the client leaves and the route it joins), and
//! inside one route.
use vstd::prelude::*;
use crate::local_search::{route_loaded, inserted};
use crate::route_moves::{two_routes, cut_node};
use crate::route_segment::one_route;

verus! {

/// Client `a[i]` of route U is to be inserted in route V after its `jb` first
/// clients (after the start depot when `jb == 0`, whose label is that of route V).
pub open spec fn insert_setting(
    n0: Seq<usize>,
    p0: Seq<usize>,
    r0: Seq<usize>,
    nc: int,
    du: int,
    duf: int,
    ru: usize,
    a: Seq<usize>,
    i: int,
    dv: int,
    dvf: int,
    rv: usize,
    b: Seq<usize>,
    jb: int,
) -> bool {
    &&& two_routes(n0, p0, r0, nc, du, duf, ru, a, dv, dvf, rv, b)
    &&& 0 <= i < a.len()
    &&& 0 <= jb <= b.len()
    &&& r0[dv] == rv
}

/// The route left: its depots and its first and last nodes.
proof fn lemma_relocated_u_ends(
    n0: Seq<usize>,
    p0: Seq<usize>,
    r0: Seq<usize>,
    nc: int,
    du: int,
    duf: int,
    ru: usize,
    a: Seq<usize>,
    i: int,
    dv: int,
    dvf: int,
    rv: usize,
    b: Seq<usize>,
    jb: int,
)
    requires
        insert_setting(n0, p0, r0, nc, du, duf, ru, a, i, dv, dvf, rv, b, jb),
    ensures
        ({
            let res = inserted(n0, p0, r0, a[i] as int, cut_node(dv, b, jb));
            let w = a.remove(i);
            let k = w.len() as int;
            &&& res.1[du] == duf
            &&& res.0[duf] == du
            &&& res.0[du] == (if k == 0 { duf as usize } else { w[0] })
            &&& res.1[duf] == (if k == 0 { du as usize } else { w[k - 1] })
        }),
{
    let la = a.len() as int;
    let lb = b.len() as int;
    let u = a[i] as int;
    let v = cut_node(dv, b, jb);
    let up = p0[u] as int;
    let un = n0[u] as int;
    let vn = n0[v] as int;
    let res = inserted(n0, p0, r0, u, v);
    let nf = res.0;
    let pf = res.1;
    let rf = res.2;
    assert(a[i] <= nc);
    if i > 0 {
        assert(a[i - 1] <= nc);
        assert(up == a[i - 1]);
    } else {
        assert(up == du);
    }
    if i < la - 1 {
        assert(a[i + 1] <= nc);
        assert(un == a[i + 1]);
    } else {
        assert(un == duf);
    }
    if jb > 0 {
        assert(b[jb - 1] <= nc);
    }
    if jb < lb {
        assert(b[jb] <= nc);
        assert(vn == b[jb]);
    } else {
        assert(vn == dvf);
    }
    if la > 0 {
        assert(a[la - 1] <= nc);
    }
    if lb > 0 {
        assert(b[0] <= nc);
        assert(b[lb - 1] <= nc);
    }
    if jb > 0 {
        assert(v != up) by {
            assert(b[jb - 1] != a[i - 1] || i == 0);
        }
    }
    assert(n0[up] == u);
    assert(v != u) by {
        if jb > 0 {
            assert(b[jb - 1] != a[i]);
        }
    }
    assert(nf == n0.update(up, un as usize).update(u, vn as usize).update(v, u as usize));
    assert(pf == p0.update(un, up as usize).update(vn, u as usize).update(u, v as usize));
    assert(rf == r0.update(u, r0[v]));
    let w = a.remove(i);
    let k = w.len() as int;
    assert(k == la - 1);
    assert(pf[du] == duf) by {
        assert(p0[du] == duf);
    }
    assert(nf[duf] == du) by {
        assert(n0[duf] == du);
    }
    assert(nf[du] == (if k == 0 {
        duf as usize
    } else {
        w[0]
    })) by {
        if i > 0 {
            assert(w[0] == a[0]);
            assert(n0[du] == a[0]);
        } else if k > 0 {
            assert(w[0] == a[1]);
        }
    }
    assert(pf[duf] == (if k == 0 {
        du as usize
    } else {
        w[k - 1]
    })) by {
        if i < la - 1 {
            assert(w[k - 1] == a[la - 1]);
            assert(p0[duf] == a[la - 1]);
        } else if k > 0 {
            assert(w[k - 1] == a[la - 2]);
        }
    }
}

/// The route left: the labels of its clients.
proof fn lemma_relocated_u_labels(
    n0: Seq<usize>,
    p0: Seq<usize>,
    r0: Seq<usize>,
    nc: int,
    du: int,
    duf: int,
    ru: usize,
    a: Seq<usize>,
    i: int,
    dv: int,
    dvf: int,
    rv: usize,
    b: Seq<usize>,
    jb: int,
)
    requires
        insert_setting(n0, p0, r0, nc, du, duf, ru, a, i, dv, dvf, rv, b, jb),
    ensures
        ({
            let res = inserted(n0, p0, r0, a[i] as int, cut_node(dv, b, jb));
            let w = a.remove(i);
            forall|t: int| 0 <= t < w.len() ==> #[trigger] res.2[w[t] as int] == ru
        }),
{
    let la = a.len() as int;
    let lb = b.len() as int;
    let u = a[i] as int;
    let v = cut_node(dv, b, jb);
    let up = p0[u] as int;
    let un = n0[u] as int;
    let vn = n0[v] as int;
    let res = inserted(n0, p0, r0, u, v);
    let nf = res.0;
    let pf = res.1;
    let rf = res.2;
    assert(a[i] <= nc);
    if i > 0 {
        assert(a[i - 1] <= nc);
        assert(up == a[i - 1]);
    } else {
        assert(up == du);
    }
    if i < la - 1 {
        assert(a[i + 1] <= nc);
        assert(un == a[i + 1]);
    } else {
        assert(un == duf);
    }
    if jb > 0 {
        assert(b[jb - 1] <= nc);
    }
    if jb < lb {
        assert(b[jb] <= nc);
        assert(vn == b[jb]);
    } else {
        assert(vn == dvf);
    }
    if la > 0 {
        assert(a[la - 1] <= nc);
    }
    if lb > 0 {
        assert(b[0] <= nc);
        assert(b[lb - 1] <= nc);
    }
    if jb > 0 {
        assert(v != up) by {
            assert(b[jb - 1] != a[i - 1] || i == 0);
        }
    }
    assert(n0[up] == u);
    assert(v != u) by {
        if jb > 0 {
            assert(b[jb - 1] != a[i]);
        }
    }
    assert(nf == n0.update(up, un as usize).update(u, vn as usize).update(v, u as usize));
    assert(pf == p0.update(un, up as usize).update(vn, u as usize).update(u, v as usize));
    assert(rf == r0.update(u, r0[v]));
    let w = a.remove(i);
    let k = w.len() as int;
    assert forall|t: int| 0 <= t < k implies #[trigger] w[t] == (if t < i { a[t] } else { a[t + 1] }) by {}
    assert forall|t: int| 0 <= t < k implies #[trigger] rf[w[t] as int] == ru by {
        let m = if t < i { t } else { t + 1 };
        assert(a[m] != a[i]);
    }
}

/// The route left: the successors of its clients.
proof fn lemma_relocated_u_next(
    n0: Seq<usize>,
    p0: Seq<usize>,
    r0: Seq<usize>,
    nc: int,
    du: int,
    duf: int,
    ru: usize,
    a: Seq<usize>,
    i: int,
    dv: int,
    dvf: int,
    rv: usize,
    b: Seq<usize>,
    jb: int,
)
    requires
        insert_setting(n0, p0, r0, nc, du, duf, ru, a, i, dv, dvf, rv, b, jb),
    ensures
        ({
            let res = inserted(n0, p0, r0, a[i] as int, cut_node(dv, b, jb));
            let w = a.remove(i);
            forall|t: int| 0 <= t < w.len() ==> #[trigger] res.0[w[t] as int] == (if t == w.len() - 1 { duf as usize } else { w[t + 1] })
        }),
{
    let la = a.len() as int;
    let lb = b.len() as int;
    let u = a[i] as int;
    let v = cut_node(dv, b, jb);
    let up = p0[u] as int;
    let un = n0[u] as int;
    let vn = n0[v] as int;
    let res = inserted(n0, p0, r0, u, v);
    let nf = res.0;
    let pf = res.1;
    let rf = res.2;
    assert(a[i] <= nc);
    if i > 0 {
        assert(a[i - 1] <= nc);
        assert(up == a[i - 1]);
    } else {
        assert(up == du);
    }
    if i < la - 1 {
        assert(a[i + 1] <= nc);
        assert(un == a[i + 1]);
    } else {
        assert(un == duf);
    }
    if jb > 0 {
        assert(b[jb - 1] <= nc);
    }
    if jb < lb {
        assert(b[jb] <= nc);
        assert(vn == b[jb]);
    } else {
        assert(vn == dvf);
    }
    if la > 0 {
        assert(a[la - 1] <= nc);
    }
    if lb > 0 {
        assert(b[0] <= nc);
        assert(b[lb - 1] <= nc);
    }
    if jb > 0 {
        assert(v != up) by {
            assert(b[jb - 1] != a[i - 1] || i == 0);
        }
    }
    assert(n0[up] == u);
    assert(v != u) by {
        if jb > 0 {
            assert(b[jb - 1] != a[i]);
        }
    }
    assert(nf == n0.update(up, un as usize).update(u, vn as usize).update(v, u as usize));
    assert(pf == p0.update(un, up as usize).update(vn, u as usize).update(u, v as usize));
    assert(rf == r0.update(u, r0[v]));
    let w = a.remove(i);
    let k = w.len() as int;
    assert forall|t: int| 0 <= t < k implies #[trigger] w[t] == (if t < i { a[t] } else { a[t + 1] }) by {}
    assert forall|t: int| 0 <= t < k implies #[trigger] nf[w[t] as int] == (if t == k - 1 {
        duf as usize
    } else {
        w[t + 1]
    }) by {
        let m = if t < i { t } else { t + 1 };
        assert(a[m] != a[i]);
        assert(a[m] <= nc);
        if jb > 0 {
            assert(a[m] != b[jb - 1]);
        }
        if m == i - 1 {
        } else {
            if i > 0 {
                assert(a[m] != a[i - 1]);
            }
            if m < la - 1 {
                assert(n0[a[m] as int] == a[m + 1]);
            }
        }
    }
}

/// The route left: the predecessors of its clients.
proof fn lemma_relocated_u_prev(
    n0: Seq<usize>,
    p0: Seq<usize>,
    r0: Seq<usize>,
    nc: int,
    du: int,
    duf: int,
    ru: usize,
    a: Seq<usize>,
    i: int,
    dv: int,
    dvf: int,
    rv: usize,
    b: Seq<usize>,
    jb: int,
)
    requires
        insert_setting(n0, p0, r0, nc, du, duf, ru, a, i, dv, dvf, rv, b, jb),
    ensures
        ({
            let res = inserted(n0, p0, r0, a[i] as int, cut_node(dv, b, jb));
            let w = a.remove(i);
            forall|t: int| 0 <= t < w.len() ==> #[trigger] res.1[w[t] as int] == (if t == 0 { du as usize } else { w[t - 1] })
        }),
{
    let la = a.len() as int;
    let lb = b.len() as int;
    let u = a[i] as int;
    let v = cut_node(dv, b, jb);
    let up = p0[u] as int;
    let un = n0[u] as int;
    let vn = n0[v] as int;
    let res = inserted(n0, p0, r0, u, v);
    let nf = res.0;
    let pf = res.1;
    let rf = res.2;
    assert(a[i] <= nc);
    if i > 0 {
        assert(a[i - 1] <= nc);
        assert(up == a[i - 1]);
    } else {
        assert(up == du);
    }
    if i < la - 1 {
        assert(a[i + 1] <= nc);
        assert(un == a[i + 1]);
    } else {
        assert(un == duf);
    }
    if jb > 0 {
        assert(b[jb - 1] <= nc);
    }
    if jb < lb {
        assert(b[jb] <= nc);
        assert(vn == b[jb]);
    } else {
        assert(vn == dvf);
    }
    if la > 0 {
        assert(a[la - 1] <= nc);
    }
    if lb > 0 {
        assert(b[0] <= nc);
        assert(b[lb - 1] <= nc);
    }
    if jb > 0 {
        assert(v != up) by {
            assert(b[jb - 1] != a[i - 1] || i == 0);
        }
    }
    assert(n0[up] == u);
    assert(v != u) by {
        if jb > 0 {
            assert(b[jb - 1] != a[i]);
        }
    }
    assert(nf == n0.update(up, un as usize).update(u, vn as usize).update(v, u as usize));
    assert(pf == p0.update(un, up as usize).update(vn, u as usize).update(u, v as usize));
    assert(rf == r0.update(u, r0[v]));
    let w = a.remove(i);
    let k = w.len() as int;
    assert forall|t: int| 0 <= t < k implies #[trigger] w[t] == (if t < i { a[t] } else { a[t + 1] }) by {}
    assert forall|t: int| 0 <= t < k implies #[trigger] pf[w[t] as int] == (if t == 0 {
        du as usize
    } else {
        w[t - 1]
    }) by {
        let m = if t < i { t } else { t + 1 };
        assert(a[m] != a[i]);
        assert(a[m] <= nc);
        if jb < lb {
            assert(a[m] != b[jb]);
        }
        if m == i + 1 {
        } else {
            if i < la - 1 {
                assert(a[m] != a[i + 1]);
            }
            if m > 0 {
                assert(p0[a[m] as int] == a[m - 1]);
            }
        }
    }
}


/// The route joined: its depots and its first and last nodes.
proof fn lemma_relocated_v_ends(
    n0: Seq<usize>,
    p0: Seq<usize>,
    r0: Seq<usize>,
    nc: int,
    du: int,
    duf: int,
    ru: usize,
    a: Seq<usize>,
    i: int,
    dv: int,
    dvf: int,
    rv: usize,
    b: Seq<usize>,
    jb: int,
)
    requires
        insert_setting(n0, p0, r0, nc, du, duf, ru, a, i, dv, dvf, rv, b, jb),
    ensures
        ({
            let res = inserted(n0, p0, r0, a[i] as int, cut_node(dv, b, jb));
            let w = b.insert(jb, a[i]);
            let k = w.len() as int;
            &&& res.1[dv] == dvf
            &&& res.0[dvf] == dv
            &&& res.0[dv] == (if k == 0 { dvf as usize } else { w[0] })
            &&& res.1[dvf] == (if k == 0 { dv as usize } else { w[k - 1] })
        }),
{
    let la = a.len() as int;
    let lb = b.len() as int;
    let u = a[i] as int;
    let v = cut_node(dv, b, jb);
    let up = p0[u] as int;
    let un = n0[u] as int;
    let vn = n0[v] as int;
    let res = inserted(n0, p0, r0, u, v);
    let nf = res.0;
    let pf = res.1;
    let rf = res.2;
    assert(a[i] <= nc);
    if i > 0 {
        assert(a[i - 1] <= nc);
        assert(up == a[i - 1]);
    } else {
        assert(up == du);
    }
    if i < la - 1 {
        assert(a[i + 1] <= nc);
        assert(un == a[i + 1]);
    } else {
        assert(un == duf);
    }
    if jb > 0 {
        assert(b[jb - 1] <= nc);
    }
    if jb < lb {
        assert(b[jb] <= nc);
        assert(vn == b[jb]);
    } else {
        assert(vn == dvf);
    }
    if la > 0 {
        assert(a[la - 1] <= nc);
    }
    if lb > 0 {
        assert(b[0] <= nc);
        assert(b[lb - 1] <= nc);
    }
    if jb > 0 {
        assert(v != up) by {
            assert(b[jb - 1] != a[i - 1] || i == 0);
        }
    }
    assert(n0[up] == u);
    assert(v != u) by {
        if jb > 0 {
            assert(b[jb - 1] != a[i]);
        }
    }
    assert(nf == n0.update(up, un as usize).update(u, vn as usize).update(v, u as usize));
    assert(pf == p0.update(un, up as usize).update(vn, u as usize).update(u, v as usize));
    assert(rf == r0.update(u, r0[v]));
    let w = b.insert(jb, a[i]);
    let k = w.len() as int;
    assert(k == lb + 1);
    assert(pf[dv] == dvf) by {
        assert(p0[dv] == dvf);
    }
    assert(nf[dvf] == dv) by {
        assert(n0[dvf] == dv);
    }
    assert(nf[dv] == w[0]) by {
        if jb > 0 {
            assert(w[0] == b[0]);
            assert(n0[dv] == b[0]);
        }
    }
    assert(pf[dvf] == w[k - 1]) by {
        if jb < lb {
            assert(w[k - 1] == b[lb - 1]);
            assert(p0[dvf] == b[lb - 1]);
        }
    }
}

/// The route joined: the labels of its clients.
proof fn lemma_relocated_v_labels(
    n0: Seq<usize>,
    p0: Seq<usize>,
    r0: Seq<usize>,
    nc: int,
    du: int,
    duf: int,
    ru: usize,
    a: Seq<usize>,
    i: int,
    dv: int,
    dvf: int,
    rv: usize,
    b: Seq<usize>,
    jb: int,
)
    requires
        insert_setting(n0, p0, r0, nc, du, duf, ru, a, i, dv, dvf, rv, b, jb),
    ensures
        ({
            let res = inserted(n0, p0, r0, a[i] as int, cut_node(dv, b, jb));
            let w = b.insert(jb, a[i]);
            forall|t: int| 0 <= t < w.len() ==> #[trigger] res.2[w[t] as int] == rv
        }),
{
    let la = a.len() as int;
    let lb = b.len() as int;
    let u = a[i] as int;
    let v = cut_node(dv, b, jb);
    let up = p0[u] as int;
    let un = n0[u] as int;
    let vn = n0[v] as int;
    let res = inserted(n0, p0, r0, u, v);
    let nf = res.0;
    let pf = res.1;
    let rf = res.2;
    assert(a[i] <= nc);
    if i > 0 {
        assert(a[i - 1] <= nc);
        assert(up == a[i - 1]);
    } else {
        assert(up == du);
    }
    if i < la - 1 {
        assert(a[i + 1] <= nc);
        assert(un == a[i + 1]);
    } else {
        assert(un == duf);
    }
    if jb > 0 {
        assert(b[jb - 1] <= nc);
    }
    if jb < lb {
        assert(b[jb] <= nc);
        assert(vn == b[jb]);
    } else {
        assert(vn == dvf);
    }
    if la > 0 {
        assert(a[la - 1] <= nc);
    }
    if lb > 0 {
        assert(b[0] <= nc);
        assert(b[lb - 1] <= nc);
    }
    if jb > 0 {
        assert(v != up) by {
            assert(b[jb - 1] != a[i - 1] || i == 0);
        }
    }
    assert(n0[up] == u);
    assert(v != u) by {
        if jb > 0 {
            assert(b[jb - 1] != a[i]);
        }
    }
    assert(nf == n0.update(up, un as usize).update(u, vn as usize).update(v, u as usize));
    assert(pf == p0.update(un, up as usize).update(vn, u as usize).update(u, v as usize));
    assert(rf == r0.update(u, r0[v]));
    let w = b.insert(jb, a[i]);
    let k = w.len() as int;
    assert forall|t: int| 0 <= t < k implies #[trigger] w[t] == (if t < jb { b[t] } else if t == jb { a[i] } else { b[t - 1] }) by {}
    assert forall|t: int| 0 <= t < k implies #[trigger] rf[w[t] as int] == rv by {
        if t < jb {
            assert(b[t] != a[i]);
        } else if t > jb {
            assert(b[t - 1] != a[i]);
        } else if jb > 0 {
            assert(r0[b[jb - 1] as int] == rv);
        }
    }
}

/// The route joined: the successors of its clients.
proof fn lemma_relocated_v_next(
    n0: Seq<usize>,
    p0: Seq<usize>,
    r0: Seq<usize>,
    nc: int,
    du: int,
    duf: int,
    ru: usize,
    a: Seq<usize>,
    i: int,
    dv: int,
    dvf: int,
    rv: usize,
    b: Seq<usize>,
    jb: int,
)
    requires
        insert_setting(n0, p0, r0, nc, du, duf, ru, a, i, dv, dvf, rv, b, jb),
    ensures
        ({
            let res = inserted(n0, p0, r0, a[i] as int, cut_node(dv, b, jb));
            let w = b.insert(jb, a[i]);
            forall|t: int| 0 <= t < w.len() ==> #[trigger] res.0[w[t] as int] == (if t == w.len() - 1 { dvf as usize } else { w[t + 1] })
        }),
{
    let la = a.len() as int;
    let lb = b.len() as int;
    let u = a[i] as int;
    let v = cut_node(dv, b, jb);
    let up = p0[u] as int;
    let un = n0[u] as int;
    let vn = n0[v] as int;
    let res = inserted(n0, p0, r0, u, v);
    let nf = res.0;
    let pf = res.1;
    let rf = res.2;
    assert(a[i] <= nc);
    if i > 0 {
        assert(a[i - 1] <= nc);
        assert(up == a[i - 1]);
    } else {
        assert(up == du);
    }
    if i < la - 1 {
        assert(a[i + 1] <= nc);
        assert(un == a[i + 1]);
    } else {
        assert(un == duf);
    }
    if jb > 0 {
        assert(b[jb - 1] <= nc);
    }
    if jb < lb {
        assert(b[jb] <= nc);
        assert(vn == b[jb]);
    } else {
        assert(vn == dvf);
    }
    if la > 0 {
        assert(a[la - 1] <= nc);
    }
    if lb > 0 {
        assert(b[0] <= nc);
        assert(b[lb - 1] <= nc);
    }
    if jb > 0 {
        assert(v != up) by {
            assert(b[jb - 1] != a[i - 1] || i == 0);
        }
    }
    assert(n0[up] == u);
    assert(v != u) by {
        if jb > 0 {
            assert(b[jb - 1] != a[i]);
        }
    }
    assert(nf == n0.update(up, un as usize).update(u, vn as usize).update(v, u as usize));
    assert(pf == p0.update(un, up as usize).update(vn, u as usize).update(u, v as usize));
    assert(rf == r0.update(u, r0[v]));
    let w = b.insert(jb, a[i]);
    let k = w.len() as int;
    assert forall|t: int| 0 <= t < k implies #[trigger] w[t] == (if t < jb { b[t] } else if t == jb { a[i] } else { b[t - 1] }) by {}
    assert forall|t: int| 0 <= t < k implies #[trigger] nf[w[t] as int] == (if t == k - 1 {
        dvf as usize
    } else {
        w[t + 1]
    }) by {
        if t != jb {
            let m = if t < jb { t } else { t - 1 };
            assert(b[m] != a[i]);
            assert(b[m] <= nc);
            if i > 0 {
                assert(b[m] != a[i - 1]);
            }
            if m != jb - 1 && m < lb - 1 {
                assert(n0[b[m] as int] == b[m + 1]);
            }
        }
    }
}

/// The route joined: the predecessors of its clients.
proof fn lemma_relocated_v_prev(
    n0: Seq<usize>,
    p0: Seq<usize>,
    r0: Seq<usize>,
    nc: int,
    du: int,
    duf: int,
    ru: usize,
    a: Seq<usize>,
    i: int,
    dv: int,
    dvf: int,
    rv: usize,
    b: Seq<usize>,
    jb: int,
)
    requires
        insert_setting(n0, p0, r0, nc, du, duf, ru, a, i, dv, dvf, rv, b, jb),
    ensures
        ({
            let res = inserted(n0, p0, r0, a[i] as int, cut_node(dv, b, jb));
            let w = b.insert(jb, a[i]);
            forall|t: int| 0 <= t < w.len() ==> #[trigger] res.1[w[t] as int] == (if t == 0 { dv as usize } else { w[t - 1] })
        }),
{
    let la = a.len() as int;
    let lb = b.len() as int;
    let u = a[i] as int;
    let v = cut_node(dv, b, jb);
    let up = p0[u] as int;
    let un = n0[u] as int;
    let vn = n0[v] as int;
    let res = inserted(n0, p0, r0, u, v);
    let nf = res.0;
    let pf = res.1;
    let rf = res.2;
    assert(a[i] <= nc);
    if i > 0 {
        assert(a[i - 1] <= nc);
        assert(up == a[i - 1]);
    } else {
        assert(up == du);
    }
    if i < la - 1 {
        assert(a[i + 1] <= nc);
        assert(un == a[i + 1]);
    } else {
        assert(un == duf);
    }
    if jb > 0 {
        assert(b[jb - 1] <= nc);
    }
    if jb < lb {
        assert(b[jb] <= nc);
        assert(vn == b[jb]);
    } else {
        assert(vn == dvf);
    }
    if la > 0 {
        assert(a[la - 1] <= nc);
    }
    if lb > 0 {
        assert(b[0] <= nc);
        assert(b[lb - 1] <= nc);
    }
    if jb > 0 {
        assert(v != up) by {
            assert(b[jb - 1] != a[i - 1] || i == 0);
        }
    }
    assert(n0[up] == u);
    assert(v != u) by {
        if jb > 0 {
            assert(b[jb - 1] != a[i]);
        }
    }
    assert(nf == n0.update(up, un as usize).update(u, vn as usize).update(v, u as usize));
    assert(pf == p0.update(un, up as usize).update(vn, u as usize).update(u, v as usize));
    assert(rf == r0.update(u, r0[v]));
    let w = b.insert(jb, a[i]);
    let k = w.len() as int;
    assert forall|t: int| 0 <= t < k implies #[trigger] w[t] == (if t < jb { b[t] } else if t == jb { a[i] } else { b[t - 1] }) by {}
    assert forall|t: int| 0 <= t < k implies #[trigger] pf[w[t] as int] == (if t == 0 {
        dv as usize
    } else {
        w[t - 1]
    }) by {
        if t != jb {
            let m = if t < jb { t } else { t - 1 };
            assert(b[m] != a[i]);
            assert(b[m] <= nc);
            if i < la - 1 {
                assert(b[m] != a[i + 1]);
            }
            if m != jb && m > 0 {
                assert(p0[b[m] as int] == b[m - 1]);
            }
        }
    }
}


/// The two routes after the relocation hold distinct clients; the nodes outside
/// them keep their links and labels.
proof fn lemma_relocated_shape_frame(

    n0: Seq<usize>,
    p0: Seq<usize>,
    r0: Seq<usize>,
    nc: int,
    du: int,
    duf: int,
    ru: usize,
    a: Seq<usize>,
    i: int,
    dv: int,
    dvf: int,
    rv: usize,
    b: Seq<usize>,
    jb: int,
)
    requires
        insert_setting(n0, p0, r0, nc, du, duf, ru, a, i, dv, dvf, rv, b, jb),
    ensures
        ({
            let res = inserted(n0, p0, r0, a[i] as int, cut_node(dv, b, jb));
            let w1 = a.remove(i);
            let w2 = b.insert(jb, a[i]);
            &&& w1.no_duplicates()
            &&& w2.no_duplicates()
            &&& forall|t: int| 0 <= t < w1.len() ==> #[trigger] w1[t] <= nc
            &&& forall|t: int| 0 <= t < w2.len() ==> #[trigger] w2[t] <= nc
            &&& forall|t1: int, t2: int| 0 <= t1 < w1.len() && 0 <= t2 < w2.len() ==> #[trigger] w1[t1] != #[trigger] w2[t2]
            &&& forall|z: int|
                0 <= z < n0.len() && !a.contains(z as usize) && !b.contains(z as usize) && z != du
                    && z != dv && z != duf && z != dvf ==> #[trigger] res.0[z] == n0[z]
            &&& forall|z: int|
                0 <= z < n0.len() && !a.contains(z as usize) && !b.contains(z as usize) && z != du
                    && z != dv && z != duf && z != dvf ==> #[trigger] res.1[z] == p0[z]
            &&& forall|z: int| 0 <= z < n0.len() && z != a[i] ==> #[trigger] res.2[z] == r0[z]
        }),
{
    let la = a.len() as int;
    let lb = b.len() as int;
    let u = a[i] as int;
    let v = cut_node(dv, b, jb);
    let up = p0[u] as int;
    let un = n0[u] as int;
    let vn = n0[v] as int;
    let res = inserted(n0, p0, r0, u, v);
    let nf = res.0;
    let pf = res.1;
    let rf = res.2;
    assert(a[i] <= nc);
    if i > 0 {
        assert(a[i - 1] <= nc);
        assert(up == a[i - 1]);
    } else {
        assert(up == du);
    }
    if i < la - 1 {
        assert(a[i + 1] <= nc);
        assert(un == a[i + 1]);
    } else {
        assert(un == duf);
    }
    if jb > 0 {
        assert(b[jb - 1] <= nc);
    }
    if jb < lb {
        assert(b[jb] <= nc);
        assert(vn == b[jb]);
    } else {
        assert(vn == dvf);
    }
    if la > 0 {
        assert(a[la - 1] <= nc);
    }
    if lb > 0 {
        assert(b[0] <= nc);
        assert(b[lb - 1] <= nc);
    }
    if jb > 0 {
        assert(v != up) by {
            assert(b[jb - 1] != a[i - 1] || i == 0);
        }
    }
    assert(n0[up] == u);
    assert(v != u) by {
        if jb > 0 {
            assert(b[jb - 1] != a[i]);
        }
    }
    assert(nf == n0.update(up, un as usize).update(u, vn as usize).update(v, u as usize));
    assert(pf == p0.update(un, up as usize).update(vn, u as usize).update(u, v as usize));
    assert(rf == r0.update(u, r0[v]));
    let w1 = a.remove(i);
    let w2 = b.insert(jb, a[i]);
    assert forall|t: int| 0 <= t < w1.len() implies #[trigger] w1[t] == (if t < i { a[t] } else { a[t + 1] }) by {}
    assert forall|t: int| 0 <= t < w2.len() implies #[trigger] w2[t] == (if t < jb { b[t] } else if t == jb { a[i] } else { b[t - 1] }) by {}
    assert forall|t1: int, t2: int| 0 <= t1 < w1.len() && 0 <= t2 < w1.len() && t1 != t2 implies w1[t1] != w1[t2] by {
        let m1 = if t1 < i { t1 } else { t1 + 1 };
        let m2 = if t2 < i { t2 } else { t2 + 1 };
        assert(a[m1] != a[m2]);
    }
    assert forall|t1: int, t2: int| 0 <= t1 < w2.len() && 0 <= t2 < w2.len() && t1 != t2 implies w2[t1] != w2[t2] by {
        if t1 != jb && t2 != jb {
            let m1 = if t1 < jb { t1 } else { t1 - 1 };
            let m2 = if t2 < jb { t2 } else { t2 - 1 };
            assert(b[m1] != b[m2]);
        } else if t1 == jb {
            let m2 = if t2 < jb { t2 } else { t2 - 1 };
            assert(b[m2] != a[i]);
        } else {
            let m1 = if t1 < jb { t1 } else { t1 - 1 };
            assert(b[m1] != a[i]);
        }
    }
    assert forall|t: int| 0 <= t < w1.len() implies #[trigger] w1[t] <= nc by {
        let m = if t < i { t } else { t + 1 };
        assert(a[m] <= nc);
    }
    assert forall|t: int| 0 <= t < w2.len() implies #[trigger] w2[t] <= nc by {
        if t != jb {
            let m = if t < jb { t } else { t - 1 };
            assert(b[m] <= nc);
        }
    }
    assert forall|t1: int, t2: int| 0 <= t1 < w1.len() && 0 <= t2 < w2.len() implies #[trigger] w1[t1] != #[trigger] w2[t2] by {
        let m1 = if t1 < i { t1 } else { t1 + 1 };
        if t2 == jb {
            assert(a[m1] != a[i]);
        } else {
            let m2 = if t2 < jb { t2 } else { t2 - 1 };
            assert(a[m1] != b[m2]);
        }
    }
    assert(a.contains(a[i]));
    if i > 0 {
        assert(a.contains(a[i - 1]));
    }
    if i < la - 1 {
        assert(a.contains(a[i + 1]));
    }
    if jb > 0 {
        assert(b.contains(b[jb - 1]));
    }
    if jb < lb {
        assert(b.contains(b[jb]));
    }
}

/// Inserting a client of route U after a node of another route V (a client, or
/// its start depot, whose label is that of route V) takes the client out of route U
/// and puts it in route V right after that node; the two routes remain routes, and
/// the nodes outside them keep their links and labels.
pub proof fn lemma_insert_between_routes(
    n0: Seq<usize>,
    p0: Seq<usize>,
    r0: Seq<usize>,
    nc: int,
    du: int,
    duf: int,
    ru: usize,
    a: Seq<usize>,
    i: int,
    dv: int,
    dvf: int,
    rv: usize,
    b: Seq<usize>,
    jb: int,
)
    requires
        insert_setting(n0, p0, r0, nc, du, duf, ru, a, i, dv, dvf, rv, b, jb),
    ensures
        ({
            let res = inserted(n0, p0, r0, a[i] as int, cut_node(dv, b, jb));
            &&& two_routes(res.0, res.1, res.2, nc, du, duf, ru, a.remove(i), dv, dvf, rv, b.insert(jb, a[i]))
            &&& forall|z: int|
                0 <= z < n0.len() && !a.contains(z as usize) && !b.contains(z as usize) && z != du
                    && z != dv && z != duf && z != dvf ==> #[trigger] res.0[z] == n0[z]
            &&& forall|z: int|
                0 <= z < n0.len() && !a.contains(z as usize) && !b.contains(z as usize) && z != du
                    && z != dv && z != duf && z != dvf ==> #[trigger] res.1[z] == p0[z]
            &&& forall|z: int| 0 <= z < n0.len() && z != a[i] ==> #[trigger] res.2[z] == r0[z]
        }),
{
    lemma_relocated_u_ends(n0, p0, r0, nc, du, duf, ru, a, i, dv, dvf, rv, b, jb);
    lemma_relocated_u_labels(n0, p0, r0, nc, du, duf, ru, a, i, dv, dvf, rv, b, jb);
    lemma_relocated_u_next(n0, p0, r0, nc, du, duf, ru, a, i, dv, dvf, rv, b, jb);
    lemma_relocated_u_prev(n0, p0, r0, nc, du, duf, ru, a, i, dv, dvf, rv, b, jb);
    lemma_relocated_v_ends(n0, p0, r0, nc, du, duf, ru, a, i, dv, dvf, rv, b, jb);
    lemma_relocated_v_labels(n0, p0, r0, nc, du, duf, ru, a, i, dv, dvf, rv, b, jb);
    lemma_relocated_v_next(n0, p0, r0, nc, du, duf, ru, a, i, dv, dvf, rv, b, jb);
    lemma_relocated_v_prev(n0, p0, r0, nc, du, duf, ru, a, i, dv, dvf, rv, b, jb);
    lemma_relocated_shape_frame(n0, p0, r0, nc, du, duf, ru, a, i, dv, dvf, rv, b, jb);
}

/// The route after its client `i` is taken out and put back after its `j` first
/// clients (counted before the move).
pub open spec fn relocated_within(a: Seq<usize>, i: int, j: int) -> Seq<usize> {
    if j <= i {
        a.remove(i).insert(j, a[i])
    } else {
        a.remove(i).insert(j - 1, a[i])
    }
}

/// Client `a[i]` of a route is to be inserted after the route's `j` first clients
/// (after its start depot when `j == 0`, whose label is that of the route), the node
/// after which it is inserted not being the client itself.
pub open spec fn insert_within_setting(
    n0: Seq<usize>,
    p0: Seq<usize>,
    r0: Seq<usize>,
    d: int,
    de: int,
    r: usize,
    a: Seq<usize>,
    i: int,
    j: int,
) -> bool {
    &&& one_route(n0, p0, r0, d, de, r, a)
    &&& 0 <= i < a.len()
    &&& 0 <= j <= a.len()
    &&& j != i + 1
    &&& r0[d] == r
}

/// The route after a relocation inside it: its depots and first and last nodes.
proof fn lemma_relocated_within_ends(
    n0: Seq<usize>,
    p0: Seq<usize>,
    r0: Seq<usize>,
    d: int,
    de: int,
    r: usize,
    a: Seq<usize>,
    i: int,
    j: int,
)
    requires
        insert_within_setting(n0, p0, r0, d, de, r, a, i, j),
    ensures
        ({
            let res = inserted(n0, p0, r0, a[i] as int, cut_node(d, a, j));
            let w = relocated_within(a, i, j);
            &&& w.len() == a.len()
            &&& res.1[d] == de
            &&& res.0[de] == d
            &&& res.0[d] == w[0]
            &&& res.1[de] == w[w.len() - 1]
        }),
{
    let la = a.len() as int;
    let u = a[i] as int;
    let v = cut_node(d, a, j);
    let res = inserted(n0, p0, r0, u, v);
    let nf = res.0;
    let pf = res.1;
    let rf = res.2;
    let w = relocated_within(a, i, j);
    let up = p0[u] as int;
    let un = n0[u] as int;
    assert(a.contains(a[i]));
    if i > 0 {
        assert(a.contains(a[i - 1]));
        assert(up == a[i - 1]);
    } else {
        assert(up == d);
    }
    if i < la - 1 {
        assert(a.contains(a[i + 1]));
        assert(un == a[i + 1]);
    } else {
        assert(un == de);
    }
    if j > 0 {
        assert(a.contains(a[j - 1]));
        assert(a[j - 1] != a[i]);
    }
    let vn = if v == up { un } else { n0[v] as int };
    if v != up {
        if j < la {
            assert(a.contains(a[j]));
            if j > 0 {
                assert(n0[a[j - 1] as int] == a[j]);
            } else {
                assert(n0[d] == a[0]);
            }
            assert(vn == a[j]);
        } else {
            assert(n0[a[la - 1] as int] == de);
            assert(vn == de);
        }
    }
    assert(u != v);
    assert(n0[up] == u);
    assert(p0[un] == u);
    assert forall|x: int| 0 <= x < n0.len() implies #[trigger] nf[x] == (if x == v {
        u as usize
    } else if x == u {
        vn as usize
    } else if x == up {
        un as usize
    } else {
        n0[x]
    }) by {}
    assert forall|x: int| 0 <= x < n0.len() implies #[trigger] pf[x] == (if x == u {
        v as usize
    } else if x == vn {
        u as usize
    } else if x == un {
        up as usize
    } else {
        p0[x]
    }) by {}
    assert forall|t: int| 0 <= t < la implies #[trigger] w[t] == (if j <= i {
        if t < j { a[t] } else if t == j { a[i] } else if t <= i { a[t - 1] } else { a[t] }
    } else {
        if t < i { a[t] } else if t < j - 1 { a[t + 1] } else if t == j - 1 { a[i] } else { a[t] }
    }) by {}
    assert(w.len() == la);
    assert(pf[d] == de) by {
        assert(p0[d] == de);
    }
    assert(nf[de] == d) by {
        assert(n0[de] == d);
    }
    assert(nf[d] == w[0]) by {
        assert(n0[d] == a[0]);
        assert(a.contains(a[0]));
    }
    assert(pf[de] == w[la - 1]) by {
        assert(p0[de] == a[la - 1]);
        assert(a.contains(a[la - 1]));
    }
}

/// The route after a relocation inside it: the successors of its clients.
proof fn lemma_relocated_within_next_early(
    n0: Seq<usize>,
    p0: Seq<usize>,
    r0: Seq<usize>,
    d: int,
    de: int,
    r: usize,
    a: Seq<usize>,
    i: int,
    j: int,
)
    requires
        insert_within_setting(n0, p0, r0, d, de, r, a, i, j),
        j <= i,
    ensures
        ({
            let res = inserted(n0, p0, r0, a[i] as int, cut_node(d, a, j));
            let w = relocated_within(a, i, j);
            forall|t: int| 0 <= t < w.len() ==> #[trigger] res.0[w[t] as int] == (if t == w.len() - 1 { de as usize } else { w[t + 1] })
        }),
{
    let la = a.len() as int;
    let u = a[i] as int;
    let v = cut_node(d, a, j);
    let res = inserted(n0, p0, r0, u, v);
    let nf = res.0;
    let pf = res.1;
    let rf = res.2;
    let w = relocated_within(a, i, j);
    let up = p0[u] as int;
    let un = n0[u] as int;
    assert(a.contains(a[i]));
    if i > 0 {
        assert(a.contains(a[i - 1]));
        assert(up == a[i - 1]);
    } else {
        assert(up == d);
    }
    if i < la - 1 {
        assert(a.contains(a[i + 1]));
        assert(un == a[i + 1]);
    } else {
        assert(un == de);
    }
    if j > 0 {
        assert(a.contains(a[j - 1]));
        assert(a[j - 1] != a[i]);
    }
    let vn = if v == up { un } else { n0[v] as int };
    if v != up {
        if j < la {
            assert(a.contains(a[j]));
            if j > 0 {
                assert(n0[a[j - 1] as int] == a[j]);
            } else {
                assert(n0[d] == a[0]);
            }
            assert(vn == a[j]);
        } else {
            assert(n0[a[la - 1] as int] == de);
            assert(vn == de);
        }
    }
    assert(u != v);
    assert(n0[up] == u);
    assert(p0[un] == u);
    assert forall|x: int| 0 <= x < n0.len() implies #[trigger] nf[x] == (if x == v {
        u as usize
    } else if x == u {
        vn as usize
    } else if x == up {
        un as usize
    } else {
        n0[x]
    }) by {}
    assert forall|x: int| 0 <= x < n0.len() implies #[trigger] pf[x] == (if x == u {
        v as usize
    } else if x == vn {
        u as usize
    } else if x == un {
        up as usize
    } else {
        p0[x]
    }) by {}
    assert forall|t: int| 0 <= t < la implies #[trigger] w[t] == (if j <= i {
        if t < j { a[t] } else if t == j { a[i] } else if t <= i { a[t - 1] } else { a[t] }
    } else {
        if t < i { a[t] } else if t < j - 1 { a[t + 1] } else if t == j - 1 { a[i] } else { a[t] }
    }) by {}
    assert forall|t: int| 0 <= t < la implies #[trigger] nf[w[t] as int] == (if t == la - 1 {
        de as usize
    } else {
        w[t + 1]
    }) by {
        let m = if t < j { t } else if t == j { i } else if t <= i { t - 1 } else { t };
        assert(w[t] == a[m]);
        assert(a.contains(a[m]));
        if m < la - 1 {
            assert(n0[a[m] as int] == a[m + 1]);
            assert(a.contains(a[m + 1]));
        }
        if t < la - 1 {
            let m2 = if t + 1 < j { t + 1 } else if t + 1 == j { i } else if t + 1 <= i { t } else { t + 1 };
            assert(w[t + 1] == a[m2]);
        }
    }
}

/// The route after a relocation inside it: the predecessors of its clients.
proof fn lemma_relocated_within_prev_early(
    n0: Seq<usize>,
    p0: Seq<usize>,
    r0: Seq<usize>,
    d: int,
    de: int,
    r: usize,
    a: Seq<usize>,
    i: int,
    j: int,
)
    requires
        insert_within_setting(n0, p0, r0, d, de, r, a, i, j),
        j <= i,
    ensures
        ({
            let res = inserted(n0, p0, r0, a[i] as int, cut_node(d, a, j));
            let w = relocated_within(a, i, j);
            forall|t: int| 0 <= t < w.len() ==> #[trigger] res.1[w[t] as int] == (if t == 0 { d as usize } else { w[t - 1] })
        }),
{
    let la = a.len() as int;
    let u = a[i] as int;
    let v = cut_node(d, a, j);
    let res = inserted(n0, p0, r0, u, v);
    let nf = res.0;
    let pf = res.1;
    let rf = res.2;
    let w = relocated_within(a, i, j);
    let up = p0[u] as int;
    let un = n0[u] as int;
    assert(a.contains(a[i]));
    if i > 0 {
        assert(a.contains(a[i - 1]));
        assert(up == a[i - 1]);
    } else {
        assert(up == d);
    }
    if i < la - 1 {
        assert(a.contains(a[i + 1]));
        assert(un == a[i + 1]);
    } else {
        assert(un == de);
    }
    if j > 0 {
        assert(a.contains(a[j - 1]));
        assert(a[j - 1] != a[i]);
    }
    let vn = if v == up { un } else { n0[v] as int };
    if v != up {
        if j < la {
            assert(a.contains(a[j]));
            if j > 0 {
                assert(n0[a[j - 1] as int] == a[j]);
            } else {
                assert(n0[d] == a[0]);
            }
            assert(vn == a[j]);
        } else {
            assert(n0[a[la - 1] as int] == de);
            assert(vn == de);
        }
    }
    assert(u != v);
    assert(n0[up] == u);
    assert(p0[un] == u);
    assert forall|x: int| 0 <= x < n0.len() implies #[trigger] nf[x] == (if x == v {
        u as usize
    } else if x == u {
        vn as usize
    } else if x == up {
        un as usize
    } else {
        n0[x]
    }) by {}
    assert forall|x: int| 0 <= x < n0.len() implies #[trigger] pf[x] == (if x == u {
        v as usize
    } else if x == vn {
        u as usize
    } else if x == un {
        up as usize
    } else {
        p0[x]
    }) by {}
    assert forall|t: int| 0 <= t < la implies #[trigger] w[t] == (if j <= i {
        if t < j { a[t] } else if t == j { a[i] } else if t <= i { a[t - 1] } else { a[t] }
    } else {
        if t < i { a[t] } else if t < j - 1 { a[t + 1] } else if t == j - 1 { a[i] } else { a[t] }
    }) by {}
    assert forall|t: int| 0 <= t < la implies #[trigger] pf[w[t] as int] == (if t == 0 {
        d as usize
    } else {
        w[t - 1]
    }) by {
        let m = if t < j { t } else if t == j { i } else if t <= i { t - 1 } else { t };
        assert(w[t] == a[m]);
        assert(a.contains(a[m]));
        if m > 0 {
            assert(p0[a[m] as int] == a[m - 1]);
            assert(a.contains(a[m - 1]));
        }
        if t > 0 {
            let m2 = if t - 1 < j { t - 1 } else if t - 1 == j { i } else if t - 1 <= i { t - 2 } else { t - 1 };
            assert(w[t - 1] == a[m2]);
        }
    }
}

/// The route after a relocation inside it: the successors of its clients.
proof fn lemma_relocated_within_next_late(
    n0: Seq<usize>,
    p0: Seq<usize>,
    r0: Seq<usize>,
    d: int,
    de: int,
    r: usize,
    a: Seq<usize>,
    i: int,
    j: int,
)
    requires
        insert_within_setting(n0, p0, r0, d, de, r, a, i, j),
        j > i + 1,
    ensures
        ({
            let res = inserted(n0, p0, r0, a[i] as int, cut_node(d, a, j));
            let w = relocated_within(a, i, j);
            forall|t: int| 0 <= t < w.len() ==> #[trigger] res.0[w[t] as int] == (if t == w.len() - 1 { de as usize } else { w[t + 1] })
        }),
{
    let la = a.len() as int;
    let u = a[i] as int;
    let v = cut_node(d, a, j);
    let res = inserted(n0, p0, r0, u, v);
    let nf = res.0;
    let pf = res.1;
    let rf = res.2;
    let w = relocated_within(a, i, j);
    let up = p0[u] as int;
    let un = n0[u] as int;
    assert(a.contains(a[i]));
    if i > 0 {
        assert(a.contains(a[i - 1]));
        assert(up == a[i - 1]);
    } else {
        assert(up == d);
    }
    if i < la - 1 {
        assert(a.contains(a[i + 1]));
        assert(un == a[i + 1]);
    } else {
        assert(un == de);
    }
    if j > 0 {
        assert(a.contains(a[j - 1]));
        assert(a[j - 1] != a[i]);
    }
    let vn = if v == up { un } else { n0[v] as int };
    if v != up {
        if j < la {
            assert(a.contains(a[j]));
            if j > 0 {
                assert(n0[a[j - 1] as int] == a[j]);
            } else {
                assert(n0[d] == a[0]);
            }
            assert(vn == a[j]);
        } else {
            assert(n0[a[la - 1] as int] == de);
            assert(vn == de);
        }
    }
    assert(u != v);
    assert(n0[up] == u);
    assert(p0[un] == u);
    assert forall|x: int| 0 <= x < n0.len() implies #[trigger] nf[x] == (if x == v {
        u as usize
    } else if x == u {
        vn as usize
    } else if x == up {
        un as usize
    } else {
        n0[x]
    }) by {}
    assert forall|x: int| 0 <= x < n0.len() implies #[trigger] pf[x] == (if x == u {
        v as usize
    } else if x == vn {
        u as usize
    } else if x == un {
        up as usize
    } else {
        p0[x]
    }) by {}
    assert forall|t: int| 0 <= t < la implies #[trigger] w[t] == (if j <= i {
        if t < j { a[t] } else if t == j { a[i] } else if t <= i { a[t - 1] } else { a[t] }
    } else {
        if t < i { a[t] } else if t < j - 1 { a[t + 1] } else if t == j - 1 { a[i] } else { a[t] }
    }) by {}
    assert forall|t: int| 0 <= t < la implies #[trigger] nf[w[t] as int] == (if t == la - 1 {
        de as usize
    } else {
        w[t + 1]
    }) by {
        let m = if t < i { t } else if t < j - 1 { t + 1 } else if t == j - 1 { i } else { t };
        assert(w[t] == a[m]);
        assert(a.contains(a[m]));
        if m < la - 1 {
            assert(n0[a[m] as int] == a[m + 1]);
            assert(a.contains(a[m + 1]));
        }
        if t < la - 1 {
            let m2 = if t + 1 < i { t + 1 } else if t + 1 < j - 1 { t + 2 } else if t + 1 == j - 1 { i } else { t + 1 };
            assert(w[t + 1] == a[m2]);
        }
    }
}

/// The route after a relocation inside it: the predecessors of its clients.
proof fn lemma_relocated_within_prev_late(
    n0: Seq<usize>,
    p0: Seq<usize>,
    r0: Seq<usize>,
    d: int,
    de: int,
    r: usize,
    a: Seq<usize>,
    i: int,
    j: int,
)
    requires
        insert_within_setting(n0, p0, r0, d, de, r, a, i, j),
        j > i + 1,
    ensures
        ({
            let res = inserted(n0, p0, r0, a[i] as int, cut_node(d, a, j));
            let w = relocated_within(a, i, j);
            forall|t: int| 0 <= t < w.len() ==> #[trigger] res.1[w[t] as int] == (if t == 0 { d as usize } else { w[t - 1] })
        }),
{
    let la = a.len() as int;
    let u = a[i] as int;
    let v = cut_node(d, a, j);
    let res = inserted(n0, p0, r0, u, v);
    let nf = res.0;
    let pf = res.1;
    let rf = res.2;
    let w = relocated_within(a, i, j);
    let up = p0[u] as int;
    let un = n0[u] as int;
    assert(a.contains(a[i]));
    if i > 0 {
        assert(a.contains(a[i - 1]));
        assert(up == a[i - 1]);
    } else {
        assert(up == d);
    }
    if i < la - 1 {
        assert(a.contains(a[i + 1]));
        assert(un == a[i + 1]);
    } else {
        assert(un == de);
    }
    if j > 0 {
        assert(a.contains(a[j - 1]));
        assert(a[j - 1] != a[i]);
    }
    let vn = if v == up { un } else { n0[v] as int };
    if v != up {
        if j < la {
            assert(a.contains(a[j]));
            if j > 0 {
                assert(n0[a[j - 1] as int] == a[j]);
            } else {
                assert(n0[d] == a[0]);
            }
            assert(vn == a[j]);
        } else {
            assert(n0[a[la - 1] as int] == de);
            assert(vn == de);
        }
    }
    assert(u != v);
    assert(n0[up] == u);
    assert(p0[un] == u);
    assert forall|x: int| 0 <= x < n0.len() implies #[trigger] nf[x] == (if x == v {
        u as usize
    } else if x == u {
        vn as usize
    } else if x == up {
        un as usize
    } else {
        n0[x]
    }) by {}
    assert forall|x: int| 0 <= x < n0.len() implies #[trigger] pf[x] == (if x == u {
        v as usize
    } else if x == vn {
        u as usize
    } else if x == un {
        up as usize
    } else {
        p0[x]
    }) by {}
    assert forall|t: int| 0 <= t < la implies #[trigger] w[t] == (if j <= i {
        if t < j { a[t] } else if t == j { a[i] } else if t <= i { a[t - 1] } else { a[t] }
    } else {
        if t < i { a[t] } else if t < j - 1 { a[t + 1] } else if t == j - 1 { a[i] } else { a[t] }
    }) by {}
    assert forall|t: int| 0 <= t < la implies #[trigger] pf[w[t] as int] == (if t == 0 {
        d as usize
    } else {
        w[t - 1]
    }) by {
        let m = if t < i { t } else if t < j - 1 { t + 1 } else if t == j - 1 { i } else { t };
        assert(w[t] == a[m]);
        assert(a.contains(a[m]));
        if m > 0 {
            assert(p0[a[m] as int] == a[m - 1]);
            assert(a.contains(a[m - 1]));
        }
        if t > 0 {
            let m2 = if t - 1 < i { t - 1 } else if t - 1 < j - 1 { t } else if t - 1 == j - 1 { i } else { t - 1 };
            assert(w[t - 1] == a[m2]);
        }
    }
}

/// The route after a relocation inside it holds the same distinct clients with the
/// same label; the other nodes keep their links and labels.
proof fn lemma_relocated_within_shape(
    n0: Seq<usize>,
    p0: Seq<usize>,
    r0: Seq<usize>,
    d: int,
    de: int,
    r: usize,
    a: Seq<usize>,
    i: int,
    j: int,
)
    requires
        insert_within_setting(n0, p0, r0, d, de, r, a, i, j),
    ensures
        ({
            let res = inserted(n0, p0, r0, a[i] as int, cut_node(d, a, j));
            let w = relocated_within(a, i, j);
            &&& w.no_duplicates()
            &&& forall|t: int| 0 <= t < w.len() ==> #[trigger] w[t] < n0.len()
            &&& !w.contains(d as usize)
            &&& !w.contains(de as usize)
            &&& forall|t: int| 0 <= t < w.len() ==> #[trigger] res.2[w[t] as int] == r
            &&& res.2 == r0
            &&& forall|z: int| 0 <= z < n0.len() && !a.contains(z as usize) && z != d && z != de ==> #[trigger] res.0[z] == n0[z]
            &&& forall|z: int| 0 <= z < n0.len() && !a.contains(z as usize) && z != d && z != de ==> #[trigger] res.1[z] == p0[z]
        }),
{
    let la = a.len() as int;
    let u = a[i] as int;
    let v = cut_node(d, a, j);
    let res = inserted(n0, p0, r0, u, v);
    let nf = res.0;
    let pf = res.1;
    let rf = res.2;
    let w = relocated_within(a, i, j);
    let up = p0[u] as int;
    let un = n0[u] as int;
    assert(a.contains(a[i]));
    if i > 0 {
        assert(a.contains(a[i - 1]));
        assert(up == a[i - 1]);
    } else {
        assert(up == d);
    }
    if i < la - 1 {
        assert(a.contains(a[i + 1]));
        assert(un == a[i + 1]);
    } else {
        assert(un == de);
    }
    if j > 0 {
        assert(a.contains(a[j - 1]));
        assert(a[j - 1] != a[i]);
    }
    let vn = if v == up { un } else { n0[v] as int };
    if v != up {
        if j < la {
            assert(a.contains(a[j]));
            if j > 0 {
                assert(n0[a[j - 1] as int] == a[j]);
            } else {
                assert(n0[d] == a[0]);
            }
            assert(vn == a[j]);
        } else {
            assert(n0[a[la - 1] as int] == de);
            assert(vn == de);
        }
    }
    assert(u != v);
    assert(n0[up] == u);
    assert(p0[un] == u);
    assert forall|x: int| 0 <= x < n0.len() implies #[trigger] nf[x] == (if x == v {
        u as usize
    } else if x == u {
        vn as usize
    } else if x == up {
        un as usize
    } else {
        n0[x]
    }) by {}
    assert forall|x: int| 0 <= x < n0.len() implies #[trigger] pf[x] == (if x == u {
        v as usize
    } else if x == vn {
        u as usize
    } else if x == un {
        up as usize
    } else {
        p0[x]
    }) by {}
    assert forall|t: int| 0 <= t < la implies #[trigger] w[t] == (if j <= i {
        if t < j { a[t] } else if t == j { a[i] } else if t <= i { a[t - 1] } else { a[t] }
    } else {
        if t < i { a[t] } else if t < j - 1 { a[t + 1] } else if t == j - 1 { a[i] } else { a[t] }
    }) by {}
    assert forall|t1: int, t2: int| 0 <= t1 < la && 0 <= t2 < la && t1 != t2 implies w[t1] != w[t2] by {
        let t = t1;
        let m1 = if j <= i {
            if t < j { t } else if t == j { i } else if t <= i { t - 1 } else { t }
        } else {
            if t < i { t } else if t < j - 1 { t + 1 } else if t == j - 1 { i } else { t }
        };
        assert(w[t1] == a[m1]);
        let t = t2;
        let m2 = if j <= i {
            if t < j { t } else if t == j { i } else if t <= i { t - 1 } else { t }
        } else {
            if t < i { t } else if t < j - 1 { t + 1 } else if t == j - 1 { i } else { t }
        };
        assert(w[t2] == a[m2]);
        assert(m1 != m2);
        assert(a[m1] != a[m2]);
    }
    assert forall|t: int| 0 <= t < la implies #[trigger] w[t] < n0.len() && w[t] != d as usize && w[t] != de as usize && rf[w[t] as int] == r by {
        let m = if j <= i {
            if t < j { t } else if t == j { i } else if t <= i { t - 1 } else { t }
        } else {
            if t < i { t } else if t < j - 1 { t + 1 } else if t == j - 1 { i } else { t }
        };
        assert(w[t] == a[m]);
        assert(a.contains(a[m]));
        assert(r0[a[m] as int] == r);
    }
    assert(r0[u] == r);
    if j > 0 {
        assert(r0[a[j - 1] as int] == r);
    }
    assert(rf =~= r0);
}

/// Inserting a client after another node of its own route (a client other than
/// itself, or the route's start depot) moves it to that place in the route; the
/// route remains a route with the same label, and the other nodes keep their links.
pub proof fn lemma_insert_within_route(
    n0: Seq<usize>,
    p0: Seq<usize>,
    r0: Seq<usize>,
    d: int,
    de: int,
    r: usize,
    a: Seq<usize>,
    i: int,
    j: int,
)
    requires
        insert_within_setting(n0, p0, r0, d, de, r, a, i, j),
    ensures
        ({
            let res = inserted(n0, p0, r0, a[i] as int, cut_node(d, a, j));
            &&& one_route(res.0, res.1, res.2, d, de, r, relocated_within(a, i, j))
            &&& res.2 == r0
            &&& forall|z: int| 0 <= z < n0.len() && !a.contains(z as usize) && z != d && z != de ==> #[trigger] res.0[z] == n0[z]
            &&& forall|z: int| 0 <= z < n0.len() && !a.contains(z as usize) && z != d && z != de ==> #[trigger] res.1[z] == p0[z]
        }),
{
    lemma_relocated_within_ends(n0, p0, r0, d, de, r, a, i, j);
    lemma_relocated_within_shape(n0, p0, r0, d, de, r, a, i, j);
    if j <= i {
        lemma_relocated_within_next_early(n0, p0, r0, d, de, r, a, i, j);
        lemma_relocated_within_prev_early(n0, p0, r0, d, de, r, a, i, j);
    } else {
        lemma_relocated_within_next_late(n0, p0, r0, d, de, r, a, i, j);
        lemma_relocated_within_prev_late(n0, p0, r0, d, de, r, a, i, j);
    }
}

} // verus!
