//! Exchange of two clients, as the local search's swap performs it: each takes the
//! other's place, in two different routes or inside one route.
use vstd::prelude::*;
use crate::local_search::{route_loaded, swapped};
use crate::route_moves::two_routes;
use crate::route_segment::one_route;

verus! {

/// Client `a[i]` of one route and client `b[j]` of another are to exchange places.
pub open spec fn swap_setting(
    n0: Seq<usize>,
    p0: Seq<usize>,
    r0: Seq<usize>,
    nc: int,
    du: int,
    duf: int,
    ru: usize,
    a: Seq<usize>,
    i: int,
    dv: int,
    dvf: int,
    rv: usize,
    b: Seq<usize>,
    j: int,
) -> bool {
    &&& two_routes(n0, p0, r0, nc, du, duf, ru, a, dv, dvf, rv, b)
    &&& 0 <= i < a.len()
    &&& 0 <= j < b.len()
}

/// The first route after the swap: its depots and its first and last nodes.
proof fn lemma_swapped_u_ends(
    n0: Seq<usize>,
    p0: Seq<usize>,
    r0: Seq<usize>,
    nc: int,
    du: int,
    duf: int,
    ru: usize,
    a: Seq<usize>,
    i: int,
    dv: int,
    dvf: int,
    rv: usize,
    b: Seq<usize>,
    j: int,
)
    requires
        swap_setting(n0, p0, r0, nc, du, duf, ru, a, i, dv, dvf, rv, b, j),
    ensures
        ({
            let res = swapped(n0, p0, r0, a[i] as int, b[j] as int);
            let w = a.update(i, b[j]);
            let k = w.len() as int;
            &&& res.1[du] == duf
            &&& res.0[duf] == du
            &&& res.0[du] == w[0]
            &&& res.1[duf] == w[k - 1]
        }),
{
    let la = a.len() as int;
    let lb = b.len() as int;
    let u = a[i] as int;
    let v = b[j] as int;
    let res = swapped(n0, p0, r0, u, v);
    let nf = res.0;
    let pf = res.1;
    let rf = res.2;
    let up = p0[u] as int;
    let un = n0[u] as int;
    let vp = p0[v] as int;
    let vn = n0[v] as int;
    assert(a[i] <= nc);
    assert(b[j] <= nc);
    assert(a[i] != b[j]);
    if i > 0 {
        assert(a[i - 1] <= nc);
        assert(up == a[i - 1]);
        assert(a[i - 1] != b[j]);
    } else {
        assert(up == du);
    }
    if i < la - 1 {
        assert(a[i + 1] <= nc);
        assert(un == a[i + 1]);
        assert(a[i + 1] != b[j]);
    } else {
        assert(un == duf);
    }
    if j > 0 {
        assert(b[j - 1] <= nc);
        assert(vp == b[j - 1]);
        assert(b[j - 1] != a[i]);
        if i > 0 {
            assert(b[j - 1] != a[i - 1]);
        }
        if i < la - 1 {
            assert(b[j - 1] != a[i + 1]);
        }
    } else {
        assert(vp == dv);
    }
    if j < lb - 1 {
        assert(b[j + 1] <= nc);
        assert(vn == b[j + 1]);
        assert(b[j + 1] != a[i]);
        if i > 0 {
            assert(b[j + 1] != a[i - 1]);
        }
        if i < la - 1 {
            assert(b[j + 1] != a[i + 1]);
        }
    } else {
        assert(vn == dvf);
    }
    if la > 0 {
        assert(a[0] <= nc);
        assert(a[la - 1] <= nc);
    }
    if lb > 0 {
        assert(b[0] <= nc);
        assert(b[lb - 1] <= nc);
    }
    let w = a.update(i, b[j]);
    let k = w.len() as int;
    assert(pf[du] == duf) by {
        assert(p0[du] == duf);
    }
    assert(nf[duf] == du) by {
        assert(n0[duf] == du);
    }
    assert(nf[du] == w[0]) by {
        if i > 0 {
            assert(n0[du] == a[0]);
            assert(w[0] == a[0]);
        }
    }
    assert(pf[duf] == w[k - 1]) by {
        if i < la - 1 {
            assert(p0[duf] == a[la - 1]);
            assert(w[k - 1] == a[la - 1]);
        }
    }
}

/// The first route after the swap: the labels of its clients.
proof fn lemma_swapped_u_labels(
    n0: Seq<usize>,
    p0: Seq<usize>,
    r0: Seq<usize>,
    nc: int,
    du: int,
    duf: int,
    ru: usize,
    a: Seq<usize>,
    i: int,
    dv: int,
    dvf: int,
    rv: usize,
    b: Seq<usize>,
    j: int,
)
    requires
        swap_setting(n0, p0, r0, nc, du, duf, ru, a, i, dv, dvf, rv, b, j),
    ensures
        ({
            let res = swapped(n0, p0, r0, a[i] as int, b[j] as int);
            let w = a.update(i, b[j]);
            forall|t: int| 0 <= t < w.len() ==> #[trigger] res.2[w[t] as int] == ru
        }),
{
    let la = a.len() as int;
    let lb = b.len() as int;
    let u = a[i] as int;
    let v = b[j] as int;
    let res = swapped(n0, p0, r0, u, v);
    let nf = res.0;
    let pf = res.1;
    let rf = res.2;
    let up = p0[u] as int;
    let un = n0[u] as int;
    let vp = p0[v] as int;
    let vn = n0[v] as int;
    assert(a[i] <= nc);
    assert(b[j] <= nc);
    assert(a[i] != b[j]);
    if i > 0 {
        assert(a[i - 1] <= nc);
        assert(up == a[i - 1]);
        assert(a[i - 1] != b[j]);
    } else {
        assert(up == du);
    }
    if i < la - 1 {
        assert(a[i + 1] <= nc);
        assert(un == a[i + 1]);
        assert(a[i + 1] != b[j]);
    } else {
        assert(un == duf);
    }
    if j > 0 {
        assert(b[j - 1] <= nc);
        assert(vp == b[j - 1]);
        assert(b[j - 1] != a[i]);
        if i > 0 {
            assert(b[j - 1] != a[i - 1]);
        }
        if i < la - 1 {
            assert(b[j - 1] != a[i + 1]);
        }
    } else {
        assert(vp == dv);
    }
    if j < lb - 1 {
        assert(b[j + 1] <= nc);
        assert(vn == b[j + 1]);
        assert(b[j + 1] != a[i]);
        if i > 0 {
            assert(b[j + 1] != a[i - 1]);
        }
        if i < la - 1 {
            assert(b[j + 1] != a[i + 1]);
        }
    } else {
        assert(vn == dvf);
    }
    if la > 0 {
        assert(a[0] <= nc);
        assert(a[la - 1] <= nc);
    }
    if lb > 0 {
        assert(b[0] <= nc);
        assert(b[lb - 1] <= nc);
    }
    let w = a.update(i, b[j]);
    assert forall|t: int| 0 <= t < w.len() implies #[trigger] rf[w[t] as int] == ru by {
        if t != i {
            assert(a[t] != a[i]);
            assert(a[t] != b[j]);
            assert(r0[a[t] as int] == ru);
        } else {
            assert(r0[a[i] as int] == ru);
        }
    }
}

/// The first route after the swap: the successors of its clients.
proof fn lemma_swapped_u_next(
    n0: Seq<usize>,
    p0: Seq<usize>,
    r0: Seq<usize>,
    nc: int,
    du: int,
    duf: int,
    ru: usize,
    a: Seq<usize>,
    i: int,
    dv: int,
    dvf: int,
    rv: usize,
    b: Seq<usize>,
    j: int,
)
    requires
        swap_setting(n0, p0, r0, nc, du, duf, ru, a, i, dv, dvf, rv, b, j),
    ensures
        ({
            let res = swapped(n0, p0, r0, a[i] as int, b[j] as int);
            let w = a.update(i, b[j]);
            forall|t: int| 0 <= t < w.len() ==> #[trigger] res.0[w[t] as int] == (if t == w.len() - 1 { duf as usize } else { w[t + 1] })
        }),
{
    let la = a.len() as int;
    let lb = b.len() as int;
    let u = a[i] as int;
    let v = b[j] as int;
    let res = swapped(n0, p0, r0, u, v);
    let nf = res.0;
    let pf = res.1;
    let rf = res.2;
    let up = p0[u] as int;
    let un = n0[u] as int;
    let vp = p0[v] as int;
    let vn = n0[v] as int;
    assert(a[i] <= nc);
    assert(b[j] <= nc);
    assert(a[i] != b[j]);
    if i > 0 {
        assert(a[i - 1] <= nc);
        assert(up == a[i - 1]);
        assert(a[i - 1] != b[j]);
    } else {
        assert(up == du);
    }
    if i < la - 1 {
        assert(a[i + 1] <= nc);
        assert(un == a[i + 1]);
        assert(a[i + 1] != b[j]);
    } else {
        assert(un == duf);
    }
    if j > 0 {
        assert(b[j - 1] <= nc);
        assert(vp == b[j - 1]);
        assert(b[j - 1] != a[i]);
        if i > 0 {
            assert(b[j - 1] != a[i - 1]);
        }
        if i < la - 1 {
            assert(b[j - 1] != a[i + 1]);
        }
    } else {
        assert(vp == dv);
    }
    if j < lb - 1 {
        assert(b[j + 1] <= nc);
        assert(vn == b[j + 1]);
        assert(b[j + 1] != a[i]);
        if i > 0 {
            assert(b[j + 1] != a[i - 1]);
        }
        if i < la - 1 {
            assert(b[j + 1] != a[i + 1]);
        }
    } else {
        assert(vn == dvf);
    }
    if la > 0 {
        assert(a[0] <= nc);
        assert(a[la - 1] <= nc);
    }
    if lb > 0 {
        assert(b[0] <= nc);
        assert(b[lb - 1] <= nc);
    }
    let w = a.update(i, b[j]);
    assert forall|t: int| 0 <= t < w.len() implies #[trigger] nf[w[t] as int] == (if t == w.len() - 1 {
        duf as usize
    } else {
        w[t + 1]
    }) by {
        if t != i {
            assert(a[t] != a[i]);
            assert(a[t] != b[j]);
            assert(a[t] <= nc);
            if t != i - 1 {
                if i > 0 {
                    assert(a[t] != a[i - 1]);
                }
                if t < la - 1 {
                    assert(n0[a[t] as int] == a[t + 1]);
                }
            }
        }
    }
}

/// The first route after the swap: the predecessors of its clients.
proof fn lemma_swapped_u_prev(
    n0: Seq<usize>,
    p0: Seq<usize>,
    r0: Seq<usize>,
    nc: int,
    du: int,
    duf: int,
    ru: usize,
    a: Seq<usize>,
    i: int,
    dv: int,
    dvf: int,
    rv: usize,
    b: Seq<usize>,
    j: int,
)
    requires
        swap_setting(n0, p0, r0, nc, du, duf, ru, a, i, dv, dvf, rv, b, j),
    ensures
        ({
            let res = swapped(n0, p0, r0, a[i] as int, b[j] as int);
            let w = a.update(i, b[j]);
            forall|t: int| 0 <= t < w.len() ==> #[trigger] res.1[w[t] as int] == (if t == 0 { du as usize } else { w[t - 1] })
        }),
{
    let la = a.len() as int;
    let lb = b.len() as int;
    let u = a[i] as int;
    let v = b[j] as int;
    let res = swapped(n0, p0, r0, u, v);
    let nf = res.0;
    let pf = res.1;
    let rf = res.2;
    let up = p0[u] as int;
    let un = n0[u] as int;
    let vp = p0[v] as int;
    let vn = n0[v] as int;
    assert(a[i] <= nc);
    assert(b[j] <= nc);
    assert(a[i] != b[j]);
    if i > 0 {
        assert(a[i - 1] <= nc);
        assert(up == a[i - 1]);
        assert(a[i - 1] != b[j]);
    } else {
        assert(up == du);
    }
    if i < la - 1 {
        assert(a[i + 1] <= nc);
        assert(un == a[i + 1]);
        assert(a[i + 1] != b[j]);
    } else {
        assert(un == duf);
    }
    if j > 0 {
        assert(b[j - 1] <= nc);
        assert(vp == b[j - 1]);
        assert(b[j - 1] != a[i]);
        if i > 0 {
            assert(b[j - 1] != a[i - 1]);
        }
        if i < la - 1 {
            assert(b[j - 1] != a[i + 1]);
        }
    } else {
        assert(vp == dv);
    }
    if j < lb - 1 {
        assert(b[j + 1] <= nc);
        assert(vn == b[j + 1]);
        assert(b[j + 1] != a[i]);
        if i > 0 {
            assert(b[j + 1] != a[i - 1]);
        }
        if i < la - 1 {
            assert(b[j + 1] != a[i + 1]);
        }
    } else {
        assert(vn == dvf);
    }
    if la > 0 {
        assert(a[0] <= nc);
        assert(a[la - 1] <= nc);
    }
    if lb > 0 {
        assert(b[0] <= nc);
        assert(b[lb - 1] <= nc);
    }
    let w = a.update(i, b[j]);
    assert forall|t: int| 0 <= t < w.len() implies #[trigger] pf[w[t] as int] == (if t == 0 {
        du as usize
    } else {
        w[t - 1]
    }) by {
        if t != i {
            assert(a[t] != a[i]);
            assert(a[t] != b[j]);
            assert(a[t] <= nc);
            if t != i + 1 {
                if i < la - 1 {
                    assert(a[t] != a[i + 1]);
                }
                if t > 0 {
                    assert(p0[a[t] as int] == a[t - 1]);
                }
            }
        }
    }
}

/// The second route after the swap: its depots and its first and last nodes.
proof fn lemma_swapped_v_ends(
    n0: Seq<usize>,
    p0: Seq<usize>,
    r0: Seq<usize>,
    nc: int,
    du: int,
    duf: int,
    ru: usize,
    a: Seq<usize>,
    i: int,
    dv: int,
    dvf: int,
    rv: usize,
    b: Seq<usize>,
    j: int,
)
    requires
        swap_setting(n0, p0, r0, nc, du, duf, ru, a, i, dv, dvf, rv, b, j),
    ensures
        ({
            let res = swapped(n0, p0, r0, a[i] as int, b[j] as int);
            let w = b.update(j, a[i]);
            let k = w.len() as int;
            &&& res.1[dv] == dvf
            &&& res.0[dvf] == dv
            &&& res.0[dv] == w[0]
            &&& res.1[dvf] == w[k - 1]
        }),
{
    let la = a.len() as int;
    let lb = b.len() as int;
    let u = a[i] as int;
    let v = b[j] as int;
    let res = swapped(n0, p0, r0, u, v);
    let nf = res.0;
    let pf = res.1;
    let rf = res.2;
    let up = p0[u] as int;
    let un = n0[u] as int;
    let vp = p0[v] as int;
    let vn = n0[v] as int;
    assert(a[i] <= nc);
    assert(b[j] <= nc);
    assert(a[i] != b[j]);
    if i > 0 {
        assert(a[i - 1] <= nc);
        assert(up == a[i - 1]);
        assert(a[i - 1] != b[j]);
    } else {
        assert(up == du);
    }
    if i < la - 1 {
        assert(a[i + 1] <= nc);
        assert(un == a[i + 1]);
        assert(a[i + 1] != b[j]);
    } else {
        assert(un == duf);
    }
    if j > 0 {
        assert(b[j - 1] <= nc);
        assert(vp == b[j - 1]);
        assert(b[j - 1] != a[i]);
        if i > 0 {
            assert(b[j - 1] != a[i - 1]);
        }
        if i < la - 1 {
            assert(b[j - 1] != a[i + 1]);
        }
    } else {
        assert(vp == dv);
    }
    if j < lb - 1 {
        assert(b[j + 1] <= nc);
        assert(vn == b[j + 1]);
        assert(b[j + 1] != a[i]);
        if i > 0 {
            assert(b[j + 1] != a[i - 1]);
        }
        if i < la - 1 {
            assert(b[j + 1] != a[i + 1]);
        }
    } else {
        assert(vn == dvf);
    }
    if la > 0 {
        assert(a[0] <= nc);
        assert(a[la - 1] <= nc);
    }
    if lb > 0 {
        assert(b[0] <= nc);
        assert(b[lb - 1] <= nc);
    }
    let w = b.update(j, a[i]);
    let k = w.len() as int;
    assert(pf[dv] == dvf) by {
        assert(p0[dv] == dvf);
    }
    assert(nf[dvf] == dv) by {
        assert(n0[dvf] == dv);
    }
    assert(nf[dv] == w[0]) by {
        if j > 0 {
            assert(n0[dv] == b[0]);
            assert(w[0] == b[0]);
        }
    }
    assert(pf[dvf] == w[k - 1]) by {
        if j < lb - 1 {
            assert(p0[dvf] == b[lb - 1]);
            assert(w[k - 1] == b[lb - 1]);
        }
    }
}

/// The second route after the swap: the labels of its clients.
proof fn lemma_swapped_v_labels(
    n0: Seq<usize>,
    p0: Seq<usize>,
    r0: Seq<usize>,
    nc: int,
    du: int,
    duf: int,
    ru: usize,
    a: Seq<usize>,
    i: int,
    dv: int,
    dvf: int,
    rv: usize,
    b: Seq<usize>,
    j: int,
)
    requires
        swap_setting(n0, p0, r0, nc, du, duf, ru, a, i, dv, dvf, rv, b, j),
    ensures
        ({
            let res = swapped(n0, p0, r0, a[i] as int, b[j] as int);
            let w = b.update(j, a[i]);
            forall|t: int| 0 <= t < w.len() ==> #[trigger] res.2[w[t] as int] == rv
        }),
{
    let la = a.len() as int;
    let lb = b.len() as int;
    let u = a[i] as int;
    let v = b[j] as int;
    let res = swapped(n0, p0, r0, u, v);
    let nf = res.0;
    let pf = res.1;
    let rf = res.2;
    let up = p0[u] as int;
    let un = n0[u] as int;
    let vp = p0[v] as int;
    let vn = n0[v] as int;
    assert(a[i] <= nc);
    assert(b[j] <= nc);
    assert(a[i] != b[j]);
    if i > 0 {
        assert(a[i - 1] <= nc);
        assert(up == a[i - 1]);
        assert(a[i - 1] != b[j]);
    } else {
        assert(up == du);
    }
    if i < la - 1 {
        assert(a[i + 1] <= nc);
        assert(un == a[i + 1]);
        assert(a[i + 1] != b[j]);
    } else {
        assert(un == duf);
    }
    if j > 0 {
        assert(b[j - 1] <= nc);
        assert(vp == b[j - 1]);
        assert(b[j - 1] != a[i]);
        if i > 0 {
            assert(b[j - 1] != a[i - 1]);
        }
        if i < la - 1 {
            assert(b[j - 1] != a[i + 1]);
        }
    } else {
        assert(vp == dv);
    }
    if j < lb - 1 {
        assert(b[j + 1] <= nc);
        assert(vn == b[j + 1]);
        assert(b[j + 1] != a[i]);
        if i > 0 {
            assert(b[j + 1] != a[i - 1]);
        }
        if i < la - 1 {
            assert(b[j + 1] != a[i + 1]);
        }
    } else {
        assert(vn == dvf);
    }
    if la > 0 {
        assert(a[0] <= nc);
        assert(a[la - 1] <= nc);
    }
    if lb > 0 {
        assert(b[0] <= nc);
        assert(b[lb - 1] <= nc);
    }
    let w = b.update(j, a[i]);
    assert forall|t: int| 0 <= t < w.len() implies #[trigger] rf[w[t] as int] == rv by {
        if t != j {
            assert(b[t] != a[i]);
            assert(b[t] != b[j]);
            assert(r0[b[t] as int] == rv);
        } else {
            assert(r0[b[j] as int] == rv);
        }
    }
}

/// The second route after the swap: the successors of its clients.
proof fn lemma_swapped_v_next(
    n0: Seq<usize>,
    p0: Seq<usize>,
    r0: Seq<usize>,
    nc: int,
    du: int,
    duf: int,
    ru: usize,
    a: Seq<usize>,
    i: int,
    dv: int,
    dvf: int,
    rv: usize,
    b: Seq<usize>,
    j: int,
)
    requires
        swap_setting(n0, p0, r0, nc, du, duf, ru, a, i, dv, dvf, rv, b, j),
    ensures
        ({
            let res = swapped(n0, p0, r0, a[i] as int, b[j] as int);
            let w = b.update(j, a[i]);
            forall|t: int| 0 <= t < w.len() ==> #[trigger] res.0[w[t] as int] == (if t == w.len() - 1 { dvf as usize } else { w[t + 1] })
        }),
{
    let la = a.len() as int;
    let lb = b.len() as int;
    let u = a[i] as int;
    let v = b[j] as int;
    let res = swapped(n0, p0, r0, u, v);
    let nf = res.0;
    let pf = res.1;
    let rf = res.2;
    let up = p0[u] as int;
    let un = n0[u] as int;
    let vp = p0[v] as int;
    let vn = n0[v] as int;
    assert(a[i] <= nc);
    assert(b[j] <= nc);
    assert(a[i] != b[j]);
    if i > 0 {
        assert(a[i - 1] <= nc);
        assert(up == a[i - 1]);
        assert(a[i - 1] != b[j]);
    } else {
        assert(up == du);
    }
    if i < la - 1 {
        assert(a[i + 1] <= nc);
        assert(un == a[i + 1]);
        assert(a[i + 1] != b[j]);
    } else {
        assert(un == duf);
    }
    if j > 0 {
        assert(b[j - 1] <= nc);
        assert(vp == b[j - 1]);
        assert(b[j - 1] != a[i]);
        if i > 0 {
            assert(b[j - 1] != a[i - 1]);
        }
        if i < la - 1 {
            assert(b[j - 1] != a[i + 1]);
        }
    } else {
        assert(vp == dv);
    }
    if j < lb - 1 {
        assert(b[j + 1] <= nc);
        assert(vn == b[j + 1]);
        assert(b[j + 1] != a[i]);
        if i > 0 {
            assert(b[j + 1] != a[i - 1]);
        }
        if i < la - 1 {
            assert(b[j + 1] != a[i + 1]);
        }
    } else {
        assert(vn == dvf);
    }
    if la > 0 {
        assert(a[0] <= nc);
        assert(a[la - 1] <= nc);
    }
    if lb > 0 {
        assert(b[0] <= nc);
        assert(b[lb - 1] <= nc);
    }
    let w = b.update(j, a[i]);
    assert forall|t: int| 0 <= t < w.len() implies #[trigger] nf[w[t] as int] == (if t == w.len() - 1 {
        dvf as usize
    } else {
        w[t + 1]
    }) by {
        if t != j {
            assert(b[t] != a[i]);
            assert(b[t] != b[j]);
            assert(b[t] <= nc);
            if t != j - 1 {
                if j > 0 {
                    assert(b[t] != b[j - 1]);
                }
                if t < lb - 1 {
                    assert(n0[b[t] as int] == b[t + 1]);
                }
            }
        }
    }
}

/// The second route after the swap: the predecessors of its clients.
proof fn lemma_swapped_v_prev(
    n0: Seq<usize>,
    p0: Seq<usize>,
    r0: Seq<usize>,
    nc: int,
    du: int,
    duf: int,
    ru: usize,
    a: Seq<usize>,
    i: int,
    dv: int,
    dvf: int,
    rv: usize,
    b: Seq<usize>,
    j: int,
)
    requires
        swap_setting(n0, p0, r0, nc, du, duf, ru, a, i, dv, dvf, rv, b, j),
    ensures
        ({
            let res = swapped(n0, p0, r0, a[i] as int, b[j] as int);
            let w = b.update(j, a[i]);
            forall|t: int| 0 <= t < w.len() ==> #[trigger] res.1[w[t] as int] == (if t == 0 { dv as usize } else { w[t - 1] })
        }),
{
    let la = a.len() as int;
    let lb = b.len() as int;
    let u = a[i] as int;
    let v = b[j] as int;
    let res = swapped(n0, p0, r0, u, v);
    let nf = res.0;
    let pf = res.1;
    let rf = res.2;
    let up = p0[u] as int;
    let un = n0[u] as int;
    let vp = p0[v] as int;
    let vn = n0[v] as int;
    assert(a[i] <= nc);
    assert(b[j] <= nc);
    assert(a[i] != b[j]);
    if i > 0 {
        assert(a[i - 1] <= nc);
        assert(up == a[i - 1]);
        assert(a[i - 1] != b[j]);
    } else {
        assert(up == du);
    }
    if i < la - 1 {
        assert(a[i + 1] <= nc);
        assert(un == a[i + 1]);
        assert(a[i + 1] != b[j]);
    } else {
        assert(un == duf);
    }
    if j > 0 {
        assert(b[j - 1] <= nc);
        assert(vp == b[j - 1]);
        assert(b[j - 1] != a[i]);
        if i > 0 {
            assert(b[j - 1] != a[i - 1]);
        }
        if i < la - 1 {
            assert(b[j - 1] != a[i + 1]);
        }
    } else {
        assert(vp == dv);
    }
    if j < lb - 1 {
        assert(b[j + 1] <= nc);
        assert(vn == b[j + 1]);
        assert(b[j + 1] != a[i]);
        if i > 0 {
            assert(b[j + 1] != a[i - 1]);
        }
        if i < la - 1 {
            assert(b[j + 1] != a[i + 1]);
        }
    } else {
        assert(vn == dvf);
    }
    if la > 0 {
        assert(a[0] <= nc);
        assert(a[la - 1] <= nc);
    }
    if lb > 0 {
        assert(b[0] <= nc);
        assert(b[lb - 1] <= nc);
    }
    let w = b.update(j, a[i]);
    assert forall|t: int| 0 <= t < w.len() implies #[trigger] pf[w[t] as int] == (if t == 0 {
        dv as usize
    } else {
        w[t - 1]
    }) by {
        if t != j {
            assert(b[t] != a[i]);
            assert(b[t] != b[j]);
            assert(b[t] <= nc);
            if t != j + 1 {
                if j < lb - 1 {
                    assert(b[t] != b[j + 1]);
                }
                if t > 0 {
                    assert(p0[b[t] as int] == b[t - 1]);
                }
            }
        }
    }
}

/// The two routes after the swap hold distinct clients; the nodes outside them keep
/// their links and labels.
proof fn lemma_swapped_shape_frame(
    n0: Seq<usize>,
    p0: Seq<usize>,
    r0: Seq<usize>,
    nc: int,
    du: int,
    duf: int,
    ru: usize,
    a: Seq<usize>,
    i: int,
    dv: int,
    dvf: int,
    rv: usize,
    b: Seq<usize>,
    j: int,
)
    requires
        swap_setting(n0, p0, r0, nc, du, duf, ru, a, i, dv, dvf, rv, b, j),
    ensures
        ({
            let res = swapped(n0, p0, r0, a[i] as int, b[j] as int);
            let w1 = a.update(i, b[j]);
            let w2 = b.update(j, a[i]);
            &&& w1.no_duplicates()
            &&& w2.no_duplicates()
            &&& forall|t: int| 0 <= t < w1.len() ==> #[trigger] w1[t] <= nc
            &&& forall|t: int| 0 <= t < w2.len() ==> #[trigger] w2[t] <= nc
            &&& forall|t1: int, t2: int| 0 <= t1 < w1.len() && 0 <= t2 < w2.len() ==> #[trigger] w1[t1] != #[trigger] w2[t2]
            &&& forall|z: int|
                0 <= z < n0.len() && !a.contains(z as usize) && !b.contains(z as usize) && z != du
                    && z != dv && z != duf && z != dvf ==> #[trigger] res.0[z] == n0[z]
            &&& forall|z: int|
                0 <= z < n0.len() && !a.contains(z as usize) && !b.contains(z as usize) && z != du
                    && z != dv && z != duf && z != dvf ==> #[trigger] res.1[z] == p0[z]
            &&& forall|z: int| 0 <= z < n0.len() && z != a[i] && z != b[j] ==> #[trigger] res.2[z] == r0[z]
        }),
{
    let la = a.len() as int;
    let lb = b.len() as int;
    let u = a[i] as int;
    let v = b[j] as int;
    let res = swapped(n0, p0, r0, u, v);
    let nf = res.0;
    let pf = res.1;
    let rf = res.2;
    let up = p0[u] as int;
    let un = n0[u] as int;
    let vp = p0[v] as int;
    let vn = n0[v] as int;
    assert(a[i] <= nc);
    assert(b[j] <= nc);
    assert(a[i] != b[j]);
    if i > 0 {
        assert(a[i - 1] <= nc);
        assert(up == a[i - 1]);
        assert(a[i - 1] != b[j]);
    } else {
        assert(up == du);
    }
    if i < la - 1 {
        assert(a[i + 1] <= nc);
        assert(un == a[i + 1]);
        assert(a[i + 1] != b[j]);
    } else {
        assert(un == duf);
    }
    if j > 0 {
        assert(b[j - 1] <= nc);
        assert(vp == b[j - 1]);
        assert(b[j - 1] != a[i]);
        if i > 0 {
            assert(b[j - 1] != a[i - 1]);
        }
        if i < la - 1 {
            assert(b[j - 1] != a[i + 1]);
        }
    } else {
        assert(vp == dv);
    }
    if j < lb - 1 {
        assert(b[j + 1] <= nc);
        assert(vn == b[j + 1]);
        assert(b[j + 1] != a[i]);
        if i > 0 {
            assert(b[j + 1] != a[i - 1]);
        }
        if i < la - 1 {
            assert(b[j + 1] != a[i + 1]);
        }
    } else {
        assert(vn == dvf);
    }
    if la > 0 {
        assert(a[0] <= nc);
        assert(a[la - 1] <= nc);
    }
    if lb > 0 {
        assert(b[0] <= nc);
        assert(b[lb - 1] <= nc);
    }
    let w1 = a.update(i, b[j]);
    let w2 = b.update(j, a[i]);
    assert forall|t1: int, t2: int| 0 <= t1 < w1.len() && 0 <= t2 < w1.len() && t1 != t2 implies w1[t1] != w1[t2] by {
        if t1 != i && t2 != i {
            assert(a[t1] != a[t2]);
        } else if t1 == i {
            assert(a[t2] != b[j]);
        } else {
            assert(a[t1] != b[j]);
        }
    }
    assert forall|t1: int, t2: int| 0 <= t1 < w2.len() && 0 <= t2 < w2.len() && t1 != t2 implies w2[t1] != w2[t2] by {
        if t1 != j && t2 != j {
            assert(b[t1] != b[t2]);
        } else if t1 == j {
            assert(a[i] != b[t2]);
        } else {
            assert(a[i] != b[t1]);
        }
    }
    assert forall|t: int| 0 <= t < w1.len() implies #[trigger] w1[t] <= nc by {
        assert(a[t] <= nc);
    }
    assert forall|t: int| 0 <= t < w2.len() implies #[trigger] w2[t] <= nc by {
        assert(b[t] <= nc);
    }
    assert forall|t1: int, t2: int| 0 <= t1 < w1.len() && 0 <= t2 < w2.len() implies #[trigger] w1[t1] != #[trigger] w2[t2] by {
        if t1 != i && t2 != j {
            assert(a[t1] != b[t2]);
        } else if t1 == i && t2 != j {
            assert(b[j] != b[t2]);
        } else if t1 != i && t2 == j {
            assert(a[t1] != a[i]);
        }
    }
    assert(a.contains(a[i]));
    assert(b.contains(b[j]));
    if i > 0 {
        assert(a.contains(a[i - 1]));
    }
    if i < la - 1 {
        assert(a.contains(a[i + 1]));
    }
    if j > 0 {
        assert(b.contains(b[j - 1]));
    }
    if j < lb - 1 {
        assert(b.contains(b[j + 1]));
    }
}

/// Swapping a client of one route with a client of another route puts each in the
/// other's place, with the other's route label; the two routes remain routes, and
/// the nodes outside them keep their links and labels.
pub proof fn lemma_swap_between_routes(
    n0: Seq<usize>,
    p0: Seq<usize>,
    r0: Seq<usize>,
    nc: int,
    du: int,
    duf: int,
    ru: usize,
    a: Seq<usize>,
    i: int,
    dv: int,
    dvf: int,
    rv: usize,
    b: Seq<usize>,
    j: int,
)
    requires
        swap_setting(n0, p0, r0, nc, du, duf, ru, a, i, dv, dvf, rv, b, j),
    ensures
        ({
            let res = swapped(n0, p0, r0, a[i] as int, b[j] as int);
            &&& two_routes(res.0, res.1, res.2, nc, du, duf, ru, a.update(i, b[j]), dv, dvf, rv, b.update(j, a[i]))
            &&& forall|z: int|
                0 <= z < n0.len() && !a.contains(z as usize) && !b.contains(z as usize) && z != du
                    && z != dv && z != duf && z != dvf ==> #[trigger] res.0[z] == n0[z]
            &&& forall|z: int|
                0 <= z < n0.len() && !a.contains(z as usize) && !b.contains(z as usize) && z != du
                    && z != dv && z != duf && z != dvf ==> #[trigger] res.1[z] == p0[z]
            &&& forall|z: int| 0 <= z < n0.len() && z != a[i] && z != b[j] ==> #[trigger] res.2[z] == r0[z]
        }),
{
    lemma_swapped_u_ends(n0, p0, r0, nc, du, duf, ru, a, i, dv, dvf, rv, b, j);
    lemma_swapped_u_labels(n0, p0, r0, nc, du, duf, ru, a, i, dv, dvf, rv, b, j);
    lemma_swapped_u_next(n0, p0, r0, nc, du, duf, ru, a, i, dv, dvf, rv, b, j);
    lemma_swapped_u_prev(n0, p0, r0, nc, du, duf, ru, a, i, dv, dvf, rv, b, j);
    lemma_swapped_v_ends(n0, p0, r0, nc, du, duf, ru, a, i, dv, dvf, rv, b, j);
    lemma_swapped_v_labels(n0, p0, r0, nc, du, duf, ru, a, i, dv, dvf, rv, b, j);
    lemma_swapped_v_next(n0, p0, r0, nc, du, duf, ru, a, i, dv, dvf, rv, b, j);
    lemma_swapped_v_prev(n0, p0, r0, nc, du, duf, ru, a, i, dv, dvf, rv, b, j);
    lemma_swapped_shape_frame(n0, p0, r0, nc, du, duf, ru, a, i, dv, dvf, rv, b, j);
}

/// Clients `a[i]` and `a[k]` of one route, with at least one client between them,
/// are to exchange places.
pub open spec fn swap_within_setting(
    n0: Seq<usize>,
    p0: Seq<usize>,
    r0: Seq<usize>,
    d: int,
    de: int,
    r: usize,
    a: Seq<usize>,
    i: int,
    k: int,
) -> bool {
    &&& one_route(n0, p0, r0, d, de, r, a)
    &&& 0 <= i
    &&& i + 2 <= k < a.len()
}

/// The route after the swap inside it: its depots and its first and last nodes.
proof fn lemma_swapped_within_ends(
    n0: Seq<usize>,
    p0: Seq<usize>,
    r0: Seq<usize>,
    d: int,
    de: int,
    r: usize,
    a: Seq<usize>,
    i: int,
    k: int,
)
    requires
        swap_within_setting(n0, p0, r0, d, de, r, a, i, k),
    ensures
        ({
            let res = swapped(n0, p0, r0, a[i] as int, a[k] as int);
            let w = a.update(i, a[k]).update(k, a[i]);
            &&& res.1[d] == de
            &&& res.0[de] == d
            &&& res.0[d] == w[0]
            &&& res.1[de] == w[w.len() - 1]
        }),
{
    let la = a.len() as int;
    let u = a[i] as int;
    let v = a[k] as int;
    let res = swapped(n0, p0, r0, u, v);
    let nf = res.0;
    let pf = res.1;
    let rf = res.2;
    let w = a.update(i, a[k]).update(k, a[i]);
    assert(a.contains(a[i]));
    assert(a.contains(a[k]));
    assert(a.contains(a[i + 1]));
    assert(a.contains(a[k - 1]));
    if i > 0 {
        assert(a.contains(a[i - 1]));
        assert(p0[u] == a[i - 1]);
    } else {
        assert(p0[u] == d);
    }
    if k < la - 1 {
        assert(a.contains(a[k + 1]));
        assert(n0[v] == a[k + 1]);
    } else {
        assert(n0[v] == de);
    }
    assert(n0[u] == a[i + 1]);
    assert(p0[v] == a[k - 1]);
    assert(a[i] != a[k]);
    assert(a[i + 1] != a[i]);
    assert(a[k - 1] != a[k]);
    if i > 0 {
        assert(a[i - 1] != a[k]);
        assert(a[i - 1] != a[k - 1]);
        assert(a[i - 1] != a[i + 1]);
    }
    if k < la - 1 {
        assert(a[k + 1] != a[i]);
        assert(a[k + 1] != a[i + 1]);
        assert(a[k + 1] != a[k - 1]);
    }
    assert forall|t: int| 0 <= t < la implies #[trigger] w[t] == (if t == i { a[k] } else if t == k { a[i] } else { a[t] }) by {}
    assert(pf[d] == de) by {
        assert(p0[d] == de);
    }
    assert(nf[de] == d) by {
        assert(n0[de] == d);
    }
    assert(nf[d] == w[0]) by {
        if i > 0 {
            assert(n0[d] == a[0]);
            assert(a[0] != a[k - 1]);
        }
    }
    assert(pf[de] == w[la - 1]) by {
        if k < la - 1 {
            assert(p0[de] == a[la - 1]);
            assert(a[la - 1] != a[i + 1]);
        }
    }
}

/// The route after the swap inside it: the successors of its clients.
proof fn lemma_swapped_within_next(
    n0: Seq<usize>,
    p0: Seq<usize>,
    r0: Seq<usize>,
    d: int,
    de: int,
    r: usize,
    a: Seq<usize>,
    i: int,
    k: int,
)
    requires
        swap_within_setting(n0, p0, r0, d, de, r, a, i, k),
    ensures
        ({
            let res = swapped(n0, p0, r0, a[i] as int, a[k] as int);
            let w = a.update(i, a[k]).update(k, a[i]);
            forall|t: int| 0 <= t < w.len() ==> #[trigger] res.0[w[t] as int] == (if t == w.len() - 1 { de as usize } else { w[t + 1] })
        }),
{
    let la = a.len() as int;
    let u = a[i] as int;
    let v = a[k] as int;
    let res = swapped(n0, p0, r0, u, v);
    let nf = res.0;
    let pf = res.1;
    let rf = res.2;
    let w = a.update(i, a[k]).update(k, a[i]);
    assert(a.contains(a[i]));
    assert(a.contains(a[k]));
    assert(a.contains(a[i + 1]));
    assert(a.contains(a[k - 1]));
    if i > 0 {
        assert(a.contains(a[i - 1]));
        assert(p0[u] == a[i - 1]);
    } else {
        assert(p0[u] == d);
    }
    if k < la - 1 {
        assert(a.contains(a[k + 1]));
        assert(n0[v] == a[k + 1]);
    } else {
        assert(n0[v] == de);
    }
    assert(n0[u] == a[i + 1]);
    assert(p0[v] == a[k - 1]);
    assert(a[i] != a[k]);
    assert(a[i + 1] != a[i]);
    assert(a[k - 1] != a[k]);
    if i > 0 {
        assert(a[i - 1] != a[k]);
        assert(a[i - 1] != a[k - 1]);
        assert(a[i - 1] != a[i + 1]);
    }
    if k < la - 1 {
        assert(a[k + 1] != a[i]);
        assert(a[k + 1] != a[i + 1]);
        assert(a[k + 1] != a[k - 1]);
    }
    assert forall|t: int| 0 <= t < la implies #[trigger] w[t] == (if t == i { a[k] } else if t == k { a[i] } else { a[t] }) by {}
    assert forall|t: int| 0 <= t < la implies #[trigger] nf[w[t] as int] == (if t == la - 1 {
        de as usize
    } else {
        w[t + 1]
    }) by {
        if t != i && t != k {
            assert(a[t] != a[i]);
            assert(a[t] != a[k]);
            if t != i - 1 && t != k - 1 {
                if i > 0 {
                    assert(a[t] != a[i - 1]);
                }
                assert(a[t] != a[k - 1]);
                if t < la - 1 {
                    assert(n0[a[t] as int] == a[t + 1]);
                }
            }
        }
    }
}

/// The route after the swap inside it: the predecessors of its clients.
proof fn lemma_swapped_within_prev(
    n0: Seq<usize>,
    p0: Seq<usize>,
    r0: Seq<usize>,
    d: int,
    de: int,
    r: usize,
    a: Seq<usize>,
    i: int,
    k: int,
)
    requires
        swap_within_setting(n0, p0, r0, d, de, r, a, i, k),
    ensures
        ({
            let res = swapped(n0, p0, r0, a[i] as int, a[k] as int);
            let w = a.update(i, a[k]).update(k, a[i]);
            forall|t: int| 0 <= t < w.len() ==> #[trigger] res.1[w[t] as int] == (if t == 0 { d as usize } else { w[t - 1] })
        }),
{
    let la = a.len() as int;
    let u = a[i] as int;
    let v = a[k] as int;
    let res = swapped(n0, p0, r0, u, v);
    let nf = res.0;
    let pf = res.1;
    let rf = res.2;
    let w = a.update(i, a[k]).update(k, a[i]);
    assert(a.contains(a[i]));
    assert(a.contains(a[k]));
    assert(a.contains(a[i + 1]));
    assert(a.contains(a[k - 1]));
    if i > 0 {
        assert(a.contains(a[i - 1]));
        assert(p0[u] == a[i - 1]);
    } else {
        assert(p0[u] == d);
    }
    if k < la - 1 {
        assert(a.contains(a[k + 1]));
        assert(n0[v] == a[k + 1]);
    } else {
        assert(n0[v] == de);
    }
    assert(n0[u] == a[i + 1]);
    assert(p0[v] == a[k - 1]);
    assert(a[i] != a[k]);
    assert(a[i + 1] != a[i]);
    assert(a[k - 1] != a[k]);
    if i > 0 {
        assert(a[i - 1] != a[k]);
        assert(a[i - 1] != a[k - 1]);
        assert(a[i - 1] != a[i + 1]);
    }
    if k < la - 1 {
        assert(a[k + 1] != a[i]);
        assert(a[k + 1] != a[i + 1]);
        assert(a[k + 1] != a[k - 1]);
    }
    assert forall|t: int| 0 <= t < la implies #[trigger] w[t] == (if t == i { a[k] } else if t == k { a[i] } else { a[t] }) by {}
    assert forall|t: int| 0 <= t < la implies #[trigger] pf[w[t] as int] == (if t == 0 {
        d as usize
    } else {
        w[t - 1]
    }) by {
        if t != i && t != k {
            assert(a[t] != a[i]);
            assert(a[t] != a[k]);
            if t != i + 1 && t != k + 1 {
                assert(a[t] != a[i + 1]);
                if k < la - 1 {
                    assert(a[t] != a[k + 1]);
                }
                if t > 0 {
                    assert(p0[a[t] as int] == a[t - 1]);
                }
            }
        }
    }
}

/// The route after the swap inside it holds the same distinct clients, with the
/// same label; the other nodes keep their links and labels.
proof fn lemma_swapped_within_shape(
    n0: Seq<usize>,
    p0: Seq<usize>,
    r0: Seq<usize>,
    d: int,
    de: int,
    r: usize,
    a: Seq<usize>,
    i: int,
    k: int,
)
    requires
        swap_within_setting(n0, p0, r0, d, de, r, a, i, k),
    ensures
        ({
            let res = swapped(n0, p0, r0, a[i] as int, a[k] as int);
            let w = a.update(i, a[k]).update(k, a[i]);
            &&& w.no_duplicates()
            &&& forall|t: int| 0 <= t < w.len() ==> #[trigger] w[t] < n0.len()
            &&& !w.contains(d as usize)
            &&& !w.contains(de as usize)
            &&& forall|t: int| 0 <= t < w.len() ==> #[trigger] res.2[w[t] as int] == r
            &&& res.2 == r0
            &&& forall|z: int| 0 <= z < n0.len() && !a.contains(z as usize) && z != d && z != de ==> #[trigger] res.0[z] == n0[z]
            &&& forall|z: int| 0 <= z < n0.len() && !a.contains(z as usize) && z != d && z != de ==> #[trigger] res.1[z] == p0[z]
        }),
{
    let la = a.len() as int;
    let u = a[i] as int;
    let v = a[k] as int;
    let res = swapped(n0, p0, r0, u, v);
    let nf = res.0;
    let pf = res.1;
    let rf = res.2;
    let w = a.update(i, a[k]).update(k, a[i]);
    assert(a.contains(a[i]));
    assert(a.contains(a[k]));
    assert(a.contains(a[i + 1]));
    assert(a.contains(a[k - 1]));
    if i > 0 {
        assert(a.contains(a[i - 1]));
        assert(p0[u] == a[i - 1]);
    } else {
        assert(p0[u] == d);
    }
    if k < la - 1 {
        assert(a.contains(a[k + 1]));
        assert(n0[v] == a[k + 1]);
    } else {
        assert(n0[v] == de);
    }
    assert(n0[u] == a[i + 1]);
    assert(p0[v] == a[k - 1]);
    assert(a[i] != a[k]);
    assert(a[i + 1] != a[i]);
    assert(a[k - 1] != a[k]);
    if i > 0 {
        assert(a[i - 1] != a[k]);
        assert(a[i - 1] != a[k - 1]);
        assert(a[i - 1] != a[i + 1]);
    }
    if k < la - 1 {
        assert(a[k + 1] != a[i]);
        assert(a[k + 1] != a[i + 1]);
        assert(a[k + 1] != a[k - 1]);
    }
    assert forall|t: int| 0 <= t < la implies #[trigger] w[t] == (if t == i { a[k] } else if t == k { a[i] } else { a[t] }) by {}
    assert forall|t1: int, t2: int| 0 <= t1 < la && 0 <= t2 < la && t1 != t2 implies w[t1] != w[t2] by {
        let m1 = if t1 == i { k } else if t1 == k { i } else { t1 };
        let m2 = if t2 == i { k } else if t2 == k { i } else { t2 };
        assert(a[m1] != a[m2]);
    }
    assert forall|t: int| 0 <= t < la implies #[trigger] w[t] < n0.len() && w[t] != d as usize && w[t] != de as usize && rf[w[t] as int] == r by {
        let m = if t == i { k } else if t == k { i } else { t };
        assert(a.contains(a[m]));
        assert(r0[a[m] as int] == r);
    }
    assert(r0[u] == r);
    assert(r0[v] == r);
    assert(rf =~= r0);
}

/// Swapping two clients of the same route, with at least one client between them,
/// exchanges their places in the route; the route remains a route with the same
/// label, and the other nodes keep their links.
pub proof fn lemma_swap_within_route(
    n0: Seq<usize>,
    p0: Seq<usize>,
    r0: Seq<usize>,
    d: int,
    de: int,
    r: usize,
    a: Seq<usize>,
    i: int,
    k: int,
)
    requires
        swap_within_setting(n0, p0, r0, d, de, r, a, i, k),
    ensures
        ({
            let res = swapped(n0, p0, r0, a[i] as int, a[k] as int);
            &&& one_route(res.0, res.1, res.2, d, de, r, a.update(i, a[k]).update(k, a[i]))
            &&& res.2 == r0
            &&& forall|z: int| 0 <= z < n0.len() && !a.contains(z as usize) && z != d && z != de ==> #[trigger] res.0[z] == n0[z]
            &&& forall|z: int| 0 <= z < n0.len() && !a.contains(z as usize) && z != d && z != de ==> #[trigger] res.1[z] == p0[z]
        }),
{
    lemma_swapped_within_ends(n0, p0, r0, d, de, r, a, i, k);
    lemma_swapped_within_next(n0, p0, r0, d, de, r, a, i, k);
    lemma_swapped_within_prev(n0, p0, r0, d, de, r, a, i, k);
    lemma_swapped_within_shape(n0, p0, r0, d, de, r, a, i, k);
}

} // verus!
