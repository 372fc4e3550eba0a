//! The doubly linked representation of the routes that the local search works on.
//!
//! Nodes live in one arena: indices `0..=nb_clients` are the client nodes (0 is a
//! sentinel), then one start depot per route, then one end depot per route. For
//! each node the arena records its successor, its predecessor and its route.
use vstd::prelude::*;

verus! {

/// Successor, predecessor and route of every node of the arena.
pub struct NodeLinks {
    pub next: Vec<usize>,
    pub prev: Vec<usize>,
    pub route: Vec<usize>,
}

/// Every successor and predecessor is a node, and the two relations are inverse:
/// the nodes form disjoint cycles, walked forwards by `next` and backwards by `prev`.
pub open spec fn links_consistent(next: Seq<usize>, prev: Seq<usize>) -> bool {
    &&& next.len() == prev.len()
    &&& forall|x: int| 0 <= x < next.len() ==> #[trigger] next[x] < next.len()
    &&& forall|x: int| 0 <= x < next.len() ==> #[trigger] prev[x] < next.len()
    &&& forall|x: int| 0 <= x < next.len() ==> #[trigger] prev[next[x] as int] == x
    &&& forall|x: int| 0 <= x < next.len() ==> #[trigger] next[prev[x] as int] == x
}

/// The links after `u` is taken out of its place and inserted after `v`.
pub open spec fn inserted(
    next: Seq<usize>,
    prev: Seq<usize>,
    route: Seq<usize>,
    u: int,
    v: int,
) -> (Seq<usize>, Seq<usize>, Seq<usize>) {
    let u_prev = prev[u];
    let u_next = next[u];
    let n1 = next.update(u_prev as int, u_next);
    let p1 = prev.update(u_next as int, u_prev);
    let v_next = n1[v];
    let p2 = p1.update(v_next as int, u as usize).update(u, v as usize);
    let n2 = n1.update(u, v_next).update(v, u as usize);
    (n2, p2, route.update(u, route[v]))
}

/// The links after `u` and `v` exchange their places (and routes).
pub open spec fn swapped(
    next: Seq<usize>,
    prev: Seq<usize>,
    route: Seq<usize>,
    u: int,
    v: int,
) -> (Seq<usize>, Seq<usize>, Seq<usize>) {
    let v_prev = prev[v];
    let v_next = next[v];
    let u_prev = prev[u];
    let u_next = next[u];
    let n1 = next.update(u_prev as int, v as usize);
    let p1 = prev.update(u_next as int, v as usize);
    let n2 = n1.update(v_prev as int, u as usize);
    let p2 = p1.update(v_next as int, u as usize);
    let p3 = p2.update(u, v_prev).update(v, u_prev);
    let n3 = n2.update(u, v_next).update(v, u_next);
    (n3, p3, route.update(u, route[v]).update(v, route[u]))
}

impl NodeLinks {
    /// The three arrays have the same length.
    pub open spec fn well_sized(&self) -> bool {
        self.next@.len() == self.prev@.len() == self.route@.len()
    }

    /// Solution update: insert U after V.
    pub fn insert_node(&mut self, u: usize, v: usize)
        requires
            old(self).well_sized(),
            u < old(self).next@.len(),
            v < old(self).next@.len(),
            old(self).prev@[u as int] < old(self).next@.len(),
            old(self).next@[u as int] < old(self).next@.len(),
            old(self).next@[v as int] < old(self).next@.len(),
        ensures
            final(self).well_sized(),
            (final(self).next@, final(self).prev@, final(self).route@) == inserted(
                old(self).next@,
                old(self).prev@,
                old(self).route@,
                u as int,
                v as int,
            ),
            u != v && links_consistent(old(self).next@, old(self).prev@) ==> links_consistent(
                final(self).next@,
                final(self).prev@,
            ),
            final(self).next@[v as int] == u,
            final(self).route@[u as int] == old(self).route@[v as int],
    {
        let ghost (n0, p0, r0) = (self.next@, self.prev@, self.route@);
        let u_prev: usize = self.prev[u];
        let u_next: usize = self.next[u];
        self.next.set(u_prev, u_next);
        self.prev.set(u_next, u_prev);
        let v_next: usize = self.next[v];
        self.prev.set(v_next, u);
        self.next.set(u, v_next);
        self.prev.set(u, v);
        self.next.set(v, u);
        let r: usize = self.route[v];
        self.route.set(u, r);
        proof {
            if u != v && links_consistent(n0, p0) {
                lemma_insert_consistent(n0, p0, u as int, v as int);
            }
        }
    }

    /// Solution update: swap U and V.
    pub fn swap_node(&mut self, u: usize, v: usize)
        requires
            old(self).well_sized(),
            u < old(self).next@.len(),
            v < old(self).next@.len(),
            old(self).prev@[u as int] < old(self).next@.len(),
            old(self).next@[u as int] < old(self).next@.len(),
            old(self).prev@[v as int] < old(self).next@.len(),
            old(self).next@[v as int] < old(self).next@.len(),
        ensures
            final(self).well_sized(),
            (final(self).next@, final(self).prev@, final(self).route@) == swapped(
                old(self).next@,
                old(self).prev@,
                old(self).route@,
                u as int,
                v as int,
            ),
            u != v && old(self).next@[u as int] != v && old(self).next@[v as int] != u
                && old(self).next@[u as int] != u && old(self).next@[v as int] != v
                && links_consistent(old(self).next@, old(self).prev@) ==> links_consistent(
                final(self).next@,
                final(self).prev@,
            ),
    {
        let ghost (n0, p0, r0) = (self.next@, self.prev@, self.route@);
        let v_prev: usize = self.prev[v];
        let v_next: usize = self.next[v];
        let u_prev: usize = self.prev[u];
        let u_next: usize = self.next[u];
        let route_u: usize = self.route[u];
        let route_v: usize = self.route[v];

        self.next.set(u_prev, v);
        self.prev.set(u_next, v);
        self.next.set(v_prev, u);
        self.prev.set(v_next, u);

        self.prev.set(u, v_prev);
        self.next.set(u, v_next);
        self.prev.set(v, u_prev);
        self.next.set(v, u_next);

        self.route.set(u, route_v);
        self.route.set(v, route_u);
        proof {
            if u != v && n0[u as int] != v && n0[v as int] != u && n0[u as int] != u && n0[v as int]
                != v && links_consistent(n0, p0) {
                lemma_swap_consistent(n0, p0, u as int, v as int);
            }
        }
    }

    /// Links the clients of route `r` between its start depot `depot` and its end
    /// depot `depot_end` (the end depot leading back to the start depot).
    pub fn load_route(&mut self, depot: usize, depot_end: usize, r: usize, clients: &Vec<usize>)
        requires
            old(self).well_sized(),
            depot < old(self).next@.len(),
            depot_end < old(self).next@.len(),
            forall|k: int| 0 <= k < clients.len() ==> #[trigger] clients@[k] < old(self).next@.len(),
        ensures
            final(self).well_sized(),
            final(self).next@.len() == old(self).next@.len(),
            clients@.no_duplicates() && depot != depot_end && !clients@.contains(depot)
                && !clients@.contains(depot_end) ==> route_loaded(
                final(self).next@,
                final(self).prev@,
                final(self).route@,
                depot as int,
                depot_end as int,
                r,
                clients@,
            ),
            forall|x: usize|
                x < old(self).next@.len() && x != depot && x != depot_end && !clients@.contains(x) ==> #[trigger] final(self).next@[x as int]
                    == old(self).next@[x as int],
            forall|x: usize|
                x < old(self).next@.len() && x != depot && x != depot_end && !clients@.contains(x) ==> #[trigger] final(self).prev@[x as int]
                    == old(self).prev@[x as int],
            forall|x: usize|
                x < old(self).next@.len() && x != depot && x != depot_end && !clients@.contains(x) ==> #[trigger] final(self).route@[x as int]
                    == old(self).route@[x as int],
    {
        let ghost n: int = self.next@.len() as int;
        let ghost old_next: Seq<usize> = self.next@;
        let ghost old_prev: Seq<usize> = self.prev@;
        let ghost old_route: Seq<usize> = self.route@;
        self.prev.set(depot, depot_end);
        self.next.set(depot_end, depot);
        if clients.len() == 0 {
            self.next.set(depot, depot_end);
            self.prev.set(depot_end, depot);
            return;
        }
        let mut my_client: usize = clients[0];
        self.route.set(my_client, r);
        self.prev.set(my_client, depot);
        self.next.set(depot, my_client);
        let mut i: usize = 1;
        while i < clients.len()
            invariant
                self.well_sized(),
                self.next@.len() == n,
                1 <= i <= clients@.len(),
                depot < n,
                depot_end < n,
                my_client == clients@[i - 1],
                forall|k: int| 0 <= k < clients.len() ==> #[trigger] clients@[k] < n,
                clients@.no_duplicates() && depot != depot_end && !clients@.contains(depot)
                    && !clients@.contains(depot_end) ==> {
                    &&& self.prev@[depot as int] == depot_end
                    &&& self.next@[depot_end as int] == depot
                    &&& self.next@[depot as int] == clients@[0]
                    &&& self.prev@[clients@[0] as int] == depot
                    &&& forall|k: int| 0 <= k < i ==> self.route@[#[trigger] clients@[k] as int] == r
                    &&& forall|k: int|
                        0 <= k < i - 1 ==> self.next@[#[trigger] clients@[k] as int] == clients@[k
                            + 1]
                    &&& forall|k: int|
                        1 <= k < i ==> self.prev@[#[trigger] clients@[k] as int] == clients@[k - 1]
                },
                old_next.len() == n && old_prev.len() == n && old_route.len() == n,
                forall|x: usize|
                    x < n && x != depot && x != depot_end && !clients@.contains(x) ==> #[trigger] self.next@[x as int]
                        == old_next[x as int],
                forall|x: usize|
                    x < n && x != depot && x != depot_end && !clients@.contains(x) ==> #[trigger] self.prev@[x as int]
                        == old_prev[x as int],
                forall|x: usize|
                    x < n && x != depot && x != depot_end && !clients@.contains(x) ==> #[trigger] self.route@[x as int]
                        == old_route[x as int],
            decreases clients@.len() - i,
        {
            let ghost prev_next: Seq<usize> = self.next@;
            let ghost prev_prev: Seq<usize> = self.prev@;
            let ghost prev_route: Seq<usize> = self.route@;
            let my_client_pred: usize = my_client;
            my_client = clients[i];
            self.prev.set(my_client, my_client_pred);
            self.next.set(my_client_pred, my_client);
            self.route.set(my_client, r);
            proof {
                assert(clients@.contains(my_client));
                assert(clients@.contains(my_client_pred));
                assert forall|x: usize|
                    x < n && x != depot && x != depot_end && !clients@.contains(x) implies {
                    &&& #[trigger] self.next@[x as int] == prev_next[x as int]
                    &&& self.prev@[x as int] == prev_prev[x as int]
                    &&& self.route@[x as int] == prev_route[x as int]
                } by {
                    assert(x != my_client);
                    assert(x != my_client_pred);
                }
                assert forall|x: usize|
                    x < n && x != depot && x != depot_end && !clients@.contains(x) implies #[trigger] self.prev@[x as int] == prev_prev[x as int] by {
                    assert(x != my_client);
                }
                assert forall|x: usize|
                    x < n && x != depot && x != depot_end && !clients@.contains(x) implies #[trigger] self.route@[x as int] == prev_route[x as int] by {
                    assert(x != my_client);
                }
                if clients@.no_duplicates() && depot != depot_end && !clients@.contains(depot)
                    && !clients@.contains(depot_end) {
                    assert forall|k: int| 0 <= k < i + 1 implies self.route@[#[trigger] clients@[
                        k] as int] == r by {
                        if k < i {
                            assert(clients@[k] != my_client);
                        }
                    }
                    assert forall|k: int| 0 <= k < i implies self.next@[#[trigger] clients@[
                        k] as int] == clients@[k + 1] by {
                        if k < i - 1 {
                            assert(clients@[k] != my_client_pred);
                        }
                    }
                    assert forall|k: int| 1 <= k < i + 1 implies self.prev@[#[trigger] clients@[
                        k] as int] == clients@[k - 1] by {
                        if k < i {
                            assert(clients@[k] != my_client);
                        }
                    }
                    assert(clients@[0] != my_client);
                }
            }
            i = i + 1;
        }
        let ghost before_next: Seq<usize> = self.next@;
        let ghost before_prev: Seq<usize> = self.prev@;
        self.next.set(my_client, depot_end);
        self.prev.set(depot_end, my_client);
        proof {
            assert(clients@.contains(my_client));
            assert forall|x: usize|
                x < n && x != depot && x != depot_end && !clients@.contains(x) implies #[trigger] self.next@[x as int] == before_next[x as int] by {
                assert(x != my_client);
            }
            assert forall|x: usize|
                x < n && x != depot && x != depot_end && !clients@.contains(x) implies #[trigger] self.prev@[x as int] == before_prev[x as int] by {
                assert(x != my_client);
            }
            let last = clients@.len() - 1;
            if clients@.no_duplicates() && depot != depot_end && !clients@.contains(depot)
                && !clients@.contains(depot_end) {
                assert(clients@[last] == my_client);
                assert forall|k: int| 0 <= k < last implies self.next@[#[trigger] clients@[
                    k] as int] == clients@[k + 1] by {
                    assert(clients@[k] != my_client);
                }
                assert(clients@.contains(clients@[0]));
            }
        }
    }
}

/// The route `r` is linked in order: start depot, the clients, end depot, and the
/// end depot leads back to the start depot; every client is marked with route `r`.
pub open spec fn route_loaded(
    next: Seq<usize>,
    prev: Seq<usize>,
    route: Seq<usize>,
    depot: int,
    depot_end: int,
    r: usize,
    clients: Seq<usize>,
) -> bool {
    let k = clients.len() as int;
    &&& prev[depot] == depot_end as usize
    &&& next[depot_end] == depot as usize
    &&& next[depot] == (if k == 0 {
        depot_end as usize
    } else {
        clients[0]
    })
    &&& prev[depot_end] == (if k == 0 {
        depot as usize
    } else {
        clients[k - 1]
    })
    &&& forall|i: int| 0 <= i < k ==> #[trigger] route[clients[i] as int] == r
    &&& forall|i: int|
        0 <= i < k ==> #[trigger] next[clients[i] as int] == (if i == k - 1 {
            depot_end as usize
        } else {
            clients[i + 1]
        })
    &&& forall|i: int|
        0 <= i < k ==> #[trigger] prev[clients[i] as int] == (if i == 0 {
            depot as usize
        } else {
            clients[i - 1]
        })
}

proof fn lemma_insert_consistent(next: Seq<usize>, prev: Seq<usize>, u: int, v: int)
    requires
        links_consistent(next, prev),
        0 <= u < next.len(),
        0 <= v < next.len(),
        u != v,
    ensures
        ({
            let (n2, p2, _r) = inserted(next, prev, Seq::new(next.len(), |i: int| 0usize), u, v);
            links_consistent(n2, p2)
        }),
{
    let route = Seq::new(next.len(), |i: int| 0usize);
    let t = inserted(next, prev, route, u, v);
    let n2 = t.0;
    let p2 = t.1;
    let up = prev[u] as int;
    let un = next[u] as int;
    let n1 = next.update(up, un as usize);
    let p1 = prev.update(un, up as usize);
    let vn = n1[v] as int;
    assert(next[up] == u);
    assert(prev[un] == u);
    if up == u {
        assert(un == u);
    }
    assert(vn != u);
    assert(n2 == n1.update(u, vn as usize).update(v, u as usize));
    assert(p2 == p1.update(vn, u as usize).update(u, v as usize));
    assert forall|x: int| 0 <= x < next.len() implies #[trigger] p2[n2[x] as int] == x by {
        assert(prev[next[x] as int] == x);
        if x == v {
        } else if x == u {
        } else if x == up {
            if un == vn {
                assert(prev[next[v] as int] == v);
            }
        } else {
            assert(next[x] != un);
            if v != up {
                assert(prev[next[v] as int] == v);
            }
        }
    }
    assert forall|x: int| 0 <= x < next.len() implies #[trigger] n2[p2[x] as int] == x by {
        assert(next[prev[x] as int] == x);
        if x == u {
        } else if x == vn {
        } else if x == un {
        } else {
            if v != up {
                assert(prev[next[v] as int] == v);
            }
        }
    }
}

proof fn lemma_swap_consistent(next: Seq<usize>, prev: Seq<usize>, u: int, v: int)
    requires
        links_consistent(next, prev),
        0 <= u < next.len(),
        0 <= v < next.len(),
        u != v,
        next[u] != v,
        next[v] != u,
        next[u] != u,
        next[v] != v,
    ensures
        ({
            let (n3, p3, _r) = swapped(next, prev, Seq::new(next.len(), |i: int| 0usize), u, v);
            links_consistent(n3, p3)
        }),
{
    let route = Seq::new(next.len(), |i: int| 0usize);
    let t = swapped(next, prev, route, u, v);
    let n3 = t.0;
    let p3 = t.1;
    let up = prev[u] as int;
    let un = next[u] as int;
    let vp = prev[v] as int;
    let vn = next[v] as int;
    assert(next[up] == u);
    assert(prev[un] == u);
    assert(next[vp] == v);
    assert(prev[vn] == v);
    assert(up != v);
    assert(vp != u);
    assert(un != v);
    assert(vn != u);
    assert(up != vp);
    assert(un != vn);
    let n1 = next.update(up, v as usize);
    let p1 = prev.update(un, v as usize);
    let n2 = n1.update(vp, u as usize);
    let p2 = p1.update(vn, u as usize);
    assert(n3 == n2.update(u, vn as usize).update(v, un as usize));
    assert(p3 == p2.update(u, vp as usize).update(v, up as usize));
    assert forall|x: int| 0 <= x < next.len() implies #[trigger] p3[n3[x] as int] == x by {
        assert(prev[next[x] as int] == x);
        if x == u {
        } else if x == v {
        } else if x == up {
        } else if x == vp {
        } else {
            assert(next[x] != u);
            assert(next[x] != v);
            assert(next[x] != vn);
            assert(next[x] != un);
        }
    }
    assert forall|x: int| 0 <= x < next.len() implies #[trigger] n3[p3[x] as int] == x by {
        assert(next[prev[x] as int] == x);
        if x == u {
        } else if x == v {
        } else if x == un {
        } else if x == vn {
        } else {
            assert(prev[x] != u);
            assert(prev[x] != v);
            assert(prev[x] != vp);
            assert(prev[x] != up);
        }
    }
}

} // verus!
