//! Integer parts of the representation of a solution: the random giant tour of a
//! new individual, and the successor and predecessor of every client in the routes.
use vstd::prelude::*;
use crate::rng::{MinstdRand, fisher_yates, is_permutation, is_index_bijection};

verus! {

/// A giant tour over `n` clients: each client `1..=n` exactly once.
pub open spec fn is_giant_tour(s: Seq<usize>, n: int) -> bool {
    &&& s.len() == n
    &&& forall|k: int| 0 <= k < s.len() ==> 1 <= #[trigger] s[k] <= n
    &&& s.no_duplicates()
}

/// The clients `1..=n` in increasing order.
pub open spec fn identity_tour(n: nat) -> Seq<usize> {
    Seq::new(n, |k: int| (k + 1) as usize)
}

/// Creates the giant tour of a random individual: the clients `1..=nb_clients`
/// shuffled by the generator.
pub fn random_giant_tour(rng: &mut MinstdRand, nb_clients: usize) -> (tour: Vec<usize>)
    requires
        nb_clients <= 2147483646,
    ensures
        (tour@, final(rng)@) == fisher_yates(
            identity_tour(nb_clients as nat),
            old(rng)@,
            nb_clients - 1,
        ),
        is_giant_tour(tour@, nb_clients as int),
{
    let mut tour: Vec<usize> = Vec::new();
    let mut k: usize = 0;
    while k < nb_clients
        invariant
            k <= nb_clients <= 2147483646,
            tour@ == identity_tour(k as nat),
        decreases nb_clients - k,
    {
        tour.push(k + 1);
        k = k + 1;
        proof {
            assert(tour@ =~= identity_tour(k as nat));
        }
    }
    let ghost initial: Seq<usize> = tour@;
    rng.shuffle(tour.as_mut_slice());
    proof {
        let p = choose|p: Seq<int>|
            is_index_bijection(p, tour@.len() as int) && forall|k: int|
                0 <= k < tour@.len() ==> tour@[k] == initial[#[trigger] p[k]];
        assert forall|k: int| 0 <= k < tour@.len() implies 1 <= #[trigger] tour@[k]
            <= nb_clients by {
            assert(tour@[k] == initial[p[k]]);
        }
        assert forall|k1: int, k2: int|
            0 <= k1 < tour@.len() && 0 <= k2 < tour@.len() && k1 != k2 implies tour@[k1]
            != tour@[k2] by {
            assert(tour@[k1] == initial[p[k1]]);
            assert(tour@[k2] == initial[p[k2]]);
            assert(p[k1] != p[k2]);
        }
    }
    tour
}

/// Successors and predecessors after linking the positions `1..i` of a route (its
/// first client has already been given the depot as predecessor).
pub open spec fn link_chain(succ: Seq<usize>, pred: Seq<usize>, route: Seq<usize>, i: int) -> (
    Seq<usize>,
    Seq<usize>,
)
    decreases i,
{
    if i <= 1 {
        (succ, pred.update(route[0] as int, 0))
    } else {
        let prior = link_chain(succ, pred, route, i - 1);
        (
            prior.0.update(route[i - 2] as int, route[i - 1]),
            prior.1.update(route[i - 1] as int, route[i - 2]),
        )
    }
}

/// Successors and predecessors after linking a route: each client is preceded by
/// the client before it (the depot, 0, for the first one) and followed by the
/// client after it (the depot for the last one).
pub open spec fn link_route(succ: Seq<usize>, pred: Seq<usize>, route: Seq<usize>) -> (
    Seq<usize>,
    Seq<usize>,
) {
    if route.len() == 0 {
        (succ, pred)
    } else {
        let chained = link_chain(succ, pred, route, route.len() as int);
        (chained.0.update(route.last() as int, 0), chained.1)
    }
}

/// Successors and predecessors after linking the routes in order.
pub open spec fn link_routes(succ: Seq<usize>, pred: Seq<usize>, routes: Seq<Seq<usize>>) -> (
    Seq<usize>,
    Seq<usize>,
)
    decreases routes.len(),
{
    if routes.len() == 0 {
        (succ, pred)
    } else {
        let before = link_routes(succ, pred, routes.drop_last());
        link_route(before.0, before.1, routes.last())
    }
}

/// No client appears twice in the routes.
pub open spec fn clients_distinct(routes: Seq<Seq<usize>>) -> bool {
    forall|k1: int, i1: int, k2: int, i2: int|
        0 <= k1 < routes.len() && 0 <= i1 < routes[k1].len() && 0 <= k2 < routes.len() && 0 <= i2
            < routes[k2].len() && (k1 != k2 || i1 != i2) ==> #[trigger] routes[k1][i1]
            != #[trigger] routes[k2][i2]
}

/// Node `z` is a client of one of the routes.
pub open spec fn in_routes(routes: Seq<Seq<usize>>, z: usize) -> bool {
    exists|k: int, i: int| 0 <= k < routes.len() && 0 <= i < routes[k].len() && #[trigger] routes[k][i] == z
}

/// The successor of every client is the next client of its route (the depot, 0,
/// after the last one) and its predecessor the client before it (0 before the first
/// one); the other nodes keep their successor and predecessor.
pub open spec fn neighbours_recorded(
    succ: Seq<usize>,
    pred: Seq<usize>,
    routes: Seq<Seq<usize>>,
    s2: Seq<usize>,
    p2: Seq<usize>,
) -> bool {
    &&& s2.len() == succ.len()
    &&& p2.len() == pred.len()
    &&& forall|k: int, i: int|
        0 <= k < routes.len() && 0 <= i < routes[k].len() ==> #[trigger] s2[routes[k][i] as int]
            == (if i == routes[k].len() - 1 {
            0
        } else {
            routes[k][i + 1]
        })
    &&& forall|k: int, i: int|
        0 <= k < routes.len() && 0 <= i < routes[k].len() ==> #[trigger] p2[routes[k][i] as int]
            == (if i == 0 {
            0
        } else {
            routes[k][i - 1]
        })
    &&& forall|z: int|
        0 <= z < succ.len() && !in_routes(routes, z as usize) ==> #[trigger] s2[z] == succ[z]
    &&& forall|z: int|
        0 <= z < pred.len() && !in_routes(routes, z as usize) ==> #[trigger] p2[z] == pred[z]
}

proof fn lemma_link_chain(succ: Seq<usize>, pred: Seq<usize>, route: Seq<usize>, i: int)
    requires
        succ.len() == pred.len(),
        1 <= i <= route.len(),
        route.no_duplicates(),
        forall|t: int| 0 <= t < route.len() ==> #[trigger] route[t] < succ.len(),
    ensures
        ({
            let c = link_chain(succ, pred, route, i);
            &&& c.0.len() == succ.len()
            &&& c.1.len() == pred.len()
            &&& c.1[route[0] as int] == 0
            &&& forall|t: int| 1 <= t < i ==> #[trigger] c.1[route[t] as int] == route[t - 1]
            &&& forall|t: int| 0 <= t < i - 1 ==> #[trigger] c.0[route[t] as int] == route[t + 1]
            &&& forall|t: int| i - 1 <= t < route.len() ==> #[trigger] c.0[route[t] as int] == succ[route[t] as int]
            &&& forall|t: int| i <= t < route.len() ==> #[trigger] c.1[route[t] as int] == pred[route[t] as int]
            &&& forall|z: int| 0 <= z < succ.len() && !route.contains(z as usize) ==> #[trigger] c.0[z] == succ[z]
            &&& forall|z: int| 0 <= z < succ.len() && !route.contains(z as usize) ==> #[trigger] c.1[z] == pred[z]
        }),
    decreases i,
{
    if i > 1 {
        lemma_link_chain(succ, pred, route, i - 1);
        let prior = link_chain(succ, pred, route, i - 1);
        let c = link_chain(succ, pred, route, i);
        assert(c.0 == prior.0.update(route[i - 2] as int, route[i - 1]));
        assert(c.1 == prior.1.update(route[i - 1] as int, route[i - 2]));
        assert(route.contains(route[i - 1]));
        assert(route.contains(route[i - 2]));
        assert forall|t: int| 1 <= t < i implies #[trigger] c.1[route[t] as int] == route[t - 1] by {
            if t < i - 1 {
                assert(route[t] != route[i - 1]);
            }
        }
        assert forall|t: int| 0 <= t < i - 1 implies #[trigger] c.0[route[t] as int] == route[t + 1] by {
            if t < i - 2 {
                assert(route[t] != route[i - 2]);
            }
        }
        assert forall|t: int| i - 1 <= t < route.len() implies #[trigger] c.0[route[t] as int] == succ[route[t] as int] by {
            assert(route[t] != route[i - 2]);
        }
        assert forall|t: int| i <= t < route.len() implies #[trigger] c.1[route[t] as int] == pred[route[t] as int] by {
            assert(route[t] != route[i - 1]);
        }
        assert(c.1[route[0] as int] == 0) by {
            assert(route[0] != route[i - 1]);
        }
    } else {
        assert(route.contains(route[0]));
        assert forall|t: int| i <= t < route.len() implies #[trigger] link_chain(succ, pred, route, i).1[route[t] as int] == pred[route[t] as int] by {
            assert(route[t] != route[0]);
        }
    }
}

proof fn lemma_link_route(succ: Seq<usize>, pred: Seq<usize>, route: Seq<usize>)
    requires
        succ.len() == pred.len(),
        route.no_duplicates(),
        forall|t: int| 0 <= t < route.len() ==> #[trigger] route[t] < succ.len(),
    ensures
        ({
            let c = link_route(succ, pred, route);
            &&& c.0.len() == succ.len()
            &&& c.1.len() == pred.len()
            &&& forall|t: int| 0 <= t < route.len() ==> #[trigger] c.0[route[t] as int] == (if t == route.len() - 1 {
                0
            } else {
                route[t + 1]
            })
            &&& forall|t: int| 0 <= t < route.len() ==> #[trigger] c.1[route[t] as int] == (if t == 0 {
                0
            } else {
                route[t - 1]
            })
            &&& forall|z: int| 0 <= z < succ.len() && !route.contains(z as usize) ==> #[trigger] c.0[z] == succ[z]
            &&& forall|z: int| 0 <= z < succ.len() && !route.contains(z as usize) ==> #[trigger] c.1[z] == pred[z]
        }),
{
    if route.len() > 0 {
        let n = route.len() as int;
        lemma_link_chain(succ, pred, route, n);
        let chained = link_chain(succ, pred, route, n);
        let c = link_route(succ, pred, route);
        assert(c.0 == chained.0.update(route[n - 1] as int, 0));
        assert(route.contains(route[n - 1]));
        assert forall|t: int| 0 <= t < route.len() implies #[trigger] c.0[route[t] as int] == (if t == route.len() - 1 {
            0
        } else {
            route[t + 1]
        }) by {
            if t < n - 1 {
                assert(route[t] != route[n - 1]);
            }
        }
    }
}

/// When no client appears twice, linking the routes records for every client its
/// neighbours in its route, and leaves the other nodes alone.
pub proof fn lemma_link_routes_neighbours(succ: Seq<usize>, pred: Seq<usize>, routes: Seq<Seq<usize>>)
    requires
        succ.len() == pred.len(),
        clients_distinct(routes),
        forall|k: int, i: int| 0 <= k < routes.len() && 0 <= i < routes[k].len() ==> #[trigger] routes[k][i] < succ.len(),
    ensures
        neighbours_recorded(succ, pred, routes, link_routes(succ, pred, routes).0, link_routes(succ, pred, routes).1),
    decreases routes.len(),
{
    if routes.len() > 0 {
        let init = routes.drop_last();
        let n = routes.len() as int;
        let last = routes.last();
        assert forall|k1: int, i1: int, k2: int, i2: int|
            0 <= k1 < init.len() && 0 <= i1 < init[k1].len() && 0 <= k2 < init.len() && 0 <= i2
                < init[k2].len() && (k1 != k2 || i1 != i2) implies #[trigger] init[k1][i1]
                != #[trigger] init[k2][i2] by {
            assert(init[k1][i1] == routes[k1][i1]);
            assert(init[k2][i2] == routes[k2][i2]);
        }
        assert forall|k: int, i: int| 0 <= k < init.len() && 0 <= i < init[k].len() implies #[trigger] init[k][i] < succ.len() by {
            assert(init[k][i] == routes[k][i]);
        }
        lemma_link_routes_neighbours(succ, pred, init);
        let before = link_routes(succ, pred, init);
        assert(last == routes[n - 1]);
        assert(last.no_duplicates()) by {
            assert forall|i1: int, i2: int| 0 <= i1 < last.len() && 0 <= i2 < last.len() && i1 != i2 implies last[i1] != last[i2] by {
                assert(routes[n - 1][i1] != routes[n - 1][i2]);
            }
        }
        lemma_link_route(before.0, before.1, last);
        let c = link_routes(succ, pred, routes);
        assert(c == link_route(before.0, before.1, last));
        // A client of an earlier route is not in the last one
        assert forall|k: int, i: int| 0 <= k < n - 1 && 0 <= i < routes[k].len() implies !last.contains(#[trigger] routes[k][i]) by {
            if last.contains(routes[k][i]) {
                let t = choose|t: int| 0 <= t < last.len() && last[t] == routes[k][i];
                assert(routes[n - 1][t] == routes[k][i]);
            }
        }
        assert forall|k: int, i: int| 0 <= k < routes.len() && 0 <= i < routes[k].len() implies #[trigger] c.0[routes[k][i] as int]
            == (if i == routes[k].len() - 1 {
            0
        } else {
            routes[k][i + 1]
        }) by {
            if k < n - 1 {
                assert(init[k][i] == routes[k][i]);
                assert(init[k] == routes[k]);
                assert(before.0[init[k][i] as int] == (if i == init[k].len() - 1 { 0 } else { init[k][i + 1] }));
            }
        }
        assert forall|k: int, i: int| 0 <= k < routes.len() && 0 <= i < routes[k].len() implies #[trigger] c.1[routes[k][i] as int]
            == (if i == 0 {
            0
        } else {
            routes[k][i - 1]
        }) by {
            if k < n - 1 {
                assert(init[k][i] == routes[k][i]);
                assert(init[k] == routes[k]);
                assert(before.1[init[k][i] as int] == (if i == 0 { 0 } else { init[k][i - 1] }));
            }
        }
        assert forall|z: int| 0 <= z < succ.len() && !in_routes(routes, z as usize) implies #[trigger] c.0[z] == succ[z] && c.1[z] == pred[z] by {
            if last.contains(z as usize) {
                let t = choose|t: int| 0 <= t < last.len() && last[t] == z as usize;
                assert(routes[n - 1][t] == z as usize);
            }
            if in_routes(init, z as usize) {
                let (k, i) = choose|k: int, i: int| 0 <= k < init.len() && 0 <= i < init[k].len() && #[trigger] init[k][i] == z as usize;
                assert(routes[k][i] == z as usize);
            }
        }
    }
}

/// Records, from the routes, the successor and predecessor of every client (the
/// depot, 0, before the first and after the last client of each route).
pub fn link_clients(
    chrom_r: &Vec<Vec<usize>>,
    successors: &mut Vec<usize>,
    predecessors: &mut Vec<usize>,
)
    requires
        old(successors).len() == old(predecessors).len(),
        forall|r: int, k: int|
            0 <= r < chrom_r.len() && 0 <= k < chrom_r@[r].len() ==> #[trigger] chrom_r@[r]@[k]
                < old(successors).len(),
    ensures
        (final(successors)@, final(predecessors)@) == link_routes(
            old(successors)@,
            old(predecessors)@,
            chrom_r@.map_values(|v: Vec<usize>| v@),
        ),
        clients_distinct(chrom_r@.map_values(|v: Vec<usize>| v@)) ==> neighbours_recorded(
            old(successors)@,
            old(predecessors)@,
            chrom_r@.map_values(|v: Vec<usize>| v@),
            final(successors)@,
            final(predecessors)@,
        ),
{
    let ghost routes: Seq<Seq<usize>> = chrom_r@.map_values(|v: Vec<usize>| v@);
    let ghost s0: Seq<usize> = successors@;
    let ghost p0: Seq<usize> = predecessors@;
    let mut r: usize = 0;
    while r < chrom_r.len()
        invariant
            r <= chrom_r.len(),
            routes == chrom_r@.map_values(|v: Vec<usize>| v@),
            successors.len() == predecessors.len() == s0.len(),
            forall|r2: int, k: int|
                0 <= r2 < chrom_r.len() && 0 <= k < chrom_r@[r2].len() ==> #[trigger] chrom_r@[r2]@[k]
                    < s0.len(),
            (successors@, predecessors@) == link_routes(s0, p0, routes.take(r as int)),
        decreases chrom_r.len() - r,
    {
        let route: &Vec<usize> = &chrom_r[r];
        proof {
            assert(routes.take(r + 1).drop_last() =~= routes.take(r as int));
            assert(routes.take(r + 1).last() == route@);
        }
        let ghost s1: Seq<usize> = successors@;
        let ghost p1: Seq<usize> = predecessors@;
        if route.len() > 0 {
            predecessors.set(route[0], 0);
            let mut i: usize = 1;
            while i < route.len()
                invariant
                    1 <= i <= route@.len(),
                    successors.len() == predecessors.len() == s0.len(),
                    forall|k: int| 0 <= k < route@.len() ==> #[trigger] route@[k] < s0.len(),
                    (successors@, predecessors@) == link_chain(s1, p1, route@, i as int),
                decreases route@.len() - i,
            {
                predecessors.set(route[i], route[i - 1]);
                successors.set(route[i - 1], route[i]);
                i = i + 1;
            }
            successors.set(route[route.len() - 1], 0);
        }
        r = r + 1;
    }
    proof {
        assert(routes.take(chrom_r.len() as int) =~= routes);
        if clients_distinct(routes) {
            assert forall|k: int, i: int| 0 <= k < routes.len() && 0 <= i < routes[k].len() implies #[trigger] routes[k][i] < s0.len() by {
                assert(routes[k] == chrom_r@[k]@);
                assert(chrom_r@[k]@[i] < s0.len());
            }
            lemma_link_routes_neighbours(s0, p0, routes);
        }
    }
}

} // verus!
