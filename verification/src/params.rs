//! The granular neighbourhoods of the clients: for each client, the clients that
//! are among its closest ones or that count it among theirs (the relation is made
//! symmetric), as a sorted list without repetition.
use vstd::prelude::*;

verus! {

pub open spec fn strictly_increasing(v: Seq<usize>) -> bool {
    forall|k1: int, k2: int| 0 <= k1 < k2 < v.len() ==> v[k1] < v[k2]
}

/// The `g` first entries of the proximity list of client `i` (all of them if the
/// list is shorter).
pub open spec fn nearest(prox: Seq<Seq<usize>>, g: int, i: int) -> Seq<usize> {
    let list = prox[i];
    list.take(if g < list.len() {
        g
    } else {
        list.len() as int
    })
}

/// Client `b` is a granular neighbour of client `a` (for `a` among the first `i - 1`
/// clients that have been processed).
pub open spec fn related_before(prox: Seq<Seq<usize>>, g: int, a: int, b: int, i: int) -> bool {
    ||| 1 <= a < i && nearest(prox, g, a).contains(b as usize)
    ||| 1 <= b < i && nearest(prox, g, b).contains(a as usize)
}

proof fn lemma_push_contains(s: Seq<usize>, x: usize, y: usize)
    ensures
        s.push(x).contains(y) <==> (s.contains(y) || y == x),
{
    if s.contains(y) {
        let k = choose|k: int| 0 <= k < s.len() && s[k] == y;
        assert(s.push(x)[k] == y);
    }
    if y == x {
        assert(s.push(x)[s.len() as int] == x);
    }
    if s.push(x).contains(y) {
        let k = choose|k: int| 0 <= k < s.len() + 1 && s.push(x)[k] == y;
        if k < s.len() {
            assert(s[k] == y);
        }
    }
}

/// Inserts `x` into a strictly increasing list, keeping it strictly increasing.
fn insert_sorted(v: &Vec<usize>, x: usize) -> (r: Vec<usize>)
    requires
        strictly_increasing(v@),
    ensures
        strictly_increasing(r@),
        forall|y: usize| r@.contains(y) <==> (v@.contains(y) || y == x),
{
    let mut r: Vec<usize> = Vec::new();
    let mut i: usize = 0;
    while i < v.len() && v[i] < x
        invariant
            i <= v@.len(),
            strictly_increasing(v@),
            r@ == v@.take(i as int),
            forall|k: int| 0 <= k < i ==> v@[k] < x,
        decreases v@.len() - i,
    {
        r.push(v[i]);
        i = i + 1;
        proof {
            assert(r@ =~= v@.take(i as int));
        }
    }
    let ghost before: Seq<usize> = r@;
    if i < v.len() && v[i] == x {
        // already present
    } else {
        r.push(x);
    }
    let ghost mid: Seq<usize> = r@;
    let split: usize = i;
    while i < v.len()
        invariant
            split <= i <= v@.len(),
            strictly_increasing(v@),
            r@ == mid + v@.subrange(split as int, i as int),
        decreases v@.len() - i,
    {
        r.push(v[i]);
        i = i + 1;
        proof {
            assert(r@ =~= mid + v@.subrange(split as int, i as int));
        }
    }
    proof {
        let present = split < v@.len() && v@[split as int] == x;
        assert(v@ =~= v@.take(split as int) + v@.subrange(split as int, v@.len() as int));
        assert forall|k1: int, k2: int| 0 <= k1 < k2 < r@.len() implies r@[k1] < r@[k2] by {
            if !present {
                if k1 < split && k2 == split {
                } else if k1 < split && k2 > split {
                    assert(r@[k2] == v@[k2 - 1]);
                } else if k1 == split {
                    assert(r@[k2] == v@[k2 - 1]);
                } else if k1 > split {
                    assert(r@[k1] == v@[k1 - 1]);
                    assert(r@[k2] == v@[k2 - 1]);
                }
            } else {
                assert(r@ =~= v@);
            }
        }
        assert forall|y: usize| r@.contains(y) <==> (v@.contains(y) || y == x) by {
            if present {
                assert(r@ =~= v@);
            } else {
                if r@.contains(y) {
                    let k = choose|k: int| 0 <= k < r@.len() && r@[k] == y;
                    if k < split {
                        assert(v@[k] == y);
                    } else if k > split {
                        assert(v@[k - 1] == y);
                    }
                }
                if v@.contains(y) {
                    let k = choose|k: int| 0 <= k < v@.len() && v@[k] == y;
                    if k < split {
                        assert(r@[k] == y);
                    } else {
                        assert(r@[k + 1] == y);
                    }
                }
                if y == x {
                    assert(r@[split as int] == x);
                }
            }
        }
    }
    r
}

/// The granular neighbourhoods of clients `1..=n` (entry 0, the depot, is empty),
/// from the proximity lists of the clients (each client's other clients, closest
/// first) and the granularity `nb_granular`: client `b` is a neighbour of client `a`
/// when it is among the `nb_granular` closest of `a` or when `a` is among the
/// `nb_granular` closest of `b`. Each neighbourhood is sorted, without repetition.
pub fn correlated_vertices(proximity: &Vec<Vec<usize>>, nb_granular: usize) -> (r: Vec<Vec<usize>>)
    requires
        proximity.len() >= 1,
        forall|i: int, k: int|
            1 <= i < proximity.len() && 0 <= k < proximity@[i].len() ==> #[trigger] proximity@[i]@[k]
                < proximity.len(),
    ensures
        r.len() == proximity.len(),
        r@[0]@.len() == 0,
        forall|a: int| 0 <= a < r.len() ==> strictly_increasing(#[trigger] r@[a]@),
        forall|a: int, b: usize|
            1 <= a < r.len() ==> (#[trigger] r@[a]@.contains(b) <==> related_before(
                proximity@.map_values(|v: Vec<usize>| v@),
                nb_granular as int,
                a,
                b as int,
                proximity.len() as int,
            )),
        forall|a: int, b: int|
            1 <= a < r.len() && 1 <= b < r.len() ==> (#[trigger] r@[a]@.contains(b as usize)
                <==> #[trigger] r@[b]@.contains(a as usize)),
{
    let ghost prox: Seq<Seq<usize>> = proximity@.map_values(|v: Vec<usize>| v@);
    let ghost g: int = nb_granular as int;
    let size: usize = proximity.len();
    let mut sets: Vec<Vec<usize>> = Vec::new();
    let mut a: usize = 0;
    while a < size
        invariant
            a <= size,
            sets.len() == a,
            forall|q: int| 0 <= q < a ==> (#[trigger] sets@[q])@.len() == 0,
        decreases size - a,
    {
        sets.push(Vec::new());
        a = a + 1;
    }
    let mut i: usize = 1;
    while i < size
        invariant
            1 <= i <= size,
            size == proximity.len() == prox.len(),
            prox == proximity@.map_values(|v: Vec<usize>| v@),
            g == nb_granular,
            sets.len() == size,
            forall|i2: int, k: int|
                1 <= i2 < proximity.len() && 0 <= k < proximity@[i2].len() ==> #[trigger] proximity@[i2]@[k]
                    < proximity.len(),
            forall|q: int| 0 <= q < size ==> strictly_increasing(#[trigger] sets@[q]@),
            forall|x: int, y: usize|
                1 <= x < size ==> (#[trigger] sets@[x]@.contains(y) <==> related_before(
                    prox,
                    g,
                    x,
                    y as int,
                    i as int,
                )),
        decreases size - i,
    {
        let list: &Vec<usize> = &proximity[i];
        let take: usize = if nb_granular < list.len() {
            nb_granular
        } else {
            list.len()
        };
        proof {
            assert(prox[i as int] == list@);
        }
        let mut t: usize = 0;
        while t < take
            invariant
                1 <= i < size,
                size == proximity.len() == prox.len(),
                prox == proximity@.map_values(|v: Vec<usize>| v@),
                prox[i as int] == list@,
                take <= list@.len(),
                take == (if g < list@.len() {
                    g
                } else {
                    list@.len() as int
                }),
                t <= take,
                sets.len() == size,
                forall|k: int| 0 <= k < list@.len() ==> #[trigger] list@[k] < size,
                forall|q: int| 0 <= q < size ==> strictly_increasing(#[trigger] sets@[q]@),
                forall|x: int, y: usize|
                    1 <= x < size ==> (#[trigger] sets@[x]@.contains(y) <==> (related_before(
                        prox,
                        g,
                        x,
                        y as int,
                        i as int,
                    ) || (x == i && list@.take(t as int).contains(y)) || (y == i
                        && list@.take(t as int).contains(x as usize)))),
            decreases take - t,
        {
            let j: usize = list[t];
            let with_j: Vec<usize> = insert_sorted(&sets[i], j);
            sets.set(i, with_j);
            let with_i: Vec<usize> = insert_sorted(&sets[j], i);
            sets.set(j, with_i);
            t = t + 1;
            proof {
                assert(list@.take(t as int) =~= list@.take(t - 1).push(j));
                assert forall|x: int, y: usize| 1 <= x < size implies (#[trigger] sets@[x]@.contains(
                    y,
                ) <==> (related_before(prox, g, x, y as int, i as int) || (x == i && list@.take(
                    t as int,
                ).contains(y)) || (y == i && list@.take(t as int).contains(x as usize)))) by {
                    let pre = list@.take(t - 1);
                    lemma_push_contains(pre, j, y);
                    lemma_push_contains(pre, j, x as usize);
                }
            }
        }
        proof {
            assert forall|x: int, y: usize| 1 <= x < size implies (#[trigger] sets@[x]@.contains(
                y,
            ) <==> related_before(prox, g, x, y as int, i + 1)) by {
                assert(nearest(prox, g, i as int) == list@.take(take as int));
            }
        }
        i = i + 1;
    }
    sets.set(0, Vec::new());
    sets
}

} // verus!
