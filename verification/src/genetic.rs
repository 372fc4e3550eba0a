//! The ordered crossover (OX) of the genetic algorithm, on giant tours.
//!
//! A random cyclic fragment of the first parent is copied in place; the other
//! positions are then filled, cyclically after the fragment, with the remaining
//! clients in the order in which the second parent visits them (starting right
//! after the end of the fragment).
use vstd::prelude::*;
use vstd::arithmetic::div_mod::{lemma_fundamental_div_mod_converse_mod, lemma_mod_equivalence, lemma_small_mod, lemma_mod_bound};
use vstd::set_lib::{lemma_subset_equality, lemma_set_difference_len};
use crate::rng::{MinstdRand, uniform_draw, lcg_iter, sample_limit, lemma_uniform_draw_steps, lemma_iter_add};
use crate::rng_period::lemma_generator_reaches;
use crate::individual::is_giant_tour;

verus! {

/// Draws again below `n` from state `s` until the value differs from `v`, with at
/// most `fuel` draws: the differing value and the state after it.
pub open spec fn redraw_until_different(s: int, n: int, v: int, fuel: nat) -> Option<(int, int)>
    decreases fuel,
{
    if fuel == 0 {
        None
    } else {
        let d = uniform_draw(s, n);
        if d.0 != v {
            Some(d)
        } else {
            redraw_until_different(d.1, n, v, (fuel - 1) as nat)
        }
    }
}

/// From state `s`, after a first draw below `n`, the generator eventually draws a
/// different value (otherwise picking a crossover zone would never end).
pub open spec fn zone_draw_terminates(s: int, n: int) -> bool {
    let d = uniform_draw(s, n);
    exists|f: nat| #[trigger] redraw_until_different(d.1, n, d.0, f) is Some
}

/// More fuel does not change a completed redraw.
pub proof fn lemma_redraw_deterministic(s: int, n: int, v: int, f1: nat, f2: nat)
    requires
        redraw_until_different(s, n, v, f1) is Some,
        f1 <= f2,
    ensures
        redraw_until_different(s, n, v, f2) == redraw_until_different(s, n, v, f1),
    decreases f1,
{
    let d = uniform_draw(s, n);
    if d.0 == v {
        lemma_redraw_deterministic(d.1, n, v, (f1 - 1) as nat, (f2 - 1) as nat);
    }
}

/// Raw values 0 and 1 are always accepted when drawing below `n >= 2`.
proof fn lemma_small_values_accepted(n: int)
    requires
        2 <= n <= 2147483646,
    ensures
        1 < sample_limit(n),
{
    vstd::arithmetic::div_mod::lemma_fundamental_div_mod(2147483646, n);
    let q = 2147483646int / n;
    let r = 2147483646int % n;
    assert(0 <= r < n);
    assert(q >= 1) by (nonlinear_arith)
        requires
            2147483646 == n * q + r,
            0 <= r < n,
            n <= 2147483646,
    ;
    assert(n * q >= n) by (nonlinear_arith)
        requires
            q >= 1,
            n >= 2,
    ;
}

/// Redrawing from state `st` ends within `k` draws when the `k`-th state from
/// `st` is `target`, an accepted state whose value differs from `v`.
proof fn lemma_redraw_reaches(st: int, n: int, v: int, k: nat, target: int)
    requires
        1 <= st < 2147483647,
        2 <= n <= 2147483646,
        k >= 1,
        lcg_iter(st, k) == target,
        target - 1 < sample_limit(n),
        (target - 1) % n != v,
    ensures
        redraw_until_different(st, n, v, k) is Some,
    decreases k,
{
    let m = lemma_uniform_draw_steps(st, n);
    let d = uniform_draw(st, n);
    if k < m {
        assert(lcg_iter(st, k) - 1 >= sample_limit(n));
    }
    if d.0 == v {
        assert(k != m);
        let rest = (k - m) as nat;
        lemma_iter_add(st, m, rest);
        assert(m + rest == k);
        lemma_redraw_reaches(d.1, n, v, rest, target);
        lemma_redraw_deterministic(d.1, n, v, rest, (k - 1) as nat);
    }
}

/// From any state, after a first draw below `n >= 2`, the generator eventually
/// draws a different value: picking a crossover zone always ends. (The generator
/// reaches every state, so it reaches the state whose raw value is 0 or 1, and
/// one of these differs from the first draw.)
pub proof fn lemma_zone_draw_terminates(s: int, n: int)
    requires
        1 <= s < 2147483647,
        2 <= n <= 2147483646,
    ensures
        zone_draw_terminates(s, n),
{
    let m = lemma_uniform_draw_steps(s, n);
    let d = uniform_draw(s, n);
    let target: int = if d.0 == 0 {
        2
    } else {
        1
    };
    lemma_small_values_accepted(n);
    lemma_small_mod(1, n as nat);
    lemma_small_mod(0, n as nat);
    lemma_generator_reaches(d.1, target);
    let k = choose|k: nat| k >= 1 && #[trigger] lcg_iter(d.1, k) == target;
    lemma_redraw_reaches(d.1, n, d.0, k, target);
    assert(redraw_until_different(d.1, n, d.0, k) is Some);
}

/// Picks the beginning and end of the crossover zone: two different positions
/// below `nb_clients`, the end being redrawn while it coincides with the start.
pub fn pick_crossover_zone(rng: &mut MinstdRand, nb_clients: usize) -> (zone: (usize, usize))
    requires
        2 <= nb_clients <= 2147483646,
    ensures
        zone.0 as int == uniform_draw(old(rng)@, nb_clients as int).0,
        exists|f: nat|
            #[trigger] redraw_until_different(
                uniform_draw(old(rng)@, nb_clients as int).1,
                nb_clients as int,
                zone.0 as int,
                f,
            ) == Some((zone.1 as int, final(rng)@)),
        zone.0 != zone.1,
        zone.0 < nb_clients,
        zone.1 < nb_clients,
{
    let n: u32 = nb_clients as u32;
    let first_state: u32 = rng.state();
    proof {
        lemma_zone_draw_terminates(first_state as int, n as int);
    }
    let start: u32 = rng.uniform_below(n);
    let ghost s1: int = rng@;
    let ghost fuel0: nat = choose|f: nat|
        #[trigger] redraw_until_different(s1, n as int, start as int, f) is Some;
    let ghost answer = redraw_until_different(s1, n as int, start as int, fuel0);
    let ghost mut fuel: nat = fuel0;
    let mut end: u32 = rng.uniform_below(n);
    while end == start
        invariant
            1 <= n <= 2147483646,
            n == nb_clients,
            start < n,
            end < n,
            fuel >= 1,
            answer is Some,
            answer == redraw_until_different(s1, n as int, start as int, fuel0),
            end == start ==> redraw_until_different(rng@, n as int, start as int, (fuel - 1) as nat)
                == answer,
            end != start ==> answer == Some((end as int, rng@)),
        decreases fuel,
    {
        proof {
            fuel = (fuel - 1) as nat;
        }
        end = rng.uniform_below(n);
    }
    proof {
        assert(redraw_until_different(s1, n as int, start as int, fuel0) == Some((end as int, rng@)));
    }
    (start as usize, end as usize)
}

/// Length of the copied zone: the positions `start, start + 1, ...` (cyclically)
/// up to but excluding `end + 1`.
pub open spec fn ox_zone_len(start: int, end: int, n: int) -> int {
    (end + 1 - start) % n
}

/// The values of the first parent that are copied, in zone order.
pub open spec fn ox_zone(p1: Seq<usize>, start: int, end: int, n: int) -> Seq<usize> {
    Seq::new(ox_zone_len(start, end, n) as nat, |t: int| p1[(start + t) % n])
}

/// The second parent read cyclically from the position after `end`.
pub open spec fn ox_rotated(p2: Seq<usize>, end: int, n: int) -> Seq<usize> {
    Seq::new(n as nat, |i: int| p2[(end + 1 + i) % n])
}

/// The values of the second parent, in that order, that are not in the zone.
pub open spec fn ox_rest(p2: Seq<usize>, zone: Seq<usize>, end: int, n: int) -> Seq<usize> {
    ox_rotated(p2, end, n).filter(|v: usize| !zone.contains(v))
}

/// Writes `values` at the positions `offset, offset + 1, ...` taken modulo `n`,
/// later values overwriting earlier ones.
pub open spec fn write_cyclic(base: Seq<usize>, values: Seq<usize>, offset: int, n: int) -> Seq<
    usize,
>
    decreases values.len(),
{
    if values.len() == 0 {
        base
    } else {
        write_cyclic(base, values.drop_last(), offset, n).update(
            (offset + values.len() - 1) % n,
            values.last(),
        )
    }
}

/// The giant tour that the OX crossover leaves in a buffer holding `res`.
pub open spec fn ox_child(res: Seq<usize>, p1: Seq<usize>, p2: Seq<usize>, start: int, end: int) -> Seq<
    usize,
> {
    let n = res.len() as int;
    let zone = ox_zone(p1, start, end, n);
    write_cyclic(write_cyclic(res, zone, start, n), ox_rest(p2, zone, end, n), start + zone.len(), n)
}

proof fn lemma_mod_once(x: int, n: int)
    requires
        0 < n,
        -n <= x < 2 * n,
    ensures
        x % n == (if x < 0 {
            x + n
        } else if x < n {
            x
        } else {
            x - n
        }),
{
    if x < 0 {
        lemma_fundamental_div_mod_converse_mod(x, n, -1, x + n);
    } else if x < n {
        lemma_fundamental_div_mod_converse_mod(x, n, 0, x);
    } else {
        lemma_fundamental_div_mod_converse_mod(x, n, 1, x - n);
    }
}

proof fn lemma_write_cyclic_len(base: Seq<usize>, values: Seq<usize>, offset: int, n: int)
    requires
        0 < n == base.len(),
    ensures
        write_cyclic(base, values, offset, n).len() == n,
    decreases values.len(),
{
    if values.len() > 0 {
        lemma_write_cyclic_len(base, values.drop_last(), offset, n);
    }
}

/// Copies the zone `start..=end` (cyclically) of `parent1` into `result`, then fills
/// the rest of `result`, cyclically after the zone, with the clients of `parent2`
/// that are not in the zone, in the order of `parent2` starting after `end`.
pub fn crossover_ox_fill(
    result: &mut Vec<usize>,
    parent1: &Vec<usize>,
    parent2: &Vec<usize>,
    start: usize,
    end: usize,
)
    requires
        1 <= old(result).len(),
        old(result).len() <= usize::MAX / 4,
        parent1.len() == old(result).len(),
        parent2.len() == old(result).len(),
        start < old(result).len(),
        end < old(result).len(),
        forall|t: int|
            0 <= t < ox_zone_len(start as int, end as int, old(result).len() as int) ==> #[trigger] ox_zone(
                parent1@,
                start as int,
                end as int,
                old(result).len() as int,
            )[t] <= old(result).len(),
        forall|k: int| 0 <= k < parent2.len() ==> #[trigger] parent2@[k] <= old(result).len(),
    ensures
        final(result)@ == ox_child(old(result)@, parent1@, parent2@, start as int, end as int),
        is_giant_tour(parent1@, old(result).len() as int) && is_giant_tour(
            parent2@,
            old(result).len() as int,
        ) ==> is_giant_tour(final(result)@, old(result).len() as int),
{
    let nb_clients: usize = result.len();
    let ghost n: int = nb_clients as int;
    let ghost zone_len: int = ox_zone_len(start as int, end as int, n);
    let ghost zone: Seq<usize> = ox_zone(parent1@, start as int, end as int, n);
    let ghost base: Seq<usize> = result@;
    let end_next: usize = (end + 1) % nb_clients;
    proof {
        lemma_mod_once(end + 1, n);
        lemma_mod_once(end + 1 - start, n);
        assert(0 <= zone_len < n);
    }

    // Frequency table to track the customers which have been already inserted
    let mut freq_client: Vec<bool> = Vec::new();
    let mut v: usize = 0;
    while v <= nb_clients
        invariant
            v <= nb_clients + 1,
            nb_clients <= usize::MAX / 4,
            freq_client@ == Seq::new(v as nat, |k: int| false),
        decreases nb_clients + 1 - v,
    {
        freq_client.push(false);
        v = v + 1;
    }

    // Copy from start to end
    let mut j: usize = start;
    while j % nb_clients != end_next
        invariant
            n == nb_clients == result.len(),
            nb_clients <= usize::MAX / 4,
            0 <= zone_len < n,
            zone_len == (if end_next >= start {
                end_next - start
            } else {
                end_next - start + n
            }),
            end_next < n,
            start < n,
            parent1.len() == n,
            zone == ox_zone(parent1@, start as int, end as int, n),
            start <= j <= start + zone_len,
            freq_client@.len() == n + 1,
            forall|t: int| 0 <= t < zone_len ==> #[trigger] zone[t] <= n,
            zone_len == ox_zone_len(start as int, end as int, n),
            forall|x: int|
                0 <= x <= n ==> #[trigger] freq_client@[x] == zone.subrange(
                    0,
                    j - start,
                ).contains(x as usize),
            result@ == write_cyclic(base, zone.subrange(0, j - start), start as int, n),
        decreases start + zone_len - j,
    {
        proof {
            lemma_mod_once(j as int, n);
            if j == start + zone_len {
                assert(false);
            }
        }
        let pos: usize = j % nb_clients;
        let value: usize = parent1[pos];
        proof {
            assert(zone[j - start] == value);
        }
        result.set(pos, value);
        freq_client.set(value, true);
        j = j + 1;
        proof {
            let pre = zone.subrange(0, j - 1 - start);
            let post = zone.subrange(0, j - start);
            assert(post.drop_last() =~= pre);
            assert(post.last() == value);
            assert forall|x: int| 0 <= x <= n implies #[trigger] freq_client@[x] == post.contains(
                x as usize,
            ) by {
                if x == value as int {
                    assert(post[post.len() - 1] == value);
                } else {
                    if post.contains(x as usize) {
                        let w = choose|w: int| 0 <= w < post.len() && post[w] == x as usize;
                        assert(pre[w] == x as usize);
                    }
                    if pre.contains(x as usize) {
                        let w = choose|w: int| 0 <= w < pre.len() && pre[w] == x as usize;
                        assert(post[w] == x as usize);
                    }
                }
            }
        }
    }
    proof {
        lemma_mod_once(j as int, n);
        assert(j == start + zone_len);
        assert(zone.subrange(0, j - start) =~= zone);
    }

    // Fill the remaining elements in the order given by the second parent
    let ghost rotated: Seq<usize> = ox_rotated(parent2@, end as int, n);
    let ghost keep = |x: usize| !zone.contains(x);
    let ghost mid: Seq<usize> = result@;
    let mut i: usize = 1;
    while i <= nb_clients
        invariant
            n == nb_clients == result.len(),
            nb_clients <= usize::MAX / 4,
            1 <= i <= nb_clients + 1,
            end < n,
            start < n,
            0 <= zone_len < n,
            parent2.len() == n,
            forall|k: int| 0 <= k < parent2.len() ==> #[trigger] parent2@[k] <= n,
            rotated == ox_rotated(parent2@, end as int, n),
            freq_client@.len() == n + 1,
            forall|x: int| 0 <= x <= n ==> #[trigger] freq_client@[x] == zone.contains(x as usize),
            keep == (|x: usize| !zone.contains(x)),
            j == start + zone_len + rotated.subrange(0, i - 1).filter(keep).len(),
            rotated.subrange(0, i - 1).filter(keep).len() <= i - 1,
            result@ == write_cyclic(
                mid,
                rotated.subrange(0, i - 1).filter(keep),
                start + zone_len,
                n,
            ),
        decreases nb_clients + 1 - i,
    {
        proof {
            lemma_mod_once(end + i, n);
        }
        let temp: usize = parent2[(end + i) % nb_clients];
        let ghost pre: Seq<usize> = rotated.subrange(0, i - 1);
        proof {
            assert(rotated[i - 1] == temp);
            assert(rotated.subrange(0, i as int) =~= pre.push(temp));
            pre.lemma_filter_push(temp, keep);
        }
        if !freq_client[temp] {
            let ghost before: Seq<usize> = result@;
            result.set(j % nb_clients, temp);
            j = j + 1;
            proof {
                let f = pre.push(temp).filter(keep);
                assert(f.drop_last() =~= pre.filter(keep));
                assert(result@ == write_cyclic(mid, f, start + zone_len, n));
            }
        }
        i = i + 1;
    }
    proof {
        assert(rotated.subrange(0, n) =~= rotated);
        if is_giant_tour(parent1@, n) && is_giant_tour(parent2@, n) {
            lemma_ox_child_is_giant_tour(base, parent1@, parent2@, start as int, end as int);
        }
    }
}

/// Two numbers less than `n` apart, and different, differ modulo `n`.
proof fn lemma_mod_distinct(a: int, b: int, n: int)
    requires
        0 < n,
        a < b < a + n,
    ensures
        a % n != b % n,
{
    lemma_mod_equivalence(b, a, n);
    lemma_small_mod((b - a) as nat, n as nat);
}

/// Position `t` of a cyclic write from `offset`.
spec fn cyclic_position(offset: int, t: int, n: int) -> int {
    (offset + t) % n
}

/// What a cyclic write of at most `n` values leaves: the `t`-th value at position
/// `(offset + t) % n`, the base elsewhere.
proof fn lemma_write_cyclic_values(base: Seq<usize>, w: Seq<usize>, offset: int, n: int)
    requires
        0 < n == base.len(),
        w.len() <= n,
    ensures
        forall|t: int| 0 <= t < w.len() ==> #[trigger] write_cyclic(base, w, offset, n)[(offset + t)
            % n] == w[t],
        forall|q: int|
            0 <= q < n && (forall|t: int|
                0 <= t < w.len() ==> #[trigger] cyclic_position(offset, t, n) != q) ==> #[trigger] write_cyclic(
                base,
                w,
                offset,
                n,
            )[q] == base[q],
    decreases w.len(),
{
    lemma_write_cyclic_len(base, w, offset, n);
    if w.len() > 0 {
        let m = w.len() - 1;
        let wl = w.drop_last();
        lemma_write_cyclic_values(base, wl, offset, n);
        lemma_write_cyclic_len(base, wl, offset, n);
        let last_pos = (offset + m) % n;
        lemma_mod_bound(offset + m, n);
        assert forall|t: int| 0 <= t < w.len() implies #[trigger] write_cyclic(base, w, offset, n)[(
        offset + t) % n] == w[t] by {
            if t < m {
                lemma_mod_distinct(offset + t, offset + m, n);
                assert(wl[t] == w[t]);
                lemma_mod_bound(offset + t, n);
            }
        }
        assert forall|q: int|
            0 <= q < n && (forall|t: int|
                0 <= t < w.len() ==> #[trigger] cyclic_position(offset, t, n) != q) implies #[trigger] write_cyclic(
            base,
            w,
            offset,
            n,
        )[q] == base[q] by {
            assert(cyclic_position(offset, m, n) != q);
            assert forall|t: int| 0 <= t < wl.len() implies #[trigger] cyclic_position(offset, t, n)
                != q by {
                assert(cyclic_position(offset, t, n) != q);
            }
        }
    }
}

/// The clients `1..=n`.
spec fn clients_set(n: int) -> Set<usize> {
    Set::new(|x: usize| 1 <= x <= n)
}

proof fn lemma_clients_set_len(n: int)
    requires
        0 <= n <= usize::MAX,
    ensures
        clients_set(n).finite(),
        clients_set(n).len() == n,
    decreases n,
{
    if n == 0 {
        assert(clients_set(0) =~= Set::empty());
    } else {
        lemma_clients_set_len(n - 1);
        assert(clients_set(n - 1).insert(n as usize) =~= clients_set(n));
    }
}

/// A giant tour visits every client.
proof fn lemma_giant_tour_covers(s: Seq<usize>, n: int)
    requires
        is_giant_tour(s, n),
        n <= usize::MAX,
    ensures
        s.to_set() == clients_set(n),
{
    lemma_clients_set_len(n);
    s.unique_seq_to_set();
    assert(s.to_set().subset_of(clients_set(n))) by {
        assert forall|x: usize| s.to_set().contains(x) implies clients_set(n).contains(x) by {
            let k = choose|k: int| 0 <= k < s.len() && s[k] == x;
        }
    }
    lemma_subset_equality(s.to_set(), clients_set(n));
}

/// Keeping some entries of a sequence without repetition gives one without repetition.
proof fn lemma_filter_no_duplicates(s: Seq<usize>, keep: spec_fn(usize) -> bool)
    requires
        s.no_duplicates(),
    ensures
        s.filter(keep).no_duplicates(),
        forall|x: usize| s.filter(keep).contains(x) <==> s.contains(x) && keep(x),
    decreases s.len(),
{
    reveal(Seq::filter);
    if s.len() > 0 {
        let rest = s.drop_last();
        assert(rest.no_duplicates()) by {
            assert forall|i: int, j: int|
                0 <= i < rest.len() && 0 <= j < rest.len() && i != j implies rest[i] != rest[j] by {
                assert(rest[i] == s[i]);
                assert(rest[j] == s[j]);
            }
        }
        lemma_filter_no_duplicates(rest, keep);
        let f = rest.filter(keep);
        assert(!rest.contains(s.last())) by {
            if rest.contains(s.last()) {
                let k = choose|k: int| 0 <= k < rest.len() && rest[k] == s.last();
                assert(s[k] == s[s.len() - 1]);
            }
        }
        assert forall|x: usize| s.contains(x) <==> rest.contains(x) || x == s.last() by {
            if s.contains(x) {
                let k = choose|k: int| 0 <= k < s.len() && s[k] == x;
                if k < s.len() - 1 {
                    assert(rest[k] == x);
                }
            }
            if rest.contains(x) {
                let k = choose|k: int| 0 <= k < rest.len() && rest[k] == x;
                assert(s[k] == x);
            }
            if x == s.last() {
                assert(s[s.len() - 1] == x);
            }
        }
        if keep(s.last()) {
            let g = f.push(s.last());
            assert(s.filter(keep) == g);
            assert forall|x: usize| g.contains(x) <==> f.contains(x) || x == s.last() by {
                if g.contains(x) {
                    let k = choose|k: int| 0 <= k < g.len() && g[k] == x;
                    if k < f.len() {
                        assert(f[k] == x);
                    }
                }
                if f.contains(x) {
                    let k = choose|k: int| 0 <= k < f.len() && f[k] == x;
                    assert(g[k] == x);
                }
                if x == s.last() {
                    assert(g[f.len() as int] == x);
                }
            }
            assert forall|i: int, j: int|
                0 <= i < g.len() && 0 <= j < g.len() && i != j implies g[i] != g[j] by {
                if i < f.len() && j < f.len() {
                } else if i < f.len() {
                    assert(f.contains(g[i]));
                } else if j < f.len() {
                    assert(f.contains(g[j]));
                }
            }
        } else {
            assert(s.filter(keep) == f);
        }
    }
}

/// The OX crossover of two giant tours over the same clients is a giant tour:
/// every client is visited exactly once by the child.
pub proof fn lemma_ox_child_is_giant_tour(
    res: Seq<usize>,
    p1: Seq<usize>,
    p2: Seq<usize>,
    start: int,
    end: int,
)
    requires
        1 <= res.len() <= usize::MAX,
        is_giant_tour(p1, res.len() as int),
        is_giant_tour(p2, res.len() as int),
        0 <= start < res.len(),
        0 <= end < res.len(),
    ensures
        is_giant_tour(ox_child(res, p1, p2, start, end), res.len() as int),
{
    let n = res.len() as int;
    lemma_mod_once(end + 1 - start, n);
    lemma_mod_once(end + 1, n);
    let zl = ox_zone_len(start, end, n);
    assert(0 <= zl < n);
    let zone = ox_zone(p1, start, end, n);
    let rotated = ox_rotated(p2, end, n);
    let keep = |v: usize| !zone.contains(v);
    let rest = ox_rest(p2, zone, end, n);
    assert(rest == rotated.filter(keep));

    // The zone holds distinct clients.
    assert forall|t: int| 0 <= t < zl implies 1 <= #[trigger] zone[t] <= n by {
        lemma_mod_bound(start + t, n);
    }
    assert(zone.no_duplicates()) by {
        assert forall|i: int, j: int| 0 <= i < zl && 0 <= j < zl && i != j implies zone[i]
            != zone[j] by {
            lemma_mod_bound(start + i, n);
            lemma_mod_bound(start + j, n);
            if i < j {
                lemma_mod_distinct(start + i, start + j, n);
            } else {
                lemma_mod_distinct(start + j, start + i, n);
            }
        }
    }
    // The rotated second parent is a giant tour.
    assert(is_giant_tour(rotated, n)) by {
        assert forall|i: int| 0 <= i < n implies 1 <= #[trigger] rotated[i] <= n by {
            lemma_mod_bound(end + 1 + i, n);
        }
        assert forall|i: int, j: int| 0 <= i < n && 0 <= j < n && i != j implies rotated[i]
            != rotated[j] by {
            lemma_mod_bound(end + 1 + i, n);
            lemma_mod_bound(end + 1 + j, n);
            if i < j {
                lemma_mod_distinct(end + 1 + i, end + 1 + j, n);
            } else {
                lemma_mod_distinct(end + 1 + j, end + 1 + i, n);
            }
        }
    }
    lemma_giant_tour_covers(rotated, n);
    lemma_filter_no_duplicates(rotated, keep);
    // The rest holds exactly the clients that are not in the zone.
    let zset = zone.to_set();
    let all = clients_set(n);
    lemma_clients_set_len(n);
    zone.unique_seq_to_set();
    rest.unique_seq_to_set();
    assert(rest.to_set() =~= all.difference(zset)) by {
        assert forall|x: usize| rest.to_set().contains(x) <==> all.difference(zset).contains(x) by {
            if rest.contains(x) {
                assert(rotated.to_set().contains(x));
            }
            if all.contains(x) && !zset.contains(x) {
                assert(rotated.to_set().contains(x));
            }
        }
    }
    assert(zset.subset_of(all)) by {
        assert forall|x: usize| zset.contains(x) implies all.contains(x) by {
            let k = choose|k: int| 0 <= k < zone.len() && zone[k] == x;
        }
    }
    assert(all.intersect(zset) =~= zset);
    vstd::set_lib::lemma_set_subset_finite(all, zset);
    lemma_set_difference_len(all, zset);
    assert(rest.len() == n - zl);

    // The child: zone then rest, written cyclically from `start`.
    let c = zone + rest;
    let mid = write_cyclic(res, zone, start, n);
    let child = ox_child(res, p1, p2, start, end);
    assert(child == write_cyclic(mid, rest, start + zl, n));
    lemma_write_cyclic_len(res, zone, start, n);
    lemma_write_cyclic_values(res, zone, start, n);
    lemma_write_cyclic_values(mid, rest, start + zl, n);
    lemma_write_cyclic_len(mid, rest, start + zl, n);
    assert forall|t: int| 0 <= t < n implies #[trigger] child[(start + t) % n] == c[t] by {
        if t < zl {
            assert forall|t2: int| 0 <= t2 < rest.len() implies #[trigger] cyclic_position(
                start + zl,
                t2,
                n,
            ) != (start + t) % n by {
                lemma_mod_distinct(start + t, start + zl + t2, n);
            }
            lemma_mod_bound(start + t, n);
        } else {
            assert(child[(start + zl + (t - zl)) % n] == rest[t - zl]);
        }
    }
    assert(c.no_duplicates()) by {
        assert forall|i: int, j: int| 0 <= i < n && 0 <= j < n && i != j implies c[i] != c[j] by {
            if i < zl && j >= zl {
                assert(zone.contains(c[i]));
                assert(rest.contains(c[j]));
            } else if i >= zl && j < zl {
                assert(zone.contains(c[j]));
                assert(rest.contains(c[i]));
            }
        }
    }
    assert forall|q: int| 0 <= q < n implies 1 <= #[trigger] child[q] <= n && child[q] == c[(q
        - start + n) % n] by {
        lemma_mod_once(q - start + n, n);
        lemma_mod_once(start + (q - start + n) % n, n);
        let t = (q - start + n) % n;
        assert((start + t) % n == q);
        if t < zl {
        } else {
            assert(rest.contains(c[t]));
            assert(rotated.contains(c[t]));
        }
    }
    assert forall|i: int, j: int| 0 <= i < n && 0 <= j < n && i != j implies child[i]
        != child[j] by {
        lemma_mod_once(i - start + n, n);
        lemma_mod_once(j - start + n, n);
        assert(child[i] == c[(i - start + n) % n]);
        assert(child[j] == c[(j - start + n) % n]);
    }
}

} // verus!
