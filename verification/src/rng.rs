//! Random number generation: the `minstd_rand` linear congruential generator
//! (Park-Miller, `x[n+1] = x[n] * 48271 mod (2^31 - 1)`), rejection sampling of
//! uniform integers below a bound, and a Fisher-Yates shuffle driven by it.
//!
//! Every draw is specified exactly: the state after a call and the value it
//! returns are spec functions of the state before the call.
use vstd::prelude::*;
use vstd::arithmetic::power::{pow, lemma_pow_adds, lemma_pow1, lemma_pow0};
use vstd::arithmetic::div_mod::{
    lemma_mul_mod_noop_left, lemma_mul_mod_noop_right, lemma_mul_mod_noop,
    lemma_fundamental_div_mod, lemma_fundamental_div_mod_converse_mod, lemma_mod_multiples_vanish, lemma_small_mod,
};

verus! {

/// Modulus of the generator, `2^31 - 1`.
pub const MODULUS: u64 = 2147483647;

/// Multiplier of the generator.
pub const MULTIPLIER: u64 = 48271;

/// Number of distinct raw values the generator yields (`MODULUS - 1`).
pub const RAW_RANGE: u32 = 2147483646;

/// One step of the generator on a state.
pub open spec fn lcg_step(s: int) -> int {
    (s * 48271) % 2147483647
}

/// `k` steps of the generator.
pub open spec fn lcg_iter(s: int, k: nat) -> int
    decreases k,
{
    if k == 0 {
        s
    } else {
        lcg_iter(lcg_step(s), (k - 1) as nat)
    }
}

/// Raw values `v - 1` at or above this bound are rejected when drawing below `n`
/// (they would bias the result towards small residues).
pub open spec fn sample_limit(n: int) -> int {
    2147483646 - 2147483646int % n
}

/// Half the period of the generator: after that many steps every state `x`
/// becomes `MODULUS - x` (the multiplier is a quadratic non-residue).
#[verifier::opaque]
pub open spec fn half_period() -> nat {
    1073741823
}

/// Rejection sampling below `n` from state `s`, with at most `fuel` extra draws:
/// the pair (value drawn, state after the draw).
pub open spec fn sample(s: int, n: int, fuel: nat) -> (int, int)
    decreases fuel,
{
    let x = lcg_step(s);
    if x - 1 < sample_limit(n) || fuel == 0 {
        ((x - 1) % n, x)
    } else {
        sample(x, n, (fuel - 1) as nat)
    }
}

/// A uniform draw below `n` from state `s`: the first accepted raw value reduced
/// modulo `n`, and the state after it. An accepted value always comes within
/// `half_period() + 1` steps, so the fuel never runs out.
#[verifier::opaque]
pub open spec fn uniform_draw(s: int, n: int) -> (int, int) {
    sample(s, n, half_period())
}

/// The Fisher-Yates shuffle of `s` from position `i` down to 1, starting from
/// generator state `st`: the shuffled sequence and the final state.
pub open spec fn fisher_yates<T>(s: Seq<T>, st: int, i: int) -> (Seq<T>, int)
    decreases i,
{
    if i <= 0 {
        (s, st)
    } else {
        let d = uniform_draw(st, i + 1);
        let j = d.0;
        fisher_yates(s.update(i, s[j]).update(j, s[i]), d.1, i - 1)
    }
}

/// `p` maps the positions `0..n` one-to-one onto `0..n`.
pub open spec fn is_index_bijection(p: Seq<int>, n: int) -> bool {
    &&& p.len() == n
    &&& forall|k: int| 0 <= k < n ==> 0 <= #[trigger] p[k] < n
    &&& forall|k1: int, k2: int|
        0 <= k1 < n && 0 <= k2 < n && k1 != k2 ==> #[trigger] p[k1] != #[trigger] p[k2]
}

/// `a` is a rearrangement of `b`.
pub open spec fn is_permutation<T>(a: Seq<T>, b: Seq<T>) -> bool {
    &&& a.len() == b.len()
    &&& exists|p: Seq<int>|
        is_index_bijection(p, a.len() as int) && forall|k: int|
            0 <= k < a.len() ==> a[k] == b[#[trigger] p[k]]
}

/// A bijection witnessing a rearrangement makes it a permutation.
pub proof fn lemma_permutation_from_witness<T>(a: Seq<T>, b: Seq<T>, p: Seq<int>)
    requires
        a.len() == b.len(),
        is_index_bijection(p, a.len() as int),
        forall|k: int| 0 <= k < a.len() ==> a[k] == b[#[trigger] p[k]],
    ensures
        is_permutation(a, b),
{
}

/// Swapping two entries of a sequence and of its witness keeps the witness valid.
proof fn lemma_swap_keeps_witness<T>(s: Seq<T>, b: Seq<T>, p: Seq<int>, i: int, j: int)
    requires
        s.len() == b.len(),
        is_index_bijection(p, s.len() as int),
        forall|k: int| 0 <= k < s.len() ==> s[k] == b[#[trigger] p[k]],
        0 <= i < s.len(),
        0 <= j < s.len(),
    ensures
        is_index_bijection(p.update(i, p[j]).update(j, p[i]), s.len() as int),
        forall|k: int|
            0 <= k < s.len() ==> s.update(i, s[j]).update(j, s[i])[k] == b[#[trigger] p.update(
                i,
                p[j],
            ).update(j, p[i])[k]],
{
    let q = p.update(i, p[j]).update(j, p[i]);
    let t = s.update(i, s[j]).update(j, s[i]);
    assert forall|k: int| 0 <= k < s.len() implies t[k] == b[#[trigger] q[k]] by {
        if k == j {
        } else if k == i {
        } else {
        }
    }
    assert forall|k1: int, k2: int|
        0 <= k1 < s.len() && 0 <= k2 < s.len() && k1 != k2 implies #[trigger] q[k1]
        != #[trigger] q[k2] by {
        assert(p[k1] != p[k2] || k1 == k2);
        if k1 == i || k1 == j || k2 == i || k2 == j {
            assert(p[i] != p[j] || i == j);
        }
    }
}

/// std's `<[T]>::swap`: the slice afterwards holds the element that was at `b` at
/// position `a` and the one that was at `a` at position `b`, all else unchanged;
/// both positions must be in bounds (std panics otherwise).
pub assume_specification<Elem>[ <[Elem]>::swap ](slice: &mut [Elem], a: usize, b: usize)
    requires
        a < old(slice)@.len(),
        b < old(slice)@.len(),
    ensures
        final(slice)@ == old(slice)@.update(a as int, old(slice)@[b as int]).update(
            b as int,
            old(slice)@[a as int],
        ),
;

/// The multiplier to the power `e`, modulo `MODULUS`.
#[verifier::opaque]
spec fn power_mod(e: nat) -> int {
    pow(48271, e) % 2147483647
}

proof fn lemma_power_mod_square_step(e: nat)
    ensures
        power_mod(2 * e + 1) == (power_mod(e) * power_mod(e) % 2147483647) * 48271 % 2147483647,
{
    reveal(power_mod);
    let p = pow(48271, e);
    lemma_pow_adds(48271, e, e);
    lemma_pow_adds(48271, e + e, 1);
    lemma_pow1(48271);
    assert(pow(48271, 2 * e + 1) == p * p * 48271);
    lemma_mul_mod_noop_left(p * p, 48271, 2147483647);
    lemma_mul_mod_noop(p, p, 2147483647);
}

/// One squaring step with the quotients given explicitly.
proof fn lemma_power_mod_step_value(e: nat, c: int, q1: int, r1: int, q2: int, r2: int)
    requires
        power_mod(e) == c,
        c * c == q1 * 2147483647 + r1,
        0 <= r1 < 2147483647,
        r1 * 48271 == q2 * 2147483647 + r2,
        0 <= r2 < 2147483647,
    ensures
        power_mod(2 * e + 1) == r2,
{
    lemma_power_mod_square_step(e);
    lemma_fundamental_div_mod_converse_mod(c * c, 2147483647, q1, r1);
    lemma_fundamental_div_mod_converse_mod(r1 * 48271, 2147483647, q2, r2);
}

/// The powers of the multiplier with exponents `2^k - 1`, `k <= 30`.
proof fn lemma_power_chain()
    ensures
        power_mod(1073741823) == 2147483646,
{
    assert(power_mod(0) == 1) by {
        reveal(power_mod);
        lemma_pow0(48271);
    }
    lemma_power_mod_step_value(0, 1, 0, 1, 0, 48271);
    lemma_power_mod_step_value(1, 48271, 1, 182605794, 4104, 1291394886);
    lemma_power_mod_step_value(3, 1291394886, 776583679, 407355683, 9156, 1105902161);
    lemma_power_mod_step_value(7, 1105902161, 569512876, 1738531149, 39078, 1271135913);
    lemma_power_mod_step_value(15, 1271135913, 752409226, 631416347, 14192, 2010567813);
    lemma_power_mod_step_value(31, 2010567813, 1882381240, 352020689, 7912, 1500063655);
    lemma_power_mod_step_value(63, 1500063655, 1047826823, 1771495544, 39819, 1210064531);
    lemma_power_mod_step_value(127, 1210064531, 681847413, 17494750, 393, 528003979);
    lemma_power_mod_step_value(255, 528003979, 129820873, 33068610, 743, 674523589);
    lemma_power_mod_step_value(511, 674523589, 211867537, 1079773482, 24271, 170153285);
    lemma_power_mod_step_value(1023, 170153285, 13481890, 2090638395, 46993, 506941574);
    lemma_power_mod_step_value(2047, 506941574, 119670182, 571083722, 12836, 1682251770);
    lemma_power_mod_step_value(4095, 1682251770, 1317807947, 1598990191, 35941, 2145752934);
    lemma_power_mod_step_value(8191, 2145752934, 2144023615, 1775284451, 39904, 1568284333);
    lemma_power_mod_step_value(16383, 1568284333, 1145301270, 919923199, 20677, 2093369910);
    lemma_power_mod_step_value(32767, 2093369910, 2040619767, 715957851, 16093, 547094450);
    lemma_power_mod_step_value(65535, 547094450, 139378168, 691983804, 15554, 789557446);
    lemma_power_mod_step_value(131071, 789557446, 290293693, 1989304545, 44715, 988416090);
    lemma_power_mod_step_value(262143, 988416090, 454935416, 669745948, 15054, 1087833970);
    lemma_power_mod_step_value(524287, 1087833970, 551055533, 579592049, 13028, 70844163);
    lemma_power_mod_step_value(1048575, 70844163, 2337105, 662348634, 14888, 494375278);
    lemma_power_mod_step_value(2097151, 494375278, 113810838, 2041211098, 45882, 456219904);
    lemma_power_mod_step_value(4194303, 456219904, 96921157, 1099949637, 24724, 1283239199);
    lemma_power_mod_step_value(8388607, 1283239199, 766805765, 1087336646, 24441, 179422739);
    lemma_power_mod_step_value(16777215, 179422739, 14990809, 2087461698, 46921, 1783423271);
    lemma_power_mod_step_value(33554431, 1783423271, 1481081622, 427104007, 9600, 894510697);
    lemma_power_mod_step_value(67108863, 894510697, 372598593, 1684717138, 37868, 2070223802);
    lemma_power_mod_step_value(134217727, 2070223802, 1995743528, 381248588, 8569, 1463220205);
    lemma_power_mod_step_value(268435455, 1463220205, 996987041, 1501823498, 33757, 1916600179);
    lemma_power_mod_step_value(536870911, 1916600179, 1710539799, 247665088, 5566, 2147483646);
}

/// The multiplier raised to half the period is `-1` modulo `MODULUS`.
proof fn lemma_half_period_power()
    ensures
        pow(48271, half_period()) % 2147483647 == 2147483646,
{
    lemma_power_chain();
    assert(power_mod(half_period()) == 2147483646) by {
        reveal(half_period);
    }
    lemma_power_mod_unfold(half_period());
}

proof fn lemma_power_mod_unfold(e: nat)
    ensures
        power_mod(e) == pow(48271, e) % 2147483647,
{
    reveal(power_mod);
}

/// Iterating the generator multiplies the state by a power of the multiplier.
pub proof fn lemma_iter_is_power(s: int, k: nat)
    requires
        0 <= s < 2147483647,
    ensures
        lcg_iter(s, k) == (pow(48271, k) * s) % 2147483647,
    decreases k,
{
    if k == 0 {
        lemma_pow0(48271);
        lemma_small_mod(s as nat, 2147483647);
    } else {
        let t = lcg_step(s);
        assert(0 <= t < 2147483647);
        lemma_iter_is_power(t, (k - 1) as nat);
        let q = pow(48271, (k - 1) as nat);
        lemma_mul_mod_noop_right(q, s * 48271, 2147483647);
        lemma_pow_adds(48271, (k - 1) as nat, 1);
        lemma_pow1(48271);
        assert(q * (s * 48271) == (q * 48271) * s) by (nonlinear_arith);
    }
}

/// One more step appended at the end.
pub proof fn lemma_iter_last(s: int, k: nat)
    ensures
        lcg_iter(s, k + 1) == lcg_step(lcg_iter(s, k)),
    decreases k,
{
    if k == 0 {
        assert(lcg_iter(s, 1) == lcg_iter(lcg_step(s), 0));
        assert(lcg_iter(lcg_step(s), 0) == lcg_step(s));
        assert(lcg_iter(s, 0) == s);
    } else {
        lemma_iter_last(lcg_step(s), (k - 1) as nat);
        assert(lcg_iter(s, k) == lcg_iter(lcg_step(s), (k - 1) as nat));
        assert(lcg_iter(s, k + 1) == lcg_iter(lcg_step(s), k));
        assert((k - 1) as nat + 1 == k);
    }
}

/// After half a period, state `x` has become `MODULUS - x`.
proof fn lemma_half_period_negates(x: int)
    requires
        1 <= x < 2147483647,
    ensures
        lcg_iter(x, half_period()) == 2147483647 - x,
{
    lemma_iter_is_power(x, half_period());
    lemma_half_period_power();
    lemma_mul_mod_noop_left(pow(48271, half_period()), x, 2147483647);
    assert(2147483646 * x == 2147483647 * (x - 1) + (2147483647 - x)) by (nonlinear_arith);
    lemma_mod_multiples_vanish(x - 1, 2147483647 - x, 2147483647);
    lemma_small_mod((2147483647 - x) as nat, 2147483647);
}

/// A nonzero state never steps to zero: the multiplier is invertible modulo the
/// prime `MODULUS` (its inverse is 1899818559).
pub proof fn lemma_step_nonzero(s: int)
    requires
        1 <= s < 2147483647,
    ensures
        1 <= lcg_step(s) < 2147483647,
{
    let inv: int = 1899818559;
    assert((48271 * inv) % 2147483647 == 1);
    lemma_mul_mod_noop_left(s * 48271, inv, 2147483647);
    assert((s * 48271) * inv == s * (48271 * inv)) by (nonlinear_arith);
    lemma_mul_mod_noop_right(s, 48271 * inv, 2147483647);
    lemma_small_mod(s as nat, 2147483647);
    if lcg_step(s) == 0 {
        assert(((s * 48271) % 2147483647) * inv % 2147483647 == 0);
        assert(false);
    }
}

/// Twice the rejected band is smaller than the raw range.
proof fn lemma_rejected_band_small(n: int)
    requires
        1 <= n <= 2147483646,
    ensures
        2 * (2147483646int % n) < 2147483646,
{
    lemma_fundamental_div_mod(2147483646, n);
    let q: int = 2147483646int / n;
    let w: int = 2147483646int % n;
    assert(0 <= w < n);
    if q <= 0 {
        assert(n * q <= 0) by (nonlinear_arith)
            requires
                n >= 1,
                q <= 0,
        ;
        assert(false);
    }
    assert(n * q >= n) by (nonlinear_arith)
        requires
            n >= 1,
            q >= 1,
    ;
}

/// A rejected draw inside `uniform_below`: the sampling continues from the new
/// state, and it cannot happen a whole half period after the first rejection.
proof fn lemma_rejection_continues(s0: int, x1: int, j: nat, before: int, n: int)
    requires
        1 <= n <= 2147483646,
        2 * (2147483646int % n) < 2147483646,
        1 <= s0 < 2147483647,
        x1 == lcg_step(s0),
        j <= half_period(),
        1 <= before < 2147483647,
        before == lcg_iter(s0, j),
        j >= 1 ==> x1 - 1 >= sample_limit(n) && before == lcg_iter(x1, (j - 1) as nat),
        lcg_step(before) - 1 >= sample_limit(n),
    ensures
        j < half_period(),
        sample(before, n, (half_period() - j) as nat) == sample(
            lcg_step(before),
            n,
            (half_period() - (j + 1)) as nat,
        ),
        lcg_step(before) == lcg_iter(s0, j + 1),
        x1 - 1 >= sample_limit(n),
        lcg_step(before) == lcg_iter(x1, j),
{
    lemma_iter_last(s0, j);
    if j >= 1 {
        lemma_iter_last(x1, (j - 1) as nat);
        assert((j - 1) as nat + 1 == j);
    } else {
        assert(lcg_iter(s0, 0) == s0);
        assert(lcg_iter(x1, 0) == x1);
    }
    lemma_step_nonzero(s0);
    if j == half_period() {
        lemma_half_period_negates(x1);
        assert(false);
    }
}

/// The states stay in `[1, MODULUS - 1]`.
pub proof fn lemma_iter_in_range(s: int, k: nat)
    requires
        1 <= s < 2147483647,
    ensures
        1 <= lcg_iter(s, k) < 2147483647,
    decreases k,
{
    if k > 0 {
        lemma_step_nonzero(s);
        lemma_iter_in_range(lcg_step(s), (k - 1) as nat);
    }
}

/// Steps add up: `a` steps then `b` steps are `a + b` steps.
pub proof fn lemma_iter_add(s: int, a: nat, b: nat)
    ensures
        lcg_iter(s, a + b) == lcg_iter(lcg_iter(s, a), b),
    decreases a,
{
    if a > 0 {
        lemma_iter_add(lcg_step(s), (a - 1) as nat, b);
        assert((a - 1) as nat + b == (a + b - 1) as nat);
    }
}

/// The sampling from the `j`-th state on, when the states `1..=j` were all
/// rejected: it stops at a later accepted state, within `half_period() + 1` steps
/// of the start.
proof fn lemma_sample_from(s0: int, n: int, j: nat) -> (m: nat)
    requires
        1 <= s0 < 2147483647,
        1 <= n <= 2147483646,
        j <= half_period(),
        forall|t: nat| 1 <= t <= j ==> #[trigger] lcg_iter(s0, t) - 1 >= sample_limit(n),
    ensures
        j < m <= half_period() + 1,
        sample(lcg_iter(s0, j), n, (half_period() - j) as nat) == (
            (lcg_iter(s0, m) - 1) % n,
            lcg_iter(s0, m),
        ),
        lcg_iter(s0, m) - 1 < sample_limit(n),
        forall|t: nat| j < t < m ==> #[trigger] lcg_iter(s0, t) - 1 >= sample_limit(n),
    decreases half_period() - j,
{
    lemma_iter_last(s0, j);
    let st = lcg_iter(s0, j);
    let x = lcg_step(st);
    assert(x == lcg_iter(s0, j + 1));
    if x - 1 < sample_limit(n) {
        j + 1
    } else {
        if j == half_period() {
            assert(half_period() >= 1) by {
                reveal(half_period);
            }
            let x1 = lcg_iter(s0, 1);
            assert(x1 - 1 >= sample_limit(n));
            assert(lcg_iter(s0, 1) == lcg_iter(lcg_step(s0), 0));
            lemma_step_nonzero(s0);
            lemma_iter_add(s0, 1, half_period());
            lemma_half_period_negates(x1);
            lemma_rejected_band_small(n);
            assert(false);
        }
        let m = lemma_sample_from(s0, n, j + 1);
        assert((half_period() - j) as nat - 1 == (half_period() - (j + 1)) as nat);
        m
    }
}

/// A draw below `n` stops at the first accepted raw value, which comes within
/// `half_period() + 1` steps of the generator: the state after the draw is the
/// `m`-th state from `s`, it is accepted, every state before it is rejected, and
/// the value drawn is that raw value reduced modulo `n`.
pub proof fn lemma_uniform_draw_steps(s: int, n: int) -> (m: nat)
    requires
        1 <= s < 2147483647,
        1 <= n <= 2147483646,
    ensures
        1 <= m <= half_period() + 1,
        uniform_draw(s, n) == ((lcg_iter(s, m) - 1) % n, lcg_iter(s, m)),
        lcg_iter(s, m) - 1 < sample_limit(n),
        1 <= lcg_iter(s, m) < 2147483647,
        forall|t: nat| 1 <= t < m ==> #[trigger] lcg_iter(s, t) - 1 >= sample_limit(n),
{
    reveal(uniform_draw);
    assert(lcg_iter(s, 0) == s);
    let m = lemma_sample_from(s, n, 0);
    lemma_iter_in_range(s, m);
    m
}

/// Linear congruential generator with the parameters of C++ `std::minstd_rand`.
pub struct MinstdRand {
    state: u32,
}

impl View for MinstdRand {
    type V = int;

    closed spec fn view(&self) -> int {
        self.state as int
    }
}

impl MinstdRand {
    #[verifier::type_invariant]
    spec fn state_in_range(self) -> bool {
        1 <= self.state < 2147483647
    }

    /// Seeds the generator like `std::minstd_rand::seed`: a seed mapping to state 0 becomes 1.
    pub fn new(seed: u64) -> (rng: Self)
        ensures
            rng@ == (if seed % 2147483647 == 0 {
                1
            } else {
                (seed % 2147483647) as int
            }),
            1 <= rng@ < 2147483647,
    {
        let state: u32 = (seed % MODULUS) as u32;
        MinstdRand { state: if state == 0 {
            1
        } else {
            state
        } }
    }

    /// The current state lies in `[1, MODULUS - 1]`.
    pub fn state(&self) -> (s: u32)
        ensures
            s == self@,
            1 <= s < 2147483647,
    {
        proof {
            use_type_invariant(self);
        }
        self.state
    }

    /// Returns the next raw value, in [1, 2^31 - 2].
    pub fn next(&mut self) -> (r: u32)
        ensures
            r == lcg_step(old(self)@),
            final(self)@ == r,
            1 <= r < 2147483647,
    {
        proof {
            use_type_invariant(&*self);
            lemma_step_nonzero(self.state as int);
        }
        let next_state: u32 = ((self.state as u64 * MULTIPLIER) % MODULUS) as u32;
        self.state = next_state;
        next_state
    }

    /// Returns a uniform value in [0, n). Rejection sampling avoids modulo bias.
    pub fn uniform_below(&mut self, n: u32) -> (r: u32)
        requires
            1 <= n <= 2147483646,
        ensures
            (r as int, final(self)@) == uniform_draw(old(self)@, n as int),
            r < n,
            1 <= final(self)@ < 2147483647,
    {
        proof {
            use_type_invariant(&*self);
            lemma_rejected_band_small(n as int);
            reveal(uniform_draw);
        }
        let range: u32 = RAW_RANGE;
        let limit: u32 = range - range % n;
        let ghost s0: int = self@;
        let ghost x1: int = lcg_step(s0);
        let ghost mut j: nat = 0;
        loop
            invariant
                1 <= n <= 2147483646,
                limit as int == sample_limit(n as int),
                2 * (2147483646int % (n as int)) < 2147483646,
                1 <= s0 < 2147483647,
                s0 == old(self)@,
                x1 == lcg_step(s0),
                j <= half_period(),
                1 <= self@ < 2147483647,
                self@ == lcg_iter(s0, j),
                uniform_draw(s0, n as int) == sample(self@, n as int, (half_period() - j) as nat),
                j >= 1 ==> x1 - 1 >= limit && self@ == lcg_iter(x1, (j - 1) as nat),
            decreases half_period() - j,
        {
            let ghost before: int = self@;
            let value: u32 = self.next() - 1;
            if value < limit {
                proof {
                    assert(self@ == lcg_step(before));
                    assert(sample(before, n as int, (half_period() - j) as nat) == (
                        (value as int) % (n as int),
                        self@,
                    ));
                }
                return value % n;
            }
            proof {
                lemma_rejection_continues(s0, x1, j, before, n as int);
                j = j + 1;
            }
        }
    }

    /// Fisher-Yates shuffle driven by this generator.
    pub fn shuffle<T>(&mut self, slice: &mut [T])
        requires
            old(slice)@.len() <= 2147483646,
        ensures
            (final(slice)@, final(self)@) == fisher_yates(
                old(slice)@,
                old(self)@,
                old(slice)@.len() - 1,
            ),
            is_permutation(final(slice)@, old(slice)@),
    {
        let len: usize = slice.len();
        let ghost initial: Seq<T> = slice@;
        let ghost mut p: Seq<int> = Seq::new(len as nat, |k: int| k);
        if len == 0 {
            proof {
                lemma_permutation_from_witness(slice@, initial, p);
            }
            return;
        }
        let mut i: usize = len - 1;
        while i >= 1
            invariant
                len == slice@.len(),
                len == initial.len(),
                len <= 2147483646,
                i < len,
                fisher_yates(initial, old(self)@, len - 1) == fisher_yates(
                    slice@,
                    self@,
                    i as int,
                ),
                is_index_bijection(p, len as int),
                forall|k: int| 0 <= k < len ==> slice@[k] == initial[#[trigger] p[k]],
            decreases i,
        {
            let j: usize = self.uniform_below(i as u32 + 1) as usize;
            proof {
                lemma_swap_keeps_witness(slice@, initial, p, i as int, j as int);
                let pi = p[i as int];
                let pj = p[j as int];
                p = p.update(i as int, pj).update(j as int, pi);
            }
            slice.swap(i, j);
            i = i - 1;
        }
        proof {
            lemma_permutation_from_witness(slice@, initial, p);
        }
    }
}

} // verus!
