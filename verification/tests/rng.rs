use hgs_cvrp::rng::MinstdRand;

#[test]
fn matches_cpp_minstd_rand() {
    // First values of std::minstd_rand seeded with 1.
    let mut rng = MinstdRand::new(1);
    assert_eq!(rng.next(), 48_271);
    assert_eq!(rng.next(), 182_605_794);

    // The C++ standard states that the 10000th consecutive invocation
    // of a default-constructed std::minstd_rand produces 399268537.
    let mut rng = MinstdRand::new(1);
    let mut value = 0;
    for _ in 0..10_000 {
        value = rng.next();
    }
    assert_eq!(value, 399_268_537);
}

#[test]
fn zero_seed_maps_to_one() {
    let mut a = MinstdRand::new(0);
    let mut b = MinstdRand::new(1);
    assert_eq!(a.next(), b.next());
}

#[test]
fn uniform_below_is_in_range() {
    let mut rng = MinstdRand::new(42);
    for n in 1..50 {
        for _ in 0..100 {
            assert!(rng.uniform_below(n) < n);
        }
    }
}

#[test]
fn seed_is_reduced_modulo_the_modulus() {
    assert_eq!(MinstdRand::new(2_147_483_647).state(), 1);
    assert_eq!(MinstdRand::new(2_147_483_648).state(), 1);
    assert_eq!(MinstdRand::new(2_147_483_649).state(), 2);
    assert_eq!(MinstdRand::new(42).state(), 42);
}

#[test]
fn next_is_one_lcg_step() {
    let mut rng = MinstdRand::new(42);
    let v = rng.next();
    assert_eq!(v as u64, 42 * 48_271 % 2_147_483_647);
    assert_eq!(rng.state(), v);
}

#[test]
fn uniform_below_reduces_the_first_accepted_value() {
    // From state 1 the raw value is 48271, accepted for n = 10: (48271 - 1) % 10.
    let mut rng = MinstdRand::new(1);
    assert_eq!(rng.uniform_below(10), 0);
    assert_eq!(rng.state(), 48_271);
    let mut rng = MinstdRand::new(1);
    assert_eq!(rng.uniform_below(7), (48_271 - 1) % 7);
}

#[test]
fn uniform_below_rejects_the_biased_band() {
    // With n = 2^30 + 1 the values at or above 2^31 - 2 - (2^31 - 2) mod n are
    // rejected; the state 2147483646 steps to 2147483647 - 48271 = 2147435376,
    // which is rejected, and the next state is accepted.
    let n: u32 = (1 << 30) + 1;
    let limit: u64 = 2_147_483_646 - 2_147_483_646 % n as u64;
    let mut rng = MinstdRand::new(2_147_483_646);
    let r = rng.uniform_below(n);
    assert!(r < n);
    let mut raw = MinstdRand::new(2_147_483_646);
    let mut first = raw.next() as u64;
    while first - 1 >= limit {
        first = raw.next() as u64;
    }
    assert_eq!(r as u64, (first - 1) % n as u64);
    assert_eq!(rng.state(), raw.state());
}

#[test]
fn shuffle_is_a_permutation() {
    let mut rng = MinstdRand::new(7);
    let mut v: Vec<u32> = (0..100).collect();
    rng.shuffle(&mut v);
    let mut sorted = v.clone();
    sorted.sort();
    assert_eq!(sorted, (0..100).collect::<Vec<u32>>());
    assert_ne!(v, (0..100).collect::<Vec<u32>>());
}

#[test]
fn shuffle_follows_fisher_yates() {
    // The same draws, made by hand, give the same permutation.
    let mut rng = MinstdRand::new(3);
    let mut v = vec!['a', 'b', 'c', 'd', 'e'];
    rng.shuffle(&mut v);
    let mut by_hand = MinstdRand::new(3);
    let mut w = vec!['a', 'b', 'c', 'd', 'e'];
    for i in (1..5usize).rev() {
        let j = by_hand.uniform_below(i as u32 + 1) as usize;
        w.swap(i, j);
    }
    assert_eq!(v, w);
    assert_eq!(rng.state(), by_hand.state());
}

#[test]
fn shuffle_of_short_slices_draws_nothing() {
    let mut rng = MinstdRand::new(9);
    let mut empty: Vec<u8> = Vec::new();
    rng.shuffle(&mut empty);
    let mut one = vec![5u8];
    rng.shuffle(&mut one);
    assert_eq!(one, vec![5]);
    assert_eq!(rng.state(), 9);
}
