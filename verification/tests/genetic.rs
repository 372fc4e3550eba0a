use hgs_cvrp::genetic::{crossover_ox_fill, pick_crossover_zone};
use hgs_cvrp::rng::MinstdRand;

fn is_giant_tour(t: &[usize]) -> bool {
    let mut s = t.to_vec();
    s.sort();
    s == (1..=t.len()).collect::<Vec<usize>>()
}

#[test]
fn ox_copies_the_zone_and_fills_in_second_parent_order() {
    let p1 = vec![1, 2, 3, 4, 5, 6];
    let p2 = vec![6, 5, 4, 3, 2, 1];
    let mut child = vec![0; 6];
    // Zone positions 1..=3 of p1: 2 3 4; then p2 from position 4: 2 1 6 5 4 3,
    // without 2, 3, 4: 1 6 5, written at positions 4, 5, 0.
    crossover_ox_fill(&mut child, &p1, &p2, 1, 3);
    assert_eq!(child, vec![5, 2, 3, 4, 1, 6]);
    assert!(is_giant_tour(&child));
}

#[test]
fn ox_with_a_wrapping_zone() {
    let p1 = vec![3, 1, 4, 2, 5];
    let p2 = vec![5, 4, 3, 2, 1];
    let mut child = vec![0; 5];
    // Zone 3, 4, 0 (cyclic): 2 5 3; rest of p2 from position 1: 4 1.
    crossover_ox_fill(&mut child, &p1, &p2, 3, 0);
    assert_eq!(child, vec![3, 4, 1, 2, 5]);
    assert!(is_giant_tour(&child));
}

#[test]
fn ox_with_an_empty_zone() {
    // end + 1 == start: nothing is copied, and the second parent read from
    // position end + 1 is written from position start: the child is the second parent.
    let p1 = vec![1, 2, 3, 4];
    let p2 = vec![2, 4, 1, 3];
    let mut child = vec![0; 4];
    crossover_ox_fill(&mut child, &p1, &p2, 2, 1);
    assert_eq!(child, p2);
}

#[test]
fn ox_children_of_random_parents_are_giant_tours() {
    let mut rng = MinstdRand::new(11);
    for n in 2..30usize {
        let mut p1: Vec<usize> = (1..=n).collect();
        let mut p2: Vec<usize> = (1..=n).collect();
        rng.shuffle(&mut p1);
        rng.shuffle(&mut p2);
        let (start, end) = pick_crossover_zone(&mut rng, n);
        assert!(start != end && start < n && end < n);
        let mut child = vec![0; n];
        crossover_ox_fill(&mut child, &p1, &p2, start, end);
        assert!(is_giant_tour(&child));
    }
}

#[test]
fn zone_end_is_redrawn_until_it_differs() {
    let mut rng = MinstdRand::new(5);
    let (start, end) = pick_crossover_zone(&mut rng, 3);
    let mut by_hand = MinstdRand::new(5);
    let s = by_hand.uniform_below(3);
    let mut e = by_hand.uniform_below(3);
    while e == s {
        e = by_hand.uniform_below(3);
    }
    assert_eq!((start, end), (s as usize, e as usize));
    assert_eq!(rng.state(), by_hand.state());
}

#[test]
fn crossover_zone_with_two_clients() {
    let mut rng = MinstdRand::new(1);
    let (start, end) = pick_crossover_zone(&mut rng, 2);
    assert!(start < 2 && end < 2 && start != end);
    let mut by_hand = MinstdRand::new(1);
    let first = by_hand.uniform_below(2) as usize;
    let mut second = by_hand.uniform_below(2) as usize;
    while second == first {
        second = by_hand.uniform_below(2) as usize;
    }
    assert_eq!((start, end), (first, second));
    assert_eq!(rng.state(), by_hand.state());
}
