use hgs_cvrp::individual::{link_clients, random_giant_tour};
use hgs_cvrp::rng::MinstdRand;

#[test]
fn random_giant_tour_shuffles_the_clients() {
    let mut rng = MinstdRand::new(4);
    let tour = random_giant_tour(&mut rng, 50);
    let mut sorted = tour.clone();
    sorted.sort();
    assert_eq!(sorted, (1..=50).collect::<Vec<usize>>());
    let mut by_hand = MinstdRand::new(4);
    let mut expected: Vec<usize> = (1..=50).collect();
    by_hand.shuffle(&mut expected);
    assert_eq!(tour, expected);
    assert_eq!(rng.state(), by_hand.state());
}

#[test]
fn empty_giant_tour() {
    let mut rng = MinstdRand::new(4);
    assert!(random_giant_tour(&mut rng, 0).is_empty());
    assert_eq!(rng.state(), 4);
}

#[test]
fn successors_and_predecessors_follow_the_routes() {
    let routes = vec![vec![3, 1], vec![], vec![2, 5, 4]];
    let mut succ = vec![9; 6];
    let mut pred = vec![9; 6];
    link_clients(&routes, &mut succ, &mut pred);
    assert_eq!(succ, vec![9, 0, 5, 1, 0, 4]);
    assert_eq!(pred, vec![9, 3, 0, 0, 5, 2]);
}
