use hgs_cvrp::local_search::NodeLinks;

/// Arena for 4 clients and 2 routes: clients 0..=4, depots 5, 6, end depots 7, 8.
fn two_routes(u: Vec<usize>, v: Vec<usize>) -> NodeLinks {
    let size = 9;
    let mut links = NodeLinks { next: vec![0; size], prev: vec![0; size], route: vec![0; size] };
    links.load_route(5, 7, 0, &u);
    links.load_route(6, 8, 1, &v);
    links
}

/// The clients from `depot` to `depot_end`, checking the links backwards too.
fn route_of(links: &NodeLinks, depot: usize, depot_end: usize) -> Vec<usize> {
    let mut out = Vec::new();
    let mut x = links.next[depot];
    let mut before = depot;
    while x != depot_end {
        assert_eq!(links.prev[x], before);
        out.push(x);
        before = x;
        x = links.next[x];
    }
    assert_eq!(links.prev[depot_end], before);
    assert_eq!(links.next[depot_end], depot);
    assert_eq!(links.prev[depot], depot_end);
    out
}

#[test]
fn exchange_tails_swaps_what_follows_u_and_v() {
    let mut links = two_routes(vec![1, 2], vec![3, 4]);
    links.exchange_tails(1, 3, 5, 6, 0, 1, 4);
    assert_eq!(route_of(&links, 5, 7), vec![1, 4]);
    assert_eq!(route_of(&links, 6, 8), vec![3, 2]);
    assert_eq!(links.route[4], 0);
    assert_eq!(links.route[2], 1);
    assert_eq!(links.route[1], 0);
    assert_eq!(links.route[3], 1);
}

#[test]
fn exchange_tails_after_a_start_depot() {
    let mut links = two_routes(vec![1, 2, 3], vec![]);
    links.exchange_tails(1, 6, 5, 6, 0, 1, 4);
    assert_eq!(route_of(&links, 5, 7), vec![1]);
    assert_eq!(route_of(&links, 6, 8), vec![2, 3]);
    assert_eq!(links.route[2], 1);
    assert_eq!(links.route[3], 1);
}

#[test]
fn exchange_tails_with_an_empty_tail() {
    let mut links = two_routes(vec![1, 2], vec![3, 4]);
    links.exchange_tails(2, 3, 5, 6, 0, 1, 4);
    assert_eq!(route_of(&links, 5, 7), vec![1, 2, 4]);
    assert_eq!(route_of(&links, 6, 8), vec![3]);
    assert_eq!(links.route[4], 0);
}

#[test]
fn exchange_reversed_tails_joins_heads_and_tails() {
    let mut links = two_routes(vec![1, 2], vec![3, 4]);
    links.exchange_reversed_tails(1, 4, 5, 6, 0, 1, 4);
    assert_eq!(route_of(&links, 5, 7), vec![1, 4, 3]);
    assert_eq!(route_of(&links, 6, 8), vec![2]);
    assert_eq!(links.route[3], 0);
    assert_eq!(links.route[4], 0);
    assert_eq!(links.route[2], 1);
}

#[test]
fn exchange_reversed_tails_middle_cuts() {
    let mut links = two_routes(vec![1, 2], vec![3, 4]);
    links.exchange_reversed_tails(1, 3, 5, 6, 0, 1, 4);
    assert_eq!(route_of(&links, 5, 7), vec![1, 3]);
    assert_eq!(route_of(&links, 6, 8), vec![2, 4]);
}

#[test]
fn exchange_reversed_tails_from_a_start_depot() {
    let mut links = two_routes(vec![1, 2], vec![3, 4]);
    links.exchange_reversed_tails(1, 6, 5, 6, 0, 1, 4);
    assert_eq!(route_of(&links, 5, 7), vec![1]);
    assert_eq!(route_of(&links, 6, 8), vec![2, 3, 4]);
    assert_eq!(links.route[2], 1);
}

#[test]
fn exchange_reversed_tails_when_u_ends_its_route() {
    let mut links = two_routes(vec![1, 2], vec![3, 4]);
    links.exchange_reversed_tails(2, 3, 5, 6, 0, 1, 4);
    assert_eq!(route_of(&links, 5, 7), vec![1, 2, 3]);
    assert_eq!(route_of(&links, 6, 8), vec![4]);
    assert_eq!(links.route[3], 0);
}

#[test]
fn reverse_segment_between_u_and_v() {
    let mut links = two_routes(vec![1, 2, 3, 4], vec![]);
    links.reverse_segment(1, 4, 5);
    assert_eq!(route_of(&links, 5, 7), vec![1, 4, 3, 2]);
    assert_eq!(route_of(&links, 6, 8), Vec::<usize>::new());
}

#[test]
fn reverse_segment_from_the_depot() {
    let mut links = two_routes(vec![1, 2, 3, 4], vec![]);
    links.reverse_segment(5, 3, 5);
    assert_eq!(route_of(&links, 5, 7), vec![3, 2, 1, 4]);
    assert!((1..=4).all(|c| links.route[c] == 0));
}

#[test]
fn reverse_segment_of_two_clients() {
    let mut links = two_routes(vec![1, 2, 3], vec![4]);
    links.reverse_segment(1, 3, 5);
    assert_eq!(route_of(&links, 5, 7), vec![1, 3, 2]);
    assert_eq!(route_of(&links, 6, 8), vec![4]);
}

#[test]
fn route_clients_reads_back_what_was_loaded() {
    let links = two_routes(vec![4, 1, 3], vec![2]);
    assert_eq!(links.route_clients(5, 4), vec![4, 1, 3]);
    assert_eq!(links.route_clients(6, 4), vec![2]);
    let empty = two_routes(vec![], vec![1, 2, 3, 4]);
    assert_eq!(empty.route_clients(5, 4), Vec::<usize>::new());
    assert_eq!(empty.route_clients(6, 4), vec![1, 2, 3, 4]);
}

#[test]
fn exchange_tails_twice_restores_the_routes() {
    let before = two_routes(vec![1, 2], vec![3, 4]);
    let mut links = two_routes(vec![1, 2], vec![3, 4]);
    links.exchange_tails(1, 3, 5, 6, 0, 1, 4);
    links.exchange_tails(1, 3, 5, 6, 0, 1, 4);
    assert_eq!(links.next, before.next);
    assert_eq!(links.prev, before.prev);
    assert_eq!(links.route, before.route);
}

#[test]
fn reverse_segment_twice_restores_the_route() {
    let before = two_routes(vec![1, 2, 3, 4], vec![]);
    let mut links = two_routes(vec![1, 2, 3, 4], vec![]);
    links.reverse_segment(1, 4, 5);
    assert_eq!(links.route_clients(5, 4), vec![1, 4, 3, 2]);
    links.reverse_segment(1, 2, 5);
    assert_eq!(links.route_clients(5, 4), vec![1, 2, 3, 4]);
    assert_eq!(links.next, before.next);
    assert_eq!(links.prev, before.prev);
}

#[test]
fn relocation_between_routes() {
    let mut links = two_routes(vec![1, 2], vec![3, 4]);
    links.insert_node(2, 3);
    assert_eq!(route_of(&links, 5, 7), vec![1]);
    assert_eq!(route_of(&links, 6, 8), vec![3, 2, 4]);
    assert_eq!(links.route[2], 1);
}

#[test]
fn relocation_after_a_start_depot() {
    let mut links = two_routes(vec![1, 2], vec![3, 4]);
    links.route[6] = 1;
    links.insert_node(1, 6);
    assert_eq!(route_of(&links, 5, 7), vec![2]);
    assert_eq!(route_of(&links, 6, 8), vec![1, 3, 4]);
    assert_eq!(links.route[1], 1);
}

#[test]
fn swap_between_routes() {
    let mut links = two_routes(vec![1, 2], vec![3, 4]);
    links.swap_node(1, 4);
    assert_eq!(route_of(&links, 5, 7), vec![4, 2]);
    assert_eq!(route_of(&links, 6, 8), vec![3, 1]);
    assert_eq!(links.route[4], 0);
    assert_eq!(links.route[1], 1);
}

#[test]
fn relocation_within_a_route() {
    let mut links = two_routes(vec![1, 2, 3, 4], vec![]);
    links.insert_node(1, 3);
    assert_eq!(route_of(&links, 5, 7), vec![2, 3, 1, 4]);
    links.insert_node(4, 2);
    assert_eq!(route_of(&links, 5, 7), vec![2, 4, 3, 1]);
    links.route[5] = 0;
    links.insert_node(1, 5);
    assert_eq!(route_of(&links, 5, 7), vec![1, 2, 4, 3]);
    assert!((1..=4).all(|c| links.route[c] == 0));
}

#[test]
fn swap_within_a_route() {
    let mut links = two_routes(vec![1, 2, 3, 4], vec![]);
    links.swap_node(1, 3);
    assert_eq!(route_of(&links, 5, 7), vec![3, 2, 1, 4]);
    links.swap_node(2, 4);
    assert_eq!(route_of(&links, 5, 7), vec![3, 4, 1, 2]);
}
