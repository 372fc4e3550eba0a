use hgs_cvrp::local_search::NodeLinks;

/// Arena for 4 clients and 2 routes: clients 0..=4, depots 5, 6, end depots 7, 8.
fn loaded(routes: &[Vec<usize>]) -> NodeLinks {
    let size = 9;
    let mut links = NodeLinks { next: vec![0; size], prev: vec![0; size], route: vec![0; size] };
    for (r, clients) in routes.iter().enumerate() {
        links.load_route(5 + r, 7 + r, r, clients);
    }
    links
}

fn walk(links: &NodeLinks, depot: usize) -> Vec<usize> {
    let mut out = Vec::new();
    let mut x = links.next[depot];
    while x <= 4 {
        out.push(x);
        x = links.next[x];
    }
    out
}

fn consistent(links: &NodeLinks, nodes: &[usize]) -> bool {
    nodes.iter().all(|&x| links.prev[links.next[x]] == x && links.next[links.prev[x]] == x)
}

const NODES: [usize; 8] = [1, 2, 3, 4, 5, 6, 7, 8];

#[test]
fn load_links_routes_between_their_depots() {
    let links = loaded(&[vec![3, 1], vec![]]);
    assert_eq!(walk(&links, 5), vec![3, 1]);
    assert_eq!(links.next[1], 7);
    assert_eq!(links.prev[7], 1);
    assert_eq!(links.next[7], 5);
    assert_eq!(links.prev[5], 7);
    assert_eq!(links.next[6], 8);
    assert_eq!(links.prev[8], 6);
    assert_eq!(links.prev[3], 5);
    assert_eq!(links.route[3], 0);
    assert_eq!(links.route[1], 0);
}

#[test]
fn insert_moves_a_client_after_another_node() {
    let mut links = loaded(&[vec![1, 2, 3], vec![4]]);
    links.insert_node(2, 4);
    assert_eq!(walk(&links, 5), vec![1, 3]);
    assert_eq!(walk(&links, 6), vec![4, 2]);
    assert_eq!(links.route[2], 1);
    assert!(consistent(&links, &NODES));
    // Insertion right after the start depot.
    links.insert_node(3, 6);
    assert_eq!(walk(&links, 6), vec![3, 4, 2]);
    assert_eq!(walk(&links, 5), vec![1]);
    assert!(consistent(&links, &NODES));
    // Inserting after the current predecessor changes nothing.
    links.insert_node(4, 3);
    assert_eq!(walk(&links, 6), vec![3, 4, 2]);
    assert!(consistent(&links, &NODES));
}

#[test]
fn swap_exchanges_two_clients() {
    let mut links = loaded(&[vec![1, 2, 3], vec![4]]);
    links.swap_node(1, 4);
    assert_eq!(walk(&links, 5), vec![4, 2, 3]);
    assert_eq!(walk(&links, 6), vec![1]);
    assert_eq!((links.route[1], links.route[4]), (1, 0));
    assert!(consistent(&links, &NODES));
    links.swap_node(4, 3);
    assert_eq!(walk(&links, 5), vec![3, 2, 4]);
    assert!(consistent(&links, &NODES));
}
