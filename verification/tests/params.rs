use hgs_cvrp::params::correlated_vertices;

#[test]
fn neighbourhoods_are_symmetric_sorted_and_granular() {
    // Four clients; proximity lists (closest first) of clients 1..=4.
    let proximity = vec![vec![], vec![2, 3, 4], vec![3, 1, 4], vec![4, 2, 1], vec![1, 3, 2]];
    let r = correlated_vertices(&proximity, 1);
    assert_eq!(r[0], Vec::<usize>::new());
    // 1 -> 2, 2 -> 3, 3 -> 4, 4 -> 1, made symmetric.
    assert_eq!(r[1], vec![2, 4]);
    assert_eq!(r[2], vec![1, 3]);
    assert_eq!(r[3], vec![2, 4]);
    assert_eq!(r[4], vec![1, 3]);
    for a in 1..5 {
        for b in 1..5 {
            assert_eq!(r[a].contains(&b), r[b].contains(&a));
        }
    }
}

#[test]
fn large_granularity_takes_every_client() {
    let proximity = vec![vec![], vec![3, 2], vec![1, 3], vec![2, 1]];
    let r = correlated_vertices(&proximity, 20);
    assert_eq!(r, vec![vec![], vec![2, 3], vec![1, 3], vec![1, 2]]);
}

#[test]
fn zero_granularity_gives_empty_neighbourhoods() {
    let proximity = vec![vec![], vec![2], vec![1]];
    let r = correlated_vertices(&proximity, 0);
    assert_eq!(r, vec![Vec::<usize>::new(), vec![], vec![]]);
}
