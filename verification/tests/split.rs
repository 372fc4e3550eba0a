use hgs_cvrp::split::{extract_routes, TrivialDeque};

#[test]
fn deque_push_pop_front_back() {
    let mut q = TrivialDeque::new(5, 7);
    assert_eq!(q.size(), 1);
    assert_eq!(q.get_front(), 7);
    assert_eq!(q.get_back(), 7);
    q.push_back(3);
    q.push_back(4);
    assert_eq!(q.size(), 3);
    assert_eq!(q.get_front(), 7);
    assert_eq!(q.get_next_front(), 3);
    assert_eq!(q.get_back(), 4);
    q.pop_front();
    assert_eq!(q.get_front(), 3);
    q.pop_back();
    assert_eq!(q.get_back(), 3);
    assert_eq!(q.size(), 1);
    q.pop_back();
    assert_eq!(q.size(), 0);
    // The back moves before the front: the next push lands on the front slot.
    q.push_back(9);
    assert_eq!(q.size(), 1);
    assert_eq!(q.get_front(), 9);
    q.reset(2);
    assert_eq!(q.size(), 1);
    assert_eq!(q.get_front(), 2);
    assert_eq!(q.get_back(), 2);
}

#[test]
fn routes_from_single_row_labels() {
    // Giant tour of 5 clients, labels of the unlimited-fleet Split (one row):
    // pred[5] = 3, pred[3] = 1, pred[1] = 0 -> routes [t0], [t1 t2], [t3 t4].
    let chrom_t = vec![4, 2, 5, 1, 3];
    let pred = vec![0, 0, 1, 1, 2, 3];
    let mut chrom_r = vec![vec![9], vec![9], vec![9], vec![9], vec![8]];
    let ok = extract_routes(&pred, 6, false, &chrom_t, 5, 3, 4, &mut chrom_r);
    assert!(ok);
    assert_eq!(chrom_r, vec![vec![4], vec![2, 5], vec![1, 3], vec![], vec![8]]);
    let flat: Vec<usize> = chrom_r[..3].concat();
    assert_eq!(flat, chrom_t);
}

#[test]
fn routes_from_layered_labels() {
    // Limited fleet: route k is read from row k + 1 of a 3 x 4 label array.
    let chrom_t = vec![3, 1, 2];
    let stride = 4;
    let mut pred = vec![0; 3 * stride];
    pred[2 * stride + 3] = 1; // route 1 covers positions 1..3
    pred[stride + 1] = 0; // route 0 covers position 0
    let mut chrom_r = vec![vec![], vec![], vec![7]];
    let ok = extract_routes(&pred, stride, true, &chrom_t, 3, 2, 3, &mut chrom_r);
    assert!(ok);
    assert_eq!(chrom_r, vec![vec![3], vec![1, 2], vec![]]);
}

#[test]
fn routes_that_do_not_reach_the_start() {
    let chrom_t = vec![1, 2, 3, 4];
    let pred = vec![0, 0, 0, 0, 2];
    let mut chrom_r = vec![vec![], vec![]];
    let ok = extract_routes(&pred, 5, false, &chrom_t, 4, 1, 2, &mut chrom_r);
    assert!(!ok);
    assert_eq!(chrom_r, vec![vec![3, 4], vec![]]);
}
