use hgs_cvrp::circle_sector::CircleSector;

#[test]
fn enclosure_and_overlap() {
    let mut sector = CircleSector::default();
    sector.initialize(1000);
    assert!(sector.is_enclosed(1000));
    sector.extend(2000);
    assert!(sector.is_enclosed(1500));
    assert!(!sector.is_enclosed(3000));

    // Sector wrapping around 0.
    let mut wrapping = CircleSector::default();
    wrapping.initialize(65000);
    wrapping.extend(500);
    assert!(wrapping.is_enclosed(0));
    assert!(!wrapping.is_enclosed(30000));

    assert!(CircleSector::overlap(&sector, &sector));
    assert!(!CircleSector::overlap(&sector, &wrapping));
}

#[test]
fn positive_mod_values() {
    assert_eq!(CircleSector::positive_mod(0), 0);
    assert_eq!(CircleSector::positive_mod(65536), 0);
    assert_eq!(CircleSector::positive_mod(65537), 1);
    assert_eq!(CircleSector::positive_mod(-1), 65535);
    assert_eq!(CircleSector::positive_mod(-65536), 0);
    assert_eq!(CircleSector::positive_mod(i32::MIN), 0);
    assert_eq!(CircleSector::positive_mod(i32::MAX), 65535);
}

#[test]
fn extend_moves_the_nearer_end() {
    let mut s = CircleSector { start: 1000, end: 2000 };
    // 2500 is nearer to the end (500 further) than to the start (64036 before).
    s.extend(2500);
    assert_eq!((s.start, s.end), (1000, 2500));
    // 900 is nearer to the start.
    s.extend(900);
    assert_eq!((s.start, s.end), (900, 2500));
    // An enclosed point changes nothing.
    s.extend(1200);
    assert_eq!((s.start, s.end), (900, 2500));
}

#[test]
fn extend_keeps_enclosed_points() {
    let mut s = CircleSector::default();
    s.initialize(60000);
    let points = [61000, 100, 59000, 30000, 5, 64000];
    let mut seen: Vec<i32> = vec![60000];
    for &p in points.iter() {
        s.extend(p);
        seen.push(p);
        for &q in seen.iter() {
            assert!(s.is_enclosed(q));
        }
    }
}

#[test]
fn overlap_by_either_start() {
    let a = CircleSector { start: 100, end: 200 };
    let b = CircleSector { start: 150, end: 400 };
    let c = CircleSector { start: 300, end: 50 };
    assert!(CircleSector::overlap(&a, &b));
    assert!(CircleSector::overlap(&b, &a));
    assert!(!CircleSector::overlap(&a, &CircleSector { start: 201, end: 250 }));
    assert!(CircleSector::overlap(&c, &a) == false);
    assert!(CircleSector::overlap(&c, &CircleSector { start: 10, end: 20 }));
}

#[test]
fn enclosing_sector_of_route_angles() {
    let sector = CircleSector::enclosing(&[1000, 2000, 1500]);
    assert_eq!((sector.start, sector.end), (1000, 2000));
    for angle in [1000, 2000, 1500] {
        assert!(sector.is_enclosed(angle));
    }
    let wrapping = CircleSector::enclosing(&[65000, 500, 100]);
    assert_eq!((wrapping.start, wrapping.end), (65000, 500));
    assert!(wrapping.is_enclosed(0));
    assert!(!wrapping.is_enclosed(30000));
    let single = CircleSector::enclosing(&[42]);
    assert_eq!((single.start, single.end), (42, 42));
}

#[test]
fn overlap_is_symmetric() {
    let a = CircleSector::enclosing(&[1000, 2000]);
    let b = CircleSector::enclosing(&[1900, 2500]);
    let c = CircleSector::enclosing(&[40000, 41000]);
    assert!(CircleSector::overlap(&a, &b) && CircleSector::overlap(&b, &a));
    assert!(!CircleSector::overlap(&a, &c) && !CircleSector::overlap(&c, &a));
    assert!(CircleSector::overlap(&c, &c));
}

#[test]
fn extend_takes_the_shorter_stretch() {
    let mut a = CircleSector::enclosing(&[1000, 2000]);
    a.extend(3000);
    assert_eq!((a.start, a.end), (1000, 3000));
    let mut b = CircleSector::enclosing(&[1000, 2000]);
    b.extend(500);
    assert_eq!((b.start, b.end), (500, 2000));
    let mut c = CircleSector::enclosing(&[1000, 2000]);
    c.extend(34500);
    assert_eq!((c.start, c.end), (34500, 2000));
    let mut d = CircleSector::enclosing(&[1000, 2000]);
    d.extend(34000);
    assert_eq!((d.start, d.end), (1000, 34000));
}
