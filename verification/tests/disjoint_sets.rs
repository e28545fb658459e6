use procon_lib::structure::disjoint_sets::{DisjointSet, DisjointSets};

#[test]
fn disjoint_sets() {
    let mut uf = DisjointSets::new(5);

    assert_eq!(uf.size(), 5);
    assert!(!uf.in_same(0, 1));
    assert!(uf.merge(0, 1));
    assert!(uf.in_same(0, 1));
    assert!(!uf.in_same(1, 2));
    assert!(uf.size_of(0) == 2);

    assert_eq!(uf.size(), 4);
    assert!(uf.merge(2, 3));
    assert!(!uf.in_same(1, 2));
    assert!(uf.size_of(2) == 2);

    assert_eq!(uf.size(), 3);
    assert!(uf.merge(1, 3));
    assert!(uf.in_same(1, 2));
    assert!(uf.size_of(2) == 4);

    assert!(!uf.merge(1, 3));
}

#[test]
fn disjoint_set() {
    let mut uf = DisjointSet::new(5);

    assert_eq!(uf.size(), 5);
    assert!(!uf.in_same(0, 1));
    assert!(uf.merge(0, 1));
    assert!(uf.in_same(0, 1));
    assert!(!uf.in_same(1, 2));
    assert!(uf.size_of(0) == 2);

    assert_eq!(uf.size(), 4);
    assert!(uf.merge(2, 3));
    assert!(!uf.in_same(1, 2));
    assert!(uf.size_of(2) == 2);

    assert_eq!(uf.size(), 3);
    assert!(uf.merge(1, 3));
    assert!(uf.in_same(1, 2));
    assert!(uf.size_of(2) == 4);

    assert!(!uf.merge(1, 3));
}

#[test]
fn three_merges_of_five() {
    let mut uf = DisjointSets::new(5);
    uf.merge(0, 1);
    uf.merge(2, 3);
    uf.merge(1, 3);
    assert_eq!(uf.size(), 2);
    assert!(uf.in_same(0, 2));
}

#[test]
fn every_real_merge_takes_one_set() {
    let n = 12;
    let mut uf = DisjointSets::new(n);
    let pairs = [(0, 1), (1, 0), (2, 3), (3, 1), (0, 2), (5, 6), (6, 5), (11, 0), (7, 7), (8, 9)];
    let mut joined = 0;
    for &(x, y) in pairs.iter() {
        if uf.merge(x, y) {
            joined += 1;
        }
        assert_eq!(uf.size(), n - joined);
    }
    assert_eq!(joined, 6);
}

#[test]
fn in_same_is_an_equivalence() {
    let mut uf = DisjointSets::new(6);
    uf.merge(0, 1);
    uf.merge(1, 2);
    uf.merge(4, 5);
    for x in 0..6 {
        assert!(uf.in_same(x, x));
        for y in 0..6 {
            assert_eq!(uf.in_same(x, y), uf.in_same(y, x));
            for z in 0..6 {
                if uf.in_same(x, y) && uf.in_same(y, z) {
                    assert!(uf.in_same(x, z));
                }
            }
        }
    }
}

#[test]
fn the_larger_set_keeps_its_root() {
    let mut uf = DisjointSets::new(5);
    uf.merge(0, 1);
    assert_eq!(uf.root(1), 0);
    uf.merge(2, 0);
    assert_eq!(uf.root(2), 0);
    uf.merge(3, 4);
    assert_eq!(uf.root(4), 3);
    uf.merge(4, 1);
    assert_eq!(uf.root(3), 0);
    assert_eq!(uf.size_of(4), 5);
    assert_eq!(uf.size(), 1);
}

#[test]
fn no_sets_at_all() {
    let uf = DisjointSets::new(0);
    assert_eq!(uf.size(), 0);
}
