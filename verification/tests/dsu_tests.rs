use algolib::algebra::Monoid;
use algolib::bitree::BITree;
use algolib::dsu::valued_dsu::ValuedDSU;
use algolib::dsu::DSU;

#[test]
fn dsu_unite_and_query() {
    let mut dsu = DSU::new(4);
    assert!(!dsu.is_same(0, 2));
    assert!(dsu.unite(0, 2));
    assert!(dsu.is_same(0, 2));
    assert!(dsu.unite(0, 1));
    assert!(dsu.is_same(1, 2));
}

#[test]
fn dsu_sizes_and_count() {
    let mut dsu = DSU::new(5);
    assert_eq!(dsu.count(), 5);
    for v in 0..5 {
        assert_eq!(dsu.size(v), 1);
    }
    assert!(dsu.unite(0, 1));
    assert!(dsu.unite(2, 3));
    assert_eq!(dsu.count(), 3);
    assert_eq!(dsu.size(0), 2);
    assert_eq!(dsu.size(1), 2);
    assert_eq!(dsu.size(4), 1);
    assert!(dsu.unite(1, 3));
    assert_eq!(dsu.count(), 2);
    assert_eq!(dsu.size(2), 4);
    // uniting members of one set changes nothing
    assert!(!dsu.unite(0, 3));
    assert_eq!(dsu.count(), 2);
    assert_eq!(dsu.size(0), 4);
}

#[test]
fn dsu_rep_is_consistent() {
    let mut dsu = DSU::new(6);
    dsu.unite(0, 5);
    dsu.unite(5, 3);
    let r = dsu.rep(0);
    assert_eq!(dsu.rep(3), r);
    assert_eq!(dsu.rep(5), r);
    assert_ne!(dsu.rep(1), r);
}

#[test]
fn valued_dsu_merges_values() {
    let mut dsu = ValuedDSU::<u64>::new(4);
    dsu.update(0, &3);
    dsu.update(1, &4);
    dsu.update(2, &10);
    assert_eq!(dsu.val(0), 3);
    assert!(dsu.unite(0, 1));
    assert_eq!(dsu.val(0), 7);
    assert_eq!(dsu.val(1), 7);
    assert_eq!(dsu.val(2), 10);
    assert!(dsu.unite(1, 2));
    assert_eq!(dsu.val(2), 17);
    assert_eq!(dsu.size(0), 3);
    assert_eq!(dsu.count(), 2);
}

#[test]
fn valued_dsu_new_values_are_identity() {
    let dsu = ValuedDSU::<u64>::new(3);
    for v in 0..3 {
        assert_eq!(dsu.val(v), <u64 as Monoid>::e());
    }
}

#[test]
fn bitree_prefix_folds() {
    let mut bt = BITree::<u64>::new();
    assert_eq!(bt.prefix_fold(0), 0);
    for x in [5u64, 3, 7, 2, 8] {
        bt.push(x);
    }
    assert_eq!(bt.prefix_fold(0), 0);
    assert_eq!(bt.prefix_fold(1), 5);
    assert_eq!(bt.prefix_fold(2), 8);
    assert_eq!(bt.prefix_fold(3), 15);
    assert_eq!(bt.prefix_fold(5), 25);
    bt.op_at(2, &10);
    assert_eq!(bt.prefix_fold(2), 8);
    assert_eq!(bt.prefix_fold(3), 25);
    assert_eq!(bt.prefix_fold(5), 35);
}

#[test]
fn bitree_wraps() {
    let mut bt = BITree::<u64>::new();
    bt.push(u64::MAX);
    bt.push(3);
    assert_eq!(bt.prefix_fold(2), 2);
}
