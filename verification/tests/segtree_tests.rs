use algolib::algebra::Monoid;
use algolib::monoids::{AddC, SumCnt};
use algolib::segtree::dual::{DualSegTree, MonoidAction};
use algolib::segtree::lazy::{Action, LazySegTree};
use algolib::segtree::SegTree;

#[test]
fn plain_sum_scenario() {
    let vals: Vec<u64> = vec![1, 2, 3, 4, 5];
    let mut t = SegTree::<u64>::from_vec(&vals);
    assert_eq!(t.range_fold(1, 4), 9);
    t.set_at(2, &10);
    assert_eq!(t.range_fold(0, 5), 22);
}

#[test]
fn plain_empty_range_is_identity() {
    let vals: Vec<u64> = vec![7, 8, 9];
    let t = SegTree::<u64>::from_vec(&vals);
    for i in 0..4 {
        assert_eq!(t.range_fold(i, i), 0);
    }
}

#[test]
fn plain_new_is_all_identity() {
    let t = SegTree::<u64>::new(6);
    assert_eq!(t.range_fold(0, 6), 0);
    for i in 0..6 {
        assert_eq!(t.get_at(i), 0);
    }
}

#[test]
fn plain_single_element_folds() {
    let vals: Vec<u64> = vec![3, 1, 4, 1, 5, 9, 2, 6];
    let t = SegTree::<u64>::from_vec(&vals);
    for i in 0..8 {
        assert_eq!(t.range_fold(i, i + 1), vals[i]);
    }
    assert_eq!(t.range_fold(0, 8), 31);
    assert_eq!(t.range_fold(2, 6), 4 + 1 + 5 + 9);
}

#[test]
fn plain_non_power_of_two_sizes() {
    for n in 1..10usize {
        let vals: Vec<u64> = (0..n as u64).map(|x| x + 1).collect();
        let t = SegTree::<u64>::from_vec(&vals);
        let total: u64 = vals.iter().sum();
        assert_eq!(t.range_fold(0, n), total);
    }
}

#[test]
fn dual_apply_scenario() {
    let mut t = DualSegTree::<AddC>::new(5, &10u64);
    t.range_apply(1, 4, &AddC::new(7));
    assert_eq!(t.get(0), 10);
    assert_eq!(t.get(1), 17);
    assert_eq!(t.get(2), 17);
    assert_eq!(t.get(3), 17);
    assert_eq!(t.get(4), 10);
}

#[test]
fn dual_overlapping_applies() {
    let mut t = DualSegTree::<AddC>::from_vec(vec![0u64, 0, 0, 0, 0, 0]);
    t.range_apply(0, 6, &AddC::new(1));
    t.range_apply(2, 5, &AddC::new(10));
    t.range_apply(4, 6, &AddC::new(100));
    let expect = [1u64, 1, 11, 11, 111, 101];
    for (i, e) in expect.iter().enumerate() {
        assert_eq!(t.get(i), *e);
    }
}

#[test]
fn dual_empty_apply_is_noop() {
    let mut t = DualSegTree::<AddC>::from_vec(vec![5u64, 6, 7]);
    t.range_apply(2, 2, &AddC::new(99));
    assert_eq!(t.get(0), 5);
    assert_eq!(t.get(1), 6);
    assert_eq!(t.get(2), 7);
}

#[test]
fn lazy_sum_with_count_scenario() {
    let leaves: Vec<SumCnt> = (0..4).map(|_| SumCnt::unit(0)).collect();
    let mut t = LazySegTree::<SumCnt, AddC>::from_vec(&leaves);
    t.range_apply(0, 4, &AddC::new(5));
    t.range_apply(1, 3, &AddC::new(2));
    let whole = t.range_fold(0, 4);
    assert_eq!(whole.sum, 24);
    assert_eq!(whole.cnt, 4);
    let one = t.get(1);
    assert_eq!(one.sum, 7);
    assert_eq!(one.cnt, 1);
}

#[test]
fn lazy_update_and_fold() {
    let leaves: Vec<SumCnt> = [1u64, 2, 3, 4, 5].iter().map(|&x| SumCnt::unit(x)).collect();
    let mut t = LazySegTree::<SumCnt, AddC>::from_vec(&leaves);
    assert_eq!(t.range_fold(1, 4).sum, 9);
    t.update(2, &SumCnt::unit(10));
    assert_eq!(t.range_fold(0, 5).sum, 22);
    t.range_apply(0, 5, &AddC::new(1));
    assert_eq!(t.range_fold(0, 5).sum, 27);
    assert_eq!(t.get(2).sum, 11);
}

#[test]
fn lazy_empty_ranges() {
    let leaves: Vec<SumCnt> = [3u64, 1, 4].iter().map(|&x| SumCnt::unit(x)).collect();
    let mut t = LazySegTree::<SumCnt, AddC>::from_vec(&leaves);
    t.range_apply(1, 1, &AddC::new(50));
    assert_eq!(t.range_fold(2, 2).sum, 0);
    assert_eq!(t.range_fold(2, 2).cnt, 0);
    assert_eq!(t.range_fold(0, 3).sum, 8);
}

#[test]
fn lazy_repeated_applies_compose() {
    let leaves: Vec<SumCnt> = (0..7).map(|_| SumCnt::unit(1)).collect();
    let mut t = LazySegTree::<SumCnt, AddC>::from_vec(&leaves);
    for _ in 0..3 {
        t.range_apply(2, 6, &AddC::new(1));
    }
    assert_eq!(t.range_fold(0, 7).sum, 7 + 3 * 4);
    assert_eq!(t.get(2).sum, 4);
    assert_eq!(t.get(6).sum, 1);
}

#[test]
fn monoid_laws_on_samples() {
    let samples: [u64; 4] = [0, 1, u64::MAX, 12345];
    for &x in samples.iter() {
        for &y in samples.iter() {
            for &z in samples.iter() {
                let xy_z = <u64 as Monoid>::op(&<u64 as Monoid>::op(&x, &y), &z);
                let x_yz = <u64 as Monoid>::op(&x, &<u64 as Monoid>::op(&y, &z));
                assert_eq!(xy_z, x_yz);
            }
        }
        assert_eq!(<u64 as Monoid>::op(&<u64 as Monoid>::e(), &x), x);
        assert_eq!(<u64 as Monoid>::op(&x, &<u64 as Monoid>::e()), x);
    }
}

#[test]
fn action_laws_on_samples() {
    let xs = [SumCnt { sum: 3, cnt: 2 }, SumCnt { sum: 0, cnt: 0 }, SumCnt { sum: u64::MAX, cnt: 5 }];
    let fs = [AddC::new(0), AddC::new(7), AddC::new(u64::MAX)];
    for &x in xs.iter() {
        for &y in xs.iter() {
            for &f in fs.iter() {
                // distributivity
                let lhs = <SumCnt as Action<AddC>>::apply(&<SumCnt as Monoid>::op(&x, &y), &f);
                let rhs = <SumCnt as Monoid>::op(
                    &<SumCnt as Action<AddC>>::apply(&x, &f),
                    &<SumCnt as Action<AddC>>::apply(&y, &f),
                );
                assert_eq!(lhs, rhs);
                for &g in fs.iter() {
                    // composition: later action composes on the left
                    let twice = <SumCnt as Action<AddC>>::apply(
                        &<SumCnt as Action<AddC>>::apply(&x, &f),
                        &g,
                    );
                    let once = <SumCnt as Action<AddC>>::apply(
                        &x,
                        &<AddC as Monoid>::op(&g, &f),
                    );
                    assert_eq!(twice, once);
                }
            }
            // identity action
            let e = <AddC as Monoid>::e();
            assert_eq!(<SumCnt as Action<AddC>>::apply(&x, &e), x);
        }
    }
}

#[test]
fn point_action_laws_on_samples() {
    let xs: [u64; 3] = [0, 41, u64::MAX];
    let fs = [AddC::new(0), AddC::new(1), AddC::new(u64::MAX)];
    for &x in xs.iter() {
        for &f in fs.iter() {
            for &g in fs.iter() {
                let twice =
                    <AddC as MonoidAction>::apply(&<AddC as MonoidAction>::apply(&x, &f), &g);
                let once = <AddC as MonoidAction>::apply(&x, &<AddC as Monoid>::op(&g, &f));
                assert_eq!(twice, once);
            }
        }
        assert_eq!(<AddC as MonoidAction>::apply(&x, &<AddC as Monoid>::e()), x);
    }
}

#[test]
fn wrapping_sum_wraps() {
    let vals: Vec<u64> = vec![u64::MAX, 1];
    let t = SegTree::<u64>::from_vec(&vals);
    assert_eq!(t.range_fold(0, 2), 0);
}
