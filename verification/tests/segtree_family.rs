use algolib::lazy_segtree::LazySegtree;
use algolib::lazy_segtree::MonoidWithMorphism;
use algolib::range_sum_range_affine::AffineComposition;
use algolib::range_sum_range_affine::AffineMap;
use algolib::range_sum_range_affine::Morphism;
use algolib::range_sum_range_affine::O;
use algolib::range_sum_range_affine::SumCount;
use algolib::segtree::Segtree;
use algolib::segtree::SegtreeError;

fn sc(sum: i64, count: i64) -> SumCount {
    SumCount { sum, count }
}

fn unit_values(n: i64) -> Vec<SumCount> {
    (1..=n).map(|i| sc(i, 1)).collect()
}

#[test]
fn build_then_collect_returns_input() {
    let values = unit_values(5);
    let tree = Segtree::<O>::new(&values).unwrap();
    assert_eq!(tree.collect(), values);
    let lazy = LazySegtree::<O>::new(&values).unwrap();
    assert_eq!(lazy.collect(), values);
}

#[test]
fn build_single_element() {
    let values = vec![sc(42, 1)];
    let tree = Segtree::<O>::new(&values).unwrap();
    assert_eq!(tree.collect(), values);
    assert_eq!(tree.fold(0, 1).unwrap(), sc(42, 1));
}

#[test]
fn empty_construction_is_rejected() {
    let empty: Vec<SumCount> = vec![];
    match Segtree::<O>::new(&empty) {
        Ok(_) => panic!("empty construction accepted"),
        Err(e) => assert_eq!(e, SegtreeError::EmptyConstruction),
    }
    match LazySegtree::<O>::new(&empty) {
        Ok(_) => panic!("empty construction accepted"),
        Err(e) => assert_eq!(e, SegtreeError::EmptyConstruction),
    }
}

fn compose_maps(x: AffineMap, y: AffineMap) -> AffineMap {
    AffineMap {
        a: x.a.wrapping_mul(y.a),
        b: x.b.wrapping_mul(y.a).wrapping_add(y.b),
    }
}

#[test]
fn fold_matches_naive_for_noncommutative_monoid() {
    let maps = vec![
        AffineMap { a: 2, b: 1 },
        AffineMap { a: 3, b: 5 },
        AffineMap { a: 1, b: 7 },
        AffineMap { a: 5, b: 0 },
        AffineMap { a: -2, b: 4 },
        AffineMap { a: 0, b: 9 },
    ];
    let m1 = maps[0];
    let m2 = maps[1];
    assert_ne!(compose_maps(m1, m2), compose_maps(m2, m1));
    let tree = Segtree::<AffineComposition>::new(&maps).unwrap();
    for l in 0..=maps.len() {
        for r in l..=maps.len() {
            let mut expected = AffineMap { a: 1, b: 0 };
            for k in l..r {
                expected = compose_maps(expected, maps[k]);
            }
            assert_eq!(tree.fold(l, r).unwrap(), expected, "range {}..{}", l, r);
        }
    }
}

#[test]
fn fold_empty_range_returns_identity_for_any_bound() {
    let tree = Segtree::<O>::new(&unit_values(5)).unwrap();
    for k in 0..10 {
        assert_eq!(tree.fold(k, k).unwrap(), sc(0, 0));
    }
    let mut lazy = LazySegtree::<O>::new(&unit_values(5)).unwrap();
    for k in 0..10 {
        assert_eq!(lazy.fold(k, k).unwrap(), sc(0, 0));
    }
}

#[test]
fn range_apply_on_empty_range_is_noop() {
    let values = unit_values(5);
    let mut lazy = LazySegtree::<O>::new(&values).unwrap();
    lazy.range_apply(7, 7, &Morphism::AddConstant(5)).unwrap();
    lazy.range_apply(2, 2, &Morphism::SetTo(100)).unwrap();
    assert_eq!(lazy.collect(), values);
}

#[test]
fn invalid_ranges_are_rejected() {
    let tree = Segtree::<O>::new(&unit_values(5)).unwrap();
    assert_eq!(tree.fold(3, 2).unwrap_err(), SegtreeError::InvalidRange);
    assert_eq!(tree.fold(0, 6).unwrap_err(), SegtreeError::InvalidRange);
    assert_eq!(tree.get_at(5).unwrap_err(), SegtreeError::IndexOutOfRange);
    let mut lazy = LazySegtree::<O>::new(&unit_values(5)).unwrap();
    assert_eq!(lazy.fold(4, 1).unwrap_err(), SegtreeError::InvalidRange);
    assert_eq!(
        lazy.range_apply(2, 9, &Morphism::AddConstant(1)).unwrap_err(),
        SegtreeError::InvalidRange
    );
    assert_eq!(lazy.get(5).unwrap_err(), SegtreeError::IndexOutOfRange);
}

#[test]
fn point_update_changes_only_its_leaf() {
    let mut tree = Segtree::<O>::new(&unit_values(5)).unwrap();
    assert_eq!(
        tree.update_at(5, sc(9, 9)).unwrap_err(),
        SegtreeError::IndexOutOfRange
    );
    tree.update_at(2, sc(10, 1)).unwrap();
    for j in 0..5 {
        let expected = if j == 2 { sc(10, 1) } else { sc(j as i64 + 1, 1) };
        assert_eq!(tree.get_at(j).unwrap(), expected);
    }
    // folds reflect the new value only where position 2 is inside
    assert_eq!(tree.fold(0, 2).unwrap(), sc(3, 2));
    assert_eq!(tree.fold(0, 3).unwrap(), sc(13, 3));
    assert_eq!(tree.fold(2, 5).unwrap(), sc(19, 3));
}

#[test]
fn concrete_scenario_sum_count() {
    let values = unit_values(5);
    let mut lazy = LazySegtree::<O>::new(&values).unwrap();
    assert_eq!(lazy.fold(1, 4).unwrap(), sc(9, 3));
    lazy.range_apply(1, 4, &Morphism::AddConstant(2)).unwrap();
    assert_eq!(lazy.fold(0, 5).unwrap(), sc(21, 5));
    assert_eq!(
        lazy.collect(),
        vec![sc(1, 1), sc(4, 1), sc(5, 1), sc(6, 1), sc(5, 1)]
    );
}

#[test]
fn add_constant_shifts_sum_by_count_times_constant() {
    let values = vec![sc(3, 1), sc(-1, 1), sc(7, 1), sc(2, 1)];
    let mut lazy = LazySegtree::<O>::new(&values).unwrap();
    let before = lazy.fold(0, 4).unwrap();
    lazy.range_apply(1, 3, &Morphism::AddConstant(10)).unwrap();
    let after = lazy.fold(0, 4).unwrap();
    assert_eq!(after.sum, before.sum + 10 * 2);
    assert_eq!(after.count, before.count);
}

#[test]
fn set_to_and_multiply_and_affine() {
    let values = unit_values(5);
    let mut lazy = LazySegtree::<O>::new(&values).unwrap();
    lazy.range_apply(0, 5, &Morphism::SetTo(7)).unwrap();
    assert_eq!(lazy.collect(), vec![sc(7, 1); 5]);
    lazy.range_apply(0, 2, &Morphism::MultiplyBy(3)).unwrap();
    assert_eq!(lazy.collect(), vec![sc(21, 1), sc(21, 1), sc(7, 1), sc(7, 1), sc(7, 1)]);
    lazy.range_apply(2, 5, &Morphism::Affine(2, 1)).unwrap();
    // (7, 1) becomes (7 * 2 + 1 * 1, 1)
    assert_eq!(lazy.collect(), vec![sc(21, 1), sc(21, 1), sc(15, 1), sc(15, 1), sc(15, 1)]);
}

#[test]
fn stacked_lazy_updates_compose_in_order() {
    let values = unit_values(4);
    let mut lazy = LazySegtree::<O>::new(&values).unwrap();
    lazy.range_apply(0, 4, &Morphism::AddConstant(1)).unwrap();
    lazy.range_apply(0, 2, &Morphism::MultiplyBy(10)).unwrap();
    lazy.range_apply(1, 3, &Morphism::AddConstant(5)).unwrap();
    assert_eq!(
        lazy.collect(),
        vec![sc(20, 1), sc(35, 1), sc(9, 1), sc(5, 1)]
    );
    assert_eq!(lazy.fold(0, 4).unwrap(), sc(69, 4));
}

#[test]
fn reads_are_idempotent() {
    let tree = Segtree::<O>::new(&unit_values(6)).unwrap();
    assert_eq!(tree.fold(1, 5).unwrap(), tree.fold(1, 5).unwrap());
    assert_eq!(tree.get_at(3).unwrap(), tree.get_at(3).unwrap());
    let mut lazy = LazySegtree::<O>::new(&unit_values(6)).unwrap();
    lazy.range_apply(0, 6, &Morphism::AddConstant(4)).unwrap();
    let first = lazy.fold(2, 5).unwrap();
    let second = lazy.fold(2, 5).unwrap();
    assert_eq!(first, second);
    assert_eq!(lazy.get(2).unwrap(), lazy.get(2).unwrap());
    assert_eq!(lazy.collect(), lazy.collect());
}

fn apply(f: Morphism, v: SumCount) -> SumCount {
    <O as MonoidWithMorphism>::apply(&f, &v)
}

fn compose(f: Morphism, g: Morphism) -> Morphism {
    <O as MonoidWithMorphism>::compose(&f, &g)
}

#[test]
fn composition_is_associative_in_action() {
    let samples = [
        Morphism::Identity,
        Morphism::SetTo(4),
        Morphism::AddConstant(-3),
        Morphism::MultiplyBy(5),
        Morphism::Affine(2, 7),
    ];
    let vals = [SumCount { sum: 10, count: 3 }, SumCount { sum: -4, count: 1 }];
    for &f1 in samples.iter() {
        for &f2 in samples.iter() {
            for &f3 in samples.iter() {
                for &v in vals.iter() {
                    let left = apply(compose(f1, compose(f2, f3)), v);
                    let right = apply(compose(compose(f1, f2), f3), v);
                    assert_eq!(left, right);
                }
            }
        }
    }
}

#[test]
fn composition_table_spot_checks() {
    // a SetTo applied later absorbs whatever was pending before it
    assert_eq!(
        compose(Morphism::SetTo(9), Morphism::Affine(3, 4)),
        Morphism::SetTo(9)
    );
    // multiply after add becomes the documented affine form
    assert_eq!(
        compose(Morphism::MultiplyBy(3), Morphism::AddConstant(4)),
        Morphism::Affine(3, 12)
    );
    assert_eq!(
        compose(Morphism::AddConstant(2), Morphism::AddConstant(5)),
        Morphism::AddConstant(7)
    );
    // check the composition law itself on a concrete value
    let v = SumCount { sum: 6, count: 2 };
    let f = Morphism::Affine(2, 3);
    let g = Morphism::AddConstant(4);
    assert_eq!(apply(compose(f, g), v), apply(f, apply(g, v)));
}
