use algolib::eratosthenes::Erathosthenes;
use algolib::fenwick_tree::FenwickTree;
use algolib::range_sum_range_affine::SumCount;
use algolib::euclid::euclid;
use algolib::euclid::ext_euclid;
use algolib::galois_field::GaloisField;
use algolib::pascal_triangle::PascalTriangle;
use algolib::prime::is_prime;
use algolib::repeated_squaring::mod_pow;
use algolib::sorted_multi_set::SortedMultiSet;
use algolib::union_find::UnionFind;

#[test]
fn gcd_values() {
    assert_eq!(euclid(12, 18), 6);
    assert_eq!(euclid(18, 12), 6);
    assert_eq!(euclid(17, 5), 1);
    assert_eq!(euclid(42, 0), 42);
    assert_eq!(euclid(0, 9), 9);
}

#[test]
fn extended_gcd_bezout() {
    let (p, q) = ext_euclid(240, 46);
    assert_eq!(p * 240 + q * 46, 2);
    let (p, q) = ext_euclid(7, 3);
    assert_eq!(p * 7 + q * 3, 1);
    let (p, q) = ext_euclid(10, 10);
    assert_eq!(p * 10 + q * 10, 10);
}

#[test]
fn extended_gcd_handles_zero_and_negative() {
    let (p, q) = ext_euclid(0, 9);
    assert_eq!(p * 0 + q * 9, 9);
    let (p, q) = ext_euclid(12, 0);
    assert_eq!(p * 12 + q * 0, 12);
    let (p, q) = ext_euclid(-240, 46);
    assert_eq!(p * -240 + q * 46, 2);
    let (p, q) = ext_euclid(240, -46);
    assert_eq!(p * 240 + q * -46, 2);
    let (p, q) = ext_euclid(0, 0);
    assert_eq!(p, 0);
    assert_eq!(q, 0);
}

#[test]
fn fenwick_prefix_differences() {
    let values: Vec<SumCount> = (1..=6i64).map(|i| SumCount { sum: i, count: 1 }).collect();
    let t = FenwickTree::<algolib::range_sum_range_affine::O>::new(&values);
    assert_eq!(t.fold(0, 6), SumCount { sum: 21, count: 6 });
    assert_eq!(t.fold(1, 4), SumCount { sum: 9, count: 3 });
    assert_eq!(t.fold(3, 3), SumCount { sum: 0, count: 0 });
    assert_eq!(t.fold(5, 6), SumCount { sum: 6, count: 1 });
    // for l > r the walk still computes the prefix difference
    assert_eq!(t.fold(4, 1), SumCount { sum: -9, count: -3 });
}

#[test]
fn trial_division_primality() {
    assert!(!is_prime(0));
    assert!(!is_prime(1));
    assert!(is_prime(2));
    assert!(is_prime(3));
    assert!(!is_prime(4));
    assert!(is_prime(97));
    assert!(!is_prime(100));
    assert!(is_prime(7919));
    assert!(!is_prime(7917));
}

#[test]
fn modular_exponentiation() {
    assert_eq!(mod_pow(3, 13, 1000), 323);
    assert_eq!(mod_pow(5, 0, 7), 1);
    assert_eq!(mod_pow(2, 10, 1), 0);
    assert_eq!(mod_pow(0, 5, 13), 0);
    assert_eq!(mod_pow(10, 9, 1_000_000_007), 1_000_000_000);
}

#[test]
fn galois_field_arithmetic() {
    let x = GaloisField::<7>::new(10);
    assert_eq!(x.value(), 3);
    assert_eq!(x.pow(6).value(), 1);
    let inv = x.inv();
    assert_eq!(inv.value(), 5);
    assert_eq!(3 * 5 % 7, 1);
}

#[test]
fn pascal_triangle_coefficients() {
    let t = PascalTriangle::<u64>::new(10);
    assert_eq!(t.combination(5, 2), 10);
    assert_eq!(t.combination(10, 3), 120);
    assert_eq!(t.combination(7, 0), 1);
    assert_eq!(t.combination(7, 7), 1);
    assert_eq!(t.duplicated_combination(3, 2), 6);
    assert_eq!(t.duplicated_combination(4, 3), 20);
}

#[test]
fn union_find_basics() {
    let mut uf = UnionFind::new(5);
    assert_eq!(uf.count(), 5);
    assert!(uf.unite(0, 1));
    assert!(!uf.unite(1, 0));
    assert!(uf.is_same(0, 1));
    assert!(!uf.is_same(0, 2));
    assert_eq!(uf.size(1), 2);
    assert_eq!(uf.size(2), 1);
    assert!(uf.unite(2, 3));
    assert!(uf.unite(0, 3));
    assert_eq!(uf.size(3), 4);
    assert_eq!(uf.count(), 2);
    assert!(uf.is_same(1, 2));
    assert!(!uf.is_same(4, 0));
}

#[test]
fn sieve_primality() {
    let sieve = Erathosthenes::new(50);
    let primes = [2usize, 3, 5, 7, 11, 13, 17, 19, 23, 29, 31, 37, 41, 43, 47];
    for v in 0..=50usize {
        assert_eq!(sieve.is_prime(v), primes.contains(&v), "value {}", v);
    }
}

#[test]
fn multiset_build_and_order() {
    let s = SortedMultiSet::new(&vec![5, 1, 3, 3, 2]);
    assert_eq!(s.len(), 5);
    assert_eq!(s.nth(0), Some(1));
    assert_eq!(s.nth(1), Some(2));
    assert_eq!(s.nth(2), Some(3));
    assert_eq!(s.nth(3), Some(3));
    assert_eq!(s.nth(4), Some(5));
    assert_eq!(s.nth(5), None);
}

#[test]
fn multiset_lookup() {
    let s = SortedMultiSet::new(&vec![5, 1, 3, 3, 2]);
    assert!(s.contains(&3));
    assert!(!s.contains(&4));
    assert_eq!(s.find(&3), Some(2));
    assert_eq!(s.find(&1), Some(0));
    assert_eq!(s.find(&4), None);
}

#[test]
fn multiset_add_and_drop() {
    let mut s = SortedMultiSet::new(&vec![5, 1, 3]);
    assert!(s.add(&4));
    assert_eq!(s.len(), 4);
    assert_eq!(s.nth(2), Some(4));
    assert!(s.drop(&3));
    assert!(!s.drop(&3));
    assert_eq!(s.len(), 3);
    assert_eq!(s.nth(0), Some(1));
    assert_eq!(s.nth(1), Some(4));
    assert_eq!(s.nth(2), Some(5));
    let mut empty = SortedMultiSet::new(&vec![]);
    assert!(!empty.drop(&1));
    assert!(empty.add(&9));
    assert_eq!(empty.nth(0), Some(9));
}

#[test]
fn multiset_remove_by_position() {
    let mut s = SortedMultiSet::new(&vec![4, 2, 9]);
    assert_eq!(s.remove(1), Some(4));
    assert_eq!(s.remove(5), None);
    assert_eq!(s.len(), 2);
    assert_eq!(s.nth(0), Some(2));
    assert_eq!(s.nth(1), Some(9));
}

#[test]
fn multiset_neighbours() {
    let s = SortedMultiSet::new(&vec![10, 20, 20, 30]);
    assert_eq!(s.less_than(&20), Some(10));
    assert_eq!(s.less_than(&10), None);
    assert_eq!(s.less_than_or_equal(&20), Some(20));
    assert_eq!(s.less_than_or_equal(&5), None);
    assert_eq!(s.greater_than(&20), Some(30));
    assert_eq!(s.greater_than(&30), None);
    assert_eq!(s.greater_than_or_equal(&15), Some(20));
    assert_eq!(s.greater_than_or_equal(&31), None);
}

#[test]
fn multiset_many_inserts_split_chunks() {
    let mut s = SortedMultiSet::new(&vec![]);
    for i in 0..200i64 {
        assert!(s.add(&((i * 37) % 101)));
    }
    assert_eq!(s.len(), 200);
    let mut prev = s.nth(0).unwrap();
    for k in 1..200usize {
        let cur = s.nth(k).unwrap();
        assert!(prev <= cur);
        prev = cur;
    }
}
