use fueled_spine::difference::Semigroup;
use fueled_spine::lattice::advance;
use fueled_spine::lattice::frontier_dominates;
use fueled_spine::lattice::frontier_eq;
use fueled_spine::lattice::frontier_less_equal;
use fueled_spine::lattice::frontier_to_vec;
use fueled_spine::lattice::into_owned;
use fueled_spine::lattice::join;
use fueled_spine::lattice::less_equal;
use fueled_spine::lattice::minimum;
use fueled_spine::levels::ceil_log2;
use fueled_spine::levels::floor_log2;
use fueled_spine::levels::pow2_exec;
use fueled_spine::update::advance_by;
use fueled_spine::update::key_equal;
use fueled_spine::update::key_less;
use fueled_spine::update::Update;

#[test]
fn plus_equals_adds() {
    let mut diff: i64 = 3;
    diff.plus_equals(&4);
    assert_eq!(diff, 7);
    diff.plus_equals(&-7);
    assert!(diff.is_zero());
}

#[test]
fn plus_equals_wraps_around() {
    let mut diff: i64 = i64::MAX;
    diff.plus_equals(&1);
    assert_eq!(diff, i64::MIN);
    let mut back: i64 = i64::MIN;
    back.plus_equals(&-1);
    assert_eq!(back, i64::MAX);
}

#[test]
fn plus_equals_is_commutative_and_associative() {
    let values: [i64; 5] = [0, 1, -5, i64::MAX, i64::MIN];
    for a in values {
        for b in values {
            let mut ab = a;
            ab.plus_equals(&b);
            let mut ba = b;
            ba.plus_equals(&a);
            assert_eq!(ab, ba);
            for c in values {
                let mut left = ab;
                left.plus_equals(&c);
                let mut bc = b;
                bc.plus_equals(&c);
                let mut right = a;
                right.plus_equals(&bc);
                assert_eq!(left, right);
            }
        }
    }
}

#[test]
fn zero_is_neutral() {
    assert!(<i64 as Semigroup>::zero().is_zero());
    assert!(!5i64.is_zero());
    let mut diff: i64 = -9;
    diff.plus_equals(&<i64 as Semigroup>::zero());
    assert_eq!(diff, -9);
}

#[test]
fn times_form_a_lattice() {
    assert_eq!(minimum(), 0);
    assert!(less_equal(3, 3));
    assert!(less_equal(3, 4));
    assert!(!less_equal(4, 3));
    assert_eq!(join(3, 7), 7);
    assert_eq!(join(7, 3), 7);
    assert_eq!(join(5, 5), 5);
    assert_eq!(into_owned(&11), 11);
}

#[test]
fn a_time_is_in_advance_of_a_frontier_with_an_element_before_it() {
    assert!(frontier_less_equal(&[2], 3));
    assert!(frontier_less_equal(&[2], 2));
    assert!(!frontier_less_equal(&[2], 1));
    assert!(frontier_less_equal(&[9, 4], 5));
    assert!(!frontier_less_equal(&[], 3));
}

#[test]
fn frontiers_are_compared_element_by_element() {
    assert!(frontier_dominates(&[0], &[2]));
    assert!(!frontier_dominates(&[5], &[2]));
    assert!(frontier_dominates(&[5], &[]));
    assert!(!frontier_dominates(&[], &[2]));
    assert!(frontier_dominates(&[3, 8], &[4, 9]));
    assert!(!frontier_dominates(&[3, 8], &[4, 2]));
    assert!(frontier_eq(&[1, 2], &[1, 2]));
    assert!(!frontier_eq(&[1, 2], &[2, 1]));
    assert!(!frontier_eq(&[1], &[1, 1]));
    assert_eq!(frontier_to_vec(&[4, 5]), vec![4, 5]);
}

#[test]
fn advancing_joins_with_every_element() {
    assert_eq!(advance(0, &[2]), 2);
    assert_eq!(advance(1, &[2]), 2);
    assert_eq!(advance(3, &[2]), 3);
    assert_eq!(advance(1, &[2, 5, 3]), 5);
    assert_eq!(advance(7, &[]), 7);
}

#[test]
fn advancing_twice_is_advancing_once() {
    for time in 0..8u64 {
        let once = advance(time, &[3, 5]);
        assert_eq!(advance(once, &[3, 5]), once);
        assert_eq!(join(3, once), once);
        assert_eq!(join(5, once), once);
    }
}

#[test]
fn levels_are_logarithms() {
    assert_eq!(ceil_log2(0), 0);
    assert_eq!(ceil_log2(1), 0);
    assert_eq!(ceil_log2(2), 1);
    assert_eq!(ceil_log2(3), 2);
    assert_eq!(ceil_log2(4), 2);
    assert_eq!(ceil_log2(5), 3);
    assert_eq!(ceil_log2(1024), 10);
    assert_eq!(ceil_log2(1025), 11);
    assert_eq!(floor_log2(0), 0);
    assert_eq!(floor_log2(1), 0);
    assert_eq!(floor_log2(2), 1);
    assert_eq!(floor_log2(3), 1);
    assert_eq!(floor_log2(4), 2);
    assert_eq!(floor_log2(1023), 9);
    assert_eq!(floor_log2(1024), 10);
    assert_eq!(pow2_exec(0), 1);
    assert_eq!(pow2_exec(10), 1024);
}

#[test]
fn updates_are_ordered_by_data_and_time() {
    let a = Update { data: 1, time: 5, diff: 1 };
    let b = Update { data: 2, time: 0, diff: 1 };
    let c = Update { data: 1, time: 6, diff: -3 };
    let d = Update { data: 1, time: 5, diff: 9 };
    assert!(key_less(&a, &b));
    assert!(!key_less(&b, &a));
    assert!(key_less(&a, &c));
    assert!(!key_less(&a, &d));
    assert!(!key_less(&d, &a));
    assert!(key_equal(&a, &d));
    assert!(!key_equal(&a, &c));
}

#[test]
fn advancing_an_update_moves_its_time_only() {
    let u = Update { data: 4, time: 1, diff: -2 };
    assert_eq!(advance_by(&u, &[3]), Update { data: 4, time: 3, diff: -2 });
    assert_eq!(advance_by(&u, &[0]), u);
    assert_eq!(advance_by(&u, &[]), u);
}
