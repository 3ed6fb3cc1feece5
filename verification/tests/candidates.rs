use sudoku::candidates::CandidateSet;

#[test]
fn new_ignores_duplicates_and_values_out_of_range() {
    let set = CandidateSet::new(&vec![3, 3, 7, 0, 10, 200, 1]);
    assert_eq!(set.to_vec(), vec![1, 3, 7]);
    assert_eq!(set.count(), 3);
}

#[test]
fn contains_is_false_outside_one_to_nine() {
    let all = CandidateSet::one_to_nine();
    assert!(!all.contains(0));
    assert!(!all.contains(10));
    assert!(!all.contains(255));
    for d in 1..=9u8 {
        assert!(all.contains(d));
    }
    assert_eq!(all.count(), 9);
}

#[test]
fn empty_set_has_nothing() {
    let none = CandidateSet::empty();
    assert!(none.is_empty());
    assert_eq!(none.count(), 0);
    assert_eq!(none.first(), 0);
    assert_eq!(none.to_vec(), Vec::<u8>::new());
    assert!(!CandidateSet::single(4).is_empty());
}

#[test]
fn union_difference_intersection() {
    let a = CandidateSet::new(&vec![1, 2, 3, 4]);
    let b = CandidateSet::new(&vec![3, 4, 5]);
    assert_eq!(a.union(&b).to_vec(), vec![1, 2, 3, 4, 5]);
    assert_eq!(a.difference(&b).to_vec(), vec![1, 2]);
    assert_eq!(b.difference(&a).to_vec(), vec![5]);
    assert_eq!(a.intersection(&b).to_vec(), vec![3, 4]);
    assert_eq!(a.union(&b).count(), 5);
    assert_eq!(a.intersection(&b).count(), 2);
}

#[test]
fn subset_relation() {
    let small = CandidateSet::new(&vec![2, 9]);
    let large = CandidateSet::new(&vec![2, 5, 9]);
    assert!(small.is_subset(&large));
    assert!(!large.is_subset(&small));
    assert!(small.is_subset(&small));
    assert!(CandidateSet::empty().is_subset(&small));
    assert!(large.is_subset(&CandidateSet::one_to_nine()));
}

#[test]
fn first_is_the_smallest_digit() {
    assert_eq!(CandidateSet::new(&vec![9, 4, 6]).first(), 4);
    assert_eq!(CandidateSet::single(9).first(), 9);
    assert_eq!(CandidateSet::one_to_nine().first(), 1);
}

#[test]
fn sets_with_the_same_digits_are_equal() {
    let a = CandidateSet::new(&vec![5, 1]);
    let b = CandidateSet::single(1).union(&CandidateSet::single(5));
    assert_eq!(a, b);
    assert_ne!(a, CandidateSet::single(1));
    assert_eq!(CandidateSet::one_to_nine().difference(&CandidateSet::one_to_nine()), CandidateSet::empty());
}
