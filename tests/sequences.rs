use orders::{get_order, pairwise_lt, sort_using, unique_and_bounded};

#[test]
fn sort_using_sorts_both() {
    let mut a = [10, 20, 30, 40, 50];
    let mut b: [usize; 5] = [3, 1, 2, 1, 0];
    sort_using(&mut a, &mut b);
    assert_eq!(b, [0, 1, 1, 2, 3]);
    assert_eq!(a, [50, 20, 40, 30, 10]);
}

#[test]
fn get_order_ranks() {
    assert_eq!(get_order(&[], false), Vec::<usize>::new());
    assert_eq!(get_order(&[7], false), vec![0]);
    assert_eq!(get_order(&[5, 2, 5, 9], false), vec![1, 0, 1, 2]);
    assert_eq!(get_order(&[5, 2, 5, 9], true), vec![1, 2, 1, 0]);
}

#[test]
fn pairwise_lt_checks() {
    assert!(pairwise_lt(&[]));
    assert!(pairwise_lt(&[4]));
    assert!(pairwise_lt(&[1, 3, 8]));
    assert!(!pairwise_lt(&[1, 3, 3]));
}

#[test]
fn unique_and_bounded_checks() {
    assert!(unique_and_bounded(3, &[2, 0]));
    assert!(!unique_and_bounded(3, &[3]));
    assert!(!unique_and_bounded(3, &[1, 1]));
    assert!(unique_and_bounded(0, &[]));
}
