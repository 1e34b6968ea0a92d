use cplib::bound::{LowerBound, UpperBound};

#[test]
fn test_lower_bound() {
    let v = vec![1, 2, 3, 3, 3, 5, 5, 6];
    assert_eq!(v.lower_bound(&0), 0);
    assert_eq!(v.lower_bound(&1), 0);
    assert_eq!(v.lower_bound(&2), 1);
    assert_eq!(v.lower_bound(&3), 2);
    assert_eq!(v.lower_bound(&4), 5);
    assert_eq!(v.lower_bound(&5), 5);
    assert_eq!(v.lower_bound(&6), 7);
    assert_eq!(v.lower_bound(&7), 8);
}

#[test]
fn test_upper_bound() {
    let v = vec![1, 2, 3, 3, 3, 5, 5, 6];
    assert_eq!(v.upper_bound(&0), 0);
    assert_eq!(v.upper_bound(&1), 1);
    assert_eq!(v.upper_bound(&2), 2);
    assert_eq!(v.upper_bound(&3), 5);
    assert_eq!(v.upper_bound(&4), 5);
    assert_eq!(v.upper_bound(&5), 7);
    assert_eq!(v.upper_bound(&6), 8);
    assert_eq!(v.upper_bound(&7), 8);
}

#[test]
fn bounds_on_empty_slice() {
    let v: Vec<u64> = vec![];
    assert_eq!(v.lower_bound(&3), 0);
    assert_eq!(v.upper_bound(&3), 0);
}

#[test]
fn bounds_on_all_equal_elements() {
    let v = vec![4u8; 9];
    assert_eq!(v.lower_bound(&4), 0);
    assert_eq!(v.upper_bound(&4), 9);
    assert_eq!(v.lower_bound(&5), 9);
    assert_eq!(v.upper_bound(&3), 0);
}
