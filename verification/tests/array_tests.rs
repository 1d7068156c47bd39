use stable_fluids::array::add_array;

#[test]
fn the_sum_of_nothing_is_zero() {
    assert_eq!(add_array(&vec![]), Some(0));
}

#[test]
fn the_sum_adds_every_value() {
    assert_eq!(add_array(&vec![7]), Some(7));
    assert_eq!(add_array(&vec![1, 2, 3, 4]), Some(10));
    assert_eq!(add_array(&vec![0, 0, 5, 0]), Some(5));
}

#[test]
fn the_largest_sum_is_given() {
    assert_eq!(add_array(&vec![u32::MAX]), Some(u32::MAX));
    assert_eq!(add_array(&vec![u32::MAX - 3, 1, 2, 0]), Some(u32::MAX));
}

#[test]
fn a_sum_that_does_not_fit_is_not_given() {
    assert_eq!(add_array(&vec![u32::MAX, 1]), None);
    assert_eq!(add_array(&vec![1, u32::MAX, 0]), None);
    assert_eq!(add_array(&vec![u32::MAX, u32::MAX, u32::MAX]), None);
    assert_eq!(add_array(&vec![1 << 31, 1 << 31]), None);
}
