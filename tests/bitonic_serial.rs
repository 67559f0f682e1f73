use bitonic_sort::bitonic_serial::bitonic_sort;

#[test]
fn test_bitonic_sort_ascending() {
    let mut nums = vec![4, 2, 7, 1, 5];
    bitonic_sort(&mut nums);
    assert_eq!(nums, vec![1, 2, 4, 5, 7]);
}

#[test]
fn test_bitonic_sort_descending() {
    let mut nums = vec![4, 2, 7, 1, 5];
    bitonic_sort(&mut nums);
    nums.reverse();
    assert_eq!(nums, vec![7, 5, 4, 2, 1]);
}

#[test]
fn bitonic_serial_test_bitonic_sort_empty() {
    let mut nums: Vec<i32> = vec![];
    bitonic_sort(&mut nums);
    assert_eq!(nums, vec![]);
}

#[test]
fn bitonic_serial_test_bitonic_sort_single_element() {
    let mut nums = vec![42];
    bitonic_sort(&mut nums);
    assert_eq!(nums, vec![42]);
}

#[test]
fn test_bitonic_sort_power_of_two() {
    let mut nums = vec![4, 2, 7, 1, 5, 3, 6, 8];
    bitonic_sort(&mut nums);
    assert_eq!(nums, vec![1, 2, 3, 4, 5, 6, 7, 8]);
}

#[test]
fn test_bitonic_sort_not_power_of_two() {
    let mut nums = vec![4, 2, 7, 1, 5, 3, 6];
    bitonic_sort(&mut nums);
    assert_eq!(nums, vec![1, 2, 3, 4, 5, 6, 7]);
}

#[test]
fn serial_sorts_duplicates_keeping_every_copy() {
    let mut nums = vec![4, 2, 7, 1, 5, 3, 6, 4, 2, 7, 1, 5, 3, 6];
    bitonic_sort(&mut nums);
    assert_eq!(nums, vec![1, 1, 2, 2, 3, 3, 4, 4, 5, 5, 6, 6, 7, 7]);
}

#[test]
fn serial_sorts_extreme_and_negative_values() {
    let mut nums = vec![i32::MAX, -3, 0, i32::MIN, 17, -3, i32::MAX];
    bitonic_sort(&mut nums);
    assert_eq!(nums, vec![i32::MIN, -3, -3, 0, 17, i32::MAX, i32::MAX]);
}

#[test]
fn serial_padding_does_not_leak_when_max_is_repeated() {
    let mut nums = vec![9, 9, 1, 9, 0];
    bitonic_sort(&mut nums);
    assert_eq!(nums, vec![0, 1, 9, 9, 9]);
}

#[test]
fn serial_sorting_sorted_input_is_identity() {
    let mut nums = vec![-2, 0, 0, 3, 8, 11];
    let before = nums.clone();
    bitonic_sort(&mut nums);
    assert_eq!(nums, before);
}

#[test]
fn serial_two_elements_and_all_equal() {
    let mut two = vec![5, -5];
    bitonic_sort(&mut two);
    assert_eq!(two, vec![-5, 5]);
    let mut same = vec![3, 3, 3, 3, 3, 3];
    bitonic_sort(&mut same);
    assert_eq!(same, vec![3, 3, 3, 3, 3, 3]);
}

#[test]
fn serial_sorts_a_longer_scrambled_buffer() {
    let mut nums: Vec<i32> = Vec::new();
    let mut x: i32 = 7;
    for _ in 0..100 {
        x = (x * 31 + 11) % 97;
        nums.push(x - 48);
    }
    let mut expected = nums.clone();
    expected.sort();
    bitonic_sort(&mut nums);
    assert_eq!(nums, expected);
}
