use bitonic_sort::bitonic_parallel::bitonic_sort;
use bitonic_sort::buffer::{coerce_parallelism, pad_to_power_of_two, split_work};
use bitonic_sort::network::compare_swap_range;

#[test]
fn test_bitonic_sort() {
    let mut nums = vec![4, 2, 7, 1, 5, 3, 6];
    let parallel = 2;
    bitonic_sort(&mut nums, parallel);
    assert_eq!(nums, vec![1, 2, 3, 4, 5, 6, 7]);
}

#[test]
fn bitonic_parallel_test_bitonic_sort_empty() {
    let mut nums: Vec<i32> = vec![];
    let parallel = 2;
    bitonic_sort(&mut nums, parallel);
    assert_eq!(nums, vec![]);
}

#[test]
fn bitonic_parallel_test_bitonic_sort_single_element() {
    let mut nums = vec![42];
    let parallel = 2;
    bitonic_sort(&mut nums, parallel);
    assert_eq!(nums, vec![42]);
}

#[test]
fn test_bitonic_sort_already_sorted() {
    let mut nums = vec![1, 2, 3, 4, 5, 6, 7];
    let parallel = 2;
    bitonic_sort(&mut nums, parallel);
    assert_eq!(nums, vec![1, 2, 3, 4, 5, 6, 7]);
}

#[test]
fn test_bitonic_sort_reverse_sorted() {
    let mut nums = vec![7, 6, 5, 4, 3, 2, 1];
    let parallel = 2;
    bitonic_sort(&mut nums, parallel);
    assert_eq!(nums, vec![1, 2, 3, 4, 5, 6, 7]);
}

#[test]
fn test_bitonic_sort_duplicate_elements() {
    let mut nums = vec![4, 2, 7, 1, 5, 3, 6, 4, 2, 7, 1, 5, 3, 6];
    let parallel = 2;
    bitonic_sort(&mut nums, parallel);
    assert_eq!(nums, vec![1, 1, 2, 2, 3, 3, 4, 4, 5, 5, 6, 6, 7, 7]);
}

#[test]
fn test_bitonic_sort_simple() {
    let mut nums = vec![4, 2, 7, 1, 5, 3, 6];
    let parallel = 2;
    bitonic_sort(&mut nums, parallel);
    assert_eq!(nums, vec![1, 2, 3, 4, 5, 6, 7]);
}

#[test]
fn parallel_bitonic_serial_degree_non_power_of_two_length() {
    let mut nums = vec![4, 2, 7, 1, 5];
    bitonic_sort(&mut nums, 1);
    assert_eq!(nums, vec![1, 2, 4, 5, 7]);
}

#[test]
fn parallel_bitonic_outcome_is_the_same_for_every_degree() {
    let input: Vec<i32> = vec![13, -4, 8, 8, 0, 21, -17, 5, 3, 3, 99, -1, 6];
    let mut expected = input.clone();
    bitonic_sort(&mut expected, 1);
    for parallel in 0..=255u8 {
        let mut nums = input.clone();
        bitonic_sort(&mut nums, parallel);
        assert_eq!(nums, expected, "parallelism {}", parallel);
    }
    assert_eq!(expected, vec![-17, -4, -1, 0, 3, 3, 5, 6, 8, 8, 13, 21, 99]);
}

#[test]
fn parallel_bitonic_more_workers_than_pairs() {
    let mut nums = vec![3, 1, 2];
    bitonic_sort(&mut nums, 200);
    assert_eq!(nums, vec![1, 2, 3]);
}

#[test]
fn coerce_parallelism_rounds_down_to_a_power_of_two() {
    assert_eq!(coerce_parallelism(0), 1);
    assert_eq!(coerce_parallelism(1), 1);
    assert_eq!(coerce_parallelism(2), 2);
    assert_eq!(coerce_parallelism(3), 2);
    assert_eq!(coerce_parallelism(8), 8);
    assert_eq!(coerce_parallelism(100), 64);
    assert_eq!(coerce_parallelism(128), 128);
    assert_eq!(coerce_parallelism(255), 128);
}

#[test]
fn split_work_partitions_evenly_or_one_unit_each() {
    assert_eq!(split_work(16, 4), (4, 4));
    assert_eq!(split_work(4, 8), (4, 1));
    assert_eq!(split_work(1, 1), (1, 1));
    assert_eq!(split_work(8, 8), (8, 1));
}

#[test]
fn pad_fills_with_the_maximum_up_to_a_power_of_two() {
    let mut nums = vec![3, 9, -1, 4, 2];
    let origin_len = pad_to_power_of_two(&mut nums);
    assert_eq!(origin_len, 5);
    assert_eq!(nums, vec![3, 9, -1, 4, 2, 9, 9, 9]);
    let mut exact = vec![2, 1, 0, 5];
    assert_eq!(pad_to_power_of_two(&mut exact), 4);
    assert_eq!(exact, vec![2, 1, 0, 5]);
}

#[test]
fn compare_swap_range_orders_only_its_pairs() {
    let mut nums = vec![9, 5, 8, 1, 2, 6, 3, 7];
    compare_swap_range(&mut nums, 0, 4, 1, 3, false);
    assert_eq!(nums, vec![9, 5, 3, 1, 2, 6, 8, 7]);
    let mut rev = vec![1, 9, 4, 2];
    compare_swap_range(&mut rev, 0, 2, 0, 2, true);
    assert_eq!(rev, vec![4, 9, 1, 2]);
}
