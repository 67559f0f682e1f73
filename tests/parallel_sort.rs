use bitonic_sort::parallel_sort::{merge_adjacent, parallel_sort};

#[test]
fn test_parallel_sort() {
    let mut nums = vec![4, 2, 7, 1, 5, 3, 6];
    let parallel = 2;
    parallel_sort(&mut nums, parallel);
    assert_eq!(nums, vec![1, 2, 3, 4, 5, 6, 7]);
}

#[test]
fn test_parallel_sort_empty() {
    let mut nums: Vec<i32> = vec![];
    let parallel = 2;
    parallel_sort(&mut nums, parallel);
    assert_eq!(nums, vec![]);
}

#[test]
fn test_parallel_sort_single_element() {
    let mut nums = vec![42];
    let parallel = 2;
    parallel_sort(&mut nums, parallel);
    assert_eq!(nums, vec![42]);
}

#[test]
fn test_parallel_sort_already_sorted() {
    let mut nums = vec![1, 2, 3, 4, 5, 6, 7];
    let parallel = 2;
    parallel_sort(&mut nums, parallel);
    assert_eq!(nums, vec![1, 2, 3, 4, 5, 6, 7]);
}

#[test]
fn test_parallel_sort_reverse_sorted() {
    let mut nums = vec![7, 6, 5, 4, 3, 2, 1];
    let parallel = 2;
    parallel_sort(&mut nums, parallel);
    assert_eq!(nums, vec![1, 2, 3, 4, 5, 6, 7]);
}

#[test]
fn test_parallel_sort_duplicate_elements() {
    let mut nums = vec![4, 2, 7, 1, 5, 3, 6, 4, 2, 7, 1, 5, 3, 6];
    let parallel = 2;
    parallel_sort(&mut nums, parallel);
    assert_eq!(nums, vec![1, 1, 2, 2, 3, 3, 4, 4, 5, 5, 6, 6, 7, 7]);
}

#[test]
fn test_parallel_sort_simple() {
    let mut nums = vec![4, 2, 7, 1, 5, 3, 6];
    let parallel = 2;
    parallel_sort(&mut nums, parallel);
    assert_eq!(nums, vec![1, 2, 3, 4, 5, 6, 7]);
}

#[test]
fn hybrid_serial_degree_non_power_of_two_length() {
    let mut nums = vec![4, 2, 7, 1, 5];
    parallel_sort(&mut nums, 1);
    assert_eq!(nums, vec![1, 2, 4, 5, 7]);
}

#[test]
fn hybrid_outcome_is_the_same_for_every_degree() {
    let input: Vec<i32> = vec![13, -4, 8, 8, 0, 21, -17, 5, 3, 3, 99, -1, 6, i32::MIN, i32::MAX];
    for parallel in 0..=255u8 {
        let mut nums = input.clone();
        parallel_sort(&mut nums, parallel);
        assert_eq!(
            nums,
            vec![i32::MIN, -17, -4, -1, 0, 3, 3, 5, 6, 8, 8, 13, 21, 99, i32::MAX],
            "parallelism {}",
            parallel
        );
    }
}

#[test]
fn hybrid_single_worker_sorts_through_the_local_sort() {
    let mut nums = vec![10, -3, 7, 7, 2, 0, -8, 1];
    parallel_sort(&mut nums, 0);
    assert_eq!(nums, vec![-8, -3, 0, 1, 2, 7, 7, 10]);
}

#[test]
fn hybrid_sorting_sorted_input_is_identity() {
    let mut nums = vec![-5, -5, 0, 2, 2, 9];
    let before = nums.clone();
    parallel_sort(&mut nums, 4);
    assert_eq!(nums, before);
}

#[test]
fn merge_adjacent_merges_two_ascending_runs() {
    let mut nums = vec![100, 1, 4, 9, 2, 3, 10, -100];
    merge_adjacent(&mut nums, 1, 3);
    assert_eq!(nums, vec![100, 1, 2, 3, 4, 9, 10, -100]);
}
