use parallel_labs::counting_sort::{
    count_local_frequencies, counting_sort_sequential, generate_data, reconstruct_sorted_array,
};
use parallel_labs::rows::split_rows;

#[test]
fn sequential_sort_orders_values() {
    let data = vec![5u32, 3, 1, 3, 0, 5, 2];
    assert_eq!(counting_sort_sequential(&data, 5), vec![0, 1, 2, 3, 3, 5, 5]);
}

#[test]
fn sequential_sort_of_empty_input_is_empty() {
    assert_eq!(counting_sort_sequential(&[], 10), Vec::<u32>::new());
}

#[test]
fn sequential_sort_with_unused_large_range() {
    let data = vec![7u32, 7, 0];
    assert_eq!(counting_sort_sequential(&data, 1000), vec![0, 7, 7]);
}

#[test]
fn frequencies_count_each_value() {
    assert_eq!(count_local_frequencies(&[1, 1, 2], 3), vec![0, 2, 1, 0]);
    assert_eq!(count_local_frequencies(&[], 2), vec![0, 0, 0]);
}

#[test]
fn reconstruction_lists_values_by_count() {
    assert_eq!(reconstruct_sorted_array(&[2, 0, 1], 3), vec![0, 0, 2]);
    assert_eq!(reconstruct_sorted_array(&[], 0), Vec::<u32>::new());
}

#[test]
fn generated_data_follows_formula() {
    assert_eq!(generate_data(5, 10), vec![0, 5, 10, 4, 9]);
    assert_eq!(generate_data(0, 10), Vec::<u32>::new());
}

#[test]
fn distributed_counts_give_sequential_result() {
    let max_val = 50usize;
    let data = generate_data(103, max_val);
    let expected = counting_sort_sequential(&data, max_val);
    for size in 1..8usize {
        let pieces = split_rows(&data, data.len(), 1, size);
        let mut global = vec![0u32; max_val + 1];
        for piece in &pieces {
            let local = count_local_frequencies(piece, max_val);
            for (g, l) in global.iter_mut().zip(local.iter()) {
                *g += *l;
            }
        }
        assert_eq!(reconstruct_sorted_array(&global, data.len()), expected);
    }
}
