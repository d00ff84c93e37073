use apo_colony::utils::vec_func::{ascending_order, remove_duplicates};

#[test]
fn keeps_first_occurrences_in_order() {
    assert_eq!(remove_duplicates(vec![3, 1, 3, 2, 1, 3]), vec![3, 1, 2]);
    assert_eq!(remove_duplicates(vec![]), Vec::<usize>::new());
    assert_eq!(remove_duplicates(vec![5, 5, 5]), vec![5]);
    assert_eq!(remove_duplicates(vec![0, 1, 2]), vec![0, 1, 2]);
}

#[test]
fn removing_twice_is_removing_once() {
    let once = remove_duplicates(vec![4, 2, 4, 9, 2, 7]);
    let twice = remove_duplicates(once.clone());
    assert_eq!(once, twice);
}

#[test]
fn ascending_order_is_a_stable_sort() {
    assert_eq!(ascending_order(&vec![5, 1, 5, 0, 1]), vec![3, 1, 4, 0, 2]);
    assert_eq!(ascending_order(&vec![]), Vec::<usize>::new());
    assert_eq!(ascending_order(&vec![9]), vec![0]);

    let keys: Vec<u64> = (0..40u64).map(|i| (i * 7919) % 13).collect();
    let mut expected: Vec<usize> = (0..keys.len()).collect();
    expected.sort_by_key(|&i| keys[i]);
    assert_eq!(ascending_order(&keys), expected);
}

#[test]
fn float_keys_order_as_total_cmp() {
    let values = [3.5f64, -1.0, 0.0, 2.25, -7.5, 3.5];
    let keys: Vec<u64> = values
        .iter()
        .map(|v| {
            let bits = v.to_bits();
            if bits >> 63 == 1 { !bits } else { bits | (1u64 << 63) }
        })
        .collect();
    let sorted: Vec<f64> = ascending_order(&keys).into_iter().map(|k| values[k]).collect();
    assert_eq!(sorted, vec![-7.5, -1.0, 0.0, 2.25, 3.5, 3.5]);
}
