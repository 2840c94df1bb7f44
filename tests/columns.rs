use search_lib::codec::{bytes_to_vec_u32, vec_to_bytes_u32};
use search_lib::columns::{
    id_to_parent_to_array_of_array, parrallel_arrays_to_pointing_array, IndexIdToMultipleParent, IndexIdToMultipleParentIndirect,
    IndexIdToOneParent, IndexIdToParent, ParallelArrays, NOT_FOUND,
};
use search_lib::create::{boost_pair_to_parallel_arrays, valid_pair_to_parallel_arrays, ValIdPair, ValIdToValue};

#[test]
fn test_pointing_array() {
    let keys = vec![0, 0, 1, 2, 3, 3];
    let values = vec![5, 6, 9, 9, 9, 50000];
    let pointing_array = parrallel_arrays_to_pointing_array(keys, values);
    assert_eq!(pointing_array.get_keys(), vec![0, 1, 2, 3]);
    let values = pointing_array.get_values(3);
    assert_eq!(values, Some(vec![9, 50000]));

    fn check(keys: Vec<u32>, values: Vec<u32>) {
        let ix = ParallelArrays { values1: keys, values2: values };
        let pointing_array = parrallel_arrays_to_pointing_array(ix.values1.clone(), ix.values2.clone());
        for key in ix.get_keys() {
            assert_eq!(pointing_array.get_values(key as u64), ix.get_values(key as u64));
        }
        assert_eq!(ix.get_keys(), pointing_array.get_keys());
    }

    check(vec![2, 3, 5, 8, 10, 12, 13, 14], vec![4, 0, 6, 1, 7, 5, 3, 2]);
    check(vec![0, 1, 4, 6, 7, 9, 11, 13], vec![5, 8, 5, 5, 8, 14, 5, 14]);
}

#[test]
fn test_index_parrallel_arrays() {
    let ix = ParallelArrays { values1: vec![0, 0, 1], values2: vec![0, 1, 2] };
    assert_eq!(ix.get_values(0).unwrap(), vec![0, 1]);
}

#[test]
fn pointing_array_sorts_values_and_skips_missing_ids() {
    let pointing_array = parrallel_arrays_to_pointing_array(vec![1, 1, 4], vec![7, 3, 2]);
    assert_eq!(pointing_array.get_values(1), Some(vec![3, 7]));
    assert_eq!(pointing_array.get_values(0), None);
    assert_eq!(pointing_array.get_values(2), None);
    assert_eq!(pointing_array.get_values(4), Some(vec![2]));
    assert_eq!(pointing_array.get_values(5), None);
    assert_eq!(pointing_array.get_keys(), vec![1, 4]);
}

#[test]
fn parallel_arrays_missing_key_is_empty() {
    let ix = ParallelArrays { values1: vec![0, 2, 2], values2: vec![1, 2, 3] };
    assert_eq!(ix.get_values(1), Some(vec![]));
    assert_eq!(ix.get_values(2), Some(vec![2, 3]));
    assert_eq!(ix.get_values(7), Some(vec![]));
    let wide = ParallelArrays { values1: vec![0], values2: vec![5] };
    assert_eq!(wide.get_values(1u64 << 32), Some(vec![]));
}

#[test]
fn indirect_from_data() {
    let store = IndexIdToMultipleParentIndirect::from_data(vec![0, 2, 2, 2, 2, 3], vec![5, 6, 9]);
    assert_eq!(store.get_size(), 3);
    assert_eq!(store.get_values(0), Some(vec![5, 6]));
    assert_eq!(store.get_values(1), Some(vec![]));
    assert_eq!(store.get_values(2), Some(vec![9]));
    assert_eq!(store.get_values(3), None);
    assert_eq!(store.get_keys(), vec![0, 1, 2]);
}

#[test]
fn one_parent_column() {
    let store = IndexIdToOneParent { data: vec![3, NOT_FOUND, 0] };
    assert_eq!(store.get_value(0), Some(3));
    assert_eq!(store.get_value(1), None);
    assert_eq!(store.get_values(2), Some(vec![0]));
    assert_eq!(store.get_value(3), None);
}

#[test]
fn bytes_round_trip() {
    let data = vec![1, 256, 0xdead_beef, 0];
    let bytes = vec_to_bytes_u32(&data);
    assert_eq!(bytes[0..4].to_vec(), vec![1, 0, 0, 0]);
    assert_eq!(bytes[4..8].to_vec(), vec![0, 1, 0, 0]);
    assert_eq!(bytes_to_vec_u32(&bytes), data);
}

#[test]
fn edges_to_parallel_arrays() {
    let mut tuples = vec![
        ValIdPair { valid: 3, parent_val_id: 0 },
        ValIdPair { valid: 1, parent_val_id: 5 },
        ValIdPair { valid: 3, parent_val_id: 1 },
        ValIdPair { valid: 0, parent_val_id: 2 },
    ];
    let arrays = valid_pair_to_parallel_arrays(&mut tuples);
    assert_eq!(arrays.values1, vec![0, 1, 3, 3]);
    assert_eq!(arrays.values2, vec![2, 5, 0, 1]);
    let mut same = vec![
        ValIdPair { valid: 1, parent_val_id: 9 },
        ValIdPair { valid: 0, parent_val_id: 4 },
        ValIdPair { valid: 1, parent_val_id: 3 },
        ValIdPair { valid: 1, parent_val_id: 7 },
    ];
    let arrays = valid_pair_to_parallel_arrays(&mut same);
    assert_eq!(arrays.values2, vec![4, 9, 3, 7]);
    assert_eq!(tuples[0].valid, 0);

    let mut boosts = vec![ValIdToValue { valid: 2, value: 20 }, ValIdToValue { valid: 1, value: 10 }];
    let arrays = boost_pair_to_parallel_arrays(&mut boosts);
    assert_eq!(arrays.values1, vec![1, 2]);
    assert_eq!(arrays.values2, vec![10, 20]);
}

fn check_test_data<S: IndexIdToParent>(store: &S) {
    assert_eq!(store.get_keys(), vec![0, 1, 2, 3]);
    assert_eq!(store.get_values(0).unwrap(), vec![5, 6]);
    assert_eq!(store.get_values(1).unwrap(), vec![9]);
    assert_eq!(store.get_values(2).unwrap(), vec![9]);
    assert_eq!(store.get_values(3).unwrap(), vec![9, 50000]);
    assert_eq!(store.get_values(4), None);
}

fn get_test_data() -> ParallelArrays {
    let keys = vec![0, 0, 1, 2, 3, 3];
    let values = vec![5, 6, 9, 9, 9, 50000];
    ParallelArrays { values1: keys.clone(), values2: values.clone() }
}

#[test]
fn test_pointing_array_index_id_to_multiple_parent_indirect() {
    let store = get_test_data();
    let store = IndexIdToMultipleParentIndirect::new(&store);
    check_test_data(&store);
}

#[test]
fn multiple_parent_and_one_parent_from_store() {
    let store = get_test_data();
    let multi = IndexIdToMultipleParent::new(&store);
    check_test_data(&multi);
    let one = IndexIdToOneParent::new(&store);
    assert_eq!(one.data, vec![5, 9, 9, 9]);
    let sparse = ParallelArrays { values1: vec![1, 3], values2: vec![7, 8] };
    assert_eq!(id_to_parent_to_array_of_array(&sparse), vec![vec![], vec![7], vec![], vec![8]]);
    let one = IndexIdToOneParent::new(&sparse);
    assert_eq!(one.data, vec![NOT_FOUND, 7, NOT_FOUND, 8]);
    assert_eq!(one.get_value(0), None);
    let empty = ParallelArrays { values1: vec![], values2: vec![] };
    assert_eq!(IndexIdToMultipleParentIndirect::new(&empty).get_size(), 0);
    let indirect = IndexIdToMultipleParentIndirect::new(&sparse);
    assert_eq!(indirect.start_and_end, vec![0, 0, 0, 1, 1, 1, 1, 2]);
    assert_eq!(indirect.data, vec![7, 8]);
    assert_eq!(indirect.get_values(0), Some(vec![]));
    assert_eq!(indirect.get_values(4), None);
}

#[test]
fn indirect_of_empty_store_is_empty() {
    let empty = ParallelArrays { values1: vec![], values2: vec![] };
    let indirect = IndexIdToMultipleParentIndirect::new(&empty);
    assert!(indirect.start_and_end.is_empty());
    assert!(indirect.data.is_empty());
}
