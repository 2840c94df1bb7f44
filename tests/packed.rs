use search_lib::packed::{get_bytes_required, pack_values, PackedColumn};

#[test]
fn byte_widths() {
    assert_eq!(get_bytes_required(0), 1);
    assert_eq!(get_bytes_required(254), 1);
    assert_eq!(get_bytes_required(255), 2);
    assert_eq!(get_bytes_required(65534), 2);
    assert_eq!(get_bytes_required(65535), 4);
    assert_eq!(get_bytes_required(u32::MAX - 1), 4);
}

#[test]
fn pack_and_read_back() {
    for max in [10u32, 300, 70000] {
        let values = vec![Some(0), None, Some(max), Some(max / 2), None];
        let column = pack_values(&values, max);
        assert_eq!(column.len(), values.len());
        assert_eq!(column.data.len(), values.len() * column.width);
        for (i, v) in values.iter().enumerate() {
            assert_eq!(column.get(i), *v);
        }
        assert_eq!(column.get(values.len()), None);
    }
}

#[test]
fn empty_marker_reads_as_none() {
    let column = PackedColumn { width: 2, data: vec![0xff, 0xff, 0x01, 0x02] };
    assert_eq!(column.len(), 2);
    assert_eq!(column.get(0), None);
    assert_eq!(column.get(1), Some(0x0201));
    let odd = PackedColumn { width: 3, data: vec![1, 2, 3] };
    assert_eq!(odd.len(), 0);
    assert_eq!(odd.get(0), None);
}

#[test]
fn one_parent_column_from_unique_keys() {
    let arrays = search_lib::columns::ParallelArrays { values1: vec![0, 2], values2: vec![7, 300] };
    assert!(search_lib::packed::keys_unique(&arrays.values1));
    let column = search_lib::packed::to_one_parent_column(&arrays).unwrap();
    assert_eq!(column.width, 2);
    assert_eq!(column.get(0), Some(7));
    assert_eq!(column.get(1), None);
    assert_eq!(column.get(2), Some(300));
    let max = search_lib::columns::ParallelArrays { values1: vec![1], values2: vec![u32::MAX] };
    assert!(search_lib::packed::to_one_parent_column(&max).is_none());
    assert!(!search_lib::packed::keys_unique(&vec![1, 1]));
}
