use search_lib::bits::{get_bit_at, is_hight_bit_set, set_bit_at, set_high_bit, unset_high_bit};
use search_lib::util;
use search_lib::util::{
    boost_path, concat_tuple, extract_field_name, extract_prop_name, get_all_steps_to_anchor, get_file_path, get_file_path_name, get_level,
    get_steps_to_anchor, remove_array_marker,
};

#[test]
fn test_paths() {
    let paths = get_steps_to_anchor("meanings.ger[]");
    println!("NAAA {:?}", paths);
    assert_eq!(paths, vec!["meanings.ger[]".to_string(), "meanings.ger[].textindex".to_string()]);
}

#[test]
fn steps_to_anchor_of_nested_arrays() {
    assert_eq!(get_steps_to_anchor("address[].line[]"), vec!["address[]", "address[].line[]", "address[].line[].textindex"]);
    assert_eq!(get_steps_to_anchor("name"), vec!["name.textindex"]);
}

#[test]
fn all_steps_to_anchor() {
    assert_eq!(get_all_steps_to_anchor("meaning.ger[]"), vec!["meaning", "meaning.ger[]"]);
    assert_eq!(get_all_steps_to_anchor("a"), vec!["a"]);
}

#[test]
fn levels_and_markers() {
    assert_eq!(get_level("address[].line[]"), 2);
    assert_eq!(get_level("name"), 0);
    assert_eq!(remove_array_marker("address[].line[]"), "address.line");
    assert_eq!(remove_array_marker("a[][].b"), "a[].b");
}

#[test]
fn file_names() {
    assert_eq!(util::concat("path", ".fst"), "path.fst");
    assert_eq!(get_file_path("folder", "file"), "folder/file");
    assert_eq!(concat_tuple("p", ".a", ".b"), ("p.a".to_string(), "p.b".to_string()));
    assert_eq!(get_file_path_name("meanings.ger[]", true), "meanings.ger[].textindex");
    assert_eq!(get_file_path_name("meanings.ger[]", false), "meanings.ger[]");
    assert_eq!(boost_path("commonness"), ("commonness.boost.subObjId".to_string(), "commonness.boost.value".to_string()));
    assert_eq!(extract_field_name("meanings.ger[].textindex"), "meanings.ger[]");
}

#[test]
fn bit_helpers() {
    assert!(get_bit_at(0b100, 2));
    assert!(!get_bit_at(0b100, 1));
    assert!(!get_bit_at(u32::MAX, 40));
    let mut v: u32 = 0;
    set_bit_at(&mut v, 5);
    assert_eq!(v, 32);
    set_high_bit(&mut v);
    assert_eq!(v, 0x8000_0020);
    assert!(is_hight_bit_set(v));
    unset_high_bit(&mut v);
    assert_eq!(v, 32);
    assert!(!is_hight_bit_set(v));
}

#[test]
fn property_names() {
    assert_eq!(extract_prop_name("meanings.ger[].textindex"), "ger");
    assert_eq!(extract_prop_name("address[].line[]"), "line");
    assert_eq!(extract_prop_name("name"), "name");
    assert_eq!(extract_prop_name("a.textindex.textindex"), "a");
}
