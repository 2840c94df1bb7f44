use search_lib::tree::{to_node_tree, NodeTree};

fn path(names: &[&str]) -> Vec<String> {
    names.iter().map(|n| n.to_string()).collect()
}

#[test]
fn node_tree_of_paths() {
    let tree = to_node_tree(vec![path(&["meanings", "ger[]"]), path(&["meanings", "eng[]"]), path(&["ent_seq"])]);
    let expected = NodeTree::new(vec![
        ("meanings".to_string(), NodeTree::new(vec![("ger[]".to_string(), NodeTree::IsLeaf), ("eng[]".to_string(), NodeTree::IsLeaf)])),
        ("ent_seq".to_string(), NodeTree::IsLeaf),
    ]);
    assert_eq!(tree, expected);
}

#[test]
fn node_tree_prefix_path_is_leaf() {
    let tree = to_node_tree(vec![path(&["a", "b"]), path(&["a"])]);
    assert_eq!(tree, NodeTree::new(vec![("a".to_string(), NodeTree::IsLeaf)]));
    assert_eq!(to_node_tree(vec![]), NodeTree::new(vec![]));
}
