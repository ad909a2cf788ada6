//! Forest tests: registering, fetching, removing and walking named trees.

use socarel::Forest;
use socarel::NodeContent;
use socarel::SocarelErrorType;
use socarel::Tree;
use socarel::TreeIdentifier;

#[test]
fn tree_ids_are_unique() {
    let mut forest = <Forest>::new();
    assert!(forest.new_tree("x").is_ok());
    let err = forest.new_tree("x").unwrap_err();
    assert_eq!(err.get_message(), "Tree ID already exist");
    assert_eq!(err.get_code(), 1);
    assert_eq!(err.get_type(), SocarelErrorType::Forest);
    forest.remove_tree("x").unwrap();
    let err = forest.get_tree("x").unwrap_err();
    assert_eq!(err.get_message(), "Could not get tree");
    assert_eq!(err.get_code(), 3);
    assert_eq!(err.get_type(), SocarelErrorType::Forest);
}

#[test]
fn add_and_remove_round_trip() {
    let mut forest = <Forest>::new();
    let mut tree = <Tree>::new();
    tree.set_root("r").unwrap();
    forest.add_tree("named", tree).unwrap();
    let removed = forest.remove_tree("named").unwrap();
    assert_eq!(removed.get_node_content(0).unwrap().get_val(), "r");
    let err = forest.remove_tree("named").unwrap_err();
    assert_eq!(err.get_message(), "Could not remove tree");
    assert_eq!(err.get_code(), 2);
    assert_eq!(err.get_type(), SocarelErrorType::Forest);
}

#[test]
fn get_mut_tree_edits_the_stored_tree() {
    let mut forest = <Forest>::new();
    forest.new_tree("t").unwrap();
    {
        let tree = forest.get_mut_tree("t").unwrap();
        tree.set_root("root").unwrap();
        tree.link_node("kid", 0).unwrap();
    }
    let tree = forest.get_tree("t").unwrap();
    assert_eq!(tree.get_nodes_len(), 2);
    assert_eq!(tree.get_node_content(1).unwrap().get_val(), "kid");
    let err = forest.get_mut_tree("absent").unwrap_err();
    assert_eq!(err.get_message(), "Could not get mutable tree");
    assert_eq!(err.get_code(), 4);
    assert_eq!(err.get_type(), SocarelErrorType::Forest);
}

#[test]
fn forest_iteration_visits_every_tree() {
    let mut forest = <Forest>::new();
    forest.new_tree("one").unwrap();
    forest.new_tree("two").unwrap();
    forest.new_tree("three").unwrap();
    let mut it = forest.iter();
    let mut names = Vec::new();
    while let Some((id, tree)) = it.next() {
        assert_eq!(tree.get_nodes_len(), 0);
        names.push(id.get_id().to_string());
    }
    names.sort();
    assert_eq!(names, vec!["one", "three", "two"]);
}

#[test]
fn raw_tree_id_keeps_its_string() {
    let id = socarel::RawTreeId::new("my_tree").unwrap();
    assert_eq!(id.get_id(), "my_tree");
    assert_eq!(id.gen_tree_id(), "my_tree");
}
