//! Structural tests: building a tree inside a forest, checking every
//! node's linkage, and mutating the tree through update and unlink.

use socarel::Forest;
use socarel::NodeContent;
use socarel::SocarelErrorType;
use socarel::Tree;

fn forest_sample() -> Forest {
    let mut forest = <Forest>::new();
    let mut tree = <Tree>::new();
    let root = tree.set_root("root_node").unwrap();
    let _child_1 = tree.link_node("child_1", root).unwrap();
    let child_2 = tree.link_node("child_2", root).unwrap();
    let child_2_1 = tree.link_node("child_2_1", child_2).unwrap();
    let _child_2_1_1 = tree.link_node("child_2_1_1", child_2_1).unwrap();
    let _child_2_2 = tree.link_node("child_2_2", child_2).unwrap();
    let _child_3 = tree.link_node("child_3", root).unwrap();
    forest.add_tree("test_tree", tree).unwrap();
    forest
}

#[test]
fn check_tree_integrity() {
    let forest = forest_sample();
    if let Ok(tree) = forest.get_tree("test_tree") {
        let iters = tree.iterators();
        let mut it = iters.sequential();
        let mut i = 0;
        while let Some((n, _)) = it.next() {
            match i {
                0 => {
                    if !n.get_content_ref().get_val().eq("root_node") {
                        panic!("Wrong root_node content")
                    }
                    if let Some(_) = n.get_parent_position() {
                        panic!("root_node has a parent")
                    }
                    if n.get_num_children() != 3 {
                        panic!("root_node hasn't 3 children")
                    }
                    if n.get_children_ref()[0] != 1
                        || n.get_children_ref()[1] != 2
                        || n.get_children_ref()[2] != 6
                    {
                        panic!("root_node children are incorrect")
                    }
                }
                1 => {
                    if !n.get_content_ref().get_val().eq("child_1") {
                        panic!("Wrong child_1 content");
                    }
                    if let None = n.get_parent_position() {
                        panic!("child_1 has a no parent");
                    }
                    if let Some(parent_n) = n.get_parent_position() {
                        if parent_n != 0 {
                            panic!("child_1 has wrong parent");
                        }
                    }
                    if n.get_num_children() != 0 {
                        panic!("child_1 hasn't 0 children");
                    }
                }
                2 => {
                    if !n.get_content_ref().get_val().eq("child_2") {
                        panic!("Wrong child_2 content");
                    }
                    if let None = n.get_parent_position() {
                        panic!("child_2 has a no parent");
                    }
                    if let Some(parent_n) = n.get_parent_position() {
                        if parent_n != 0 {
                            panic!("child_2 has wrong parent");
                        }
                    }
                    if n.get_num_children() != 2 {
                        panic!("child_2 hasn't 2 children");
                    }
                    if n.get_children_ref()[0] != 3 || n.get_children_ref()[1] != 5 {
                        panic!("child_2 children are incorrect");
                    }
                }
                3 => {
                    if !n.get_content_ref().get_val().eq("child_2_1") {
                        panic!("Wrong child_2_1 content");
                    }
                    if let None = n.get_parent_position() {
                        panic!("child_2_1 has a no parent");
                    }
                    if let Some(parent_n) = n.get_parent_position() {
                        if parent_n != 2 {
                            panic!("child_2_1 has wrong parent");
                        }
                    }
                    if n.get_num_children() != 1 {
                        panic!("child_2_1 hasn't 1 child");
                    }
                    if n.get_children_ref()[0] != 4 {
                        panic!("child_2_1 children are incorrect");
                    }
                }
                4 => {
                    if !n.get_content_ref().get_val().eq("child_2_1_1") {
                        panic!("Wrong child_2_1_1 content");
                    }
                    if let None = n.get_parent_position() {
                        panic!("child_2_1_1 has a no parent");
                    }
                    if let Some(parent_n) = n.get_parent_position() {
                        if parent_n != 3 {
                            panic!("child_2_1_1 has wrong parent");
                        }
                    }
                    if n.get_num_children() != 0 {
                        panic!("child_2_1_1 hasn't 0 children");
                    }
                }
                5 => {
                    if !n.get_content_ref().get_val().eq("child_2_2") {
                        panic!("Wrong child_2_2 content");
                    }
                    if let None = n.get_parent_position() {
                        panic!("child_2_2 has a no parent");
                    }
                    if let Some(parent_n) = n.get_parent_position() {
                        if parent_n != 2 {
                            panic!("child_2_2 has wrong parent");
                        }
                    }
                    if n.get_num_children() != 0 {
                        panic!("child_2_2 hasn't 0 children");
                    }
                }
                6 => {
                    if !n.get_content_ref().get_val().eq("child_3") {
                        panic!("Wrong child_3 content");
                    }
                    if let None = n.get_parent_position() {
                        panic!("child_3 has a no parent");
                    }
                    if let Some(parent_n) = n.get_parent_position() {
                        if parent_n != 0 {
                            panic!("child_3 has wrong parent");
                        }
                    }
                    if n.get_num_children() != 0 {
                        panic!("child_3 hasn't 0 children");
                    }
                }
                _ => {}
            }
            i += 1;
        }
    } else {
        panic!("Tree ID not found");
    }
}

#[test]
fn mutate_and_check_integrity() {
    let mut forest = forest_sample();
    let tree = forest.get_mut_tree("test_tree").expect("Could not find tree ID");
    let child_2_1 = tree
        .find_path(0, &["child_2", "child_2_1"])
        .expect("Could nod find node");
    tree.update_node("remove_me", child_2_1).expect("Could not update node");
    let remove_me = tree
        .find_path(0, &["child_2", "remove_me"])
        .expect("Could nod find modified node");
    assert_eq!(child_2_1, remove_me);
    tree.unlink_node(remove_me).expect("Could unlink node");
    if let Some(_) = tree.find_path(0, &["child_2", "remove_me"]) {
        panic!("Found unlinked node");
    }
    let iters = tree.iterators();
    let mut it = iters.bfs();
    let mut i = 0;
    while let Some((n, _)) = it.next() {
        match i {
            0 => {
                if !n.get_content_ref().get_val().eq("root_node") {
                    panic!("Wrong root_node content")
                }
            }
            1 => {
                if !n.get_content_ref().get_val().eq("child_1") {
                    panic!("Wrong child_1 content")
                }
            }
            2 => {
                if !n.get_content_ref().get_val().eq("child_2") {
                    panic!("Wrong child_2 content")
                }
            }
            3 => {
                if !n.get_content_ref().get_val().eq("child_3") {
                    panic!("Wrong child_3 content")
                }
            }
            4 => {
                // The walk skips the severed slot of the unlinked node and
                // still reaches its live sibling.
                if !n.get_content_ref().get_val().eq("child_2_2") {
                    panic!("Wrong child_2_2 content")
                }
            }
            _ => {
                panic!("Invalid number of nodes");
            }
        }
        i += 1;
    }
    assert_eq!(i, 5);
}

#[test]
fn set_root_twice_fails() {
    let mut tree = <Tree>::new();
    assert_eq!(tree.set_root("first").unwrap(), 0);
    let err = tree.set_root("second").unwrap_err();
    assert_eq!(err.get_message(), "Root node already exist");
    assert_eq!(err.get_code(), 1);
    assert_eq!(err.get_type(), SocarelErrorType::Tree);
    assert_eq!(tree.get_nodes_len(), 1);
}

#[test]
fn link_to_missing_parent_fails() {
    let mut tree = <Tree>::new();
    tree.set_root("root").unwrap();
    let err = tree.link_node("child", 7).unwrap_err();
    assert_eq!(err.get_message(), "Could not link node");
    assert_eq!(err.get_code(), 2);
    assert_eq!(err.get_type(), SocarelErrorType::Tree);
}

#[test]
fn unlink_root_or_missing_fails() {
    let mut tree = <Tree>::new();
    tree.set_root("root").unwrap();
    let err = tree.unlink_node(0).unwrap_err();
    assert_eq!(err.get_message(), "Could not unlink node");
    assert_eq!(err.get_code(), 3);
    assert_eq!(err.get_type(), SocarelErrorType::Tree);
    let err = tree.unlink_node(9).unwrap_err();
    assert_eq!(err.get_code(), 3);
}

#[test]
fn update_missing_node_fails() {
    let mut tree = <Tree>::new();
    tree.set_root("root").unwrap();
    let err = tree.update_node("other", 4).unwrap_err();
    assert_eq!(err.get_message(), "Could not update node");
    assert_eq!(err.get_code(), 4);
    assert_eq!(err.get_type(), SocarelErrorType::Tree);
}

#[test]
fn update_root_keeps_links() {
    let mut tree = <Tree>::new();
    let root = tree.set_root("root").unwrap();
    let child = tree.link_node("child", root).unwrap();
    assert_eq!(tree.update_node("new_root", root).unwrap(), root);
    assert_eq!(tree.get_node_content(root).unwrap().get_val(), "new_root");
    assert_eq!(tree.get_node_content(child).unwrap().get_val(), "child");
    assert_eq!(tree.find_path(root, &["child"]), Some(child));
}

#[test]
fn update_unlinked_node_fails_in_child_index() {
    let mut tree = <Tree>::new();
    let root = tree.set_root("root").unwrap();
    let child = tree.link_node("child", root).unwrap();
    tree.unlink_node(child).unwrap();
    let err = tree.update_node("renamed", child).unwrap_err();
    assert_eq!(err.get_message(), "Could not update child");
    assert_eq!(err.get_code(), 1);
    assert_eq!(err.get_type(), SocarelErrorType::Node);
    assert_eq!(tree.get_node_content(child).unwrap().get_val(), "child");
}

#[test]
fn find_path_resolves_and_rejects() {
    let mut tree = <Tree>::new();
    let a = tree.set_root("A").unwrap();
    let b = tree.link_node("B", a).unwrap();
    let _c = tree.link_node("C", a).unwrap();
    let _d = tree.link_node("D", b).unwrap();
    let e = tree.link_node("E", b).unwrap();
    let h = tree.link_node("H", e).unwrap();
    assert_eq!(tree.find_path(a, &["B", "E", "H"]), Some(h));
    assert_eq!(tree.find_path(a, &["B", "Z"]), None);
    assert_eq!(tree.find_path(a, &[]), Some(a));
}

#[test]
fn handles_stay_stable_across_edits() {
    let mut tree = <Tree>::new();
    let root = tree.set_root("root").unwrap();
    let a = tree.link_node("a", root).unwrap();
    let b = tree.link_node("b", root).unwrap();
    let a1 = tree.link_node("a1", a).unwrap();
    tree.unlink_node(b).unwrap();
    let c = tree.link_node("c", root).unwrap();
    tree.update_node("a_renamed", a).unwrap();
    assert_eq!(tree.get_node_content(root).unwrap().get_val(), "root");
    assert_eq!(tree.get_node_content(a).unwrap().get_val(), "a_renamed");
    assert_eq!(tree.get_node_content(b).unwrap().get_val(), "b");
    assert_eq!(tree.get_node_content(a1).unwrap().get_val(), "a1");
    assert_eq!(tree.get_node_content(c).unwrap().get_val(), "c");
}

#[test]
fn unlink_twice_fails() {
    let mut tree = <Tree>::new();
    let root = tree.set_root("root").unwrap();
    let a = tree.link_node("a", root).unwrap();
    assert_eq!(tree.unlink_node(a).unwrap(), a);
    let err = tree.unlink_node(a).unwrap_err();
    assert_eq!(err.get_message(), "Could not unlink node");
    assert_eq!(err.get_code(), 3);
    assert_eq!(err.get_type(), SocarelErrorType::Tree);
    assert_eq!(tree.get_nodes_len(), 2);
}

#[test]
fn severed_slots_are_skipped_by_walks() {
    // The severed first child's slot precedes the live second child; every
    // walk must pass over the tombstone and still yield the live sibling.
    let mut tree = <Tree>::new();
    let root = tree.set_root("root").unwrap();
    let a = tree.link_node("a", root).unwrap();
    let _a1 = tree.link_node("a1", a).unwrap();
    let b = tree.link_node("b", root).unwrap();
    tree.unlink_node(a).unwrap();

    let iters = tree.iterators();
    let mut it = iters.bfs();
    let mut seen = Vec::new();
    while let Some((_, h)) = it.next() {
        seen.push(h);
    }
    assert_eq!(seen, vec![root, b]);

    let mut it = iters.pre_dfs();
    let mut seen = Vec::new();
    while let Some((_, h)) = it.next() {
        seen.push(h);
    }
    assert_eq!(seen, vec![root, b]);

    let mut it = iters.inv_bfs();
    let mut seen = Vec::new();
    while let Some((_, h)) = it.next() {
        seen.push(h);
    }
    assert_eq!(seen, vec![root, b]);

    let mut it = iters.inv_pre_dfs();
    let mut seen = Vec::new();
    while let Some((_, h)) = it.next() {
        seen.push(h);
    }
    assert_eq!(seen, vec![root, b]);

    let mut it = iters.post_dfs();
    let mut seen = Vec::new();
    while let Some((_, h)) = it.next() {
        seen.push(h);
    }
    assert_eq!(seen, vec![b, root]);

    let mut it = iters.inv_post_dfs();
    let mut seen = Vec::new();
    while let Some((_, h)) = it.next() {
        seen.push(h);
    }
    assert_eq!(seen, vec![b, root]);

    let mut it = iters.in_dfs();
    let mut seen = Vec::new();
    while let Some((_, h)) = it.next() {
        seen.push(h);
    }
    assert_eq!(seen, vec![root, b]);

    let mut it = iters.children();
    let mut seen = Vec::new();
    while let Some((_, h)) = it.next() {
        seen.push(h);
    }
    assert_eq!(seen, vec![b]);
}

#[test]
fn unlink_is_non_cascading() {
    let mut tree = <Tree>::new();
    let root = tree.set_root("root").unwrap();
    let a = tree.link_node("a", root).unwrap();
    let a1 = tree.link_node("a1", a).unwrap();
    let a2 = tree.link_node("a2", a).unwrap();
    let b = tree.link_node("b", root).unwrap();
    let count_before = tree.get_nodes_len();
    tree.unlink_node(a).unwrap();
    // The arena did not shrink and every payload is still indexable.
    assert_eq!(tree.get_nodes_len(), count_before);
    assert_eq!(tree.get_node_content(a).unwrap().get_val(), "a");
    assert_eq!(tree.get_node_content(a1).unwrap().get_val(), "a1");
    assert_eq!(tree.get_node_content(a2).unwrap().get_val(), "a2");
    // The severed subtree is invisible to walks from the root.
    let iters = tree.iterators();
    let mut it = iters.pre_dfs();
    let mut seen = Vec::new();
    while let Some((_, h)) = it.next() {
        seen.push(h);
    }
    assert!(!seen.contains(&a));
    assert!(!seen.contains(&a1));
    assert!(!seen.contains(&a2));
    assert!(seen.contains(&root));
    assert!(seen.contains(&b));
    // Named lookup of the severed child fails too.
    assert_eq!(tree.find_path(root, &["a"]), None);
    assert_eq!(tree.find_path(root, &["b"]), Some(b));
}

#[test]
fn node_levels_follow_parents() {
    let mut tree = <Tree>::new();
    let root = tree.set_root("root").unwrap();
    let a = tree.link_node("a", root).unwrap();
    let a1 = tree.link_node("a1", a).unwrap();
    let nodes = tree.get_nodes_ref();
    assert_eq!(nodes[root].get_level(), 1);
    assert_eq!(nodes[a].get_level(), 2);
    assert_eq!(nodes[a1].get_level(), 3);
    assert_eq!(nodes[a1].get_parent_position(), Some(a));
    assert_eq!(nodes[a1].get_parents_children_pos(), Some(0));
}
