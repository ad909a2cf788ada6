//! The traversal fixtures: every cursor on the same small tree, from the
//! root and from an inner node.

use socarel::NodeContent;
use socarel::Tree;

/// Build the tree A -> (B -> (D, E -> H), C -> (F, G)).
fn tree_sample() -> Tree {
    let mut tree = <Tree>::new();
    let a = tree.set_root("A").unwrap();
    let b = tree.link_node("B", a).unwrap();
    let c = tree.link_node("C", a).unwrap();
    let _d = tree.link_node("D", b).unwrap();
    let e = tree.link_node("E", b).unwrap();
    let _f = tree.link_node("F", c).unwrap();
    let _g = tree.link_node("G", c).unwrap();
    let _h = tree.link_node("H", e).unwrap();
    tree
}

fn index_of_b_node() -> usize {
    tree_sample().find_path(0, &["B"]).unwrap()
}

fn vals_sequential(tree: &Tree, start: Option<usize>) -> Vec<String> {
    let iters = match start {
        Some(s) => tree.iterators_at(s),
        None => tree.iterators(),
    };
    let mut it = iters.sequential();
    let mut out = Vec::new();
    while let Some((n, _)) = it.next() {
        out.push(n.get_content_ref().get_val().to_string());
    }
    out
}

fn vals_inv_sequential(tree: &Tree, start: Option<usize>) -> Vec<String> {
    let iters = match start {
        Some(s) => tree.iterators_at(s),
        None => tree.iterators(),
    };
    let mut it = iters.inv_sequential();
    let mut out = Vec::new();
    while let Some((n, _)) = it.next() {
        out.push(n.get_content_ref().get_val().to_string());
    }
    out
}

fn vals_bfs(tree: &Tree, start: Option<usize>) -> Vec<String> {
    let iters = match start {
        Some(s) => tree.iterators_at(s),
        None => tree.iterators(),
    };
    let mut it = iters.bfs();
    let mut out = Vec::new();
    while let Some((n, _)) = it.next() {
        out.push(n.get_content_ref().get_val().to_string());
    }
    out
}

fn vals_inv_bfs(tree: &Tree, start: Option<usize>) -> Vec<String> {
    let iters = match start {
        Some(s) => tree.iterators_at(s),
        None => tree.iterators(),
    };
    let mut it = iters.inv_bfs();
    let mut out = Vec::new();
    while let Some((n, _)) = it.next() {
        out.push(n.get_content_ref().get_val().to_string());
    }
    out
}

fn vals_pre_dfs(tree: &Tree, start: Option<usize>) -> Vec<String> {
    let iters = match start {
        Some(s) => tree.iterators_at(s),
        None => tree.iterators(),
    };
    let mut it = iters.pre_dfs();
    let mut out = Vec::new();
    while let Some((n, _)) = it.next() {
        out.push(n.get_content_ref().get_val().to_string());
    }
    out
}

fn vals_inv_pre_dfs(tree: &Tree, start: Option<usize>) -> Vec<String> {
    let iters = match start {
        Some(s) => tree.iterators_at(s),
        None => tree.iterators(),
    };
    let mut it = iters.inv_pre_dfs();
    let mut out = Vec::new();
    while let Some((n, _)) = it.next() {
        out.push(n.get_content_ref().get_val().to_string());
    }
    out
}

fn vals_post_dfs(tree: &Tree, start: Option<usize>) -> Vec<String> {
    let iters = match start {
        Some(s) => tree.iterators_at(s),
        None => tree.iterators(),
    };
    let mut it = iters.post_dfs();
    let mut out = Vec::new();
    while let Some((n, _)) = it.next() {
        out.push(n.get_content_ref().get_val().to_string());
    }
    out
}

fn vals_inv_post_dfs(tree: &Tree, start: Option<usize>) -> Vec<String> {
    let iters = match start {
        Some(s) => tree.iterators_at(s),
        None => tree.iterators(),
    };
    let mut it = iters.inv_post_dfs();
    let mut out = Vec::new();
    while let Some((n, _)) = it.next() {
        out.push(n.get_content_ref().get_val().to_string());
    }
    out
}

fn vals_children(tree: &Tree, start: Option<usize>) -> Vec<String> {
    let iters = match start {
        Some(s) => tree.iterators_at(s),
        None => tree.iterators(),
    };
    let mut it = iters.children();
    let mut out = Vec::new();
    while let Some((n, _)) = it.next() {
        out.push(n.get_content_ref().get_val().to_string());
    }
    out
}

fn vals_in_dfs(tree: &Tree, start: Option<usize>) -> Vec<String> {
    let iters = match start {
        Some(s) => tree.iterators_at(s),
        None => tree.iterators(),
    };
    let mut it = iters.in_dfs();
    let mut out = Vec::new();
    while let Some((n, _)) = it.next() {
        out.push(n.get_content_ref().get_val().to_string());
    }
    out
}

#[test]
fn test_seq_iter() {
    assert_eq!(
        vals_sequential(&tree_sample(), None),
        vec!["A", "B", "C", "D", "E", "F", "G", "H"]
    );
}

#[test]
fn test_inv_seq_iter() {
    assert_eq!(
        vals_inv_sequential(&tree_sample(), None),
        vec!["H", "G", "F", "E", "D", "C", "B", "A"]
    );
}

#[test]
fn test_bfs_iter() {
    assert_eq!(
        vals_bfs(&tree_sample(), None),
        vec!["A", "B", "C", "D", "E", "F", "G", "H"]
    );
}

#[test]
fn test_inv_bfs_iter() {
    assert_eq!(
        vals_inv_bfs(&tree_sample(), None),
        vec!["A", "C", "B", "G", "F", "E", "D", "H"]
    );
}

#[test]
fn test_pre_dfs_iter() {
    assert_eq!(
        vals_pre_dfs(&tree_sample(), None),
        vec!["A", "B", "D", "E", "H", "C", "F", "G"]
    );
}

#[test]
fn test_inv_pre_dfs_iter() {
    assert_eq!(
        vals_inv_pre_dfs(&tree_sample(), None),
        vec!["A", "C", "G", "F", "B", "E", "H", "D"]
    );
}

#[test]
fn test_post_dfs_iter() {
    assert_eq!(
        vals_post_dfs(&tree_sample(), None),
        vec!["D", "H", "E", "B", "F", "G", "C", "A"]
    );
}

#[test]
fn test_inv_post_dfs_iter() {
    assert_eq!(
        vals_inv_post_dfs(&tree_sample(), None),
        vec!["G", "F", "C", "H", "E", "D", "B", "A"]
    );
}

#[test]
fn test_children_iter() {
    assert_eq!(vals_children(&tree_sample(), None), vec!["B", "C"]);
}

#[test]
fn test_seq_iter_at() {
    assert_eq!(
        vals_sequential(&tree_sample(), Some(index_of_b_node())),
        vec!["B", "C", "D", "E", "F", "G", "H"]
    );
}

#[test]
fn test_inv_seq_iter_at() {
    assert_eq!(
        vals_inv_sequential(&tree_sample(), Some(index_of_b_node())),
        vec!["B", "A"]
    );
}

#[test]
fn test_bfs_iter_at() {
    assert_eq!(
        vals_bfs(&tree_sample(), Some(index_of_b_node())),
        vec!["B", "D", "E", "H"]
    );
}

#[test]
fn test_inv_bfs_iter_at() {
    assert_eq!(
        vals_inv_bfs(&tree_sample(), Some(index_of_b_node())),
        vec!["B", "E", "D", "H"]
    );
}

#[test]
fn test_pre_dfs_iter_at() {
    assert_eq!(
        vals_pre_dfs(&tree_sample(), Some(index_of_b_node())),
        vec!["B", "D", "E", "H"]
    );
}

#[test]
fn test_inv_pre_dfs_iter_at() {
    assert_eq!(
        vals_inv_pre_dfs(&tree_sample(), Some(index_of_b_node())),
        vec!["B", "E", "H", "D"]
    );
}

#[test]
fn test_post_dfs_iter_at() {
    assert_eq!(
        vals_post_dfs(&tree_sample(), Some(index_of_b_node())),
        vec!["D", "H", "E", "B"]
    );
}

#[test]
fn test_inv_post_dfs_iter_at() {
    assert_eq!(
        vals_inv_post_dfs(&tree_sample(), Some(index_of_b_node())),
        vec!["H", "E", "D", "B"]
    );
}

#[test]
fn test_children_iter_at() {
    assert_eq!(
        vals_children(&tree_sample(), Some(index_of_b_node())),
        vec!["D", "E"]
    );
}

#[test]
fn test_in_dfs_iter() {
    assert_eq!(
        vals_in_dfs(&tree_sample(), None),
        vec!["D", "B", "H", "E", "A", "F", "C", "G"]
    );
}

#[test]
fn test_inv_in_dfs_iter_is_empty() {
    let tree = tree_sample();
    let iters = tree.iterators();
    let mut it = iters.inv_in_dfs();
    assert!(it.next().is_none());
    assert!(it.next().is_none());
}

#[test]
fn test_iterators_at_out_of_range_defaults_to_root() {
    let tree = tree_sample();
    assert_eq!(
        vals_bfs(&tree, Some(100)),
        vec!["A", "B", "C", "D", "E", "F", "G", "H"]
    );
}

#[test]
fn test_cursors_on_empty_tree() {
    let tree = <Tree>::new();
    assert_eq!(vals_sequential(&tree, None), Vec::<String>::new());
    assert_eq!(vals_inv_sequential(&tree, None), Vec::<String>::new());
    assert_eq!(vals_bfs(&tree, None), Vec::<String>::new());
    assert_eq!(vals_pre_dfs(&tree, None), Vec::<String>::new());
    assert_eq!(vals_post_dfs(&tree, None), Vec::<String>::new());
    assert_eq!(vals_children(&tree, None), Vec::<String>::new());
    assert_eq!(vals_in_dfs(&tree, None), Vec::<String>::new());
}
