//! Codec tests: the raw passthrough payload, the weighted dialect, and
//! the round-trip law of both.

use socarel::Forest;
use socarel::NodeContent;
use socarel::RawNode;
use socarel::RawTreeId;
use socarel::SocarelError;
use socarel::SocarelErrorType;
use socarel::Tree;
use socarel::TreeIdentifier;
use socarel::WeightNode;

#[test]
fn check_custom_node_content() {
    let mut tree = Tree::<WeightNode>::new();
    let root = tree.set_root("0:root_node").unwrap();
    let child_1 = tree.link_node("10:child_1", root).unwrap();
    let child_1_1 = tree.link_node("5:child_1_1", child_1).unwrap();
    let _child_1_1_1 = tree.link_node("12:child_1_1_1", child_1_1).unwrap();

    let mut forest = Forest::<RawTreeId, _>::new();
    forest.add_tree("custom_node_tree", tree).unwrap();
    forest.new_tree("empty_tree").unwrap();

    let mut forest_it = forest.iter();
    let mut ti = 0;
    while let Some((tree_id, tree)) = forest_it.next() {
        if ti > 1 {
            panic!("Invalid tree index");
        }
        if tree_id.get_id() == "custom_node_tree" {
            let iters = tree.iterators();
            let mut it = iters.sequential();
            let mut i = 0;
            while let Some((n, _)) = it.next() {
                match i {
                    0 => {
                        if !n.get_content_ref().get_val().eq("root_node") {
                            panic!("Wrong {} node content!", n.get_content_ref().get_val());
                        }
                        if n.get_content_ref().get_weight() != 0 {
                            panic!("Wrong {} node weight!", n.get_content_ref().get_weight());
                        }
                    }
                    1 => {
                        if !n.get_content_ref().get_val().eq("child_1") {
                            panic!("Wrong {} node content!", n.get_content_ref().get_val());
                        }
                        if n.get_content_ref().get_weight() != 10 {
                            panic!("Wrong {} node weight!", n.get_content_ref().get_weight());
                        }
                    }
                    2 => {
                        if !n.get_content_ref().get_val().eq("child_1_1") {
                            panic!("Wrong {} node content!", n.get_content_ref().get_val());
                        }
                        if n.get_content_ref().get_weight() != 5 {
                            panic!("Wrong {} node weight!", n.get_content_ref().get_weight());
                        }
                    }
                    3 => {
                        if !n.get_content_ref().get_val().eq("child_1_1_1") {
                            panic!("Wrong {} node content!", n.get_content_ref().get_val());
                        }
                        if n.get_content_ref().get_weight() != 12 {
                            panic!("Wrong {} node weight!", n.get_content_ref().get_weight());
                        }
                    }
                    _ => {
                        panic!("Invalid child index");
                    }
                }
                i += 1;
            }
        } else if tree_id.get_id() == "empty_tree" {
            assert_eq!(tree.get_nodes_len(), 0);
        } else {
            panic!("Invalid tree");
        }
        ti += 1;
    }
}

#[test]
fn raw_codec_round_trips() {
    for s in ["root_node", "A", "some text with spaces", "with:colon", ""] {
        let parsed = RawNode::new(s).unwrap();
        assert_eq!(parsed.get_val(), s);
        let serialized = parsed.gen_content();
        assert_eq!(serialized, s);
        let reparsed = RawNode::new(&serialized).unwrap();
        assert_eq!(reparsed.get_val(), s);
    }
}

#[test]
fn weight_codec_round_trips() {
    let parsed = WeightNode::new("10:child_1").unwrap();
    assert_eq!(parsed.get_val(), "child_1");
    assert_eq!(parsed.get_weight(), 10);
    let serialized = parsed.gen_content();
    assert_eq!(serialized, "10:child_1");
    let reparsed = WeightNode::new(&serialized).unwrap();
    assert_eq!(reparsed.get_val(), "child_1");
    assert_eq!(reparsed.get_weight(), 10);
}

#[test]
fn weight_codec_canonicalizes_digits() {
    let parsed = WeightNode::new("0042:x").unwrap();
    assert_eq!(parsed.get_weight(), 42);
    assert_eq!(parsed.gen_content(), "42:x");
    let zero = WeightNode::new("0:x").unwrap();
    assert_eq!(zero.get_weight(), 0);
    assert_eq!(zero.gen_content(), "0:x");
}

#[test]
fn weight_codec_accepts_bounds() {
    let max = WeightNode::new("4294967295:top").unwrap();
    assert_eq!(max.get_weight(), 4294967295);
    assert_eq!(max.gen_content(), "4294967295:top");
    let empty_text = WeightNode::new("7:").unwrap();
    assert_eq!(empty_text.get_val(), "");
    assert_eq!(empty_text.gen_content(), "7:");
}

#[test]
fn weight_codec_rejects_malformed_input() {
    for s in [
        "no_separator",
        "",
        ":missing_weight",
        "1:2:3",
        "12a:text",
        "a12:text",
        " 1:text",
        "4294967296:overflow",
        "99999999999999999999:overflow",
    ] {
        let err = WeightNode::new(s).unwrap_err();
        assert_eq!(err.get_message(), "Could not parse content");
        assert_eq!(err.get_code(), 1);
        assert_eq!(err.get_type(), SocarelErrorType::Node);
    }
}

#[test]
fn error_values_carry_their_parts() {
    let err = SocarelError::new("some message", 42, SocarelErrorType::Other);
    assert_eq!(err.get_message(), "some message");
    assert_eq!(err.get_code(), 42);
    assert_eq!(err.get_type(), SocarelErrorType::Other);
    assert_ne!(err.get_type(), SocarelErrorType::Iter);
}
