//! An in-memory, arena-backed n-ary tree library.
//!
//! A tree owns a growable arena of nodes; nodes refer to each other only
//! through stable integer handles, never through pointers. Node payloads are
//! pluggable through the `NodeContent` codec contract, structural edits
//! (link, unlink, update) run in O(1) and never move a node, and a family of
//! cursors walks the arena in sequential, breadth-first, depth-first and
//! in-order disciplines. Named trees are grouped into a `Forest`.
//!
//! The central guarantees are stated and proved here: every tree the
//! library builds satisfies the structural invariant `Tree::well_formed`
//! (in particular the level law, `lemma_level_invariant`); the built-in
//! codecs obey their round-trip laws (`lemma_raw_codec_round_trip`,
//! `lemma_weight_codec_round_trip`); severing a node leaves the arena and
//! every payload in place while making the whole severed subtree
//! unreachable from the root (`lemma_severed_subtree_unreachable`), and
//! the breadth-first and depth-first cursors only ever yield handles
//! reachable from their start.

mod assoc;
mod error;
mod forest;
mod iter;
mod node;
mod reach;
mod tree;
mod weight;

pub use error::SocarelError;
pub use error::SocarelErrorType;
pub use forest::lemma_forest_ids_unique;
pub use forest::lemma_forest_iteration_complete;
pub use forest::lemma_raw_tree_id_parse;
pub use forest::Forest;
pub use forest::ForestIter;
pub use forest::RawTreeId;
pub use forest::TreeIdentifier;
pub use iter::entry_weight;
pub use iter::in_step;
pub use iter::inv_post_step;
pub use iter::lemma_live_children_bounds;
pub use iter::live_children;
pub use iter::next_live_slot;
pub use iter::post_gauge;
pub use iter::post_step;
pub use iter::stack_weight;
pub use iter::tag_stack;
pub use iter::BfsIter;
pub use iter::ChildrenIter;
pub use iter::InDfsIter;
pub use iter::InvBfsIter;
pub use iter::InvInDfsIter;
pub use iter::InvPostDfsIter;
pub use iter::InvPreDfsIter;
pub use iter::InvSequentialIter;
pub use iter::IterInterface;
pub use iter::PostDfsIter;
pub use iter::PreDfsIter;
pub use iter::SequentialIter;
pub use node::lemma_raw_codec_parse;
pub use node::lemma_raw_codec_round_trip;
pub use node::Node;
pub use node::NodeContent;
pub use node::RawNode;
pub use reach::lemma_reachable_child;
pub use reach::lemma_reachable_implies_uplinked;
pub use reach::lemma_severed_subtree_unreachable;
pub use reach::lemma_uplinked_extend;
pub use reach::lemma_uplinked_implies_reachable;
pub use reach::parent_arc_live;
pub use reach::reachable_from;
pub use reach::uplinked;
pub use tree::child_ok;
pub use tree::find_path_from;
pub use tree::lemma_level_invariant;
pub use tree::node_slot_ok;
pub use tree::nodes_well_formed;
pub use tree::Tree;
pub use weight::all_digits;
pub use weight::colon_free;
pub use weight::dec_str;
pub use weight::dec_val;
pub use weight::digit_char;
pub use weight::digit_val;
pub use weight::is_digit;
pub use weight::lemma_dec_str_props;
pub use weight::lemma_splits_at_unique;
pub use weight::lemma_weight_codec_round_trip;
pub use weight::parsed_weight;
pub use weight::splits_at;
pub use weight::weight_parses_at;
pub use weight::WeightNode;
