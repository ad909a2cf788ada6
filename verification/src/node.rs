//! One arena slot: a node's payload, its depth, and its local linkage.

use vstd::prelude::*;

use crate::assoc::keys_unique;
use crate::assoc::lemma_keys_unique_push;
use crate::assoc::lemma_map_of_pairs_dom;
use crate::assoc::lemma_map_of_pairs_get;
use crate::assoc::lemma_map_of_pairs_push;
use crate::assoc::lemma_map_of_pairs_remove;
use crate::assoc::lemma_map_of_pairs_update;
use crate::assoc::map_of_pairs;
use crate::error::SocarelError;
use crate::error::SocarelErrorType;

verus! {

/// The codec contract a node payload type must satisfy: a fallible parse
/// from a raw string, and a canonical value used for child lookups.
pub trait NodeContent: Sized {
    /// Whether `new` accepts the raw string.
    spec fn parses(raw: Seq<char>) -> bool;

    /// The canonical value of the payload that `new` builds from `raw`;
    /// meaningful only when `parses(raw)` holds.
    spec fn parsed_val(raw: Seq<char>) -> Seq<char>;

    /// The canonical value of this payload, as `get_val` returns it.
    spec fn spec_val(&self) -> Seq<char>;

    /// The serialized form of this payload, as `gen_content` returns it.
    spec fn spec_gen(&self) -> Seq<char>;

    /// Parse a raw string into a payload.
    fn new(content: &str) -> (r: Result<Self, SocarelError>)
        ensures
            r is Ok <==> Self::parses(content@),
            r is Ok ==> r->Ok_0.spec_val() == Self::parsed_val(content@),
    ;

    /// Get the canonical payload value.
    fn get_val(&self) -> (r: &str)
        ensures
            r@ == self.spec_val(),
    ;

    /// Serialize the payload back into a raw string.
    fn gen_content(&self) -> (r: String)
        ensures
            r@ == self.spec_gen(),
    ;
}

/// The default payload: it keeps the raw string verbatim, accepts every
/// input, and serializes back to the stored string.
#[derive(Debug)]
pub struct RawNode(String);

impl NodeContent for RawNode {
    closed spec fn parses(raw: Seq<char>) -> bool {
        true
    }

    closed spec fn parsed_val(raw: Seq<char>) -> Seq<char> {
        raw
    }

    closed spec fn spec_val(&self) -> Seq<char> {
        self.0@
    }

    closed spec fn spec_gen(&self) -> Seq<char> {
        self.0@
    }

    fn new(content: &str) -> (r: Result<Self, SocarelError>) {
        Ok(RawNode(content.to_owned()))
    }

    fn get_val(&self) -> (r: &str) {
        self.0.as_str()
    }

    fn gen_content(&self) -> (r: String) {
        self.0.clone()
    }
}

/// The raw codec accepts every string and keeps it verbatim.
pub proof fn lemma_raw_codec_parse(raw: Seq<char>)
    ensures
        RawNode::parses(raw),
        RawNode::parsed_val(raw) == raw,
{
}

/// The codec law of the built-in raw payload: every string parses, parsing
/// keeps the string, and serializing a parsed payload gives the original
/// string back, so a parse/serialize round trip is the identity.
pub proof fn lemma_raw_codec_round_trip(x: RawNode)
    ensures
        RawNode::parses(x.spec_gen()),
        RawNode::parsed_val(x.spec_gen()) == x.spec_val(),
        x.spec_gen() == x.spec_val(),
{
}

/// One entry of a node's child index.
#[derive(Debug)]
struct ChildEntry {
    name: String,
    index: usize,
}

/// A tree node: a payload, the node's depth, the handle of its parent, the
/// ordered handles of its children, and a name-to-handle child index.
#[derive(Debug)]
pub struct Node<C: NodeContent = RawNode> {
    /// Node payload.
    content: C,
    /// Node level: depth from the root, root at 1.
    level: usize,
    /// Handle of the parent node; `None` only for a root.
    parent_position: Option<usize>,
    /// Child index: canonical child value to child handle.
    child_map: Vec<ChildEntry>,
    /// Index of this node inside its parent's `children` array.
    parents_children_pos: Option<usize>,
    /// Handles of the children, in insertion order; a severed child leaves
    /// `usize::MAX` behind in its slot.
    children: Vec<usize>,
}

impl<C: NodeContent> Node<C> {
    /// The payload stored in this node.
    pub closed spec fn spec_content(&self) -> C {
        self.content
    }

    /// The level stored in this node.
    pub closed spec fn spec_level(&self) -> usize {
        self.level
    }

    /// The parent handle stored in this node.
    pub closed spec fn spec_parent(&self) -> Option<usize> {
        self.parent_position
    }

    /// This node's slot inside its parent's children array.
    pub closed spec fn spec_pos_in_parent(&self) -> Option<usize> {
        self.parents_children_pos
    }

    /// The children handles, in sibling order, with `usize::MAX` in the
    /// slots of severed children.
    pub closed spec fn spec_children(&self) -> Seq<usize> {
        self.children@
    }

    /// The child index entries as key/value pairs.
    closed spec fn entries(&self) -> Seq<(Seq<char>, usize)> {
        self.child_map@.map_values(|e: ChildEntry| (e.name@, e.index))
    }

    /// The child index: canonical child value to child handle.
    pub closed spec fn spec_child_map(&self) -> Map<Seq<char>, usize> {
        map_of_pairs(self.entries())
    }

    /// The child index never holds two entries with the same name.
    pub closed spec fn well_formed(&self) -> bool {
        keys_unique(self.entries())
    }

    /// Whether two node values agree on everything except the children
    /// array and the child index.
    pub open spec fn same_apart_from_children(pre: Self, post: Self) -> bool {
        &&& post.spec_content() == pre.spec_content()
        &&& post.spec_level() == pre.spec_level()
        &&& post.spec_parent() == pre.spec_parent()
        &&& post.spec_pos_in_parent() == pre.spec_pos_in_parent()
    }

    /// Whether two node values agree on everything except the payload.
    pub open spec fn same_links(pre: Self, post: Self) -> bool {
        &&& post.spec_level() == pre.spec_level()
        &&& post.spec_parent() == pre.spec_parent()
        &&& post.spec_pos_in_parent() == pre.spec_pos_in_parent()
        &&& post.spec_children() == pre.spec_children()
        &&& post.spec_child_map() == pre.spec_child_map()
        &&& post.well_formed() == pre.well_formed()
    }

    /// Create a new root node: a node at level 1.
    pub fn new_root(content: &str) -> (r: Result<Self, SocarelError>)
        ensures
            r is Ok <==> C::parses(content@),
            r is Ok ==> r->Ok_0.is_fresh(C::parsed_val(content@), 1),
    {
        Self::new_node(content, 1)
    }

    /// Whether this node is freshly parsed: the given value and level, no
    /// linkage and no children.
    pub open spec fn is_fresh(&self, val: Seq<char>, level: usize) -> bool {
        &&& self.well_formed()
        &&& self.spec_content().spec_val() == val
        &&& self.spec_level() == level
        &&& self.spec_parent() is None
        &&& self.spec_pos_in_parent() is None
        &&& self.spec_children() == Seq::<usize>::empty()
        &&& self.spec_child_map() == Map::<Seq<char>, usize>::empty()
    }

    /// Create a new node at the given level by parsing the raw string.
    pub fn new_node(content: &str, level: usize) -> (r: Result<Self, SocarelError>)
        ensures
            r is Ok <==> C::parses(content@),
            r is Ok ==> r->Ok_0.is_fresh(C::parsed_val(content@), level),
    {
        let content_node = match C::new(content) {
            Ok(c) => c,
            Err(e) => {
                return Err(e);
            },
        };
        let node = Node {
            content: content_node,
            level,
            parent_position: None,
            child_map: Vec::new(),
            parents_children_pos: None,
            children: Vec::new(),
        };
        proof {
            assert(node.entries() =~= Seq::<(Seq<char>, usize)>::empty());
            assert(node.spec_children() =~= Seq::<usize>::empty());
        }
        Ok(node)
    }

    /// Replace the payload; linkage, level and child index are untouched.
    pub fn set_content(&mut self, content: C)
        ensures
            final(self).spec_content() == content,
            final(self).spec_level() == old(self).spec_level(),
            final(self).spec_parent() == old(self).spec_parent(),
            final(self).spec_pos_in_parent() == old(self).spec_pos_in_parent(),
            final(self).spec_children() == old(self).spec_children(),
            final(self).spec_child_map() == old(self).spec_child_map(),
            final(self).well_formed() == old(self).well_formed(),
    {
        self.content = content;
    }

    /// Get the payload, consuming the node.
    pub fn get_content(self) -> (r: C)
        ensures
            r == self.spec_content(),
    {
        self.content
    }

    /// Get a reference to the payload.
    pub fn get_content_ref(&self) -> (r: &C)
        ensures
            *r == self.spec_content(),
    {
        &self.content
    }

    /// Set the level.
    pub fn set_level(&mut self, level: usize)
        ensures
            final(self).spec_level() == level,
            final(self).spec_content() == old(self).spec_content(),
            final(self).spec_parent() == old(self).spec_parent(),
            final(self).spec_pos_in_parent() == old(self).spec_pos_in_parent(),
            final(self).spec_children() == old(self).spec_children(),
            final(self).spec_child_map() == old(self).spec_child_map(),
            final(self).well_formed() == old(self).well_formed(),
    {
        self.level = level;
    }

    /// Get the level.
    pub fn get_level(&self) -> (r: usize)
        ensures
            r == self.spec_level(),
    {
        self.level
    }

    /// Get the size of the children array, severed slots included.
    pub fn get_num_children(&self) -> (r: usize)
        ensures
            r == self.spec_children().len(),
    {
        self.children.len()
    }

    /// Set the parent handle.
    pub fn set_parent_position(&mut self, parent_position: usize)
        ensures
            final(self).spec_parent() == Some(parent_position),
            final(self).spec_content() == old(self).spec_content(),
            final(self).spec_level() == old(self).spec_level(),
            final(self).spec_pos_in_parent() == old(self).spec_pos_in_parent(),
            final(self).spec_children() == old(self).spec_children(),
            final(self).spec_child_map() == old(self).spec_child_map(),
            final(self).well_formed() == old(self).well_formed(),
    {
        self.parent_position = Some(parent_position);
    }

    /// Get the parent handle.
    pub fn get_parent_position(&self) -> (r: Option<usize>)
        ensures
            r == self.spec_parent(),
    {
        self.parent_position
    }

    /// Set this node's slot inside its parent's children array.
    pub fn set_parents_children_pos(&mut self, parents_children_pos: usize)
        ensures
            final(self).spec_pos_in_parent() == Some(parents_children_pos),
            final(self).spec_content() == old(self).spec_content(),
            final(self).spec_level() == old(self).spec_level(),
            final(self).spec_parent() == old(self).spec_parent(),
            final(self).spec_children() == old(self).spec_children(),
            final(self).spec_child_map() == old(self).spec_child_map(),
            final(self).well_formed() == old(self).well_formed(),
    {
        self.parents_children_pos = Some(parents_children_pos);
    }

    /// Get this node's slot inside its parent's children array.
    pub fn get_parents_children_pos(&self) -> (r: Option<usize>)
        ensures
            r == self.spec_pos_in_parent(),
    {
        self.parents_children_pos
    }

    /// The position of the child index entry carrying the given name, if any.
    fn find_entry(&self, name: &str) -> (r: Option<usize>)
        ensures
            match r {
                Some(j) => j < self.entries().len() && self.entries()[j as int].0 == name@,
                None => forall|i: int| 0 <= i < self.entries().len() ==> self.entries()[i].0 != name@,
            },
    {
        let key: String = name.to_owned();
        let n = self.child_map.len();
        let mut i: usize = 0;
        while i < n
            invariant
                n == self.entries().len(),
                i <= n,
                key@ == name@,
                forall|p: int| 0 <= p < i ==> self.entries()[p].0 != name@,
            decreases n - i,
        {
            if self.child_map[i].name.eq(&key) {
                assert(self.entries()[i as int].0 == name@);
                return Some(i);
            }
            assert(self.entries()[i as int].0 != name@);
            i += 1;
        }
        None
    }

    /// Append a child: push its handle onto the children array and index it
    /// under its canonical value. An entry already carrying that value is
    /// overwritten, so the newest child shadows an older namesake.
    pub fn add_child(&mut self, node_content: String, node_index: usize)
        requires
            old(self).well_formed(),
        ensures
            final(self).well_formed(),
            final(self).spec_children() == old(self).spec_children().push(node_index),
            final(self).spec_child_map() == old(self).spec_child_map().insert(
                node_content@,
                node_index,
            ),
            Node::same_apart_from_children(*old(self), *final(self)),
    {
        self.children.push(node_index);
        let found = self.find_entry(node_content.as_str());
        let ghost pre = self.entries();
        let ghost key = node_content@;
        match found {
            Some(j) => {
                self.child_map[j] = ChildEntry { name: node_content, index: node_index };
                proof {
                    assert(self.entries() =~= pre.update(j as int, (pre[j as int].0, node_index)));
                    lemma_map_of_pairs_update(pre, j as int, node_index);
                }
            },
            None => {
                self.child_map.push(ChildEntry { name: node_content, index: node_index });
                proof {
                    assert(self.entries() =~= pre.push((key, node_index)));
                    lemma_keys_unique_push(pre, key, node_index);
                    lemma_map_of_pairs_push(pre, key, node_index);
                }
            },
        }
    }

    /// Sever a child: drop its entry from the child index and leave
    /// `usize::MAX` in its slot of the children array.
    pub fn remove_child(&mut self, node_content: &str, node_index: usize)
        requires
            old(self).well_formed(),
            node_index < old(self).spec_children().len(),
        ensures
            final(self).well_formed(),
            final(self).spec_children() == old(self).spec_children().update(
                node_index as int,
                usize::MAX,
            ),
            final(self).spec_child_map() == old(self).spec_child_map().remove(node_content@),
            Node::same_apart_from_children(*old(self), *final(self)),
    {
        let found = self.find_entry(node_content);
        let ghost pre = self.entries();
        match found {
            Some(j) => {
                self.child_map.remove(j);
                proof {
                    assert(self.entries() =~= pre.remove(j as int));
                    lemma_map_of_pairs_remove(pre, j as int);
                }
            },
            None => {
                proof {
                    lemma_map_of_pairs_dom(pre, node_content@);
                    assert(map_of_pairs(pre) =~= map_of_pairs(pre).remove(node_content@));
                }
            },
        }
        self.children[node_index] = usize::MAX;
    }

    /// Re-key the child index: move the entry under `node_content` to the
    /// key `new_node_content`, shadowing an entry already there. Fails, and
    /// changes nothing, when no entry carries `node_content`.
    pub fn update_child(&mut self, node_content: &str, new_node_content: &str) -> (r: Result<
        usize,
        SocarelError,
    >)
        requires
            old(self).well_formed(),
        ensures
            final(self).well_formed(),
            final(self).spec_children() == old(self).spec_children(),
            Node::same_apart_from_children(*old(self), *final(self)),
            old(self).spec_child_map().dom().contains(node_content@) <==> r is Ok,
            r matches Ok(idx) ==> {
                &&& idx == old(self).spec_child_map()[node_content@]
                &&& final(self).spec_child_map() == old(self).spec_child_map().remove(
                    node_content@,
                ).insert(new_node_content@, idx)
            },
            r matches Err(e) ==> {
                &&& *final(self) == *old(self)
                &&& e.is_exactly("Could not update child"@, 1, SocarelErrorType::Node)
            },
    {
        let found = self.find_entry(node_content);
        let ghost pre = self.entries();
        match found {
            Some(j) => {
                let node_index = self.child_map[j].index;
                proof {
                    lemma_map_of_pairs_get(pre, j as int);
                    lemma_map_of_pairs_dom(pre, node_content@);
                }
                self.child_map.remove(j);
                proof {
                    assert(self.entries() =~= pre.remove(j as int));
                    lemma_map_of_pairs_remove(pre, j as int);
                }
                let ghost mid = self.entries();
                let key: String = new_node_content.to_owned();
                let found2 = self.find_entry(new_node_content);
                match found2 {
                    Some(j2) => {
                        self.child_map[j2] = ChildEntry { name: key, index: node_index };
                        proof {
                            assert(self.entries() =~= mid.update(
                                j2 as int,
                                (mid[j2 as int].0, node_index),
                            ));
                            lemma_map_of_pairs_update(mid, j2 as int, node_index);
                        }
                    },
                    None => {
                        self.child_map.push(ChildEntry { name: key, index: node_index });
                        proof {
                            assert(self.entries() =~= mid.push((new_node_content@, node_index)));
                            lemma_keys_unique_push(mid, new_node_content@, node_index);
                            lemma_map_of_pairs_push(mid, new_node_content@, node_index);
                        }
                    },
                }
                Ok(node_index)
            },
            None => {
                proof {
                    lemma_map_of_pairs_dom(pre, node_content@);
                }
                Err(SocarelError::new("Could not update child", 1, SocarelErrorType::Node))
            },
        }
    }

    /// Look a child handle up by its canonical value.
    pub fn get_child(&self, node_content: &str) -> (r: Option<usize>)
        requires
            self.well_formed(),
        ensures
            r == (if self.spec_child_map().dom().contains(node_content@) {
                Some(self.spec_child_map()[node_content@])
            } else {
                None::<usize>
            }),
    {
        let found = self.find_entry(node_content);
        match found {
            Some(j) => {
                proof {
                    lemma_map_of_pairs_get(self.entries(), j as int);
                }
                Some(self.child_map[j].index)
            },
            None => {
                proof {
                    lemma_map_of_pairs_dom(self.entries(), node_content@);
                }
                None
            },
        }
    }

    /// Get the children array: the child handles in sibling order, with
    /// `usize::MAX` in severed slots.
    pub fn get_children_ref(&self) -> (r: &[usize])
        ensures
            r@ == self.spec_children(),
    {
        self.children.as_slice()
    }
}

} // verus!
