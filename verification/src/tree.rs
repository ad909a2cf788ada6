//! The tree: a growable arena of nodes addressed by stable handles.

use vstd::prelude::*;

use crate::error::SocarelError;
use crate::error::SocarelErrorType;
use crate::iter::IterInterface;
use crate::node::Node;
use crate::reach::parent_arc_live;
use crate::node::NodeContent;
use crate::node::RawNode;

verus! {

/// Whether slot `k` of node `i`'s children array is coherent: it is either
/// the `usize::MAX` tombstone of a severed child, or a larger handle whose
/// node points back at `i` and at slot `k`.
pub open spec fn child_ok<C: NodeContent>(s: Seq<Node<C>>, i: int, k: int) -> bool {
    let c = s[i].spec_children()[k];
    ||| c == usize::MAX
    ||| {
        &&& i < c < s.len()
        &&& s[c as int].spec_parent() is Some
        &&& s[c as int].spec_parent().unwrap() == i
        &&& s[c as int].spec_pos_in_parent() is Some
        &&& s[c as int].spec_pos_in_parent().unwrap() == k
    }
}

/// Whether the node at handle `i` is coherent with the rest of the arena:
/// the root sits at handle 0 with level 1 and no parent; every other node
/// has a smaller parent handle, sits one level below it, and occupies a slot
/// of its parent's children array that holds either its own handle or the
/// tombstone left by an unlink; children and child index entries point at
/// larger handles inside the arena.
pub open spec fn node_slot_ok<C: NodeContent>(s: Seq<Node<C>>, i: int) -> bool {
    let n = s[i];
    &&& n.well_formed()
    &&& n.spec_level() <= i + 1
    &&& if i == 0 {
        n.spec_parent() is None && n.spec_level() == 1
    } else {
        match n.spec_parent() {
            Some(p) => {
                &&& (p as int) < i
                &&& n.spec_level() == s[p as int].spec_level() + 1
                &&& match n.spec_pos_in_parent() {
                    Some(k) => {
                        &&& (k as int) < s[p as int].spec_children().len()
                        &&& (s[p as int].spec_children()[k as int] == (i as usize) || s[
                            p as int
                        ].spec_children()[k as int] == usize::MAX)
                    },
                    None => false,
                }
            },
            None => false,
        }
    }
    &&& forall|k: int| 0 <= k < n.spec_children().len() ==> child_ok(s, i, k)
    &&& forall|name: Seq<char>|
        #[trigger] n.spec_child_map().dom().contains(name) ==> i < n.spec_child_map()[name]
            && (n.spec_child_map()[name] as int) < s.len()
}

/// Whether a whole arena is coherent.
pub open spec fn nodes_well_formed<C: NodeContent>(s: Seq<Node<C>>) -> bool {
    forall|i: int| 0 <= i < s.len() ==> #[trigger] node_slot_ok(s, i)
}

/// The handle that a walk of `path` reaches from `cur`: each hop looks the
/// next path element up in the current node's child index, and the walk
/// stops with nothing as soon as a hop is missing.
pub open spec fn find_path_from<C: NodeContent>(
    s: Seq<Node<C>>,
    cur: usize,
    path: Seq<Seq<char>>,
) -> Option<usize>
    decreases path.len(),
{
    if path.len() == 0 {
        Some(cur)
    } else if (cur as int) < s.len() {
        if s[cur as int].spec_child_map().dom().contains(path[0]) {
            find_path_from(s, s[cur as int].spec_child_map()[path[0]], path.skip(1))
        } else {
            None
        }
    } else {
        None
    }
}

/// The level law: in a coherent arena the root sits at level 1 with no
/// parent, and every other node sits exactly one level below its parent.
/// Every tree the library hands out is coherent, whatever sequence of
/// operations built it.
pub proof fn lemma_level_invariant<C: NodeContent>(t: &Tree<C>, i: int)
    requires
        t.well_formed(),
        0 <= i < t.spec_nodes().len(),
    ensures
        i == 0 ==> t.spec_nodes()[0].spec_parent() is None && t.spec_nodes()[0].spec_level() == 1,
        i > 0 ==> t.spec_nodes()[i].spec_parent() is Some && (t.spec_nodes()[
            i
        ].spec_parent().unwrap() as int) < i && t.spec_nodes()[i].spec_level() == t.spec_nodes()[
            t.spec_nodes()[i].spec_parent().unwrap() as int
        ].spec_level() + 1,
{
    assert(node_slot_ok(t.spec_nodes(), i));
}

/// A tree: the arena that owns every node. Nodes are appended, never moved
/// and never dropped; an unlink only severs a parent arc.
#[derive(Debug)]
pub struct Tree<C: NodeContent = RawNode> {
    /// Tree nodes; the handle of a node is its index here.
    nodes: Vec<Node<C>>,
}

impl<C: NodeContent> Tree<C> {
    /// The arena: every node of this tree, indexed by handle.
    pub closed spec fn spec_nodes(&self) -> Seq<Node<C>> {
        self.nodes@
    }

    /// The structural invariant of the arena; every operation of the tree
    /// preserves it. In particular every non-root node sits exactly one
    /// level below its parent.
    pub open spec fn well_formed(&self) -> bool {
        nodes_well_formed(self.spec_nodes())
    }

    /// The arena is a vector, so its length always fits a `usize`.
    pub proof fn lemma_len_bounded(&self)
        ensures
            self.spec_nodes().len() <= usize::MAX,
    {
        broadcast use vstd::std_specs::vec::axiom_spec_len;

        assert(vstd::std_specs::vec::spec_vec_len(&self.nodes) == self.nodes@.len());
    }

    /// Create a new empty tree.
    pub fn new() -> (r: Self)
        ensures
            r.well_formed(),
            r.spec_nodes() == Seq::<Node<C>>::empty(),
    {
        Self { nodes: Vec::new() }
    }

    /// Establish the root node. Fails when the raw string does not parse or
    /// when a root already exists; on success the root takes handle 0 and
    /// level 1.
    pub fn set_root(&mut self, node_content: &str) -> (r: Result<usize, SocarelError>)
        requires
            old(self).well_formed(),
        ensures
            final(self).well_formed(),
            !C::parses(node_content@) ==> r is Err && final(self).spec_nodes() == old(self).spec_nodes(),
            C::parses(node_content@) && old(self).spec_nodes().len() > 0 ==> (r matches Err(e)
                && e.is_exactly("Root node already exist"@, 1, SocarelErrorType::Tree))
                && final(self).spec_nodes() == old(self).spec_nodes(),
            C::parses(node_content@) && old(self).spec_nodes().len() == 0 ==> {
                &&& r matches Ok(h) && h == 0
                &&& final(self).spec_nodes().len() == 1
                &&& final(self).spec_nodes()[0].is_fresh(C::parsed_val(node_content@), 1)
            },
    {
        let node = match Node::<C>::new_root(node_content) {
            Ok(n) => n,
            Err(e) => {
                return Err(e);
            },
        };
        if self.nodes.len() == 0 {
            self.nodes.push(node);
            proof {
                let s = self.spec_nodes();
                assert(s[0].spec_child_map().dom() =~= Set::<Seq<char>>::empty());
                assert(node_slot_ok(s, 0));
            }
            return Ok(0);
        }
        Err(SocarelError::new("Root node already exist", 1, SocarelErrorType::Tree))
    }

    /// Create a new node from the raw string and link it under the given
    /// parent. Fails when the parent handle is out of range or the string
    /// does not parse; on success the new node's handle is the old arena
    /// size, its level is one below its parent's, and no existing node moves
    /// or changes apart from the parent gaining the child.
    pub fn link_node(&mut self, node_content: &str, parent_node_index: usize) -> (r: Result<
        usize,
        SocarelError,
    >)
        requires
            old(self).well_formed(),
        ensures
            final(self).well_formed(),
            parent_node_index >= old(self).spec_nodes().len() ==> (r matches Err(e)
                && e.is_exactly("Could not link node"@, 2, SocarelErrorType::Tree))
                && final(self).spec_nodes() == old(self).spec_nodes(),
            parent_node_index < old(self).spec_nodes().len() && !C::parses(node_content@) ==> r
                is Err && final(self).spec_nodes() == old(self).spec_nodes(),
            parent_node_index < old(self).spec_nodes().len() && C::parses(node_content@) ==> {
                let old_s = old(self).spec_nodes();
                let new_s = final(self).spec_nodes();
                let parent = old_s[parent_node_index as int];
                let h = old_s.len() as int;
                &&& r matches Ok(idx) && idx == h
                &&& new_s.len() == h + 1
                &&& new_s[h].spec_content().spec_val() == C::parsed_val(node_content@)
                &&& new_s[h].spec_level() == parent.spec_level() + 1
                &&& new_s[h].spec_parent() == Some(parent_node_index)
                &&& new_s[h].spec_pos_in_parent() == Some((parent.spec_children().len() as usize))
                &&& new_s[h].spec_children() == Seq::<usize>::empty()
                &&& new_s[h].spec_child_map() == Map::<Seq<char>, usize>::empty()
                &&& new_s[parent_node_index as int].spec_children() == parent.spec_children().push(
                    (h as usize),
                )
                &&& new_s[parent_node_index as int].spec_child_map()
                    == parent.spec_child_map().insert(C::parsed_val(node_content@), (h as usize))
                &&& Node::same_apart_from_children(parent, new_s[parent_node_index as int])
                &&& forall|i: int|
                    0 <= i < h && i != parent_node_index ==> new_s[i] == old_s[i]
            },
    {
        if parent_node_index < self.nodes.len() {
            let mut new_node = match Node::<C>::new_node(node_content, 1) {
                Ok(n) => n,
                Err(e) => {
                    return Err(e);
                },
            };
            new_node.set_parent_position(parent_node_index);
            let parents_children_pos = self.nodes[parent_node_index].get_num_children();
            new_node.set_parents_children_pos(parents_children_pos);
            let node_content_string: String = new_node.get_content_ref().get_val().to_owned();
            let new_node_index = self.nodes.len();
            self.nodes.push(new_node);
            // The arena now holds one more node than before, so the old size
            // was strictly below usize::MAX and the level below cannot
            // overflow: every level is bounded by its node's handle plus one.
            let grown_len = self.nodes.len();
            assert(grown_len == new_node_index + 1);
            let parent_level = self.nodes[parent_node_index].get_level();
            assert(parent_level + 1 <= usize::MAX) by {
                assert(node_slot_ok(old(self).spec_nodes(), parent_node_index as int));
            }
            let new_node_level = parent_level + 1;
            self.nodes[new_node_index].set_level(new_node_level);
            proof {
                assert(node_slot_ok(old(self).spec_nodes(), parent_node_index as int));
                assert(self.spec_nodes()[parent_node_index as int] == old(self).spec_nodes()[
                    parent_node_index as int
                ]);
            }
            self.nodes[parent_node_index].add_child(node_content_string, new_node_index);
            proof {
                let old_s = old(self).spec_nodes();
                let new_s = self.spec_nodes();
                let h = old_s.len() as int;
                let pi = parent_node_index as int;
                assert(node_slot_ok(old_s, pi));
                assert forall|i: int| 0 <= i < new_s.len() implies node_slot_ok(new_s, i) by {
                    if i < h {
                        assert(node_slot_ok(old_s, i));
                        assert forall|k: int|
                            0 <= k < new_s[i].spec_children().len() implies child_ok(
                            new_s,
                            i,
                            k,
                        ) by {
                            if i == pi && k == old_s[pi].spec_children().len() {
                                assert(new_s[i].spec_children()[k] == (h as usize));
                            } else {
                                assert(child_ok(old_s, i, k));
                            }
                        }
                        assert forall|name: Seq<char>| #[trigger]
                            new_s[i].spec_child_map().dom().contains(name) implies i < new_s[
                            i
                        ].spec_child_map()[name] && (new_s[i].spec_child_map()[name] as int)
                            < new_s.len() by {
                            if i == pi && new_s[i].spec_child_map()[name] == (h as usize) {
                            } else {
                                assert(old_s[i].spec_child_map().dom().contains(name));
                            }
                        }
                    } else {
                        assert(i == h);
                        assert(new_s[h].spec_child_map().dom() =~= Set::<Seq<char>>::empty());
                    }
                }
            }
            return Ok(new_node_index);
        }
        Err(SocarelError::new("Could not link node", 2, SocarelErrorType::Tree))
    }

    /// Sever a node from its parent. Fails when the handle is out of range,
    /// names the root, or names a node that is already severed — its slot in
    /// the parent's children array no longer holds its handle. On success
    /// the node, its payload and its descendants all stay in the arena and
    /// only the parent's child arc is tombstoned, so the arena size never
    /// changes.
    pub fn unlink_node(&mut self, node_index: usize) -> (r: Result<usize, SocarelError>)
        requires
            old(self).well_formed(),
        ensures
            final(self).well_formed(),
            !parent_arc_live(old(self).spec_nodes(), node_index) ==> (r matches Err(e)
                && e.is_exactly("Could not unlink node"@, 3, SocarelErrorType::Tree))
                && final(self).spec_nodes() == old(self).spec_nodes(),
            parent_arc_live(old(self).spec_nodes(), node_index) ==> {
                let old_s = old(self).spec_nodes();
                let new_s = final(self).spec_nodes();
                let p = old_s[node_index as int].spec_parent().unwrap() as int;
                let k = old_s[node_index as int].spec_pos_in_parent().unwrap() as int;
                &&& r matches Ok(h) && h == node_index
                &&& new_s.len() == old_s.len()
                &&& new_s[p].spec_children() == old_s[p].spec_children().update(k, usize::MAX)
                &&& new_s[p].spec_child_map() == old_s[p].spec_child_map().remove(
                    old_s[node_index as int].spec_content().spec_val(),
                )
                &&& Node::same_apart_from_children(old_s[p], new_s[p])
                &&& forall|i: int| 0 <= i < old_s.len() && i != p ==> new_s[i] == old_s[i]
            },
    {
        if self.nodes.len() > node_index {
            match self.nodes[node_index].get_parent_position() {
                Some(parent) => {
                    proof {
                        assert(node_slot_ok(self.spec_nodes(), node_index as int));
                    }
                    match self.nodes[node_index].get_parents_children_pos() {
                        Some(parents_children_pos) => {
                            if self.nodes[parent].get_num_children() > parents_children_pos
                                && self.nodes[parent].get_children_ref()[parents_children_pos]
                                == node_index {
                                let node_content: String = self.nodes[
                                    node_index
                                ].get_content_ref().get_val().to_owned();
                                proof {
                                    assert(node_slot_ok(self.spec_nodes(), parent as int));
                                }
                                self.nodes[parent].remove_child(
                                    node_content.as_str(),
                                    parents_children_pos,
                                );
                                proof {
                                    let old_s = old(self).spec_nodes();
                                    let new_s = self.spec_nodes();
                                    let pi = parent as int;
                                    assert forall|i: int|
                                        0 <= i < new_s.len() implies node_slot_ok(new_s, i) by {
                                        assert(node_slot_ok(old_s, i));
                                        assert forall|k: int|
                                            0 <= k < new_s[i].spec_children().len() implies child_ok(
                                            new_s,
                                            i,
                                            k,
                                        ) by {
                                            if !(i == pi && k == parents_children_pos as int) {
                                                assert(child_ok(old_s, i, k));
                                            }
                                        }
                                        assert forall|name: Seq<char>| #[trigger]
                                            new_s[i].spec_child_map().dom().contains(
                                            name,
                                        ) implies i < new_s[i].spec_child_map()[name] && (new_s[
                                            i
                                        ].spec_child_map()[name] as int) < new_s.len() by {
                                            assert(old_s[i].spec_child_map().dom().contains(name));
                                        }
                                    }
                                }
                                return Ok(node_index);
                            }
                        },
                        None => {},
                    }
                },
                None => {},
            }
        }
        Err(SocarelError::new("Could not unlink node", 3, SocarelErrorType::Tree))
    }

    /// Replace a node's payload with a newly parsed one, keeping its level
    /// and all linkage. The parent's child index is re-keyed from the old
    /// canonical value to the raw string. Fails without changing anything
    /// when the handle is out of range, when the string does not parse, or
    /// when the old value is no longer in the parent's index.
    pub fn update_node(&mut self, node_content: &str, node_index: usize) -> (r: Result<
        usize,
        SocarelError,
    >)
        requires
            old(self).well_formed(),
        ensures
            final(self).well_formed(),
            node_index >= old(self).spec_nodes().len() ==> (r matches Err(e) && e.is_exactly(
                "Could not update node"@,
                4,
                SocarelErrorType::Tree,
            )) && final(self).spec_nodes() == old(self).spec_nodes(),
            node_index < old(self).spec_nodes().len() && !C::parses(node_content@) ==> r is Err
                && final(self).spec_nodes() == old(self).spec_nodes(),
            node_index < old(self).spec_nodes().len() && C::parses(node_content@) && old(
                self,
            ).spec_nodes()[node_index as int].spec_parent() is None ==> {
                let old_s = old(self).spec_nodes();
                let new_s = final(self).spec_nodes();
                &&& r matches Ok(h) && h == node_index
                &&& new_s.len() == old_s.len()
                &&& new_s[node_index as int].spec_content().spec_val() == C::parsed_val(
                    node_content@,
                )
                &&& Node::same_links(old_s[node_index as int], new_s[node_index as int])
                &&& forall|i: int|
                    0 <= i < old_s.len() && i != node_index ==> new_s[i] == old_s[i]
            },
            node_index < old(self).spec_nodes().len() && C::parses(node_content@) && old(
                self,
            ).spec_nodes()[node_index as int].spec_parent() is Some ==> {
                let old_s = old(self).spec_nodes();
                let new_s = final(self).spec_nodes();
                let p = old_s[node_index as int].spec_parent().unwrap() as int;
                let old_val = old_s[node_index as int].spec_content().spec_val();
                if old_s[p].spec_child_map().dom().contains(old_val) {
                    &&& r matches Ok(h) && h == node_index
                    &&& new_s.len() == old_s.len()
                    &&& new_s[node_index as int].spec_content().spec_val() == C::parsed_val(
                        node_content@,
                    )
                    &&& Node::same_links(old_s[node_index as int], new_s[node_index as int])
                    &&& new_s[p].spec_child_map() == old_s[p].spec_child_map().remove(
                        old_val,
                    ).insert(node_content@, old_s[p].spec_child_map()[old_val])
                    &&& new_s[p].spec_children() == old_s[p].spec_children()
                    &&& Node::same_apart_from_children(old_s[p], new_s[p])
                    &&& forall|i: int|
                        0 <= i < old_s.len() && i != node_index && i != p ==> new_s[i] == old_s[i]
                } else {
                    &&& (r matches Err(e) && e.is_exactly(
                        "Could not update child"@,
                        1,
                        SocarelErrorType::Node,
                    ))
                    &&& final(self).spec_nodes() == old(self).spec_nodes()
                }
            },
    {
        if self.nodes.len() > node_index {
            let lvl = self.nodes[node_index].get_level();
            let new_node = match Node::<C>::new_node(node_content, lvl) {
                Ok(n) => n,
                Err(e) => {
                    return Err(e);
                },
            };
            proof {
                assert(node_slot_ok(self.spec_nodes(), node_index as int));
            }
            match self.nodes[node_index].get_parent_position() {
                Some(parent_position) => {
                    proof {
                        assert(node_slot_ok(self.spec_nodes(), parent_position as int));
                    }
                    let old_node_content: String = self.nodes[
                        node_index
                    ].get_content_ref().get_val().to_owned();
                    match self.nodes[parent_position].update_child(
                        old_node_content.as_str(),
                        node_content,
                    ) {
                        Ok(_) => {},
                        Err(e) => {
                            proof {
                                assert(self.spec_nodes() =~= old(self).spec_nodes());
                            }
                            return Err(e);
                        },
                    }
                },
                None => {},
            }
            self.nodes[node_index].set_content(new_node.get_content());
            proof {
                let old_s = old(self).spec_nodes();
                let new_s = self.spec_nodes();
                assert forall|i: int| 0 <= i < new_s.len() implies node_slot_ok(new_s, i) by {
                    assert(node_slot_ok(old_s, i));
                    assert forall|k: int|
                        0 <= k < new_s[i].spec_children().len() implies child_ok(new_s, i, k) by {
                        assert(child_ok(old_s, i, k));
                    }
                    assert forall|name: Seq<char>| #[trigger]
                        new_s[i].spec_child_map().dom().contains(name) implies i < new_s[
                        i
                    ].spec_child_map()[name] && (new_s[i].spec_child_map()[name] as int)
                        < new_s.len() by {
                        if !(old_s[node_index as int].spec_parent() is Some && i == old_s[
                            node_index as int
                        ].spec_parent().unwrap() as int) {
                            assert(old_s[i].spec_child_map().dom().contains(name));
                        } else {
                            let old_val = old_s[node_index as int].spec_content().spec_val();
                            let m = old_s[i].spec_child_map();
                            if name != node_content@ {
                                assert(m.dom().contains(name));
                            } else {
                                assert(m.dom().contains(old_val));
                            }
                        }
                    }
                }
            }
            return Ok(node_index);
        }
        Err(SocarelError::new("Could not update node", 4, SocarelErrorType::Tree))
    }

    /// Get a reference to a node's payload; severed nodes still answer.
    pub fn get_node_content(&self, node_index: usize) -> (r: Option<&C>)
        ensures
            match r {
                Some(c) => node_index < self.spec_nodes().len() && *c == self.spec_nodes()[
                    node_index as int
                ].spec_content(),
                None => node_index >= self.spec_nodes().len(),
            },
    {
        if node_index < self.nodes.len() {
            return Some(self.nodes[node_index].get_content_ref());
        }
        None
    }

    /// Walk a path of canonical child values starting below `initial_node`
    /// and return the handle it leads to, if every hop exists.
    pub fn find_path(&self, initial_node: usize, path: &[&str]) -> (r: Option<usize>)
        requires
            self.well_formed(),
        ensures
            r == find_path_from(self.spec_nodes(), initial_node, path.deep_view()),
    {
        let ghost whole: Seq<Seq<char>> = path.deep_view();
        let mut node_index = initial_node;
        let n = path.len();
        let mut i: usize = 0;
        proof {
            assert(whole.skip(0) =~= whole);
        }
        while i < n
            invariant
                self.well_formed(),
                n == whole.len(),
                whole == path.deep_view(),
                i <= n,
                find_path_from(self.spec_nodes(), initial_node, whole) == find_path_from(
                    self.spec_nodes(),
                    node_index,
                    whole.skip(i as int),
                ),
            decreases n - i,
        {
            let path_element: &str = path[i];
            assert(whole.skip(i as int)[0] == path_element@);
            if self.nodes.len() > node_index {
                proof {
                    assert(node_slot_ok(self.spec_nodes(), node_index as int));
                }
                match self.nodes[node_index].get_child(path_element) {
                    Some(path_element_index) => {
                        proof {
                            assert(whole.skip(i as int).skip(1) =~= whole.skip(i as int + 1));
                        }
                        node_index = path_element_index;
                    },
                    None => {
                        return None;
                    },
                }
            } else {
                return None;
            }
            i += 1;
        }
        proof {
            assert(whole.skip(n as int) =~= Seq::<Seq<char>>::empty());
        }
        Some(node_index)
    }

    /// Get the cursor interface, starting at the default handle.
    pub fn iterators(&self) -> (r: IterInterface<'_, C>)
        requires
            self.well_formed(),
        ensures
            r.well_formed(),
            r.spec_tree() == *self,
            r.spec_initial() is None,
    {
        IterInterface::new(self)
    }

    /// Get the cursor interface, starting at the given handle; a handle
    /// out of range is ignored and the default start is used instead.
    pub fn iterators_at(&self, initial_node: usize) -> (r: IterInterface<'_, C>)
        requires
            self.well_formed(),
        ensures
            r.well_formed(),
            r.spec_tree() == *self,
            r.spec_initial() == (if initial_node < self.spec_nodes().len() {
                Some(initial_node)
            } else {
                None::<usize>
            }),
    {
        IterInterface::new_at(self, initial_node)
    }

    /// Get the nodes array: every node ever created, severed ones included.
    pub fn get_nodes_ref(&self) -> (r: &[Node<C>])
        ensures
            r@ == self.spec_nodes(),
    {
        self.nodes.as_slice()
    }

    /// Get the size of the nodes array.
    pub fn get_nodes_len(&self) -> (r: usize)
        ensures
            r == self.spec_nodes().len(),
    {
        self.nodes.len()
    }
}

} // verus!
