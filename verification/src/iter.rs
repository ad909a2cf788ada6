//! The traversal suite: cursors that walk a tree's arena by handle.
//!
//! Every cursor borrows the tree read-only and yields `(node, handle)`
//! pairs one at a time from its `next` method; consuming only a prefix is
//! always safe. The sequential pair walks the raw arena — severed nodes
//! included — while the breadth-first and depth-first cursors follow live
//! child arcs only, so a severed subtree is invisible to them.

use vstd::prelude::*;

use crate::node::Node;
use crate::node::NodeContent;
use crate::node::RawNode;
use crate::reach::lemma_reachable_child;
use crate::reach::reachable_from;
use crate::tree::child_ok;
use crate::tree::node_slot_ok;
use crate::tree::Tree;

verus! {

/// The one entry point to every cursor of a tree.
pub struct IterInterface<'a, C: NodeContent = RawNode> {
    tree: &'a Tree<C>,
    initial_node: Option<usize>,
}

impl<'a, C: NodeContent> IterInterface<'a, C> {
    /// The tree the cursors will walk.
    pub closed spec fn spec_tree(&self) -> Tree<C> {
        *self.tree
    }

    /// The starting handle, when one was given and was in range.
    pub closed spec fn spec_initial(&self) -> Option<usize> {
        self.initial_node
    }

    /// The handle a cursor starts from when a missing start defaults to `d`.
    pub open spec fn start_or(&self, d: usize) -> usize {
        match self.spec_initial() {
            Some(i) => i,
            None => d,
        }
    }

    /// The interface's invariant: the tree is coherent and a stored start
    /// is in range; both constructors establish it.
    pub open spec fn well_formed(&self) -> bool {
        &&& self.spec_tree().well_formed()
        &&& match self.spec_initial() {
            Some(i) => (i as int) < self.spec_tree().spec_nodes().len(),
            None => true,
        }
    }

    /// Create a cursor interface that starts at the default handle.
    pub fn new(tree: &'a Tree<C>) -> (r: Self)
        requires
            tree.well_formed(),
        ensures
            r.well_formed(),
            r.spec_tree() == *tree,
            r.spec_initial() is None,
    {
        IterInterface { tree, initial_node: None }
    }

    /// Create a cursor interface that starts at the given handle; a handle
    /// out of range is ignored and the default start is used instead.
    pub fn new_at(tree: &'a Tree<C>, initial_node: usize) -> (r: Self)
        requires
            tree.well_formed(),
        ensures
            r.well_formed(),
            r.spec_tree() == *tree,
            r.spec_initial() == (if initial_node < tree.spec_nodes().len() {
                Some(initial_node)
            } else {
                None::<usize>
            }),
    {
        if tree.get_nodes_len() > initial_node {
            IterInterface { tree, initial_node: Some(initial_node) }
        } else {
            Self::new(tree)
        }
    }

    /// Get a sequential cursor: it walks the raw arena in ascending handle
    /// order, severed nodes included.
    pub fn sequential(&self) -> (r: SequentialIter<'a, C>)
        requires
            self.well_formed(),
        ensures
            r.spec_tree() == self.spec_tree(),
            r.spec_position() == self.start_or(0),
    {
        match self.initial_node {
            Some(initial_node) => SequentialIter::new(self.tree, initial_node),
            None => SequentialIter::new(self.tree, 0),
        }
    }

    /// Get an inverse sequential cursor: it walks the raw arena in
    /// descending handle order, severed nodes included. On an empty tree it
    /// yields nothing.
    pub fn inv_sequential(&self) -> (r: InvSequentialIter<'a, C>)
        requires
            self.well_formed(),
        ensures
            r.spec_tree() == self.spec_tree(),
            self.spec_tree().spec_nodes().len() == 0 ==> r.spec_finished(),
            self.spec_tree().spec_nodes().len() > 0 ==> !r.spec_finished() && (
            r.spec_position() as int) == (match self.spec_initial() {
                Some(i) => i as int,
                None => self.spec_tree().spec_nodes().len() - 1,
            }),
    {
        proof {
            self.tree.lemma_len_bounded();
        }
        match self.initial_node {
            Some(initial_node) => InvSequentialIter::new(self.tree, initial_node),
            None => {
                let n = self.tree.get_nodes_len();
                if n > 0 {
                    InvSequentialIter::new(self.tree, n - 1)
                } else {
                    InvSequentialIter::new(self.tree, 0)
                }
            },
        }
    }

    /// Get a breadth-first cursor.
    pub fn bfs(&self) -> (r: BfsIter<'a, C>)
        requires
            self.well_formed(),
        ensures
            r.well_formed(),
            r.spec_tree() == self.spec_tree(),
            r.spec_queue() == Seq::<usize>::empty(),
            r.spec_next() == self.start_or(0),
            !r.spec_finished(),
            r.spec_start() == self.start_or(0),
    {
        match self.initial_node {
            Some(initial_node) => BfsIter::new(self.tree, initial_node),
            None => BfsIter::new(self.tree, 0),
        }
    }

    /// Get an inverse breadth-first cursor.
    pub fn inv_bfs(&self) -> (r: InvBfsIter<'a, C>)
        requires
            self.well_formed(),
        ensures
            r.well_formed(),
            r.spec_tree() == self.spec_tree(),
            r.spec_queue() == Seq::<usize>::empty(),
            r.spec_next() == self.start_or(0),
            !r.spec_finished(),
            r.spec_start() == self.start_or(0),
    {
        match self.initial_node {
            Some(initial_node) => InvBfsIter::new(self.tree, initial_node),
            None => InvBfsIter::new(self.tree, 0),
        }
    }

    /// Get a pre-order depth-first cursor.
    pub fn pre_dfs(&self) -> (r: PreDfsIter<'a, C>)
        requires
            self.well_formed(),
        ensures
            r.well_formed(),
            r.spec_tree() == self.spec_tree(),
            r.spec_stack() == Seq::<usize>::empty(),
            r.spec_next() == self.start_or(0),
            !r.spec_finished(),
            r.spec_start() == self.start_or(0),
    {
        match self.initial_node {
            Some(initial_node) => PreDfsIter::new(self.tree, initial_node),
            None => PreDfsIter::new(self.tree, 0),
        }
    }

    /// Get an inverse pre-order depth-first cursor.
    pub fn inv_pre_dfs(&self) -> (r: InvPreDfsIter<'a, C>)
        requires
            self.well_formed(),
        ensures
            r.well_formed(),
            r.spec_tree() == self.spec_tree(),
            r.spec_stack() == Seq::<usize>::empty(),
            r.spec_next() == self.start_or(0),
            !r.spec_finished(),
            r.spec_start() == self.start_or(0),
    {
        match self.initial_node {
            Some(initial_node) => InvPreDfsIter::new(self.tree, initial_node),
            None => InvPreDfsIter::new(self.tree, 0),
        }
    }

    /// Get a post-order depth-first cursor.
    pub fn post_dfs(&self) -> (r: PostDfsIter<'a, C>)
        requires
            self.well_formed(),
        ensures
            r.well_formed(),
            r.spec_tree() == self.spec_tree(),
            r.spec_stack() == seq![(self.start_or(0), true)],
            r.spec_start() == self.start_or(0),
    {
        match self.initial_node {
            Some(initial_node) => PostDfsIter::new(self.tree, initial_node),
            None => PostDfsIter::new(self.tree, 0),
        }
    }

    /// Get an inverse post-order depth-first cursor.
    pub fn inv_post_dfs(&self) -> (r: InvPostDfsIter<'a, C>)
        requires
            self.well_formed(),
        ensures
            r.well_formed(),
            r.spec_tree() == self.spec_tree(),
            r.spec_stack() == seq![(self.start_or(0), true)],
            r.spec_start() == self.start_or(0),
    {
        match self.initial_node {
            Some(initial_node) => InvPostDfsIter::new(self.tree, initial_node),
            None => InvPostDfsIter::new(self.tree, 0),
        }
    }

    /// Get an in-order depth-first cursor.
    pub fn in_dfs(&self) -> (r: InDfsIter<'a, C>)
        requires
            self.well_formed(),
        ensures
            r.well_formed(),
            r.spec_tree() == self.spec_tree(),
            r.spec_stack() == seq![(self.start_or(0), 0usize)],
            r.spec_start() == self.start_or(0),
    {
        match self.initial_node {
            Some(initial_node) => InDfsIter::new(self.tree, initial_node),
            None => InDfsIter::new(self.tree, 0),
        }
    }

    /// Get an inverse in-order cursor; it yields nothing.
    pub fn inv_in_dfs(&self) -> (r: InvInDfsIter<'a, C>)
        requires
            self.well_formed(),
        ensures
            r.spec_tree() == self.spec_tree(),
            r.spec_initial() == self.start_or(0),
    {
        match self.initial_node {
            Some(initial_node) => InvInDfsIter::new(self.tree, initial_node),
            None => InvInDfsIter::new(self.tree, 0),
        }
    }

    /// Get a children cursor: it yields the immediate children of the
    /// starting node, left to right.
    pub fn children(&self) -> (r: ChildrenIter<'a, C>)
        requires
            self.well_formed(),
        ensures
            r.spec_tree() == self.spec_tree(),
            r.spec_initial() == self.start_or(0),
            r.spec_pos() == 0,
    {
        match self.initial_node {
            Some(initial_node) => ChildrenIter::new(self.tree, initial_node),
            None => ChildrenIter::new(self.tree, 0),
        }
    }
}

/// The live entries of a children array: the handles inside the arena, in
/// order, with the `usize::MAX` tombstones of severed children left out.
pub open spec fn live_children<C: NodeContent>(s: Seq<Node<C>>, cs: Seq<usize>) -> Seq<usize>
    decreases cs.len(),
{
    if cs.len() == 0 {
        cs
    } else if (cs.last() as int) < s.len() {
        live_children(s, cs.drop_last()).push(cs.last())
    } else {
        live_children(s, cs.drop_last())
    }
}

/// A breadth-first cursor: it visits the starting node, then its children
/// in sibling order, then theirs, level by level, through live child arcs
/// only.
pub struct BfsIter<'a, C: NodeContent = RawNode> {
    tree: &'a Tree<C>,
    cua: Vec<usize>,
    next: usize,
    finished: bool,
    start: Ghost<usize>,
}

impl<'a, C: NodeContent> BfsIter<'a, C> {
    /// The tree this cursor walks.
    pub closed spec fn spec_tree(&self) -> Tree<C> {
        *self.tree
    }

    /// The queue of handles waiting to be visited.
    pub closed spec fn spec_queue(&self) -> Seq<usize> {
        self.cua@
    }

    /// The handle the next call will visit.
    pub closed spec fn spec_next(&self) -> usize {
        self.next
    }

    /// Whether the walk is over.
    pub closed spec fn spec_finished(&self) -> bool {
        self.finished
    }

    /// The handle the walk started from.
    pub closed spec fn spec_start(&self) -> usize {
        self.start@
    }

    /// The cursor's invariant: the tree is coherent and every handle the
    /// cursor may still visit is reachable from the start through live
    /// child arcs.
    pub closed spec fn well_formed(&self) -> bool {
        let s = self.spec_tree().spec_nodes();
        &&& self.spec_tree().well_formed()
        &&& ((self.spec_next() as int) < s.len() ==> reachable_from(
            s,
            self.spec_start(),
            self.spec_next(),
        ))
        &&& forall|j: int|
            0 <= j < self.spec_queue().len() ==> (((#[trigger] self.spec_queue()[j]) as int)
                < s.len() ==> reachable_from(s, self.spec_start(), self.spec_queue()[j]))
    }

    /// Create the cursor at the given handle.
    pub fn new(tree: &'a Tree<C>, initial_node: usize) -> (r: Self)
        requires
            tree.well_formed(),
        ensures
            r.well_formed(),
            r.spec_tree() == *tree,
            r.spec_queue() == Seq::<usize>::empty(),
            r.spec_next() == initial_node,
            !r.spec_finished(),
            r.spec_start() == initial_node,
    {
        Self {
            tree,
            cua: Vec::new(),
            next: initial_node,
            finished: false,
            start: Ghost(initial_node),
        }
    }

    /// Visit the current handle: yield its node, queue its live children —
    /// the tombstones of severed children are skipped — and dequeue the
    /// handle to visit next. Every yielded handle is reachable from the
    /// start.
    pub fn next(&mut self) -> (r: Option<(&'a Node<C>, usize)>)
        requires
            old(self).well_formed(),
        ensures
            final(self).well_formed(),
            final(self).spec_tree() == old(self).spec_tree(),
            final(self).spec_start() == old(self).spec_start(),
            old(self).spec_finished() ==> r is None && *final(self) == *old(self),
            ({
                let s = old(self).spec_tree().spec_nodes();
                let h = old(self).spec_next();
                !old(self).spec_finished() && (h as int) < s.len() ==> {
                    let q2 = old(self).spec_queue() + live_children(
                        s,
                        s[h as int].spec_children(),
                    );
                    &&& r is Some
                    &&& r.unwrap().1 == h
                    &&& *r.unwrap().0 == s[h as int]
                    &&& reachable_from(s, old(self).spec_start(), h)
                    &&& (q2.len() > 0 ==> final(self).spec_queue() == q2.drop_first() && final(self).spec_next() == q2[0] && !final(self).spec_finished())
                    &&& (q2.len() == 0 ==> final(self).spec_finished() && final(self).spec_queue()
                        == q2 && final(self).spec_next() == old(self).spec_next())
                }
            }),
            !old(self).spec_finished() && (old(self).spec_next() as int) >= old(self).spec_tree().spec_nodes().len() ==> r is None && *final(self) == *old(self),
    {
        if self.finished {
            return None;
        }
        let position = self.next;
        if position < self.tree.get_nodes_len() {
            let node = &self.tree.get_nodes_ref()[position];
            let children = node.get_children_ref();
            let ghost s = self.spec_tree().spec_nodes();
            let ghost start = self.spec_start();
            let n = children.len();
            let mut ci: usize = 0;
            while ci < n
                invariant
                    n == children@.len(),
                    ci <= n,
                    children@ == s[position as int].spec_children(),
                    s == self.spec_tree().spec_nodes(),
                    start == self.spec_start(),
                    self.spec_tree() == old(self).spec_tree(),
                    self.spec_tree().well_formed(),
                    (position as int) < s.len(),
                    reachable_from(s, start, position),
                    self.spec_next() == old(self).spec_next(),
                    self.spec_finished() == old(self).spec_finished(),
                    self.spec_queue() == old(self).spec_queue() + live_children(
                        s,
                        children@.take(ci as int),
                    ),
                    forall|j: int|
                        0 <= j < self.spec_queue().len() ==> (((
                        #[trigger] self.spec_queue()[j]) as int) < s.len() ==> reachable_from(
                            s,
                            start,
                            self.spec_queue()[j],
                        )),
                decreases n - ci,
            {
                let c = children[ci];
                proof {
                    assert(children@.take(ci as int + 1).drop_last() =~= children@.take(
                        ci as int,
                    ));
                    assert(children@.take(ci as int + 1).last() == c);
                    if (c as int) < s.len() {
                        self.tree.lemma_len_bounded();
                        assert(node_slot_ok(s, position as int));
                        assert(child_ok(s, position as int, ci as int));
                        assert(c != usize::MAX);
                        lemma_reachable_child(s, start, position, ci as int);
                        assert((old(self).spec_queue() + live_children(
                            s,
                            children@.take(ci as int),
                        )).push(c) =~= old(self).spec_queue() + live_children(
                            s,
                            children@.take(ci as int),
                        ).push(c));
                    }
                }
                if c < self.tree.get_nodes_len() {
                    self.cua.push(c);
                }
                ci += 1;
            }
            proof {
                assert(children@.take(n as int) =~= children@);
            }
            if self.cua.len() > 0 {
                let head = self.cua.remove(0);
                self.next = head;
                proof {
                    let q2 = old(self).spec_queue() + live_children(
                        s,
                        s[position as int].spec_children(),
                    );
                    assert(q2.remove(0) =~= q2.drop_first());
                }
            } else {
                self.finished = true;
            }
            Some((node, position))
        } else {
            None
        }
    }
}

/// An inverse breadth-first cursor: level order, but the children of each
/// visited node are taken right to left.
pub struct InvBfsIter<'a, C: NodeContent = RawNode> {
    tree: &'a Tree<C>,
    cua: Vec<usize>,
    next: usize,
    finished: bool,
    start: Ghost<usize>,
}

impl<'a, C: NodeContent> InvBfsIter<'a, C> {
    /// The tree this cursor walks.
    pub closed spec fn spec_tree(&self) -> Tree<C> {
        *self.tree
    }

    /// The queue of handles waiting to be visited.
    pub closed spec fn spec_queue(&self) -> Seq<usize> {
        self.cua@
    }

    /// The handle the next call will visit.
    pub closed spec fn spec_next(&self) -> usize {
        self.next
    }

    /// Whether the walk is over.
    pub closed spec fn spec_finished(&self) -> bool {
        self.finished
    }

    /// The handle the walk started from.
    pub closed spec fn spec_start(&self) -> usize {
        self.start@
    }

    /// The cursor's invariant: the tree is coherent and every handle the
    /// cursor may still visit is reachable from the start through live
    /// child arcs.
    pub closed spec fn well_formed(&self) -> bool {
        let s = self.spec_tree().spec_nodes();
        &&& self.spec_tree().well_formed()
        &&& ((self.spec_next() as int) < s.len() ==> reachable_from(
            s,
            self.spec_start(),
            self.spec_next(),
        ))
        &&& forall|j: int|
            0 <= j < self.spec_queue().len() ==> (((#[trigger] self.spec_queue()[j]) as int)
                < s.len() ==> reachable_from(s, self.spec_start(), self.spec_queue()[j]))
    }

    /// Create the cursor at the given handle.
    pub fn new(tree: &'a Tree<C>, initial_node: usize) -> (r: Self)
        requires
            tree.well_formed(),
        ensures
            r.well_formed(),
            r.spec_tree() == *tree,
            r.spec_queue() == Seq::<usize>::empty(),
            r.spec_next() == initial_node,
            !r.spec_finished(),
            r.spec_start() == initial_node,
    {
        Self {
            tree,
            cua: Vec::new(),
            next: initial_node,
            finished: false,
            start: Ghost(initial_node),
        }
    }

    /// Visit the current handle: yield its node, queue its live children
    /// right to left — the tombstones of severed children are skipped — and
    /// dequeue the handle to visit next, as the forward breadth-first
    /// cursor does.
    pub fn next(&mut self) -> (r: Option<(&'a Node<C>, usize)>)
        requires
            old(self).well_formed(),
        ensures
            final(self).well_formed(),
            final(self).spec_tree() == old(self).spec_tree(),
            final(self).spec_start() == old(self).spec_start(),
            old(self).spec_finished() ==> r is None && *final(self) == *old(self),
            ({
                let s = old(self).spec_tree().spec_nodes();
                let h = old(self).spec_next();
                !old(self).spec_finished() && (h as int) < s.len() ==> {
                    let q2 = old(self).spec_queue() + live_children(
                        s,
                        s[h as int].spec_children().reverse(),
                    );
                    &&& r is Some
                    &&& r.unwrap().1 == h
                    &&& *r.unwrap().0 == s[h as int]
                    &&& reachable_from(s, old(self).spec_start(), h)
                    &&& (q2.len() > 0 ==> final(self).spec_queue() == q2.drop_first() && final(self).spec_next() == q2[0] && !final(self).spec_finished())
                    &&& (q2.len() == 0 ==> final(self).spec_finished() && final(self).spec_queue()
                        == q2 && final(self).spec_next() == old(self).spec_next())
                }
            }),
            !old(self).spec_finished() && (old(self).spec_next() as int) >= old(self).spec_tree().spec_nodes().len() ==> r is None && *final(self) == *old(self),
    {
        if self.finished {
            return None;
        }
        let position = self.next;
        if position < self.tree.get_nodes_len() {
            let node = &self.tree.get_nodes_ref()[position];
            let children = node.get_children_ref();
            let ghost s = self.spec_tree().spec_nodes();
            let ghost start = self.spec_start();
            let ghost rev = children@.reverse();
            let n = children.len();
            let mut ci: usize = 0;
            while ci < n
                invariant
                    n == children@.len(),
                    ci <= n,
                    children@ == s[position as int].spec_children(),
                    rev == children@.reverse(),
                    s == self.spec_tree().spec_nodes(),
                    start == self.spec_start(),
                    self.spec_tree() == old(self).spec_tree(),
                    self.spec_tree().well_formed(),
                    (position as int) < s.len(),
                    reachable_from(s, start, position),
                    self.spec_next() == old(self).spec_next(),
                    self.spec_finished() == old(self).spec_finished(),
                    self.spec_queue() == old(self).spec_queue() + live_children(
                        s,
                        rev.take(ci as int),
                    ),
                    forall|j: int|
                        0 <= j < self.spec_queue().len() ==> (((
                        #[trigger] self.spec_queue()[j]) as int) < s.len() ==> reachable_from(
                            s,
                            start,
                            self.spec_queue()[j],
                        )),
                decreases n - ci,
            {
                let c = children[n - 1 - ci];
                proof {
                    assert(rev[ci as int] == children@[n - 1 - ci as int]);
                    assert(rev.take(ci as int + 1).drop_last() =~= rev.take(ci as int));
                    assert(rev.take(ci as int + 1).last() == c);
                    if (c as int) < s.len() {
                        self.tree.lemma_len_bounded();
                        assert(node_slot_ok(s, position as int));
                        assert(child_ok(s, position as int, n - 1 - ci as int));
                        assert(c != usize::MAX);
                        lemma_reachable_child(s, start, position, n - 1 - ci as int);
                        assert((old(self).spec_queue() + live_children(
                            s,
                            rev.take(ci as int),
                        )).push(c) =~= old(self).spec_queue() + live_children(
                            s,
                            rev.take(ci as int),
                        ).push(c));
                    }
                }
                if c < self.tree.get_nodes_len() {
                    self.cua.push(c);
                }
                ci += 1;
            }
            proof {
                assert(rev.take(n as int) =~= rev);
            }
            if self.cua.len() > 0 {
                let head = self.cua.remove(0);
                self.next = head;
                proof {
                    let q2 = old(self).spec_queue() + live_children(
                        s,
                        s[position as int].spec_children().reverse(),
                    );
                    assert(q2.remove(0) =~= q2.drop_first());
                }
            } else {
                self.finished = true;
            }
            Some((node, position))
        } else {
            None
        }
    }
}

/// A pre-order depth-first cursor: each node comes before its children,
/// children left to right, through live child arcs only.
pub struct PreDfsIter<'a, C: NodeContent = RawNode> {
    tree: &'a Tree<C>,
    pila: Vec<usize>,
    next: usize,
    finished: bool,
    start: Ghost<usize>,
}

impl<'a, C: NodeContent> PreDfsIter<'a, C> {
    /// The tree this cursor walks.
    pub closed spec fn spec_tree(&self) -> Tree<C> {
        *self.tree
    }

    /// The stack of handles waiting to be visited.
    pub closed spec fn spec_stack(&self) -> Seq<usize> {
        self.pila@
    }

    /// The handle the next call will visit.
    pub closed spec fn spec_next(&self) -> usize {
        self.next
    }

    /// Whether the walk is over.
    pub closed spec fn spec_finished(&self) -> bool {
        self.finished
    }

    /// The handle the walk started from.
    pub closed spec fn spec_start(&self) -> usize {
        self.start@
    }

    /// The cursor's invariant: the tree is coherent and every handle the
    /// cursor may still visit is reachable from the start through live
    /// child arcs.
    pub closed spec fn well_formed(&self) -> bool {
        let s = self.spec_tree().spec_nodes();
        &&& self.spec_tree().well_formed()
        &&& ((self.spec_next() as int) < s.len() ==> reachable_from(
            s,
            self.spec_start(),
            self.spec_next(),
        ))
        &&& forall|j: int|
            0 <= j < self.spec_stack().len() ==> (((#[trigger] self.spec_stack()[j]) as int)
                < s.len() ==> reachable_from(s, self.spec_start(), self.spec_stack()[j]))
    }

    /// Create the cursor at the given handle.
    pub fn new(tree: &'a Tree<C>, initial_node: usize) -> (r: Self)
        requires
            tree.well_formed(),
        ensures
            r.well_formed(),
            r.spec_tree() == *tree,
            r.spec_stack() == Seq::<usize>::empty(),
            r.spec_next() == initial_node,
            !r.spec_finished(),
            r.spec_start() == initial_node,
    {
        Self {
            tree,
            pila: Vec::new(),
            next: initial_node,
            finished: false,
            start: Ghost(initial_node),
        }
    }

    /// Visit the current handle: yield its node, push its live children
    /// onto the stack right to left — so the leftmost is popped first, and
    /// the tombstones of severed children are skipped — and pop the handle
    /// to visit next. Every yielded handle is reachable from the start.
    pub fn next(&mut self) -> (r: Option<(&'a Node<C>, usize)>)
        requires
            old(self).well_formed(),
        ensures
            final(self).well_formed(),
            final(self).spec_tree() == old(self).spec_tree(),
            final(self).spec_start() == old(self).spec_start(),
            old(self).spec_finished() ==> r is None && *final(self) == *old(self),
            ({
                let s = old(self).spec_tree().spec_nodes();
                let h = old(self).spec_next();
                !old(self).spec_finished() && (h as int) < s.len() ==> {
                    let q2 = old(self).spec_stack() + live_children(
                        s,
                        s[h as int].spec_children().reverse(),
                    );
                    &&& r is Some
                    &&& r.unwrap().1 == h
                    &&& *r.unwrap().0 == s[h as int]
                    &&& reachable_from(s, old(self).spec_start(), h)
                    &&& (q2.len() > 0 ==> final(self).spec_stack() == q2.drop_last() && final(self).spec_next() == q2.last() && !final(self).spec_finished())
                    &&& (q2.len() == 0 ==> final(self).spec_finished() && final(self).spec_stack()
                        == q2 && final(self).spec_next() == old(self).spec_next())
                }
            }),
            !old(self).spec_finished() && (old(self).spec_next() as int) >= old(self).spec_tree().spec_nodes().len() ==> r is None && *final(self) == *old(self),
    {
        if self.finished {
            return None;
        }
        let position = self.next;
        if position < self.tree.get_nodes_len() {
            let node = &self.tree.get_nodes_ref()[position];
            let children = node.get_children_ref();
            let ghost s = self.spec_tree().spec_nodes();
            let ghost start = self.spec_start();
            let ghost rev = children@.reverse();
            let n = children.len();
            let mut ci: usize = 0;
            while ci < n
                invariant
                    n == children@.len(),
                    ci <= n,
                    children@ == s[position as int].spec_children(),
                    rev == children@.reverse(),
                    s == self.spec_tree().spec_nodes(),
                    start == self.spec_start(),
                    self.spec_tree() == old(self).spec_tree(),
                    self.spec_tree().well_formed(),
                    (position as int) < s.len(),
                    reachable_from(s, start, position),
                    self.spec_next() == old(self).spec_next(),
                    self.spec_finished() == old(self).spec_finished(),
                    self.spec_stack() == old(self).spec_stack() + live_children(
                        s,
                        rev.take(ci as int),
                    ),
                    forall|j: int|
                        0 <= j < self.spec_stack().len() ==> (((
                        #[trigger] self.spec_stack()[j]) as int) < s.len() ==> reachable_from(
                            s,
                            start,
                            self.spec_stack()[j],
                        )),
                decreases n - ci,
            {
                let c = children[n - 1 - ci];
                proof {
                    assert(rev[ci as int] == children@[n - 1 - ci as int]);
                    assert(rev.take(ci as int + 1).drop_last() =~= rev.take(ci as int));
                    assert(rev.take(ci as int + 1).last() == c);
                    if (c as int) < s.len() {
                        self.tree.lemma_len_bounded();
                        assert(node_slot_ok(s, position as int));
                        assert(child_ok(s, position as int, n - 1 - ci as int));
                        assert(c != usize::MAX);
                        lemma_reachable_child(s, start, position, n - 1 - ci as int);
                        assert((old(self).spec_stack() + live_children(
                            s,
                            rev.take(ci as int),
                        )).push(c) =~= old(self).spec_stack() + live_children(
                            s,
                            rev.take(ci as int),
                        ).push(c));
                    }
                }
                if c < self.tree.get_nodes_len() {
                    self.pila.push(c);
                }
                ci += 1;
            }
            proof {
                assert(rev.take(n as int) =~= rev);
            }
            match self.pila.pop() {
                Some(next_node_index) => {
                    self.next = next_node_index;
                },
                None => {
                    self.finished = true;
                },
            }
            Some((node, position))
        } else {
            None
        }
    }
}

/// An inverse pre-order depth-first cursor: each node comes before its
/// children, children right to left.
pub struct InvPreDfsIter<'a, C: NodeContent = RawNode> {
    tree: &'a Tree<C>,
    pila: Vec<usize>,
    next: usize,
    finished: bool,
    start: Ghost<usize>,
}

impl<'a, C: NodeContent> InvPreDfsIter<'a, C> {
    /// The tree this cursor walks.
    pub closed spec fn spec_tree(&self) -> Tree<C> {
        *self.tree
    }

    /// The stack of handles waiting to be visited.
    pub closed spec fn spec_stack(&self) -> Seq<usize> {
        self.pila@
    }

    /// The handle the next call will visit.
    pub closed spec fn spec_next(&self) -> usize {
        self.next
    }

    /// Whether the walk is over.
    pub closed spec fn spec_finished(&self) -> bool {
        self.finished
    }

    /// The handle the walk started from.
    pub closed spec fn spec_start(&self) -> usize {
        self.start@
    }

    /// The cursor's invariant: the tree is coherent and every handle the
    /// cursor may still visit is reachable from the start through live
    /// child arcs.
    pub closed spec fn well_formed(&self) -> bool {
        let s = self.spec_tree().spec_nodes();
        &&& self.spec_tree().well_formed()
        &&& ((self.spec_next() as int) < s.len() ==> reachable_from(
            s,
            self.spec_start(),
            self.spec_next(),
        ))
        &&& forall|j: int|
            0 <= j < self.spec_stack().len() ==> (((#[trigger] self.spec_stack()[j]) as int)
                < s.len() ==> reachable_from(s, self.spec_start(), self.spec_stack()[j]))
    }

    /// Create the cursor at the given handle.
    pub fn new(tree: &'a Tree<C>, initial_node: usize) -> (r: Self)
        requires
            tree.well_formed(),
        ensures
            r.well_formed(),
            r.spec_tree() == *tree,
            r.spec_stack() == Seq::<usize>::empty(),
            r.spec_next() == initial_node,
            !r.spec_finished(),
            r.spec_start() == initial_node,
    {
        Self {
            tree,
            pila: Vec::new(),
            next: initial_node,
            finished: false,
            start: Ghost(initial_node),
        }
    }

    /// Visit the current handle: yield its node, push its live children
    /// onto the stack left to right — so the rightmost is popped first, and
    /// the tombstones of severed children are skipped — and pop the handle
    /// to visit next, as the forward pre-order cursor does.
    pub fn next(&mut self) -> (r: Option<(&'a Node<C>, usize)>)
        requires
            old(self).well_formed(),
        ensures
            final(self).well_formed(),
            final(self).spec_tree() == old(self).spec_tree(),
            final(self).spec_start() == old(self).spec_start(),
            old(self).spec_finished() ==> r is None && *final(self) == *old(self),
            ({
                let s = old(self).spec_tree().spec_nodes();
                let h = old(self).spec_next();
                !old(self).spec_finished() && (h as int) < s.len() ==> {
                    let q2 = old(self).spec_stack() + live_children(
                        s,
                        s[h as int].spec_children(),
                    );
                    &&& r is Some
                    &&& r.unwrap().1 == h
                    &&& *r.unwrap().0 == s[h as int]
                    &&& reachable_from(s, old(self).spec_start(), h)
                    &&& (q2.len() > 0 ==> final(self).spec_stack() == q2.drop_last() && final(self).spec_next() == q2.last() && !final(self).spec_finished())
                    &&& (q2.len() == 0 ==> final(self).spec_finished() && final(self).spec_stack()
                        == q2 && final(self).spec_next() == old(self).spec_next())
                }
            }),
            !old(self).spec_finished() && (old(self).spec_next() as int) >= old(self).spec_tree().spec_nodes().len() ==> r is None && *final(self) == *old(self),
    {
        if self.finished {
            return None;
        }
        let position = self.next;
        if position < self.tree.get_nodes_len() {
            let node = &self.tree.get_nodes_ref()[position];
            let children = node.get_children_ref();
            let ghost s = self.spec_tree().spec_nodes();
            let ghost start = self.spec_start();
            let n = children.len();
            let mut ci: usize = 0;
            while ci < n
                invariant
                    n == children@.len(),
                    ci <= n,
                    children@ == s[position as int].spec_children(),
                    s == self.spec_tree().spec_nodes(),
                    start == self.spec_start(),
                    self.spec_tree() == old(self).spec_tree(),
                    self.spec_tree().well_formed(),
                    (position as int) < s.len(),
                    reachable_from(s, start, position),
                    self.spec_next() == old(self).spec_next(),
                    self.spec_finished() == old(self).spec_finished(),
                    self.spec_stack() == old(self).spec_stack() + live_children(
                        s,
                        children@.take(ci as int),
                    ),
                    forall|j: int|
                        0 <= j < self.spec_stack().len() ==> (((
                        #[trigger] self.spec_stack()[j]) as int) < s.len() ==> reachable_from(
                            s,
                            start,
                            self.spec_stack()[j],
                        )),
                decreases n - ci,
            {
                let c = children[ci];
                proof {
                    assert(children@.take(ci as int + 1).drop_last() =~= children@.take(
                        ci as int,
                    ));
                    assert(children@.take(ci as int + 1).last() == c);
                    if (c as int) < s.len() {
                        self.tree.lemma_len_bounded();
                        assert(node_slot_ok(s, position as int));
                        assert(child_ok(s, position as int, ci as int));
                        assert(c != usize::MAX);
                        lemma_reachable_child(s, start, position, ci as int);
                        assert((old(self).spec_stack() + live_children(
                            s,
                            children@.take(ci as int),
                        )).push(c) =~= old(self).spec_stack() + live_children(
                            s,
                            children@.take(ci as int),
                        ).push(c));
                    }
                }
                if c < self.tree.get_nodes_len() {
                    self.pila.push(c);
                }
                ci += 1;
            }
            proof {
                assert(children@.take(n as int) =~= children@);
            }
            match self.pila.pop() {
                Some(next_node_index) => {
                    self.next = next_node_index;
                },
                None => {
                    self.finished = true;
                },
            }
            Some((node, position))
        } else {
            None
        }
    }
}

/// The termination gauge of a post-order walk: the distance from the
/// handle on top of the stack to the end of the arena. Every descent of
/// the walk moves to a strictly larger handle, so the gauge shrinks.
pub open spec fn post_gauge<C: NodeContent>(s: Seq<Node<C>>, st: Seq<(usize, bool)>) -> int {
    if st.len() > 0 && (st.last().0 as int) < s.len() {
        s.len() - st.last().0
    } else {
        0
    }
}

/// A sequence of handles tagged as still waiting for their children walk.
pub open spec fn tag_stack(cs: Seq<usize>) -> Seq<(usize, bool)> {
    cs.map_values(|c: usize| (c, true))
}

/// Every live child is inside the arena and stands somewhere in the
/// children array it was taken from.
pub proof fn lemma_live_children_bounds<C: NodeContent>(s: Seq<Node<C>>, cs: Seq<usize>)
    ensures
        forall|j: int|
            0 <= j < live_children(s, cs).len() ==> ((#[trigger] live_children(s, cs)[j]) as int)
                < s.len() && exists|k: int| 0 <= k < cs.len() && cs[k] == live_children(s, cs)[j],
    decreases cs.len(),
{
    if cs.len() > 0 {
        lemma_live_children_bounds(s, cs.drop_last());
        let lv = live_children(s, cs);
        let rest = live_children(s, cs.drop_last());
        assert forall|j: int|
            0 <= j < lv.len() implies ((#[trigger] lv[j]) as int) < s.len() && exists|k: int|
            0 <= k < cs.len() && cs[k] == lv[j] by {
            if j < rest.len() {
                assert(rest[j] == lv[j]);
                let k0 = choose|k0: int| 0 <= k0 < cs.drop_last().len() && cs.drop_last()[k0]
                    == rest[j];
                assert(cs[k0] == lv[j]);
            } else {
                assert(lv[j] == cs.last());
                assert(cs[cs.len() - 1] == lv[j]);
            }
        }
    }
}

/// One step of the post-order machine: a waiting handle outside the arena
/// ends the walk; a handle whose children were already walked, or with no
/// live children, is yielded; otherwise the handle is re-pushed below its
/// live children — right to left, tombstones skipped — and the machine
/// steps again from the deeper stack.
pub open spec fn post_step<C: NodeContent>(s: Seq<Node<C>>, st: Seq<(usize, bool)>) -> (
    Option<usize>,
    Seq<(usize, bool)>,
)
    decreases post_gauge(s, st),
{
    if st.len() == 0 {
        (None::<usize>, st)
    } else {
        let h = st.last().0;
        let flag = st.last().1;
        let rest = st.drop_last();
        if (h as int) >= s.len() {
            (None::<usize>, rest)
        } else if !flag {
            (Some(h), rest)
        } else {
            let tags = tag_stack(live_children(s, s[h as int].spec_children().reverse()));
            if tags.len() == 0 {
                (Some(h), rest)
            } else {
                let st2 = rest.push((h, false)) + tags;
                if post_gauge(s, st2) < post_gauge(s, st) {
                    post_step(s, st2)
                } else {
                    (None::<usize>, st2)
                }
            }
        }
    }
}

/// One step of the inverse post-order machine, as `post_step` but with the
/// live children pushed left to right, so the rightmost subtree is walked
/// first.
pub open spec fn inv_post_step<C: NodeContent>(s: Seq<Node<C>>, st: Seq<(usize, bool)>) -> (
    Option<usize>,
    Seq<(usize, bool)>,
)
    decreases post_gauge(s, st),
{
    if st.len() == 0 {
        (None::<usize>, st)
    } else {
        let h = st.last().0;
        let flag = st.last().1;
        let rest = st.drop_last();
        if (h as int) >= s.len() {
            (None::<usize>, rest)
        } else if !flag {
            (Some(h), rest)
        } else {
            let tags = tag_stack(live_children(s, s[h as int].spec_children()));
            if tags.len() == 0 {
                (Some(h), rest)
            } else {
                let st2 = rest.push((h, false)) + tags;
                if post_gauge(s, st2) < post_gauge(s, st) {
                    inv_post_step(s, st2)
                } else {
                    (None::<usize>, st2)
                }
            }
        }
    }
}

/// A post-order depth-first cursor: each node comes after its children,
/// children left to right, through live child arcs only.
pub struct PostDfsIter<'a, C: NodeContent = RawNode> {
    tree: &'a Tree<C>,
    pila: Vec<(usize, bool)>,
    start: Ghost<usize>,
}

impl<'a, C: NodeContent> PostDfsIter<'a, C> {
    /// The tree this cursor walks.
    pub closed spec fn spec_tree(&self) -> Tree<C> {
        *self.tree
    }

    /// The stack of the walk: a handle tagged `true` still has to have its
    /// children visited; one tagged `false` only waits to be yielded.
    pub closed spec fn spec_stack(&self) -> Seq<(usize, bool)> {
        self.pila@
    }

    /// The handle the walk started from.
    pub closed spec fn spec_start(&self) -> usize {
        self.start@
    }

    /// The cursor's invariant: the tree is coherent and every handle on
    /// the stack is reachable from the start through live child arcs.
    pub closed spec fn well_formed(&self) -> bool {
        let s = self.spec_tree().spec_nodes();
        &&& self.spec_tree().well_formed()
        &&& forall|j: int|
            0 <= j < self.spec_stack().len() ==> (((#[trigger] self.spec_stack()[j].0) as int)
                < s.len() ==> reachable_from(s, self.spec_start(), self.spec_stack()[j].0))
    }

    /// Create the cursor at the given handle.
    pub fn new(tree: &'a Tree<C>, initial_node: usize) -> (r: Self)
        requires
            tree.well_formed(),
        ensures
            r.well_formed(),
            r.spec_tree() == *tree,
            r.spec_stack() == seq![(initial_node, true)],
            r.spec_start() == initial_node,
    {
        let mut pila: Vec<(usize, bool)> = Vec::new();
        pila.push((initial_node, true));
        Self { tree, pila, start: Ghost(initial_node) }
    }

    /// Yield the next handle in post-order: the cursor takes exactly the
    /// steps of `post_step`. A handle whose children were already walked is
    /// yielded; so is one without live children; otherwise the walk
    /// descends into the leftmost live subtree, skipping the tombstones of
    /// severed children. Every yielded handle is reachable from the start.
    pub fn next(&mut self) -> (r: Option<(&'a Node<C>, usize)>)
        requires
            old(self).well_formed(),
        ensures
            final(self).well_formed(),
            final(self).spec_tree() == old(self).spec_tree(),
            final(self).spec_start() == old(self).spec_start(),
            ({
                let s = old(self).spec_tree().spec_nodes();
                let step = post_step(s, old(self).spec_stack());
                &&& final(self).spec_stack() == step.1
                &&& (match r {
                    Some(pair) => step.0 == Some(pair.1),
                    None => step.0 is None,
                })
                &&& (r matches Some(pair) ==> (pair.1 as int) < s.len() && *pair.0 == s[
                    pair.1 as int
                ] && reachable_from(s, old(self).spec_start(), pair.1))
            }),
        decreases post_gauge(old(self).spec_tree().spec_nodes(), old(self).spec_stack()),
    {
        let ghost st0 = self.spec_stack();
        match self.pila.pop() {
            Some(next_node_tuple) => {
                let position = next_node_tuple.0;
                let push_children = next_node_tuple.1;
                if position < self.tree.get_nodes_len() {
                    let node = &self.tree.get_nodes_ref()[position];
                    if !push_children {
                        return Some((node, position));
                    }
                    let children = node.get_children_ref();
                    let n = children.len();
                    let ghost s = self.spec_tree().spec_nodes();
                    let ghost start = self.spec_start();
                    let ghost rev = children@.reverse();
                    let ghost base = st0.drop_last().push((position, false));
                    self.pila.push((position, false));
                    let base_len = self.pila.len();
                    proof {
                        assert(self.spec_stack() =~= base);
                        assert(base_len == base.len());
                        assert(base + tag_stack(live_children(s, rev.take(0))) =~= base);
                    }
                    let mut ci: usize = 0;
                    while ci < n
                        invariant
                            n == children@.len(),
                            ci <= n,
                            children@ == s[position as int].spec_children(),
                            rev == children@.reverse(),
                            s == self.spec_tree().spec_nodes(),
                            start == self.spec_start(),
                            self.spec_tree() == old(self).spec_tree(),
                            self.spec_tree().well_formed(),
                            (position as int) < s.len(),
                            reachable_from(s, start, position),
                            self.spec_stack() == base + tag_stack(
                                live_children(s, rev.take(ci as int)),
                            ),
                            forall|j: int|
                                0 <= j < self.spec_stack().len() ==> (((
                                #[trigger] self.spec_stack()[j].0) as int) < s.len()
                                    ==> reachable_from(s, start, self.spec_stack()[j].0)),
                        decreases n - ci,
                    {
                        let c = children[n - 1 - ci];
                        proof {
                            assert(rev[ci as int] == children@[n - 1 - ci as int]);
                            assert(rev.take(ci as int + 1).drop_last() =~= rev.take(ci as int));
                            assert(rev.take(ci as int + 1).last() == c);
                            if (c as int) < s.len() {
                                self.tree.lemma_len_bounded();
                                assert(node_slot_ok(s, position as int));
                                assert(child_ok(s, position as int, n - 1 - ci as int));
                                assert(c != usize::MAX);
                                lemma_reachable_child(s, start, position, n - 1 - ci as int);
                                assert(tag_stack(live_children(s, rev.take(ci as int + 1)))
                                    =~= tag_stack(live_children(s, rev.take(ci as int))).push(
                                    (c, true),
                                ));
                                assert((base + tag_stack(
                                    live_children(s, rev.take(ci as int)),
                                )).push((c, true)) =~= base + tag_stack(
                                    live_children(s, rev.take(ci as int)),
                                ).push((c, true)));
                            }
                        }
                        if c < self.tree.get_nodes_len() {
                            self.pila.push((c, true));
                        }
                        ci += 1;
                    }
                    proof {
                        assert(rev.take(n as int) =~= rev);
                    }
                    if self.pila.len() == base_len {
                        // No live children: retract the waiting entry and
                        // yield the node itself.
                        let _ = self.pila.pop();
                        proof {
                            assert(tag_stack(live_children(s, rev)).len() == 0);
                            assert(base + tag_stack(live_children(s, rev)) =~= base);
                            assert(self.spec_stack() =~= st0.drop_last());
                        }
                        return Some((node, position));
                    }
                    proof {
                        let tags = tag_stack(live_children(s, rev));
                        let lv = live_children(s, rev);
                        assert(tags.len() > 0 && lv.len() > 0);
                        assert(self.spec_stack().last() == tags.last());
                        assert(tags.last() == (lv.last(), true));
                        lemma_live_children_bounds(s, rev);
                        assert((lv.last() as int) < s.len());
                        let k = choose|k: int| 0 <= k < rev.len() && rev[k] == lv[lv.len() - 1];
                        assert(children@[n - 1 - k] == lv.last());
                        self.tree.lemma_len_bounded();
                        assert(node_slot_ok(s, position as int));
                        assert(child_ok(s, position as int, n - 1 - k));
                        assert(lv.last() != usize::MAX);
                        assert(position < lv.last());
                        assert(post_gauge(s, self.spec_stack()) < post_gauge(s, st0));
                        assert(post_step(s, st0) == post_step(s, self.spec_stack()));
                    }
                    return self.next();
                } else {
                    proof {
                        assert(self.spec_stack() =~= st0.drop_last());
                    }
                    return None;
                }
            },
            None => {
                proof {
                    assert(self.spec_stack() =~= st0);
                }
                None
            },
        }
    }
}

/// An inverse post-order depth-first cursor: each node comes after its
/// children, children right to left.
pub struct InvPostDfsIter<'a, C: NodeContent = RawNode> {
    tree: &'a Tree<C>,
    pila: Vec<(usize, bool)>,
    start: Ghost<usize>,
}

impl<'a, C: NodeContent> InvPostDfsIter<'a, C> {
    /// The tree this cursor walks.
    pub closed spec fn spec_tree(&self) -> Tree<C> {
        *self.tree
    }

    /// The stack of the walk: a handle tagged `true` still has to have its
    /// children visited; one tagged `false` only waits to be yielded.
    pub closed spec fn spec_stack(&self) -> Seq<(usize, bool)> {
        self.pila@
    }

    /// The handle the walk started from.
    pub closed spec fn spec_start(&self) -> usize {
        self.start@
    }

    /// The cursor's invariant: the tree is coherent and every handle on
    /// the stack is reachable from the start through live child arcs.
    pub closed spec fn well_formed(&self) -> bool {
        let s = self.spec_tree().spec_nodes();
        &&& self.spec_tree().well_formed()
        &&& forall|j: int|
            0 <= j < self.spec_stack().len() ==> (((#[trigger] self.spec_stack()[j].0) as int)
                < s.len() ==> reachable_from(s, self.spec_start(), self.spec_stack()[j].0))
    }

    /// Create the cursor at the given handle.
    pub fn new(tree: &'a Tree<C>, initial_node: usize) -> (r: Self)
        requires
            tree.well_formed(),
        ensures
            r.well_formed(),
            r.spec_tree() == *tree,
            r.spec_stack() == seq![(initial_node, true)],
            r.spec_start() == initial_node,
    {
        let mut pila: Vec<(usize, bool)> = Vec::new();
        pila.push((initial_node, true));
        Self { tree, pila, start: Ghost(initial_node) }
    }

    /// Yield the next handle in inverse post-order: the cursor takes
    /// exactly the steps of `inv_post_step`, descending into the rightmost
    /// live subtree first and skipping the tombstones of severed children.
    /// Every yielded handle is reachable from the start.
    pub fn next(&mut self) -> (r: Option<(&'a Node<C>, usize)>)
        requires
            old(self).well_formed(),
        ensures
            final(self).well_formed(),
            final(self).spec_tree() == old(self).spec_tree(),
            final(self).spec_start() == old(self).spec_start(),
            ({
                let s = old(self).spec_tree().spec_nodes();
                let step = inv_post_step(s, old(self).spec_stack());
                &&& final(self).spec_stack() == step.1
                &&& (match r {
                    Some(pair) => step.0 == Some(pair.1),
                    None => step.0 is None,
                })
                &&& (r matches Some(pair) ==> (pair.1 as int) < s.len() && *pair.0 == s[
                    pair.1 as int
                ] && reachable_from(s, old(self).spec_start(), pair.1))
            }),
        decreases post_gauge(old(self).spec_tree().spec_nodes(), old(self).spec_stack()),
    {
        let ghost st0 = self.spec_stack();
        match self.pila.pop() {
            Some(next_node_tuple) => {
                let position = next_node_tuple.0;
                let push_children = next_node_tuple.1;
                if position < self.tree.get_nodes_len() {
                    let node = &self.tree.get_nodes_ref()[position];
                    if !push_children {
                        return Some((node, position));
                    }
                    let children = node.get_children_ref();
                    let n = children.len();
                    let ghost s = self.spec_tree().spec_nodes();
                    let ghost start = self.spec_start();
                    let ghost base = st0.drop_last().push((position, false));
                    self.pila.push((position, false));
                    let base_len = self.pila.len();
                    proof {
                        assert(self.spec_stack() =~= base);
                        assert(base_len == base.len());
                        assert(base + tag_stack(live_children(s, children@.take(0))) =~= base);
                    }
                    let mut ci: usize = 0;
                    while ci < n
                        invariant
                            n == children@.len(),
                            ci <= n,
                            children@ == s[position as int].spec_children(),
                            s == self.spec_tree().spec_nodes(),
                            start == self.spec_start(),
                            self.spec_tree() == old(self).spec_tree(),
                            self.spec_tree().well_formed(),
                            (position as int) < s.len(),
                            reachable_from(s, start, position),
                            self.spec_stack() == base + tag_stack(
                                live_children(s, children@.take(ci as int)),
                            ),
                            forall|j: int|
                                0 <= j < self.spec_stack().len() ==> (((
                                #[trigger] self.spec_stack()[j].0) as int) < s.len()
                                    ==> reachable_from(s, start, self.spec_stack()[j].0)),
                        decreases n - ci,
                    {
                        let c = children[ci];
                        proof {
                            assert(children@.take(ci as int + 1).drop_last() =~= children@.take(
                                ci as int,
                            ));
                            assert(children@.take(ci as int + 1).last() == c);
                            if (c as int) < s.len() {
                                self.tree.lemma_len_bounded();
                                assert(node_slot_ok(s, position as int));
                                assert(child_ok(s, position as int, ci as int));
                                assert(c != usize::MAX);
                                lemma_reachable_child(s, start, position, ci as int);
                                assert(tag_stack(
                                    live_children(s, children@.take(ci as int + 1)),
                                ) =~= tag_stack(
                                    live_children(s, children@.take(ci as int)),
                                ).push((c, true)));
                                assert((base + tag_stack(
                                    live_children(s, children@.take(ci as int)),
                                )).push((c, true)) =~= base + tag_stack(
                                    live_children(s, children@.take(ci as int)),
                                ).push((c, true)));
                            }
                        }
                        if c < self.tree.get_nodes_len() {
                            self.pila.push((c, true));
                        }
                        ci += 1;
                    }
                    proof {
                        assert(children@.take(n as int) =~= children@);
                    }
                    if self.pila.len() == base_len {
                        // No live children: retract the waiting entry and
                        // yield the node itself.
                        let _ = self.pila.pop();
                        proof {
                            assert(tag_stack(live_children(s, children@)).len() == 0);
                            assert(base + tag_stack(live_children(s, children@)) =~= base);
                            assert(self.spec_stack() =~= st0.drop_last());
                        }
                        return Some((node, position));
                    }
                    proof {
                        let tags = tag_stack(live_children(s, children@));
                        let lv = live_children(s, children@);
                        assert(tags.len() > 0 && lv.len() > 0);
                        assert(self.spec_stack().last() == tags.last());
                        assert(tags.last() == (lv.last(), true));
                        lemma_live_children_bounds(s, children@);
                        assert((lv.last() as int) < s.len());
                        let k = choose|k: int|
                            0 <= k < children@.len() && children@[k] == lv[lv.len() - 1];
                        self.tree.lemma_len_bounded();
                        assert(node_slot_ok(s, position as int));
                        assert(child_ok(s, position as int, k));
                        assert(lv.last() != usize::MAX);
                        assert(position < lv.last());
                        assert(post_gauge(s, self.spec_stack()) < post_gauge(s, st0));
                        assert(inv_post_step(s, st0) == inv_post_step(s, self.spec_stack()));
                    }
                    return self.next();
                } else {
                    proof {
                        assert(self.spec_stack() =~= st0.drop_last());
                    }
                    return None;
                }
            },
            None => {
                proof {
                    assert(self.spec_stack() =~= st0);
                }
                None
            },
        }
    }
}

/// The work left in one stack entry `(n, c)` of an in-order walk: the
/// entry itself, plus the subtrees of the children of `n` from slot `c`
/// on, each weighted by its own remaining work.
pub open spec fn entry_weight<C: NodeContent>(s: Seq<Node<C>>, n: usize, c: int) -> nat
    decreases s.len() - n, s[n as int].spec_children().len() - c,
{
    if (n as int) >= s.len() {
        1
    } else if c < 0 || c >= s[n as int].spec_children().len() {
        1
    } else {
        let ch = s[n as int].spec_children()[c];
        entry_weight(s, n, c + 1) + (if n < ch && (ch as int) < s.len() {
            1 + entry_weight(s, ch, 0)
        } else {
            1
        })
    }
}

/// The work left in a whole in-order stack.
pub open spec fn stack_weight<C: NodeContent>(s: Seq<Node<C>>, st: Seq<(usize, usize)>) -> nat
    decreases st.len(),
{
    if st.len() == 0 {
        0
    } else {
        stack_weight(s, st.drop_last()) + entry_weight(s, st.last().0, st.last().1 as int)
    }
}

/// One step of the in-order machine over a stack of (handle, next child
/// slot) entries: a handle outside the arena ends the walk; a node is
/// yielded when it comes back from its first child slot or when it is a
/// leaf; otherwise the machine descends into the next slot's subtree —
/// skipping the tombstone of a severed child — or discards a finished
/// entry, and steps again.
pub open spec fn in_step<C: NodeContent>(s: Seq<Node<C>>, st: Seq<(usize, usize)>) -> (
    Option<usize>,
    Seq<(usize, usize)>,
)
    decreases stack_weight(s, st),
{
    if st.len() == 0 {
        (None::<usize>, st)
    } else {
        let h = st.last().0;
        let c = st.last().1;
        let rest = st.drop_last();
        if (h as int) >= s.len() {
            (None::<usize>, rest)
        } else {
            let cs = s[h as int].spec_children();
            if c == 1 {
                if cs.len() > 1 && (cs[1] as int) < s.len() {
                    (Some(h), rest.push((h, 2usize)).push((cs[1], 0usize)))
                } else if cs.len() > 1 {
                    (Some(h), rest.push((h, 2usize)))
                } else {
                    (Some(h), rest)
                }
            } else if c == 0 && cs.len() == 0 {
                (Some(h), rest)
            } else if (c as int) < cs.len() {
                let st2 = if (cs[c as int] as int) < s.len() {
                    rest.push((h, (c + 1) as usize)).push((cs[c as int], 0usize))
                } else {
                    rest.push((h, (c + 1) as usize))
                };
                if stack_weight(s, st2) < stack_weight(s, st) {
                    in_step(s, st2)
                } else {
                    (None::<usize>, st2)
                }
            } else {
                if stack_weight(s, rest) < stack_weight(s, st) {
                    in_step(s, rest)
                } else {
                    (None::<usize>, rest)
                }
            }
        }
    }
}

/// An in-order depth-first cursor, generalized to n-ary trees: a node is
/// visited after its first child slot's subtree and before its remaining
/// children's subtrees; a leaf is visited outright; the tombstones of
/// severed children are skipped.
pub struct InDfsIter<'a, C: NodeContent = RawNode> {
    tree: &'a Tree<C>,
    // An entry holds a handle and the slot of its next child to descend into.
    pila: Vec<(usize, usize)>,
    start: Ghost<usize>,
}

impl<'a, C: NodeContent> InDfsIter<'a, C> {
    /// The tree this cursor walks.
    pub closed spec fn spec_tree(&self) -> Tree<C> {
        *self.tree
    }

    /// The stack of the walk: each entry is a handle and the slot of its
    /// next child to descend into.
    pub closed spec fn spec_stack(&self) -> Seq<(usize, usize)> {
        self.pila@
    }

    /// The handle the walk started from.
    pub closed spec fn spec_start(&self) -> usize {
        self.start@
    }

    /// The cursor's invariant: the tree is coherent and every handle on
    /// the stack is reachable from the start through live child arcs.
    pub closed spec fn well_formed(&self) -> bool {
        let s = self.spec_tree().spec_nodes();
        &&& self.spec_tree().well_formed()
        &&& forall|j: int|
            0 <= j < self.spec_stack().len() ==> (((#[trigger] self.spec_stack()[j].0) as int)
                < s.len() ==> reachable_from(s, self.spec_start(), self.spec_stack()[j].0))
    }

    /// Create the cursor at the given handle.
    pub fn new(tree: &'a Tree<C>, initial_node: usize) -> (r: Self)
        requires
            tree.well_formed(),
        ensures
            r.well_formed(),
            r.spec_tree() == *tree,
            r.spec_stack() == seq![(initial_node, 0usize)],
            r.spec_start() == initial_node,
    {
        let mut pila: Vec<(usize, usize)> = Vec::new();
        pila.push((initial_node, 0));
        Self { tree, pila, start: Ghost(initial_node) }
    }

    /// Yield the next handle in in-order: the cursor takes exactly the
    /// steps of `in_step`. The walk descends leftward until it meets a
    /// leaf, yields a node when it comes back from its first child slot,
    /// and descends into each remaining subtree after the node itself,
    /// skipping the tombstones of severed children. Every yielded handle
    /// is reachable from the start.
    pub fn next(&mut self) -> (r: Option<(&'a Node<C>, usize)>)
        requires
            old(self).well_formed(),
        ensures
            final(self).well_formed(),
            final(self).spec_tree() == old(self).spec_tree(),
            final(self).spec_start() == old(self).spec_start(),
            ({
                let s = old(self).spec_tree().spec_nodes();
                let step = in_step(s, old(self).spec_stack());
                &&& final(self).spec_stack() == step.1
                &&& (match r {
                    Some(pair) => step.0 == Some(pair.1),
                    None => step.0 is None,
                })
                &&& (r matches Some(pair) ==> (pair.1 as int) < s.len() && *pair.0 == s[
                    pair.1 as int
                ] && reachable_from(s, old(self).spec_start(), pair.1))
            }),
    {
        let ghost s = self.spec_tree().spec_nodes();
        let ghost start = self.spec_start();
        proof {
            self.tree.lemma_len_bounded();
        }
        loop
            invariant
                s == self.spec_tree().spec_nodes(),
                start == self.spec_start(),
                start == old(self).spec_start(),
                s.len() <= usize::MAX,
                self.spec_tree() == old(self).spec_tree(),
                self.spec_tree().well_formed(),
                in_step(s, old(self).spec_stack()) == in_step(s, self.spec_stack()),
                forall|j: int|
                    0 <= j < self.spec_stack().len() ==> (((
                    #[trigger] self.spec_stack()[j].0) as int) < s.len() ==> reachable_from(
                        s,
                        start,
                        self.spec_stack()[j].0,
                    )),
            decreases stack_weight(s, self.spec_stack()),
        {
            let ghost st0 = self.spec_stack();
            match self.pila.pop() {
                None => {
                    proof {
                        assert(self.spec_stack() =~= st0);
                    }
                    return None;
                },
                Some(entry) => {
                    let node_index = entry.0;
                    let child = entry.1;
                    proof {
                        assert(self.spec_stack() =~= st0.drop_last());
                    }
                    if node_index >= self.tree.get_nodes_len() {
                        return None;
                    }
                    let node = &self.tree.get_nodes_ref()[node_index];
                    let children = node.get_children_ref();
                    let nc = children.len();
                    proof {
                        assert(reachable_from(s, start, node_index));
                        assert(children@ == s[node_index as int].spec_children());
                    }
                    if child == 1 {
                        if nc > 1 {
                            self.pila.push((node_index, 2));
                            let ch = children[1];
                            if ch < self.tree.get_nodes_len() {
                                proof {
                                    assert(node_slot_ok(s, node_index as int));
                                    assert(child_ok(s, node_index as int, 1));
                                    assert(ch != usize::MAX);
                                    lemma_reachable_child(s, start, node_index, 1);
                                }
                                self.pila.push((ch, 0));
                            }
                        }
                        return Some((node, node_index));
                    } else if child == 0 && nc == 0 {
                        return Some((node, node_index));
                    } else if child < nc {
                        let ch = children[child];
                        proof {
                            assert(node_slot_ok(s, node_index as int));
                            assert(child_ok(s, node_index as int, child as int));
                            assert(node_index < ch);
                        }
                        self.pila.push((node_index, child + 1));
                        if ch < self.tree.get_nodes_len() {
                            proof {
                                assert(ch != usize::MAX);
                                lemma_reachable_child(s, start, node_index, child as int);
                            }
                            self.pila.push((ch, 0));
                        }
                        proof {
                            let rest = st0.drop_last();
                            assert(st0 =~= rest.push((node_index, child)));
                            if (ch as int) < s.len() {
                                assert(self.spec_stack() =~= rest.push(
                                    (node_index, (child + 1) as usize),
                                ).push((ch, 0usize)));
                            } else {
                                assert(self.spec_stack() =~= rest.push(
                                    (node_index, (child + 1) as usize),
                                ));
                            }
                            lemma_stack_weight_descend(s, rest, node_index, child as int);
                        }
                    } else {
                        // A finished interior entry: nothing left to descend
                        // into and the node was already yielded.
                        proof {
                            let rest = st0.drop_last();
                            assert(self.spec_stack() =~= rest);
                            assert(entry_weight(s, node_index, child as int) == 1);
                            assert(stack_weight(s, st0) == stack_weight(s, rest) + 1);
                        }
                    }
                },
            }
        }
    }
}

/// One in-order descent rewrites the stack top `(n, c)` into
/// `(n, c + 1), (child, 0)` when the child is live, and into `(n, c + 1)`
/// alone when its slot holds a tombstone; either way the stack's weight
/// strictly shrinks.
proof fn lemma_stack_weight_descend<C: NodeContent>(
    s: Seq<Node<C>>,
    rest: Seq<(usize, usize)>,
    n: usize,
    c: int,
)
    requires
        (n as int) < s.len(),
        0 <= c < s[n as int].spec_children().len(),
        c + 1 <= usize::MAX,
        s.len() <= usize::MAX,
        n < s[n as int].spec_children()[c],
    ensures
        ({
            let ch = s[n as int].spec_children()[c];
            let before = rest.push((n, c as usize));
            &&& (ch as int) < s.len() ==> stack_weight(
                s,
                rest.push((n, (c + 1) as usize)).push((ch, 0usize)),
            ) < stack_weight(s, before)
            &&& (ch as int) >= s.len() ==> stack_weight(
                s,
                rest.push((n, (c + 1) as usize)),
            ) < stack_weight(s, before)
        }),
{
    let ch = s[n as int].spec_children()[c];
    let mid = rest.push((n, (c + 1) as usize));
    let after = mid.push((ch, 0usize));
    let before = rest.push((n, c as usize));
    assert(after.drop_last() =~= mid);
    assert(mid.drop_last() =~= rest);
    assert(before.drop_last() =~= rest);
    assert(((c + 1) as usize) as int == c + 1);
    assert((c as usize) as int == c);
    assert(stack_weight(s, before) == stack_weight(s, rest) + entry_weight(s, n, c));
    assert(stack_weight(s, mid) == stack_weight(s, rest) + entry_weight(s, n, c + 1));
    assert(stack_weight(s, after) == stack_weight(s, mid) + entry_weight(s, ch, 0));
    assert(entry_weight(s, n, c) == entry_weight(s, n, c + 1) + (if n < ch && (ch as int)
        < s.len() {
        1 + entry_weight(s, ch, 0)
    } else {
        1
    }));
}

/// The inverse in-order strategy is not provided: this cursor records its
/// arguments and yields nothing.
pub struct InvInDfsIter<'a, C: NodeContent = RawNode> {
    tree: &'a Tree<C>,
    initial_node: usize,
}

impl<'a, C: NodeContent> InvInDfsIter<'a, C> {
    /// The tree this cursor was created over.
    pub closed spec fn spec_tree(&self) -> Tree<C> {
        *self.tree
    }

    /// The handle this cursor was created at.
    pub closed spec fn spec_initial(&self) -> usize {
        self.initial_node
    }

    /// Create the cursor at the given handle.
    pub fn new(tree: &'a Tree<C>, initial_node: usize) -> (r: Self)
        ensures
            r.spec_tree() == *tree,
            r.spec_initial() == initial_node,
    {
        Self { tree, initial_node }
    }

    /// Yield nothing: the inverse in-order walk is empty.
    pub fn next(&mut self) -> (r: Option<(&'a Node<C>, usize)>)
        ensures
            r is None,
            *final(self) == *old(self),
    {
        None
    }
}

/// A cursor over the raw arena in ascending handle order.
pub struct SequentialIter<'a, C: NodeContent = RawNode> {
    tree: &'a Tree<C>,
    position: usize,
}

impl<'a, C: NodeContent> SequentialIter<'a, C> {
    /// The tree this cursor walks.
    pub closed spec fn spec_tree(&self) -> Tree<C> {
        *self.tree
    }

    /// The handle the next call will yield, when it is in range.
    pub closed spec fn spec_position(&self) -> usize {
        self.position
    }

    /// Create the cursor at the given handle.
    pub fn new(tree: &'a Tree<C>, initial_node: usize) -> (r: Self)
        ensures
            r.spec_tree() == *tree,
            r.spec_position() == initial_node,
    {
        Self { tree, position: initial_node }
    }

    /// Yield the node at the current handle and step one handle up; nothing
    /// is yielded once the handle leaves the arena.
    pub fn next(&mut self) -> (r: Option<(&'a Node<C>, usize)>)
        ensures
            final(self).spec_tree() == old(self).spec_tree(),
            old(self).spec_position() < old(self).spec_tree().spec_nodes().len() ==> {
                &&& r is Some
                &&& r.unwrap().1 == old(self).spec_position()
                &&& *r.unwrap().0 == old(self).spec_tree().spec_nodes()[old(self).spec_position() as int]
                &&& final(self).spec_position() == old(self).spec_position() + 1
            },
            old(self).spec_position() >= old(self).spec_tree().spec_nodes().len() ==> r is None
                && final(self).spec_position() == old(self).spec_position(),
    {
        let position = self.position;
        if position < self.tree.get_nodes_len() {
            let node = &self.tree.get_nodes_ref()[position];
            self.position = position + 1;
            Some((node, position))
        } else {
            None
        }
    }
}

/// A cursor over the raw arena in descending handle order.
pub struct InvSequentialIter<'a, C: NodeContent = RawNode> {
    tree: &'a Tree<C>,
    position: usize,
    finished: bool,
}

impl<'a, C: NodeContent> InvSequentialIter<'a, C> {
    /// The tree this cursor walks.
    pub closed spec fn spec_tree(&self) -> Tree<C> {
        *self.tree
    }

    /// The handle the next call will yield, when it is in range.
    pub closed spec fn spec_position(&self) -> usize {
        self.position
    }

    /// Whether the cursor has walked past handle 0.
    pub closed spec fn spec_finished(&self) -> bool {
        self.finished
    }

    /// Create the cursor at the given handle; the handle `usize::MAX`
    /// stands for the last handle of the arena. On an empty tree the cursor
    /// starts finished.
    pub fn new(tree: &'a Tree<C>, initial_node: usize) -> (r: Self)
        ensures
            r.spec_tree() == *tree,
            tree.spec_nodes().len() == 0 ==> r.spec_finished(),
            tree.spec_nodes().len() > 0 ==> !r.spec_finished() && r.spec_position() == (
            if initial_node == usize::MAX {
                (tree.spec_nodes().len() - 1) as usize
            } else {
                initial_node
            }),
    {
        if tree.get_nodes_len() > 0 {
            Self {
                tree,
                position: if initial_node == usize::MAX {
                    tree.get_nodes_len() - 1
                } else {
                    initial_node
                },
                finished: false,
            }
        } else {
            Self { tree, position: 0, finished: true }
        }
    }

    /// Yield the node at the current handle and step one handle down; the
    /// cursor finishes after handle 0, and yields nothing when the current
    /// handle is out of range.
    pub fn next(&mut self) -> (r: Option<(&'a Node<C>, usize)>)
        ensures
            final(self).spec_tree() == old(self).spec_tree(),
            old(self).spec_finished() ==> r is None && *final(self) == *old(self),
            !old(self).spec_finished() && old(self).spec_position() < old(self).spec_tree().spec_nodes().len() ==> {
                &&& r is Some
                &&& r.unwrap().1 == old(self).spec_position()
                &&& *r.unwrap().0 == old(self).spec_tree().spec_nodes()[old(self).spec_position() as int]
                &&& old(self).spec_position() > 0 ==> final(self).spec_position() == old(self).spec_position() - 1 && !final(self).spec_finished()
                &&& old(self).spec_position() == 0 ==> final(self).spec_finished()
            },
            !old(self).spec_finished() && old(self).spec_position() >= old(self).spec_tree().spec_nodes().len() ==> r is None && *final(self) == *old(self),
    {
        if self.finished {
            return None;
        }
        let position = self.position;
        if position < self.tree.get_nodes_len() {
            let node = &self.tree.get_nodes_ref()[position];
            if position > 0 {
                self.position = position - 1;
            } else {
                self.finished = true;
            }
            Some((node, position))
        } else {
            None
        }
    }
}

/// The first slot of a children array at or after `p` that holds a handle
/// inside the arena; the array length when no such slot is left, and `p`
/// itself when `p` is already past the array.
pub open spec fn next_live_slot<C: NodeContent>(s: Seq<Node<C>>, cs: Seq<usize>, p: int) -> int
    decreases cs.len() - p,
{
    if p < 0 || p >= cs.len() {
        p
    } else if (cs[p] as int) < s.len() {
        p
    } else {
        next_live_slot(s, cs, p + 1)
    }
}

/// A cursor over the immediate children of one node, left to right.
pub struct ChildrenIter<'a, C: NodeContent = RawNode> {
    tree: &'a Tree<C>,
    initial_node: usize,
    pos: usize,
}

impl<'a, C: NodeContent> ChildrenIter<'a, C> {
    /// The tree this cursor walks.
    pub closed spec fn spec_tree(&self) -> Tree<C> {
        *self.tree
    }

    /// The handle of the node whose children are walked.
    pub closed spec fn spec_initial(&self) -> usize {
        self.initial_node
    }

    /// The next slot of the children array to yield.
    pub closed spec fn spec_pos(&self) -> usize {
        self.pos
    }

    /// Create the cursor over the children of the given node.
    pub fn new(tree: &'a Tree<C>, initial_node: usize) -> (r: Self)
        ensures
            r.spec_tree() == *tree,
            r.spec_initial() == initial_node,
            r.spec_pos() == 0,
    {
        Self { tree, initial_node, pos: 0 }
    }

    /// Yield the child in the first live slot at or after the current one
    /// and step past it; the tombstones of severed children are skipped.
    /// The walk ends at the end of the children array, and yields nothing
    /// when the starting handle itself is out of range.
    pub fn next(&mut self) -> (r: Option<(&'a Node<C>, usize)>)
        ensures
            final(self).spec_tree() == old(self).spec_tree(),
            final(self).spec_initial() == old(self).spec_initial(),
            ({
                let s = old(self).spec_tree().spec_nodes();
                let i = old(self).spec_initial() as int;
                let cs = s[i].spec_children();
                let q = next_live_slot(s, cs, old(self).spec_pos() as int);
                if i < s.len() {
                    if q < cs.len() {
                        let c = cs[q];
                        &&& r is Some
                        &&& r.unwrap().1 == c
                        &&& *r.unwrap().0 == s[c as int]
                        &&& final(self).spec_pos() == q + 1
                    } else {
                        r is None && final(self).spec_pos() == q
                    }
                } else {
                    r is None && final(self).spec_pos() == old(self).spec_pos()
                }
            }),
    {
        if self.initial_node < self.tree.get_nodes_len() {
            let children = self.tree.get_nodes_ref()[self.initial_node].get_children_ref();
            let ghost s = self.spec_tree().spec_nodes();
            let ghost p0 = self.spec_pos() as int;
            let n = children.len();
            while self.pos < n && children[self.pos] >= self.tree.get_nodes_len()
                invariant
                    n == children@.len(),
                    s == self.spec_tree().spec_nodes(),
                    children@ == s[self.spec_initial() as int].spec_children(),
                    self.spec_tree() == old(self).spec_tree(),
                    self.spec_initial() == old(self).spec_initial(),
                    p0 == old(self).spec_pos() as int,
                    p0 <= self.spec_pos() as int,
                    next_live_slot(s, children@, p0) == next_live_slot(
                        s,
                        children@,
                        self.spec_pos() as int,
                    ),
                decreases n - self.pos,
            {
                self.pos = self.pos + 1;
            }
            if self.pos < n {
                let child_index = children[self.pos];
                let child = &self.tree.get_nodes_ref()[child_index];
                self.pos = self.pos + 1;
                return Some((child, child_index));
            }
            return None;
        }
        None
    }
}

} // verus!
