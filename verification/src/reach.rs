//! Reachability through live child arcs, and what an unlink does to it.
//!
//! A handle `b` is reachable from `a` when a chain of live children slots
//! (slots not holding the `usize::MAX` tombstone) leads from `a` down to
//! `b`. The tree cursors only ever yield reachable handles, and severing a
//! node makes the node and all its descendants unreachable from the root.

use vstd::prelude::*;

use crate::node::Node;
use crate::node::NodeContent;
use crate::tree::child_ok;
use crate::tree::node_slot_ok;
use crate::tree::nodes_well_formed;

verus! {

/// Whether a chain of live child arcs leads from `a` down to `b`.
pub open spec fn reachable_from<C: NodeContent>(s: Seq<Node<C>>, a: usize, b: usize) -> bool
    decreases s.len() - a,
{
    ||| a == b
    ||| ((a as int) < s.len() && exists|k: int|
        0 <= k < s[a as int].spec_children().len() && {
            let c = #[trigger] s[a as int].spec_children()[k];
            &&& (c as int) < s.len()
            &&& a < c
            &&& reachable_from(s, c, b)
        })
}

/// Whether `b`'s own slot in its parent's children array still holds `b`.
pub open spec fn parent_arc_live<C: NodeContent>(s: Seq<Node<C>>, b: usize) -> bool {
    let p = s[b as int].spec_parent().unwrap() as int;
    let k = s[b as int].spec_pos_in_parent().unwrap() as int;
    &&& (b as int) < s.len()
    &&& s[b as int].spec_parent() is Some
    &&& s[b as int].spec_pos_in_parent() is Some
    &&& k < s[p].spec_children().len()
    &&& s[p].spec_children()[k] == b
}

/// Whether the chain of parent arcs from `b` up to `a` is entirely live.
pub open spec fn uplinked<C: NodeContent>(s: Seq<Node<C>>, a: usize, b: usize) -> bool
    decreases b,
{
    if a == b {
        true
    } else if (b as int) < s.len() && s[b as int].spec_parent() is Some && (s[
        b as int
    ].spec_parent().unwrap() as int) < (b as int) {
        parent_arc_live(s, b) && uplinked(s, a, s[b as int].spec_parent().unwrap())
    } else {
        false
    }
}

/// Reaching a node also reaches each of its live children.
pub proof fn lemma_reachable_child<C: NodeContent>(s: Seq<Node<C>>, a: usize, h: usize, k: int)
    requires
        reachable_from(s, a, h),
        (h as int) < s.len(),
        0 <= k < s[h as int].spec_children().len(),
        (s[h as int].spec_children()[k] as int) < s.len(),
        h < s[h as int].spec_children()[k],
    ensures
        reachable_from(s, a, s[h as int].spec_children()[k]),
    decreases s.len() - a,
{
    let c = s[h as int].spec_children()[k];
    if a == h {
        assert(reachable_from(s, c, c));
        assert(reachable_from(s, a, c));
    } else {
        let k0 = choose|k0: int|
            0 <= k0 < s[a as int].spec_children().len() && {
                let c0 = #[trigger] s[a as int].spec_children()[k0];
                &&& (c0 as int) < s.len()
                &&& a < c0
                &&& reachable_from(s, c0, h)
            };
        let c0 = s[a as int].spec_children()[k0];
        lemma_reachable_child(s, c0, h, k);
        assert(reachable_from(s, a, c));
    }
}

/// In a coherent arena, reaching down to `b` means every parent arc on the
/// way up from `b` is live.
pub proof fn lemma_reachable_implies_uplinked<C: NodeContent>(s: Seq<Node<C>>, a: usize, b: usize)
    requires
        nodes_well_formed(s),
        s.len() <= usize::MAX,
        reachable_from(s, a, b),
    ensures
        uplinked(s, a, b),
    decreases s.len() - a,
{
    if a != b {
        let k = choose|k: int|
            0 <= k < s[a as int].spec_children().len() && {
                let c = #[trigger] s[a as int].spec_children()[k];
                &&& (c as int) < s.len()
                &&& a < c
                &&& reachable_from(s, c, b)
            };
        let c = s[a as int].spec_children()[k];
        assert(node_slot_ok(s, a as int));
        assert(child_ok(s, a as int, k));
        assert(c != usize::MAX);
        assert(parent_arc_live(s, c));
        lemma_reachable_implies_uplinked(s, c, b);
        lemma_uplinked_extend(s, a, c, b);
    }
}

/// A live chain from `b` up to `c` extends by `c`'s own live parent arc.
pub proof fn lemma_uplinked_extend<C: NodeContent>(s: Seq<Node<C>>, a: usize, c: usize, b: usize)
    requires
        uplinked(s, c, b),
        parent_arc_live(s, c),
        s[c as int].spec_parent() == Some(a),
        a < c,
    ensures
        uplinked(s, a, b),
    decreases b,
{
    if a != b {
        if c == b {
            assert(uplinked(s, a, s[b as int].spec_parent().unwrap()));
        } else {
            let pb = s[b as int].spec_parent().unwrap();
            lemma_uplinked_extend(s, a, c, pb);
        }
    }
}

/// In a coherent arena, a fully live chain up from `b` can be walked back
/// down from `a`.
pub proof fn lemma_uplinked_implies_reachable<C: NodeContent>(s: Seq<Node<C>>, a: usize, b: usize)
    requires
        nodes_well_formed(s),
        uplinked(s, a, b),
    ensures
        reachable_from(s, a, b),
    decreases b,
{
    if a != b {
        let p = s[b as int].spec_parent().unwrap();
        let k = s[b as int].spec_pos_in_parent().unwrap() as int;
        lemma_uplinked_implies_reachable(s, a, p);
        lemma_reachable_child(s, a, p, k);
    }
}

/// No handle can be both below a severed arc in the old arena and still
/// reachable from the root in the new one.
proof fn lemma_uplinked_no_cross<C: NodeContent>(
    s: Seq<Node<C>>,
    s2: Seq<Node<C>>,
    h: usize,
    x: usize,
)
    requires
        nodes_well_formed(s),
        s.len() <= usize::MAX,
        s2.len() == s.len(),
        (h as int) < s.len(),
        0 < h,
        s[h as int].spec_parent() is Some,
        forall|i: int| 0 <= i < s.len() ==> #[trigger] s2[i].spec_parent() == s[i].spec_parent(),
        forall|i: int|
            0 <= i < s.len() ==> #[trigger] s2[i].spec_pos_in_parent() == s[i].spec_pos_in_parent(),
        forall|i: int|
            0 <= i < s.len() && i != s[h as int].spec_parent().unwrap() as int ==> #[trigger] s2[
                i
            ].spec_children() == s[i].spec_children(),
        s2[s[h as int].spec_parent().unwrap() as int].spec_children() == s[s[
            h as int
        ].spec_parent().unwrap() as int].spec_children().update(
            s[h as int].spec_pos_in_parent().unwrap() as int,
            usize::MAX,
        ),
        uplinked(s, h, x),
    ensures
        !uplinked(s2, 0, x),
    decreases x,
{
    assert(node_slot_ok(s, h as int));
    if x == h {
        let p = s[h as int].spec_parent().unwrap() as int;
        let k = s[h as int].spec_pos_in_parent().unwrap() as int;
        assert(s2[h as int].spec_parent() == s[h as int].spec_parent());
        assert(s2[p].spec_children()[k] == usize::MAX);
        assert(!parent_arc_live(s2, h));
    } else {
        assert(node_slot_ok(s, 0));
        assert(x != 0);
        let px = s[x as int].spec_parent().unwrap();
        assert(s2[x as int].spec_parent() == s[x as int].spec_parent());
        lemma_uplinked_no_cross(s, s2, h, px);
    }
}

/// Severing is not cascading, yet it prunes the whole subtree: after the
/// parent arc of `h` is tombstoned, every handle that was reachable from
/// `h` — `h` itself and all its descendants — is unreachable from the root,
/// although every node of the subtree still sits untouched in the arena.
/// The new arena may also differ at the parent's child index; nothing else
/// may have changed.
pub proof fn lemma_severed_subtree_unreachable<C: NodeContent>(
    s: Seq<Node<C>>,
    s2: Seq<Node<C>>,
    h: usize,
    x: usize,
)
    requires
        nodes_well_formed(s),
        nodes_well_formed(s2),
        s.len() <= usize::MAX,
        s2.len() == s.len(),
        (h as int) < s.len(),
        s[h as int].spec_parent() is Some,
        forall|i: int| 0 <= i < s.len() ==> #[trigger] s2[i].spec_parent() == s[i].spec_parent(),
        forall|i: int|
            0 <= i < s.len() ==> #[trigger] s2[i].spec_pos_in_parent() == s[i].spec_pos_in_parent(),
        forall|i: int|
            0 <= i < s.len() && i != s[h as int].spec_parent().unwrap() as int ==> #[trigger] s2[
                i
            ].spec_children() == s[i].spec_children(),
        s2[s[h as int].spec_parent().unwrap() as int].spec_children() == s[s[
            h as int
        ].spec_parent().unwrap() as int].spec_children().update(
            s[h as int].spec_pos_in_parent().unwrap() as int,
            usize::MAX,
        ),
        reachable_from(s, h, x),
    ensures
        !reachable_from(s2, 0, x),
{
    assert(node_slot_ok(s, h as int));
    assert(0 < h) by {
        assert(node_slot_ok(s, 0));
    }
    lemma_reachable_implies_uplinked(s, h, x);
    lemma_uplinked_no_cross(s, s2, h, x);
    if reachable_from(s2, 0, x) {
        lemma_reachable_implies_uplinked(s2, 0, x);
    }
}

} // verus!
