//! The forest: a registry of named, independently owned trees.

use vstd::prelude::*;

use crate::assoc::keys_unique;
use crate::assoc::lemma_keys_unique_push;
use crate::assoc::lemma_map_of_pairs_dom;
use crate::assoc::lemma_map_of_pairs_get;
use crate::assoc::lemma_map_of_pairs_push;
use crate::assoc::lemma_map_of_pairs_remove;
use crate::assoc::lemma_map_of_pairs_update;
use crate::assoc::map_of_pairs;
use crate::error::SocarelError;
use crate::error::SocarelErrorType;
use crate::node::Node;
use crate::node::NodeContent;
use crate::node::RawNode;
use crate::tree::Tree;

verus! {

/// The contract a tree name type must satisfy: a fallible parse from a raw
/// string and a canonical identifier; two names stand for the same tree
/// exactly when their identifiers are equal.
pub trait TreeIdentifier: Sized {
    /// Whether `new` accepts the raw string.
    spec fn parses(raw: Seq<char>) -> bool;

    /// The identifier that `new` builds from `raw`; meaningful only when
    /// `parses(raw)` holds.
    spec fn parsed_id(raw: Seq<char>) -> Seq<char>;

    /// The canonical identifier of this name, as `get_id` returns it.
    spec fn spec_id(&self) -> Seq<char>;

    /// The serialized form of this name, as `gen_tree_id` returns it.
    spec fn spec_gen(&self) -> Seq<char>;

    /// Parse a raw string into a tree name.
    fn new(tree_id: &str) -> (r: Result<Self, SocarelError>)
        ensures
            r is Ok <==> Self::parses(tree_id@),
            r is Ok ==> r->Ok_0.spec_id() == Self::parsed_id(tree_id@),
    ;

    /// Get the canonical identifier.
    fn get_id(&self) -> (r: &str)
        ensures
            r@ == self.spec_id(),
    ;

    /// Serialize the name back into a raw string.
    fn gen_tree_id(&self) -> (r: String)
        ensures
            r@ == self.spec_gen(),
    ;
}

/// The default tree name: it keeps the raw string verbatim and accepts
/// every input.
#[derive(Debug)]
pub struct RawTreeId(String);

impl TreeIdentifier for RawTreeId {
    closed spec fn parses(raw: Seq<char>) -> bool {
        true
    }

    closed spec fn parsed_id(raw: Seq<char>) -> Seq<char> {
        raw
    }

    closed spec fn spec_id(&self) -> Seq<char> {
        self.0@
    }

    closed spec fn spec_gen(&self) -> Seq<char> {
        self.0@
    }

    fn new(tree_id: &str) -> (r: Result<Self, SocarelError>) {
        Ok(RawTreeId(tree_id.to_owned()))
    }

    fn get_id(&self) -> (r: &str) {
        self.0.as_str()
    }

    fn gen_tree_id(&self) -> (r: String) {
        self.0.clone()
    }
}

/// The built-in raw tree name accepts every string and keeps it verbatim.
pub proof fn lemma_raw_tree_id_parse(raw: Seq<char>)
    ensures
        RawTreeId::parses(raw),
        RawTreeId::parsed_id(raw) == raw,
{
}

/// One registry entry: a parsed name and the tree it owns.
#[derive(Debug)]
struct ForestEntry<I: TreeIdentifier, C: NodeContent> {
    id: I,
    tree: Tree<C>,
}

/// A registry read as identifier/tree pairs.
spec fn entries_of<I: TreeIdentifier, C: NodeContent>(ts: Seq<ForestEntry<I, C>>) -> Seq<
    (Seq<char>, Tree<C>),
> {
    ts.map_values(|e: ForestEntry<I, C>| (e.id.spec_id(), e.tree))
}

/// The trees of a registry, in registration order.
spec fn entry_trees_of<I: TreeIdentifier, C: NodeContent>(ts: Seq<ForestEntry<I, C>>) -> Seq<
    Tree<C>,
> {
    ts.map_values(|e: ForestEntry<I, C>| e.tree)
}

/// The names of a registry, in registration order.
spec fn ids_of<I: TreeIdentifier, C: NodeContent>(ts: Seq<ForestEntry<I, C>>) -> Seq<I> {
    ts.map_values(|e: ForestEntry<I, C>| e.id)
}

/// Whether a registry has pairwise distinct identifiers and only coherent
/// trees.
spec fn registry_wf<I: TreeIdentifier, C: NodeContent>(ts: Seq<ForestEntry<I, C>>) -> bool {
    &&& keys_unique(entries_of(ts))
    &&& forall|j: int|
        0 <= j < entry_trees_of(ts).len() ==> (#[trigger] entry_trees_of(ts)[j]).well_formed()
}

/// A forest: a set of trees, each registered under a unique identifier.
#[derive(Debug)]
pub struct Forest<I: TreeIdentifier = RawTreeId, C: NodeContent = RawNode> {
    /// The registered trees, in registration order, with pairwise distinct
    /// identifiers.
    trees: Vec<ForestEntry<I, C>>,
}

impl<I: TreeIdentifier, C: NodeContent> Forest<I, C> {
    /// The registry entries as identifier/tree pairs, in registration order.
    closed spec fn entries(&self) -> Seq<(Seq<char>, Tree<C>)> {
        entries_of(self.trees@)
    }

    /// The names of the registry, in registration order.
    pub closed spec fn spec_ids(&self) -> Seq<I> {
        ids_of(self.trees@)
    }

    /// The trees of the registry, in registration order.
    pub closed spec fn spec_entry_trees(&self) -> Seq<Tree<C>> {
        entry_trees_of(self.trees@)
    }

    /// The registry read as a map from identifier to tree.
    pub closed spec fn spec_trees(&self) -> Map<Seq<char>, Tree<C>> {
        map_of_pairs(self.entries())
    }

    /// The forest's invariant: identifiers are pairwise distinct and every
    /// registered tree is coherent.
    pub closed spec fn well_formed(&self) -> bool {
        registry_wf(self.trees@)
    }

    /// Create an empty forest.
    pub fn new() -> (r: Self)
        ensures
            r.well_formed(),
            r.spec_trees() == Map::<Seq<char>, Tree<C>>::empty(),
            r.spec_ids() == Seq::<I>::empty(),
            r.spec_entry_trees() == Seq::<Tree<C>>::empty(),
    {
        let f = Self { trees: Vec::new() };
        proof {
            assert(f.entries() =~= Seq::<(Seq<char>, Tree<C>)>::empty());
            assert(f.spec_ids() =~= Seq::<I>::empty());
            assert(f.spec_entry_trees() =~= Seq::<Tree<C>>::empty());
        }
        f
    }

    /// The position of the entry registered under the given identifier.
    fn find_entry(&self, id: &I) -> (r: Option<usize>)
        ensures
            match r {
                Some(j) => j < self.entries().len() && self.entries()[j as int].0 == id.spec_id(),
                None => forall|i: int|
                    0 <= i < self.entries().len() ==> self.entries()[i].0 != id.spec_id(),
            },
    {
        let key: String = id.get_id().to_owned();
        let n = self.trees.len();
        let mut i: usize = 0;
        while i < n
            invariant
                n == self.entries().len(),
                i <= n,
                key@ == id.spec_id(),
                forall|p: int| 0 <= p < i ==> self.entries()[p].0 != id.spec_id(),
            decreases n - i,
        {
            let entry_key: String = self.trees[i].id.get_id().to_owned();
            if entry_key.eq(&key) {
                assert(self.entries()[i as int].0 == id.spec_id());
                return Some(i);
            }
            assert(self.entries()[i as int].0 != id.spec_id());
            i += 1;
        }
        None
    }

    /// Register a new empty tree under a name. Fails when the name does
    /// not parse or when its identifier is already taken.
    pub fn new_tree(&mut self, name: &str) -> (r: Result<(), SocarelError>)
        requires
            old(self).well_formed(),
        ensures
            final(self).well_formed(),
            r is Err ==> final(self).spec_trees() == old(self).spec_trees() && final(self).spec_ids() == old(self).spec_ids() && final(self).spec_entry_trees() == old(self).spec_entry_trees(),
            !I::parses(name@) ==> r is Err,
            I::parses(name@) && old(self).spec_trees().dom().contains(I::parsed_id(name@)) ==> (
            r matches Err(e) && e.is_exactly("Tree ID already exist"@, 1, SocarelErrorType::Forest)),
            I::parses(name@) && !old(self).spec_trees().dom().contains(I::parsed_id(name@)) ==> {
                &&& r is Ok
                &&& final(self).spec_trees() == old(self).spec_trees().insert(
                    I::parsed_id(name@),
                    final(self).spec_trees()[I::parsed_id(name@)],
                )
                &&& final(self).spec_trees()[I::parsed_id(name@)].spec_nodes()
                    == Seq::<Node<C>>::empty()
                &&& final(self).spec_ids() == old(self).spec_ids().push(
                    final(self).spec_ids().last(),
                )
                &&& final(self).spec_ids().last().spec_id() == I::parsed_id(name@)
                &&& final(self).spec_entry_trees() == old(self).spec_entry_trees().push(
                    final(self).spec_entry_trees().last(),
                )
                &&& final(self).spec_entry_trees().last().spec_nodes() == Seq::<Node<C>>::empty()
            },
    {
        self.add_tree(name, Tree::new())
    }

    /// Register a caller-supplied tree under a name. Fails when the name
    /// does not parse or when its identifier is already taken.
    pub fn add_tree(&mut self, name: &str, tree: Tree<C>) -> (r: Result<(), SocarelError>)
        requires
            old(self).well_formed(),
            tree.well_formed(),
        ensures
            final(self).well_formed(),
            r is Err ==> final(self).spec_trees() == old(self).spec_trees() && final(self).spec_ids() == old(self).spec_ids() && final(self).spec_entry_trees() == old(self).spec_entry_trees(),
            !I::parses(name@) ==> r is Err,
            I::parses(name@) && old(self).spec_trees().dom().contains(I::parsed_id(name@)) ==> (
            r matches Err(e) && e.is_exactly("Tree ID already exist"@, 1, SocarelErrorType::Forest)),
            I::parses(name@) && !old(self).spec_trees().dom().contains(I::parsed_id(name@)) ==> {
                &&& r is Ok
                &&& final(self).spec_trees() == old(self).spec_trees().insert(
                    I::parsed_id(name@),
                    tree,
                )
                &&& final(self).spec_ids() == old(self).spec_ids().push(
                    final(self).spec_ids().last(),
                )
                &&& final(self).spec_ids().last().spec_id() == I::parsed_id(name@)
                &&& final(self).spec_entry_trees() == old(self).spec_entry_trees().push(tree)
            },
    {
        let tid = match I::new(name) {
            Ok(t) => t,
            Err(e) => {
                return Err(e);
            },
        };
        match self.find_entry(&tid) {
            None => {
                let ghost pre = self.entries();
                let ghost key = tid.spec_id();
                proof {
                    lemma_map_of_pairs_dom(pre, key);
                }
                self.trees.push(ForestEntry { id: tid, tree });
                proof {
                    assert(self.entries() =~= pre.push((key, tree)));
                    lemma_keys_unique_push(pre, key, tree);
                    lemma_map_of_pairs_push(pre, key, tree);
                    assert(self.spec_entry_trees() =~= old(self).spec_entry_trees().push(tree));
                    assert(self.spec_ids() =~= old(self).spec_ids().push(
                        self.trees@.last().id,
                    ));
                    assert(self.spec_ids().last().spec_id() == key);
                }
                Ok(())
            },
            Some(_) => {
                proof {
                    lemma_map_of_pairs_dom(self.entries(), tid.spec_id());
                }
                Err(SocarelError::new("Tree ID already exist", 1, SocarelErrorType::Forest))
            },
        }
    }

    /// Remove the tree registered under a name and hand it back. Fails
    /// when the name does not parse or when no tree is registered under it.
    pub fn remove_tree(&mut self, name: &str) -> (r: Result<Tree<C>, SocarelError>)
        requires
            old(self).well_formed(),
        ensures
            final(self).well_formed(),
            r is Err ==> final(self).spec_trees() == old(self).spec_trees() && final(self).spec_ids() == old(self).spec_ids() && final(self).spec_entry_trees() == old(self).spec_entry_trees(),
            !I::parses(name@) ==> r is Err,
            I::parses(name@) && !old(self).spec_trees().dom().contains(I::parsed_id(name@)) ==> (
            r matches Err(e) && e.is_exactly("Could not remove tree"@, 2, SocarelErrorType::Forest)),
            I::parses(name@) && old(self).spec_trees().dom().contains(I::parsed_id(name@)) ==> {
                &&& r matches Ok(t) && t == old(self).spec_trees()[I::parsed_id(name@)]
                    && t.well_formed()
                &&& final(self).spec_trees() == old(self).spec_trees().remove(I::parsed_id(name@))
                &&& exists|j: int|
                    {
                        &&& 0 <= j < old(self).spec_ids().len()
                        &&& (#[trigger] old(self).spec_ids()[j]).spec_id() == I::parsed_id(name@)
                        &&& final(self).spec_ids() == old(self).spec_ids().remove(j)
                        &&& final(self).spec_entry_trees() == old(
                            self,
                        ).spec_entry_trees().remove(j)
                    }
            },
    {
        let tid = match I::new(name) {
            Ok(t) => t,
            Err(e) => {
                return Err(e);
            },
        };
        match self.find_entry(&tid) {
            Some(j) => {
                let ghost pre = self.entries();
                let ghost old_ts = self.trees@;
                proof {
                    lemma_map_of_pairs_get(pre, j as int);
                    lemma_map_of_pairs_dom(pre, tid.spec_id());
                    assert(pre[j as int].1 == old_ts[j as int].tree);
                    assert(entry_trees_of(old_ts)[j as int] == old_ts[j as int].tree);
                    assert(entry_trees_of(old_ts)[j as int].well_formed());
                }
                proof {
                    assert(ids_of(old_ts)[j as int] == old_ts[j as int].id);
                    assert(ids_of(old_ts)[j as int].spec_id() == pre[j as int].0);
                }
                let entry = self.trees.remove(j);
                proof {
                    assert(self.entries() =~= pre.remove(j as int));
                    lemma_map_of_pairs_remove(pre, j as int);
                    assert(self.spec_ids() =~= ids_of(old_ts).remove(j as int));
                    assert(self.spec_entry_trees() =~= entry_trees_of(old_ts).remove(j as int));
                    assert((j as int) < old(self).spec_ids().len() && old(self).spec_ids()[
                        j as int
                    ].spec_id() == tid.spec_id() && self.spec_ids() == old(self).spec_ids().remove(
                        j as int,
                    ) && self.spec_entry_trees() == old(self).spec_entry_trees().remove(
                        j as int,
                    ));
                    assert forall|k: int|
                        0 <= k < entry_trees_of(self.trees@).len() implies (
                    #[trigger] entry_trees_of(self.trees@)[k]).well_formed() by {
                        if k < j {
                            assert(entry_trees_of(self.trees@)[k] == entry_trees_of(old_ts)[k]);
                        } else {
                            assert(entry_trees_of(self.trees@)[k] == entry_trees_of(old_ts)[k
                                + 1]);
                        }
                    }
                }
                Ok(entry.tree)
            },
            None => {
                proof {
                    lemma_map_of_pairs_dom(self.entries(), tid.spec_id());
                }
                Err(SocarelError::new("Could not remove tree", 2, SocarelErrorType::Forest))
            },
        }
    }

    /// Get a reference to the tree registered under a name. Fails when the
    /// name does not parse or when no tree is registered under it.
    pub fn get_tree(&self, name: &str) -> (r: Result<&Tree<C>, SocarelError>)
        requires
            self.well_formed(),
        ensures
            !I::parses(name@) ==> r is Err,
            I::parses(name@) && !self.spec_trees().dom().contains(I::parsed_id(name@)) ==> (
            r matches Err(e) && e.is_exactly("Could not get tree"@, 3, SocarelErrorType::Forest)),
            I::parses(name@) && self.spec_trees().dom().contains(I::parsed_id(name@)) ==> (
            r matches Ok(t) && *t == self.spec_trees()[I::parsed_id(name@)] && t.well_formed()),
    {
        let tid = match I::new(name) {
            Ok(t) => t,
            Err(e) => {
                return Err(e);
            },
        };
        match self.find_entry(&tid) {
            Some(j) => {
                proof {
                    lemma_map_of_pairs_get(self.entries(), j as int);
                    lemma_map_of_pairs_dom(self.entries(), tid.spec_id());
                    assert(self.entries()[j as int].1 == self.trees@[j as int].tree);
                    assert(entry_trees_of(self.trees@)[j as int] == self.trees@[j as int].tree);
                    assert(entry_trees_of(self.trees@)[j as int].well_formed());
                }
                Ok(&self.trees[j].tree)
            },
            None => {
                proof {
                    lemma_map_of_pairs_dom(self.entries(), tid.spec_id());
                }
                Err(SocarelError::new("Could not get tree", 3, SocarelErrorType::Forest))
            },
        }
    }

    /// Get a mutable reference to the tree registered under a name. Fails
    /// when the name does not parse or when no tree is registered under
    /// it. The registry afterwards holds, under that identifier, whatever
    /// the caller leaves in the reference, and it stays coherent as long
    /// as that tree is.
    #[verifier::rlimit(100)]
    #[verifier::spinoff_prover]
    pub fn get_mut_tree(&mut self, name: &str) -> (r: Result<&mut Tree<C>, SocarelError>)
        requires
            old(self).well_formed(),
        ensures
            r is Err ==> final(self).spec_trees() == old(self).spec_trees() && final(self).spec_ids() == old(self).spec_ids() && final(self).spec_entry_trees() == old(self).spec_entry_trees() && final(self).well_formed(),
            !I::parses(name@) ==> r is Err,
            I::parses(name@) && !old(self).spec_trees().dom().contains(I::parsed_id(name@)) ==> (
            r matches Err(e) && e.is_exactly(
                "Could not get mutable tree"@,
                4,
                SocarelErrorType::Forest,
            )),
            I::parses(name@) && old(self).spec_trees().dom().contains(I::parsed_id(name@)) ==> r
                is Ok,
            r matches Ok(t) ==> I::parses(name@) && old(self).spec_trees().dom().contains(
                I::parsed_id(name@),
            ) && *t == old(self).spec_trees()[I::parsed_id(name@)] && t.well_formed(),
            r matches Ok(t) ==> final(self).spec_trees() == old(self).spec_trees().insert(
                I::parsed_id(name@),
                *final(t),
            ),
            r matches Ok(t) ==> final(self).spec_ids() == old(self).spec_ids(),
            r matches Ok(t) ==> exists|j: int|
                {
                    &&& 0 <= j < old(self).spec_ids().len()
                    &&& (#[trigger] old(self).spec_ids()[j]).spec_id() == I::parsed_id(name@)
                    &&& *t == old(self).spec_entry_trees()[j]
                    &&& final(self).spec_entry_trees() == old(self).spec_entry_trees().update(
                        j,
                        *final(t),
                    )
                },
            r matches Ok(t) ==> (final(t).well_formed() ==> final(self).well_formed()),
    {
        let tid = match I::new(name) {
            Ok(t) => t,
            Err(e) => {
                return Err(e);
            },
        };
        match self.find_entry(&tid) {
            Some(j) => {
                let ghost pre = self.entries();
                let ghost old_ts = self.trees@;
                proof {
                    lemma_map_of_pairs_get(pre, j as int);
                    lemma_map_of_pairs_dom(pre, tid.spec_id());
                    assert(pre[j as int].1 == old_ts[j as int].tree);
                    assert(entry_trees_of(old_ts)[j as int].well_formed());
                    assert(entry_trees_of(old_ts)[j as int] == old_ts[j as int].tree);
                    assert(ids_of(old_ts)[j as int] == old_ts[j as int].id);
                    assert(ids_of(old_ts)[j as int].spec_id() == pre[j as int].0);
                    assert(old(self).spec_ids() == ids_of(old_ts));
                    assert(old(self).spec_entry_trees() == entry_trees_of(old_ts));
                    assert((j as int) < old(self).spec_ids().len());
                    assert(old(self).spec_ids()[j as int].spec_id() == I::parsed_id(name@));
                    assert(old(self).spec_entry_trees()[j as int] == old_ts[j as int].tree);
                    assert forall|v: Tree<C>|
                        #![trigger entry_trees_of(old_ts).update(j as int, v)]
                        exists|j2: int|
                            {
                                &&& 0 <= j2 < old(self).spec_ids().len()
                                &&& (#[trigger] old(self).spec_ids()[j2]).spec_id()
                                    == I::parsed_id(name@)
                                &&& old_ts[j as int].tree == old(self).spec_entry_trees()[j2]
                                &&& entry_trees_of(old_ts).update(j as int, v) == old(
                                    self,
                                ).spec_entry_trees().update(j2, v)
                            } by {
                        assert((j as int) < old(self).spec_ids().len() && old(self).spec_ids()[
                            j as int
                        ].spec_id() == I::parsed_id(name@) && old_ts[j as int].tree == old(
                            self,
                        ).spec_entry_trees()[j as int] && entry_trees_of(old_ts).update(
                            j as int,
                            v,
                        ) == old(self).spec_entry_trees().update(j as int, v));
                    }
                    assert forall|v: Tree<C>|
                        (#[trigger] ids_of(
                            old_ts.update(
                                j as int,
                                (ForestEntry { id: old_ts[j as int].id, tree: v }),
                            ),
                        )) == ids_of(old_ts) && entry_trees_of(
                        old_ts.update(
                            j as int,
                            (ForestEntry { id: old_ts[j as int].id, tree: v }),
                        ),
                    ) == entry_trees_of(old_ts).update(j as int, v) by {
                        let ts2 = old_ts.update(
                            j as int,
                            (ForestEntry { id: old_ts[j as int].id, tree: v }),
                        );
                        assert(ids_of(ts2) =~= ids_of(old_ts));
                        assert(entry_trees_of(ts2) =~= entry_trees_of(old_ts).update(
                            j as int,
                            v,
                        ));
                    }
                    assert forall|v: Tree<C>|
                        #![trigger entry_trees_of(old_ts).update(j as int, v)]
                        exists|j2: int|
                            {
                                &&& 0 <= j2 < ids_of(old_ts).len()
                                &&& (#[trigger] ids_of(old_ts)[j2]).spec_id() == tid.spec_id()
                                &&& old_ts[j as int].tree == entry_trees_of(old_ts)[j2]
                                &&& entry_trees_of(old_ts).update(j as int, v)
                                    == entry_trees_of(old_ts).update(j2, v)
                            } by {
                        assert((j as int) < ids_of(old_ts).len() && ids_of(old_ts)[
                            j as int
                        ].spec_id() == tid.spec_id() && old_ts[j as int].tree == entry_trees_of(
                            old_ts,
                        )[j as int] && entry_trees_of(old_ts).update(j as int, v)
                            == entry_trees_of(old_ts).update(j as int, v));
                    }
                    assert forall|v: Tree<C>|
                        (#[trigger] map_of_pairs(
                            entries_of(
                                old_ts.update(
                                    j as int,
                                    (ForestEntry { id: old_ts[j as int].id, tree: v }),
                                ),
                            ),
                        )) == map_of_pairs(pre).insert(pre[j as int].0, v) && keys_unique(
                        entries_of(
                            old_ts.update(
                                j as int,
                                (ForestEntry { id: old_ts[j as int].id, tree: v }),
                            ),
                        ),
                    ) by {
                        let ts2 = old_ts.update(
                            j as int,
                            (ForestEntry { id: old_ts[j as int].id, tree: v }),
                        );
                        assert(entries_of(ts2) =~= pre.update(
                            j as int,
                            (pre[j as int].0, v),
                        ));
                        lemma_map_of_pairs_update(pre, j as int, v);
                    }
                    assert forall|v: Tree<C>| v.well_formed() implies #[trigger] registry_wf(
                        old_ts.update(j as int, (ForestEntry { id: old_ts[j as int].id, tree: v })),
                    ) by {
                        let ts2 = old_ts.update(
                            j as int,
                            (ForestEntry { id: old_ts[j as int].id, tree: v }),
                        );
                        assert(entries_of(ts2) =~= pre.update(
                            j as int,
                            (pre[j as int].0, v),
                        ));
                        lemma_map_of_pairs_update(pre, j as int, v);
                        assert forall|k: int|
                            0 <= k < entry_trees_of(ts2).len() implies (
                        #[trigger] entry_trees_of(ts2)[k]).well_formed() by {
                            if k != j {
                                assert(entry_trees_of(ts2)[k] == entry_trees_of(old_ts)[k]);
                            } else {
                                assert(entry_trees_of(ts2)[k] == v);
                            }
                        }
                    }
                }
                let t = Self::tree_at_mut(&mut self.trees, j);
                Ok(t)
            },
            None => {
                proof {
                    lemma_map_of_pairs_dom(self.entries(), tid.spec_id());
                }
                Err(SocarelError::new("Could not get mutable tree", 4, SocarelErrorType::Forest))
            },
        }
    }

    /// Get a cursor over the whole registry: it yields every name with its
    /// tree, in registration order.
    pub fn iter(&self) -> (r: ForestIter<'_, I, C>)
        ensures
            r.spec_forest() == *self,
            r.spec_pos() == 0,
    {
        ForestIter { forest: self, pos: 0 }
    }

    /// Hand out a mutable borrow of one entry's tree, leaving the entry's
    /// identifier and every other entry untouched.
    fn tree_at_mut(v: &mut Vec<ForestEntry<I, C>>, j: usize) -> (t: &mut Tree<C>)
        requires
            j < old(v)@.len(),
        ensures
            *t == old(v)@[j as int].tree,
            final(v)@ == old(v)@.update(
                j as int,
                (ForestEntry { id: old(v)@[j as int].id, tree: *final(t) }),
            ),
    {
        &mut v[j].tree
    }
}

/// In a coherent forest two registry slots never carry the same
/// identifier, so the cursor of `iter` meets each registered identifier
/// exactly once.
pub proof fn lemma_forest_ids_unique<I: TreeIdentifier, C: NodeContent>(
    f: &Forest<I, C>,
    i: int,
    j: int,
)
    requires
        f.well_formed(),
        0 <= i < j < f.spec_ids().len(),
    ensures
        f.spec_ids()[i].spec_id() != f.spec_ids()[j].spec_id(),
{
    assert(f.entries()[i].0 == f.spec_ids()[i].spec_id());
    assert(f.entries()[j].0 == f.spec_ids()[j].spec_id());
}

/// The registration views and the map view agree: a key is registered
/// exactly when some slot carries it, and the tree the cursor of `iter`
/// yields at a slot is the tree the map holds under that slot's
/// identifier. Together with `lemma_forest_ids_unique`, a full walk of the
/// cursor therefore yields exactly one pair per registered tree.
pub proof fn lemma_forest_iteration_complete<I: TreeIdentifier, C: NodeContent>(
    f: &Forest<I, C>,
    key: Seq<char>,
)
    requires
        f.well_formed(),
    ensures
        f.spec_trees().dom().contains(key) <==> (exists|j: int|
            0 <= j < f.spec_ids().len() && (#[trigger] f.spec_ids()[j]).spec_id() == key),
        forall|j: int|
            0 <= j < f.spec_ids().len() ==> f.spec_trees().dom().contains(
                (#[trigger] f.spec_ids()[j]).spec_id(),
            ) && f.spec_trees()[f.spec_ids()[j].spec_id()] == f.spec_entry_trees()[j],
{
    lemma_map_of_pairs_dom(f.entries(), key);
    assert forall|j: int|
        0 <= j < f.spec_ids().len() implies f.spec_trees().dom().contains(
        (#[trigger] f.spec_ids()[j]).spec_id(),
    ) && f.spec_trees()[f.spec_ids()[j].spec_id()] == f.spec_entry_trees()[j] by {
        assert(f.entries()[j].0 == f.spec_ids()[j].spec_id());
        assert(f.entries()[j].1 == f.spec_entry_trees()[j]);
        lemma_map_of_pairs_get(f.entries(), j);
    }
    if f.spec_trees().dom().contains(key) {
        let i = choose|i: int| 0 <= i < f.entries().len() && f.entries()[i].0 == key;
        assert(f.spec_ids()[i].spec_id() == key);
    } else if exists|j: int|
        0 <= j < f.spec_ids().len() && (#[trigger] f.spec_ids()[j]).spec_id() == key {
        let i = choose|i: int|
            0 <= i < f.spec_ids().len() && (#[trigger] f.spec_ids()[i]).spec_id() == key;
        assert(f.entries()[i].0 == key);
    }
}

/// A cursor over a forest's registry: it yields every name with its tree,
/// in registration order.
pub struct ForestIter<'a, I: TreeIdentifier = RawTreeId, C: NodeContent = RawNode> {
    forest: &'a Forest<I, C>,
    pos: usize,
}

impl<'a, I: TreeIdentifier, C: NodeContent> ForestIter<'a, I, C> {
    /// The forest this cursor walks.
    pub closed spec fn spec_forest(&self) -> Forest<I, C> {
        *self.forest
    }

    /// The registration slot the next call will yield.
    pub closed spec fn spec_pos(&self) -> usize {
        self.pos
    }

    /// Yield the name and tree in the current registration slot and step
    /// one slot on; nothing is yielded once every entry has been seen.
    pub fn next(&mut self) -> (r: Option<(&'a I, &'a Tree<C>)>)
        ensures
            final(self).spec_forest() == old(self).spec_forest(),
            old(self).spec_pos() < old(self).spec_forest().spec_ids().len() ==> {
                &&& r is Some
                &&& *r.unwrap().0 == old(self).spec_forest().spec_ids()[old(self).spec_pos() as int]
                &&& *r.unwrap().1 == old(self).spec_forest().spec_entry_trees()[old(self).spec_pos() as int]
                &&& final(self).spec_pos() == old(self).spec_pos() + 1
            },
            old(self).spec_pos() >= old(self).spec_forest().spec_ids().len() ==> r is None && final(self).spec_pos() == old(self).spec_pos(),
    {
        let i = self.pos;
        if i < self.forest.trees.len() {
            let entry = &self.forest.trees[i];
            self.pos = i + 1;
            proof {
                assert(self.forest.spec_ids()[i as int] == entry.id);
                assert(self.forest.spec_entry_trees()[i as int] == entry.tree);
            }
            Some((&entry.id, &entry.tree))
        } else {
            None
        }
    }
}

} // verus!
