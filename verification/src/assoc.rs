//! A small theory of association sequences: a sequence of key/value pairs
//! with pairwise distinct keys, read as a `Map`. The node child index and the
//! forest registry both store their entries this way.

use vstd::prelude::*;

verus! {

/// The `Map` described by a sequence of key/value pairs; a later pair with
/// the same key shadows an earlier one.
pub open spec fn map_of_pairs<V>(s: Seq<(Seq<char>, V)>) -> Map<Seq<char>, V>
    decreases s.len(),
{
    if s.len() == 0 {
        Map::empty()
    } else {
        map_of_pairs(s.drop_last()).insert(s.last().0, s.last().1)
    }
}

/// All keys of the pair sequence are pairwise distinct.
pub open spec fn keys_unique<V>(s: Seq<(Seq<char>, V)>) -> bool {
    forall|i: int, j: int| 0 <= i < j < s.len() ==> s[i].0 != s[j].0
}

/// A key is in the map exactly when some pair carries it.
pub proof fn lemma_map_of_pairs_dom<V>(s: Seq<(Seq<char>, V)>, k: Seq<char>)
    ensures
        map_of_pairs(s).dom().contains(k) <==> exists|i: int| 0 <= i < s.len() && s[i].0 == k,
    decreases s.len(),
{
    if s.len() > 0 {
        lemma_map_of_pairs_dom(s.drop_last(), k);
        if s.last().0 == k {
            assert(s[s.len() - 1].0 == k);
        } else if map_of_pairs(s).dom().contains(k) {
            let i = choose|i: int| 0 <= i < s.drop_last().len() && s.drop_last()[i].0 == k;
            assert(s[i].0 == k);
        } else if exists|i: int| 0 <= i < s.len() && s[i].0 == k {
            let i = choose|i: int| 0 <= i < s.len() && s[i].0 == k;
            assert(s.drop_last()[i].0 == k);
        }
    }
}

/// With distinct keys, the pair at any position is what the map returns.
pub proof fn lemma_map_of_pairs_get<V>(s: Seq<(Seq<char>, V)>, i: int)
    requires
        keys_unique(s),
        0 <= i < s.len(),
    ensures
        map_of_pairs(s).dom().contains(s[i].0),
        map_of_pairs(s)[s[i].0] == s[i].1,
    decreases s.len(),
{
    if i < s.len() - 1 {
        lemma_map_of_pairs_get(s.drop_last(), i);
        assert(s.drop_last()[i] == s[i]);
        assert(s[i].0 != s.last().0);
    }
}

/// Appending a pair inserts its key.
pub proof fn lemma_map_of_pairs_push<V>(s: Seq<(Seq<char>, V)>, k: Seq<char>, v: V)
    ensures
        map_of_pairs(s.push((k, v))) == map_of_pairs(s).insert(k, v),
{
    assert(s.push((k, v)).drop_last() =~= s);
    assert(s.push((k, v)).last() == (k, v));
}

/// Overwriting the value at a position re-inserts that position's key.
pub proof fn lemma_map_of_pairs_update<V>(s: Seq<(Seq<char>, V)>, i: int, v: V)
    requires
        keys_unique(s),
        0 <= i < s.len(),
    ensures
        keys_unique(s.update(i, (s[i].0, v))),
        map_of_pairs(s.update(i, (s[i].0, v))) == map_of_pairs(s).insert(s[i].0, v),
    decreases s.len(),
{
    let t = s.update(i, (s[i].0, v));
    assert forall|p: int, q: int| 0 <= p < q < t.len() implies t[p].0 != t[q].0 by {
        assert(t[p].0 == s[p].0 && t[q].0 == s[q].0);
    }
    if i == s.len() - 1 {
        assert(t.drop_last() =~= s.drop_last());
        assert(t.last() == (s[i].0, v));
        assert(map_of_pairs(t) =~= map_of_pairs(s).insert(s[i].0, v));
    } else {
        lemma_map_of_pairs_update(s.drop_last(), i, v);
        assert(t.drop_last() =~= s.drop_last().update(i, (s[i].0, v)));
        assert(s.drop_last()[i] == s[i]);
        assert(t.last() == s.last());
        assert(s[i].0 != s.last().0);
        assert(map_of_pairs(t) =~= map_of_pairs(s).insert(s[i].0, v));
    }
}

/// Removing the pair at a position removes that position's key.
pub proof fn lemma_map_of_pairs_remove<V>(s: Seq<(Seq<char>, V)>, i: int)
    requires
        keys_unique(s),
        0 <= i < s.len(),
    ensures
        keys_unique(s.remove(i)),
        map_of_pairs(s.remove(i)) == map_of_pairs(s).remove(s[i].0),
    decreases s.len(),
{
    let t = s.remove(i);
    assert forall|p: int, q: int| 0 <= p < q < t.len() implies t[p].0 != t[q].0 by {
        let sp = if p < i { p } else { p + 1 };
        let sq = if q < i { q } else { q + 1 };
        assert(t[p].0 == s[sp].0 && t[q].0 == s[sq].0);
    }
    if i == s.len() - 1 {
        assert(t =~= s.drop_last());
        lemma_map_of_pairs_dom(t, s[i].0);
        assert forall|j: int| 0 <= j < t.len() implies t[j].0 != s[i].0 by {
            assert(t[j] == s[j]);
        }
        assert(!map_of_pairs(t).dom().contains(s[i].0));
        assert(map_of_pairs(s) == map_of_pairs(t).insert(s[i].0, s[i].1));
        assert(map_of_pairs(t) =~= map_of_pairs(s).remove(s[i].0));
    } else {
        lemma_map_of_pairs_remove(s.drop_last(), i);
        assert(t.drop_last() =~= s.drop_last().remove(i));
        assert(s.drop_last()[i] == s[i]);
        assert(t.last() == s.last());
        assert(s[i].0 != s.last().0);
        assert(map_of_pairs(t) =~= map_of_pairs(s).remove(s[i].0));
    }
}

/// A pair with a fresh key can be appended without breaking key distinctness.
pub proof fn lemma_keys_unique_push<V>(s: Seq<(Seq<char>, V)>, k: Seq<char>, v: V)
    requires
        keys_unique(s),
        forall|i: int| 0 <= i < s.len() ==> s[i].0 != k,
    ensures
        keys_unique(s.push((k, v))),
{
    let t = s.push((k, v));
    assert forall|p: int, q: int| 0 <= p < q < t.len() implies t[p].0 != t[q].0 by {
        if q < s.len() {
            assert(t[p] == s[p] && t[q] == s[q]);
        } else {
            assert(t[p] == s[p] && t[q].0 == k);
        }
    }
}

} // verus!
