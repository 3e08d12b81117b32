//! What follows from the contracts of `insert`, `remove` and `clone` when
//! calls are combined.

use vstd::prelude::*;
use crate::tree::RedBlackTree;

verus! {

/// The entries of a map after the entries of `s` were inserted into it one
/// by one, the first of them first.
pub open spec fn insert_all<K, V>(m: Map<K, V>, s: Seq<(K, V)>) -> Map<K, V>
    decreases s.len(),
{
    if s.len() == 0 {
        m
    } else {
        insert_all(m, s.drop_last()).insert(s.last().0, s.last().1)
    }
}

/// No key occurs in `s` with two different values.
pub open spec fn single_valued<K, V>(s: Seq<(K, V)>) -> bool {
    forall|i: int, j: int|
        0 <= i < s.len() && 0 <= j < s.len() && s[i].0 == s[j].0 ==> s[i].1 == s[j].1
}

/// A snapshot taken with `clone` before an update is the map it was taken
/// from, and stays so whatever becomes of the map: it satisfies all that
/// `wf` says and finds what the map found.
pub proof fn lemma_snapshot_persists<K: Ord, V>(
    m: RedBlackTree<K, V>,
    snapshot: RedBlackTree<K, V>,
    key: K,
    value: V,
    updated: (RedBlackTree<K, V>, bool),
)
    requires
        m.wf(),
        snapshot == m,
        m.inserted(key, value, updated) || m.removed(key, updated),
    ensures
        snapshot.wf(),
        forall|q: K| snapshot.lookup(q) == m.lookup(q),
        snapshot.count() == m.count(),
{
}

/// Inserting a key a second time replaces its value: the key is then bound
/// to the second value, the second call reports that the key was there, and
/// over both calls the map grows by one entry if the key was new to it and
/// not at all if it was not.
pub proof fn lemma_insert_twice<K: Ord, V>(
    m: RedBlackTree<K, V>,
    key: K,
    v1: V,
    v2: V,
    first: (RedBlackTree<K, V>, bool),
    second: (RedBlackTree<K, V>, bool),
)
    requires
        m.wf(),
        m.inserted(key, v1, first),
        first.0.inserted(key, v2, second),
    ensures
        second.0.lookup(key) == Some(v2),
        !second.1,
        !m@.contains_key(key) ==> second.0.count() == m.count() + 1,
        m@.contains_key(key) ==> second.0.count() == m.count(),
        second.0@ == m@.insert(key, v2),
{
    vstd::set::axiom_set_insert_len(m@.dom(), key);
    assert(second.0@ =~= m@.insert(key, v2));
}

/// Removing a key a second time changes nothing: the second call reports
/// that the key was not there and hands back the map it was given.
pub proof fn lemma_remove_twice<K: Ord, V>(
    m: RedBlackTree<K, V>,
    key: K,
    first: (RedBlackTree<K, V>, bool),
    second: (RedBlackTree<K, V>, bool),
)
    requires
        m.wf(),
        m.removed(key, first),
        first.0.removed(key, second),
    ensures
        !second.1,
        second.0 == first.0,
        forall|q: K| second.0.lookup(q) == first.0.lookup(q),
{
}

/// Inserting a key that the map does not hold and removing it again gives
/// a map with the entries and the size of the first.
pub proof fn lemma_insert_remove<K: Ord, V>(
    m: RedBlackTree<K, V>,
    key: K,
    value: V,
    first: (RedBlackTree<K, V>, bool),
    second: (RedBlackTree<K, V>, bool),
)
    requires
        m.wf(),
        !m@.contains_key(key),
        m.inserted(key, value, first),
        first.0.removed(key, second),
    ensures
        first.1 && second.1,
        second.0@ == m@,
        forall|q: K| second.0.lookup(q) == m.lookup(q),
        second.0.count() == m.count(),
{
    assert(second.0@ =~= m@);
}

/// What `insert_all` builds: the keys of `m` and of `s`, each key of `s`
/// bound to the value it has there.
proof fn lemma_insert_all<K, V>(m: Map<K, V>, s: Seq<(K, V)>)
    requires
        single_valued(s),
    ensures
        forall|q: K| #[trigger]
            insert_all(m, s).contains_key(q) <==> m.contains_key(q) || exists|i: int|
                0 <= i < s.len() && #[trigger] s[i].0 == q,
        forall|i: int| 0 <= i < s.len() ==> insert_all(m, s)[#[trigger] s[i].0] == s[i].1,
        forall|q: K|
            (forall|i: int| 0 <= i < s.len() ==> #[trigger] s[i].0 != q) ==> #[trigger] insert_all(
                m,
                s,
            )[q] == m[q],
    decreases s.len(),
{
    if s.len() > 0 {
        let t = s.drop_last();
        let n = s.len() - 1;
        assert(forall|i: int| 0 <= i < t.len() ==> t[i] == s[i]);
        assert(single_valued(t));
        lemma_insert_all(m, t);
        let r = insert_all(m, s);
        assert(r == insert_all(m, t).insert(s[n].0, s[n].1));
        assert forall|q: K| #[trigger]
            r.contains_key(q) <==> m.contains_key(q) || exists|i: int|
                0 <= i < s.len() && #[trigger] s[i].0 == q by {
            if q == s[n].0 {
            } else if insert_all(m, t).contains_key(q) && !m.contains_key(q) {
                let i = choose|i: int| 0 <= i < t.len() && #[trigger] t[i].0 == q;
                assert(s[i].0 == q);
            } else if exists|i: int| 0 <= i < s.len() && #[trigger] s[i].0 == q {
                let i = choose|i: int| 0 <= i < s.len() && #[trigger] s[i].0 == q;
                assert(t[i].0 == q);
            }
        }
        assert forall|i: int| 0 <= i < s.len() implies r[#[trigger] s[i].0] == s[i].1 by {
            if s[i].0 != s[n].0 {
                assert(t[i].0 == s[i].0);
            }
        }
        assert forall|q: K|
            (forall|i: int| 0 <= i < s.len() ==> #[trigger] s[i].0 != q) implies #[trigger] r[q]
            == m[q] by {
            assert(s[n].0 != q);
            assert forall|i: int| 0 <= i < t.len() implies #[trigger] t[i].0 != q by {
                assert(s[i].0 != q);
            }
        }
    }
}

/// The order of insertion does not show: two maps built from the empty map
/// by inserting the same set of entries, in any two orders, find the same
/// value for every key. The entries must bind each key to one value only,
/// since of two values for one key the later insertion wins.
pub proof fn lemma_insert_order_independent<K: Ord, V>(
    a: RedBlackTree<K, V>,
    b: RedBlackTree<K, V>,
    s: Seq<(K, V)>,
    t: Seq<(K, V)>,
)
    requires
        a@ == insert_all(Map::empty(), s),
        b@ == insert_all(Map::empty(), t),
        s.to_set() == t.to_set(),
        single_valued(s),
    ensures
        a@ == b@,
        forall|q: K| a.lookup(q) == b.lookup(q),
{
    assert forall|i: int| 0 <= i < s.len() implies exists|j: int|
        0 <= j < t.len() && t[j] == #[trigger] s[i] by {
        assert(s.to_set().contains(s[i]));
        assert(t.contains(s[i]));
    }
    assert forall|j: int| 0 <= j < t.len() implies exists|i: int|
        0 <= i < s.len() && s[i] == #[trigger] t[j] by {
        assert(t.to_set().contains(t[j]));
        assert(s.contains(t[j]));
    }
    assert(single_valued(t)) by {
        assert forall|i: int, j: int|
            0 <= i < t.len() && 0 <= j < t.len() && t[i].0 == t[j].0 implies t[i].1 == t[j].1 by {
            let i2 = choose|k: int| 0 <= k < s.len() && s[k] == t[i];
            let j2 = choose|k: int| 0 <= k < s.len() && s[k] == t[j];
            assert(s[i2].0 == s[j2].0);
        }
    }
    lemma_insert_all(Map::<K, V>::empty(), s);
    lemma_insert_all(Map::<K, V>::empty(), t);
    assert forall|q: K| a@.contains_key(q) == b@.contains_key(q) && (a@.contains_key(q) ==> a@[q]
        == b@[q]) by {
        if a@.contains_key(q) {
            let i = choose|i: int| 0 <= i < s.len() && #[trigger] s[i].0 == q;
            let j = choose|j: int| 0 <= j < t.len() && t[j] == s[i];
            assert(t[j].0 == q);
            assert(b@[t[j].0] == t[j].1);
            assert(a@[s[i].0] == s[i].1);
        }
        if b@.contains_key(q) {
            let j = choose|j: int| 0 <= j < t.len() && #[trigger] t[j].0 == q;
            let i = choose|i: int| 0 <= i < s.len() && s[i] == t[j];
            assert(s[i].0 == q);
        }
    }
    assert(a@ =~= b@);
}

} // verus!
