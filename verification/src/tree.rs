//! The map: a root and a count of entries.

use vstd::prelude::*;
use crate::color::Color;
use crate::node::{NodeRef, new_leaf};
use crate::order::obeys_total_order;

verus! {

/// A persistent ordered map. `insert` and `remove` take the map by value
/// and return a new one; a clone taken before shares all nodes with it and
/// is not affected.
pub struct RedBlackTree<K, V> {
    root: NodeRef<K, V>,
    len: usize,
}

impl<K: Ord, V> View for RedBlackTree<K, V> {
    type V = Map<K, V>;

    /// The entries that can be reached from the root.
    open spec fn view(&self) -> Map<K, V> {
        self.root().view()
    }
}

impl<K, V> Clone for RedBlackTree<K, V> {
    /// A second handle on the same tree.
    fn clone(&self) -> (res: Self)
        ensures
            res == *self,
    {
        RedBlackTree { root: self.root.clone(), len: self.len }
    }
}

impl<K: Ord, V> RedBlackTree<K, V> {
    /// The root of the tree.
    pub closed spec fn root(self) -> NodeRef<K, V> {
        self.root
    }

    /// The number of entries on record.
    pub closed spec fn count(self) -> nat {
        self.len as nat
    }

    /// What holds of every map this library hands out: the tree is a search
    /// tree, no red node has a red child, every path to a leaf passes the
    /// same number of black nodes, no node has a transient color, the root
    /// is black, and the count on record is the number of entries.
    pub open spec fn wf(self) -> bool {
        // search-tree order
        &&& self.root().bst()
        // no red node under a red node
        &&& self.root().no_red_red_spec()
        // as many black nodes on one path as on any other
        &&& self.root().black_balanced_spec()
        // red and black nodes only, black leaves
        &&& self.root().persistent_colors()
        &&& self.root().col == Color::Black
        // the count is the number of keys in the tree
        &&& self@.dom().finite()
        &&& self.count() == self@.len()
    }

    /// What `find` returns for `key`.
    pub open spec fn lookup(self, key: K) -> Option<V> {
        if self@.contains_key(key) {
            Some(self@[key])
        } else {
            None
        }
    }

    /// `out` is what `insert` may return for this map, `key` and `value`.
    pub open spec fn inserted(self, key: K, value: V, out: (Self, bool)) -> bool {
        &&& out.0.wf()
        &&& out.0@ == self@.insert(key, value)
        &&& out.1 == !self@.contains_key(key)
    }

    /// `out` is what `remove` may return for this map and `key`.
    pub open spec fn removed(self, key: K, out: (Self, bool)) -> bool {
        &&& out.0.wf()
        &&& out.0@ == self@.remove(key)
        &&& out.1 == self@.contains_key(key)
        &&& !out.1 ==> out.0 == self
    }

    /// The tree that `insert` builds is a red-black search tree with the
    /// new binding and a black root, whatever the size of the map: the
    /// bound that `insert` puts on the size is there for the count alone.
    pub proof fn lemma_insert_keeps_tree(self, key: K, value: V)
        requires
            obeys_total_order::<K>(),
            self.wf(),
        ensures
            ({
                let t = self.root().with_binding(key, value).with_color(Color::Black);
                &&& t.bst()
                &&& t.no_red_red_spec()
                &&& t.black_balanced_spec()
                &&& t.persistent_colors()
                &&& t.col == Color::Black
                &&& t.view() == self@.insert(key, value)
            }),
    {
        self.root.lemma_rb_iff();
        self.root.lemma_with_binding(key, value);
        let grown = self.root.with_binding(key, value);
        let t = grown.with_color(Color::Black);
        grown.lemma_unfold();
        t.lemma_unfold();
        t.lemma_rb_iff();
    }

    /// The empty map.
    pub fn new() -> (m: Self)
        ensures
            m.wf(),
            m@ == Map::<K, V>::empty(),
            m.root().leaf(),
    {
        RedBlackTree { root: new_leaf(Color::Black), len: 0 }
    }

    /// The value bound to `search_key`, if there is one.
    pub fn find<'a>(&'a self, search_key: &K) -> (r: Option<&'a V>)
        requires
            obeys_total_order::<K>(),
            self.wf(),
        ensures
            r == (if self@.contains_key(*search_key) {
                Some(&self@[*search_key])
            } else {
                None
            }),
            match r {
                Some(v) => self.lookup(*search_key) == Some(*v),
                None => self.lookup(*search_key) is None,
            },
    {
        self.root.find(search_key)
    }

    /// The map with `key` bound to `value`, and whether the key is new.
    pub fn insert(self, key: K, value: V) -> (res: (Self, bool))
        requires
            obeys_total_order::<K>(),
            self.wf(),
            !self@.contains_key(key) ==> self@.len() < usize::MAX,
        ensures
            res.0.wf(),
            res.0@ == self@.insert(key, value),
            res.1 == !self@.contains_key(key),
            res.0.root() == self.root().with_binding(key, value).with_color(Color::Black),
            self.inserted(key, value, res),
    {
        proof {
            self.root.lemma_rb_iff();
        }
        let mut insertion_count: usize = 0xdeadbeaf;
        let new_root = self.root.modify_at(key, value, &mut insertion_count);
        assert(insertion_count != 0xdeadbeaf);
        proof {
            new_root.lemma_rb_iff();
            new_root.lemma_view_finite();
            vstd::set::axiom_set_insert_len(self@.dom(), key);
            assert(new_root.view().dom() =~= self@.dom().insert(key));
        }
        (RedBlackTree { root: new_root, len: self.len + insertion_count }, insertion_count != 0)
    }

    /// The map without `key`, and whether the key was there. A map that
    /// does not hold the key is handed back as it was.
    pub fn remove(self, key: &K) -> (res: (Self, bool))
        requires
            obeys_total_order::<K>(),
            self.wf(),
        ensures
            res.0.wf(),
            res.0@ == self@.remove(*key),
            res.1 == self@.contains_key(*key),
            !res.1 ==> res.0 == self,
            res.0.root() == self.root().without(*key).with_color(Color::Black),
            self.removed(*key, res),
    {
        proof {
            self.root.lemma_rb_iff();
        }
        let mut removal_count: usize = 0xdeadbeaf;
        let new_root = self.root.delete(key, &mut removal_count);
        assert(removal_count != 0xdeadbeaf);
        proof {
            new_root.lemma_rb_iff();
            new_root.lemma_view_finite();
            vstd::set::axiom_set_remove_len(self@.dom(), *key);
            assert(new_root.view().dom() =~= self@.dom().remove(*key));
        }
        (RedBlackTree { root: new_root, len: self.len - removal_count }, removal_count != 0)
    }

    /// The number of entries.
    pub fn len(&self) -> (n: usize)
        requires
            self.wf(),
        ensures
            n == self@.len(),
            n == self.count(),
    {
        self.len
    }

    /// Walks the tree and tells whether it is free of transient colors:
    /// every node red or black, every leaf black.
    pub fn persistent_colors(&self) -> (ok: bool)
        ensures
            ok == self.root().persistent_colors(),
    {
        self.root.has_persistent_colors()
    }

    /// The tree of a map that `wf` holds of is low enough for its black
    /// nodes to be counted in a `u64`, so `balanced` can walk it.
    pub proof fn lemma_black_height_fits(self)
        requires
            obeys_total_order::<K>(),
            self.wf(),
        ensures
            self.root().black_height(true) <= u64::MAX,
    {
        self.root.lemma_rb_iff();
        self.root.lemma_height_le_len();
    }

    /// Counts the black nodes along the paths of the tree and tells whether
    /// all paths pass the same number of them. The tree must be free of
    /// transient colors, and its count must fit in a `u64`.
    pub fn balanced(&self) -> (ok: bool)
        requires
            self.root().persistent_colors(),
            self.root().black_height(true) <= u64::MAX,
        ensures
            ok == self.root().black_balanced_spec(),
    {
        self.root.black_balanced()
    }

    /// Walks the tree and tells whether no red node has a red child and no
    /// child of any node has a transient color.
    pub fn no_red_red(&self) -> (ok: bool)
        ensures
            ok == self.root().no_red_red_spec(),
    {
        self.root.no_red_red()
    }
}

} // verus!
