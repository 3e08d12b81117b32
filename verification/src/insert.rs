//! Insertion: descend to the key's place, then rebalance on the way back.

use vstd::prelude::*;
use std::sync::Arc;
use crate::color::Color;
use crate::node::{NodeRef, new_node, node, share};
use crate::order::less;
use crate::order::{lemma_order, key_lt, obeys_total_order};

verus! {

impl<K: Ord, V> NodeRef<K, V> {
    /// The subtree with `key` bound to `val`. A leaf becomes a red node
    /// over two copies of itself. A node that holds the key keeps its color,
    /// its key and both children and takes the value. Any other node is
    /// rebuilt around the child the key belongs to and rebalanced.
    pub open spec fn with_binding(self, key: K, val: V) -> Self
        decreases self,
    {
        if self.leaf() {
            node(Color::Red, self, key, val, self)
        } else if less(key, self.key()) {
            node(
                self.col,
                self.lft().with_binding(key, val),
                self.key(),
                self.val(),
                self.rgt(),
            ).balanced()
        } else if less(self.key(), key) {
            node(
                self.col,
                self.lft(),
                self.key(),
                self.val(),
                self.rgt().with_binding(key, val),
            ).balanced()
        } else {
            node(self.col, self.lft(), self.key(), val, self.rgt())
        }
    }

    /// What `with_binding` does to a red-black search tree: the key is
    /// bound to the value and nothing else changes, the order and the
    /// height stay, and the result is a red-black tree, but that under a
    /// root that was red the new root may have a red child.
    pub(crate) proof fn lemma_with_binding(self, key: K, val: V)
        requires
            obeys_total_order::<K>(),
            self.rb(),
            self.bst(),
        ensures
            !self.with_binding(key, val).leaf(),
            self.with_binding(key, val).bst(),
            self.with_binding(key, val).view() == self.view().insert(key, val),
            self.with_binding(key, val).height() == self.height(),
            self.col == Color::Black ==> self.with_binding(key, val).rb(),
            self.col == Color::Red ==> self.with_binding(key, val).nearly(),
        decreases self,
    {
        lemma_order::<K>();
        let res = self.with_binding(key, val);
        if self.leaf() {
            res.lemma_unfold();
            assert(res.view() =~= self.view().insert(key, val));
        } else {
            self.lemma_unfold();
            let l = self.lft();
            let r = self.rgt();
            if less(key, self.key()) {
                l.lemma_with_binding(key, val);
                let sub = l.with_binding(key, val);
                assert(!r.view().contains_key(key));
                assert(sub.keys_lt(self.key()));
                let n = node(self.col, sub, self.key(), self.val(), r);
                n.lemma_unfold();
                assert(n.view() =~= self.view().insert(key, val));
                n.lemma_balanced();
            } else if less(self.key(), key) {
                r.lemma_with_binding(key, val);
                let sub = r.with_binding(key, val);
                assert(!l.view().contains_key(key));
                assert(sub.keys_gt(self.key()));
                let n = node(self.col, l, self.key(), self.val(), sub);
                n.lemma_unfold();
                assert(n.view() =~= self.view().insert(key, val));
                n.lemma_balanced();
            } else {
                assert(key == self.key());
                res.lemma_unfold();
                assert(res.view() =~= self.view().insert(key, val));
            }
        }
    }

    /// The tree with `key` bound to `val`, under a black root.
    /// `insertion_count` is set to 1 if the key is new, to 0 if its value
    /// was replaced.
    pub fn modify_at(&self, key: K, val: V, insertion_count: &mut usize) -> (res: Self)
        requires
            obeys_total_order::<K>(),
            self.rb(),
            self.bst(),
        ensures
            res == self.with_binding(key, val).with_color(Color::Black),
            res.rb(),
            res.bst(),
            res.col == Color::Black,
            res.view() == self.view().insert(key, val),
            *final(insertion_count) == (if self.view().contains_key(key) {
                0usize
            } else {
                1usize
            }),
    {
        self.modify_at_rec(key, val, insertion_count).blacken()
    }

    /// One step of the descent. The result has the height of `self`. Under
    /// a black root it is a red-black tree; under a red root it is one but
    /// that the root may have a red child, which the caller repairs.
    pub fn modify_at_rec(&self, key: K, val: V, insertion_count: &mut usize) -> (res: Self)
        requires
            obeys_total_order::<K>(),
            self.rb(),
            self.bst(),
        ensures
            res == self.with_binding(key, val),
            !res.leaf(),
            res.bst(),
            res.view() == self.view().insert(key, val),
            res.height() == self.height(),
            self.col == Color::Black ==> res.rb(),
            self.col == Color::Red ==> res.nearly(),
            *final(insertion_count) == (if self.view().contains_key(key) {
                0usize
            } else {
                1usize
            }),
        decreases self,
    {
        proof {
            lemma_order::<K>();
            self.lemma_with_binding(key, val);
        }
        if self.is_leaf() {
            *insertion_count = 1;
            new_node(Color::Red, self.clone(), Arc::new(key), Arc::new(val), self.clone())
        } else {
            proof {
                self.lemma_unfold();
            }
            let k = share(&self.get_data().key);
            let v = share(&self.get_data().val);
            let c = self.col;
            let (l, r) = self.children();

            if key_lt::<K>(&key, &k) {
                assert(!r.view().contains_key(key));
                let sub = l.modify_at_rec(key, val, insertion_count);
                assert(sub.keys_lt(*k));
                let rebuilt = new_node(c, sub, k, v, r);
                proof {
                    rebuilt.lemma_unfold();
                }
                rebuilt.balance()
            } else if key_lt::<K>(&k, &key) {
                assert(!l.view().contains_key(key));
                let sub = r.modify_at_rec(key, val, insertion_count);
                assert(sub.keys_gt(*k));
                let rebuilt = new_node(c, l, k, v, sub);
                proof {
                    rebuilt.lemma_unfold();
                }
                rebuilt.balance()
            } else {
                *insertion_count = 0;
                assert(key == *k);
                new_node(c, l, k, Arc::new(val), r)
            }
        }
    }
}

} // verus!
