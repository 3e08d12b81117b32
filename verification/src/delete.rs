//! Deletion: remove the key's node, and carry the black height it leaves
//! missing up the tree as a double black until a rebalancing absorbs it.

use vstd::prelude::*;
use vstd::pervasive::unreached;
use std::sync::Arc;
use crate::balance::joined;
use crate::color::Color;
use crate::node::{NodeRef, leaf_of, new_leaf, new_node, node, share};
use crate::order::{less, lemma_order, key_lt, obeys_total_order};

verus! {

/// What a removal below a root of color `c` hands back: a red-black tree
/// where the root was red, and one that may have turned its root double
/// black where the root was black.
pub open spec fn removal_shape<K: Ord, V>(c: Color, res: NodeRef<K, V>) -> bool {
    if c == Color::Red {
        res.rb()
    } else {
        res.dbl()
    }
}

/// The children `bubble` is made for: of one height, one of them a
/// red-black tree and the other possibly double black at its root, and
/// neither of them red under a red parent.
pub open spec fn bubble_pre<K: Ord, V>(c: Color, l: NodeRef<K, V>, r: NodeRef<K, V>) -> bool {
    &&& c.persistent()
    &&& l.height() == r.height()
    &&& (l.rb() && (r.rb() || r.dbl())) || ((l.rb() || l.dbl()) && r.rb())
    &&& c == Color::Red ==> l.col != Color::Red && r.col != Color::Red
}

/// What `bubble` makes of the parts of a node: the node itself where
/// neither child is double black; else the node one step blacker over both
/// children one step less black, rebalanced.
pub open spec fn bubbled<K: Ord, V>(
    c: Color,
    l: NodeRef<K, V>,
    k: K,
    v: V,
    r: NodeRef<K, V>,
) -> NodeRef<K, V> {
    if l.col == Color::DoubleBlack || r.col == Color::DoubleBlack {
        node(
            c.darker(),
            l.with_color(l.col.lighter()),
            k,
            v,
            r.with_color(r.col.lighter()),
        ).balanced()
    } else {
        node(c, l, k, v, r)
    }
}

impl<K: Ord, V> NodeRef<K, V> {
    /// The subtree without `key`. A node that holds the key is replaced by
    /// what is left of it without its root; any other node is rebuilt by
    /// `bubble` around the child the key belongs to. A leaf stays.
    pub open spec fn without(self, key: K) -> Self
        decreases self,
    {
        if self.leaf() {
            self
        } else if less(key, self.key()) {
            bubbled(self.col, self.lft().without(key), self.key(), self.val(), self.rgt())
        } else if less(self.key(), key) {
            bubbled(self.col, self.lft(), self.key(), self.val(), self.rgt().without(key))
        } else {
            self.without_root()
        }
    }

    /// What is left of an internal node without the entry at its root.
    /// Over two leaves: a black leaf for a red node, a double-black leaf
    /// for a black one. A red node over one leaf: the other child. A black
    /// node over a leaf and a red child: that child turned black. A black
    /// node over a leaf and a black child: that child one step blacker.
    /// Over two internal nodes: the largest entry to the left moves to the
    /// root.
    pub open spec fn without_root(self) -> Self
        decreases self, 0nat,
    {
        let l = self.lft();
        let r = self.rgt();
        if self.leaf() {
            self
        } else if l.leaf() && r.leaf() {
            if self.col == Color::Red {
                leaf_of(Color::Black)
            } else {
                leaf_of(Color::DoubleBlack)
            }
        } else if self.col == Color::Red && r.leaf() {
            l
        } else if self.col == Color::Red && l.leaf() {
            r
        } else if self.col == Color::Black && l.col == Color::Red && r.leaf() {
            l.with_color(Color::Black)
        } else if self.col == Color::Black && l.leaf() && r.col == Color::Red {
            r.with_color(Color::Black)
        } else if self.col == Color::Black && l.leaf() && r.col == Color::Black {
            r.with_color(Color::DoubleBlack)
        } else if self.col == Color::Black && l.col == Color::Black && r.leaf() {
            l.with_color(Color::DoubleBlack)
        } else if !l.leaf() && !r.leaf() {
            bubbled(self.col, l.without_max(), l.max_key(), l.max_val(), r)
        } else {
            self
        }
    }

    /// The subtree without the entry of its largest key: the rightmost node
    /// loses its root, and every node above it is rebuilt by `bubble`.
    pub open spec fn without_max(self) -> Self
        decreases self, 1nat,
    {
        if self.leaf() {
            self
        } else if self.rgt().leaf() {
            self.without_root()
        } else {
            bubbled(self.col, self.lft(), self.key(), self.val(), self.rgt().without_max())
        }
    }

    /// The largest key of the subtree: the key of its rightmost node.
    pub open spec fn max_key(self) -> K
        decreases self,
    {
        match self.data {
            None => arbitrary(),
            Some(d) => if d.right.leaf() {
                *d.key
            } else {
                d.right.max_key()
            },
        }
    }

    /// The value bound to the largest key.
    pub open spec fn max_val(self) -> V
        decreases self,
    {
        match self.data {
            None => arbitrary(),
            Some(d) => if d.right.leaf() {
                *d.val
            } else {
                d.right.max_val()
            },
        }
    }

    /// The rightmost entry is an entry of the tree, and no key sorts after
    /// its key.
    pub(crate) proof fn lemma_max(self)
        requires
            obeys_total_order::<K>(),
            !self.leaf(),
            self.bst(),
        ensures
            self.view().contains_key(self.max_key()),
            self.view()[self.max_key()] == self.max_val(),
            forall|q: K| #[trigger]
                self.view().contains_key(q) ==> q == self.max_key() || less(q, self.max_key()),
        decreases self,
    {
        lemma_order::<K>();
        self.lemma_unfold();
        if !self.rgt().leaf() {
            self.rgt().lemma_max();
            assert(self.rgt().view().contains_key(self.max_key()));
        }
    }

    /// The largest key and its value.
    pub fn find_max_kvp(&self) -> (kv: (Arc<K>, Arc<V>))
        requires
            !self.leaf(),
        ensures
            *kv.0 == self.max_key(),
            *kv.1 == self.max_val(),
        decreases self,
    {
        let data = self.get_data();
        if data.right.is_leaf() {
            (share(&data.key), share(&data.val))
        } else {
            data.right.find_max_kvp()
        }
    }

    /// The tree without `search_key`, under a black root. `removal_count`
    /// is set to 1 if the key was there and to 0 if not. A tree that does
    /// not hold the key is handed back with the nodes it had.
    pub fn delete(&self, search_key: &K, removal_count: &mut usize) -> (res: Self)
        requires
            obeys_total_order::<K>(),
            self.rb(),
            self.bst(),
        ensures
            res == self.without(*search_key).with_color(Color::Black),
            res.rb(),
            res.bst(),
            res.col == Color::Black,
            res.view() == self.view().remove(*search_key),
            *final(removal_count) == (if self.view().contains_key(*search_key) {
                1usize
            } else {
                0usize
            }),
            !self.view().contains_key(*search_key) ==> res.data == self.data,
    {
        del(self.clone(), search_key, removal_count).blacken()
    }
}

/// Finds the node that holds `search_key` and removes it.
pub fn del<K: Ord, V>(node: NodeRef<K, V>, search_key: &K, removal_count: &mut usize) -> (res:
    NodeRef<K, V>)
    requires
        obeys_total_order::<K>(),
        node.rb(),
        node.bst(),
    ensures
        res == node.without(*search_key),
        res.bst(),
        res.view() == node.view().remove(*search_key),
        res.height() == node.height(),
        removal_shape(node.col, res),
        *final(removal_count) == (if node.view().contains_key(*search_key) {
            1usize
        } else {
            0usize
        }),
        !node.view().contains_key(*search_key) ==> res == node,
    decreases node,
{
    proof {
        lemma_order::<K>();
    }
    if !node.is_leaf() {
        proof {
            node.lemma_unfold();
        }
        let c = node.col;
        let k = share(&node.get_data().key);
        let v = share(&node.get_data().val);
        let (l, r) = node.children();

        if key_lt::<K>(search_key, &k) {
            assert(!r.view().contains_key(*search_key));
            let sub = del(l, search_key, removal_count);
            assert(sub.keys_lt(*k));
            let res = bubble(c, sub, k, v, r);
            proof {
                assert(res.view() =~= node.view().remove(*search_key));
                if !node.view().contains_key(*search_key) {
                    assert(res.data.unwrap() == node.data.unwrap());
                }
            }
            res
        } else if key_lt::<K>(&k, search_key) {
            assert(!l.view().contains_key(*search_key));
            let sub = del(r, search_key, removal_count);
            assert(sub.keys_gt(*k));
            let res = bubble(c, l, k, v, sub);
            proof {
                assert(res.view() =~= node.view().remove(*search_key));
                if !node.view().contains_key(*search_key) {
                    assert(res.data.unwrap() == node.data.unwrap());
                }
            }
            res
        } else {
            *removal_count = 1;
            assert(*search_key == *k);
            remove_node(node)
        }
    } else {
        *removal_count = 0;
        assert(node.view().remove(*search_key) =~= node.view());
        node
    }
}

/// Removes the entry at the root of `node`. What is handed back has the
/// height of `node`, so a black node without children leaves a double-black
/// leaf behind.
pub fn remove_node<K: Ord, V>(node: NodeRef<K, V>) -> (res: NodeRef<K, V>)
    requires
        obeys_total_order::<K>(),
        !node.leaf(),
        node.rb(),
        node.bst(),
    ensures
        res == node.without_root(),
        res.bst(),
        res.view() == node.view().remove(node.key()),
        res.height() == node.height(),
        removal_shape(node.col, res),
    decreases node, 0nat,
{
    proof {
        lemma_order::<K>();
        node.lemma_unfold();
    }
    let (left, right) = node.children();
    proof {
        left.lemma_height_pos();
        right.lemma_height_pos();
        if !left.leaf() {
            left.lemma_unfold();
            left.lft().lemma_height_pos();
        }
        if !right.leaf() {
            right.lemma_unfold();
            right.lft().lemma_height_pos();
        }
    }
    if left.is_leaf() && right.is_leaf() {
        let res = if node.col == Color::Red {
            new_leaf(Color::Black)
        } else {
            new_leaf(Color::DoubleBlack)
        };
        assert(res.view() =~= node.view().remove(node.key()));
        return res;
    }
    if node.col == Color::Red {
        // A red node has two children or none: its children are black and of
        // one height, so these two branches are never taken.
        assert(left.leaf() == right.leaf());
        if right.is_leaf() {
            return left;
        }
        if left.is_leaf() {
            return right;
        }
    }
    if node.col == Color::Black {
        if left.col == Color::Red && right.is_leaf() {
            let data = left.get_data();
            let res = new_node(
                Color::Black,
                data.left.clone(),
                share(&data.key),
                share(&data.val),
                data.right.clone(),
            );
            proof {
                res.lemma_unfold();
                assert(res.view() =~= node.view().remove(node.key()));
            }
            return res;
        }
        if left.is_leaf() && right.col == Color::Red {
            let data = right.get_data();
            let res = new_node(
                Color::Black,
                data.left.clone(),
                share(&data.key),
                share(&data.val),
                data.right.clone(),
            );
            proof {
                res.lemma_unfold();
                assert(res.view() =~= node.view().remove(node.key()));
            }
            return res;
        }
        // A black child beside a leaf would be a leaf itself, so these two
        // branches are never taken either.
        assert(left.leaf() ==> right.col != Color::Black);
        assert(right.leaf() ==> left.col != Color::Black);
        if left.is_leaf() && right.col == Color::Black {
            let child = right.clone().inc();
            return child;
        }
        if left.col == Color::Black && right.is_leaf() {
            let child = left.clone().inc();
            return child;
        }
    }
    if !left.is_leaf() && !right.is_leaf() {
        let (k, v) = left.find_max_kvp();
        proof {
            left.lemma_max();
            assert(left.view().contains_key(*k));
            assert(!right.view().contains_key(*k));
            right.lemma_keys_gt_trans(node.key(), left.max_key());
        }
        let new_left = remove_max(left);
        assert(new_left.keys_lt(*k));
        let res = bubble(node.col, new_left, k, v, right);
        assert(res.view() =~= node.view().remove(node.key()));
        return res;
    }
    unreached()
}

/// A node with the given parts that pushes a double black off its
/// children: where one of them is double black, both are taken one step
/// down, the node one step up, and the node is rebalanced.
pub fn bubble<K: Ord, V>(
    color: Color,
    l: NodeRef<K, V>,
    k: Arc<K>,
    v: Arc<V>,
    r: NodeRef<K, V>,
) -> (res: NodeRef<K, V>)
    requires
        obeys_total_order::<K>(),
        l.bst(),
        r.bst(),
        l.keys_lt(*k),
        r.keys_gt(*k),
        bubble_pre(color, l, r),
    ensures
        res == bubbled(color, l, *k, *v, r),
        !res.leaf(),
        res.bst(),
        res.view() == joined(l.view(), *k, *v, r.view()),
        res.height() == color.blackness() + l.height(),
        removal_shape(color, res),
{
    proof {
        l.lemma_height_pos_dbl();
        r.lemma_height_pos_dbl();
    }
    if l.col == Color::DoubleBlack || r.col == Color::DoubleBlack {
        let ld = l.dec();
        let rd = r.dec();
        proof {
            // Taking a node one step down changes neither its entries nor
            // their order.
            if !l.leaf() {
                l.lemma_unfold();
            }
            if !r.leaf() {
                r.lemma_unfold();
            }
            assert(ld.bst() && rd.bst());
        }
        let lifted = new_node(color.inc(), ld, k, v, rd);
        proof {
            lifted.lemma_unfold();
        }
        lifted.balance()
    } else {
        let res = new_node(color, l, k, v, r);
        proof {
            res.lemma_unfold();
        }
        res
    }
}

/// Removes the entry with the largest key.
pub fn remove_max<K: Ord, V>(node: NodeRef<K, V>) -> (res: NodeRef<K, V>)
    requires
        obeys_total_order::<K>(),
        !node.leaf(),
        node.rb(),
        node.bst(),
    ensures
        res == node.without_max(),
        res.bst(),
        res.view() == node.view().remove(node.max_key()),
        res.height() == node.height(),
        removal_shape(node.col, res),
    decreases node, 1nat,
{
    proof {
        lemma_order::<K>();
        node.lemma_unfold();
    }
    let (left, key, right) = node.children_and_key();
    if right.is_leaf() {
        remove_node(node)
    } else {
        let val = share(&node.get_data().val);
        proof {
            right.lemma_max();
            assert(!left.view().contains_key(node.max_key()));
        }
        let sub = remove_max(right);
        assert(sub.keys_gt(*key));
        let res = bubble(node.col, left, key, val, sub);
        assert(res.view() =~= node.view().remove(node.max_key()));
        res
    }
}

} // verus!
