//! Tree nodes: the shared, immutable records a map is built from, their
//! mathematical reading, and the lookup that descends them.

use vstd::prelude::*;
use std::sync::Arc;
use crate::color::Color;
use crate::order::{less, lemma_order, key_lt, obeys_total_order};

verus! {

/// What an internal node holds besides its color.
pub struct NodeData<K, V> {
    pub left: NodeRef<K, V>,
    pub key: Arc<K>,
    pub val: Arc<V>,
    pub right: NodeRef<K, V>,
}

/// A handle on a subtree: a colored leaf, or a color with a shared record.
/// The color belongs to the handle, so recoloring never copies the record.
pub struct NodeRef<K, V> {
    pub col: Color,
    pub data: Option<Arc<NodeData<K, V>>>,
}

/// Another handle on the allocation behind `a`. Wraps `Arc::clone`, which
/// returns a pointer to the same allocation: the value seen through the new
/// handle is the value seen through `a`.
#[verifier::external_body]
pub(crate) fn share<T>(a: &Arc<T>) -> (r: Arc<T>)
    ensures
        r == *a,
{
    Arc::clone(a)
}

/// The leaf of the given color.
pub open spec fn leaf_of<K, V>(c: Color) -> NodeRef<K, V> {
    NodeRef { col: c, data: None }
}

/// The internal node with the given parts.
pub open spec fn node<K, V>(c: Color, l: NodeRef<K, V>, k: K, v: V, r: NodeRef<K, V>) -> NodeRef<
    K,
    V,
> {
    NodeRef {
        col: c,
        data: Some(Arc::new(NodeData { left: l, key: Arc::new(k), val: Arc::new(v), right: r })),
    }
}

impl<K, V> Clone for NodeRef<K, V> {
    /// A second handle on the same subtree; no node is copied.
    fn clone(&self) -> (r: Self)
        ensures
            r == *self,
    {
        match &self.data {
            None => NodeRef { col: self.col, data: None },
            Some(d) => NodeRef { col: self.col, data: Some(share(d)) },
        }
    }
}

impl<K: Ord, V> NodeRef<K, V> {
    /// The handle is a leaf.
    pub open spec fn leaf(self) -> bool {
        self.data is None
    }

    /// The left child of an internal node.
    pub open spec fn lft(self) -> Self
        recommends
            !self.leaf(),
    {
        self.data.unwrap().left
    }

    /// The right child of an internal node.
    pub open spec fn rgt(self) -> Self
        recommends
            !self.leaf(),
    {
        self.data.unwrap().right
    }

    /// The key of an internal node.
    pub open spec fn key(self) -> K
        recommends
            !self.leaf(),
    {
        *self.data.unwrap().key
    }

    /// The value of an internal node.
    pub open spec fn val(self) -> V
        recommends
            !self.leaf(),
    {
        *self.data.unwrap().val
    }

    /// The same subtree under a root of color `c`.
    pub open spec fn with_color(self, c: Color) -> Self {
        NodeRef { col: c, data: self.data }
    }

    /// This handle is an internal node with exactly these parts.
    pub open spec fn is_node(self, c: Color, l: Self, k: K, v: V, r: Self) -> bool {
        &&& !self.leaf()
        &&& self.col == c
        &&& self.lft() == l
        &&& self.key() == k
        &&& self.val() == v
        &&& self.rgt() == r
    }

    /// The entries of the subtree.
    pub open spec fn view(self) -> Map<K, V>
        decreases self,
    {
        match self.data {
            None => Map::empty(),
            Some(d) => d.left.view().union_prefer_right(d.right.view()).insert(*d.key, *d.val),
        }
    }

    /// Every key of the subtree sorts before `k`.
    pub open spec fn keys_lt(self, k: K) -> bool {
        forall|q: K| #[trigger] self.view().contains_key(q) ==> less(q, k)
    }

    /// Every key of the subtree sorts after `k`.
    pub open spec fn keys_gt(self, k: K) -> bool {
        forall|q: K| #[trigger] self.view().contains_key(q) ==> less(k, q)
    }

    /// Search-tree order: at every internal node the keys to the left sort
    /// before the node's key and the keys to the right after it.
    pub open spec fn bst(self) -> bool
        decreases self,
    {
        match self.data {
            None => true,
            Some(d) => {
                &&& d.left.bst()
                &&& d.right.bst()
                &&& d.left.keys_lt(*d.key)
                &&& d.right.keys_gt(*d.key)
            },
        }
    }

    /// The blackness summed along the leftmost path, the leaf included. In a
    /// balanced subtree every path sums to this.
    pub open spec fn height(self) -> int
        decreases self,
    {
        match self.data {
            None => self.col.blackness(),
            Some(d) => self.col.blackness() + d.left.height(),
        }
    }

    /// A red-black tree at rest: red and black nodes only, black leaves, no
    /// red node with a red child, and the same blackness along every path.
    pub open spec fn rb(self) -> bool
        decreases self,
    {
        match self.data {
            None => self.col == Color::Black,
            Some(d) => {
                &&& self.col.persistent()
                &&& d.left.rb()
                &&& d.right.rb()
                &&& d.left.height() == d.right.height()
                &&& self.col == Color::Red ==> d.left.col == Color::Black && d.right.col
                    == Color::Black
            },
        }
    }

    /// Both subtrees are red-black trees of one height; nothing is said of
    /// the root's own color.
    pub open spec fn sub_ok(self) -> bool {
        match self.data {
            None => true,
            Some(d) => d.left.rb() && d.right.rb() && d.left.height() == d.right.height(),
        }
    }

    /// A red-black tree but that a red root may have a red child.
    pub open spec fn nearly(self) -> bool {
        &&& self.sub_ok()
        &&& self.col.persistent()
        &&& self.leaf() ==> self.col == Color::Black
    }

    /// A red-black tree below a root that is black or double black.
    pub open spec fn dbl(self) -> bool {
        &&& self.sub_ok()
        &&& (self.col == Color::Black || self.col == Color::DoubleBlack)
    }

    /// A red-black tree has height at least one.
    pub(crate) proof fn lemma_height_pos(self)
        requires
            self.rb(),
        ensures
            self.height() >= 1,
        decreases self,
    {
        if !self.leaf() {
            self.lft().lemma_height_pos();
        }
    }

    /// A red-black tree under a double-black root has height at least two.
    pub(crate) proof fn lemma_height_pos_dbl(self)
        requires
            self.rb() || self.dbl(),
        ensures
            self.height() >= 1,
            self.col == Color::DoubleBlack ==> self.height() >= 2,
    {
        if self.rb() {
            self.lemma_height_pos();
        } else if !self.leaf() {
            self.lft().lemma_height_pos();
        }
    }

    /// The definitions, one level down.
    pub(crate) proof fn lemma_unfold(self)
        requires
            !self.leaf(),
        ensures
            self.view() == self.lft().view().union_prefer_right(self.rgt().view()).insert(
                self.key(),
                self.val(),
            ),
            self.bst() == (self.lft().bst() && self.rgt().bst() && self.lft().keys_lt(self.key())
                && self.rgt().keys_gt(self.key())),
            self.height() == self.col.blackness() + self.lft().height(),
            self.sub_ok() == (self.lft().rb() && self.rgt().rb() && self.lft().height()
                == self.rgt().height()),
            self.rb() == (self.sub_ok() && self.col.persistent() && (self.col == Color::Red
                ==> self.lft().col == Color::Black && self.rgt().col == Color::Black)),
    {
    }

    /// A bound on the keys of a node is a bound on its key and on the keys
    /// of both subtrees.
    pub(crate) proof fn lemma_keys_bounds(self, k: K)
        requires
            !self.leaf(),
        ensures
            self.keys_lt(k) == (self.lft().keys_lt(k) && less(self.key(), k) && self.rgt().keys_lt(
                k,
            )),
            self.keys_gt(k) == (self.lft().keys_gt(k) && less(k, self.key()) && self.rgt().keys_gt(
                k,
            )),
    {
        self.lemma_unfold();
        assert(self.view().contains_key(self.key()));
        assert forall|q: K| #[trigger]
            self.lft().view().contains_key(q) implies self.view().contains_key(q) by {}
        assert forall|q: K| #[trigger]
            self.rgt().view().contains_key(q) implies self.view().contains_key(q) by {}
    }

    /// A bound from above can be raised.
    pub(crate) proof fn lemma_keys_lt_trans(self, k1: K, k2: K)
        requires
            obeys_total_order::<K>(),
            self.keys_lt(k1),
            less(k1, k2),
        ensures
            self.keys_lt(k2),
    {
        lemma_order::<K>();
    }

    /// A bound from below can be lowered.
    pub(crate) proof fn lemma_keys_gt_trans(self, k1: K, k2: K)
        requires
            obeys_total_order::<K>(),
            self.keys_gt(k1),
            less(k2, k1),
        ensures
            self.keys_gt(k2),
    {
        lemma_order::<K>();
    }

    /// Whether the handle is a leaf.
    pub fn is_leaf(&self) -> (r: bool)
        ensures
            r == self.leaf(),
    {
        self.data.is_none()
    }

    /// The record behind an internal node.
    pub fn get_data(&self) -> (d: &NodeData<K, V>)
        requires
            !self.leaf(),
        ensures
            d.left == self.lft(),
            d.right == self.rgt(),
            *d.key == self.key(),
            *d.val == self.val(),
            d.key == self.data.unwrap().key,
            d.val == self.data.unwrap().val,
    {
        let a: &Arc<NodeData<K, V>> = self.data.as_ref().unwrap();
        &**a
    }

    /// Handles on both children of an internal node.
    pub fn children(&self) -> (c: (Self, Self))
        requires
            !self.leaf(),
        ensures
            c.0 == self.lft(),
            c.1 == self.rgt(),
    {
        let d = self.get_data();
        (d.left.clone(), d.right.clone())
    }

    /// Handles on both children of an internal node and on its key.
    pub fn children_and_key(&self) -> (c: (Self, Arc<K>, Self))
        requires
            !self.leaf(),
        ensures
            c.0 == self.lft(),
            c.1 == self.data.unwrap().key,
            c.2 == self.rgt(),
    {
        let d = self.get_data();
        (d.left.clone(), share(&d.key), d.right.clone())
    }

    /// The node recolored red.
    pub fn redden(self) -> (r: Self)
        requires
            !self.leaf(),
        ensures
            r == self.with_color(Color::Red),
            r.col == Color::Red && r.data == self.data,
    {
        NodeRef { col: Color::Red, data: self.data }
    }

    /// The node recolored black; a double-black leaf becomes a black leaf.
    pub fn blacken(self) -> (r: Self)
        ensures
            r == self.with_color(Color::Black),
            r.col == Color::Black && r.data == self.data,
    {
        NodeRef { col: Color::Black, data: self.data }
    }

    /// The node one step blacker.
    pub fn inc(self) -> (r: Self)
        requires
            self.col != Color::DoubleBlack,
        ensures
            r == self.with_color(self.col.darker()),
            r.col.blackness() == self.col.blackness() + 1 && r.data == self.data,
    {
        NodeRef { col: self.col.inc(), data: self.data }
    }

    /// The node one step less black.
    pub fn dec(self) -> (r: Self)
        requires
            self.col != Color::NegativeBlack,
        ensures
            r == self.with_color(self.col.lighter()),
            r.col.blackness() == self.col.blackness() - 1 && r.data == self.data,
    {
        NodeRef { col: self.col.dec(), data: self.data }
    }

    /// Lookup by descent: left for a smaller key, right for a larger one.
    pub fn find<'a>(&'a self, search_key: &K) -> (r: Option<&'a V>)
        requires
            obeys_total_order::<K>(),
            self.bst(),
        ensures
            r == (if self.view().contains_key(*search_key) {
                Some(&self.view()[*search_key])
            } else {
                None
            }),
        decreases self,
    {
        proof {
            lemma_order::<K>();
        }
        match &self.data {
            Some(d) => {
                if key_lt::<K>(search_key, &d.key) {
                    assert(!d.right.view().contains_key(*search_key));
                    d.left.find(search_key)
                } else if key_lt::<K>(&d.key, search_key) {
                    assert(!d.left.view().contains_key(*search_key));
                    d.right.find(search_key)
                } else {
                    assert(*search_key == *d.key);
                    Some(&d.val)
                }
            },
            None => None,
        }
    }
}

/// A childless sentinel.
pub fn new_leaf<K: Ord, V>(color: Color) -> (n: NodeRef<K, V>)
    requires
        color == Color::Black || color == Color::DoubleBlack,
    ensures
        n == leaf_of::<K, V>(color),
        n.leaf() && n.col == color,
{
    NodeRef { col: color, data: None }
}

/// An internal node with the given parts.
pub fn new_node<K: Ord, V>(
    color: Color,
    left: NodeRef<K, V>,
    key: Arc<K>,
    val: Arc<V>,
    right: NodeRef<K, V>,
) -> (n: NodeRef<K, V>)
    ensures
        n == node(color, left, *key, *val, right),
        n.is_node(color, left, *key, *val, right),
{
    NodeRef { col: color, data: Some(Arc::new(NodeData { left, key, val, right })) }
}

} // verus!
