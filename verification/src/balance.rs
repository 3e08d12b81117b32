//! Rebalancing: the four rotations that remove a red node under a red node
//! and the two that remove a negative-black node under a double-black one.

use vstd::prelude::*;
use std::sync::Arc;
use crate::color::Color;
use crate::node::{NodeRef, new_node, node, share};
use crate::order::{less, lemma_order, obeys_total_order};

verus! {

/// The entries of a node with the given parts.
pub open spec fn joined<K, V>(l: Map<K, V>, k: K, v: V, r: Map<K, V>) -> Map<K, V> {
    l.union_prefer_right(r).insert(k, v)
}

/// Four red-black trees of one height and three keys between them, put
/// together with the middle key on top of two black nodes, make a search
/// tree with the same entries that is red-black again.
pub(crate) proof fn lemma_canonical<K: Ord, V>(
    color: Color,
    a: NodeRef<K, V>,
    b: NodeRef<K, V>,
    c: NodeRef<K, V>,
    d: NodeRef<K, V>,
    xk: K,
    xv: V,
    yk: K,
    yv: V,
    zk: K,
    zv: V,
)
    requires
        obeys_total_order::<K>(),
        a.bst() && b.bst() && c.bst() && d.bst(),
        a.keys_lt(xk) && b.keys_gt(xk) && less(xk, yk),
        b.keys_lt(yk) && c.keys_gt(yk) && less(yk, zk),
        c.keys_lt(zk) && d.keys_gt(zk),
        a.rb() && b.rb() && c.rb() && d.rb(),
        a.height() == b.height() && b.height() == c.height() && c.height() == d.height(),
        color.persistent(),
    ensures
        ({
            let res = node(
                color,
                node(Color::Black, a, xk, xv, b),
                yk,
                yv,
                node(Color::Black, c, zk, zv, d),
            );
            &&& res.view() == joined(
                joined(a.view(), xk, xv, b.view()),
                yk,
                yv,
                joined(c.view(), zk, zv, d.view()),
            )
            &&& res.bst()
            &&& res.rb()
            &&& res.height() == color.blackness() + 1 + a.height()
        }),
{
    lemma_order::<K>();
    let left = node(Color::Black, a, xk, xv, b);
    let right = node(Color::Black, c, zk, zv, d);
    left.lemma_unfold();
    right.lemma_unfold();
    assert(left.keys_lt(yk));
    assert(right.keys_gt(yk));
    let res = node(color, left, yk, yv, right);
    res.lemma_unfold();
}

/// The common right-hand side of the four rotations: `y` on top in the
/// given color, over two black nodes `x` and `z` that hold the four
/// subtrees in order.
pub fn canonical_form<K: Ord, V>(
    color: Color,
    a: NodeRef<K, V>,
    b: NodeRef<K, V>,
    c: NodeRef<K, V>,
    d: NodeRef<K, V>,
    xk: Arc<K>,
    xv: Arc<V>,
    yk: Arc<K>,
    yv: Arc<V>,
    zk: Arc<K>,
    zv: Arc<V>,
) -> (res: NodeRef<K, V>)
    ensures
        res == node(
            color,
            node(Color::Black, a, *xk, *xv, b),
            *yk,
            *yv,
            node(Color::Black, c, *zk, *zv, d),
        ),
{
    new_node(
        color,
        new_node(Color::Black, a, xk, xv, b),
        yk,
        yv,
        new_node(Color::Black, c, zk, zv, d),
    )
}

impl<K: Ord, V> NodeRef<K, V> {
    /// A negative-black node as deletion makes one: a red node of a
    /// red-black tree, with two internal black children, taken one step
    /// down in blackness.
    pub open spec fn neg_ok(self) -> bool {
        &&& self.col == Color::NegativeBlack
        &&& !self.leaf()
        &&& self.sub_ok()
        &&& self.lft().col == Color::Black
        &&& self.rgt().col == Color::Black
    }

    /// What `balance` makes of a node. A black or double-black node over a
    /// red child that has a red child, the left side looked at first, is
    /// rebuilt with the middle one of the three keys on top, one step less
    /// black, over two black nodes. A double-black node over a
    /// negative-black child with two black children is rebuilt black over
    /// two black nodes, the far grandchild turned red and its new parent
    /// rebalanced. Any other node is left as it is.
    pub open spec fn balanced(self) -> Self
        decreases self.col.blackness(),
    {
        let l = self.lft();
        let r = self.rgt();
        let heavy = self.col == Color::Black || self.col == Color::DoubleBlack;
        if self.leaf() {
            self
        } else if heavy && l.col == Color::Red && !l.leaf() && l.lft().col == Color::Red
            && !l.lft().leaf() {
            node(
                self.col.lighter(),
                node(Color::Black, l.lft().lft(), l.lft().key(), l.lft().val(), l.lft().rgt()),
                l.key(),
                l.val(),
                node(Color::Black, l.rgt(), self.key(), self.val(), r),
            )
        } else if heavy && l.col == Color::Red && !l.leaf() && l.rgt().col == Color::Red
            && !l.rgt().leaf() {
            node(
                self.col.lighter(),
                node(Color::Black, l.lft(), l.key(), l.val(), l.rgt().lft()),
                l.rgt().key(),
                l.rgt().val(),
                node(Color::Black, l.rgt().rgt(), self.key(), self.val(), r),
            )
        } else if heavy && r.col == Color::Red && !r.leaf() && r.lft().col == Color::Red
            && !r.lft().leaf() {
            node(
                self.col.lighter(),
                node(Color::Black, l, self.key(), self.val(), r.lft().lft()),
                r.lft().key(),
                r.lft().val(),
                node(Color::Black, r.lft().rgt(), r.key(), r.val(), r.rgt()),
            )
        } else if heavy && r.col == Color::Red && !r.leaf() && r.rgt().col == Color::Red
            && !r.rgt().leaf() {
            node(
                self.col.lighter(),
                node(Color::Black, l, self.key(), self.val(), r.lft()),
                r.key(),
                r.val(),
                node(Color::Black, r.rgt().lft(), r.rgt().key(), r.rgt().val(), r.rgt().rgt()),
            )
        } else if self.col == Color::DoubleBlack && r.col == Color::NegativeBlack && !r.leaf()
            && !r.lft().leaf() && r.lft().col == Color::Black && r.rgt().col == Color::Black {
            node(
                Color::Black,
                node(Color::Black, l, self.key(), self.val(), r.lft().lft()),
                r.lft().key(),
                r.lft().val(),
                node(
                    Color::Black,
                    r.lft().rgt(),
                    r.key(),
                    r.val(),
                    r.rgt().with_color(Color::Red),
                ).balanced(),
            )
        } else if self.col == Color::DoubleBlack && l.col == Color::NegativeBlack && !l.leaf()
            && l.lft().col == Color::Black && !l.rgt().leaf() && l.rgt().col == Color::Black {
            node(
                Color::Black,
                node(
                    Color::Black,
                    l.lft().with_color(Color::Red),
                    l.key(),
                    l.val(),
                    l.rgt().lft(),
                ).balanced(),
                l.rgt().key(),
                l.rgt().val(),
                node(Color::Black, l.rgt().rgt(), self.key(), self.val(), r),
            )
        } else {
            self
        }
    }

    /// The shapes `balance` is made for. A red node is left alone. Under a
    /// black or double-black root, one child may be a red node with a red
    /// child while the other is a red-black tree. Under a double-black
    /// root, one child may be negative black next to a black sibling.
    pub open spec fn balance_pre(self) -> bool {
        let l = self.lft();
        let r = self.rgt();
        ||| self.col == Color::Red
        ||| {
            &&& self.col == Color::Black || self.col == Color::DoubleBlack
            &&& l.height() == r.height()
            &&& (l.nearly() && r.rb()) || (l.rb() && r.nearly())
        }
        ||| {
            &&& self.col == Color::DoubleBlack
            &&& l.height() == r.height()
            &&& (l.rb() && l.col == Color::Black && r.neg_ok()) || (l.neg_ok() && r.rb() && r.col
                == Color::Black)
        }
    }

    /// Under a double-black root with a negative-black right child, the two
    /// grandchildren to the right are internal black nodes, since their
    /// black uncle has height one at least; and the node that is built over
    /// the inner great-grandchild and the far grandchild turned red is one
    /// that `balance` is made for.
    pub(crate) proof fn lemma_negative_right(self)
        requires
            obeys_total_order::<K>(),
            !self.leaf(),
            self.bst(),
            self.balance_pre(),
            self.col == Color::DoubleBlack,
            self.rgt().col == Color::NegativeBlack,
        ensures
            !self.rgt().leaf(),
            !self.rgt().lft().leaf() && self.rgt().lft().col == Color::Black,
            !self.rgt().rgt().leaf() && self.rgt().rgt().col == Color::Black,
            ({
                let r = self.rgt();
                let inner = node(
                    Color::Black,
                    r.lft().rgt(),
                    r.key(),
                    r.val(),
                    r.rgt().with_color(Color::Red),
                );
                inner.bst() && inner.balance_pre()
            }),
    {
        lemma_order::<K>();
        self.lemma_unfold();
        let l = self.lft();
        let r = self.rgt();
        r.lemma_unfold();
        l.lemma_height_pos();
        let p = r.lft();
        let d = r.rgt().with_color(Color::Red);
        p.lemma_unfold();
        r.rgt().lemma_unfold();
        d.lemma_unfold();
        let inner = node(Color::Black, p.rgt(), r.key(), r.val(), d);
        p.lemma_keys_bounds(r.key());
        inner.lemma_unfold();
        assert(d.view() == r.rgt().view());
    }

    /// The same with left and right exchanged.
    pub(crate) proof fn lemma_negative_left(self)
        requires
            obeys_total_order::<K>(),
            !self.leaf(),
            self.bst(),
            self.balance_pre(),
            self.col == Color::DoubleBlack,
            self.lft().col == Color::NegativeBlack,
        ensures
            !self.lft().leaf(),
            !self.lft().lft().leaf() && self.lft().lft().col == Color::Black,
            !self.lft().rgt().leaf() && self.lft().rgt().col == Color::Black,
            ({
                let l = self.lft();
                let inner = node(
                    Color::Black,
                    l.lft().with_color(Color::Red),
                    l.key(),
                    l.val(),
                    l.rgt().lft(),
                );
                inner.bst() && inner.balance_pre()
            }),
    {
        lemma_order::<K>();
        self.lemma_unfold();
        let l = self.lft();
        let r = self.rgt();
        l.lemma_unfold();
        r.lemma_height_pos();
        let p = l.rgt();
        let a = l.lft().with_color(Color::Red);
        l.lft().lemma_unfold();
        p.lemma_unfold();
        a.lemma_unfold();
        let inner = node(Color::Black, a, l.key(), l.val(), p.lft());
        p.lemma_keys_bounds(l.key());
        inner.lemma_unfold();
        assert(a.view() == l.lft().view());
    }

    /// What `balanced` keeps and what it mends: the entries, their order
    /// and the height stay; under a black root the result is a red-black
    /// tree, under a double-black root it is one below a root that is black
    /// or still double black.
    pub(crate) proof fn lemma_balanced(self)
        requires
            obeys_total_order::<K>(),
            !self.leaf(),
            self.bst(),
            self.balance_pre(),
        ensures
            !self.balanced().leaf(),
            self.balanced().view() == self.view(),
            self.balanced().bst(),
            self.balanced().height() == self.height(),
            self.col == Color::Black ==> self.balanced().rb(),
            self.col == Color::DoubleBlack ==> self.balanced().dbl(),
        decreases self.col.blackness(),
    {
        lemma_order::<K>();
        self.lemma_unfold();
        let l = self.lft();
        let r = self.rgt();
        let res = self.balanced();
        let heavy = self.col == Color::Black || self.col == Color::DoubleBlack;
        if heavy && l.col == Color::Red && !l.leaf() && l.lft().col == Color::Red
            && !l.lft().leaf() {
            l.lemma_unfold();
            l.lft().lemma_unfold();
            l.lemma_keys_bounds(self.key());
            l.lft().lemma_keys_bounds(l.key());
            lemma_canonical(
                self.col.lighter(),
                l.lft().lft(),
                l.lft().rgt(),
                l.rgt(),
                r,
                l.lft().key(),
                l.lft().val(),
                l.key(),
                l.val(),
                self.key(),
                self.val(),
            );
            assert(res.view() =~= self.view());
        } else if heavy && l.col == Color::Red && !l.leaf() && l.rgt().col == Color::Red
            && !l.rgt().leaf() {
            l.lemma_unfold();
            l.rgt().lemma_unfold();
            l.lemma_keys_bounds(self.key());
            l.rgt().lemma_keys_bounds(self.key());
            l.rgt().lemma_keys_bounds(l.key());
            lemma_canonical(
                self.col.lighter(),
                l.lft(),
                l.rgt().lft(),
                l.rgt().rgt(),
                r,
                l.key(),
                l.val(),
                l.rgt().key(),
                l.rgt().val(),
                self.key(),
                self.val(),
            );
            assert(res.view() =~= self.view());
        } else if heavy && r.col == Color::Red && !r.leaf() && r.lft().col == Color::Red
            && !r.lft().leaf() {
            if !l.leaf() {
                l.lemma_unfold();
            }
            r.lemma_unfold();
            r.lft().lemma_unfold();
            r.lemma_keys_bounds(self.key());
            r.lft().lemma_keys_bounds(self.key());
            r.lft().lemma_keys_bounds(r.key());
            lemma_canonical(
                self.col.lighter(),
                l,
                r.lft().lft(),
                r.lft().rgt(),
                r.rgt(),
                self.key(),
                self.val(),
                r.lft().key(),
                r.lft().val(),
                r.key(),
                r.val(),
            );
            assert(res.view() =~= self.view());
        } else if heavy && r.col == Color::Red && !r.leaf() && r.rgt().col == Color::Red
            && !r.rgt().leaf() {
            if !l.leaf() {
                l.lemma_unfold();
            }
            r.lemma_unfold();
            r.rgt().lemma_unfold();
            r.lemma_keys_bounds(self.key());
            r.rgt().lemma_keys_bounds(r.key());
            lemma_canonical(
                self.col.lighter(),
                l,
                r.lft(),
                r.rgt().lft(),
                r.rgt().rgt(),
                self.key(),
                self.val(),
                r.key(),
                r.val(),
                r.rgt().key(),
                r.rgt().val(),
            );
            assert(res.view() =~= self.view());
        } else if self.col == Color::DoubleBlack && r.col == Color::NegativeBlack {
            self.lemma_negative_right();
            let p = r.lft();
            let d = r.rgt().with_color(Color::Red);
            r.lemma_unfold();
            p.lemma_unfold();
            d.lemma_unfold();
            let left = node(Color::Black, l, self.key(), self.val(), p.lft());
            let inner = node(Color::Black, p.rgt(), r.key(), r.val(), d);
            r.lemma_keys_bounds(self.key());
            p.lemma_keys_bounds(self.key());
            p.lemma_keys_bounds(r.key());
            left.lemma_unfold();
            inner.lemma_unfold();
            assert(d.view() == r.rgt().view());
            l.lemma_keys_lt_trans(self.key(), p.key());
            d.lemma_keys_gt_trans(r.key(), p.key());
            left.lemma_keys_bounds(p.key());
            inner.lemma_keys_bounds(p.key());
            inner.lemma_balanced();
            let right = inner.balanced();
            assert(left.keys_lt(p.key()));
            assert(right.keys_gt(p.key()));
            assert(res == node(Color::Black, left, p.key(), p.val(), right));
            res.lemma_unfold();
            assert(res.view() =~= self.view());
        } else if self.col == Color::DoubleBlack && l.col == Color::NegativeBlack {
            self.lemma_negative_left();
            let p = l.rgt();
            let a = l.lft().with_color(Color::Red);
            l.lemma_unfold();
            p.lemma_unfold();
            a.lemma_unfold();
            let inner = node(Color::Black, a, l.key(), l.val(), p.lft());
            let right = node(Color::Black, p.rgt(), self.key(), self.val(), r);
            l.lemma_keys_bounds(self.key());
            p.lemma_keys_bounds(self.key());
            p.lemma_keys_bounds(l.key());
            inner.lemma_unfold();
            right.lemma_unfold();
            assert(a.view() == l.lft().view());
            a.lemma_keys_lt_trans(l.key(), p.key());
            r.lemma_keys_gt_trans(self.key(), p.key());
            inner.lemma_keys_bounds(p.key());
            right.lemma_keys_bounds(p.key());
            inner.lemma_balanced();
            let left = inner.balanced();
            assert(left.keys_lt(p.key()));
            assert(right.keys_gt(p.key()));
            assert(res == node(Color::Black, left, p.key(), p.val(), right));
            res.lemma_unfold();
            assert(res.view() =~= self.view());
        } else {
            if !l.leaf() {
                l.lemma_unfold();
            }
            if !r.leaf() {
                r.lemma_unfold();
            }
            assert(res == self);
        }
    }

    /// Restores the color rules at this node, keeping the entries, their
    /// order and the height. Under a black root the result is a red-black
    /// tree; under a double-black root the extra black is absorbed where a
    /// rotation applies and stays on the root where none does.
    pub fn balance(self) -> (res: Self)
        requires
            obeys_total_order::<K>(),
            !self.leaf(),
            self.bst(),
            self.balance_pre(),
        ensures
            res == self.balanced(),
            !res.leaf(),
            res.view() == self.view(),
            res.bst(),
            res.height() == self.height(),
            self.col == Color::Black ==> res.rb(),
            self.col == Color::DoubleBlack ==> res.dbl(),
        decreases self.col.blackness(),
    {
        proof {
            self.lemma_balanced();
            self.lemma_unfold();
        }
        if self.col == Color::Black || self.col == Color::DoubleBlack {
            let result_col = self.col.dec();
            let node_data = self.get_data();
            let (left_child, right_child) = self.children();

            if left_child.col == Color::Red {
                proof {
                    left_child.lemma_unfold();
                }
                let (left_grand_child, right_grand_child) = left_child.children();

                if left_grand_child.col == Color::Red {
                    let (a, b) = left_grand_child.children();
                    let xk = share(&left_grand_child.get_data().key);
                    let xv = share(&left_grand_child.get_data().val);
                    let yk = share(&left_child.get_data().key);
                    let yv = share(&left_child.get_data().val);
                    let c = right_grand_child;
                    let zk = share(&node_data.key);
                    let zv = share(&node_data.val);
                    let d = right_child;
                    return canonical_form(result_col, a, b, c, d, xk, xv, yk, yv, zk, zv);
                }
                if right_grand_child.col == Color::Red {
                    let a = left_grand_child;
                    let xk = share(&left_child.get_data().key);
                    let xv = share(&left_child.get_data().val);
                    let (b, c) = right_grand_child.children();
                    let yk = share(&right_grand_child.get_data().key);
                    let yv = share(&right_grand_child.get_data().val);
                    let zk = share(&node_data.key);
                    let zv = share(&node_data.val);
                    let d = right_child;
                    return canonical_form(result_col, a, b, c, d, xk, xv, yk, yv, zk, zv);
                }
            }
            if right_child.col == Color::Red {
                proof {
                    right_child.lemma_unfold();
                }
                let a = left_child;
                let xk = share(&node_data.key);
                let xv = share(&node_data.val);
                let (left_grand_child, right_grand_child) = right_child.children();

                if left_grand_child.col == Color::Red {
                    let (b, c) = left_grand_child.children();
                    let yk = share(&left_grand_child.get_data().key);
                    let yv = share(&left_grand_child.get_data().val);
                    let zk = share(&right_child.get_data().key);
                    let zv = share(&right_child.get_data().val);
                    let d = right_grand_child;
                    return canonical_form(result_col, a, b, c, d, xk, xv, yk, yv, zk, zv);
                }
                if right_grand_child.col == Color::Red {
                    let b = left_grand_child;
                    let yk = share(&right_child.get_data().key);
                    let yv = share(&right_child.get_data().val);
                    let (c, d) = right_grand_child.children();
                    let zk = share(&right_grand_child.get_data().key);
                    let zv = share(&right_grand_child.get_data().val);
                    return canonical_form(result_col, a, b, c, d, xk, xv, yk, yv, zk, zv);
                }
            }
        }
        if self.col == Color::DoubleBlack {
            let (a, right_child) = self.children();

            if right_child.col == Color::NegativeBlack {
                proof {
                    self.lemma_negative_right();
                }
                let (left_grand_child, right_grand_child) = right_child.children();

                if !left_grand_child.is_leaf() && left_grand_child.col == Color::Black
                    && right_grand_child.col == Color::Black {
                    let xk = share(&self.get_data().key);
                    let xv = share(&self.get_data().val);
                    let (b, c) = left_grand_child.children();
                    let yk = share(&left_grand_child.get_data().key);
                    let yv = share(&left_grand_child.get_data().val);
                    let zk = share(&right_child.get_data().key);
                    let zv = share(&right_child.get_data().val);
                    let d = right_grand_child.redden();

                    return new_node(
                        Color::Black,
                        new_node(Color::Black, a, xk, xv, b),
                        yk,
                        yv,
                        new_node(Color::Black, c, zk, zv, d).balance(),
                    );
                }
            }
        }
        if self.col == Color::DoubleBlack {
            let (left_child, d) = self.children();

            if left_child.col == Color::NegativeBlack {
                proof {
                    self.lemma_negative_left();
                }
                let (left_grand_child, right_grand_child) = left_child.children();

                if left_grand_child.col == Color::Black && !right_grand_child.is_leaf()
                    && right_grand_child.col == Color::Black {
                    let a = left_grand_child.redden();
                    let xk = share(&left_child.get_data().key);
                    let xv = share(&left_child.get_data().val);
                    let (b, c) = right_grand_child.children();
                    let yk = share(&right_grand_child.get_data().key);
                    let yv = share(&right_grand_child.get_data().val);
                    let zk = share(&self.get_data().key);
                    let zv = share(&self.get_data().val);

                    return new_node(
                        Color::Black,
                        new_node(Color::Black, a, xk, xv, b).balance(),
                        yk,
                        yv,
                        new_node(Color::Black, c, zk, zv, d),
                    );
                }
            }
        }
        self
    }
}

} // verus!
