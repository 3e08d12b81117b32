//! The color rules as they can be tested on a tree at run time, and their
//! relation to the definition the proofs work with.

use vstd::prelude::*;
use crate::color::Color;
use crate::node::NodeRef;
use crate::order::{lemma_order, obeys_total_order};

verus! {

impl<K: Ord, V> NodeRef<K, V> {
    /// Every node is red or black, and every leaf is black.
    pub open spec fn persistent_colors(self) -> bool
        decreases self,
    {
        match self.data {
            None => self.col == Color::Black,
            Some(d) => self.col.persistent() && d.left.persistent_colors()
                && d.right.persistent_colors(),
        }
    }

    /// No red node has a red child, and no child of any node has a
    /// transient color.
    pub open spec fn no_red_red_spec(self) -> bool
        decreases self,
    {
        match self.data {
            None => true,
            Some(d) => {
                &&& d.left.col.persistent() && d.right.col.persistent()
                &&& self.col == Color::Red ==> d.left.col == Color::Black && d.right.col
                    == Color::Black
                &&& d.left.no_red_red_spec()
                &&& d.right.no_red_red_spec()
            },
        }
    }

    /// The number of black nodes on the path to a leaf that has the most
    /// of them (`longest`) or the fewest, the leaf counted as one.
    pub open spec fn black_height(self, longest: bool) -> nat
        decreases self,
    {
        match self.data {
            None => 1,
            Some(d) => {
                let l = d.left.black_height(longest);
                let r = d.right.black_height(longest);
                let this: nat = if self.col == Color::Black {
                    1
                } else {
                    0
                };
                if (l >= r) == longest {
                    this + l
                } else {
                    this + r
                }
            },
        }
    }

    /// Every path from the root to a leaf passes the same number of black
    /// nodes.
    pub open spec fn black_balanced_spec(self) -> bool {
        self.black_height(true) == self.black_height(false)
    }

    /// No path has fewer black nodes than the one with the fewest, and
    /// every path has one at least.
    pub(crate) proof fn lemma_black_height_bounds(self)
        ensures
            1 <= self.black_height(false) <= self.black_height(true),
            !self.leaf() ==> self.lft().black_height(true) <= self.black_height(true)
                && self.rgt().black_height(true) <= self.black_height(true),
        decreases self,
    {
        if !self.leaf() {
            self.lft().lemma_black_height_bounds();
            self.rgt().lemma_black_height_bounds();
        }
    }

    /// The definition by parts: a tree is red-black exactly when its colors
    /// are persistent, no red node has a red child and it is black
    /// balanced. Its height is then the number of black nodes on any path.
    pub proof fn lemma_rb_iff(self)
        ensures
            self.rb() <==> self.persistent_colors() && self.no_red_red_spec()
                && self.black_balanced_spec(),
            self.rb() ==> self.black_height(true) == self.height(),
        decreases self,
    {
        if !self.leaf() {
            self.lft().lemma_rb_iff();
            self.rgt().lemma_rb_iff();
            self.lft().lemma_black_height_bounds();
            self.rgt().lemma_black_height_bounds();
        }
    }

    /// A tree has finitely many entries.
    pub(crate) proof fn lemma_view_finite(self)
        ensures
            self.view().dom().finite(),
        decreases self,
    {
        if !self.leaf() {
            self.lft().lemma_view_finite();
            self.rgt().lemma_view_finite();
            let l = self.lft().view().dom();
            let r = self.rgt().view().dom();
            vstd::set::axiom_set_union_finite(l, r);
            assert(self.view().dom() =~= l.union(r).insert(self.key()));
        }
    }

    /// In a search tree the entries of a node are its own and those of its
    /// two subtrees, none of them twice.
    pub(crate) proof fn lemma_view_len(self)
        requires
            obeys_total_order::<K>(),
            !self.leaf(),
            self.bst(),
        ensures
            self.view().len() == self.lft().view().len() + self.rgt().view().len() + 1,
    {
        lemma_order::<K>();
        self.lft().lemma_view_finite();
        self.rgt().lemma_view_finite();
        let l = self.lft().view().dom();
        let r = self.rgt().view().dom();
        vstd::set::axiom_set_union_finite(l, r);
        assert(l.disjoint(r)) by {
            assert forall|q: K| l.contains(q) implies !r.contains(q) by {
                assert(self.lft().view().contains_key(q));
                if r.contains(q) {
                    assert(self.rgt().view().contains_key(q));
                }
            }
        }
        vstd::set_lib::lemma_set_disjoint_lens(l, r);
        assert(!self.lft().view().contains_key(self.key()));
        assert(!self.rgt().view().contains_key(self.key()));
        vstd::set::axiom_set_insert_len(l + r, self.key());
        assert(self.view().dom() =~= (l + r).insert(self.key()));
    }

    /// A red-black search tree is no higher than it has entries, but for
    /// the smallest ones.
    pub(crate) proof fn lemma_height_le_len(self)
        requires
            obeys_total_order::<K>(),
            self.rb(),
            self.bst(),
        ensures
            self.height() <= self.view().len() + 1,
            self.view().len() >= 2 ==> self.height() <= self.view().len(),
        decreases self,
    {
        if !self.leaf() {
            self.lft().lemma_height_le_len();
            self.rgt().lemma_height_le_len();
            self.lemma_view_len();
            self.lft().lemma_height_pos();
            if !self.lft().leaf() {
                self.lft().lemma_view_len();
            }
            if !self.rgt().leaf() {
                self.rgt().lemma_view_len();
            }
        }
    }

    /// Whether every node is red or black and every leaf black.
    pub fn has_persistent_colors(&self) -> (ok: bool)
        ensures
            ok == self.persistent_colors(),
        decreases self,
    {
        match &self.data {
            Some(d) => {
                (self.col == Color::Red || self.col == Color::Black)
                    && d.left.has_persistent_colors() && d.right.has_persistent_colors()
            },
            None => self.col == Color::Black,
        }
    }

    /// Counts the black nodes on the path to a leaf that has the most of
    /// them, or the fewest.
    pub fn count_black_height(&self, longest: bool) -> (n: u64)
        requires
            self.persistent_colors(),
            self.black_height(true) <= u64::MAX,
        ensures
            n == self.black_height(longest),
        decreases self,
    {
        proof {
            self.lemma_black_height_bounds();
        }
        match &self.data {
            Some(d) => {
                proof {
                    self.lft().lemma_black_height_bounds();
                    self.rgt().lemma_black_height_bounds();
                }
                let this: u64 = if self.col == Color::Black {
                    1
                } else {
                    0
                };
                let l: u64 = d.left.count_black_height(longest);
                let r: u64 = d.right.count_black_height(longest);
                let sub: u64 = if (l >= r) == longest {
                    l
                } else {
                    r
                };
                this + sub
            },
            None => 1,
        }
    }

    /// Whether no red node has a red child and no child of any node has a
    /// transient color.
    pub fn no_red_red(&self) -> (ok: bool)
        ensures
            ok == self.no_red_red_spec(),
        decreases self,
    {
        if !self.is_leaf() {
            let (l, r) = self.children();
            if !(l.col == Color::Red || l.col == Color::Black) {
                return false;
            }
            if !(r.col == Color::Red || r.col == Color::Black) {
                return false;
            }
            if self.col == Color::Red && !(l.col == Color::Black && r.col == Color::Black) {
                return false;
            }
            return l.no_red_red() && r.no_red_red();
        } else {
            return true;
        }
    }

    /// Whether every path to a leaf passes the same number of black nodes.
    pub fn black_balanced(&self) -> (ok: bool)
        requires
            self.persistent_colors(),
            self.black_height(true) <= u64::MAX,
        ensures
            ok == self.black_balanced_spec(),
    {
        self.count_black_height(true) == self.count_black_height(false)
    }
}

} // verus!
