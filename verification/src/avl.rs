use crate::entries::{
    ascending, lemma_ascending_empty, lemma_ascending_parts, lemma_lookup_here,
    lemma_lookup_left, lemma_lookup_right, lemma_lookup_with_entry_other,
    lemma_lookup_with_entry_same, lemma_lookup_without_key_other, lemma_lookup_without_key_same,
    lemma_with_entry_ascending, lemma_with_entry_empty, lemma_with_entry_here,
    lemma_with_entry_left, lemma_with_entry_right, lemma_without_key_ascending,
    lemma_without_key_empty, lemma_without_key_left, lemma_without_key_one_side,
    lemma_without_key_predecessor, lemma_without_key_right, lookup, with_entry, without_key,
};
use crate::order::{key_eq, key_lt, lemma_comparison_is_specified, total_order};
use crate::{held, RefCounter};
use std::cmp::Ordering;
use vstd::prelude::*;

verus! {

/// A persistent AVL tree: an ordered map from `K` to `V`, or an ordered set
/// of `K` when `V` is `()`.
pub enum AVL<K, V = ()> {
    Empty,
    Node {
        key: RefCounter<K>,
        value: RefCounter<V>,
        left: RefCounter<AVL<K, V>>,
        right: RefCounter<AVL<K, V>>,
    },
}

/// The tree as a map.
pub type OrderedMap<K, V> = AVL<K, V>;

/// The tree as a set: every key is bound to `()`.
pub type OrderedSet<K> = AVL<K>;

impl<K, V> AVL<K, V> {
    /// The number of edges on the longest path from the root down to a
    /// node: 0 for a single node, and -1 for the empty tree.
    pub open spec fn spec_height(self) -> int
        decreases self,
    {
        match self {
            AVL::Empty => -1,
            AVL::Node { left, right, .. } => {
                let l = left.spec_height();
                let r = right.spec_height();
                if l >= r {
                    1 + l
                } else {
                    1 + r
                }
            },
        }
    }

    /// The balance factor: height of the left subtree minus that of the right.
    pub open spec fn spec_diff(self) -> int {
        match self {
            AVL::Empty => 0,
            AVL::Node { left, right, .. } => left.spec_height() - right.spec_height(),
        }
    }

    /// At every node the two subtrees differ in height by at most one.
    pub open spec fn balanced(self) -> bool
        decreases self,
    {
        match self {
            AVL::Empty => true,
            AVL::Node { left, right, .. } => {
                &&& left.balanced()
                &&& right.balanced()
                &&& -1 <= left.spec_height() - right.spec_height() <= 1
            },
        }
    }

    /// The entry held at the root of a non-empty tree.
    pub open spec fn root_entry(self) -> (K, V)
        recommends
            self is Node,
    {
        (*self->key, *self->value)
    }

    /// The left subtree of a non-empty tree.
    pub open spec fn left_tree(self) -> Self
        recommends
            self is Node,
    {
        *self->left
    }

    /// The right subtree of a non-empty tree.
    pub open spec fn right_tree(self) -> Self
        recommends
            self is Node,
    {
        *self->right
    }

    /// The node that holds `e` above the subtrees `l` and `r`.
    pub open spec fn node(e: (K, V), l: Self, r: Self) -> Self {
        AVL::Node {
            key: RefCounter::new(e.0),
            value: RefCounter::new(e.1),
            left: RefCounter::new(l),
            right: RefCounter::new(r),
        }
    }

    /// The tree after a right rotation: the left child is the root, and
    /// the old root is its right child, with the left child's right subtree
    /// on its left. A tree without a left child stays as it is.
    pub open spec fn rotated_right(self) -> Self {
        if self is Node && self.left_tree() is Node {
            let l = self.left_tree();
            Self::node(
                l.root_entry(),
                l.left_tree(),
                Self::node(self.root_entry(), l.right_tree(), self.right_tree()),
            )
        } else {
            self
        }
    }

    /// The tree after a left rotation: the right child is the root, and
    /// the old root is its left child, with the right child's left subtree
    /// on its right. A tree without a right child stays as it is.
    pub open spec fn rotated_left(self) -> Self {
        if self is Node && self.right_tree() is Node {
            let r = self.right_tree();
            Self::node(
                r.root_entry(),
                Self::node(self.root_entry(), self.left_tree(), r.left_tree()),
                r.right_tree(),
            )
        } else {
            self
        }
    }

    /// The node after its left side, too high by one, was set right: by a
    /// right rotation, after a left rotation of the left child where that
    /// child leans to the right.
    pub open spec fn fixed_right(self) -> Self {
        if self is Node {
            if self.left_tree().spec_diff() == -1 {
                Self::node(
                    self.root_entry(),
                    self.left_tree().rotated_left(),
                    self.right_tree(),
                ).rotated_right()
            } else {
                self.rotated_right()
            }
        } else {
            self
        }
    }

    /// The node after its right side, too high by one, was set right: by a
    /// left rotation, after a right rotation of the right child where that
    /// child leans to the left.
    pub open spec fn fixed_left(self) -> Self {
        if self is Node {
            if self.right_tree().spec_diff() == 1 {
                Self::node(
                    self.root_entry(),
                    self.left_tree(),
                    self.right_tree().rotated_right(),
                ).rotated_left()
            } else {
                self.rotated_left()
            }
        } else {
            self
        }
    }

    /// The node after rebalancing: set right on the side that is two higher
    /// than the other, and as it is where no side is.
    pub open spec fn fixed(self) -> Self {
        if self.spec_diff() == 2 {
            self.fixed_right()
        } else if self.spec_diff() == -2 {
            self.fixed_left()
        } else {
            self
        }
    }

    /// The subtrees of this node are balanced, and differ in height by at
    /// most two: what one insertion or removal below a balanced node leaves.
    pub open spec fn nearly_balanced(self) -> bool {
        self is Node ==> {
            &&& self.left_tree().balanced()
            &&& self.right_tree().balanced()
            &&& -2 <= self.spec_diff() <= 2
        }
    }

    /// The height that rebalancing leaves to this node: its own, less one
    /// where a subtree is two higher than the other and does not itself
    /// stand level.
    pub open spec fn fixed_height(self) -> int {
        if self.spec_diff() == 2 && self.left_tree().spec_diff() != 0 {
            self.spec_height() - 1
        } else if self.spec_diff() == -2 && self.right_tree().spec_diff() != 0 {
            self.spec_height() - 1
        } else {
            self.spec_height()
        }
    }

    /// The two trees have their nodes in the same places: both are empty,
    /// or both are nodes whose left subtrees have the same shape and whose
    /// right subtrees have the same shape.
    pub open spec fn same_shape(&self, other: &Self) -> bool
        decreases self,
    {
        match self {
            AVL::Empty => other is Empty,
            AVL::Node { left, right, .. } => {
                &&& other is Node
                &&& left.same_shape(&other.left_tree())
                &&& right.same_shape(&other.right_tree())
            },
        }
    }

    /// The entries met by an in-order traversal.
    pub open spec fn entries(self) -> Seq<(K, V)>
        decreases self,
    {
        match self {
            AVL::Empty => Seq::empty(),
            AVL::Node { key, value, left, right } => left.entries().push((*key, *value))
                + right.entries(),
        }
    }
}

impl<K, V> View for AVL<K, V> {
    type V = Seq<(K, V)>;

    /// The entries in the order of their keys.
    open spec fn view(&self) -> Seq<(K, V)> {
        self.entries()
    }
}

impl<K: Ord, V> AVL<K, V> {
    /// A valid tree: a binary search tree that is balanced at every node.
    pub open spec fn wf(self) -> bool {
        &&& ascending(self@)
        &&& self.balanced()
    }

    /// The tree in which `k` is bound to `v`: the search for `k` ends at a
    /// node with an equal key, which takes the new key and value, or at an
    /// empty place, which takes a new node; every node above a new node is
    /// rebalanced.
    pub open spec fn spec_put(self, k: K, v: V) -> Self
        decreases self,
    {
        match self {
            AVL::Empty => Self::node((k, v), AVL::Empty, AVL::Empty),
            AVL::Node { left, right, .. } => if key_lt(k, self.root_entry().0) {
                Self::node(self.root_entry(), left.spec_put(k, v), *right).fixed()
            } else if key_eq(k, self.root_entry().0) {
                Self::node((k, v), *left, *right)
            } else {
                Self::node(self.root_entry(), *left, right.spec_put(k, v)).fixed()
            },
        }
    }

    /// The tree without the entry of `k`: the node with an equal key gives
    /// way to its subtree where it has one at most, and to its in-order
    /// predecessor, the last entry of its left subtree, where it has two;
    /// every node above is rebalanced, and so is the predecessor in its new
    /// place.
    pub open spec fn spec_delete(self, k: K) -> Self
        decreases self,
    {
        match self {
            AVL::Empty => AVL::Empty,
            AVL::Node { left, right, .. } => if key_lt(k, self.root_entry().0) {
                Self::node(self.root_entry(), left.spec_delete(k), *right).fixed()
            } else if key_eq(k, self.root_entry().0) {
                if *left is Empty {
                    *right
                } else if *right is Empty {
                    *left
                } else {
                    Self::node(left@.last(), left.spec_delete(left@.last().0), *right).fixed()
                }
            } else {
                Self::node(self.root_entry(), *left, right.spec_delete(k)).fixed()
            },
        }
    }
}

impl<K, V> Clone for AVL<K, V> {
    /// A second handle on the same tree: the nodes are shared, not copied.
    fn clone(&self) -> (res: Self)
        ensures
            res == *self,
    {
        match self {
            AVL::Empty => AVL::Empty,
            AVL::Node { key, value, left, right } => AVL::Node {
                key: key.clone(),
                value: value.clone(),
                left: left.clone(),
                right: right.clone(),
            },
        }
    }
}

impl<K, V> AVL<K, V> {
    /// No tree is lower than the empty one.
    pub proof fn lemma_height_from_minus_one(&self)
        ensures
            -1 <= self.spec_height(),
            self is Node ==> 0 <= self.spec_height(),
        decreases self,
    {
        if self is Node {
            self.left_tree().lemma_height_from_minus_one();
            self.right_tree().lemma_height_from_minus_one();
        }
    }

    /// Every tree has its own shape.
    pub proof fn lemma_same_shape_reflexive(&self)
        ensures
            self.same_shape(self),
        decreases self,
    {
        if self is Node {
            self.left_tree().lemma_same_shape_reflexive();
            self.right_tree().lemma_same_shape_reflexive();
        }
    }

    /// Trees of the same shape have the same height and hold as many
    /// entries.
    pub proof fn lemma_same_shape_same_height(&self, other: &Self)
        requires
            self.same_shape(other),
        ensures
            self.spec_height() == other.spec_height(),
            self@.len() == other@.len(),
        decreases self,
    {
        if self is Node {
            self.left_tree().lemma_same_shape_same_height(&other.left_tree());
            self.right_tree().lemma_same_shape_same_height(&other.right_tree());
        }
    }

    /// Height, balance and entries of a node, in terms of its subtrees.
    proof fn lemma_unfold(&self)
        ensures
            self is Empty ==> self.spec_height() == -1 && self@ == Seq::<(K, V)>::empty(),
            self is Node ==> {
                let l = self.left_tree();
                let r = self.right_tree();
                &&& -1 <= l.spec_height()
                &&& -1 <= r.spec_height()
                &&& self.spec_height() == 1 + if l.spec_height() >= r.spec_height() {
                    l.spec_height()
                } else {
                    r.spec_height()
                }
                &&& self.spec_diff() == l.spec_height() - r.spec_height()
                &&& self.balanced() == (l.balanced() && r.balanced() && -1 <= self.spec_diff() <= 1)
                &&& self@ == l@.push(self.root_entry()) + r@
            },
    {
        if self is Node {
            self.left_tree().lemma_height_from_minus_one();
            self.right_tree().lemma_height_from_minus_one();
        }
    }

    /// A rotation keeps the entries in their order.
    pub proof fn lemma_rotated(&self)
        ensures
            self.rotated_right()@ == self@,
            self.rotated_left()@ == self@,
    {
        self.lemma_unfold();
        if self is Node && self.left_tree() is Node {
            let l = self.left_tree();
            let res = self.rotated_right();
            l.lemma_unfold();
            res.lemma_unfold();
            res.right_tree().lemma_unfold();
            let a = l.left_tree()@;
            let b = l.right_tree()@;
            let c = self.right_tree()@;
            let ey = l.root_entry();
            let ex = self.root_entry();
            assert(a.push(ey) + (b.push(ex) + c) =~= (a.push(ey) + b).push(ex) + c);
        }
        if self is Node && self.right_tree() is Node {
            let r = self.right_tree();
            let res = self.rotated_left();
            r.lemma_unfold();
            res.lemma_unfold();
            res.left_tree().lemma_unfold();
            let a = self.left_tree()@;
            let b = r.left_tree()@;
            let c = r.right_tree()@;
            let ey = r.root_entry();
            let ex = self.root_entry();
            assert((a.push(ex) + b).push(ey) + c =~= a.push(ex) + (b.push(ey) + c));
        }
    }

    /// Rebalancing does its work: of a node whose subtrees are balanced and
    /// differ in height by two at most it makes a balanced tree with the
    /// same entries, of the height that `fixed_height` gives, and it leaves
    /// a node that is in balance as it is.
    pub proof fn lemma_fixed(&self)
        requires
            self.nearly_balanced(),
        ensures
            self.fixed()@ == self@,
            self.fixed().balanced(),
            self.fixed() is Node == self is Node,
            self.fixed().spec_height() == self.fixed_height(),
            -1 <= self.spec_diff() <= 1 ==> self.fixed() == *self,
    {
        self.lemma_unfold();
        let res = self.fixed();
        if self.spec_diff() == 2 {
            let l = self.left_tree();
            l.lemma_unfold();
            l.left_tree().lemma_unfold();
            l.right_tree().lemma_unfold();
            if l.spec_diff() == -1 {
                let tmp = Self::node(self.root_entry(), l.rotated_left(), self.right_tree());
                l.lemma_rotated();
                tmp.lemma_rotated();
                tmp.lemma_unfold();
                tmp.left_tree().lemma_unfold();
                tmp.left_tree().left_tree().lemma_unfold();
            } else {
                self.lemma_rotated();
            }
            res.lemma_unfold();
            res.left_tree().lemma_unfold();
            res.right_tree().lemma_unfold();
        } else if self.spec_diff() == -2 {
            let r = self.right_tree();
            r.lemma_unfold();
            r.left_tree().lemma_unfold();
            r.right_tree().lemma_unfold();
            if r.spec_diff() == 1 {
                let tmp = Self::node(self.root_entry(), self.left_tree(), r.rotated_right());
                r.lemma_rotated();
                tmp.lemma_rotated();
                tmp.lemma_unfold();
                tmp.right_tree().lemma_unfold();
                tmp.right_tree().right_tree().lemma_unfold();
            } else {
                self.lemma_rotated();
            }
            res.lemma_unfold();
            res.left_tree().lemma_unfold();
            res.right_tree().lemma_unfold();
        }
    }

    /// The height of the tree, counted anew from its nodes.
    fn height(&self) -> (h: i64)
        requires
            self.spec_height() <= i64::MAX,
        ensures
            h == self.spec_height(),
        decreases self,
    {
        proof {
            self.lemma_height_from_minus_one();
        }
        match self {
            AVL::Empty => -1,
            AVL::Node { left, right, .. } => {
                let l = left.height();
                let r = right.height();
                if l >= r {
                    1 + l
                } else {
                    1 + r
                }
            },
        }
    }

    /// The balance factor of the root.
    fn diff(&self) -> (d: i64)
        requires
            self.spec_height() <= i64::MAX,
        ensures
            d == self.spec_diff(),
    {
        proof {
            self.lemma_unfold();
        }
        match self {
            AVL::Empty => 0,
            AVL::Node { left, right, .. } => left.height() - right.height(),
        }
    }

    /// Lifts the left child to the root; the old root becomes its right
    /// child and adopts the left child's right subtree. A tree without a left
    /// child is returned as it is.
    fn right_rotation(&self) -> (res: AVL<K, V>)
        ensures
            res == self.rotated_right(),
    {
        if let AVL::Node { key: x, value: vx, left: lt, right: t3 } = self {
            if let AVL::Node { key: y, value: vy, left: t1, right: t2 } = &**lt {
                return AVL::Node {
                    key: y.clone(),
                    left: t1.clone(),
                    value: vy.clone(),
                    right: RefCounter::new(
                        AVL::Node {
                            key: x.clone(),
                            value: vx.clone(),
                            left: t2.clone(),
                            right: t3.clone(),
                        },
                    ),
                };
            }
        }
        self.clone()
    }

    /// Lifts the right child to the root; the old root becomes its left
    /// child and adopts the right child's left subtree. A tree without a
    /// right child is returned as it is.
    fn left_rotation(&self) -> (res: AVL<K, V>)
        ensures
            res == self.rotated_left(),
    {
        if let AVL::Node { key: x, value: vx, left: t1, right: rt } = self {
            if let AVL::Node { key: y, value: vy, left: t2, right: t3 } = &**rt {
                return AVL::Node {
                    key: y.clone(),
                    value: vy.clone(),
                    left: RefCounter::new(
                        AVL::Node {
                            key: x.clone(),
                            value: vx.clone(),
                            left: t1.clone(),
                            right: t2.clone(),
                        },
                    ),
                    right: t3.clone(),
                };
            }
        }
        self.clone()
    }

    /// Sets right a node whose left subtree is too high: by one right
    /// rotation, after a left rotation of the left child where that child
    /// leans to the right.
    fn right_fix(&self) -> (res: AVL<K, V>)
        requires
            self.spec_height() <= i64::MAX,
        ensures
            res == self.fixed_right(),
    {
        if let AVL::Node { key: x, value: vx, left: t1, right: t2 } = self {
            proof {
                self.lemma_unfold();
            }
            if t1.diff() == -1 {
                return AVL::Node {
                    key: x.clone(),
                    value: vx.clone(),
                    left: RefCounter::new(t1.left_rotation()),
                    right: t2.clone(),
                }.right_rotation();
            } else {
                return self.right_rotation();
            }
        }
        self.clone()
    }

    /// Sets right a node whose right subtree is too high: by one left
    /// rotation, after a right rotation of the right child where that child
    /// leans to the left.
    fn left_fix(&self) -> (res: AVL<K, V>)
        requires
            self.spec_height() <= i64::MAX,
        ensures
            res == self.fixed_left(),
    {
        if let AVL::Node { key: x, value: vx, left: t1, right: t2 } = self {
            proof {
                self.lemma_unfold();
            }
            if t2.diff() == 1 {
                return AVL::Node {
                    key: x.clone(),
                    value: vx.clone(),
                    left: t1.clone(),
                    right: RefCounter::new(t2.right_rotation()),
                }.left_rotation();
            } else {
                return self.left_rotation();
            }
        }
        self.clone()
    }

    /// Rebalances a node below which one entry was added or removed. A
    /// node that is in balance is returned as it is.
    fn fix(&self) -> (res: AVL<K, V>)
        requires
            self.spec_height() <= i64::MAX,
        ensures
            res == self.fixed(),
    {
        let d = self.diff();
        if d == 2 {
            self.right_fix()
        } else if d == -2 {
            self.left_fix()
        } else {
            self.clone()
        }
    }
}

impl<K: Ord, V> AVL<K, V> {
    /// Balance and order after `put`, for every valid tree, whatever its
    /// height: the tree that `spec_put` gives is valid, holds the entries of
    /// this one with `k` bound to `v`, is higher by one at most, and has the
    /// shape and height of this one where `k` was bound before.
    pub proof fn lemma_put(&self, k: K, v: V)
        requires
            total_order::<K>(),
            self.wf(),
        ensures
            self.spec_put(k, v)@ == with_entry(self@, k, v),
            self.spec_put(k, v).wf(),
            self.spec_put(k, v) is Node,
            self.spec_height() <= self.spec_put(k, v).spec_height() <= self.spec_height() + 1,
            lookup(self@, k) is Some ==> self.spec_put(k, v).same_shape(self) && self.spec_put(
                k,
                v,
            ).spec_height() == self.spec_height(),
        decreases self,
    {
        let res = self.spec_put(k, v);
        lemma_with_entry_ascending(self@, k, v);
        self.lemma_unfold();
        res.lemma_unfold();
        if self is Empty {
            lemma_with_entry_empty(k, v);
            res.left_tree().lemma_unfold();
            res.right_tree().lemma_unfold();
        } else {
            let e = self.root_entry();
            let l = self.left_tree();
            let r = self.right_tree();
            lemma_ascending_parts(l@, e, r@);
            l.lemma_same_shape_reflexive();
            r.lemma_same_shape_reflexive();
            if key_lt(k, e.0) {
                l.lemma_put(k, v);
                let grown = Self::node(e, l.spec_put(k, v), r);
                lemma_with_entry_left(l@, e, r@, k, v);
                lemma_lookup_left(l@, e, r@, k);
                grown.lemma_unfold();
                grown.lemma_fixed();
            } else if key_eq(k, e.0) {
                lemma_with_entry_here(l@, e, r@, k, v);
            } else {
                r.lemma_put(k, v);
                let grown = Self::node(e, l, r.spec_put(k, v));
                lemma_with_entry_right(l@, e, r@, k, v);
                lemma_lookup_right(l@, e, r@, k);
                grown.lemma_unfold();
                grown.lemma_fixed();
            }
        }
    }

    /// Balance and order after `delete`, for every valid tree, whatever its
    /// height: the tree that `spec_delete` gives is valid, holds the entries
    /// of this one but for that of `k`, and is lower by one at most.
    pub proof fn lemma_delete(&self, k: K)
        requires
            total_order::<K>(),
            self.wf(),
        ensures
            self.spec_delete(k)@ == without_key(self@, k),
            self.spec_delete(k).wf(),
            self.spec_height() - 1 <= self.spec_delete(k).spec_height() <= self.spec_height(),
        decreases self,
    {
        lemma_without_key_ascending(self@, k);
        self.lemma_unfold();
        if self is Empty {
            lemma_without_key_empty::<K, V>(k);
        } else {
            let e = self.root_entry();
            let l = self.left_tree();
            let r = self.right_tree();
            lemma_ascending_parts(l@, e, r@);
            l.lemma_unfold();
            r.lemma_unfold();
            if key_lt(k, e.0) {
                l.lemma_delete(k);
                let shrunk = Self::node(e, l.spec_delete(k), r);
                lemma_without_key_left(l@, e, r@, k);
                shrunk.lemma_unfold();
                shrunk.lemma_fixed();
            } else if key_eq(k, e.0) {
                lemma_without_key_one_side(l@, e, r@, k);
                if l is Node && r is Node {
                    lemma_without_key_predecessor(l@, e, r@, k);
                    let p = l@.last();
                    l.lemma_delete(p.0);
                    let shrunk = Self::node(p, l.spec_delete(p.0), r);
                    shrunk.lemma_unfold();
                    shrunk.lemma_fixed();
                }
            } else {
                r.lemma_delete(k);
                let shrunk = Self::node(e, l, r.spec_delete(k));
                lemma_without_key_right(l@, e, r@, k);
                shrunk.lemma_unfold();
                shrunk.lemma_fixed();
            }
        }
    }

    /// The tree without entries.
    pub fn empty() -> (res: AVL<K, V>)
        ensures
            res is Empty,
            res@ == Seq::<(K, V)>::empty(),
            res.wf(),
    {
        proof {
            lemma_ascending_empty::<K, V>();
        }
        AVL::Empty
    }

    /// Whether the tree has no entries.
    pub fn is_empty(&self) -> (res: bool)
        ensures
            res == (self is Empty),
            res == (self@.len() == 0),
    {
        matches!(self, AVL::Empty)
    }

    /// The value bound to the key that compares equal to `target_value`.
    pub fn find(&self, target_value: &K) -> (res: Option<&V>)
        requires
            total_order::<K>(),
            ascending(self@),
        ensures
            res == match lookup(self@, *target_value) {
                Some(v) => Some(&v),
                None => None,
            },
        decreases self,
    {
        match self {
            AVL::Empty => None,
            AVL::Node { key, value, left, right } => {
                let ghost e = self.root_entry();
                let ghost k = *target_value;
                proof {
                    lemma_comparison_is_specified::<K>();
                    lemma_ascending_parts(left@, e, right@);
                }
                match target_value.cmp(key) {
                    Ordering::Less => {
                        proof {
                            lemma_lookup_left(left@, e, right@, k);
                        }
                        left.find(target_value)
                    },
                    Ordering::Equal => {
                        proof {
                            lemma_lookup_here(left@, e, right@, k);
                        }
                        Some(value)
                    },
                    Ordering::Greater => {
                        proof {
                            lemma_lookup_right(left@, e, right@, k);
                        }
                        right.find(target_value)
                    },
                }
            },
        }
    }

    /// The tree in which `key` is bound to `value`. An entry whose key
    /// compares equal to `key` is replaced, key and value, and every node
    /// stays in its place; otherwise a new node is made, and the nodes on
    /// the way down to it are rebuilt and rebalanced. All others are shared.
    pub fn put(&self, key: K, value: V) -> (res: AVL<K, V>)
        requires
            total_order::<K>(),
            self.wf(),
            self.spec_height() < i64::MAX,
        ensures
            res == self.spec_put(key, value),
            res@ == with_entry(self@, key, value),
            res.wf(),
            res is Node,
            self.spec_height() <= res.spec_height() <= self.spec_height() + 1,
            lookup(self@, key) is Some ==> res.same_shape(self) && res.spec_height()
                == self.spec_height(),
    {
        proof {
            self.lemma_put(key, value);
        }
        self.put_rc(RefCounter::new(key), RefCounter::new(value))
    }

    /// `put` for a key and a value that are behind handles already.
    fn put_rc(&self, key_rc: RefCounter<K>, value_rc: RefCounter<V>) -> (res: AVL<K, V>)
        requires
            total_order::<K>(),
            self.wf(),
            self.spec_height() < i64::MAX,
        ensures
            res == self.spec_put(*key_rc, *value_rc),
        decreases self,
    {
        let ghost k = held(key_rc);
        let ghost v = held(value_rc);
        proof {
            lemma_comparison_is_specified::<K>();
            self.lemma_unfold();
        }
        match self {
            AVL::Empty => AVL::Node {
                key: key_rc,
                value: value_rc,
                left: RefCounter::new(AVL::Empty),
                right: RefCounter::new(AVL::Empty),
            },
            AVL::Node { key, value, left, right } => {
                proof {
                    lemma_ascending_parts(left@, self.root_entry(), right@);
                }
                let new_key: &K = &key_rc;
                match new_key.cmp(key) {
                    Ordering::Less => {
                        let grown = AVL::Node {
                            key: key.clone(),
                            value: value.clone(),
                            left: RefCounter::new(left.put_rc(key_rc, value_rc)),
                            right: right.clone(),
                        };
                        proof {
                            left.lemma_put(k, v);
                            grown.lemma_unfold();
                        }
                        grown.fix()
                    },
                    Ordering::Equal => AVL::Node {
                        key: key_rc,
                        value: value_rc,
                        left: left.clone(),
                        right: right.clone(),
                    },
                    Ordering::Greater => {
                        let grown = AVL::Node {
                            key: key.clone(),
                            value: value.clone(),
                            left: left.clone(),
                            right: RefCounter::new(right.put_rc(key_rc, value_rc)),
                        };
                        proof {
                            right.lemma_put(k, v);
                            grown.lemma_unfold();
                        }
                        grown.fix()
                    },
                }
            },
        }
    }

    /// The entry with the greatest key, if there is any.
    fn find_max(&self) -> (res: Option<(RefCounter<K>, RefCounter<V>)>)
        ensures
            res is None == self is Empty,
            res matches Some(p) ==> self@.len() > 0 && (*p.0, *p.1) == self@.last(),
        decreases self,
    {
        match self {
            AVL::Empty => None,
            AVL::Node { key, value, left: _, right } => {
                proof {
                    self.lemma_unfold();
                    right.lemma_unfold();
                }
                if right.is_empty() {
                    Some((key.clone(), value.clone()))
                } else {
                    right.find_max()
                }
            },
        }
    }

    /// The tree without the entry whose key compares equal to `target_key`;
    /// the same entries where there is none. A node with one subtree or
    /// none gives way to that subtree. A node with two subtrees is replaced
    /// by its in-order predecessor, the greatest entry of its left subtree,
    /// and rebalanced.
    pub fn delete(&self, target_key: &K) -> (res: AVL<K, V>)
        requires
            total_order::<K>(),
            self.wf(),
            self.spec_height() <= i64::MAX,
        ensures
            res == self.spec_delete(*target_key),
            res@ == without_key(self@, *target_key),
            res.wf(),
            self.spec_height() - 1 <= res.spec_height() <= self.spec_height(),
        decreases self,
    {
        let ghost k = *target_key;
        proof {
            lemma_comparison_is_specified::<K>();
            self.lemma_delete(k);
            self.lemma_unfold();
        }
        match self {
            AVL::Empty => AVL::Empty,
            AVL::Node { key, value, left, right } => {
                proof {
                    lemma_ascending_parts(left@, self.root_entry(), right@);
                }
                match target_key.cmp(key) {
                    Ordering::Less => {
                        let left_deleted = left.delete(target_key);
                        let shrunk = AVL::Node {
                            key: key.clone(),
                            value: value.clone(),
                            left: RefCounter::new(left_deleted),
                            right: right.clone(),
                        };
                        proof {
                            shrunk.lemma_unfold();
                        }
                        shrunk.fix()
                    },
                    Ordering::Equal => {
                        // Node with only one child or no child
                        if left.is_empty() {
                            return (**right).clone();
                        } else if right.is_empty() {
                            return (**left).clone();
                        }
                        // Node with two children: the in-order predecessor
                        // (the greatest entry of the left subtree) moves up
                        let inorder_predecessor = left.find_max();
                        if let Some((pred_key, pred_value)) = inorder_predecessor {
                            let left_deleted = left.delete(&pred_key);
                            let shrunk = AVL::Node {
                                key: pred_key.clone(),
                                value: pred_value.clone(),
                                left: RefCounter::new(left_deleted),
                                right: right.clone(),
                            };
                            proof {
                                shrunk.lemma_unfold();
                            }
                            shrunk.fix()
                        } else {
                            self.clone()
                        }
                    },
                    Ordering::Greater => {
                        let right_deleted = right.delete(target_key);
                        let shrunk = AVL::Node {
                            key: key.clone(),
                            value: value.clone(),
                            left: left.clone(),
                            right: RefCounter::new(right_deleted),
                        };
                        proof {
                            shrunk.lemma_unfold();
                        }
                        shrunk.fix()
                    },
                }
            },
        }
    }
}

impl<K: Ord> AVL<K> {
    /// The set with `value` added.
    pub fn insert(&self, value: K) -> (res: Self)
        requires
            total_order::<K>(),
            self.wf(),
            self.spec_height() < i64::MAX,
        ensures
            res == self.spec_put(value, ()),
            res@ == with_entry(self@, value, ()),
            res.wf(),
            res is Node,
            self.spec_height() <= res.spec_height() <= self.spec_height() + 1,
            lookup(self@, value) is Some ==> res.same_shape(self) && res.spec_height()
                == self.spec_height(),
    {
        self.put(value, ())
    }

    /// Whether the set holds an element that compares equal to `value`.
    pub fn search(&self, value: &K) -> (res: bool)
        requires
            total_order::<K>(),
            ascending(self@),
        ensures
            res == lookup(self@, *value) is Some,
    {
        self.find(value).is_some()
    }
}

/// The least number of entries that a balanced tree of height `h` can hold.
pub open spec fn least_entries(h: int) -> nat
    decreases h + 1,
{
    if h < 0 {
        0
    } else if h == 0 {
        1
    } else {
        1 + least_entries(h - 1) + least_entries(h - 2)
    }
}

/// A higher balanced tree cannot do with fewer entries.
proof fn lemma_least_entries_grows(a: int, b: int)
    requires
        a <= b,
    ensures
        least_entries(a) <= least_entries(b),
    decreases b - a,
{
    if a < b {
        lemma_least_entries_grows(a, b - 1);
    }
}

/// A tree has more entries than its height says: a path of that many edges
/// runs through one node more.
pub proof fn height_within_entries<K, V>(t: &AVL<K, V>)
    ensures
        t.spec_height() < t@.len(),
    decreases t,
{
    if t is Node {
        let l = t.left_tree();
        let r = t.right_tree();
        height_within_entries(&l);
        height_within_entries(&r);
        assert(t@.len() == l@.len() + 1 + r@.len());
    }
}

/// The height of a balanced tree is logarithmic in the number of its
/// entries: a tree of height `h` holds `least_entries(h)` of them or more,
/// a number that grows as the Fibonacci numbers do.
pub proof fn balanced_height_is_logarithmic<K, V>(t: &AVL<K, V>)
    requires
        t.balanced(),
    ensures
        least_entries(t.spec_height()) <= t@.len(),
    decreases t,
{
    if t is Node {
        let l = t.left_tree();
        let r = t.right_tree();
        balanced_height_is_logarithmic(&l);
        balanced_height_is_logarithmic(&r);
        l.lemma_height_from_minus_one();
        r.lemma_height_from_minus_one();
        assert(t@.len() == l@.len() + 1 + r@.len());
        let h = t.spec_height();
        if h >= 1 {
            if l.spec_height() >= r.spec_height() {
                lemma_least_entries_grows(h - 2, r.spec_height());
            } else {
                lemma_least_entries_grows(h - 2, l.spec_height());
            }
        }
    }
}

/// Round trip: in the tree that `put` makes of a valid tree `t`, `k` and
/// `v`, a search for `k` finds `v`.
pub proof fn put_then_find<K: Ord, V>(t: AVL<K, V>, k: K, v: V)
    requires
        total_order::<K>(),
        t.wf(),
    ensures
        lookup(t.spec_put(k, v)@, k) == Some(v),
{
    t.lemma_put(k, v);
    lemma_lookup_with_entry_same(t@, k, v);
}

/// In the tree that `put` makes of a valid tree `t`, `k` and `v`, a key
/// that does not compare equal to `k` is bound as it is in `t`.
pub proof fn put_keeps_other_keys<K: Ord, V>(t: AVL<K, V>, k: K, v: V, other: K)
    requires
        total_order::<K>(),
        t.wf(),
        !key_eq(other, k),
    ensures
        lookup(t.spec_put(k, v)@, other) == lookup(t@, other),
{
    t.lemma_put(k, v);
    lemma_lookup_with_entry_other(t@, k, v, other);
}

/// In the tree that `delete` makes of a valid tree `t` and `k`, a search
/// for `k` finds nothing, and a key that does not compare equal to `k` is
/// bound as it is in `t`.
pub proof fn delete_then_find<K: Ord, V>(t: AVL<K, V>, k: K, other: K)
    requires
        total_order::<K>(),
        t.wf(),
        !key_eq(other, k),
    ensures
        lookup(t.spec_delete(k)@, k) is None,
        lookup(t.spec_delete(k)@, other) == lookup(t@, other),
{
    t.lemma_delete(k);
    lemma_lookup_without_key_same(t@, k);
    lemma_lookup_without_key_other(t@, k, other);
}

/// Delete correctness: after `put` of `k` and then `delete` of `k` on a
/// valid tree, a search for `k` finds nothing, and a key that does not
/// compare equal to `k` is bound as it was before the two.
pub proof fn put_then_delete<K: Ord, V>(t: AVL<K, V>, k: K, v: V, other: K)
    requires
        total_order::<K>(),
        t.wf(),
        !key_eq(other, k),
    ensures
        t.spec_put(k, v).spec_delete(k).wf(),
        lookup(t.spec_put(k, v).spec_delete(k)@, k) is None,
        lookup(t.spec_put(k, v).spec_delete(k)@, other) == lookup(t@, other),
{
    let put = t.spec_put(k, v);
    t.lemma_put(k, v);
    put.lemma_delete(k);
    lemma_lookup_without_key_same(put@, k);
    lemma_lookup_without_key_other(put@, k, other);
    lemma_lookup_with_entry_other(t@, k, v, other);
}

} // verus!
