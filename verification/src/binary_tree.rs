//! An ordered binary tree: duplicates go to the left subtree, and a lazy
//! in-order iterator walks the tree with an explicit ancestor stack.

use vstd::prelude::*;

use crate::total_order::TotalOrder;

verus! {

/// An ordered collection of `T`s: empty, or a node owning two subtrees.
pub enum BinaryTree<T> {
    Empty,
    NonEmpty(Box<TreeNode<T>>),
}

/// An interior node: one element and the exclusively owned subtrees.
pub struct TreeNode<T> {
    pub element: T,
    pub left: BinaryTree<T>,
    pub right: BinaryTree<T>,
}

impl<T> BinaryTree<T> {
    /// The elements in left-subtree, node, right-subtree order.
    pub open spec fn in_order(self) -> Seq<T>
        decreases self,
    {
        match self {
            BinaryTree::Empty => Seq::empty(),
            BinaryTree::NonEmpty(node) => node.left.in_order() + seq![node.element]
                + node.right.in_order(),
        }
    }
}

/// How many elements of `s` lie strictly below `v` in the order.
pub open spec fn count_lt<T: TotalOrder>(s: Seq<T>, v: T) -> int
    decreases s.len(),
{
    if s.len() == 0 {
        0
    } else {
        count_lt(s.drop_last(), v) + if !v.le_spec(s.last()) {
            1int
        } else {
            0int
        }
    }
}

/// The sequence is ordered by `le_spec`.
pub open spec fn sorted_le<T: TotalOrder>(s: Seq<T>) -> bool {
    forall|i: int, j: int| 0 <= i <= j < s.len() ==> (#[trigger] s[i]).le_spec(#[trigger] s[j])
}

pub proof fn lemma_count_lt_bounds<T: TotalOrder>(s: Seq<T>, v: T)
    ensures
        0 <= count_lt(s, v) <= s.len(),
    decreases s.len(),
{
    if s.len() > 0 {
        lemma_count_lt_bounds(s.drop_last(), v);
    }
}

pub proof fn lemma_count_lt_concat<T: TotalOrder>(a: Seq<T>, b: Seq<T>, v: T)
    ensures
        count_lt(a + b, v) == count_lt(a, v) + count_lt(b, v),
    decreases b.len(),
{
    if b.len() == 0 {
        assert(a + b =~= a);
    } else {
        assert((a + b).drop_last() =~= a + b.drop_last());
        assert((a + b).last() == b.last());
        lemma_count_lt_concat(a, b.drop_last(), v);
    }
}

pub proof fn lemma_count_lt_singleton<T: TotalOrder>(e: T, v: T)
    ensures
        count_lt(seq![e], v) == if !v.le_spec(e) {
            1int
        } else {
            0int
        },
{
    let s = seq![e];
    assert(s.last() == e);
    assert(s.drop_last() =~= Seq::<T>::empty());
    assert(count_lt(Seq::<T>::empty(), v) == 0);
    assert(count_lt(s, v) == count_lt(s.drop_last(), v) + if !v.le_spec(e) {
        1int
    } else {
        0int
    });
}

/// No element of `s` is below `v`.
pub proof fn lemma_count_lt_none<T: TotalOrder>(s: Seq<T>, v: T)
    requires
        forall|i: int| 0 <= i < s.len() ==> v.le_spec(#[trigger] s[i]),
    ensures
        count_lt(s, v) == 0,
    decreases s.len(),
{
    if s.len() > 0 {
        assert(v.le_spec(s.last()));
        lemma_count_lt_none(s.drop_last(), v);
    }
}

/// Every element of `s` is below `v`.
pub proof fn lemma_count_lt_all<T: TotalOrder>(s: Seq<T>, v: T)
    requires
        forall|i: int| 0 <= i < s.len() ==> !v.le_spec(#[trigger] s[i]),
    ensures
        count_lt(s, v) == s.len(),
    decreases s.len(),
{
    if s.len() > 0 {
        lemma_count_lt_all(s.drop_last(), v);
    }
}

impl<T: TotalOrder> BinaryTree<T> {
    /// The search-tree invariant: in every node, the left subtree's elements
    /// are less than or equal to the node's element and the right subtree's
    /// elements are strictly greater.
    pub open spec fn is_search_tree(self) -> bool
        decreases self,
    {
        match self {
            BinaryTree::Empty => true,
            BinaryTree::NonEmpty(node) => {
                &&& node.left.is_search_tree()
                &&& node.right.is_search_tree()
                &&& forall|i: int|
                    0 <= i < node.left.in_order().len() ==> (#[trigger] node.left.in_order()[i]).le_spec(
                        node.element,
                    )
                &&& forall|i: int|
                    0 <= i < node.right.in_order().len() ==> !(
                    #[trigger] node.right.in_order()[i]).le_spec(node.element)
            },
        }
    }

    /// Insert `value`: descend left on `value <= element`, right otherwise,
    /// and replace the empty subtree reached by a single-node tree.  In the
    /// in-order sequence the new value lands just before every element it is
    /// not strictly greater than — in particular just before any existing
    /// copies of itself.
    pub fn add(&mut self, value: T)
        requires
            old(self).is_search_tree(),
        ensures
            final(self).is_search_tree(),
            final(self).in_order() == old(self).in_order().insert(
                count_lt(old(self).in_order(), value),
                value,
            ),
    {
        let mut tree = BinaryTree::Empty;
        core::mem::swap(self, &mut tree);
        let result = Self::add_rec(tree, value);
        *self = result;
    }

    /// The recursive worker behind `add`, written over owned trees.
    fn add_rec(tree: Self, value: T) -> (r: Self)
        requires
            tree.is_search_tree(),
        ensures
            r.is_search_tree(),
            r.in_order() == tree.in_order().insert(count_lt(tree.in_order(), value), value),
        decreases tree,
    {
        let ghost g_tree = tree;
        match tree {
            BinaryTree::Empty => {
                let r = BinaryTree::NonEmpty(
                    Box::new(
                        TreeNode { element: value, left: BinaryTree::Empty, right: BinaryTree::Empty },
                    ),
                );
                proof {
                    assert(r.in_order() =~= g_tree.in_order().insert(0, value));
                }
                r
            },
            BinaryTree::NonEmpty(node) => {
                let TreeNode { element, left, right } = *node;
                let ghost g_left = left;
                let ghost g_right = right;
                let ghost l = g_left.in_order();
                let ghost rs = g_right.in_order();
                proof {
                    assert(g_tree.in_order() == l + seq![element] + rs);
                    lemma_count_lt_concat(l + seq![element], rs, value);
                    lemma_count_lt_concat(l, seq![element], value);
                    lemma_count_lt_bounds(l, value);
                    lemma_count_lt_bounds(rs, value);
                }
                if value.le(&element) {
                    proof {
                        // Nothing right of the node is below `value`.
                        assert forall|i: int| 0 <= i < rs.len() implies value.le_spec(
                            #[trigger] rs[i],
                        ) by {
                            T::lemma_total(rs[i], element);
                            T::lemma_transitive(value, element, rs[i]);
                        }
                        lemma_count_lt_none(rs, value);
                        lemma_count_lt_singleton(element, value);
                    }
                    let new_left = Self::add_rec(left, value);
                    let r = BinaryTree::NonEmpty(
                        Box::new(TreeNode { element, left: new_left, right }),
                    );
                    proof {
                        let p = count_lt(l, value);
                        assert(r.in_order() =~= g_tree.in_order().insert(p, value));
                        // The enlarged left subtree still sits below the node.
                        let nl = l.insert(p, value);
                        assert forall|i: int| 0 <= i < nl.len() implies (
                        #[trigger] nl[i]).le_spec(element) by {
                            if i < p {
                                assert(nl[i] == l[i]);
                            } else if i == p {
                                assert(nl[i] == value);
                            } else {
                                assert(nl[i] == l[i - 1]);
                            }
                        }
                    }
                    r
                } else {
                    proof {
                        // Everything left of the node, and the node itself,
                        // is below `value`.
                        assert forall|i: int| 0 <= i < l.len() implies !value.le_spec(
                            #[trigger] l[i],
                        ) by {
                            if value.le_spec(l[i]) {
                                T::lemma_transitive(value, l[i], element);
                            }
                        }
                        lemma_count_lt_all(l, value);
                        lemma_count_lt_singleton(element, value);
                    }
                    let new_right = Self::add_rec(right, value);
                    let r = BinaryTree::NonEmpty(
                        Box::new(TreeNode { element, left, right: new_right }),
                    );
                    proof {
                        let p = count_lt(rs, value);
                        assert(r.in_order() =~= g_tree.in_order().insert(
                            l.len() + 1 + p,
                            value,
                        ));
                        // The enlarged right subtree still sits above the node.
                        let nr = rs.insert(p, value);
                        assert forall|i: int| 0 <= i < nr.len() implies !(
                        #[trigger] nr[i]).le_spec(element) by {
                            if i < p {
                                assert(nr[i] == rs[i]);
                            } else if i == p {
                                assert(nr[i] == value);
                            } else {
                                assert(nr[i] == rs[i - 1]);
                            }
                        }
                    }
                    r
                }
            },
        }
    }

    /// A fresh lazy in-order iterator over the tree.
    pub fn iter(&self) -> (it: TreeIter<T>)
        ensures
            it.remaining() == self.in_order(),
    {
        let mut iter = TreeIter { unvisited: Vec::new() };
        proof {
            assert(TreeIter::stack_remaining(iter.unvisited@) =~= Seq::<T>::empty());
        }
        iter.push_left_edge(self);
        proof {
            assert(iter.remaining() =~= self.in_order());
        }
        iter
    }
}

/// The in-order of a search tree is sorted.
pub proof fn lemma_search_tree_sorted<T: TotalOrder>(tree: BinaryTree<T>)
    requires
        tree.is_search_tree(),
    ensures
        sorted_le(tree.in_order()),
    decreases tree,
{
    match tree {
        BinaryTree::Empty => {},
        BinaryTree::NonEmpty(node) => {
            lemma_search_tree_sorted(node.left);
            lemma_search_tree_sorted(node.right);
            let l = node.left.in_order();
            let rs = node.right.in_order();
            let e = node.element;
            let s = tree.in_order();
            assert forall|i: int, j: int| 0 <= i <= j < s.len() implies (
            #[trigger] s[i]).le_spec(#[trigger] s[j]) by {
                let li = l.len();
                T::lemma_total(s[i], s[i]);
                T::lemma_total(s[j], s[j]);
                if i < li && j < li {
                    assert(s[i] == l[i] && s[j] == l[j]);
                } else if i < li && j == li {
                    assert(s[i] == l[i] && s[j] == e);
                } else if i < li && j > li {
                    assert(s[i] == l[i] && s[j] == rs[j - li - 1]);
                    T::lemma_total(rs[j - li - 1], e);
                    T::lemma_transitive(s[i], e, s[j]);
                } else if i == li && j > li {
                    assert(s[i] == e && s[j] == rs[j - li - 1]);
                    T::lemma_total(rs[j - li - 1], e);
                } else if i > li && j > li {
                    assert(s[i] == rs[i - li - 1] && s[j] == rs[j - li - 1]);
                }
            }
        },
    }
}

/// In a sorted sequence, every element standing between two equal elements is
/// equivalent to them under the order: duplicates are visited consecutively.
pub proof fn lemma_sorted_duplicates_contiguous<T: TotalOrder>(s: Seq<T>, i: int, j: int, k: int)
    requires
        sorted_le(s),
        0 <= i <= k <= j < s.len(),
        s[i] == s[j],
    ensures
        s[k].le_spec(s[i]),
        s[i].le_spec(s[k]),
{
    assert(s[i].le_spec(s[k]));
    assert(s[k].le_spec(s[j]));
}

/// The state of a lazy in-order walk: a stack of the nodes not yet visited
/// along the current descent, the next one to visit on top.  The iterator
/// borrows the tree, so the tree cannot change while a walk is alive.
pub struct TreeIter<'a, T> {
    unvisited: Vec<&'a TreeNode<T>>,
}

impl<'a, T> TreeIter<'a, T> {
    /// The elements a stack still yields: for each entry, from the top down,
    /// its element and then its right subtree in order.
    pub closed spec fn stack_remaining(s: Seq<&'a TreeNode<T>>) -> Seq<T>
        decreases s.len(),
    {
        if s.len() == 0 {
            Seq::empty()
        } else {
            seq![s.last().element] + s.last().right.in_order() + Self::stack_remaining(
                s.drop_last(),
            )
        }
    }

    /// The elements the iterator has not yielded yet, in order.
    pub closed spec fn remaining(self) -> Seq<T> {
        Self::stack_remaining(self.unvisited@)
    }

    /// Push `tree`'s leftmost spine, making the walk of `tree` come before
    /// everything already pending.
    pub fn push_left_edge(&mut self, tree: &'a BinaryTree<T>)
        ensures
            final(self).remaining() == tree.in_order() + old(self).remaining(),
    {
        let ghost goal = tree.in_order() + old(self).remaining();
        let mut cur = tree;
        loop
            invariant
                cur.in_order() + Self::stack_remaining(self.unvisited@) == goal,
            ensures
                Self::stack_remaining(self.unvisited@) == goal,
            decreases *cur,
        {
            match cur {
                BinaryTree::NonEmpty(node) => {
                    let ghost before = self.unvisited@;
                    self.unvisited.push(&**node);
                    cur = &node.left;
                    proof {
                        assert(self.unvisited@.drop_last() =~= before);
                        assert(cur.in_order() + Self::stack_remaining(self.unvisited@) =~= goal);
                    }
                },
                BinaryTree::Empty => {
                    proof {
                        assert(Self::stack_remaining(self.unvisited@) =~= cur.in_order()
                            + Self::stack_remaining(self.unvisited@));
                    }
                    break ;
                },
            }
        }
    }

    /// Yield the next element in order, or report that the walk is over: pop
    /// the top node, queue its right subtree's leftmost spine, and hand out
    /// the popped element.
    pub fn next(&mut self) -> (result: Option<&'a T>)
        ensures
            match result {
                Some(v) => old(self).remaining().len() > 0 && *v == old(self).remaining()[0]
                    && final(self).remaining() == old(self).remaining().drop_first(),
                None => old(self).remaining().len() == 0 && final(self).remaining() == old(
                    self,
                ).remaining(),
            },
    {
        let popped = self.unvisited.pop();
        match popped {
            None => {
                proof {
                    assert(old(self).remaining() =~= Seq::<T>::empty());
                }
                None
            },
            Some(node) => {
                proof {
                    assert(node == old(self).unvisited@.last());
                    assert(self.unvisited@ =~= old(self).unvisited@.drop_last());
                }
                self.push_left_edge(&node.right);
                proof {
                    assert(self.remaining() =~= old(self).remaining().drop_first());
                }
                Some(&node.element)
            },
        }
    }
}

} // verus!
