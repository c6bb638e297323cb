//! A generic hash-carrying binary tree with in-order leaf iterators.
//!
//! Every node stores its digest as plain bytes; leaves carry values.
//! The iterators walk the leaves left to right by keeping the current
//! value and a stack of right subtrees still to visit.

use vstd::prelude::*;

verus! {

/// A binary tree whose nodes carry a digest and whose leaves carry
/// values.
#[derive(Debug, PartialEq, Eq, Hash)]
pub enum Tree<T> {
    Empty { hash: Vec<u8> },
    Leaf { hash: Vec<u8>, value: T },
    Node { hash: Vec<u8>, left: Box<Tree<T>>, right: Box<Tree<T>> },
}

/// The leaves of a tree, left to right.
pub open spec fn tree_leaves<T>(t: Tree<T>) -> Seq<T>
    decreases t,
{
    match t {
        Tree::Empty { .. } => Seq::empty(),
        Tree::Leaf { value, .. } => seq![value],
        Tree::Node { left, right, .. } => tree_leaves(*left) + tree_leaves(*right),
    }
}

/// The digest stored at the top of a tree.
pub open spec fn tree_hash<T>(t: Tree<T>) -> Seq<u8> {
    match t {
        Tree::Empty { hash } => hash@,
        Tree::Leaf { hash, .. } => hash@,
        Tree::Node { hash, .. } => hash@,
    }
}

impl<T> Tree<T> {
    /// Create an empty tree from its digest.
    pub fn empty(hash: Vec<u8>) -> (r: Self)
        ensures
            tree_hash(r) == hash@,
            tree_leaves(r) == Seq::<T>::empty(),
    {
        Tree::Empty { hash }
    }

    /// Create a leaf from its digest and value.
    pub fn new(hash: Vec<u8>, value: T) -> (r: Self)
        ensures
            tree_hash(r) == hash@,
            tree_leaves(r) =~= seq![value],
    {
        Tree::Leaf { hash, value }
    }

    /// Returns the digest stored at the top of the tree.
    pub fn hash(&self) -> (r: &Vec<u8>)
        ensures
            r@ == tree_hash(*self),
    {
        match *self {
            Tree::Empty { ref hash } => hash,
            Tree::Leaf { ref hash, .. } => hash,
            Tree::Node { ref hash, .. } => hash,
        }
    }

    /// Returns a borrowing iterator over the leaves of the tree.
    pub fn iter(&self) -> (r: LeavesIterator<'_, T>)
        ensures
            iter_remaining(r) == tree_leaves(*self),
    {
        LeavesIterator::new(self)
    }
}

/// A borrowing iterator over the leaves of a `Tree`.
pub struct LeavesIterator<'a, T> {
    pub current_value: Option<&'a T>,
    pub right_nodes: Vec<&'a Tree<T>>,
}

/// The leaves still to be yielded by a stack of right subtrees: the
/// top of the stack is visited first.
pub open spec fn stack_leaves<T>(st: Seq<&Tree<T>>) -> Seq<T>
    decreases st.len(),
{
    if st.len() == 0 {
        Seq::empty()
    } else {
        tree_leaves(*st.last()) + stack_leaves(st.drop_last())
    }
}

/// The leaves still to be yielded by a borrowing iterator.
pub open spec fn iter_remaining<T>(it: LeavesIterator<'_, T>) -> Seq<T> {
    (match it.current_value {
        Some(v) => seq![*v],
        None => Seq::empty(),
    }) + stack_leaves(it.right_nodes@)
}

/// Pushed right subtrees extend the pending leaves at the front.
proof fn lemma_stack_leaves_append<T>(a: Seq<&Tree<T>>, b: Seq<&Tree<T>>)
    ensures
        stack_leaves(a + b) == stack_leaves(b) + stack_leaves(a),
    decreases b.len(),
{
    if b.len() == 0 {
        assert(a + b =~= a);
        assert(stack_leaves(b) + stack_leaves(a) =~= stack_leaves(a));
    } else {
        assert((a + b).drop_last() =~= a + b.drop_last());
        assert((a + b).last() == b.last());
        lemma_stack_leaves_append(a, b.drop_last());
        assert(stack_leaves(b) + stack_leaves(a) =~= tree_leaves(*b.last()) + (stack_leaves(
            b.drop_last(),
        ) + stack_leaves(a)));
    }
}

impl<'a, T> LeavesIterator<'a, T> {
    /// Starts an iteration at the leftmost leaf.
    pub fn new(root: &'a Tree<T>) -> (r: Self)
        ensures
            iter_remaining(r) == tree_leaves(*root),
    {
        let mut iter = LeavesIterator { current_value: None, right_nodes: Vec::new() };
        proof {
            assert(iter_remaining(iter) =~= Seq::<T>::empty());
        }
        iter.add_left(root);
        proof {
            assert(tree_leaves(*root) + Seq::<T>::empty() =~= tree_leaves(*root));
        }
        iter
    }

    /// Descends along left children, stacking the right subtrees.
    fn add_left(&mut self, tree: &'a Tree<T>)
        ensures
            iter_remaining(*final(self)) == tree_leaves(*tree) + stack_leaves(
                old(self).right_nodes@,
            ),
        decreases *tree,
    {
        match *tree {
            Tree::Empty { .. } => {
                self.current_value = None;
                proof {
                    assert(iter_remaining(*self) =~= tree_leaves(*tree) + stack_leaves(
                        old(self).right_nodes@,
                    ));
                }
            },
            Tree::Node { ref left, ref right, .. } => {
                self.right_nodes.push(&**right);
                let ghost mid = self.right_nodes@;
                self.add_left(&**left);
                proof {
                    assert(mid =~= old(self).right_nodes@ + seq![&**right]);
                    lemma_stack_leaves_append(old(self).right_nodes@, seq![&**right]);
                    let single = seq![&**right];
                    assert(single.drop_last() =~= Seq::<&Tree<T>>::empty());
                    assert(stack_leaves(Seq::<&Tree<T>>::empty()) =~= Seq::<T>::empty());
                    assert(single.last() == &**right);
                    assert(stack_leaves(single) =~= tree_leaves(**right));
                    assert(iter_remaining(*self) =~= tree_leaves(*tree) + stack_leaves(
                        old(self).right_nodes@,
                    ));
                }
            },
            Tree::Leaf { ref value, .. } => {
                self.current_value = Some(value);
                proof {
                    assert(iter_remaining(*self) =~= tree_leaves(*tree) + stack_leaves(
                        old(self).right_nodes@,
                    ));
                }
            },
        }
    }

    /// Yields the current value and advances to the next leaf.
    pub fn next(&mut self) -> (r: Option<&'a T>)
        ensures
            r == old(self).current_value,
            iter_remaining(*final(self)) == stack_leaves(old(self).right_nodes@),
    {
        let result = self.current_value.take();
        let popped = self.right_nodes.pop();
        match popped {
            Some(rest) => {
                let ghost st = self.right_nodes@;
                self.add_left(rest);
                proof {
                    assert(old(self).right_nodes@ =~= st.push(rest));
                    lemma_stack_leaves_append(st, seq![rest]);
                    assert(st + seq![rest] =~= st.push(rest));
                    let single = seq![rest];
                    assert(single.drop_last() =~= Seq::<&Tree<T>>::empty());
                    assert(stack_leaves(Seq::<&Tree<T>>::empty()) =~= Seq::<T>::empty());
                    assert(single.last() == rest);
                    assert(stack_leaves(single) =~= tree_leaves(*rest));
                }
            },
            None => {
                proof {
                    assert(iter_remaining(*self) =~= Seq::<T>::empty());
                }
            },
        }
        result
    }
}

/// An owning iterator over the leaves of a `Tree`.
pub struct LeavesIntoIterator<T> {
    pub current_value: Option<T>,
    pub right_nodes: Vec<Tree<T>>,
}

/// The leaves still to be yielded by a stack of owned right subtrees.
pub open spec fn stack_leaves_owned<T>(st: Seq<Tree<T>>) -> Seq<T>
    decreases st.len(),
{
    if st.len() == 0 {
        Seq::empty()
    } else {
        tree_leaves(st.last()) + stack_leaves_owned(st.drop_last())
    }
}

/// The leaves still to be yielded by an owning iterator.
pub open spec fn into_iter_remaining<T>(it: LeavesIntoIterator<T>) -> Seq<T> {
    (match it.current_value {
        Some(v) => seq![v],
        None => Seq::empty(),
    }) + stack_leaves_owned(it.right_nodes@)
}

impl<T> LeavesIntoIterator<T> {
    /// Starts an owning iteration at the leftmost leaf.
    pub fn new(root: Tree<T>) -> (r: Self)
        ensures
            into_iter_remaining(r) == tree_leaves(root),
    {
        let ghost rootg = root;
        let mut iter = LeavesIntoIterator { current_value: None, right_nodes: Vec::new() };
        proof {
            assert(into_iter_remaining(iter) =~= Seq::<T>::empty());
        }
        iter.add_left(root);
        proof {
            assert(tree_leaves(rootg) + Seq::<T>::empty() =~= tree_leaves(rootg));
        }
        iter
    }

    /// Descends along left children, stacking the right subtrees.
    fn add_left(&mut self, tree: Tree<T>)
        ensures
            into_iter_remaining(*final(self)) == tree_leaves(tree) + stack_leaves_owned(
                old(self).right_nodes@,
            ),
        decreases tree,
    {
        let ghost treeg = tree;
        match tree {
            Tree::Empty { .. } => {
                self.current_value = None;
                proof {
                    assert(tree_leaves(treeg) =~= Seq::<T>::empty());
                    assert(into_iter_remaining(*self) =~= tree_leaves(treeg) + stack_leaves_owned(
                        old(self).right_nodes@,
                    ));
                }
            },
            Tree::Node { left, right, hash: _ } => {
                let ghost lg = *left;
                let ghost rg = *right;
                self.right_nodes.push(*right);
                let ghost mid = self.right_nodes@;
                self.add_left(*left);
                proof {
                    assert(tree_leaves(treeg) == tree_leaves(lg) + tree_leaves(rg));
                    assert(mid =~= old(self).right_nodes@ + seq![rg]);
                    lemma_stack_leaves_owned_append(old(self).right_nodes@, seq![rg]);
                    let single = seq![rg];
                    assert(single.drop_last() =~= Seq::<Tree<T>>::empty());
                    assert(stack_leaves_owned(Seq::<Tree<T>>::empty()) =~= Seq::<T>::empty());
                    assert(single.last() == rg);
                    assert(stack_leaves_owned(single) =~= tree_leaves(rg));
                    assert(into_iter_remaining(*self) =~= tree_leaves(treeg) + stack_leaves_owned(
                        old(self).right_nodes@,
                    ));
                }
            },
            Tree::Leaf { value, hash: _ } => {
                let ghost vg = value;
                self.current_value = Some(value);
                proof {
                    assert(tree_leaves(treeg) =~= seq![vg]);
                    assert(into_iter_remaining(*self) =~= tree_leaves(treeg) + stack_leaves_owned(
                        old(self).right_nodes@,
                    ));
                }
            },
        }
    }

    /// Yields the current value and advances to the next leaf.
    pub fn next(&mut self) -> (r: Option<T>)
        ensures
            r == old(self).current_value,
            into_iter_remaining(*final(self)) == stack_leaves_owned(old(self).right_nodes@),
    {
        let result = self.current_value.take();
        let popped = self.right_nodes.pop();
        match popped {
            Some(rest) => {
                let ghost st = self.right_nodes@;
                let ghost restg = rest;
                self.add_left(rest);
                proof {
                    assert(old(self).right_nodes@ =~= st.push(restg));
                    lemma_stack_leaves_owned_append(st, seq![restg]);
                    assert(st + seq![restg] =~= st.push(restg));
                    let single = seq![restg];
                    assert(single.drop_last() =~= Seq::<Tree<T>>::empty());
                    assert(stack_leaves_owned(Seq::<Tree<T>>::empty()) =~= Seq::<T>::empty());
                    assert(single.last() == restg);
                    assert(stack_leaves_owned(single) =~= tree_leaves(restg));
                }
            },
            None => {
                proof {
                    assert(into_iter_remaining(*self) =~= Seq::<T>::empty());
                }
            },
        }
        result
    }
}

/// Pushed right subtrees extend the pending leaves at the front.
proof fn lemma_stack_leaves_owned_append<T>(a: Seq<Tree<T>>, b: Seq<Tree<T>>)
    ensures
        stack_leaves_owned(a + b) == stack_leaves_owned(b) + stack_leaves_owned(a),
    decreases b.len(),
{
    if b.len() == 0 {
        assert(a + b =~= a);
        assert(stack_leaves_owned(b) + stack_leaves_owned(a) =~= stack_leaves_owned(a));
    } else {
        assert((a + b).drop_last() =~= a + b.drop_last());
        assert((a + b).last() == b.last());
        lemma_stack_leaves_owned_append(a, b.drop_last());
        assert(stack_leaves_owned(b) + stack_leaves_owned(a) =~= tree_leaves(b.last()) + (
        stack_leaves_owned(b.drop_last()) + stack_leaves_owned(a)));
    }
}

} // verus!
