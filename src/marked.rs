//! Borrowed references into a tree that remember which children a
//! traversal has already taken.

use vstd::prelude::*;
use crate::node::{Node, elems, ok, size, lemma_ok, lemma_node_parts};

verus! {

/// A way of walking a tree node by node: each child can be taken once.
pub trait NodeRef: Sized {
    type Key: Copy;
    type Item;

    /// The key of the node referred to.
    fn key(&self) -> Self::Key;

    fn item(self) -> Self::Item;

    fn left(&mut self) -> Option<Self>;

    fn right(&mut self) -> Option<Self>;
}

/// A borrowed node together with marks saying which of its children the
/// traversal has already taken.
pub struct MarkedNode<'a, V> {
    node: &'a Box<Node<V>>,
    seen_l: bool,
    seen_r: bool,
}

impl<'a, V> Clone for MarkedNode<'a, V> {
    fn clone(&self) -> (r: Self)
        ensures
            r == *self,
    {
        MarkedNode { node: self.node, seen_l: self.seen_l, seen_r: self.seen_r }
    }
}

impl<'a, V> MarkedNode<'a, V> {
    /// The subtree rooted at the node.
    pub closed spec fn tree(self) -> Option<Box<Node<V>>> {
        Some(*self.node)
    }

    /// The node's own entry.
    pub closed spec fn entry(self) -> (u64, V) {
        (self.node.key, self.node.value)
    }

    /// The entries of the left subtree, unless it has been taken.
    pub closed spec fn ahead(self) -> Seq<(u64, V)> {
        if self.seen_l {
            Seq::empty()
        } else {
            elems(self.node.left)
        }
    }

    /// The entries of the right subtree, unless it has been taken.
    pub closed spec fn behind(self) -> Seq<(u64, V)> {
        if self.seen_r {
            Seq::empty()
        } else {
            elems(self.node.right)
        }
    }

    /// The left child has been taken.
    pub closed spec fn left_taken(self) -> bool {
        self.seen_l
    }

    /// The right child has been taken.
    pub closed spec fn right_taken(self) -> bool {
        self.seen_r
    }

    /// What this reference still stands for, in key order.
    pub open spec fn rest(self) -> Seq<(u64, V)> {
        self.ahead() + seq![self.entry()] + self.behind()
    }

    /// The cached data of the subtree is right.
    pub closed spec fn wf(self) -> bool {
        ok(self.tree())
    }

    /// A reference to `node` with neither child taken.
    pub fn new(node: &'a Box<Node<V>>) -> (r: Self)
        ensures
            r.tree() == Some(*node),
            r.entry() == (node.key, node.value),
            r.ahead() == elems(node.left),
            r.behind() == elems(node.right),
            !r.left_taken(),
            !r.right_taken(),
            r.rest() == elems(Some(*node)),
            r.wf() == ok(Some(*node)),
    {
        MarkedNode { node: node, seen_l: false, seen_r: false }
    }

    pub fn key(&self) -> (r: u64)
        ensures
            r == self.entry().0,
    {
        self.node.key
    }

    pub fn item(self) -> (r: (u64, &'a V))
        ensures
            r.0 == self.entry().0,
            *r.1 == self.entry().1,
    {
        (self.node.key, &self.node.value)
    }

    /// The number of entries in the left subtree, unless it has been taken.
    pub fn ahead_len(&self) -> (r: usize)
        requires
            self.wf(),
        ensures
            r == self.ahead().len(),
    {
        proof {
            lemma_ok(self.node.left);
        }
        if self.seen_l {
            0
        } else {
            size(&self.node.left)
        }
    }

    /// The number of entries in the right subtree, unless it has been taken.
    pub fn behind_len(&self) -> (r: usize)
        requires
            self.wf(),
        ensures
            r == self.behind().len(),
    {
        proof {
            lemma_ok(self.node.right);
        }
        if self.seen_r {
            0
        } else {
            size(&self.node.right)
        }
    }

    /// Takes the left child, once; marks it taken either way.
    pub fn take_left(&mut self) -> (r: Option<Self>)
        ensures
            final(self).tree() == old(self).tree(),
            final(self).entry() == old(self).entry(),
            final(self).ahead() == Seq::<(u64, V)>::empty(),
            final(self).behind() == old(self).behind(),
            final(self).left_taken(),
            final(self).right_taken() == old(self).right_taken(),
            old(self).left_taken() ==> r.is_none() && *final(self) == *old(self),
            r.is_some() == (old(self).ahead().len() > 0),
            r.is_some() ==> {
                &&& r.unwrap().rest() == old(self).ahead()
                &&& r.unwrap().tree() == old(self).tree().unwrap().left
                &&& !r.unwrap().left_taken()
                &&& !r.unwrap().right_taken()
                &&& r.unwrap().ahead().len() < old(self).ahead().len()
            },
            old(self).wf() ==> final(self).wf() && (r.is_some() ==> r.unwrap().wf()),
    {
        let ghost was_ok = self.wf();
        proof {
            if was_ok {
                lemma_node_parts(*self.node);
            }
        }
        if self.seen_l {
            None
        } else {
            self.seen_l = true;
            match &self.node.left {
                None => None,
                Some(c) => {
                    let m = MarkedNode::new(c);
                    proof {
                        if was_ok {
                            lemma_node_parts(*c);
                        }
                    }
                    Some(m)
                },
            }
        }
    }

    /// Takes the right child, once; marks it taken either way.
    pub fn take_right(&mut self) -> (r: Option<Self>)
        ensures
            final(self).tree() == old(self).tree(),
            final(self).entry() == old(self).entry(),
            final(self).ahead() == old(self).ahead(),
            final(self).behind() == Seq::<(u64, V)>::empty(),
            final(self).right_taken(),
            final(self).left_taken() == old(self).left_taken(),
            old(self).right_taken() ==> r.is_none() && *final(self) == *old(self),
            r.is_some() == (old(self).behind().len() > 0),
            r.is_some() ==> {
                &&& r.unwrap().rest() == old(self).behind()
                &&& r.unwrap().tree() == old(self).tree().unwrap().right
                &&& !r.unwrap().left_taken()
                &&& !r.unwrap().right_taken()
                &&& r.unwrap().behind().len() < old(self).behind().len()
            },
            old(self).wf() ==> final(self).wf() && (r.is_some() ==> r.unwrap().wf()),
    {
        let ghost was_ok = self.wf();
        proof {
            if was_ok {
                lemma_node_parts(*self.node);
            }
        }
        if self.seen_r {
            None
        } else {
            self.seen_r = true;
            match &self.node.right {
                None => None,
                Some(c) => {
                    let m = MarkedNode::new(c);
                    proof {
                        if was_ok {
                            lemma_node_parts(*c);
                        }
                    }
                    Some(m)
                },
            }
        }
    }
}

impl<'a, V> NodeRef for MarkedNode<'a, V> {
    type Key = u64;
    type Item = (u64, &'a V);

    fn key(&self) -> (r: u64)
        ensures
            r == self.entry().0,
    {
        self.node.key
    }

    fn item(self) -> (r: (u64, &'a V))
        ensures
            r.0 == self.entry().0,
            *r.1 == self.entry().1,
    {
        (self.node.key, &self.node.value)
    }

    /// Takes the left child, once; marks it taken either way.
    fn left(&mut self) -> (r: Option<Self>)
        ensures
            final(self).tree() == old(self).tree(),
            final(self).entry() == old(self).entry(),
            final(self).ahead() == Seq::<(u64, V)>::empty(),
            final(self).behind() == old(self).behind(),
            final(self).left_taken(),
            final(self).right_taken() == old(self).right_taken(),
            old(self).left_taken() ==> r.is_none() && *final(self) == *old(self),
            r.is_some() == (old(self).ahead().len() > 0),
            r.is_some() ==> {
                &&& r.unwrap().rest() == old(self).ahead()
                &&& r.unwrap().tree() == old(self).tree().unwrap().left
                &&& !r.unwrap().left_taken()
                &&& !r.unwrap().right_taken()
                &&& r.unwrap().ahead().len() < old(self).ahead().len()
            },
            old(self).wf() ==> final(self).wf() && (r.is_some() ==> r.unwrap().wf()),
    {
        let ghost was_ok = self.wf();
        proof {
            if was_ok {
                lemma_node_parts(*self.node);
            }
        }
        if self.seen_l {
            None
        } else {
            self.seen_l = true;
            match &self.node.left {
                None => None,
                Some(c) => {
                    let m = MarkedNode::new(c);
                    proof {
                        if was_ok {
                            lemma_node_parts(*c);
                        }
                    }
                    Some(m)
                },
            }
        }
    }

    /// Takes the right child, once; marks it taken either way.
    fn right(&mut self) -> (r: Option<Self>)
        ensures
            final(self).tree() == old(self).tree(),
            final(self).entry() == old(self).entry(),
            final(self).ahead() == old(self).ahead(),
            final(self).behind() == Seq::<(u64, V)>::empty(),
            final(self).right_taken(),
            final(self).left_taken() == old(self).left_taken(),
            old(self).right_taken() ==> r.is_none() && *final(self) == *old(self),
            r.is_some() == (old(self).behind().len() > 0),
            r.is_some() ==> {
                &&& r.unwrap().rest() == old(self).behind()
                &&& r.unwrap().tree() == old(self).tree().unwrap().right
                &&& !r.unwrap().left_taken()
                &&& !r.unwrap().right_taken()
                &&& r.unwrap().behind().len() < old(self).behind().len()
            },
            old(self).wf() ==> final(self).wf() && (r.is_some() ==> r.unwrap().wf()),
    {
        let ghost was_ok = self.wf();
        proof {
            if was_ok {
                lemma_node_parts(*self.node);
            }
        }
        if self.seen_r {
            None
        } else {
            self.seen_r = true;
            match &self.node.right {
                None => None,
                Some(c) => {
                    let m = MarkedNode::new(c);
                    proof {
                        if was_ok {
                            lemma_node_parts(*c);
                        }
                    }
                    Some(m)
                },
            }
        }
    }
}

/// The owning realization: taking a child detaches it from the node, so a
/// traversal through it consumes the tree exactly once.
impl<V> NodeRef for Box<Node<V>> {
    type Key = u64;
    type Item = (u64, V);

    fn key(&self) -> (r: u64)
        ensures
            r == self.key,
    {
        self.key
    }

    /// Moves the node's key and value out; children still attached are
    /// dropped with it.
    fn item(self) -> (r: (u64, V))
        ensures
            r == (self.key, self.value),
    {
        let node = *self;
        (node.key, node.value)
    }

    /// Detaches the left child; a later call finds none.
    fn left(&mut self) -> (r: Option<Self>)
        ensures
            r == old(self).left,
            final(self).left.is_none(),
            final(self).key == old(self).key,
            final(self).value == old(self).value,
            final(self).right == old(self).right,
            final(self).size == old(self).size,
            final(self).height == old(self).height,
    {
        self.left.take()
    }

    /// Detaches the right child; a later call finds none.
    fn right(&mut self) -> (r: Option<Self>)
        ensures
            r == old(self).right,
            final(self).right.is_none(),
            final(self).key == old(self).key,
            final(self).value == old(self).value,
            final(self).left == old(self).left,
            final(self).size == old(self).size,
            final(self).height == old(self).height,
    {
        self.right.take()
    }
}

} // verus!
