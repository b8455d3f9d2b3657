//! The consuming traversal: the same lazy, double-ended walk as `Iter`, over
//! owned subtrees whose children are detached as they are taken.

use vstd::prelude::*;
use std::collections::VecDeque;
use crate::node::{Node, elems, ok, make, split_node};

verus! {

/// What a sequence of owned subtrees stands for: the back one comes first.
#[verifier::opaque]
pub open spec fn owned_rest<V>(ns: Seq<Box<Node<V>>>) -> Seq<(u64, V)>
    decreases ns.len(),
{
    if ns.len() == 0 {
        Seq::empty()
    } else {
        elems(Some(ns.last())) + owned_rest(ns.drop_last())
    }
}

/// Every subtree in `ns` has its cached data right.
pub open spec fn all_ok<V>(ns: Seq<Box<Node<V>>>) -> bool {
    forall|i: int| 0 <= i < ns.len() ==> ok(Some(#[trigger] ns[i]))
}

proof fn lemma_owned_empty<V>(ns: Seq<Box<Node<V>>>)
    requires
        ns.len() == 0,
    ensures
        owned_rest(ns) == Seq::<(u64, V)>::empty(),
{
    reveal(owned_rest);
}

proof fn lemma_owned_back<V>(ns: Seq<Box<Node<V>>>, b: Box<Node<V>>)
    requires
        all_ok(ns),
        ok(Some(b)),
    ensures
        all_ok(ns.push(b)),
        owned_rest(ns.push(b)) == elems(Some(b)) + owned_rest(ns),
{
    reveal(owned_rest);
    assert(ns.push(b).drop_last() =~= ns);
    assert forall|i: int| 0 <= i < ns.len() + 1 implies ok(Some(#[trigger] ns.push(b)[i])) by {
        if i < ns.len() {
            assert(ns.push(b)[i] == ns[i]);
        }
    }
}

proof fn lemma_owned_pop_back<V>(ns: Seq<Box<Node<V>>>)
    requires
        all_ok(ns),
        ns.len() > 0,
    ensures
        all_ok(ns.drop_last()),
        ok(Some(ns.last())),
        owned_rest(ns) == elems(Some(ns.last())) + owned_rest(ns.drop_last()),
{
    reveal(owned_rest);
    assert(ok(Some(ns[ns.len() - 1])));
    assert forall|i: int| 0 <= i < ns.len() - 1 implies ok(Some(#[trigger] ns.drop_last()[i])) by {
        assert(ns.drop_last()[i] == ns[i]);
    }
}

proof fn lemma_owned_front<V>(b: Box<Node<V>>, ns: Seq<Box<Node<V>>>)
    ensures
        owned_rest(seq![b] + ns) == owned_rest(ns) + elems(Some(b)),
    decreases ns.len(),
{
    reveal(owned_rest);
    let bs = seq![b] + ns;
    if ns.len() == 0 {
        assert(bs.last() == b);
        assert(bs.drop_last() =~= Seq::<Box<Node<V>>>::empty());
        assert(owned_rest(bs.drop_last()) == Seq::<(u64, V)>::empty());
        assert(owned_rest(bs) =~= owned_rest(ns) + elems(Some(b)));
    } else {
        assert(bs.drop_last() =~= seq![b] + ns.drop_last());
        lemma_owned_front(b, ns.drop_last());
        assert(owned_rest(bs) =~= owned_rest(ns) + elems(Some(b)));
    }
}

proof fn lemma_owned_push_front<V>(b: Box<Node<V>>, ns: Seq<Box<Node<V>>>)
    requires
        all_ok(ns),
        ok(Some(b)),
    ensures
        all_ok(seq![b] + ns),
        owned_rest(seq![b] + ns) == owned_rest(ns) + elems(Some(b)),
{
    lemma_owned_front(b, ns);
    assert forall|i: int| 0 <= i < ns.len() + 1 implies ok(Some(#[trigger] (seq![b] + ns)[i])) by {
        if i > 0 {
            assert((seq![b] + ns)[i] == ns[i - 1]);
        }
    }
}

proof fn lemma_owned_pop_front<V>(ns: Seq<Box<Node<V>>>)
    requires
        all_ok(ns),
        ns.len() > 0,
    ensures
        all_ok(ns.drop_first()),
        ok(Some(ns[0])),
        owned_rest(ns) == owned_rest(ns.drop_first()) + elems(Some(ns[0])),
{
    assert(ns =~= seq![ns[0]] + ns.drop_first());
    lemma_owned_front(ns[0], ns.drop_first());
    assert forall|i: int| 0 <= i < ns.len() - 1 implies ok(Some(#[trigger] ns.drop_first()[i])) by {
        assert(ns.drop_first()[i] == ns[i + 1]);
    }
}

/// A double-ended, lazily expanding in-order cursor that owns the entries
/// it has yet to produce and hands them out by value.
pub struct IntoIter<V> {
    nodes: VecDeque<Box<Node<V>>>,
    size: usize,
}

impl<V> View for IntoIter<V> {
    type V = Seq<(u64, V)>;

    /// The entries not produced yet, in key order.
    closed spec fn view(&self) -> Seq<(u64, V)> {
        owned_rest(self.nodes@)
    }
}

impl<V> IntoIter<V> {
    pub closed spec fn wf(self) -> bool {
        &&& self.size == owned_rest(self.nodes@).len()
        &&& all_ok(self.nodes@)
    }

    /// A cursor that owns the subtree at `root`, which holds `size` entries.
    pub fn new(root: Option<Box<Node<V>>>, size: usize) -> (r: Self)
        requires
            ok(root),
            size == elems(root).len(),
        ensures
            r.wf(),
            r@ == elems(root),
    {
        let mut nodes: VecDeque<Box<Node<V>>> = VecDeque::new();
        proof {
            lemma_owned_empty(nodes@);
        }
        match root {
            None => {},
            Some(b) => {
                proof {
                    lemma_owned_back(nodes@, b);
                }
                nodes.push_back(b);
                assert(owned_rest(nodes@) =~= elems(Some(b)));
            },
        }
        IntoIter { nodes, size }
    }

    /// The exact number of entries left, as a size hint.
    pub fn size_hint(&self) -> (r: (usize, Option<usize>))
        requires
            self.wf(),
        ensures
            self@.len() <= usize::MAX,
            r == (self@.len() as usize, Some(self@.len() as usize)),
    {
        (self.size, Some(self.size))
    }

    /// Detaches the left child of the back subtree, if it has one, and puts
    /// it on the back; says whether it did.
    fn descend_back(&mut self) -> (pushed: bool)
        requires
            old(self).wf(),
            old(self).nodes@.len() > 0,
        ensures
            final(self).wf(),
            final(self)@ == old(self)@,
            final(self).nodes@.len() > 0,
            pushed ==> elems(final(self).nodes@.last().left).len() < elems(
                old(self).nodes@.last().left,
            ).len(),
            !pushed ==> final(self).nodes@.last().left.is_none(),
    {
        let ghost ns = self.nodes@;
        let b = self.nodes.pop_back().unwrap();
        proof {
            lemma_owned_pop_back(ns);
        }
        let (l, k, v, r) = split_node(b);
        match l {
            Some(lb) => {
                let rest = make(None, k, v, r);
                proof {
                    lemma_owned_back(self.nodes@, rest);
                    lemma_owned_back(self.nodes@.push(rest), lb);
                    assert(elems(Some(lb)) == elems(lb.left) + seq![(lb.key, lb.value)] + elems(lb.right));
                }
                self.nodes.push_back(rest);
                self.nodes.push_back(lb);
                assert(owned_rest(self.nodes@) =~= owned_rest(ns));
                true
            },
            None => {
                let rest = make(None, k, v, r);
                proof {
                    lemma_owned_back(self.nodes@, rest);
                }
                self.nodes.push_back(rest);
                assert(owned_rest(self.nodes@) =~= owned_rest(ns));
                false
            },
        }
    }

    /// Detaches the right child of the front subtree, if it has one, and
    /// puts it on the front; says whether it did.
    fn descend_front(&mut self) -> (pushed: bool)
        requires
            old(self).wf(),
            old(self).nodes@.len() > 0,
        ensures
            final(self).wf(),
            final(self)@ == old(self)@,
            final(self).nodes@.len() > 0,
            pushed ==> elems(final(self).nodes@[0].right).len() < elems(
                old(self).nodes@[0].right,
            ).len(),
            !pushed ==> final(self).nodes@[0].right.is_none(),
    {
        let ghost ns = self.nodes@;
        let b = self.nodes.pop_front().unwrap();
        proof {
            lemma_owned_pop_front(ns);
        }
        let ghost tail = self.nodes@;
        let (l, k, v, r) = split_node(b);
        match r {
            Some(rb) => {
                let rest = make(l, k, v, None);
                proof {
                    lemma_owned_push_front(rest, tail);
                    lemma_owned_push_front(rb, seq![rest] + tail);
                    assert(elems(Some(rb)) == elems(rb.left) + seq![(rb.key, rb.value)] + elems(rb.right));
                }
                self.nodes.push_front(rest);
                self.nodes.push_front(rb);
                assert(owned_rest(self.nodes@) =~= owned_rest(ns));
                true
            },
            None => {
                let rest = make(l, k, v, None);
                proof {
                    lemma_owned_push_front(rest, tail);
                }
                self.nodes.push_front(rest);
                assert(owned_rest(self.nodes@) =~= owned_rest(ns));
                false
            },
        }
    }

    /// Hands out the back subtree's entry, whose left side is done, and
    /// leaves its right subtree in its place.
    fn pop_back_entry(&mut self) -> (r: (u64, V))
        requires
            old(self).wf(),
            old(self).nodes@.len() > 0,
            old(self).nodes@.last().left.is_none(),
        ensures
            final(self).wf(),
            old(self)@.len() > 0,
            r == old(self)@[0],
            final(self)@ == old(self)@.drop_first(),
    {
        let ghost ns = self.nodes@;
        let b = self.nodes.pop_back().unwrap();
        proof {
            lemma_owned_pop_back(ns);
        }
        let ghost under = self.nodes@;
        let (l, k, v, r) = split_node(b);
        assert(owned_rest(ns) =~= seq![(k, v)] + elems(r) + owned_rest(under));
        self.size = self.size - 1;
        match r {
            Some(rb) => {
                proof {
                    lemma_owned_back(under, rb);
                }
                self.nodes.push_back(rb);
            },
            None => {},
        }
        assert(owned_rest(ns).drop_first() =~= owned_rest(self.nodes@));
        (k, v)
    }

    /// Hands out the front subtree's entry, whose right side is done, and
    /// leaves its left subtree in its place.
    fn pop_front_entry(&mut self) -> (r: (u64, V))
        requires
            old(self).wf(),
            old(self).nodes@.len() > 0,
            old(self).nodes@[0].right.is_none(),
        ensures
            final(self).wf(),
            old(self)@.len() > 0,
            r == old(self)@.last(),
            final(self)@ == old(self)@.drop_last(),
    {
        let ghost ns = self.nodes@;
        let b = self.nodes.pop_front().unwrap();
        proof {
            lemma_owned_pop_front(ns);
        }
        let ghost tail = self.nodes@;
        let (l, k, v, r) = split_node(b);
        assert(owned_rest(ns) =~= owned_rest(tail) + elems(l) + seq![(k, v)]);
        self.size = self.size - 1;
        match l {
            Some(lb) => {
                proof {
                    lemma_owned_push_front(lb, tail);
                }
                self.nodes.push_front(lb);
            },
            None => {
                proof {
                    lemma_owned_empty(Seq::<Box<Node<V>>>::empty());
                }
            },
        }
        assert(owned_rest(ns).drop_last() =~= owned_rest(self.nodes@));
        (k, v)
    }

    /// Hands out the first entry left.
    pub fn next(&mut self) -> (r: Option<(u64, V)>)
        requires
            old(self).wf(),
        ensures
            final(self).wf(),
            old(self)@.len() <= usize::MAX,
            old(self)@.len() == 0 ==> r.is_none() && final(self)@ == old(self)@,
            old(self)@.len() > 0 ==> r == Some(old(self)@[0]) && final(self)@ == old(self)@.drop_first(),
    {
        if self.nodes.len() == 0 {
            proof {
                lemma_owned_empty(self.nodes@);
            }
            return None;
        }
        loop
            invariant
                self.wf(),
                self@ == old(self)@,
                self.nodes@.len() > 0,
            ensures
                self.wf(),
                self@ == old(self)@,
                self.nodes@.len() > 0,
                self.nodes@.last().left.is_none(),
            decreases elems(self.nodes@.last().left).len(),
        {
            if !self.descend_back() {
                break;
            }
        }
        Some(self.pop_back_entry())
    }

    /// Hands out the last entry left.
    pub fn next_back(&mut self) -> (r: Option<(u64, V)>)
        requires
            old(self).wf(),
        ensures
            final(self).wf(),
            old(self)@.len() <= usize::MAX,
            old(self)@.len() == 0 ==> r.is_none() && final(self)@ == old(self)@,
            old(self)@.len() > 0 ==> r == Some(old(self)@.last()) && final(self)@ == old(self)@.drop_last(),
    {
        if self.nodes.len() == 0 {
            proof {
                lemma_owned_empty(self.nodes@);
            }
            return None;
        }
        loop
            invariant
                self.wf(),
                self@ == old(self)@,
                self.nodes@.len() > 0,
            ensures
                self.wf(),
                self@ == old(self)@,
                self.nodes@.len() > 0,
                self.nodes@[0].right.is_none(),
            decreases elems(self.nodes@[0].right).len(),
        {
            if !self.descend_front() {
                break;
            }
        }
        Some(self.pop_front_entry())
    }
}

} // verus!
