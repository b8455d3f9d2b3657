//! The traversal engine: a double-ended cursor over borrowed subtrees that
//! expands them lazily, keeps an exact count of what is left, and can be
//! narrowed to a key range by discarding whole subtrees.

use vstd::prelude::*;
use std::collections::VecDeque;
use crate::marked::MarkedNode;
use crate::order::{
    Bound, compare_keys, sorted, below, above, lo_index, hi_index, cut, lemma_lower_cut,
    lemma_upper_cut, lemma_upper_within, lemma_bounds_within,
};

verus! {

/// What a sequence of references stands for: the back one comes first.
#[verifier::opaque]
pub open spec fn rest_of<'a, V>(ns: Seq<MarkedNode<'a, V>>) -> Seq<(u64, V)>
    decreases ns.len(),
{
    if ns.len() == 0 {
        Seq::empty()
    } else {
        ns.last().rest() + rest_of(ns.drop_last())
    }
}

pub proof fn lemma_rest_of_front<'a, V>(m: MarkedNode<'a, V>, ns: Seq<MarkedNode<'a, V>>)
    ensures
        rest_of(seq![m] + ns) == rest_of(ns) + m.rest(),
    decreases ns.len(),
{
    reveal(rest_of);
    if ns.len() == 0 {
        let ms = seq![m] + ns;
        assert(ms.last() == m);
        assert(ms.drop_last() =~= Seq::<MarkedNode<'a, V>>::empty());
        assert(rest_of(ms.drop_last()) == Seq::<(u64, V)>::empty());
        assert(rest_of(ms) =~= rest_of(ns) + m.rest());
    } else {
        let ms = seq![m] + ns;
        assert(ms.drop_last() =~= seq![m] + ns.drop_last());
        lemma_rest_of_front(m, ns.drop_last());
        assert(rest_of(ms) =~= rest_of(ns) + m.rest());
    }
}

/// Every reference in `ns` is well formed.
pub open spec fn all_wf<'a, V>(ns: Seq<MarkedNode<'a, V>>) -> bool {
    forall|i: int| 0 <= i < ns.len() ==> (#[trigger] ns[i]).wf()
}

proof fn lemma_rest_of_empty<'a, V>(ns: Seq<MarkedNode<'a, V>>)
    requires
        ns.len() == 0,
    ensures
        rest_of(ns) == Seq::<(u64, V)>::empty(),
{
    reveal(rest_of);
}

proof fn lemma_first_entry<'a, V>(ns: Seq<MarkedNode<'a, V>>)
    requires
        all_wf(ns),
        ns.len() > 0,
        ns.last().ahead() == Seq::<(u64, V)>::empty(),
    ensures
        rest_of(ns).len() > 0,
        rest_of(ns)[0] == ns.last().entry(),
{
    lemma_all_wf_pop_back(ns);
    assert(ns.last().rest()[0] == ns.last().entry());
}

proof fn lemma_last_entry<'a, V>(ns: Seq<MarkedNode<'a, V>>)
    requires
        all_wf(ns),
        ns.len() > 0,
        ns[0].behind() == Seq::<(u64, V)>::empty(),
    ensures
        rest_of(ns).len() > 0,
        rest_of(ns).last() == ns[0].entry(),
{
    lemma_all_wf_pop_front(ns);
    let r = ns[0].rest();
    assert(r[r.len() - 1] == ns[0].entry());
}

proof fn lemma_all_wf_back<'a, V>(ns: Seq<MarkedNode<'a, V>>, m: MarkedNode<'a, V>)
    requires
        all_wf(ns),
        m.wf(),
    ensures
        all_wf(ns.push(m)),
        rest_of(ns.push(m)) == m.rest() + rest_of(ns),
{
    reveal(rest_of);
    assert(ns.push(m).drop_last() =~= ns);
    assert forall|i: int| 0 <= i < ns.len() + 1 implies (#[trigger] ns.push(m)[i]).wf() by {
        if i < ns.len() {
            assert(ns.push(m)[i] == ns[i]);
        }
    }
}

proof fn lemma_all_wf_front<'a, V>(m: MarkedNode<'a, V>, ns: Seq<MarkedNode<'a, V>>)
    requires
        all_wf(ns),
        m.wf(),
    ensures
        all_wf(seq![m] + ns),
        rest_of(seq![m] + ns) == rest_of(ns) + m.rest(),
{
    lemma_rest_of_front(m, ns);
    assert forall|i: int| 0 <= i < ns.len() + 1 implies (#[trigger] (seq![m] + ns)[i]).wf() by {
        if i > 0 {
            assert((seq![m] + ns)[i] == ns[i - 1]);
        }
    }
}

proof fn lemma_all_wf_pop_back<'a, V>(ns: Seq<MarkedNode<'a, V>>)
    requires
        all_wf(ns),
        ns.len() > 0,
    ensures
        all_wf(ns.drop_last()),
        ns.last().wf(),
        rest_of(ns) == ns.last().rest() + rest_of(ns.drop_last()),
{
    reveal(rest_of);
    assert forall|i: int| 0 <= i < ns.len() - 1 implies (#[trigger] ns.drop_last()[i]).wf() by {
        assert(ns.drop_last()[i] == ns[i]);
    }
}

proof fn lemma_all_wf_pop_front<'a, V>(ns: Seq<MarkedNode<'a, V>>)
    requires
        all_wf(ns),
        ns.len() > 0,
    ensures
        all_wf(ns.drop_first()),
        ns[0].wf(),
        rest_of(ns) == rest_of(ns.drop_first()) + ns[0].rest(),
{
    assert(ns =~= seq![ns[0]] + ns.drop_first());
    lemma_rest_of_front(ns[0], ns.drop_first());
    assert forall|i: int| 0 <= i < ns.len() - 1 implies (#[trigger] ns.drop_first()[i]).wf() by {
        assert(ns.drop_first()[i] == ns[i + 1]);
    }
}

/// A double-ended, lazily expanding in-order cursor with an exact count of
/// the entries it has yet to produce.
pub struct Iter<'a, V> {
    nodes: VecDeque<MarkedNode<'a, V>>,
    size: usize,
}

impl<'a, V> View for Iter<'a, V> {
    type V = Seq<(u64, V)>;

    /// The entries not produced yet, in key order.
    closed spec fn view(&self) -> Seq<(u64, V)> {
        rest_of(self.nodes@)
    }
}

/// What a cursor started at `root` produces.
pub open spec fn start_view<'a, V>(root: Option<MarkedNode<'a, V>>) -> Seq<(u64, V)> {
    match root {
        None => Seq::empty(),
        Some(m) => m.rest(),
    }
}

impl<'a, V> Iter<'a, V> {
    pub closed spec fn wf(self) -> bool {
        &&& self.size == rest_of(self.nodes@).len()
        &&& all_wf(self.nodes@)
    }

    /// A cursor over the subtree at `root`, which holds `size` entries.
    pub fn new(root: Option<MarkedNode<'a, V>>, size: usize) -> (r: Self)
        requires
            root.is_some() ==> root.unwrap().wf(),
            size == start_view(root).len(),
        ensures
            r.wf(),
            r@ == start_view(root),
    {
        let mut nodes: VecDeque<MarkedNode<'a, V>> = VecDeque::new();
        proof {
            reveal(rest_of);
        }
        match root {
            None => {},
            Some(m) => {
                proof {
                    lemma_all_wf_back(nodes@, m);
                    reveal(rest_of);
                    assert(rest_of(nodes@) =~= Seq::<(u64, V)>::empty());
                }
                nodes.push_back(m);
                assert(rest_of(nodes@) =~= m.rest());
            },
        }
        Iter { nodes, size }
    }

    /// The exact number of entries left, as a size hint.
    pub fn size_hint(&self) -> (r: (usize, Option<usize>))
        requires
            self.wf(),
        ensures
            self@.len() <= usize::MAX,
            r == (self@.len() as usize, Some(self@.len() as usize)),
    {
        (self.size, Some(self.size))
    }

    /// The size hint of a range cursor: as exact as for a full one.
    pub fn range_size_hint(&self) -> (r: (usize, Option<usize>))
        requires
            self.wf(),
        ensures
            self@.len() <= usize::MAX,
            r == (self@.len() as usize, Some(self@.len() as usize)),
    {
        (self.size, Some(self.size))
    }

    /// Moves the left child of the back reference, if it has one left, onto
    /// the back; says whether it did.
    fn descend_back(&mut self) -> (pushed: bool)
        requires
            old(self).wf(),
            old(self).nodes@.len() > 0,
        ensures
            final(self).wf(),
            final(self)@ == old(self)@,
            final(self).nodes@.len() > 0,
            pushed ==> final(self).nodes@.last().ahead().len() < old(self).nodes@.last().ahead().len(),
            !pushed ==> final(self).nodes@.last().ahead() == Seq::<(u64, V)>::empty(),
            !pushed ==> final(self).nodes@.last().entry() == old(self).nodes@.last().entry(),
    {
        let ghost ns = self.nodes@;
        let mut m = self.nodes.pop_back().unwrap();
        proof {
            lemma_all_wf_pop_back(ns);
        }
        match m.take_left() {
            Some(c) => {
                proof {
                    lemma_all_wf_back(self.nodes@, m);
                    lemma_all_wf_back(self.nodes@.push(m), c);
                }
                self.nodes.push_back(m);
                self.nodes.push_back(c);
                assert(rest_of(self.nodes@) =~= rest_of(ns));
                true
            },
            None => {
                proof {
                    lemma_all_wf_back(self.nodes@, m);
                }
                self.nodes.push_back(m);
                assert(rest_of(self.nodes@) =~= rest_of(ns));
                false
            },
        }
    }

    /// Moves the right child of the front reference, if it has one left,
    /// onto the front; says whether it did.
    fn descend_front(&mut self) -> (pushed: bool)
        requires
            old(self).wf(),
            old(self).nodes@.len() > 0,
        ensures
            final(self).wf(),
            final(self)@ == old(self)@,
            final(self).nodes@.len() > 0,
            pushed ==> final(self).nodes@[0].behind().len() < old(self).nodes@[0].behind().len(),
            !pushed ==> final(self).nodes@[0].behind() == Seq::<(u64, V)>::empty(),
            !pushed ==> final(self).nodes@[0].entry() == old(self).nodes@[0].entry(),
    {
        let ghost ns = self.nodes@;
        let mut m = self.nodes.pop_front().unwrap();
        proof {
            lemma_all_wf_pop_front(ns);
        }
        let ghost tail = self.nodes@;
        match m.take_right() {
            Some(c) => {
                proof {
                    lemma_all_wf_front(m, tail);
                    lemma_all_wf_front(c, seq![m] + tail);
                }
                self.nodes.push_front(m);
                self.nodes.push_front(c);
                assert(rest_of(self.nodes@) =~= rest_of(ns));
                true
            },
            None => {
                proof {
                    lemma_all_wf_front(m, tail);
                }
                self.nodes.push_front(m);
                assert(rest_of(self.nodes@) =~= rest_of(ns));
                false
            },
        }
    }

    /// Produces the back reference's entry, whose left side is done, and
    /// leaves its right child in its place.
    fn pop_back_entry(&mut self) -> (r: (u64, &'a V))
        requires
            old(self).wf(),
            old(self).nodes@.len() > 0,
            old(self).nodes@.last().ahead() == Seq::<(u64, V)>::empty(),
        ensures
            final(self).wf(),
            old(self)@.len() > 0,
            r.0 == old(self)@[0].0,
            *r.1 == old(self)@[0].1,
            final(self)@ == old(self)@.drop_first(),
    {
        let ghost ns = self.nodes@;
        let mut m = self.nodes.pop_back().unwrap();
        proof {
            lemma_all_wf_pop_back(ns);
        }
        let ghost m0 = m;
        let ghost under = self.nodes@;
        assert(m0.rest() =~= seq![m0.entry()] + m0.behind());
        assert(rest_of(ns) == m0.rest() + rest_of(under));
        self.size = self.size - 1;
        match m.take_right() {
            Some(c) => {
                proof {
                    lemma_all_wf_back(under, c);
                }
                self.nodes.push_back(c);
                assert(rest_of(self.nodes@) == m0.behind() + rest_of(under));
            },
            None => {
                assert(rest_of(self.nodes@) =~= m0.behind() + rest_of(under));
            },
        }
        assert(rest_of(ns) =~= seq![m0.entry()] + rest_of(self.nodes@));
        assert(rest_of(ns).drop_first() =~= rest_of(self.nodes@));
        m.item()
    }

    /// Produces the front reference's entry, whose right side is done, and
    /// leaves its left child in its place.
    fn pop_front_entry(&mut self) -> (r: (u64, &'a V))
        requires
            old(self).wf(),
            old(self).nodes@.len() > 0,
            old(self).nodes@[0].behind() == Seq::<(u64, V)>::empty(),
        ensures
            final(self).wf(),
            old(self)@.len() > 0,
            r.0 == old(self)@.last().0,
            *r.1 == old(self)@.last().1,
            final(self)@ == old(self)@.drop_last(),
    {
        let ghost ns = self.nodes@;
        let mut m = self.nodes.pop_front().unwrap();
        proof {
            lemma_all_wf_pop_front(ns);
        }
        let ghost m0 = m;
        let ghost tail = self.nodes@;
        assert(m0.rest() =~= m0.ahead() + seq![m0.entry()]);
        assert(rest_of(ns) == rest_of(tail) + m0.rest());
        self.size = self.size - 1;
        match m.take_left() {
            Some(c) => {
                proof {
                    lemma_all_wf_front(c, tail);
                }
                self.nodes.push_front(c);
                assert(rest_of(self.nodes@) == rest_of(tail) + m0.ahead());
            },
            None => {
                assert(rest_of(self.nodes@) =~= rest_of(tail) + m0.ahead());
            },
        }
        assert(rest_of(ns) =~= rest_of(self.nodes@) + seq![m0.entry()]);
        assert(rest_of(ns).drop_last() =~= rest_of(self.nodes@));
        m.item()
    }

    /// Produces the first entry left, expanding left spines at the back.
    pub fn next(&mut self) -> (r: Option<(u64, &'a V)>)
        requires
            old(self).wf(),
        ensures
            final(self).wf(),
            old(self)@.len() <= usize::MAX,
            old(self)@.len() == 0 ==> r.is_none() && final(self)@ == old(self)@,
            old(self)@.len() > 0 ==> {
                &&& r.is_some()
                &&& r.unwrap().0 == old(self)@[0].0
                &&& *r.unwrap().1 == old(self)@[0].1
                &&& final(self)@ == old(self)@.drop_first()
            },
    {
        if self.nodes.len() == 0 {
            proof {
                lemma_rest_of_empty(self.nodes@);
            }
            return None;
        }
        loop
            invariant
                self.wf(),
                self@ == old(self)@,
                self.nodes@.len() > 0,
            ensures
                self.wf(),
                self@ == old(self)@,
                self.nodes@.len() > 0,
                self.nodes@.last().ahead() == Seq::<(u64, V)>::empty(),
            decreases self.nodes@.last().ahead().len(),
        {
            if !self.descend_back() {
                break;
            }
        }
        Some(self.pop_back_entry())
    }

    /// Produces the last entry left, expanding right spines at the front.
    pub fn next_back(&mut self) -> (r: Option<(u64, &'a V)>)
        requires
            old(self).wf(),
        ensures
            final(self).wf(),
            old(self)@.len() <= usize::MAX,
            old(self)@.len() == 0 ==> r.is_none() && final(self)@ == old(self)@,
            old(self)@.len() > 0 ==> {
                &&& r.is_some()
                &&& r.unwrap().0 == old(self)@.last().0
                &&& *r.unwrap().1 == old(self)@.last().1
                &&& final(self)@ == old(self)@.drop_last()
            },
    {
        if self.nodes.len() == 0 {
            proof {
                lemma_rest_of_empty(self.nodes@);
            }
            return None;
        }
        loop
            invariant
                self.wf(),
                self@ == old(self)@,
                self.nodes@.len() > 0,
            ensures
                self.wf(),
                self@ == old(self)@,
                self.nodes@.len() > 0,
                self.nodes@[0].behind() == Seq::<(u64, V)>::empty(),
            decreases self.nodes@[0].behind().len(),
        {
            if !self.descend_front() {
                break;
            }
        }
        Some(self.pop_front_entry())
    }

    /// Discards the left side of the back reference.
    fn drop_back_ahead(&mut self)
        requires
            old(self).wf(),
            old(self).nodes@.len() > 0,
        ensures
            final(self).wf(),
            final(self).nodes@.len() > 0,
            final(self).nodes@.last().ahead() == Seq::<(u64, V)>::empty(),
            final(self).nodes@.last().entry() == old(self).nodes@.last().entry(),
            old(self).nodes@.last().ahead().len() < old(self)@.len(),
            final(self)@ == old(self)@.subrange(
                old(self).nodes@.last().ahead().len() as int,
                old(self)@.len() as int,
            ),
    {
        let ghost ns = self.nodes@;
        let mut m = self.nodes.pop_back().unwrap();
        proof {
            lemma_all_wf_pop_back(ns);
        }
        let n = m.ahead_len();
        let _ = m.take_left();
        self.size = self.size - n;
        proof {
            lemma_all_wf_back(self.nodes@, m);
        }
        self.nodes.push_back(m);
        assert(rest_of(self.nodes@) =~= rest_of(ns).subrange(n as int, rest_of(ns).len() as int));
    }

    /// Discards the right side of the front reference.
    fn drop_front_behind(&mut self)
        requires
            old(self).wf(),
            old(self).nodes@.len() > 0,
        ensures
            final(self).wf(),
            final(self).nodes@.len() > 0,
            final(self).nodes@[0].behind() == Seq::<(u64, V)>::empty(),
            final(self).nodes@[0].entry() == old(self).nodes@[0].entry(),
            old(self).nodes@[0].behind().len() < old(self)@.len(),
            final(self)@ == old(self)@.subrange(
                0,
                old(self)@.len() - old(self).nodes@[0].behind().len(),
            ),
    {
        let ghost ns = self.nodes@;
        let mut m = self.nodes.pop_front().unwrap();
        proof {
            lemma_all_wf_pop_front(ns);
        }
        let ghost tail = self.nodes@;
        let n = m.behind_len();
        let _ = m.take_right();
        self.size = self.size - n;
        proof {
            lemma_all_wf_front(m, tail);
        }
        self.nodes.push_front(m);
        assert(rest_of(self.nodes@) =~= rest_of(ns).subrange(0, rest_of(ns).len() - n));
    }

    /// Discards, from the back, every entry before the lower bound `min`.
    fn cut_low(&mut self, min: Bound)
        requires
            old(self).wf(),
            sorted(old(self)@),
        ensures
            final(self).wf(),
            final(self)@ == old(self)@.subrange(lo_index(old(self)@, min), old(self)@.len() as int),
    {
        let ghost s = self@;
        let k = match min {
            Bound::Unbounded => {
                proof {
                    lemma_lower_cut(s, min, 0);
                }
                assert(s.subrange(0, s.len() as int) =~= s);
                return;
            },
            Bound::Included(k) => k,
            Bound::Excluded(k) => k,
        };
        let inclusive = match min {
            Bound::Included(_) => true,
            _ => false,
        };
        loop
            invariant
                self.wf(),
                sorted(s),
                min == (if inclusive { Bound::Included(k) } else { Bound::Excluded(k) }),
                self@.len() <= s.len(),
                self@ == s.subrange(s.len() - self@.len(), s.len() as int),
                forall|i: int| 0 <= i < s.len() - self@.len() ==> below(min, #[trigger] s[i].0),
            ensures
                self.wf(),
                self@ == s.subrange(lo_index(s, min), s.len() as int),
            decreases self@.len(), if self.nodes@.len() == 0 { 0 } else { self.nodes@.last().ahead().len() },
        {
            let ghost j = s.len() - self@.len();
            if self.nodes.len() == 0 {
                proof {
                    lemma_rest_of_empty(self.nodes@);
                    lemma_lower_cut(s, min, s.len() as int);
                }
                break;
            }
            let last = self.nodes.len() - 1;
            let key = self.nodes[last].key();
            match compare_keys(k, key) {
                std::cmp::Ordering::Less => {
                    if !self.descend_back() {
                        proof {
                            lemma_first_entry(self.nodes@);
                            assert(s[j] == self@[0]);
                            lemma_lower_cut(s, min, j);
                        }
                        break;
                    }
                },
                std::cmp::Ordering::Equal => {
                    self.drop_back_ahead();
                    let ghost j1 = s.len() - self@.len();
                    proof {
                        lemma_first_entry(self.nodes@);
                        assert(s[j1] == self@[0]);
                        assert forall|i: int| 0 <= i < j1 implies below(min, #[trigger] s[i].0) by {
                            if i >= j {
                                assert(s[i].0 < s[j1].0);
                            }
                        }
                    }
                    if inclusive {
                        proof {
                            lemma_lower_cut(s, min, j1);
                        }
                        break;
                    }
                    let _ = self.pop_back_entry();
                    proof {
                        let j2 = s.len() - self@.len();
                        assert(self@ =~= s.subrange(j2, s.len() as int));
                        if j2 < s.len() {
                            assert(s[j1].0 < s[j2].0);
                        }
                        lemma_lower_cut(s, min, j2);
                    }
                    break;
                },
                std::cmp::Ordering::Greater => {
                    self.drop_back_ahead();
                    let ghost j1 = s.len() - self@.len();
                    proof {
                        lemma_first_entry(self.nodes@);
                        assert(s[j1] == self@[0]);
                        assert forall|i: int| 0 <= i <= j1 implies below(min, #[trigger] s[i].0) by {
                            if i >= j && i < j1 {
                                assert(s[i].0 < s[j1].0);
                            }
                        }
                    }
                    let _ = self.pop_back_entry();
                    assert(self@ =~= s.subrange(j1 + 1, s.len() as int));
                },
            }
        }
    }

    /// Discards, from the front, every entry after the upper bound `max`.
    fn cut_high(&mut self, max: Bound, Ghost(s): Ghost<Seq<(u64, V)>>, Ghost(lo): Ghost<int>)
        requires
            old(self).wf(),
            sorted(s),
            0 <= lo <= s.len(),
            old(self)@ == s.subrange(lo, s.len() as int),
        ensures
            final(self).wf(),
            final(self)@ == if lo <= hi_index(s, max) { s.subrange(lo, hi_index(s, max)) } else { Seq::empty() },
    {
        let k = match max {
            Bound::Unbounded => {
                proof {
                    lemma_upper_cut(s, max, s.len() as int);
                }
                return;
            },
            Bound::Included(k) => k,
            Bound::Excluded(k) => k,
        };
        let inclusive = match max {
            Bound::Included(_) => true,
            _ => false,
        };
        loop
            invariant
                self.wf(),
                sorted(s),
                0 <= lo <= s.len(),
                max == (if inclusive { Bound::Included(k) } else { Bound::Excluded(k) }),
                lo + self@.len() <= s.len(),
                self@ == s.subrange(lo, lo + self@.len()),
                forall|i: int| lo + self@.len() <= i < s.len() ==> above(max, #[trigger] s[i].0),
            ensures
                self.wf(),
                self@ == if lo <= hi_index(s, max) { s.subrange(lo, hi_index(s, max)) } else { Seq::empty() },
            decreases self@.len(), if self.nodes@.len() == 0 { 0 } else { self.nodes@[0].behind().len() },
        {
            let ghost j = lo + self@.len();
            if self.nodes.len() == 0 {
                proof {
                    lemma_rest_of_empty(self.nodes@);
                    lemma_upper_within(s, max, lo);
                    if lo == hi_index(s, max) {
                        assert(self@ =~= s.subrange(lo, hi_index(s, max)));
                    }
                }
                break;
            }
            let key = self.nodes[0].key();
            match compare_keys(k, key) {
                std::cmp::Ordering::Greater => {
                    if !self.descend_front() {
                        proof {
                            lemma_last_entry(self.nodes@);
                            assert(s[j - 1] == self@.last());
                            lemma_upper_cut(s, max, j);
                        }
                        break;
                    }
                },
                std::cmp::Ordering::Equal => {
                    self.drop_front_behind();
                    let ghost j1 = lo + self@.len();
                    proof {
                        lemma_last_entry(self.nodes@);
                        assert(s[j1 - 1] == self@.last());
                        assert forall|i: int| j1 <= i < s.len() implies above(max, #[trigger] s[i].0) by {
                            if i < j {
                                assert(s[j1 - 1].0 < s[i].0);
                            }
                        }
                    }
                    if inclusive {
                        proof {
                            lemma_upper_cut(s, max, j1);
                        }
                        break;
                    }
                    let _ = self.pop_front_entry();
                    proof {
                        let j2 = lo + self@.len();
                        assert(self@ =~= s.subrange(lo, j2));
                        if j2 > lo {
                            assert(s[j2 - 1].0 < s[j1 - 1].0);
                            lemma_upper_cut(s, max, j2);
                        } else {
                            lemma_upper_within(s, max, lo);
                            if lo == hi_index(s, max) {
                                assert(self@ =~= s.subrange(lo, hi_index(s, max)));
                            }
                        }
                    }
                    break;
                },
                std::cmp::Ordering::Less => {
                    self.drop_front_behind();
                    let ghost j1 = lo + self@.len();
                    proof {
                        lemma_last_entry(self.nodes@);
                        assert(s[j1 - 1] == self@.last());
                        assert forall|i: int| j1 - 1 <= i < s.len() implies above(max, #[trigger] s[i].0) by {
                            if i < j && i >= j1 {
                                assert(s[j1 - 1].0 < s[i].0);
                            }
                        }
                    }
                    let _ = self.pop_front_entry();
                    assert(self@ =~= s.subrange(lo, j1 - 1));
                },
            }
        }
    }

    /// A cursor over the entries of the subtree at `root` (which holds
    /// `size` entries) between the bounds `min` and `max`. Whole subtrees
    /// outside the bounds are discarded, so this takes time proportional
    /// to the height of the tree.
    pub fn range(root: Option<MarkedNode<'a, V>>, size: usize, min: Bound, max: Bound) -> (r: Self)
        requires
            root.is_some() ==> root.unwrap().wf(),
            size == start_view(root).len(),
            sorted(start_view(root)),
        ensures
            r.wf(),
            r@ == cut(start_view(root), min, max),
    {
        let mut it = Iter::new(root, size);
        let ghost s = it@;
        it.cut_low(min);
        proof {
            lemma_bounds_within(s, min, max);
        }
        it.cut_high(max, Ghost(s), Ghost(lo_index(s, min)));
        it
    }
}

} // verus!
