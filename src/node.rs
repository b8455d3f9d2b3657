//! The tree cell, its views, and the balancing engine: rotations, insertion
//! and removal on owned subtrees.

use vstd::prelude::*;
use crate::order::{
    compare_keys, count_below, found, sorted, inserted, lookup, removed,
    lemma_inserted_left, lemma_edit_len, lemma_removed_left, lemma_removed_right,
    lemma_removed_here, lemma_inserted_right, lemma_inserted_here, lemma_count_below_at, lemma_count_below_split,
    lemma_sorted_join, lemma_sorted_parts,
};

verus! {

/// One cell of the tree. `size` and `height` are the cached augmentation of
/// the subtree rooted here: its number of entries and its height. Insertion
/// and removal keep the AVL discipline: at every node the two subtrees'
/// heights differ by at most one.
pub struct Node<V> {
    pub key: u64,
    pub value: V,
    pub left: Option<Box<Node<V>>>,
    pub right: Option<Box<Node<V>>>,
    pub size: usize,
    pub height: usize,
}

/// The entries of a subtree, in key order.
pub open spec fn elems<V>(t: Option<Box<Node<V>>>) -> Seq<(u64, V)>
    decreases t,
{
    match t {
        None => Seq::empty(),
        Some(n) => elems(n.left) + seq![(n.key, n.value)] + elems(n.right),
    }
}

/// The cached entry count of a subtree.
pub open spec fn size_of<V>(t: Option<Box<Node<V>>>) -> int {
    match t {
        None => 0,
        Some(n) => n.size as int,
    }
}

/// The cached height of a subtree.
pub open spec fn height_of<V>(t: Option<Box<Node<V>>>) -> int {
    match t {
        None => 0,
        Some(n) => n.height as int,
    }
}

pub open spec fn max_int(a: int, b: int) -> int {
    if a >= b { a } else { b }
}

/// Every cached size and height in the subtree is the one its children give.
pub open spec fn ok<V>(t: Option<Box<Node<V>>>) -> bool
    decreases t,
{
    match t {
        None => true,
        Some(n) => {
            &&& n.size as int == size_of(n.left) + size_of(n.right) + 1
            &&& n.height as int == 1 + max_int(height_of(n.left), height_of(n.right))
            &&& ok(n.left)
            &&& ok(n.right)
        },
    }
}

/// At every node the heights of the two subtrees differ by at most one.
pub open spec fn balanced<V>(t: Option<Box<Node<V>>>) -> bool
    decreases t,
{
    match t {
        None => true,
        Some(n) => {
            &&& -1 <= height_of(n.left) - height_of(n.right) <= 1
            &&& balanced(n.left)
            &&& balanced(n.right)
        },
    }
}

/// A subtree that can stand as a whole tree: cached data right, keys
/// ordered, heights balanced.
pub open spec fn valid<V>(t: Option<Box<Node<V>>>) -> bool {
    ok(t) && sorted(elems(t)) && balanced(t)
}

pub proof fn lemma_ok<V>(t: Option<Box<Node<V>>>)
    requires
        ok(t),
    ensures
        size_of(t) == elems(t).len(),
        0 <= height_of(t) <= size_of(t),
        t.is_some() ==> height_of(t) >= 1,
    decreases t,
{
    if let Some(n) = t {
        lemma_ok(n.left);
        lemma_ok(n.right);
    }
}

/// Two to the power `n`.
pub open spec fn two_to(n: nat) -> nat
    decreases n,
{
    if n == 0 {
        1
    } else {
        2 * two_to((n - 1) as nat)
    }
}

pub proof fn lemma_two_to_grows(a: nat, b: nat)
    requires
        a <= b,
    ensures
        two_to(a) <= two_to(b),
    decreases b,
{
    if a < b {
        lemma_two_to_grows(a, (b - 1) as nat);
    }
}

/// A balanced subtree of height `h` holds at least `2^(h/2) - 1` entries,
/// so its height is at most about twice the logarithm of its size.
pub proof fn lemma_height_logarithmic<V>(t: Option<Box<Node<V>>>)
    requires
        ok(t),
        balanced(t),
    ensures
        two_to((height_of(t) / 2) as nat) <= size_of(t) + 1,
    decreases t,
{
    lemma_ok(t);
    if let Some(n) = t {
        lemma_height_logarithmic(n.left);
        lemma_height_logarithmic(n.right);
        lemma_ok(n.left);
        lemma_ok(n.right);
        let h = height_of(t);
        if h / 2 >= 1 {
            let m = (h / 2 - 1) as nat;
            lemma_two_to_grows(m, (height_of(n.left) / 2) as nat);
            lemma_two_to_grows(m, (height_of(n.right) / 2) as nat);
            assert(two_to((h / 2) as nat) == 2 * two_to(m));
        }
    }
}

pub proof fn lemma_node_parts<V>(n: Box<Node<V>>)
    requires
        ok(Some(n)),
    ensures
        ok(n.left),
        ok(n.right),
{
}

pub fn size<V>(t: &Option<Box<Node<V>>>) -> (r: usize)
    ensures
        r == size_of(*t),
{
    match t {
        None => 0,
        Some(n) => n.size,
    }
}

fn height<V>(t: &Option<Box<Node<V>>>) -> (r: usize)
    ensures
        r == height_of(*t),
{
    match t {
        None => 0,
        Some(n) => n.height,
    }
}

/// A node over two subtrees, with its cached data computed from theirs.
pub(crate) fn make<V>(left: Option<Box<Node<V>>>, key: u64, value: V, right: Option<Box<Node<V>>>) -> (r: Box<Node<V>>)
    requires
        ok(left),
        ok(right),
        size_of(left) + size_of(right) + 1 <= usize::MAX,
    ensures
        r.left == left && r.right == right && r.key == key && r.value == value,
        ok(Some(r)),
        elems(Some(r)) == elems(left) + seq![(key, value)] + elems(right),
        size_of(Some(r)) == size_of(left) + size_of(right) + 1,
        height_of(Some(r)) == 1 + max_int(height_of(left), height_of(right)),
        balanced(left) && balanced(right) && -1 <= height_of(left) - height_of(right) <= 1 ==> balanced(
            Some(r),
        ),
{
    proof {
        lemma_ok(left);
        lemma_ok(right);
    }
    let hl = height(&left);
    let hr = height(&right);
    let h = if hl >= hr { hl + 1 } else { hr + 1 };
    let s = size(&left) + size(&right) + 1;
    Box::new(Node { key, value, left, right, size: s, height: h })
}

/// Takes a node apart into its left subtree, entry and right subtree.
pub(crate) fn split_node<V>(n: Box<Node<V>>) -> (r: (Option<Box<Node<V>>>, u64, V, Option<Box<Node<V>>>))
    requires
        ok(Some(n)),
    ensures
        r == (n.left, n.key, n.value, n.right),
        ok(r.0),
        ok(r.3),
        elems(Some(n)) == elems(r.0) + seq![(r.1, r.2)] + elems(r.3),
        size_of(Some(n)) == size_of(r.0) + size_of(r.3) + 1,
        height_of(Some(n)) == 1 + max_int(height_of(r.0), height_of(r.3)),
        elems(r.0).len() == size_of(r.0),
        elems(r.3).len() == size_of(r.3),
        0 <= height_of(r.0) <= size_of(r.0),
        0 <= height_of(r.3) <= size_of(r.3),
        r.0.is_some() ==> height_of(r.0) >= 1,
        r.3.is_some() ==> height_of(r.3) >= 1,
        balanced(Some(n)) ==> balanced(r.0) && balanced(r.3) && -1 <= height_of(r.0) - height_of(r.3) <= 1,
{
    let Node { key, value, left, right, size: _, height: _ } = *n;
    proof {
        lemma_ok(left);
        lemma_ok(right);
    }
    (left, key, value, right)
}

/// Rotation for a left subtree two levels taller than the right one.
fn lift_left<V>(l: Box<Node<V>>, key: u64, value: V, right: Option<Box<Node<V>>>) -> (r: Box<Node<V>>)
    requires
        ok(Some(l)),
        ok(right),
        size_of(Some(l)) + size_of(right) + 1 <= usize::MAX,
        balanced(Some(l)),
        balanced(right),
        height_of(Some(l)) == height_of(right) + 2,
    ensures
        ok(Some(r)),
        balanced(Some(r)),
        height_of(Some(l)) <= height_of(Some(r)) <= height_of(Some(l)) + 1,
        elems(Some(r)) == elems(Some(l)) + seq![(key, value)] + elems(right),
        size_of(Some(r)) == size_of(Some(l)) + size_of(right) + 1,
{
    let ghost gl = Some(l);
    let (ll, lk, lv, lr) = split_node(l);
    if height(&ll) >= height(&lr) {
        let b = make(lr, key, value, right);
        let r = make(ll, lk, lv, Some(b));
        assert(elems(Some(r)) =~= elems(gl) + seq![(key, value)] + elems(right));
        r
    } else {
        let (ml, mk, mv, mr) = split_node(lr.unwrap());
        let a = make(ll, lk, lv, ml);
        let b = make(mr, key, value, right);
        let r = make(Some(a), mk, mv, Some(b));
        assert(elems(Some(r)) =~= elems(gl) + seq![(key, value)] + elems(right));
        r
    }
}

/// Rotation for a right subtree two levels taller than the left one.
fn lift_right<V>(left: Option<Box<Node<V>>>, key: u64, value: V, rn: Box<Node<V>>) -> (r: Box<Node<V>>)
    requires
        ok(left),
        ok(Some(rn)),
        size_of(left) + size_of(Some(rn)) + 1 <= usize::MAX,
        balanced(left),
        balanced(Some(rn)),
        height_of(Some(rn)) == height_of(left) + 2,
    ensures
        ok(Some(r)),
        balanced(Some(r)),
        height_of(Some(rn)) <= height_of(Some(r)) <= height_of(Some(rn)) + 1,
        elems(Some(r)) == elems(left) + seq![(key, value)] + elems(Some(rn)),
        size_of(Some(r)) == size_of(left) + size_of(Some(rn)) + 1,
{
    let ghost gr = Some(rn);
    let (rl, rk, rv, rr) = split_node(rn);
    if height(&rr) >= height(&rl) {
        let a = make(left, key, value, rl);
        let r = make(Some(a), rk, rv, rr);
        assert(elems(Some(r)) =~= elems(left) + seq![(key, value)] + elems(gr));
        r
    } else {
        let (ml, mk, mv, mr) = split_node(rl.unwrap());
        let a = make(left, key, value, ml);
        let b = make(mr, rk, rv, rr);
        let r = make(Some(a), mk, mv, Some(b));
        assert(elems(Some(r)) =~= elems(left) + seq![(key, value)] + elems(gr));
        r
    }
}

/// A node over two subtrees whose heights may differ by more than one:
/// the taller side is lifted by a single or double rotation.
fn rebalance<V>(left: Option<Box<Node<V>>>, key: u64, value: V, right: Option<Box<Node<V>>>) -> (r: Box<Node<V>>)
    requires
        ok(left),
        ok(right),
        size_of(left) + size_of(right) + 1 <= usize::MAX,
        balanced(left),
        balanced(right),
        -2 <= height_of(left) - height_of(right) <= 2,
    ensures
        ok(Some(r)),
        balanced(Some(r)),
        max_int(height_of(left), height_of(right)) <= height_of(Some(r)) <= 1 + max_int(
            height_of(left),
            height_of(right),
        ),
        -1 <= height_of(left) - height_of(right) <= 1 ==> height_of(Some(r)) == 1 + max_int(
            height_of(left),
            height_of(right),
        ),
        elems(Some(r)) == elems(left) + seq![(key, value)] + elems(right),
        size_of(Some(r)) == size_of(left) + size_of(right) + 1,
{
    proof {
        lemma_ok(left);
        lemma_ok(right);
    }
    let hl = height(&left);
    let hr = height(&right);
    if hl > hr + 1 {
        lift_left(left.unwrap(), key, value, right)
    } else if hr > hl + 1 {
        lift_right(left, key, value, right.unwrap())
    } else {
        make(left, key, value, right)
    }
}

/// Stores `value` under `key` in the subtree: the entry is replaced when the
/// key is present, and otherwise a leaf is added and the path rebalanced.
/// Returns the new subtree and the value that was replaced.
pub fn insert_node<V>(t: Option<Box<Node<V>>>, key: u64, value: V) -> (r: (Box<Node<V>>, Option<V>))
    requires
        valid(t),
        size_of(t) < usize::MAX || found(elems(t), key),
    ensures
        valid(Some(r.0)),
        elems(Some(r.0)) == inserted(elems(t), key, value),
        r.1 == lookup(elems(t), key),
        height_of(t) <= height_of(Some(r.0)) <= height_of(t) + 1,
    decreases t,
{
    let ghost s = elems(t);
    match t {
        None => {
            let r = make(None, key, value, None);
            proof {
                lemma_count_below_at(s, key, 0);
                assert(elems(Some(r)) =~= inserted(s, key, value));
            }
            (r, None)
        },
        Some(n) => {
            let (left, nk, nv, right) = split_node(n);
            let ghost x = (nk, nv);
            proof {
                lemma_sorted_parts(elems(left), x, elems(right));
            }
            match compare_keys(key, nk) {
                std::cmp::Ordering::Less => {
                    proof {
                        lemma_inserted_left(elems(left), x, elems(right), key, value);
                    }
                    let (nl, old) = insert_node(left, key, value);
                    proof {
                        lemma_ok(Some(nl));
                        lemma_edit_len(elems(left), key, value);
                        lemma_sorted_join(elems(Some(nl)), x, elems(right));
                    }
                    (rebalance(Some(nl), nk, nv, right), old)
                },
                std::cmp::Ordering::Greater => {
                    proof {
                        lemma_inserted_right(elems(left), x, elems(right), key, value);
                    }
                    let (nr, old) = insert_node(right, key, value);
                    proof {
                        lemma_ok(Some(nr));
                        lemma_edit_len(elems(right), key, value);
                        lemma_sorted_join(elems(left), x, elems(Some(nr)));
                    }
                    (rebalance(left, nk, nv, Some(nr)), old)
                },
                std::cmp::Ordering::Equal => {
                    proof {
                        lemma_inserted_here(elems(left), x, elems(right), value);
                        lemma_sorted_join(elems(left), (key, value), elems(right));
                    }
                    (make(left, key, value, right), Some(nv))
                },
            }
        },
    }
}

/// Detaches the first entry of a non-empty subtree.
fn pop_min<V>(n: Box<Node<V>>) -> (r: (Option<Box<Node<V>>>, u64, V))
    requires
        ok(Some(n)),
        balanced(Some(n)),
    ensures
        ok(r.0),
        balanced(r.0),
        elems(Some(n)) == seq![(r.1, r.2)] + elems(r.0),
        size_of(r.0) == size_of(Some(n)) - 1,
        height_of(Some(n)) - 1 <= height_of(r.0) <= height_of(Some(n)),
    decreases n,
{
    let (left, key, value, right) = split_node(n);
    match left {
        None => {
            assert(elems(Some(n)) =~= seq![(key, value)] + elems(right));
            (right, key, value)
        },
        Some(ln) => {
            let (rest, k, v) = pop_min(ln);
            let r = rebalance(rest, key, value, right);
            assert(elems(Some(n)) =~= seq![(k, v)] + elems(Some(r)));
            (Some(r), k, v)
        },
    }
}

/// One subtree holding the entries of `left` followed by those of `right`.
fn join<V>(left: Option<Box<Node<V>>>, right: Option<Box<Node<V>>>) -> (r: Option<Box<Node<V>>>)
    requires
        ok(left),
        ok(right),
        size_of(left) + size_of(right) <= usize::MAX,
        balanced(left),
        balanced(right),
        -1 <= height_of(left) - height_of(right) <= 1,
    ensures
        ok(r),
        balanced(r),
        max_int(height_of(left), height_of(right)) <= height_of(r) <= 1 + max_int(
            height_of(left),
            height_of(right),
        ),
        elems(r) == elems(left) + elems(right),
        size_of(r) == size_of(left) + size_of(right),
{
    match right {
        None => {
            assert(elems(left) + elems(right) =~= elems(left));
            left
        },
        Some(rn) => {
            let (rest, k, v) = pop_min(rn);
            let r = rebalance(left, k, v, rest);
            assert(elems(Some(r)) =~= elems(left) + elems(Some(rn)));
            Some(r)
        },
    }
}

/// Takes `key` out of the subtree, if it is there, rebalancing the path.
/// Returns the new subtree and the value that was taken out.
pub fn remove_node<V>(t: Option<Box<Node<V>>>, key: u64) -> (r: (Option<Box<Node<V>>>, Option<V>))
    requires
        valid(t),
    ensures
        valid(r.0),
        elems(r.0) == removed(elems(t), key),
        r.1 == lookup(elems(t), key),
        height_of(t) - 1 <= height_of(r.0) <= height_of(t),
    decreases t,
{
    match t {
        None => (None, None),
        Some(n) => {
            let (left, nk, nv, right) = split_node(n);
            let ghost x = (nk, nv);
            proof {
                lemma_sorted_parts(elems(left), x, elems(right));
            }
            match compare_keys(key, nk) {
                std::cmp::Ordering::Less => {
                    proof {
                        lemma_removed_left(elems(left), x, elems(right), key);
                        lemma_edit_len(elems(left), key, nv);
                    }
                    let (nl, old) = remove_node(left, key);
                    proof {
                        lemma_ok(nl);
                        lemma_sorted_join(elems(nl), x, elems(right));
                    }
                    (Some(rebalance(nl, nk, nv, right)), old)
                },
                std::cmp::Ordering::Greater => {
                    proof {
                        lemma_removed_right(elems(left), x, elems(right), key);
                        lemma_edit_len(elems(right), key, nv);
                    }
                    let (nr, old) = remove_node(right, key);
                    proof {
                        lemma_ok(nr);
                        lemma_sorted_join(elems(left), x, elems(nr));
                    }
                    (Some(rebalance(left, nk, nv, nr)), old)
                },
                std::cmp::Ordering::Equal => {
                    proof {
                        lemma_removed_here(elems(left), x, elems(right));
                        lemma_sorted_parts(elems(left), x, elems(right));
                        assert(sorted(elems(left) + elems(right))) by {
                            let s = elems(t);
                            let j = elems(left) + elems(right);
                            let ll = elems(left).len();
                            assert forall|i: int, k: int| 0 <= i < k < j.len() implies j[i].0 < j[k].0 by {
                                let i2 = if i < ll { i } else { i + 1 };
                                let k2 = if k < ll { k } else { k + 1 };
                                assert(j[i] == s[i2]);
                                assert(j[k] == s[k2]);
                            }
                        }
                    }
                    (join(left, right), Some(nv))
                },
            }
        },
    }
}

/// The position of `key` among the subtree's keys (the number of keys below
/// it), and whether it is present.
pub fn rank_node<V>(t: &Option<Box<Node<V>>>, key: u64) -> (r: (usize, bool))
    requires
        valid(*t),
    ensures
        r.0 == count_below(elems(*t), key),
        r.1 == found(elems(*t), key),
    decreases t,
{
    match t {
        None => (0, false),
        Some(n) => {
            proof {
                lemma_ok(n.left);
                lemma_ok(n.right);
                lemma_sorted_parts(elems(n.left), (n.key, n.value), elems(n.right));
            }
            match compare_keys(key, n.key) {
                std::cmp::Ordering::Less => {
                    proof {
                        lemma_inserted_left(elems(n.left), (n.key, n.value), elems(n.right), key, n.value);
                    }
                    rank_node(&n.left, key)
                },
                std::cmp::Ordering::Greater => {
                    proof {
                        lemma_inserted_right(elems(n.left), (n.key, n.value), elems(n.right), key, n.value);
                        lemma_count_below_split(elems(n.right), key);
                    }
                    let (c, f) = rank_node(&n.right, key);
                    (size(&n.left) + 1 + c, f)
                },
                std::cmp::Ordering::Equal => {
                    proof {
                        lemma_inserted_here(elems(n.left), (n.key, n.value), elems(n.right), n.value);
                    }
                    (size(&n.left), true)
                },
            }
        },
    }
}

/// The value stored under `key` in the subtree, if any.
pub fn get_node<'a, V>(t: &'a Option<Box<Node<V>>>, key: u64) -> (r: Option<&'a V>)
    requires
        valid(*t),
    ensures
        r.is_some() == found(elems(*t), key),
        r.is_some() ==> lookup(elems(*t), key) == Some(*r.unwrap()),
    decreases t,
{
    match t {
        None => None,
        Some(n) => {
            proof {
                lemma_sorted_parts(elems(n.left), (n.key, n.value), elems(n.right));
            }
            match compare_keys(key, n.key) {
                std::cmp::Ordering::Less => {
                    proof {
                        lemma_inserted_left(elems(n.left), (n.key, n.value), elems(n.right), key, n.value);
                    }
                    get_node(&n.left, key)
                },
                std::cmp::Ordering::Greater => {
                    proof {
                        lemma_inserted_right(elems(n.left), (n.key, n.value), elems(n.right), key, n.value);
                    }
                    get_node(&n.right, key)
                },
                std::cmp::Ordering::Equal => {
                    proof {
                        lemma_inserted_here(elems(n.left), (n.key, n.value), elems(n.right), n.value);
                    }
                    Some(&n.value)
                },
            }
        },
    }
}

/// The entry at position `i` of the subtree, found by the cached sizes.
pub fn select_node<'a, V>(t: &'a Option<Box<Node<V>>>, i: usize) -> (r: (u64, &'a V))
    requires
        ok(*t),
        i < size_of(*t),
    ensures
        r.0 == elems(*t)[i as int].0,
        *r.1 == elems(*t)[i as int].1,
    decreases t,
{
    proof {
        lemma_ok(*t);
    }
    let n = t.as_ref().unwrap();
    proof {
        lemma_ok(n.left);
        lemma_ok(n.right);
    }
    let ls = size(&n.left);
    if i < ls {
        select_node(&n.left, i)
    } else if i == ls {
        (n.key, &n.value)
    } else {
        let r = select_node(&n.right, i - ls - 1);
        assert(elems(*t)[i as int] == elems(n.right)[i - ls - 1]);
        r
    }
}

} // verus!
