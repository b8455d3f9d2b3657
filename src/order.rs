//! Key comparison and the facts about sorted entry sequences that the tree
//! and its iterators are specified with.

use vstd::prelude::*;
use compare::Compare;

verus! {

/// Relies on `compare::natural()` (`compare::Natural<u64>`): its `compare`
/// is `Ord::cmp` on the two keys, so it answers by integer order.
#[verifier::external_body]
pub(crate) fn compare_keys(a: u64, b: u64) -> (r: std::cmp::Ordering)
    ensures
        (r == std::cmp::Ordering::Less) == (a < b),
        (r == std::cmp::Ordering::Equal) == (a == b),
        (r == std::cmp::Ordering::Greater) == (a > b),
{
    compare::natural().compare(&a, &b)
}

/// Keys strictly increase along the sequence.
pub open spec fn sorted<V>(s: Seq<(u64, V)>) -> bool {
    forall|i: int, j: int| 0 <= i < j < s.len() ==> s[i].0 < s[j].0
}

/// The number of entries whose key is below `k`.
pub open spec fn count_below<V>(s: Seq<(u64, V)>, k: u64) -> nat
    decreases s.len(),
{
    if s.len() == 0 {
        0
    } else {
        count_below(s.drop_last(), k) + if s.last().0 < k { 1nat } else { 0nat }
    }
}

/// `k` is a key of the sorted sequence `s` (it then sits at `count_below(s, k)`).
pub open spec fn found<V>(s: Seq<(u64, V)>, k: u64) -> bool {
    count_below(s, k) < s.len() && s[count_below(s, k) as int].0 == k
}

/// The value stored under `k`, if any.
pub open spec fn lookup<V>(s: Seq<(u64, V)>, k: u64) -> Option<V> {
    if found(s, k) {
        Some(s[count_below(s, k) as int].1)
    } else {
        None
    }
}

/// The entries after storing `v` under `k`: the entry is replaced in place
/// when `k` is present, and otherwise inserted where the order puts it.
pub open spec fn inserted<V>(s: Seq<(u64, V)>, k: u64, v: V) -> Seq<(u64, V)> {
    if found(s, k) {
        s.update(count_below(s, k) as int, (k, v))
    } else {
        s.insert(count_below(s, k) as int, (k, v))
    }
}

/// The entries after taking out `k`, if it is present.
pub open spec fn removed<V>(s: Seq<(u64, V)>, k: u64) -> Seq<(u64, V)> {
    if found(s, k) {
        s.remove(count_below(s, k) as int)
    } else {
        s
    }
}

/// Index of the first entry whose key is above `k` (at or above it when
/// `inclusive`); the length of `s` when there is none.
pub open spec fn succ_index<V>(s: Seq<(u64, V)>, k: u64, inclusive: bool) -> int {
    if !inclusive && found(s, k) {
        count_below(s, k) + 1int
    } else {
        count_below(s, k) as int
    }
}

/// Index of the last entry whose key is below `k` (at or below it when
/// `inclusive`); `-1` when there is none.
pub open spec fn pred_index<V>(s: Seq<(u64, V)>, k: u64, inclusive: bool) -> int {
    if inclusive && found(s, k) {
        count_below(s, k) as int
    } else {
        count_below(s, k) - 1int
    }
}

pub proof fn lemma_count_below_split<V>(s: Seq<(u64, V)>, k: u64)
    requires
        sorted(s),
    ensures
        count_below(s, k) <= s.len(),
        forall|i: int| 0 <= i < count_below(s, k) ==> s[i].0 < k,
        forall|i: int| count_below(s, k) <= i < s.len() ==> s[i].0 >= k,
    decreases s.len(),
{
    if s.len() > 0 {
        let p = s.drop_last();
        let n = s.len() - 1;
        assert(sorted(p));
        lemma_count_below_split(p, k);
        let c = count_below(p, k) as int;
        assert(forall|i: int| 0 <= i < n ==> p[i] == s[i]);
        if s[n].0 < k {
            assert forall|i: int| 0 <= i < n implies p[i].0 < k by {
                assert(s[i].0 < s[n].0);
            }
            if c < n {
                assert(p[c].0 < k);
            }
            assert(c == n);
            assert(count_below(s, k) == n + 1);
        } else {
            assert(count_below(s, k) == c);
        }
    }
}

/// In a sorted sequence, the one index that splits the keys below `k` from
/// the others is `count_below(s, k)`.
pub proof fn lemma_count_below_at<V>(s: Seq<(u64, V)>, k: u64, j: int)
    requires
        sorted(s),
        0 <= j <= s.len(),
        forall|i: int| 0 <= i < j ==> s[i].0 < k,
        forall|i: int| j <= i < s.len() ==> s[i].0 >= k,
    ensures
        count_below(s, k) == j,
{
    lemma_count_below_split(s, k);
    let c = count_below(s, k) as int;
    if c < j {
        assert(s[c].0 < k);
    } else if c > j {
        assert(s[j].0 >= k);
    }
}

pub proof fn lemma_sorted_join<V>(a: Seq<(u64, V)>, x: (u64, V), b: Seq<(u64, V)>)
    requires
        sorted(a),
        sorted(b),
        forall|i: int| 0 <= i < a.len() ==> a[i].0 < x.0,
        forall|i: int| 0 <= i < b.len() ==> x.0 < b[i].0,
    ensures
        sorted(a + seq![x] + b),
{
    let s = a + seq![x] + b;
    assert forall|i: int, j: int| 0 <= i < j < s.len() implies s[i].0 < s[j].0 by {
        if j < a.len() {
        } else if i < a.len() {
            assert(s[i].0 < x.0);
        } else if i == a.len() {
            assert(s[j] == b[j - a.len() - 1]);
        } else {
            assert(s[i] == b[i - a.len() - 1]);
            assert(s[j] == b[j - a.len() - 1]);
        }
    }
}

pub proof fn lemma_sorted_parts<V>(a: Seq<(u64, V)>, x: (u64, V), b: Seq<(u64, V)>)
    requires
        sorted(a + seq![x] + b),
    ensures
        sorted(a),
        sorted(b),
        forall|i: int| 0 <= i < a.len() ==> a[i].0 < x.0,
        forall|i: int| 0 <= i < b.len() ==> x.0 < b[i].0,
{
    let s = a + seq![x] + b;
    assert forall|i: int| 0 <= i < a.len() implies a[i].0 < x.0 by {
        assert(s[i] == a[i]);
        assert(s[a.len() as int] == x);
    }
    assert forall|i: int| 0 <= i < b.len() implies x.0 < b[i].0 by {
        assert(s[a.len() + 1 + i] == b[i]);
        assert(s[a.len() as int] == x);
    }
    assert forall|i: int, j: int| 0 <= i < j < a.len() implies a[i].0 < a[j].0 by {
        assert(s[i] == a[i]);
        assert(s[j] == a[j]);
    }
    assert forall|i: int, j: int| 0 <= i < j < b.len() implies b[i].0 < b[j].0 by {
        assert(s[a.len() + 1 + i] == b[i]);
        assert(s[a.len() + 1 + j] == b[j]);
    }
}

pub proof fn lemma_edit_len<V>(s: Seq<(u64, V)>, k: u64, v: V)
    requires
        sorted(s),
    ensures
        inserted(s, k, v).len() == if found(s, k) { s.len() } else { s.len() + 1 },
        removed(s, k).len() == if found(s, k) { s.len() - 1 } else { s.len() as int },
{
    lemma_count_below_split(s, k);
}

/// Storing a key below the middle entry happens in the left part.
pub proof fn lemma_inserted_left<V>(a: Seq<(u64, V)>, x: (u64, V), b: Seq<(u64, V)>, k: u64, v: V)
    requires
        sorted(a + seq![x] + b),
        k < x.0,
    ensures
        inserted(a + seq![x] + b, k, v) == inserted(a, k, v) + seq![x] + b,
        lookup(a + seq![x] + b, k) == lookup(a, k),
        found(a + seq![x] + b, k) == found(a, k),
        count_below(a + seq![x] + b, k) == count_below(a, k),
        forall|i: int| 0 <= i < inserted(a, k, v).len() ==> inserted(a, k, v)[i].0 < x.0,
{
    let s = a + seq![x] + b;
    lemma_sorted_parts(a, x, b);
    lemma_count_below_split(a, k);
    let c = count_below(a, k) as int;
    assert forall|i: int| c <= i < s.len() implies s[i].0 >= k by {
        if i >= a.len() + 1 {
            assert(s[i] == b[i - a.len() - 1]);
        }
    }
    lemma_count_below_at(s, k, c);
    if found(a, k) {
        assert(inserted(s, k, v) =~= inserted(a, k, v) + seq![x] + b);
    } else {
        assert(inserted(s, k, v) =~= inserted(a, k, v) + seq![x] + b);
        let ia = inserted(a, k, v);
        assert forall|i: int| 0 <= i < ia.len() implies ia[i].0 < x.0 by {
            if i > c {
                assert(ia[i] == a[i - 1]);
            } else if i < c {
                assert(ia[i] == a[i]);
            }
        }
    }
}

/// Storing a key above the middle entry happens in the right part.
pub proof fn lemma_inserted_right<V>(a: Seq<(u64, V)>, x: (u64, V), b: Seq<(u64, V)>, k: u64, v: V)
    requires
        sorted(a + seq![x] + b),
        k > x.0,
    ensures
        inserted(a + seq![x] + b, k, v) == a + seq![x] + inserted(b, k, v),
        lookup(a + seq![x] + b, k) == lookup(b, k),
        found(a + seq![x] + b, k) == found(b, k),
        count_below(a + seq![x] + b, k) == a.len() + 1 + count_below(b, k),
        forall|i: int| 0 <= i < inserted(b, k, v).len() ==> x.0 < inserted(b, k, v)[i].0,
{
    let s = a + seq![x] + b;
    lemma_sorted_parts(a, x, b);
    lemma_count_below_split(b, k);
    let cb = count_below(b, k) as int;
    let c = a.len() + 1 + cb;
    assert forall|i: int| 0 <= i < c implies s[i].0 < k by {
        if i >= a.len() + 1 {
            assert(s[i] == b[i - a.len() - 1]);
        }
    }
    assert forall|i: int| c <= i < s.len() implies s[i].0 >= k by {
        assert(s[i] == b[i - a.len() - 1]);
    }
    lemma_count_below_at(s, k, c);
    if found(b, k) {
        assert(s[c] == b[cb]);
        assert(inserted(s, k, v) =~= a + seq![x] + inserted(b, k, v));
    } else {
        if cb < b.len() {
            assert(s[c] == b[cb]);
        }
        assert(inserted(s, k, v) =~= a + seq![x] + inserted(b, k, v));
        let ib = inserted(b, k, v);
        assert forall|i: int| 0 <= i < ib.len() implies x.0 < ib[i].0 by {
            if i > cb {
                assert(ib[i] == b[i - 1]);
            } else if i < cb {
                assert(ib[i] == b[i]);
            }
        }
    }
}

/// Storing the middle entry's key replaces that entry.
pub proof fn lemma_inserted_here<V>(a: Seq<(u64, V)>, x: (u64, V), b: Seq<(u64, V)>, v: V)
    requires
        sorted(a + seq![x] + b),
    ensures
        inserted(a + seq![x] + b, x.0, v) == a + seq![(x.0, v)] + b,
        lookup(a + seq![x] + b, x.0) == Some(x.1),
        found(a + seq![x] + b, x.0),
        count_below(a + seq![x] + b, x.0) == a.len(),
{
    let s = a + seq![x] + b;
    lemma_sorted_parts(a, x, b);
    assert forall|i: int| a.len() <= i < s.len() implies s[i].0 >= x.0 by {
        if i >= a.len() + 1 {
            assert(s[i] == b[i - a.len() - 1]);
        }
    }
    lemma_count_below_at(s, x.0, a.len() as int);
    assert(inserted(s, x.0, v) =~= a + seq![(x.0, v)] + b);
}

/// Taking out a key below the middle entry happens in the left part.
pub proof fn lemma_removed_left<V>(a: Seq<(u64, V)>, x: (u64, V), b: Seq<(u64, V)>, k: u64)
    requires
        sorted(a + seq![x] + b),
        k < x.0,
    ensures
        removed(a + seq![x] + b, k) == removed(a, k) + seq![x] + b,
        lookup(a + seq![x] + b, k) == lookup(a, k),
        sorted(removed(a, k)),
        forall|i: int| 0 <= i < removed(a, k).len() ==> removed(a, k)[i].0 < x.0,
{
    let s = a + seq![x] + b;
    let v = x.1;
    lemma_inserted_left(a, x, b, k, v);
    lemma_sorted_parts(a, x, b);
    lemma_count_below_split(a, k);
    let c = count_below(a, k) as int;
    let ra = removed(a, k);
    if found(a, k) {
        assert(removed(s, k) =~= ra + seq![x] + b);
        assert forall|i: int| 0 <= i < ra.len() implies ra[i].0 < x.0 && (i < c ==> ra[i] == a[i]) && (
        i >= c ==> ra[i] == a[i + 1]) by {
            if i >= c {
                assert(ra[i] == a[i + 1]);
            }
        }
        assert forall|i: int, j: int| 0 <= i < j < ra.len() implies ra[i].0 < ra[j].0 by {
        }
    } else {
        assert forall|i: int| 0 <= i < ra.len() implies ra[i].0 < x.0 by {
            assert(s[i] == a[i]);
        }
    }
}

/// Taking out a key above the middle entry happens in the right part.
pub proof fn lemma_removed_right<V>(a: Seq<(u64, V)>, x: (u64, V), b: Seq<(u64, V)>, k: u64)
    requires
        sorted(a + seq![x] + b),
        k > x.0,
    ensures
        removed(a + seq![x] + b, k) == a + seq![x] + removed(b, k),
        lookup(a + seq![x] + b, k) == lookup(b, k),
        sorted(removed(b, k)),
        forall|i: int| 0 <= i < removed(b, k).len() ==> x.0 < removed(b, k)[i].0,
{
    let s = a + seq![x] + b;
    let v = x.1;
    lemma_inserted_right(a, x, b, k, v);
    lemma_sorted_parts(a, x, b);
    lemma_count_below_split(b, k);
    let cb = count_below(b, k) as int;
    let rb = removed(b, k);
    if found(b, k) {
        assert(removed(s, k) =~= a + seq![x] + rb);
        assert forall|i: int| 0 <= i < rb.len() implies x.0 < rb[i].0 && (i < cb ==> rb[i] == b[i]) && (
        i >= cb ==> rb[i] == b[i + 1]) by {
            if i >= cb {
                assert(rb[i] == b[i + 1]);
            }
        }
        assert forall|i: int, j: int| 0 <= i < j < rb.len() implies rb[i].0 < rb[j].0 by {
        }
    }
}

/// Taking out the middle entry's key leaves the two parts side by side.
pub proof fn lemma_removed_here<V>(a: Seq<(u64, V)>, x: (u64, V), b: Seq<(u64, V)>)
    requires
        sorted(a + seq![x] + b),
    ensures
        removed(a + seq![x] + b, x.0) == a + b,
        lookup(a + seq![x] + b, x.0) == Some(x.1),
{
    let s = a + seq![x] + b;
    lemma_inserted_here(a, x, b, x.1);
    assert(removed(s, x.0) =~= a + b);
}

/// One end of a key range.
#[derive(Clone, Copy, Debug, PartialEq, Eq, Structural)]
pub enum Bound {
    Unbounded,
    Included(u64),
    Excluded(u64),
}

/// `key` lies before the range that `b` opens.
pub open spec fn below(b: Bound, key: u64) -> bool {
    match b {
        Bound::Unbounded => false,
        Bound::Included(k) => key < k,
        Bound::Excluded(k) => key <= k,
    }
}

/// `key` lies after the range that `b` closes.
pub open spec fn above(b: Bound, key: u64) -> bool {
    match b {
        Bound::Unbounded => false,
        Bound::Included(k) => key > k,
        Bound::Excluded(k) => key >= k,
    }
}

/// Index of the first entry not below the lower bound `b`.
pub open spec fn lo_index<V>(s: Seq<(u64, V)>, b: Bound) -> int {
    match b {
        Bound::Unbounded => 0,
        Bound::Included(k) => count_below(s, k) as int,
        Bound::Excluded(k) => succ_index(s, k, false),
    }
}

/// Index of the first entry above the upper bound `b`.
pub open spec fn hi_index<V>(s: Seq<(u64, V)>, b: Bound) -> int {
    match b {
        Bound::Unbounded => s.len() as int,
        Bound::Included(k) => succ_index(s, k, false),
        Bound::Excluded(k) => count_below(s, k) as int,
    }
}

/// The entries of `s` between the bounds `min` and `max`.
pub open spec fn cut<V>(s: Seq<(u64, V)>, min: Bound, max: Bound) -> Seq<(u64, V)> {
    if lo_index(s, min) <= hi_index(s, max) {
        s.subrange(lo_index(s, min), hi_index(s, max))
    } else {
        Seq::empty()
    }
}

/// In a sorted sequence, the index that splits the keys at or below `k`
/// from those above it is `succ_index(s, k, false)`.
pub proof fn lemma_succ_index_at<V>(s: Seq<(u64, V)>, k: u64, j: int)
    requires
        sorted(s),
        0 <= j <= s.len(),
        forall|i: int| 0 <= i < j ==> s[i].0 <= k,
        forall|i: int| j <= i < s.len() ==> s[i].0 > k,
    ensures
        succ_index(s, k, false) == j,
{
    if j > 0 && s[j - 1].0 == k {
        assert forall|i: int| 0 <= i < j - 1 implies s[i].0 < k by {
            assert(s[i].0 < s[j - 1].0);
        }
        lemma_count_below_at(s, k, j - 1);
    } else {
        assert forall|i: int| 0 <= i < j implies s[i].0 < k by {
            if i < j - 1 {
                assert(s[i].0 < s[j - 1].0);
            }
        }
        lemma_count_below_at(s, k, j);
    }
}

/// The first index whose entry is not below `b` is `lo_index(s, b)`.
pub proof fn lemma_lower_cut<V>(s: Seq<(u64, V)>, b: Bound, j: int)
    requires
        sorted(s),
        0 <= j <= s.len(),
        forall|i: int| 0 <= i < j ==> below(b, #[trigger] s[i].0),
        j < s.len() ==> !below(b, s[j].0),
    ensures
        lo_index(s, b) == j,
{
    match b {
        Bound::Unbounded => {
            if j > 0 {
                assert(below(b, s[0].0));
            }
        },
        Bound::Included(k) => {
            assert forall|i: int| j <= i < s.len() implies s[i].0 >= k by {
                if i > j {
                    assert(s[j].0 < s[i].0);
                }
            }
            assert forall|i: int| 0 <= i < j implies s[i].0 < k by {
                assert(below(b, s[i].0));
            }
            lemma_count_below_at(s, k, j);
        },
        Bound::Excluded(k) => {
            assert forall|i: int| j <= i < s.len() implies s[i].0 > k by {
                if i > j {
                    assert(s[j].0 < s[i].0);
                }
            }
            assert forall|i: int| 0 <= i < j implies s[i].0 <= k by {
                assert(below(b, s[i].0));
            }
            lemma_succ_index_at(s, k, j);
        },
    }
}

/// The first index from which every entry is above `b` is `hi_index(s, b)`.
pub proof fn lemma_upper_cut<V>(s: Seq<(u64, V)>, b: Bound, j: int)
    requires
        sorted(s),
        0 <= j <= s.len(),
        forall|i: int| j <= i < s.len() ==> above(b, #[trigger] s[i].0),
        j > 0 ==> !above(b, s[j - 1].0),
    ensures
        hi_index(s, b) == j,
{
    match b {
        Bound::Unbounded => {
            if j < s.len() {
                assert(above(b, s[j].0));
            }
        },
        Bound::Included(k) => {
            assert forall|i: int| 0 <= i < j implies s[i].0 <= k by {
                if i < j - 1 {
                    assert(s[i].0 < s[j - 1].0);
                }
            }
            assert forall|i: int| j <= i < s.len() implies s[i].0 > k by {
                assert(above(b, s[i].0));
            }
            lemma_succ_index_at(s, k, j);
        },
        Bound::Excluded(k) => {
            assert forall|i: int| 0 <= i < j implies s[i].0 < k by {
                if i < j - 1 {
                    assert(s[i].0 < s[j - 1].0);
                }
            }
            assert forall|i: int| j <= i < s.len() implies s[i].0 >= k by {
                assert(above(b, s[i].0));
            }
            lemma_count_below_at(s, k, j);
        },
    }
}

/// When every entry from `j` on is above `b`, the range ends by `j`.
pub proof fn lemma_upper_within<V>(s: Seq<(u64, V)>, b: Bound, j: int)
    requires
        sorted(s),
        0 <= j <= s.len(),
        forall|i: int| j <= i < s.len() ==> above(b, #[trigger] s[i].0),
    ensures
        hi_index(s, b) <= j,
{
    match b {
        Bound::Unbounded => {
            if j < s.len() {
                assert(above(b, s[j].0));
            }
        },
        Bound::Included(k) => {
            lemma_count_below_split(s, k);
            let c = count_below(s, k) as int;
            if c >= j && j < s.len() {
                assert(above(b, s[j].0));
            }
        },
        Bound::Excluded(k) => {
            lemma_count_below_split(s, k);
            let c = count_below(s, k) as int;
            if c > j {
                assert(above(b, s[j].0));
            }
        },
    }
}

pub proof fn lemma_bounds_within<V>(s: Seq<(u64, V)>, min: Bound, max: Bound)
    requires
        sorted(s),
    ensures
        0 <= lo_index(s, min) <= s.len(),
        0 <= hi_index(s, max) <= s.len(),
{
    match min {
        Bound::Unbounded => {},
        Bound::Included(k) => lemma_count_below_split(s, k),
        Bound::Excluded(k) => lemma_count_below_split(s, k),
    }
    match max {
        Bound::Unbounded => {},
        Bound::Included(k) => lemma_count_below_split(s, k),
        Bound::Excluded(k) => lemma_count_below_split(s, k),
    }
}

/// An entry's key sits at the entry's own position.
pub proof fn lemma_rank_of_entry<V>(s: Seq<(u64, V)>, i: int)
    requires
        sorted(s),
        0 <= i < s.len(),
    ensures
        count_below(s, s[i].0) == i,
        found(s, s[i].0),
        lookup(s, s[i].0) == Some(s[i].1),
{
    assert forall|j: int| 0 <= j < i implies s[j].0 < s[i].0 by {}
    assert forall|j: int| i <= j < s.len() implies s[j].0 >= s[i].0 by {
        if j > i {
            assert(s[i].0 < s[j].0);
        }
    }
    lemma_count_below_at(s, s[i].0, i);
}

} // verus!
