//! Laws that relate the map's operations to one another, stated over the
//! sorted entry sequence that a well-formed map views as.

use vstd::prelude::*;
use crate::order::{
    Bound, sorted, count_below, found, lookup, inserted, removed, succ_index, pred_index, below,
    above, lo_index, hi_index, lemma_count_below_split, lemma_count_below_at,
};

verus! {

/// After storing `v` under `k`, the entries stay sorted, `k` maps to `v`,
/// every other key keeps its value, and the length grows by one exactly when
/// `k` was absent.
pub proof fn lemma_insert_law<V>(s: Seq<(u64, V)>, k: u64, v: V)
    requires
        sorted(s),
    ensures
        sorted(inserted(s, k, v)),
        inserted(s, k, v).len() == if found(s, k) { s.len() } else { s.len() + 1 },
        lookup(inserted(s, k, v), k) == Some(v),
        forall|k2: u64| k2 != k ==> lookup(#[trigger] inserted(s, k, v), k2) == lookup(s, k2),
{
    lemma_count_below_split(s, k);
    let c = count_below(s, k) as int;
    let t = inserted(s, k, v);
    if found(s, k) {
        assert(sorted(t)) by {
            assert forall|i: int, j: int| 0 <= i < j < t.len() implies t[i].0 < t[j].0 by {
                assert(t[i].0 == s[i].0 && t[j].0 == s[j].0);
            }
        }
        assert forall|i: int| 0 <= i < t.len() implies t[i].0 == s[i].0 by {}
        lemma_count_below_at(t, k, c);
        assert forall|k2: u64| k2 != k implies lookup(#[trigger] inserted(s, k, v), k2) == lookup(s, k2) by {
            lemma_count_below_split(s, k2);
            let c2 = count_below(s, k2) as int;
            lemma_count_below_at(t, k2, c2);
        }
    } else {
        assert(sorted(t)) by {
            assert forall|i: int, j: int| 0 <= i < j < t.len() implies t[i].0 < t[j].0 by {
                if j < c {
                } else if j == c {
                } else if i < c {
                    assert(t[j] == s[j - 1]);
                } else if i == c {
                    assert(t[j] == s[j - 1]);
                    assert(s[c].0 != k);
                    if j - 1 > c {
                        assert(s[c].0 < s[j - 1].0);
                    }
                } else {
                    assert(t[i] == s[i - 1] && t[j] == s[j - 1]);
                }
            }
        }
        assert forall|i: int| c < i < t.len() implies t[i].0 > k by {
            assert(t[i] == s[i - 1]);
            assert(s[c].0 != k);
            if i - 1 > c {
                assert(s[c].0 < s[i - 1].0);
            }
        }
        lemma_count_below_at(t, k, c);
        assert forall|k2: u64| k2 != k implies lookup(#[trigger] inserted(s, k, v), k2) == lookup(s, k2) by {
            lemma_count_below_split(s, k2);
            let c2 = count_below(s, k2) as int;
            if k < k2 {
                if c2 < c {
                    assert(s[c2].0 >= k2);
                }
                assert forall|i: int| 0 <= i < c2 + 1 implies t[i].0 < k2 by {
                    if i > c {
                        assert(t[i] == s[i - 1]);
                    }
                }
                assert forall|i: int| c2 + 1 <= i < t.len() implies t[i].0 >= k2 by {
                    assert(t[i] == s[i - 1]);
                }
                lemma_count_below_at(t, k2, c2 + 1);
                if c2 < s.len() {
                    assert(t[c2 + 1] == s[c2]);
                }
            } else {
                if c2 > c {
                    assert(s[c].0 < k2);
                    assert(s[c].0 != k);
                }
                assert forall|i: int| c2 <= i < t.len() implies t[i].0 >= k2 by {
                    if i > c {
                        assert(t[i] == s[i - 1]);
                    }
                }
                lemma_count_below_at(t, k2, c2);
                if c2 < c {
                    assert(t[c2] == s[c2]);
                }
            }
        }
    }
}

/// After taking out a present key `k`, the entries stay sorted, `k` is gone,
/// every other key keeps its value, and the length drops by one.
pub proof fn lemma_remove_law<V>(s: Seq<(u64, V)>, k: u64)
    requires
        sorted(s),
        found(s, k),
    ensures
        sorted(removed(s, k)),
        removed(s, k).len() == s.len() - 1,
        !found(removed(s, k), k),
        lookup(removed(s, k), k) == None::<V>,
        forall|k2: u64| k2 != k ==> lookup(#[trigger] removed(s, k), k2) == lookup(s, k2),
{
    lemma_count_below_split(s, k);
    let c = count_below(s, k) as int;
    let t = removed(s, k);
    assert forall|i: int| 0 <= i < t.len() implies t[i] == (if i < c { s[i] } else { s[i + 1] }) by {}
    assert(sorted(t)) by {
        assert forall|i: int, j: int| 0 <= i < j < t.len() implies t[i].0 < t[j].0 by {
            let i2 = if i < c { i } else { i + 1 };
            let j2 = if j < c { j } else { j + 1 };
            assert(s[i2].0 < s[j2].0);
        }
    }
    assert forall|i: int| c <= i < t.len() implies t[i].0 > k by {
        assert(s[c].0 < s[i + 1].0);
    }
    lemma_count_below_at(t, k, c);
    assert forall|k2: u64| k2 != k implies lookup(#[trigger] removed(s, k), k2) == lookup(s, k2) by {
        lemma_count_below_split(s, k2);
        let c2 = count_below(s, k2) as int;
        if k < k2 {
            if c2 <= c {
                assert(s[c].0 >= k2);
            }
            assert forall|i: int| c2 - 1 <= i < t.len() implies t[i].0 >= k2 by {}
            lemma_count_below_at(t, k2, c2 - 1);
        } else {
            if c2 > c {
                assert(s[c].0 < k2);
            }
            assert forall|i: int| c2 <= i < t.len() implies t[i].0 >= k2 by {
                if i >= c {
                    assert(s[c].0 < s[i + 1].0);
                }
            }
            lemma_count_below_at(t, k2, c2);
            if c2 == c && c < t.len() {
                assert(s[c].0 < s[c + 1].0);
            }
        }
    }
}

/// `succ(k, inclusive)` answers with the first entry whose key is above `k`
/// (at or above it when `inclusive`), and `pred(k, inclusive)` with the last
/// entry whose key is below `k` (at or below it when `inclusive`).
pub proof fn lemma_succ_pred_law<V>(s: Seq<(u64, V)>, k: u64, inclusive: bool)
    requires
        sorted(s),
    ensures
        0 <= succ_index(s, k, inclusive) <= s.len(),
        forall|i: int|
            0 <= i < succ_index(s, k, inclusive) ==> if inclusive { s[i].0 < k } else { s[i].0 <= k },
        succ_index(s, k, inclusive) < s.len() ==> if inclusive {
            s[succ_index(s, k, inclusive)].0 >= k
        } else {
            s[succ_index(s, k, inclusive)].0 > k
        },
        -1 <= pred_index(s, k, inclusive) < s.len(),
        forall|i: int|
            pred_index(s, k, inclusive) < i < s.len() ==> if inclusive { s[i].0 > k } else { s[i].0 >= k },
        pred_index(s, k, inclusive) >= 0 ==> if inclusive {
            s[pred_index(s, k, inclusive)].0 <= k
        } else {
            s[pred_index(s, k, inclusive)].0 < k
        },
{
    lemma_count_below_split(s, k);
    let c = count_below(s, k) as int;
    if found(s, k) {
        assert forall|i: int| c < i < s.len() implies s[i].0 > k by {
            assert(s[c].0 < s[i].0);
        }
    } else {
        assert forall|i: int| c <= i < s.len() implies s[i].0 > k by {
            if i > c {
                assert(s[c].0 < s[i].0);
            }
        }
    }
}

/// An entry lies in the range between `min` and `max` exactly when its key
/// passes both bounds; the range is therefore the entries that pass, in
/// order, and read backwards it is those entries in reverse order.
pub proof fn lemma_range_law<V>(s: Seq<(u64, V)>, min: Bound, max: Bound)
    requires
        sorted(s),
    ensures
        0 <= lo_index(s, min) <= s.len(),
        0 <= hi_index(s, max) <= s.len(),
        forall|i: int|
            0 <= i < s.len() ==> ((lo_index(s, min) <= i < hi_index(s, max)) <==> (!below(min, s[i].0)
                && !above(max, s[i].0))),
{
    lemma_count_below_split(s, 0);
    match min {
        Bound::Unbounded => {},
        Bound::Included(k) => lemma_succ_pred_law(s, k, true),
        Bound::Excluded(k) => lemma_succ_pred_law(s, k, false),
    }
    match max {
        Bound::Unbounded => {},
        Bound::Included(k) => lemma_succ_pred_law(s, k, false),
        Bound::Excluded(k) => lemma_succ_pred_law(s, k, true),
    }
}

/// The entries whose key is `k`.
pub open spec fn key_is<V>(k: u64) -> spec_fn((u64, V)) -> bool {
    |e: (u64, V)| e.0 == k
}

/// The entries whose key is not `k`.
pub open spec fn key_is_not<V>(k: u64) -> spec_fn((u64, V)) -> bool {
    |e: (u64, V)| e.0 != k
}

proof fn lemma_filter_keeps_all<V>(s: Seq<(u64, V)>, p: spec_fn((u64, V)) -> bool)
    requires
        forall|i: int| 0 <= i < s.len() ==> p(#[trigger] s[i]),
    ensures
        s.filter(p) == s,
    decreases s.len(),
{
    reveal(Seq::filter);
    if s.len() > 0 {
        lemma_filter_keeps_all(s.drop_last(), p);
        assert(s.drop_last().push(s.last()) =~= s);
    } else {
        assert(s.filter(p) =~= s);
    }
}

proof fn lemma_filter_keeps_none<V>(s: Seq<(u64, V)>, p: spec_fn((u64, V)) -> bool)
    requires
        forall|i: int| 0 <= i < s.len() ==> !p(#[trigger] s[i]),
    ensures
        s.filter(p) == Seq::<(u64, V)>::empty(),
    decreases s.len(),
{
    reveal(Seq::filter);
    if s.len() > 0 {
        lemma_filter_keeps_none(s.drop_last(), p);
    } else {
        assert(s.filter(p) =~= Seq::<(u64, V)>::empty());
    }
}

proof fn lemma_filter_one<V>(x: (u64, V), p: spec_fn((u64, V)) -> bool)
    ensures
        seq![x].filter(p) == if p(x) { seq![x] } else { Seq::<(u64, V)>::empty() },
{
    reveal(Seq::filter);
    lemma_filter_keeps_none(Seq::<(u64, V)>::empty(), p);
    assert(seq![x].drop_last() =~= Seq::<(u64, V)>::empty());
    assert(Seq::<(u64, V)>::empty().push(x) =~= seq![x]);
}

/// Splits a sorted sequence around the place of `k`: the part below it, the
/// entry under it (if any) and the part above it.
proof fn lemma_split_at_key<V>(s: Seq<(u64, V)>, k: u64) -> (r: (Seq<(u64, V)>, Seq<(u64, V)>, Seq<(u64, V)>))
    requires
        sorted(s),
    ensures
        s == r.0 + r.1 + r.2,
        r.0 == s.subrange(0, count_below(s, k) as int),
        r.1 == if found(s, k) { seq![s[count_below(s, k) as int]] } else { Seq::<(u64, V)>::empty() },
        forall|i: int| 0 <= i < r.0.len() ==> r.0[i].0 < k,
        forall|i: int| 0 <= i < r.2.len() ==> r.2[i].0 > k,
        r.0.filter(key_is_not(k)) == r.0,
        r.2.filter(key_is_not(k)) == r.2,
        r.0.filter(key_is(k)) == Seq::<(u64, V)>::empty(),
        r.2.filter(key_is(k)) == Seq::<(u64, V)>::empty(),
{
    lemma_count_below_split(s, k);
    let c = count_below(s, k) as int;
    let d = if found(s, k) { c + 1 } else { c };
    let a = s.subrange(0, c);
    let m = s.subrange(c, d);
    let b = s.subrange(d, s.len() as int);
    assert(s =~= a + m + b);
    if found(s, k) {
        assert(m =~= seq![s[c]]);
    } else {
        assert(m =~= Seq::<(u64, V)>::empty());
    }
    assert forall|i: int| 0 <= i < b.len() implies b[i].0 > k by {
        if found(s, k) {
            assert(s[c].0 < s[d + i].0);
        } else {
            assert(s[c + i].0 >= k);
        }
    }
    lemma_filter_keeps_all(a, key_is_not(k));
    lemma_filter_keeps_all(b, key_is_not(k));
    lemma_filter_keeps_none(a, key_is(k));
    lemma_filter_keeps_none(b, key_is(k));
    (a, m, b)
}

/// After storing `v` under `k`, the entries with key `k` are exactly
/// `(k, v)`, and the others are those of before, in the same order.
pub proof fn lemma_insert_filter<V>(s: Seq<(u64, V)>, k: u64, v: V)
    requires
        sorted(s),
    ensures
        inserted(s, k, v).filter(key_is(k)) == seq![(k, v)],
        inserted(s, k, v).filter(key_is_not(k)) == s.filter(key_is_not(k)),
{
    let (a, m, b) = lemma_split_at_key(s, k);
    let c = count_below(s, k) as int;
    let t = inserted(s, k, v);
    lemma_count_below_split(s, k);
    assert(a.len() == c);
    if found(s, k) {
        assert(m.len() == 1);
        assert(t =~= a + seq![(k, v)] + b);
    } else {
        assert(t =~= a + seq![(k, v)] + b);
    }
    lemma_filter_one((k, v), key_is(k));
    lemma_filter_one((k, v), key_is_not(k));
    Seq::filter_distributes_over_add(a + seq![(k, v)], b, key_is(k));
    Seq::filter_distributes_over_add(a, seq![(k, v)], key_is(k));
    Seq::filter_distributes_over_add(a + seq![(k, v)], b, key_is_not(k));
    Seq::filter_distributes_over_add(a, seq![(k, v)], key_is_not(k));
    Seq::filter_distributes_over_add(a + m, b, key_is_not(k));
    Seq::filter_distributes_over_add(a, m, key_is_not(k));
    if found(s, k) {
        assert(s[c].0 == k);
        lemma_filter_one(s[c], key_is_not(k));
    } else {
        lemma_filter_keeps_none(m, key_is_not(k));
    }
    assert(t.filter(key_is(k)) =~= seq![(k, v)]);
    assert(t.filter(key_is_not(k)) =~= s.filter(key_is_not(k)));
}

/// Taking out `k` leaves exactly the entries whose key is not `k`, in order.
pub proof fn lemma_remove_filter<V>(s: Seq<(u64, V)>, k: u64)
    requires
        sorted(s),
    ensures
        removed(s, k) == s.filter(key_is_not(k)),
{
    let (a, m, b) = lemma_split_at_key(s, k);
    let c = count_below(s, k) as int;
    Seq::filter_distributes_over_add(a + m, b, key_is_not(k));
    Seq::filter_distributes_over_add(a, m, key_is_not(k));
    if found(s, k) {
        assert(s[c].0 == k);
        lemma_filter_one(s[c], key_is_not(k));
        assert(removed(s, k) =~= a + b);
    } else {
        lemma_filter_keeps_none(m, key_is_not(k));
    }
    assert(removed(s, k) =~= s.filter(key_is_not(k)));
}

} // verus!
