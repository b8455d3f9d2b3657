//! The ordered map: a tree of nodes with cached sizes and heights, whose
//! contents are viewed as the sequence of its entries in key order.

use vstd::prelude::*;
use crate::node::{
    Node, elems, valid, size, height_of, two_to, lemma_ok, lemma_height_logarithmic, insert_node,
    remove_node, get_node, rank_node, select_node,
};
use crate::marked::MarkedNode;
use crate::iter::Iter;
use crate::into_iter::IntoIter;
use crate::order::{
    Bound, sorted, count_below, found, lookup, inserted, removed, succ_index, pred_index, cut,
    lemma_count_below_split, lemma_edit_len, lemma_rank_of_entry,
};
use crate::laws::lemma_insert_law;

verus! {

/// An ordered map from `u64` keys to values of type `V`.
pub struct TreeMap<V> {
    root: Option<Box<Node<V>>>,
}

impl<V> View for TreeMap<V> {
    type V = Seq<(u64, V)>;

    /// The entries, in increasing key order.
    closed spec fn view(&self) -> Seq<(u64, V)> {
        elems(self.root)
    }
}

impl<V> TreeMap<V> {
    /// Keys are ordered and every cached size and height is right.
    pub closed spec fn well_formed(self) -> bool {
        valid(self.root)
    }

    /// Keys strictly increase along the entries, so forward iteration
    /// yields increasing keys and backward iteration decreasing ones.
    pub proof fn lemma_keys_increase(self)
        requires
            self.well_formed(),
        ensures
            sorted(self@),
            forall|i: int, j: int| 0 <= i < j < self@.len() ==> self@[i].0 < self@[j].0,
    {
    }

    /// The height of the tree.
    pub closed spec fn height(self) -> int {
        height_of(self.root)
    }

    /// The tree is balanced: its height `h` satisfies `2^(h/2) <= len + 1`,
    /// so every descent takes a number of steps logarithmic in the length.
    pub proof fn lemma_depth_logarithmic(self)
        requires
            self.well_formed(),
        ensures
            two_to((self.height() / 2) as nat) <= self@.len() + 1,
    {
        lemma_ok(self.root);
        lemma_height_logarithmic(self.root);
    }

    /// The number of entries fits in a `usize`.
    pub proof fn lemma_ok_len(self)
        requires
            self.well_formed(),
        ensures
            self@.len() <= usize::MAX,
    {
        lemma_ok(self.root);
    }

    /// The empty map.
    pub fn new() -> (r: Self)
        ensures
            r.well_formed(),
            r@ == Seq::<(u64, V)>::empty(),
    {
        TreeMap { root: None }
    }

    /// The number of entries, read from the root's cached size.
    pub fn len(&self) -> (r: usize)
        requires
            self.well_formed(),
        ensures
            r == self@.len(),
    {
        proof {
            lemma_ok(self.root);
        }
        size(&self.root)
    }

    pub fn is_empty(&self) -> (r: bool)
        requires
            self.well_formed(),
        ensures
            r == (self@.len() == 0),
    {
        self.len() == 0
    }

    /// Stores `value` under `key`; returns the value it replaced, if any.
    pub fn insert(&mut self, key: u64, value: V) -> (r: Option<V>)
        requires
            old(self).well_formed(),
            old(self)@.len() < usize::MAX || found(old(self)@, key),
        ensures
            final(self).well_formed(),
            final(self)@ == inserted(old(self)@, key, value),
            r == lookup(old(self)@, key),
    {
        proof {
            lemma_ok(self.root);
        }
        let root = self.root.take();
        let (n, old) = insert_node(root, key, value);
        self.root = Some(n);
        old
    }

    /// Takes out the entry under `key`; returns its value, if it was there.
    pub fn remove(&mut self, key: u64) -> (r: Option<V>)
        requires
            old(self).well_formed(),
        ensures
            final(self).well_formed(),
            final(self)@ == removed(old(self)@, key),
            r == lookup(old(self)@, key),
    {
        let root = self.root.take();
        let (n, old) = remove_node(root, key);
        self.root = n;
        old
    }

    /// The value under `key`, if any.
    pub fn get(&self, key: u64) -> (r: Option<&V>)
        requires
            self.well_formed(),
        ensures
            r.is_some() == found(self@, key),
            r.is_some() ==> lookup(self@, key) == Some(*r.unwrap()),
    {
        get_node(&self.root, key)
    }

    pub fn contains_key(&self, key: u64) -> (r: bool)
        requires
            self.well_formed(),
        ensures
            r == found(self@, key),
    {
        get_node(&self.root, key).is_some()
    }

    /// `Ok(i)` when `key` is the key at position `i`; otherwise `Err(i)`,
    /// where `i` is the number of keys below `key`.
    pub fn rank(&self, key: u64) -> (r: Result<usize, usize>)
        requires
            self.well_formed(),
        ensures
            r == if found(self@, key) {
                Ok::<usize, usize>(count_below(self@, key) as usize)
            } else {
                Err::<usize, usize>(count_below(self@, key) as usize)
            },
    {
        let (c, f) = rank_node(&self.root, key);
        if f {
            Ok(c)
        } else {
            Err(c)
        }
    }

    /// The entry at position `index` in key order, if there is one.
    pub fn select(&self, index: usize) -> (r: Option<(u64, &V)>)
        requires
            self.well_formed(),
        ensures
            r.is_some() == (index < self@.len()),
            r.is_some() ==> r.unwrap().0 == self@[index as int].0 && *r.unwrap().1 == self@[index as int].1,
    {
        proof {
            lemma_ok(self.root);
        }
        if index < size(&self.root) {
            Some(select_node(&self.root, index))
        } else {
            None
        }
    }

    /// The entry with the smallest key: the first one of forward iteration.
    pub fn min(&self) -> (r: Option<(u64, &V)>)
        requires
            self.well_formed(),
        ensures
            r.is_some() == (self@.len() > 0),
            r.is_some() ==> r.unwrap().0 == self@[0].0 && *r.unwrap().1 == self@[0].1,
    {
        self.select(0)
    }

    /// The entry with the largest key: the first one of backward iteration.
    pub fn max(&self) -> (r: Option<(u64, &V)>)
        requires
            self.well_formed(),
        ensures
            r.is_some() == (self@.len() > 0),
            r.is_some() ==> r.unwrap().0 == self@.last().0 && *r.unwrap().1 == self@.last().1,
    {
        let n = self.len();
        if n == 0 {
            None
        } else {
            self.select(n - 1)
        }
    }

    /// The first entry whose key is above `key` (or equal to it, when
    /// `inclusive`).
    pub fn succ(&self, key: u64, inclusive: bool) -> (r: Option<(u64, &V)>)
        requires
            self.well_formed(),
        ensures
            r.is_some() == (succ_index(self@, key, inclusive) < self@.len()),
            r.is_some() ==> {
                let q = succ_index(self@, key, inclusive);
                r.unwrap().0 == self@[q].0 && *r.unwrap().1 == self@[q].1
            },
    {
        proof {
            lemma_ok(self.root);
            lemma_count_below_split(self@, key);
        }
        let (c, f) = rank_node(&self.root, key);
        if f && !inclusive {
            self.select(c + 1)
        } else {
            self.select(c)
        }
    }

    /// The last entry whose key is below `key` (or equal to it, when
    /// `inclusive`).
    pub fn pred(&self, key: u64, inclusive: bool) -> (r: Option<(u64, &V)>)
        requires
            self.well_formed(),
        ensures
            r.is_some() == (pred_index(self@, key, inclusive) >= 0),
            r.is_some() ==> {
                let q = pred_index(self@, key, inclusive);
                r.unwrap().0 == self@[q].0 && *r.unwrap().1 == self@[q].1
            },
    {
        proof {
            lemma_count_below_split(self@, key);
        }
        let (c, f) = rank_node(&self.root, key);
        if f && inclusive {
            self.select(c)
        } else if c == 0 {
            None
        } else {
            self.select(c - 1)
        }
    }

    /// Takes out the entry with the smallest key.
    pub fn remove_min(&mut self) -> (r: Option<(u64, V)>)
        requires
            old(self).well_formed(),
        ensures
            final(self).well_formed(),
            old(self)@.len() == 0 ==> r.is_none() && final(self)@ == old(self)@,
            old(self)@.len() > 0 ==> r == Some(old(self)@[0]) && final(self)@ == old(self)@.drop_first(),
    {
        match self.min() {
            None => None,
            Some((k, _)) => {
                proof {
                    lemma_rank_of_entry(self@, 0);
                }
                let v = self.remove(k);
                assert(self@ =~= old(self)@.drop_first());
                Some((k, v.unwrap()))
            },
        }
    }

    /// Takes out the entry with the largest key.
    pub fn remove_max(&mut self) -> (r: Option<(u64, V)>)
        requires
            old(self).well_formed(),
        ensures
            final(self).well_formed(),
            old(self)@.len() == 0 ==> r.is_none() && final(self)@ == old(self)@,
            old(self)@.len() > 0 ==> r == Some(old(self)@.last()) && final(self)@ == old(self)@.drop_last(),
    {
        match self.max() {
            None => None,
            Some((k, _)) => {
                proof {
                    lemma_rank_of_entry(self@, self@.len() - 1);
                }
                let v = self.remove(k);
                assert(self@ =~= old(self)@.drop_last());
                Some((k, v.unwrap()))
            },
        }
    }

    /// Takes out the entry at position `index`.
    pub fn remove_select(&mut self, index: usize) -> (r: Option<(u64, V)>)
        requires
            old(self).well_formed(),
        ensures
            final(self).well_formed(),
            index >= old(self)@.len() ==> r.is_none() && final(self)@ == old(self)@,
            index < old(self)@.len() ==> r == Some(old(self)@[index as int]) && final(self)@ == old(
                self,
            )@.remove(index as int),
    {
        match self.select(index) {
            None => None,
            Some((k, _)) => {
                proof {
                    lemma_rank_of_entry(self@, index as int);
                }
                let v = self.remove(k);
                Some((k, v.unwrap()))
            },
        }
    }

    /// Takes out the first entry whose key is above `key` (or equal to it,
    /// when `inclusive`).
    pub fn remove_succ(&mut self, key: u64, inclusive: bool) -> (r: Option<(u64, V)>)
        requires
            old(self).well_formed(),
        ensures
            final(self).well_formed(),
            succ_index(old(self)@, key, inclusive) >= old(self)@.len() ==> r.is_none() && final(self)@
                == old(self)@,
            succ_index(old(self)@, key, inclusive) < old(self)@.len() ==> {
                let q = succ_index(old(self)@, key, inclusive);
                r == Some(old(self)@[q]) && final(self)@ == old(self)@.remove(q)
            },
    {
        proof {
            lemma_ok(self.root);
            lemma_count_below_split(self@, key);
        }
        let (c, f) = rank_node(&self.root, key);
        if f && !inclusive {
            self.remove_select(c + 1)
        } else {
            self.remove_select(c)
        }
    }

    /// Takes out the last entry whose key is below `key` (or equal to it,
    /// when `inclusive`).
    pub fn remove_pred(&mut self, key: u64, inclusive: bool) -> (r: Option<(u64, V)>)
        requires
            old(self).well_formed(),
        ensures
            final(self).well_formed(),
            pred_index(old(self)@, key, inclusive) < 0 ==> r.is_none() && final(self)@ == old(self)@,
            pred_index(old(self)@, key, inclusive) >= 0 ==> {
                let q = pred_index(old(self)@, key, inclusive);
                r == Some(old(self)@[q]) && final(self)@ == old(self)@.remove(q)
            },
    {
        proof {
            lemma_count_below_split(self@, key);
        }
        let (c, f) = rank_node(&self.root, key);
        if f && inclusive {
            self.remove_select(c)
        } else if c == 0 {
            None
        } else {
            self.remove_select(c - 1)
        }
    }

    /// A cursor over all entries, in key order from the front and in
    /// reverse order from the back.
    pub fn iter(&self) -> (r: Iter<'_, V>)
        requires
            self.well_formed(),
        ensures
            r.wf(),
            r@ == self@,
    {
        proof {
            lemma_ok(self.root);
        }
        let n = size(&self.root);
        match &self.root {
            None => Iter::new(None, n),
            Some(b) => Iter::new(Some(MarkedNode::new(b)), n),
        }
    }

    /// A cursor that takes the map over and hands its entries out by value,
    /// in key order from the front and in reverse order from the back.
    pub fn into_iter(self) -> (r: IntoIter<V>)
        requires
            self.well_formed(),
        ensures
            r.wf(),
            r@ == self@,
    {
        proof {
            lemma_ok(self.root);
        }
        let n = size(&self.root);
        IntoIter::new(self.root, n)
    }

    /// A cursor over the entries whose keys lie between `min` and `max`.
    pub fn range(&self, min: Bound, max: Bound) -> (r: Iter<'_, V>)
        requires
            self.well_formed(),
        ensures
            r.wf(),
            r@ == cut(self@, min, max),
    {
        proof {
            lemma_ok(self.root);
        }
        let n = size(&self.root);
        match &self.root {
            None => Iter::range(None, n, min, max),
            Some(b) => Iter::range(Some(MarkedNode::new(b)), n, min, max),
        }
    }
}

/// A cursor at an entry that is in the map, borrowing the map for one
/// inspect-then-change step.
pub struct OccupiedEntry<'a, V> {
    pub map: &'a mut TreeMap<V>,
    pub key: u64,
}

/// A cursor at a key that is not in the map, borrowing the map so that the
/// key can be given a value.
pub struct VacantEntry<'a, V> {
    pub map: &'a mut TreeMap<V>,
    pub key: u64,
}

/// The result of looking a key up for change.
pub enum Entry<'a, V> {
    Occupied(OccupiedEntry<'a, V>),
    Vacant(VacantEntry<'a, V>),
}

impl<'a, V> OccupiedEntry<'a, V> {
    /// The map is well formed and holds the key.
    pub open spec fn valid(self) -> bool {
        self.map.well_formed() && found(self.map@, self.key)
    }

    pub fn key(&self) -> (r: u64)
        ensures
            r == self.key,
    {
        self.key
    }

    /// The entry's value.
    pub fn get(&self) -> (r: &V)
        requires
            self.valid(),
        ensures
            lookup(old(self.map)@, self.key) == Some(*r),
    {
        self.map.get(self.key).unwrap()
    }

    /// Replaces the entry's value; returns the old one.
    pub fn insert(&mut self, value: V) -> (r: V)
        requires
            old(self).valid(),
        ensures
            final(self).valid(),
            final(self).key == old(self).key,
            final(self).map@ == inserted(old(self).map@, old(self).key, value),
            lookup(old(self).map@, old(self).key) == Some(r),
    {
        proof {
            old(self).map.lemma_keys_increase();
            lemma_edit_len(self.map@, self.key, value);
            self.map.lemma_ok_len();
            lemma_insert_law(self.map@, self.key, value);
        }
        self.map.insert(self.key, value).unwrap()
    }

    /// Takes the entry out of the map, as `remove` on its key does.
    pub fn remove(self) -> (r: (u64, V))
        requires
            self.valid(),
        ensures
            r.0 == self.key,
            lookup(old(self.map)@, self.key) == Some(r.1),
            final(self.map).well_formed(),
            final(self.map)@ == removed(old(self.map)@, self.key),
    {
        let v = self.map.remove(self.key);
        (self.key, v.unwrap())
    }
}

impl<'a, V> VacantEntry<'a, V> {
    /// The map is well formed and lacks the key.
    pub open spec fn valid(self) -> bool {
        self.map.well_formed() && !found(self.map@, self.key)
    }

    pub fn key(&self) -> (r: u64)
        ensures
            r == self.key,
    {
        self.key
    }

    /// Gives the key a value, as `insert` does.
    pub fn insert(self, value: V)
        requires
            self.valid(),
            self.map@.len() < usize::MAX,
        ensures
            final(self.map).well_formed(),
            final(self.map)@ == inserted(old(self.map)@, self.key, value),
    {
        let _ = self.map.insert(self.key, value);
    }
}

impl<V> TreeMap<V> {
    /// A cursor at `key`: occupied exactly when `get(key)` finds a value.
    pub fn entry(&mut self, key: u64) -> (e: Entry<'_, V>)
        requires
            old(self).well_formed(),
        ensures
            match e {
                Entry::Occupied(o) => {
                    &&& found(old(self)@, key)
                    &&& o.key == key
                    &&& *o.map == *old(self)
                    &&& o.valid()
                    &&& *final(self) == *final(o.map)
                },
                Entry::Vacant(v) => {
                    &&& !found(old(self)@, key)
                    &&& v.key == key
                    &&& *v.map == *old(self)
                    &&& v.valid()
                    &&& *final(self) == *final(v.map)
                },
            },
    {
        if self.contains_key(key) {
            Entry::Occupied(OccupiedEntry { map: self, key })
        } else {
            Entry::Vacant(VacantEntry { map: self, key })
        }
    }

    /// A cursor at the entry at position `index`, if there is one.
    pub fn select_entry(&mut self, index: usize) -> (e: Option<OccupiedEntry<'_, V>>)
        requires
            old(self).well_formed(),
        ensures
            e.is_some() == (index < old(self)@.len()),
            e.is_none() ==> *final(self) == *old(self),
            e.is_some() ==> {
                &&& e.unwrap().key == old(self)@[index as int].0
                &&& *e.unwrap().map == *old(self)
                &&& e.unwrap().valid()
                &&& *final(self) == *final(e.unwrap().map)
            },
    {
        match self.select(index) {
            None => None,
            Some((k, _)) => {
                proof {
                    lemma_rank_of_entry(self@, index as int);
                }
                Some(OccupiedEntry { map: self, key: k })
            },
        }
    }

    /// A cursor at the first entry whose key is above `key` (or equal to
    /// it, when `inclusive`), if any.
    pub fn succ_entry(&mut self, key: u64, inclusive: bool) -> (e: Option<OccupiedEntry<'_, V>>)
        requires
            old(self).well_formed(),
        ensures
            e.is_some() == (succ_index(old(self)@, key, inclusive) < old(self)@.len()),
            e.is_none() ==> *final(self) == *old(self),
            e.is_some() ==> {
                &&& e.unwrap().key == old(self)@[succ_index(old(self)@, key, inclusive)].0
                &&& *e.unwrap().map == *old(self)
                &&& e.unwrap().valid()
                &&& *final(self) == *final(e.unwrap().map)
            },
    {
        proof {
            lemma_ok(self.root);
            lemma_count_below_split(self@, key);
        }
        let (c, f) = rank_node(&self.root, key);
        if f && !inclusive {
            self.select_entry(c + 1)
        } else {
            self.select_entry(c)
        }
    }

    /// A cursor at the last entry whose key is below `key` (or equal to it,
    /// when `inclusive`), if any.
    pub fn pred_entry(&mut self, key: u64, inclusive: bool) -> (e: Option<OccupiedEntry<'_, V>>)
        requires
            old(self).well_formed(),
        ensures
            e.is_some() == (pred_index(old(self)@, key, inclusive) >= 0),
            e.is_none() ==> *final(self) == *old(self),
            e.is_some() ==> {
                &&& e.unwrap().key == old(self)@[pred_index(old(self)@, key, inclusive)].0
                &&& *e.unwrap().map == *old(self)
                &&& e.unwrap().valid()
                &&& *final(self) == *final(e.unwrap().map)
            },
    {
        proof {
            lemma_count_below_split(self@, key);
        }
        let (c, f) = rank_node(&self.root, key);
        if f && inclusive {
            self.select_entry(c)
        } else if c == 0 {
            None
        } else {
            self.select_entry(c - 1)
        }
    }

    /// A cursor at the entry with the smallest key, if any.
    pub fn min_entry(&mut self) -> (e: Option<OccupiedEntry<'_, V>>)
        requires
            old(self).well_formed(),
        ensures
            e.is_some() == (old(self)@.len() > 0),
            e.is_none() ==> *final(self) == *old(self),
            e.is_some() ==> {
                &&& e.unwrap().key == old(self)@[0].0
                &&& *e.unwrap().map == *old(self)
                &&& e.unwrap().valid()
                &&& *final(self) == *final(e.unwrap().map)
            },
    {
        self.select_entry(0)
    }

    /// A cursor at the entry with the largest key, if any.
    pub fn max_entry(&mut self) -> (e: Option<OccupiedEntry<'_, V>>)
        requires
            old(self).well_formed(),
        ensures
            e.is_some() == (old(self)@.len() > 0),
            e.is_none() ==> *final(self) == *old(self),
            e.is_some() ==> {
                &&& e.unwrap().key == old(self)@.last().0
                &&& *e.unwrap().map == *old(self)
                &&& e.unwrap().valid()
                &&& *final(self) == *final(e.unwrap().map)
            },
    {
        let n = self.len();
        if n == 0 {
            None
        } else {
            self.select_entry(n - 1)
        }
    }
}

} // verus!
