//! A map from indexes to values that is kept in index order, as a storage
//! engine keeps its keys: any index can be written, indexes need not be
//! consecutive, and the least and the greatest index can be asked for.

use crate::clock::Index;
use std::collections::BTreeMap;
use vstd::prelude::*;
use vstd::std_specs::btree::spec_keys_iter;
use vstd::std_specs::iter::IteratorSpec;

verus! {

/// Whether the map holds nothing.
pub open spec fn holds_nothing<V>(m: Map<Index, V>) -> bool {
    forall|k: Index| !m.contains_key(k)
}

/// Whether `h` is the least index that the map holds.
pub open spec fn least_key<V>(m: Map<Index, V>, h: Index) -> bool {
    m.contains_key(h) && forall|k: Index| m.contains_key(k) ==> h <= k
}

/// Whether `l` is the greatest index that the map holds.
pub open spec fn greatest_key<V>(m: Map<Index, V>, l: Index) -> bool {
    m.contains_key(l) && forall|k: Index| m.contains_key(k) ==> k <= l
}

/// What the map holds at index `i` and above.
pub open spec fn from_index<V>(m: Map<Index, V>, i: Index) -> Map<Index, V> {
    Map::new(|k: Index| m.contains_key(k) && k >= i, |k: Index| m[k])
}

/// What the map holds below index `i`.
pub open spec fn below_index<V>(m: Map<Index, V>, i: Index) -> Map<Index, V> {
    Map::new(|k: Index| m.contains_key(k) && k < i, |k: Index| m[k])
}

/// The views of the values of `m`.
pub open spec fn value_views<T: View>(m: Map<Index, T>) -> Map<Index, T::V> {
    Map::new(|k: Index| m.contains_key(k), |k: Index| m[k]@)
}

/// A map from indexes to values, kept in index order.
#[derive(Debug)]
pub struct OrderedMap<T> {
    inner: BTreeMap<Index, T>,
}

impl<T: View> View for OrderedMap<T> {
    type V = Map<Index, T::V>;

    closed spec fn view(&self) -> Map<Index, T::V> {
        value_views(self.inner@)
    }
}

impl<T: View> OrderedMap<T> {
    /// A map that holds nothing.
    pub fn new() -> (m: OrderedMap<T>)
        ensures
            m@ == Map::<Index, T::V>::empty(),
    {
        let m = OrderedMap { inner: BTreeMap::new() };
        assert(m@ =~= Map::<Index, T::V>::empty());
        m
    }

    /// The indexes that hold a value.
    pub fn indexes(&self) -> (out: Vec<Index>)
        ensures
            forall|i: Index| out@.contains(i) == self@.contains_key(i),
    {
        broadcast use vstd::std_specs::btree::group_btree_axioms;

        let ghost all = spec_keys_iter(&self.inner).remaining();
        proof {
            vstd::std_specs::btree::axiom_spec_keys_iter(&self.inner);
        }
        let mut out: Vec<Index> = Vec::new();
        for k in it: self.inner.keys()
            invariant
                it.seq() == all,
                out@.len() == it.index(),
                forall|c: int| 0 <= c < out@.len() ==> out@[c] == *all[c],
        {
            out.push(*k);
        }
        proof {
            assert forall|i: Index| out@.contains(i) == self@.contains_key(i) by {
                if out@.contains(i) {
                    let c = choose|c: int| 0 <= c < out@.len() && out@[c] == i;
                    assert(all.unref()[c] == i);
                    assert(all.unref().to_set().contains(i));
                }
                if self.inner@.contains_key(i) {
                    assert(all.unref().to_set().contains(i));
                    assert(all.unref().contains(i));
                    let c = choose|c: int| 0 <= c < all.unref().len() && all.unref()[c] == i;
                    assert(out@[c] == i);
                }
            }
        }
        out
    }

    /// The least index that holds a value; 0 when none does.
    pub fn first_index(&self) -> (i: Index)
        ensures
            if holds_nothing(self@) {
                i == 0
            } else {
                least_key(self@, i)
            },
    {
        let listed = self.indexes();
        let n: usize = listed.len();
        if n == 0 {
            assert forall|k: Index| !self@.contains_key(k) by {
                assert(!listed@.contains(k));
            }
            return 0;
        }
        let mut best: Index = listed[0];
        let mut c: usize = 1;
        while c < n
            invariant
                n == listed@.len(),
                1 <= c <= n,
                listed@.contains(best),
                forall|j: int| 0 <= j < c ==> best <= listed@[j],
            decreases n - c,
        {
            if listed[c] < best {
                best = listed[c];
            }
            c = c + 1;
        }
        proof {
            assert(self@.contains_key(best));
            assert forall|k: Index| self@.contains_key(k) implies best <= k by {
                assert(listed@.contains(k));
                let j = choose|j: int| 0 <= j < listed@.len() && listed@[j] == k;
                assert(best <= listed@[j]);
            }
        }
        best
    }

    /// The greatest index that holds a value; 0 when none does.
    pub fn last_index(&self) -> (i: Index)
        ensures
            if holds_nothing(self@) {
                i == 0
            } else {
                greatest_key(self@, i)
            },
    {
        let listed = self.indexes();
        let n: usize = listed.len();
        if n == 0 {
            assert forall|k: Index| !self@.contains_key(k) by {
                assert(!listed@.contains(k));
            }
            return 0;
        }
        let mut best: Index = listed[0];
        let mut c: usize = 1;
        while c < n
            invariant
                n == listed@.len(),
                1 <= c <= n,
                listed@.contains(best),
                forall|j: int| 0 <= j < c ==> best >= listed@[j],
            decreases n - c,
        {
            if listed[c] > best {
                best = listed[c];
            }
            c = c + 1;
        }
        proof {
            assert(self@.contains_key(best));
            assert forall|k: Index| self@.contains_key(k) implies k <= best by {
                assert(listed@.contains(k));
                let j = choose|j: int| 0 <= j < listed@.len() && listed@[j] == k;
                assert(best >= listed@[j]);
            }
        }
        best
    }

    /// The value at index `i`, if there is one.
    pub fn get(&self, i: Index) -> (r: Option<&T>)
        ensures
            r.is_some() == self@.contains_key(i),
            r matches Some(v) ==> v@ == self@[i],
    {
        broadcast use vstd::std_specs::btree::group_btree_axioms;

        self.inner.get(&i)
    }

    /// Writes `value` at index `i`, in place of what was there. Nothing else
    /// changes.
    pub fn put(&mut self, i: Index, value: T)
        ensures
            final(self)@ == old(self)@.insert(i, value@),
    {
        broadcast use vstd::std_specs::btree::group_btree_axioms;

        let _ = self.inner.insert(i, value);
        assert(self@ =~= old(self)@.insert(i, value@));
    }

    /// Removes what index `i` holds. Nothing else changes.
    pub fn delete(&mut self, i: Index)
        ensures
            final(self)@ == old(self)@.remove(i),
    {
        broadcast use vstd::std_specs::btree::group_btree_axioms;

        let _ = self.inner.remove(&i);
        assert(self@ =~= old(self)@.remove(i));
    }

    /// Removes what the indexes below `i` hold.
    pub fn delete_before(&mut self, i: Index)
        ensures
            final(self)@ == from_index(old(self)@, i),
    {
        let listed = self.indexes();
        let n: usize = listed.len();
        let mut c: usize = 0;
        while c < n
            invariant
                n == listed@.len(),
                c <= n,
                forall|k: Index| listed@.contains(k) == old(self)@.contains_key(k),
                forall|k: Index|
                    self@.contains_key(k) == (old(self)@.contains_key(k) && (k >= i || !exists|j: int|
                        0 <= j < c && listed@[j] == k)),
                forall|k: Index| self@.contains_key(k) ==> self@[k] == old(self)@[k],
            decreases n - c,
        {
            let x: Index = listed[c];
            if x < i {
                self.delete(x);
            }
            proof {
                assert forall|k: Index|
                    self@.contains_key(k) == (old(self)@.contains_key(k) && (k >= i || !exists|j: int|
                        0 <= j < c + 1 && listed@[j] == k)) by {
                    if exists|j: int| 0 <= j < c && listed@[j] == k {
                        let j = choose|j: int| 0 <= j < c && listed@[j] == k;
                        assert(0 <= j < c + 1 && listed@[j] == k);
                    }
                    if k == x {
                        assert(0 <= c < c + 1 && listed@[c as int] == k);
                    }
                    if exists|j: int| 0 <= j < c + 1 && listed@[j] == k {
                        let j = choose|j: int| 0 <= j < c + 1 && listed@[j] == k;
                        if j < c {
                            assert(0 <= j < c && listed@[j] == k);
                        }
                    }
                }
            }
            c = c + 1;
        }
        proof {
            assert forall|k: Index| self@.contains_key(k) == from_index(
                old(self)@,
                i,
            ).contains_key(k) by {
                if old(self)@.contains_key(k) && k < i {
                    assert(listed@.contains(k));
                    let j = choose|j: int| 0 <= j < listed@.len() && listed@[j] == k;
                    assert(0 <= j < n && listed@[j] == k);
                }
            }
            assert(self@ =~= from_index(old(self)@, i));
        }
    }

    /// Removes what index `i` and the indexes above it hold.
    pub fn delete_from(&mut self, i: Index)
        ensures
            final(self)@ == below_index(old(self)@, i),
    {
        let listed = self.indexes();
        let n: usize = listed.len();
        let mut c: usize = 0;
        while c < n
            invariant
                n == listed@.len(),
                c <= n,
                forall|k: Index| listed@.contains(k) == old(self)@.contains_key(k),
                forall|k: Index|
                    self@.contains_key(k) == (old(self)@.contains_key(k) && (k < i || !exists|j: int|
                        0 <= j < c && listed@[j] == k)),
                forall|k: Index| self@.contains_key(k) ==> self@[k] == old(self)@[k],
            decreases n - c,
        {
            let x: Index = listed[c];
            if x >= i {
                self.delete(x);
            }
            proof {
                assert forall|k: Index|
                    self@.contains_key(k) == (old(self)@.contains_key(k) && (k < i || !exists|j: int|
                        0 <= j < c + 1 && listed@[j] == k)) by {
                    if exists|j: int| 0 <= j < c && listed@[j] == k {
                        let j = choose|j: int| 0 <= j < c && listed@[j] == k;
                        assert(0 <= j < c + 1 && listed@[j] == k);
                    }
                    if k == x {
                        assert(0 <= c < c + 1 && listed@[c as int] == k);
                    }
                    if exists|j: int| 0 <= j < c + 1 && listed@[j] == k {
                        let j = choose|j: int| 0 <= j < c + 1 && listed@[j] == k;
                        if j < c {
                            assert(0 <= j < c && listed@[j] == k);
                        }
                    }
                }
            }
            c = c + 1;
        }
        proof {
            assert forall|k: Index| self@.contains_key(k) == below_index(
                old(self)@,
                i,
            ).contains_key(k) by {
                if old(self)@.contains_key(k) && k >= i {
                    assert(listed@.contains(k));
                    let j = choose|j: int| 0 <= j < listed@.len() && listed@[j] == k;
                    assert(0 <= j < n && listed@[j] == k);
                }
            }
            assert(self@ =~= below_index(old(self)@, i));
        }
    }
}

} // verus!
