//! The registry: a self-cleaning, ordered map from keys to observable entries.
//!
//! Each entry pairs an observable value stream with a live-handle counter.
//! `get_or_insert` lazily creates the entry and hands out a counted
//! [`SubscriptionRef`]; `release` gives a handle back and evicts the entry
//! the moment its counter reaches zero.  The abstract model of the registry
//! is a finite map from key to live-handle count: a key is present exactly
//! while its count is positive.

use vstd::prelude::*;

use crate::keys::Keys;
use crate::keys::exhausted_at;
use crate::keys::sees;
use crate::keys::yields_min;
use crate::observable::obs_fork;
use crate::observable::obs_latest;
use crate::observable::obs_modify;
use crate::observable::obs_new;
use crate::observable::obs_publish;
use crate::observable::obs_publish_if_changed;

verus! {

/// How one `get_or_insert` call changes the abstract registry state: the
/// key's live-handle count rises by one, from zero if the key was absent.
pub open spec fn acquire_model(m: Map<usize, nat>, key: usize) -> Map<usize, nat> {
    if m.contains_key(key) {
        m.insert(key, m[key] + 1)
    } else {
        m.insert(key, 1nat)
    }
}

/// How one `release` call changes the abstract registry state: the key's
/// live-handle count falls by one, and the key is evicted when the count
/// reaches zero.  Releasing against an absent key changes nothing.
pub open spec fn release_model(m: Map<usize, nat>, key: usize) -> Map<usize, nat> {
    if m.contains_key(key) {
        if m[key] <= 1 {
            m.remove(key)
        } else {
            m.insert(key, (m[key] - 1) as nat)
        }
    } else {
        m
    }
}

/// The recoverable failure of the registry: an operation referenced a key
/// for which no handle is outstanding, so no entry exists.
#[derive(Clone, Copy, Debug, PartialEq, Eq, Structural)]
pub enum SubscriptionError {
    NotFound { key: usize },
}

/// A single observable entry and its live-handle count.
#[verifier::reject_recursive_types(V)]
pub(crate) struct SubscriptionEntry<V: Clone> {
    pub(crate) observable: async_observable::Observable<V>,
    pub(crate) rc: usize,
}

impl<V: Clone> SubscriptionEntry<V> {
    /// A fresh entry holding the value, with no handles counted yet.
    pub(crate) fn new(value: V) -> (r: Self)
        ensures
            r.rc == 0,
    {
        Self { observable: obs_new(value), rc: 0 }
    }
}

/// A self-cleaning ordered map of observable values, keyed by `usize`.
///
/// Entries exist exactly while at least one [`SubscriptionRef`] for their key
/// is outstanding.  The view of the map is the abstract registry state: a
/// finite map from each present key to its live-handle count.
#[verifier::reject_recursive_types(V)]
pub struct SubscriptionMap<V: Clone> {
    entries: Vec<(usize, SubscriptionEntry<V>)>,
}

impl<V: Clone> View for SubscriptionMap<V> {
    type V = Map<usize, nat>;

    closed spec fn view(&self) -> Map<usize, nat> {
        Map::new(
            |k: usize| self.has_key(k),
            |k: usize| self.rc_at(self.idx_of(k)),
        )
    }
}

impl<V: Clone> SubscriptionMap<V> {
    /// The number of entries currently stored.
    pub closed spec fn spec_len(self) -> nat {
        self.entries@.len()
    }

    spec fn key_at(self, i: int) -> usize {
        self.entries@[i].0
    }

    spec fn rc_at(self, i: int) -> nat {
        self.entries@[i].1.rc as nat
    }

    spec fn has_key(self, k: usize) -> bool {
        exists|i: int| 0 <= i < self.spec_len() && self.key_at(i) == k
    }

    spec fn idx_of(self, k: usize) -> int {
        choose|i: int| 0 <= i < self.spec_len() && self.key_at(i) == k
    }

    /// The entries are strictly sorted by key, so each key occurs at most once.
    pub closed spec fn keys_sorted(self) -> bool {
        forall|i: int, j: int|
            0 <= i < j < self.spec_len() ==> self.key_at(i) < self.key_at(j)
    }

    /// Every stored entry is referenced by at least one outstanding handle.
    pub closed spec fn counts_positive(self) -> bool {
        forall|i: int| 0 <= i < self.spec_len() ==> self.rc_at(i) >= 1
    }

    /// The registry invariant: ordered unique keys, and no entry outliving
    /// its handles.
    pub open spec fn well_formed(self) -> bool {
        self.keys_sorted() && self.counts_positive()
    }

    /// A sorted registry locates each stored key at exactly one index.
    proof fn lemma_key_index(self, i: int)
        requires
            self.keys_sorted(),
            0 <= i < self.spec_len(),
        ensures
            self.has_key(self.key_at(i)),
            self.idx_of(self.key_at(i)) == i,
            self@[self.key_at(i)] == self.rc_at(i),
    {
        assert(self.has_key(self.key_at(i)));
        let j = self.idx_of(self.key_at(i));
        assert(0 <= j < self.spec_len() && self.key_at(j) == self.key_at(i));
        if j < i {
            assert(self.key_at(j) < self.key_at(i));
        }
        if j > i {
            assert(self.key_at(i) < self.key_at(j));
        }
    }

    /// An empty registry.
    pub fn new() -> (r: Self)
        ensures
            r.well_formed(),
            r@ == Map::<usize, nat>::empty(),
            r.spec_len() == 0,
    {
        let r = Self { entries: Vec::new() };
        proof {
            assert(r@ =~= Map::<usize, nat>::empty());
        }
        r
    }

    /// The registry stores one entry per key it holds: its length is the
    /// size of the abstract state's domain.
    proof fn lemma_len_is_dom_size(self)
        requires
            self.keys_sorted(),
        ensures
            self@.dom().finite(),
            self@.dom().len() == self.spec_len(),
    {
        broadcast use vstd::seq_lib::seq_to_set_is_finite;

        let ks = self.entries@.map(|i: int, e: (usize, SubscriptionEntry<V>)| e.0);
        assert forall|i: int, j: int| 0 <= i < j < ks.len() implies ks[i] != ks[j] by {
            assert(self.key_at(i) < self.key_at(j));
        }
        assert(ks.no_duplicates());
        ks.unique_seq_to_set();
        assert forall|k: usize| self@.dom().contains(k) == ks.to_set().contains(k) by {
            if self.has_key(k) {
                let i = choose|i: int| 0 <= i < self.spec_len() && self.key_at(i) == k;
                assert(ks[i] == k);
            }
            if ks.contains(k) {
                let i = choose|i: int| 0 <= i < ks.len() && ks[i] == k;
                assert(self.key_at(i) == k);
            }
        }
        assert(self@.dom() =~= ks.to_set());
    }

    /// The number of entries currently stored, which is the number of
    /// distinct keys with at least one outstanding handle.
    pub fn len(&self) -> (r: usize)
        requires
            self.well_formed(),
        ensures
            r == self.spec_len(),
            r == self@.dom().len(),
            self@.dom().finite(),
    {
        proof {
            self.lemma_len_is_dom_size();
        }
        self.entries.len()
    }

    /// The first position whose key is not below `key`; `spec_len()` if all
    /// keys are below it.
    fn find_index(&self, key: usize) -> (r: usize)
        requires
            self.keys_sorted(),
        ensures
            r <= self.spec_len(),
            forall|j: int| 0 <= j < r ==> self.key_at(j) < key,
            r < self.spec_len() ==> self.key_at(r as int) >= key,
    {
        let n = self.entries.len();
        let mut i: usize = 0;
        while i < n
            invariant
                n == self.spec_len(),
                i <= n,
                self.keys_sorted(),
                forall|j: int| 0 <= j < i ==> self.key_at(j) < key,
            decreases n - i,
        {
            if self.entries[i].0 >= key {
                return i;
            }
            i = i + 1;
        }
        i
    }

    /// Whether the position returned by `find_index` hits `key` decides
    /// whether the key is present at all.
    proof fn lemma_find_decides(self, key: usize, r: usize)
        requires
            self.keys_sorted(),
            r <= self.spec_len(),
            forall|j: int| 0 <= j < r ==> self.key_at(j) < key,
            r < self.spec_len() ==> self.key_at(r as int) >= key,
        ensures
            self.has_key(key) <==> (r < self.spec_len() && self.key_at(r as int) == key),
            self@.contains_key(key) <==> (r < self.spec_len() && self.key_at(r as int) == key),
            (r < self.spec_len() && self.key_at(r as int) == key) ==> self.idx_of(key) == r,
    {
        if r < self.spec_len() && self.key_at(r as int) == key {
            self.lemma_key_index(r as int);
        } else {
            if self.has_key(key) {
                let i = choose|i: int| 0 <= i < self.spec_len() && self.key_at(i) == key;
                assert(i < r || i >= r as int);
                if i >= r as int {
                    assert(r < self.spec_len());
                    assert(self.key_at(r as int) >= key);
                    if i > r as int {
                        assert(self.key_at(r as int) < self.key_at(i));
                    }
                }
            }
        }
    }

    /// Whether any handle for `key` is currently outstanding.
    pub fn contains_key(&self, key: usize) -> (r: bool)
        requires
            self.well_formed(),
        ensures
            r == self@.contains_key(key),
    {
        let i = self.find_index(key);
        let r = i < self.entries.len() && self.entries[i].0 == key;
        proof {
            self.lemma_find_decides(key, i);
        }
        r
    }

    /// The smallest stored key past `prev`, or `None` when no stored key is
    /// past it.  This is the single-step range lookup behind [`Keys`].
    pub(crate) fn next_key_above(&self, prev: Option<usize>) -> (r: Option<usize>)
        requires
            self.well_formed(),
        ensures
            match r {
                Some(k) => yields_min(self@, prev, k),
                None => exhausted_at(self@, prev),
            },
    {
        let n = self.entries.len();
        let mut i: usize = 0;
        while i < n
            invariant
                n == self.spec_len(),
                i <= n,
                self.well_formed(),
                forall|j: int| 0 <= j < i ==> !sees(prev, self.key_at(j)),
            decreases n - i,
        {
            let k = self.entries[i].0;
            let eligible = match prev {
                None => true,
                Some(p) => k > p,
            };
            if eligible {
                proof {
                    self.lemma_key_index(i as int);
                    assert forall|k2: usize| self@.contains_key(k2) && sees(prev, k2) implies k <= k2 by {
                        let j = choose|j: int|
                            0 <= j < self.spec_len() && self.key_at(j) == k2;
                        if j < i {
                            assert(!sees(prev, self.key_at(j)));
                        } else if j > i {
                            assert(self.key_at(i as int) < self.key_at(j));
                        }
                    }
                }
                return Some(k);
            }
            i = i + 1;
        }
        proof {
            assert forall|k2: usize| !(self@.contains_key(k2) && sees(prev, k2)) by {
                if self@.contains_key(k2) {
                    let j = choose|j: int|
                        0 <= j < self.spec_len() && self.key_at(j) == k2;
                    assert(!sees(prev, self.key_at(j)));
                }
            }
        }
        None
    }

    /// The live-handle count recorded for `key`, or `None` while no handle
    /// for it is outstanding.
    pub fn ref_count(&self, key: usize) -> (r: Option<usize>)
        requires
            self.well_formed(),
        ensures
            match r {
                Some(c) => self@.contains_key(key) && c == self@[key],
                None => !self@.contains_key(key),
            },
    {
        let i = self.find_index(key);
        proof {
            self.lemma_find_decides(key, i);
        }
        if i < self.entries.len() && self.entries[i].0 == key {
            Some(self.entries[i].1.rc)
        } else {
            None
        }
    }

    /// Two registries with the same key column, whose counts differ at most
    /// at position `i`, have views that differ at most at that key.
    proof fn lemma_view_same_keys(a: Self, b: Self, i: int)
        requires
            a.keys_sorted(),
            0 <= i < a.spec_len(),
            b.spec_len() == a.spec_len(),
            forall|j: int| 0 <= j < a.spec_len() ==> b.key_at(j) == a.key_at(j),
            forall|j: int| 0 <= j < a.spec_len() && j != i ==> b.rc_at(j) == a.rc_at(j),
        ensures
            b.keys_sorted(),
            b@ =~= a@.insert(a.key_at(i), b.rc_at(i)),
    {
        assert forall|p: int, q: int| 0 <= p < q < b.spec_len() implies b.key_at(p) < b.key_at(
            q,
        ) by {
            assert(a.key_at(p) < a.key_at(q));
        }
        let x = a.key_at(i);
        a.lemma_key_index(i);
        b.lemma_key_index(i);
        let target = a@.insert(x, b.rc_at(i));
        assert forall|k: usize| b@.contains_key(k) == target.contains_key(k) by {
            if b.has_key(k) {
                let j = choose|j: int| 0 <= j < b.spec_len() && b.key_at(j) == k;
                assert(a.key_at(j) == k);
                assert(a.has_key(k));
            }
            if a.has_key(k) {
                let j = choose|j: int| 0 <= j < a.spec_len() && a.key_at(j) == k;
                assert(b.key_at(j) == k);
                assert(b.has_key(k));
            }
        }
        assert forall|k: usize| b@.contains_key(k) implies b@[k] == target[k] by {
            let j = choose|j: int| 0 <= j < b.spec_len() && b.key_at(j) == k;
            b.lemma_key_index(j);
            a.lemma_key_index(j);
            if k == x {
                if j != i {
                    if j < i {
                        assert(a.key_at(j) < a.key_at(i));
                    } else {
                        assert(a.key_at(i) < a.key_at(j));
                    }
                }
            }
        }
        assert(b@ =~= target);
    }

    /// Inserting a fresh pair at the gap `find_index` found adds exactly that
    /// key, with a count of one, to the view.
    proof fn lemma_view_insert(a: Self, b: Self, i: int, key: usize)
        requires
            a.keys_sorted(),
            0 <= i <= a.spec_len(),
            forall|j: int| 0 <= j < i ==> a.key_at(j) < key,
            i < a.spec_len() ==> a.key_at(i) > key,
            b.spec_len() == a.spec_len() + 1,
            b.key_at(i) == key,
            b.rc_at(i) == 1,
            forall|j: int| 0 <= j < i ==> b.key_at(j) == a.key_at(j) && b.rc_at(j) == a.rc_at(j),
            forall|j: int|
                i < j < b.spec_len() ==> b.key_at(j) == a.key_at(j - 1) && b.rc_at(j) == a.rc_at(
                    j - 1,
                ),
        ensures
            b.keys_sorted(),
            !a@.contains_key(key),
            b@ =~= a@.insert(key, 1nat),
    {
        assert forall|p: int, q: int| 0 <= p < q < b.spec_len() implies b.key_at(p) < b.key_at(
            q,
        ) by {
            if q < i {
                assert(a.key_at(p) < a.key_at(q));
            } else if p > i {
                assert(a.key_at(p - 1) < a.key_at(q - 1));
            } else if p < i && q > i {
                assert(a.key_at(p) < key || a.key_at(p) < a.key_at(q - 1));
                assert(a.key_at(p) < key);
                assert(a.key_at(q - 1) >= a.key_at(i));
            }
        }
        if a.has_key(key) {
            let j = choose|j: int| 0 <= j < a.spec_len() && a.key_at(j) == key;
            if j < i {
                assert(a.key_at(j) < key);
            } else {
                assert(a.key_at(i) <= a.key_at(j));
            }
        }
        let target = a@.insert(key, 1nat);
        assert forall|k: usize| b@.contains_key(k) == target.contains_key(k) by {
            if b.has_key(k) {
                let j = choose|j: int| 0 <= j < b.spec_len() && b.key_at(j) == k;
                if j < i {
                    assert(a.key_at(j) == k);
                    assert(a.has_key(k));
                } else if j > i {
                    assert(a.key_at(j - 1) == k);
                    assert(a.has_key(k));
                }
            }
            if a.has_key(k) {
                let j = choose|j: int| 0 <= j < a.spec_len() && a.key_at(j) == k;
                if j < i {
                    assert(b.key_at(j) == k);
                } else {
                    assert(b.key_at(j + 1) == k);
                }
                assert(b.has_key(k));
            }
        }
        assert forall|k: usize| b@.contains_key(k) implies b@[k] == target[k] by {
            let j = choose|j: int| 0 <= j < b.spec_len() && b.key_at(j) == k;
            b.lemma_key_index(j);
            if j != i {
                let ja: int = if j < i {
                    j
                } else {
                    j - 1
                };
                assert(a.key_at(ja) == k);
                a.lemma_key_index(ja);
                if k == key {
                    assert(b.key_at(i) == b.key_at(j));
                    assert(false);
                }
            }
        }
        assert(b@ =~= target);
    }

    /// Deleting the pair at position `i` removes exactly its key from the
    /// view.
    proof fn lemma_view_remove(a: Self, b: Self, i: int)
        requires
            a.keys_sorted(),
            0 <= i < a.spec_len(),
            b.spec_len() == a.spec_len() - 1,
            forall|j: int| 0 <= j < i ==> b.key_at(j) == a.key_at(j) && b.rc_at(j) == a.rc_at(j),
            forall|j: int|
                i <= j < b.spec_len() ==> b.key_at(j) == a.key_at(j + 1) && b.rc_at(j) == a.rc_at(
                    j + 1,
                ),
        ensures
            b.keys_sorted(),
            b@ =~= a@.remove(a.key_at(i)),
    {
        assert forall|p: int, q: int| 0 <= p < q < b.spec_len() implies b.key_at(p) < b.key_at(
            q,
        ) by {
            if q < i {
                assert(a.key_at(p) < a.key_at(q));
            } else if p >= i {
                assert(a.key_at(p + 1) < a.key_at(q + 1));
            } else {
                assert(a.key_at(p) < a.key_at(q + 1));
            }
        }
        let x = a.key_at(i);
        a.lemma_key_index(i);
        let target = a@.remove(x);
        assert forall|k: usize| b@.contains_key(k) == target.contains_key(k) by {
            if b.has_key(k) {
                let j = choose|j: int| 0 <= j < b.spec_len() && b.key_at(j) == k;
                let ja: int = if j < i {
                    j
                } else {
                    j + 1
                };
                assert(a.key_at(ja) == k);
                a.lemma_key_index(ja);
                if k == x {
                    assert(ja != i);
                    if ja < i {
                        assert(a.key_at(ja) < a.key_at(i));
                    } else {
                        assert(a.key_at(i) < a.key_at(ja));
                    }
                    assert(false);
                }
                assert(a.has_key(k));
            }
            if a.has_key(k) && k != x {
                let j = choose|j: int| 0 <= j < a.spec_len() && a.key_at(j) == k;
                if j < i {
                    assert(b.key_at(j) == k);
                } else {
                    assert(j > i);
                    assert(b.key_at(j - 1) == k);
                }
                assert(b.has_key(k));
            }
        }
        assert forall|k: usize| b@.contains_key(k) implies b@[k] == target[k] by {
            let j = choose|j: int| 0 <= j < b.spec_len() && b.key_at(j) == k;
            b.lemma_key_index(j);
            let ja: int = if j < i {
                j
            } else {
                j + 1
            };
            assert(a.key_at(ja) == k);
            a.lemma_key_index(ja);
        }
        assert(b@ =~= target);
    }

    /// Request a handle for `key`, creating the entry with `value` if no
    /// handle for the key is outstanding.
    ///
    /// Always succeeds: if the entry already exists, `value` is ignored and
    /// the existing entry's live-handle count simply rises by one; otherwise
    /// the entry is created with the given value and a count of one.  The
    /// returned handle is bound to `key` and must eventually be given back
    /// through [`SubscriptionMap::release`].
    pub fn get_or_insert(&mut self, key: usize, value: V) -> (r: SubscriptionRef<V>)
        requires
            old(self).well_formed(),
            old(self)@.contains_key(key) ==> old(self)@[key] < usize::MAX,
        ensures
            final(self).well_formed(),
            final(self)@ =~= acquire_model(old(self)@, key),
            final(self)@.contains_key(key),
            r.spec_key() == key,
    {
        let i = self.find_index(key);
        proof {
            self.lemma_find_decides(key, i);
        }
        if i < self.entries.len() && self.entries[i].0 == key {
            proof {
                self.lemma_key_index(i as int);
            }
            let (k0, mut e) = self.entries.remove(i);
            let r = SubscriptionRef::new(key, &mut e);
            self.entries.insert(i, (k0, e));
            proof {
                Self::lemma_view_same_keys(*old(self), *self, i as int);
                assert forall|j: int| 0 <= j < self.spec_len() implies self.rc_at(j) >= 1 by {
                    if j != i {
                        assert(self.rc_at(j) == old(self).rc_at(j));
                    }
                }
                assert(self@ =~= acquire_model(old(self)@, key));
            }
            r
        } else {
            let mut e = SubscriptionEntry::new(value);
            let r = SubscriptionRef::new(key, &mut e);
            self.entries.insert(i, (key, e));
            proof {
                Self::lemma_view_insert(*old(self), *self, i as int, key);
                assert forall|j: int| 0 <= j < self.spec_len() implies self.rc_at(j) >= 1 by {
                    if j < i {
                        assert(self.rc_at(j) == old(self).rc_at(j));
                    } else if j > i {
                        assert(self.rc_at(j) == old(self).rc_at(j - 1));
                    }
                }
                assert(self@ =~= acquire_model(old(self)@, key));
            }
            r
        }
    }

    /// Delete the entry for `key`.  Only reachable once the entry's
    /// live-handle count has fallen to zero: deleting a still-referenced
    /// entry would break the registry's bookkeeping, so it is excluded
    /// statically rather than checked at run time.
    fn remove(&mut self, key: usize)
        requires
            old(self).keys_sorted(),
            old(self).has_key(key),
            old(self)@[key] == 0,
        ensures
            final(self).keys_sorted(),
            final(self)@ =~= old(self)@.remove(key),
            (forall|j: int|
                0 <= j < old(self).spec_len() && old(self).key_at(j) != key ==> old(self).rc_at(j)
                    >= 1) ==> final(self).counts_positive(),
    {
        let i = self.find_index(key);
        proof {
            self.lemma_find_decides(key, i);
        }
        self.entries.remove(i);
        proof {
            Self::lemma_view_remove(*old(self), *self, i as int);
            assert forall|j: int|
                0 <= j < self.spec_len() && (forall|j2: int|
                    0 <= j2 < old(self).spec_len() && old(self).key_at(j2) != key ==> old(
                        self,
                    ).rc_at(j2) >= 1) implies self.rc_at(j) >= 1 by {
                let ja: int = if j < i {
                    j
                } else {
                    j + 1
                };
                if old(self).key_at(ja) == key {
                    old(self).lemma_key_index(ja);
                    old(self).lemma_key_index(i as int);
                    assert(ja == i);
                    assert(false);
                }
            }
        }
    }

    /// Give a handle back.  The live-handle count of the handle's key falls
    /// by one; when it reaches zero the entry is evicted immediately.  A
    /// handle whose key has no entry leaves the registry unchanged.
    pub fn release(&mut self, handle: SubscriptionRef<V>)
        requires
            old(self).well_formed(),
        ensures
            final(self).well_formed(),
            final(self)@ =~= release_model(old(self)@, handle.spec_key()),
            old(self)@.contains_key(handle.spec_key()) && old(self)@[handle.spec_key()] == 1
                ==> !final(self)@.contains_key(handle.spec_key()),
            !old(self)@.contains_key(handle.spec_key()) ==> final(self)@ == old(self)@,
    {
        let key = handle.key;
        let i = self.find_index(key);
        proof {
            self.lemma_find_decides(key, i);
        }
        if i < self.entries.len() && self.entries[i].0 == key {
            proof {
                self.lemma_key_index(i as int);
            }
            let (k0, mut e) = self.entries.remove(i);
            e.rc = e.rc - 1;
            let now_zero = e.rc == 0;
            self.entries.insert(i, (k0, e));
            proof {
                Self::lemma_view_same_keys(*old(self), *self, i as int);
                self.lemma_key_index(i as int);
                assert forall|j: int|
                    0 <= j < self.spec_len() && j != i implies self.rc_at(j) == old(self).rc_at(
                    j,
                ) by {}
                assert forall|j: int|
                    0 <= j < self.spec_len() && self.key_at(j) != key implies self.rc_at(j)
                    >= 1 by {
                    if j == i {
                        assert(self.key_at(j) == key);
                    }
                }
            }
            if now_zero {
                self.remove(key);
                proof {
                    assert(old(self)@.insert(key, 0nat).remove(key) =~= old(self)@.remove(key));
                    assert(self@ =~= release_model(old(self)@, key));
                }
            } else {
                proof {
                    assert forall|j: int| 0 <= j < self.spec_len() implies self.rc_at(j) >= 1 by {
                        if j != i {
                            assert(self.rc_at(j) == old(self).rc_at(j));
                        }
                    }
                    assert(self@ =~= release_model(old(self)@, key));
                }
            }
        }
    }

    /// A fresh cursor over this registry's keys, positioned before the first
    /// key.
    pub fn keys(&self) -> (r: Keys)
        ensures
            r.spec_previous() == Option::<usize>::None,
            !r.spec_done(),
    {
        Keys::new()
    }
}

impl<V: Clone + PartialEq> SubscriptionMap<V> {
    /// Hand `value` to the observable of the entry for `key`, which
    /// publishes it only if it differs from the current value of the shared
    /// stream.
    ///
    /// Succeeds exactly when a handle for `key` is outstanding; otherwise
    /// the caller referenced a dead key and gets `NotFound`.  On success the
    /// result reports whether a change was actually propagated, as decided
    /// by the observable collaborator; the registry's own state — which keys
    /// are present, with how many handles — is untouched either way.
    pub fn publish_if_changed(&mut self, key: usize, value: V) -> (r: Result<
        bool,
        SubscriptionError,
    >)
        requires
            old(self).well_formed(),
        ensures
            final(self).well_formed(),
            final(self)@ == old(self)@,
            r is Ok <==> old(self)@.contains_key(key),
            r is Err ==> r == Err::<bool, SubscriptionError>(SubscriptionError::NotFound { key }),
    {
        let i = self.find_index(key);
        proof {
            self.lemma_find_decides(key, i);
        }
        if i < self.entries.len() && self.entries[i].0 == key {
            proof {
                self.lemma_key_index(i as int);
            }
            let (k0, mut e) = self.entries.remove(i);
            let changed = obs_publish_if_changed(&mut e.observable, value);
            self.entries.insert(i, (k0, e));
            proof {
                Self::lemma_view_same_keys(*old(self), *self, i as int);
                assert forall|j: int| 0 <= j < self.spec_len() implies self.rc_at(j) >= 1 by {
                    assert(self.rc_at(j) == old(self).rc_at(j));
                }
                assert(self.rc_at(i as int) == old(self).rc_at(i as int));
                assert(old(self)@.insert(key, old(self)@[key]) =~= old(self)@);
                assert(self@ =~= old(self)@);
            }
            Ok(changed)
        } else {
            Err(SubscriptionError::NotFound { key })
        }
    }

    /// Run `modify` on the current value of the entry for `key`, with
    /// exclusive access, and publish the result unconditionally.
    ///
    /// Succeeds exactly when a handle for `key` is outstanding; otherwise
    /// the caller referenced a dead key and gets `NotFound`.  The mutation
    /// and the notification are the observable collaborator's; the
    /// registry's own state is untouched either way.
    pub fn modify_and_publish<F: FnOnce(&mut V) -> R, R>(&mut self, key: usize, modify: F) -> (r:
        Result<(), SubscriptionError>)
        requires
            old(self).well_formed(),
        ensures
            final(self).well_formed(),
            final(self)@ == old(self)@,
            r is Ok <==> old(self)@.contains_key(key),
            r is Err ==> r == Err::<(), SubscriptionError>(SubscriptionError::NotFound { key }),
    {
        let i = self.find_index(key);
        proof {
            self.lemma_find_decides(key, i);
        }
        if i < self.entries.len() && self.entries[i].0 == key {
            proof {
                self.lemma_key_index(i as int);
            }
            let (k0, mut e) = self.entries.remove(i);
            obs_modify(&mut e.observable, modify);
            self.entries.insert(i, (k0, e));
            proof {
                Self::lemma_view_same_keys(*old(self), *self, i as int);
                assert forall|j: int| 0 <= j < self.spec_len() implies self.rc_at(j) >= 1 by {
                    assert(self.rc_at(j) == old(self).rc_at(j));
                }
                assert(self.rc_at(i as int) == old(self).rc_at(i as int));
                assert(old(self)@.insert(key, old(self)@[key]) =~= old(self)@);
                assert(self@ =~= old(self)@);
            }
            Ok(())
        } else {
            Err(SubscriptionError::NotFound { key })
        }
    }
}

impl<V: Clone> Default for SubscriptionMap<V> {
    /// Same as [`SubscriptionMap::new`]: an empty registry.
    fn default() -> (r: Self)
        ensures
            r.well_formed(),
            r@ == Map::<usize, nat>::empty(),
    {
        Self::new()
    }
}

/// A counted handle onto one entry of a [`SubscriptionMap`].
///
/// Its existence is what keeps the entry alive: the map's live-handle count
/// for the bound key rose by one when the handle was created, and giving the
/// handle back through [`SubscriptionMap::release`] is what lets the entry
/// be evicted.  The handle reads and writes the entry's value through its
/// own linked observable, independently of every other handle.
#[must_use]
#[verifier::reject_recursive_types(V)]
pub struct SubscriptionRef<V: Clone> {
    key: usize,
    observable: async_observable::Observable<V>,
}

impl<V: Clone> SubscriptionRef<V> {
    /// The key this handle is bound to.
    pub closed spec fn spec_key(self) -> usize {
        self.key
    }

    /// Count a new handle against `entry` and link it to the entry's
    /// observable.
    fn new(key: usize, entry: &mut SubscriptionEntry<V>) -> (r: Self)
        requires
            old(entry).rc < usize::MAX,
        ensures
            final(entry).rc == old(entry).rc + 1,
            final(entry).observable == old(entry).observable,
            r.spec_key() == key,
    {
        entry.rc = entry.rc + 1;
        Self { key, observable: obs_fork(&entry.observable) }
    }

    /// The key this handle is bound to.
    pub fn key(&self) -> (r: usize)
        ensures
            r == self.spec_key(),
    {
        self.key
    }

    /// A clone of the current value of the subscribed stream.  Delegates to
    /// the handle's linked observable.
    pub fn latest(&self) -> V {
        obs_latest(&self.observable)
    }

    /// Store `value` in the subscribed stream and notify the other handles.
    /// Delegates to the handle's linked observable.
    pub fn publish(&mut self, value: V)
        ensures
            final(self).spec_key() == old(self).spec_key(),
    {
        obs_publish(&mut self.observable, value)
    }

    /// Run `modify` on the current value of the subscribed stream, with
    /// exclusive access, and publish the result.  Delegates to the handle's
    /// linked observable.
    pub fn modify<F: FnOnce(&mut V) -> R, R>(&mut self, modify: F)
        ensures
            final(self).spec_key() == old(self).spec_key(),
    {
        obs_modify(&mut self.observable, modify)
    }
}

impl<V: Clone + PartialEq> SubscriptionRef<V> {
    /// Hand `value` to the subscribed stream, which publishes it only if it
    /// differs from the current value; reports whether a change was
    /// propagated, as decided by the observable collaborator.
    pub fn publish_if_changed(&mut self, value: V) -> (r: bool)
        ensures
            final(self).spec_key() == old(self).spec_key(),
    {
        obs_publish_if_changed(&mut self.observable, value)
    }
}

} // verus!
