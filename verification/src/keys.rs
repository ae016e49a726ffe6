//! A cursor over the keys of a [`SubscriptionMap`].
//!
//! The cursor is not a snapshot: each step re-queries the live map for the
//! smallest key past the last one seen, so concurrent insertions and
//! removals are visible mid-traversal.  Once the cursor has reported
//! exhaustion it stays exhausted, whatever is inserted afterwards.

use vstd::prelude::*;

use crate::map::SubscriptionMap;

verus! {

/// Whether a step of the cursor that last saw `prev` may report key `k`.
pub open spec fn sees(prev: Option<usize>, k: usize) -> bool {
    match prev {
        Option::None => true,
        Option::Some(p) => k > p,
    }
}

/// Key `k` is the smallest key of the abstract state `m` past `prev`.
pub open spec fn yields_min(m: Map<usize, nat>, prev: Option<usize>, k: usize) -> bool {
    &&& m.contains_key(k)
    &&& sees(prev, k)
    &&& forall|k2: usize| m.contains_key(k2) && sees(prev, k2) ==> k <= k2
}

/// The abstract state `m` holds no key past `prev`.
pub open spec fn exhausted_at(m: Map<usize, nat>, prev: Option<usize>) -> bool {
    forall|k: usize| !(m.contains_key(k) && sees(prev, k))
}

/// One step of the cursor against abstract state `m`: from position
/// `(prev0, done0)` to `(prev1, done1)`, reporting `r`.  Exhaustion is
/// sticky; otherwise the step reports the smallest not-yet-seen key, or
/// exhausts when none is left.
pub open spec fn cursor_step(
    m: Map<usize, nat>,
    prev0: Option<usize>,
    done0: bool,
    prev1: Option<usize>,
    done1: bool,
    r: Option<usize>,
) -> bool {
    if done0 {
        r is None && prev1 == prev0 && done1
    } else {
        match r {
            Option::Some(k) => yields_min(m, prev0, k) && prev1 == Some(k) && !done1,
            Option::None => exhausted_at(m, prev0) && prev1 == prev0 && done1,
        }
    }
}

/// An on-demand cursor over the keys of a subscription map.
///
/// Stepping it yields the map's keys in ascending order.  It holds no
/// reference into the map: each call to [`Keys::next`] is given the map and
/// looks up the smallest key past the last one seen, so the sequence
/// reflects the live state of the map at every step.
pub struct Keys {
    previous: Option<usize>,
    done: bool,
}

impl Keys {
    /// The last key the cursor reported, if any.
    pub closed spec fn spec_previous(self) -> Option<usize> {
        self.previous
    }

    /// Whether the cursor has reported exhaustion.
    pub closed spec fn spec_done(self) -> bool {
        self.done
    }

    /// A fresh cursor positioned before the first key.
    pub fn new() -> (r: Self)
        ensures
            r.spec_previous() == Option::<usize>::None,
            !r.spec_done(),
    {
        Self { previous: None, done: false }
    }

    /// Advance the cursor one step against the current state of `map`.
    ///
    /// Reports the smallest key of `map` past the last reported one, or
    /// `None` once no such key is left; after a `None` the cursor reports
    /// `None` forever, whatever was inserted in the meantime.
    pub fn next<V: Clone>(&mut self, map: &SubscriptionMap<V>) -> (r: Option<usize>)
        requires
            map.well_formed(),
        ensures
            cursor_step(
                map@,
                old(self).spec_previous(),
                old(self).spec_done(),
                final(self).spec_previous(),
                final(self).spec_done(),
                r,
            ),
    {
        if self.done {
            return None;
        }

        let found = map.next_key_above(self.previous);

        match found {
            Some(k) => {
                self.previous = Some(k);
                Some(k)
            },
            None => {
                self.done = true;
                None
            },
        }
    }
}

} // verus!
