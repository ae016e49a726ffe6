//! The laws of the registry's lifecycle, proved over its abstract model.
//!
//! The abstract state is the map from each present key to its live-handle
//! count; `acquire_model` and `release_model` are the state changes that
//! `get_or_insert` and `release` are proved to perform.

use vstd::prelude::*;

use crate::keys::cursor_step;
use crate::keys::sees;
use crate::map::acquire_model;
use crate::map::release_model;

verus! {

/// A key never requested never appears: neither acquiring nor releasing any
/// other key creates an entry for it.
pub proof fn lemma_untouched_key_stays_absent(
    m: Map<usize, nat>,
    touched: usize,
    k: usize,
)
    requires
        !m.contains_key(k),
        touched != k,
    ensures
        !acquire_model(m, touched).contains_key(k),
        !release_model(m, touched).contains_key(k),
{
}

/// Releasing the last outstanding handle for a key evicts its entry at once:
/// the resulting state is exactly the old one without that key.
pub proof fn lemma_last_release_evicts(m: Map<usize, nat>, k: usize)
    requires
        m.contains_key(k),
        m[k] == 1,
    ensures
        !release_model(m, k).contains_key(k),
        release_model(m, k) =~= m.remove(k),
{
}

/// The abstract state after `n` successive acquisitions of one key.
pub open spec fn acquire_n(m: Map<usize, nat>, k: usize, n: nat) -> Map<usize, nat>
    decreases n,
{
    if n == 0 {
        m
    } else {
        acquire_model(acquire_n(m, k, (n - 1) as nat), k)
    }
}

/// The abstract state after `n` successive releases of one key.
pub open spec fn release_n(m: Map<usize, nat>, k: usize, n: nat) -> Map<usize, nat>
    decreases n,
{
    if n == 0 {
        m
    } else {
        release_model(release_n(m, k, (n - 1) as nat), k)
    }
}

/// With `n` handles handed out for a previously absent key, the entry's
/// live-handle counter is exactly `n`, and no other key is disturbed.
pub proof fn lemma_live_count_tracks_handles(m: Map<usize, nat>, k: usize, n: nat)
    requires
        !m.contains_key(k),
        n >= 1,
    ensures
        acquire_n(m, k, n).contains_key(k),
        acquire_n(m, k, n)[k] == n,
        forall|k2: usize| k2 != k ==> #[trigger] acquire_n(m, k, n).contains_key(k2) == m.contains_key(k2),
        forall|k2: usize| k2 != k && m.contains_key(k2) ==> #[trigger] acquire_n(m, k, n)[k2] == m[k2],
    decreases n,
{
    let prev = acquire_n(m, k, (n - 1) as nat);
    assert(acquire_n(m, k, n) == acquire_model(prev, k));
    if n == 1 {
        assert(prev == m);
    } else {
        lemma_live_count_tracks_handles(m, k, (n - 1) as nat);
    }
}

/// Releasing every outstanding handle for a key, one at a time, removes the
/// entry exactly once: after the counter is drained the key is gone, and one
/// more release changes nothing.
pub proof fn lemma_release_all_evicts_once(m: Map<usize, nat>, k: usize, n: nat)
    requires
        m.contains_key(k),
        m[k] == n,
        n >= 1,
    ensures
        !release_n(m, k, n).contains_key(k),
        release_model(release_n(m, k, n), k) == release_n(m, k, n),
        forall|k2: usize|
            k2 != k ==> #[trigger] release_n(m, k, n).contains_key(k2) == m.contains_key(k2),
        forall|k2: usize|
            k2 != k && m.contains_key(k2) ==> #[trigger] release_n(m, k, n)[k2] == m[k2],
    decreases n,
{
    if n == 1 {
        assert(release_n(m, k, 1) == release_model(release_n(m, k, 0), k));
        assert(release_n(m, k, 0) == m);
        assert(release_model(m, k) == m.remove(k));
    } else {
        let m1 = release_model(m, k);
        assert(m1 == m.insert(k, (n - 1) as nat));
        lemma_release_all_evicts_once(m1, k, (n - 1) as nat);
        lemma_release_n_shifts(m, k, (n - 1) as nat);
        assert(release_n(m1, k, (n - 1) as nat) == release_n(m, k, n));
        assert forall|k2: usize|
            k2 != k implies #[trigger] release_n(m, k, n).contains_key(k2) == m.contains_key(
            k2,
        ) by {
            assert(release_n(m1, k, (n - 1) as nat).contains_key(k2) == m1.contains_key(k2));
        }
        assert forall|k2: usize| k2 != k && m.contains_key(k2) implies #[trigger] release_n(
            m,
            k,
            n,
        )[k2] == m[k2] by {
            assert(release_n(m1, k, (n - 1) as nat)[k2] == m1[k2]);
        }
    }
}

/// Iterated release commutes with one leading release.
proof fn lemma_release_n_shifts(m: Map<usize, nat>, k: usize, n: nat)
    ensures
        release_n(release_model(m, k), k, n) == release_n(m, k, n + 1),
    decreases n,
{
    if n == 0 {
        assert(release_n(release_model(m, k), k, 0) == release_model(m, k));
        assert(release_n(m, k, 1) == release_model(release_n(m, k, 0), k));
        assert(release_n(m, k, 0) == m);
    } else {
        lemma_release_n_shifts(m, k, (n - 1) as nat);
        assert(release_n(release_model(m, k), k, n) == release_model(
            release_n(release_model(m, k), k, (n - 1) as nat),
            k,
        ));
        assert(release_n(m, k, n + 1) == release_model(release_n(m, k, n), k));
    }
}

/// Handles for distinct keys may be released in either order; the resulting
/// abstract state is the same.
pub proof fn lemma_release_order_independent(m: Map<usize, nat>, k1: usize, k2: usize)
    requires
        k1 != k2,
    ensures
        release_model(release_model(m, k1), k2) =~= release_model(release_model(m, k2), k1),
{
}

/// A fresh cursor stepped against an empty registry reports exhaustion at
/// once.
pub proof fn lemma_empty_map_exhausts(prev1: Option<usize>, done1: bool, r: Option<usize>)
    requires
        cursor_step(Map::<usize, nat>::empty(), Option::<usize>::None, false, prev1, done1, r),
    ensures
        r is None,
        done1,
{
}

/// Keys come out of the cursor in strictly ascending order: any two
/// successive successful steps, whatever happened to the registry in
/// between, yield a smaller key first.
pub proof fn lemma_cursor_ascending(
    m1: Map<usize, nat>,
    m2: Map<usize, nat>,
    p0: Option<usize>,
    d0: bool,
    p1: Option<usize>,
    d1: bool,
    p2: Option<usize>,
    d2: bool,
    k1: usize,
    k2: usize,
)
    requires
        cursor_step(m1, p0, d0, p1, d1, Some(k1)),
        cursor_step(m2, p1, d1, p2, d2, Some(k2)),
    ensures
        k1 < k2,
{
}

/// Exhaustion is sticky: a step of an exhausted cursor reports nothing and
/// moves nothing, whatever the registry now holds.
pub proof fn lemma_exhaustion_sticky(
    m: Map<usize, nat>,
    p0: Option<usize>,
    p1: Option<usize>,
    done1: bool,
    r: Option<usize>,
)
    requires
        cursor_step(m, p0, true, p1, done1, r),
    ensures
        r is None,
        done1,
        p1 == p0,
{
}

/// A cursor that has not yet exhausted misses nothing: it can report
/// exhaustion only when the registry, as it stands at that step, holds no
/// key past the cursor's position.  In particular a key inserted past the
/// position of a still-live cursor is seen by it.
pub proof fn lemma_live_cursor_misses_nothing(
    m: Map<usize, nat>,
    p0: Option<usize>,
    p1: Option<usize>,
    done1: bool,
    k: usize,
)
    requires
        cursor_step(m, p0, false, p1, done1, Option::<usize>::None),
        m.contains_key(k),
    ensures
        !sees(p0, k),
{
}

} // verus!
