//! Trusted boundary to the observable collaborator.
//!
//! The registry stores one `async_observable::Observable` per entry and hands
//! linked clones of it out to subscribers.  The observable's publish/subscribe
//! machinery is an external collaborator: the wrappers here make the calls,
//! and the registry's own logic is verified against their contracts.

use vstd::prelude::*;

verus! {

/// Declares `async_observable::Observable` so that it can stand in fields and
/// signatures of the library.  Values of it are opaque to the verifier.
#[verifier::external_type_specification]
#[verifier::external_body]
#[verifier::reject_recursive_types(T)]
pub struct ExObservable<T: Clone>(async_observable::Observable<T>);

/// Relies on `async_observable::Observable::new`: wraps the value in a fresh
/// observable stream.
#[verifier::external_body]
pub(crate) fn obs_new<V: Clone>(value: V) -> async_observable::Observable<V> {
    async_observable::Observable::new(value)
}

/// Relies on `async_observable::Observable::clone`: yields an independent
/// handle linked to the same underlying value and notification stream.
#[verifier::external_body]
pub(crate) fn obs_fork<V: Clone>(o: &async_observable::Observable<V>) -> async_observable::Observable<V> {
    o.clone()
}

/// Relies on `async_observable::Observable::latest`: clones the current value
/// of the shared stream.  The result depends on the shared stream state, so
/// nothing is promised of it.
#[verifier::external_body]
pub(crate) fn obs_latest<V: Clone>(o: &async_observable::Observable<V>) -> V {
    o.latest()
}

/// Relies on `async_observable::Observable::publish`: stores the value and
/// notifies linked handles.
#[verifier::external_body]
pub(crate) fn obs_publish<V: Clone>(o: &mut async_observable::Observable<V>, value: V) {
    o.publish(value)
}

/// Relies on `async_observable::Observable::publish_if_changed`: publishes
/// only when the value differs from the current one, and reports whether a
/// change was propagated.  The current value lives in shared stream state, so
/// nothing is promised of the result.
#[verifier::external_body]
pub(crate) fn obs_publish_if_changed<V: Clone + PartialEq>(
    o: &mut async_observable::Observable<V>,
    value: V,
) -> bool {
    o.publish_if_changed(value)
}

/// Relies on `async_observable::Observable::modify`: runs the caller's mutator
/// on the shared value with exclusive access, then notifies linked handles.
/// The mutator's result is discarded, as only the stored value matters.
#[verifier::external_body]
pub(crate) fn obs_modify<V: Clone, R, F: FnOnce(&mut V) -> R>(
    o: &mut async_observable::Observable<V>,
    modify: F,
) {
    o.modify(|v| {
        modify(v);
    })
}

} // verus!
