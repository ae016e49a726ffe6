//! A self-cleaning map of observable values.
//!
//! The map lazily creates an entry on the first request for a key, hands out
//! reference-counted subscription handles to it, and evicts the entry the
//! moment the last handle for the key is released.  Entries pair an
//! observable value stream with a live-handle counter; a cursor walks the
//! keys in ascending order while tolerating concurrent mutation of the map.

use vstd::prelude::*;

pub mod keys;
pub mod laws;
pub mod map;
pub mod observable;

verus! {

pub use crate::keys::Keys;
pub use crate::map::SubscriptionError;
pub use crate::map::SubscriptionMap;
pub use crate::map::SubscriptionRef;

} // verus!
