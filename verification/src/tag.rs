//! The timestamped-and-owned wrapper around every stored value.

use vstd::prelude::*;

verus! {

/// A stored value annotated with the time it was created or last refreshed
/// and the network identity that registered it.
///
/// `real_ip` is fixed at creation to the identity that made the registration
/// call; it is distinct from any address the value itself may declare, and it
/// is never updated afterwards. `time` is reset on every successful refresh
/// and otherwise frozen.
pub struct Tagged<T> {
    pub time: u64,
    pub real_ip: u128,
    pub value: T,
}

impl<T> Tagged<T> {
    /// Wrap `value` with its owner and the current time, supplied by the
    /// caller as seconds.
    pub fn now(value: T, real_ip: u128, time: u64) -> (r: Self)
        ensures
            r.time == time,
            r.real_ip == real_ip,
            r.value == value,
    {
        Self { value, real_ip, time }
    }
}

} // verus!
