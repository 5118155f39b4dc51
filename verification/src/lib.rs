//! An in-memory matchmaking directory: clients publish game rooms, refresh
//! them to keep them alive, and remove them; a per-registrant quota bounds how
//! many rooms one network identity may hold, and a timeout sweep reclaims
//! rooms that stopped refreshing.

use vstd::prelude::*;

pub mod compat;
pub mod laws;
pub mod limit;
pub mod rooms;
pub mod stats;
pub mod store;
pub mod tag;

verus! {

/// Process configuration: the listening port, the room expiry timeout in
/// seconds, and the per-identity room limits to install at startup.
pub struct Config {
    pub port: u16,
    pub timeout_seconds: u64,
    pub user_limits: Vec<(u128, u16)>,
}

} // verus!
