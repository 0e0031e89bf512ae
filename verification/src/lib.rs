//! A matchmaking queue engine: role-partitioned FIFO waiting pools, a
//! duplicate-prevention rule, and an atomic "enough players waiting, form a
//! group" step that extracts the oldest waiting participants of each role.

pub mod participant;
pub mod pool;
pub mod queue_state;
pub mod laws;

use vstd::prelude::*;

verus! {

} // verus!
