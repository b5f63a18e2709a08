//! Core of a simulation/update engine: a typed entity/component/resource
//! store, a dependency-aware system scheduler that compiles registered
//! systems into concurrency-safe execution groups, and the phase/timing
//! model (init, variable-rate update, fixed-rate update, close) with the
//! mutual-exclusion lock between the variable-rate and fixed-rate phases.
//!
//! The asynchronous shell around this core (the runtime that awaits the
//! systems of a group, the retry sleeps of the lock, the wall clock and
//! the fixed-interval loop itself) lives outside the library and drives
//! it through the phase-step functions of the scheduler.

use vstd::prelude::*;

pub mod ecs;
pub mod game_state;
pub mod networking;
pub mod scheduler;

verus! {

/// Rounds `n` up to the next multiple of 256 (buffer row alignment).
pub fn pad_to_multiple_of_256(n: u32) -> (r: u32)
    requires
        n <= u32::MAX - 255,
    ensures
        r % 256 == 0,
        n <= r < n + 256,
{
    let sum = n + 255;
    let r = sum & !255u32;
    proof {
        assert(r % 256 == 0 && r <= sum && sum <= r + 255) by (bit_vector)
            requires
                r == sum & !255u32,
        ;
    }
    r
}

} // verus!
