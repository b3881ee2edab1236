//! A discrete-event simulation kernel for stochastic queueing models.
//!
//! Virtual time is a count of ticks (`u64`). User models compose entities,
//! discipline-governed entity sets, counting-semaphore resources, one-shot
//! events and recurring processes, hand them to a [`scheduler::Scheduler`],
//! and drive the clock by draining the future-event list. Event and process
//! callbacks are host code: the kernel decides what fires and when, the host
//! performs the attached behaviour and hands sampled durations back.

pub mod entity;
pub mod entity_set;
pub mod error;
pub mod event;
pub mod process;
pub mod resource;
pub mod scheduler;
mod uid;

use vstd::prelude::*;

verus! {

/// Saturating 64-bit addition: the arithmetic every statistics counter of
/// the kernel uses, so that long runs clamp instead of overflowing.
pub open spec fn sat_add_u64(a: u64, b: u64) -> u64 {
    if a + b <= u64::MAX {
        (a + b) as u64
    } else {
        u64::MAX
    }
}

} // verus!
