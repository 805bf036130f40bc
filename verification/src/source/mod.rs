//! What a source is: the start of a pipeline, which turns what arrives
//! from outside into events.

use vstd::prelude::*;

pub mod flush;
pub mod statsd;

verus! {

/// The seconds between two flush ticks where none are configured.
pub const FLUSH_INTERVAL_SECONDS: u64 = 10;

/// A source. Its loop receives from the outside and publishes events to its
/// channels until the process ends.
pub trait Source {
    /// Runs the source's loop.
    fn run(&mut self);
}

} // verus!
