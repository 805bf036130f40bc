//! The flush timer: the source of the tick on which sinks emit and start
//! anew.

use crate::mpsc::{sent_as, Sender};
use crate::source::FLUSH_INTERVAL_SECONDS;
use crate::util::{send, served, Delivery};
use vstd::prelude::*;

verus! {

/// A source that sends the flush tick down every one of its channels, at
/// a fixed interval.
pub struct FlushTimer {
    chans: Vec<Sender>,
    interval: u64,
}

impl FlushTimer {
    /// The producers of the channels that the timer ticks on.
    pub closed spec fn channels(&self) -> Seq<Sender> {
        self.chans@
    }

    /// The seconds between two ticks.
    pub closed spec fn period(&self) -> u64 {
        self.interval
    }

    /// A timer that ticks on `chans` every `FLUSH_INTERVAL_SECONDS`.
    pub fn new(chans: Vec<Sender>) -> (t: FlushTimer)
        ensures
            t.channels() == chans@,
            t.period() == FLUSH_INTERVAL_SECONDS,
    {
        FlushTimer { chans, interval: FLUSH_INTERVAL_SECONDS }
    }

    /// A timer that ticks on `chans` every `interval` seconds.
    pub fn every(chans: Vec<Sender>, interval: u64) -> (t: FlushTimer)
        ensures
            t.channels() == chans@,
            t.period() == interval,
    {
        FlushTimer { chans, interval }
    }

    /// The seconds between two ticks.
    pub fn interval(&self) -> (s: u64)
        ensures
            s == self.period(),
    {
        self.interval
    }

    /// One tick: the serialized flush event goes to every channel, once
    /// each. `globals` holds the shared index of each channel as the caller
    /// has just read it.
    pub fn tick(&mut self, globals: &Vec<usize>, flush: &[u8]) -> (out: Vec<Delivery>)
        requires
            old(self).channels().len() > 0,
            globals@.len() == old(self).channels().len(),
        ensures
            out@.len() == old(self).channels().len(),
            final(self).channels().len() == old(self).channels().len(),
            final(self).period() == old(self).period(),
            forall|turn: int|
                0 <= turn < out@.len() ==> (#[trigger] out@[turn]).chan == served(
                    turn,
                    out@.len() as int,
                ) && sent_as(
                    old(self).channels()[served(turn, out@.len() as int)],
                    final(self).channels()[served(turn, out@.len() as int)],
                    flush@,
                    globals@[served(turn, out@.len() as int)],
                    out@[turn].outcome,
                ),
    {
        send(&mut self.chans, globals, flush)
    }
}

} // verus!
