//! What a sink is, and how the events of its channel are handed to it.

use crate::metric::{Event, LogLine, LogLineView, Metric, MetricView};
use vstd::prelude::*;

pub mod console;
pub mod native;


verus! {

/// Whether a sink takes more events in.
#[derive(Debug, Clone, Copy, PartialEq, Eq, Structural)]
pub enum Valve {
    Open,
    Closed,
}

/// What an event asks of a sink.
pub enum Call {
    /// Take this metric in.
    Deliver(Metric),
    /// Take this log line in.
    DeliverLine(LogLine),
    /// Emit what is held and start anew.
    Flush,
}

/// The call that an event stands for: telemetry is delivered, a log line is
/// delivered as a line, the flush tick flushes.
pub fn route(event: Event) -> (call: Call)
    ensures
        match event {
            Event::Telemetry(m) => call == Call::Deliver(m),
            Event::Log(l) => call == Call::DeliverLine(l),
            Event::TimerFlush => call == Call::Flush,
        },
{
    match event {
        Event::Telemetry(m) => Call::Deliver(m),
        Event::Log(l) => Call::DeliverLine(l),
        Event::TimerFlush => Call::Flush,
    }
}

/// A sink: the end of a channel, which aggregates or buffers what comes
/// and, on the flush tick, hands out what is to go to the outside.
///
/// Every sink says, in its own terms, what its three calls do to it; the
/// loop's turn is then bound to that.
pub trait Sink: Sized {
    /// What a flush hands out for emission.
    type Emission;

    /// Whether `after` is this sink once it has taken `point` in.
    spec fn takes(&self, after: &Self, point: MetricView) -> bool;

    /// Whether `after` is this sink once it has taken `line` in.
    spec fn takes_line(&self, after: &Self, line: LogLineView) -> bool;

    /// Whether a flush of this sink hands out `out` and leaves `after`.
    /// `None` stands for a flush that has nothing to emit.
    spec fn hands_out(&self, after: &Self, out: &Option<Self::Emission>) -> bool;

    /// Whether this sink takes more events in.
    spec fn valve(&self) -> Valve;

    /// Takes one metric in.
    fn deliver(&mut self, point: Metric)
        ensures
            old(self).takes(final(self), point@),
    ;

    /// Takes one log line in.
    fn deliver_line(&mut self, line: LogLine)
        ensures
            old(self).takes_line(final(self), line@),
    ;

    /// Hands out what is held, for the caller to emit, or `None` where
    /// nothing is held and nothing is to be emitted.
    fn flush(&mut self) -> (out: Option<Self::Emission>)
        ensures
            old(self).hands_out(final(self), &out),
    ;

    /// Whether the sink takes more events in.
    fn valve_state(&self) -> (v: Valve)
        ensures
            v == self.valve(),
    ;

    /// One turn of the sink's loop: the event that the channel handed out
    /// is routed to the call it stands for. Gives what the flush hands out
    /// where the event was the flush tick, and nothing else.
    fn run(&mut self, event: Event) -> (r: Option<Self::Emission>)
        ensures
            match event {
                Event::Telemetry(m) => r is None && old(self).takes(final(self), m@),
                Event::Log(l) => r is None && old(self).takes_line(final(self), l@),
                Event::TimerFlush => old(self).hands_out(final(self), &r),
            },
    {
        match route(event) {
            Call::Deliver(m) => {
                self.deliver(m);
                None
            },
            Call::DeliverLine(l) => {
                self.deliver_line(l);
                None
            },
            Call::Flush => self.flush(),
        }
    }
}

} // verus!
