//! Telemetry aggregation core: the durable event channel, the StatsD and
//! Graphite line parsers, the time-bucketed aggregator and the sink and
//! source rules that tie them together.
//!
//! Nothing in this crate reads a socket or touches a file. Where the
//! daemon has to, the functions here decide what is to be done and their
//! caller does it.

pub mod buckets;
pub mod bytes;
pub mod decimal;
pub mod graphite_line;
pub mod metric;
pub mod mpsc;
pub mod number;
pub mod quantile;
pub mod queue_model;
pub mod sink;
pub mod source;
pub mod statsd_line;
pub mod tagmap;
pub mod time;
pub mod util;
