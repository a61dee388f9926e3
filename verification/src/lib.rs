//! Verified core of a concurrent TCP port scanner.
//!
//! The library holds everything the scanner decides or computes: parsing a
//! port specification into the set of ports to probe, dividing that set into
//! contiguous chunks for a bounded worker pool, classifying the outcome of a
//! single probe, the messages a worker sends for each outcome, the
//! coordinator state machine that aggregates those messages and decides when
//! the scan has drained, and the final report with its JSON document and
//! output path. The surrounding program performs the network, console and
//! file work and feeds plain values in and out of these functions.

pub mod config;
pub mod coordinator;
pub mod errors;
pub mod json;
pub mod messages;
pub mod numbers;
pub mod partition;
pub mod ports;
pub mod probe;
pub mod report;
pub mod strutil;
