//! The messages a worker sends the coordinator over the channel.
//!
//! Every worker sends exactly one message per port it is assigned — a result
//! for an open port, a heartbeat for a closed one — and may send any number
//! of further heartbeats; the coordinator consumes each message exactly once.

use vstd::prelude::*;
use crate::config::Arguments;
use crate::strutil::str_equal;

verus! {

/// The tag of a message a worker sends the coordinator.
#[derive(Debug, Clone, PartialEq, Eq, Structural)]
pub enum ThreadMessage {
    OpenPort,
    Banner,
    KeepAlive,
}

/// One message sent from a worker to the coordinator.
#[derive(Debug, Clone)]
pub enum ScanMessage {
    /// The port accepted a connection.
    PortOpen(u16),
    /// Banner text captured from an open port.
    Banner(u16, String),
    /// A liveness signal carrying no result.
    Heartbeat,
}

/// The tag a message name denotes: "PORT" and "BANNER" name results, any
/// other name counts only as a keep-alive.
pub open spec fn spec_thread_message(s: Seq<char>) -> ThreadMessage {
    if s == "PORT"@ {
        ThreadMessage::OpenPort
    } else if s == "BANNER"@ {
        ThreadMessage::Banner
    } else {
        ThreadMessage::KeepAlive
    }
}

impl Arguments {
    /// Classifies a message name into its tag.
    pub fn validate_thread_message(slice: &str) -> (m: ThreadMessage)
        ensures
            m == spec_thread_message(slice@),
    {
        if str_equal(slice, "PORT") {
            ThreadMessage::OpenPort
        } else if str_equal(slice, "BANNER") {
            ThreadMessage::Banner
        } else {
            ThreadMessage::KeepAlive
        }
    }
}

} // verus!
