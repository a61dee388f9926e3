//! Classifying the outcome of a single probe, and the messages a worker
//! sends for it.
//!
//! A probe is one connect attempt within the timeout; a success is confirmed
//! by a second connect with twice the timeout before the port is trusted as
//! open. Banner text is captured from an HTTP response on the open port and
//! bounded in length. The network calls themselves happen outside the
//! library; these functions decide what their results mean.

use vstd::prelude::*;
use crate::messages::ScanMessage;

verus! {

/// What a single probe found out about one port.
#[derive(Debug, Clone)]
pub enum ProbeOutcome {
    Open,
    Closed,
    OpenWithBanner(String),
}

/// The outcome of a probe: closed unless both the connect and the
/// confirmation re-probe succeeded; open with the banner text when a
/// nonempty banner was captured.
pub open spec fn spec_probe_outcome(
    connect_ok: bool,
    reprobe_ok: bool,
    banner: Option<String>,
) -> ProbeOutcome {
    if !connect_ok || !reprobe_ok {
        ProbeOutcome::Closed
    } else {
        match banner {
            Some(text) => if text@.len() > 0 {
                ProbeOutcome::OpenWithBanner(text)
            } else {
                ProbeOutcome::Open
            },
            None => ProbeOutcome::Open,
        }
    }
}

/// Classifies what one probe observed. `connect_ok` is the first connect
/// attempt, `reprobe_ok` the confirmation re-probe (counted as failed when a
/// port closed between the two), and `banner` whatever text the banner read
/// returned, `None` when none was attempted or nothing came back.
pub fn classify_probe(connect_ok: bool, reprobe_ok: bool, banner: Option<String>) -> (o:
    ProbeOutcome)
    ensures
        o == spec_probe_outcome(connect_ok, reprobe_ok, banner),
{
    if !connect_ok || !reprobe_ok {
        return ProbeOutcome::Closed;
    }
    match banner {
        Some(text) => {
            if text.as_str().unicode_len() > 0 {
                ProbeOutcome::OpenWithBanner(text)
            } else {
                ProbeOutcome::Open
            }
        },
        None => ProbeOutcome::Open,
    }
}

/// Probing a closed port classifies as closed whatever else was observed and
/// however often it is repeated: two probes of a port whose connect fails
/// yield closed both times, with no state carried from one to the other.
pub proof fn lemma_closed_probe_idempotent(
    r1: bool,
    b1: Option<String>,
    r2: bool,
    b2: Option<String>,
)
    ensures
        spec_probe_outcome(false, r1, b1) is Closed,
        spec_probe_outcome(false, r2, b2) is Closed,
{
}

/// The messages a worker sends for one probed port: the open port itself,
/// then its banner when banner grabbing is on and the text is nonempty; a
/// heartbeat for a closed port, so every port yields exactly one primary
/// message.
pub open spec fn spec_worker_messages(o: ProbeOutcome, banner_enabled: bool, port: u16) -> Seq<
    ScanMessage,
> {
    match o {
        ProbeOutcome::Closed => seq![ScanMessage::Heartbeat],
        ProbeOutcome::Open => seq![ScanMessage::PortOpen(port)],
        ProbeOutcome::OpenWithBanner(text) => if banner_enabled && text@.len() > 0 {
            seq![ScanMessage::PortOpen(port), ScanMessage::Banner(port, text)]
        } else {
            seq![ScanMessage::PortOpen(port)]
        },
    }
}

/// The messages to send for one probed port; see [`spec_worker_messages`].
pub fn worker_messages(outcome: ProbeOutcome, banner_enabled: bool, port: u16) -> (msgs: Vec<
    ScanMessage,
>)
    ensures
        msgs@ == spec_worker_messages(outcome, banner_enabled, port),
{
    let mut msgs: Vec<ScanMessage> = Vec::new();
    match outcome {
        ProbeOutcome::Closed => {
            msgs.push(ScanMessage::Heartbeat);
            proof {
                assert(msgs@ =~= seq![ScanMessage::Heartbeat]);
            }
        },
        ProbeOutcome::Open => {
            msgs.push(ScanMessage::PortOpen(port));
            proof {
                assert(msgs@ =~= seq![ScanMessage::PortOpen(port)]);
            }
        },
        ProbeOutcome::OpenWithBanner(text) => {
            msgs.push(ScanMessage::PortOpen(port));
            if banner_enabled && text.as_str().unicode_len() > 0 {
                let ghost t = text;
                msgs.push(ScanMessage::Banner(port, text));
                proof {
                    assert(msgs@ =~= seq![
                        ScanMessage::PortOpen(port),
                        ScanMessage::Banner(port, t),
                    ]);
                }
            } else {
                proof {
                    assert(msgs@ =~= seq![ScanMessage::PortOpen(port)]);
                }
            }
        },
    }
    msgs
}

/// Takes at most `max_len` characters from the front of a banner text.
pub fn truncate_banner(text: &str, max_len: u32) -> (r: String)
    ensures
        r@ == text@.take(
            if text@.len() <= max_len as int {
                text@.len() as int
            } else {
                max_len as int
            },
        ),
{
    let len = text.unicode_len();
    let mut out = String::new();
    let mut i: usize = 0;
    while i < len && (i as u64) < (max_len as u64)
        invariant
            i <= len,
            len == text@.len(),
            i as int <= max_len as int,
            out@ =~= text@.take(i as int),
        decreases len - i,
    {
        let c = text.get_char(i);
        crate::strutil::string_push(&mut out, c);
        proof {
            assert(out@ =~= text@.take(i + 1));
        }
        i += 1;
    }
    proof {
        assert(out@ =~= text@.take(
            if text@.len() <= max_len as int {
                text@.len() as int
            } else {
                max_len as int
            },
        ));
    }
    out
}

/// The confirmation re-probe runs with twice the configured timeout.
pub fn reprobe_timeout(timeout: u64) -> (t: u64)
    requires
        timeout <= u64::MAX / 2,
    ensures
        t == 2 * timeout,
{
    2 * timeout
}

} // verus!
