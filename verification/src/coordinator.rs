//! The coordinator: it aggregates the messages the workers send, counts
//! idle receives to decide when the scan has drained, and finalizes the
//! report with the open ports sorted and deduplicated.

use vstd::prelude::*;
use crate::messages::ScanMessage;
use crate::report::{BannerResponse, FileOutput};

verus! {

/// How many idle receives — timeouts or heartbeats — the coordinator waits
/// through before it treats the channel as drained.
pub const IDLE_THRESHOLD: u32 = 10;

/// Aggregated scan state: every open port received so far in arrival order
/// (duplicates possible), every banner, and the idle counter.
#[derive(Debug)]
pub struct Coordinator {
    pub open_ports: Vec<u16>,
    pub banners: Vec<BannerResponse>,
    pub idle_count: u32,
}

/// One idle step: the counter grows until it reaches the threshold and then
/// stays there.
pub open spec fn spec_idle_step(i: int) -> int {
    if i < IDLE_THRESHOLD {
        i + 1
    } else {
        i
    }
}

/// The idle counter after `k` consecutive idle steps.
pub open spec fn spec_idle_after(i: int, k: nat) -> int
    decreases k,
{
    if k == 0 {
        i
    } else {
        spec_idle_step(spec_idle_after(i, (k - 1) as nat))
    }
}

/// The idle counter after `k` idle steps, exactly: it climbs one per step
/// and stops at the threshold.
pub proof fn lemma_idle_after_form(i: int, k: nat)
    requires
        0 <= i,
    ensures
        spec_idle_after(i, k) == if i >= IDLE_THRESHOLD {
            i
        } else if i + k <= IDLE_THRESHOLD {
            i + k
        } else {
            IDLE_THRESHOLD as int
        },
    decreases k,
{
    if k > 0 {
        lemma_idle_after_form(i, (k - 1) as nat);
    }
}

/// However the scan went before, once the threshold many consecutive
/// receives come back idle the coordinator reports the scan drained: the
/// collection loop cannot wait forever.
pub proof fn lemma_timeouts_force_drain(i: int, k: nat)
    requires
        0 <= i,
        IDLE_THRESHOLD <= k,
    ensures
        spec_idle_after(i, k) >= IDLE_THRESHOLD,
{
    lemma_idle_after_form(i, k);
}

/// Strictly ascending: sorted with no duplicates.
pub open spec fn sorted_strict(s: Seq<u16>) -> bool {
    forall|i: int, j: int| 0 <= i < j < s.len() ==> s[i] < s[j]
}

/// The report's port order is deterministic whatever order the results
/// arrived in: a strictly ascending sequence is determined by its set alone,
/// so two finalized reports over the same received ports list the same
/// ports, in the same order.
pub proof fn lemma_report_order_deterministic(s1: Seq<u16>, s2: Seq<u16>)
    requires
        sorted_strict(s1),
        sorted_strict(s2),
        s1.to_set() == s2.to_set(),
    ensures
        s1 == s2,
    decreases s1.len(),
{
    if s1.len() == 0 {
        if s2.len() > 0 {
            assert(s2.to_set().contains(s2[0]));
            assert(s1.contains(s2[0]));
        }
        assert(s1 =~= s2);
    } else {
        assert(s1.to_set().contains(s1[0]));
        assert(s2.contains(s1[0]));
        if s2.len() == 0 {
            assert(s2.to_set().contains(s1[0]));
        }
        // the heads agree: each head is in the other sequence, which is
        // ascending, so each head is at most the other
        let j2 = choose|j: int| 0 <= j < s2.len() && s2[j] == s1[0];
        assert(s2[0] <= s1[0]);
        assert(s2.to_set().contains(s2[0]));
        assert(s1.contains(s2[0]));
        let j1 = choose|j: int| 0 <= j < s1.len() && s1[j] == s2[0];
        assert(s1[0] <= s2[0]);
        assert(s1[0] == s2[0]);
        // the tails hold the same set: everything after a head is above it
        let t1 = s1.drop_first();
        let t2 = s2.drop_first();
        assert(sorted_strict(t1));
        assert(sorted_strict(t2));
        assert forall|x: u16| t1.to_set().contains(x) <==> t2.to_set().contains(x) by {
            if t1.contains(x) {
                let k = choose|k: int| 0 <= k < t1.len() && t1[k] == x;
                assert(s1[k + 1] == x);
                assert(s1[0] < x);
                assert(s1.to_set().contains(x));
                assert(s2.contains(x));
                let m = choose|m: int| 0 <= m < s2.len() && s2[m] == x;
                assert(m != 0);
                assert(t2[m - 1] == x);
            }
            if t2.contains(x) {
                let k = choose|k: int| 0 <= k < t2.len() && t2[k] == x;
                assert(s2[k + 1] == x);
                assert(s2[0] < x);
                assert(s2.to_set().contains(x));
                assert(s1.contains(x));
                let m = choose|m: int| 0 <= m < s1.len() && s1[m] == x;
                assert(m != 0);
                assert(t1[m - 1] == x);
            }
        }
        assert(t1.to_set() =~= t2.to_set());
        lemma_report_order_deterministic(t1, t2);
        assert(s1.len() == s2.len());
        assert forall|i: int| 0 <= i < s1.len() implies s1[i] == s2[i] by {
            if i > 0 {
                assert(s1[i] == t1[i - 1]);
                assert(s2[i] == t2[i - 1]);
            }
        }
        assert(s1 =~= s2);
    }
}

/// Inserts `p` into a strictly ascending vector, keeping it strictly
/// ascending; a value already present is left alone.
fn insert_unique(v: &mut Vec<u16>, p: u16)
    requires
        sorted_strict(old(v)@),
    ensures
        sorted_strict(final(v)@),
        final(v)@.to_set() == old(v)@.to_set().insert(p),
{
    let mut j: usize = 0;
    while j < v.len() && v[j] < p
        invariant
            j <= v@.len(),
            forall|k: int| 0 <= k < j ==> v@[k] < p,
            v == old(v),
        decreases v@.len() - j,
    {
        j += 1;
    }
    if j < v.len() {
        let existing = v[j];
        if existing == p {
            proof {
                assert(old(v)@.contains(p));
                assert(final(v)@.to_set() =~= old(v)@.to_set().insert(p));
            }
            return;
        }
    }
    // every entry before `j` is below `p`, the entry at `j` (if any) above it
    let ghost pre = v@;
    v.insert(j, p);
    proof {
        assert(final(v)@ == pre.insert(j as int, p));
        assert(forall|k: int|
            0 <= k < final(v)@.len() && k < j ==> final(v)@[k] == pre[k]);
        assert(final(v)@[j as int] == p);
        assert(forall|k: int|
            j < k < final(v)@.len() ==> final(v)@[k] == pre[k - 1]);
        assert(j < pre.len() ==> pre[j as int] > p);
        assert(sorted_strict(final(v)@));
        assert forall|x: u16| final(v)@.contains(x) <==> (pre.contains(x) || x == p) by {
            if pre.contains(x) {
                let k = choose|k: int| 0 <= k < pre.len() && pre[k] == x;
                if k < j {
                    assert(final(v)@[k] == x);
                } else {
                    assert(final(v)@[k + 1] == x);
                }
            }
            if final(v)@.contains(x) {
                let k = choose|k: int| 0 <= k < final(v)@.len() && final(v)@[k] == x;
                if k < j {
                    assert(pre[k] == x);
                } else if k > j {
                    assert(pre[k - 1] == x);
                }
            }
        }
        assert(final(v)@.to_set() =~= pre.to_set().insert(p));
    }
}

impl Coordinator {
    /// A coordinator with nothing received and a zero idle counter.
    pub fn new() -> (c: Coordinator)
        ensures
            c.open_ports@ =~= Seq::<u16>::empty(),
            c.banners@ =~= Seq::<BannerResponse>::empty(),
            c.idle_count == 0,
    {
        Coordinator { open_ports: Vec::new(), banners: Vec::new(), idle_count: 0 }
    }

    /// Takes one received message: an open port or a banner is appended to
    /// its accumulator, a heartbeat only advances the idle counter.
    ///
    /// Counting heartbeats as idle receives is a deliberate liveness
    /// trade-off: heartbeats carry no result, so enough of them in a row —
    /// as when many closed ports are probed quickly — can drain the
    /// coordinator while slow workers are still mid-flight. A late message
    /// is then lost, never misreported; the report holds whatever was
    /// received.
    pub fn on_message(&mut self, msg: ScanMessage)
        ensures
            match msg {
                ScanMessage::PortOpen(p) => {
                    &&& final(self).open_ports@ == old(self).open_ports@.push(p)
                    &&& final(self).banners@ == old(self).banners@
                    &&& final(self).idle_count == old(self).idle_count
                },
                ScanMessage::Banner(p, d) => {
                    &&& final(self).open_ports@ == old(self).open_ports@
                    &&& final(self).banners@ == old(self).banners@.push(
                        (BannerResponse { port: p, data: d }))
                    &&& final(self).idle_count == old(self).idle_count
                },
                ScanMessage::Heartbeat => {
                    &&& final(self).open_ports@ == old(self).open_ports@
                    &&& final(self).banners@ == old(self).banners@
                    &&& final(self).idle_count as int == spec_idle_step(old(self).idle_count as int)
                },
            },
    {
        match msg {
            ScanMessage::PortOpen(p) => {
                self.open_ports.push(p);
            },
            ScanMessage::Banner(p, d) => {
                self.banners.push(BannerResponse { port: p, data: d });
            },
            ScanMessage::Heartbeat => {
                if self.idle_count < IDLE_THRESHOLD {
                    self.idle_count = self.idle_count + 1;
                }
            },
        }
    }

    /// Takes one timed-out receive: only the idle counter advances.
    pub fn on_timeout(&mut self)
        ensures
            final(self).open_ports@ == old(self).open_ports@,
            final(self).banners@ == old(self).banners@,
            final(self).idle_count as int == spec_idle_step(old(self).idle_count as int),
    {
        if self.idle_count < IDLE_THRESHOLD {
            self.idle_count = self.idle_count + 1;
        }
    }

    /// True once enough consecutive receives came back idle that no more
    /// messages are expected and the collection loop must stop.
    pub fn is_drained(&self) -> (r: bool)
        ensures
            r == (self.idle_count >= IDLE_THRESHOLD),
    {
        self.idle_count >= IDLE_THRESHOLD
    }

    /// Closes the scan: the received ports are sorted ascending and
    /// deduplicated, the banners kept in arrival order, and the report filled
    /// in for the given host over IPv4 and TCP.
    pub fn finalize(self, host: String) -> (out: FileOutput)
        ensures
            sorted_strict(out.ports@),
            out.ports@.to_set() == self.open_ports@.to_set(),
            out.banner_response@ == self.banners@,
            out.host == host,
            out.ip@ == "V4"@,
            out.protocol@ == "TCP"@,
    {
        let received = self.open_ports;
        let mut ports: Vec<u16> = Vec::new();
        let mut i: usize = 0;
        while i < received.len()
            invariant
                i <= received@.len(),
                sorted_strict(ports@),
                ports@.to_set() == received@.subrange(0, i as int).to_set(),
            decreases received@.len() - i,
        {
            let p = received[i];
            proof {
                let pre = received@.subrange(0, i as int);
                let post = received@.subrange(0, i + 1);
                assert(post.drop_last() =~= pre);
                assert(post.last() == received@[i as int]);
                assert forall|x: u16| post.contains(x) <==> (pre.contains(x) || x
                    == received@[i as int]) by {
                    if pre.contains(x) {
                        let k = choose|k: int| 0 <= k < pre.len() && pre[k] == x;
                        assert(post[k] == x);
                    }
                    if post.contains(x) {
                        let k = choose|k: int| 0 <= k < post.len() && post[k] == x;
                        if k < pre.len() {
                            assert(pre[k] == x);
                        }
                    }
                }
                assert(post.to_set() =~= pre.to_set().insert(received@[i as int]));
            }
            insert_unique(&mut ports, p);
            i += 1;
        }
        proof {
            assert(received@.subrange(0, received@.len() as int) =~= received@);
        }
        FileOutput {
            host,
            ip: String::from_str("V4"),
            protocol: String::from_str("TCP"),
            ports,
            banner_response: self.banners,
        }
    }
}

} // verus!
