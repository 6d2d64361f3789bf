//! The connection table behind the network dashboard: each sampling batch
//! reports the TCP sockets that exist, and the table keeps per-connection
//! counters, notices new flows, and lets go of flows that vanished.
//!
//! Rates are computed by the caller from the deltas this table hands back.
use vstd::prelude::*;
use crate::dashboard::PeerAddr;
use crate::ansi::{tcp_state_name, tcp_state_text};
use crate::sorted::{seq_lt, chars_lt, lemma_lt_transitive, lemma_lt_total, lemma_lt_asymmetric};
use crate::text::{chars_of, chars_eq, string_of, append_chars, append_str, dec, dec_u64};

verus! {

/// The kernel's number for a listening TCP socket.
pub const TCP_LISTEN: u8 = 10;

/// What identifies one socket across batches.
#[derive(Clone, Copy, Debug, PartialEq, Eq, Hash, Structural)]
pub struct ConnKey {
    pub inode: u32,
    pub local_ip: PeerAddr,
    pub local_port: u16,
    pub remote_ip: PeerAddr,
    pub remote_port: u16,
    /// The socket cookie's eight bytes, little-endian.
    pub cookie: u64,
}

/// One socket as a sampling batch reports it. A socket that came without
/// TCP info carries zero counters.
#[derive(Clone, Copy, Debug, PartialEq, Eq, Structural)]
pub struct SocketSample {
    pub key: ConnKey,
    pub state: u8,
    pub recv_queue: u32,
    pub send_queue: u32,
    pub segs_in: u32,
    pub segs_out: u32,
    pub bytes_in: u64,
    pub bytes_out: u64,
    /// Smoothed round-trip time in microseconds.
    pub rtt_us: u32,
}

/// The integer state kept for one tracked connection.
#[derive(Clone, Copy, Debug, PartialEq, Eq, Structural)]
pub struct TrackedCounters {
    pub state: u8,
    pub is_listener: bool,
    pub last_seen_seq: u64,
    pub seen_batches: u64,
    pub prev_segs_in: u64,
    pub prev_segs_out: u64,
    pub prev_bytes_in: u64,
    pub prev_bytes_out: u64,
    pub rtt_ms: u32,
    pub queue_bytes: u32,
    pub observed_packets: u64,
    pub observed_bytes: u64,
    pub hot_mark: u64,
}

/// A tracked connection: its key and its counters.
#[derive(Clone, Copy, Debug, PartialEq, Eq, Structural)]
pub struct ConnEntry {
    pub key: ConnKey,
    pub counters: TrackedCounters,
}

/// An address with all bits zero (`0.0.0.0` or `::`).
pub open spec fn unspecified(a: PeerAddr) -> bool {
    a.bits == 0
}

/// Whether an address is the unspecified address of its family.
pub fn is_unspecified_ip(a: PeerAddr) -> (r: bool)
    ensures
        r == unspecified(a),
{
    a.bits == 0
}

/// A socket counts as a listener when it is in the listening state or has
/// no remote address.
pub open spec fn listener(s: SocketSample) -> bool {
    s.state == TCP_LISTEN || unspecified(s.key.remote_ip)
}

/// Receive plus send queue, saturating.
pub open spec fn queue_of(s: SocketSample) -> u32 {
    s.recv_queue.saturating_add(s.send_queue)
}

/// The counters of a socket seen for the first time in batch `seq`.
pub open spec fn fresh(s: SocketSample, seq: u64) -> TrackedCounters {
    TrackedCounters {
        state: s.state,
        is_listener: listener(s),
        last_seen_seq: seq,
        seen_batches: 0,
        prev_segs_in: s.segs_in as u64,
        prev_segs_out: s.segs_out as u64,
        prev_bytes_in: s.bytes_in,
        prev_bytes_out: s.bytes_out,
        rtt_ms: s.rtt_us / 1000,
        queue_bytes: queue_of(s),
        observed_packets: 0,
        observed_bytes: 0,
        hot_mark: 0,
    }
}

/// Packets since the previous sample; zero on the first sample of a
/// connection and when no time has passed.
pub open spec fn packet_delta(c: TrackedCounters, s: SocketSample, timed: bool) -> int {
    if c.seen_batches > 0 && timed {
        (s.segs_in as u64).saturating_sub(c.prev_segs_in) + (s.segs_out as u64).saturating_sub(
            c.prev_segs_out,
        )
    } else {
        0
    }
}

/// Bytes since the previous sample, under the same rule.
pub open spec fn byte_delta(c: TrackedCounters, s: SocketSample, timed: bool) -> int {
    if c.seen_batches > 0 && timed {
        s.bytes_in.saturating_sub(c.prev_bytes_in) + s.bytes_out.saturating_sub(c.prev_bytes_out)
    } else {
        0
    }
}

/// The counters after a sample in batch `seq`. Whether the connection is a
/// listener and when it was last hot stay as they were.
pub open spec fn observed(c: TrackedCounters, s: SocketSample, seq: u64, timed: bool) -> TrackedCounters {
    TrackedCounters {
        state: s.state,
        is_listener: c.is_listener,
        last_seen_seq: seq,
        seen_batches: (c.seen_batches + 1) as u64,
        prev_segs_in: s.segs_in as u64,
        prev_segs_out: s.segs_out as u64,
        prev_bytes_in: s.bytes_in,
        prev_bytes_out: s.bytes_out,
        rtt_ms: s.rtt_us / 1000,
        queue_bytes: queue_of(s),
        observed_packets: c.observed_packets.saturating_add(packet_delta(c, s, timed) as u64),
        observed_bytes: c.observed_bytes.saturating_add(byte_delta(c, s, timed) as u64),
        hot_mark: c.hot_mark,
    }
}

/// The counters of a socket seen for the first time.
pub fn fresh_counters(s: &SocketSample, seq: u64) -> (r: TrackedCounters)
    ensures
        r == fresh(*s, seq),
{
    TrackedCounters {
        state: s.state,
        is_listener: s.state == TCP_LISTEN || is_unspecified_ip(s.key.remote_ip),
        last_seen_seq: seq,
        seen_batches: 0,
        prev_segs_in: s.segs_in as u64,
        prev_segs_out: s.segs_out as u64,
        prev_bytes_in: s.bytes_in,
        prev_bytes_out: s.bytes_out,
        rtt_ms: s.rtt_us / 1000,
        queue_bytes: s.recv_queue.saturating_add(s.send_queue),
        observed_packets: 0,
        observed_bytes: 0,
        hot_mark: 0,
    }
}

/// Takes one sample into a connection's counters, returning the new
/// counters and the packet and byte deltas.
pub fn observe_counters(c: &TrackedCounters, s: &SocketSample, seq: u64, timed: bool) -> (r: (
    TrackedCounters,
    u64,
    u64,
))
    requires
        c.seen_batches < u64::MAX,
        s.bytes_in + s.bytes_out <= u64::MAX,
    ensures
        r.0 == observed(*c, *s, seq, timed),
        r.1 == packet_delta(*c, *s, timed),
        r.2 == byte_delta(*c, *s, timed),
{
    let (dp, db): (u64, u64) = if c.seen_batches > 0 && timed {
        let p = (s.segs_in as u64).saturating_sub(c.prev_segs_in) + (s.segs_out as u64).saturating_sub(
            c.prev_segs_out,
        );
        let b = s.bytes_in.saturating_sub(c.prev_bytes_in) + s.bytes_out.saturating_sub(
            c.prev_bytes_out,
        );
        (p, b)
    } else {
        (0, 0)
    };
    let next = TrackedCounters {
        state: s.state,
        is_listener: c.is_listener,
        last_seen_seq: seq,
        seen_batches: c.seen_batches + 1,
        prev_segs_in: s.segs_in as u64,
        prev_segs_out: s.segs_out as u64,
        prev_bytes_in: s.bytes_in,
        prev_bytes_out: s.bytes_out,
        rtt_ms: s.rtt_us / 1000,
        queue_bytes: s.recv_queue.saturating_add(s.send_queue),
        observed_packets: c.observed_packets.saturating_add(dp),
        observed_bytes: c.observed_bytes.saturating_add(db),
        hot_mark: c.hot_mark,
    };
    (next, dp, db)
}

// ───────────────────────────── the table ─────────────────────────────

/// No two entries share a key.
pub open spec fn keys_distinct(es: Seq<ConnEntry>) -> bool {
    forall|i: int, j: int| 0 <= i < j < es.len() ==> es[i].key != es[j].key
}

/// Some entry has key `k`.
pub open spec fn has_key(es: Seq<ConnEntry>, k: ConnKey) -> bool {
    exists|i: int| 0 <= i < es.len() && es[i].key == k
}

/// The position of the entry with key `k`.
pub open spec fn key_index(es: Seq<ConnEntry>, k: ConnKey) -> int {
    choose|i: int| 0 <= i < es.len() && es[i].key == k
}

/// The counters a sample starts from: those tracked under its key, or
/// those of a new connection.
pub open spec fn base_counters(es: Seq<ConnEntry>, s: SocketSample, seq: u64) -> TrackedCounters {
    if has_key(es, s.key) {
        es[key_index(es, s.key)].counters
    } else {
        fresh(s, seq)
    }
}

/// The table after one sample of batch `seq`: the entry under the sample's
/// key is updated in place, or a new entry is appended.
pub open spec fn step(es: Seq<ConnEntry>, s: SocketSample, seq: u64, timed: bool) -> Seq<ConnEntry> {
    let e = ConnEntry { key: s.key, counters: observed(base_counters(es, s, seq), s, seq, timed) };
    if has_key(es, s.key) {
        es.update(key_index(es, s.key), e)
    } else {
        es.push(e)
    }
}

/// The table after a run of samples, in order.
pub open spec fn steps(es: Seq<ConnEntry>, samples: Seq<SocketSample>, seq: u64, timed: bool) -> Seq<ConnEntry>
    decreases samples.len(),
{
    if samples.len() == 0 {
        es
    } else {
        step(steps(es, samples.drop_last(), seq, timed), samples.last(), seq, timed)
    }
}

/// What a batch says about one of its samples.
#[derive(Clone, Copy, Debug, PartialEq, Eq, Structural)]
pub struct SampleOutcome {
    /// Where the sample's connection stands in the table.
    pub index: usize,
    /// The connection is new and not a listener: an open event is due.
    pub opened: bool,
    pub delta_packets: u64,
    pub delta_bytes: u64,
}

/// The outcome of a sample taken into table `es`.
pub open spec fn outcome_of(es: Seq<ConnEntry>, s: SocketSample, seq: u64, timed: bool) -> SampleOutcome {
    SampleOutcome {
        index: (if has_key(es, s.key) { key_index(es, s.key) } else { es.len() as int }) as usize,
        opened: !has_key(es, s.key) && !listener(s),
        delta_packets: packet_delta(base_counters(es, s, seq), s, timed) as u64,
        delta_bytes: byte_delta(base_counters(es, s, seq), s, timed) as u64,
    }
}

/// With distinct keys, the entry found with key `k` is the one `key_index` names.
pub proof fn lemma_key_index(es: Seq<ConnEntry>, i: int)
    requires
        keys_distinct(es),
        0 <= i < es.len(),
    ensures
        has_key(es, es[i].key),
        key_index(es, es[i].key) == i,
{
    let k = es[i].key;
    assert(has_key(es, k));
    let j = key_index(es, k);
    if j < i {
        assert(es[j].key != es[i].key);
    } else if j > i {
        assert(es[i].key != es[j].key);
    }
}

/// A step keeps keys distinct and adds exactly the sample's key.
pub proof fn lemma_step(es: Seq<ConnEntry>, s: SocketSample, seq: u64, timed: bool)
    requires
        keys_distinct(es),
    ensures
        keys_distinct(step(es, s, seq, timed)),
        forall|k: ConnKey| has_key(step(es, s, seq, timed), k) <==> (has_key(es, k) || k == s.key),
        step(es, s, seq, timed).len() == es.len() + (if has_key(es, s.key) { 0int } else { 1int }),
{
    let r = step(es, s, seq, timed);
    if has_key(es, s.key) {
        let i = key_index(es, s.key);
        assert(r.len() == es.len());
        assert forall|a: int, b: int| 0 <= a < b < r.len() implies r[a].key != r[b].key by {
            assert(es[i].key == s.key);
        }
        assert forall|k: ConnKey| has_key(r, k) <==> (has_key(es, k) || k == s.key) by {
            if has_key(es, k) {
                let j = choose|j: int| 0 <= j < es.len() && es[j].key == k;
                assert(r[j].key == k);
            }
            if has_key(r, k) {
                let j = choose|j: int| 0 <= j < r.len() && r[j].key == k;
                assert(es[j].key == k || j == i);
            }
            if k == s.key {
                assert(r[i].key == k);
            }
        }
    } else {
        assert forall|a: int, b: int| 0 <= a < b < r.len() implies r[a].key != r[b].key by {
            if b == es.len() {
                assert(!(es[a].key == s.key));
            }
        }
        assert forall|k: ConnKey| has_key(r, k) <==> (has_key(es, k) || k == s.key) by {
            if has_key(es, k) {
                let j = choose|j: int| 0 <= j < es.len() && es[j].key == k;
                assert(r[j].key == k);
            }
            if has_key(r, k) {
                let j = choose|j: int| 0 <= j < r.len() && r[j].key == k;
                if j < es.len() {
                    assert(es[j].key == k);
                }
            }
            if k == s.key {
                assert(r[es.len() as int].key == k);
            }
        }
    }
}

/// The steps over the first `j + 1` samples are one step past the first `j`.
pub proof fn lemma_steps_take(es: Seq<ConnEntry>, samples: Seq<SocketSample>, j: int, seq: u64, timed: bool)
    requires
        0 <= j < samples.len(),
    ensures
        steps(es, samples.take(j + 1), seq, timed) == step(steps(es, samples.take(j), seq, timed), samples[j], seq, timed),
{
    assert(samples.take(j + 1).drop_last() =~= samples.take(j));
    assert(samples.take(j + 1).last() == samples[j]);
}

/// Whether some sample of the batch has key `k`.
pub open spec fn sampled(samples: Seq<SocketSample>, k: ConnKey) -> bool {
    exists|j: int| 0 <= j < samples.len() && samples[j].key == k
}

/// The entries seen in batch `seq`, in order.
pub open spec fn kept(es: Seq<ConnEntry>, seq: u64) -> Seq<ConnEntry>
    decreases es.len(),
{
    if es.len() == 0 {
        es
    } else if es.last().counters.last_seen_seq == seq {
        kept(es.drop_last(), seq).push(es.last())
    } else {
        kept(es.drop_last(), seq)
    }
}

/// The entries not seen in batch `seq`, in order.
pub open spec fn dropped(es: Seq<ConnEntry>, seq: u64) -> Seq<ConnEntry>
    decreases es.len(),
{
    if es.len() == 0 {
        es
    } else if es.last().counters.last_seen_seq != seq {
        dropped(es.drop_last(), seq).push(es.last())
    } else {
        dropped(es.drop_last(), seq)
    }
}

/// Whether a connection gets hot now: it is not a listener, its packet rate
/// reached the threshold, and more than twenty batches passed since it was
/// last hot.
pub open spec fn hot_now(c: TrackedCounters, fast: bool, seq: u64) -> bool {
    !c.is_listener && fast && seq > c.hot_mark + 20
}

/// The steps over a batch keep keys distinct, track exactly the keys seen
/// before or sampled, and stamp exactly the sampled entries with `seq`.
pub proof fn lemma_steps(es: Seq<ConnEntry>, samples: Seq<SocketSample>, seq: u64, timed: bool)
    requires
        keys_distinct(es),
        forall|i: int| 0 <= i < es.len() ==> #[trigger] es[i].counters.last_seen_seq != seq,
    ensures
        keys_distinct(steps(es, samples, seq, timed)),
        forall|k: ConnKey| #[trigger] has_key(steps(es, samples, seq, timed), k) <==> (has_key(es, k) || sampled(samples, k)),
        forall|i: int|
            0 <= i < steps(es, samples, seq, timed).len() ==> (#[trigger] steps(es, samples, seq, timed)[i].counters.last_seen_seq
                == seq <==> sampled(samples, steps(es, samples, seq, timed)[i].key)),
    decreases samples.len(),
{
    if samples.len() > 0 {
        let prev = samples.drop_last();
        let s = samples.last();
        lemma_steps(es, prev, seq, timed);
        let b = steps(es, prev, seq, timed);
        lemma_step(b, s, seq, timed);
        let r = steps(es, samples, seq, timed);
        assert(r == step(b, s, seq, timed));
        assert forall|k: ConnKey| sampled(samples, k) <==> (sampled(prev, k) || k == s.key) by {
            if sampled(samples, k) {
                let j = choose|j: int| 0 <= j < samples.len() && samples[j].key == k;
                if j < prev.len() {
                    assert(prev[j] == samples[j]);
                }
            }
            if sampled(prev, k) {
                let j = choose|j: int| 0 <= j < prev.len() && prev[j].key == k;
                assert(samples[j] == prev[j]);
            }
            if k == s.key {
                assert(samples[samples.len() - 1] == s);
            }
        }
        assert forall|k: ConnKey| #[trigger] has_key(r, k) <==> (has_key(es, k) || sampled(samples, k)) by {
            assert(has_key(r, k) <==> (has_key(b, k) || k == s.key));
            assert(has_key(b, k) <==> (has_key(es, k) || sampled(prev, k)));
            assert(sampled(samples, k) <==> (sampled(prev, k) || k == s.key));
        }
        assert forall|i: int| 0 <= i < r.len() implies (#[trigger] r[i].counters.last_seen_seq == seq <==> sampled(
            samples,
            r[i].key,
        )) by {
            if has_key(b, s.key) {
                let x = key_index(b, s.key);
                if i != x {
                    assert(r[i] == b[i]);
                    assert(b[x].key == s.key);
                }
            } else {
                if i < b.len() {
                    assert(r[i] == b[i]);
                    assert(b[i].key != s.key);
                }
            }
        }
    }
}

/// Some entry with key `k` was seen in batch `seq`.
pub open spec fn stamped(es: Seq<ConnEntry>, k: ConnKey, seq: u64) -> bool {
    exists|i: int| 0 <= i < es.len() && es[i].key == k && es[i].counters.last_seen_seq == seq
}

/// The entries kept for batch `seq` are exactly those stamped with it, and
/// their keys stay distinct.
pub proof fn lemma_kept(es: Seq<ConnEntry>, seq: u64)
    requires
        keys_distinct(es),
    ensures
        keys_distinct(kept(es, seq)),
        forall|k: ConnKey| #[trigger] has_key(kept(es, seq), k) <==> stamped(es, k, seq),
        forall|i: int| 0 <= i < kept(es, seq).len() ==> #[trigger] kept(es, seq)[i].counters.last_seen_seq == seq,
    decreases es.len(),
{
    if es.len() > 0 {
        let d = es.drop_last();
        assert(keys_distinct(d)) by {
            assert forall|a: int, b: int| 0 <= a < b < d.len() implies d[a].key != d[b].key by {
                assert(d[a] == es[a] && d[b] == es[b]);
            }
        }
        lemma_kept(d, seq);
        let kd = kept(d, seq);
        let x = es.last();
        assert forall|k: ConnKey|
            #[trigger] stamped(es, k, seq) <==> (stamped(d, k, seq) || (x.key == k && x.counters.last_seen_seq == seq)) by {
            if exists|i: int| 0 <= i < es.len() && es[i].key == k && es[i].counters.last_seen_seq == seq {
                let i = choose|i: int| 0 <= i < es.len() && es[i].key == k && es[i].counters.last_seen_seq == seq;
                if i < d.len() {
                    assert(d[i] == es[i]);
                }
            }
            if exists|i: int| 0 <= i < d.len() && d[i].key == k && d[i].counters.last_seen_seq == seq {
                let i = choose|i: int| 0 <= i < d.len() && d[i].key == k && d[i].counters.last_seen_seq == seq;
                assert(es[i] == d[i]);
            }
            if x.key == k && x.counters.last_seen_seq == seq {
                assert(es[es.len() - 1] == x);
            }
        }
        if x.counters.last_seen_seq == seq {
            let r = kd.push(x);
            assert(kept(es, seq) == r);
            assert forall|a: int, b: int| 0 <= a < b < r.len() implies r[a].key != r[b].key by {
                if b == kd.len() {
                    if r[a].key == x.key {
                        assert(has_key(kd, x.key));
                        let i = choose|i: int| 0 <= i < d.len() && d[i].key == x.key && d[i].counters.last_seen_seq == seq;
                        assert(es[i].key != es[es.len() - 1].key);
                    }
                }
            }
            assert forall|k: ConnKey| #[trigger] has_key(r, k) <==> (has_key(kd, k) || x.key == k) by {
                if has_key(kd, k) {
                    let j = choose|j: int| 0 <= j < kd.len() && kd[j].key == k;
                    assert(r[j] == kd[j]);
                }
                if has_key(r, k) {
                    let j = choose|j: int| 0 <= j < r.len() && r[j].key == k;
                    if j < kd.len() {
                        assert(kd[j] == r[j]);
                    }
                }
                if x.key == k {
                    assert(r[kd.len() as int] == x);
                }
            }
        }
    }
}

/// After a batch and the pruning that follows it, the table tracks exactly
/// the connections the batch reported, each of them once.
pub proof fn batch_tracks_exactly_sampled(es: Seq<ConnEntry>, samples: Seq<SocketSample>, seq: u64, timed: bool)
    requires
        keys_distinct(es),
        forall|i: int| 0 <= i < es.len() ==> #[trigger] es[i].counters.last_seen_seq < seq,
    ensures
        keys_distinct(kept(steps(es, samples, seq, timed), seq)),
        forall|k: ConnKey| #[trigger] has_key(kept(steps(es, samples, seq, timed), seq), k) <==> sampled(samples, k),
{
    let t = steps(es, samples, seq, timed);
    lemma_steps(es, samples, seq, timed);
    lemma_kept(t, seq);
    assert forall|k: ConnKey| #[trigger] has_key(kept(t, seq), k) <==> sampled(samples, k) by {
        if stamped(t, k, seq) {
            let i = choose|i: int| 0 <= i < t.len() && t[i].key == k && t[i].counters.last_seen_seq == seq;
            assert(sampled(samples, t[i].key));
        }
        if sampled(samples, k) {
            assert(has_key(t, k));
            let i = choose|i: int| 0 <= i < t.len() && t[i].key == k;
            assert(t[i].counters.last_seen_seq == seq);
            assert(stamped(t, k, seq));
        }
    }
}

/// One of the first `n` keys is `k`.
pub open spec fn listed(keys: Seq<ConnKey>, n: int, k: ConnKey) -> bool {
    exists|j: int| 0 <= j < n && keys[j] == k
}

/// Some entry of `es` is `e`.
pub open spec fn holds(es: Seq<ConnEntry>, e: ConnEntry) -> bool {
    exists|i: int| 0 <= i < es.len() && es[i] == e
}

/// Where the entry with key `k` stands, if any.
pub fn find_key(es: &Vec<ConnEntry>, k: &ConnKey) -> (r: Option<usize>)
    requires
        keys_distinct(es@),
    ensures
        r is None <==> !has_key(es@, *k),
        r matches Some(i) ==> i < es.len() && es@[i as int].key == *k && key_index(es@, *k) == i,
{
    let mut i: usize = 0;
    while i < es.len()
        invariant
            i <= es.len(),
            keys_distinct(es@),
            forall|m: int| 0 <= m < i ==> es@[m].key != *k,
        decreases es.len() - i,
    {
        if es[i].key == *k {
            proof {
                lemma_key_index(es@, i as int);
            }
            return Some(i);
        }
        i += 1;
    }
    None
}

/// The connection table with its batch counters.
pub struct Tracker {
    /// The number of the latest batch (or removal).
    pub seq: u64,
    /// How many sampling batches were taken in.
    pub batches: u64,
    /// How many sockets the latest batch reported.
    pub last_batch_size: usize,
    pub connections: Vec<ConnEntry>,
}

impl Tracker {
    /// The table's invariant: each connection is tracked once.
    pub open spec fn wf(&self) -> bool {
        &&& keys_distinct(self.connections@)
        &&& forall|i: int|
            0 <= i < self.connections@.len() ==> #[trigger] self.connections@[i].counters.last_seen_seq <= self.seq
    }

    /// An empty table before any batch.
    pub fn new() -> (r: Tracker)
        ensures
            r.wf(),
            r.seq == 0,
            r.batches == 0,
            r.last_batch_size == 0,
            r.connections@ == Seq::<ConnEntry>::empty(),
    {
        Tracker { seq: 0, batches: 0, last_batch_size: 0, connections: Vec::new() }
    }

    /// Takes in a sampling batch: opens a new batch number, then updates or
    /// adds the connection of each sample in turn. `timed` says whether time
    /// has passed since the previous batch. Returns, for each sample, where
    /// its connection stands, whether it is a newly seen flow, and its deltas.
    pub fn observe_batch(&mut self, samples: &[SocketSample], timed: bool) -> (r: Vec<SampleOutcome>)
        requires
            old(self).wf(),
            old(self).seq < u64::MAX,
            old(self).batches < u64::MAX,
            forall|i: int|
                0 <= i < old(self).connections@.len() ==> #[trigger] old(self).connections@[i].counters.seen_batches
                    + samples@.len() <= u64::MAX,
            forall|j: int| 0 <= j < samples@.len() ==> #[trigger] samples@[j].bytes_in + samples@[j].bytes_out <= u64::MAX,
        ensures
            final(self).wf(),
            final(self).seq == old(self).seq + 1,
            final(self).batches == old(self).batches + 1,
            final(self).last_batch_size == samples@.len(),
            final(self).connections@ == steps(old(self).connections@, samples@, final(self).seq, timed),
            r@.len() == samples@.len(),
            forall|j: int|
                0 <= j < samples@.len() ==> #[trigger] r@[j] == outcome_of(
                    steps(old(self).connections@, samples@.take(j), final(self).seq, timed),
                    samples@[j],
                    final(self).seq,
                    timed,
                ),
    {
        self.seq = self.seq + 1;
        self.batches = self.batches + 1;
        self.last_batch_size = samples.len();
        let seq = self.seq;
        let ghost start = self.connections@;
        assert forall|i: int| 0 <= i < start.len() implies #[trigger] start[i].counters.last_seen_seq <= seq by {
            assert(old(self).connections@[i] == start[i]);
        }
        let ghost bound: int = u64::MAX - samples@.len();
        let mut out: Vec<SampleOutcome> = Vec::new();
        let mut j: usize = 0;
        assert(samples@.take(0) =~= Seq::<SocketSample>::empty());
        while j < samples.len()
            invariant
                j <= samples@.len(),
                self.seq == seq,
                self.batches == old(self).batches + 1,
                self.last_batch_size == samples@.len(),
                keys_distinct(self.connections@),
                forall|i: int|
                    0 <= i < self.connections@.len() ==> #[trigger] self.connections@[i].counters.last_seen_seq <= seq,
                self.connections@ == steps(start, samples@.take(j as int), seq, timed),
                forall|i: int|
                    0 <= i < self.connections@.len() ==> #[trigger] self.connections@[i].counters.seen_batches
                        <= bound + j,
                bound == u64::MAX - samples@.len(),
                forall|jj: int| 0 <= jj < samples@.len() ==> #[trigger] samples@[jj].bytes_in + samples@[jj].bytes_out <= u64::MAX,
                out@.len() == j,
                forall|m: int|
                    0 <= m < j ==> #[trigger] out@[m] == outcome_of(steps(start, samples@.take(m), seq, timed), samples@[m], seq, timed),
            decreases samples@.len() - j,
        {
            let s = samples[j];
            let ghost before = self.connections@;
            proof {
                lemma_steps_take(start, samples@, j as int, seq, timed);
                lemma_step(before, s, seq, timed);
            }
            let found = find_key(&self.connections, &s.key);
            match found {
                Some(i) => {
                    let c = self.connections[i].counters;
                    assert(c.seen_batches <= bound + j);
                    let (next, dp, db) = observe_counters(&c, &s, seq, timed);
                    self.connections.set(i, ConnEntry { key: s.key, counters: next });
                    out.push(SampleOutcome { index: i, opened: false, delta_packets: dp, delta_bytes: db });
                },
                None => {
                    let c = fresh_counters(&s, seq);
                    let (next, dp, db) = observe_counters(&c, &s, seq, timed);
                    let idx = self.connections.len();
                    self.connections.push(ConnEntry { key: s.key, counters: next });
                    out.push(SampleOutcome { index: idx, opened: !c.is_listener, delta_packets: dp, delta_bytes: db });
                },
            }
            proof {
                assert(self.connections@ == step(before, s, seq, timed));
                assert forall|i: int| 0 <= i < self.connections@.len() implies #[trigger] self.connections@[i].counters.seen_batches
                    <= bound + j + 1 by {
                    if i < before.len() && !(has_key(before, s.key) && i == key_index(before, s.key)) {
                        assert(self.connections@[i] == before[i]);
                    }
                }
                assert forall|i: int| 0 <= i < self.connections@.len() implies #[trigger] self.connections@[i].counters.last_seen_seq
                    <= seq by {
                    if i < before.len() && !(has_key(before, s.key) && i == key_index(before, s.key)) {
                        assert(self.connections@[i] == before[i]);
                    }
                }
            }
            j += 1;
        }
        assert(samples@.take(samples@.len() as int) =~= samples@);
        out
    }

    /// The hot check for the connection at `index`, given whether its packet
    /// rate reached the threshold. A hot connection's mark moves to the
    /// current batch, so a hot event comes at most once every twenty batches.
    pub fn mark_hot(&mut self, index: usize, fast: bool) -> (r: bool)
        requires
            old(self).wf(),
            index < old(self).connections@.len(),
        ensures
            final(self).wf(),
            final(self).seq == old(self).seq,
            final(self).batches == old(self).batches,
            final(self).last_batch_size == old(self).last_batch_size,
            r == hot_now(old(self).connections@[index as int].counters, fast, old(self).seq),
            final(self).connections@ == (if r {
                old(self).connections@.update(
                    index as int,
                    ConnEntry {
                        key: old(self).connections@[index as int].key,
                        counters: TrackedCounters {
                            hot_mark: old(self).seq,
                            ..old(self).connections@[index as int].counters
                        },
                    },
                )
            } else {
                old(self).connections@
            }),
    {
        let e = self.connections[index];
        let hot = !e.counters.is_listener && fast && self.seq > 20 && self.seq - 20 > e.counters.hot_mark;
        if hot {
            let counters = TrackedCounters { hot_mark: self.seq, ..e.counters };
            self.connections.set(index, ConnEntry { key: e.key, counters });
            proof {
                let o = old(self).connections@;
                assert forall|a: int, b: int| 0 <= a < b < self.connections@.len() implies self.connections@[a].key
                    != self.connections@[b].key by {
                    assert(self.connections@[a].key == o[a].key && self.connections@[b].key == o[b].key);
                }
                assert forall|i: int| 0 <= i < self.connections@.len() implies #[trigger] self.connections@[i].counters.last_seen_seq
                    <= self.seq by {
                    assert(self.connections@[i].counters.last_seen_seq == o[i].counters.last_seen_seq);
                }
            }
        }
        hot
    }

    /// Lets go of every connection the latest batch did not report, and
    /// returns them in table order.
    pub fn remove_stale(&mut self) -> (r: Vec<ConnEntry>)
        requires
            old(self).wf(),
        ensures
            final(self).wf(),
            final(self).seq == old(self).seq,
            final(self).batches == old(self).batches,
            final(self).last_batch_size == old(self).last_batch_size,
            final(self).connections@ == kept(old(self).connections@, old(self).seq),
            r@ == dropped(old(self).connections@, old(self).seq),
    {
        let seq = self.seq;
        let mut keep: Vec<ConnEntry> = Vec::new();
        let mut gone: Vec<ConnEntry> = Vec::new();
        let mut i: usize = 0;
        let ghost es = self.connections@;
        assert(es.take(0) =~= Seq::<ConnEntry>::empty());
        while i < self.connections.len()
            invariant
                es == self.connections@,
                i <= es.len(),
                keep@ == kept(es.take(i as int), seq),
                gone@ == dropped(es.take(i as int), seq),
            decreases es.len() - i,
        {
            let e = self.connections[i];
            proof {
                assert(es.take(i + 1).drop_last() =~= es.take(i as int));
                assert(es.take(i + 1).last() == e);
            }
            if e.counters.last_seen_seq == seq {
                keep.push(e);
            } else {
                gone.push(e);
            }
            i += 1;
        }
        proof {
            assert(es.take(es.len() as int) =~= es);
            lemma_kept(es, seq);
        }
        self.connections = keep;
        gone
    }

    /// Lets go of the connections whose destruction was reported, returning
    /// those that were tracked. When any was, a new batch number is taken.
    pub fn apply_destroyed(&mut self, keys: &[ConnKey]) -> (r: Vec<ConnEntry>)
        requires
            old(self).wf(),
            old(self).seq < u64::MAX || forall|j: int|
                0 <= j < keys@.len() ==> !has_key(old(self).connections@, #[trigger] keys@[j]),
        ensures
            final(self).wf(),
            final(self).batches == old(self).batches,
            final(self).last_batch_size == old(self).last_batch_size,
            r@.len() > 0 <==> exists|j: int| 0 <= j < keys@.len() && has_key(old(self).connections@, #[trigger] keys@[j]),
            final(self).seq == old(self).seq + (if r@.len() > 0 { 1int } else { 0int }),
            forall|k: ConnKey|
                #[trigger] has_key(final(self).connections@, k) <==> (has_key(old(self).connections@, k) && !listed(
                    keys@,
                    keys@.len() as int,
                    k,
                )),
            forall|i: int| 0 <= i < final(self).connections@.len() ==> holds(old(self).connections@, #[trigger] final(self).connections@[i]),
            forall|i: int|
                0 <= i < r@.len() ==> holds(old(self).connections@, #[trigger] r@[i]) && listed(keys@, keys@.len() as int, r@[i].key),
            forall|k: ConnKey|
                has_key(old(self).connections@, k) && listed(keys@, keys@.len() as int, k) ==> #[trigger] has_key(r@, k),
    {
        let ghost o = self.connections@;
        let mut removed: Vec<ConnEntry> = Vec::new();
        let mut j: usize = 0;
        while j < keys.len()
            invariant
                self.wf(),
                self.seq == old(self).seq,
                self.batches == old(self).batches,
                self.last_batch_size == old(self).last_batch_size,
                o == old(self).connections@,
                j <= keys@.len(),
                forall|k: ConnKey| #[trigger] has_key(self.connections@, k) <==> (has_key(o, k) && !listed(keys@, j as int, k)),
                forall|i: int| 0 <= i < self.connections@.len() ==> holds(o, #[trigger] self.connections@[i]),
                forall|i: int| 0 <= i < removed@.len() ==> holds(o, #[trigger] removed@[i]) && listed(keys@, j as int, removed@[i].key),
                forall|k: ConnKey| has_key(o, k) && listed(keys@, j as int, k) ==> #[trigger] has_key(removed@, k),
                removed@.len() > 0 <==> exists|m: int| 0 <= m < j && has_key(o, #[trigger] keys@[m]),
            decreases keys@.len() - j,
        {
            let k = keys[j];
            let ghost before = self.connections@;
            let ghost rbefore = removed@;
            let gone = self.remove_connection(&k);
            proof {
                assert forall|kk: ConnKey| listed(keys@, j + 1, kk) <==> (listed(keys@, j as int, kk) || kk == k) by {
                    if listed(keys@, j + 1, kk) {
                        let m = choose|m: int| 0 <= m < j + 1 && keys@[m] == kk;
                        if m < j {
                            assert(listed(keys@, j as int, kk));
                        }
                    }
                    if listed(keys@, j as int, kk) {
                        let m = choose|m: int| 0 <= m < j && keys@[m] == kk;
                        assert(keys@[m] == kk);
                    }
                    if kk == k {
                        assert(keys@[j as int] == kk);
                    }
                }
            }
            match gone {
                Some(e) => {
                    removed.push(e);
                    proof {
                        let x = key_index(before, k);
                        assert(holds(before, before[x]));
                        let bi = choose|i: int| 0 <= i < before.len() && before[i] == before[x];
                        assert(before[bi] == before[x]);
                        assert(holds(o, before[x]));
                        assert(before[x].key == k);
                        assert forall|i: int| 0 <= i < self.connections@.len() implies holds(o, #[trigger] self.connections@[i]) by {
                            let n = self.connections@;
                            if i < x {
                                assert(n[i] == before[i]);
                                assert(holds(before, before[i]));
                            } else {
                                assert(n[i] == before[i + 1]);
                                assert(holds(before, before[i + 1]));
                            }
                        }
                        assert forall|kk: ConnKey| has_key(o, kk) && listed(keys@, j + 1, kk) implies #[trigger] has_key(removed@, kk) by {
                            if listed(keys@, j as int, kk) {
                                assert(has_key(rbefore, kk));
                                let m = choose|m: int| 0 <= m < rbefore.len() && rbefore[m].key == kk;
                                assert(removed@[m] == rbefore[m]);
                            } else {
                                assert(removed@[rbefore.len() as int].key == kk);
                            }
                        }
                        assert forall|i: int| 0 <= i < removed@.len() implies holds(o, #[trigger] removed@[i]) && listed(keys@, j + 1, removed@[i].key) by {
                            if i < rbefore.len() {
                                assert(removed@[i] == rbefore[i]);
                            }
                        }
                        assert(has_key(o, keys@[j as int]));
                    }
                },
                None => {
                    proof {
                        assert forall|kk: ConnKey| has_key(o, kk) && listed(keys@, j + 1, kk) implies #[trigger] has_key(removed@, kk) by {
                            if !listed(keys@, j as int, kk) {
                                assert(kk == k);
                                assert(!has_key(before, k));
                            }
                        }
                        assert(!has_key(o, keys@[j as int]) || listed(keys@, j as int, k));
                        if has_key(o, keys@[j as int]) {
                            let m = choose|m: int| 0 <= m < j && keys@[m] == k;
                            assert(has_key(o, keys@[m]));
                        }
                    }
                },
            }
            j += 1;
        }
        if removed.len() > 0 {
            self.seq = self.seq + 1;
            proof {
                assert forall|i: int| 0 <= i < self.connections@.len() implies #[trigger] self.connections@[i].counters.last_seen_seq
                    <= self.seq by {
                }
            }
        }
        removed
    }

    /// Lets go of the connection with key `key`, returning it if it was tracked.
    pub fn remove_connection(&mut self, key: &ConnKey) -> (r: Option<ConnEntry>)
        requires
            old(self).wf(),
        ensures
            final(self).wf(),
            final(self).seq == old(self).seq,
            final(self).batches == old(self).batches,
            final(self).last_batch_size == old(self).last_batch_size,
            r is None <==> !has_key(old(self).connections@, *key),
            r is None ==> final(self).connections@ == old(self).connections@,
            r matches Some(e) ==> e == old(self).connections@[key_index(old(self).connections@, *key)]
                && final(self).connections@ == old(self).connections@.remove(key_index(old(self).connections@, *key)),
            !has_key(final(self).connections@, *key),
            forall|k: ConnKey| k != *key ==> (has_key(final(self).connections@, k) <==> has_key(old(self).connections@, k)),
    {
        let found = find_key(&self.connections, key);
        match found {
            Some(i) => {
                let ghost o = self.connections@;
                let e = self.connections.remove(i);
                proof {
                    let n = self.connections@;
                    assert forall|a: int, b: int| 0 <= a < b < n.len() implies n[a].key != n[b].key by {
                        if a < i {
                            if b < i {
                                assert(n[a] == o[a] && n[b] == o[b]);
                            } else {
                                assert(n[a] == o[a] && n[b] == o[b + 1]);
                            }
                        } else {
                            assert(n[a] == o[a + 1] && n[b] == o[b + 1]);
                        }
                    }
                    assert forall|x: int| 0 <= x < n.len() implies #[trigger] n[x].counters.last_seen_seq <= self.seq by {
                        if x < i {
                            assert(n[x] == o[x]);
                        } else {
                            assert(n[x] == o[x + 1]);
                        }
                    }
                    assert forall|k: ConnKey| k != *key implies (has_key(n, k) <==> has_key(o, k)) by {
                        if has_key(o, k) {
                            let j = choose|j: int| 0 <= j < o.len() && o[j].key == k;
                            if j < i {
                                assert(n[j] == o[j]);
                            } else {
                                assert(j != i);
                                assert(n[j - 1] == o[j]);
                            }
                        }
                        if has_key(n, k) {
                            let j = choose|j: int| 0 <= j < n.len() && n[j].key == k;
                            if j < i {
                                assert(n[j] == o[j]);
                            } else {
                                assert(n[j] == o[j + 1]);
                            }
                        }
                    }
                    if has_key(n, *key) {
                        let j = choose|j: int| 0 <= j < n.len() && n[j].key == *key;
                        if j < i {
                            assert(n[j] == o[j]);
                            assert(o[j].key != o[i as int].key);
                        } else {
                            assert(n[j] == o[j + 1]);
                            assert(o[i as int].key != o[j + 1].key);
                        }
                    }
                }
                Some(e)
            },
            None => None,
        }
    }
}

// ───────────────────────────── state summary ─────────────────────────────

/// The TCP states of the tracked connections, in table order.
pub open spec fn states_of(es: Seq<ConnEntry>) -> Seq<u8> {
    es.map_values(|e: ConnEntry| e.counters.state)
}

/// How many of `states` go by the name `name`.
pub open spec fn name_count(states: Seq<u8>, name: Seq<char>) -> nat
    decreases states.len(),
{
    if states.len() == 0 {
        0
    } else {
        name_count(states.drop_last(), name) + if tcp_state_text(states.last()) == name {
            1nat
        } else {
            0nat
        }
    }
}

/// A name with its count sorts before another: a higher count first, then
/// the name that comes first.
pub open spec fn ranks_before(a: (Seq<char>, nat), b: (Seq<char>, nat)) -> bool {
    a.1 > b.1 || (a.1 == b.1 && seq_lt(a.0, b.0))
}

/// Some item carries the name `name`.
pub open spec fn names_item(items: Seq<(Seq<char>, nat)>, name: Seq<char>) -> bool {
    exists|i: int| 0 <= i < items.len() && items[i].0 == name
}

/// The items of a state summary: at most six names that occur, each with
/// its count, in ranking order, leaving out no name that ranks before one
/// listed; fewer than six only when every name is listed.
pub open spec fn summary_items_ok(states: Seq<u8>, items: Seq<(Seq<char>, nat)>) -> bool {
    &&& items.len() <= 6
    &&& forall|i: int| 0 <= i < items.len() ==> #[trigger] items[i].1 == name_count(states, items[i].0) && items[i].1 > 0
    &&& forall|i: int, j: int| 0 <= i < j < items.len() ==> ranks_before(#[trigger] items[i], #[trigger] items[j])
    &&& forall|name: Seq<char>|
        #![trigger name_count(states, name)]
        name_count(states, name) > 0 && !names_item(items, name) ==> items.len() == 6 && forall|i: int|
            0 <= i < items.len() ==> ranks_before(#[trigger] items[i], (name, name_count(states, name)))
}

/// One item as the summary shows it: the name, a space, the count.
pub open spec fn item_text(it: (Seq<char>, nat)) -> Seq<char> {
    it.0 + " "@ + dec(it.1)
}

/// The items shown in order, two spaces apart.
pub open spec fn joined(items: Seq<(Seq<char>, nat)>) -> Seq<char>
    decreases items.len(),
{
    if items.len() == 0 {
        Seq::empty()
    } else if items.len() == 1 {
        item_text(items[0])
    } else {
        joined(items.drop_last()) + "  "@ + item_text(items.last())
    }
}

/// Counting over one more state adds one to that state's name.
pub proof fn lemma_name_count_take(states: Seq<u8>, j: int, name: Seq<char>)
    requires
        0 <= j < states.len(),
    ensures
        name_count(states.take(j + 1), name) == name_count(states.take(j), name) + if tcp_state_text(states[j])
            == name {
            1int
        } else {
            0int
        },
{
    assert(states.take(j + 1).drop_last() =~= states.take(j));
}

/// No name counts more often than there are states.
pub proof fn lemma_name_count_bound(states: Seq<u8>, name: Seq<char>)
    ensures
        name_count(states, name) <= states.len(),
    decreases states.len(),
{
    if states.len() > 0 {
        lemma_name_count_bound(states.drop_last(), name);
    }
}

/// Ranking is transitive.
pub proof fn lemma_ranks_transitive(a: (Seq<char>, nat), b: (Seq<char>, nat), c: (Seq<char>, nat))
    requires
        ranks_before(a, b),
        ranks_before(b, c),
    ensures
        ranks_before(a, c),
{
    if a.1 == b.1 && b.1 == c.1 {
        lemma_lt_transitive(a.0, b.0, c.0);
    }
}

/// Of two different names, one ranks before the other.
pub proof fn lemma_ranks_total(a: (Seq<char>, nat), b: (Seq<char>, nat))
    requires
        a.0 != b.0,
    ensures
        ranks_before(a, b) || ranks_before(b, a),
{
    lemma_lt_total(a.0, b.0);
}

/// The views of the counted groups.
pub open spec fn group_views(gs: Seq<(Vec<char>, usize)>) -> Seq<(Seq<char>, nat)> {
    gs.map_values(|g: (Vec<char>, usize)| (g.0@, g.1 as nat))
}

/// Where the group named `name` stands, if any.
fn find_group(groups: &Vec<(Vec<char>, usize)>, name: &Vec<char>) -> (r: Option<usize>)
    ensures
        r is None ==> forall|m: int| 0 <= m < groups@.len() ==> group_views(groups@)[m].0 != name@,
        r matches Some(i) ==> i < groups@.len() && group_views(groups@)[i as int].0 == name@,
{
    let mut g: usize = 0;
    while g < groups.len()
        invariant
            g <= groups@.len(),
            forall|m: int| 0 <= m < g ==> group_views(groups@)[m].0 != name@,
        decreases groups@.len() - g,
    {
        if chars_eq(groups[g].0.as_slice(), name.as_slice()) {
            return Some(g);
        }
        g += 1;
    }
    None
}

/// Counts the connections by state name, each name once, in order of first
/// appearance.
fn count_states(es: &Vec<ConnEntry>) -> (r: Vec<(Vec<char>, usize)>)
    ensures
        forall|g: int| 0 <= g < r@.len() ==> #[trigger] group_views(r@)[g].1 == name_count(states_of(es@), group_views(r@)[g].0)
            && group_views(r@)[g].1 > 0,
        forall|a: int, b: int| 0 <= a < b < r@.len() ==> group_views(r@)[a].0 != group_views(r@)[b].0,
        forall|name: Seq<char>|
            #![trigger name_count(states_of(es@), name)]
            name_count(states_of(es@), name) > 0 ==> exists|g: int| 0 <= g < r@.len() && group_views(r@)[g].0 == name,
        es@.len() > 0 ==> r@.len() > 0,
        r@.len() <= es@.len(),
{
    let ghost st = states_of(es@);
    let mut groups: Vec<(Vec<char>, usize)> = Vec::new();
    let mut j: usize = 0;
    assert(st.take(0) =~= Seq::<u8>::empty());
    while j < es.len()
        invariant
            st == states_of(es@),
            j <= es@.len(),
            forall|g: int| 0 <= g < groups@.len() ==> #[trigger] group_views(groups@)[g].1 == name_count(st.take(j as int), group_views(groups@)[g].0)
                && group_views(groups@)[g].1 > 0,
            forall|a: int, b: int| 0 <= a < b < groups@.len() ==> group_views(groups@)[a].0 != group_views(groups@)[b].0,
            forall|name: Seq<char>|
                #![trigger name_count(st.take(j as int), name)]
                name_count(st.take(j as int), name) > 0 ==> exists|g: int| 0 <= g < groups@.len() && group_views(groups@)[g].0 == name,
            j > 0 ==> groups@.len() > 0,
            groups@.len() <= j,
        decreases es@.len() - j,
    {
        let name = chars_of(tcp_state_name(es[j].counters.state));
        proof {
            assert(st[j as int] == es@[j as int].counters.state);
            assert forall|n: Seq<char>| #[trigger] name_count(st.take(j + 1), n) == name_count(st.take(j as int), n) + if name@ == n { 1int } else { 0int } by {
                lemma_name_count_take(st, j as int, n);
            }
            lemma_name_count_bound(st.take(j as int), name@);
        }
        let ghost before = groups@;
        let found = find_group(&groups, &name);
        match found {
            Some(i) => {
                let c = groups[i].1;
                proof {
                    assert(group_views(before)[i as int].1 == c);
                    lemma_name_count_bound(st.take(j as int), name@);
                }
                groups.set(i, (name, c + 1));
                proof {
                    assert forall|g: int| 0 <= g < groups@.len() implies #[trigger] group_views(groups@)[g].1 == name_count(
                        st.take(j + 1),
                        group_views(groups@)[g].0,
                    ) && group_views(groups@)[g].1 > 0 by {
                        if g != i {
                            assert(group_views(groups@)[g] == group_views(before)[g]);
                        }
                    }
                    assert forall|a: int, b: int| 0 <= a < b < groups@.len() implies group_views(groups@)[a].0 != group_views(groups@)[b].0 by {
                        assert(group_views(groups@)[a].0 == group_views(before)[a].0);
                        assert(group_views(groups@)[b].0 == group_views(before)[b].0);
                    }
                    assert forall|n: Seq<char>|
                        #![trigger name_count(st.take(j + 1), n)]
                        name_count(st.take(j + 1), n) > 0 implies exists|g: int| 0 <= g < groups@.len() && group_views(groups@)[g].0 == n by {
                        if n == name@ {
                            assert(group_views(groups@)[i as int].0 == n);
                        } else {
                            assert(name_count(st.take(j as int), n) > 0);
                            let g = choose|g: int| 0 <= g < before.len() && group_views(before)[g].0 == n;
                            assert(group_views(groups@)[g].0 == n);
                        }
                    }
                }
            },
            None => {
                proof {
                    if name_count(st.take(j as int), name@) > 0 {
                        let g = choose|g: int| 0 <= g < before.len() && group_views(before)[g].0 == name@;
                        assert(false);
                    }
                }
                groups.push((name, 1));
                proof {
                    let n0 = groups@.len() - 1;
                    assert forall|g: int| 0 <= g < groups@.len() implies #[trigger] group_views(groups@)[g].1 == name_count(
                        st.take(j + 1),
                        group_views(groups@)[g].0,
                    ) && group_views(groups@)[g].1 > 0 by {
                        if g < n0 {
                            assert(group_views(groups@)[g] == group_views(before)[g]);
                        }
                    }
                    assert forall|a: int, b: int| 0 <= a < b < groups@.len() implies group_views(groups@)[a].0 != group_views(groups@)[b].0 by {
                        assert(group_views(groups@)[a] == group_views(before)[a]);
                        if b < n0 {
                            assert(group_views(groups@)[b] == group_views(before)[b]);
                        }
                    }
                    assert forall|n: Seq<char>|
                        #![trigger name_count(st.take(j + 1), n)]
                        name_count(st.take(j + 1), n) > 0 implies exists|g: int| 0 <= g < groups@.len() && group_views(groups@)[g].0 == n by {
                        if n == name@ {
                            assert(group_views(groups@)[n0].0 == n);
                        } else {
                            assert(name_count(st.take(j as int), n) > 0);
                            let g = choose|g: int| 0 <= g < before.len() && group_views(before)[g].0 == n;
                            assert(group_views(groups@)[g].0 == n);
                        }
                    }
                }
            },
        }
        j += 1;
    }
    assert(st.take(es@.len() as int) =~= st);
    groups
}

/// The untaken group that ranks before every other untaken group, if any
/// is left.
fn pick_best(groups: &Vec<(Vec<char>, usize)>, taken: &Vec<bool>) -> (r: Option<usize>)
    requires
        taken@.len() == groups@.len(),
        forall|a: int, b: int| 0 <= a < b < groups@.len() ==> group_views(groups@)[a].0 != group_views(groups@)[b].0,
    ensures
        r is None ==> forall|g: int| 0 <= g < taken@.len() ==> taken@[g],
        r matches Some(b) ==> b < groups@.len() && !taken@[b as int] && forall|g: int|
            0 <= g < groups@.len() && !taken@[g] && g != b ==> ranks_before(
                group_views(groups@)[b as int],
                #[trigger] group_views(groups@)[g],
            ),
{
    let ghost gv = group_views(groups@);
    let mut best: Option<usize> = None;
    let mut g: usize = 0;
    while g < groups.len()
        invariant
            gv == group_views(groups@),
            taken@.len() == groups@.len(),
            g <= groups@.len(),
            forall|a: int, b: int| 0 <= a < b < groups@.len() ==> gv[a].0 != gv[b].0,
            best is None ==> forall|m: int| 0 <= m < g ==> taken@[m],
            best matches Some(b) ==> b < g && !taken@[b as int] && forall|m: int|
                0 <= m < g && !taken@[m] && m != b ==> ranks_before(gv[b as int], #[trigger] gv[m]),
        decreases groups@.len() - g,
    {
        if !taken[g] {
            match best {
                None => {
                    best = Some(g);
                },
                Some(b) => {
                    let beats = groups[g].1 > groups[b].1 || (groups[g].1 == groups[b].1 && chars_lt(
                        groups[g].0.as_slice(),
                        groups[b].0.as_slice(),
                    ));
                    proof {
                        assert(beats == ranks_before(gv[g as int], gv[b as int]));
                    }
                    if beats {
                        proof {
                            assert forall|m: int| 0 <= m < g + 1 && !taken@[m] && m != g implies ranks_before(
                                gv[g as int],
                                #[trigger] gv[m],
                            ) by {
                                if m != b {
                                    lemma_ranks_transitive(gv[g as int], gv[b as int], gv[m]);
                                }
                            }
                        }
                        best = Some(g);
                    } else {
                        proof {
                            lemma_ranks_total(gv[g as int], gv[b as int]);
                        }
                    }
                },
            }
        }
        g += 1;
    }
    best
}

impl Tracker {
    /// The states line of the dashboard: each TCP state name with how many
    /// tracked connections are in it, most frequent first and alphabetical
    /// among equals, at most six, two spaces apart; `states idle` when no
    /// connection is tracked.
    pub fn state_summary(&self) -> (r: String)
        ensures
            self.connections@.len() == 0 ==> r@ == "states idle"@,
            self.connections@.len() > 0 ==> exists|items: Seq<(Seq<char>, nat)>|
                summary_items_ok(states_of(self.connections@), items) && r@ == joined(items),
    {
        let groups = count_states(&self.connections);
        if groups.len() == 0 {
            let idle = chars_of("states idle");
            return string_of(idle.as_slice());
        }
        let ghost gv = group_views(groups@);
        let ghost st = states_of(self.connections@);
        let n = groups.len();
        let mut taken: Vec<bool> = Vec::new();
        let mut t: usize = 0;
        while t < n
            invariant
                t <= n,
                taken@.len() == t,
                forall|g: int| 0 <= g < t ==> !taken@[g],
            decreases n - t,
        {
            taken.push(false);
            t += 1;
        }
        let mut picked: Vec<usize> = Vec::new();
        let mut done = false;
        while !done && picked.len() < 6
            invariant
                n == groups@.len(),
                gv == group_views(groups@),
                forall|a: int, b: int| 0 <= a < b < groups@.len() ==> gv[a].0 != gv[b].0,
                taken@.len() == n,
                picked@.len() <= 6,
                forall|i: int| 0 <= i < picked@.len() ==> #[trigger] picked@[i] < n && taken@[picked@[i] as int],
                forall|g: int| 0 <= g < n && #[trigger] taken@[g] ==> exists|i: int| 0 <= i < picked@.len() && picked@[i] == g,
                forall|i: int, g: int|
                    0 <= i < picked@.len() && 0 <= g < n && !taken@[g] ==> ranks_before(
                        #[trigger] gv[picked@[i] as int],
                        #[trigger] gv[g],
                    ),
                forall|i: int, j: int|
                    0 <= i < j < picked@.len() ==> ranks_before(#[trigger] gv[picked@[i] as int], #[trigger] gv[picked@[j] as int]),
                done ==> forall|g: int| 0 <= g < n ==> taken@[g],
            decreases 7 - picked@.len() - (if done { 1int } else { 0int }),
        {
            match pick_best(&groups, &taken) {
                None => {
                    done = true;
                },
                Some(b) => {
                    let ghost tb = taken@;
                    let ghost pb = picked@;
                    taken.set(b, true);
                    picked.push(b);
                    proof {
                        assert forall|g: int| 0 <= g < n && #[trigger] taken@[g] implies exists|i: int|
                            0 <= i < picked@.len() && picked@[i] == g by {
                            if g == b {
                                assert(picked@[pb.len() as int] == g);
                            } else {
                                assert(tb[g]);
                                let i = choose|i: int| 0 <= i < pb.len() && pb[i] == g;
                                assert(picked@[i] == g);
                            }
                        }
                        assert forall|i: int| 0 <= i < picked@.len() implies #[trigger] picked@[i] < n && taken@[picked@[i] as int] by {
                            if i < pb.len() {
                                assert(picked@[i] == pb[i]);
                            }
                        }
                        assert forall|i: int, g: int|
                            0 <= i < picked@.len() && 0 <= g < n && !taken@[g] implies ranks_before(
                                #[trigger] gv[picked@[i] as int],
                                #[trigger] gv[g],
                            ) by {
                            assert(!tb[g]);
                            if i < pb.len() {
                                assert(picked@[i] == pb[i]);
                            }
                        }
                        assert forall|i: int, j: int|
                            0 <= i < j < picked@.len() implies ranks_before(#[trigger] gv[picked@[i] as int], #[trigger] gv[picked@[j] as int]) by {
                            assert(picked@[i] == pb[i]);
                            if j < pb.len() {
                                assert(picked@[j] == pb[j]);
                            } else {
                                assert(!tb[b as int]);
                            }
                        }
                    }
                },
            }
        }
        let ghost items: Seq<(Seq<char>, nat)> = Seq::new(picked@.len(), |i: int| gv[picked@[i] as int]);
        let mut out: Vec<char> = Vec::new();
        let mut i: usize = 0;
        while i < picked.len()
            invariant
                i <= picked@.len(),
                items.len() == picked@.len(),
                n == groups@.len(),
                gv == group_views(groups@),
                forall|m: int| 0 <= m < picked@.len() ==> #[trigger] picked@[m] < n,
                forall|m: int| 0 <= m < items.len() ==> #[trigger] items[m] == gv[picked@[m] as int],
                out@ == joined(items.take(i as int)),
            decreases picked@.len() - i,
        {
            let p = picked[i];
            let ghost before = out@;
            if i > 0 {
                append_str(&mut out, "  ");
            }
            append_chars(&mut out, groups[p].0.as_slice());
            append_str(&mut out, " ");
            let digits = dec_u64(groups[p].1 as u64);
            append_chars(&mut out, digits.as_slice());
            proof {
                let tk = items.take(i + 1);
                assert(tk.drop_last() =~= items.take(i as int));
                assert(tk.last() == items[i as int]);
                assert(items[i as int] == gv[p as int]);
                if i == 0 {
                    assert(out@ =~= item_text(items[0]));
                } else {
                    assert(out@ =~= before + "  "@ + item_text(items[i as int]));
                }
            }
            i += 1;
        }
        proof {
            assert(items.take(items.len() as int) =~= items);
            assert(st == states_of(self.connections@));
            assert forall|m: int| 0 <= m < items.len() implies #[trigger] items[m].1 == name_count(st, items[m].0) && items[m].1 > 0 by {
                assert(items[m] == gv[picked@[m] as int]);
            }
            assert forall|a: int, b: int| 0 <= a < b < items.len() implies ranks_before(#[trigger] items[a], #[trigger] items[b]) by {
                assert(items[a] == gv[picked@[a] as int]);
                assert(items[b] == gv[picked@[b] as int]);
            }
            assert forall|name: Seq<char>|
                #![trigger name_count(st, name)]
                name_count(st, name) > 0 && !names_item(items, name) implies items.len() == 6 && forall|m: int|
                    0 <= m < items.len() ==> ranks_before(#[trigger] items[m], (name, name_count(st, name))) by {
                let g = choose|g: int| 0 <= g < groups@.len() && gv[g].0 == name;
                if taken@[g] {
                    let m = choose|m: int| 0 <= m < picked@.len() && picked@[m] == g;
                    assert(items[m].0 == name);
                    assert(false);
                }
                assert(gv[g] == (name, name_count(st, name)));
                assert forall|m: int| 0 <= m < items.len() implies ranks_before(#[trigger] items[m], (name, name_count(st, name))) by {
                    assert(items[m] == gv[picked@[m] as int]);
                }
            }
            assert(summary_items_ok(st, items));
        }
        string_of(out.as_slice())
    }
}

/// How many of `es` are listeners.
pub open spec fn listener_total(es: Seq<ConnEntry>) -> nat
    decreases es.len(),
{
    if es.len() == 0 {
        0
    } else {
        listener_total(es.drop_last()) + if es.last().counters.is_listener {
            1nat
        } else {
            0nat
        }
    }
}

impl Tracker {
    /// The number of live flows and of listeners among the tracked
    /// connections.
    pub fn flow_counts(&self) -> (r: (usize, usize))
        ensures
            r.1 == listener_total(self.connections@),
            r.0 + r.1 == self.connections@.len(),
    {
        let mut live: usize = 0;
        let mut listeners: usize = 0;
        let mut i: usize = 0;
        let ghost es = self.connections@;
        assert(es.take(0) =~= Seq::<ConnEntry>::empty());
        while i < self.connections.len()
            invariant
                es == self.connections@,
                i <= es.len(),
                listeners == listener_total(es.take(i as int)),
                live + listeners == i,
            decreases es.len() - i,
        {
            proof {
                assert(es.take(i + 1).drop_last() =~= es.take(i as int));
            }
            if self.connections[i].counters.is_listener {
                listeners += 1;
            } else {
                live += 1;
            }
            i += 1;
        }
        assert(es.take(es.len() as int) =~= es);
        (live, listeners)
    }
}

// ───────────────────────────── peers ─────────────────────────────

/// Whether an entry counts toward its remote peer: a flow (not a listener)
/// with a remote address.
pub open spec fn peer_flow(e: ConnEntry) -> bool {
    !e.counters.is_listener && !unspecified(e.key.remote_ip)
}

/// How many flows of `es` go to `addr`.
pub open spec fn peer_count(es: Seq<ConnEntry>, addr: PeerAddr) -> nat
    decreases es.len(),
{
    if es.len() == 0 {
        0
    } else {
        peer_count(es.drop_last(), addr) + if peer_flow(es.last()) && es.last().key.remote_ip == addr {
            1nat
        } else {
            0nat
        }
    }
}

/// No peer counts more flows than there are entries.
proof fn lemma_peer_count_bound(es: Seq<ConnEntry>, addr: PeerAddr)
    ensures
        peer_count(es, addr) <= es.len(),
    decreases es.len(),
{
    if es.len() > 0 {
        lemma_peer_count_bound(es.drop_last(), addr);
    }
}

impl Tracker {
    /// The remote peers of the tracked flows, each once, in order of first
    /// appearance, with how many flows go to each.
    pub fn peer_counts(&self) -> (r: Vec<(PeerAddr, usize)>)
        ensures
            forall|g: int| 0 <= g < r@.len() ==> #[trigger] r@[g].1 == peer_count(self.connections@, r@[g].0) && r@[g].1 > 0,
            forall|a: int, b: int| 0 <= a < b < r@.len() ==> r@[a].0 != r@[b].0,
            forall|addr: PeerAddr|
                #![trigger peer_count(self.connections@, addr)]
                peer_count(self.connections@, addr) > 0 ==> exists|g: int| 0 <= g < r@.len() && r@[g].0 == addr,
    {
        let ghost es = self.connections@;
        let mut peers: Vec<(PeerAddr, usize)> = Vec::new();
        let mut j: usize = 0;
        assert(es.take(0) =~= Seq::<ConnEntry>::empty());
        while j < self.connections.len()
            invariant
                es == self.connections@,
                j <= es.len(),
                forall|g: int| 0 <= g < peers@.len() ==> #[trigger] peers@[g].1 == peer_count(es.take(j as int), peers@[g].0) && peers@[g].1 > 0,
                forall|a: int, b: int| 0 <= a < b < peers@.len() ==> peers@[a].0 != peers@[b].0,
                forall|addr: PeerAddr|
                    #![trigger peer_count(es.take(j as int), addr)]
                    peer_count(es.take(j as int), addr) > 0 ==> exists|g: int| 0 <= g < peers@.len() && peers@[g].0 == addr,
            decreases es.len() - j,
        {
            let e = self.connections[j];
            proof {
                assert(es.take(j + 1).drop_last() =~= es.take(j as int));
                assert(es.take(j + 1).last() == e);
                lemma_peer_count_bound(es.take(j as int), e.key.remote_ip);
            }
            if !e.counters.is_listener && !is_unspecified_ip(e.key.remote_ip) {
                let addr = e.key.remote_ip;
                let mut g: usize = 0;
                let mut at: Option<usize> = None;
                while g < peers.len()
                    invariant
                        g <= peers@.len(),
                        at is None ==> forall|m: int| 0 <= m < g ==> peers@[m].0 != addr,
                        at matches Some(x) ==> x < peers@.len() && peers@[x as int].0 == addr,
                    decreases peers@.len() - g,
                {
                    if at.is_none() && peers[g].0 == addr {
                        at = Some(g);
                    }
                    g += 1;
                }
                let ghost before = peers@;
                match at {
                    Some(x) => {
                        let c = peers[x].1;
                        peers.set(x, (addr, c + 1));
                        proof {
                            assert forall|g: int| 0 <= g < peers@.len() implies #[trigger] peers@[g].1 == peer_count(es.take(j + 1), peers@[g].0)
                                && peers@[g].1 > 0 by {
                                if g != x {
                                    assert(peers@[g] == before[g]);
                                }
                            }
                            assert forall|a: int, b: int| 0 <= a < b < peers@.len() implies peers@[a].0 != peers@[b].0 by {
                                assert(peers@[a].0 == before[a].0 && peers@[b].0 == before[b].0);
                            }
                            assert forall|ad: PeerAddr|
                                #![trigger peer_count(es.take(j + 1), ad)]
                                peer_count(es.take(j + 1), ad) > 0 implies exists|g: int| 0 <= g < peers@.len() && peers@[g].0 == ad by {
                                if ad == addr {
                                    assert(peers@[x as int].0 == ad);
                                } else {
                                    assert(peer_count(es.take(j as int), ad) > 0);
                                    let g = choose|g: int| 0 <= g < before.len() && before[g].0 == ad;
                                    assert(peers@[g].0 == ad);
                                }
                            }
                        }
                    },
                    None => {
                        proof {
                            if peer_count(es.take(j as int), addr) > 0 {
                                let g = choose|g: int| 0 <= g < before.len() && before[g].0 == addr;
                                assert(false);
                            }
                        }
                        peers.push((addr, 1));
                        proof {
                            let n0 = peers@.len() - 1;
                            assert forall|g: int| 0 <= g < peers@.len() implies #[trigger] peers@[g].1 == peer_count(es.take(j + 1), peers@[g].0)
                                && peers@[g].1 > 0 by {
                                if g < n0 {
                                    assert(peers@[g] == before[g]);
                                }
                            }
                            assert forall|a: int, b: int| 0 <= a < b < peers@.len() implies peers@[a].0 != peers@[b].0 by {
                                assert(peers@[a] == before[a]);
                                if b < n0 {
                                    assert(peers@[b] == before[b]);
                                }
                            }
                            assert forall|ad: PeerAddr|
                                #![trigger peer_count(es.take(j + 1), ad)]
                                peer_count(es.take(j + 1), ad) > 0 implies exists|g: int| 0 <= g < peers@.len() && peers@[g].0 == ad by {
                                if ad == addr {
                                    assert(peers@[n0].0 == ad);
                                } else {
                                    assert(peer_count(es.take(j as int), ad) > 0);
                                    let g = choose|g: int| 0 <= g < before.len() && before[g].0 == ad;
                                    assert(peers@[g].0 == ad);
                                }
                            }
                        }
                    },
                }
            } else {
                proof {
                    assert forall|g: int| 0 <= g < peers@.len() implies #[trigger] peers@[g].1 == peer_count(es.take(j + 1), peers@[g].0)
                        && peers@[g].1 > 0 by {
                    }
                    assert forall|ad: PeerAddr|
                        #![trigger peer_count(es.take(j + 1), ad)]
                        peer_count(es.take(j + 1), ad) > 0 implies exists|g: int| 0 <= g < peers@.len() && peers@[g].0 == ad by {
                        assert(peer_count(es.take(j as int), ad) > 0);
                    }
                }
            }
            j += 1;
        }
        assert(es.take(es.len() as int) =~= es);
        peers
    }
}

} // verus!
