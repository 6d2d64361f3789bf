use blit::dashboard::PeerAddr;
use blit::tracker::{is_unspecified_ip, ConnKey, SocketSample, Tracker, TCP_LISTEN};

fn addr(n: u128) -> PeerAddr {
    PeerAddr { v6: false, bits: n }
}

fn key(port: u16) -> ConnKey {
    ConnKey {
        inode: port as u32,
        local_ip: addr(0x0a00_0001),
        local_port: 40000,
        remote_ip: addr(0x0a00_0002),
        remote_port: port,
        cookie: 7,
    }
}

fn sample(port: u16, segs_in: u32, segs_out: u32, bytes_in: u64, bytes_out: u64) -> SocketSample {
    SocketSample {
        key: key(port),
        state: 1,
        recv_queue: 10,
        send_queue: 5,
        segs_in,
        segs_out,
        bytes_in,
        bytes_out,
        rtt_us: 12_345,
    }
}

#[test]
fn unspecified_addresses() {
    assert!(is_unspecified_ip(addr(0)));
    assert!(is_unspecified_ip(PeerAddr { v6: true, bits: 0 }));
    assert!(!is_unspecified_ip(addr(1)));
}

#[test]
fn first_batch_opens_flows_without_deltas() {
    let mut t = Tracker::new();
    let out = t.observe_batch(&[sample(80, 10, 20, 1000, 2000), sample(443, 1, 1, 1, 1)], true);
    assert_eq!(t.seq, 1);
    assert_eq!(t.batches, 1);
    assert_eq!(t.last_batch_size, 2);
    assert_eq!(out.len(), 2);
    assert_eq!(out[0].index, 0);
    assert!(out[0].opened);
    assert_eq!(out[0].delta_packets, 0);
    assert_eq!(out[0].delta_bytes, 0);
    assert_eq!(out[1].index, 1);
    let c = t.connections[0].counters;
    assert_eq!(c.seen_batches, 1);
    assert_eq!(c.rtt_ms, 12);
    assert_eq!(c.queue_bytes, 15);
    assert_eq!(c.last_seen_seq, 1);
}

#[test]
fn second_batch_reports_deltas() {
    let mut t = Tracker::new();
    t.observe_batch(&[sample(80, 10, 20, 1000, 2000)], false);
    let out = t.observe_batch(&[sample(80, 15, 27, 1500, 2100)], true);
    assert_eq!(out[0].index, 0);
    assert!(!out[0].opened);
    assert_eq!(out[0].delta_packets, 12);
    assert_eq!(out[0].delta_bytes, 600);
    let c = t.connections[0].counters;
    assert_eq!(c.observed_packets, 12);
    assert_eq!(c.observed_bytes, 600);
    assert_eq!(c.seen_batches, 2);
    assert_eq!(c.prev_segs_in, 15);
}

#[test]
fn untimed_batch_and_counter_resets_give_zero() {
    let mut t = Tracker::new();
    t.observe_batch(&[sample(80, 10, 20, 1000, 2000)], true);
    let out = t.observe_batch(&[sample(80, 30, 40, 3000, 4000)], false);
    assert_eq!(out[0].delta_packets, 0);
    let out = t.observe_batch(&[sample(80, 5, 41, 100, 4001)], true);
    assert_eq!(out[0].delta_packets, 1);
    assert_eq!(out[0].delta_bytes, 1);
}

#[test]
fn listeners_open_no_event() {
    let mut t = Tracker::new();
    let mut listen = sample(22, 0, 0, 0, 0);
    listen.state = TCP_LISTEN;
    let mut no_remote = sample(23, 0, 0, 0, 0);
    no_remote.key.remote_ip = addr(0);
    let out = t.observe_batch(&[listen, no_remote], true);
    assert!(!out[0].opened);
    assert!(!out[1].opened);
    assert!(t.connections[0].counters.is_listener);
    assert!(t.connections[1].counters.is_listener);
}

#[test]
fn queue_saturates() {
    let mut t = Tracker::new();
    let mut s = sample(80, 0, 0, 0, 0);
    s.recv_queue = u32::MAX;
    s.send_queue = 9;
    t.observe_batch(&[s], true);
    assert_eq!(t.connections[0].counters.queue_bytes, u32::MAX);
}

#[test]
fn vanished_flows_are_pruned() {
    let mut t = Tracker::new();
    t.observe_batch(&[sample(80, 1, 1, 1, 1), sample(443, 1, 1, 1, 1), sample(8080, 1, 1, 1, 1)], true);
    t.observe_batch(&[sample(443, 2, 2, 2, 2)], true);
    let gone = t.remove_stale();
    assert_eq!(gone.len(), 2);
    assert_eq!(gone[0].key, key(80));
    assert_eq!(gone[1].key, key(8080));
    assert_eq!(t.connections.len(), 1);
    assert_eq!(t.connections[0].key, key(443));
}

#[test]
fn hot_marks_space_out() {
    let mut t = Tracker::new();
    for _ in 0..21 {
        t.observe_batch(&[sample(80, 1, 1, 1, 1)], true);
    }
    assert_eq!(t.seq, 21);
    assert!(t.mark_hot(0, true));
    assert_eq!(t.connections[0].counters.hot_mark, 21);
    assert!(!t.mark_hot(0, true));
    for _ in 0..20 {
        t.observe_batch(&[sample(80, 1, 1, 1, 1)], true);
    }
    assert!(!t.mark_hot(0, true));
    t.observe_batch(&[sample(80, 1, 1, 1, 1)], true);
    assert!(!t.mark_hot(0, false));
    assert!(t.mark_hot(0, true));
}

#[test]
fn removing_a_connection() {
    let mut t = Tracker::new();
    t.observe_batch(&[sample(80, 1, 1, 1, 1), sample(443, 1, 1, 1, 1)], true);
    let e = t.remove_connection(&key(80)).unwrap();
    assert_eq!(e.key, key(80));
    assert!(t.remove_connection(&key(80)).is_none());
    assert_eq!(t.connections.len(), 1);
}

#[test]
fn destroyed_flows_take_a_new_number() {
    let mut t = Tracker::new();
    t.observe_batch(&[sample(80, 1, 1, 1, 1), sample(443, 1, 1, 1, 1)], true);
    let none = t.apply_destroyed(&[key(9)]);
    assert!(none.is_empty());
    assert_eq!(t.seq, 1);
    let gone = t.apply_destroyed(&[key(443), key(443), key(9)]);
    assert_eq!(gone.len(), 1);
    assert_eq!(gone[0].key, key(443));
    assert_eq!(t.seq, 2);
    assert_eq!(t.connections.len(), 1);
}

#[test]
fn pruned_table_holds_the_batch() {
    let mut t = Tracker::new();
    t.observe_batch(&[sample(1, 1, 1, 1, 1), sample(2, 1, 1, 1, 1)], true);
    t.observe_batch(&[sample(3, 1, 1, 1, 1), sample(2, 1, 1, 1, 1), sample(3, 2, 2, 2, 2)], true);
    t.remove_stale();
    let keys: Vec<ConnKey> = t.connections.iter().map(|e| e.key).collect();
    assert_eq!(keys, vec![key(2), key(3)]);
    assert_eq!(t.connections[1].counters.seen_batches, 2);
}

fn with_state(port: u16, state: u8) -> SocketSample {
    let mut s = sample(port, 1, 1, 1, 1);
    s.state = state;
    s
}

#[test]
fn idle_state_summary() {
    let t = Tracker::new();
    assert_eq!(t.state_summary(), "states idle");
}

#[test]
fn state_summary_orders_by_count_then_name() {
    let mut t = Tracker::new();
    t.observe_batch(
        &[
            with_state(1, 1),
            with_state(2, 10),
            with_state(3, 1),
            with_state(4, 6),
            with_state(5, 10),
            with_state(6, 8),
            with_state(7, 1),
        ],
        true,
    );
    assert_eq!(t.state_summary(), "ESTAB 3  LISTN 2  CLSW 1  TIME 1");
}

#[test]
fn state_summary_keeps_six() {
    let mut t = Tracker::new();
    let states = [1u8, 2, 3, 4, 5, 6, 7, 8, 0, 200];
    let batch: Vec<SocketSample> = states.iter().enumerate().map(|(i, s)| with_state(i as u16 + 1, *s)).collect();
    t.observe_batch(&batch, true);
    assert_eq!(t.state_summary(), "OTHER 2  CLOSE 1  CLSW 1  ESTAB 1  FIN1 1  FIN2 1");
}

#[test]
fn flows_and_listeners_are_counted() {
    let mut t = Tracker::new();
    t.observe_batch(&[with_state(1, 1), with_state(2, TCP_LISTEN), with_state(3, 1)], true);
    assert_eq!(t.flow_counts(), (2, 1));
}

#[test]
fn peers_count_their_flows() {
    let mut t = Tracker::new();
    let mut other = sample(5, 1, 1, 1, 1);
    other.key.remote_ip = addr(99);
    let mut listen = sample(6, 1, 1, 1, 1);
    listen.state = TCP_LISTEN;
    let mut nowhere = sample(7, 1, 1, 1, 1);
    nowhere.key.remote_ip = addr(0);
    t.observe_batch(&[sample(1, 1, 1, 1, 1), other, listen, sample(2, 1, 1, 1, 1), nowhere], true);
    assert_eq!(t.peer_counts(), vec![(addr(0x0a00_0002), 2), (addr(99), 1)]);
}
