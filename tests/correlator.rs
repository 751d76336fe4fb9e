use scrop::correlator::Correlator;
use scrop::types::{PacketEvent, ACTION_KFREE_SKB, ACTION_XDP_PASS};

fn sample_event(pkt_len: u32, action: u32) -> PacketEvent {
    PacketEvent {
        src_addr: u32::from_be_bytes([192, 168, 0, 1]),
        dst_addr: u32::from_be_bytes([10, 0, 0, 1]),
        src_port: 12345,
        dst_port: 443,
        protocol: 6,
        _padding: [0; 3],
        pkt_len,
        action,
        drop_reason: 0,
        ktime_ns: 42,
    }
}

const BASE: u64 = 7_000_000_000;

fn at_ms(base: u64, ms: u64) -> u64 {
    base + ms * 1_000_000
}

#[test]
fn correlator_preserves_multiple_pending_for_same_flow_and_size() {
    let base = BASE;
    let mut correlator = Correlator::new(base);
    let pass_event = sample_event(128, ACTION_XDP_PASS);
    let kfree_event = sample_event(128, ACTION_KFREE_SKB);

    correlator.register_pass(pass_event, 1, at_ms(base, 1));
    correlator.register_pass(pass_event, 2, at_ms(base, 2));
    correlator.register_pass(pass_event, 3, at_ms(base, 3));

    assert_eq!(correlator.pending_len(), 3);
    let matched = correlator
        .match_kfree(&kfree_event, at_ms(base, 4))
        .expect("expected a correlated packet");
    assert_eq!(matched.counter, 3);
    assert_eq!(correlator.pending_len(), 2);
}

#[test]
fn correlator_prevents_mismatch_when_size_differs() {
    let base = BASE;
    let mut correlator = Correlator::new(base);
    let pass_event = sample_event(128, ACTION_XDP_PASS);
    let kfree_event = sample_event(256, ACTION_KFREE_SKB);

    correlator.register_pass(pass_event, 1, at_ms(base, 1));

    assert!(correlator.match_kfree(&kfree_event, at_ms(base, 2)).is_none());
    assert_eq!(correlator.pending_len(), 1);
}

#[test]
fn correlator_matches_across_bucket_boundary() {
    let base = BASE;
    let mut correlator = Correlator::new(base);
    let pass_event = sample_event(128, ACTION_XDP_PASS);
    let kfree_event = sample_event(128, ACTION_KFREE_SKB);

    correlator.register_pass(pass_event, 1, at_ms(base, 4));
    let matched = correlator.match_kfree(&kfree_event, at_ms(base, 6));

    assert!(matched.is_some());
    assert!(correlator.is_empty());
}

#[test]
fn correlator_expires_pending_and_ignores_stale_kfree() {
    let base = BASE;
    let mut correlator = Correlator::new(base);
    let pass_event = sample_event(128, ACTION_XDP_PASS);
    let kfree_event = sample_event(128, ACTION_KFREE_SKB);

    correlator.register_pass(pass_event, 1, at_ms(base, 1));

    let expired = correlator.drain_expired(at_ms(base, 60));
    assert_eq!(expired.len(), 1);
    assert_eq!(expired[0].counter, 1);
    assert!(correlator.is_empty());

    assert!(correlator.match_kfree(&kfree_event, at_ms(base, 61)).is_none());
}

#[test]
fn correlator_prefers_shortest_time_distance_then_fifo() {
    let base = BASE;
    let mut correlator = Correlator::new(base);
    let pass_event = sample_event(128, ACTION_XDP_PASS);
    let kfree_event = sample_event(128, ACTION_KFREE_SKB);

    correlator.register_pass(pass_event, 1, at_ms(base, 10));
    correlator.register_pass(pass_event, 2, at_ms(base, 10));
    correlator.register_pass(pass_event, 3, at_ms(base, 14));

    let first = correlator
        .match_kfree(&kfree_event, at_ms(base, 13))
        .expect("nearest event should match first");
    assert_eq!(first.counter, 3);

    let tie_now = at_ms(base, 15);
    let second = correlator
        .match_kfree(&kfree_event, tie_now)
        .expect("tie should still produce a match");
    assert_eq!(second.counter, 1);

    let third = correlator
        .match_kfree(&kfree_event, at_ms(base, 12))
        .expect("remaining packet should match");
    assert_eq!(third.counter, 2);
    assert!(correlator.is_empty());
}

#[test]
fn basic_pass_is_delivered_after_timeout() {
    let mut correlator = Correlator::new(0);
    correlator.register_pass(sample_event(128, ACTION_XDP_PASS), 0, at_ms(0, 1));
    let drained = correlator.drain_expired(at_ms(0, 100));
    assert_eq!(drained.len(), 1);
    assert_eq!(drained[0].counter, 0);
    assert_eq!(drained[0].event.pkt_len, 128);
    assert!(correlator.is_empty());
}

#[test]
fn size_mismatch_keeps_pending_until_drain() {
    let mut correlator = Correlator::new(0);
    correlator.register_pass(sample_event(128, ACTION_XDP_PASS), 0, at_ms(0, 1));
    assert!(correlator
        .match_kfree(&sample_event(256, ACTION_KFREE_SKB), at_ms(0, 2))
        .is_none());
    assert_eq!(correlator.pending_len(), 1);
    let drained = correlator.drain_expired(at_ms(0, 100));
    assert_eq!(drained.len(), 1);
}

#[test]
fn drain_keeps_recent_buckets() {
    let mut correlator = Correlator::new(0);
    correlator.register_pass(sample_event(128, ACTION_XDP_PASS), 0, at_ms(0, 1));
    correlator.register_pass(sample_event(128, ACTION_XDP_PASS), 1, at_ms(0, 40));
    // bucket 0 expires once the current bucket passes 10; bucket 8 stays.
    let drained = correlator.drain_expired(at_ms(0, 55));
    assert_eq!(drained.len(), 1);
    assert_eq!(drained[0].counter, 0);
    assert_eq!(correlator.pending_len(), 1);
}

#[test]
fn quiesced_input_drains_completely() {
    let mut correlator = Correlator::new(0);
    for i in 0..20u64 {
        correlator.register_pass(sample_event(100 + i as u32, ACTION_XDP_PASS), i, at_ms(0, i * 3));
    }
    let last = at_ms(0, 57);
    let drained = correlator.drain_expired(last + 100_000_000);
    assert_eq!(drained.len(), 20);
    assert!(correlator.is_empty());
}

#[test]
fn match_outside_search_window_fails() {
    let mut correlator = Correlator::new(0);
    correlator.register_pass(sample_event(128, ACTION_XDP_PASS), 0, at_ms(0, 1));
    // bucket 0 vs bucket 2: not a neighbour.
    assert!(correlator
        .match_kfree(&sample_event(128, ACTION_KFREE_SKB), at_ms(0, 11))
        .is_none());
    assert_eq!(correlator.pending_len(), 1);
}

#[test]
fn search_buckets_dedups_at_zero() {
    assert_eq!(Correlator::search_buckets(0), vec![0, 1]);
    assert_eq!(Correlator::search_buckets(5), vec![5, 4, 6]);
    assert_eq!(Correlator::search_buckets(u64::MAX), vec![u64::MAX, u64::MAX - 1]);
}

#[test]
fn bucket_of_counts_five_ms_steps() {
    let c = Correlator::new(1_000);
    assert_eq!(c.bucket_of(0), 0);
    assert_eq!(c.bucket_of(1_000 + 4_999_999), 0);
    assert_eq!(c.bucket_of(1_000 + 5_000_000), 1);
    assert_eq!(Correlator::slot_index(130), 2);
}

#[test]
fn every_registered_packet_leaves_exactly_once() {
    let mut correlator = Correlator::new(0);
    let mut seen: Vec<u64> = Vec::new();
    for c in 0..12u64 {
        correlator.register_pass(sample_event(100 + (c % 3) as u32, ACTION_XDP_PASS), c, at_ms(0, c));
        if c % 4 == 3 {
            if let Some(p) = correlator.match_kfree(&sample_event(100, ACTION_KFREE_SKB), at_ms(0, c)) {
                seen.push(p.counter);
            }
        }
    }
    for p in correlator.drain_expired(at_ms(0, 500)) {
        seen.push(p.counter);
    }
    assert!(correlator.is_empty());
    seen.sort();
    assert_eq!(seen, (0..12).collect::<Vec<u64>>());
}

#[test]
fn drops_and_drains_never_repeat_a_counter() {
    let mut correlator = Correlator::new(0);
    let mut out: Vec<u64> = Vec::new();
    for c in 0..30u64 {
        correlator.register_pass(sample_event(64, ACTION_XDP_PASS), c, at_ms(0, c / 3));
        if let Some(p) = correlator.match_kfree(&sample_event(64, ACTION_KFREE_SKB), at_ms(0, c / 3)) {
            out.push(p.counter);
        }
        for p in correlator.drain_expired(at_ms(0, c)) {
            out.push(p.counter);
        }
    }
    let mut dedup = out.clone();
    dedup.sort();
    dedup.dedup();
    assert_eq!(dedup.len(), out.len());
}

#[test]
fn drain_keeps_only_the_recent_window() {
    let mut correlator = Correlator::new(0);
    for ms in [0u64, 10, 20, 30, 40, 50, 60, 70] {
        correlator.register_pass(sample_event(64, ACTION_XDP_PASS), ms, at_ms(0, ms));
    }
    let drained = correlator.drain_expired(at_ms(0, 72));
    // current bucket 14, expiry bound 4: buckets 0, 2 and 4 go.
    assert_eq!(drained.len(), 3);
    assert_eq!(correlator.pending_len(), 5);
}

#[test]
fn young_packets_are_not_drained_before_the_timeout() {
    let mut correlator = Correlator::new(0);
    correlator.register_pass(sample_event(128, ACTION_XDP_PASS), 0, at_ms(0, 1));
    assert!(correlator.drain_expired(at_ms(0, 25)).is_empty());
    assert!(correlator.drain_expired(at_ms(0, 49)).is_empty());
    assert_eq!(correlator.pending_len(), 1);
    let drained = correlator.drain_expired(at_ms(0, 50));
    assert_eq!(drained.len(), 1);
    assert!(correlator.is_empty());
}

#[test]
fn stale_empty_slot_is_reused() {
    let mut correlator = Correlator::new(0);
    correlator.register_pass(sample_event(128, ACTION_XDP_PASS), 0, at_ms(0, 1));
    assert!(correlator
        .match_kfree(&sample_event(128, ACTION_KFREE_SKB), at_ms(0, 1))
        .is_some());
    // bucket 64 maps to the slot of bucket 0, which still names epoch 0.
    correlator.register_pass(sample_event(128, ACTION_XDP_PASS), 1, at_ms(0, 320));
    assert_eq!(correlator.pending_len(), 1);
}
