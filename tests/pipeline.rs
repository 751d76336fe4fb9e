use scrop::drop_reason::DropReasonResolver;
use scrop::pipeline::CorrelationTask;
use scrop::types::{PacketEvent, PacketResult, Protocol, ACTION_KFREE_SKB, ACTION_XDP_PASS};

fn resolver() -> DropReasonResolver {
    let mut names = std::collections::HashMap::new();
    names.insert(3u32, "TCP_CSUM".to_string());
    names.insert(8u32, "NETFILTER_DROP".to_string());
    let mut fw = std::collections::HashSet::new();
    fw.insert(8u32);
    DropReasonResolver { names, fw_reasons: fw }
}

fn event(pkt_len: u32, action: u32, drop_reason: u32) -> PacketEvent {
    PacketEvent {
        src_addr: u32::from_le_bytes([192, 168, 0, 1]),
        dst_addr: u32::from_le_bytes([10, 0, 0, 1]),
        src_port: 12345,
        dst_port: 443,
        protocol: 6,
        _padding: [0; 3],
        pkt_len,
        action,
        drop_reason,
        ktime_ns: 5,
    }
}

fn ms(x: u64) -> u64 {
    x * 1_000_000
}

#[test]
fn pass_then_drop_is_labelled_with_reason() {
    let mut task = CorrelationTask::new(0, "abc123".to_string(), resolver(), 16);
    assert!(task.on_event(event(128, ACTION_XDP_PASS, 0), 0, ms(1)).is_none());
    assert!(task.on_event(event(128, ACTION_KFREE_SKB, 8), 1, ms(2)).is_none());
    let batch = task.flush().expect("one packet");
    assert_eq!(batch.len(), 1);
    let p = &batch[0];
    assert_eq!(p.result, PacketResult::FwDrop);
    assert_eq!(p.packet.id, "pkt-abc123-0");
    assert_eq!(p.packet.source, "192.168.0.1");
    assert_eq!(p.packet.protocol, Protocol::Tcp);
    assert_eq!(
        p.packet.reason,
        Some("Dropped by firewall (NETFILTER_DROP)".to_string())
    );
    let stats = task.get_stats();
    assert_eq!(stats.total_packets, 1);
    assert_eq!(stats.fw_dropped, 1);
}

#[test]
fn stack_drop_with_unknown_reason() {
    let mut task = CorrelationTask::new(0, "s".to_string(), resolver(), 16);
    task.on_event(event(64, ACTION_XDP_PASS, 0), 4, ms(1));
    task.on_event(event(64, ACTION_KFREE_SKB, 0), 5, ms(1));
    let batch = task.flush().unwrap();
    assert_eq!(batch[0].result, PacketResult::NicDrop);
    assert_eq!(
        batch[0].packet.reason,
        Some("Dropped in network stack (unknown reason 0)".to_string())
    );
    assert_eq!(batch[0].packet.id, "pkt-s-4");
}

#[test]
fn orphan_drop_is_discarded() {
    let mut task = CorrelationTask::new(0, "s".to_string(), resolver(), 16);
    assert!(task.on_event(event(64, ACTION_KFREE_SKB, 3), 0, ms(1)).is_none());
    assert!(task.flush().is_none());
    assert_eq!(task.get_stats().total_packets, 0);
}

#[test]
fn unknown_action_is_ignored() {
    let mut task = CorrelationTask::new(0, "s".to_string(), resolver(), 16);
    assert!(task.on_event(event(64, 7, 0), 0, ms(1)).is_none());
    assert!(task.is_idle());
}

#[test]
fn expiry_delivers_and_batches_fill_up() {
    let mut task = CorrelationTask::new(0, "s".to_string(), resolver(), 2);
    for c in 0..5u64 {
        task.on_event(event(100 + c as u32, ACTION_XDP_PASS, 0), c, ms(1));
    }
    assert!(task.on_expiry(ms(40)).is_empty());
    assert_eq!(task.get_stats().total_packets, 0);
    let full = task.on_expiry(ms(100));
    assert_eq!(full.len(), 2);
    assert!(full.iter().all(|b| b.len() == 2));
    let rest = task.flush().unwrap();
    assert_eq!(rest.len(), 1);
    let stats = task.get_stats();
    assert_eq!(stats.total_packets, 5);
    assert_eq!(stats.delivered, 5);
    assert!(task.is_idle());
    let mut counters: Vec<String> = full
        .iter()
        .flatten()
        .chain(rest.iter())
        .map(|p| p.packet.id.clone())
        .collect();
    counters.sort();
    assert_eq!(
        counters,
        vec!["pkt-s-0", "pkt-s-1", "pkt-s-2", "pkt-s-3", "pkt-s-4"]
    );
    assert!(full.iter().flatten().all(|p| p.result == PacketResult::Delivered && p.packet.reason.is_none()));
}

#[test]
fn emitted_total_matches_stats_after_flush() {
    let mut task = CorrelationTask::new(0, "s".to_string(), resolver(), 3);
    let mut emitted = 0usize;
    for c in 0..7u64 {
        task.on_event(event(200, ACTION_XDP_PASS, 0), c, ms(c));
        if c % 2 == 0 {
            if let Some(b) = task.on_event(event(200, ACTION_KFREE_SKB, 3), 100 + c, ms(c)) {
                emitted += b.len();
            }
        }
    }
    for b in task.on_expiry(ms(500)) {
        emitted += b.len();
    }
    if let Some(b) = task.flush() {
        emitted += b.len();
    }
    let stats = task.get_stats();
    assert_eq!(emitted as u64, stats.total_packets);
    assert_eq!(stats.total_packets, 7);
    assert_eq!(stats.nic_dropped, 4);
    assert_eq!(stats.delivered, 3);
    assert_eq!(
        stats.total_packets,
        stats.delivered + stats.nic_dropped + stats.fw_dropped
    );
}

#[test]
fn transport_drops_are_recorded() {
    let mut task = CorrelationTask::new(0, "s".to_string(), resolver(), 3);
    task.set_transport_dropped(17);
    assert_eq!(task.get_stats().transport_dropped, 17);
    assert_eq!(task.get_stats().total_packets, 0);
}
