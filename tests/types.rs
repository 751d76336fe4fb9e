use scrop::types::{
    build_packet_id, convert_event, format_ipv4, generate_session_id, session_id_from_digits,
    AnimatingPacket, CaptureError, CaptureStats, PacketEvent, PacketResult, Protocol,
    ACTION_XDP_PASS, SESSION_ID_LENGTH,
};

fn plain_packet() -> AnimatingPacket {
    AnimatingPacket {
        id: "pkt-abc123-0".to_string(),
        protocol: Protocol::Tcp,
        size: 64,
        source: "192.168.1.1".to_string(),
        src_port: 1024,
        destination: "10.0.0.1".to_string(),
        dest_port: 443,
        target_port: None,
        capture_mono_ns: 0,
        reason: None,
    }
}

#[test]
fn build_packet_id_uses_expected_format() {
    let id = build_packet_id("a1b2c3", 42);
    assert_eq!(id, "pkt-a1b2c3-42");
}

#[test]
fn build_packet_id_renders_zero_and_large_counters() {
    assert_eq!(build_packet_id("s", 0), "pkt-s-0");
    assert_eq!(build_packet_id("s", u64::MAX), "pkt-s-18446744073709551615");
}

#[test]
fn with_reason_sets_reason() {
    let pkt = plain_packet().with_reason("test reason");
    assert_eq!(pkt.reason, Some("test reason".to_string()));
    assert_eq!(pkt.id, "pkt-abc123-0");
}

#[test]
fn capture_error_display() {
    let err = CaptureError::PermissionDenied("test".to_string());
    assert_eq!(err.to_string(), "Permission denied: test");

    let err = CaptureError::InterfaceNotFound("eth0".to_string());
    assert_eq!(err.to_string(), "Interface not found: eth0");

    let err = CaptureError::InvalidState("not running".to_string());
    assert_eq!(err.to_string(), "Invalid state: not running");

    let err = CaptureError::Other("something".to_string());
    assert_eq!(err.to_string(), "something");
}

#[test]
fn ebpf_load_failure_display() {
    let err = CaptureError::EbpfLoadFailed("no map".to_string());
    assert_eq!(err.to_string(), "eBPF load failed: no map");
}

#[test]
fn capture_stats_default_is_all_zero() {
    let stats = CaptureStats::default();
    assert_eq!(stats.total_packets, 0);
    assert_eq!(stats.nic_dropped, 0);
    assert_eq!(stats.fw_dropped, 0);
    assert_eq!(stats.delivered, 0);
    assert_eq!(stats.transport_dropped, 0);
}

#[test]
fn stats_record_keeps_totals_balanced() {
    let mut stats = CaptureStats::default();
    stats.record(PacketResult::Delivered);
    stats.record(PacketResult::NicDrop);
    stats.record(PacketResult::FwDrop);
    stats.record(PacketResult::FwDrop);
    assert_eq!(stats.total_packets, 4);
    assert_eq!(stats.delivered, 1);
    assert_eq!(stats.nic_dropped, 1);
    assert_eq!(stats.fw_dropped, 2);
    assert_eq!(
        stats.total_packets,
        stats.delivered + stats.nic_dropped + stats.fw_dropped
    );
}

#[test]
fn generate_session_id_is_base36_with_fixed_length() {
    let session_id = generate_session_id();
    assert_eq!(session_id.len(), SESSION_ID_LENGTH);
    assert!(session_id
        .chars()
        .all(|c| c.is_ascii_digit() || c.is_ascii_lowercase()));
}

#[test]
fn session_id_digits_map_to_base36() {
    assert_eq!(session_id_from_digits(&vec![0, 9, 10, 35, 1, 2]), "09az12");
}

#[test]
fn format_ipv4_takes_lowest_byte_first() {
    let addr = u32::from_le_bytes([192, 168, 0, 1]);
    assert_eq!(format_ipv4(addr), "192.168.0.1");
    assert_eq!(format_ipv4(0), "0.0.0.0");
    assert_eq!(format_ipv4(u32::MAX), "255.255.255.255");
}

#[test]
fn convert_event_sets_capture_mono_ns() {
    let event = PacketEvent {
        src_addr: u32::from_be_bytes([192, 168, 0, 1]),
        dst_addr: u32::from_be_bytes([10, 0, 0, 1]),
        src_port: 12345,
        dst_port: 443,
        protocol: 6,
        _padding: [0; 3],
        pkt_len: 128,
        action: ACTION_XDP_PASS,
        drop_reason: 0,
        ktime_ns: 42,
    };
    let captured = convert_event(&event, "sess01", 7, PacketResult::Delivered, None);
    assert_eq!(captured.packet.capture_mono_ns, 42);
}

#[test]
fn convert_event_projects_every_field() {
    let event = PacketEvent {
        src_addr: u32::from_le_bytes([192, 168, 0, 1]),
        dst_addr: u32::from_le_bytes([10, 0, 0, 1]),
        src_port: 12345,
        dst_port: 443,
        protocol: 17,
        _padding: [0; 3],
        pkt_len: 128,
        action: ACTION_XDP_PASS,
        drop_reason: 0,
        ktime_ns: 9,
    };
    let captured = convert_event(
        &event,
        "sess01",
        7,
        PacketResult::NicDrop,
        Some("why".to_string()),
    );
    assert_eq!(captured.packet.id, "pkt-sess01-7");
    assert_eq!(captured.packet.protocol, Protocol::Udp);
    assert_eq!(captured.packet.size, 128);
    assert_eq!(captured.packet.source, "192.168.0.1");
    assert_eq!(captured.packet.destination, "10.0.0.1");
    assert_eq!(captured.packet.src_port, 12345);
    assert_eq!(captured.packet.dest_port, 443);
    assert_eq!(captured.packet.target_port, None);
    assert_eq!(captured.packet.reason, Some("why".to_string()));
    assert_eq!(captured.result, PacketResult::NicDrop);
}

#[test]
fn convert_event_maps_unknown_protocol_to_tcp() {
    let mut event = PacketEvent {
        src_addr: 0,
        dst_addr: 0,
        src_port: 1,
        dst_port: 2,
        protocol: 1,
        _padding: [0; 3],
        pkt_len: 60,
        action: ACTION_XDP_PASS,
        drop_reason: 0,
        ktime_ns: 0,
    };
    let captured = convert_event(&event, "s", 0, PacketResult::Delivered, None);
    assert_eq!(captured.packet.protocol, Protocol::Tcp);
    event.protocol = 6;
    let captured = convert_event(&event, "s", 0, PacketResult::Delivered, None);
    assert_eq!(captured.packet.protocol, Protocol::Tcp);
}
