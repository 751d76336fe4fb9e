use scrop::desktop::Protocol as DesktopProtocol;
use scrop::mock::{
    apply_result_to_delta, apply_stats_delta, packet_with_result, BatchStatsDelta,
    MockTrafficProfile,
};
use scrop::session::CaptureSession;
use scrop::types::{AnimatingPacket, CaptureStats, PacketResult, Protocol};

fn packet() -> AnimatingPacket {
    AnimatingPacket {
        id: "pkt-abc123-0".to_string(),
        protocol: Protocol::Tcp,
        size: 512,
        source: "192.168.1.100".to_string(),
        src_port: 40000,
        destination: "10.0.0.10".to_string(),
        dest_port: 443,
        target_port: None,
        capture_mono_ns: 0,
        reason: None,
    }
}

#[test]
fn packet_with_result_attaches_mock_reasons() {
    let nic = packet_with_result(packet(), PacketResult::NicDrop);
    assert_eq!(nic.packet.reason, Some("Buffer overflow".to_string()));
    let fw = packet_with_result(packet(), PacketResult::FwDrop);
    assert_eq!(fw.packet.reason, Some("Blocked by rule".to_string()));
    let ok = packet_with_result(packet(), PacketResult::Delivered);
    assert_eq!(ok.packet.reason, None);
    assert_eq!(ok.result, PacketResult::Delivered);
}

#[test]
fn batch_delta_counts_and_applies() {
    let mut delta = BatchStatsDelta::new();
    apply_result_to_delta(&mut delta, &PacketResult::Delivered);
    apply_result_to_delta(&mut delta, &PacketResult::NicDrop);
    apply_result_to_delta(&mut delta, &PacketResult::FwDrop);
    assert_eq!(delta.total_packets, 3);
    let mut stats = CaptureStats::default();
    stats.transport_dropped = 4;
    apply_stats_delta(&mut stats, delta);
    apply_stats_delta(&mut stats, BatchStatsDelta::new());
    assert_eq!(stats.total_packets, 3);
    assert_eq!(stats.delivered, 1);
    assert_eq!(stats.nic_dropped, 1);
    assert_eq!(stats.fw_dropped, 1);
    assert_eq!(stats.transport_dropped, 4);
}

#[test]
fn traffic_profiles_are_distinct() {
    assert_ne!(MockTrafficProfile::Realistic, MockTrafficProfile::Bench);
    assert_ne!(MockTrafficProfile::Bench, MockTrafficProfile::Dataset);
}

#[test]
fn desktop_protocol_port_indices() {
    assert_eq!(DesktopProtocol::Http.target_port_indices(), vec![0, 3]);
    assert_eq!(DesktopProtocol::Https.target_port_indices(), vec![1]);
    assert_eq!(DesktopProtocol::Ssh.target_port_indices(), vec![2]);
}

#[test]
fn status_reports_session() {
    let mut s = CaptureSession::new();
    s.start("abc123".to_string());
    let st = s.status("ebpf");
    assert!(st.is_capturing);
    assert_eq!(st.mode, "ebpf");
    assert_eq!(st.stats.total_packets, 0);
}
