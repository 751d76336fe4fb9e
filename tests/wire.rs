use scrop::event::{decode_event, parse_frame, parse_kfree, EVENT_RECORD_LEN};
use scrop::types::{
    AnimatingPacket, CapturedPacket, PacketResult, Protocol, ACTION_KFREE_SKB, ACTION_XDP_PASS,
};
use scrop::wire::{
    batch_to_envelope, decode_envelope, encode_envelope, WireCaptured, WireEnvelope, WirePacket,
    SCHEMA_VERSION,
};

fn sample_captured_packet(id: &str) -> CapturedPacket {
    CapturedPacket {
        packet: AnimatingPacket {
            id: id.to_string(),
            protocol: Protocol::Tcp,
            size: 128,
            source: "192.168.0.10".to_string(),
            src_port: 12345,
            destination: "10.0.0.1".to_string(),
            dest_port: 80,
            target_port: Some(80),
            capture_mono_ns: 1_000_000_000,
            reason: None,
        },
        result: PacketResult::Delivered,
    }
}

#[test]
fn envelope_round_trips_through_bytes() {
    let batch = vec![
        sample_captured_packet("pkt-test-1"),
        sample_captured_packet("pkt-test-2"),
    ];
    let env = batch_to_envelope(&batch, 1_700_000_000_000.0f64.to_bits());
    let bytes = encode_envelope(&env);
    let back = decode_envelope(&bytes).expect("decode");
    assert_eq!(back.schema_version, SCHEMA_VERSION);
    assert_eq!(f64::from_bits(back.epoch_offset_bits), 1_700_000_000_000.0);
    assert_eq!(back.packets.len(), 2);
    let first = &back.packets[0];
    assert_eq!(first.packet.id, b"pkt-test-1".to_vec());
    assert_eq!(first.packet.capture_mono_ns, 1_000_000_000);
    assert_eq!(first.packet.target_port, Some(80));
    assert_eq!(first.packet.reason, None);
    assert_eq!(first.result, 0);
}

#[test]
fn envelope_encoding_matches_protobuf_bytes() {
    let env = WireEnvelope {
        schema_version: 1,
        epoch_offset_bits: 0x0102030405060708,
        packets: vec![],
    };
    let bytes = encode_envelope(&env);
    assert_eq!(
        bytes,
        vec![0x08, 0x01, 0x11, 0x08, 0x07, 0x06, 0x05, 0x04, 0x03, 0x02, 0x01]
    );
}

#[test]
fn varint_fields_use_continuation_bytes() {
    let env = WireEnvelope {
        schema_version: 300,
        epoch_offset_bits: 0,
        packets: vec![],
    };
    let bytes = encode_envelope(&env);
    assert_eq!(&bytes[..3], &[0x08, 0xAC, 0x02]);
    assert_eq!(decode_envelope(&bytes).unwrap().schema_version, 300);
}

#[test]
fn optional_fields_round_trip() {
    let env = WireEnvelope {
        schema_version: 1,
        epoch_offset_bits: 42,
        packets: vec![WireCaptured {
            packet: WirePacket {
                id: b"x".to_vec(),
                protocol: 1,
                size: 70000,
                source: vec![],
                src_port: 1,
                destination: b"d".to_vec(),
                dest_port: 65535,
                target_port: None,
                capture_mono_ns: u64::MAX,
                reason: Some(b"Dropped".to_vec()),
            },
            result: 2,
        }],
    };
    let back = decode_envelope(&encode_envelope(&env)).unwrap();
    let p = &back.packets[0].packet;
    assert_eq!(p.size, 70000);
    assert_eq!(p.capture_mono_ns, u64::MAX);
    assert_eq!(p.target_port, None);
    assert_eq!(p.reason, Some(b"Dropped".to_vec()));
    assert_eq!(p.source, Vec::<u8>::new());
    assert_eq!(back.packets[0].result, 2);
}

#[test]
fn truncated_envelope_is_refused() {
    let batch = vec![sample_captured_packet("pkt-a-1")];
    let bytes = encode_envelope(&batch_to_envelope(&batch, 0));
    assert!(decode_envelope(&bytes[..bytes.len() - 1]).is_none());
    assert!(decode_envelope(&[]).is_none());
}

#[test]
fn batch_to_envelope_maps_enums() {
    let mut p = sample_captured_packet("a");
    p.packet.protocol = Protocol::Udp;
    p.result = PacketResult::FwDrop;
    p.packet.reason = Some("r".to_string());
    let env = batch_to_envelope(&vec![p], 0);
    assert_eq!(env.packets[0].packet.protocol, 1);
    assert_eq!(env.packets[0].result, 2);
    assert_eq!(env.packets[0].packet.reason, Some(b"r".to_vec()));
}

fn record(ktime: u64) -> Vec<u8> {
    let mut r = Vec::new();
    r.extend_from_slice(&[192, 168, 0, 1]);
    r.extend_from_slice(&[10, 0, 0, 1]);
    r.extend_from_slice(&12345u16.to_le_bytes());
    r.extend_from_slice(&443u16.to_le_bytes());
    r.push(6);
    r.extend_from_slice(&[0, 0, 0]);
    r.extend_from_slice(&128u32.to_le_bytes());
    r.extend_from_slice(&100u32.to_le_bytes());
    r.extend_from_slice(&8u32.to_le_bytes());
    r.extend_from_slice(&[0, 0, 0, 0]);
    r.extend_from_slice(&ktime.to_le_bytes());
    r
}

#[test]
fn ring_buffer_record_decodes() {
    let r = record(0x1122334455667788);
    assert_eq!(r.len(), EVENT_RECORD_LEN);
    let e = decode_event(&r).unwrap();
    assert_eq!(e.src_addr, u32::from_le_bytes([192, 168, 0, 1]));
    assert_eq!(e.src_port, 12345);
    assert_eq!(e.dst_port, 443);
    assert_eq!(e.protocol, 6);
    assert_eq!(e.pkt_len, 128);
    assert_eq!(e.action, 100);
    assert_eq!(e.drop_reason, 8);
    assert_eq!(e.ktime_ns, 0x1122334455667788);
}

#[test]
fn short_record_is_discarded() {
    let r = record(1);
    assert!(decode_event(&r[..EVENT_RECORD_LEN - 1]).is_none());
}

fn frame(proto: u8, ihl: u8) -> Vec<u8> {
    let mut f = vec![0u8; 12];
    f.extend_from_slice(&[0x08, 0x00]);
    let mut ip = vec![0u8; (ihl as usize) * 4];
    ip[0] = 0x40 | ihl;
    ip[2..4].copy_from_slice(&60u16.to_be_bytes());
    ip[9] = proto;
    ip[12..16].copy_from_slice(&[192, 168, 0, 1]);
    ip[16..20].copy_from_slice(&[10, 0, 0, 1]);
    f.extend_from_slice(&ip);
    let mut l4 = vec![0u8; 20];
    l4[0..2].copy_from_slice(&12345u16.to_be_bytes());
    l4[2..4].copy_from_slice(&443u16.to_be_bytes());
    f.extend_from_slice(&l4);
    f
}

#[test]
fn tcp_frame_gives_pass_event() {
    let e = parse_frame(&frame(6, 5), 99).unwrap();
    assert_eq!(e.action, ACTION_XDP_PASS);
    assert_eq!(e.src_port, 12345);
    assert_eq!(e.dst_port, 443);
    assert_eq!(e.pkt_len, 60);
    assert_eq!(e.src_addr, u32::from_le_bytes([192, 168, 0, 1]));
    assert_eq!(e.drop_reason, 0);
    assert_eq!(e.ktime_ns, 99);
}

#[test]
fn ip_options_shift_the_transport_header() {
    let e = parse_frame(&frame(17, 6), 0).unwrap();
    assert_eq!(e.protocol, 17);
    assert_eq!(e.src_port, 12345);
}

#[test]
fn other_frames_give_no_event() {
    assert!(parse_frame(&frame(1, 5), 0).is_none());
    let mut not_ip = frame(6, 5);
    not_ip[12] = 0x86;
    not_ip[13] = 0xDD;
    assert!(parse_frame(&not_ip, 0).is_none());
    let f = frame(6, 5);
    assert!(parse_frame(&f[..f.len() - 1], 0).is_none());
    assert!(parse_frame(&f[..10], 0).is_none());
}

fn kfree_record(l2: u16, reason: u32) -> Vec<u8> {
    let mut r = vec![0u8; 24];
    r.extend_from_slice(&l2.to_le_bytes());
    r.extend_from_slice(&[0, 0]);
    r.extend_from_slice(&reason.to_le_bytes());
    r
}

fn ip_header(proto: u8) -> Vec<u8> {
    let mut ip = vec![0u8; 20];
    ip[0] = 0x45;
    ip[9] = proto;
    ip[12..16].copy_from_slice(&[192, 168, 0, 1]);
    ip[16..20].copy_from_slice(&[10, 0, 0, 1]);
    ip
}

fn ports(src: u16, dst: u16, len: usize) -> Vec<u8> {
    let mut l4 = vec![0u8; len];
    l4[0..2].copy_from_slice(&src.to_be_bytes());
    l4[2..4].copy_from_slice(&dst.to_be_bytes());
    l4
}

#[test]
fn kfree_of_tcp_buffer_gives_drop_event() {
    let e = parse_kfree(
        &kfree_record(0x0800, 8),
        &ip_header(6),
        &ports(12345, 443, 20),
        128,
        7,
    )
    .unwrap();
    assert_eq!(e.action, ACTION_KFREE_SKB);
    assert_eq!(e.drop_reason, 8);
    assert_eq!(e.src_port, 12345);
    assert_eq!(e.dst_port, 443);
    assert_eq!(e.pkt_len, 128);
    assert_eq!(e.protocol, 6);
    assert_eq!(e.src_addr, u32::from_le_bytes([192, 168, 0, 1]));
}

#[test]
fn kfree_filters_non_ipv4_and_other_protocols() {
    assert!(parse_kfree(&kfree_record(0x86DD, 8), &ip_header(6), &ports(1, 2, 20), 1, 0).is_none());
    assert!(parse_kfree(&kfree_record(0x0800, 8), &ip_header(1), &ports(1, 2, 20), 1, 0).is_none());
    assert!(parse_kfree(&kfree_record(0x0800, 8), &ip_header(6), &ports(1, 2, 8), 1, 0).is_none());
    assert!(parse_kfree(&kfree_record(0x0800, 8), &ip_header(17), &ports(1, 2, 8), 1, 0).is_some());
}
