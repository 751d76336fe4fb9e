use vstd::prelude::*;

use crate::drop_reason::le_u32;
use crate::types::{PacketEvent, ACTION_KFREE_SKB, ACTION_XDP_PASS};

verus! {

/// Size of one ring-buffer record: the `#[repr(C)]` layout of `PacketEvent`,
/// with `ktime_ns` aligned to 8 bytes.
pub const EVENT_RECORD_LEN: usize = 40;

/// Length of an Ethernet header.
pub const ETH_HDR_LEN: usize = 14;

/// Length of an IPv4 header without options.
pub const IPV4_HDR_LEN: usize = 20;

/// Length of a TCP header without options.
pub const TCP_HDR_LEN: usize = 20;

/// Length of a UDP header.
pub const UDP_HDR_LEN: usize = 8;

/// IP protocol number of TCP.
pub const IPPROTO_TCP: u8 = 6;

/// IP protocol number of UDP.
pub const IPPROTO_UDP: u8 = 17;

pub open spec fn le_u16_at(b: Seq<u8>, off: int) -> u16 {
    (b[off] + b[off + 1] * 256) as u16
}

pub open spec fn be_u16_at(b: Seq<u8>, off: int) -> u16 {
    (b[off] * 256 + b[off + 1]) as u16
}

pub open spec fn le_u64_at(b: Seq<u8>, off: int) -> u64 {
    (le_u32(b, off) + le_u32(b, off + 4) * 0x1_0000_0000) as u64
}

/// The event a ring-buffer record holds, read as a little-endian machine lays
/// out `PacketEvent`.
pub open spec fn record_event(b: Seq<u8>) -> PacketEvent {
    PacketEvent {
        src_addr: le_u32(b, 0),
        dst_addr: le_u32(b, 4),
        src_port: le_u16_at(b, 8),
        dst_port: le_u16_at(b, 10),
        protocol: b[12],
        _padding: [b[13], b[14], b[15]],
        pkt_len: le_u32(b, 16),
        action: le_u32(b, 20),
        drop_reason: le_u32(b, 24),
        ktime_ns: le_u64_at(b, 32),
    }
}

fn u16_le(b: &[u8], off: usize) -> (r: u16)
    requires
        off + 2 <= b@.len(),
    ensures
        r == le_u16_at(b@, off as int),
{
    b[off] as u16 + (b[off + 1] as u16) * 256
}

fn u16_be(b: &[u8], off: usize) -> (r: u16)
    requires
        off + 2 <= b@.len(),
    ensures
        r == be_u16_at(b@, off as int),
{
    (b[off] as u16) * 256 + b[off + 1] as u16
}

fn u32_le(b: &[u8], off: usize) -> (r: u32)
    requires
        off + 4 <= b@.len(),
    ensures
        r == le_u32(b@, off as int),
{
    b[off] as u32 + (b[off + 1] as u32) * 256 + (b[off + 2] as u32) * 65536 + (b[off + 3] as u32)
        * 16777216
}

/// Copies a ring-buffer record out as an event; records shorter than an
/// event are refused.
pub fn decode_event(record: &[u8]) -> (r: Option<PacketEvent>)
    ensures
        record@.len() < EVENT_RECORD_LEN ==> r is None,
        record@.len() >= EVENT_RECORD_LEN ==> r == Some(record_event(record@)),
{
    if record.len() < EVENT_RECORD_LEN {
        return None;
    }
    let lo = u32_le(record, 32) as u64;
    let hi = u32_le(record, 36) as u64;
    Some(
        PacketEvent {
            src_addr: u32_le(record, 0),
            dst_addr: u32_le(record, 4),
            src_port: u16_le(record, 8),
            dst_port: u16_le(record, 10),
            protocol: record[12],
            _padding: [record[13], record[14], record[15]],
            pkt_len: u32_le(record, 16),
            action: u32_le(record, 20),
            drop_reason: u32_le(record, 24),
            ktime_ns: lo + hi * 0x1_0000_0000,
        },
    )
}

/// Offset of the transport header of an IPv4 frame.
pub open spec fn transport_offset(frame: Seq<u8>) -> int {
    ETH_HDR_LEN + (frame[ETH_HDR_LEN as int] % 16) * 4
}

/// The event the ingress hook reports for `frame` seen at `ktime_ns`: only
/// complete Ethernet/IPv4 frames carrying a complete TCP or UDP header give one.
pub open spec fn frame_event(frame: Seq<u8>, ktime_ns: u64) -> Option<PacketEvent> {
    if frame.len() < ETH_HDR_LEN || be_u16_at(frame, 12) != 0x0800 || frame.len() < ETH_HDR_LEN
        + IPV4_HDR_LEN {
        None
    } else {
        let proto = frame[ETH_HDR_LEN + 9];
        let t = transport_offset(frame);
        let need = if proto == IPPROTO_TCP {
            TCP_HDR_LEN
        } else {
            UDP_HDR_LEN
        };
        if (proto != IPPROTO_TCP && proto != IPPROTO_UDP) || t + need > frame.len() {
            None
        } else {
            Some(
                PacketEvent {
                    src_addr: le_u32(frame, ETH_HDR_LEN + 12),
                    dst_addr: le_u32(frame, ETH_HDR_LEN + 16),
                    src_port: be_u16_at(frame, t),
                    dst_port: be_u16_at(frame, t + 2),
                    protocol: proto,
                    _padding: [0, 0, 0],
                    pkt_len: be_u16_at(frame, ETH_HDR_LEN + 2) as u32,
                    action: ACTION_XDP_PASS,
                    drop_reason: 0,
                    ktime_ns,
                },
            )
        }
    }
}

/// Parses an ingress frame the way the XDP hook does.
pub fn parse_frame(frame: &[u8], ktime_ns: u64) -> (r: Option<PacketEvent>)
    ensures
        r == frame_event(frame@, ktime_ns),
{
    if frame.len() < ETH_HDR_LEN {
        return None;
    }
    if u16_be(frame, 12) != 0x0800 {
        return None;
    }
    if frame.len() < ETH_HDR_LEN + IPV4_HDR_LEN {
        return None;
    }
    let proto = frame[ETH_HDR_LEN + 9];
    if proto != IPPROTO_TCP && proto != IPPROTO_UDP {
        return None;
    }
    let ihl = (frame[ETH_HDR_LEN] % 16) as usize * 4;
    let t = ETH_HDR_LEN + ihl;
    let need = if proto == IPPROTO_TCP {
        TCP_HDR_LEN
    } else {
        UDP_HDR_LEN
    };
    if t + need > frame.len() {
        return None;
    }
    Some(
        PacketEvent {
            src_addr: u32_le(frame, ETH_HDR_LEN + 12),
            dst_addr: u32_le(frame, ETH_HDR_LEN + 16),
            src_port: u16_be(frame, t),
            dst_port: u16_be(frame, t + 2),
            protocol: proto,
            _padding: [0, 0, 0],
            pkt_len: u16_be(frame, ETH_HDR_LEN + 2) as u32,
            action: ACTION_XDP_PASS,
            drop_reason: 0,
            ktime_ns,
        },
    )
}

/// Length of the `kfree_skb` tracepoint record up to the drop reason.
pub const KFREE_RECORD_LEN: usize = 32;

/// Offset of the L2 protocol (host order) in the tracepoint record.
pub const KFREE_PROTOCOL_OFFSET: usize = 24;

/// Offset of the drop reason in the tracepoint record.
pub const KFREE_REASON_OFFSET: usize = 28;

/// The event the `kfree_skb` probe reports, from the tracepoint record, the
/// IPv4 header and the transport header of the freed buffer, its length and
/// the time: only IPv4 buffers carrying TCP or UDP give one.
pub open spec fn kfree_event(
    record: Seq<u8>,
    ip: Seq<u8>,
    l4: Seq<u8>,
    pkt_len: u32,
    ktime_ns: u64,
) -> Option<PacketEvent> {
    if record.len() < KFREE_RECORD_LEN || le_u16_at(record, KFREE_PROTOCOL_OFFSET as int) != 0x0800
        || ip.len() < IPV4_HDR_LEN {
        None
    } else {
        let proto = ip[9];
        let need = if proto == IPPROTO_TCP {
            TCP_HDR_LEN
        } else {
            UDP_HDR_LEN
        };
        if (proto != IPPROTO_TCP && proto != IPPROTO_UDP) || l4.len() < need {
            None
        } else {
            Some(
                PacketEvent {
                    src_addr: le_u32(ip, 12),
                    dst_addr: le_u32(ip, 16),
                    src_port: be_u16_at(l4, 0),
                    dst_port: be_u16_at(l4, 2),
                    protocol: proto,
                    _padding: [0, 0, 0],
                    pkt_len,
                    action: ACTION_KFREE_SKB,
                    drop_reason: le_u32(record, KFREE_REASON_OFFSET as int),
                    ktime_ns,
                },
            )
        }
    }
}

/// Builds the event of a freed buffer the way the `kfree_skb` probe does.
pub fn parse_kfree(record: &[u8], ip: &[u8], l4: &[u8], pkt_len: u32, ktime_ns: u64) -> (r: Option<
    PacketEvent,
>)
    ensures
        r == kfree_event(record@, ip@, l4@, pkt_len, ktime_ns),
{
    if record.len() < KFREE_RECORD_LEN || u16_le(record, KFREE_PROTOCOL_OFFSET) != 0x0800 {
        return None;
    }
    if ip.len() < IPV4_HDR_LEN {
        return None;
    }
    let proto = ip[9];
    if proto != IPPROTO_TCP && proto != IPPROTO_UDP {
        return None;
    }
    let need = if proto == IPPROTO_TCP {
        TCP_HDR_LEN
    } else {
        UDP_HDR_LEN
    };
    if l4.len() < need {
        return None;
    }
    Some(
        PacketEvent {
            src_addr: u32_le(ip, 12),
            dst_addr: u32_le(ip, 16),
            src_port: u16_be(l4, 0),
            dst_port: u16_be(l4, 2),
            protocol: proto,
            _padding: [0, 0, 0],
            pkt_len,
            action: ACTION_KFREE_SKB,
            drop_reason: u32_le(record, KFREE_REASON_OFFSET),
            ktime_ns,
        },
    )
}

} // verus!
