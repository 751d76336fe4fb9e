use vstd::prelude::*;
use vstd::string::StringExecFns;

use crate::text::{decimal, push_char, push_decimal};

verus! {

/// Action code of an event reported by the ingress (XDP) hook.
pub const ACTION_XDP_PASS: u32 = 2;

/// Action code of an event reported by the `kfree_skb` tracepoint.
pub const ACTION_KFREE_SKB: u32 = 100;

/// Kernel drop reason of a netfilter drop (kernel 6.6 numbering).
pub const SKB_DROP_REASON_NETFILTER_DROP: u32 = 8;

/// Length of a session token.
pub const SESSION_ID_LENGTH: usize = 6;

/// A packet observation as the kernel probes report it.
///
/// Addresses are in network byte order, ports in host order.
#[derive(Clone, Copy, Debug)]
pub struct PacketEvent {
    pub src_addr: u32,
    pub dst_addr: u32,
    pub src_port: u16,
    pub dst_port: u16,
    pub protocol: u8,
    pub _padding: [u8; 3],
    pub pkt_len: u32,
    pub action: u32,
    pub drop_reason: u32,
    pub ktime_ns: u64,
}

/// The correlation fingerprint of a packet: its five-tuple and its length.
#[derive(Clone, Copy, Debug, PartialEq, Eq, Structural, Hash)]
pub struct FlowSizeKey {
    pub src_addr: u32,
    pub dst_addr: u32,
    pub src_port: u16,
    pub dst_port: u16,
    pub protocol: u8,
    pub size: u32,
}

impl FlowSizeKey {
    pub open spec fn of(event: PacketEvent) -> FlowSizeKey {
        FlowSizeKey {
            src_addr: event.src_addr,
            dst_addr: event.dst_addr,
            src_port: event.src_port,
            dst_port: event.dst_port,
            protocol: event.protocol,
            size: event.pkt_len,
        }
    }

    pub fn from_event(event: &PacketEvent) -> (r: FlowSizeKey)
        ensures
            r == FlowSizeKey::of(*event),
    {
        FlowSizeKey {
            src_addr: event.src_addr,
            dst_addr: event.dst_addr,
            src_port: event.src_port,
            dst_port: event.dst_port,
            protocol: event.protocol,
            size: event.pkt_len,
        }
    }
}

/// Fate of a captured packet.
#[derive(Debug, Clone, Copy, PartialEq, Eq, Structural)]
pub enum PacketResult {
    Delivered,
    NicDrop,
    FwDrop,
}

/// Transport protocol shown to consumers.
#[derive(Debug, Clone, Copy, PartialEq, Eq, Structural)]
pub enum Protocol {
    Tcp,
    Udp,
}

/// A packet in the shape consumers see.
#[derive(Debug, Clone)]
pub struct AnimatingPacket {
    pub id: String,
    pub protocol: Protocol,
    pub size: u32,
    pub source: String,
    pub src_port: u16,
    pub destination: String,
    pub dest_port: u16,
    pub target_port: Option<u8>,
    pub capture_mono_ns: u64,
    pub reason: Option<String>,
}

impl AnimatingPacket {
    /// The same packet with `reason` attached.
    pub fn with_reason(self, reason: &str) -> (r: AnimatingPacket)
        ensures
            r.reason matches Some(s) && s@ == reason@,
            r.id == self.id,
            r.protocol == self.protocol,
            r.size == self.size,
            r.source == self.source,
            r.src_port == self.src_port,
            r.destination == self.destination,
            r.dest_port == self.dest_port,
            r.target_port == self.target_port,
            r.capture_mono_ns == self.capture_mono_ns,
    {
        let mut p = self;
        p.reason = Some(String::from_str(reason));
        p
    }
}

/// A labelled packet.
#[derive(Debug, Clone)]
pub struct CapturedPacket {
    pub packet: AnimatingPacket,
    pub result: PacketResult,
}

/// Session counters.
#[derive(Debug, Clone, Copy, PartialEq, Eq, Structural)]
pub struct CaptureStats {
    pub total_packets: u64,
    pub nic_dropped: u64,
    pub fw_dropped: u64,
    pub delivered: u64,
    pub transport_dropped: u64,
}

impl Default for CaptureStats {
    fn default() -> (r: CaptureStats)
        ensures
            r == CaptureStats::zero(),
    {
        CaptureStats {
            total_packets: 0,
            nic_dropped: 0,
            fw_dropped: 0,
            delivered: 0,
            transport_dropped: 0,
        }
    }
}

impl CaptureStats {
    pub open spec fn zero() -> CaptureStats {
        CaptureStats {
            total_packets: 0,
            nic_dropped: 0,
            fw_dropped: 0,
            delivered: 0,
            transport_dropped: 0,
        }
    }

    /// Every counted packet has exactly one fate.
    pub open spec fn balanced(self) -> bool {
        self.total_packets == self.delivered + self.nic_dropped + self.fw_dropped
    }

    /// The counters after one more packet with fate `result`.
    pub open spec fn counted(self, result: PacketResult) -> CaptureStats {
        CaptureStats {
            total_packets: (self.total_packets + 1) as u64,
            delivered: if result == PacketResult::Delivered {
                (self.delivered + 1) as u64
            } else {
                self.delivered
            },
            nic_dropped: if result == PacketResult::NicDrop {
                (self.nic_dropped + 1) as u64
            } else {
                self.nic_dropped
            },
            fw_dropped: if result == PacketResult::FwDrop {
                (self.fw_dropped + 1) as u64
            } else {
                self.fw_dropped
            },
            transport_dropped: self.transport_dropped,
        }
    }

    /// Counts one packet with fate `result`.
    pub fn record(&mut self, result: PacketResult)
        requires
            old(self).total_packets < u64::MAX,
            old(self).balanced(),
        ensures
            *final(self) == old(self).counted(result),
            final(self).balanced(),
    {
        self.total_packets = self.total_packets + 1;
        match result {
            PacketResult::Delivered => self.delivered = self.delivered + 1,
            PacketResult::NicDrop => self.nic_dropped = self.nic_dropped + 1,
            PacketResult::FwDrop => self.fw_dropped = self.fw_dropped + 1,
        }
    }
}

/// Errors of the capture control interface.
#[derive(Debug, Clone)]
pub enum CaptureError {
    PermissionDenied(String),
    InterfaceNotFound(String),
    InvalidState(String),
    EbpfLoadFailed(String),
    Other(String),
}

impl CaptureError {
    /// The message shown for this error.
    pub open spec fn text(&self) -> Seq<char> {
        match self {
            CaptureError::PermissionDenied(m) => "Permission denied: "@ + m@,
            CaptureError::InterfaceNotFound(m) => "Interface not found: "@ + m@,
            CaptureError::InvalidState(m) => "Invalid state: "@ + m@,
            CaptureError::EbpfLoadFailed(m) => "eBPF load failed: "@ + m@,
            CaptureError::Other(m) => m@,
        }
    }

    pub fn to_string(&self) -> (r: String)
        ensures
            r@ == self.text(),
    {
        match self {
            CaptureError::PermissionDenied(m) => String::from_str("Permission denied: ").concat(
                m.as_str(),
            ),
            CaptureError::InterfaceNotFound(m) => String::from_str(
                "Interface not found: ",
            ).concat(m.as_str()),
            CaptureError::InvalidState(m) => String::from_str("Invalid state: ").concat(
                m.as_str(),
            ),
            CaptureError::EbpfLoadFailed(m) => String::from_str("eBPF load failed: ").concat(
                m.as_str(),
            ),
            CaptureError::Other(m) => m.clone(),
        }
    }
}

/// `pkt-<session>-<counter>`.
pub open spec fn packet_id(session_id: Seq<char>, counter: u64) -> Seq<char> {
    "pkt-"@ + session_id + "-"@ + decimal(counter as nat)
}

pub fn build_packet_id(session_id: &str, counter: u64) -> (r: String)
    ensures
        r@ == packet_id(session_id@, counter),
{
    let mut s = String::from_str("pkt-");
    s.append(session_id);
    s.append("-");
    push_decimal(&mut s, counter);
    s
}

/// The base-36 digit `d` (below 36): `0`-`9`, then `a`-`z`.
pub open spec fn base36_char(d: u8) -> char {
    if d < 10 {
        ((48 + d) as u8) as char
    } else {
        ((87 + d) as u8) as char
    }
}

/// A session token from its digits, each below 36.
pub fn session_id_from_digits(digits: &Vec<u8>) -> (r: String)
    requires
        forall|i: int| 0 <= i < digits@.len() ==> #[trigger] digits@[i] < 36,
    ensures
        r@ == digits@.map_values(|d: u8| base36_char(d)),
{
    let mut s = String::new();
    let mut i: usize = 0;
    while i < digits.len()
        invariant
            i <= digits@.len(),
            forall|m: int| 0 <= m < digits@.len() ==> #[trigger] digits@[m] < 36,
            s@ == digits@.take(i as int).map_values(|d: u8| base36_char(d)),
        decreases digits@.len() - i,
    {
        let d = digits[i];
        let c = if d < 10 {
            ((48 + d) as u8) as char
        } else {
            ((87 + d) as u8) as char
        };
        push_char(&mut s, c);
        assert(digits@.take(i + 1) =~= digits@.take(i as int).push(d));
        assert(s@ =~= digits@.take(i + 1).map_values(|d: u8| base36_char(d)));
        i = i + 1;
    }
    assert(digits@.take(i as int) =~= digits@);
    s
}

/// Relies on `rand::random_range`: an integer drawn below `bound` (which must
/// not be zero, or the range would be empty).
#[verifier::external_body]
fn draw_below(bound: u8) -> (r: u8)
    requires
        bound > 0,
    ensures
        r < bound,
{
    rand::random_range(0..bound)
}

/// A fresh random session token of `SESSION_ID_LENGTH` base-36 characters.
pub fn generate_session_id() -> (r: String)
    ensures
        r@.len() == SESSION_ID_LENGTH,
        exists|digits: Seq<u8>|
            digits.len() == SESSION_ID_LENGTH && (forall|i: int|
                0 <= i < digits.len() ==> #[trigger] digits[i] < 36) && r@ == digits.map_values(
                |d: u8| base36_char(d),
            ),
{
    let mut digits: Vec<u8> = Vec::new();
    let mut i: usize = 0;
    while i < SESSION_ID_LENGTH
        invariant
            i <= SESSION_ID_LENGTH,
            digits@.len() == i,
            forall|m: int| 0 <= m < digits@.len() ==> #[trigger] digits@[m] < 36,
        decreases SESSION_ID_LENGTH - i,
    {
        digits.push(draw_below(36));
        i = i + 1;
    }
    let r = session_id_from_digits(&digits);
    assert(r@.len() == SESSION_ID_LENGTH);
    r
}

/// The protocol shown for IP protocol number `p`: 17 is UDP, anything else TCP.
pub open spec fn protocol_of(p: u8) -> Protocol {
    if p == 17 {
        Protocol::Udp
    } else {
        Protocol::Tcp
    }
}

/// Dotted-decimal text of an IPv4 address held in network byte order, as a
/// little-endian load leaves it: the first octet is the lowest byte.
pub open spec fn dotted_quad(addr: u32) -> Seq<char> {
    decimal((addr % 256) as nat) + "."@ + decimal(((addr / 256) % 256) as nat) + "."@ + decimal(
        ((addr / 65536) % 256) as nat,
    ) + "."@ + decimal((addr / 16777216) as nat)
}

pub fn format_ipv4(addr: u32) -> (r: String)
    ensures
        r@ == dotted_quad(addr),
{
    let mut s = String::new();
    push_decimal(&mut s, (addr % 256) as u64);
    push_char(&mut s, '.');
    push_decimal(&mut s, ((addr / 256) % 256) as u64);
    push_char(&mut s, '.');
    push_decimal(&mut s, ((addr / 65536) % 256) as u64);
    push_char(&mut s, '.');
    push_decimal(&mut s, (addr / 16777216) as u64);
    proof {
        reveal_strlit(".");
    }
    assert(s@ =~= dotted_quad(addr));
    s
}

/// `c` is `event` of session `session_id` with `counter`, labelled `result`
/// with `reason`, in the consumer-facing shape.
pub open spec fn describes(
    c: CapturedPacket,
    event: PacketEvent,
    session_id: Seq<char>,
    counter: u64,
    result: PacketResult,
    reason: Option<String>,
) -> bool {
    &&& c.result == result
    &&& c.packet.id@ == packet_id(session_id, counter)
    &&& c.packet.protocol == protocol_of(event.protocol)
    &&& c.packet.size == event.pkt_len
    &&& c.packet.source@ == dotted_quad(event.src_addr)
    &&& c.packet.src_port == event.src_port
    &&& c.packet.destination@ == dotted_quad(event.dst_addr)
    &&& c.packet.dest_port == event.dst_port
    &&& c.packet.target_port is None
    &&& c.packet.capture_mono_ns == event.ktime_ns
    &&& c.packet.reason == reason
}

/// Projects a kernel event into the consumer-facing shape, labelled `result`.
pub fn convert_event(
    event: &PacketEvent,
    session_id: &str,
    counter: u64,
    result: PacketResult,
    reason: Option<String>,
) -> (r: CapturedPacket)
    ensures
        describes(r, *event, session_id@, counter, result, reason),
{
    let id = build_packet_id(session_id, counter);
    let protocol = if event.protocol == 17 {
        Protocol::Udp
    } else {
        Protocol::Tcp
    };
    let source = format_ipv4(event.src_addr);
    let destination = format_ipv4(event.dst_addr);
    let packet = AnimatingPacket {
        id,
        protocol,
        size: event.pkt_len,
        source,
        src_port: event.src_port,
        destination,
        dest_port: event.dst_port,
        target_port: None,
        capture_mono_ns: event.ktime_ns,
        reason,
    };
    CapturedPacket { packet, result }
}

} // verus!
