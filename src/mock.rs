use vstd::prelude::*;

use crate::types::{AnimatingPacket, CaptureStats, CapturedPacket, PacketResult};

verus! {

/// Shape of the synthetic traffic used when the kernel probes are not available.
#[derive(Debug, Clone, Copy, PartialEq, Eq, Structural)]
pub enum MockTrafficProfile {
    Realistic,
    Bench,
    Dataset,
}

/// Counters of one generated batch, applied to the session at once.
#[derive(Debug, Clone, Copy, PartialEq, Eq, Structural)]
pub struct BatchStatsDelta {
    pub total_packets: u64,
    pub nic_dropped: u64,
    pub fw_dropped: u64,
    pub delivered: u64,
}

impl BatchStatsDelta {
    pub fn new() -> (r: BatchStatsDelta)
        ensures
            r.total_packets == 0 && r.nic_dropped == 0 && r.fw_dropped == 0 && r.delivered == 0,
    {
        BatchStatsDelta { total_packets: 0, nic_dropped: 0, fw_dropped: 0, delivered: 0 }
    }

    pub open spec fn balanced(self) -> bool {
        self.total_packets == self.delivered + self.nic_dropped + self.fw_dropped
    }
}

/// Text attached to a synthetic drop of kind `result`.
pub open spec fn mock_reason(result: PacketResult) -> Option<Seq<char>> {
    match result {
        PacketResult::NicDrop => Some("Buffer overflow"@),
        PacketResult::FwDrop => Some("Blocked by rule"@),
        PacketResult::Delivered => None,
    }
}

/// Labels a synthetic packet; drops get a reason.
pub fn packet_with_result(packet: AnimatingPacket, result: PacketResult) -> (r: CapturedPacket)
    ensures
        r.result == result,
        r.packet.id == packet.id,
        r.packet.size == packet.size,
        r.packet.source == packet.source,
        r.packet.destination == packet.destination,
        match mock_reason(result) {
            Some(t) => r.packet.reason matches Some(s) && s@ == t,
            None => r.packet.reason == packet.reason,
        },
{
    let packet = match result {
        PacketResult::NicDrop => packet.with_reason("Buffer overflow"),
        PacketResult::FwDrop => packet.with_reason("Blocked by rule"),
        PacketResult::Delivered => packet,
    };
    CapturedPacket { packet, result }
}

/// Counts one packet of fate `result` in the batch counters.
pub fn apply_result_to_delta(delta: &mut BatchStatsDelta, result: &PacketResult)
    requires
        old(delta).total_packets < u64::MAX,
        old(delta).balanced(),
    ensures
        final(delta).balanced(),
        final(delta).total_packets == old(delta).total_packets + 1,
        final(delta).delivered == old(delta).delivered + if *result == PacketResult::Delivered {
            1int
        } else {
            0int
        },
        final(delta).nic_dropped == old(delta).nic_dropped + if *result == PacketResult::NicDrop {
            1int
        } else {
            0int
        },
        final(delta).fw_dropped == old(delta).fw_dropped + if *result == PacketResult::FwDrop {
            1int
        } else {
            0int
        },
{
    delta.total_packets = delta.total_packets + 1;
    match result {
        PacketResult::NicDrop => delta.nic_dropped = delta.nic_dropped + 1,
        PacketResult::FwDrop => delta.fw_dropped = delta.fw_dropped + 1,
        PacketResult::Delivered => delta.delivered = delta.delivered + 1,
    }
}

/// Adds a batch's counters to the session counters.
pub fn apply_stats_delta(stats: &mut CaptureStats, delta: BatchStatsDelta)
    requires
        old(stats).balanced(),
        delta.balanced(),
        old(stats).total_packets + delta.total_packets <= u64::MAX,
    ensures
        final(stats).balanced(),
        final(stats).total_packets == old(stats).total_packets + delta.total_packets,
        final(stats).delivered == old(stats).delivered + delta.delivered,
        final(stats).nic_dropped == old(stats).nic_dropped + delta.nic_dropped,
        final(stats).fw_dropped == old(stats).fw_dropped + delta.fw_dropped,
        final(stats).transport_dropped == old(stats).transport_dropped,
{
    if delta.total_packets == 0 {
        return;
    }
    stats.total_packets = stats.total_packets + delta.total_packets;
    stats.nic_dropped = stats.nic_dropped + delta.nic_dropped;
    stats.fw_dropped = stats.fw_dropped + delta.fw_dropped;
    stats.delivered = stats.delivered + delta.delivered;
}

} // verus!
