use vstd::multiset::Multiset;
use vstd::prelude::*;

use crate::correlator::{
    counters_distinct, expired_upto, items_upto, Correlator, PendingPacket, WHEEL_SLOTS,
};
use crate::drop_reason::{reason_text, DropReasonResolver};
use crate::types::{
    convert_event, describes, CaptureStats, CapturedPacket, PacketEvent, PacketResult,
    ACTION_KFREE_SKB, ACTION_XDP_PASS,
};

verus! {

broadcast use {vstd::multiset::group_multiset_axioms, vstd::seq_lib::group_to_multiset_ensures};

/// Size at which an output batch is handed out at once.
pub const BATCH_MAX_SIZE: usize = 256;

/// Period of the timer that hands out a partial batch, in milliseconds.
pub const BATCH_FLUSH_INTERVAL_MS: u64 = 16;

/// Period of the expiry drain, in milliseconds.
pub const EXPIRY_TICK_MS: u64 = 10;

/// The packets of a sequence of batches, batch after batch.
pub open spec fn flatten(bs: Seq<Vec<CapturedPacket>>) -> Seq<CapturedPacket>
    decreases bs.len(),
{
    if bs.len() == 0 {
        Seq::empty()
    } else {
        flatten(bs.drop_last()) + bs.last()@
    }
}

proof fn lemma_expired_within_pending(wheel: Seq<crate::correlator::BucketSlot>, e: u64, n: int)
    requires
        0 <= n,
    ensures
        expired_upto(wheel, e, n).len() <= items_upto(wheel, n).len(),
    decreases n,
{
    if n > 0 {
        lemma_expired_within_pending(wheel, e, n - 1);
    }
}

/// Each registered packet is, as many times as it was registered, still
/// pending, labelled once on leaving the wheel, or lost to slot reuse; and the
/// counters count exactly the labelled ones.
pub proof fn lemma_every_registration_accounted(t: CorrelationTask, p: PendingPacket)
    requires
        t.wf(),
    ensures
        t.registered@.count(p) == t.correlator.pending().to_multiset().count(p) + t.labelled@.count(
            p,
        ) + t.lost@.count(p),
        t.labelled@.len() == t.stats.total_packets,
{
}

/// When the registered packets carry distinct counters, so do the labelled
/// ones: no counter is emitted twice.
pub proof fn lemma_labelled_counters_distinct(t: CorrelationTask)
    requires
        t.wf(),
        counters_distinct(t.registered@),
    ensures
        counters_distinct(t.labelled@),
{
    let pm = t.correlator.pending().to_multiset();
    assert forall|a: PendingPacket| #[trigger] t.labelled@.count(a) <= t.registered@.count(a) by {
        assert(t.registered@.count(a) == pm.count(a) + t.labelled@.count(a)
            + Multiset::<PendingPacket>::empty().count(a) + t.lost@.count(a));
    }
    assert forall|a: PendingPacket, b: PendingPacket|
        #[trigger] t.labelled@.count(a) > 0 && #[trigger] t.labelled@.count(b) > 0 && a.counter
            == b.counter implies a == b && t.labelled@.count(a) == 1 by {
        assert(t.registered@.count(a) > 0 && t.registered@.count(b) > 0);
    }
}

/// The decisions of the correlation task: ingress observations are held in
/// the timing wheel, drops are paired with them, expired ones leave as
/// delivered; every labelled packet is counted and batched.
pub struct CorrelationTask {
    pub correlator: Correlator,
    pub resolver: DropReasonResolver,
    pub session_id: String,
    pub stats: CaptureStats,
    pub out_batch: Vec<CapturedPacket>,
    pub batch_max: usize,
    /// Number of packets handed out in batches so far.
    pub emitted: Ghost<nat>,
    /// Every packet registered so far.
    pub registered: Ghost<Multiset<PendingPacket>>,
    /// Registered packets that left the wheel labelled, paired or expired.
    pub labelled: Ghost<Multiset<PendingPacket>>,
    /// Registered packets discarded when their slot was reused for a newer epoch.
    pub lost: Ghost<Multiset<PendingPacket>>,
}

proof fn lemma_items_upto_empty(w: Seq<crate::correlator::BucketSlot>, n: int)
    requires
        0 <= n <= w.len(),
        forall|i: int| 0 <= i < n ==> (#[trigger] w[i]).queues@.len() == 0,
    ensures
        items_upto(w, n).len() == 0,
    decreases n,
{
    if n > 0 {
        lemma_items_upto_empty(w, n - 1);
        assert(w[n - 1].queues@.len() == 0);
        assert(crate::correlator::all_items(w[n - 1].queues@).len() == 0);
    }
}

impl CorrelationTask {
    pub open spec fn wf(&self) -> bool {
        self.wf_base() && self.accounted(Multiset::empty())
    }

    pub open spec fn wf_base(&self) -> bool {
        &&& self.correlator.wf()
        &&& self.stats.balanced()
        &&& 0 < self.batch_max
        &&& self.out_batch@.len() < self.batch_max
        &&& self.emitted@ + self.out_batch@.len() == self.stats.total_packets
    }

    /// Every registered packet is still pending, has left labelled, is
    /// `in_flight` between the wheel and the batch, or was lost to slot reuse,
    /// each exactly as often as it was registered; the labelled ones are the
    /// counted ones.
    pub open spec fn accounted(&self, in_flight: Multiset<PendingPacket>) -> bool {
        &&& self.registered@ == self.correlator.pending().to_multiset().add(self.labelled@).add(
            in_flight,
        ).add(self.lost@)
        &&& self.labelled@.len() == self.stats.total_packets
    }

    /// The parts a step never changes.
    pub open spec fn same_setup(&self, other: &CorrelationTask) -> bool {
        &&& other.resolver == self.resolver
        &&& other.session_id == self.session_id
        &&& other.batch_max == self.batch_max
    }

    pub fn new(base_ns: u64, session_id: String, resolver: DropReasonResolver, batch_max: usize) -> (r:
        CorrelationTask)
        requires
            batch_max > 0,
        ensures
            r.wf(),
            r.correlator.is_empty_spec(),
            r.correlator.base_ns == base_ns,
            r.stats == CaptureStats::zero(),
            r.out_batch@.len() == 0,
            r.emitted@ == 0,
            r.registered@ == Multiset::<PendingPacket>::empty(),
            r.labelled@ == Multiset::<PendingPacket>::empty(),
            r.lost@ == Multiset::<PendingPacket>::empty(),
            r.session_id == session_id,
            r.resolver == resolver,
            r.batch_max == batch_max,
    {
        let r = CorrelationTask {
            correlator: Correlator::new(base_ns),
            resolver,
            session_id,
            stats: CaptureStats::default(),
            out_batch: Vec::new(),
            batch_max,
            emitted: Ghost(0),
            registered: Ghost(Multiset::empty()),
            labelled: Ghost(Multiset::empty()),
            lost: Ghost(Multiset::empty()),
        };
        proof {
            lemma_items_upto_empty(r.correlator.wheel@, WHEEL_SLOTS as int);
            assert(r.correlator.pending().to_multiset() =~= Multiset::empty());
            assert(r.registered@ =~= r.correlator.pending().to_multiset().add(r.labelled@).add(
                Multiset::empty(),
            ).add(r.lost@));
        }
        r
    }

    /// Counts `c` and appends it to the batch; a batch that reaches its size
    /// is returned.
    fn push_captured(
        &mut self,
        c: CapturedPacket,
        p: Ghost<PendingPacket>,
        rest: Ghost<Multiset<PendingPacket>>,
    ) -> (r: Option<Vec<CapturedPacket>>)
        requires
            old(self).wf_base(),
            old(self).accounted(rest@.insert(p@)),
            old(self).stats.total_packets < u64::MAX,
        ensures
            final(self).wf_base(),
            final(self).accounted(rest@),
            final(self).registered == old(self).registered,
            final(self).lost == old(self).lost,
            final(self).labelled@ == old(self).labelled@.insert(p@),
            old(self).same_setup(final(self)),
            final(self).correlator == old(self).correlator,
            final(self).stats == old(self).stats.counted(c.result),
            match r {
                Some(v) => v@ == old(self).out_batch@.push(c) && v@.len() == old(self).batch_max
                    && final(self).out_batch@.len() == 0 && final(self).emitted@ == old(self).emitted@ + v@.len(),
                None => final(self).out_batch@ == old(self).out_batch@.push(c) && final(self).emitted@ == old(self).emitted@,
            },
    {
        let result = c.result;
        self.stats.record(result);
        self.out_batch.push(c);
        self.labelled = Ghost(self.labelled@.insert(p@));
        proof {
            let pm = self.correlator.pending().to_multiset();
            assert(self.registered@ =~= pm.add(self.labelled@).add(rest@).add(self.lost@));
        }
        if self.out_batch.len() >= self.batch_max {
            let mut full: Vec<CapturedPacket> = Vec::new();
            std::mem::swap(&mut full, &mut self.out_batch);
            self.emitted = Ghost(self.emitted@ + full@.len());
            Some(full)
        } else {
            None
        }
    }

    /// Handles one event from the ring buffer, received at `now` and given
    /// `counter`. Returns a batch to publish when one filled up.
    pub fn on_event(&mut self, event: PacketEvent, counter: u64, now: u64) -> (r: Option<
        Vec<CapturedPacket>,
    >)
        requires
            old(self).wf(),
            old(self).stats.total_packets < u64::MAX,
        ensures
            final(self).wf(),
            old(self).same_setup(final(self)),
            event.action == ACTION_XDP_PASS ==> {
                &&& final(self).registered@ == old(self).registered@.insert(
                    PendingPacket { event, counter, received_at: now },
                )
                &&& final(self).lost@ == old(self).lost@.add(
                    old(self).correlator.purged_by(old(self).correlator.bucket_at(now)).to_multiset(),
                )
                &&& final(self).labelled@ == old(self).labelled@
            },
            event.action != ACTION_XDP_PASS ==> final(self).registered@ == old(self).registered@
                && final(self).lost@ == old(self).lost@,
            event.action != ACTION_KFREE_SKB ==> final(self).labelled@ == old(self).labelled@,
            event.action == ACTION_XDP_PASS ==> {
                &&& Correlator::registered(old(self).correlator, final(self).correlator, event, counter, now)
                &&& r is None
                &&& final(self).stats == old(self).stats
                &&& final(self).out_batch@ == old(self).out_batch@
                &&& final(self).emitted@ == old(self).emitted@
            },
            event.action != ACTION_XDP_PASS && event.action != ACTION_KFREE_SKB ==> {
                &&& final(self).correlator == old(self).correlator
                &&& r is None
                &&& final(self).stats == old(self).stats
                &&& final(self).out_batch@ == old(self).out_batch@
                &&& final(self).emitted@ == old(self).emitted@
            },
            event.action == ACTION_KFREE_SKB ==> exists|m: Option<PendingPacket>|
                #[trigger] Correlator::matched(old(self).correlator, final(self).correlator, event, now, m)
                    && (m is None ==> {
                    &&& final(self).labelled@ == old(self).labelled@
                    &&& r is None
                    &&& final(self).stats == old(self).stats
                    &&& final(self).out_batch@ == old(self).out_batch@
                    &&& final(self).emitted@ == old(self).emitted@
                }) && (m matches Some(p) ==> {
                    let res = old(self).resolver.class_of(event.drop_reason);
                    let all = match r {
                        Some(v) => v@,
                        None => final(self).out_batch@,
                    };
                    &&& final(self).labelled@ == old(self).labelled@.insert(p)
                    &&& final(self).stats == old(self).stats.counted(res)
                    &&& all == old(self).out_batch@.push(all.last())
                    &&& describes(all.last(), p.event, old(self).session_id@, p.counter, res, all.last().packet.reason)
                    &&& all.last().packet.reason matches Some(s) && s@ == reason_text(
                        old(self).resolver.names_view(),
                        event.drop_reason,
                        res,
                    )
                    &&& match r {
                        Some(v) => final(self).out_batch@.len() == 0 && final(self).emitted@ == old(self).emitted@ + v@.len(),
                        None => final(self).emitted@ == old(self).emitted@,
                    }
                }),
    {
        if event.action == ACTION_XDP_PASS {
            let ghost purged = self.correlator.purged_by(self.correlator.bucket_at(now)).to_multiset();
            let ghost pp = PendingPacket { event, counter, received_at: now };
            self.correlator.register_pass(event, counter, now);
            self.registered = Ghost(self.registered@.insert(pp));
            self.lost = Ghost(self.lost@.add(purged));
            proof {
                let pm = self.correlator.pending().to_multiset();
                let om = old(self).correlator.pending().to_multiset();
                assert(pm.add(purged) == om.insert(pp));
                let goal = pm.add(self.labelled@).add(Multiset::empty()).add(self.lost@);
                assert forall|v: PendingPacket| #[trigger] self.registered@.count(v) == goal.count(v) by {
                    assert(pm.add(purged).count(v) == om.insert(pp).count(v));
                }
                assert(self.registered@ =~= goal);
            }
            None
        } else if event.action == ACTION_KFREE_SKB {
            let result = self.resolver.classify_drop(event.drop_reason);
            let reason = self.resolver.drop_reason_string(event.drop_reason, &result);
            let m = self.correlator.match_kfree(&event, now);
            match m {
                Some(p) => {
                    let captured = convert_event(
                        &p.event,
                        self.session_id.as_str(),
                        p.counter,
                        result,
                        Some(reason),
                    );
                    proof {
                        let pm = self.correlator.pending().to_multiset();
                        let om = old(self).correlator.pending().to_multiset();
                        assert(om == pm.insert(p));
                        assert(self.registered@ =~= pm.add(self.labelled@).add(
                            Multiset::<PendingPacket>::empty().insert(p),
                        ).add(self.lost@));
                    }
                    let r = self.push_captured(captured, Ghost(p), Ghost(Multiset::empty()));
                    proof {
                        let all = if r is Some {
                            r->0@
                        } else {
                            self.out_batch@
                        };
                        assert(all.last() == captured);
                        assert(all == old(self).out_batch@.push(all.last()));
                    }
                    r
                },
                None => None,
            }
        } else {
            None
        }
    }

    /// Expiry tick at `now`: every expired pending packet leaves as delivered.
    /// Returns the batches that filled up meanwhile.
    pub fn on_expiry(&mut self, now: u64) -> (r: Vec<Vec<CapturedPacket>>)
        requires
            old(self).wf(),
            old(self).stats.total_packets + old(self).correlator.pending().len() <= u64::MAX,
        ensures
            final(self).wf(),
            old(self).same_setup(final(self)),
            Correlator::drained(old(self).correlator, final(self).correlator, now),
            ({
                let d = expired_upto(
                    old(self).correlator.wheel@,
                    old(self).correlator.bucket_at(now),
                    WHEEL_SLOTS as int,
                );
                let n = old(self).out_batch@.len();
                let all = flatten(r@) + final(self).out_batch@;
                &&& final(self).stats.total_packets == old(self).stats.total_packets + d.len()
                &&& final(self).stats.delivered == old(self).stats.delivered + d.len()
                &&& final(self).stats.nic_dropped == old(self).stats.nic_dropped
                &&& final(self).stats.fw_dropped == old(self).stats.fw_dropped
                &&& final(self).stats.transport_dropped == old(self).stats.transport_dropped
                &&& all.len() == n + d.len()
                &&& all.take(n as int) == old(self).out_batch@
                &&& forall|i: int|
                    0 <= i < d.len() ==> describes(
                        #[trigger] all[n + i],
                        d[i].event,
                        old(self).session_id@,
                        d[i].counter,
                        PacketResult::Delivered,
                        None,
                    )
                &&& final(self).emitted@ == old(self).emitted@ + flatten(r@).len()
                &&& final(self).labelled@ == old(self).labelled@.add(d.to_multiset())
            }),
            final(self).registered == old(self).registered,
            final(self).lost == old(self).lost,
            forall|i: int| 0 <= i < r@.len() ==> (#[trigger] r@[i])@.len() == old(self).batch_max,
    {
        let drained = self.correlator.drain_expired(now);
        proof {
            lemma_expired_within_pending(
                old(self).correlator.wheel@,
                old(self).correlator.bucket_at(now),
                WHEEL_SLOTS as int,
            );
        }
        let ghost d = drained@;
        let ghost n = old(self).out_batch@.len();
        let ghost start = old(self).stats;
        proof {
            let pm = self.correlator.pending().to_multiset();
            assert(d.subrange(0, d.len() as int) =~= d);
            assert(d.take(0) =~= Seq::<PendingPacket>::empty());
            assert(old(self).labelled@.add(d.take(0).to_multiset()) =~= old(self).labelled@);
            assert(self.registered@ =~= pm.add(self.labelled@).add(d.to_multiset()).add(self.lost@));
        }
        let mut batches: Vec<Vec<CapturedPacket>> = Vec::new();
        let mut i: usize = 0;
        while i < drained.len()
            invariant
                self.wf_base(),
                self.accounted(d.subrange(i as int, d.len() as int).to_multiset()),
                self.registered == old(self).registered,
                self.lost == old(self).lost,
                self.labelled@ == old(self).labelled@.add(d.take(i as int).to_multiset()),
                old(self).same_setup(self),
                Correlator::drained(old(self).correlator, self.correlator, now),
                d == drained@,
                i <= d.len(),
                self.stats.total_packets + (d.len() - i) <= u64::MAX,
                self.stats.total_packets == start.total_packets + i,
                self.stats.delivered == start.delivered + i,
                self.stats.nic_dropped == start.nic_dropped,
                self.stats.fw_dropped == start.fw_dropped,
                self.stats.transport_dropped == start.transport_dropped,
                (flatten(batches@) + self.out_batch@).len() == n + i,
                (flatten(batches@) + self.out_batch@).take(n as int) == old(self).out_batch@,
                forall|j: int|
                    0 <= j < i ==> describes(
                        #[trigger] (flatten(batches@) + self.out_batch@)[n + j],
                        d[j].event,
                        old(self).session_id@,
                        d[j].counter,
                        PacketResult::Delivered,
                        None,
                    ),
                self.emitted@ == old(self).emitted@ + flatten(batches@).len(),
                forall|j: int| 0 <= j < batches@.len() ==> (#[trigger] batches@[j])@.len() == old(self).batch_max,
            decreases d.len() - i,
        {
            let p = drained[i];
            let captured = convert_event(
                &p.event,
                self.session_id.as_str(),
                p.counter,
                PacketResult::Delivered,
                None,
            );
            let ghost before_all = flatten(batches@) + self.out_batch@;
            let ghost before_batches = batches@;
            let ghost rest = d.subrange(i + 1, d.len() as int).to_multiset();
            proof {
                let cur = d.subrange(i as int, d.len() as int);
                assert(cur.remove(0) =~= d.subrange(i + 1, d.len() as int));
                vstd::seq_lib::to_multiset_remove(cur, 0);
                assert(cur[0] == p);
                assert(cur.to_multiset().count(p) > 0);
                assert(cur.to_multiset() =~= rest.insert(p));
                assert(d.take(i + 1) =~= d.take(i as int).push(p));
                vstd::seq_lib::to_multiset_build(d.take(i as int), p);
            }
            match self.push_captured(captured, Ghost(p), Ghost(rest)) {
                Some(full) => {
                    batches.push(full);
                    proof {
                        assert(batches@.drop_last() =~= before_batches);
                    }
                },
                None => {},
            }
            proof {
                assert(self.labelled@ =~= old(self).labelled@.add(d.take(i + 1).to_multiset()));
                let after_all = flatten(batches@) + self.out_batch@;
                assert(after_all =~= before_all.push(captured));
                assert(after_all.take(n as int) =~= before_all.take(n as int));
            }
            i = i + 1;
        }
        proof {
            assert(d.subrange(d.len() as int, d.len() as int).to_multiset() =~= Multiset::empty());
            assert(d.take(d.len() as int) =~= d);
        }
        batches
    }

    /// Hands out the partial batch, if any. Afterwards every counted packet
    /// has been handed out.
    pub fn flush(&mut self) -> (r: Option<Vec<CapturedPacket>>)
        requires
            old(self).wf(),
        ensures
            final(self).wf(),
            old(self).same_setup(final(self)),
            final(self).correlator == old(self).correlator,
            final(self).stats == old(self).stats,
            final(self).out_batch@.len() == 0,
            final(self).emitted@ == final(self).stats.total_packets,
            match r {
                Some(v) => v@ == old(self).out_batch@ && v@.len() > 0,
                None => old(self).out_batch@.len() == 0,
            },
    {
        if self.out_batch.len() == 0 {
            return None;
        }
        let mut out: Vec<CapturedPacket> = Vec::new();
        std::mem::swap(&mut out, &mut self.out_batch);
        self.emitted = Ghost(self.emitted@ + out@.len());
        Some(out)
    }

    /// Whether nothing is pending in the wheel.
    pub fn is_idle(&self) -> (r: bool)
        requires
            self.wf(),
        ensures
            r == self.correlator.is_empty_spec(),
    {
        self.correlator.is_empty()
    }

    /// The counters so far; every counted packet has exactly one fate.
    pub fn get_stats(&self) -> (r: CaptureStats)
        requires
            self.wf(),
        ensures
            r == self.stats,
            r.total_packets == r.delivered + r.nic_dropped + r.fw_dropped,
    {
        self.stats
    }

    /// Records the number of events the kernel could not hand over.
    pub fn set_transport_dropped(&mut self, dropped: u64)
        requires
            old(self).wf(),
        ensures
            final(self).wf(),
            old(self).same_setup(final(self)),
            final(self).correlator == old(self).correlator,
            final(self).out_batch@ == old(self).out_batch@,
            final(self).emitted@ == old(self).emitted@,
            final(self).stats == (CaptureStats { transport_dropped: dropped, ..old(self).stats }),
    {
        self.stats.transport_dropped = dropped;
    }
}

} // verus!
