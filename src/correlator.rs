use vstd::arithmetic::div_mod::{lemma_div_is_ordered, lemma_hoist_over_denominator};
use vstd::multiset::Multiset;
use vstd::prelude::*;

use crate::types::{FlowSizeKey, PacketEvent};

verus! {

broadcast use {vstd::multiset::group_multiset_axioms, vstd::seq_lib::group_to_multiset_ensures};

/// Width of one wheel bucket, in milliseconds.
pub const CORRELATION_BUCKET_MS: u64 = 5;

/// How long a registered packet waits for a matching drop, in milliseconds.
pub const CORRELATION_TIMEOUT_MS: u64 = 50;

/// How many buckets on each side of the current one a drop is matched against.
pub const SEARCH_BUCKET_RADIUS: u64 = 1;

/// Number of slots of the timing wheel.
pub const WHEEL_SLOTS: usize = 64;

/// Nanoseconds in a millisecond.
pub const NANOS_PER_MS: u64 = 1_000_000;

/// A registered ingress observation waiting for a possible drop.
#[derive(Clone, Copy, Debug)]
pub struct PendingPacket {
    pub event: PacketEvent,
    pub counter: u64,
    /// Monotonic instant of receipt, in nanoseconds.
    pub received_at: u64,
}

/// The FIFO queue of one fingerprint within a slot.
#[derive(Debug)]
pub struct KeyQueue {
    pub key: FlowSizeKey,
    pub items: Vec<PendingPacket>,
}

/// One position of the timing wheel: the epoch it currently stands for and
/// the queues of that epoch, one per fingerprint.
#[derive(Debug)]
pub struct BucketSlot {
    pub epoch_bucket: Option<u64>,
    pub queues: Vec<KeyQueue>,
}

pub open spec fn unique_keys(qs: Seq<KeyQueue>) -> bool {
    forall|i: int, j: int|
        0 <= i < qs.len() && 0 <= j < qs.len() && #[trigger] qs[i].key == #[trigger] qs[j].key
            ==> i == j
}

pub open spec fn has_key(qs: Seq<KeyQueue>, key: FlowSizeKey) -> bool {
    exists|i: int| 0 <= i < qs.len() && #[trigger] qs[i].key == key
}

/// The queue of `key` among `qs` (empty when there is none).
pub open spec fn queue_in(qs: Seq<KeyQueue>, key: FlowSizeKey) -> Seq<PendingPacket> {
    if has_key(qs, key) {
        qs[choose|i: int| 0 <= i < qs.len() && #[trigger] qs[i].key == key].items@
    } else {
        Seq::empty()
    }
}

/// All packets of `qs`, queue after queue.
pub open spec fn all_items(qs: Seq<KeyQueue>) -> Seq<PendingPacket>
    decreases qs.len(),
{
    if qs.len() == 0 {
        Seq::empty()
    } else {
        all_items(qs.drop_last()) + qs.last().items@
    }
}

/// Absolute difference of two instants.
pub open spec fn distance(a: u64, b: u64) -> u64 {
    if a >= b {
        (a - b) as u64
    } else {
        (b - a) as u64
    }
}

/// Start of the run of entries ending at `i` whose instant equals that of the
/// last entry of `q`.
pub open spec fn tie_start(q: Seq<PendingPacket>, i: int) -> int
    decreases i,
{
    if i > 0 && q[i - 1].received_at == q.last().received_at {
        tie_start(q, i - 1)
    } else {
        i
    }
}

/// The entry a drop takes from a non-empty queue: the tail when it alone holds
/// the latest instant, else the earliest of the entries sharing that instant.
pub open spec fn pick_index(q: Seq<PendingPacket>) -> int {
    tie_start(q, q.len() - 1)
}

proof fn lemma_tie_start_bounds(q: Seq<PendingPacket>, i: int)
    requires
        0 <= i < q.len(),
    ensures
        0 <= tie_start(q, i) <= i,
    decreases i,
{
    if i > 0 && q[i - 1].received_at == q.last().received_at {
        lemma_tie_start_bounds(q, i - 1);
    }
}

proof fn lemma_queue_in_at(qs: Seq<KeyQueue>, i: int)
    requires
        unique_keys(qs),
        0 <= i < qs.len(),
    ensures
        has_key(qs, qs[i].key),
        queue_in(qs, qs[i].key) == qs[i].items@,
{
    let k = qs[i].key;
    assert(has_key(qs, k));
    let j = choose|j: int| 0 <= j < qs.len() && #[trigger] qs[j].key == k;
    assert(qs[j].key == qs[i].key);
}

proof fn lemma_all_items_update(qs: Seq<KeyQueue>, j: int, x: KeyQueue)
    requires
        0 <= j < qs.len(),
    ensures
        all_items(qs.update(j, x)).to_multiset().add(qs[j].items@.to_multiset())
            == all_items(qs).to_multiset().add(x.items@.to_multiset()),
    decreases qs.len(),
{
    let u = qs.update(j, x);
    let d = qs.drop_last();
    if j == qs.len() - 1 {
        assert(u.drop_last() =~= d);
        let a = all_items(d);
        assert(all_items(u) == a + x.items@);
        assert(all_items(qs) == a + qs[j].items@);
        vstd::seq_lib::lemma_multiset_commutative(a, x.items@);
        vstd::seq_lib::lemma_multiset_commutative(a, qs[j].items@);
        assert(all_items(u).to_multiset() =~= a.to_multiset().add(x.items@.to_multiset()));
        assert(all_items(qs).to_multiset() =~= a.to_multiset().add(qs[j].items@.to_multiset()));
    } else {
        lemma_all_items_update(d, j, x);
        assert(d[j] == qs[j]);
        assert(u.drop_last() =~= d.update(j, x));
        assert(u.last() == qs.last());
        let l = qs.last().items@;
        assert(all_items(u) == all_items(d.update(j, x)) + l);
        assert(all_items(qs) == all_items(d) + l);
        vstd::seq_lib::lemma_multiset_commutative(all_items(d.update(j, x)), l);
        vstd::seq_lib::lemma_multiset_commutative(all_items(d), l);
        let m1 = all_items(d.update(j, x)).to_multiset();
        let m2 = all_items(d).to_multiset();
        let mq = qs[j].items@.to_multiset();
        let mx = x.items@.to_multiset();
        let ml = l.to_multiset();
        assert(m1.add(mq) == m2.add(mx));
        assert(all_items(u).to_multiset() == m1.add(ml));
        assert(all_items(qs).to_multiset() == m2.add(ml));
        assert forall|v: PendingPacket| #[trigger] m1.add(ml).add(mq).count(v) == m2.add(ml).add(mx).count(v) by {
            assert(m1.add(mq).count(v) == m2.add(mx).count(v));
        }
        assert(m1.add(ml).add(mq) =~= m2.add(ml).add(mx));
    }
    assert(all_items(u).to_multiset().add(qs[j].items@.to_multiset()) =~= all_items(
        qs,
    ).to_multiset().add(x.items@.to_multiset()));
}

proof fn lemma_all_items_remove(qs: Seq<KeyQueue>, j: int)
    requires
        0 <= j < qs.len(),
    ensures
        all_items(qs.remove(j)).to_multiset().add(qs[j].items@.to_multiset())
            == all_items(qs).to_multiset(),
    decreases qs.len(),
{
    broadcast use vstd::multiset::group_multiset_axioms;
    broadcast use vstd::seq_lib::lemma_multiset_commutative;

    let u = qs.remove(j);
    if j == qs.len() - 1 {
        assert(u =~= qs.drop_last());
        assert(all_items(qs) == all_items(qs.drop_last()) + qs[j].items@);
    } else {
        lemma_all_items_remove(qs.drop_last(), j);
        assert(u.drop_last() =~= qs.drop_last().remove(j));
        assert(u.last() == qs.last());
        assert(all_items(u) == all_items(qs.drop_last().remove(j)) + qs.last().items@);
        assert(all_items(qs) == all_items(qs.drop_last()) + qs.last().items@);
    }
    assert(all_items(u).to_multiset().add(qs[j].items@.to_multiset()) =~= all_items(
        qs,
    ).to_multiset());
}

proof fn lemma_items_upto_update(w: Seq<BucketSlot>, i: int, x: BucketSlot, n: int)
    requires
        0 <= i < w.len(),
        0 <= n <= w.len(),
    ensures
        i < n ==> items_upto(w.update(i, x), n).to_multiset().add(
            all_items(w[i].queues@).to_multiset(),
        ) == items_upto(w, n).to_multiset().add(all_items(x.queues@).to_multiset()),
        i >= n ==> items_upto(w.update(i, x), n) == items_upto(w, n),
    decreases n,
{
    let u = w.update(i, x);
    if n > 0 {
        lemma_items_upto_update(w, i, x, n - 1);
        let o = all_items(w[i].queues@);
        let nx = all_items(x.queues@);
        if i == n - 1 {
            let a = items_upto(w, n - 1);
            assert(items_upto(u, n) == a + nx);
            assert(items_upto(w, n) == a + o);
            vstd::seq_lib::lemma_multiset_commutative(a, nx);
            vstd::seq_lib::lemma_multiset_commutative(a, o);
        } else if i < n - 1 {
            let l = all_items(w[n - 1].queues@);
            assert(u[n - 1] == w[n - 1]);
            assert(items_upto(u, n) == items_upto(u, n - 1) + l);
            assert(items_upto(w, n) == items_upto(w, n - 1) + l);
            vstd::seq_lib::lemma_multiset_commutative(items_upto(u, n - 1), l);
            vstd::seq_lib::lemma_multiset_commutative(items_upto(w, n - 1), l);
            let m1 = items_upto(u, n - 1).to_multiset();
            let m2 = items_upto(w, n - 1).to_multiset();
            let mo = o.to_multiset();
            let mx = nx.to_multiset();
            let ml = l.to_multiset();
            assert(m1.add(mo) == m2.add(mx));
            assert forall|v: PendingPacket| #[trigger] m1.add(ml).add(mo).count(v) == m2.add(
                ml,
            ).add(mx).count(v) by {
                assert(m1.add(mo).count(v) == m2.add(mx).count(v));
            }
            assert(m1.add(ml).add(mo) =~= m2.add(ml).add(mx));
        } else {
            assert(u[n - 1] == w[n - 1]);
        }
        if i < n {
            assert(items_upto(u, n).to_multiset().add(o.to_multiset()) =~= items_upto(
                w,
                n,
            ).to_multiset().add(nx.to_multiset()));
        }
    }
}

/// Queues of `new` are those of `old`, but the one of `key` becomes `q`.
pub open spec fn queues_replaced(
    old: Seq<KeyQueue>,
    new: Seq<KeyQueue>,
    key: FlowSizeKey,
    q: Seq<PendingPacket>,
) -> bool {
    forall|k: FlowSizeKey|
        #[trigger] queue_in(new, k) == if k == key {
            q
        } else {
            queue_in(old, k)
        }
}

impl BucketSlot {
    pub open spec fn wf(&self) -> bool {
        &&& unique_keys(self.queues@)
        &&& forall|i: int| 0 <= i < self.queues@.len() ==> #[trigger] self.queues@[i].items@.len() > 0
        &&& self.epoch_bucket is None ==> self.queues@.len() == 0
        &&& forall|j: int, m: int|
            0 <= j < self.queues@.len() && 0 <= m < self.queues@[j].items@.len() ==> FlowSizeKey::of(
                (#[trigger] self.queues@[j].items@[m]).event,
            ) == self.queues@[j].key
    }

    /// Every packet of the slot was received in bucket `b` counted from `base`.
    pub open spec fn stamped(&self, base: u64, b: u64) -> bool {
        forall|j: int, m: int|
            0 <= j < self.queues@.len() && 0 <= m < self.queues@[j].items@.len() ==> bucket_from(
                base,
                (#[trigger] self.queues@[j].items@[m]).received_at,
            ) == b
    }

    pub open spec fn queue(&self, key: FlowSizeKey) -> Seq<PendingPacket> {
        queue_in(self.queues@, key)
    }

    pub fn new() -> (r: BucketSlot)
        ensures
            r.wf(),
            r.epoch_bucket is None,
            r.queues@.len() == 0,
    {
        BucketSlot { epoch_bucket: None, queues: Vec::new() }
    }

    /// Position of the queue of `key`, if the slot has one.
    fn find(&self, key: &FlowSizeKey) -> (r: Option<usize>)
        requires
            self.wf(),
        ensures
            r matches Some(i) ==> i < self.queues@.len() && self.queues@[i as int].key == *key,
            r is None ==> !has_key(self.queues@, *key),
    {
        let mut i: usize = 0;
        while i < self.queues.len()
            invariant
                i <= self.queues@.len(),
                forall|j: int| 0 <= j < i ==> #[trigger] self.queues@[j].key != *key,
            decreases self.queues@.len() - i,
        {
            if self.queues[i].key == *key {
                return Some(i);
            }
            i = i + 1;
        }
        None
    }

    /// Appends `p` to the queue of `key`.
    pub fn push(&mut self, key: FlowSizeKey, p: PendingPacket)
        requires
            old(self).wf(),
            old(self).epoch_bucket is Some,
            FlowSizeKey::of(p.event) == key,
        ensures
            final(self).wf(),
            forall|base: u64, b: u64|
                old(self).stamped(base, b) && bucket_from(base, p.received_at) == b ==> #[trigger] final(self).stamped(base, b),
            final(self).epoch_bucket == old(self).epoch_bucket,
            queues_replaced(old(self).queues@, final(self).queues@, key, old(self).queue(key).push(p)),
            all_items(final(self).queues@).to_multiset() == all_items(old(self).queues@).to_multiset().insert(p),
    {
        let ghost old_qs = self.queues@;
        match self.find(&key) {
            Some(i) => {
                self.queues[i].items.push(p);
                proof {
                    let new_qs = self.queues@;
                    lemma_queue_in_at(old_qs, i as int);
                    assert(unique_keys(new_qs)) by {
                        assert forall|a: int, b: int|
                            0 <= a < new_qs.len() && 0 <= b < new_qs.len()
                                && #[trigger] new_qs[a].key == #[trigger] new_qs[b].key implies a
                            == b by {
                            assert(old_qs[a].key == new_qs[a].key);
                            assert(old_qs[b].key == new_qs[b].key);
                        }
                    }
                    assert forall|k: FlowSizeKey| #[trigger]
                        queue_in(new_qs, k) == if k == key {
                            queue_in(old_qs, key).push(p)
                        } else {
                            queue_in(old_qs, k)
                        } by {
                        if has_key(new_qs, k) {
                            let j = choose|j: int| 0 <= j < new_qs.len() && #[trigger] new_qs[j].key == k;
                            lemma_queue_in_at(new_qs, j);
                            lemma_queue_in_at(old_qs, j);
                        } else {
                            if has_key(old_qs, k) {
                                let j = choose|j: int| 0 <= j < old_qs.len() && #[trigger] old_qs[j].key == k;
                                assert(new_qs[j].key == k);
                            }
                        }
                    }
                    assert forall|j: int| 0 <= j < new_qs.len() implies #[trigger] new_qs[j].items@.len() > 0 by {
                        assert(old_qs[j].items@.len() > 0);
                    }
                    assert(new_qs =~= old_qs.update(i as int, new_qs[i as int]));
                    lemma_all_items_update(old_qs, i as int, new_qs[i as int]);
                    let mq = old_qs[i as int].items@.to_multiset();
                    assert(new_qs[i as int].items@ == old_qs[i as int].items@.push(p));
                    vstd::seq_lib::to_multiset_build(old_qs[i as int].items@, p);
                    let mn = all_items(new_qs).to_multiset();
                    let mo = all_items(old_qs).to_multiset();
                    assert(mn.add(mq) == mo.add(mq.insert(p)));
                    assert forall|v: PendingPacket| #[trigger] mn.count(v) == mo.insert(p).count(v) by {
                        assert(mn.add(mq).count(v) == mo.add(mq.insert(p)).count(v));
                    }
                    assert(mn =~= mo.insert(p));
                }
            },
            None => {
                let mut items: Vec<PendingPacket> = Vec::new();
                items.push(p);
                self.queues.push(KeyQueue { key, items });
                proof {
                    let new_qs = self.queues@;
                    assert(new_qs[old_qs.len() as int].key == key);
                    assert(unique_keys(new_qs)) by {
                        assert forall|a: int, b: int|
                            0 <= a < new_qs.len() && 0 <= b < new_qs.len()
                                && #[trigger] new_qs[a].key == #[trigger] new_qs[b].key implies a
                            == b by {
                            if a < old_qs.len() && b < old_qs.len() {
                                assert(old_qs[a].key == new_qs[a].key);
                                assert(old_qs[b].key == new_qs[b].key);
                            } else if a < old_qs.len() {
                                assert(old_qs[a].key == key);
                            } else if b < old_qs.len() {
                                assert(old_qs[b].key == key);
                            }
                        }
                    }
                    assert forall|k: FlowSizeKey| #[trigger]
                        queue_in(new_qs, k) == if k == key {
                            queue_in(old_qs, key).push(p)
                        } else {
                            queue_in(old_qs, k)
                        } by {
                        if has_key(new_qs, k) {
                            let j = choose|j: int| 0 <= j < new_qs.len() && #[trigger] new_qs[j].key == k;
                            lemma_queue_in_at(new_qs, j);
                            if j < old_qs.len() {
                                lemma_queue_in_at(old_qs, j);
                            } else {
                                assert(new_qs[j].items@ =~= seq![p]);
                                assert(queue_in(old_qs, key) == Seq::<PendingPacket>::empty());
                            }
                        } else {
                            if has_key(old_qs, k) {
                                let j = choose|j: int| 0 <= j < old_qs.len() && #[trigger] old_qs[j].key == k;
                                assert(new_qs[j].key == k);
                            }
                            assert(new_qs[old_qs.len() as int].key == key);
                        }
                    }
                    assert forall|j: int| 0 <= j < new_qs.len() implies #[trigger] new_qs[j].items@.len() > 0 by {
                        if j < old_qs.len() {
                            assert(old_qs[j].items@.len() > 0);
                        }
                    }
                    assert(new_qs.drop_last() =~= old_qs);
                    assert(all_items(new_qs) == all_items(old_qs) + seq![p]);
                    vstd::seq_lib::lemma_multiset_commutative(all_items(old_qs), seq![p]);
                    vstd::seq_lib::to_multiset_build(Seq::<PendingPacket>::empty(), p);
                    assert(Seq::<PendingPacket>::empty().push(p) =~= seq![p]);
                    assert(Seq::<PendingPacket>::empty().to_multiset() =~= Multiset::empty());
                    assert(all_items(new_qs).to_multiset() =~= all_items(old_qs).to_multiset().insert(p));
                }
            },
        }
    }

    /// Instant of the most recent entry of `key`, if any.
    pub fn tail_instant(&self, key: &FlowSizeKey) -> (r: Option<u64>)
        requires
            self.wf(),
        ensures
            r is None <==> self.queue(*key).len() == 0,
            r matches Some(t) ==> t == self.queue(*key).last().received_at,
    {
        match self.find(key) {
            Some(i) => {
                proof {
                    lemma_queue_in_at(self.queues@, i as int);
                }
                let n = self.queues[i].items.len();
                Some(self.queues[i].items[n - 1].received_at)
            },
            None => None,
        }
    }

    /// Removes from the queue of `key` the entry that `pick_index` designates,
    /// and the queue itself once it is empty.
    pub fn take(&mut self, key: &FlowSizeKey) -> (r: Option<PendingPacket>)
        requires
            old(self).wf(),
        ensures
            final(self).wf(),
            final(self).epoch_bucket == old(self).epoch_bucket,
            forall|base: u64, b: u64| old(self).stamped(base, b) ==> #[trigger] final(self).stamped(base, b),
            old(self).queue(*key).len() == 0 ==> r is None && *final(self) == *old(self),
            old(self).queue(*key).len() > 0 ==> {
                let q = old(self).queue(*key);
                &&& r == Some(q[pick_index(q)])
                &&& queues_replaced(old(self).queues@, final(self).queues@, *key, q.remove(pick_index(q)))
            },
            r matches Some(x) ==> all_items(old(self).queues@).to_multiset() == all_items(
                final(self).queues@,
            ).to_multiset().insert(x),
    {
        let ghost old_qs = self.queues@;
        let i = match self.find(key) {
            Some(i) => i,
            None => {
                return None;
            },
        };
        proof {
            lemma_queue_in_at(old_qs, i as int);
        }
        let ghost q = old_qs[i as int].items@;
        let n = self.queues[i].items.len();
        let latest = self.queues[i].items[n - 1].received_at;
        let mut idx: usize = n - 1;
        while idx > 0 && self.queues[i].items[idx - 1].received_at == latest
            invariant
                self.queues@ == old_qs,
                i < old_qs.len(),
                q == old_qs[i as int].items@,
                n == q.len(),
                n > 0,
                latest == q.last().received_at,
                idx < n,
                tie_start(q, idx as int) == pick_index(q),
            decreases idx,
        {
            idx = idx - 1;
        }
        proof {
            lemma_tie_start_bounds(q, n - 1);
        }
        let removed = self.queues[i].items.remove(idx);
        let ghost mid_qs = self.queues@;
        proof {
            assert(mid_qs =~= old_qs.update(i as int, mid_qs[i as int]));
            lemma_all_items_update(old_qs, i as int, mid_qs[i as int]);
            vstd::seq_lib::to_multiset_remove(q, idx as int);
            let mq = q.to_multiset();
            let mr = mid_qs[i as int].items@.to_multiset();
            let mm = all_items(mid_qs).to_multiset();
            let mo = all_items(old_qs).to_multiset();
            assert(mr == mq.remove(removed));
            assert(mq.count(removed) > 0);
            assert(mm.add(mq) == mo.add(mr));
            assert forall|v: PendingPacket| #[trigger] mo.count(v) == mm.insert(removed).count(v) by {
                assert(mm.add(mq).count(v) == mo.add(mr).count(v));
            }
            assert(mo =~= mm.insert(removed));
        }
        let now_empty = self.queues[i].items.len() == 0;
        if now_empty {
            self.queues.remove(i);
            proof {
                lemma_all_items_remove(mid_qs, i as int);
                assert(mid_qs[i as int].items@.to_multiset() =~= Multiset::empty());
                assert(all_items(self.queues@).to_multiset() =~= all_items(mid_qs).to_multiset());
            }
        }
        proof {
            let new_qs = self.queues@;
            let k0 = *key;
            let nq = q.remove(pick_index(q));
            if now_empty {
                assert(new_qs =~= old_qs.remove(i as int));
                assert(unique_keys(new_qs)) by {
                    assert forall|a: int, b: int|
                        0 <= a < new_qs.len() && 0 <= b < new_qs.len()
                            && #[trigger] new_qs[a].key == #[trigger] new_qs[b].key implies a == b by {
                        let oa = if a < i { a } else { a + 1 };
                        let ob = if b < i { b } else { b + 1 };
                        assert(old_qs[oa].key == new_qs[a].key);
                        assert(old_qs[ob].key == new_qs[b].key);
                    }
                }
                assert forall|k: FlowSizeKey| #[trigger]
                    queue_in(new_qs, k) == if k == k0 {
                        nq
                    } else {
                        queue_in(old_qs, k)
                    } by {
                    if has_key(new_qs, k) {
                        let j = choose|j: int| 0 <= j < new_qs.len() && #[trigger] new_qs[j].key == k;
                        let oj = if j < i { j } else { j + 1 };
                        assert(old_qs[oj] == new_qs[j]);
                        lemma_queue_in_at(new_qs, j);
                        lemma_queue_in_at(old_qs, oj);
                        assert(oj != i);
                    } else {
                        if k == k0 {
                            assert(nq =~= Seq::<PendingPacket>::empty());
                        } else if has_key(old_qs, k) {
                            let j = choose|j: int| 0 <= j < old_qs.len() && #[trigger] old_qs[j].key == k;
                            assert(j != i);
                            let nj = if j < i { j } else { j - 1 };
                            assert(new_qs[nj] == old_qs[j]);
                        }
                    }
                }
                assert forall|j: int| 0 <= j < new_qs.len() implies #[trigger] new_qs[j].items@.len() > 0 by {
                    let oj = if j < i { j } else { j + 1 };
                    assert(old_qs[oj] == new_qs[j]);
                }
            } else {
                assert(unique_keys(new_qs)) by {
                    assert forall|a: int, b: int|
                        0 <= a < new_qs.len() && 0 <= b < new_qs.len()
                            && #[trigger] new_qs[a].key == #[trigger] new_qs[b].key implies a == b by {
                        assert(old_qs[a].key == new_qs[a].key);
                        assert(old_qs[b].key == new_qs[b].key);
                    }
                }
                assert forall|k: FlowSizeKey| #[trigger]
                    queue_in(new_qs, k) == if k == k0 {
                        nq
                    } else {
                        queue_in(old_qs, k)
                    } by {
                    if has_key(new_qs, k) {
                        let j = choose|j: int| 0 <= j < new_qs.len() && #[trigger] new_qs[j].key == k;
                        lemma_queue_in_at(new_qs, j);
                        lemma_queue_in_at(old_qs, j);
                    } else {
                        if has_key(old_qs, k) {
                            let j = choose|j: int| 0 <= j < old_qs.len() && #[trigger] old_qs[j].key == k;
                            assert(new_qs[j].key == k);
                        }
                    }
                }
                assert forall|j: int| 0 <= j < new_qs.len() implies #[trigger] new_qs[j].items@.len() > 0 by {
                    if j != i {
                        assert(old_qs[j] == new_qs[j]);
                    }
                }
            }
        }
        Some(removed)
    }
}

/// The bucket of instant `t`, counted from `base`.
pub open spec fn bucket_from(base: u64, t: u64) -> u64 {
    (if t > base {
        (t - base) as u64
    } else {
        0
    }) / NANOS_PER_MS / CORRELATION_BUCKET_MS
}

/// The wheel slot of `bucket`.
pub open spec fn slot_of(bucket: u64) -> int {
    (bucket % (WHEEL_SLOTS as u64)) as int
}

/// Buckets a drop in bucket `c` is matched against, in order of preference:
/// the bucket itself, then the one before, then the one after, without repeats.
pub open spec fn search_order(c: u64) -> Seq<u64> {
    let with_prev = if c > 0 {
        seq![c, (c - 1) as u64]
    } else {
        seq![c]
    };
    if c < u64::MAX {
        with_prev.push((c + 1) as u64)
    } else {
        with_prev
    }
}

/// Buckets a pending packet waits before it is delivered.
pub open spec fn timeout_buckets() -> int {
    (CORRELATION_TIMEOUT_MS / CORRELATION_BUCKET_MS) as int
}

/// A slot whose epoch lies the whole correlation timeout or more before the
/// current bucket `now_bucket`.
pub open spec fn slot_expired(slot: BucketSlot, now_bucket: u64) -> bool {
    slot.epoch_bucket matches Some(b) && b + timeout_buckets() <= now_bucket
}

/// The packets of the first `n` slots, slot after slot.
pub open spec fn items_upto(wheel: Seq<BucketSlot>, n: int) -> Seq<PendingPacket>
    decreases n,
{
    if n <= 0 {
        Seq::empty()
    } else {
        items_upto(wheel, n - 1) + all_items(wheel[n - 1].queues@)
    }
}

/// The packets of the expired slots among the first `n`, slot after slot.
pub open spec fn expired_upto(wheel: Seq<BucketSlot>, e: u64, n: int) -> Seq<PendingPacket>
    decreases n,
{
    if n <= 0 {
        Seq::empty()
    } else {
        expired_upto(wheel, e, n - 1) + if slot_expired(wheel[n - 1], e) {
            all_items(wheel[n - 1].queues@)
        } else {
            Seq::empty()
        }
    }
}

/// Absolute difference of two instants.
pub fn instant_distance(a: u64, b: u64) -> (r: u64)
    ensures
        r == distance(a, b),
{
    if a >= b {
        a - b
    } else {
        b - a
    }
}

/// The timing-wheel index that pairs drops with earlier ingress observations.
#[derive(Debug)]
pub struct Correlator {
    /// Monotonic instant from which epochs are counted, in nanoseconds.
    pub base_ns: u64,
    pub wheel: Vec<BucketSlot>,
}

proof fn lemma_all_items_take(qs: Seq<KeyQueue>, j: int)
    requires
        0 <= j <= qs.len(),
    ensures
        all_items(qs.take(j)).len() <= all_items(qs).len(),
    decreases qs.len(),
{
    if j < qs.len() {
        assert(qs.drop_last().take(j) =~= qs.take(j));
        lemma_all_items_take(qs.drop_last(), j);
    } else {
        assert(qs.take(j) =~= qs);
    }
}

proof fn lemma_items_upto_mono(wheel: Seq<BucketSlot>, a: int, b: int)
    requires
        0 <= a <= b,
    ensures
        items_upto(wheel, a).len() <= items_upto(wheel, b).len(),
    decreases b,
{
    if a < b {
        lemma_items_upto_mono(wheel, a, b - 1);
    }
}

proof fn lemma_all_items_member(qs: Seq<KeyQueue>, x: PendingPacket)
    requires
        all_items(qs).contains(x),
    ensures
        exists|j: int, m: int|
            0 <= j < qs.len() && 0 <= m < qs[j].items@.len() && #[trigger] qs[j].items@[m] == x,
    decreases qs.len(),
{
    let d = qs.drop_last();
    let a = all_items(d);
    let l = qs.last().items@;
    assert(all_items(qs) == a + l);
    let idx = choose|idx: int| 0 <= idx < all_items(qs).len() && all_items(qs)[idx] == x;
    if idx < a.len() {
        assert(a[idx] == x);
        assert(a.contains(x));
        lemma_all_items_member(d, x);
        let (j, m) = choose|j: int, m: int|
            0 <= j < d.len() && 0 <= m < d[j].items@.len() && #[trigger] d[j].items@[m] == x;
        assert(qs[j] == d[j]);
        assert(qs[j].items@[m] == x);
    } else {
        let m = idx - a.len();
        assert(l[m] == x);
        assert(qs[qs.len() - 1].items@[m] == x);
    }
}

proof fn lemma_all_items_has(qs: Seq<KeyQueue>, j: int, m: int)
    requires
        0 <= j < qs.len(),
        0 <= m < qs[j].items@.len(),
    ensures
        all_items(qs).contains(qs[j].items@[m]),
    decreases qs.len(),
{
    let d = qs.drop_last();
    let a = all_items(d);
    assert(all_items(qs) == a + qs.last().items@);
    if j < qs.len() - 1 {
        assert(d[j] == qs[j]);
        lemma_all_items_has(d, j, m);
        let idx = choose|idx: int| 0 <= idx < a.len() && a[idx] == qs[j].items@[m];
        assert(all_items(qs)[idx] == qs[j].items@[m]);
    } else {
        assert(all_items(qs)[a.len() + m] == qs[j].items@[m]);
    }
}

proof fn lemma_items_upto_member(w: Seq<BucketSlot>, n: int, x: PendingPacket)
    requires
        0 <= n <= w.len(),
        items_upto(w, n).contains(x),
    ensures
        exists|i: int| 0 <= i < n && #[trigger] all_items(w[i].queues@).contains(x),
    decreases n,
{
    if n > 0 {
        let a = items_upto(w, n - 1);
        let l = all_items(w[n - 1].queues@);
        assert(items_upto(w, n) == a + l);
        let idx = choose|idx: int| 0 <= idx < items_upto(w, n).len() && items_upto(w, n)[idx] == x;
        if idx < a.len() {
            assert(a[idx] == x);
            assert(a.contains(x));
            lemma_items_upto_member(w, n - 1, x);
        } else {
            assert(l[idx - a.len()] == x);
            assert(all_items(w[n - 1].queues@).contains(x));
        }
    }
}

proof fn lemma_items_upto_has(w: Seq<BucketSlot>, n: int, i: int, x: PendingPacket)
    requires
        0 <= i < n <= w.len(),
        all_items(w[i].queues@).contains(x),
    ensures
        items_upto(w, n).contains(x),
    decreases n,
{
    let a = items_upto(w, n - 1);
    let l = all_items(w[n - 1].queues@);
    assert(items_upto(w, n) == a + l);
    if i < n - 1 {
        lemma_items_upto_has(w, n - 1, i, x);
        let idx = choose|idx: int| 0 <= idx < a.len() && a[idx] == x;
        assert(items_upto(w, n)[idx] == x);
    } else {
        let idx = choose|idx: int| 0 <= idx < l.len() && l[idx] == x;
        assert(items_upto(w, n)[a.len() + idx] == x);
    }
}

proof fn lemma_bucket_from_mono(base: u64, t1: u64, t2: u64)
    requires
        t1 <= t2,
    ensures
        bucket_from(base, t1) <= bucket_from(base, t2),
{
    let e1 = (if t1 > base {
        (t1 - base) as u64
    } else {
        0
    }) as int;
    let e2 = (if t2 > base {
        (t2 - base) as u64
    } else {
        0
    }) as int;
    lemma_div_is_ordered(e1, e2, NANOS_PER_MS as int);
    lemma_div_is_ordered(e1 / NANOS_PER_MS as int, e2 / NANOS_PER_MS as int, CORRELATION_BUCKET_MS as int);
}

/// A pending packet sits in the queue of its own fingerprint in the bucket of
/// its receipt.
proof fn lemma_pending_in_queue(c: Correlator, x: PendingPacket)
    requires
        c.wf(),
        c.pending().contains(x),
    ensures
        c.queue(c.bucket_at(x.received_at), FlowSizeKey::of(x.event)).contains(x),
{
    lemma_items_upto_member(c.wheel@, WHEEL_SLOTS as int, x);
    let i = choose|i: int| 0 <= i < WHEEL_SLOTS && #[trigger] all_items(c.wheel@[i].queues@).contains(x);
    let slot = c.wheel@[i];
    let qs = slot.queues@;
    lemma_all_items_member(qs, x);
    let (j, m) = choose|j: int, m: int|
        0 <= j < qs.len() && 0 <= m < qs[j].items@.len() && #[trigger] qs[j].items@[m] == x;
    assert(slot.wf());
    let e = slot.epoch_bucket->0;
    assert(bucket_from(c.base_ns, qs[j].items@[m].received_at) == e);
    assert(FlowSizeKey::of(qs[j].items@[m].event) == qs[j].key);
    lemma_queue_in_at(qs, j);
    assert(c.queue(e, qs[j].key) == qs[j].items@);
}

/// Each entry of a queue is a pending packet of the queue's fingerprint,
/// received in the queue's bucket.
proof fn lemma_queue_entry(c: Correlator, b: u64, k: FlowSizeKey, m: int)
    requires
        c.wf(),
        0 <= m < c.queue(b, k).len(),
    ensures
        c.pending().contains(c.queue(b, k)[m]),
        FlowSizeKey::of(c.queue(b, k)[m].event) == k,
        c.bucket_at(c.queue(b, k)[m].received_at) == b,
{
    let i = slot_of(b);
    let slot = c.wheel@[i];
    let qs = slot.queues@;
    assert(slot.wf());
    assert(has_key(qs, k));
    let j = choose|j: int| 0 <= j < qs.len() && #[trigger] qs[j].key == k;
    lemma_queue_in_at(qs, j);
    let x = qs[j].items@[m];
    assert(c.queue(b, k)[m] == x);
    assert(FlowSizeKey::of(x.event) == k);
    assert(bucket_from(c.base_ns, x.received_at) == b);
    lemma_all_items_has(qs, j, m);
    lemma_items_upto_has(c.wheel@, WHEEL_SLOTS as int, i, x);
}

/// What a drop returns, said over the pending packets: a packet of the drop's
/// fingerprint received in a search bucket, and nothing exactly when there is
/// no such packet.
proof fn lemma_match_over_pending(
    old: Correlator,
    new: Correlator,
    event: PacketEvent,
    now: u64,
    r: Option<PendingPacket>,
)
    requires
        old.wf(),
        Correlator::matched(old, new, event, now, r),
    ensures
        r matches Some(p) ==> old.pending().contains(p) && FlowSizeKey::of(p.event)
            == FlowSizeKey::of(event) && search_order(old.bucket_at(now)).contains(
            old.bucket_at(p.received_at),
        ),
        r is None <==> !exists|p: PendingPacket|
            #[trigger] old.pending().contains(p) && FlowSizeKey::of(p.event) == FlowSizeKey::of(event)
                && search_order(old.bucket_at(now)).contains(old.bucket_at(p.received_at)),
{
    let k = FlowSizeKey::of(event);
    let cs = search_order(old.bucket_at(now));
    if r is Some {
        let j = choose|j: int|
            #[trigger] old.is_best(k, now, j) && ({
                let q = old.queue(cs[j], k);
                &&& r == Some(q[pick_index(q)])
                &&& forall|b2: u64, k2: FlowSizeKey| #[trigger]
                    new.queue(b2, k2) == if b2 == cs[j] && k2 == k {
                        q.remove(pick_index(q))
                    } else {
                        old.queue(b2, k2)
                    }
            });
        let q = old.queue(cs[j], k);
        lemma_tie_start_bounds(q, q.len() - 1);
        lemma_queue_entry(old, cs[j], k, pick_index(q));
        assert(cs[j] == cs[j]);
        assert(cs.contains(cs[j]));
    } else {
        assert forall|p: PendingPacket|
            #[trigger] old.pending().contains(p) && FlowSizeKey::of(p.event) == k implies !cs.contains(
                old.bucket_at(p.received_at),
            ) by {
            lemma_pending_in_queue(old, p);
            if cs.contains(old.bucket_at(p.received_at)) {
                let j0 = choose|j0: int| 0 <= j0 < cs.len() && cs[j0] == old.bucket_at(p.received_at);
                assert(old.queue(cs[j0], k).len() == 0);
            }
        }
    }
}

proof fn lemma_tie_start_instant(q: Seq<PendingPacket>, i: int)
    requires
        0 <= i < q.len(),
        q[i].received_at == q.last().received_at,
    ensures
        q[tie_start(q, i)].received_at == q.last().received_at,
    decreases i,
{
    if i > 0 && q[i - 1].received_at == q.last().received_at {
        lemma_tie_start_instant(q, i - 1);
    }
}

/// With queues in order of receipt and no packet received after `now`, a
/// drop takes the most recent pending packet that looks like it: no pending
/// packet of the same fingerprint in a search bucket was received later.
pub proof fn lemma_match_takes_most_recent(
    old: Correlator,
    new: Correlator,
    event: PacketEvent,
    now: u64,
    r: Option<PendingPacket>,
)
    requires
        old.wf(),
        old.queues_sorted(),
        forall|q: PendingPacket| #[trigger] old.pending().contains(q) ==> q.received_at <= now,
        Correlator::matched(old, new, event, now, r),
    ensures
        r matches Some(p) ==> forall|q: PendingPacket|
            #[trigger] old.pending().contains(q) && FlowSizeKey::of(q.event) == FlowSizeKey::of(event)
                && search_order(old.bucket_at(now)).contains(old.bucket_at(q.received_at))
                ==> q.received_at <= p.received_at,
{
    let k = FlowSizeKey::of(event);
    let cs = search_order(old.bucket_at(now));
    if r is Some {
        let j = choose|j: int|
            #[trigger] old.is_best(k, now, j) && ({
                let q = old.queue(cs[j], k);
                &&& r == Some(q[pick_index(q)])
                &&& forall|b2: u64, k2: FlowSizeKey| #[trigger]
                    new.queue(b2, k2) == if b2 == cs[j] && k2 == k {
                        q.remove(pick_index(q))
                    } else {
                        old.queue(b2, k2)
                    }
            });
        let qj = old.queue(cs[j], k);
        let p = r->0;
        lemma_tie_start_bounds(qj, qj.len() - 1);
        lemma_tie_start_instant(qj, qj.len() - 1);
        assert(p.received_at == qj.last().received_at);
        lemma_queue_entry(old, cs[j], k, qj.len() - 1);
        assert forall|q: PendingPacket|
            #[trigger] old.pending().contains(q) && FlowSizeKey::of(q.event) == k && cs.contains(
                old.bucket_at(q.received_at),
            ) implies q.received_at <= p.received_at by {
            lemma_pending_in_queue(old, q);
            let bq = old.bucket_at(q.received_at);
            let j2 = choose|j2: int| 0 <= j2 < cs.len() && cs[j2] == bq;
            let q2 = old.queue(bq, k);
            let mq = choose|mq: int| 0 <= mq < q2.len() && q2[mq] == q;
            assert(q2[mq].received_at <= q2[q2.len() - 1].received_at);
            lemma_queue_entry(old, bq, k, q2.len() - 1);
            assert(old.queue(cs[j2], k).len() > 0);
            assert(old.score(cs[j], k, now) <= old.score(cs[j2], k, now));
        }
    }
}

/// No two pending packets carry the same counter, and none is held twice.
pub open spec fn counters_distinct(m: Multiset<PendingPacket>) -> bool {
    forall|a: PendingPacket, b: PendingPacket|
        #[trigger] m.count(a) > 0 && #[trigger] m.count(b) > 0 && a.counter == b.counter ==> a == b
            && m.count(a) == 1
}

proof fn lemma_repeated_entry_counts_twice(s: Seq<PendingPacket>, i: int, j: int)
    requires
        0 <= i < j < s.len(),
        s[i] == s[j],
    ensures
        s.to_multiset().count(s[i]) >= 2,
{
    vstd::seq_lib::to_multiset_remove(s, j);
    assert(s.remove(j)[i] == s[i]);
    vstd::seq_lib::to_multiset_contains(s.remove(j), s[i]);
}

/// Registering a packet whose counter no pending packet carries keeps the
/// counters distinct.
pub proof fn lemma_register_keeps_counters_distinct(before: Multiset<PendingPacket>, p: PendingPacket)
    requires
        counters_distinct(before),
        forall|q: PendingPacket| #[trigger] before.count(q) > 0 ==> q.counter != p.counter,
    ensures
        counters_distinct(before.insert(p)),
{
    let after = before.insert(p);
    assert forall|a: PendingPacket, b: PendingPacket|
        #[trigger] after.count(a) > 0 && #[trigger] after.count(b) > 0 && a.counter == b.counter
            implies a == b && after.count(a) == 1 by {
        if a == p || b == p {
            if a != b {
                if a == p {
                    assert(before.count(b) > 0);
                } else {
                    assert(before.count(a) > 0);
                }
            }
            assert(before.count(p) == 0) by {
                if before.count(p) > 0 {
                    assert(p.counter != p.counter);
                }
            }
        } else {
            assert(before.count(a) > 0 && before.count(b) > 0);
        }
    }
}

/// When pending counters are distinct and a step hands out `out` while
/// keeping `after` pending (`before == after + out`), the handed-out packets
/// carry distinct counters, none of them is still pending, and the pending
/// counters stay distinct: no counter leaves twice.
pub proof fn lemma_handed_out_counters_fresh(
    before: Multiset<PendingPacket>,
    after: Multiset<PendingPacket>,
    out: Seq<PendingPacket>,
)
    requires
        counters_distinct(before),
        before == after.add(out.to_multiset()),
    ensures
        forall|i: int, j: int| 0 <= i < j < out.len() ==> out[i].counter != out[j].counter,
        forall|i: int, q: PendingPacket|
            0 <= i < out.len() && #[trigger] after.count(q) > 0 ==> q.counter != #[trigger] out[i].counter,
        counters_distinct(after),
{
    let mo = out.to_multiset();
    assert forall|i: int| 0 <= i < out.len() implies #[trigger] before.count(out[i]) > 0 by {
        vstd::seq_lib::to_multiset_contains(out, out[i]);
    }
    assert forall|i: int, j: int| 0 <= i < j < out.len() implies out[i].counter
        != out[j].counter by {
        if out[i].counter == out[j].counter {
            assert(before.count(out[i]) > 0 && before.count(out[j]) > 0);
            assert(out[i] == out[j]);
            lemma_repeated_entry_counts_twice(out, i, j);
            assert(before.count(out[i]) >= 2);
        }
    }
    assert forall|i: int, q: PendingPacket|
        0 <= i < out.len() && #[trigger] after.count(q) > 0 implies q.counter != #[trigger] out[i].counter by {
        if q.counter == out[i].counter {
            assert(before.count(q) > 0);
            assert(before.count(out[i]) > 0);
            assert(q == out[i]);
            vstd::seq_lib::to_multiset_contains(out, out[i]);
            assert(before.count(q) >= 2);
        }
    }
    assert forall|a: PendingPacket, b: PendingPacket|
        #[trigger] after.count(a) > 0 && #[trigger] after.count(b) > 0 && a.counter == b.counter
            implies a == b && after.count(a) == 1 by {
        assert(before.count(a) > 0 && before.count(b) > 0);
    }
}

/// After a drain at `now`, every packet still pending was received less than
/// the correlation timeout before `now`: only the last window stays pending.
pub proof fn lemma_drain_keeps_recent_packets(before: Correlator, after: Correlator, now: u64)
    requires
        before.wf(),
        after.wf(),
        Correlator::drained(before, after, now),
    ensures
        forall|p: PendingPacket|
            #[trigger] after.pending().contains(p) ==> before.bucket_at(p.received_at)
                + timeout_buckets() > before.bucket_at(now),
{
    assert forall|p: PendingPacket| #[trigger] after.pending().contains(p) implies before.bucket_at(
        p.received_at,
    ) + timeout_buckets() > before.bucket_at(now) by {
        lemma_pending_in_queue(after, p);
        let b = after.bucket_at(p.received_at);
        let s = slot_of(b);
        assert(after.queue(b, FlowSizeKey::of(p.event)).len() > 0);
        assert(after.wheel@[s].epoch_bucket == Some(b));
        assert(0 <= s < WHEEL_SLOTS);
        assert(!slot_expired(before.wheel@[s], before.bucket_at(now)));
        assert(after.wheel@[s] == before.wheel@[s]);
    }
}

/// A drop observed in the bucket where a packet of the same fingerprint was
/// just registered is always paired with a pending packet.
pub proof fn lemma_same_bucket_drop_is_paired(
    c0: Correlator,
    c1: Correlator,
    c2: Correlator,
    pass: PacketEvent,
    counter: u64,
    registered_at: u64,
    drop: PacketEvent,
    now: u64,
    r: Option<PendingPacket>,
)
    requires
        Correlator::registered(c0, c1, pass, counter, registered_at),
        FlowSizeKey::of(drop) == FlowSizeKey::of(pass),
        c1.bucket_at(now) == c0.bucket_at(registered_at),
        Correlator::matched(c1, c2, drop, now, r),
    ensures
        r is Some,
{
    let b = c0.bucket_at(registered_at);
    let k = FlowSizeKey::of(pass);
    let cs = search_order(c1.bucket_at(now));
    assert(cs[0] == b);
    assert(c1.queue(b, k).len() > 0);
    assert(c1.queue(cs[0], k).len() > 0);
}

/// Once registrations have stopped at `last`, a drain 100 ms later or more
/// leaves nothing pending.
pub proof fn lemma_quiesced_drain_empties(before: Correlator, after: Correlator, last: u64, now: u64)
    requires
        before.wf(),
        forall|p: PendingPacket| #[trigger] before.pending().contains(p) ==> p.received_at <= last,
        last >= before.base_ns,
        now >= last + 100 * NANOS_PER_MS,
        Correlator::drained(before, after, now),
    ensures
        after.is_empty_spec(),
{
    let bl = before.bucket_at(last);
    let e = before.bucket_at(now);
    let el = (last - before.base_ns) as int;
    let en = (now - before.base_ns) as int;
    lemma_hoist_over_denominator(el, 100, NANOS_PER_MS as nat);
    lemma_div_is_ordered(el + 100 * NANOS_PER_MS, en, NANOS_PER_MS as int);
    let a = el / NANOS_PER_MS as int;
    let an = en / NANOS_PER_MS as int;
    lemma_hoist_over_denominator(a, 20, CORRELATION_BUCKET_MS as nat);
    lemma_div_is_ordered(a + 100, an, CORRELATION_BUCKET_MS as int);
    assert(e >= bl + timeout_buckets());
    assert forall|i: int| 0 <= i < after.wheel@.len() implies (#[trigger] after.wheel@[i]).queues@.len()
        == 0 by {
        let slot = before.wheel@[i];
        assert(slot.wf());
        if !slot_expired(slot, e) {
            assert(after.wheel@[i] == slot);
            if slot.queues@.len() > 0 {
                let qs = slot.queues@;
                let x = qs[0].items@[0];
                lemma_all_items_has(qs, 0, 0);
                lemma_items_upto_has(before.wheel@, WHEEL_SLOTS as int, i, x);
                assert(before.pending().contains(x));
                lemma_bucket_from_mono(before.base_ns, x.received_at, last);
                assert(bucket_from(before.base_ns, x.received_at) == slot.epoch_bucket->0);
            }
        }
    }
}

impl Correlator {
    pub open spec fn wf(&self) -> bool {
        &&& self.wheel@.len() == WHEEL_SLOTS
        &&& forall|i: int|
            0 <= i < self.wheel@.len() ==> (#[trigger] self.wheel@[i]).wf() && (
            self.wheel@[i].epoch_bucket matches Some(b) ==> slot_of(b) == i && self.wheel@[i].stamped(
                self.base_ns,
                b,
            ))
    }

    /// The bucket of instant `now`.
    pub open spec fn bucket_at(&self, now: u64) -> u64 {
        bucket_from(self.base_ns, now)
    }

    /// The pending packets of `key` registered in `bucket`, oldest first.
    pub open spec fn queue(&self, bucket: u64, key: FlowSizeKey) -> Seq<PendingPacket> {
        let slot = self.wheel@[slot_of(bucket)];
        if slot.epoch_bucket == Some(bucket) {
            slot.queue(key)
        } else {
            Seq::empty()
        }
    }

    /// Every pending packet, slot after slot.
    pub open spec fn pending(&self) -> Seq<PendingPacket> {
        items_upto(self.wheel@, self.wheel@.len() as int)
    }

    pub open spec fn is_empty_spec(&self) -> bool {
        forall|i: int| 0 <= i < self.wheel@.len() ==> (#[trigger] self.wheel@[i]).queues@.len() == 0
    }

    /// The packets a registration in bucket `b` discards: those of an older
    /// epoch still held by the slot of `b`.
    pub open spec fn purged_by(&self, b: u64) -> Seq<PendingPacket> {
        let slot = self.wheel@[slot_of(b)];
        if slot.epoch_bucket == Some(b) {
            Seq::empty()
        } else {
            all_items(slot.queues@)
        }
    }

    /// Every queue keeps its packets in order of receipt.
    pub open spec fn queues_sorted(&self) -> bool {
        forall|b: u64, k: FlowSizeKey, x: int, y: int|
            0 <= x <= y < self.queue(b, k).len() ==> (#[trigger] self.queue(b, k)[x]).received_at
                <= (#[trigger] self.queue(b, k)[y]).received_at
    }

    /// Distance from `now` to the most recent packet of `key` in `bucket`.
    pub open spec fn score(&self, bucket: u64, key: FlowSizeKey, now: u64) -> u64 {
        distance(self.queue(bucket, key).last().received_at, now)
    }

    /// The `j`-th search bucket is where a drop of `key` at `now` is matched:
    /// it has a pending packet, and no other candidate is nearer in time, nor
    /// as near and earlier in the search order.
    pub open spec fn is_best(&self, key: FlowSizeKey, now: u64, j: int) -> bool {
        let cs = search_order(self.bucket_at(now));
        &&& 0 <= j < cs.len()
        &&& self.queue(cs[j], key).len() > 0
        &&& forall|j2: int|
            0 <= j2 < cs.len() && #[trigger] self.queue(cs[j2], key).len() > 0 ==> self.score(
                cs[j],
                key,
                now,
            ) < self.score(cs[j2], key, now) || (self.score(cs[j], key, now) == self.score(
                cs[j2],
                key,
                now,
            ) && j <= j2)
    }

    /// `new` is `old` after a drain at `now`: each expired slot is emptied and
    /// marked free, every other slot is kept.
    pub open spec fn drained(old: Correlator, new: Correlator, now: u64) -> bool {
        let e = old.bucket_at(now);
        &&& new.base_ns == old.base_ns
        &&& new.wheel@.len() == old.wheel@.len()
        &&& forall|i: int|
            0 <= i < old.wheel@.len() ==> if slot_expired(#[trigger] old.wheel@[i], e) {
                new.wheel@[i].epoch_bucket is None && new.wheel@[i].queues@.len() == 0
            } else {
                new.wheel@[i] == old.wheel@[i]
            }
    }

    /// `new` is `old` after registering `event` with `counter` at `now`: the
    /// packet joins the tail of its queue in the bucket of `now`, whose slot
    /// first drops an older epoch it still held.
    pub open spec fn registered(old: Correlator, new: Correlator, event: PacketEvent, counter: u64, now: u64) -> bool {
        let b = old.bucket_at(now);
        let k = FlowSizeKey::of(event);
        let p = PendingPacket { event, counter, received_at: now };
        &&& new.base_ns == old.base_ns
        &&& new.wheel@[slot_of(b)].epoch_bucket == Some(b)
        &&& forall|i: int|
            0 <= i < WHEEL_SLOTS && i != slot_of(b) ==> #[trigger] new.wheel@[i] == old.wheel@[i]
        &&& forall|b2: u64, k2: FlowSizeKey| #[trigger]
            new.queue(b2, k2) == if b2 == b && k2 == k {
                old.queue(b, k).push(p)
            } else if slot_of(b2) == slot_of(b) && b2 != b {
                Seq::empty()
            } else {
                old.queue(b2, k2)
            }
        &&& (old.wheel@[slot_of(b)].epoch_bucket == Some(b) || old.wheel@[slot_of(b)].queues@.len()
            == 0) ==> new.pending().to_multiset() == old.pending().to_multiset().insert(p)
        &&& new.pending().to_multiset().add(old.purged_by(b).to_multiset())
            == old.pending().to_multiset().insert(p)
    }

    /// `new` is `old` after a drop of `event` at `now` that returned `r`: with
    /// no candidate nothing changes; else the best candidate queue loses the
    /// entry `pick_index` designates, which is returned.
    pub open spec fn matched(old: Correlator, new: Correlator, event: PacketEvent, now: u64, r: Option<PendingPacket>) -> bool {
        let k = FlowSizeKey::of(event);
        let cs = search_order(old.bucket_at(now));
        &&& new.base_ns == old.base_ns
        &&& forall|i: int|
            0 <= i < WHEEL_SLOTS ==> (#[trigger] new.wheel@[i]).epoch_bucket == old.wheel@[i].epoch_bucket
        &&& r is None <==> forall|j: int| 0 <= j < cs.len() ==> #[trigger] old.queue(cs[j], k).len() == 0
        &&& r is None ==> new == old
        &&& r matches Some(x) ==> old.pending().to_multiset() == new.pending().to_multiset().insert(x)
        &&& r is Some ==> exists|j: int|
            #[trigger] old.is_best(k, now, j) && ({
                let q = old.queue(cs[j], k);
                &&& r == Some(q[pick_index(q)])
                &&& forall|b2: u64, k2: FlowSizeKey| #[trigger]
                    new.queue(b2, k2) == if b2 == cs[j] && k2 == k {
                        q.remove(pick_index(q))
                    } else {
                        old.queue(b2, k2)
                    }
            })
    }

    pub fn new(base_ns: u64) -> (r: Correlator)
        ensures
            r.wf(),
            r.base_ns == base_ns,
            r.is_empty_spec(),
            forall|i: int| 0 <= i < r.wheel@.len() ==> (#[trigger] r.wheel@[i]).epoch_bucket is None,
    {
        let mut wheel: Vec<BucketSlot> = Vec::new();
        let mut i: usize = 0;
        while i < WHEEL_SLOTS
            invariant
                i <= WHEEL_SLOTS,
                wheel@.len() == i,
                forall|j: int|
                    0 <= j < i ==> (#[trigger] wheel@[j]).wf() && wheel@[j].epoch_bucket is None
                        && wheel@[j].queues@.len() == 0,
            decreases WHEEL_SLOTS - i,
        {
            wheel.push(BucketSlot::new());
            i = i + 1;
        }
        Correlator { base_ns, wheel }
    }

    pub fn bucket_of(&self, now: u64) -> (r: u64)
        ensures
            r == self.bucket_at(now),
    {
        let elapsed = if now > self.base_ns {
            now - self.base_ns
        } else {
            0
        };
        elapsed / NANOS_PER_MS / CORRELATION_BUCKET_MS
    }

    pub fn slot_index(bucket: u64) -> (r: usize)
        ensures
            r as int == slot_of(bucket),
            r < WHEEL_SLOTS,
    {
        (bucket % (WHEEL_SLOTS as u64)) as usize
    }

    pub fn search_buckets(center: u64) -> (r: Vec<u64>)
        ensures
            r@ == search_order(center),
    {
        let mut buckets: Vec<u64> = Vec::new();
        buckets.push(center);
        let prev = if center >= SEARCH_BUCKET_RADIUS {
            center - SEARCH_BUCKET_RADIUS
        } else {
            0
        };
        if prev != center {
            buckets.push(prev);
        }
        let next = if center <= u64::MAX - SEARCH_BUCKET_RADIUS {
            center + SEARCH_BUCKET_RADIUS
        } else {
            u64::MAX
        };
        if next != center {
            buckets.push(next);
        }
        assert(buckets@ =~= search_order(center));
        buckets
    }

    /// Records an ingress observation received at `now`. A slot still holding
    /// an older epoch is cleared first.
    pub fn register_pass(&mut self, event: PacketEvent, counter: u64, now: u64)
        requires
            old(self).wf(),
        ensures
            final(self).wf(),
            final(self).base_ns == old(self).base_ns,
            Correlator::registered(*old(self), *final(self), event, counter, now),
    {
        let bucket = self.bucket_of(now);
        let key = FlowSizeKey::from_event(&event);
        let idx = Self::slot_index(bucket);
        let ghost old_slot = self.wheel@[idx as int];
        let current = match self.wheel[idx].epoch_bucket {
            Some(e) => e == bucket,
            None => false,
        };
        if !current {
            self.wheel[idx].epoch_bucket = Some(bucket);
            self.wheel[idx].queues.clear();
        }
        let ghost mid_slot = self.wheel@[idx as int];
        let ghost mid_wheel = self.wheel@;
        assert(mid_slot.wf());
        self.wheel[idx].push(key, PendingPacket { event, counter, received_at: now });
        proof {
            let p = PendingPacket { event, counter, received_at: now };
            let new_slot = self.wheel@[idx as int];
            let ow = old(self).wheel@;
            assert(self.wheel@ =~= ow.update(idx as int, new_slot));
            lemma_items_upto_update(ow, idx as int, new_slot, WHEEL_SLOTS as int);
            let mn = self.pending().to_multiset();
            let mo = old(self).pending().to_multiset();
            let ms_old = all_items(old_slot.queues@).to_multiset();
            let ms_new = all_items(new_slot.queues@).to_multiset();
            let ms_mid = all_items(mid_slot.queues@).to_multiset();
            assert(mn.add(ms_old) == mo.add(ms_new));
            assert(ms_new == ms_mid.insert(p));
            if !current {
                assert(mid_slot.queues@.len() == 0);
                assert(all_items(mid_slot.queues@) =~= Seq::<PendingPacket>::empty());
                assert(ms_mid =~= Multiset::empty());
                assert(old(self).purged_by(bucket) == all_items(old_slot.queues@));
                assert(mn.add(ms_old) =~= mo.insert(p));
            } else {
                assert(old(self).purged_by(bucket) =~= Seq::<PendingPacket>::empty());
                assert(ms_mid == ms_old);
                assert forall|v: PendingPacket| #[trigger] mn.count(v) == mo.insert(p).count(v) by {
                    assert(mn.add(ms_old).count(v) == mo.add(ms_new).count(v));
                }
                assert(mn.add(Seq::<PendingPacket>::empty().to_multiset()) =~= mo.insert(p));
            }
            if old_slot.epoch_bucket == Some(bucket) || old_slot.queues@.len() == 0 {
                assert(ow[idx as int].wf());
                if !current {
                    assert(old_slot.queues@.len() == 0);
                    assert(all_items(old_slot.queues@) =~= all_items(mid_slot.queues@));
                }
                assert(all_items(mid_slot.queues@) == all_items(old_slot.queues@));
                lemma_items_upto_update(ow, idx as int, new_slot, WHEEL_SLOTS as int);
                let mn = self.pending().to_multiset();
                let mo = old(self).pending().to_multiset();
                let ms_old = all_items(old_slot.queues@).to_multiset();
                let ms_new = all_items(new_slot.queues@).to_multiset();
                assert(mn.add(ms_old) == mo.add(ms_new));
                assert(ms_new == ms_old.insert(p));
                assert forall|v: PendingPacket| #[trigger] mn.count(v) == mo.insert(p).count(v) by {
                    assert(mn.add(ms_old).count(v) == mo.add(ms_new).count(v));
                }
                assert(mn =~= mo.insert(p));
            }
        }
        proof {
            let ghost p = PendingPacket { event, counter, received_at: now };
            assert forall|b2: u64, k2: FlowSizeKey| #[trigger]
                self.queue(b2, k2) == if b2 == bucket && k2 == key {
                    old(self).queue(bucket, key).push(p)
                } else if slot_of(b2) == slot_of(bucket) && b2 != bucket {
                    Seq::empty()
                } else {
                    old(self).queue(b2, k2)
                } by {
                if slot_of(b2) == slot_of(bucket) && b2 == bucket {
                    assert(queue_in(self.wheel@[idx as int].queues@, k2) == if k2 == key {
                        queue_in(mid_slot.queues@, key).push(p)
                    } else {
                        queue_in(mid_slot.queues@, k2)
                    });
                    if !current {
                        assert(!has_key(mid_slot.queues@, k2));
                    }
                }
            }
        }
    }

    /// Pairs a drop of `event` observed at `now` with one pending packet of the
    /// same fingerprint, and removes that packet.
    pub fn match_kfree(&mut self, event: &PacketEvent, now: u64) -> (r: Option<PendingPacket>)
        requires
            old(self).wf(),
        ensures
            final(self).wf(),
            final(self).base_ns == old(self).base_ns,
            Correlator::matched(*old(self), *final(self), *event, now, r),
            r matches Some(p) ==> old(self).pending().contains(p) && FlowSizeKey::of(p.event)
                == FlowSizeKey::of(*event) && search_order(old(self).bucket_at(now)).contains(
                old(self).bucket_at(p.received_at),
            ),
            r is None <==> !exists|p: PendingPacket|
                #[trigger] old(self).pending().contains(p) && FlowSizeKey::of(p.event)
                    == FlowSizeKey::of(*event) && search_order(old(self).bucket_at(now)).contains(
                    old(self).bucket_at(p.received_at),
                ),
    {
        let key = FlowSizeKey::from_event(event);
        let now_bucket = self.bucket_of(now);
        let cands = Self::search_buckets(now_bucket);
        let ghost cs = cands@;
        let mut found = false;
        let mut best_bucket: u64 = 0;
        let mut best_order: usize = 0;
        let mut best_dist: u64 = 0;
        let mut order: usize = 0;
        while order < cands.len()
            invariant
                self.wf(),
                cs == search_order(self.bucket_at(now)),
                cands@ == cs,
                key == FlowSizeKey::of(*event),
                order <= cs.len(),
                found ==> best_order < order && best_bucket == cs[best_order as int] && self.queue(
                    best_bucket,
                    key,
                ).len() > 0 && best_dist == self.score(best_bucket, key, now),
                found ==> forall|j2: int|
                    0 <= j2 < order && #[trigger] self.queue(cs[j2], key).len() > 0 ==> best_dist
                        < self.score(cs[j2], key, now) || (best_dist == self.score(cs[j2], key, now)
                        && best_order <= j2),
                !found ==> forall|j2: int| 0 <= j2 < order ==> #[trigger] self.queue(cs[j2], key).len() == 0,
            decreases cs.len() - order,
        {
            let bucket = cands[order];
            let idx = Self::slot_index(bucket);
            let live = match self.wheel[idx].epoch_bucket {
                Some(e) => e == bucket,
                None => false,
            };
            if live {
                match self.wheel[idx].tail_instant(&key) {
                    Some(t) => {
                        let d = instant_distance(t, now);
                        if !found || d < best_dist || (d == best_dist && order < best_order) {
                            found = true;
                            best_bucket = bucket;
                            best_order = order;
                            best_dist = d;
                        }
                    },
                    None => {},
                }
            }
            order = order + 1;
        }
        if !found {
            proof {
                lemma_match_over_pending(*old(self), *self, *event, now, None);
            }
            return None;
        }
        let idx = Self::slot_index(best_bucket);
        let ghost old_wheel = self.wheel@;
        proof {
            assert(self.is_best(key, now, best_order as int));
        }
        let ghost old_slot = self.wheel@[idx as int];
        let r = self.wheel[idx].take(&key);
        proof {
            let new_slot = self.wheel@[idx as int];
            assert(self.wheel@ =~= old_wheel.update(idx as int, new_slot));
            if r is Some {
                let x = r->0;
                lemma_items_upto_update(old_wheel, idx as int, new_slot, WHEEL_SLOTS as int);
                let mn = self.pending().to_multiset();
                let mo = old(self).pending().to_multiset();
                let ms_old = all_items(old_slot.queues@).to_multiset();
                let ms_new = all_items(new_slot.queues@).to_multiset();
                assert(mn.add(ms_old) == mo.add(ms_new));
                assert(ms_old == ms_new.insert(x));
                assert forall|v: PendingPacket| #[trigger] mo.count(v) == mn.insert(x).count(v) by {
                    assert(mn.add(ms_old).count(v) == mo.add(ms_new).count(v));
                }
                assert(mo =~= mn.insert(x));
            }
        }
        proof {
            let q = old(self).queue(best_bucket, key);
            assert forall|b2: u64, k2: FlowSizeKey| #[trigger]
                self.queue(b2, k2) == if b2 == best_bucket && k2 == key {
                    q.remove(pick_index(q))
                } else {
                    old(self).queue(b2, k2)
                } by {
                if slot_of(b2) == idx as int && b2 == best_bucket {
                    assert(queue_in(self.wheel@[idx as int].queues@, k2) == if k2 == key {
                        q.remove(pick_index(q))
                    } else {
                        queue_in(old_wheel[idx as int].queues@, k2)
                    });
                }
            }
        }
        proof {
            lemma_match_over_pending(*old(self), *self, *event, now, r);
        }
        r
    }

    /// Removes every packet of the slots whose epoch lies more than the
    /// correlation timeout before `now`; they leave as delivered.
    pub fn drain_expired(&mut self, now: u64) -> (r: Vec<PendingPacket>)
        requires
            old(self).wf(),
        ensures
            final(self).wf(),
            Correlator::drained(*old(self), *final(self), now),
            r@ == expired_upto(old(self).wheel@, old(self).bucket_at(now), WHEEL_SLOTS as int),
            old(self).pending().to_multiset() == final(self).pending().to_multiset().add(
                r@.to_multiset(),
            ),
            forall|b: u64, k: FlowSizeKey| #[trigger]
                final(self).queue(b, k) == if b + timeout_buckets() <= old(self).bucket_at(now) {
                    Seq::empty()
                } else {
                    old(self).queue(b, k)
                },
    {
        let now_bucket = self.bucket_of(now);
        let timeout = CORRELATION_TIMEOUT_MS / CORRELATION_BUCKET_MS;
        let expire = now_bucket;
        let ghost old_wheel = self.wheel@;
        let mut drained: Vec<PendingPacket> = Vec::new();
        let mut i: usize = 0;
        while i < self.wheel.len()
            invariant
                self.base_ns == old(self).base_ns,
                old_wheel == old(self).wheel@,
                old(self).wf(),
                expire == old(self).bucket_at(now),
                timeout == timeout_buckets(),
                self.wheel@.len() == WHEEL_SLOTS,
                i <= WHEEL_SLOTS,
                forall|j: int|
                    0 <= j < i ==> if slot_expired(#[trigger] old_wheel[j], expire) {
                        self.wheel@[j].epoch_bucket is None && self.wheel@[j].queues@.len() == 0
                    } else {
                        self.wheel@[j] == old_wheel[j]
                    },
                forall|j: int| i <= j < WHEEL_SLOTS ==> #[trigger] self.wheel@[j] == old_wheel[j],
                drained@ == expired_upto(old_wheel, expire, i as int),
                items_upto(self.wheel@, WHEEL_SLOTS as int).to_multiset().add(drained@.to_multiset())
                    == items_upto(old_wheel, WHEEL_SLOTS as int).to_multiset(),
            decreases WHEEL_SLOTS - i,
        {
            let is_expired = match self.wheel[i].epoch_bucket {
                Some(e) => expire >= timeout && e <= expire - timeout,
                None => false,
            };
            let ghost wheel_before = self.wheel@;
            let ghost drained_before = drained@;
            if is_expired {
                let mut qs: Vec<KeyQueue> = Vec::new();
                std::mem::swap(&mut qs, &mut self.wheel[i].queues);
                self.wheel[i].epoch_bucket = None;
                let ghost orig = qs@;
                assert(orig == old_wheel[i as int].queues@);
                let mut j: usize = 0;
                while j < qs.len()
                    invariant
                        qs@.len() == orig.len(),
                        j <= orig.len(),
                        forall|m: int| j <= m < orig.len() ==> #[trigger] qs@[m] == orig[m],
                        drained@ == expired_upto(old_wheel, expire, i as int) + all_items(
                            orig.take(j as int),
                        ),
                    decreases orig.len() - j,
                {
                    let ghost before = drained@;
                    drained.append(&mut qs[j].items);
                    proof {
                        assert(orig.take(j + 1).drop_last() =~= orig.take(j as int));
                        assert(before + orig[j as int].items@ =~= expired_upto(
                            old_wheel,
                            expire,
                            i as int,
                        ) + all_items(orig.take(j + 1)));
                    }
                    j = j + 1;
                }
                proof {
                    assert(orig.take(orig.len() as int) =~= orig);
                    let slot_now = self.wheel@[i as int];
                    assert(self.wheel@ =~= wheel_before.update(i as int, slot_now));
                    lemma_items_upto_update(wheel_before, i as int, slot_now, WHEEL_SLOTS as int);
                    assert(all_items(slot_now.queues@) =~= Seq::<PendingPacket>::empty());
                    assert(Seq::<PendingPacket>::empty().to_multiset() =~= Multiset::empty());
                    assert(drained@ == drained_before + all_items(orig));
                    vstd::seq_lib::lemma_multiset_commutative(drained_before, all_items(orig));
                    let mw = items_upto(self.wheel@, WHEEL_SLOTS as int).to_multiset();
                    let mb = items_upto(wheel_before, WHEEL_SLOTS as int).to_multiset();
                    let mo = all_items(orig).to_multiset();
                    assert(mw.add(mo) =~= mb.add(Multiset::empty()));
                    let md = drained_before.to_multiset();
                    let mt = items_upto(old_wheel, WHEEL_SLOTS as int).to_multiset();
                    assert(mb.add(md) == mt);
                    assert(drained@.to_multiset() == md.add(mo));
                    assert forall|v: PendingPacket| #[trigger] mw.add(drained@.to_multiset()).count(v) == mt.count(v) by {
                        assert(mw.add(mo).count(v) == mb.count(v));
                        assert(mb.add(md).count(v) == mt.count(v));
                    }
                    assert(mw.add(drained@.to_multiset()) =~= mt);
                }
            }
            i = i + 1;
        }
        proof {
            let e = expire;
            assert forall|i: int| 0 <= i < self.wheel@.len() implies (#[trigger] self.wheel@[i]).wf()
                && (self.wheel@[i].epoch_bucket matches Some(b) ==> slot_of(b) == i
                && self.wheel@[i].stamped(self.base_ns, b)) by {
                assert(old_wheel[i].wf());
                if slot_expired(old_wheel[i], e) {
                    assert(self.wheel@[i].queues@.len() == 0);
                }
            }
            assert forall|b: u64, k: FlowSizeKey| #[trigger]
                self.queue(b, k) == if b + timeout_buckets() <= e {
                    Seq::empty()
                } else {
                    old(self).queue(b, k)
                } by {
                let s = slot_of(b);
                assert(0 <= s < WHEEL_SLOTS);
                assert(old_wheel[s].wf());
                if slot_expired(old_wheel[s], e) {
                    assert(!has_key(self.wheel@[s].queues@, k));
                }
            }
        }
        drained
    }

    /// Number of pending packets.
    pub fn pending_len(&self) -> (r: usize)
        requires
            self.wf(),
            self.pending().len() <= usize::MAX,
        ensures
            r == self.pending().len(),
    {
        let mut total: usize = 0;
        let mut i: usize = 0;
        while i < self.wheel.len()
            invariant
                self.wf(),
                self.pending().len() <= usize::MAX,
                i <= self.wheel@.len(),
                total == items_upto(self.wheel@, i as int).len(),
            decreases self.wheel@.len() - i,
        {
            let qs = &self.wheel[i].queues;
            let mut j: usize = 0;
            while j < qs.len()
                invariant
                    self.wf(),
                    self.pending().len() <= usize::MAX,
                    i < self.wheel@.len(),
                    qs@ == self.wheel@[i as int].queues@,
                    j <= qs@.len(),
                    total == items_upto(self.wheel@, i as int).len() + all_items(qs@.take(j as int)).len(),
                decreases qs@.len() - j,
            {
                proof {
                    assert(qs@.take(j + 1).drop_last() =~= qs@.take(j as int));
                    lemma_all_items_take(qs@, j + 1);
                    lemma_items_upto_mono(self.wheel@, i + 1, self.wheel@.len() as int);
                }
                total = total + qs[j].items.len();
                j = j + 1;
            }
            proof {
                assert(qs@.take(qs@.len() as int) =~= qs@);
            }
            i = i + 1;
        }
        total
    }

    /// Whether no packet is pending.
    pub fn is_empty(&self) -> (r: bool)
        requires
            self.wf(),
        ensures
            r == self.is_empty_spec(),
    {
        let mut i: usize = 0;
        while i < self.wheel.len()
            invariant
                self.wf(),
                i <= self.wheel@.len(),
                forall|j: int| 0 <= j < i ==> (#[trigger] self.wheel@[j]).queues@.len() == 0,
            decreases self.wheel@.len() - i,
        {
            if self.wheel[i].queues.len() != 0 {
                return false;
            }
            i = i + 1;
        }
        true
    }
}

} // verus!
