//! One queue per pattern slot: real frames are classified into a queue, and
//! the queues are served one per tick in pattern order.
use crate::pattern::{
    first_fit, first_fit_from, lemma_first_fit_starts_run, push_state_valid, run_end, run_start,
    valid_pattern, IP_HEADER_LEN,
};
use crate::queues::priority_queue::{
    chaff_frame, lemma_queue_wire_length, padded_frame, PriorityQueue, MAX_Q_LEN,
};
use vstd::prelude::*;

verus! {

/// Scanning from queue `idx`, the offset `k` of the first queue whose slot
/// holds `len` bytes, starting the scan at offset `k`; `p.len()` if none does.
pub open spec fn scan_fit(p: Seq<usize>, idx: int, len: int, k: int) -> int
    decreases p.len() - k,
{
    if 0 <= k < p.len() {
        if len <= p[(idx + k) % (p.len() as int)] {
            k
        } else {
            scan_fit(p, idx, len, k + 1)
        }
    } else {
        p.len() as int
    }
}

/// The scan ends within the pattern, or just past it when no slot fits.
pub proof fn lemma_scan_fit_bounds(p: Seq<usize>, idx: int, len: int, k: int)
    requires
        0 <= k <= p.len(),
    ensures
        k <= scan_fit(p, idx, len, k) <= p.len(),
    decreases p.len() - k,
{
    if k < p.len() && len > p[(idx + k) % (p.len() as int)] {
        lemma_scan_fit_bounds(p, idx, len, k + 1);
    }
}

/// What `push` does: scheduler `a` became `b` by classifying `packet` with
/// push-state vector `psv`, and `r` came back. The frame goes to the queue
/// that `psv` names for the smallest slot holding it, if that queue has room;
/// the padding added or the drop is counted. No slot holds it: nothing changes.
pub open spec fn pushed(
    a: RoundRobinScheduler,
    b: RoundRobinScheduler,
    packet: Seq<u8>,
    psv: Seq<(usize, usize)>,
    r: usize,
) -> bool {
    let p = a.pattern();
    &&& b.wf()
    &&& b.same_shape(&a)
    &&& r == first_fit(p, packet.len() as int)
    &&& r == p.len() ==> b == a
    &&& r < p.len() ==> {
        let t = psv[r as int].0 as int;
        let fits = a.items(t).len() < MAX_Q_LEN;
        &&& run_start(p, r as int) <= t < run_end(p, r as int)
        &&& p[t] == p[r as int]
        &&& forall|j: int| 0 <= j < p.len() && j != t ==> #[trigger] b.items(j) == a.items(j)
        &&& fits ==> b.items(t) == a.items(t).push(
            padded_frame(packet, p[t] as nat, a.source(), a.destination()),
        )
        &&& fits ==> b.total_pad == a.total_pad.saturating_add((p[t] - packet.len()) as u64)
        &&& fits ==> b.dropped == a.dropped
        &&& !fits ==> b.items(t) == a.items(t)
        &&& !fits ==> b.total_pad == a.total_pad
        &&& !fits ==> b.dropped == a.dropped.saturating_add(1)
    }
}

/// What `push_no_reorder` does: scheduler `a` became `b` by queueing `packet`
/// in the first queue, from `idx` on in cyclic order, whose slot holds it,
/// and `r`, the queue after it, came back. No slot holds it: nothing changes
/// and `idx` comes back.
pub open spec fn pushed_in_order(
    a: RoundRobinScheduler,
    b: RoundRobinScheduler,
    packet: Seq<u8>,
    idx: usize,
    r: usize,
) -> bool {
    let p = a.pattern();
    let n = p.len() as int;
    let k = scan_fit(p, idx as int, packet.len() as int, 0);
    let t = (idx + k) % n;
    let fits = a.items(t).len() < MAX_Q_LEN;
    &&& b.wf()
    &&& b.same_shape(&a)
    &&& k == n ==> r == idx && b == a
    &&& k < n ==> {
        &&& r == (t + 1) % n
        &&& packet.len() <= p[t]
        &&& forall|j: int| 0 <= j < n && j != t ==> #[trigger] b.items(j) == a.items(j)
        &&& fits ==> b.items(t) == a.items(t).push(
            padded_frame(packet, p[t] as nat, a.source(), a.destination()),
        )
        &&& fits ==> b.total_pad == a.total_pad.saturating_add((p[t] - packet.len()) as u64)
        &&& fits ==> b.dropped == a.dropped
        &&& !fits ==> b.items(t) == a.items(t)
        &&& !fits ==> b.total_pad == a.total_pad
        &&& !fits ==> b.dropped == a.dropped.saturating_add(1)
    }
}

/// Every frame on the wire is one slot long plus the outer header: every
/// frame waiting in queue `i` of a well-formed scheduler is `pattern[i] + 20`
/// bytes, and so is the chaff frame of that slot.
pub proof fn lemma_wire_length(s: RoundRobinScheduler)
    requires
        s.wf(),
    ensures
        forall|i: int, k: int|
            0 <= i < s.queues@.len() && 0 <= k < s.items(i).len() ==> (#[trigger] s.items(i)[k]).len()
                == s.pattern()[i] + IP_HEADER_LEN,
        forall|i: int|
            0 <= i < s.queues@.len() ==> #[trigger] chaff_frame(
                s.pattern()[i] as nat,
                s.source(),
                s.destination(),
            ).len() == s.pattern()[i] + IP_HEADER_LEN,
{
    assert forall|i: int, k: int|
        0 <= i < s.queues@.len() && 0 <= k < s.items(i).len() implies (#[trigger] s.items(
        i,
    )[k]).len() == s.pattern()[i] + IP_HEADER_LEN by {
        lemma_queue_wire_length(s.queues@[i]);
    }
    assert forall|i: int| 0 <= i < s.queues@.len() implies #[trigger] chaff_frame(
        s.pattern()[i] as nat,
        s.source(),
        s.destination(),
    ).len() == s.pattern()[i] + IP_HEADER_LEN by {
        lemma_queue_wire_length(s.queues@[i]);
    }
}

/// The scheduler: one queue per pattern slot, the bytes of padding added to
/// queued frames, and the count of frames dropped because a queue was full.
pub struct RoundRobinScheduler {
    pub queues: Vec<PriorityQueue>,
    pub total_pad: u64,
    pub dropped: u64,
}

impl RoundRobinScheduler {
    /// The slot lengths, one per queue.
    pub open spec fn pattern(&self) -> Seq<usize> {
        Seq::new(self.queues@.len(), |i: int| self.queues@[i].slot_len() as usize)
    }

    /// The frames waiting in queue `i`, oldest first.
    pub open spec fn items(&self, i: int) -> Seq<Seq<u8>> {
        self.queues@[i].items()
    }

    /// The outer source address of every frame.
    pub open spec fn source(&self) -> Seq<u8> {
        self.queues@[0].source()
    }

    /// The outer destination address of every frame.
    pub open spec fn destination(&self) -> Seq<u8> {
        self.queues@[0].destination()
    }

    /// A usable pattern, every queue well formed, one pair of addresses.
    pub open spec fn wf(&self) -> bool {
        &&& valid_pattern(self.pattern())
        &&& forall|i: int|
            0 <= i < self.queues@.len() ==> {
                &&& (#[trigger] self.queues@[i]).wf()
                &&& self.queues@[i].slot_len() <= crate::pattern::MTU
                &&& self.queues@[i].source() == self.source()
                &&& self.queues@[i].destination() == self.destination()
            }
    }

    /// Same pattern and addresses as `old`.
    pub open spec fn same_shape(&self, old: &Self) -> bool {
        &&& self.queues@.len() == old.queues@.len()
        &&& self.pattern() == old.pattern()
        &&& self.source() == old.source()
        &&& self.destination() == old.destination()
    }

    /// One empty queue for each slot of `pattern`.
    pub fn new(pattern: &[usize], src: [u8; 4], dst: [u8; 4]) -> (r: RoundRobinScheduler)
        requires
            valid_pattern(pattern@),
        ensures
            r.wf(),
            r.pattern() == pattern@,
            r.source() == src@,
            r.destination() == dst@,
            forall|i: int| 0 <= i < pattern@.len() ==> #[trigger] r.items(i) == Seq::<Seq<u8>>::empty(),
            r.total_pad == 0,
            r.dropped == 0,
    {
        let n = pattern.len();
        let mut queues: Vec<PriorityQueue> = Vec::with_capacity(n);
        let mut i: usize = 0;
        while i < n
            invariant
                n == pattern@.len(),
                valid_pattern(pattern@),
                i <= n,
                queues@.len() == i,
                forall|j: int|
                    0 <= j < i ==> {
                        &&& (#[trigger] queues@[j]).wf()
                        &&& queues@[j].slot_len() == pattern@[j]
                        &&& queues@[j].items() == Seq::<Seq<u8>>::empty()
                        &&& queues@[j].source() == src@
                        &&& queues@[j].destination() == dst@
                    },
            decreases n - i,
        {
            queues.push(PriorityQueue::new(pattern[i], src, dst));
            i = i + 1;
        }
        let r = RoundRobinScheduler { queues, total_pad: 0, dropped: 0 };
        assert(r.pattern() =~= pattern@);
        r
    }

    /// Classifies `packet` into the smallest slot that holds it and queues it
    /// in the queue that `last_queues` names for that slot. Returns the slot,
    /// or the number of slots when none holds the packet (it is dropped).
    /// The caller advances `last_queues` at the returned slot.
    pub fn push(&mut self, packet: Vec<u8>, last_queues: &Vec<(usize, usize)>) -> (r: usize)
        requires
            old(self).wf(),
            push_state_valid(old(self).pattern(), last_queues@),
        ensures
            pushed(*old(self), *final(self), packet@, last_queues@, r),
    {
        let n = self.queues.len();
        let length = packet.len();
        let ghost p = self.pattern();
        proof {
            lemma_first_fit_starts_run(p, length as int);
        }
        let mut i: usize = 0;
        while i < n
            invariant
                n == self.queues@.len() == p.len(),
                p == self.pattern(),
                self.wf(),
                *self == *old(self),
                push_state_valid(p, last_queues@),
                packet@.len() == length,
                i <= n,
                first_fit(p, length as int) == first_fit_from(p, length as int, i as int),
            decreases n - i,
        {
            if length <= self.queues[i].length() {
                let idx = last_queues[i].0;
                proof {
                    crate::pattern::lemma_run_values(p, i as int, idx as int);
                    crate::pattern::lemma_run_bounds(p, i as int);
                }
                let ghost old_self = *self;
                let slot = self.queues[idx].length();
                let pushed = self.queues[idx].push(packet);
                if pushed {
                    self.total_pad = self.total_pad.saturating_add((slot - length) as u64);
                } else {
                    self.dropped = self.dropped.saturating_add(1);
                }
                proof {
                    assert(self.pattern() =~= old_self.pattern());
                    assert forall|j: int| 0 <= j < n implies {
                        &&& (#[trigger] self.queues@[j]).wf()
                        &&& self.queues@[j].slot_len() <= crate::pattern::MTU
                        &&& self.queues@[j].source() == self.source()
                        &&& self.queues@[j].destination() == self.destination()
                    } by {
                        if j != idx {
                            assert(self.queues@[j] == old_self.queues@[j]);
                        }
                        assert(old_self.queues@[j].wf());
                        assert(old_self.queues@[0].wf());
                    }
                }
                return i;
            }
            i = i + 1;
        }
        i
    }

    /// Queues `packet` in the first queue, scanning from `idx` in cyclic order,
    /// whose slot holds it; arrival order is kept at the cost of more padding.
    /// Returns the queue after the chosen one; when no slot holds the packet
    /// it is dropped and `idx` comes back.
    pub fn push_no_reorder(&mut self, packet: Vec<u8>, idx: usize) -> (r: usize)
        requires
            old(self).wf(),
            idx < old(self).queues@.len(),
        ensures
            pushed_in_order(*old(self), *final(self), packet@, idx, r),
    {
        let n = self.queues.len();
        let pkt_len = packet.len();
        let ghost p = self.pattern();
        let mut i: usize = 0;
        while i < n
            invariant
                n == self.queues@.len() == p.len(),
                p == self.pattern(),
                self.wf(),
                *self == *old(self),
                idx < n,
                packet@.len() == pkt_len,
                i <= n,
                scan_fit(p, idx as int, pkt_len as int, 0) == scan_fit(p, idx as int, pkt_len as int, i as int),
            decreases n - i,
        {
            let current_q = if i < n - idx {
                idx + i
            } else {
                i - (n - idx)
            };
            assert(current_q == (idx + i) % (n as int)) by (nonlinear_arith)
                requires
                    idx < n,
                    i < n,
                    current_q == if idx + i < n {
                        idx + i
                    } else {
                        idx + i - n
                    },
            ;
            if pkt_len <= self.queues[current_q].length() {
                let ghost old_self = *self;
                let pushed = self.queues[current_q].push(packet);
                if pushed {
                    let slot = self.queues[current_q].length();
                    self.total_pad = self.total_pad.saturating_add((slot - pkt_len) as u64);
                } else {
                    self.dropped = self.dropped.saturating_add(1);
                }
                proof {
                    assert(self.pattern() =~= old_self.pattern());
                    assert forall|j: int| 0 <= j < n implies {
                        &&& (#[trigger] self.queues@[j]).wf()
                        &&& self.queues@[j].slot_len() <= crate::pattern::MTU
                        &&& self.queues@[j].source() == self.source()
                        &&& self.queues@[j].destination() == self.destination()
                    } by {
                        if j != current_q {
                            assert(self.queues@[j] == old_self.queues@[j]);
                        }
                        assert(old_self.queues@[j].wf());
                        assert(old_self.queues@[0].wf());
                    }
                }
                return (current_q + 1) % n;
            }
            i = i + 1;
        }
        idx
    }

    /// One frame for the wire from queue `idx`: its oldest frame, or chaff.
    pub fn pop(&mut self, idx: usize) -> (r: Vec<u8>)
        requires
            old(self).wf(),
            idx < old(self).queues@.len(),
        ensures
            final(self).wf(),
            final(self).same_shape(old(self)),
            final(self).total_pad == old(self).total_pad,
            final(self).dropped == old(self).dropped,
            r@.len() == old(self).pattern()[idx as int] + IP_HEADER_LEN,
            forall|j: int|
                0 <= j < old(self).queues@.len() && j != idx ==> #[trigger] final(self).items(j)
                    == old(self).items(j),
            old(self).items(idx as int).len() > 0 ==> r@ == old(self).items(idx as int)[0]
                && final(self).items(idx as int) == old(self).items(idx as int).drop_first(),
            old(self).items(idx as int).len() == 0 ==> r@ == chaff_frame(
                old(self).pattern()[idx as int] as nat,
                old(self).source(),
                old(self).destination(),
            ) && final(self).items(idx as int) == old(self).items(idx as int),
    {
        let ghost old_self = *self;
        let r = self.queues[idx].pop();
        proof {
            assert(self.pattern() =~= old_self.pattern());
            assert forall|j: int| 0 <= j < self.queues@.len() implies {
                &&& (#[trigger] self.queues@[j]).wf()
                &&& self.queues@[j].slot_len() <= crate::pattern::MTU
                &&& self.queues@[j].source() == self.source()
                &&& self.queues@[j].destination() == self.destination()
            } by {
                if j != idx {
                    assert(self.queues@[j] == old_self.queues@[j]);
                }
                assert(old_self.queues@[j].wf());
                assert(old_self.queues@[0].wf());
            }
        }
        r
    }
}

/// Frames pushed into one queue never swap: after any `k` pops of the
/// frames ahead of them, a frame pushed before another is still ahead of it.
pub proof fn lemma_same_queue_order(ahead: Seq<Seq<u8>>, a: Seq<u8>, b: Seq<u8>, k: nat)
    requires
        k <= ahead.len(),
    ensures
        ({
            let left = ahead.push(a).push(b).subrange(k as int, ahead.len() as int + 2);
            &&& left[left.len() - 2] == a
            &&& left[left.len() - 1] == b
            &&& left.subrange(0, left.len() - 2) == ahead.subrange(k as int, ahead.len() as int)
        }),
{
    let left = ahead.push(a).push(b).subrange(k as int, ahead.len() as int + 2);
    assert(left.subrange(0, left.len() - 2) =~= ahead.subrange(k as int, ahead.len() as int));
}

} // verus!
