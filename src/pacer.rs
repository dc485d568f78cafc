//! The decisions of the transmit side: which slot to serve at each tick and
//! how long to sleep so that ticks start one interval apart.
use vstd::prelude::*;

verus! {

/// The slot served after slot `s` in a pattern of `n` slots.
pub open spec fn following_slot(s: nat, n: nat) -> nat {
    (s + 1) % n
}

/// The slot served at tick `k`, counting from slot 0.
pub open spec fn slot_at_tick(n: nat, k: nat) -> nat
    decreases k,
{
    if k == 0 {
        0
    } else {
        following_slot(slot_at_tick(n, (k - 1) as nat), n)
    }
}

/// When tick `k` is due, the first tick being due at `start`.
pub open spec fn deadline_at_tick(start: u64, interval: u64, k: nat) -> u64
    decreases k,
{
    if k == 0 {
        start
    } else {
        deadline_at_tick(start, interval, (k - 1) as nat).saturating_add(interval)
    }
}

/// Time left until `deadline` at time `now`, none once it has passed.
pub open spec fn sleep_until(deadline: u64, now: u64) -> u64 {
    if now < deadline {
        (deadline - now) as u64
    } else {
        0
    }
}

/// The transmit side's pacing state: the slot to serve next and when the
/// current tick started, every time in nanoseconds from a fixed origin.
pub struct Pacer {
    pub num_slots: usize,
    pub interval_ns: u64,
    pub slot: usize,
    pub tick_start_ns: u64,
}

impl Pacer {
    pub open spec fn wf(&self) -> bool {
        0 < self.num_slots && self.slot < self.num_slots
    }

    /// A pacer that serves slot 0 first, in a tick that starts at `start_ns`.
    pub fn new(num_slots: usize, interval_ns: u64, start_ns: u64) -> (r: Pacer)
        requires
            0 < num_slots,
        ensures
            r.wf(),
            r.num_slots == num_slots,
            r.interval_ns == interval_ns,
            r.slot == 0,
            r.tick_start_ns == start_ns,
    {
        Pacer { num_slots, interval_ns, slot: 0, tick_start_ns: start_ns }
    }

    /// The slot to serve in this tick; the next call serves the following one.
    pub fn next_slot(&mut self) -> (r: usize)
        requires
            old(self).wf(),
        ensures
            final(self).wf(),
            r == old(self).slot,
            final(self).slot == following_slot(old(self).slot as nat, old(self).num_slots as nat),
            final(self).num_slots == old(self).num_slots,
            final(self).interval_ns == old(self).interval_ns,
            final(self).tick_start_ns == old(self).tick_start_ns,
    {
        let r = self.slot;
        self.slot = (self.slot + 1) % self.num_slots;
        r
    }

    /// How long to sleep at time `now_ns`, after this tick's frame went out,
    /// so that the next tick starts one interval after this one started (not
    /// one interval after now, so lateness does not add up).
    pub fn sleep_after(&mut self, now_ns: u64) -> (r: u64)
        requires
            old(self).wf(),
        ensures
            final(self).wf(),
            final(self).tick_start_ns == old(self).tick_start_ns.saturating_add(old(self).interval_ns),
            r == sleep_until(final(self).tick_start_ns, now_ns),
            final(self).num_slots == old(self).num_slots,
            final(self).interval_ns == old(self).interval_ns,
            final(self).slot == old(self).slot,
    {
        self.tick_start_ns = self.tick_start_ns.saturating_add(self.interval_ns);
        if now_ns < self.tick_start_ns {
            self.tick_start_ns - now_ns
        } else {
            0
        }
    }
}

/// Slots are served in strict rotation: tick `k` serves slot `k mod n`.
pub proof fn lemma_slot_rotation(n: nat, k: nat)
    requires
        0 < n,
    ensures
        slot_at_tick(n, k) == (k as int) % (n as int),
    decreases k,
{
    if k > 0 {
        lemma_slot_rotation(n, (k - 1) as nat);
        let m = (k - 1) as int;
        assert(slot_at_tick(n, k) == following_slot(slot_at_tick(n, (k - 1) as nat), n));
        assert(((m % (n as int)) + 1) % (n as int) == (k as int) % (n as int)) by (nonlinear_arith)
            requires
                n > 0,
                m >= 0,
                k == m + 1,
        {
            assert(0 <= m % (n as int) < n);
            if m % (n as int) + 1 < n {
                assert((k as int) % (n as int) == m % (n as int) + 1);
            } else {
                assert((k as int) % (n as int) == 0);
            }
        }
    } else {
        assert((k as int) % (n as int) == 0) by (nonlinear_arith)
            requires
                k == 0,
                n > 0,
        ;
    }
}

/// Ticks are due one interval apart: while the clock does not overflow, tick
/// `k` is due `k` intervals after the first, so after a sleep that ends at
/// the deadline no tick starts before `start + k * interval`, and over `k`
/// ticks the mean rate is one tick per interval.
pub proof fn lemma_pacing(start: u64, interval: u64, k: nat)
    requires
        start + k * interval <= u64::MAX,
    ensures
        deadline_at_tick(start, interval, k) == start + k * interval,
    decreases k,
{
    if k > 0 {
        let m = (k - 1) as nat;
        assert(start + m * interval <= start + k * interval) by (nonlinear_arith)
            requires
                k == m + 1,
        ;
        lemma_pacing(start, interval, m);
        assert(start + m * interval + interval == start + k * interval) by (nonlinear_arith)
            requires
                k == m + 1,
        ;
        let prev = deadline_at_tick(start, interval, m);
        assert(prev + interval <= u64::MAX);
        assert(prev.saturating_add(interval) == prev + interval);
        assert(deadline_at_tick(start, interval, k) == prev.saturating_add(interval));
    } else {
        assert(k * interval == 0) by (nonlinear_arith)
            requires
                k == 0,
        ;
    }
}

/// A sleep chosen by `sleep_after` ends at the next deadline, or at once when
/// that deadline has passed.
pub proof fn lemma_sleep_reaches_deadline(deadline: u64, now: u64)
    ensures
        now + sleep_until(deadline, now) == if now < deadline {
            deadline as int
        } else {
            now as int
        },
{
}

/// Emissions are never closer than one interval less the lateness of the
/// earlier one: a tick due at `deadline` that starts at `started` and ends
/// its work at `now` is followed, after the sleep `sleep_after` picks, by a
/// tick that starts at least `interval - (started - deadline)` after it. A
/// tick that starts on time is followed by a gap of at least one interval.
pub proof fn lemma_emission_gap(deadline: u64, interval: u64, started: u64, now: u64)
    requires
        deadline <= started <= now,
        deadline + interval <= u64::MAX,
    ensures
        ({
            let next = deadline.saturating_add(interval);
            let next_start = now + sleep_until(next, now);
            &&& next_start >= next
            &&& next_start - started >= interval - (started - deadline)
        }),
{
}

} // verus!
