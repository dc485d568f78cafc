//! Which captured frames the obfuscating side takes in.
use crate::pattern::{
    advance_push_state, advanced, lemma_advance_valid, lemma_first_fit_starts_run, push_state_valid,
};
use crate::queues::round_robin::{pushed, pushed_in_order, RoundRobinScheduler};
use vstd::prelude::*;
use vstd::slice::slice_to_vec;

verus! {

/// Offset of the source MAC address in an Ethernet header.
pub const ETH_SRC_MAC_OFFSET: usize = 6;

/// Length of a MAC address.
pub const MAC_LEN: usize = 6;

/// The frame's Ethernet source address is `mac`.
pub open spec fn sent_by(frame: Seq<u8>, mac: Seq<u8>) -> bool {
    frame.len() >= ETH_SRC_MAC_OFFSET + MAC_LEN && frame.subrange(
        ETH_SRC_MAC_OFFSET as int,
        (ETH_SRC_MAC_OFFSET + MAC_LEN) as int,
    ) == mac
}

fn has_source(frame: &[u8], mac: [u8; 6]) -> (r: bool)
    ensures
        r == sent_by(frame@, mac@),
{
    if frame.len() < ETH_SRC_MAC_OFFSET + MAC_LEN {
        return false;
    }
    let mut k: usize = 0;
    while k < MAC_LEN
        invariant
            frame@.len() >= ETH_SRC_MAC_OFFSET + MAC_LEN,
            k <= MAC_LEN,
            forall|j: int| 0 <= j < k ==> frame@[ETH_SRC_MAC_OFFSET + j] == #[trigger] mac@[j],
        decreases MAC_LEN - k,
    {
        if frame[ETH_SRC_MAC_OFFSET + k] != mac[k] {
            assert(frame@.subrange(ETH_SRC_MAC_OFFSET as int, (ETH_SRC_MAC_OFFSET + MAC_LEN) as int)[k as int]
                != mac@[k as int]);
            return false;
        }
        k = k + 1;
    }
    assert(frame@.subrange(ETH_SRC_MAC_OFFSET as int, (ETH_SRC_MAC_OFFSET + MAC_LEN) as int) =~= mac@);
    true
}

/// A captured frame is taken in only when it was sent by the input
/// interface or by the configured source device; this keeps the machine's
/// own frames, echoed back by the tap, out of the queues.
pub fn accept_source(frame: &[u8], input_mac: [u8; 6], device_mac: [u8; 6]) -> (r: bool)
    ensures
        r == (sent_by(frame@, input_mac@) || sent_by(frame@, device_mac@)),
{
    has_source(frame, input_mac) || has_source(frame, device_mac)
}

/// One captured frame on the obfuscating side, reordering mode: a frame from
/// another sender is ignored; an accepted one is classified and queued by
/// `push`, and the push-state vector advances at the slot it went to, so the
/// vector stays valid for the next frame. Returns the slot, or `None` when
/// the frame was ignored.
pub fn take_in_frame(
    rrs: &mut RoundRobinScheduler,
    psv: &mut Vec<(usize, usize)>,
    frame: &[u8],
    input_mac: [u8; 6],
    device_mac: [u8; 6],
) -> (r: Option<usize>)
    requires
        old(rrs).wf(),
        push_state_valid(old(rrs).pattern(), old(psv)@),
    ensures
        final(rrs).wf(),
        push_state_valid(final(rrs).pattern(), final(psv)@),
        !(sent_by(frame@, input_mac@) || sent_by(frame@, device_mac@)) ==> r is None && *final(rrs)
            == *old(rrs) && final(psv)@ == old(psv)@,
        sent_by(frame@, input_mac@) || sent_by(frame@, device_mac@) ==> r is Some && pushed(
            *old(rrs),
            *final(rrs),
            frame@,
            old(psv)@,
            r->0,
        ) && final(psv)@ == advanced(old(psv)@, r->0 as int),
{
    if !accept_source(frame, input_mac, device_mac) {
        return None;
    }
    let ghost p = rrs.pattern();
    let ghost s0 = psv@;
    let i = rrs.push(slice_to_vec(frame), psv);
    advance_push_state(psv, i);
    proof {
        lemma_first_fit_starts_run(p, frame@.len() as int);
        if i < p.len() {
            lemma_advance_valid(p, s0, i as int);
        }
    }
    Some(i)
}

/// One captured frame on the obfuscating side, in-order mode: a frame from
/// another sender is ignored and `idx` comes back; an accepted one is queued
/// by `push_no_reorder` from queue `idx` on, and the next queue to scan from
/// comes back.
pub fn take_in_frame_in_order(
    rrs: &mut RoundRobinScheduler,
    idx: usize,
    frame: &[u8],
    input_mac: [u8; 6],
    device_mac: [u8; 6],
) -> (r: usize)
    requires
        old(rrs).wf(),
        idx < old(rrs).queues@.len(),
    ensures
        final(rrs).wf(),
        r < final(rrs).queues@.len(),
        !(sent_by(frame@, input_mac@) || sent_by(frame@, device_mac@)) ==> r == idx && *final(rrs)
            == *old(rrs),
        sent_by(frame@, input_mac@) || sent_by(frame@, device_mac@) ==> pushed_in_order(
            *old(rrs),
            *final(rrs),
            frame@,
            idx,
            r,
        ),
{
    if !accept_source(frame, input_mac, device_mac) {
        return idx;
    }
    let r = rrs.push_no_reorder(slice_to_vec(frame), idx);
    proof {
        let n = old(rrs).queues@.len() as int;
        let k = crate::queues::round_robin::scan_fit(old(rrs).pattern(), idx as int, frame@.len() as int, 0);
        assert(old(rrs).pattern().len() == n);
        crate::queues::round_robin::lemma_scan_fit_bounds(
            old(rrs).pattern(),
            idx as int,
            frame@.len() as int,
            0,
        );
        assert(n > 0);
        if k < n {
            let t = (idx + k) % n;
            assert(0 <= (t + 1) % n < n) by (nonlinear_arith)
                requires
                    n > 0,
            ;
        }
    }
    r
}

} // verus!
