use budget_ditto::ingress::{take_in_frame, take_in_frame_in_order};
use budget_ditto::pattern::{advance_push_state, default_pattern, get_push_state_vector, get_sorted_indices};
use budget_ditto::queues::priority_queue::PriorityQueue;
use budget_ditto::queues::round_robin::RoundRobinScheduler;

const SRC: [u8; 4] = [10, 9, 0, 2];
const DST: [u8; 4] = [10, 9, 0, 1];

fn frame(len: usize, tag: u8) -> Vec<u8> {
    (0..len).map(|i| (i as u8).wrapping_add(tag).max(1)).collect()
}

fn outer_total_length(buf: &[u8]) -> usize {
    buf[2] as usize * 256 + buf[3] as usize
}

#[test]
fn push_state_vector_marks_runs() {
    let p = [100, 200, 300, 300, 300, 500];
    assert_eq!(
        get_push_state_vector(&p),
        vec![(0, 1), (1, 2), (2, 5), (2, 5), (2, 5), (5, 6)]
    );
}

#[test]
fn push_state_vector_single_slot_and_all_equal() {
    assert_eq!(get_push_state_vector(&[700]), vec![(0, 1)]);
    assert_eq!(get_push_state_vector(&[4, 4, 4]), vec![(0, 3), (0, 3), (0, 3)]);
    assert_eq!(get_push_state_vector(&[]), Vec::<(usize, usize)>::new());
}

#[test]
fn sorted_indices_are_stable() {
    assert_eq!(get_sorted_indices(&[300, 100, 300, 200]), vec![1, 3, 0, 2]);
    assert_eq!(get_sorted_indices(&[467, 933, 1400]), vec![0, 1, 2]);
    assert_eq!(get_sorted_indices(&[]), Vec::<usize>::new());
}

#[test]
fn default_pattern_values() {
    assert_eq!(default_pattern(), vec![467, 933, 1400]);
}

#[test]
fn advance_wraps_within_group() {
    let mut psv = get_push_state_vector(&[300, 300, 600]);
    advance_push_state(&mut psv, 0);
    assert_eq!(psv, vec![(1, 2), (0, 2), (2, 3)]);
    advance_push_state(&mut psv, 0);
    assert_eq!(psv, vec![(0, 2), (0, 2), (2, 3)]);
    advance_push_state(&mut psv, 2);
    assert_eq!(psv, vec![(0, 2), (0, 2), (2, 3)]);
    // an index past the end leaves the vector alone
    advance_push_state(&mut psv, 3);
    assert_eq!(psv, vec![(0, 2), (0, 2), (2, 3)]);
}

#[test]
fn state_group_fan_out_three_equal_slots() {
    let p = [200, 500, 500, 500, 900];
    let mut rrs = RoundRobinScheduler::new(&p, SRC, DST);
    let mut psv = get_push_state_vector(&p);
    let mut chosen = Vec::new();
    for k in 0..6u8 {
        let before: Vec<usize> = (0..p.len()).map(|q| psv[q].0).collect();
        let slot = rrs.push(frame(300, k), &psv);
        assert_eq!(slot, 1);
        chosen.push(before[1]);
        advance_push_state(&mut psv, slot);
    }
    assert_eq!(chosen, vec![1, 2, 3, 1, 2, 3]);
}

#[test]
fn scenario_single_frame_emitted_in_first_slot() {
    let p = [500, 1000, 1400];
    let mut rrs = RoundRobinScheduler::new(&p, SRC, DST);
    let psv = get_push_state_vector(&p);
    let f = frame(400, 7);
    assert!(f[2] != 0 || f[3] != 0);
    assert_eq!(rrs.push(f.clone(), &psv), 0);
    assert_eq!(rrs.total_pad, 100);
    let out = rrs.pop(0);
    assert_eq!(out.len(), 520);
    assert_eq!(outer_total_length(&out), 420);
    assert_eq!(&out[20..420], &f[..]);
    assert!(out[420..].iter().all(|&b| b == 0));
    let got = budget_ditto::deobfuscate::process_packet(&out, [10, 9, 0, 1], true, false);
    assert_eq!(got, Some(&f[..]));
}

#[test]
fn scenario_equal_group_gets_a_then_b() {
    let p = [300, 300, 600];
    let mut rrs = RoundRobinScheduler::new(&p, SRC, DST);
    let mut psv = get_push_state_vector(&p);
    let a = frame(250, 1);
    let b = frame(250, 2);
    let c = frame(250, 3);
    for f in [&a, &b, &c] {
        let slot = rrs.push(f.clone(), &psv);
        assert_eq!(slot, 0);
        advance_push_state(&mut psv, slot);
    }
    let e0 = rrs.pop(0);
    let e1 = rrs.pop(1);
    let e2 = rrs.pop(2);
    let e3 = rrs.pop(0);
    assert_eq!(&e0[20..270], &a[..]);
    assert_eq!(&e1[20..270], &b[..]);
    assert_eq!(e2.len(), 620);
    assert!(e2[20..].iter().all(|&x| x == 0));
    assert_eq!(&e3[20..270], &c[..]);
    assert_eq!((e0.len(), e1.len(), e3.len()), (320, 320, 320));
}

#[test]
fn scenario_oversize_frame_dropped() {
    let p = [500, 1000, 1400];
    let mut rrs = RoundRobinScheduler::new(&p, SRC, DST);
    let psv = get_push_state_vector(&p);
    assert_eq!(rrs.push(frame(1500, 0), &psv), 3);
    for q in 0..3 {
        let out = rrs.pop(q);
        assert!(out[20..].iter().all(|&x| x == 0));
    }
    assert_eq!(rrs.total_pad, 0);
    assert_eq!(rrs.dropped, 0);
}

#[test]
fn smallest_sufficient_slot_is_chosen() {
    let p = [500, 1000, 1400];
    let mut rrs = RoundRobinScheduler::new(&p, SRC, DST);
    let psv = get_push_state_vector(&p);
    assert_eq!(rrs.push(frame(500, 0), &psv), 0);
    assert_eq!(rrs.push(frame(501, 0), &psv), 1);
    assert_eq!(rrs.push(frame(1400, 0), &psv), 2);
    assert_eq!(rrs.push(frame(0, 0), &psv), 0);
    assert_eq!(rrs.total_pad, 0 + 499 + 0 + 500);
}

#[test]
fn queue_full_drops_and_counts() {
    let p = [100];
    let mut rrs = RoundRobinScheduler::new(&p, SRC, DST);
    let psv = get_push_state_vector(&p);
    for k in 0..1025u32 {
        assert_eq!(rrs.push(frame(60, k as u8), &psv), 0);
    }
    assert_eq!(rrs.dropped, 1);
    assert_eq!(rrs.total_pad, 1024 * 40);
    for k in 0..1024u32 {
        let out = rrs.pop(0);
        assert_eq!(&out[20..80], &frame(60, k as u8)[..]);
    }
    let chaff = rrs.pop(0);
    assert!(chaff[20..].iter().all(|&x| x == 0));
}

#[test]
fn same_queue_keeps_order() {
    let mut q = PriorityQueue::new(200, SRC, DST);
    assert_eq!(q.length(), 200);
    assert!(q.push(frame(50, 1)));
    assert!(q.push(frame(80, 2)));
    let first = q.pop();
    let second = q.pop();
    assert_eq!(outer_total_length(&first), 70);
    assert_eq!(outer_total_length(&second), 100);
    assert_eq!(&first[20..70], &frame(50, 1)[..]);
    assert_eq!(&second[20..100], &frame(80, 2)[..]);
}

#[test]
fn queue_refuses_frame_longer_than_slot() {
    let mut q = PriorityQueue::new(200, SRC, DST);
    assert!(!q.push(frame(201, 1)));
    let out = q.pop();
    assert_eq!(out.len(), 220);
    assert!(out[20..].iter().all(|&x| x == 0));
}

#[test]
fn no_reorder_push_scans_cyclically() {
    let p = [500, 1000, 1400];
    let mut rrs = RoundRobinScheduler::new(&p, SRC, DST);
    assert_eq!(rrs.push_no_reorder(frame(300, 1), 1), 2);
    assert_eq!(rrs.push_no_reorder(frame(1200, 2), 0), 0);
    assert_eq!(rrs.push_no_reorder(frame(1200, 3), 2), 0);
    assert_eq!(rrs.push_no_reorder(frame(1401, 4), 1), 1);
    assert_eq!(rrs.total_pad, 700 + 200 + 200);
    let q1 = rrs.pop(1);
    assert_eq!(&q1[20..320], &frame(300, 1)[..]);
    let q2 = rrs.pop(2);
    assert_eq!(&q2[20..1220], &frame(1200, 2)[..]);
    let q2b = rrs.pop(2);
    assert_eq!(&q2b[20..1220], &frame(1200, 3)[..]);
    let q0 = rrs.pop(0);
    assert!(q0[20..].iter().all(|&x| x == 0));
}

#[test]
fn outer_header_fields() {
    let p = [500];
    let mut rrs = RoundRobinScheduler::new(&p, SRC, DST);
    let psv = get_push_state_vector(&p);
    rrs.push(frame(100, 5), &psv);
    let out = rrs.pop(0);
    assert_eq!(out[0], 0x45);
    assert_eq!(out[8], 64);
    assert_eq!(out[9], 4);
    assert_eq!(&out[12..16], &SRC);
    assert_eq!(&out[16..20], &DST);
    assert_eq!(outer_total_length(&out), 120);
}

fn header_sum(h: &[u8]) -> u32 {
    let mut sum: u32 = 0;
    for k in 0..10 {
        sum += (h[2 * k] as u32) << 8 | h[2 * k + 1] as u32;
    }
    while sum >> 16 != 0 {
        sum = (sum >> 16) + (sum & 0xffff);
    }
    sum
}

#[test]
fn outer_checksum_is_valid_for_frames_and_chaff() {
    let p = [500, 1000];
    let mut rrs = RoundRobinScheduler::new(&p, SRC, DST);
    let psv = get_push_state_vector(&p);
    rrs.push(frame(333, 9), &psv);
    let real = rrs.pop(0);
    let chaff = rrs.pop(1);
    assert_ne!((real[10], real[11]), (0, 0));
    assert_ne!((chaff[10], chaff[11]), (0, 0));
    assert_eq!(header_sum(&real[..20]), 0xffff);
    assert_eq!(header_sum(&chaff[..20]), 0xffff);
    assert_eq!(outer_total_length(&chaff), 1020);
}

fn from_mac(len: usize, mac: [u8; 6], tag: u8) -> Vec<u8> {
    let mut f = frame(len, tag);
    f[6..12].copy_from_slice(&mac);
    f
}

#[test]
fn take_in_frame_filters_pushes_and_advances() {
    let mine = [2, 0, 0, 0, 0, 1];
    let dev = [2, 0, 0, 0, 0, 2];
    let other = [2, 0, 0, 0, 0, 9];
    let p = [300, 300, 600];
    let mut rrs = RoundRobinScheduler::new(&p, SRC, DST);
    let mut psv = get_push_state_vector(&p);
    assert_eq!(take_in_frame(&mut rrs, &mut psv, &from_mac(250, other, 1), mine, dev), None);
    assert_eq!(psv, vec![(0, 2), (0, 2), (2, 3)]);
    let a = from_mac(250, mine, 2);
    let b = from_mac(250, dev, 3);
    assert_eq!(take_in_frame(&mut rrs, &mut psv, &a, mine, dev), Some(0));
    assert_eq!(psv, vec![(1, 2), (0, 2), (2, 3)]);
    assert_eq!(take_in_frame(&mut rrs, &mut psv, &b, mine, dev), Some(0));
    assert_eq!(psv, vec![(0, 2), (0, 2), (2, 3)]);
    assert_eq!(take_in_frame(&mut rrs, &mut psv, &from_mac(700, mine, 4), mine, dev), Some(3));
    assert_eq!(psv, vec![(0, 2), (0, 2), (2, 3)]);
    assert_eq!(&rrs.pop(0)[20..270], &a[..]);
    assert_eq!(&rrs.pop(1)[20..270], &b[..]);
    assert!(rrs.pop(0)[20..].iter().all(|&x| x == 0));
}

#[test]
fn take_in_frame_in_order_filters_and_scans() {
    let mine = [2, 0, 0, 0, 0, 1];
    let dev = [2, 0, 0, 0, 0, 2];
    let p = [500, 1000, 1400];
    let mut rrs = RoundRobinScheduler::new(&p, SRC, DST);
    assert_eq!(take_in_frame_in_order(&mut rrs, 1, &from_mac(300, [7; 6], 1), mine, dev), 1);
    let f = from_mac(1200, dev, 2);
    assert_eq!(take_in_frame_in_order(&mut rrs, 0, &f, mine, dev), 0);
    assert_eq!(&rrs.pop(2)[20..1220], &f[..]);
    assert_eq!(rrs.total_pad, 200);
}
