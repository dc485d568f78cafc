use budget_ditto::deobfuscate::process_packet;
use budget_ditto::hardware_obf::deobfuscate_tofino;
use budget_ditto::ingress::accept_source;
use budget_ditto::pattern::get_push_state_vector;
use budget_ditto::queues::round_robin::RoundRobinScheduler;

const SRC: [u8; 4] = [192, 168, 1, 10];
const DST: [u8; 4] = [192, 168, 1, 20];

fn wire(total: usize, len: usize, src: [u8; 4]) -> Vec<u8> {
    let mut b = vec![0u8; len];
    b[0] = 0x45;
    b[2] = (total >> 8) as u8;
    b[3] = total as u8;
    b[12..16].copy_from_slice(&src);
    for (k, x) in b.iter_mut().enumerate().skip(20) {
        *x = (k % 250) as u8 + 1;
    }
    b
}

#[test]
fn round_trip_through_each_slot() {
    let p = [64, 500, 1400];
    let mut rrs = RoundRobinScheduler::new(&p, SRC, DST);
    let psv = get_push_state_vector(&p);
    let frames: Vec<Vec<u8>> = vec![
        (0..64).map(|i| i as u8 + 1).collect(),
        (0..499).map(|i| (i % 200) as u8 + 3).collect(),
        (0..1400).map(|i| (i % 7) as u8 + 1).collect(),
    ];
    for (k, f) in frames.iter().enumerate() {
        assert_eq!(rrs.push(f.clone(), &psv), k);
        let out = rrs.pop(k);
        assert_eq!(out.len(), p[k] + 20);
        assert_eq!(process_packet(&out, [1, 2, 3, 4], true, false), Some(&f[..]));
        assert_eq!(process_packet(&out, SRC, false, false), Some(&f[..]));
    }
}

#[test]
fn chaff_is_silent_over_many_ticks() {
    let p = [500, 1000, 1400];
    let mut rrs = RoundRobinScheduler::new(&p, SRC, DST);
    let mut pacer = budget_ditto::pacer::Pacer::new(3, 100_000, 0);
    let expected = [520, 1020, 1420];
    for k in 0..10_000 {
        let slot = pacer.next_slot();
        assert_eq!(slot, k % 3);
        let out = rrs.pop(slot);
        assert_eq!(out.len(), expected[k % 3]);
        assert_eq!(process_packet(&out, [1, 2, 3, 4], true, true), None);
        assert_eq!(process_packet(&out, SRC, false, false), None);
    }
}

#[test]
fn wrong_direction_is_dropped() {
    let b = wire(100, 120, SRC);
    assert_eq!(process_packet(&b, SRC, true, false), None);
    assert_eq!(process_packet(&b, [9, 9, 9, 9], false, false), None);
    assert_eq!(process_packet(&b, SRC, false, false), Some(&b[20..100]));
    assert_eq!(process_packet(&b, [9, 9, 9, 9], true, false), Some(&b[20..100]));
}

#[test]
fn short_frames_are_dropped() {
    let b = wire(23, 23, SRC);
    assert_eq!(process_packet(&b, SRC, false, false), None);
    assert_eq!(process_packet(&[], SRC, false, false), None);
}

#[test]
fn crafted_zero_sentinel_reads_as_chaff() {
    let mut b = wire(100, 120, SRC);
    b[22] = 0;
    b[23] = 0;
    assert_eq!(process_packet(&b, SRC, false, false), None);
    b[23] = 1;
    assert_eq!(process_packet(&b, SRC, false, false), Some(&b[20..100]));
}

#[test]
fn bad_total_length_forwards_raw_buffer() {
    let too_long = wire(121, 120, SRC);
    assert_eq!(process_packet(&too_long, SRC, false, false), Some(&too_long[..]));
    let too_short = wire(20, 120, SRC);
    assert_eq!(process_packet(&too_short, SRC, false, false), Some(&too_short[..]));
    let exact = wire(120, 120, SRC);
    assert_eq!(process_packet(&exact, SRC, false, false), Some(&exact[20..]));
}

fn eth_header(ethertype: u16) -> Vec<u8> {
    let mut h = vec![0xaa; 12];
    h.push((ethertype >> 8) as u8);
    h.push(ethertype as u8);
    h
}

#[test]
fn tofino_peel_32b_pad_then_last_pad() {
    let mut b = eth_header(2049);
    b.extend(vec![0x11; 32 - 14]);
    b.extend(eth_header(2304));
    let payload: Vec<u8> = vec![0x45, 0, 0, 28, 1, 2, 3, 4, 5, 6];
    b.extend(payload.iter());
    assert_eq!(deobfuscate_tofino(&b), &payload[..]);
}

#[test]
fn tofino_peel_each_pad_length() {
    let cases: [(u16, usize); 6] =
        [(2184, 18), (2049, 32), (2050, 16), (2051, 8), (2052, 4), (2053, 2)];
    for (t, k) in cases {
        let mut b = eth_header(t);
        b.extend(vec![0x33; 64]);
        // after `k` bytes, read an Ethernet header whose type ends the descent
        let mut expected = b[k..].to_vec();
        expected[12] = 0x08;
        expected[13] = 0x00;
        b[k + 12] = 0x08;
        b[k + 13] = 0x00;
        assert_eq!(deobfuscate_tofino(&b), &expected[14..], "ethertype {}", t);
    }
}

#[test]
fn tofino_one_byte_pads() {
    let mut b = vec![0xaa; 12];
    b.extend([0x09, 0x09, 0x00, 0x45, 1, 2]);
    assert_eq!(deobfuscate_tofino(&b), &[0x45, 1, 2]);
    let mut c = vec![0xaa; 12];
    c.extend([0x00, 0x09, 0x00, 0x45, 3]);
    assert_eq!(deobfuscate_tofino(&c), &[0x45, 3]);
}

#[test]
fn tofino_last_pad_without_ipv4_strips_32() {
    let mut b = eth_header(2304);
    b.push(0x60);
    b.extend(vec![0x22; 17]);
    b.extend(eth_header(0x0800));
    b.extend([1, 2, 3]);
    assert_eq!(deobfuscate_tofino(&b), &[1, 2, 3]);
}

#[test]
fn tofino_unknown_type_and_short_buffers() {
    let mut b = eth_header(0x86dd);
    b.extend([7, 8, 9]);
    assert_eq!(deobfuscate_tofino(&b), &[7, 8, 9]);
    assert_eq!(deobfuscate_tofino(&[1, 2, 3]), &[] as &[u8]);
    let pad = eth_header(2049);
    assert_eq!(deobfuscate_tofino(&pad), &[] as &[u8]);
}

#[test]
fn hardware_peel_after_unwrap() {
    let mut inner = eth_header(2049);
    inner.extend(vec![0x11; 18]);
    inner.extend(eth_header(2304));
    inner.extend([0x45, 9, 9, 9]);
    let total = inner.len() + 20;
    let mut b = wire(total, total + 30, SRC);
    b[20..total].copy_from_slice(&inner);
    for x in b[total..].iter_mut() {
        *x = 0;
    }
    assert_eq!(process_packet(&b, SRC, false, true), Some(&[0x45u8, 9, 9, 9][..]));
    assert_eq!(process_packet(&b, SRC, false, false), Some(&inner[..]));
}

#[test]
fn source_filter() {
    let mine = [2, 0, 0, 0, 0, 1];
    let dev = [2, 0, 0, 0, 0, 2];
    let mut f = vec![0xff; 6];
    f.extend(mine);
    f.extend([8, 0]);
    assert!(accept_source(&f, mine, dev));
    f[6..12].copy_from_slice(&dev);
    assert!(accept_source(&f, mine, dev));
    f[11] = 3;
    assert!(!accept_source(&f, mine, dev));
    assert!(!accept_source(&f[..11], mine, dev));
}

#[test]
fn backbone_rewrite_sets_mac_and_next_hop() {
    let b = wire(80, 80, SRC);
    let mac = [2, 1, 2, 3, 4, 5];
    let hop = [10, 0, 0, 254];
    let r = budget_ditto::deobfuscate::backbone_rewrite(&b, mac, hop);
    assert_eq!(r.len(), 80);
    assert_eq!(&r[26..32], &mac);
    assert_eq!(&r[50..54], &hop);
    assert_eq!(&r[..26], &b[..26]);
    assert_eq!(&r[32..50], &b[32..50]);
    assert_eq!(&r[54..], &b[54..]);
    let short = wire(53, 53, SRC);
    assert_eq!(budget_ditto::deobfuscate::backbone_rewrite(&short, mac, hop), short);
}
