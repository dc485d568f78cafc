use budget_ditto::pacer::Pacer;

#[test]
fn slots_rotate() {
    let mut p = Pacer::new(4, 10, 0);
    let got: Vec<usize> = (0..10).map(|_| p.next_slot()).collect();
    assert_eq!(got, vec![0, 1, 2, 3, 0, 1, 2, 3, 0, 1]);
}

#[test]
fn sleep_targets_fixed_deadlines() {
    let mut p = Pacer::new(3, 1_000, 5_000);
    assert_eq!(p.sleep_after(5_200), 800);
    assert_eq!(p.tick_start_ns, 6_000);
    // a late tick sleeps not at all, and the next deadline does not move
    assert_eq!(p.sleep_after(7_500), 0);
    assert_eq!(p.tick_start_ns, 7_000);
    assert_eq!(p.sleep_after(7_900), 100);
    assert_eq!(p.tick_start_ns, 8_000);
}

#[test]
fn ten_per_second_for_a_thousand_ticks() {
    let interval = 100_000_000u64;
    let mut p = Pacer::new(3, interval, 0);
    let mut now = 0u64;
    for _ in 0..1000 {
        p.next_slot();
        now += 1_000;
        let s = p.sleep_after(now);
        now += s;
    }
    assert_eq!(now, 100_000_000_000);
    assert_eq!(p.tick_start_ns, 1000 * interval);
}

#[test]
fn deadline_saturates() {
    let mut p = Pacer::new(1, 10, u64::MAX - 5);
    assert_eq!(p.sleep_after(0), u64::MAX);
    assert_eq!(p.tick_start_ns, u64::MAX);
}
