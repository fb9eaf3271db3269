use lib::net::{mac_is_zero, negotiate, status_failed, status_has, FeatureError, StallWatch, FEATURES_OK, F_MAC, F_VERSION_1, STALL_TICKS};
use lib::phase::{name, PhaseLine, Phases, E3G, FREEZE, N, PAGE_BUILD, PAGE_VERIFY, SRET, START};
use lib::sbi::{
    console_write_byte, probe_extension, require_dbcn, require_time, set_timer, shutdown_srst, succeeded, SbiCall,
    Sbiret, TimeError, EID_BASE, EID_DBCN, EID_SRST, EID_TIME, FID_BASE_PROBE, FID_DBCN_WRITE_BYTE,
    SBI_ERR_NOT_SUPPORTED,
};
use lib::timer::{Timer, PERIOD, PERIOD_1MS};
use lib::virtio::{check_transport, device_name, find_net, transport_base, DeviceKind, TransportError, MAGIC, MMIO_BASE};
use lib::virtq::{
    check_descs, check_half, fill_descriptors, in_pool, post, queue_num_ok, require_align, ring_slot, split_addr,
    take_used, Desc, DescError, HalfCheck, BUF, DESC_WRITE, QSIZE, TX_BUFS,
};

#[test]
fn sbi_calls_are_encoded() {
    assert_eq!(
        probe_extension(EID_DBCN),
        SbiCall { eid: EID_BASE, fid: FID_BASE_PROBE, arg0: EID_DBCN, arg1: 0, arg2: 0 }
    );
    assert_eq!(console_write_byte(b'A'), SbiCall { eid: EID_DBCN, fid: FID_DBCN_WRITE_BYTE, arg0: 65, arg1: 0, arg2: 0 });
    assert_eq!(set_timer(123), SbiCall { eid: EID_TIME, fid: 0, arg0: 123, arg1: 0, arg2: 0 });
    assert!(succeeded(Sbiret { error: 0, value: 7 }));
    assert!(!succeeded(Sbiret { error: -1, value: 0 }));
}

#[test]
fn sbi_probe_verdicts() {
    assert_eq!(require_dbcn(Sbiret { error: 0, value: 1 }), Ok(()));
    assert_eq!(require_dbcn(Sbiret { error: 0, value: 0 }), Err(SBI_ERR_NOT_SUPPORTED));
    assert_eq!(require_dbcn(Sbiret { error: -3, value: 1 }), Err(-3));
    assert_eq!(require_time(Sbiret { error: 0, value: 1 }), Ok(()));
    assert_eq!(require_time(Sbiret { error: 0, value: 0 }), Err(TimeError::Absent));
    assert_eq!(require_time(Sbiret { error: -1, value: 0 }), Err(TimeError::ProbeError(-1)));
}

#[test]
fn sbi_shutdown_needs_srst() {
    let call = shutdown_srst(Sbiret { error: 0, value: 1 }).unwrap();
    assert_eq!(call.eid, EID_SRST);
    assert_eq!(call.arg0, 0);
    assert_eq!(shutdown_srst(Sbiret { error: 0, value: 0 }), Err(Sbiret { error: SBI_ERR_NOT_SUPPORTED, value: 0 }));
    assert_eq!(shutdown_srst(Sbiret { error: -2, value: 5 }), Err(Sbiret { error: -2, value: 5 }));
}

#[test]
fn timer_ticks_and_reports() {
    let mut t = Timer::new();
    assert_eq!(t.arm(1000), 1000 + PERIOD);
    assert_eq!(t.arm(usize::MAX), PERIOD - 1);
    let mut reports = Vec::new();
    for _ in 0..12 {
        reports.push(t.on_interrupt());
    }
    assert_eq!(t.ticks(), 12);
    assert_eq!(
        reports,
        vec![true, true, true, false, false, false, false, false, false, true, false, false]
    );
    t.set_period(PERIOD_1MS);
    assert_eq!(t.arm(0), PERIOD_1MS);
    assert_eq!(t.ticks(), 12);
}

#[test]
fn phases_stamp_once_and_sort() {
    let mut p = Phases::new();
    p.stamp(PAGE_VERIFY, 30);
    p.stamp(START, 10);
    p.stamp(PAGE_BUILD, 20);
    p.stamp(PAGE_BUILD, 99);
    assert_eq!(p.get(PAGE_BUILD), 20);
    assert_eq!(p.get(E3G), 0);
    assert_eq!(p.order_by_time(), vec![START, PAGE_BUILD, PAGE_VERIFY]);
    assert!(!p.print_after_response());
    p.stamp(E3G, 40);
    assert!(p.print_after_response());
    assert!(!p.print_after_response());
    assert_eq!(p.order_by_time().len(), 4);
    assert!(N > E3G);
}

#[test]
fn phases_equal_stamps_keep_index_order() {
    let mut p = Phases::new();
    p.stamp(5, 7);
    p.stamp(2, 7);
    p.stamp(9, 3);
    assert_eq!(p.order_by_time(), vec![9, 2, 5]);
}

#[test]
fn virtio_transport_scan() {
    assert_eq!(transport_base(0), MMIO_BASE);
    assert_eq!(transport_base(7), 0x1000_8000);
    assert_eq!(check_transport(MAGIC, 2), Ok(()));
    assert_eq!(check_transport(0, 2), Err(TransportError::Magic));
    assert_eq!(check_transport(MAGIC, 1), Err(TransportError::Version));
    assert_eq!(device_name(0), DeviceKind::Empty);
    assert_eq!(device_name(1), DeviceKind::Net);
    assert_eq!(device_name(2), DeviceKind::Other);
    assert_eq!(find_net(&[0, 0, 1, 0, 2, 0, 0, 0]), Some(2));
    assert_eq!(find_net(&[0, 1, 0, 1]), Some(3));
    assert_eq!(find_net(&[0, 2, 0]), None);
}

#[test]
fn net_feature_negotiation() {
    assert_eq!(negotiate(F_MAC | 0x8000, F_VERSION_1 | 4), Ok((F_MAC, F_VERSION_1)));
    assert_eq!(negotiate(0, F_VERSION_1), Err(FeatureError::NoMac));
    assert_eq!(negotiate(F_MAC, 0), Err(FeatureError::NoVersion1));
    assert!(status_failed(0x80));
    assert!(!status_failed(0x0f));
    assert!(status_has(0x0b, FEATURES_OK));
    assert!(!status_has(0x03, FEATURES_OK));
    assert!(mac_is_zero(&[0; 6]));
    assert!(!mac_is_zero(&[0, 0, 0, 0, 0, 1]));
}

#[test]
fn net_stall_reported_once() {
    let mut w = StallWatch::new();
    assert!(!w.poll_stall(0, 0, 5));
    assert!(!w.poll_stall(16, 0, 100));
    assert!(!w.poll_stall(16, 0, 100 + STALL_TICKS - 1));
    assert!(w.poll_stall(16, 0, 100 + STALL_TICKS));
    assert!(!w.poll_stall(16, 0, 100 + 2 * STALL_TICKS));
    assert!(!w.poll_stall(16, 1, 100 + 3 * STALL_TICKS));
}

#[test]
fn virtq_descriptors_and_rings() {
    let (rx, tx) = fill_descriptors(0x8010_0000, 0x8011_0000);
    assert_eq!(rx.len(), QSIZE);
    assert_eq!(tx.len(), QSIZE);
    assert_eq!(rx[3], Desc { addr: 0x8010_0000 + 3 * BUF as u64, len: BUF as u32, flags: DESC_WRITE, next: 0 });
    assert_eq!(tx[1].addr, 0x8011_0000 + BUF as u64);
    assert_eq!(tx[1].flags, 0);
    assert_eq!(tx[TX_BUFS].addr, 0);
    assert!(check_descs(&rx, QSIZE, 0x8010_0000, 0x8012_0000).is_ok());
    assert!(check_descs(&tx, TX_BUFS, 0x8010_0000, 0x8012_0000).is_ok());
    assert_eq!(check_descs(&tx, TX_BUFS + 1, 0x8010_0000, 0x8012_0000), Err(DescError::OutsidePool { i: TX_BUFS }));
    assert_eq!(check_descs(&rx, 4, 0x8010_0000, 0x8012_0000), Err(DescError::UnusedNonzero { i: 4 }));
    assert_eq!(check_descs(&rx, QSIZE, 0x8010_1000, 0x8012_0000), Err(DescError::OutsidePool { i: 0 }));
}

#[test]
fn virtq_ring_arithmetic() {
    assert_eq!(ring_slot(17), 1);
    assert_eq!(post(15), (15, 16));
    assert_eq!(post(0xffff), (15, 0));
    assert_eq!(take_used(5, 5), None);
    assert_eq!(take_used(6, 5), Some((5, 6)));
    assert_eq!(take_used(0, 0xffff), Some((15, 0)));
    assert!(in_pool(0x1000, 0x100, 0x1000, 0x1100));
    assert!(!in_pool(0x1000, 0x101, 0x1000, 0x1100));
    assert!(!in_pool(u64::MAX, 1, 0, u64::MAX));
    assert_eq!(split_addr(0x1_2345_6789), (0x2345_6789, 1));
    assert_eq!(check_half(5, 5), HalfCheck::Match);
    assert_eq!(check_half(5, 0), HalfCheck::WriteOnly);
    assert_eq!(check_half(5, 6), HalfCheck::Mismatch);
    assert!(require_align(0x1010, 16));
    assert!(!require_align(0x1012, 4));
    assert!(queue_num_ok(256, 16));
    assert!(!queue_num_ok(8, 16));
}

#[test]
fn phase_report_offsets() {
    let mut p = Phases::new();
    p.stamp(START, 1000);
    p.stamp(SRET, 1500);
    p.stamp(PAGE_BUILD, 1200);
    p.stamp(FREEZE, 1400);
    let r = p.report();
    assert_eq!(
        r,
        vec![
            PhaseLine { phase: START, ticks: 1000, since_start: 0, delta: 0 },
            PhaseLine { phase: PAGE_BUILD, ticks: 1200, since_start: 200, delta: 200 },
            PhaseLine { phase: FREEZE, ticks: 1400, since_start: 400, delta: 200 },
            PhaseLine { phase: SRET, ticks: 1500, since_start: 500, delta: 100 },
        ]
    );
    assert_eq!(name(START), "_start");
    assert_eq!(name(E3G), "E3g");
    assert_eq!(name(lib::phase::DRIVER_OK), "DRIVER_OK");
}

#[test]
fn phase_report_wraps_counter() {
    let mut p = Phases::new();
    p.stamp(START, usize::MAX - 5);
    p.stamp(PAGE_BUILD, 4);
    let r = p.report();
    // Stamps sort by raw value; the wrapped one comes first.
    assert_eq!(r[0].phase, PAGE_BUILD);
    assert_eq!(r[0].since_start, 10);
    assert_eq!(r[1].phase, START);
    assert_eq!(r[1].delta, usize::MAX - 9);
}

#[test]
fn phases_unset_lists_missing_in_order() {
    let mut p = Phases::new();
    let all: Vec<usize> = (0..N).collect();
    assert_eq!(p.unset(), all);
    p.stamp(START, 10);
    p.stamp(FREEZE, 20);
    p.stamp(E3G, 30);
    let u = p.unset();
    assert_eq!(u.len(), N - 3);
    assert!(!u.contains(&START) && !u.contains(&FREEZE) && !u.contains(&E3G));
    for k in 1..u.len() {
        assert!(u[k - 1] < u[k]);
    }
}

#[test]
fn phases_report_ties_keep_index_order() {
    let mut p = Phases::new();
    p.stamp(START, 4);
    p.stamp(PAGE_VERIFY, 9);
    p.stamp(PAGE_BUILD, 9);
    p.stamp(SRET, 6);
    let lines = p.report();
    let order: Vec<usize> = lines.iter().map(|l| l.phase).collect();
    assert_eq!(order, vec![START, SRET, PAGE_BUILD, PAGE_VERIFY]);
    assert_eq!(lines[2].delta, 3);
    assert_eq!(lines[3].delta, 0);
    assert_eq!(lines[3].since_start, 5);
}
