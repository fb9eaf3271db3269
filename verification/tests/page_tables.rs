use lib::frame::{FrameAllocator, PAGE_SIZE, RAM_END, RAM_START};
use lib::page::{
    build, init, InitError, encode_leaf, flags_match, fmt_flags, probe_cases, pte_bit, pte_ppn, satp_value, sv39_canonical, vpn,
    ActivateCheck, BuildError, Expect, KernelSymbols, MapError, PageTables, Probe, ProbeError, Walk, ABOVE_RAM,
    LEAF_R, LEAF_RW, LEAF_RX, NONLEAF, UART_MMIO,
};

fn symbols() -> KernelSymbols {
    KernelSymbols {
        kernel_start: 0x8020_0000,
        rodata_start: 0x8022_0000,
        data_start: 0x8023_0000,
        bss_end: 0x8024_0000,
        boot_stack_bottom: 0x8024_1000,
        boot_stack_top: 0x8025_1000,
        heap_start: 0x8025_1000,
        heap_end: 0x8035_1000,
    }
}

fn frames_for(s: &KernelSymbols) -> FrameAllocator {
    FrameAllocator::init(s.heap_start as usize, s.heap_end as usize).ok().unwrap()
}

fn built() -> (PageTables, FrameAllocator, KernelSymbols) {
    let s = symbols();
    let mut f = frames_for(&s);
    let pt = build(&mut f, s).ok().unwrap();
    (pt, f, s)
}

#[test]
fn pte_field_helpers() {
    assert_eq!(vpn(0x8020_1234, 2), 2);
    assert_eq!(vpn(0x8020_1234, 1), 1);
    assert_eq!(vpn(0x8020_1234, 0), 1);
    assert_eq!(encode_leaf(0x8020_0000, LEAF_RX), (0x80200 << 10) | 0xcb);
    assert_eq!(pte_ppn(encode_leaf(0x8020_0000, LEAF_RX)), 0x80200);
    assert!(pte_bit(LEAF_RW, 2));
    assert!(!pte_bit(LEAF_RX, 2));
    assert!(sv39_canonical(0x8020_0000));
    assert!(sv39_canonical(0xffff_ffc0_0000_0000));
    assert!(!sv39_canonical(0x0000_0040_0000_0000));
    assert!(flags_match(encode_leaf(0x1000, LEAF_RX), true, false, true));
    assert!(!flags_match(encode_leaf(0x1000, LEAF_R), true, true, false));
}

#[test]
fn satp_encoding() {
    let v = satp_value(0x8040_0000);
    assert_eq!(v, (8u64 << 60) | 0x80400);
    assert_eq!(v >> 60, 8);
}

#[test]
fn flag_labels() {
    assert_eq!(fmt_flags(encode_leaf(0x1000, LEAF_RX)), "V R   X U=0 A D");
    assert_eq!(fmt_flags(encode_leaf(0x1000, LEAF_R)), "V R     U=0 A D");
    assert_eq!(fmt_flags(encode_leaf(0x1000, LEAF_RW)), "V R W   U=0 A D");
    assert_eq!(fmt_flags(NONLEAF), "UNEXPECTED");
}

#[test]
fn kernel_map_builds() {
    let (pt, f, s) = built();
    // Root, one level-1 table, and one level-0 table per 2 MiB up to RAM_END.
    let l0 = ((RAM_END - s.kernel_start as usize) + (1 << 21) - 1) >> 21;
    assert_eq!(pt.tables_used(), 2 + l0);
    assert_eq!(pt.root_pa(), s.heap_end);
    assert_eq!(f.free_count(), f.total_frames() - pt.tables_used());
}

#[test]
fn kernel_map_walks() {
    let (pt, _f, s) = built();
    match pt.walk(s.kernel_start + 0x123) {
        Walk::Mapped { pa, raw, level } => {
            assert_eq!(pa, s.kernel_start + 0x123);
            assert_eq!(level, 0);
            assert_eq!(raw & 0x3ff, LEAF_RX);
        },
        w => panic!("text unmapped: {:?}", w),
    }
    match pt.walk(s.data_start) {
        Walk::Mapped { raw, .. } => assert_eq!(raw & 0x3ff, LEAF_RW),
        w => panic!("data unmapped: {:?}", w),
    }
    match pt.walk(s.rodata_start + 8) {
        Walk::Mapped { raw, .. } => assert_eq!(raw & 0x3ff, LEAF_R),
        w => panic!("rodata unmapped: {:?}", w),
    }
    assert!(matches!(pt.walk(s.bss_end), Walk::Unmapped { level: 0, raw: 0 }));
    assert!(matches!(pt.walk(RAM_START as u64), Walk::Unmapped { level: 1, raw: 0 }));
    assert!(matches!(pt.walk(UART_MMIO), Walk::Unmapped { level: 2, raw: 0 }));
    assert!(matches!(pt.walk(ABOVE_RAM), Walk::Unmapped { level: 1, raw: 0 }));
    assert!(matches!(pt.walk((RAM_END - 1) as u64), Walk::Mapped { .. }));
}

#[test]
fn kernel_map_passes_probes() {
    let (pt, _f, s) = built();
    assert!(pt.verify(&s).is_ok());
    let cases = probe_cases(&s, pt.root_pa());
    assert_eq!(cases.len(), 13);
    for c in cases.iter() {
        assert!(pt.probe(c.va, c.expect).is_ok(), "{:?}", c.probe);
    }
}

#[test]
fn probe_reports_failures() {
    let (pt, _f, s) = built();
    let want_rw = Expect::Mapped { r: true, w: true, x: false };
    assert!(matches!(pt.probe(s.kernel_start, want_rw), Err(ProbeError::FlagsMismatch { .. })));
    assert!(matches!(pt.probe(s.bss_end, want_rw), Err(ProbeError::UnmappedWantMapped { level: 0, raw: 0 })));
    assert!(matches!(pt.probe(s.data_start, Expect::Unmapped), Err(ProbeError::MappedWantUnmapped { .. })));
    assert!(pt.probe(UART_MMIO, Expect::Unmapped).is_ok());
}

#[test]
fn verify_names_first_failing_probe() {
    let s = symbols();
    let mut f = frames_for(&s);
    let mut pt = PageTables::new(&mut f).ok().unwrap();
    pt.map(&mut f, s.kernel_start, s.kernel_start, LEAF_RX).unwrap();
    let fail = pt.verify(&s).err().unwrap();
    assert!(fail.probe == Probe::Text);
    assert!(matches!(fail.error, ProbeError::UnmappedWantMapped { .. }));
}

#[test]
fn activation_checks() {
    let (pt, _f, s) = built();
    let satp = pt.activate(s.kernel_start + 0x40, s.kernel_start + 0x100, s.boot_stack_top - 0x10).unwrap();
    assert_eq!(satp, satp_value(pt.root_pa()));
    let e = pt.activate(s.kernel_start, s.kernel_start, s.bss_end).err().unwrap();
    assert!(e.what == ActivateCheck::Sp);
    let e = pt.activate(s.data_start, s.kernel_start, s.boot_stack_bottom).err().unwrap();
    assert!(e.what == ActivateCheck::Pc);
    let e = pt.activate(s.kernel_start, UART_MMIO, s.boot_stack_bottom).err().unwrap();
    assert!(e.what == ActivateCheck::Stvec);
    assert!(pt.require_leaf(s.heap_end, true, true, false).is_ok());
    assert!(pt.require_leaf(s.heap_end, true, false, false).is_err());
}

#[test]
fn build_rejects_bad_symbols() {
    let cases: [(fn(&mut KernelSymbols), BuildError); 5] = [
        (|s| s.kernel_start = 0x8000_0000, BuildError::KernelStart),
        (|s| s.boot_stack_bottom = s.bss_end, BuildError::GuardHole),
        (|s| s.heap_start += PAGE_SIZE as u64, BuildError::StackHeapGap),
        (|s| s.heap_end = RAM_END as u64, BuildError::SymbolOrder),
        (|s| s.data_start += 8, BuildError::Unaligned),
    ];
    for (tweak, want) in cases.iter() {
        let mut s = symbols();
        tweak(&mut s);
        let mut f = frames_for(&symbols());
        let before = f.free_count();
        assert!(build(&mut f, s).err() == Some(*want));
        assert_eq!(f.free_count(), before);
    }
}

#[test]
fn map_one_page_and_neighbours() {
    let mut f = FrameAllocator::init(0x8040_0000, 0x8050_0000).ok().unwrap();
    let mut pt = PageTables::new(&mut f).ok().unwrap();
    assert_eq!(pt.tables_used(), 1);
    assert!(matches!(pt.walk(0x8060_0000), Walk::Unmapped { level: 2, raw: 0 }));
    pt.map(&mut f, 0x8060_0000, 0x8070_0000, LEAF_RW).unwrap();
    assert_eq!(pt.tables_used(), 3);
    match pt.walk(0x8060_0abc) {
        Walk::Mapped { pa, raw, level } => {
            assert_eq!(pa, 0x8070_0abc);
            assert_eq!(raw, encode_leaf(0x8070_0000, LEAF_RW));
            assert_eq!(level, 0);
        },
        w => panic!("not mapped: {:?}", w),
    }
    assert!(matches!(pt.walk(0x8060_1000), Walk::Unmapped { level: 0, raw: 0 }));
    assert!(matches!(pt.walk(0x8080_0000), Walk::Unmapped { level: 1, raw: 0 }));
    // A second page in the same 2 MiB needs no new table.
    pt.map(&mut f, 0x8060_1000, 0x8060_1000, LEAF_R).unwrap();
    assert_eq!(pt.tables_used(), 3);
    assert!(matches!(pt.walk(0x8060_0000), Walk::Mapped { pa: 0x8070_0000, .. }));
}

#[test]
fn map_range_identity() {
    let mut f = FrameAllocator::init(0x8040_0000, 0x8050_0000).ok().unwrap();
    let mut pt = PageTables::new(&mut f).ok().unwrap();
    pt.map_range(&mut f, 0x803f_e000, 0x8040_2000, LEAF_RX).unwrap();
    for va in [0x803f_e000u64, 0x803f_ffff, 0x8040_0000, 0x8040_1fff] {
        assert!(matches!(pt.walk(va), Walk::Mapped { pa, level: 0, .. } if pa == va));
    }
    assert!(matches!(pt.walk(0x803f_d000), Walk::Unmapped { .. }));
    assert!(matches!(pt.walk(0x8040_2000), Walk::Unmapped { .. }));
    // The range straddles a 2 MiB boundary: root, one level-1, two level-0.
    assert_eq!(pt.tables_used(), 4);
}

#[test]
fn map_out_of_frames_changes_nothing() {
    assert!(FrameAllocator::init(RAM_END - 2 * PAGE_SIZE, RAM_END - 2 * PAGE_SIZE).is_err());
    let mut g = FrameAllocator::init(RAM_END - 4 * PAGE_SIZE, RAM_END - 2 * PAGE_SIZE).ok().unwrap();
    assert_eq!(g.free_count(), 2);
    let mut pt = PageTables::new(&mut g).ok().unwrap();
    assert_eq!(g.free_count(), 1);
    assert_eq!(pt.map(&mut g, 0x8000_0000, 0x8000_0000, LEAF_RW), Err(MapError::OutOfFrames));
    assert_eq!(pt.tables_used(), 1);
    assert_eq!(g.free_count(), 1);
    assert!(matches!(pt.walk(0x8000_0000), Walk::Unmapped { level: 2, raw: 0 }));
    let _ = g.alloc_frame();
    assert!(PageTables::new(&mut g).is_err());
}

#[test]
fn init_builds_and_probes() {
    let s = symbols();
    let mut f = frames_for(&s);
    let pt = init(&mut f, s).ok().unwrap();
    assert!(pt.verify(&s).is_ok());
    let mut bad = symbols();
    bad.kernel_start = 0x8040_0000;
    let mut g = frames_for(&s);
    assert!(init(&mut g, bad).err() == Some(InitError::Build(BuildError::KernelStart)));
}

#[test]
fn init_reports_unmapped_root() {
    // Frames handed out below the heap end put the root table outside the
    // writable free-frame range: the page-table probe fails.
    let s = symbols();
    let mut f = FrameAllocator::init(0x8010_0000, s.kernel_start as usize).ok().unwrap();
    match init(&mut f, s) {
        Err(InitError::Probe(p)) => {
            assert!(p.probe == Probe::PageTable);
            assert!(matches!(p.error, ProbeError::FlagsMismatch { .. }));
        },
        _ => panic!("root below the heap end passed its probe"),
    }
}
