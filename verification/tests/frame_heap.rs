use lib::frame::{check_dtb, DtbError, FrameAllocator, FrameInitError, DTB_MAGIC, PAGE_SIZE, RAM_END};
use lib::heap::{align_up, Allocation, DeallocError, Heap, HeapInitError, HEADER};

const HEAP_START: usize = 0x8040_0000;
const HEAP_END: usize = 0x8050_0000;

fn frames() -> FrameAllocator {
    FrameAllocator::init(HEAP_START, HEAP_END).ok().unwrap()
}

fn heap() -> Heap {
    Heap::init(HEAP_START, HEAP_END).ok().unwrap()
}

#[test]
fn frame_alloc_free_lifo() {
    let mut f = frames();
    let total = f.total_frames();
    assert_eq!(total, (RAM_END - HEAP_END) / PAGE_SIZE);
    assert_eq!(f.free_count(), total);
    let a = f.alloc_frame();
    let b = f.alloc_frame();
    assert_ne!(a, b);
    assert_eq!(a % PAGE_SIZE, 0);
    assert_eq!(b % PAGE_SIZE, 0);
    assert_eq!(a, HEAP_END);
    assert_eq!(b, HEAP_END + PAGE_SIZE);
    f.free_frame(a);
    let c = f.alloc_frame();
    assert_eq!(c, a);
    assert_eq!(f.free_count(), total - 2);
}

#[test]
fn frame_recycled_before_virgin() {
    let mut f = frames();
    let a = f.alloc_frame();
    let b = f.alloc_frame();
    f.free_frame(a);
    f.free_frame(b);
    assert_eq!(f.alloc_frame(), b);
    assert_eq!(f.alloc_frame(), a);
    assert_eq!(f.alloc_frame(), HEAP_END + 2 * PAGE_SIZE);
}

#[test]
fn frame_has_free_counts() {
    let mut f = frames();
    let total = f.total_frames();
    assert!(f.has_free(total));
    assert!(!f.has_free(total + 1));
    let a = f.alloc_frame();
    assert!(!f.has_free(total));
    f.free_frame(a);
    assert!(f.has_free(total));
}

#[test]
fn frame_init_rejects_bad_symbols() {
    assert!(matches!(FrameAllocator::init(HEAP_START + 1, HEAP_END), Err(FrameInitError::Symbols)));
    assert!(matches!(FrameAllocator::init(HEAP_END, HEAP_START), Err(FrameInitError::Symbols)));
    assert!(matches!(FrameAllocator::init(HEAP_START, RAM_END + PAGE_SIZE), Err(FrameInitError::Symbols)));
    assert!(FrameAllocator::init(HEAP_START, RAM_END).is_ok());
}

#[test]
fn frame_freeze_sets_flag() {
    let mut f = frames();
    f.freeze();
    assert!(f.frozen);
}

#[test]
fn dtb_header_checks() {
    let dtb = 0x87e0_0000usize;
    assert!(check_dtb(dtb, DTB_MAGIC, 0x1000, HEAP_END).is_ok());
    assert!(matches!(check_dtb(usize::MAX - 4, DTB_MAGIC, 0x1000, HEAP_END), Err(DtbError::Wrap)));
    assert!(matches!(check_dtb(dtb, 0xdeadbeef, 0x1000, HEAP_END), Err(DtbError::Header)));
    assert!(matches!(check_dtb(0x7000_0000, DTB_MAGIC, 0x1000, HEAP_END), Err(DtbError::Header)));
    assert!(matches!(check_dtb(RAM_END - 0x800, DTB_MAGIC, 0x1000, HEAP_END), Err(DtbError::Header)));
    assert!(matches!(check_dtb(HEAP_START, DTB_MAGIC, 0x1000, HEAP_END), Err(DtbError::BelowHeapEnd)));
}

#[test]
fn align_up_values() {
    assert_eq!(align_up(0, 8), Some(0));
    assert_eq!(align_up(1, 8), Some(8));
    assert_eq!(align_up(8, 8), Some(8));
    assert_eq!(align_up(0x1001, 0x1000), Some(0x2000));
    assert_eq!(align_up(usize::MAX, 16), None);
}

#[test]
fn heap_init_one_block() {
    let h = heap();
    assert_eq!(h.free_stats(), (1, HEAP_END - HEAP_START));
    assert_eq!(h.region_size(), HEAP_END - HEAP_START);
    assert!(matches!(Heap::init(HEAP_START + 1, HEAP_END), Err(HeapInitError::Symbols)));
    assert!(matches!(Heap::init(HEAP_START, HEAP_START + 8), Err(HeapInitError::Symbols)));
}

fn free(h: &mut Heap, a: &Allocation) {
    h.dealloc_raw(a.user, a.size, a.pad);
}

#[test]
fn heap_alloc_free_round_trip() {
    let mut h = heap();
    let a = h.try_alloc(100, 8).unwrap();
    assert_eq!(a.user % 8, 0);
    assert_eq!(a.hdr, a.user - HEADER);
    assert!(a.hdr - a.pad >= HEAP_START);
    assert!(a.user + 100 <= a.hdr - a.pad + a.size);
    free(&mut h, &a);
    assert_eq!(h.free_stats(), (1, HEAP_END - HEAP_START));
}

#[test]
fn heap_over_aligned_block() {
    let mut h = heap();
    let a = h.try_alloc(8, 64).unwrap();
    assert_eq!(a.user % 64, 0);
    let b = h.try_alloc(32, 4096).unwrap();
    assert_eq!(b.user % 4096, 0);
    free(&mut h, &a);
    free(&mut h, &b);
    assert_eq!(h.free_stats(), (1, HEAP_END - HEAP_START));
}

#[test]
fn heap_exhaustion_fails_cleanly() {
    let mut h = heap();
    assert!(h.try_alloc(2 * 1024 * 1024, 1).is_none());
    assert!(h.try_alloc(usize::MAX - 8, 8).is_none());
    assert_eq!(h.free_stats(), (1, HEAP_END - HEAP_START));
}

#[test]
fn heap_coalesces_out_of_order_frees() {
    let mut h = heap();
    let a = h.try_alloc(40, 8).unwrap();
    let b = h.try_alloc(40, 8).unwrap();
    let c = h.try_alloc(40, 8).unwrap();
    assert!(a.user < b.user && b.user < c.user);
    free(&mut h, &b);
    assert_eq!(h.free_stats().0, 2);
    free(&mut h, &a);
    assert_eq!(h.free_stats().0, 2);
    free(&mut h, &c);
    assert_eq!(h.free_stats(), (1, HEAP_END - HEAP_START));
}

#[test]
fn heap_first_fit_reuses_hole() {
    let mut h = heap();
    let a = h.try_alloc(64, 8).unwrap();
    let _b = h.try_alloc(64, 8).unwrap();
    free(&mut h, &a);
    let c = h.try_alloc(32, 8).unwrap();
    assert_eq!(c.user, a.user);
}

#[test]
fn heap_in_heap_bounds() {
    let h = heap();
    assert!(h.in_heap(HEAP_START, 16));
    assert!(h.in_heap(HEAP_END - 16, 16));
    assert!(!h.in_heap(HEAP_END - 8, 16));
    assert!(!h.in_heap(HEAP_START - 16, 16));
    assert!(!h.in_heap(usize::MAX, 16));
}

struct Lcg(u32);

impl Lcg {
    fn next(&mut self) -> u32 {
        self.0 = self.0.wrapping_mul(1664525).wrapping_add(1013904223);
        self.0
    }
}

/// Interleaved frame and heap traffic driven by the LCG; every frame and
/// block is given back at the end, and both allocators must be restored.
fn storm(rng: &mut Lcg, f: &mut FrameAllocator, h: &mut Heap) {
    const SLOTS: usize = 16;
    let frames_start = f.free_count();
    assert_eq!(h.free_stats(), (1, h.region_size()));
    let mut held_frames = [0usize; SLOTS];
    let mut held_blocks: [Option<Allocation>; SLOTS] = [None; SLOTS];
    for _ in 0..4096 {
        let r = rng.next();
        let slot = (r as usize) % SLOTS;
        if r & 1 == 0 {
            if held_frames[slot] == 0 {
                held_frames[slot] = f.alloc_frame();
            } else {
                f.free_frame(held_frames[slot]);
                held_frames[slot] = 0;
            }
        } else {
            match held_blocks[slot] {
                None => {
                    let size = 8usize << ((r >> 8) & 7);
                    let align = 1usize << ((r >> 16) & 3);
                    let a = h.try_alloc(size, align).unwrap();
                    assert_eq!(a.user % align, 0);
                    held_blocks[slot] = Some(a);
                },
                Some(a) => {
                    free(h, &a);
                    held_blocks[slot] = None;
                },
            }
        }
    }
    for slot in 0..SLOTS {
        if held_frames[slot] != 0 {
            f.free_frame(held_frames[slot]);
        }
        if let Some(a) = held_blocks[slot] {
            free(h, &a);
        }
    }
    assert_eq!(f.free_count(), frames_start);
    assert_eq!(h.free_stats(), (1, h.region_size()));
}

#[test]
fn allocator_storm_restores_both() {
    let mut rng = Lcg(0xC0FFEE);
    let mut f = frames();
    let mut h = heap();
    storm(&mut rng, &mut f, &mut h);
    storm(&mut rng, &mut f, &mut h);
}

#[test]
fn heap_checked_dealloc_accepts_live_block() {
    let mut h = heap();
    let a = h.try_alloc(200, 16).unwrap();
    let (_, before) = h.free_stats();
    assert_eq!(before, HEAP_END - HEAP_START - a.size);
    assert_eq!(h.dealloc(a.user, a.size, a.pad), Ok(()));
    assert_eq!(h.free_stats(), (1, HEAP_END - HEAP_START));
}

#[test]
fn heap_checked_dealloc_errors() {
    let mut h = heap();
    let a = h.try_alloc(64, 8).unwrap();
    let _b = h.try_alloc(64, 8).unwrap();
    assert_eq!(h.dealloc(0, a.size, a.pad), Err(DeallocError::Null));
    assert_eq!(h.dealloc(8, 16, 0), Err(DeallocError::Underflow));
    assert_eq!(h.dealloc(a.user + 4, a.size, a.pad), Err(DeallocError::Misaligned));
    assert_eq!(h.dealloc(HEAP_END + HEADER, 64, 0), Err(DeallocError::OutOfRange));
    assert_eq!(h.dealloc(a.user, a.size, a.pad), Ok(()));
    let stats = h.free_stats();
    assert_eq!(h.dealloc(a.user, a.size, a.pad), Err(DeallocError::Overlap));
    assert_eq!(h.free_stats(), stats);
}

#[test]
fn heap_alloc_takes_exactly_the_block_size() {
    let mut h = heap();
    let a = h.try_alloc(100, 8).unwrap();
    let b = h.try_alloc(1000, 256).unwrap();
    let (_, free) = h.free_stats();
    assert_eq!(free, HEAP_END - HEAP_START - a.size - b.size);
}
