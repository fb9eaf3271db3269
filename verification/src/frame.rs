//! Physical frame allocator: a bump pointer over virgin frames plus a LIFO
//! list of recycled frames.
//!
//! Manages every 4 KiB frame in `[heap_end, RAM_END)`. Virgin frames come
//! from the bump; freed frames go on the recycled list and are handed out
//! first, most recent first. After `freeze` nothing is allocated or freed.
//! The device-tree header check runs before the allocator is armed, since
//! the blob sits inside the managed range and may be overwritten later.

use vstd::prelude::*;

verus! {

/// RAM base of the QEMU `virt` machine.
pub const RAM_START: usize = 0x8000_0000;
/// End of the default 128 MiB of RAM.
pub const RAM_END: usize = 0x8800_0000;
/// Sv39 page size.
pub const PAGE_SIZE: usize = 4096;
/// Flattened device-tree magic (big-endian on disk).
pub const DTB_MAGIC: u32 = 0xd00d_feed;

/// Why the device-tree header was rejected.
#[derive(Clone, Copy, Debug, PartialEq, Eq, Structural)]
pub enum DtbError {
    /// `dtb_pa + totalsize` overflows.
    Wrap,
    /// Bad magic, or the blob is not inside RAM.
    Header,
    /// The blob sits below `heap_end`, outside the range the allocator may
    /// overwrite.
    BelowHeapEnd,
}

/// The verdict on a device-tree header with `magic` and `totalsize` read
/// from `dtb_pa`.
pub open spec fn dtb_verdict(dtb_pa: usize, magic: u32, totalsize: u32, heap_end: usize) -> Option<
    DtbError,
> {
    if dtb_pa + totalsize > usize::MAX {
        Some(DtbError::Wrap)
    } else if magic != DTB_MAGIC || dtb_pa < RAM_START || dtb_pa + totalsize > RAM_END {
        Some(DtbError::Header)
    } else if dtb_pa < heap_end {
        Some(DtbError::BelowHeapEnd)
    } else {
        None
    }
}

/// Validate the device-tree header before the allocator is armed: the
/// magic, that the blob lies in RAM, and that it lies in the range the
/// allocator may overwrite.
pub fn check_dtb(dtb_pa: usize, magic: u32, totalsize: u32, heap_end: usize) -> (r: Result<
    (),
    DtbError,
>)
    ensures
        match dtb_verdict(dtb_pa, magic, totalsize, heap_end) {
            Some(e) => r == Err::<(), DtbError>(e),
            None => r is Ok,
        },
{
    let end = match dtb_pa.checked_add(totalsize as usize) {
        Some(e) => e,
        None => {
            return Err(DtbError::Wrap);
        },
    };
    if magic != DTB_MAGIC || dtb_pa < RAM_START || end > RAM_END {
        return Err(DtbError::Header);
    }
    if dtb_pa < heap_end {
        return Err(DtbError::BelowHeapEnd);
    }
    Ok(())
}

/// Why the heap symbols cannot bound the managed range.
#[derive(Clone, Copy, Debug, PartialEq, Eq, Structural)]
pub enum FrameInitError {
    /// Unaligned, empty, or ending past RAM.
    Symbols,
}

pub struct FrameAllocator {
    /// Lowest managed frame.
    pub heap_end: usize,
    /// Next virgin frame.
    pub bump: usize,
    /// Frames in the managed range.
    pub total: usize,
    /// Recycled frames; the last one is the list head.
    pub recycled: Vec<usize>,
    pub frozen: bool,
}

pub open spec fn managed(heap_end: usize, bump: usize, pa: usize) -> bool {
    pa % PAGE_SIZE == 0 && heap_end <= pa < bump
}

impl FrameAllocator {
    pub open spec fn wf(&self) -> bool {
        &&& self.heap_end % PAGE_SIZE == 0
        &&& self.bump % PAGE_SIZE == 0
        &&& self.heap_end <= self.bump <= RAM_END
        &&& self.total == (RAM_END - self.heap_end) / (PAGE_SIZE as int)
        &&& forall|i: int|
            0 <= i < self.recycled@.len() ==> #[trigger] managed(
                self.heap_end,
                self.bump,
                self.recycled@[i],
            )
    }

    /// Available frames: the virgin remainder plus the recycled ones.
    pub open spec fn free_count_spec(&self) -> int {
        (RAM_END - self.bump) / (PAGE_SIZE as int) + self.recycled@.len()
    }

    /// The list head the cheap double-free check compares against.
    pub open spec fn head(&self) -> usize {
        if self.recycled@.len() == 0 {
            0
        } else {
            self.recycled@.last()
        }
    }

    /// Arm the bump over `[heap_end, RAM_END)`; `heap_start`/`heap_end`
    /// are the linker's heap bounds.
    pub fn init(heap_start: usize, heap_end: usize) -> (r: Result<FrameAllocator, FrameInitError>)
        ensures
            r is Ok <==> (heap_start % PAGE_SIZE == 0 && heap_end % PAGE_SIZE == 0 && heap_start
                < heap_end && heap_end <= RAM_END),
            r matches Ok(f) ==> {
                &&& f.wf()
                &&& f.heap_end == heap_end
                &&& f.bump == heap_end
                &&& f.recycled@.len() == 0
                &&& !f.frozen
            },
    {
        if heap_start % PAGE_SIZE != 0 || heap_end % PAGE_SIZE != 0 || heap_end <= heap_start
            || heap_end > RAM_END {
            return Err(FrameInitError::Symbols);
        }
        Ok(
            FrameAllocator {
                heap_end,
                bump: heap_end,
                total: (RAM_END - heap_end) / PAGE_SIZE,
                recycled: Vec::new(),
                frozen: false,
            },
        )
    }

    pub fn total_frames(&self) -> (r: usize)
        ensures
            r == self.total,
    {
        self.total
    }

    /// Available frames. O(1).
    pub fn free_count(&self) -> (r: usize)
        requires
            self.wf(),
            self.free_count_spec() <= usize::MAX,
        ensures
            r == self.free_count_spec(),
    {
        (RAM_END - self.bump) / PAGE_SIZE + self.recycled.len()
    }

    /// At least `n` frames are available.
    pub fn has_free(&self, n: usize) -> (r: bool)
        requires
            self.wf(),
        ensures
            r == (self.free_count_spec() >= n),
    {
        let rec = self.recycled.len();
        if rec >= n {
            true
        } else {
            (RAM_END - self.bump) / PAGE_SIZE >= n - rec
        }
    }

    /// After this, nothing is allocated or freed.
    pub fn freeze(&mut self)
        ensures
            final(self).frozen,
            final(self).heap_end == old(self).heap_end,
            final(self).bump == old(self).bump,
            final(self).total == old(self).total,
            final(self).recycled@ == old(self).recycled@,
    {
        self.frozen = true;
    }

    /// The most recently recycled frame if any, else the next virgin one.
    pub fn alloc_frame(&mut self) -> (pa: usize)
        requires
            old(self).wf(),
            !old(self).frozen,
            old(self).free_count_spec() > 0,
        ensures
            final(self).wf(),
            final(self).free_count_spec() == old(self).free_count_spec() - 1,
            pa % PAGE_SIZE == 0,
            final(self).heap_end <= pa < final(self).bump,
            final(self).heap_end == old(self).heap_end,
            final(self).total == old(self).total,
            final(self).frozen == old(self).frozen,
            old(self).recycled@.len() > 0 ==> {
                &&& pa == old(self).recycled@.last()
                &&& final(self).recycled@ == old(self).recycled@.drop_last()
                &&& final(self).bump == old(self).bump
            },
            old(self).recycled@.len() == 0 ==> {
                &&& pa == old(self).bump
                &&& final(self).bump == old(self).bump + PAGE_SIZE
                &&& final(self).recycled@.len() == 0
            },
    {
        match self.recycled.pop() {
            Some(pa) => {
                assert(managed(self.heap_end, self.bump, old(self).recycled@.last()));
                pa
            },
            None => {
                let pa = self.bump;
                self.bump = pa + PAGE_SIZE;
                assert forall|i: int| 0 <= i < self.recycled@.len() implies #[trigger] managed(
                    self.heap_end,
                    self.bump,
                    self.recycled@[i],
                ) by {}
                pa
            },
        }
    }

    /// Push `pa` as the new recycled head. Only the cheap double-free
    /// check is made: `pa` is not the current head.
    pub fn free_frame(&mut self, pa: usize)
        requires
            old(self).wf(),
            !old(self).frozen,
            managed(old(self).heap_end, old(self).bump, pa),
            pa != old(self).head(),
        ensures
            final(self).wf(),
            final(self).recycled@ == old(self).recycled@.push(pa),
            final(self).bump == old(self).bump,
            final(self).heap_end == old(self).heap_end,
            final(self).total == old(self).total,
            final(self).frozen == old(self).frozen,
            final(self).free_count_spec() == old(self).free_count_spec() + 1,
    {
        self.recycled.push(pa);
        assert forall|i: int| 0 <= i < self.recycled@.len() implies #[trigger] managed(
            self.heap_end,
            self.bump,
            self.recycled@[i],
        ) by {
            if i < old(self).recycled@.len() {
                assert(self.recycled@[i] == old(self).recycled@[i]);
            }
        }
    }
}

/// Freeing a frame and then allocating gives the same frame back and
/// leaves the recycled list and the bump as they were before the free:
/// `g` is `f` after `free_frame(pa)`, `h` is `g` after an `alloc_frame`
/// that returned `a`.
pub proof fn lemma_free_then_alloc_lifo(
    f: FrameAllocator,
    pa: usize,
    g: FrameAllocator,
    a: usize,
    h: FrameAllocator,
)
    requires
        g.recycled@ == f.recycled@.push(pa),
        g.bump == f.bump,
        g.recycled@.len() > 0 ==> a == g.recycled@.last() && h.recycled@ == g.recycled@.drop_last()
            && h.bump == g.bump,
    ensures
        a == pa,
        h.recycled@ == f.recycled@,
        h.bump == f.bump,
{
    assert(f.recycled@.push(pa).drop_last() =~= f.recycled@);
}

/// While the recycled list holds no frame twice, a frame handed out is
/// never still on the list, so the next allocation returns a different
/// frame.
pub proof fn lemma_alloc_fresh(f: FrameAllocator, pa: usize, g: FrameAllocator)
    requires
        f.wf(),
        f.recycled@.no_duplicates(),
        f.free_count_spec() > 0,
        f.recycled@.len() > 0 ==> pa == f.recycled@.last() && g.recycled@ == f.recycled@.drop_last()
            && g.bump == f.bump,
        f.recycled@.len() == 0 ==> pa == f.bump && g.bump == f.bump + PAGE_SIZE
            && g.recycled@.len() == 0,
        g.heap_end == f.heap_end,
    ensures
        g.recycled@.no_duplicates(),
        forall|i: int| 0 <= i < g.recycled@.len() ==> g.recycled@[i] != pa,
        pa < g.bump,
{
    if f.recycled@.len() > 0 {
        let n = f.recycled@.len();
        assert forall|i: int| 0 <= i < g.recycled@.len() implies g.recycled@[i] != pa by {
            assert(f.recycled@[i] == g.recycled@[i]);
            assert(f.recycled@[n - 1] == pa);
        }
        assert(pa < f.bump) by {
            assert(managed(f.heap_end, f.bump, f.recycled@[n - 1]));
        }
    }
}

/// `held` are the frames handed out and not yet freed: each is managed,
/// none twice, and none also waiting on the recycled list.
pub open spec fn holds_apart(f: FrameAllocator, held: Seq<usize>) -> bool {
    &&& f.wf()
    &&& f.recycled@.no_duplicates()
    &&& held.no_duplicates()
    &&& forall|i: int| 0 <= i < held.len() ==> #[trigger] managed(f.heap_end, f.bump, held[i])
    &&& forall|i: int| 0 <= i < held.len() ==> !f.recycled@.contains(#[trigger] held[i])
}

/// No frame is handed out twice: an allocation returns a frame that is not
/// held, and the allocator then holds it apart from the rest. `g` is `f`
/// after an `alloc_frame` that returned `pa`.
pub proof fn lemma_alloc_not_held(f: FrameAllocator, held: Seq<usize>, pa: usize, g: FrameAllocator)
    requires
        holds_apart(f, held),
        f.free_count_spec() > 0,
        g.wf(),
        g.heap_end == f.heap_end,
        f.recycled@.len() > 0 ==> pa == f.recycled@.last() && g.recycled@ == f.recycled@.drop_last()
            && g.bump == f.bump,
        f.recycled@.len() == 0 ==> pa == f.bump && g.bump == f.bump + PAGE_SIZE
            && g.recycled@.len() == 0,
        pa % PAGE_SIZE == 0,
        g.heap_end <= pa < g.bump,
    ensures
        !held.contains(pa),
        holds_apart(g, held.push(pa)),
{
    lemma_alloc_fresh(f, pa, g);
    let h2 = held.push(pa);
    if held.contains(pa) {
        let i = choose|i: int| 0 <= i < held.len() && held[i] == pa;
        assert(managed(f.heap_end, f.bump, held[i]));
        if f.recycled@.len() > 0 {
            let n = f.recycled@.len();
            assert(f.recycled@[n - 1] == pa);
            assert(f.recycled@.contains(pa));
        }
    }
    assert forall|i: int| 0 <= i < h2.len() implies #[trigger] managed(g.heap_end, g.bump, h2[i]) by {
        if i < held.len() {
            assert(managed(f.heap_end, f.bump, held[i]));
        }
    }
    assert forall|i: int| 0 <= i < h2.len() implies !g.recycled@.contains(#[trigger] h2[i]) by {
        if i < held.len() {
            assert(!f.recycled@.contains(held[i]));
            if g.recycled@.contains(held[i]) {
                let y = choose|y: int| 0 <= y < g.recycled@.len() && g.recycled@[y] == held[i];
                assert(f.recycled@[y] == g.recycled@[y]);
            }
        } else {
            assert(h2[i] == pa);
            if g.recycled@.contains(pa) {
                let y = choose|y: int| 0 <= y < g.recycled@.len() && g.recycled@[y] == pa;
            }
        }
    }
    assert forall|a: int, b: int| 0 <= a < b < h2.len() implies h2[a] != h2[b] by {
        if b == held.len() {
            assert(held[a] != pa);
        }
    }
}

/// Freeing held frame `k` puts it on the recycled list and the rest stay
/// held apart. `g` is `f` after `free_frame(held[k])`.
pub proof fn lemma_free_held(f: FrameAllocator, held: Seq<usize>, k: int, g: FrameAllocator)
    requires
        holds_apart(f, held),
        0 <= k < held.len(),
        g.wf(),
        g.recycled@ == f.recycled@.push(held[k]),
        g.bump == f.bump,
        g.heap_end == f.heap_end,
    ensures
        holds_apart(g, held.remove(k)),
{
    let h2 = held.remove(k);
    let x = held[k];
    assert(!f.recycled@.contains(x));
    assert forall|a: int, b: int| 0 <= a < b < g.recycled@.len() implies g.recycled@[a] != g.recycled@[b] by {
        if b == f.recycled@.len() {
            assert(g.recycled@[a] == f.recycled@[a]);
            assert(f.recycled@.contains(f.recycled@[a]));
        } else {
            assert(g.recycled@[a] == f.recycled@[a]);
            assert(g.recycled@[b] == f.recycled@[b]);
        }
    }
    assert forall|i: int| 0 <= i < h2.len() implies #[trigger] h2[i] == (if i < k { held[i] } else { held[i + 1] }) by {}
    assert forall|i: int| 0 <= i < h2.len() implies #[trigger] managed(g.heap_end, g.bump, h2[i]) by {
        if i < k {
            assert(managed(f.heap_end, f.bump, held[i]));
        } else {
            assert(managed(f.heap_end, f.bump, held[i + 1]));
        }
    }
    assert forall|i: int| 0 <= i < h2.len() implies !g.recycled@.contains(#[trigger] h2[i]) by {
        let j = if i < k { i } else { i + 1 };
        assert(h2[i] == held[j]);
        assert(!f.recycled@.contains(held[j]));
        assert(held[j] != x);
        if g.recycled@.contains(held[j]) {
            let y = choose|y: int| 0 <= y < g.recycled@.len() && g.recycled@[y] == held[j];
            if y < f.recycled@.len() {
                assert(f.recycled@[y] == g.recycled@[y]);
            }
        }
    }
    assert forall|a: int, b: int| 0 <= a < b < h2.len() implies h2[a] != h2[b] by {
        let ja = if a < k { a } else { a + 1 };
        let jb = if b < k { b } else { b + 1 };
        assert(h2[a] == held[ja]);
        assert(h2[b] == held[jb]);
    }
}

} // verus!
