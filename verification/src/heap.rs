//! Kernel heap: a first-fit free list over `[heap_start, heap_end)`.
//!
//! The free list is sorted by address, its blocks never touch (a freed
//! block is merged with the neighbours it borders), and each block is at
//! least one header long. An allocated block carries a 16-byte header just
//! below the pointer handed out: the whole block's size and `pad`, the
//! bytes before the header that belong to the block. A request that would
//! overflow fails; it never wraps to a bogus address.

use vstd::prelude::*;

verus! {

/// Size of a block header.
pub const HEADER: usize = 16;
/// Alignment of every header.
pub const HEADER_ALIGN: usize = 8;
/// Smallest block that can sit on the free list (a header, no payload).
pub const MIN_FREE: usize = HEADER;

/// A free block.
#[derive(Clone, Copy, Debug, PartialEq, Eq, Structural)]
pub struct Block {
    pub start: usize,
    pub size: usize,
}

/// What `try_alloc` hands out: the pointer, where its header is, and the
/// two header fields (whole block size, bytes of the block below the
/// header).
#[derive(Clone, Copy, Debug, PartialEq, Eq, Structural)]
pub struct Allocation {
    pub user: usize,
    pub hdr: usize,
    pub size: usize,
    pub pad: usize,
}

impl Allocation {
    /// First byte of the allocated block.
    pub open spec fn lo(self) -> int {
        self.hdr - self.pad
    }

    /// One past its last byte.
    pub open spec fn hi(self) -> int {
        self.hdr - self.pad + self.size
    }
}

pub struct Heap {
    pub heap_start: usize,
    pub heap_end: usize,
    /// Free blocks, by address.
    pub free: Vec<Block>,
}

pub open spec fn block_end(b: Block) -> int {
    b.start + b.size
}

/// `a` is a power of two.
pub open spec fn is_pow2(a: usize) -> bool {
    a != 0 && a & ((a - 1) as usize) == 0
}

/// `x` rounded up to a multiple of `align`, if that fits in a `usize`.
pub open spec fn align_up_spec(x: int, align: int) -> Option<int> {
    if x + align - 1 > usize::MAX {
        None
    } else {
        Some(((x + align - 1) / align) * align)
    }
}

/// `[start, start + size)` lies in the heap, holds a header, and starts
/// header-aligned.
pub open spec fn in_heap_spec(hs: usize, he: usize, start: int, size: int) -> bool {
    &&& size >= MIN_FREE
    &&& start >= hs
    &&& start % HEADER_ALIGN as int == 0
    &&& start + size <= he
}

/// A well-formed free list: blocks in the heap, each at least a header long
/// and header-aligned, sorted by address with a gap between any two.
pub open spec fn free_wf(hs: usize, he: usize, f: Seq<Block>) -> bool {
    &&& forall|i: int| 0 <= i < f.len() ==> #[trigger] in_heap_spec(hs, he, f[i].start as int, f[i].size as int)
    &&& forall|i: int, j: int| #![trigger f[i], f[j]] 0 <= i < j < f.len() ==> block_end(f[i]) < f[j].start
}

/// `[lo, hi)` shares no byte with a free block.
pub open spec fn disjoint_from(f: Seq<Block>, lo: int, hi: int) -> bool {
    forall|i: int| 0 <= i < f.len() ==> #[trigger] block_end(f[i]) <= lo || hi <= f[i].start
}

/// `i` is where a block starting at `s` goes: every block before it starts
/// below `s`, and the block at `i` (if any) at or above it.
pub open spec fn insert_pos(f: Seq<Block>, s: int, i: int) -> bool {
    &&& 0 <= i <= f.len()
    &&& forall|j: int| 0 <= j < i ==> #[trigger] f[j].start < s
    &&& i < f.len() ==> f[i].start >= s
}

/// The free list after inserting `[start, start + size)` at position `i`,
/// merged with the following block if it begins where this one ends and
/// with the preceding block if it ends where this one begins.
pub open spec fn inserted(f: Seq<Block>, start: int, size: int, i: int) -> Seq<Block> {
    let merge_next = i < f.len() && start + size == f[i].start;
    let z = if merge_next { size + f[i].size } else { size };
    let rest = if merge_next { f.skip(i + 1) } else { f.skip(i) };
    if i > 0 && block_end(f[i - 1]) == start {
        f.take(i - 1).push(Block { start: f[i - 1].start, size: (f[i - 1].size + z) as usize }) + rest
    } else {
        f.take(i).push(Block { start: start as usize, size: z as usize }) + rest
    }
}

/// How one free block answers a request: not usable, usable (with the
/// pointer, header and end of the taken bytes), or a request so large
/// that the search stops.
pub enum Fit {
    Skip,
    Fail,
    Take { user: int, hdr: int, taken_end: int },
}

pub open spec fn fit(b: Block, size: int, align: int) -> Fit {
    let user_base = b.start + HEADER;
    if user_base > usize::MAX {
        Fit::Skip
    } else {
        match align_up_spec(user_base, align) {
            None => Fit::Skip,
            Some(user) => {
                if user + size > usize::MAX {
                    Fit::Fail
                } else {
                    match align_up_spec(user + size, HEADER_ALIGN as int) {
                        None => Fit::Fail,
                        Some(te) => if te > block_end(b) {
                            Fit::Skip
                        } else {
                            Fit::Take { user, hdr: user - HEADER, taken_end: te }
                        },
                    }
                }
            },
        }
    }
}

/// `i` is the first block that does not skip the request.
pub open spec fn first_fit(f: Seq<Block>, size: int, align: int, i: int) -> bool {
    &&& 0 <= i < f.len()
    &&& !(fit(f[i], size, align) is Skip)
    &&& forall|j: int| 0 <= j < i ==> #[trigger] fit(f[j], size, align) is Skip
}

/// Where the taken bytes end: a too-small tail is absorbed.
pub open spec fn taken_end_of(b: Block, te: int) -> int {
    if block_end(b) - te < MIN_FREE {
        block_end(b)
    } else {
        te
    }
}

/// The free blocks left of block `b` after taking `[hdr, te)` from it:
/// the prefix below the header if it can hold a header, and the tail if it
/// can.
pub open spec fn leftovers(b: Block, hdr: int, te: int) -> Seq<Block> {
    let te2 = taken_end_of(b, te);
    let pre = if hdr - b.start >= MIN_FREE {
        seq![Block { start: b.start, size: (hdr - b.start) as usize }]
    } else {
        Seq::empty()
    };
    let suf = if block_end(b) - te2 >= MIN_FREE {
        seq![Block { start: te2 as usize, size: (block_end(b) - te2) as usize }]
    } else {
        Seq::empty()
    };
    pre + suf
}

/// The allocation made from block `b` with pointer `user`, header `hdr`
/// and taken end `te`.
pub open spec fn allocation_of(b: Block, user: int, hdr: int, te: int) -> Allocation {
    let te2 = taken_end_of(b, te);
    if hdr - b.start >= MIN_FREE {
        Allocation { user: user as usize, hdr: hdr as usize, size: (te2 - hdr) as usize, pad: 0 }
    } else {
        Allocation {
            user: user as usize,
            hdr: hdr as usize,
            size: (te2 - b.start) as usize,
            pad: (hdr - b.start) as usize,
        }
    }
}

/// Round `x` up to a multiple of `align`; `None` if `align` is not a power
/// of two or the result does not fit.
pub fn align_up(x: usize, align: usize) -> (r: Option<usize>)
    ensures
        r matches Some(v) ==> is_pow2(align) && align_up_spec(x as int, align as int) == Some(v as int),
        r is None ==> !is_pow2(align) || align_up_spec(x as int, align as int) is None,
{
    if align == 0 || align & (align - 1) != 0 {
        return None;
    }
    let mask = align - 1;
    match x.checked_add(mask) {
        Some(s) => {
            let q = s / align;
            assert(q * align <= s) by (nonlinear_arith)
                requires
                    q == s / align,
                    align > 0,
            ;
            Some(q * align)
        },
        None => None,
    }
}


/// Why the heap bounds cannot hold a heap.
#[derive(Clone, Copy, Debug, PartialEq, Eq, Structural)]
pub enum HeapInitError {
    /// Unaligned start, empty range, or a range too small for one header.
    Symbols,
}

impl Heap {
    pub open spec fn wf(&self) -> bool {
        &&& self.heap_start % HEADER_ALIGN == 0
        &&& self.heap_start < self.heap_end
        &&& free_wf(self.heap_start, self.heap_end, self.free@)
    }

    /// One free block over the whole of `[start, end)`.
    pub fn init(start: usize, end: usize) -> (r: Result<Heap, HeapInitError>)
        ensures
            r is Ok <==> (start % HEADER_ALIGN == 0 && start < end && end - start >= MIN_FREE),
            r matches Ok(h) ==> {
                &&& h.wf()
                &&& h.heap_start == start
                &&& h.heap_end == end
                &&& h.free@ == seq![Block { start, size: (end - start) as usize }]
            },
    {
        if start % HEADER_ALIGN != 0 || end <= start || end - start < MIN_FREE {
            return Err(HeapInitError::Symbols);
        }
        let mut free: Vec<Block> = Vec::new();
        free.push(Block { start, size: end - start });
        let h = Heap { heap_start: start, heap_end: end, free };
        assert(h.free@ =~= seq![Block { start, size: (end - start) as usize }]);
        Ok(h)
    }

    /// `[start, start + size)` lies in this heap, holds a header, and starts
    /// header-aligned.
    pub fn in_heap(&self, start: usize, size: usize) -> (r: bool)
        ensures
            r == in_heap_spec(self.heap_start, self.heap_end, start as int, size as int),
    {
        size >= MIN_FREE && start >= self.heap_start && start % HEADER_ALIGN == 0 && match start.checked_add(size) {
            Some(end) => end <= self.heap_end,
            None => false,
        }
    }

    /// `(free blocks, free bytes)`.
    pub fn free_stats(&self) -> (r: (usize, usize))
        requires
            self.wf(),
        ensures
            r.0 == self.free@.len(),
            r.1 == sum_sizes(self.free@, self.free@.len() as int),
    {
        let n = self.free.len();
        let mut bytes: usize = 0;
        let mut i: usize = 0;
        while i < n
            invariant
                n == self.free@.len(),
                i <= n,
                self.wf(),
                bytes == sum_sizes(self.free@, i as int),
                bytes <= if i == 0 { self.heap_start as int } else { block_end(self.free@[i - 1]) } - self.heap_start,
            decreases n - i,
        {
            proof {
                assert(in_heap_spec(self.heap_start, self.heap_end, self.free@[i as int].start as int, self.free@[i as int].size as int));
                if i > 0 {
                    assert(block_end(self.free@[i - 1]) < self.free@[i as int].start);
                }
            }
            bytes = bytes + self.free[i].size;
            i = i + 1;
        }
        (n, bytes)
    }

    /// Size of the managed region.
    pub fn region_size(&self) -> (r: usize)
        requires
            self.wf(),
        ensures
            r == self.heap_end - self.heap_start,
    {
        self.heap_end - self.heap_start
    }

    /// First fit: take the first free block that can hold `size` bytes at
    /// alignment `align` behind a header. A prefix below the header that
    /// can hold a header stays free; a smaller one is absorbed (and
    /// recorded as `pad`). Likewise for the tail. `None` when nothing fits
    /// or the request overflows.
    pub fn try_alloc(&mut self, size: usize, align: usize) -> (r: Option<Allocation>)
        requires
            old(self).wf(),
            is_pow2(align),
        ensures
            final(self).wf(),
            final(self).heap_start == old(self).heap_start,
            final(self).heap_end == old(self).heap_end,
            (forall|j: int| 0 <= j < old(self).free@.len() ==> #[trigger] fit(old(self).free@[j], size as int, align as int) is Skip)
                ==> r is None && final(self).free@ == old(self).free@,
            forall|i: int| #[trigger] first_fit(old(self).free@, size as int, align as int, i) ==>
                match fit(old(self).free@[i], size as int, align as int) {
                    Fit::Take { user, hdr, taken_end } => {
                        &&& r == Some(allocation_of(old(self).free@[i], user, hdr, taken_end))
                        &&& final(self).free@ == replaced(old(self).free@, i, leftovers(old(self).free@[i], hdr, taken_end))
                    },
                    _ => r is None && final(self).free@ == old(self).free@,
                },
            r matches Some(a) ==> free_total(final(self).free@) == free_total(old(self).free@) - a.size,
            forall|j: int, u: int, te: int|
                0 <= j < old(self).free@.len() && #[trigger] room(old(self).free@[j], size as int, align as int, u, te)
                    ==> r is Some,
    {
        let ghost f = self.free@;
        let ghost hs = self.heap_start;
        let ghost he = self.heap_end;
        assert(is_pow2(HEADER_ALIGN)) by (bit_vector);
        let n = self.free.len();
        let mut i: usize = 0;
        while i < n
            invariant
                n == f.len(),
                self.free@ == f,
                f == old(self).free@,
                hs == old(self).heap_start,
                he == old(self).heap_end,
                self.heap_start == hs,
                self.heap_end == he,
                self.wf(),
                is_pow2(align),
                is_pow2(HEADER_ALIGN),
                i <= n,
                forall|j: int| 0 <= j < i ==> #[trigger] fit(f[j], size as int, align as int) is Skip,
            decreases n - i,
        {
            let b = self.free[i];
            proof {
                assert(in_heap_spec(hs, he, b.start as int, b.size as int));
            }
            let start = b.start;
            let end = start + b.size;
            let user_base = match start.checked_add(HEADER) {
                Some(u) => u,
                None => {
                    i = i + 1;
                    continue;
                },
            };
            let user = match align_up(user_base, align) {
                Some(u) => u,
                None => {
                    i = i + 1;
                    continue;
                },
            };
            proof {
                assert(user_base + align - 1 >= user_base);
                assert(((user_base + align - 1) / (align as int)) * align >= user_base) by (nonlinear_arith)
                    requires
                        align > 0,
                ;
            }
            let hdr = user - HEADER;
            let payload_end = match user.checked_add(size) {
                Some(p) => p,
                None => {
                    assert(fit(f[i as int], size as int, align as int) is Fail);
                    assert(first_fit(f, size as int, align as int, i as int));
                    proof {
                        lemma_no_room_unserved(hs, he, f, size, align);
                    }
                    return None;
                },
            };
            let taken_end = match align_up(payload_end, HEADER_ALIGN) {
                Some(t) => t,
                None => {
                    assert(fit(f[i as int], size as int, align as int) is Fail);
                    assert(first_fit(f, size as int, align as int, i as int));
                    proof {
                        lemma_no_room_unserved(hs, he, f, size, align);
                    }
                    return None;
                },
            };
            if taken_end > end {
                i = i + 1;
                continue;
            }
            assert(first_fit(f, size as int, align as int, i as int));
            proof {
                assert(taken_end >= payload_end) by (nonlinear_arith)
                    requires
                        taken_end == ((payload_end + 7) / 8) * 8,
                ;
                assert(taken_end % 8 == 0) by {
                    vstd::arithmetic::div_mod::lemma_mod_multiples_basic((payload_end as int + 7) / 8, 8);
                }
            }
            let taken_end2 = if end - taken_end < MIN_FREE { end } else { taken_end };
            let ghost mid = leftovers(b, hdr as int, taken_end as int);
            if hdr - start >= MIN_FREE {
                self.free.set(i, Block { start, size: hdr - start });
                if end - taken_end2 >= MIN_FREE {
                    self.free.insert(i + 1, Block { start: taken_end2, size: end - taken_end2 });
                }
                assert(self.free@ =~= replaced(f, i as int, mid));
                proof {
                    lemma_replaced_wf(hs, he, f, i as int, mid);
                    lemma_replaced_total(f, i as int, mid);
                    lemma_leftovers_total(b, user as int, hdr as int, taken_end as int);
                }
                return Some(Allocation { user, hdr, size: taken_end2 - hdr, pad: 0 });
            }
            if end - taken_end2 >= MIN_FREE {
                self.free.set(i, Block { start: taken_end2, size: end - taken_end2 });
            } else {
                self.free.remove(i);
            }
            assert(self.free@ =~= replaced(f, i as int, mid));
            proof {
                lemma_replaced_wf(hs, he, f, i as int, mid);
                lemma_replaced_total(f, i as int, mid);
                lemma_leftovers_total(b, user as int, hdr as int, taken_end as int);
            }
            return Some(Allocation { user, hdr, size: taken_end2 - start, pad: hdr - start });
        }
        proof {
            lemma_no_room_unserved(hs, he, f, size, align);
        }
        None
    }

    /// Free the block whose pointer is `user`, given the two fields of its
    /// header, after checking them: a null pointer, a header below address
    /// zero or misaligned, a block outside the heap, or one that overlaps a
    /// free block (a double free) is refused and changes nothing.
    pub fn dealloc(&mut self, user: usize, size: usize, pad: usize) -> (r: Result<(), DeallocError>)
        requires
            old(self).wf(),
        ensures
            final(self).wf(),
            final(self).heap_start == old(self).heap_start,
            final(self).heap_end == old(self).heap_end,
            match dealloc_verdict(old(self).heap_start, old(self).heap_end, old(self).free@, user, size, pad) {
                Some(e) => r == Err::<(), DeallocError>(e) && final(self).free@ == old(self).free@,
                None => r is Ok && exists|i: int|
                    #[trigger] insert_pos(old(self).free@, user - HEADER - pad, i) && final(self).free@ == inserted(
                        old(self).free@,
                        user - HEADER - pad,
                        size as int,
                        i,
                    ),
            },
    {
        if user == 0 {
            return Err(DeallocError::Null);
        }
        if user < HEADER {
            return Err(DeallocError::Underflow);
        }
        let hdr = user - HEADER;
        if hdr % HEADER_ALIGN != 0 {
            return Err(DeallocError::Misaligned);
        }
        if hdr < pad {
            return Err(DeallocError::Underflow);
        }
        let start = hdr - pad;
        if !self.in_heap(start, size) {
            return Err(DeallocError::OutOfRange);
        }
        let end = start + size;
        let n = self.free.len();
        let mut j: usize = 0;
        while j < n
            invariant
                n == self.free@.len(),
                j <= n,
                self.wf(),
                self.free@ == old(self).free@,
                self.heap_start == old(self).heap_start,
                self.heap_end == old(self).heap_end,
                in_heap_spec(self.heap_start, self.heap_end, start as int, size as int),
                user != 0,
                user >= HEADER,
                hdr == user - HEADER,
                hdr % HEADER_ALIGN == 0,
                hdr >= pad,
                start == hdr - pad,
                end == start + size,
                forall|q: int| 0 <= q < j ==> #[trigger] block_end(self.free@[q]) <= start || end <= self.free@[q].start,
            decreases n - j,
        {
            let b = self.free[j];
            proof {
                assert(in_heap_spec(self.heap_start, self.heap_end, b.start as int, b.size as int));
            }
            if !(b.start + b.size <= start || end <= b.start) {
                proof {
                    assert(!(block_end(self.free@[j as int]) <= start || end <= self.free@[j as int].start));
                    assert(!disjoint_from(self.free@, start as int, end as int));
                }
                return Err(DeallocError::Overlap);
            }
            j = j + 1;
        }
        self.dealloc_raw(user, size, pad);
        Ok(())
    }

    /// Free the block whose pointer is `user`, given the two fields of its
    /// header (`size` of the whole block, `pad` bytes below the header).
    /// The block goes back on the list, merged with the neighbours it
    /// borders. The pointer's header must be aligned and the block must lie
    /// in the heap and overlap no free block: anything else is a corrupt
    /// header or a double free.
    pub fn dealloc_raw(&mut self, user: usize, size: usize, pad: usize)
        requires
            old(self).wf(),
            user >= HEADER + pad,
            (user - HEADER) % HEADER_ALIGN as int == 0,
            in_heap_spec(old(self).heap_start, old(self).heap_end, user - HEADER - pad, size as int),
            disjoint_from(old(self).free@, user - HEADER - pad, user - HEADER - pad + size),
        ensures
            final(self).wf(),
            final(self).heap_start == old(self).heap_start,
            final(self).heap_end == old(self).heap_end,
            exists|i: int|
                #[trigger] insert_pos(old(self).free@, user - HEADER - pad, i) && final(self).free@ == inserted(
                    old(self).free@,
                    user - HEADER - pad,
                    size as int,
                    i,
                ),
    {
        let hdr = user - HEADER;
        let start = hdr - pad;
        self.insert_coalesced(start, size);
    }

    /// Put `[start, start + size)` back on the list, merged with the
    /// neighbours it borders. The range must lie in the heap and overlap
    /// no free block (overlap would be a double free).
    pub fn insert_coalesced(&mut self, start: usize, size: usize)
        requires
            old(self).wf(),
            in_heap_spec(old(self).heap_start, old(self).heap_end, start as int, size as int),
            disjoint_from(old(self).free@, start as int, start + size),
        ensures
            final(self).wf(),
            final(self).heap_start == old(self).heap_start,
            final(self).heap_end == old(self).heap_end,
            exists|i: int|
                insert_pos(old(self).free@, start as int, i) && final(self).free@ == inserted(
                    old(self).free@,
                    start as int,
                    size as int,
                    i,
                ),
    {
        let ghost f = self.free@;
        let ghost hs = self.heap_start;
        let ghost he = self.heap_end;
        let n = self.free.len();
        let mut i: usize = 0;
        while i < n && self.free[i].start < start
            invariant
                n == self.free@.len(),
                self.free@ == f,
                i <= n,
                forall|j: int| 0 <= j < i ==> #[trigger] f[j].start < start,
            decreases n - i,
        {
            i = i + 1;
        }
        assert(insert_pos(f, start as int, i as int));
        let merge_next = i < n && start + size == self.free[i].start;
        let z = if merge_next {
            proof {
                assert(in_heap_spec(hs, he, f[i as int].start as int, f[i as int].size as int));
            }
            size + self.free[i].size
        } else {
            size
        };
        if merge_next {
            self.free.remove(i);
        }
        let ghost rest = if merge_next { f.skip(i + 1) } else { f.skip(i as int) };
        assert(self.free@ =~= f.take(i as int) + rest);
        proof {
            if i > 0 {
                assert(in_heap_spec(hs, he, f[i - 1].start as int, f[i - 1].size as int));
                assert(self.free@[i - 1] == f[i - 1]);
            }
        }
        let merge_prev = i > 0 && self.free[i - 1].start + self.free[i - 1].size == start;
        if merge_prev {
            let p = self.free[i - 1];
            self.free.set(i - 1, Block { start: p.start, size: p.size + z });
            assert(self.free@ =~= f.take(i - 1).push(Block { start: p.start, size: (p.size + z) as usize }) + rest);
        } else {
            self.free.insert(i, Block { start, size: z });
            assert(self.free@ =~= f.take(i as int).push(Block { start, size: z }) + rest);
        }
        assert(self.free@ == inserted(f, start as int, size as int, i as int));
        proof {
            lemma_inserted_wf(hs, he, f, start as int, size as int, i as int);
        }
    }
}

/// Why `dealloc` refused a pointer.
#[derive(Clone, Copy, Debug, PartialEq, Eq, Structural)]
pub enum DeallocError {
    Null,
    /// The header, or the bytes the header says lie below it, would start
    /// below address zero.
    Underflow,
    /// The header is not 8-byte aligned.
    Misaligned,
    /// The block is not a header-aligned range of the heap.
    OutOfRange,
    /// The block overlaps a free block: a double free.
    Overlap,
}

/// What `dealloc` says of pointer `user` with header fields `size` and
/// `pad`, in the order the checks are made.
pub open spec fn dealloc_verdict(hs: usize, he: usize, f: Seq<Block>, user: usize, size: usize, pad: usize) -> Option<DeallocError> {
    if user == 0 {
        Some(DeallocError::Null)
    } else if user < HEADER {
        Some(DeallocError::Underflow)
    } else if (user - HEADER) % HEADER_ALIGN as int != 0 {
        Some(DeallocError::Misaligned)
    } else if user - HEADER < pad {
        Some(DeallocError::Underflow)
    } else if !in_heap_spec(hs, he, user - HEADER - pad, size as int) {
        Some(DeallocError::OutOfRange)
    } else if !disjoint_from(f, user - HEADER - pad, user - HEADER - pad + size) {
        Some(DeallocError::Overlap)
    } else {
        None
    }
}

/// The free list after block `i` is replaced by `mid`.
pub open spec fn replaced(f: Seq<Block>, i: int, mid: Seq<Block>) -> Seq<Block> {
    f.take(i) + mid + f.skip(i + 1)
}

/// Replacing a block by well-formed pieces of itself keeps the list
/// well-formed.
proof fn lemma_replaced_wf(hs: usize, he: usize, f: Seq<Block>, i: int, mid: Seq<Block>)
    requires
        free_wf(hs, he, f),
        0 <= i < f.len(),
        free_wf(hs, he, mid),
        forall|j: int| 0 <= j < mid.len() ==> f[i].start <= #[trigger] mid[j].start && block_end(mid[j]) <= block_end(f[i]),
    ensures
        free_wf(hs, he, replaced(f, i, mid)),
{
    let g = replaced(f, i, mid);
    let m = mid.len();
    assert forall|j: int| 0 <= j < g.len() implies
        #[trigger] g[j] == (if j < i { f[j] } else if j < i + m { mid[j - i] } else { f[j - m + 1] }) by {}
    assert forall|j: int| 0 <= j < g.len() implies #[trigger] in_heap_spec(hs, he, g[j].start as int, g[j].size as int) by {
        if j < i {
        } else if j < i + m {
            assert(in_heap_spec(hs, he, mid[j - i].start as int, mid[j - i].size as int));
        } else {
            assert(in_heap_spec(hs, he, f[j - m + 1].start as int, f[j - m + 1].size as int));
        }
    }
    assert forall|a: int, b: int| #![trigger g[a], g[b]] 0 <= a < b < g.len() implies block_end(g[a]) < g[b].start by {
        if b < i {
            assert(block_end(f[a]) < f[b].start);
        } else if b < i + m {
            assert(f[i].start <= mid[b - i].start);
            if a < i {
                assert(block_end(f[a]) < f[i].start);
            } else {
                assert(block_end(mid[a - i]) < mid[b - i].start);
            }
        } else {
            let fb = b - m + 1;
            assert(block_end(f[i]) < f[fb].start);
            if a < i {
                assert(block_end(f[a]) < f[fb].start);
            } else if a < i + m {
                assert(block_end(mid[a - i]) <= block_end(f[i]));
            } else {
                assert(block_end(f[a - m + 1]) < f[fb].start);
            }
        }
    }
}

/// There is only one place a block can go.
pub proof fn lemma_insert_pos_unique(f: Seq<Block>, s: int, k1: int, k2: int)
    requires
        insert_pos(f, s, k1),
        insert_pos(f, s, k2),
    ensures
        k1 == k2,
{
    if k1 < k2 {
        assert(f[k1].start < s);
    } else if k2 < k1 {
        assert(f[k2].start < s);
    }
}

/// Block `b` has room for `size` bytes aligned to `align`: `u` is the
/// first `align`-aligned address at least a header past the block's start,
/// `te` is the end of the payload rounded up to a multiple of 8, and `te`
/// lies within the block.
pub open spec fn room(b: Block, size: int, align: int, u: int, te: int) -> bool {
    &&& u % align == 0
    &&& b.start + HEADER <= u < b.start + HEADER + align
    &&& te % (HEADER_ALIGN as int) == 0
    &&& u + size <= te < u + size + HEADER_ALIGN
    &&& te <= block_end(b)
}

/// An aligned address leaves room below the top of the address space for
/// the rest of its alignment unit.
proof fn lemma_aligned_no_wrap(x: usize, a: usize)
    requires
        is_pow2(a),
        x % a == 0,
    ensures
        x + a - 1 <= usize::MAX,
{
    let m = (a - 1) as usize;
    assert(a != 0 && a & ((a - 1) as usize) == 0 && x % a == 0 && m == (a - 1) as usize ==> x + m == (x | m))
        by (bit_vector);
}

/// A block is taken exactly when the request has room in it: if it has,
/// the allocation goes at the first aligned address past the header and
/// its taken bytes end where the payload ends, rounded up to 8. Only a
/// block without room is passed over.
pub proof fn lemma_room_is_taken(b: Block, size: usize, align: usize, u: int, te: int)
    requires
        is_pow2(align),
        block_end(b) <= usize::MAX,
        room(b, size as int, align as int, u, te),
    ensures
        fit(b, size as int, align as int) == (Fit::Take { user: u, hdr: u - HEADER, taken_end: te }),
{
    let a = align as int;
    let ub = b.start + HEADER;
    lemma_aligned_no_wrap(u as usize, align);
    vstd::arithmetic::div_mod::lemma_fundamental_div_mod(u, a);
    let q = u / a;
    assert(q * a == a * q) by (nonlinear_arith);
    vstd::arithmetic::div_mod::lemma_fundamental_div_mod_converse(ub + a - 1, a, q, ub + a - 1 - q * a);
    assert(align_up_spec(ub, a) == Some(u));
    assert(is_pow2(HEADER_ALIGN)) by (bit_vector);
    lemma_aligned_no_wrap(te as usize, HEADER_ALIGN);
    vstd::arithmetic::div_mod::lemma_fundamental_div_mod(te, 8);
    let p = u + size;
    assert((te / 8) * 8 == 8 * (te / 8)) by (nonlinear_arith);
    vstd::arithmetic::div_mod::lemma_fundamental_div_mod_converse(p + 7, 8, te / 8, p + 7 - (te / 8) * 8);
    assert(align_up_spec(p, 8) == Some(te));
}

/// The first block of the list that is not passed over exists at or before
/// any block that is not.
proof fn lemma_first_fit_exists(f: Seq<Block>, size: int, align: int, j: int)
    requires
        0 <= j < f.len(),
        !(fit(f[j], size, align) is Skip),
    ensures
        exists|k: int| 0 <= k <= j && #[trigger] first_fit(f, size, align, k),
    decreases j,
{
    if forall|m: int| 0 <= m < j ==> #[trigger] fit(f[m], size, align) is Skip {
        assert(first_fit(f, size, align, j));
    } else {
        let m = choose|m: int| 0 <= m < j && !(#[trigger] fit(f[m], size, align) is Skip);
        lemma_first_fit_exists(f, size, align, m);
    }
}

/// A request with room in some free block is served: the first block not
/// passed over is taken, it is no later than any block with room, and no
/// block before it has room.
pub proof fn lemma_room_is_served(hs: usize, he: usize, f: Seq<Block>, size: usize, align: usize, j: int, u: int, te: int)
    requires
        free_wf(hs, he, f),
        is_pow2(align),
        0 <= j < f.len(),
        room(f[j], size as int, align as int, u, te),
    ensures
        exists|k: int| 0 <= k <= j && #[trigger] first_fit(f, size as int, align as int, k)
            && fit(f[k], size as int, align as int) is Take,
{
    let a = align as int;
    assert(in_heap_spec(hs, he, f[j].start as int, f[j].size as int));
    lemma_room_is_taken(f[j], size, align, u, te);
    lemma_first_fit_exists(f, size as int, a, j);
    let k = choose|k: int| 0 <= k <= j && #[trigger] first_fit(f, size as int, a, k);
    if k < j {
        assert(in_heap_spec(hs, he, f[k].start as int, f[k].size as int));
        assert(block_end(f[k]) < f[j].start);
        let ub = f[k].start + HEADER;
        match align_up_spec(ub, a) {
            Some(uk) => {
                vstd::arithmetic::div_mod::lemma_fundamental_div_mod(ub + a - 1, a);
                vstd::arithmetic::div_mod::lemma_fundamental_div_mod(u, a);
                let q = (ub + a - 1) / a;
                let m = u / a;
                assert(q * a < m * a + a);
                assert(q * a <= m * a) by (nonlinear_arith)
                    requires
                        a > 0,
                        q * a < m * a + a,
                ;
                assert(uk <= u);
                assert(is_pow2(HEADER_ALIGN)) by (bit_vector);
                lemma_aligned_no_wrap(te as usize, HEADER_ALIGN);
                assert(uk + size + 7 <= usize::MAX);
                assert(align_up_spec(uk + size, 8) is Some);
            },
            None => {},
        }
    }
}

/// When the first block not passed over cannot be taken, or every block
/// is passed over, no block has room.
proof fn lemma_no_room_unserved(hs: usize, he: usize, f: Seq<Block>, size: usize, align: usize)
    requires
        free_wf(hs, he, f),
        is_pow2(align),
        (forall|j: int| 0 <= j < f.len() ==> #[trigger] fit(f[j], size as int, align as int) is Skip) || exists|i: int|
            #[trigger] first_fit(f, size as int, align as int, i) && fit(f[i], size as int, align as int) is Fail,
    ensures
        forall|j: int, u: int, te: int| 0 <= j < f.len() ==> !#[trigger] room(f[j], size as int, align as int, u, te),
{
    assert forall|j: int, u: int, te: int| 0 <= j < f.len() implies !#[trigger] room(f[j], size as int, align as int, u, te) by {
        if room(f[j], size as int, align as int, u, te) {
            lemma_room_is_served(hs, he, f, size, align, j, u, te);
            let k = choose|k: int| 0 <= k <= j && #[trigger] first_fit(f, size as int, align as int, k)
                && fit(f[k], size as int, align as int) is Take;
            assert(!(fit(f[k], size as int, align as int) is Skip));
            if exists|i: int| #[trigger] first_fit(f, size as int, align as int, i) && fit(f[i], size as int, align as int) is Fail {
                let i = choose|i: int| #[trigger] first_fit(f, size as int, align as int, i) && fit(f[i], size as int, align as int) is Fail;
                if k < i {
                    assert(fit(f[k], size as int, align as int) is Skip);
                } else if i < k {
                    assert(fit(f[i], size as int, align as int) is Skip);
                }
            }
        }
    }
}

proof fn lemma_pow2_vs_header(a: usize)
    requires
        is_pow2(a),
    ensures
        a < 8 ==> (a == 1 || a == 2 || a == 4),
        a >= 8 ==> a % 8 == 0,
{
    assert(a != 0 && a & ((a - 1) as usize) == 0 && a < 8 ==> (a == 1 || a == 2 || a == 4)) by (bit_vector);
    assert(a != 0 && a & ((a - 1) as usize) == 0 && a >= 8 ==> a % 8 == 0) by (bit_vector);
}

proof fn lemma_leftovers_wf(hs: usize, he: usize, b: Block, hdr: int, te: int)
    requires
        in_heap_spec(hs, he, b.start as int, b.size as int),
        b.start <= hdr,
        hdr + HEADER <= te <= block_end(b),
        te % 8 == 0,
    ensures
        free_wf(hs, he, leftovers(b, hdr, te)),
        forall|j: int| 0 <= j < leftovers(b, hdr, te).len() ==> b.start <= #[trigger] leftovers(b, hdr, te)[j].start && block_end(leftovers(b, hdr, te)[j]) <= block_end(b),
{
    let te2 = taken_end_of(b, te);
    let pre = Block { start: b.start, size: (hdr - b.start) as usize };
    let suf = Block { start: te2 as usize, size: (block_end(b) - te2) as usize };
    let mid = leftovers(b, hdr, te);
    let has_pre = hdr - b.start >= MIN_FREE;
    let has_suf = block_end(b) - te2 >= MIN_FREE;
    if has_suf {
        assert(te2 == te);
    }
    if has_pre && has_suf {
        assert(mid =~= seq![pre, suf]);
        assert(mid[0] == pre && mid[1] == suf);
    } else if has_pre {
        assert(mid =~= seq![pre]);
    } else if has_suf {
        assert(mid =~= seq![suf]);
    } else {
        assert(mid =~= Seq::<Block>::empty());
    }
}

/// What first fit hands out from block `i` is aligned as asked, holds the
/// request behind its header, lies inside the block it came from, is a
/// header-aligned range of the heap, and overlaps no block left free.
#[verifier::spinoff_prover]
pub proof fn lemma_alloc_sound(hs: usize, he: usize, f: Seq<Block>, size: int, align: usize, i: int)
    requires
        free_wf(hs, he, f),
        is_pow2(align),
        size >= 0,
        first_fit(f, size, align as int, i),
        fit(f[i], size, align as int) is Take,
    ensures
        ({
            let (user, hdr, te) = match fit(f[i], size, align as int) {
                Fit::Take { user, hdr, taken_end } => (user, hdr, taken_end),
                _ => (0, 0, 0),
            };
            let a = allocation_of(f[i], user, hdr, te);
            let g = replaced(f, i, leftovers(f[i], hdr, te));
            &&& a.user % align == 0
            &&& a.hdr % HEADER_ALIGN == 0
            &&& a.user == a.hdr + HEADER
            &&& a.user + size <= a.hi()
            &&& f[i].start <= a.lo() <= a.hdr
            &&& a.hi() <= block_end(f[i])
            &&& in_heap_spec(hs, he, a.lo(), a.size as int)
            &&& disjoint_from(g, a.lo(), a.hi())
            &&& free_wf(hs, he, g)
        }),
{
    let b = f[i];
    assert(in_heap_spec(hs, he, b.start as int, b.size as int));
    let (user, hdr, te) = match fit(b, size, align as int) {
        Fit::Take { user, hdr, taken_end } => (user, hdr, taken_end),
        _ => (0, 0, 0),
    };
    let ub = b.start + HEADER;
    assert(user == ((ub + align - 1) / (align as int)) * align);
    assert(te == ((user + size + 7) / 8) * 8);
    vstd::arithmetic::div_mod::lemma_mod_multiples_basic((ub + align - 1) / (align as int), align as int);
    vstd::arithmetic::div_mod::lemma_mod_multiples_basic((user + size + 7) / 8, 8);
    assert(user >= ub) by (nonlinear_arith)
        requires
            user == ((ub + align - 1) / (align as int)) * align,
            align > 0,
    ;
    assert(te >= user + size) by (nonlinear_arith)
        requires
            te == ((user + size + 7) / 8) * 8,
    ;
    lemma_pow2_vs_header(align);
    if align < 8 {
        assert(ub % (align as int) == 0);
        assert(user == ub) by (nonlinear_arith)
            requires
                user == ((ub + align - 1) / (align as int)) * align,
                ub % (align as int) == 0,
                align > 0,
        {
            vstd::arithmetic::div_mod::lemma_fundamental_div_mod(ub, align as int);
            vstd::arithmetic::div_mod::lemma_fundamental_div_mod_converse(
                ub + align - 1,
                align as int,
                ub / (align as int),
                align - 1,
            );
        }
        assert(hdr % 8 == 0);
    } else {
        assert(user % 8 == 0) by {
            vstd::arithmetic::div_mod::lemma_mod_mod(user, 8, (align / 8) as int);
            assert(align == 8 * (align / 8));
        }
        assert(hdr % 8 == 0);
    }
    let mid = leftovers(b, hdr, te);
    lemma_leftovers_wf(hs, he, b, hdr, te);
    lemma_replaced_wf(hs, he, f, i, mid);
    let a = allocation_of(b, user, hdr, te);
    let g = replaced(f, i, mid);
    let m = mid.len();
    assert forall|j: int| 0 <= j < g.len() implies
        #[trigger] g[j] == (if j < i { f[j] } else if j < i + m { mid[j - i] } else { f[j - m + 1] }) by {}
    assert forall|j: int| 0 <= j < g.len() implies #[trigger] block_end(g[j]) <= a.lo() || a.hi() <= g[j].start by {
        if j < i {
            assert(block_end(f[j]) < f[i].start);
        } else if j < i + m {
        } else {
            assert(block_end(f[i]) < f[j - m + 1].start);
        }
    }
}

/// Freeing what first fit just handed out (by its header fields) restores
/// the free list exactly as it was before the allocation.
#[verifier::rlimit(60)]
#[verifier::spinoff_prover]
pub proof fn lemma_alloc_free_roundtrip(hs: usize, he: usize, f: Seq<Block>, size: int, align: usize, i: int, k: int)
    requires
        free_wf(hs, he, f),
        is_pow2(align),
        size >= 0,
        first_fit(f, size, align as int, i),
        fit(f[i], size, align as int) is Take,
        ({
            let (user, hdr, te) = match fit(f[i], size, align as int) {
                Fit::Take { user, hdr, taken_end } => (user, hdr, taken_end),
                _ => (0, 0, 0),
            };
            insert_pos(replaced(f, i, leftovers(f[i], hdr, te)), allocation_of(f[i], user, hdr, te).lo(), k)
        }),
    ensures
        ({
            let (user, hdr, te) = match fit(f[i], size, align as int) {
                Fit::Take { user, hdr, taken_end } => (user, hdr, taken_end),
                _ => (0, 0, 0),
            };
            let a = allocation_of(f[i], user, hdr, te);
            let g = replaced(f, i, leftovers(f[i], hdr, te));
            inserted(g, a.lo(), a.size as int, k) == f
        }),
{
    lemma_alloc_sound(hs, he, f, size, align, i);
    let b = f[i];
    let (user, hdr, te) = match fit(b, size, align as int) {
        Fit::Take { user, hdr, taken_end } => (user, hdr, taken_end),
        _ => (0, 0, 0),
    };
    let a = allocation_of(b, user, hdr, te);
    let mid = leftovers(b, hdr, te);
    let g = replaced(f, i, mid);
    let m = mid.len();
    let te2 = taken_end_of(b, te);
    let has_pre = hdr - b.start >= MIN_FREE;
    let has_suf = block_end(b) - te2 >= MIN_FREE;
    assert forall|j: int| 0 <= j < g.len() implies
        #[trigger] g[j] == (if j < i { f[j] } else if j < i + m { mid[j - i] } else { f[j - m + 1] }) by {}
    assert(in_heap_spec(hs, he, b.start as int, b.size as int));
    assert(user + size <= usize::MAX);
    assert(hdr == user - HEADER);
    assert(b.start + HEADER <= user) by {
        let ub = b.start + HEADER;
        assert(user == ((ub + align - 1) / (align as int)) * align);
        assert(user >= ub) by (nonlinear_arith)
            requires
                user == ((ub + align - 1) / (align as int)) * align,
                align > 0,
        ;
    }
    assert(te >= user + size) by (nonlinear_arith)
        requires
            te == ((user + size + 7) / 8) * 8,
    ;
    assert(te % 8 == 0) by {
        vstd::arithmetic::div_mod::lemma_mod_multiples_basic((user + size + 7) / 8, 8);
    }
    lemma_leftovers_wf(hs, he, b, hdr, te);
    if has_pre {
        assert(mid[0] == Block { start: b.start, size: (hdr - b.start) as usize });
        assert(a.lo() == hdr);
    } else {
        assert(a.lo() == b.start);
    }
    if has_suf {
        assert(mid[m - 1] == Block { start: te2 as usize, size: (block_end(b) - te2) as usize });
    }
    let kk = if has_pre { i + 1 } else { i };
    assert(insert_pos(g, a.lo(), kk)) by {
        assert forall|j: int| 0 <= j < kk implies #[trigger] g[j].start < a.lo() by {
            if j < i {
                assert(block_end(f[j]) < f[i].start);
                assert(g[j] == f[j]);
            } else {
                assert(g[j] == mid[0]);
            }
        }
        if kk < g.len() {
            if kk < i + m {
            } else {
                assert(block_end(f[i]) < f[kk - m + 1].start);
            }
        }
    }
    lemma_insert_pos_unique(g, a.lo(), k, kk);
    if i + 1 < f.len() {
        assert(block_end(f[i]) < f[i + 1].start);
    }
    if i > 0 {
        assert(block_end(f[i - 1]) < f[i].start);
    }
    let r = inserted(g, a.lo(), a.size as int, k);
    assert(r =~= f);
}

/// Total size of the first `k` blocks.
pub open spec fn sum_sizes(f: Seq<Block>, k: int) -> int
    decreases k,
{
    if k <= 0 {
        0
    } else {
        sum_sizes(f, k - 1) + f[k - 1].size
    }
}

proof fn lemma_inserted_wf(hs: usize, he: usize, f: Seq<Block>, start: int, size: int, i: int)
    requires
        free_wf(hs, he, f),
        hs % HEADER_ALIGN == 0,
        in_heap_spec(hs, he, start, size),
        disjoint_from(f, start, start + size),
        insert_pos(f, start, i),
    ensures
        free_wf(hs, he, inserted(f, start, size, i)),
{
    let g = inserted(f, start, size, i);
    let merge_next = i < f.len() && start + size == f[i].start;
    let z = if merge_next { size + f[i].size } else { size };
    let rest = if merge_next { f.skip(i + 1) } else { f.skip(i) };
    let merge_prev = i > 0 && block_end(f[i - 1]) == start;
    let k = if merge_prev { i - 1 } else { i };
    let nb = if merge_prev { Block { start: f[i - 1].start, size: (f[i - 1].size + z) as usize } } else { Block { start: start as usize, size: z as usize } };
    let off = if merge_next { i + 1 } else { i };
    if i < f.len() {
        assert(in_heap_spec(hs, he, f[i].start as int, f[i].size as int));
    }
    if i > 0 {
        assert(in_heap_spec(hs, he, f[i - 1].start as int, f[i - 1].size as int));
        assert(f[i - 1].start < start);
        assert(block_end(f[i - 1]) <= start || start + size <= f[i - 1].start);
        assert(block_end(f[i - 1]) <= start);
    }
    if i < f.len() {
        assert(block_end(f[i]) <= start || start + size <= f[i].start);
        assert(start + size <= f[i].start);
    }
    assert(g.len() == k + 1 + (f.len() - off));
    assert forall|j: int| 0 <= j < g.len() implies
        #[trigger] g[j] == (if j < k { f[j] } else if j == k { nb } else { f[j - k - 1 + off] }) by {}
    assert forall|j: int| 0 <= j < g.len() implies #[trigger] in_heap_spec(hs, he, g[j].start as int, g[j].size as int) by {
        if j < k {
        } else if j == k {
        } else {
            assert(in_heap_spec(hs, he, f[j - k - 1 + off].start as int, f[j - k - 1 + off].size as int));
        }
    }
    assert forall|a: int, b: int| #![trigger g[a], g[b]] 0 <= a < b < g.len() implies block_end(g[a]) < g[b].start by {
        if b < k {
            assert(block_end(f[a]) < f[b].start);
        } else if b == k {
            if merge_prev {
                assert(block_end(f[a]) < f[i - 1].start);
            } else {
                if i > 0 {
                    if a < i - 1 {
                        assert(block_end(f[a]) < f[i - 1].start);
                    }
                }
            }
        } else {
            let fb = b - k - 1 + off;
            if a < k {
                assert(block_end(f[a]) < f[fb].start);
            } else if a == k {
                if merge_next {
                    assert(block_end(f[i]) < f[fb].start);
                } else {
                    assert(fb >= i);
                    if fb > i {
                        assert(block_end(f[i]) < f[fb].start);
                        assert(f[i].start <= block_end(f[i]));
                    }
                }
            } else {
                let fa = a - k - 1 + off;
                assert(block_end(f[fa]) < f[fb].start);
            }
        }
    }
}

/// Byte `x` lies in a free block.
pub open spec fn free_byte(f: Seq<Block>, x: int) -> bool {
    exists|i: int| 0 <= i < f.len() && #[trigger] f[i].start <= x < block_end(f[i])
}

/// A first-fit allocation takes exactly its own bytes off the free set:
/// afterwards a byte is free if and only if it was free before and is not
/// one of the allocated block's bytes, all of which were free.
#[verifier::spinoff_prover]
#[verifier::rlimit(40)]
pub proof fn lemma_alloc_takes_exactly(
    hs: usize,
    he: usize,
    f: Seq<Block>,
    size: int,
    align: usize,
    i: int,
    user: int,
    hdr: int,
    te: int,
)
    requires
        free_wf(hs, he, f),
        is_pow2(align),
        size >= 0,
        first_fit(f, size, align as int, i),
        fit(f[i], size, align as int) == (Fit::Take { user, hdr, taken_end: te }),
    ensures
        forall|x: int| allocation_of(f[i], user, hdr, te).lo() <= x < allocation_of(f[i], user, hdr, te).hi()
            ==> #[trigger] free_byte(f, x),
        forall|x: int| #[trigger] free_byte(replaced(f, i, leftovers(f[i], hdr, te)), x) <==> (free_byte(f, x)
            && !(allocation_of(f[i], user, hdr, te).lo() <= x < allocation_of(f[i], user, hdr, te).hi())),
{
    lemma_alloc_sound(hs, he, f, size, align, i);
    let b = f[i];
    let (u2, h2, t2) = match fit(b, size, align as int) {
        Fit::Take { user, hdr, taken_end } => (user, hdr, taken_end),
        _ => (0, 0, 0),
    };
    assert(u2 == user && h2 == hdr && t2 == te);
    let a = allocation_of(b, user, hdr, te);
    assert(a.lo() >= f[i].start && a.hi() <= block_end(f[i]));
    assert(disjoint_from(replaced(f, i, leftovers(b, hdr, te)), a.lo(), a.hi()));
    let mid = leftovers(b, hdr, te);
    let g = replaced(f, i, mid);
    let m = mid.len();
    let te2 = taken_end_of(b, te);
    let has_pre = hdr - b.start >= MIN_FREE;
    let has_suf = block_end(b) - te2 >= MIN_FREE;
    let pre = Block { start: b.start, size: (hdr - b.start) as usize };
    let suf = Block { start: te2 as usize, size: (block_end(b) - te2) as usize };
    assert(in_heap_spec(hs, he, b.start as int, b.size as int));
    assert forall|j: int| 0 <= j < g.len() implies
        #[trigger] g[j] == (if j < i { f[j] } else if j < i + m { mid[j - i] } else { f[j - m + 1] }) by {}
    if has_suf {
        assert(te2 == te);
    }
    assert(a.hi() == te2);
    if has_pre {
        assert(a.lo() == hdr);
    } else {
        assert(a.lo() == b.start);
    }
    if has_pre && has_suf {
        assert(mid =~= seq![pre, suf]);
    } else if has_pre {
        assert(mid =~= seq![pre]);
    } else if has_suf {
        assert(mid =~= seq![suf]);
    } else {
        assert(mid =~= Seq::<Block>::empty());
    }
    assert forall|x: int| a.lo() <= x < a.hi() implies #[trigger] free_byte(f, x) by {
        assert(f[i].start <= x < block_end(f[i]));
    }
    assert forall|x: int| #[trigger] free_byte(g, x) <==> (free_byte(f, x) && !(a.lo() <= x < a.hi())) by {
        if free_byte(g, x) {
            let j = choose|j: int| 0 <= j < g.len() && #[trigger] g[j].start <= x < block_end(g[j]);
            if j < i {
                assert(f[j].start <= x < block_end(f[j]));
                assert(block_end(f[j]) < f[i].start);
            } else if j < i + m {
                assert(f[i].start <= x < block_end(f[i]));
            } else {
                let fj = j - m + 1;
                assert(f[fj].start <= x < block_end(f[fj]));
                assert(block_end(f[i]) < f[fj].start);
            }
        }
        if free_byte(f, x) && !(a.lo() <= x < a.hi()) {
            let j = choose|j: int| 0 <= j < f.len() && #[trigger] f[j].start <= x < block_end(f[j]);
            if j < i {
                assert(g[j] == f[j]);
                assert(g[j].start <= x < block_end(g[j]));
            } else if j > i {
                assert(g[j + m - 1] == f[j]);
                assert(g[j + m - 1].start <= x < block_end(g[j + m - 1]));
            } else if x < a.lo() {
                assert(has_pre);
                assert(g[i] == pre);
                assert(g[i].start <= x < block_end(g[i]));
            } else {
                assert(x >= te2);
                assert(has_suf);
                assert(g[i + m - 1] == suf);
                assert(g[i + m - 1].start <= x < block_end(g[i + m - 1]));
            }
        }
    }
}

/// Freeing a block puts exactly its bytes back: afterwards a byte is free
/// if and only if it was free before or belongs to the freed block.
#[verifier::spinoff_prover]
#[verifier::rlimit(40)]
pub proof fn lemma_free_adds_exactly(hs: usize, he: usize, f: Seq<Block>, start: int, size: int, i: int)
    requires
        free_wf(hs, he, f),
        in_heap_spec(hs, he, start, size),
        disjoint_from(f, start, start + size),
        insert_pos(f, start, i),
    ensures
        forall|x: int| #[trigger] free_byte(inserted(f, start, size, i), x) <==> (free_byte(f, x) || start <= x < start + size),
{
    let g = inserted(f, start, size, i);
    let merge_next = i < f.len() && start + size == f[i].start;
    let z = if merge_next { size + f[i].size } else { size };
    let merge_prev = i > 0 && block_end(f[i - 1]) == start;
    let k = if merge_prev { i - 1 } else { i };
    let nb = if merge_prev { Block { start: f[i - 1].start, size: (f[i - 1].size + z) as usize } } else { Block { start: start as usize, size: z as usize } };
    let off = if merge_next { i + 1 } else { i };
    if i < f.len() {
        assert(in_heap_spec(hs, he, f[i].start as int, f[i].size as int));
    }
    if i > 0 {
        assert(in_heap_spec(hs, he, f[i - 1].start as int, f[i - 1].size as int));
    }
    assert(g.len() == k + 1 + (f.len() - off));
    assert forall|j: int| 0 <= j < g.len() implies
        #[trigger] g[j] == (if j < k { f[j] } else if j == k { nb } else { f[j - k - 1 + off] }) by {}
    assert(nb.start == (if merge_prev { f[i - 1].start as int } else { start }));
    assert(block_end(nb) == start + z);
    assert forall|x: int| #[trigger] free_byte(g, x) implies (free_byte(f, x) || start <= x < start + size) by {
        let j = choose|j: int| 0 <= j < g.len() && #[trigger] g[j].start <= x < block_end(g[j]);
        if j < k {
            assert(f[j].start <= x < block_end(f[j]));
        } else if j == k {
            if merge_prev && x < start {
                assert(f[i - 1].start <= x < block_end(f[i - 1]));
            } else if merge_next && x >= start + size {
                assert(f[i].start <= x < block_end(f[i]));
            }
        } else {
            let fj = j - k - 1 + off;
            assert(f[fj].start <= x < block_end(f[fj]));
        }
    }
    assert forall|x: int| start <= x < start + size implies #[trigger] free_byte(g, x) by {
        assert(g[k].start <= x < block_end(g[k]));
    }
    assert forall|x: int| #[trigger] free_byte(f, x) implies free_byte(g, x) by {
        let j = choose|j: int| 0 <= j < f.len() && #[trigger] f[j].start <= x < block_end(f[j]);
        if j < k {
            assert(g[j] == f[j]);
            assert(g[j].start <= x < block_end(g[j]));
        } else if merge_prev && j == i - 1 {
            assert(g[k].start <= x < block_end(g[k]));
        } else if merge_next && j == i {
            assert(g[k].start <= x < block_end(g[k]));
        } else {
            assert(j >= off) by {
                if j < off {
                    assert(j == i - 1 || j == i);
                    if j == i - 1 {
                        assert(block_end(f[i - 1]) <= start || start + size <= f[i - 1].start);
                    }
                }
            }
            let gj = j - off + k + 1;
            assert(g[gj] == f[j]);
            assert(g[gj].start <= x < block_end(g[gj]));
        }
    }
}

/// A well-formed free list with every byte of the heap free is the whole
/// heap as one block.
pub proof fn lemma_all_free_is_one_block(hs: usize, he: usize, f: Seq<Block>)
    requires
        free_wf(hs, he, f),
        hs < he,
        forall|x: int| hs <= x < he ==> #[trigger] free_byte(f, x),
    ensures
        f == seq![Block { start: hs, size: (he - hs) as usize }],
{
    assert(free_byte(f, hs as int));
    let j0 = choose|j: int| 0 <= j < f.len() && #[trigger] f[j].start <= hs < block_end(f[j]);
    assert(in_heap_spec(hs, he, f[j0].start as int, f[j0].size as int));
    if j0 > 0 {
        assert(in_heap_spec(hs, he, f[0].start as int, f[0].size as int));
        assert(block_end(f[0]) < f[j0].start);
    }
    assert(j0 == 0);
    assert(f[0].start == hs);
    if block_end(f[0]) < he {
        let x = block_end(f[0]);
        assert(free_byte(f, x));
        let j = choose|j: int| 0 <= j < f.len() && #[trigger] f[j].start <= x < block_end(f[j]);
        assert(j != 0);
        assert(block_end(f[0]) < f[j].start);
    }
    assert(block_end(f[0]) == he);
    if f.len() > 1 {
        assert(block_end(f[0]) < f[1].start);
        assert(in_heap_spec(hs, he, f[1].start as int, f[1].size as int));
    }
    assert(f =~= seq![Block { start: hs, size: (he - hs) as usize }]);
}

/// A live allocation's header fields describe a block of the heap that
/// `dealloc_raw` accepts back.
pub open spec fn live_ok(hs: usize, he: usize, a: Allocation) -> bool {
    &&& a.user == a.hdr + HEADER
    &&& a.hdr % HEADER_ALIGN == 0
    &&& a.hdr >= a.pad
    &&& in_heap_spec(hs, he, a.lo(), a.size as int)
}

/// Byte `x` belongs to allocation `a`.
pub open spec fn in_alloc(a: Allocation, x: int) -> bool {
    a.lo() <= x < a.hi()
}

/// Every byte of the heap is free or in exactly one live allocation, and
/// never both.
pub open spec fn partitioned(hs: usize, he: usize, f: Seq<Block>, live: Seq<Allocation>) -> bool {
    &&& hs % HEADER_ALIGN == 0
    &&& free_wf(hs, he, f)
    &&& forall|k: int| 0 <= k < live.len() ==> live_ok(hs, he, #[trigger] live[k])
    &&& forall|x: int| hs <= x < he ==> #[trigger] free_byte(f, x) || exists|k: int| 0 <= k < live.len() && in_alloc(#[trigger] live[k], x)
    &&& forall|x: int, k: int| 0 <= k < live.len() && #[trigger] in_alloc(live[k], x) ==> !free_byte(f, x)
    &&& forall|x: int, k1: int, k2: int| 0 <= k1 < k2 < live.len() && #[trigger] in_alloc(live[k1], x) ==> !#[trigger] in_alloc(live[k2], x)
}

/// A freshly initialised heap: one free block, nothing live.
pub proof fn lemma_init_partitioned(hs: usize, he: usize)
    requires
        hs % HEADER_ALIGN == 0,
        hs < he,
        he - hs >= MIN_FREE,
    ensures
        partitioned(hs, he, seq![Block { start: hs, size: (he - hs) as usize }], Seq::empty()),
{
    let f = seq![Block { start: hs, size: (he - hs) as usize }];
    assert(in_heap_spec(hs, he, f[0].start as int, f[0].size as int));
    assert forall|x: int| hs <= x < he implies #[trigger] free_byte(f, x) by {
        assert(f[0].start <= x < block_end(f[0]));
    }
}

/// Allocating first fit from a partitioned heap leaves it partitioned
/// with the new allocation live.
#[verifier::spinoff_prover]
pub proof fn lemma_alloc_partitioned(hs: usize, he: usize, f: Seq<Block>, live: Seq<Allocation>, size: int, align: usize, i: int)
    requires
        partitioned(hs, he, f, live),
        is_pow2(align),
        size >= 0,
        first_fit(f, size, align as int, i),
        fit(f[i], size, align as int) is Take,
    ensures
        ({
            let (user, hdr, te) = match fit(f[i], size, align as int) {
                Fit::Take { user, hdr, taken_end } => (user, hdr, taken_end),
                _ => (0, 0, 0),
            };
            partitioned(hs, he, replaced(f, i, leftovers(f[i], hdr, te)), live.push(allocation_of(f[i], user, hdr, te)))
        }),
{
    lemma_alloc_sound(hs, he, f, size, align, i);
    let (user, hdr, te) = match fit(f[i], size, align as int) {
        Fit::Take { user, hdr, taken_end } => (user, hdr, taken_end),
        _ => (0, 0, 0),
    };
    assert(fit(f[i], size, align as int) == (Fit::Take { user, hdr, taken_end: te }));
    lemma_alloc_takes_exactly(hs, he, f, size, align, i, user, hdr, te);
    let a = allocation_of(f[i], user, hdr, te);
    let g = replaced(f, i, leftovers(f[i], hdr, te));
    let l2 = live.push(a);
    let n = live.len();
    assert(l2[n as int] == a);
    assert forall|k: int| 0 <= k < l2.len() implies live_ok(hs, he, #[trigger] l2[k]) by {
        if k < n {
            assert(l2[k] == live[k]);
        }
    }
    assert forall|x: int| hs <= x < he implies #[trigger] free_byte(g, x) || exists|k: int| 0 <= k < l2.len() && in_alloc(#[trigger] l2[k], x) by {
        if free_byte(f, x) {
            if in_alloc(a, x) {
                assert(in_alloc(l2[n as int], x));
            } else {
                assert(free_byte(g, x) <==> (free_byte(f, x) && !(a.lo() <= x < a.hi())));
            }
        } else {
            let k = choose|k: int| 0 <= k < live.len() && in_alloc(#[trigger] live[k], x);
            assert(l2[k] == live[k]);
            assert(in_alloc(l2[k], x));
        }
    }
    assert forall|x: int, k: int| 0 <= k < l2.len() && #[trigger] in_alloc(l2[k], x) implies !free_byte(g, x) by {
        if k < n {
            assert(l2[k] == live[k]);
            assert(!free_byte(f, x));
        }
    }
    assert forall|x: int, k1: int, k2: int| 0 <= k1 < k2 < l2.len() && #[trigger] in_alloc(l2[k1], x) implies !#[trigger] in_alloc(l2[k2], x) by {
        assert(l2[k1] == live[k1]);
        if k2 < n {
            assert(l2[k2] == live[k2]);
        } else if in_alloc(l2[k2], x) {
            assert(free_byte(f, x));
            assert(!free_byte(f, x));
        }
    }
}

/// Freeing live allocation `k` (by its header fields, where it belongs in
/// the free list) leaves the heap partitioned without it.
#[verifier::spinoff_prover]
pub proof fn lemma_free_partitioned(hs: usize, he: usize, f: Seq<Block>, live: Seq<Allocation>, k: int, i: int)
    requires
        partitioned(hs, he, f, live),
        0 <= k < live.len(),
        insert_pos(f, live[k].lo(), i),
    ensures
        disjoint_from(f, live[k].lo(), live[k].hi()),
        partitioned(hs, he, inserted(f, live[k].lo(), live[k].size as int, i), live.remove(k)),
{
    let a = live[k];
    assert(live_ok(hs, he, a));
    assert forall|j: int| 0 <= j < f.len() implies #[trigger] block_end(f[j]) <= a.lo() || a.hi() <= f[j].start by {
        if !(block_end(f[j]) <= a.lo() || a.hi() <= f[j].start) {
            assert(in_heap_spec(hs, he, f[j].start as int, f[j].size as int));
            let x = if f[j].start < a.lo() { a.lo() } else { f[j].start as int };
            assert(in_alloc(a, x));
            assert(f[j].start <= x < block_end(f[j]));
            assert(free_byte(f, x));
        }
    }
    lemma_inserted_wf(hs, he, f, a.lo(), a.size as int, i);
    lemma_free_adds_exactly(hs, he, f, a.lo(), a.size as int, i);
    let g = inserted(f, a.lo(), a.size as int, i);
    let l2 = live.remove(k);
    assert forall|m: int| 0 <= m < l2.len() implies #[trigger] l2[m] == (if m < k { live[m] } else { live[m + 1] }) by {}
    assert forall|m: int| 0 <= m < l2.len() implies live_ok(hs, he, #[trigger] l2[m]) by {
        if m < k {
            assert(live_ok(hs, he, live[m]));
        } else {
            assert(live_ok(hs, he, live[m + 1]));
        }
    }
    assert forall|x: int| hs <= x < he implies #[trigger] free_byte(g, x) || exists|m: int| 0 <= m < l2.len() && in_alloc(#[trigger] l2[m], x) by {
        if !free_byte(f, x) && !in_alloc(a, x) {
            let m = choose|m: int| 0 <= m < live.len() && in_alloc(#[trigger] live[m], x);
            assert(m != k);
            if m < k {
                assert(l2[m] == live[m]);
                assert(in_alloc(l2[m], x));
            } else {
                assert(l2[m - 1] == live[m]);
                assert(in_alloc(l2[m - 1], x));
            }
        }
    }
    assert forall|x: int, m: int| 0 <= m < l2.len() && #[trigger] in_alloc(l2[m], x) implies !free_byte(g, x) by {
        let mm = if m < k { m } else { m + 1 };
        assert(l2[m] == live[mm]);
        assert(in_alloc(live[mm], x));
        assert(!free_byte(f, x));
        if in_alloc(a, x) {
            if mm < k {
                assert(!in_alloc(live[k], x));
            } else {
                assert(!in_alloc(live[mm], x));
            }
        }
    }
    assert forall|x: int, k1: int, k2: int| 0 <= k1 < k2 < l2.len() && #[trigger] in_alloc(l2[k1], x) implies !#[trigger] in_alloc(l2[k2], x) by {
        let m1 = if k1 < k { k1 } else { k1 + 1 };
        let m2 = if k2 < k { k2 } else { k2 + 1 };
        assert(l2[k1] == live[m1]);
        assert(l2[k2] == live[m2]);
        assert(in_alloc(live[m1], x));
        assert(m1 < m2);
    }
}

/// Once every allocation has been freed, the heap is one free block again.
pub proof fn lemma_nothing_live_is_one_block(hs: usize, he: usize, f: Seq<Block>)
    requires
        partitioned(hs, he, f, Seq::empty()),
        hs < he,
    ensures
        f == seq![Block { start: hs, size: (he - hs) as usize }],
{
    assert forall|x: int| hs <= x < he implies #[trigger] free_byte(f, x) by {
        if !free_byte(f, x) {
            let k = choose|k: int| 0 <= k < Seq::<Allocation>::empty().len() && in_alloc(#[trigger] Seq::<Allocation>::empty()[k], x);
        }
    }
    lemma_all_free_is_one_block(hs, he, f);
}

/// Free bytes on the list.
pub open spec fn free_total(f: Seq<Block>) -> int {
    sum_sizes(f, f.len() as int)
}

proof fn lemma_sum_sizes_prefix(a: Seq<Block>, b: Seq<Block>, j: int)
    requires
        0 <= j <= a.len(),
    ensures
        sum_sizes(a + b, j) == sum_sizes(a, j),
    decreases j,
{
    if j > 0 {
        lemma_sum_sizes_prefix(a, b, j - 1);
        assert((a + b)[j - 1] == a[j - 1]);
    }
}

proof fn lemma_sum_sizes_concat_upto(a: Seq<Block>, b: Seq<Block>, k: int)
    requires
        0 <= k <= b.len(),
    ensures
        sum_sizes(a + b, a.len() + k) == free_total(a) + sum_sizes(b, k),
    decreases k,
{
    if k == 0 {
        lemma_sum_sizes_prefix(a, b, a.len() as int);
    } else {
        lemma_sum_sizes_concat_upto(a, b, k - 1);
        assert((a + b)[a.len() + k - 1] == b[k - 1]);
    }
}

/// The free total of two lists joined is the sum of their totals.
proof fn lemma_free_total_concat(a: Seq<Block>, b: Seq<Block>)
    ensures
        free_total(a + b) == free_total(a) + free_total(b),
{
    lemma_sum_sizes_concat_upto(a, b, b.len() as int);
}

/// Replacing block `i` by `mid` trades its size for `mid`'s total.
proof fn lemma_replaced_total(f: Seq<Block>, i: int, mid: Seq<Block>)
    requires
        0 <= i < f.len(),
    ensures
        free_total(replaced(f, i, mid)) == free_total(f) - f[i].size + free_total(mid),
{
    let pre = f.take(i);
    let post = f.skip(i + 1);
    let one = seq![f[i]];
    assert(f =~= pre + one + post);
    lemma_free_total_concat(pre + one, post);
    lemma_free_total_concat(pre, one);
    lemma_free_total_concat(pre + mid, post);
    lemma_free_total_concat(pre, mid);
    reveal_with_fuel(sum_sizes, 2);
}

/// What is left free of a block plus what is handed out is the block.
proof fn lemma_leftovers_total(b: Block, user: int, hdr: int, te: int)
    requires
        b.start <= hdr,
        hdr <= te <= block_end(b),
    ensures
        free_total(leftovers(b, hdr, te)) + allocation_of(b, user, hdr, te).size == b.size,
{
    let te2 = taken_end_of(b, te);
    let has_pre = hdr - b.start >= MIN_FREE;
    let has_suf = block_end(b) - te2 >= MIN_FREE;
    let pre = Block { start: b.start, size: (hdr - b.start) as usize };
    let suf = Block { start: te2 as usize, size: (block_end(b) - te2) as usize };
    let mid = leftovers(b, hdr, te);
    reveal_with_fuel(sum_sizes, 3);
    if !has_suf {
        assert(te2 == block_end(b));
    }
    if has_pre && has_suf {
        assert(mid =~= seq![pre, suf]);
    } else if has_pre {
        assert(mid =~= seq![pre]);
    } else if has_suf {
        assert(mid =~= seq![suf]);
    } else {
        assert(mid =~= Seq::<Block>::empty());
    }
}

/// One operation on the heap: allocate `size` bytes aligned to `align`, or
/// free the `k`-th live allocation.
pub enum HeapOp {
    Alloc { size: usize, align: usize },
    Free { k: int },
}

/// The free list and live allocations after `op`. An allocation takes
/// first fit, as `try_alloc` does, and changes nothing when nothing fits
/// or the alignment is not a power of two; a free puts the block back
/// where it belongs, as `dealloc_raw` does, and changes nothing when there
/// is no live allocation `k`.
pub open spec fn heap_step(f: Seq<Block>, live: Seq<Allocation>, op: HeapOp) -> (Seq<Block>, Seq<Allocation>) {
    match op {
        HeapOp::Alloc { size, align } => {
            if is_pow2(align) && exists|i: int| #[trigger] first_fit(f, size as int, align as int, i)
                && fit(f[i], size as int, align as int) is Take {
                let i = choose|i: int| #[trigger] first_fit(f, size as int, align as int, i)
                    && fit(f[i], size as int, align as int) is Take;
                match fit(f[i], size as int, align as int) {
                    Fit::Take { user, hdr, taken_end } => (
                        replaced(f, i, leftovers(f[i], hdr, taken_end)),
                        live.push(allocation_of(f[i], user, hdr, taken_end)),
                    ),
                    _ => (f, live),
                }
            } else {
                (f, live)
            }
        },
        HeapOp::Free { k } => {
            if 0 <= k < live.len() && exists|i: int| #[trigger] insert_pos(f, live[k].lo(), i) {
                let i = choose|i: int| #[trigger] insert_pos(f, live[k].lo(), i);
                (inserted(f, live[k].lo(), live[k].size as int, i), live.remove(k))
            } else {
                (f, live)
            }
        },
    }
}

/// The heap after the operations `ops`, in order.
pub open spec fn heap_run(f: Seq<Block>, live: Seq<Allocation>, ops: Seq<HeapOp>) -> (Seq<Block>, Seq<Allocation>)
    decreases ops.len(),
{
    if ops.len() == 0 {
        (f, live)
    } else {
        let (f1, l1) = heap_step(f, live, ops[0]);
        heap_run(f1, l1, ops.drop_first())
    }
}

/// Every operation keeps the heap partitioned.
proof fn lemma_run_partitioned(hs: usize, he: usize, f: Seq<Block>, live: Seq<Allocation>, ops: Seq<HeapOp>)
    requires
        partitioned(hs, he, f, live),
    ensures
        partitioned(hs, he, heap_run(f, live, ops).0, heap_run(f, live, ops).1),
    decreases ops.len(),
{
    if ops.len() > 0 {
        let (f1, l1) = heap_step(f, live, ops[0]);
        match ops[0] {
            HeapOp::Alloc { size, align } => {
                if is_pow2(align) && exists|i: int| #[trigger] first_fit(f, size as int, align as int, i)
                    && fit(f[i], size as int, align as int) is Take {
                    let i = choose|i: int| #[trigger] first_fit(f, size as int, align as int, i)
                        && fit(f[i], size as int, align as int) is Take;
                    lemma_alloc_partitioned(hs, he, f, live, size as int, align, i);
                }
            },
            HeapOp::Free { k } => {
                if 0 <= k < live.len() && exists|i: int| #[trigger] insert_pos(f, live[k].lo(), i) {
                    let i = choose|i: int| #[trigger] insert_pos(f, live[k].lo(), i);
                    lemma_free_partitioned(hs, he, f, live, k, i);
                }
            },
        }
        lemma_run_partitioned(hs, he, f1, l1, ops.drop_first());
    }
}

/// From a freshly initialised heap, any interleaving of allocations and
/// frees keeps every byte either free or in exactly one live allocation;
/// once nothing is live, the heap is one free block again.
pub proof fn lemma_any_interleaving_restores(hs: usize, he: usize, ops: Seq<HeapOp>)
    requires
        hs % HEADER_ALIGN == 0,
        hs < he,
        he - hs >= MIN_FREE,
    ensures
        ({
            let whole = seq![Block { start: hs, size: (he - hs) as usize }];
            let (f, live) = heap_run(whole, Seq::empty(), ops);
            &&& partitioned(hs, he, f, live)
            &&& live.len() == 0 ==> f == whole
        }),
{
    let whole = seq![Block { start: hs, size: (he - hs) as usize }];
    lemma_init_partitioned(hs, he);
    lemma_run_partitioned(hs, he, whole, Seq::empty(), ops);
    let (f, live) = heap_run(whole, Seq::empty(), ops);
    if live.len() == 0 {
        assert(live =~= Seq::<Allocation>::empty());
        lemma_nothing_live_is_one_block(hs, he, f);
    }
}

} // verus!
