//! Split virtqueues (virtio 1.2 §2.7): descriptor contents, ring index
//! arithmetic, and the guest-side checks made before the device owns a
//! ring.
//!
//! Sixteen descriptors per queue; sixteen 2 KiB receive buffers, eight
//! transmit buffers. A receive descriptor is device-writable (flag 2, not
//! 1, which would mark a chain). Ring slots are `idx % QSIZE`; indices
//! wrap at 2^16. The rings themselves are DMA memory held outside the
//! library.

use vstd::prelude::*;

verus! {

/// Descriptors per queue.
pub const QSIZE: usize = 16;
/// Receive buffers: one per receive descriptor.
pub const RX_BUFS: usize = 16;
/// Transmit buffers.
pub const TX_BUFS: usize = 8;
/// Bytes per buffer: a 12-byte virtio-net header plus an MTU frame.
pub const BUF: usize = 2048;
/// virtio-net receiveq.
pub const Q_RX: u32 = 0;
/// virtio-net transmitq.
pub const Q_TX: u32 = 1;
/// `VIRTQ_DESC_F_WRITE`: the device writes this buffer.
pub const DESC_WRITE: u16 = 2;

/// Descriptor table entry.
#[derive(Clone, Copy, Debug, PartialEq, Eq, Structural)]
pub struct Desc {
    pub addr: u64,
    pub len: u32,
    pub flags: u16,
    pub next: u16,
}

/// The descriptor for receive buffer `i` of a pool whose receive buffers
/// start at `rx_base`: device-writable, full length, no chain.
pub fn rx_desc(rx_base: u64, i: usize) -> (d: Desc)
    requires
        i < RX_BUFS,
        rx_base + RX_BUFS * BUF <= u64::MAX,
    ensures
        d == (Desc { addr: (rx_base + i * BUF) as u64, len: BUF as u32, flags: DESC_WRITE, next: 0 }),
{
    assert(i * BUF <= RX_BUFS * BUF) by (nonlinear_arith)
        requires
            i < RX_BUFS,
    ;
    Desc { addr: rx_base + (i as u64) * (BUF as u64), len: BUF as u32, flags: DESC_WRITE, next: 0 }
}

/// The descriptor for transmit buffer `i`: device-read, full length.
pub fn tx_desc(tx_base: u64, i: usize) -> (d: Desc)
    requires
        i < TX_BUFS,
        tx_base + TX_BUFS * BUF <= u64::MAX,
    ensures
        d == (Desc { addr: (tx_base + i * BUF) as u64, len: BUF as u32, flags: 0, next: 0 }),
{
    assert(i * BUF <= TX_BUFS * BUF) by (nonlinear_arith)
        requires
            i < TX_BUFS,
    ;
    Desc { addr: tx_base + (i as u64) * (BUF as u64), len: BUF as u32, flags: 0, next: 0 }
}

/// Both descriptor tables of a fresh pool: every receive descriptor points
/// at its buffer; the first `TX_BUFS` transmit descriptors at theirs, the
/// rest stay empty.
pub fn fill_descriptors(rx_base: u64, tx_base: u64) -> (r: (Vec<Desc>, Vec<Desc>))
    requires
        rx_base + RX_BUFS * BUF <= u64::MAX,
        tx_base + TX_BUFS * BUF <= u64::MAX,
    ensures
        r.0@.len() == QSIZE,
        r.1@.len() == QSIZE,
        forall|i: int| 0 <= i < QSIZE ==> #[trigger] r.0@[i] == (Desc { addr: (rx_base + i * BUF) as u64, len: BUF as u32, flags: DESC_WRITE, next: 0 }),
        forall|i: int| 0 <= i < TX_BUFS ==> #[trigger] r.1@[i] == (Desc { addr: (tx_base + i * BUF) as u64, len: BUF as u32, flags: 0, next: 0 }),
        forall|i: int| TX_BUFS <= i < QSIZE ==> #[trigger] r.1@[i] == (Desc { addr: 0, len: 0, flags: 0, next: 0 }),
{
    let mut rx: Vec<Desc> = Vec::new();
    let mut tx: Vec<Desc> = Vec::new();
    let mut i: usize = 0;
    while i < QSIZE
        invariant
            i <= QSIZE,
            rx_base + RX_BUFS * BUF <= u64::MAX,
            tx_base + TX_BUFS * BUF <= u64::MAX,
            rx@.len() == i,
            tx@.len() == i,
            forall|k: int| 0 <= k < i ==> #[trigger] rx@[k] == (Desc { addr: (rx_base + k * BUF) as u64, len: BUF as u32, flags: DESC_WRITE, next: 0 }),
            forall|k: int| 0 <= k < i && k < TX_BUFS ==> #[trigger] tx@[k] == (Desc { addr: (tx_base + k * BUF) as u64, len: BUF as u32, flags: 0, next: 0 }),
            forall|k: int| TX_BUFS <= k < i ==> #[trigger] tx@[k] == (Desc { addr: 0, len: 0, flags: 0, next: 0 }),
        decreases QSIZE - i,
    {
        rx.push(rx_desc(rx_base, i));
        if i < TX_BUFS {
            tx.push(tx_desc(tx_base, i));
        } else {
            tx.push(Desc { addr: 0, len: 0, flags: 0, next: 0 });
        }
        i = i + 1;
    }
    (rx, tx)
}

/// The ring slot that avail or used index `idx` names.
pub fn ring_slot(idx: u16) -> (s: usize)
    ensures
        s == idx % (QSIZE as u16),
        s < QSIZE,
{
    (idx as usize) % QSIZE
}

pub open spec fn wrap16(i: u16) -> u16 {
    if i == 0xffff {
        0
    } else {
        (i + 1) as u16
    }
}

/// Posting descriptor `desc_i` at avail index `idx`: the ring slot it goes
/// in and the index to publish afterwards.
pub fn post(idx: u16) -> (r: (usize, u16))
    ensures
        r.0 == idx % (QSIZE as u16),
        r.1 == wrap16(idx),
{
    (ring_slot(idx), idx.wrapping_add(1))
}

/// If the device's used index has moved past `seen`, the used-ring slot
/// to read and the new `seen`.
pub fn take_used(used: u16, seen: u16) -> (r: Option<(usize, u16)>)
    ensures
        used == seen ==> r is None,
        used != seen ==> r == Some(((seen % (QSIZE as u16)) as usize, wrap16(seen))),
{
    if used == seen {
        return None;
    }
    Some((ring_slot(seen), seen.wrapping_add(1)))
}

/// `[addr, addr + len)` lies inside the pool `[lo, hi)` without wrapping.
pub fn in_pool(addr: u64, len: u32, lo: u64, hi: u64) -> (r: bool)
    ensures
        r == (addr + len <= u64::MAX && lo <= addr && addr + len <= hi),
{
    match addr.checked_add(len as u64) {
        Some(end) => addr >= lo && end <= hi,
        None => false,
    }
}

/// The low and high halves of a 64-bit guest address, written in that
/// order to the queue address registers.
pub fn split_addr(gpa: u64) -> (r: (u32, u32))
    ensures
        r.0 == gpa % 0x1_0000_0000,
        r.1 == gpa / 0x1_0000_0000,
{
    ((gpa % 0x1_0000_0000) as u32, (gpa / 0x1_0000_0000) as u32)
}

/// What a queue-address register read back.
#[derive(Clone, Copy, Debug, PartialEq, Eq, Structural)]
pub enum HalfCheck {
    /// The value written.
    Match,
    /// Zero: the register is write-only on this transport; not a match.
    WriteOnly,
    /// Another value: wrong offset or halves swapped.
    Mismatch,
}

pub fn check_half(want: u32, got: u32) -> (r: HalfCheck)
    ensures
        got == want ==> r == HalfCheck::Match,
        got != want && got == 0 ==> r == HalfCheck::WriteOnly,
        got != want && got != 0 ==> r == HalfCheck::Mismatch,
{
    if got == want {
        HalfCheck::Match
    } else if got == 0 {
        HalfCheck::WriteOnly
    } else {
        HalfCheck::Mismatch
    }
}

/// What is wrong with a descriptor table.
#[derive(Clone, Copy, Debug, PartialEq, Eq, Structural)]
pub enum DescError {
    /// Descriptor `i` should point into the pool and does not.
    OutsidePool { i: usize },
    /// Descriptor `i` is unused but has an address.
    UnusedNonzero { i: usize },
}

pub open spec fn desc_ok(d: Desc, i: int, filled: int, lo: u64, hi: u64) -> bool {
    if i < filled {
        d.addr != 0 && d.addr + d.len <= u64::MAX && lo <= d.addr && d.addr + d.len <= hi
    } else {
        d.addr == 0
    }
}

/// The first `filled` descriptors point inside the pool `[lo, hi)`, the
/// rest are empty.
pub fn check_descs(descs: &[Desc], filled: usize, lo: u64, hi: u64) -> (r: Result<(), DescError>)
    ensures
        r is Ok <==> forall|i: int| 0 <= i < descs@.len() ==> desc_ok(#[trigger] descs@[i], i, filled as int, lo, hi),
        r matches Err(DescError::OutsidePool { i }) ==> i < filled && i < descs@.len() && !desc_ok(descs@[i as int], i as int, filled as int, lo, hi)
            && forall|k: int| 0 <= k < i ==> desc_ok(#[trigger] descs@[k], k, filled as int, lo, hi),
        r matches Err(DescError::UnusedNonzero { i }) ==> i >= filled && i < descs@.len() && !desc_ok(descs@[i as int], i as int, filled as int, lo, hi)
            && forall|k: int| 0 <= k < i ==> desc_ok(#[trigger] descs@[k], k, filled as int, lo, hi),
{
    let mut i: usize = 0;
    while i < descs.len()
        invariant
            i <= descs@.len(),
            forall|k: int| 0 <= k < i ==> desc_ok(#[trigger] descs@[k], k, filled as int, lo, hi),
        decreases descs@.len() - i,
    {
        let d = descs[i];
        if i < filled {
            if d.addr == 0 || !in_pool(d.addr, d.len, lo, hi) {
                return Err(DescError::OutsidePool { i });
            }
        } else if d.addr != 0 {
            return Err(DescError::UnusedNonzero { i });
        }
        i = i + 1;
    }
    Ok(())
}

/// `addr` is a multiple of `align`.
pub fn require_align(addr: usize, align: usize) -> (r: bool)
    requires
        align > 0,
    ensures
        r == (addr % align == 0),
{
    addr % align == 0
}

/// The device supports at least `n` descriptors.
pub fn queue_num_ok(max: u32, n: u32) -> (r: bool)
    ensures
        r == (max >= n),
{
    max >= n
}

} // verus!
