//! Sv39 page tables: the PTE encoding, the kernel map builder, and a
//! software walker.
//!
//! Tables are 4 KiB frames from the frame allocator, held here as
//! `(physical address, level, 512 PTEs)`. `map` identity-maps one 4 KiB
//! page, creating missing intermediate tables; it never remaps a page and
//! never meets a superpage. The walker decodes raw PTEs by bit position
//! (privileged spec 20211203 §4.3.1, §4.4.1). Writing `satp` and fencing
//! are hardware work outside the library.

use vstd::prelude::*;
use crate::csr::{SATP_MODE_SHIFT, SATP_MODE_SV39, SATP_PPN_MASK};
use crate::frame::{lemma_alloc_fresh, FrameAllocator, RAM_END, RAM_START};

verus! {

/// PTEs in a 4 KiB table.
pub const PTES: usize = 512;
/// VPN bits per level.
pub const VPN_BITS: usize = 9;
/// Page offset bits.
pub const OFF_BITS: usize = 12;
/// Level of the root table.
pub const ROOT_LEVEL: usize = 2;
pub const PAGE_SIZE: usize = 4096;

pub const FLAG_V: u64 = 0x1;
pub const FLAG_R: u64 = 0x2;
pub const FLAG_W: u64 = 0x4;
pub const FLAG_X: u64 = 0x8;
pub const FLAG_U: u64 = 0x10;
pub const FLAG_G: u64 = 0x20;
pub const FLAG_A: u64 = 0x40;
pub const FLAG_D: u64 = 0x80;

/// Leaf flags: A and D set, U and G clear.
pub const LEAF_RX: u64 = 0xcb;
pub const LEAF_R: u64 = 0xc3;
pub const LEAF_RW: u64 = 0xc7;
/// Non-leaf: V only.
pub const NONLEAF: u64 = FLAG_V;

/// 44-bit PPN mask.
pub const PPN_MASK: u64 = 0xfff_ffff_ffff;

/// The `satp` value for Sv39 with root table at `root`: MODE 8 in bits
/// 63:60, the root's PPN in bits 43:0.
pub open spec fn satp_spec(root: u64) -> u64 {
    (SATP_MODE_SV39 << SATP_MODE_SHIFT) | ((root >> 12u64) & SATP_PPN_MASK)
}

/// `satp` value for the root table at `root`. Not written here.
pub fn satp_value(root: u64) -> (r: u64)
    ensures
        r == satp_spec(root),
        r >> 60u64 == SATP_MODE_SV39,
        r & SATP_PPN_MASK == (root >> 12u64) & SATP_PPN_MASK,
{
    let r: u64 = (SATP_MODE_SV39 << SATP_MODE_SHIFT) | ((root >> 12u64) & SATP_PPN_MASK);
    let rr = root;
    assert(((8u64 << 60u64) | ((rr >> 12u64) & 0xfff_ffff_ffffu64)) >> 60u64 == 8u64) by (bit_vector);
    assert(((8u64 << 60u64) | ((rr >> 12u64) & 0xfff_ffff_ffffu64)) & 0xfff_ffff_ffffu64 == (rr >> 12u64) & 0xfff_ffff_ffffu64) by (bit_vector);
    r
}

/// The VPN field of `va` for `level`.
pub open spec fn vpn_spec(va: u64, level: int) -> u64 {
    if level == 2 {
        (va >> 30u64) & 0x1ff
    } else if level == 1 {
        (va >> 21u64) & 0x1ff
    } else {
        (va >> 12u64) & 0x1ff
    }
}

pub fn vpn(va: u64, level: usize) -> (r: usize)
    requires
        level <= ROOT_LEVEL,
    ensures
        r == vpn_spec(va, level as int),
        r < PTES,
{
    let v: u64 = if level == 2 {
        (va >> 30u64) & 0x1ff
    } else if level == 1 {
        (va >> 21u64) & 0x1ff
    } else {
        (va >> 12u64) & 0x1ff
    };
    assert((va >> 30u64) & 0x1ff < 512) by (bit_vector);
    assert((va >> 21u64) & 0x1ff < 512) by (bit_vector);
    assert((va >> 12u64) & 0x1ff < 512) by (bit_vector);
    v as usize
}

/// A PTE pointing at physical page `pa` with `flags`.
pub open spec fn encode_spec(pa: u64, flags: u64) -> u64 {
    ((pa >> 12u64) << 10u64) | flags
}

pub fn encode_leaf(pa: u64, flags: u64) -> (r: u64)
    ensures
        r == encode_spec(pa, flags),
{
    ((pa >> 12u64) << 10u64) | flags
}

/// Bit `bit` of a PTE.
pub open spec fn bit_spec(raw: u64, bit: u32) -> bool {
    (raw >> bit) & 1 != 0
}

pub fn pte_bit(raw: u64, bit: u32) -> (r: bool)
    requires
        bit < 64,
    ensures
        r == bit_spec(raw, bit),
{
    (raw >> bit) & 1 != 0
}

/// The 44-bit PPN field of a PTE.
pub open spec fn ppn_spec(raw: u64) -> u64 {
    (raw >> 10u64) & PPN_MASK
}

pub fn pte_ppn(raw: u64) -> (r: u64)
    ensures
        r == ppn_spec(raw),
{
    (raw >> 10u64) & PPN_MASK
}

/// Bits 63:38 of `va` all equal bit 38.
pub open spec fn canonical_spec(va: u64) -> bool {
    va >> 38u64 == 0 || va >> 38u64 == 0x3ff_ffff
}

pub fn sv39_canonical(va: u64) -> (r: bool)
    ensures
        r == canonical_spec(va),
{
    let top = va >> 38u64;
    top == 0 || top == 0x3ff_ffff
}

/// An identity-mapped 4 KiB leaf with exactly these R/W/X, A=1 D=1, U=0
/// G=0.
pub open spec fn flags_match_spec(raw: u64, r: bool, w: bool, x: bool) -> bool {
    &&& bit_spec(raw, 0)
    &&& bit_spec(raw, 1) == r
    &&& bit_spec(raw, 2) == w
    &&& bit_spec(raw, 3) == x
    &&& !bit_spec(raw, 4)
    &&& !bit_spec(raw, 5)
    &&& bit_spec(raw, 6)
    &&& bit_spec(raw, 7)
}

pub fn flags_match(raw: u64, r: bool, w: bool, x: bool) -> (m: bool)
    ensures
        m == flags_match_spec(raw, r, w, x),
{
    pte_bit(raw, 0) && pte_bit(raw, 1) == r && pte_bit(raw, 2) == w && pte_bit(raw, 3) == x
        && !pte_bit(raw, 4) && !pte_bit(raw, 5) && pte_bit(raw, 6) && pte_bit(raw, 7)
}


/// Which fixed label `fmt_flags` gives a PTE: 0 for a kernel text leaf
/// (V R X, U=0, A D), 1 for read-only, 2 for read-write, 3 for anything
/// else. G is not looked at.
pub open spec fn flags_label(raw: u64) -> int {
    if bit_spec(raw, 0) && bit_spec(raw, 1) && !bit_spec(raw, 2) && bit_spec(raw, 3) && !bit_spec(raw, 4)
        && bit_spec(raw, 6) && bit_spec(raw, 7) {
        0
    } else if bit_spec(raw, 0) && bit_spec(raw, 1) && !bit_spec(raw, 2) && !bit_spec(raw, 3) && !bit_spec(raw, 4)
        && bit_spec(raw, 6) && bit_spec(raw, 7) {
        1
    } else if bit_spec(raw, 0) && bit_spec(raw, 1) && bit_spec(raw, 2) && !bit_spec(raw, 3) && !bit_spec(raw, 4)
        && bit_spec(raw, 6) && bit_spec(raw, 7) {
        2
    } else {
        3
    }
}

/// A fixed-width label for a PTE's flags, for the probe table.
pub fn fmt_flags(raw: u64) -> (s: &'static str)
    ensures
        flags_label(raw) == 0 ==> s@ == "V R   X U=0 A D"@,
        flags_label(raw) == 1 ==> s@ == "V R     U=0 A D"@,
        flags_label(raw) == 2 ==> s@ == "V R W   U=0 A D"@,
        flags_label(raw) == 3 ==> s@ == "UNEXPECTED"@,
{
    let v = pte_bit(raw, 0);
    let r = pte_bit(raw, 1);
    let w = pte_bit(raw, 2);
    let x = pte_bit(raw, 3);
    let u = pte_bit(raw, 4);
    let a = pte_bit(raw, 6);
    let d = pte_bit(raw, 7);
    if v && r && !w && x && !u && a && d {
        "V R   X U=0 A D"
    } else if v && r && !w && !x && !u && a && d {
        "V R     U=0 A D"
    } else if v && r && w && !x && !u && a && d {
        "V R W   U=0 A D"
    } else {
        "UNEXPECTED"
    }
}

// ---------------------------------------------------------------------------
// Tables.
// ---------------------------------------------------------------------------

/// A pointer PTE: V set, R/W/X/U/G/A/D and RSW clear.
pub open spec fn is_ptr(raw: u64) -> bool {
    raw & 0x3ff == 1
}

/// A leaf PTE: V set, some of R/W/X set, W only with R.
pub open spec fn is_leaf(raw: u64) -> bool {
    &&& raw & 1 == 1
    &&& raw & 0xe != 0
    &&& (raw & 4 != 0 ==> raw & 2 != 0)
}

/// Physical address a PTE's PPN names.
pub open spec fn target(raw: u64) -> u64 {
    ppn_spec(raw) << 12u64
}

/// Highest physical address a PTE can name, plus one.
pub const PA_LIMIT: u64 = 0x100_0000_0000_0000;

/// What a walk finds.
#[derive(Clone, Copy, Debug, PartialEq, Eq, Structural)]
pub enum Walk {
    /// V clear in the PTE `raw` at `level`.
    Unmapped { level: usize, raw: u64 },
    /// A leaf `raw` at `level` maps the address to `pa`.
    Mapped { pa: u64, raw: u64, level: usize },
}

/// The page tables: for table `i`, its physical address `pas[i]`, its
/// level `levels[i]` (2 = root, 0 = leaves), and its 512 PTEs `tables[i]`.
pub struct PageTables {
    pub root: u64,
    pub pas: Vec<u64>,
    pub levels: Vec<usize>,
    pub tables: Vec<Vec<u64>>,
}

/// A pointer PTE to a table at `pa` decodes back to `pa`.
pub proof fn lemma_encode_ptr(pa: u64)
    requires
        pa % 4096 == 0,
        pa < PA_LIMIT,
    ensures
        is_ptr(encode_spec(pa, NONLEAF)),
        target(encode_spec(pa, NONLEAF)) == pa,
{
    assert(pa & 0xfff == 0 && pa < 0x100_0000_0000_0000 ==> (((pa >> 12u64) << 10u64) | 1u64) & 0x3ff == 1) by (bit_vector);
    assert(pa & 0xfff == 0 && pa < 0x100_0000_0000_0000 ==> (((((pa >> 12u64) << 10u64) | 1u64) >> 10u64) & 0xfff_ffff_ffffu64) << 12u64 == pa) by (bit_vector);
    assert(pa % 4096 == 0 ==> pa & 0xfff == 0) by (bit_vector);
}

/// A leaf PTE for page `pa` with leaf flags decodes back to `pa` and
/// keeps its flags.
pub proof fn lemma_encode_leaf(pa: u64, flags: u64)
    requires
        pa % 4096 == 0,
        pa < PA_LIMIT,
        flags < 0x100,
    ensures
        encode_spec(pa, flags) & 0x3ff == flags,
        target(encode_spec(pa, flags)) == pa,
{
    assert(pa & 0xfff == 0 && pa < 0x100_0000_0000_0000 && flags < 0x100 ==> (((pa >> 12u64) << 10u64) | flags) & 0x3ff == flags) by (bit_vector);
    assert(pa & 0xfff == 0 && pa < 0x100_0000_0000_0000 && flags < 0x100 ==> (((((pa >> 12u64) << 10u64) | flags) >> 10u64) & 0xfff_ffff_ffffu64) << 12u64 == pa) by (bit_vector);
    assert(pa % 4096 == 0 ==> pa & 0xfff == 0) by (bit_vector);
}

/// Leaf flags `map` accepts: only the low eight bits, V set, some of R/W/X,
/// W only with R.
pub open spec fn leaf_flags(flags: u64) -> bool {
    &&& flags < 0x100
    &&& flags & 1 == 1
    &&& flags & 0xe != 0
    &&& (flags & 4 != 0 ==> flags & 2 != 0)
}

/// No table sits in a frame the allocator could still hand out, and the
/// recycled list holds no frame twice.
pub open spec fn owns(pt: PageTables, fa: FrameAllocator) -> bool {
    &&& fa.recycled@.no_duplicates()
    &&& forall|i: int| 0 <= i < pt.pas@.len() ==> #[trigger] pt.pas@[i] < fa.bump && !fa.recycled@.contains(pt.pas@[i] as usize)
}

/// `b` is `a` with a new all-zero table `c` (one level below `t`) and the
/// zero PTE `k` of table `t` turned into a pointer to it.
pub open spec fn ptr_step(a: PageTables, b: PageTables, t: u64, k: int, c: u64) -> bool {
    &&& a.has(t)
    &&& !a.has(c)
    &&& 0 <= k < PTES
    &&& a.entry(t, k) == 0
    &&& b.root == a.root
    &&& b.pas@ == a.pas@.push(c)
    &&& b.levels@ == a.levels@.push((a.level_of(t) - 1) as usize)
    &&& b.tables@.len() == a.tables@.len() + 1
    &&& forall|i: int| 0 <= i < a.tables@.len() ==> #[trigger] b.tables@[i]@ == if i == a.idx(t) {
        a.tables@[i]@.update(k, encode_spec(c, NONLEAF))
    } else {
        a.tables@[i]@
    }
    &&& b.tables@[a.tables@.len() as int]@ == Seq::new(PTES as nat, |j: int| 0u64)
}

pub proof fn lemma_ptr_not_leaf(raw: u64)
    ensures
        is_ptr(raw) ==> raw != 0 && raw & 1 == 1 && raw & 0xe == 0 && !is_leaf(raw),
        raw & 1 != 0 ==> raw != 0,
        raw == 0 ==> raw & 1 == 0 && !is_ptr(raw),
{
    assert(raw & 0x3ff == 1 ==> raw != 0 && raw & 1 == 1 && raw & 0xe == 0) by (bit_vector);
    assert(raw & 1 != 0 ==> raw != 0) by (bit_vector);
    assert(raw == 0 ==> raw & 1 == 0 && raw & 0x3ff != 1) by (bit_vector);
}

/// A table's 512 zero PTEs.
pub fn zero_table() -> (t: Vec<u64>)
    ensures
        t@ == Seq::new(PTES as nat, |j: int| 0u64),
{
    let mut t: Vec<u64> = Vec::new();
    let mut i: usize = 0;
    while i < PTES
        invariant
            i <= PTES,
            t@ == Seq::new(i as nat, |j: int| 0u64),
        decreases PTES - i,
    {
        t.push(0);
        i = i + 1;
        assert(t@ =~= Seq::new(i as nat, |j: int| 0u64));
    }
    t
}

/// A pointer step keeps the tables well-formed: the new table is fresh,
/// aligned, one level below its parent, and nothing else points at it.
#[verifier::spinoff_prover]
proof fn lemma_ptr_step_wf(a: PageTables, b: PageTables, t: u64, k: int, c: u64)
    requires
        a.wf(),
        ptr_step(a, b, t, k, c),
        a.level_of(t) >= 1,
        c % 4096 == 0,
        c < RAM_END,
    ensures
        b.wf(),
        forall|pa: u64| a.has(pa) ==> b.has(pa) && b.idx(pa) == a.idx(pa) && b.level_of(pa) == a.level_of(pa),
        b.has(c) && b.level_of(c) == a.level_of(t) - 1,
        b.idx(c) == a.pas@.len(),
{
    let n = a.pas@.len();
    let it = a.idx(t);
    assert forall|x: int, y: int| 0 <= x < y < b.pas@.len() implies #[trigger] b.pas@[x] != #[trigger] b.pas@[y] by {
        if y == n {
            assert(a.pas@[x] != c);
        } else {
            assert(a.pas@[x] != a.pas@[y]);
        }
    }
    assert forall|pa: u64| a.has(pa) implies b.has(pa) && b.idx(pa) == a.idx(pa) && b.level_of(pa) == a.level_of(pa) by {
        let i = a.idx(pa);
        a.lemma_idx(i);
        b.lemma_idx(i);
    }
    b.lemma_idx(n as int);
    lemma_encode_ptr(c);
    assert(b.has(b.root));
    assert forall|i: int| 0 <= i < b.pas@.len() implies {
        &&& #[trigger] b.tables@[i]@.len() == PTES
        &&& b.levels@[i] <= 2
        &&& b.pas@[i] % 4096 == 0
        &&& b.pas@[i] < RAM_END
    } by {
        if i < n {
            assert(a.tables@[i]@.len() == PTES);
        }
    }
    assert forall|i: int| 0 <= i < b.pas@.len() && #[trigger] b.levels@[i] == 2 implies b.pas@[i] == b.root by {
        if i < n {
            assert(a.levels@[i] == 2);
        }
    }
    assert forall|i: int, kk: int| 0 <= i < b.pas@.len() && 0 <= kk < PTES implies b.entry_ok(b.levels@[i] as int, #[trigger] b.tables@[i]@[kk]) by {
        if i == n {
        } else if i == it && kk == k {
        } else {
            let raw = a.tables@[i]@[kk];
            assert(b.tables@[i]@[kk] == raw);
            assert(a.entry_ok(a.levels@[i] as int, raw));
            if raw != 0 && a.levels@[i] > 0 && is_ptr(raw) {
                assert(a.has(target(raw)));
            }
        }
    }
    assert forall|i1: int, k1: int, i2: int, k2: int|
        #![trigger b.tables@[i1]@[k1], b.tables@[i2]@[k2]]
        0 <= i1 < b.pas@.len() && 0 <= k1 < PTES && 0 <= i2 < b.pas@.len() && 0 <= k2 < PTES
            && is_ptr(b.tables@[i1]@[k1]) && is_ptr(b.tables@[i2]@[k2])
            && target(b.tables@[i1]@[k1]) == target(b.tables@[i2]@[k2]) implies i1 == i2 && k1 == k2 by {
        assert(0u64 & 0x3ff != 1) by (bit_vector);
        let new1 = i1 == it && k1 == k;
        let new2 = i2 == it && k2 == k;
        if i1 == n || i2 == n {
        } else if new1 && new2 {
        } else if new1 {
            let raw = a.tables@[i2]@[k2];
            assert(b.tables@[i2]@[k2] == raw);
            lemma_ptr_not_leaf(raw);
            assert(a.entry_ok(a.levels@[i2] as int, raw));
            assert(a.has(target(raw)));
        } else if new2 {
            let raw = a.tables@[i1]@[k1];
            assert(b.tables@[i1]@[k1] == raw);
            lemma_ptr_not_leaf(raw);
            assert(a.entry_ok(a.levels@[i1] as int, raw));
            assert(a.has(target(raw)));
        } else {
            assert(a.tables@[i1]@[k1] == b.tables@[i1]@[k1]);
            assert(a.tables@[i2]@[k2] == b.tables@[i2]@[k2]);
        }
    }
}

/// Every VPN field is below 512.
pub proof fn lemma_vpn_bound(va: u64)
    ensures
        forall|l: int| #[trigger] vpn_spec(va, l) < 512,
{
    assert((va >> 30u64) & 0x1ff < 512) by (bit_vector);
    assert((va >> 21u64) & 0x1ff < 512) by (bit_vector);
    assert((va >> 12u64) & 0x1ff < 512) by (bit_vector);
}

/// Across a pointer step, a walk from an old table that found a mapping
/// finds the same one, and a walk that found nothing still finds nothing
/// (the new table is empty).
proof fn lemma_ptr_step_walk(a: PageTables, b: PageTables, t: u64, k: int, c: u64, x: u64, va: u64, level: int)
    requires
        a.wf(),
        b.wf(),
        ptr_step(a, b, t, k, c),
        a.level_of(t) >= 1,
        c % 4096 == 0,
        c < RAM_END,
        forall|pa: u64| a.has(pa) ==> b.has(pa) && b.idx(pa) == a.idx(pa) && b.level_of(pa) == a.level_of(pa),
        b.has(c),
        b.idx(c) == a.pas@.len(),
        a.has(x),
        a.level_of(x) == level,
        0 <= level <= 2,
    ensures
        a.walk_at(x, va, level) is Mapped ==> b.walk_at(x, va, level) == a.walk_at(x, va, level),
        a.walk_at(x, va, level) is Unmapped ==> b.walk_at(x, va, level) is Unmapped,
    decreases level,
{
    lemma_vpn_bound(va);
    let j = vpn_spec(va, level) as int;
    let ra = a.entry(x, j);
    let rb = b.entry(x, j);
    let ix = a.idx(x);
    assert(a.pas@[ix] == x);
    assert(a.entry_ok(a.levels@[ix] as int, a.tables@[ix]@[j]));
    lemma_ptr_not_leaf(ra);
    if x == t && j == k {
        assert(ra == 0);
        assert(b.tables@[ix]@ == a.tables@[ix]@.update(k, encode_spec(c, NONLEAF)));
        assert(rb == encode_spec(c, NONLEAF));
        lemma_encode_ptr(c);
        lemma_ptr_not_leaf(rb);
        let j2 = vpn_spec(va, level - 1) as int;
        let z = b.entry(c, j2);
        assert(z == 0);
        lemma_ptr_not_leaf(z);
        assert(b.walk_at(c, va, level - 1) is Unmapped);
        assert(b.walk_at(x, va, level) == b.walk_at(c, va, level - 1));
    } else {
        assert(b.tables@[ix]@[j] == a.tables@[ix]@[j]);
        assert(rb == ra);
        if ra & 1 != 0 && ra & 0xe == 0 && level > 0 {
            assert(is_ptr(ra));
            assert(a.has(target(ra)));
            lemma_ptr_step_walk(a, b, t, k, c, target(ra), va, level - 1);
        }
    }
}

/// The 27 VPN bits of `va` (bits 38:12): two addresses with the same
/// `vpage` take the same walk.
pub open spec fn vpage(va: u64) -> u64 {
    (va >> 12u64) & 0x7ff_ffff
}

/// Equal `vpage` is equal VPN fields at every level.
pub proof fn lemma_vpage(v: u64, w: u64)
    ensures
        (vpage(v) == vpage(w)) <==> (vpn_spec(v, 0) == vpn_spec(w, 0) && vpn_spec(v, 1) == vpn_spec(w, 1)
            && vpn_spec(v, 2) == vpn_spec(w, 2)),
{
    assert(((v >> 12u64) & 0x7ff_ffff == (w >> 12u64) & 0x7ff_ffff) <==> ((v >> 12u64) & 0x1ff == (w >> 12u64) & 0x1ff
        && (v >> 21u64) & 0x1ff == (w >> 21u64) & 0x1ff && (v >> 30u64) & 0x1ff == (w >> 30u64) & 0x1ff)) by (bit_vector);
}

/// End of the low half of the Sv39 address space: below it an address is
/// its own page number times 4096 plus its offset.
pub const LOW_HALF_END: u64 = 0x40_0000_0000;

/// Below the low-half end, an aligned address is its `vpage` shifted back.
pub proof fn lemma_vpage_aligned(p: u64)
    requires
        p % 4096 == 0,
        p < LOW_HALF_END,
    ensures
        vpage(p) == p / 4096,
        vpage(p) << 12u64 == p,
{
    assert(p % 4096 == 0 && p < 0x40_0000_0000 ==> (p >> 12u64) & 0x7ff_ffff == p / 4096
        && ((p >> 12u64) & 0x7ff_ffff) << 12u64 == p) by (bit_vector);
}

/// The identity leaf for `v`'s page: physical page `vpage(v) << 12`.
pub open spec fn identity_walk(v: u64, flags: u64) -> Walk {
    Walk::Mapped { pa: (vpage(v) << 12u64) | (v & 0xfff), raw: encode_spec(vpage(v) << 12u64, flags), level: 0 }
}

/// `v` lies on a page in `[start, end)`.
pub open spec fn in_pages(v: u64, start: u64, end: u64) -> bool {
    start / 4096 <= vpage(v) < end / 4096
}

/// `b` is `a` with the zero PTE `j` of the level-0 table `t0` set to `leaf`.
pub open spec fn leaf_step(a: PageTables, b: PageTables, t0: u64, j: int, leaf: u64) -> bool {
    &&& a.has(t0)
    &&& 0 <= j < PTES
    &&& b.root == a.root
    &&& b.pas@ == a.pas@
    &&& b.levels@ == a.levels@
    &&& b.tables@.len() == a.tables@.len()
    &&& forall|i: int| 0 <= i < a.tables@.len() ==> #[trigger] b.tables@[i]@ == if i == a.idx(t0) {
        a.tables@[i]@.update(j, leaf)
    } else {
        a.tables@[i]@
    }
}

/// Setting the leaf for `va` at the end of its path `root -> t1 -> t0`
/// keeps the tables well-formed, makes every address of `va`'s page map
/// to `pa`, and changes no other walk.
proof fn lemma_leaf_step(a: PageTables, b: PageTables, t1: u64, t0: u64, va: u64, pa: u64, flags: u64)
    requires
        a.wf(),
        leaf_flags(flags),
        pa % 4096 == 0,
        pa < PA_LIMIT,
        is_ptr(a.entry(a.root, vpn_spec(va, 2) as int)),
        target(a.entry(a.root, vpn_spec(va, 2) as int)) == t1,
        is_ptr(a.entry(t1, vpn_spec(va, 1) as int)),
        target(a.entry(t1, vpn_spec(va, 1) as int)) == t0,
        a.entry(t0, vpn_spec(va, 0) as int) == 0,
        leaf_step(a, b, t0, vpn_spec(va, 0) as int, encode_spec(pa, flags)),
    ensures
        b.wf(),
        forall|v: u64| vpage(v) == vpage(va) ==> #[trigger] b.walk_spec(v) == (Walk::Mapped { pa: pa | (v & 0xfff), raw: encode_spec(pa, flags), level: 0 }),
        forall|v: u64| vpage(v) != vpage(va) ==> #[trigger] b.walk_spec(v) == a.walk_spec(v),
{
    let leaf = encode_spec(pa, flags);
    let j0 = vpn_spec(va, 0) as int;
    let j1 = vpn_spec(va, 1) as int;
    let j2 = vpn_spec(va, 2) as int;
    lemma_vpn_bound(va);
    lemma_encode_leaf(pa, flags);
    assert(leaf & 0x3ff == flags && flags < 0x100 && flags & 1 == 1 && flags & 0xe != 0 && (flags & 4 != 0 ==> flags & 2 != 0)
        ==> leaf & 1 == 1 && leaf & 0xe != 0 && (leaf & 4 != 0 ==> leaf & 2 != 0) && leaf & 0x3ff != 1) by (bit_vector);
    assert(is_leaf(leaf) && !is_ptr(leaf));
    let ir = a.idx(a.root);
    let i1 = a.idx(t1);
    let i0 = a.idx(t0);
    assert(a.pas@[ir] == a.root);
    assert(a.entry_ok(a.levels@[ir] as int, a.tables@[ir]@[j2]));
    lemma_ptr_not_leaf(a.entry(a.root, j2));
    lemma_ptr_not_leaf(a.entry(t1, j1));
    assert(a.has(t1) && a.level_of(t1) == 1);
    assert(a.pas@[i1] == t1);
    assert(a.entry_ok(a.levels@[i1] as int, a.tables@[i1]@[j1]));
    assert(a.has(t0) && a.level_of(t0) == 0);
    assert(a.pas@[i0] == t0);
    assert forall|x: u64| #[trigger] b.has(x) == a.has(x) && b.idx(x) == a.idx(x) by {}
    // Well-formedness.
    assert forall|i: int, k: int| 0 <= i < b.pas@.len() && 0 <= k < PTES implies b.entry_ok(b.levels@[i] as int, #[trigger] b.tables@[i]@[k]) by {
        if !(i == i0 && k == j0) {
            assert(b.tables@[i]@[k] == a.tables@[i]@[k]);
            assert(a.entry_ok(a.levels@[i] as int, a.tables@[i]@[k]));
        }
    }
    assert forall|x1: int, k1: int, x2: int, k2: int|
        #![trigger b.tables@[x1]@[k1], b.tables@[x2]@[k2]]
        0 <= x1 < b.pas@.len() && 0 <= k1 < PTES && 0 <= x2 < b.pas@.len() && 0 <= k2 < PTES
            && is_ptr(b.tables@[x1]@[k1]) && is_ptr(b.tables@[x2]@[k2])
            && target(b.tables@[x1]@[k1]) == target(b.tables@[x2]@[k2]) implies x1 == x2 && k1 == k2 by {
        if !(x1 == i0 && k1 == j0) && !(x2 == i0 && k2 == j0) {
            assert(b.tables@[x1]@[k1] == a.tables@[x1]@[k1]);
            assert(b.tables@[x2]@[k2] == a.tables@[x2]@[k2]);
        }
    }
    assert forall|i: int| 0 <= i < b.pas@.len() implies {
        &&& #[trigger] b.tables@[i]@.len() == PTES
        &&& b.levels@[i] <= 2
        &&& b.pas@[i] % 4096 == 0
        &&& b.pas@[i] < RAM_END
    } by {
        assert(a.tables@[i]@.len() == PTES);
    }
    assert(b.wf());
    // Walks.
    assert forall|v: u64| #[trigger] b.walk_spec(v) == if vpage(v) == vpage(va) {
        Walk::Mapped { pa: pa | (v & 0xfff), raw: leaf, level: 0 }
    } else {
        a.walk_spec(v)
    } by {
        lemma_vpage(v, va);
        lemma_vpn_bound(v);
        let v2 = vpn_spec(v, 2) as int;
        let v1 = vpn_spec(v, 1) as int;
        let v0 = vpn_spec(v, 0) as int;
        let r2 = a.entry(a.root, v2);
        assert(b.entry(a.root, v2) == r2);
        assert(a.entry_ok(a.levels@[ir] as int, a.tables@[ir]@[v2]));
        lemma_ptr_not_leaf(r2);
        if r2 & 1 != 0 && r2 & 0xe == 0 {
            let u1 = target(r2);
            assert(a.has(u1) && a.level_of(u1) == 1);
            let iu1 = a.idx(u1);
            assert(a.pas@[iu1] == u1);
            let r1 = a.entry(u1, v1);
            assert(b.entry(u1, v1) == r1);
            assert(a.entry_ok(a.levels@[iu1] as int, a.tables@[iu1]@[v1]));
            lemma_ptr_not_leaf(r1);
            assert(b.walk_spec(v) == b.walk_at(u1, v, 1));
            assert(a.walk_spec(v) == a.walk_at(u1, v, 1));
            if r1 & 1 != 0 && r1 & 0xe == 0 {
                let u0 = target(r1);
                assert(a.has(u0) && a.level_of(u0) == 0);
                let iu0 = a.idx(u0);
                assert(a.pas@[iu0] == u0);
                assert(b.walk_at(u1, v, 1) == b.walk_at(u0, v, 0));
                assert(a.walk_at(u1, v, 1) == a.walk_at(u0, v, 0));
                if u0 == t0 && v0 == j0 {
                    assert(a.tables@[iu1]@[v1] == r1);
                    assert(a.tables@[i1]@[j1] == a.entry(t1, j1));
                    assert(iu1 == i1 && v1 == j1);
                    assert(u1 == t1);
                    assert(a.tables@[ir]@[v2] == r2);
                    assert(a.tables@[ir]@[j2] == a.entry(a.root, j2));
                    assert(v2 == j2);
                    assert(b.entry(t0, j0) == leaf);
                    assert(b.walk_at(u0, v, 0) == (Walk::Mapped { pa: target(leaf) | (v & 0xfff), raw: leaf, level: 0 }));
                } else {
                    assert(b.entry(u0, v0) == a.entry(u0, v0));
                    if vpage(v) == vpage(va) {
                        assert(r2 == a.entry(a.root, j2));
                        assert(u1 == t1);
                        assert(r1 == a.entry(t1, j1));
                    }
                }
            } else {
                if vpage(v) == vpage(va) {
                    assert(r2 == a.entry(a.root, j2));
                    assert(u1 == t1);
                    assert(r1 == a.entry(t1, j1));
                }
            }
        } else {
            if vpage(v) == vpage(va) {
                assert(r2 == a.entry(a.root, j2));
            }
        }
    }
}

/// Where the linker must place the kernel image.
pub const KERNEL_START: u64 = 0x8020_0000;

/// The linker symbols that bound the kernel image, its boot stack and its
/// heap.
#[derive(Clone, Copy, Debug, PartialEq, Eq, Structural)]
pub struct KernelSymbols {
    pub kernel_start: u64,
    pub rodata_start: u64,
    pub data_start: u64,
    pub bss_end: u64,
    pub boot_stack_bottom: u64,
    pub boot_stack_top: u64,
    pub heap_start: u64,
    pub heap_end: u64,
}

/// Why the kernel map could not be built.
#[derive(Clone, Copy, Debug, PartialEq, Eq, Structural)]
pub enum BuildError {
    /// `__kernel_start` is not where the loader puts the kernel.
    KernelStart,
    /// No one-page guard hole between `.bss` and the boot stack.
    GuardHole,
    /// The heap does not start at the top of the boot stack.
    StackHeapGap,
    /// The symbols are out of order or the heap ends past RAM.
    SymbolOrder,
    /// A range bound is not page aligned.
    Unaligned,
    /// The frame allocator ran out of frames for tables.
    OutOfFrames,
}

/// The verdict on the symbols, in the order the checks are made.
pub open spec fn symbols_verdict(s: KernelSymbols) -> Option<BuildError> {
    if s.kernel_start != KERNEL_START {
        Some(BuildError::KernelStart)
    } else if s.bss_end + 4096 != s.boot_stack_bottom {
        Some(BuildError::GuardHole)
    } else if s.boot_stack_top != s.heap_start {
        Some(BuildError::StackHeapGap)
    } else if !(s.kernel_start < s.rodata_start && s.rodata_start < s.data_start && s.data_start < s.bss_end
        && s.bss_end < s.boot_stack_bottom && s.boot_stack_bottom < s.boot_stack_top && s.heap_start < s.heap_end
        && s.heap_end < RAM_END) {
        Some(BuildError::SymbolOrder)
    } else if s.rodata_start % 4096 != 0 || s.data_start % 4096 != 0 || s.bss_end % 4096 != 0
        || s.heap_start % 4096 != 0 || s.heap_end % 4096 != 0 {
        Some(BuildError::Unaligned)
    } else {
        None
    }
}

/// The leaf flags of the kernel map at `v` counting only its first `n`
/// ranges: text RX, rodata R, data/bss RW, boot stack RW, heap RW, free
/// frames RW. The guard page, OpenSBI below the kernel, and everything
/// outside RAM stay unmapped.
pub open spec fn kernel_flags_upto(s: KernelSymbols, v: u64, n: int) -> Option<u64> {
    if n >= 1 && in_pages(v, s.kernel_start, s.rodata_start) {
        Some(LEAF_RX)
    } else if n >= 2 && in_pages(v, s.rodata_start, s.data_start) {
        Some(LEAF_R)
    } else if n >= 3 && in_pages(v, s.data_start, s.bss_end) {
        Some(LEAF_RW)
    } else if n >= 4 && in_pages(v, s.boot_stack_bottom, s.boot_stack_top) {
        Some(LEAF_RW)
    } else if n >= 5 && in_pages(v, s.heap_start, s.heap_end) {
        Some(LEAF_RW)
    } else if n >= 6 && in_pages(v, s.heap_end, RAM_END as u64) {
        Some(LEAF_RW)
    } else {
        None
    }
}

/// The leaf flags of the whole kernel map at `v`.
pub open spec fn kernel_flags(s: KernelSymbols, v: u64) -> Option<u64> {
    kernel_flags_upto(s, v, 6)
}

/// Tables `pt` realise `flags`: each address with flags is identity
/// mapped with them, every other address is unmapped.
pub open spec fn realises(pt: PageTables, s: KernelSymbols, n: int) -> bool {
    forall|v: u64| #![trigger pt.walk_spec(v)] match kernel_flags_upto(s, v, n) {
        Some(f) => pt.walk_spec(v) == identity_walk(v, f),
        None => pt.walk_spec(v) is Unmapped,
    }
}

/// Mapping the `n + 1`-th range on top of the first `n` realises the
/// first `n + 1`.
proof fn lemma_stage(a: PageTables, b: PageTables, s: KernelSymbols, n: int, start: u64, end: u64, flags: u64)
    requires
        realises(a, s, n),
        forall|v: u64| in_pages(v, start, end) ==> #[trigger] kernel_flags_upto(s, v, n + 1) == Some(flags),
        forall|v: u64| !in_pages(v, start, end) ==> #[trigger] kernel_flags_upto(s, v, n + 1) == kernel_flags_upto(s, v, n),
        forall|v: u64| in_pages(v, start, end) ==> #[trigger] b.walk_spec(v) == identity_walk(v, flags),
        forall|v: u64| !in_pages(v, start, end) && #[trigger] a.walk_spec(v) is Mapped ==> b.walk_spec(v) == a.walk_spec(v),
        forall|v: u64| !in_pages(v, start, end) && #[trigger] a.walk_spec(v) is Unmapped ==> b.walk_spec(v) is Unmapped,
    ensures
        realises(b, s, n + 1),
{
    assert forall|v: u64| #![trigger b.walk_spec(v)] match kernel_flags_upto(s, v, n + 1) {
        Some(f) => b.walk_spec(v) == identity_walk(v, f),
        None => b.walk_spec(v) is Unmapped,
    } by {
        if !in_pages(v, start, end) {
            assert(match kernel_flags_upto(s, v, n) {
                Some(f) => a.walk_spec(v) == identity_walk(v, f),
                None => a.walk_spec(v) is Unmapped,
            });
            assert(kernel_flags_upto(s, v, n + 1) == kernel_flags_upto(s, v, n));
        } else {
            assert(kernel_flags_upto(s, v, n + 1) == Some(flags));
        }
    }
}

/// Build the kernel map from the linker symbols: check them, allocate
/// the root, and identity-map each range with its flags. Does not write
/// `satp`.
pub fn build(frames: &mut FrameAllocator, s: KernelSymbols) -> (r: Result<PageTables, BuildError>)
    requires
        old(frames).wf(),
        !old(frames).frozen,
        old(frames).recycled@.no_duplicates(),
    ensures
        final(frames).wf(),
        final(frames).frozen == old(frames).frozen,
        final(frames).heap_end == old(frames).heap_end,
        final(frames).total == old(frames).total,
        symbols_verdict(s) matches Some(e) ==> r == Err::<PageTables, BuildError>(e) && *final(frames) == *old(frames),
        symbols_verdict(s) is None ==> r is Ok || r == Err::<PageTables, BuildError>(BuildError::OutOfFrames),
        r == Err::<PageTables, BuildError>(BuildError::OutOfFrames) ==> final(frames).free_count_spec() < 2,
        r matches Ok(pt) ==> {
            &&& pt.wf()
            &&& owns(pt, *final(frames))
            &&& final(frames).heap_end <= pt.root
            &&& pt.pas@.len() == old(frames).free_count_spec() - final(frames).free_count_spec()
            &&& forall|v: u64| #![trigger pt.walk_spec(v)] match kernel_flags(s, v) {
                Some(f) => pt.walk_spec(v) == identity_walk(v, f),
                None => pt.walk_spec(v) is Unmapped,
            }
        },
{
    let ks = s.kernel_start;
    let rs = s.rodata_start;
    let ds = s.data_start;
    let be = s.bss_end;
    let sb = s.boot_stack_bottom;
    let st = s.boot_stack_top;
    let hs = s.heap_start;
    let he = s.heap_end;
    let ram_end = RAM_END as u64;
    if ks != KERNEL_START {
        return Err(BuildError::KernelStart);
    }
    if sb < 4096 || be != sb - 4096 {
        return Err(BuildError::GuardHole);
    }
    if st != hs {
        return Err(BuildError::StackHeapGap);
    }
    if !(ks < rs && rs < ds && ds < be && be < sb && sb < st && hs < he && he < ram_end) {
        return Err(BuildError::SymbolOrder);
    }
    if rs % 4096 != 0 || ds % 4096 != 0 || be % 4096 != 0 || hs % 4096 != 0 || he % 4096 != 0 {
        return Err(BuildError::Unaligned);
    }
    let ghost f0 = *frames;
    let mut pt = match PageTables::new(frames) {
        Ok(p) => p,
        Err(_) => {
            return Err(BuildError::OutOfFrames);
        },
    };
    let ghost f1 = *frames;
    proof {
        assert forall|v: u64| #![trigger pt.walk_spec(v)] match kernel_flags_upto(s, v, 0) {
            Some(f) => pt.walk_spec(v) == identity_walk(v, f),
            None => pt.walk_spec(v) is Unmapped,
        } by {}
    }
    let ranges: [(u64, u64, u64); 6] = [
        (ks, rs, LEAF_RX),
        (rs, ds, LEAF_R),
        (ds, be, LEAF_RW),
        (sb, st, LEAF_RW),
        (hs, he, LEAF_RW),
        (he, ram_end, LEAF_RW),
    ];
    let mut n: usize = 0;
    while n < 6
        invariant
            0 <= n <= 6,
            pt.wf(),
            owns(pt, *frames),
            frames.wf(),
            !frames.frozen,
            frames.heap_end == f0.heap_end,
            frames.total == f0.total,
            f0 == *old(frames),
            !f0.frozen,
            f1.heap_end <= pt.root,
            f1.heap_end == f0.heap_end,
            pt.pas@.len() == f0.free_count_spec() - frames.free_count_spec(),
            symbols_verdict(s) is None,
            ks == s.kernel_start && rs == s.rodata_start && ds == s.data_start && be == s.bss_end,
            sb == s.boot_stack_bottom && st == s.boot_stack_top && hs == s.heap_start && he == s.heap_end,
            ram_end == RAM_END,
            ranges@ == seq![(ks, rs, LEAF_RX), (rs, ds, LEAF_R), (ds, be, LEAF_RW), (sb, st, LEAF_RW), (hs, he, LEAF_RW), (he, ram_end, LEAF_RW)],
            forall|v: u64| #![trigger pt.walk_spec(v)] match kernel_flags_upto(s, v, n as int) {
                Some(f) => pt.walk_spec(v) == identity_walk(v, f),
                None => pt.walk_spec(v) is Unmapped,
            },
        decreases 6 - n,
    {
        let (start, end, flags) = ranges[n];
        let ghost a = pt;
        proof {
            assert(leaf_flags(LEAF_RX) && leaf_flags(LEAF_R) && leaf_flags(LEAF_RW)) by (bit_vector);
            assert forall|v: u64| in_pages(v, start, end) implies #[trigger] a.walk_spec(v) is Unmapped by {
                assert(kernel_flags_upto(s, v, n as int) is None);
            }
        }
        match pt.map_range(frames, start, end, flags) {
            Err(_) => {
                return Err(BuildError::OutOfFrames);
            },
            Ok(()) => {},
        }
        proof {
            assert forall|v: u64| in_pages(v, start, end) implies #[trigger] kernel_flags_upto(s, v, n + 1) == Some(flags) by {}
            assert forall|v: u64| !in_pages(v, start, end) implies #[trigger] kernel_flags_upto(s, v, n + 1) == kernel_flags_upto(s, v, n as int) by {}
            lemma_stage(a, pt, s, n as int, start, end, flags);
        }
        n = n + 1;
    }
    Ok(pt)
}

/// What a probe expects at its address.
#[derive(Clone, Copy, Debug, PartialEq, Eq, Structural)]
pub enum Expect {
    Unmapped,
    /// An identity-mapped 4 KiB leaf with these R/W/X, A=1 D=1 U=0.
    Mapped { r: bool, w: bool, x: bool },
}

/// The addresses the kernel map is probed at.
#[derive(Clone, Copy, Debug, PartialEq, Eq, Structural)]
pub enum Probe {
    KernelEntry,
    Text,
    Rodata,
    DataBss,
    Stack,
    Heap,
    FreeFrames,
    LastRam,
    PageTable,
    Guard,
    OpenSbi,
    AboveRam,
    UartMmio,
}

/// How a probe failed.
#[derive(Clone, Copy, Debug, PartialEq, Eq, Structural)]
pub enum ProbeError {
    /// Mapped, but not to the probed address itself.
    NotIdentity { pa: u64 },
    /// Mapped with other flags than expected.
    FlagsMismatch { raw: u64 },
    /// Mapped where nothing should be.
    MappedWantUnmapped { pa: u64, raw: u64, level: usize },
    /// Unmapped where a leaf should be.
    UnmappedWantMapped { level: usize, raw: u64 },
}

/// One probe: its name, address and expectation.
#[derive(Clone, Copy, Debug, PartialEq, Eq, Structural)]
pub struct ProbeCase {
    pub probe: Probe,
    pub va: u64,
    pub expect: Expect,
}

/// The first failing probe and how it failed.
#[derive(Clone, Copy, Debug, PartialEq, Eq, Structural)]
pub struct ProbeFailure {
    pub probe: Probe,
    pub error: ProbeError,
}

/// The verdict on walk `w` of `va` against `e`.
pub open spec fn probe_verdict(w: Walk, va: u64, e: Expect) -> Option<ProbeError> {
    match w {
        Walk::Mapped { pa, raw, level } => match e {
            Expect::Mapped { r, w: wr, x } => if pa != va {
                Some(ProbeError::NotIdentity { pa })
            } else if !flags_match_spec(raw, r, wr, x) {
                Some(ProbeError::FlagsMismatch { raw })
            } else {
                None
            },
            Expect::Unmapped => Some(ProbeError::MappedWantUnmapped { pa, raw, level }),
        },
        Walk::Unmapped { level, raw } => match e {
            Expect::Unmapped => None,
            Expect::Mapped { .. } => Some(ProbeError::UnmappedWantMapped { level, raw }),
        },
    }
}

/// Compare walk `w` of `va` with `e`.
pub fn check_walk(w: Walk, va: u64, e: Expect) -> (r: Option<ProbeError>)
    ensures
        r == probe_verdict(w, va, e),
{
    match w {
        Walk::Mapped { pa, raw, level } => match e {
            Expect::Mapped { r, w: wr, x } => {
                if pa != va {
                    Some(ProbeError::NotIdentity { pa })
                } else if !flags_match(raw, r, wr, x) {
                    Some(ProbeError::FlagsMismatch { raw })
                } else {
                    None
                }
            },
            Expect::Unmapped => Some(ProbeError::MappedWantUnmapped { pa, raw, level }),
        },
        Walk::Unmapped { level, raw } => match e {
            Expect::Unmapped => None,
            Expect::Mapped { .. } => Some(ProbeError::UnmappedWantMapped { level, raw }),
        },
    }
}

/// Read-only mapping expectations.
pub open spec fn rx() -> Expect {
    Expect::Mapped { r: true, w: false, x: true }
}

pub open spec fn ro() -> Expect {
    Expect::Mapped { r: true, w: false, x: false }
}

pub open spec fn rw() -> Expect {
    Expect::Mapped { r: true, w: true, x: false }
}

/// QEMU `virt` UART, deliberately unmapped.
pub const UART_MMIO: u64 = 0x1000_0000;
/// An address past RAM, unmapped.
pub const ABOVE_RAM: u64 = 0x9000_0000;

/// The probes of the kernel map built from `s` with root table `root`.
pub open spec fn probe_cases_spec(s: KernelSymbols, root: u64) -> Seq<ProbeCase> {
    seq![
        ProbeCase { probe: Probe::KernelEntry, va: s.kernel_start, expect: rx() },
        ProbeCase { probe: Probe::Text, va: (s.rodata_start - 1) as u64, expect: rx() },
        ProbeCase { probe: Probe::Rodata, va: s.rodata_start, expect: ro() },
        ProbeCase { probe: Probe::DataBss, va: s.data_start, expect: rw() },
        ProbeCase { probe: Probe::Stack, va: (s.boot_stack_top - 0x10) as u64, expect: rw() },
        ProbeCase { probe: Probe::Heap, va: s.heap_start, expect: rw() },
        ProbeCase { probe: Probe::FreeFrames, va: s.heap_end, expect: rw() },
        ProbeCase { probe: Probe::LastRam, va: (RAM_END - 4096) as u64, expect: rw() },
        ProbeCase { probe: Probe::PageTable, va: root, expect: rw() },
        ProbeCase { probe: Probe::Guard, va: s.bss_end, expect: Expect::Unmapped },
        ProbeCase { probe: Probe::OpenSbi, va: RAM_START as u64, expect: Expect::Unmapped },
        ProbeCase { probe: Probe::AboveRam, va: ABOVE_RAM, expect: Expect::Unmapped },
        ProbeCase { probe: Probe::UartMmio, va: UART_MMIO, expect: Expect::Unmapped },
    ]
}

/// The probes of the kernel map built from `s` with root table `root`.
pub fn probe_cases(s: &KernelSymbols, root: u64) -> (v: Vec<ProbeCase>)
    requires
        s.rodata_start >= 1,
        s.boot_stack_top >= 0x10,
    ensures
        v@ == probe_cases_spec(*s, root),
{
    let v = vec![
        ProbeCase { probe: Probe::KernelEntry, va: s.kernel_start, expect: Expect::Mapped { r: true, w: false, x: true } },
        ProbeCase { probe: Probe::Text, va: s.rodata_start - 1, expect: Expect::Mapped { r: true, w: false, x: true } },
        ProbeCase { probe: Probe::Rodata, va: s.rodata_start, expect: Expect::Mapped { r: true, w: false, x: false } },
        ProbeCase { probe: Probe::DataBss, va: s.data_start, expect: Expect::Mapped { r: true, w: true, x: false } },
        ProbeCase { probe: Probe::Stack, va: s.boot_stack_top - 0x10, expect: Expect::Mapped { r: true, w: true, x: false } },
        ProbeCase { probe: Probe::Heap, va: s.heap_start, expect: Expect::Mapped { r: true, w: true, x: false } },
        ProbeCase { probe: Probe::FreeFrames, va: s.heap_end, expect: Expect::Mapped { r: true, w: true, x: false } },
        ProbeCase { probe: Probe::LastRam, va: (RAM_END - 4096) as u64, expect: Expect::Mapped { r: true, w: true, x: false } },
        ProbeCase { probe: Probe::PageTable, va: root, expect: Expect::Mapped { r: true, w: true, x: false } },
        ProbeCase { probe: Probe::Guard, va: s.bss_end, expect: Expect::Unmapped },
        ProbeCase { probe: Probe::OpenSbi, va: RAM_START as u64, expect: Expect::Unmapped },
        ProbeCase { probe: Probe::AboveRam, va: ABOVE_RAM, expect: Expect::Unmapped },
        ProbeCase { probe: Probe::UartMmio, va: UART_MMIO, expect: Expect::Unmapped },
    ];
    assert(v@ =~= probe_cases_spec(*s, root));
    v
}

/// Which address failed the check before paging is switched on.
#[derive(Clone, Copy, Debug, PartialEq, Eq, Structural)]
pub enum ActivateCheck {
    Pc,
    Stvec,
    Sp,
}

/// The failed check and the walk it found.
#[derive(Clone, Copy, Debug, PartialEq, Eq, Structural)]
pub struct ActivateFailure {
    pub what: ActivateCheck,
    pub found: Walk,
}

/// Below the low-half end an address is canonical, its `vpage` is its
/// page number, and its identity leaf translates it to itself.
proof fn lemma_low_addr(v: u64)
    requires
        v < LOW_HALF_END,
    ensures
        canonical_spec(v),
        vpage(v) == v / 4096,
        (vpage(v) << 12u64) | (v & 0xfff) == v,
        (vpage(v) << 12u64) % 4096 == 0,
        vpage(v) << 12u64 < LOW_HALF_END,
{
    assert(v < 0x40_0000_0000 ==> v >> 38u64 == 0 && (v >> 12u64) & 0x7ff_ffff == v / 4096
        && ((((v >> 12u64) & 0x7ff_ffff) << 12u64) | (v & 0xfff)) == v
        && (((v >> 12u64) & 0x7ff_ffff) << 12u64) % 4096 == 0
        && (((v >> 12u64) & 0x7ff_ffff) << 12u64) < 0x40_0000_0000) by (bit_vector);
}

/// The kernel's leaf encodings carry the flags the probes expect.
proof fn lemma_leaf_encodings(p: u64)
    requires
        p % 4096 == 0,
        p < PA_LIMIT,
    ensures
        flags_match_spec(encode_spec(p, LEAF_RX), true, false, true),
        flags_match_spec(encode_spec(p, LEAF_R), true, false, false),
        flags_match_spec(encode_spec(p, LEAF_RW), true, true, false),
{
    lemma_encode_leaf(p, LEAF_RX);
    lemma_encode_leaf(p, LEAF_R);
    lemma_encode_leaf(p, LEAF_RW);
    let a = encode_spec(p, LEAF_RX);
    let b = encode_spec(p, LEAF_R);
    let c = encode_spec(p, LEAF_RW);
    assert(a & 0x3ff == 0xcb ==> (a >> 0u32) & 1 != 0 && (a >> 1u32) & 1 != 0 && (a >> 2u32) & 1 == 0
        && (a >> 3u32) & 1 != 0 && (a >> 4u32) & 1 == 0 && (a >> 5u32) & 1 == 0 && (a >> 6u32) & 1 != 0
        && (a >> 7u32) & 1 != 0) by (bit_vector);
    assert(b & 0x3ff == 0xc3 ==> (b >> 0u32) & 1 != 0 && (b >> 1u32) & 1 != 0 && (b >> 2u32) & 1 == 0
        && (b >> 3u32) & 1 == 0 && (b >> 4u32) & 1 == 0 && (b >> 5u32) & 1 == 0 && (b >> 6u32) & 1 != 0
        && (b >> 7u32) & 1 != 0) by (bit_vector);
    assert(c & 0x3ff == 0xc7 ==> (c >> 0u32) & 1 != 0 && (c >> 1u32) & 1 != 0 && (c >> 2u32) & 1 != 0
        && (c >> 3u32) & 1 == 0 && (c >> 4u32) & 1 == 0 && (c >> 5u32) & 1 == 0 && (c >> 6u32) & 1 != 0
        && (c >> 7u32) & 1 != 0) by (bit_vector);
}

/// The kernel map that `build` makes from valid symbols passes every
/// probe: text RX, rodata R, data, stack, heap, free frames and the page
/// tables themselves RW, all identity mapped; the guard page, OpenSBI,
/// the UART and the space above RAM unmapped. The root table must lie in
/// the free-frame range, where the frame allocator hands out frames.
pub proof fn lemma_kernel_map_passes_probes(pt: PageTables, s: KernelSymbols)
    requires
        pt.wf(),
        symbols_verdict(s) is None,
        s.heap_end <= pt.root,
        forall|v: u64| #![trigger pt.walk_spec(v)] match kernel_flags(s, v) {
            Some(f) => pt.walk_spec(v) == identity_walk(v, f),
            None => pt.walk_spec(v) is Unmapped,
        },
    ensures
        forall|i: int| 0 <= i < 13 ==> canonical_spec(#[trigger] probe_cases_spec(s, pt.root)[i].va),
        forall|i: int| 0 <= i < 13 ==> probe_verdict(pt.walk_spec(#[trigger] probe_cases_spec(s, pt.root)[i].va),
            probe_cases_spec(s, pt.root)[i].va, probe_cases_spec(s, pt.root)[i].expect) is None,
{
    let cs = probe_cases_spec(s, pt.root);
    let ip = pt.idx(pt.root);
    assert(pt.pas@[ip] == pt.root);
    assert(pt.tables@[ip]@.len() == PTES);
    assert(pt.root < RAM_END && pt.root % 4096 == 0);
    assert forall|i: int| 0 <= i < 13 implies canonical_spec(#[trigger] cs[i].va) && probe_verdict(pt.walk_spec(cs[i].va), cs[i].va, cs[i].expect) is None by {
        let v = cs[i].va;
        if i == 0 { assert(v == s.kernel_start); }
        else if i == 1 { assert(v == s.rodata_start - 1); }
        else if i == 2 { assert(v == s.rodata_start); }
        else if i == 3 { assert(v == s.data_start); }
        else if i == 4 { assert(v == s.boot_stack_top - 0x10); }
        else if i == 5 { assert(v == s.heap_start); }
        else if i == 6 { assert(v == s.heap_end); }
        else if i == 7 { assert(v == RAM_END - 4096); }
        else if i == 8 { assert(v == pt.root); }
        else if i == 9 { assert(v == s.bss_end); }
        else if i == 10 { assert(v == RAM_START); }
        else if i == 11 { assert(v == ABOVE_RAM); }
        else { assert(v == UART_MMIO); }
        lemma_low_addr(v);
        lemma_leaf_encodings(vpage(v) << 12u64);
        match kernel_flags(s, v) {
            Some(f) => {
                assert(pt.walk_spec(v) == identity_walk(v, f));
            },
            None => {
                assert(pt.walk_spec(v) is Unmapped);
            },
        }
    }
}

/// Why the kernel map was not brought up.
#[derive(Clone, Copy, Debug, PartialEq, Eq, Structural)]
pub enum InitError {
    Build(BuildError),
    Probe(ProbeFailure),
}

/// With valid symbols, every probe address is canonical and computable.
proof fn lemma_probe_cases_canonical(s: KernelSymbols, root: u64)
    requires
        symbols_verdict(s) is None,
        root < RAM_END,
    ensures
        s.rodata_start >= 1,
        s.boot_stack_top >= 0x10,
        forall|i: int| 0 <= i < 13 ==> canonical_spec(#[trigger] probe_cases_spec(s, root)[i].va),
{
    let cs = probe_cases_spec(s, root);
    assert forall|i: int| 0 <= i < 13 implies canonical_spec(#[trigger] cs[i].va) by {
        let v = cs[i].va;
        if i == 0 { assert(v == s.kernel_start); }
        else if i == 1 { assert(v == s.rodata_start - 1); }
        else if i == 2 { assert(v == s.rodata_start); }
        else if i == 3 { assert(v == s.data_start); }
        else if i == 4 { assert(v == s.boot_stack_top - 0x10); }
        else if i == 5 { assert(v == s.heap_start); }
        else if i == 6 { assert(v == s.heap_end); }
        else if i == 7 { assert(v == RAM_END - 4096); }
        else if i == 8 { assert(v == root); }
        else if i == 9 { assert(v == s.bss_end); }
        else if i == 10 { assert(v == RAM_START); }
        else if i == 11 { assert(v == ABOVE_RAM); }
        else { assert(v == UART_MMIO); }
        lemma_low_addr(v);
    }
}

/// Build the kernel map from `s` and run its probes. Once the map is
/// built the probes cannot fail, unless the frame allocator hands out
/// frames below the heap end (then the root table may fall outside the
/// free-frame range that the map makes writable).
pub fn init(frames: &mut FrameAllocator, s: KernelSymbols) -> (r: Result<PageTables, InitError>)
    requires
        old(frames).wf(),
        !old(frames).frozen,
        old(frames).recycled@.no_duplicates(),
    ensures
        final(frames).wf(),
        final(frames).frozen == old(frames).frozen,
        final(frames).heap_end == old(frames).heap_end,
        final(frames).total == old(frames).total,
        symbols_verdict(s) matches Some(e) ==> r == Err::<PageTables, InitError>(InitError::Build(e))
            && *final(frames) == *old(frames),
        r == Err::<PageTables, InitError>(InitError::Build(BuildError::OutOfFrames)) ==> symbols_verdict(s) is None
            && final(frames).free_count_spec() < 2,
        r matches Err(InitError::Probe(_)) ==> symbols_verdict(s) is None && old(frames).heap_end < s.heap_end,
        r matches Err(InitError::Build(e)) ==> e == BuildError::OutOfFrames || symbols_verdict(s) == Some(e),
        r matches Ok(pt) ==> {
            &&& pt.wf()
            &&& owns(pt, *final(frames))
            &&& final(frames).heap_end <= pt.root
            &&& pt.pas@.len() == old(frames).free_count_spec() - final(frames).free_count_spec()
            &&& forall|v: u64| #![trigger pt.walk_spec(v)] match kernel_flags(s, v) {
                Some(f) => pt.walk_spec(v) == identity_walk(v, f),
                None => pt.walk_spec(v) is Unmapped,
            }
            &&& forall|i: int| 0 <= i < 13 ==> probe_verdict(pt.walk_spec(#[trigger] probe_cases_spec(s, pt.root)[i].va),
                probe_cases_spec(s, pt.root)[i].va, probe_cases_spec(s, pt.root)[i].expect) is None
        },
{
    let pt = match build(frames, s) {
        Ok(pt) => pt,
        Err(e) => {
            return Err(InitError::Build(e));
        },
    };
    proof {
        let ip = pt.idx(pt.root);
        assert(pt.pas@[ip] == pt.root);
        assert(pt.tables@[ip]@.len() == PTES);
        lemma_probe_cases_canonical(s, pt.root);
        if frames.heap_end >= s.heap_end {
            lemma_kernel_map_passes_probes(pt, s);
        }
    }
    match pt.verify(&s) {
        Err(f) => Err(InitError::Probe(f)),
        Ok(()) => Ok(pt),
    }
}

/// Why a page could not be mapped.
#[derive(Clone, Copy, Debug, PartialEq, Eq, Structural)]
pub enum MapError {
    /// The frame allocator cannot supply the intermediate tables.
    OutOfFrames,
}

impl PageTables {
    /// Intermediate tables `map` must create for `va`: two when the root
    /// PTE is zero, one when only the level-1 PTE is.
    pub open spec fn tables_needed(&self, va: u64) -> int {
        let r2 = self.entry(self.root, vpn_spec(va, 2) as int);
        if r2 == 0 {
            2
        } else if self.entry(target(r2), vpn_spec(va, 1) as int) == 0 {
            1
        } else {
            0
        }
    }

    /// `va` is identity mapped by a level-0 leaf with exactly these R/W/X.
    pub open spec fn leaf_ok(&self, va: u64, r: bool, w: bool, x: bool) -> bool {
        self.walk_spec(va) matches Walk::Mapped { pa, raw, level } && pa == va && level == 0
            && flags_match_spec(raw, r, w, x)
    }

    pub open spec fn has(&self, pa: u64) -> bool {
        exists|i: int| 0 <= i < self.pas@.len() && #[trigger] self.pas@[i] == pa
    }

    pub open spec fn idx(&self, pa: u64) -> int {
        choose|i: int| 0 <= i < self.pas@.len() && #[trigger] self.pas@[i] == pa
    }

    /// PTE `k` of the table at `pa`.
    pub open spec fn entry(&self, pa: u64, k: int) -> u64 {
        self.tables@[self.idx(pa)]@[k]
    }

    pub open spec fn level_of(&self, pa: u64) -> usize {
        self.levels@[self.idx(pa)]
    }

    /// A PTE in a table of `level` is zero, a pointer to a table of the
    /// level below, or (at level 0) a leaf.
    pub open spec fn entry_ok(&self, level: int, raw: u64) -> bool {
        ||| raw == 0
        ||| (level > 0 && is_ptr(raw) && self.has(target(raw)) && self.level_of(target(raw)) == level - 1)
        ||| (level == 0 && is_leaf(raw))
    }

    pub open spec fn wf(&self) -> bool {
        &&& self.levels@.len() == self.pas@.len()
        &&& self.tables@.len() == self.pas@.len()
        &&& forall|i: int| 0 <= i < self.pas@.len() ==> {
            &&& #[trigger] self.tables@[i]@.len() == PTES
            &&& self.levels@[i] <= 2
            &&& self.pas@[i] % 4096 == 0
            &&& self.pas@[i] < RAM_END
        }
        &&& forall|i: int, j: int| 0 <= i < j < self.pas@.len() ==> #[trigger] self.pas@[i] != #[trigger] self.pas@[j]
        &&& self.has(self.root)
        &&& self.level_of(self.root) == 2
        &&& forall|i: int| 0 <= i < self.pas@.len() && #[trigger] self.levels@[i] == 2 ==> self.pas@[i] == self.root
        &&& forall|i: int, k: int| 0 <= i < self.pas@.len() && 0 <= k < PTES ==> self.entry_ok(self.levels@[i] as int, #[trigger] self.tables@[i]@[k])
        &&& forall|i1: int, k1: int, i2: int, k2: int|
            #![trigger self.tables@[i1]@[k1], self.tables@[i2]@[k2]]
            0 <= i1 < self.pas@.len() && 0 <= k1 < PTES && 0 <= i2 < self.pas@.len() && 0 <= k2 < PTES
                && is_ptr(self.tables@[i1]@[k1]) && is_ptr(self.tables@[i2]@[k2])
                && target(self.tables@[i1]@[k1]) == target(self.tables@[i2]@[k2]) ==> i1 == i2 && k1 == k2
    }

    /// The walk of `va` from the table at `table`, at `level` and below.
    pub open spec fn walk_at(&self, table: u64, va: u64, level: int) -> Walk
        decreases level,
    {
        let raw = self.entry(table, vpn_spec(va, level) as int);
        if raw & 1 == 0 {
            Walk::Unmapped { level: level as usize, raw }
        } else if raw & 0xe != 0 {
            Walk::Mapped { pa: target(raw) | (va & 0xfff), raw, level: level as usize }
        } else if level <= 0 {
            Walk::Unmapped { level: 0, raw }
        } else {
            self.walk_at(target(raw), va, level - 1)
        }
    }

    /// The walk of `va` from the root.
    pub open spec fn walk_spec(&self, va: u64) -> Walk {
        self.walk_at(self.root, va, 2)
    }

    /// With distinct addresses, the index of the table at `pas[i]` is `i`.
    pub proof fn lemma_idx(&self, i: int)
        requires
            0 <= i < self.pas@.len(),
            forall|a: int, b: int| 0 <= a < b < self.pas@.len() ==> #[trigger] self.pas@[a] != #[trigger] self.pas@[b],
        ensures
            self.has(self.pas@[i]),
            self.idx(self.pas@[i]) == i,
    {
        let c = self.idx(self.pas@[i]);
        if c < i {
            assert(self.pas@[c] != self.pas@[i]);
        } else if c > i {
            assert(self.pas@[i] != self.pas@[c]);
        }
    }

    /// Index of the table at `pa`.
    pub fn find(&self, pa: u64) -> (i: usize)
        requires
            self.wf(),
            self.has(pa),
        ensures
            i == self.idx(pa),
            i < self.pas@.len(),
            self.pas@[i as int] == pa,
    {
        let n = self.pas.len();
        let mut i: usize = 0;
        while i < n
            invariant
                self.wf(),
                n == self.pas@.len(),
                i <= n,
                self.has(pa),
                forall|j: int| 0 <= j < i ==> self.pas@[j] != pa,
            decreases n - i,
        {
            if self.pas[i] == pa {
                proof {
                    let c = self.idx(pa);
                    if c != i {
                        if c < i {
                            assert(self.pas@[c] != self.pas@[i as int]);
                        } else {
                            assert(self.pas@[i as int] != self.pas@[c]);
                        }
                    }
                }
                return i;
            }
            i = i + 1;
        }
        assert(false);
        0
    }

    /// Number of tables.
    pub fn tables_used(&self) -> (r: usize)
        ensures
            r == self.pas@.len(),
    {
        self.pas.len()
    }

    /// Physical address of the root table.
    pub fn root_pa(&self) -> (r: u64)
        ensures
            r == self.root,
    {
        self.root
    }

    /// The table one level below `table` on the way to `va`: the one its
    /// PTE already points at, or a fresh all-zero table from `frames`
    /// hooked into that PTE when it was zero.
    pub fn step_down(&mut self, frames: &mut FrameAllocator, table: u64, level: usize, va: u64) -> (r: u64)
        requires
            old(self).wf(),
            owns(*old(self), *old(frames)),
            old(frames).wf(),
            !old(frames).frozen,
            old(self).entry(table, vpn_spec(va, level as int) as int) == 0 ==> old(frames).free_count_spec() >= 1,
            old(self).has(table),
            old(self).level_of(table) == level,
            1 <= level <= 2,
        ensures
            final(self).wf(),
            owns(*final(self), *final(frames)),
            final(frames).wf(),
            final(frames).frozen == old(frames).frozen,
            final(frames).heap_end == old(frames).heap_end,
            final(frames).total == old(frames).total,
            final(self).root == old(self).root,
            final(self).has(r),
            final(self).level_of(r) == level - 1,
            is_ptr(final(self).entry(table, vpn_spec(va, level as int) as int)),
            target(final(self).entry(table, vpn_spec(va, level as int) as int)) == r,
            forall|pa: u64| #[trigger] old(self).has(pa) ==> final(self).has(pa) && final(self).level_of(pa) == old(self).level_of(pa),
            forall|pa: u64, k: int| old(self).has(pa) && 0 <= k < PTES && (pa != table || k != vpn_spec(va, level as int)) ==> #[trigger] final(self).entry(pa, k) == old(self).entry(pa, k),
            old(self).entry(table, vpn_spec(va, level as int) as int) != 0 ==> *final(self) == *old(self) && *final(frames) == *old(frames),
            old(self).entry(table, vpn_spec(va, level as int) as int) == 0 ==> {
                &&& !old(self).has(r)
                &&& final(self).pas@.len() == old(self).pas@.len() + 1
                &&& final(frames).free_count_spec() == old(frames).free_count_spec() - 1
                &&& forall|k: int| 0 <= k < PTES ==> #[trigger] final(self).entry(r, k) == 0
            },
            forall|v: u64| #[trigger] old(self).walk_spec(v) is Mapped ==> final(self).walk_spec(v) == old(self).walk_spec(v),
            forall|v: u64| #[trigger] old(self).walk_spec(v) is Unmapped ==> final(self).walk_spec(v) is Unmapped,
    {
        let ghost a = *self;
        let ghost f0 = *frames;
        let i = self.find(table);
        let j = vpn(va, level);
        let raw = self.tables[i][j];
        proof {
            assert(a.entry_ok(a.levels@[i as int] as int, a.tables@[i as int]@[j as int]));
            lemma_ptr_not_leaf(raw);
        }
        if raw != 0 {
            proof {
                assert(is_ptr(raw));
            }
            return ((raw >> 10u64) & PPN_MASK) << 12u64;
        }
        let c = frames.alloc_frame();
        proof {
            lemma_alloc_fresh(f0, c, *frames);
            assert forall|x: int| 0 <= x < a.pas@.len() implies #[trigger] a.pas@[x] != c as u64 by {
                if f0.recycled@.len() > 0 {
                    let n = f0.recycled@.len();
                    assert(f0.recycled@[n - 1] == c);
                    assert(f0.recycled@.contains(c));
                }
            }
        }
        let c64 = c as u64;
        self.pas.push(c64);
        self.levels.push(level - 1);
        let z = zero_table();
        self.tables.push(z);
        self.tables[i][j] = encode_leaf(c64, NONLEAF);
        proof {
            let b = *self;
            assert(b.tables@[i as int]@ == a.tables@[i as int]@.update(j as int, encode_spec(c64, NONLEAF)));
            assert forall|x: int| 0 <= x < a.tables@.len() implies #[trigger] b.tables@[x]@ == if x == a.idx(table) {
                a.tables@[x]@.update(j as int, encode_spec(c64, NONLEAF))
            } else {
                a.tables@[x]@
            } by {}
            assert(ptr_step(a, b, table, j as int, c64));
            lemma_ptr_step_wf(a, b, table, j as int, c64);
            assert forall|v: u64| #[trigger] a.walk_spec(v) is Mapped implies b.walk_spec(v) == a.walk_spec(v) by {
                lemma_ptr_step_walk(a, b, table, j as int, c64, a.root, v, 2);
            }
            assert forall|v: u64| #[trigger] a.walk_spec(v) is Unmapped implies b.walk_spec(v) is Unmapped by {
                lemma_ptr_step_walk(a, b, table, j as int, c64, a.root, v, 2);
            }
            assert forall|pa: u64, k: int| a.has(pa) && 0 <= k < PTES && (pa != table || k != j) implies #[trigger] b.entry(pa, k) == a.entry(pa, k) by {
                assert(b.idx(pa) == a.idx(pa));
            }
            assert forall|k: int| 0 <= k < PTES implies #[trigger] b.entry(c64, k) == 0 by {}
            lemma_encode_ptr(c64);
            let fr = *frames;
            assert forall|x: int| 0 <= x < b.pas@.len() implies #[trigger] b.pas@[x] < fr.bump && !fr.recycled@.contains(b.pas@[x] as usize) by {
                if x < a.pas@.len() {
                    assert(a.pas@[x] < f0.bump && !f0.recycled@.contains(a.pas@[x] as usize));
                    if fr.recycled@.contains(a.pas@[x] as usize) {
                        let y = choose|y: int| 0 <= y < fr.recycled@.len() && fr.recycled@[y] == a.pas@[x] as usize;
                        assert(f0.recycled@[y] == fr.recycled@[y]);
                        assert(f0.recycled@.contains(a.pas@[x] as usize));
                    }
                } else {
                    if fr.recycled@.contains(c) {
                        let y = choose|y: int| 0 <= y < fr.recycled@.len() && fr.recycled@[y] == c;
                        assert(fr.recycled@[y] != c);
                    }
                }
            }
        }
        c64
    }

    /// Identity-map the 4 KiB page at `va` to `pa` with leaf `flags`,
    /// creating the missing intermediate tables. Fails, changing nothing,
    /// when `frames` cannot supply them.
    pub fn map(&mut self, frames: &mut FrameAllocator, va: u64, pa: u64, flags: u64) -> (r: Result<(), MapError>)
        requires
            old(self).wf(),
            owns(*old(self), *old(frames)),
            old(frames).wf(),
            !old(frames).frozen,
            va % 4096 == 0,
            pa % 4096 == 0,
            pa < PA_LIMIT,
            leaf_flags(flags),
            old(self).walk_spec(va) is Unmapped,
        ensures
            final(self).wf(),
            owns(*final(self), *final(frames)),
            final(frames).wf(),
            final(frames).frozen == old(frames).frozen,
            final(frames).heap_end == old(frames).heap_end,
            final(frames).total == old(frames).total,
            final(self).root == old(self).root,
            r is Err <==> old(frames).free_count_spec() < old(self).tables_needed(va),
            r is Err ==> *final(self) == *old(self) && *final(frames) == *old(frames),
            r is Ok ==> final(self).pas@.len() == old(self).pas@.len() + old(self).tables_needed(va),
            r is Ok ==> final(frames).free_count_spec() == old(frames).free_count_spec() - old(self).tables_needed(va),
            r is Ok ==> forall|v: u64| vpage(v) == vpage(va) ==> #[trigger] final(self).walk_spec(v) == (Walk::Mapped { pa: pa | (v & 0xfff), raw: encode_spec(pa, flags), level: 0 }),
            forall|v: u64| vpage(v) != vpage(va) && #[trigger] old(self).walk_spec(v) is Mapped ==> final(self).walk_spec(v) == old(self).walk_spec(v),
            forall|v: u64| vpage(v) != vpage(va) && #[trigger] old(self).walk_spec(v) is Unmapped ==> final(self).walk_spec(v) is Unmapped,
    {
        let ghost a0 = *self;
        let ghost f0 = *frames;
        proof {
            lemma_vpn_bound(va);
        }
        let root = self.root;
        let ir = self.find(root);
        let r2 = self.tables[ir][vpn(va, 2)];
        let need: usize = if r2 == 0 {
            2
        } else {
            proof {
                assert(a0.entry_ok(a0.levels@[ir as int] as int, a0.tables@[ir as int]@[vpn_spec(va, 2) as int]));
                lemma_ptr_not_leaf(r2);
            }
            let t = ((r2 >> 10u64) & PPN_MASK) << 12u64;
            let it = self.find(t);
            if self.tables[it][vpn(va, 1)] == 0 {
                1
            } else {
                0
            }
        };
        if !frames.has_free(need) {
            return Err(MapError::OutOfFrames);
        }
        let t1 = self.step_down(frames, root, 2, va);
        let ghost a1 = *self;
        let t0 = self.step_down(frames, t1, 1, va);
        let ghost a2 = *self;
        let i0 = self.find(t0);
        let j0 = vpn(va, 0);
        proof {
            let j1 = vpn_spec(va, 1) as int;
            let j2 = vpn_spec(va, 2) as int;
            assert(a1.level_of(a1.root) == 2);
            assert(a2.entry(root, j2) == a1.entry(root, j2));
            assert(a2.walk_spec(va) is Unmapped);
            lemma_ptr_not_leaf(a2.entry(root, j2));
            lemma_ptr_not_leaf(a2.entry(t1, j1));
            assert(a2.walk_spec(va) == a2.walk_at(t1, va, 1));
            assert(a2.walk_at(t1, va, 1) == a2.walk_at(t0, va, 0));
            let raw0 = a2.entry(t0, j0 as int);
            assert(a2.pas@[i0 as int] == t0);
            assert(a2.entry_ok(a2.levels@[i0 as int] as int, a2.tables@[i0 as int]@[j0 as int]));
            lemma_ptr_not_leaf(raw0);
            assert(raw0 == 0);
        }
        self.tables[i0][j0] = encode_leaf(pa, flags);
        proof {
            let b = *self;
            assert forall|i: int| 0 <= i < a2.tables@.len() implies #[trigger] b.tables@[i]@ == if i == a2.idx(t0) {
                a2.tables@[i]@.update(j0 as int, encode_spec(pa, flags))
            } else {
                a2.tables@[i]@
            } by {}
            assert(leaf_step(a2, b, t0, j0 as int, encode_spec(pa, flags)));
            lemma_leaf_step(a2, b, t1, t0, va, pa, flags);
            assert(owns(b, *frames));
        }
        Ok(())
    }

    /// Identity-map every page of `[start, end)` with `flags`. Stops at
    /// the first page whose tables `frames` cannot supply.
    pub fn map_range(&mut self, frames: &mut FrameAllocator, start: u64, end: u64, flags: u64) -> (r: Result<(), MapError>)
        requires
            old(self).wf(),
            owns(*old(self), *old(frames)),
            old(frames).wf(),
            !old(frames).frozen,
            start % 4096 == 0,
            end % 4096 == 0,
            start < end,
            end <= LOW_HALF_END,
            leaf_flags(flags),
            forall|v: u64| in_pages(v, start, end) ==> #[trigger] old(self).walk_spec(v) is Unmapped,
        ensures
            final(self).wf(),
            owns(*final(self), *final(frames)),
            final(frames).wf(),
            final(frames).frozen == old(frames).frozen,
            final(frames).heap_end == old(frames).heap_end,
            final(frames).total == old(frames).total,
            final(self).root == old(self).root,
            final(self).pas@.len() - old(self).pas@.len() == old(frames).free_count_spec() - final(frames).free_count_spec(),
            old(frames).free_count_spec() >= 2 * ((end - start) / 4096) ==> r is Ok,
            r is Err ==> final(frames).free_count_spec() < 2,
            r is Ok ==> forall|v: u64| in_pages(v, start, end) ==> #[trigger] final(self).walk_spec(v) == identity_walk(v, flags),
            forall|v: u64| !in_pages(v, start, end) && #[trigger] old(self).walk_spec(v) is Mapped ==> final(self).walk_spec(v) == old(self).walk_spec(v),
            forall|v: u64| !in_pages(v, start, end) && #[trigger] old(self).walk_spec(v) is Unmapped ==> final(self).walk_spec(v) is Unmapped,
    {
        let ghost a0 = *self;
        let ghost f0 = *frames;
        let mut cur = start;
        while cur < end
            invariant
                self.wf(),
                owns(*self, *frames),
                frames.wf(),
                !frames.frozen,
                frames.heap_end == f0.heap_end,
                frames.total == f0.total,
                f0 == *old(frames),
                !f0.frozen,
                a0 == *old(self),
                self.root == a0.root,
                start <= cur <= end,
                cur % 4096 == 0,
                start % 4096 == 0,
                end % 4096 == 0,
                end <= LOW_HALF_END,
                leaf_flags(flags),
                self.pas@.len() - a0.pas@.len() == f0.free_count_spec() - frames.free_count_spec(),
                f0.free_count_spec() >= 2 * ((end - start) / 4096) ==> frames.free_count_spec() >= 2 * ((end - cur) / 4096),
                forall|v: u64| start / 4096 <= vpage(v) < cur / 4096 ==> #[trigger] self.walk_spec(v) == identity_walk(v, flags),
                forall|v: u64| cur / 4096 <= vpage(v) < end / 4096 ==> #[trigger] self.walk_spec(v) is Unmapped,
                forall|v: u64| !in_pages(v, start, end) && #[trigger] a0.walk_spec(v) is Mapped ==> self.walk_spec(v) == a0.walk_spec(v),
                forall|v: u64| !in_pages(v, start, end) && #[trigger] a0.walk_spec(v) is Unmapped ==> self.walk_spec(v) is Unmapped,
            decreases end - cur,
        {
            proof {
                lemma_vpage_aligned(cur);
            }
            let ghost b0 = *self;
            let ghost g0 = *frames;
            match self.map(frames, cur, cur, flags) {
                Err(e) => {
                    proof {
                        assert(b0.tables_needed(cur) <= 2);
                    }
                    return Err(e);
                },
                Ok(()) => {},
            }
            proof {
                assert(b0.tables_needed(cur) <= 2);
                let b1 = *self;
                assert forall|v: u64| start / 4096 <= vpage(v) < (cur + 4096) / 4096 implies #[trigger] b1.walk_spec(v) == identity_walk(v, flags) by {
                    if vpage(v) == vpage(cur) {
                        assert(b1.walk_spec(v) == (Walk::Mapped { pa: cur | (v & 0xfff), raw: encode_spec(cur, flags), level: 0 }));
                    } else {
                        assert(b0.walk_spec(v) == identity_walk(v, flags));
                    }
                }
                assert forall|v: u64| (cur + 4096) / 4096 <= vpage(v) < end / 4096 implies #[trigger] b1.walk_spec(v) is Unmapped by {
                    assert(b0.walk_spec(v) is Unmapped);
                }
                assert forall|v: u64| !in_pages(v, start, end) && #[trigger] a0.walk_spec(v) is Mapped implies b1.walk_spec(v) == a0.walk_spec(v) by {
                    assert(b0.walk_spec(v) == a0.walk_spec(v));
                }
                assert forall|v: u64| !in_pages(v, start, end) && #[trigger] a0.walk_spec(v) is Unmapped implies b1.walk_spec(v) is Unmapped by {
                    assert(b0.walk_spec(v) is Unmapped);
                }
            }
            cur = cur + 4096;
        }
        Ok(())
    }

    /// Empty tables: a fresh all-zero root from `frames`.
    pub fn new(frames: &mut FrameAllocator) -> (r: Result<PageTables, MapError>)
        requires
            old(frames).wf(),
            !old(frames).frozen,
            old(frames).recycled@.no_duplicates(),
        ensures
            final(frames).wf(),
            final(frames).frozen == old(frames).frozen,
            final(frames).heap_end == old(frames).heap_end,
            final(frames).total == old(frames).total,
            r is Err <==> old(frames).free_count_spec() == 0,
            r is Err ==> *final(frames) == *old(frames),
            r matches Ok(pt) ==> {
                &&& pt.wf()
                &&& owns(pt, *final(frames))
                &&& pt.pas@.len() == 1
                &&& final(frames).free_count_spec() == old(frames).free_count_spec() - 1
                &&& final(frames).heap_end <= pt.root
                &&& forall|v: u64| #[trigger] pt.walk_spec(v) is Unmapped
            },
    {
        if !frames.has_free(1) {
            return Err(MapError::OutOfFrames);
        }
        let ghost f0 = *frames;
        let c = frames.alloc_frame();
        proof {
            lemma_alloc_fresh(f0, c, *frames);
        }
        let c64 = c as u64;
        let mut pas: Vec<u64> = Vec::new();
        pas.push(c64);
        let mut levels: Vec<usize> = Vec::new();
        levels.push(2);
        let mut tables: Vec<Vec<u64>> = Vec::new();
        tables.push(zero_table());
        let pt = PageTables { root: c64, pas, levels, tables };
        proof {
            pt.lemma_idx(0);
            assert(0u64 & 1 == 0) by (bit_vector);
            assert forall|i: int, k: int| 0 <= i < pt.pas@.len() && 0 <= k < PTES implies pt.entry_ok(pt.levels@[i] as int, #[trigger] pt.tables@[i]@[k]) by {
                assert(pt.tables@[0]@[k] == 0);
            }
            assert forall|v: u64| #[trigger] pt.walk_spec(v) is Unmapped by {
                lemma_vpn_bound(v);
                assert(pt.entry(c64, vpn_spec(v, 2) as int) == 0);
            }
            let fr = *frames;
            assert forall|x: int| 0 <= x < pt.pas@.len() implies #[trigger] pt.pas@[x] < fr.bump && !fr.recycled@.contains(pt.pas@[x] as usize) by {
                if fr.recycled@.contains(c) {
                    let y = choose|y: int| 0 <= y < fr.recycled@.len() && fr.recycled@[y] == c;
                    assert(fr.recycled@[y] != c);
                }
            }
            assert(pt.has(pt.root));
            assert(pt.level_of(pt.root) == 2);
            assert(0u64 & 0x3ff != 1) by (bit_vector);
            assert(pt.tables@[0]@.len() == PTES);
            assert forall|i1: int, k1: int, i2: int, k2: int|
                #![trigger pt.tables@[i1]@[k1], pt.tables@[i2]@[k2]]
                0 <= i1 < pt.pas@.len() && 0 <= k1 < PTES && 0 <= i2 < pt.pas@.len() && 0 <= k2 < PTES
                    && is_ptr(pt.tables@[i1]@[k1]) && is_ptr(pt.tables@[i2]@[k2])
                    && target(pt.tables@[i1]@[k1]) == target(pt.tables@[i2]@[k2]) implies i1 == i2 && k1 == k2 by {
                assert(pt.tables@[i1]@[k1] == 0);
            }
            assert(pt.wf());
            assert(owns(pt, fr));
            assert(fr.heap_end <= pt.root);
        }
        Ok(pt)
    }

    /// Walk `va` and hold the result to `expect`.
    pub fn probe(&self, va: u64, expect: Expect) -> (r: Result<Walk, ProbeError>)
        requires
            self.wf(),
            canonical_spec(va),
        ensures
            match probe_verdict(self.walk_spec(va), va, expect) {
                Some(e) => r == Err::<Walk, ProbeError>(e),
                None => r == Ok::<Walk, ProbeError>(self.walk_spec(va)),
            },
    {
        let w = self.walk(va);
        match check_walk(w, va, expect) {
            Some(e) => Err(e),
            None => Ok(w),
        }
    }

    /// Run the probes of the kernel map built from `s`, stopping at the
    /// first failure.
    pub fn verify(&self, s: &KernelSymbols) -> (r: Result<(), ProbeFailure>)
        requires
            self.wf(),
            s.rodata_start >= 1,
            s.boot_stack_top >= 0x10,
            forall|i: int| 0 <= i < 13 ==> canonical_spec(#[trigger] probe_cases_spec(*s, self.root)[i].va),
        ensures
            r is Ok <==> forall|i: int| 0 <= i < 13 ==> probe_verdict(self.walk_spec(#[trigger] probe_cases_spec(*s, self.root)[i].va),
                probe_cases_spec(*s, self.root)[i].va, probe_cases_spec(*s, self.root)[i].expect) is None,
            r matches Err(f) ==> exists|i: int| 0 <= i < 13 && {
                let c = #[trigger] probe_cases_spec(*s, self.root)[i];
                &&& c.probe == f.probe
                &&& probe_verdict(self.walk_spec(c.va), c.va, c.expect) == Some(f.error)
                &&& forall|j: int| 0 <= j < i ==> probe_verdict(self.walk_spec(#[trigger] probe_cases_spec(*s, self.root)[j].va),
                    probe_cases_spec(*s, self.root)[j].va, probe_cases_spec(*s, self.root)[j].expect) is None
            },
    {
        let cases = probe_cases(s, self.root);
        let ghost cs = probe_cases_spec(*s, self.root);
        let mut i: usize = 0;
        while i < cases.len()
            invariant
                self.wf(),
                cases@ == cs,
                cs == probe_cases_spec(*s, self.root),
                cs.len() == 13,
                i <= cases.len(),
                forall|j: int| 0 <= j < 13 ==> canonical_spec(#[trigger] cs[j].va),
                forall|j: int| 0 <= j < i ==> probe_verdict(self.walk_spec(#[trigger] cs[j].va), cs[j].va, cs[j].expect) is None,
            decreases cases.len() - i,
        {
            let c = cases[i];
            match self.probe(c.va, c.expect) {
                Err(e) => {
                    proof {
                        assert(cs[i as int] == c);
                    }
                    return Err(ProbeFailure { probe: c.probe, error: e });
                },
                Ok(_) => {},
            }
            i = i + 1;
        }
        Ok(())
    }

    /// Check that `va` is identity mapped by a level-0 leaf with exactly
    /// these R/W/X (A=1 D=1 U=0 G=0).
    pub fn require_leaf(&self, va: u64, r: bool, w: bool, x: bool) -> (res: Result<(), Walk>)
        requires
            self.wf(),
            canonical_spec(va),
        ensures
            res is Ok <==> self.leaf_ok(va, r, w, x),
            res matches Err(got) ==> got == self.walk_spec(va),
    {
        let got = self.walk(va);
        match got {
            Walk::Mapped { pa, raw, level } => {
                if pa != va || level != 0 || !flags_match(raw, r, w, x) {
                    return Err(got);
                }
                Ok(())
            },
            Walk::Unmapped { .. } => Err(got),
        }
    }

    /// The checks made before paging is switched on: the code doing the
    /// switch (`pc`), the trap vector (`stvec`) and the stack (`sp`) must
    /// stay mapped. Gives the `satp` value to write.
    pub fn activate(&self, pc: u64, stvec: u64, sp: u64) -> (r: Result<u64, ActivateFailure>)
        requires
            self.wf(),
            canonical_spec(pc),
            canonical_spec(stvec),
            canonical_spec(sp),
        ensures
            r is Ok <==> self.leaf_ok(pc, true, false, true) && self.leaf_ok(stvec, true, false, true)
                && self.leaf_ok(sp, true, true, false),
            r matches Ok(v) ==> v == satp_spec(self.root),
            r == Err::<u64, ActivateFailure>(ActivateFailure { what: ActivateCheck::Pc, found: self.walk_spec(pc) })
                <== !self.leaf_ok(pc, true, false, true),
            r == Err::<u64, ActivateFailure>(ActivateFailure { what: ActivateCheck::Stvec, found: self.walk_spec(stvec) })
                <== self.leaf_ok(pc, true, false, true) && !self.leaf_ok(stvec, true, false, true),
            r == Err::<u64, ActivateFailure>(ActivateFailure { what: ActivateCheck::Sp, found: self.walk_spec(sp) })
                <== self.leaf_ok(pc, true, false, true) && self.leaf_ok(stvec, true, false, true)
                && !self.leaf_ok(sp, true, true, false),
    {
        if let Err(found) = self.require_leaf(pc, true, false, true) {
            return Err(ActivateFailure { what: ActivateCheck::Pc, found });
        }
        if let Err(found) = self.require_leaf(stvec, true, false, true) {
            return Err(ActivateFailure { what: ActivateCheck::Stvec, found });
        }
        if let Err(found) = self.require_leaf(sp, true, true, false) {
            return Err(ActivateFailure { what: ActivateCheck::Sp, found });
        }
        Ok(satp_value(self.root))
    }

    /// Walk `va` from the root, decoding PTEs by bit position.
    pub fn walk(&self, va: u64) -> (w: Walk)
        requires
            self.wf(),
            canonical_spec(va),
        ensures
            w == self.walk_spec(va),
    {
        let mut table = self.root;
        let mut level: usize = 2;
        loop
            invariant
                self.wf(),
                level <= 2,
                self.has(table),
                self.level_of(table) == level,
                self.walk_spec(va) == self.walk_at(table, va, level as int),
            decreases level,
        {
            let i = self.find(table);
            let k = vpn(va, level);
            let raw = self.tables[i][k];
            proof {
                assert(self.entry_ok(self.levels@[i as int] as int, self.tables@[i as int]@[k as int]));
            }
            if raw & 1 == 0 {
                return Walk::Unmapped { level, raw };
            }
            if raw & 0xe != 0 {
                return Walk::Mapped { pa: ((raw >> 10u64) & PPN_MASK) << 12u64 | (va & 0xfff), raw, level };
            }
            if level == 0 {
                return Walk::Unmapped { level: 0, raw };
            }
            proof {
                assert(raw & 0x3ff == 1 ==> raw & 0xe == 0 && raw & 1 == 1) by (bit_vector);
                assert(raw & 1 != 0 ==> raw != 0) by (bit_vector);
                assert(!is_leaf(raw));
                assert(is_ptr(raw));
                assert(self.has(target(raw)));
            }
            table = ((raw >> 10u64) & PPN_MASK) << 12u64;
            level = level - 1;
        }
    }
}

} // verus!
