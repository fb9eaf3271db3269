//! Big-endian field access on packet bytes.

use vstd::prelude::*;

verus! {

/// The big-endian `u16` at byte offset `off`.
pub open spec fn be16_at(s: Seq<u8>, off: int) -> u16 {
    ((s[off] as int) * 256 + (s[off + 1] as int)) as u16
}

/// The big-endian `u32` at byte offset `off`.
pub open spec fn be32_at(s: Seq<u8>, off: int) -> u32 {
    ((s[off] as int) * 0x100_0000 + (s[off + 1] as int) * 0x1_0000 + (s[off + 2] as int) * 0x100
        + (s[off + 3] as int)) as u32
}

/// `s` with the big-endian bytes of `v` stored at `off`.
pub open spec fn put16(s: Seq<u8>, off: int, v: u16) -> Seq<u8> {
    s.update(off, (v / 256) as u8).update(off + 1, (v % 256) as u8)
}

/// `s` with the big-endian bytes of `v` stored at `off`.
pub open spec fn put32(s: Seq<u8>, off: int, v: u32) -> Seq<u8> {
    s.update(off, (v / 0x100_0000) as u8).update(off + 1, ((v / 0x1_0000) % 256) as u8).update(
        off + 2,
        ((v / 0x100) % 256) as u8,
    ).update(off + 3, (v % 256) as u8)
}

/// `s` with `src` copied in at `off`.
pub open spec fn put_seq(s: Seq<u8>, off: int, src: Seq<u8>) -> Seq<u8> {
    Seq::new(s.len(), |i: int| if off <= i < off + src.len() { src[i - off] } else { s[i] })
}

pub fn get16(b: &[u8], off: usize) -> (r: u16)
    requires
        off + 1 < b@.len(),
    ensures
        r == be16_at(b@, off as int),
{
    (b[off] as u16) * 256 + (b[off + 1] as u16)
}

pub fn get32(b: &[u8], off: usize) -> (r: u32)
    requires
        off + 3 < b@.len(),
    ensures
        r == be32_at(b@, off as int),
{
    (b[off] as u32) * 0x100_0000 + (b[off + 1] as u32) * 0x1_0000 + (b[off + 2] as u32) * 0x100
        + (b[off + 3] as u32)
}

pub fn set16(b: &mut [u8], off: usize, v: u16)
    requires
        off + 1 < old(b)@.len(),
    ensures
        final(b)@ == put16(old(b)@, off as int, v),
{
    b[off] = (v / 256) as u8;
    b[off + 1] = (v % 256) as u8;
}

pub fn set32(b: &mut [u8], off: usize, v: u32)
    requires
        off + 3 < old(b)@.len(),
    ensures
        final(b)@ == put32(old(b)@, off as int, v),
{
    b[off] = (v / 0x100_0000) as u8;
    b[off + 1] = ((v / 0x1_0000) % 256) as u8;
    b[off + 2] = ((v / 0x100) % 256) as u8;
    b[off + 3] = (v % 256) as u8;
}

pub fn set_bytes(b: &mut [u8], off: usize, src: &[u8])
    requires
        off + src@.len() <= old(b)@.len(),
    ensures
        final(b)@ == put_seq(old(b)@, off as int, src@),
{
    let n = src.len();
    let total = b.len();
    let mut i: usize = 0;
    while i < n
        invariant
            n == src@.len(),
            total == b@.len(),
            off + n <= b@.len(),
            b@.len() == old(b)@.len(),
            i <= n,
            forall|j: int|
                0 <= j < b@.len() ==> #[trigger] b@[j] == (if off <= j < off + i {
                    src@[j - off]
                } else {
                    old(b)@[j]
                }),
        decreases n - i,
    {
        b[off + i] = src[i];
        i = i + 1;
    }
    assert(b@ =~= put_seq(old(b)@, off as int, src@));
}

/// Byte-wise equality of two IPv4 addresses.
pub fn ip_eq(a: &[u8; 4], b: &[u8; 4]) -> (r: bool)
    ensures
        r == (a@ == b@),
{
    let r = a[0] == b[0] && a[1] == b[1] && a[2] == b[2] && a[3] == b[3];
    if r {
        assert(a@ =~= b@);
    }
    r
}


pub proof fn lemma_put16(s: Seq<u8>, off: int, v: u16)
    requires
        0 <= off,
        off + 1 < s.len(),
    ensures
        put16(s, off, v).len() == s.len(),
        be16_at(put16(s, off, v), off) == v,
        forall|i: int| 0 <= i < s.len() && i != off && i != off + 1 ==> #[trigger] put16(s, off, v)[i] == s[i],
{
}

pub proof fn lemma_put32(s: Seq<u8>, off: int, v: u32)
    requires
        0 <= off,
        off + 3 < s.len(),
    ensures
        put32(s, off, v).len() == s.len(),
        be32_at(put32(s, off, v), off) == v,
        forall|i: int|
            0 <= i < s.len() && !(off <= i < off + 4) ==> #[trigger] put32(s, off, v)[i] == s[i],
{
    let v0 = v / 0x100_0000;
    let v1 = (v / 0x1_0000) % 256;
    let v2 = (v / 0x100) % 256;
    let v3 = v % 256;
    assert(v0 * 0x100_0000 + v1 * 0x1_0000 + v2 * 0x100 + v3 == v) by (nonlinear_arith)
        requires
            v0 == v / 0x100_0000,
            v1 == (v / 0x1_0000) % 256,
            v2 == (v / 0x100) % 256,
            v3 == v % 256,
            v <= 0xffff_ffff,
    {
        vstd::arithmetic::div_mod::lemma_fundamental_div_mod(v as int, 0x100);
        vstd::arithmetic::div_mod::lemma_fundamental_div_mod(v as int / 0x100, 0x100);
        vstd::arithmetic::div_mod::lemma_fundamental_div_mod(v as int / 0x1_0000, 0x100);
        vstd::arithmetic::div_mod::lemma_div_denominator(v as int, 0x100, 0x100);
        vstd::arithmetic::div_mod::lemma_div_denominator(v as int, 0x1_0000, 0x100);
    }
}

/// A drop or event counter after one more event: wraps at 2^32.
pub open spec fn inc(c: u32) -> u32 {
    if c == 0xffff_ffff {
        0
    } else {
        (c + 1) as u32
    }
}

pub fn bump(c: u32) -> (r: u32)
    ensures
        r == inc(c),
{
    c.wrapping_add(1)
}

} // verus!
