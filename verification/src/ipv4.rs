//! IPv4 parse and header build (RFC 791).
//!
//! Checks version and IHL, the header checksum, drops fragments, and
//! honours IHL for where the payload starts instead of assuming 20 bytes.
//! ICMP (1) and UDP (17) are delivered; anything else is a protocol drop.
//! Remote bytes never panic: each rejected shape has its own counter.

use vstd::prelude::*;
use crate::checksum::{checksum, lemma_checksum_stored_verifies, sum_spec, valid};
use crate::wire::{be16_at, bump, get16, inc, ip_eq, put16, set16};

verus! {

/// Ethernet header length.
pub const ETH_HDR: usize = 14;
/// Minimum IHL (20-byte header).
pub const IHL_MIN: u8 = 5;
/// Version 4, the high nibble of the first byte.
pub const VERSION: u8 = 4;
/// ICMP protocol number.
pub const PROTO_ICMP: u8 = 1;
/// UDP protocol number.
pub const PROTO_UDP: u8 = 17;
/// TCP protocol number.
pub const PROTO_TCP: u8 = 6;
/// More-Fragments bit in the flags+offset word.
pub const MF: u16 = 0x2000;
/// 13-bit fragment offset mask.
pub const OFF_MASK: u16 = 0x1fff;
/// Don't-Fragment: set on transmit, not dropped on receive.
pub const DF: u16 = 0x4000;

/// An IPv4 datagram for us: payload from IHL*4 to Total Length.
pub struct Datagram<'a> {
    pub src: [u8; 4],
    pub proto: u8,
    pub payload: &'a [u8],
}

/// Why a frame was dropped.
#[derive(Clone, Copy, Debug, PartialEq, Eq, Structural)]
pub enum Ipv4Drop {
    /// Frame, header or Total Length shorter than they must be.
    Short,
    /// Version is not 4.
    Ver,
    /// IHL below 5.
    Ihl,
    /// Header checksum does not verify.
    Csum,
    /// A fragment (MF set or nonzero offset).
    Frag,
    /// Destination is not our address.
    Dst,
    /// Protocol other than ICMP or UDP.
    Proto,
}

/// One counter per rejected shape.
#[derive(Clone, Copy, Debug)]
pub struct Ipv4Counters {
    pub drop_short: u32,
    pub drop_ver: u32,
    pub drop_ihl: u32,
    pub drop_csum: u32,
    pub drop_frag: u32,
    pub drop_dst: u32,
    pub drop_proto: u32,
}

/// Header length in bytes from the IHL nibble of a frame.
pub open spec fn hlen_of(eth: Seq<u8>) -> int {
    (eth[14] % 16) as int * 4
}

/// Total Length of a frame's datagram.
pub open spec fn total_of(eth: Seq<u8>) -> int {
    be16_at(eth, 16) as int
}

/// The verdict on an Ethernet frame already classified as IPv4: a drop
/// reason, or `None` when the datagram is delivered.
pub open spec fn verdict(eth: Seq<u8>, our_ip: Seq<u8>) -> Option<Ipv4Drop> {
    if eth.len() < ETH_HDR + 20 {
        Some(Ipv4Drop::Short)
    } else if eth[14] / 16 != VERSION {
        Some(Ipv4Drop::Ver)
    } else if eth[14] % 16 < IHL_MIN {
        Some(Ipv4Drop::Ihl)
    } else if eth.len() - ETH_HDR < hlen_of(eth) {
        Some(Ipv4Drop::Short)
    } else if total_of(eth) < hlen_of(eth) || ETH_HDR + total_of(eth) > eth.len() {
        Some(Ipv4Drop::Short)
    } else if sum_spec(eth.subrange(14, 14 + hlen_of(eth))) != 0xffff {
        Some(Ipv4Drop::Csum)
    } else if be16_at(eth, 20) & MF != 0 || be16_at(eth, 20) & OFF_MASK != 0 {
        Some(Ipv4Drop::Frag)
    } else if eth.subrange(30, 34) != our_ip {
        Some(Ipv4Drop::Dst)
    } else if eth[23] != PROTO_ICMP && eth[23] != PROTO_UDP {
        Some(Ipv4Drop::Proto)
    } else {
        None
    }
}

pub open spec fn count_drop(c: Ipv4Counters, d: Ipv4Drop) -> Ipv4Counters {
    match d {
        Ipv4Drop::Short => Ipv4Counters { drop_short: inc(c.drop_short), ..c },
        Ipv4Drop::Ver => Ipv4Counters { drop_ver: inc(c.drop_ver), ..c },
        Ipv4Drop::Ihl => Ipv4Counters { drop_ihl: inc(c.drop_ihl), ..c },
        Ipv4Drop::Csum => Ipv4Counters { drop_csum: inc(c.drop_csum), ..c },
        Ipv4Drop::Frag => Ipv4Counters { drop_frag: inc(c.drop_frag), ..c },
        Ipv4Drop::Dst => Ipv4Counters { drop_dst: inc(c.drop_dst), ..c },
        Ipv4Drop::Proto => Ipv4Counters { drop_proto: inc(c.drop_proto), ..c },
    }
}

fn be16(b: &[u8], off: usize) -> (r: u16)
    requires
        off + 1 < b@.len(),
    ensures
        r == be16_at(b@, off as int),
{
    get16(b, off)
}

impl Ipv4Counters {
    pub fn new() -> (c: Ipv4Counters)
        ensures
            c == (Ipv4Counters {
                drop_short: 0,
                drop_ver: 0,
                drop_ihl: 0,
                drop_csum: 0,
                drop_frag: 0,
                drop_dst: 0,
                drop_proto: 0,
            }),
    {
        Ipv4Counters {
            drop_short: 0,
            drop_ver: 0,
            drop_ihl: 0,
            drop_csum: 0,
            drop_frag: 0,
            drop_dst: 0,
            drop_proto: 0,
        }
    }

    fn count(&mut self, d: Ipv4Drop)
        ensures
            *final(self) == count_drop(*old(self), d),
    {
        match d {
            Ipv4Drop::Short => self.drop_short = bump(self.drop_short),
            Ipv4Drop::Ver => self.drop_ver = bump(self.drop_ver),
            Ipv4Drop::Ihl => self.drop_ihl = bump(self.drop_ihl),
            Ipv4Drop::Csum => self.drop_csum = bump(self.drop_csum),
            Ipv4Drop::Frag => self.drop_frag = bump(self.drop_frag),
            Ipv4Drop::Dst => self.drop_dst = bump(self.drop_dst),
            Ipv4Drop::Proto => self.drop_proto = bump(self.drop_proto),
        }
    }

    pub fn drop_short(&self) -> (r: u32)
        ensures
            r == self.drop_short,
    {
        self.drop_short
    }

    pub fn drop_ver(&self) -> (r: u32)
        ensures
            r == self.drop_ver,
    {
        self.drop_ver
    }

    pub fn drop_ihl(&self) -> (r: u32)
        ensures
            r == self.drop_ihl,
    {
        self.drop_ihl
    }

    pub fn drop_csum(&self) -> (r: u32)
        ensures
            r == self.drop_csum,
    {
        self.drop_csum
    }

    pub fn drop_frag(&self) -> (r: u32)
        ensures
            r == self.drop_frag,
    {
        self.drop_frag
    }

    pub fn drop_dst(&self) -> (r: u32)
        ensures
            r == self.drop_dst,
    {
        self.drop_dst
    }

    pub fn drop_proto(&self) -> (r: u32)
        ensures
            r == self.drop_proto,
    {
        self.drop_proto
    }
}

/// Parse an Ethernet frame already classified as EtherType IPv4. A drop
/// increments its counter and names the reason.
pub fn parse<'a>(counters: &mut Ipv4Counters, eth: &'a [u8], our_ip: &[u8; 4]) -> (r: Result<
    Datagram<'a>,
    Ipv4Drop,
>)
    ensures
        match verdict(eth@, our_ip@) {
            Some(d) => r == Err::<Datagram<'a>, Ipv4Drop>(d) && *final(counters) == count_drop(
                *old(counters),
                d,
            ),
            None => *final(counters) == *old(counters) && r is Ok,
        },
        r matches Ok(dg) ==> {
            &&& dg.src@ == eth@.subrange(26, 30)
            &&& dg.proto == eth@[23]
            &&& dg.payload@ == eth@.subrange(14 + hlen_of(eth@), 14 + total_of(eth@))
        },
{
    let d = parse_inner(eth, our_ip);
    match d {
        Ok(dg) => Ok(dg),
        Err(e) => {
            counters.count(e);
            Err(e)
        },
    }
}

fn parse_inner<'a>(eth: &'a [u8], our_ip: &[u8; 4]) -> (r: Result<Datagram<'a>, Ipv4Drop>)
    ensures
        match verdict(eth@, our_ip@) {
            Some(d) => r == Err::<Datagram<'a>, Ipv4Drop>(d),
            None => r is Ok,
        },
        r matches Ok(dg) ==> {
            &&& dg.src@ == eth@.subrange(26, 30)
            &&& dg.proto == eth@[23]
            &&& dg.payload@ == eth@.subrange(14 + hlen_of(eth@), 14 + total_of(eth@))
        },
{
    if eth.len() < ETH_HDR + 20 {
        return Err(Ipv4Drop::Short);
    }
    let b0 = eth[ETH_HDR];
    let ver = b0 / 16;
    if ver != VERSION {
        return Err(Ipv4Drop::Ver);
    }
    let ihl = b0 % 16;
    if ihl < IHL_MIN {
        return Err(Ipv4Drop::Ihl);
    }
    let hlen = (ihl as usize) * 4;
    if eth.len() - ETH_HDR < hlen {
        return Err(Ipv4Drop::Short);
    }
    let tot = be16(eth, ETH_HDR + 2) as usize;
    if tot < hlen || tot > eth.len() - ETH_HDR {
        return Err(Ipv4Drop::Short);
    }
    if !valid(vstd::slice::slice_subrange(eth, ETH_HDR, ETH_HDR + hlen)) {
        return Err(Ipv4Drop::Csum);
    }
    let frag = be16(eth, ETH_HDR + 6);
    if frag & MF != 0 || frag & OFF_MASK != 0 {
        return Err(Ipv4Drop::Frag);
    }
    let src: [u8; 4] = [eth[26], eth[27], eth[28], eth[29]];
    let dst: [u8; 4] = [eth[30], eth[31], eth[32], eth[33]];
    assert(src@ =~= eth@.subrange(26, 30));
    assert(dst@ =~= eth@.subrange(30, 34));
    if !ip_eq(&dst, our_ip) {
        return Err(Ipv4Drop::Dst);
    }
    let proto = eth[ETH_HDR + 9];
    if proto != PROTO_ICMP && proto != PROTO_UDP {
        return Err(Ipv4Drop::Proto);
    }
    Ok(
        Datagram {
            src,
            proto,
            payload: vstd::slice::slice_subrange(eth, ETH_HDR + hlen, ETH_HDR + tot),
        },
    )
}

/// The 20 header bytes before the checksum goes in: IHL 5, DF, TTL 64.
pub open spec fn header_unsummed(total: u16, proto: u8, src: Seq<u8>, dst: Seq<u8>) -> Seq<u8> {
    seq![
        (VERSION * 16 + IHL_MIN) as u8,
        0u8,
        (total / 256) as u8,
        (total % 256) as u8,
        0u8,
        0u8,
        0x40u8,
        0u8,
        64u8,
        proto,
        0u8,
        0u8,
    ] + src + dst
}

/// The 20 header bytes `write_header` produces.
pub open spec fn header20(total: u16, proto: u8, src: Seq<u8>, dst: Seq<u8>) -> Seq<u8> {
    let h = header_unsummed(total, proto, src, dst);
    put16(h, 10, (0xffff - sum_spec(h)) as u16)
}

/// Write a 20-byte IPv4 header (IHL=5, DF, TTL 64) at the start of `ip`,
/// checksum last.
pub fn write_header(ip: &mut [u8], total: u16, proto: u8, src: &[u8; 4], dst: &[u8; 4])
    requires
        old(ip)@.len() >= 20,
    ensures
        final(ip)@.len() == old(ip)@.len(),
        final(ip)@.subrange(0, 20) == header20(total, proto, src@, dst@),
        final(ip)@.subrange(20, final(ip)@.len() as int) == old(ip)@.subrange(
            20,
            old(ip)@.len() as int,
        ),
        sum_spec(final(ip)@.subrange(0, 20)) == 0xffff,
{
    ip[0] = VERSION * 16 + IHL_MIN;
    ip[1] = 0;
    set16(ip, 2, total);
    ip[4] = 0;
    ip[5] = 0;
    set16(ip, 6, DF);
    ip[8] = 64;
    ip[9] = proto;
    ip[10] = 0;
    ip[11] = 0;
    ip[12] = src[0];
    ip[13] = src[1];
    ip[14] = src[2];
    ip[15] = src[3];
    ip[16] = dst[0];
    ip[17] = dst[1];
    ip[18] = dst[2];
    ip[19] = dst[3];
    let ghost h = header_unsummed(total, proto, src@, dst@);
    assert(ip@.subrange(0, 20) =~= h);
    let c = checksum(vstd::slice::slice_subrange(ip, 0, 20));
    let ghost before = ip@;
    set16(ip, 10, c);
    proof {
        assert(ip@.subrange(0, 20) =~= put16(h, 10, c));
        assert(ip@.subrange(20, ip@.len() as int) =~= before.subrange(20, ip@.len() as int));
        lemma_checksum_stored_verifies(h, 10);
    }
}

/// What a delivered datagram is, byte by byte: a whole (unfragmented)
/// IPv4 datagram with a header of at least 20 bytes inside its Total
/// Length, which fits the frame, addressed to `our_ip`, carrying ICMP or
/// UDP, and whose header sums to 0xffff. Whole means the More Fragments
/// bit (0x20 of byte 20) and the 13-bit fragment offset (the low 5 bits of
/// byte 20 and all of byte 21) are all zero; only the Don't Fragment and
/// reserved bits may be set.
pub proof fn lemma_delivered_is_whole_and_ours(eth: Seq<u8>, our_ip: Seq<u8>)
    requires
        verdict(eth, our_ip) is None,
    ensures
        eth.len() >= 34,
        eth[14] / 16 == 4,
        20 <= (eth[14] % 16) * 4 <= eth[16] as int * 256 + eth[17] as int,
        14 + eth[16] as int * 256 + eth[17] as int <= eth.len(),
        eth[20] % 64 == 0,
        eth[21] == 0,
        eth.subrange(30, 34) == our_ip,
        eth[23] == 1 || eth[23] == 17,
        sum_spec(eth.subrange(14, 14 + (eth[14] % 16) * 4)) == 0xffff,
{
    let hi = eth[20];
    let lo = eth[21];
    let x = be16_at(eth, 20);
    assert(x == (hi as u16) * 256 + (lo as u16));
    assert(x & 0x2000u16 == 0 && x & 0x1fffu16 == 0 && x == (hi as u16) * 256 + (lo as u16) ==> hi % 64 == 0
        && lo == 0) by (bit_vector);
    assert(be16_at(eth, 16) as int == eth[16] as int * 256 + eth[17] as int);
}

/// A frame carrying a header built by `write_header` to our address, with
/// ICMP or UDP as protocol and a Total Length that fits the frame, is
/// delivered by `parse`: the payload starts right after the 20-byte header.
pub proof fn lemma_built_header_parses(
    eth: Seq<u8>,
    total: u16,
    proto: u8,
    src: Seq<u8>,
    our_ip: Seq<u8>,
)
    requires
        src.len() == 4,
        our_ip.len() == 4,
        eth.len() >= 34,
        eth.subrange(14, 34) == header20(total, proto, src, our_ip),
        20 <= total,
        14 + total <= eth.len(),
        proto == PROTO_ICMP || proto == PROTO_UDP,
    ensures
        verdict(eth, our_ip) is None,
        hlen_of(eth) == 20,
        total_of(eth) == total,
        eth.subrange(26, 30) == src,
        eth[23] == proto,
{
    let h = header_unsummed(total, proto, src, our_ip);
    let c = (0xffff - sum_spec(h)) as u16;
    lemma_checksum_stored_verifies(h, 10);
    assert(put16(h, 10, c) == h.update(10, (c / 256) as u8).update(11, (c % 256) as u8));
    let hb = eth.subrange(14, 34);
    assert(eth[14] == hb[0]);
    assert(eth[16] == hb[2] && eth[17] == hb[3]);
    assert(eth[20] == hb[6] && eth[21] == hb[7]);
    assert(eth[23] == hb[9]);
    assert(eth.subrange(30, 34) =~= hb.subrange(16, 20));
    assert(eth.subrange(26, 30) =~= hb.subrange(12, 16));
    assert(hb.subrange(16, 20) =~= our_ip);
    assert(hb.subrange(12, 16) =~= src);
    assert(be16_at(eth, 20) == 0x4000);
    assert(0x4000u16 & MF == 0 && 0x4000u16 & OFF_MASK == 0) by (bit_vector);
    assert(be16_at(eth, 16) == total) by {
        vstd::arithmetic::div_mod::lemma_fundamental_div_mod(total as int, 256);
    }
}

} // verus!
