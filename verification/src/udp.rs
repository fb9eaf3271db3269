//! UDP parse, echo, and the pseudo-header checksum (RFC 768).
//!
//! The checksum covers the 12-byte IPv4 pseudo-header (source, destination,
//! zero, protocol 17, UDP length) plus the datagram; the length is summed
//! twice, once in each. A computed 0 is transmitted as 0xFFFF. A received 0
//! is dropped: stricter than RFC 768, which lets 0 mean "no checksum".
//! The echo mirrors payload and length, swaps the ports and recomputes the
//! checksum.

use vstd::prelude::*;
use crate::checksum::{lemma_transport_stored_verifies, pseudo_header_spec, transport_sum, transport_sum_spec};
use crate::ipv4::PROTO_UDP;
use crate::wire::{be16_at, bump, get16, inc, lemma_put16, put16, put_seq, set16, set_bytes};

verus! {

/// UDP header length.
pub const HDR: usize = 8;
/// Echo port.
pub const ECHO_PORT: u16 = 7;

/// A datagram for the echo port.
pub struct Echo<'a> {
    pub src_port: u16,
    pub raw: &'a [u8],
}

/// Why a datagram was dropped.
#[derive(Clone, Copy, Debug, PartialEq, Eq, Structural)]
pub enum UdpDrop {
    /// Shorter than the 8-byte header.
    Short,
    /// Length field differs from the datagram's length.
    Len,
    /// Checksum 0 (not allowed here) or not verifying.
    Csum,
    /// Destination port is not the echo port.
    Port,
}

#[derive(Clone, Copy, Debug)]
pub struct UdpCounters {
    pub drop_short: u32,
    pub drop_len: u32,
    pub drop_csum: u32,
    pub drop_port: u32,
}

/// The pseudo-header for a UDP datagram from `src` to `dst`.
pub open spec fn udp_pseudo(src: Seq<u8>, dst: Seq<u8>, udp: Seq<u8>) -> Seq<u8> {
    pseudo_header_spec(src, dst, PROTO_UDP, udp.len() as u16)
}

/// The one's-complement sum over pseudo-header and datagram.
pub open spec fn udp_sum_spec(src: Seq<u8>, dst: Seq<u8>, udp: Seq<u8>) -> u16 {
    transport_sum_spec(udp_pseudo(src, dst, udp), udp)
}

/// What goes into the checksum field: 0 is sent as 0xFFFF.
pub open spec fn stored(c: u16) -> u16 {
    if c == 0 {
        0xffff
    } else {
        c
    }
}

/// The verdict on a datagram from `src` to `dst`: a drop reason, or `None`
/// when it is for the echo port.
pub open spec fn verdict(p: Seq<u8>, src: Seq<u8>, dst: Seq<u8>) -> Option<UdpDrop> {
    if p.len() < HDR {
        Some(UdpDrop::Short)
    } else if be16_at(p, 4) != p.len() {
        Some(UdpDrop::Len)
    } else if be16_at(p, 6) == 0 {
        Some(UdpDrop::Csum)
    } else if udp_sum_spec(src, dst, p) != 0xffff {
        Some(UdpDrop::Csum)
    } else if be16_at(p, 2) != ECHO_PORT {
        Some(UdpDrop::Port)
    } else {
        None
    }
}

pub open spec fn count_drop(c: UdpCounters, d: UdpDrop) -> UdpCounters {
    match d {
        UdpDrop::Short => UdpCounters { drop_short: inc(c.drop_short), ..c },
        UdpDrop::Len => UdpCounters { drop_len: inc(c.drop_len), ..c },
        UdpDrop::Csum => UdpCounters { drop_csum: inc(c.drop_csum), ..c },
        UdpDrop::Port => UdpCounters { drop_port: inc(c.drop_port), ..c },
    }
}

fn be16(b: &[u8], off: usize) -> (r: u16)
    requires
        off + 1 < b@.len(),
    ensures
        r == be16_at(b@, off as int),
{
    get16(b, off)
}

impl UdpCounters {
    pub fn new() -> (c: UdpCounters)
        ensures
            c == (UdpCounters { drop_short: 0, drop_len: 0, drop_csum: 0, drop_port: 0 }),
    {
        UdpCounters { drop_short: 0, drop_len: 0, drop_csum: 0, drop_port: 0 }
    }
}

/// RFC 768 pseudo-header: src, dst, zero, protocol 17, UDP length.
pub fn pseudo_header(src: &[u8; 4], dst: &[u8; 4], udp_len: u16) -> (p: [u8; 12])
    ensures
        p@ == pseudo_header_spec(src@, dst@, PROTO_UDP, udp_len),
{
    let p: [u8; 12] = [
        src[0],
        src[1],
        src[2],
        src[3],
        dst[0],
        dst[1],
        dst[2],
        dst[3],
        0,
        PROTO_UDP,
        (udp_len / 256) as u8,
        (udp_len % 256) as u8,
    ];
    assert(p@ =~= pseudo_header_spec(src@, dst@, PROTO_UDP, udp_len));
    p
}

/// One's-complement sum of pseudo-header and datagram (checksum field
/// included as stored), folded.
fn udp_sum(src: &[u8; 4], dst: &[u8; 4], udp: &[u8]) -> (r: u16)
    ensures
        r == udp_sum_spec(src@, dst@, udp@),
{
    let pseudo = pseudo_header(src, dst, udp.len() as u16);
    transport_sum(pseudo.as_slice(), udp)
}

/// Value to store in the UDP checksum field: `0` becomes `0xFFFF`.
pub fn store_checksum(c: u16) -> (r: u16)
    ensures
        r == stored(c),
{
    if c == 0 {
        0xffff
    } else {
        c
    }
}

/// Value to store in the UDP checksum field of `udp` (field zeroed).
pub fn checksum_tx(src: &[u8; 4], dst: &[u8; 4], udp: &[u8]) -> (r: u16)
    ensures
        r == stored((0xffff - udp_sum_spec(src@, dst@, udp@)) as u16),
{
    let s = udp_sum(src, dst, udp);
    store_checksum(0xffff - s)
}

pub fn checksum_valid(src: &[u8; 4], dst: &[u8; 4], udp: &[u8]) -> (r: bool)
    ensures
        r == (udp_sum_spec(src@, dst@, udp@) == 0xffff),
{
    udp_sum(src, dst, udp) == 0xffff
}

/// Parse a UDP datagram destined for us; `src`/`dst` are the IPv4
/// addresses of the pseudo-header. A drop increments its counter.
pub fn parse<'a>(counters: &mut UdpCounters, payload: &'a [u8], src: &[u8; 4], dst: &[u8; 4]) -> (r:
    Result<Echo<'a>, UdpDrop>)
    ensures
        match verdict(payload@, src@, dst@) {
            Some(d) => r == Err::<Echo<'a>, UdpDrop>(d) && *final(counters) == count_drop(
                *old(counters),
                d,
            ),
            None => *final(counters) == *old(counters) && r is Ok,
        },
        r matches Ok(e) ==> e.src_port == be16_at(payload@, 0) && e.raw@ == payload@,
{
    if payload.len() < HDR {
        counters.drop_short = bump(counters.drop_short);
        return Err(UdpDrop::Short);
    }
    let ulen = be16(payload, 4) as usize;
    if ulen != payload.len() {
        counters.drop_len = bump(counters.drop_len);
        return Err(UdpDrop::Len);
    }
    let csum = be16(payload, 6);
    if csum == 0 {
        counters.drop_csum = bump(counters.drop_csum);
        return Err(UdpDrop::Csum);
    }
    if !checksum_valid(src, dst, payload) {
        counters.drop_csum = bump(counters.drop_csum);
        return Err(UdpDrop::Csum);
    }
    let dport = be16(payload, 2);
    if dport != ECHO_PORT {
        counters.drop_port = bump(counters.drop_port);
        return Err(UdpDrop::Port);
    }
    Ok(Echo { src_port: be16(payload, 0), raw: payload })
}

impl<'a> Echo<'a> {
    /// The data after the 8-byte header.
    pub fn payload(&self) -> (r: &'a [u8])
        requires
            self.raw@.len() >= HDR,
        ensures
            r@ == self.raw@.subrange(HDR as int, self.raw@.len() as int),
    {
        vstd::slice::slice_subrange(self.raw, HDR, self.raw.len())
    }
}

/// A datagram before its checksum goes in.
pub open spec fn dgram_unsummed(src_port: u16, dst_port: u16, payload: Seq<u8>) -> Seq<u8> {
    let n = (HDR + payload.len()) as u16;
    seq![
        (src_port / 256) as u8,
        (src_port % 256) as u8,
        (dst_port / 256) as u8,
        (dst_port % 256) as u8,
        (n / 256) as u8,
        (n % 256) as u8,
        0u8,
        0u8,
    ] + payload
}

/// The datagram `write_dgram` produces.
pub open spec fn dgram(
    src_port: u16,
    dst_port: u16,
    payload: Seq<u8>,
    src_ip: Seq<u8>,
    dst_ip: Seq<u8>,
) -> Seq<u8> {
    let m = dgram_unsummed(src_port, dst_port, payload);
    put16(m, 6, stored((0xffff - udp_sum_spec(src_ip, dst_ip, m)) as u16))
}

/// Build a datagram at the start of `dst_udp`: ports, length, payload,
/// checksum. Returns its length.
pub fn write_dgram(
    dst_udp: &mut [u8],
    src_port: u16,
    dst_port: u16,
    payload: &[u8],
    src_ip: &[u8; 4],
    dst_ip: &[u8; 4],
) -> (n: usize)
    requires
        HDR + payload@.len() <= old(dst_udp)@.len(),
    ensures
        n == HDR + payload@.len(),
        final(dst_udp)@ == put_seq(
            old(dst_udp)@,
            0,
            dgram(src_port, dst_port, payload@, src_ip@, dst_ip@),
        ),
{
    let room = dst_udp.len();
    let n = HDR + payload.len();
    assert(n <= room);
    set16(dst_udp, 0, src_port);
    set16(dst_udp, 2, dst_port);
    set16(dst_udp, 4, #[verifier::truncate] (n as u16));
    dst_udp[6] = 0;
    dst_udp[7] = 0;
    set_bytes(dst_udp, HDR, payload);
    let ghost m = dgram_unsummed(src_port, dst_port, payload@);
    assert(dst_udp@.subrange(0, n as int) =~= m);
    let c = checksum_tx(src_ip, dst_ip, vstd::slice::slice_subrange(dst_udp, 0, n));
    set16(dst_udp, 6, c);
    assert(dst_udp@ =~= put_seq(
        old(dst_udp)@,
        0,
        dgram(src_port, dst_port, payload@, src_ip@, dst_ip@),
    ));
    n
}

/// The echo of request `req` before its checksum goes in: ports swapped.
pub open spec fn echo_unsummed(req: Seq<u8>) -> Seq<u8> {
    req.update(0, req[2]).update(1, req[3]).update(2, req[0]).update(3, req[1]).update(6, 0).update(
        7,
        0,
    )
}

/// The echo `write_echo` produces.
pub open spec fn echo(req: Seq<u8>, src_ip: Seq<u8>, dst_ip: Seq<u8>) -> Seq<u8> {
    let m = echo_unsummed(req);
    put16(m, 6, stored((0xffff - udp_sum_spec(src_ip, dst_ip, m)) as u16))
}

/// Mirror payload and length, swap ports, recompute the checksum; written
/// at the start of `dst_udp`. Returns the length, that of the request.
pub fn write_echo(dst_udp: &mut [u8], req: &[u8], src_ip: &[u8; 4], dst_ip: &[u8; 4]) -> (n: usize)
    requires
        req@.len() >= HDR,
        old(dst_udp)@.len() >= req@.len(),
    ensures
        n == req@.len(),
        final(dst_udp)@ == put_seq(old(dst_udp)@, 0, echo(req@, src_ip@, dst_ip@)),
{
    let n = req.len();
    set_bytes(dst_udp, 0, req);
    dst_udp[0] = req[2];
    dst_udp[1] = req[3];
    dst_udp[2] = req[0];
    dst_udp[3] = req[1];
    dst_udp[6] = 0;
    dst_udp[7] = 0;
    let ghost m = echo_unsummed(req@);
    assert(dst_udp@.subrange(0, n as int) =~= m);
    let c = checksum_tx(src_ip, dst_ip, vstd::slice::slice_subrange(dst_udp, 0, n));
    set16(dst_udp, 6, c);
    assert(dst_udp@ =~= put_seq(old(dst_udp)@, 0, echo(req@, src_ip@, dst_ip@)));
    n
}

proof fn lemma_stored_verifies(src: Seq<u8>, dst: Seq<u8>, m: Seq<u8>)
    requires
        src.len() == 4,
        dst.len() == 4,
        HDR <= m.len() <= 0x10000,
        m[6] == 0,
        m[7] == 0,
    ensures
        ({
            let c = stored((0xffff - udp_sum_spec(src, dst, m)) as u16);
            &&& udp_sum_spec(src, dst, put16(m, 6, c)) == 0xffff
            &&& be16_at(put16(m, 6, c), 6) != 0
        }),
{
    let c = stored((0xffff - udp_sum_spec(src, dst, m)) as u16);
    let pseudo = udp_pseudo(src, dst, m);
    assert(pseudo.len() == 12);
    lemma_transport_stored_verifies(pseudo, m, 6, c);
    lemma_put16(m, 6, c);
    assert(put16(m, 6, c) == m.update(6, (c / 256) as u8).update(7, (c % 256) as u8));
    assert(udp_pseudo(src, dst, put16(m, 6, c)) == pseudo);
}

/// A datagram built for the echo port (payload up to 64 KiB less the
/// header) passes every check of `parse` with the same addresses, and
/// carries the source port and payload it was built with.
pub proof fn lemma_dgram_parses(src_port: u16, payload: Seq<u8>, src_ip: Seq<u8>, dst_ip: Seq<u8>)
    requires
        src_ip.len() == 4,
        dst_ip.len() == 4,
        HDR + payload.len() <= 0xffff,
    ensures
        ({
            let d = dgram(src_port, ECHO_PORT, payload, src_ip, dst_ip);
            &&& verdict(d, src_ip, dst_ip) is None
            &&& be16_at(d, 0) == src_port
            &&& d.subrange(HDR as int, d.len() as int) == payload
        }),
{
    let m = dgram_unsummed(src_port, ECHO_PORT, payload);
    lemma_stored_verifies(src_ip, dst_ip, m);
    let c = stored((0xffff - udp_sum_spec(src_ip, dst_ip, m)) as u16);
    lemma_put16(m, 6, c);
    let d = put16(m, 6, c);
    let n = (HDR + payload.len()) as u16;
    assert(be16_at(d, 4) == n) by {
        vstd::arithmetic::div_mod::lemma_fundamental_div_mod(n as int, 256);
    }
    assert(be16_at(d, 0) == src_port) by {
        vstd::arithmetic::div_mod::lemma_fundamental_div_mod(src_port as int, 256);
    }
    assert(be16_at(d, 2) == ECHO_PORT);
    assert(d.subrange(HDR as int, d.len() as int) =~= payload);
}

/// The echo of a request (up to 64 KiB) verifies against the addresses it
/// is sent with, carries the request's ports swapped, and keeps its length
/// field and payload.
pub proof fn lemma_echo_verifies(req: Seq<u8>, src_ip: Seq<u8>, dst_ip: Seq<u8>)
    requires
        src_ip.len() == 4,
        dst_ip.len() == 4,
        HDR <= req.len() <= 0x10000,
    ensures
        ({
            let e = echo(req, src_ip, dst_ip);
            &&& udp_sum_spec(src_ip, dst_ip, e) == 0xffff
            &&& be16_at(e, 6) != 0
            &&& be16_at(e, 0) == be16_at(req, 2)
            &&& be16_at(e, 2) == be16_at(req, 0)
            &&& be16_at(e, 4) == be16_at(req, 4)
            &&& e.subrange(HDR as int, e.len() as int) == req.subrange(HDR as int, req.len() as int)
        }),
{
    let m = echo_unsummed(req);
    lemma_stored_verifies(src_ip, dst_ip, m);
    let c = stored((0xffff - udp_sum_spec(src_ip, dst_ip, m)) as u16);
    lemma_put16(m, 6, c);
    let e = put16(m, 6, c);
    assert(e.subrange(HDR as int, e.len() as int) =~= req.subrange(HDR as int, req.len() as int));
}

} // verus!
