//! TCP passive open (RFC 793): one listener and one TCB,
//! LISTEN -> SYN_RCVD -> ESTABLISHED.
//!
//! Every segment's data offset comes from the high nibble of byte 12; MSS
//! (option kind 2) is read from the SYN and every other option is skipped
//! by its length byte. A duplicate SYN in SYN_RCVD from the same peer and
//! sequence number re-sends the same SYN/ACK. Checksums use the IPv4
//! pseudo-header both ways. No RST, no data, no close: an unexpected segment
//! is counted and dropped. The initial sequence number is handed in by the
//! caller (the low bits of the time counter).

use vstd::prelude::*;
use crate::checksum::{lemma_transport_stored_verifies, pseudo_header_spec, transport_sum, transport_sum_spec};
use crate::wire::{be16_at, be32_at, bump, get16, get32, inc, ip_eq, put16, put32, set16, set32, lemma_put16, lemma_put32};

verus! {

/// Minimum TCP header: data offset 5.
pub const HDR_MIN: usize = 20;
/// Listen port.
pub const LISTEN_PORT: u16 = 80;
/// Advertised window.
pub const WINDOW: u16 = 8192;
/// MSS assumed when the SYN carries none (RFC 793 default).
pub const DEFAULT_MSS: u16 = 536;
/// MSS we advertise: 1500 - 20 (IPv4) - 20 (TCP).
pub const OUR_MSS: u16 = 1460;
/// SYN/ACK header with an MSS option: data offset 6.
pub const SYNACK_HLEN: usize = 24;
/// TCP protocol number (RFC 793).
pub const PROTO_TCP: u8 = 6;

pub const FIN: u8 = 0x01;
pub const SYN: u8 = 0x02;
pub const RST: u8 = 0x04;
pub const ACK: u8 = 0x10;

pub const OPT_EOL: u8 = 0;
pub const OPT_NOP: u8 = 1;
pub const OPT_MSS: u8 = 2;
pub const OPT_MSS_LEN: u8 = 4;

#[derive(Clone, Copy, Debug, PartialEq, Eq, Structural)]
pub enum State {
    Listen,
    SynRcvd,
    Established,
}

/// The one connection block.
#[derive(Clone, Copy, Debug)]
pub struct Tcb {
    pub state: State,
    pub remote_ip: [u8; 4],
    pub remote_port: u16,
    pub their_isn: u32,
    pub rcv_nxt: u32,
    pub snd_isn: u32,
    pub snd_nxt: u32,
    pub mss: u16,
}

/// Drop and event counters, one per rejected shape.
#[derive(Clone, Copy, Debug)]
pub struct TcpCounters {
    pub drop_short: u32,
    pub drop_doff: u32,
    pub drop_csum: u32,
    pub drop_opt: u32,
    pub drop_port: u32,
    pub drop_noarp: u32,
    pub drop_busy: u32,
    pub drop_unexpected: u32,
    pub established: u32,
}

/// The listener: its TCB and its counters.
#[derive(Clone, Copy, Debug)]
pub struct Tcp {
    pub tcb: Tcb,
    pub counters: TcpCounters,
}

/// SYN/ACK the NIC should transmit. `seq` is our ISN; `ack` is their ISN+1.
#[derive(Clone, Copy, Debug)]
pub struct SynAck {
    pub dst_ip: [u8; 4],
    pub dst_port: u16,
    pub seq: u32,
    pub ack: u32,
}

/// Why a segment was dropped.
#[derive(Clone, Copy, Debug, PartialEq, Eq, Structural)]
pub enum TcpDrop {
    /// Shorter than 20 bytes.
    Short,
    /// Data offset below 5 or past the segment.
    Doff,
    /// Pseudo-header checksum does not verify.
    Csum,
    /// A malformed option in a SYN.
    Opt,
    /// Destination port is not the listen port.
    Port,
    /// A SYN or segment from a peer other than the one in the TCB.
    Busy,
    /// RST, or a segment the state does not expect.
    Unexpected,
}

/// What one segment did.
#[derive(Clone, Copy, Debug)]
pub enum TcpEvent {
    /// LISTEN -> SYN_RCVD; transmit this SYN/ACK.
    SynRcvd(SynAck),
    /// Duplicate SYN in SYN_RCVD; transmit the same SYN/ACK again.
    Resend(SynAck),
    /// SYN_RCVD -> ESTABLISHED. `extra`: the ACK also carried data or FIN,
    /// which was counted as unexpected.
    Established { extra: bool },
    /// Dropped, and counted.
    Dropped(TcpDrop),
}

impl Tcb {
    /// Outside LISTEN, the next sequence numbers are the two initial ones
    /// plus one (the SYNs each consumed one number).
    pub open spec fn wf(self) -> bool {
        self.state != State::Listen ==> self.rcv_nxt == inc(self.their_isn) && self.snd_nxt == inc(self.snd_isn)
    }
}

impl TcpEvent {
    /// The segment the NIC should transmit, if any.
    pub open spec fn reply(self) -> Option<SynAck> {
        match self {
            TcpEvent::SynRcvd(s) => Some(s),
            TcpEvent::Resend(s) => Some(s),
            _ => None,
        }
    }
}

// ---------------------------------------------------------------------------
// Specification of one segment.
// ---------------------------------------------------------------------------

/// Header length from the data offset nibble.
pub open spec fn hlen_of(p: Seq<u8>) -> int {
    (p[12] / 16) as int * 4
}

/// The option walk from byte `i` up to `hlen`: kind 0 ends, kind 1 is one
/// byte, every other kind carries a length byte (at least 2, not past
/// `hlen`); kind 2 must have length 4 and gives the MSS. `None` is a
/// malformed option list.
pub open spec fn mss_walk(hdr: Seq<u8>, hlen: int, i: int, mss: Option<u16>) -> Option<u16>
    decreases hlen - i,
{
    if i >= hlen || hdr[i] == OPT_EOL {
        Some(
            match mss {
                Some(m) => m,
                None => DEFAULT_MSS,
            },
        )
    } else if hdr[i] == OPT_NOP {
        mss_walk(hdr, hlen, i + 1, mss)
    } else if i + 1 >= hlen {
        None
    } else {
        let len = hdr[i + 1] as int;
        if len < 2 || i + len > hlen {
            None
        } else if hdr[i] == OPT_MSS {
            if len != OPT_MSS_LEN {
                None
            } else {
                mss_walk(hdr, hlen, i + len, Some(be16_at(hdr, i + 2)))
            }
        } else {
            mss_walk(hdr, hlen, i + len, mss)
        }
    }
}

/// The pseudo-header for a TCP segment from `src` to `dst`.
pub open spec fn tcp_pseudo(src: Seq<u8>, dst: Seq<u8>, seg: Seq<u8>) -> Seq<u8> {
    pseudo_header_spec(src, dst, PROTO_TCP, seg.len() as u16)
}

/// The checks every segment passes before the TCB is looked at.
pub open spec fn precheck(p: Seq<u8>, src: Seq<u8>, dst: Seq<u8>) -> Option<TcpDrop> {
    if p.len() < HDR_MIN {
        Some(TcpDrop::Short)
    } else if p[12] / 16 < 5 || p.len() < hlen_of(p) {
        Some(TcpDrop::Doff)
    } else if transport_sum_spec(tcp_pseudo(src, dst, p), p) != 0xffff {
        Some(TcpDrop::Csum)
    } else if be16_at(p, 2) != LISTEN_PORT {
        Some(TcpDrop::Port)
    } else if p[13] & RST != 0 {
        Some(TcpDrop::Unexpected)
    } else {
        None
    }
}

pub open spec fn count_drop(c: TcpCounters, d: TcpDrop) -> TcpCounters {
    match d {
        TcpDrop::Short => TcpCounters { drop_short: inc(c.drop_short), ..c },
        TcpDrop::Doff => TcpCounters { drop_doff: inc(c.drop_doff), ..c },
        TcpDrop::Csum => TcpCounters { drop_csum: inc(c.drop_csum), ..c },
        TcpDrop::Opt => TcpCounters { drop_opt: inc(c.drop_opt), ..c },
        TcpDrop::Port => TcpCounters { drop_port: inc(c.drop_port), ..c },
        TcpDrop::Busy => TcpCounters { drop_busy: inc(c.drop_busy), ..c },
        TcpDrop::Unexpected => TcpCounters { drop_unexpected: inc(c.drop_unexpected), ..c },
    }
}

pub open spec fn dropped(t: Tcp, d: TcpDrop) -> (Tcp, TcpEvent) {
    (Tcp { counters: count_drop(t.counters, d), ..t }, TcpEvent::Dropped(d))
}

pub open spec fn same_peer(tcb: Tcb, src: [u8; 4], sport: u16) -> bool {
    tcb.remote_ip@ == src@ && tcb.remote_port == sport
}

/// One segment `p` from `src` to `dst`, with `isn` as our initial sequence
/// number should it open a connection: the listener afterwards and what
/// the segment did.
pub open spec fn step(t: Tcp, p: Seq<u8>, src: [u8; 4], dst: [u8; 4], isn: u32) -> (Tcp, TcpEvent) {
    match precheck(p, src@, dst@) {
        Some(d) => dropped(t, d),
        None => {
            let sport = be16_at(p, 0);
            let seq = be32_at(p, 4);
            let ack = be32_at(p, 8);
            let flags = p[13];
            let tcb = t.tcb;
            if flags & SYN != 0 && flags & ACK == 0 {
                match mss_walk(p, hlen_of(p), HDR_MIN as int, None) {
                    None => dropped(t, TcpDrop::Opt),
                    Some(mss) => {
                        if tcb.state == State::Listen {
                            let rcv_nxt = if seq == 0xffff_ffff { 0 } else { (seq + 1) as u32 };
                            let snd_nxt = if isn == 0xffff_ffff { 0 } else { (isn + 1) as u32 };
                            let tcb2 = Tcb {
                                state: State::SynRcvd,
                                remote_ip: src,
                                remote_port: sport,
                                their_isn: seq,
                                rcv_nxt,
                                snd_isn: isn,
                                snd_nxt,
                                mss,
                            };
                            (
                                Tcp { tcb: tcb2, ..t },
                                TcpEvent::SynRcvd(
                                    SynAck { dst_ip: src, dst_port: sport, seq: isn, ack: rcv_nxt },
                                ),
                            )
                        } else if tcb.state == State::SynRcvd && same_peer(tcb, src, sport) && seq
                            == tcb.their_isn {
                            (
                                t,
                                TcpEvent::Resend(
                                    SynAck {
                                        dst_ip: tcb.remote_ip,
                                        dst_port: tcb.remote_port,
                                        seq: tcb.snd_isn,
                                        ack: tcb.rcv_nxt,
                                    },
                                ),
                            )
                        } else {
                            dropped(t, TcpDrop::Busy)
                        }
                    },
                }
            } else if tcb.state == State::Listen {
                dropped(t, TcpDrop::Unexpected)
            } else if tcb.state == State::SynRcvd && same_peer(tcb, src, sport) {
                if flags & ACK != 0 && flags & SYN == 0 && ack == tcb.snd_nxt && seq == tcb.rcv_nxt {
                    let extra = p.len() - hlen_of(p) != 0 || flags & FIN != 0;
                    let c1 = TcpCounters { established: inc(t.counters.established), ..t.counters };
                    let c2 = if extra {
                        TcpCounters { drop_unexpected: inc(c1.drop_unexpected), ..c1 }
                    } else {
                        c1
                    };
                    (
                        Tcp { tcb: Tcb { state: State::Established, ..tcb }, counters: c2 },
                        TcpEvent::Established { extra },
                    )
                } else {
                    dropped(t, TcpDrop::Unexpected)
                }
            } else if tcb.state == State::Established && same_peer(tcb, src, sport) {
                dropped(t, TcpDrop::Unexpected)
            } else {
                dropped(t, TcpDrop::Busy)
            }
        },
    }
}

/// A segment that passes the common checks and is a SYN (no ACK) with a
/// well-formed option list.
pub open spec fn is_good_syn(p: Seq<u8>, src: [u8; 4], dst: [u8; 4]) -> bool {
    &&& precheck(p, src@, dst@).is_none()
    &&& p[13] & SYN != 0
    &&& p[13] & ACK == 0
    &&& mss_walk(p, hlen_of(p), HDR_MIN as int, None).is_some()
}

/// The passive open: a good SYN in LISTEN answers with a SYN/ACK whose
/// sequence number is our ISN and whose acknowledgement is the peer's ISN
/// plus one; the peer's ACK of our ISN plus one, with its ISN plus one as
/// sequence number, from the same address and port, establishes the
/// connection and counts it.
pub proof fn lemma_handshake(
    t: Tcp,
    syn: Seq<u8>,
    ack: Seq<u8>,
    src: [u8; 4],
    dst: [u8; 4],
    isn: u32,
    isn2: u32,
)
    requires
        t.tcb.state == State::Listen,
        is_good_syn(syn, src, dst),
        precheck(ack, src@, dst@).is_none(),
        ack[13] & ACK != 0,
        ack[13] & SYN == 0,
        be16_at(ack, 0) == be16_at(syn, 0),
        be32_at(ack, 8) == inc(isn),
        be32_at(ack, 4) == inc(be32_at(syn, 4)),
    ensures
        ({
            let (t1, e1) = step(t, syn, src, dst, isn);
            let (t2, e2) = step(t1, ack, src, dst, isn2);
            &&& e1 == TcpEvent::SynRcvd(
                SynAck {
                    dst_ip: src,
                    dst_port: be16_at(syn, 0),
                    seq: isn,
                    ack: inc(be32_at(syn, 4)),
                },
            )
            &&& t1.tcb.state == State::SynRcvd
            &&& t1.counters == t.counters
            &&& t2.tcb.state == State::Established
            &&& e2 is Established
            &&& t2.counters.established == inc(t.counters.established)
        }),
{
}

/// A retransmitted SYN (same peer, same sequence number) while in
/// SYN_RCVD is answered with exactly the SYN/ACK sent the first time and
/// leaves the listener unchanged.
pub proof fn lemma_duplicate_syn_same_synack(
    t: Tcp,
    syn: Seq<u8>,
    src: [u8; 4],
    dst: [u8; 4],
    isn: u32,
    isn2: u32,
)
    requires
        t.tcb.state == State::Listen,
        is_good_syn(syn, src, dst),
    ensures
        ({
            let (t1, e1) = step(t, syn, src, dst, isn);
            let (t2, e2) = step(t1, syn, src, dst, isn2);
            &&& t2 == t1
            &&& e2.reply() == e1.reply()
            &&& e2 is Resend
        }),
{
}

/// Once established, no segment changes the TCB.
pub proof fn lemma_established_is_final(
    t: Tcp,
    p: Seq<u8>,
    src: [u8; 4],
    dst: [u8; 4],
    isn: u32,
)
    requires
        t.tcb.state == State::Established,
    ensures
        step(t, p, src, dst, isn).0.tcb == t.tcb,
        step(t, p, src, dst, isn).1.reply().is_none(),
{
}

/// Every segment keeps the connection's sequence numbers tied to the two
/// initial ones.
pub proof fn lemma_step_keeps_tcb_wf(t: Tcp, p: Seq<u8>, src: [u8; 4], dst: [u8; 4], isn: u32)
    requires
        t.tcb.wf(),
    ensures
        step(t, p, src, dst, isn).0.tcb.wf(),
{
}

/// A dropped segment changes nothing but its own counter.
pub proof fn lemma_drop_counts_only(t: Tcp, p: Seq<u8>, src: [u8; 4], dst: [u8; 4], isn: u32)
    ensures
        step(t, p, src, dst, isn).1 matches TcpEvent::Dropped(d) ==> step(t, p, src, dst, isn).0
            == (Tcp { counters: count_drop(t.counters, d), ..t }),
{
}

/// Only the peer's acknowledgement of our SYN opens the connection. A
/// segment that takes the listener to Established arrived in SYN_RCVD from
/// the handshake's peer, carries ACK without SYN, acknowledges our initial
/// sequence number plus one (mod 2^32) and starts at the peer's initial
/// sequence number plus one.
pub proof fn lemma_established_only_by_our_ack(t: Tcp, p: Seq<u8>, src: [u8; 4], dst: [u8; 4], isn: u32)
    requires
        t.tcb.wf(),
        t.tcb.state != State::Established,
        step(t, p, src, dst, isn).0.tcb.state == State::Established,
    ensures
        t.tcb.state == State::SynRcvd,
        src@ == t.tcb.remote_ip@,
        be16_at(p, 0) == t.tcb.remote_port,
        p[13] & ACK != 0,
        p[13] & SYN == 0,
        be32_at(p, 8) as int == (t.tcb.snd_isn as int + 1) % 0x1_0000_0000,
        be32_at(p, 4) as int == (t.tcb.their_isn as int + 1) % 0x1_0000_0000,
{
}

/// In SYN_RCVD a segment without SYN whose acknowledgement number is not
/// our initial sequence number plus one leaves the connection as it was;
/// from the handshake's peer it is dropped as unexpected.
pub proof fn lemma_wrong_ack_keeps_syn_rcvd(t: Tcp, p: Seq<u8>, src: [u8; 4], dst: [u8; 4], isn: u32)
    requires
        t.tcb.wf(),
        t.tcb.state == State::SynRcvd,
        precheck(p, src@, dst@).is_none(),
        p[13] & SYN == 0,
        be32_at(p, 8) as int != (t.tcb.snd_isn as int + 1) % 0x1_0000_0000,
    ensures
        step(t, p, src, dst, isn).0.tcb == t.tcb,
        src@ == t.tcb.remote_ip@ && be16_at(p, 0) == t.tcb.remote_port ==> step(t, p, src, dst, isn).1
            == TcpEvent::Dropped(TcpDrop::Unexpected),
{
}

// ---------------------------------------------------------------------------
// Code.
// ---------------------------------------------------------------------------

fn be16(b: &[u8], off: usize) -> (r: u16)
    requires
        off + 1 < b@.len(),
    ensures
        r == be16_at(b@, off as int),
{
    get16(b, off)
}

fn be32(b: &[u8], off: usize) -> (r: u32)
    requires
        off + 3 < b@.len(),
    ensures
        r == be32_at(b@, off as int),
{
    get32(b, off)
}

/// RFC 793 pseudo-header: src, dst, zero, protocol 6, TCP length.
pub fn pseudo_header(src: &[u8; 4], dst: &[u8; 4], tcp_len: u16) -> (p: [u8; 12])
    ensures
        p@ == pseudo_header_spec(src@, dst@, PROTO_TCP, tcp_len),
{
    let p: [u8; 12] = [
        src[0],
        src[1],
        src[2],
        src[3],
        dst[0],
        dst[1],
        dst[2],
        dst[3],
        0,
        PROTO_TCP,
        (tcp_len / 256) as u8,
        (tcp_len % 256) as u8,
    ];
    assert(p@ =~= pseudo_header_spec(src@, dst@, PROTO_TCP, tcp_len));
    p
}

fn tcp_sum(src: &[u8; 4], dst: &[u8; 4], tcp: &[u8]) -> (r: u16)
    ensures
        r == transport_sum_spec(tcp_pseudo(src@, dst@, tcp@), tcp@),
{
    let pseudo = pseudo_header(src, dst, tcp.len() as u16);
    transport_sum(pseudo.as_slice(), tcp)
}

/// Value to store in the TCP checksum field. Unlike UDP, 0 is left as 0.
pub fn checksum_tx(src: &[u8; 4], dst: &[u8; 4], tcp: &[u8]) -> (r: u16)
    ensures
        r == 0xffff - transport_sum_spec(tcp_pseudo(src@, dst@, tcp@), tcp@),
{
    let s = tcp_sum(src, dst, tcp);
    0xffff - s
}

pub fn checksum_valid(src: &[u8; 4], dst: &[u8; 4], tcp: &[u8]) -> (r: bool)
    ensures
        r == (transport_sum_spec(tcp_pseudo(src@, dst@, tcp@), tcp@) == 0xffff),
{
    tcp_sum(src, dst, tcp) == 0xffff
}

/// Walk the options from byte 20 up to `hlen` and return the peer's MSS
/// (536 when absent); `None` for a malformed option list.
pub fn parse_mss(hdr: &[u8], hlen: usize) -> (r: Option<u16>)
    requires
        hlen <= hdr@.len(),
    ensures
        r == mss_walk(hdr@, hlen as int, HDR_MIN as int, None),
{
    let mut i: usize = HDR_MIN;
    let mut mss: Option<u16> = None;
    while i < hlen
        invariant_except_break
            hlen <= hdr@.len(),
            mss_walk(hdr@, hlen as int, i as int, mss) == mss_walk(
                hdr@,
                hlen as int,
                HDR_MIN as int,
                None,
            ),
        ensures
            mss_walk(hdr@, hlen as int, i as int, mss) == mss_walk(
                hdr@,
                hlen as int,
                HDR_MIN as int,
                None,
            ),
            i >= hlen || hdr@[i as int] == OPT_EOL,
        decreases hlen - i,
    {
        let kind = hdr[i];
        if kind == OPT_EOL {
            break;
        }
        if kind == OPT_NOP {
            i = i + 1;
            continue;
        }
        if i + 1 >= hlen {
            return None;
        }
        let len = hdr[i + 1] as usize;
        if len < 2 || len > hlen - i {
            return None;
        }
        if kind == OPT_MSS {
            if len != OPT_MSS_LEN as usize {
                return None;
            }
            mss = Some(be16(hdr, i + 2));
        }
        i = i + len;
    }
    match mss {
        Some(m) => Some(m),
        None => Some(DEFAULT_MSS),
    }
}

/// The 24 bytes `write_synack` stores, before the checksum goes in.
pub open spec fn synack_bytes(
    before: Seq<u8>,
    src_port: u16,
    dst_port: u16,
    seq: u32,
    ack: u32,
) -> Seq<u8> {
    put16(
        put16(
            put32(put32(put16(put16(before, 0, src_port), 2, dst_port), 4, seq), 8, ack),
            14,
            WINDOW,
        ),
        22,
        OUR_MSS,
    ).update(12, 0x60).update(13, SYN | ACK).update(16, 0).update(17, 0).update(18, 0).update(
        19,
        0,
    ).update(20, OPT_MSS).update(21, OPT_MSS_LEN)
}

/// Write a SYN/ACK with an MSS option (data offset 6) into `dst` and
/// return its length, 24. The checksum covers the pseudo-header from
/// `src_ip` to `dst_ip`.
pub fn write_synack(
    dst: &mut [u8],
    src_port: u16,
    dst_port: u16,
    seq: u32,
    ack: u32,
    src_ip: &[u8; 4],
    dst_ip: &[u8; 4],
) -> (n: usize)
    requires
        old(dst)@.len() >= SYNACK_HLEN,
    ensures
        n == SYNACK_HLEN,
        final(dst)@.len() == old(dst)@.len(),
        ({
            let b = synack_bytes(old(dst)@, src_port, dst_port, seq, ack);
            let hdr = b.subrange(0, 24);
            final(dst)@ == put16(
                b,
                16,
                (0xffff - transport_sum_spec(tcp_pseudo(src_ip@, dst_ip@, hdr), hdr)) as u16,
            )
        }),
        be16_at(final(dst)@, 0) == src_port,
        be16_at(final(dst)@, 2) == dst_port,
        be32_at(final(dst)@, 4) == seq,
        be32_at(final(dst)@, 8) == ack,
        final(dst)@[12] / 16 == 6,
        final(dst)@[13] == SYN | ACK,
        be16_at(final(dst)@, 14) == WINDOW,
        final(dst)@[20] == OPT_MSS && final(dst)@[21] == OPT_MSS_LEN,
        be16_at(final(dst)@, 22) == OUR_MSS,
        transport_sum_spec(
            tcp_pseudo(src_ip@, dst_ip@, final(dst)@.subrange(0, 24)),
            final(dst)@.subrange(0, 24),
        ) == 0xffff,
{
    set16(dst, 0, src_port);
    set16(dst, 2, dst_port);
    set32(dst, 4, seq);
    set32(dst, 8, ack);
    dst[12] = 0x60;
    dst[13] = SYN | ACK;
    set16(dst, 14, WINDOW);
    dst[16] = 0;
    dst[17] = 0;
    dst[18] = 0;
    dst[19] = 0;
    dst[20] = OPT_MSS;
    dst[21] = OPT_MSS_LEN;
    set16(dst, 22, OUR_MSS);
    let ghost b = synack_bytes(old(dst)@, src_port, dst_port, seq, ack);
    assert(dst@ =~= b);
    let c = checksum_tx(src_ip, dst_ip, vstd::slice::slice_subrange(dst, 0, SYNACK_HLEN));
    set16(dst, 16, c);
    proof {
        let s0 = old(dst)@;
        let s1 = put16(s0, 0, src_port);
        let s2 = put16(s1, 2, dst_port);
        let s3 = put32(s2, 4, seq);
        let s4 = put32(s3, 8, ack);
        let s5 = put16(s4, 14, WINDOW);
        let s6 = put16(s5, 22, OUR_MSS);
        lemma_put16(s0, 0, src_port);
        lemma_put16(s1, 2, dst_port);
        lemma_put32(s2, 4, seq);
        lemma_put32(s3, 8, ack);
        lemma_put16(s4, 14, WINDOW);
        lemma_put16(s5, 22, OUR_MSS);
        lemma_put16(b, 16, c);
        let hdr = b.subrange(0, 24);
        assert(be16_at(s6, 0) == src_port);
        assert(be16_at(s6, 2) == dst_port);
        assert(be32_at(s6, 4) == seq);
        assert(be32_at(s6, 8) == ack);
        assert(be16_at(s6, 14) == WINDOW);
        lemma_transport_stored_verifies(tcp_pseudo(src_ip@, dst_ip@, hdr), hdr, 16, c);
        assert(dst@.subrange(0, 24) =~= hdr.update(16, (c / 256) as u8).update(17, (c % 256) as u8));
    }
    SYNACK_HLEN
}

fn same_tuple(tcb: &Tcb, src: &[u8; 4], sport: u16) -> (r: bool)
    ensures
        r == same_peer(*tcb, *src, sport),
{
    ip_eq(&tcb.remote_ip, src) && tcb.remote_port == sport
}

impl TcpCounters {
    fn count(&mut self, d: TcpDrop)
        ensures
            *final(self) == count_drop(*old(self), d),
    {
        match d {
            TcpDrop::Short => self.drop_short = bump(self.drop_short),
            TcpDrop::Doff => self.drop_doff = bump(self.drop_doff),
            TcpDrop::Csum => self.drop_csum = bump(self.drop_csum),
            TcpDrop::Opt => self.drop_opt = bump(self.drop_opt),
            TcpDrop::Port => self.drop_port = bump(self.drop_port),
            TcpDrop::Busy => self.drop_busy = bump(self.drop_busy),
            TcpDrop::Unexpected => self.drop_unexpected = bump(self.drop_unexpected),
        }
    }
}

impl Tcp {
    /// A listener in LISTEN with every counter at zero.
    pub fn new() -> (t: Tcp)
        ensures
            t.tcb.state == State::Listen,
            t.tcb.wf(),
            t.tcb.mss == DEFAULT_MSS,
            t.counters == (TcpCounters {
                drop_short: 0,
                drop_doff: 0,
                drop_csum: 0,
                drop_opt: 0,
                drop_port: 0,
                drop_noarp: 0,
                drop_busy: 0,
                drop_unexpected: 0,
                established: 0,
            }),
    {
        Tcp {
            tcb: Tcb {
                state: State::Listen,
                remote_ip: [0; 4],
                remote_port: 0,
                their_isn: 0,
                rcv_nxt: 0,
                snd_isn: 0,
                snd_nxt: 0,
                mss: DEFAULT_MSS,
            },
            counters: TcpCounters {
                drop_short: 0,
                drop_doff: 0,
                drop_csum: 0,
                drop_opt: 0,
                drop_port: 0,
                drop_noarp: 0,
                drop_busy: 0,
                drop_unexpected: 0,
                established: 0,
            },
        }
    }

    pub fn drop_short(&self) -> (r: u32)
        ensures
            r == self.counters.drop_short,
    {
        self.counters.drop_short
    }

    pub fn drop_doff(&self) -> (r: u32)
        ensures
            r == self.counters.drop_doff,
    {
        self.counters.drop_doff
    }

    pub fn drop_csum(&self) -> (r: u32)
        ensures
            r == self.counters.drop_csum,
    {
        self.counters.drop_csum
    }

    pub fn drop_opt(&self) -> (r: u32)
        ensures
            r == self.counters.drop_opt,
    {
        self.counters.drop_opt
    }

    pub fn drop_port(&self) -> (r: u32)
        ensures
            r == self.counters.drop_port,
    {
        self.counters.drop_port
    }

    pub fn drop_noarp(&self) -> (r: u32)
        ensures
            r == self.counters.drop_noarp,
    {
        self.counters.drop_noarp
    }

    pub fn drop_busy(&self) -> (r: u32)
        ensures
            r == self.counters.drop_busy,
    {
        self.counters.drop_busy
    }

    pub fn drop_unexpected(&self) -> (r: u32)
        ensures
            r == self.counters.drop_unexpected,
    {
        self.counters.drop_unexpected
    }

    pub fn established(&self) -> (r: u32)
        ensures
            r == self.counters.established,
    {
        self.counters.established
    }

    /// The gateway's MAC was not in the ARP cache: count the lost reply.
    pub fn note_noarp(&mut self)
        ensures
            final(self).tcb == old(self).tcb,
            final(self).counters == (TcpCounters {
                drop_noarp: inc(old(self).counters.drop_noarp),
                ..old(self).counters
            }),
    {
        self.counters.drop_noarp = bump(self.counters.drop_noarp);
    }

    fn drop(&mut self, d: TcpDrop) -> (e: TcpEvent)
        ensures
            (*final(self), e) == dropped(*old(self), d),
    {
        self.counters.count(d);
        TcpEvent::Dropped(d)
    }

    /// Parse one segment from `src` to `dst` and drive the TCB. `isn` is
    /// our initial sequence number should this segment open a connection.
    /// Remote bytes never panic.
    pub fn handle(&mut self, payload: &[u8], src: &[u8; 4], dst: &[u8; 4], isn: u32) -> (e:
        TcpEvent)
        ensures
            (*final(self), e) == step(*old(self), payload@, *src, *dst, isn),
            old(self).tcb.wf() ==> final(self).tcb.wf(),
    {
        proof {
            if self.tcb.wf() {
                lemma_step_keeps_tcb_wf(*self, payload@, *src, *dst, isn);
            }
        }
        let ghost p = payload@;
        if payload.len() < HDR_MIN {
            return self.drop(TcpDrop::Short);
        }
        let doff = payload[12] / 16;
        let hlen = (doff as usize) * 4;
        if doff < 5 || hlen < HDR_MIN || payload.len() < hlen {
            return self.drop(TcpDrop::Doff);
        }
        if !checksum_valid(src, dst, payload) {
            return self.drop(TcpDrop::Csum);
        }
        let sport = be16(payload, 0);
        let dport = be16(payload, 2);
        let seq = be32(payload, 4);
        let ack = be32(payload, 8);
        let flags = payload[13];
        let data_len = payload.len() - hlen;
        if dport != LISTEN_PORT {
            return self.drop(TcpDrop::Port);
        }
        if flags & RST != 0 {
            return self.drop(TcpDrop::Unexpected);
        }
        assert(precheck(p, src@, dst@).is_none());
        if flags & SYN != 0 && flags & ACK == 0 {
            let mss = match parse_mss(payload, hlen) {
                Some(m) => m,
                None => {
                    return self.drop(TcpDrop::Opt);
                },
            };
            match self.tcb.state {
                State::Listen => {
                    self.tcb.remote_ip = *src;
                    self.tcb.remote_port = sport;
                    self.tcb.their_isn = seq;
                    self.tcb.rcv_nxt = seq.wrapping_add(1);
                    self.tcb.snd_isn = isn;
                    self.tcb.snd_nxt = isn.wrapping_add(1);
                    self.tcb.mss = mss;
                    self.tcb.state = State::SynRcvd;
                    return TcpEvent::SynRcvd(
                        SynAck {
                            dst_ip: *src,
                            dst_port: sport,
                            seq: self.tcb.snd_isn,
                            ack: self.tcb.rcv_nxt,
                        },
                    );
                },
                State::SynRcvd => {
                    if same_tuple(&self.tcb, src, sport) && seq == self.tcb.their_isn {
                        return TcpEvent::Resend(
                            SynAck {
                                dst_ip: self.tcb.remote_ip,
                                dst_port: self.tcb.remote_port,
                                seq: self.tcb.snd_isn,
                                ack: self.tcb.rcv_nxt,
                            },
                        );
                    }
                    return self.drop(TcpDrop::Busy);
                },
                State::Established => {
                    return self.drop(TcpDrop::Busy);
                },
            }
        }
        match self.tcb.state {
            State::Listen => self.drop(TcpDrop::Unexpected),
            State::SynRcvd => {
                if !same_tuple(&self.tcb, src, sport) {
                    return self.drop(TcpDrop::Busy);
                }
                if flags & ACK != 0 && flags & SYN == 0 && ack == self.tcb.snd_nxt && seq
                    == self.tcb.rcv_nxt {
                    self.tcb.state = State::Established;
                    self.counters.established = bump(self.counters.established);
                    let extra = data_len != 0 || flags & FIN != 0;
                    if extra {
                        self.counters.drop_unexpected = bump(self.counters.drop_unexpected);
                    }
                    TcpEvent::Established { extra }
                } else {
                    self.drop(TcpDrop::Unexpected)
                }
            },
            State::Established => {
                if same_tuple(&self.tcb, src, sport) {
                    self.drop(TcpDrop::Unexpected)
                } else {
                    self.drop(TcpDrop::Busy)
                }
            },
        }
    }
}

} // verus!
