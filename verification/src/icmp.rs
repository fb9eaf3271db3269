//! ICMP echo request and reply (RFC 792).
//!
//! Type 8 becomes type 0 with the same identifier, sequence and data and a
//! new checksum. A truncated or corrupt message is counted and dropped.

use vstd::prelude::*;
use crate::checksum::{checksum, lemma_checksum_stored_verifies, sum_spec, valid};
use crate::wire::{be16_at, bump, get16, inc, lemma_put16, put16, put_seq, set16, set_bytes};

verus! {

/// Echo reply.
pub const TYPE_ECHO_REPLY: u8 = 0;
/// Echo request.
pub const TYPE_ECHO_REQ: u8 = 8;
/// ICMP header length.
pub const HDR: usize = 8;

/// A message that was not dropped.
pub enum Msg<'a> {
    EchoReq { id: u16, seq: u16, raw: &'a [u8] },
    EchoReply { id: u16, seq: u16 },
}

/// Why a message was dropped.
#[derive(Clone, Copy, Debug, PartialEq, Eq, Structural)]
pub enum IcmpDrop {
    /// Shorter than the 8-byte header.
    Short,
    /// Checksum does not verify.
    Csum,
    /// Nonzero code, or a type other than echo request and echo reply.
    Type,
}

#[derive(Clone, Copy, Debug)]
pub struct IcmpCounters {
    pub drop_short: u32,
    pub drop_csum: u32,
    pub drop_type: u32,
}

/// The verdict on an ICMP message: a drop reason, or `None` when it is an
/// echo request or an echo reply.
pub open spec fn verdict(p: Seq<u8>) -> Option<IcmpDrop> {
    if p.len() < HDR {
        Some(IcmpDrop::Short)
    } else if sum_spec(p) != 0xffff {
        Some(IcmpDrop::Csum)
    } else if p[1] != 0 {
        Some(IcmpDrop::Type)
    } else if p[0] != TYPE_ECHO_REQ && p[0] != TYPE_ECHO_REPLY {
        Some(IcmpDrop::Type)
    } else {
        None
    }
}

pub open spec fn count_drop(c: IcmpCounters, d: IcmpDrop) -> IcmpCounters {
    match d {
        IcmpDrop::Short => IcmpCounters { drop_short: inc(c.drop_short), ..c },
        IcmpDrop::Csum => IcmpCounters { drop_csum: inc(c.drop_csum), ..c },
        IcmpDrop::Type => IcmpCounters { drop_type: inc(c.drop_type), ..c },
    }
}

fn be16(b: &[u8], off: usize) -> (r: u16)
    requires
        off + 1 < b@.len(),
    ensures
        r == be16_at(b@, off as int),
{
    get16(b, off)
}

impl IcmpCounters {
    pub fn new() -> (c: IcmpCounters)
        ensures
            c == (IcmpCounters { drop_short: 0, drop_csum: 0, drop_type: 0 }),
    {
        IcmpCounters { drop_short: 0, drop_csum: 0, drop_type: 0 }
    }

    pub fn drop_short(&self) -> (r: u32)
        ensures
            r == self.drop_short,
    {
        self.drop_short
    }

    pub fn drop_csum(&self) -> (r: u32)
        ensures
            r == self.drop_csum,
    {
        self.drop_csum
    }

    pub fn drop_type(&self) -> (r: u32)
        ensures
            r == self.drop_type,
    {
        self.drop_type
    }
}

/// Parse an ICMP message. A drop increments its counter.
pub fn parse<'a>(counters: &mut IcmpCounters, payload: &'a [u8]) -> (r: Result<Msg<'a>, IcmpDrop>)
    ensures
        match verdict(payload@) {
            Some(d) => r == Err::<Msg<'a>, IcmpDrop>(d) && *final(counters) == count_drop(
                *old(counters),
                d,
            ),
            None => *final(counters) == *old(counters) && r is Ok,
        },
        r matches Ok(Msg::EchoReq { id, seq, raw }) ==> payload@[0] == TYPE_ECHO_REQ && id
            == be16_at(payload@, 4) && seq == be16_at(payload@, 6) && raw@ == payload@,
        r matches Ok(Msg::EchoReply { id, seq }) ==> payload@[0] == TYPE_ECHO_REPLY && id
            == be16_at(payload@, 4) && seq == be16_at(payload@, 6),
{
    if payload.len() < HDR {
        counters.drop_short = bump(counters.drop_short);
        return Err(IcmpDrop::Short);
    }
    if !valid(payload) {
        counters.drop_csum = bump(counters.drop_csum);
        return Err(IcmpDrop::Csum);
    }
    let typ = payload[0];
    let code = payload[1];
    if code != 0 {
        counters.drop_type = bump(counters.drop_type);
        return Err(IcmpDrop::Type);
    }
    let id = be16(payload, 4);
    let seq = be16(payload, 6);
    if typ == TYPE_ECHO_REQ {
        Ok(Msg::EchoReq { id, seq, raw: payload })
    } else if typ == TYPE_ECHO_REPLY {
        Ok(Msg::EchoReply { id, seq })
    } else {
        counters.drop_type = bump(counters.drop_type);
        Err(IcmpDrop::Type)
    }
}

/// The message bytes of an echo request before the checksum goes in.
pub open spec fn echo_req_unsummed(id: u16, seq: u16, data: Seq<u8>) -> Seq<u8> {
    seq![TYPE_ECHO_REQ, 0u8, 0u8, 0u8, (id / 256) as u8, (id % 256) as u8, (seq / 256) as u8, (seq % 256) as u8] + data
}

/// The complete echo request `write_echo_req` produces.
pub open spec fn echo_req(id: u16, seq: u16, data: Seq<u8>) -> Seq<u8> {
    let m = echo_req_unsummed(id, seq, data);
    put16(m, 2, (0xffff - sum_spec(m)) as u16)
}

/// Fill an echo request at the start of `msg`; returns the ICMP length
/// (8 + data).
pub fn write_echo_req(msg: &mut [u8], id: u16, seq: u16, data: &[u8]) -> (n: usize)
    requires
        HDR + data@.len() <= old(msg)@.len(),
    ensures
        n == HDR + data@.len(),
        final(msg)@ == put_seq(old(msg)@, 0, echo_req(id, seq, data@)),
{
    let n = HDR + data.len();
    msg[0] = TYPE_ECHO_REQ;
    msg[1] = 0;
    msg[2] = 0;
    msg[3] = 0;
    set16(msg, 4, id);
    set16(msg, 6, seq);
    set_bytes(msg, HDR, data);
    let ghost m = echo_req_unsummed(id, seq, data@);
    assert(msg@.subrange(0, n as int) =~= m);
    let c = checksum(vstd::slice::slice_subrange(msg, 0, n));
    set16(msg, 2, c);
    assert(msg@ =~= put_seq(old(msg)@, 0, echo_req(id, seq, data@)));
    n
}

/// The echo reply to request `req`: type 0, checksum recomputed.
pub open spec fn echo_reply(req: Seq<u8>) -> Seq<u8> {
    let m = req.update(0, TYPE_ECHO_REPLY).update(2, 0).update(3, 0);
    put16(m, 2, (0xffff - sum_spec(m)) as u16)
}

/// Type 8 -> 0, same identifier, sequence and data, new checksum, written
/// at the start of `dst`. Returns the length, that of the request.
pub fn write_echo_reply(dst: &mut [u8], req: &[u8]) -> (n: usize)
    requires
        req@.len() >= HDR,
        old(dst)@.len() >= req@.len(),
    ensures
        n == req@.len(),
        final(dst)@ == put_seq(old(dst)@, 0, echo_reply(req@)),
{
    let n = req.len();
    set_bytes(dst, 0, req);
    dst[0] = TYPE_ECHO_REPLY;
    dst[2] = 0;
    dst[3] = 0;
    let ghost m = req@.update(0, TYPE_ECHO_REPLY).update(2, 0).update(3, 0);
    assert(dst@.subrange(0, n as int) =~= m);
    let c = checksum(vstd::slice::slice_subrange(dst, 0, n));
    set16(dst, 2, c);
    assert(dst@ =~= put_seq(old(dst)@, 0, echo_reply(req@)));
    n
}

/// A built echo request (up to 64 KiB) verifies and parses as an echo
/// request with its identifier and sequence number.
pub proof fn lemma_echo_req_parses(id: u16, seq: u16, data: Seq<u8>)
    requires
        HDR + data.len() <= 0x10000,
    ensures
        verdict(echo_req(id, seq, data)) is None,
        echo_req(id, seq, data)[0] == TYPE_ECHO_REQ,
        be16_at(echo_req(id, seq, data), 4) == id,
        be16_at(echo_req(id, seq, data), 6) == seq,
        echo_req(id, seq, data).subrange(8, HDR + data.len()) == data,
{
    let m = echo_req_unsummed(id, seq, data);
    let c = (0xffff - sum_spec(m)) as u16;
    lemma_checksum_stored_verifies(m, 2);
    lemma_put16(m, 2, c);
    let e = echo_req(id, seq, data);
    assert(e == m.update(2, (c / 256) as u8).update(3, (c % 256) as u8));
    assert(be16_at(e, 4) == id) by {
        vstd::arithmetic::div_mod::lemma_fundamental_div_mod(id as int, 256);
    }
    assert(be16_at(e, 6) == seq) by {
        vstd::arithmetic::div_mod::lemma_fundamental_div_mod(seq as int, 256);
    }
    assert(e.subrange(8, HDR + data.len()) =~= data);
}

/// The reply to a request with code 0 (up to 64 KiB) verifies and parses
/// as an echo reply with the request's identifier, sequence number and
/// data.
pub proof fn lemma_echo_reply_parses(req: Seq<u8>)
    requires
        HDR <= req.len() <= 0x10000,
        req[1] == 0,
    ensures
        verdict(echo_reply(req)) is None,
        echo_reply(req)[0] == TYPE_ECHO_REPLY,
        be16_at(echo_reply(req), 4) == be16_at(req, 4),
        be16_at(echo_reply(req), 6) == be16_at(req, 6),
        echo_reply(req).subrange(8, req.len() as int) == req.subrange(8, req.len() as int),
{
    let m = req.update(0, TYPE_ECHO_REPLY).update(2, 0).update(3, 0);
    let c = (0xffff - sum_spec(m)) as u16;
    lemma_checksum_stored_verifies(m, 2);
    lemma_put16(m, 2, c);
    let e = echo_reply(req);
    assert(e == m.update(2, (c / 256) as u8).update(3, (c % 256) as u8));
    assert(e.subrange(8, req.len() as int) =~= req.subrange(8, req.len() as int));
}

} // verus!
