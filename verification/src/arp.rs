//! ARP (RFC 826): request parsing, the reply frame, and a four-entry cache
//! that overwrites its oldest slot when full.
//!
//! Check order, each with its own counter: frame shorter than 14+28, htype
//! not 1, ptype not 0x0800, hlen not 6, plen not 4, opcode not 1 (replies
//! included), target address not ours. A request for us teaches the cache
//! the sender's address.

use vstd::prelude::*;
use crate::wire::{be16_at, bump, get16, inc, ip_eq, set_bytes};

verus! {

/// Ethernet header length.
pub const ETH_HDR: usize = 14;
/// ARP payload after the Ethernet header.
pub const ARP_LEN: usize = 28;
/// Hardware type Ethernet.
pub const HTYPE_ETH: u16 = 1;
/// Protocol type IPv4.
pub const PTYPE_IPV4: u16 = 0x0800;
pub const HLEN: u8 = 6;
pub const PLEN: u8 = 4;
/// Opcode request.
pub const OP_REQUEST: u16 = 1;
/// Opcode reply.
pub const OP_REPLY: u16 = 2;
/// Cache slots.
pub const CACHE_N: usize = 4;
/// Reply frame length (42 bytes of ARP, padded to the Ethernet minimum).
pub const REPLY_LEN: usize = 60;

/// One cache entry.
#[derive(Clone, Copy, Debug)]
pub struct Ent {
    pub ip: [u8; 4],
    pub mac: [u8; 6],
}

/// A request for our IP: the cache has been updated; the caller transmits
/// a reply.
pub struct RequestForUs {
    pub sha: [u8; 6],
    pub spa: [u8; 4],
}

/// Why a frame was dropped.
#[derive(Clone, Copy, Debug, PartialEq, Eq, Structural)]
pub enum ArpDrop {
    Short,
    Htype,
    Ptype,
    Hlen,
    Plen,
    Op,
    Tpa,
}

#[derive(Clone, Copy, Debug)]
pub struct ArpCounters {
    pub drop_short: u32,
    pub drop_htype: u32,
    pub drop_ptype: u32,
    pub drop_hlen: u32,
    pub drop_plen: u32,
    pub drop_op: u32,
    pub drop_tpa: u32,
}

/// The cache and its counters. `next` is the slot the next new address
/// overwrites.
pub struct Arp {
    pub entries: [Option<Ent>; 4],
    pub next: usize,
    pub counters: ArpCounters,
}

/// Slot `i` holds address `ip`.
pub open spec fn holds(entries: Seq<Option<Ent>>, i: int, ip: Seq<u8>) -> bool {
    entries[i] matches Some(e) && e.ip@ == ip
}

/// Some slot holds `ip`.
pub open spec fn cached(entries: Seq<Option<Ent>>, ip: Seq<u8>) -> bool {
    exists|i: int| 0 <= i < CACHE_N && #[trigger] holds(entries, i, ip)
}

/// What `learn` does to the slots and the next-slot index.
pub open spec fn learned(entries: Seq<Option<Ent>>, next: usize, ip: [u8; 4], mac: [u8; 6]) -> (
    Seq<Option<Ent>>,
    usize,
) {
    if cached(entries, ip@) {
        let i = choose|i: int| 0 <= i < CACHE_N && #[trigger] holds(entries, i, ip@);
        (entries.update(i, Some(Ent { ip, mac })), next)
    } else {
        (entries.update(next as int, Some(Ent { ip, mac })), ((next + 1) % (CACHE_N as int)) as usize)
    }
}

/// The verdict on a frame classified as ARP: a drop reason, or `None` for
/// a request to `our_ip`.
pub open spec fn verdict(eth: Seq<u8>, our_ip: Seq<u8>) -> Option<ArpDrop> {
    if eth.len() < ETH_HDR + ARP_LEN {
        Some(ArpDrop::Short)
    } else if be16_at(eth, 14) != HTYPE_ETH {
        Some(ArpDrop::Htype)
    } else if be16_at(eth, 16) != PTYPE_IPV4 {
        Some(ArpDrop::Ptype)
    } else if eth[18] != HLEN {
        Some(ArpDrop::Hlen)
    } else if eth[19] != PLEN {
        Some(ArpDrop::Plen)
    } else if be16_at(eth, 20) != OP_REQUEST {
        Some(ArpDrop::Op)
    } else if eth.subrange(38, 42) != our_ip {
        Some(ArpDrop::Tpa)
    } else {
        None
    }
}

pub open spec fn count_drop(c: ArpCounters, d: ArpDrop) -> ArpCounters {
    match d {
        ArpDrop::Short => ArpCounters { drop_short: inc(c.drop_short), ..c },
        ArpDrop::Htype => ArpCounters { drop_htype: inc(c.drop_htype), ..c },
        ArpDrop::Ptype => ArpCounters { drop_ptype: inc(c.drop_ptype), ..c },
        ArpDrop::Hlen => ArpCounters { drop_hlen: inc(c.drop_hlen), ..c },
        ArpDrop::Plen => ArpCounters { drop_plen: inc(c.drop_plen), ..c },
        ArpDrop::Op => ArpCounters { drop_op: inc(c.drop_op), ..c },
        ArpDrop::Tpa => ArpCounters { drop_tpa: inc(c.drop_tpa), ..c },
    }
}

fn be16(b: &[u8], off: usize) -> (r: u16)
    requires
        off + 1 < b@.len(),
    ensures
        r == be16_at(b@, off as int),
{
    get16(b, off)
}

impl ArpCounters {
    fn count(&mut self, d: ArpDrop)
        ensures
            *final(self) == count_drop(*old(self), d),
    {
        match d {
            ArpDrop::Short => self.drop_short = bump(self.drop_short),
            ArpDrop::Htype => self.drop_htype = bump(self.drop_htype),
            ArpDrop::Ptype => self.drop_ptype = bump(self.drop_ptype),
            ArpDrop::Hlen => self.drop_hlen = bump(self.drop_hlen),
            ArpDrop::Plen => self.drop_plen = bump(self.drop_plen),
            ArpDrop::Op => self.drop_op = bump(self.drop_op),
            ArpDrop::Tpa => self.drop_tpa = bump(self.drop_tpa),
        }
    }
}

impl Arp {
    /// Slots hold distinct addresses and `next` names a slot.
    pub open spec fn wf(&self) -> bool {
        &&& self.next < CACHE_N
        &&& forall|i: int, j: int|
            0 <= i < CACHE_N && 0 <= j < CACHE_N && i != j && self.entries@[i] is Some
                && self.entries@[j] is Some ==> self.entries@[i]->0.ip@ != self.entries@[j]->0.ip@
    }

    /// An empty cache with every counter at zero.
    pub fn new() -> (a: Arp)
        ensures
            a.wf(),
            forall|i: int| 0 <= i < CACHE_N ==> a.entries@[i] is None,
            a.next == 0,
            a.counters == (ArpCounters {
                drop_short: 0,
                drop_htype: 0,
                drop_ptype: 0,
                drop_hlen: 0,
                drop_plen: 0,
                drop_op: 0,
                drop_tpa: 0,
            }),
    {
        Arp {
            entries: [None, None, None, None],
            next: 0,
            counters: ArpCounters {
                drop_short: 0,
                drop_htype: 0,
                drop_ptype: 0,
                drop_hlen: 0,
                drop_plen: 0,
                drop_op: 0,
                drop_tpa: 0,
            },
        }
    }

    pub fn drop_short(&self) -> (r: u32)
        ensures
            r == self.counters.drop_short,
    {
        self.counters.drop_short
    }

    pub fn drop_htype(&self) -> (r: u32)
        ensures
            r == self.counters.drop_htype,
    {
        self.counters.drop_htype
    }

    pub fn drop_ptype(&self) -> (r: u32)
        ensures
            r == self.counters.drop_ptype,
    {
        self.counters.drop_ptype
    }

    pub fn drop_hlen(&self) -> (r: u32)
        ensures
            r == self.counters.drop_hlen,
    {
        self.counters.drop_hlen
    }

    pub fn drop_plen(&self) -> (r: u32)
        ensures
            r == self.counters.drop_plen,
    {
        self.counters.drop_plen
    }

    pub fn drop_op(&self) -> (r: u32)
        ensures
            r == self.counters.drop_op,
    {
        self.counters.drop_op
    }

    pub fn drop_tpa(&self) -> (r: u32)
        ensures
            r == self.counters.drop_tpa,
    {
        self.counters.drop_tpa
    }

    /// The MAC cached for `ip`, if any.
    pub fn lookup(&self, ip: [u8; 4]) -> (r: Option<[u8; 6]>)
        ensures
            r is None <==> !cached(self.entries@, ip@),
            r matches Some(m) ==> exists|i: int|
                0 <= i < CACHE_N && #[trigger] holds(self.entries@, i, ip@) && self.entries@[i]->0.mac
                    == m,
    {
        let mut i: usize = 0;
        while i < CACHE_N
            invariant
                i <= CACHE_N,
                forall|j: int| 0 <= j < i ==> !#[trigger] holds(self.entries@, j, ip@),
            decreases CACHE_N - i,
        {
            match self.entries[i] {
                Some(e) => {
                    if ip_eq(&e.ip, &ip) {
                        assert(holds(self.entries@, i as int, ip@));
                        return Some(e.mac);
                    }
                },
                None => {},
            }
            i = i + 1;
        }
        None
    }

    /// Remember that `ip` is at `mac`: overwrite its slot if cached, else
    /// the slot `next` names, and advance `next`.
    pub fn learn(&mut self, ip: [u8; 4], mac: [u8; 6])
        requires
            old(self).wf(),
        ensures
            final(self).wf(),
            (final(self).entries@, final(self).next) == learned(
                old(self).entries@,
                old(self).next,
                ip,
                mac,
            ),
            final(self).counters == old(self).counters,
            fills_in_order(old(self).entries@, old(self).next) ==> fills_in_order(final(self).entries@, final(self).next),
    {
        proof {
            if fills_in_order(self.entries@, self.next) {
                lemma_learn_keeps_fill_order(*self, ip, mac);
            }
        }
        let mut i: usize = 0;
        while i < CACHE_N
            invariant
                i <= CACHE_N,
                self.wf(),
                *self == *old(self),
                forall|j: int| 0 <= j < i ==> !#[trigger] holds(self.entries@, j, ip@),
            decreases CACHE_N - i,
        {
            match self.entries[i] {
                Some(e) => {
                    if ip_eq(&e.ip, &ip) {
                        assert(holds(self.entries@, i as int, ip@));
                        let ghost k = choose|k: int|
                            0 <= k < CACHE_N && #[trigger] holds(self.entries@, k, ip@);
                        assert(k == i);
                        self.entries[i] = Some(Ent { ip, mac });
                        assert(self.entries@ =~= old(self).entries@.update(
                            i as int,
                            Some(Ent { ip, mac }),
                        ));
                        assert forall|a: int, b: int|
                            0 <= a < CACHE_N && 0 <= b < CACHE_N && a != b && self.entries@[a] is Some
                                && self.entries@[b] is Some implies self.entries@[a]->0.ip@
                            != self.entries@[b]->0.ip@ by {
                            if a != i && b != i {
                                assert(old(self).entries@[a] == self.entries@[a]);
                                assert(old(self).entries@[b] == self.entries@[b]);
                            } else if a == i {
                                assert(old(self).entries@[b] == self.entries@[b]);
                                assert(holds(old(self).entries@, i as int, ip@));
                            } else {
                                assert(old(self).entries@[a] == self.entries@[a]);
                                assert(holds(old(self).entries@, i as int, ip@));
                            }
                        }
                        return;
                    }
                },
                None => {},
            }
            i = i + 1;
        }
        let n = self.next;
        self.entries[n] = Some(Ent { ip, mac });
        self.next = (n + 1) % CACHE_N;
        assert(self.entries@ =~= old(self).entries@.update(n as int, Some(Ent { ip, mac })));
        assert(!cached(old(self).entries@, ip@));
        assert forall|a: int, b: int|
            0 <= a < CACHE_N && 0 <= b < CACHE_N && a != b && self.entries@[a] is Some
                && self.entries@[b] is Some implies self.entries@[a]->0.ip@
            != self.entries@[b]->0.ip@ by {
            if a != n && b != n {
                assert(old(self).entries@[a] == self.entries@[a]);
                assert(old(self).entries@[b] == self.entries@[b]);
            } else if a == n {
                assert(old(self).entries@[b] == self.entries@[b]);
                assert(!holds(old(self).entries@, b, ip@));
            } else {
                assert(old(self).entries@[a] == self.entries@[a]);
                assert(!holds(old(self).entries@, a, ip@));
            }
        }
    }

    /// Empty every slot and restart at slot 0.
    pub fn clear(&mut self)
        ensures
            final(self).wf(),
            forall|i: int| 0 <= i < CACHE_N ==> final(self).entries@[i] is None,
            final(self).next == 0,
            final(self).counters == old(self).counters,
    {
        self.entries = [None, None, None, None];
        self.next = 0;
    }

    /// Parse an Ethernet frame already classified as ARP. A request for
    /// `our_ip` teaches the cache the sender's address and is returned;
    /// any other frame is counted under its drop reason.
    pub fn process(&mut self, eth: &[u8], our_ip: &[u8; 4]) -> (r: Result<RequestForUs, ArpDrop>)
        requires
            old(self).wf(),
        ensures
            final(self).wf(),
            match verdict(eth@, our_ip@) {
                Some(d) => r == Err::<RequestForUs, ArpDrop>(d) && final(self).counters
                    == count_drop(old(self).counters, d) && final(self).entries == old(self).entries
                    && final(self).next == old(self).next,
                None => r is Ok && final(self).counters == old(self).counters,
            },
            r matches Ok(req) ==> {
                &&& req.sha@ == eth@.subrange(22, 28)
                &&& req.spa@ == eth@.subrange(28, 32)
                &&& (final(self).entries@, final(self).next) == learned(
                    old(self).entries@,
                    old(self).next,
                    req.spa,
                    req.sha,
                )
            },
    {
        let d = check(eth, our_ip);
        match d {
            Some(e) => {
                self.counters.count(e);
                Err(e)
            },
            None => {
                let sha: [u8; 6] = [eth[22], eth[23], eth[24], eth[25], eth[26], eth[27]];
                let spa: [u8; 4] = [eth[28], eth[29], eth[30], eth[31]];
                assert(sha@ =~= eth@.subrange(22, 28));
                assert(spa@ =~= eth@.subrange(28, 32));
                self.learn(spa, sha);
                Ok(RequestForUs { sha, spa })
            },
        }
    }
}

fn check(eth: &[u8], our_ip: &[u8; 4]) -> (r: Option<ArpDrop>)
    ensures
        r == verdict(eth@, our_ip@),
{
    if eth.len() < ETH_HDR + ARP_LEN {
        return Some(ArpDrop::Short);
    }
    if be16(eth, 14) != HTYPE_ETH {
        return Some(ArpDrop::Htype);
    }
    if be16(eth, 16) != PTYPE_IPV4 {
        return Some(ArpDrop::Ptype);
    }
    if eth[18] != HLEN {
        return Some(ArpDrop::Hlen);
    }
    if eth[19] != PLEN {
        return Some(ArpDrop::Plen);
    }
    if be16(eth, 20) != OP_REQUEST {
        return Some(ArpDrop::Op);
    }
    let tpa: [u8; 4] = [eth[38], eth[39], eth[40], eth[41]];
    assert(tpa@ =~= eth@.subrange(38, 42));
    if !ip_eq(&tpa, our_ip) {
        return Some(ArpDrop::Tpa);
    }
    None
}

/// The 60 bytes of the reply to `req`: addressed to the requester, from
/// `our_mac`, EtherType ARP, opcode reply, sender ours, target theirs,
/// zero padding.
pub open spec fn reply_frame(our_mac: Seq<u8>, our_ip: Seq<u8>, sha: Seq<u8>, spa: Seq<u8>) -> Seq<
    u8,
> {
    sha + our_mac + seq![0x08u8, 0x06u8, 0u8, 1u8, 0x08u8, 0u8, HLEN, PLEN, 0u8, 2u8] + our_mac
        + our_ip + sha + spa + Seq::new(18, |i: int| 0u8)
}

/// Fill the first 60 bytes of `eth` with the reply to `req`.
pub fn write_reply(eth: &mut [u8], our_mac: &[u8; 6], our_ip: &[u8; 4], req: &RequestForUs)
    requires
        old(eth)@.len() >= REPLY_LEN,
    ensures
        final(eth)@.len() == old(eth)@.len(),
        final(eth)@.subrange(0, 60) == reply_frame(our_mac@, our_ip@, req.sha@, req.spa@),
        final(eth)@.subrange(60, old(eth)@.len() as int) == old(eth)@.subrange(
            60,
            old(eth)@.len() as int,
        ),
{
    let mut i: usize = 0;
    while i < REPLY_LEN
        invariant
            i <= REPLY_LEN,
            eth@.len() == old(eth)@.len(),
            old(eth)@.len() >= REPLY_LEN,
            forall|j: int| 0 <= j < i ==> eth@[j] == 0,
            eth@.subrange(60, eth@.len() as int) == old(eth)@.subrange(60, old(eth)@.len() as int),
        decreases REPLY_LEN - i,
    {
        eth[i] = 0;
        i = i + 1;
        assert(eth@.subrange(60, eth@.len() as int) =~= old(eth)@.subrange(
            60,
            old(eth)@.len() as int,
        ));
    }
    let ghost zeroed = eth@;
    set_bytes(eth, 0, req.sha.as_slice());
    set_bytes(eth, 6, our_mac.as_slice());
    eth[12] = 0x08;
    eth[13] = 0x06;
    eth[14] = 0;
    eth[15] = 1;
    eth[16] = 0x08;
    eth[17] = 0;
    eth[18] = HLEN;
    eth[19] = PLEN;
    eth[20] = 0;
    eth[21] = 2;
    set_bytes(eth, 22, our_mac.as_slice());
    set_bytes(eth, 28, our_ip.as_slice());
    set_bytes(eth, 32, req.sha.as_slice());
    set_bytes(eth, 38, req.spa.as_slice());
    assert(eth@.subrange(0, 60) =~= reply_frame(our_mac@, our_ip@, req.sha@, req.spa@));
    assert(eth@.subrange(60, eth@.len() as int) =~= zeroed.subrange(60, eth@.len() as int));
}

/// The cache fills its slots in order: while any slot is empty, the
/// occupied slots are exactly those below `next`.
pub open spec fn fills_in_order(entries: Seq<Option<Ent>>, next: usize) -> bool {
    (exists|k: int| 0 <= k < CACHE_N && #[trigger] entries[k] is None) ==> forall|i: int|
        0 <= i < CACHE_N ==> (#[trigger] entries[i] is None <==> i >= next)
}

/// Four slots, `next` naming one of them, no address in two slots, and
/// every cached address one of `d`.
pub open spec fn slots_within(entries: Seq<Option<Ent>>, next: usize, d: Seq<Seq<u8>>) -> bool {
    &&& entries.len() == CACHE_N
    &&& next < CACHE_N
    &&& forall|i: int, j: int|
        0 <= i < CACHE_N && 0 <= j < CACHE_N && i != j && entries[i] is Some && entries[j] is Some
            ==> entries[i]->0.ip@ != entries[j]->0.ip@
    &&& fills_in_order(entries, next)
    &&& forall|i: int| 0 <= i < CACHE_N && entries[i] is Some ==> d.contains(#[trigger] entries[i]->0.ip@)
}

/// The cache after learning each pair of `pairs` in turn.
pub open spec fn learn_all(entries: Seq<Option<Ent>>, next: usize, pairs: Seq<([u8; 4], [u8; 6])>) -> (
    Seq<Option<Ent>>,
    usize,
)
    decreases pairs.len(),
{
    if pairs.len() == 0 {
        (entries, next)
    } else {
        let (e1, n1) = learned(entries, next, pairs[0].0, pairs[0].1);
        learn_all(e1, n1, pairs.drop_first())
    }
}

/// Learning keeps the slots filling in order.
pub proof fn lemma_learn_keeps_fill_order(a: Arp, ip: [u8; 4], mac: [u8; 6])
    requires
        a.wf(),
        fills_in_order(a.entries@, a.next),
    ensures
        ({
            let (e2, n2) = learned(a.entries@, a.next, ip, mac);
            fills_in_order(e2, n2)
        }),
{
    lemma_learn_step(a.entries@, a.next, ip, mac, Seq::empty(), false);
}

/// While the cache has an empty slot, learning an address evicts nothing:
/// every address cached before is cached after.
pub proof fn lemma_learn_evicts_nothing_while_room(a: Arp, ip: [u8; 4], mac: [u8; 6], other: Seq<u8>)
    requires
        a.wf(),
        fills_in_order(a.entries@, a.next),
        exists|k: int| 0 <= k < CACHE_N && #[trigger] a.entries@[k] is None,
        cached(a.entries@, other),
    ensures
        cached(learned(a.entries@, a.next, ip, mac).0, other),
{
    let e = a.entries@;
    let (e2, n2) = learned(e, a.next, ip, mac);
    let j = choose|i: int| 0 <= i < CACHE_N && #[trigger] holds(e, i, other);
    if cached(e, ip@) {
        let k = choose|i: int| 0 <= i < CACHE_N && #[trigger] holds(e, i, ip@);
        if j == k {
            assert(holds(e2, j, ip@));
        } else {
            assert(holds(e2, j, other));
        }
    } else {
        assert(e[a.next as int] is None);
        assert(j != a.next);
        assert(holds(e2, j, other));
    }
}

/// One learn keeps the slots filling in order. When `bounded`, the cache's
/// addresses and the learned one are among `d`, which has at most four:
/// then the cache keeps its shape, every address it held is still held,
/// and the new one is held too.
proof fn lemma_learn_step(e: Seq<Option<Ent>>, n: usize, ip: [u8; 4], mac: [u8; 6], d: Seq<Seq<u8>>, bounded: bool)
    requires
        e.len() == CACHE_N,
        n < CACHE_N,
        forall|i: int, j: int|
            0 <= i < CACHE_N && 0 <= j < CACHE_N && i != j && e[i] is Some && e[j] is Some
                ==> e[i]->0.ip@ != e[j]->0.ip@,
        fills_in_order(e, n),
        bounded ==> slots_within(e, n, d) && d.contains(ip@) && d.len() <= CACHE_N,
    ensures
        fills_in_order(learned(e, n, ip, mac).0, learned(e, n, ip, mac).1),
        bounded ==> slots_within(learned(e, n, ip, mac).0, learned(e, n, ip, mac).1, d),
        bounded ==> cached(learned(e, n, ip, mac).0, ip@),
        bounded ==> forall|x: Seq<u8>| cached(e, x) ==> #[trigger] cached(learned(e, n, ip, mac).0, x),
{
    let (e1, n1) = learned(e, n, ip, mac);
    if cached(e, ip@) {
        let k = choose|i: int| 0 <= i < CACHE_N && #[trigger] holds(e, i, ip@);
        assert forall|i: int| 0 <= i < CACHE_N implies (#[trigger] e1[i] is None <==> e[i] is None) by {}
        assert(holds(e1, k, ip@));
        assert forall|i: int, j: int|
            0 <= i < CACHE_N && 0 <= j < CACHE_N && i != j && e1[i] is Some && e1[j] is Some
                implies e1[i]->0.ip@ != e1[j]->0.ip@ by {
            assert(holds(e, k, ip@));
        }
        if bounded {
            assert forall|i: int| 0 <= i < CACHE_N && e1[i] is Some implies d.contains(#[trigger] e1[i]->0.ip@) by {
                if i != k {
                    assert(e1[i] == e[i]);
                }
            }
            assert forall|x: Seq<u8>| cached(e, x) implies #[trigger] cached(e1, x) by {
                let j = choose|i: int| 0 <= i < CACHE_N && #[trigger] holds(e, i, x);
                if j == k {
                    assert(holds(e1, k, x));
                } else {
                    assert(holds(e1, j, x));
                }
            }
        }
        if exists|q: int| 0 <= q < CACHE_N && #[trigger] e1[q] is None {
            let q = choose|q: int| 0 <= q < CACHE_N && #[trigger] e1[q] is None;
            assert(e[q] is None);
        }
    } else {
        assert(e1 == e.update(n as int, Some(Ent { ip, mac })));
        assert(holds(e1, n as int, ip@));
        if exists|q: int| 0 <= q < CACHE_N && #[trigger] e[q] is None {
            assert(e[n as int] is None);
            if exists|q: int| 0 <= q < CACHE_N && #[trigger] e1[q] is None {
                let q = choose|q: int| 0 <= q < CACHE_N && #[trigger] e1[q] is None;
                assert(q != n);
                assert(q > n);
                assert(n + 1 < CACHE_N);
                assert(n1 == n + 1);
            }
            if bounded {
                assert forall|x: Seq<u8>| cached(e, x) implies #[trigger] cached(e1, x) by {
                    let j = choose|i: int| 0 <= i < CACHE_N && #[trigger] holds(e, i, x);
                    assert(j != n);
                    assert(holds(e1, j, x));
                }
            }
        } else {
            assert(e[0] is Some && e[1] is Some && e[2] is Some && e[3] is Some);
            if bounded {
                // Five distinct addresses, all among at most four: impossible.
                let v0 = e[0]->0.ip@;
                let v1 = e[1]->0.ip@;
                let v2 = e[2]->0.ip@;
                let v3 = e[3]->0.ip@;
                assert(d.contains(v0) && d.contains(v1) && d.contains(v2) && d.contains(v3));
                assert(!holds(e, 0, ip@) && !holds(e, 1, ip@) && !holds(e, 2, ip@) && !holds(e, 3, ip@));
                let k0 = choose|k: int| 0 <= k < d.len() && d[k] == v0;
                let k1 = choose|k: int| 0 <= k < d.len() && d[k] == v1;
                let k2 = choose|k: int| 0 <= k < d.len() && d[k] == v2;
                let k3 = choose|k: int| 0 <= k < d.len() && d[k] == v3;
                let k4 = choose|k: int| 0 <= k < d.len() && d[k] == ip@;
                assert(k0 != k1 && k0 != k2 && k0 != k3 && k1 != k2 && k1 != k3 && k2 != k3);
                assert(k4 != k0 && k4 != k1 && k4 != k2 && k4 != k3);
                assert(false);
            }
            if exists|q: int| 0 <= q < CACHE_N && #[trigger] e1[q] is None {
                let q = choose|q: int| 0 <= q < CACHE_N && #[trigger] e1[q] is None;
                assert(e[q] is None);
            }
        }
        assert forall|i: int, j: int|
            0 <= i < CACHE_N && 0 <= j < CACHE_N && i != j && e1[i] is Some && e1[j] is Some
                implies e1[i]->0.ip@ != e1[j]->0.ip@ by {
            if i == n {
                assert(!holds(e, j, ip@));
            } else if j == n {
                assert(!holds(e, i, ip@));
            }
        }
        if bounded {
            assert forall|i: int| 0 <= i < CACHE_N && e1[i] is Some implies d.contains(#[trigger] e1[i]->0.ip@) by {
                if i != n {
                    assert(e1[i] == e[i]);
                }
            }
        }
    }
}

/// Learning from a cache within `d` keeps every cached address and ends
/// with every learned address cached, when all are among `d` and `d` has
/// at most four addresses.
proof fn lemma_learn_all_within(e: Seq<Option<Ent>>, n: usize, pairs: Seq<([u8; 4], [u8; 6])>, d: Seq<Seq<u8>>)
    requires
        slots_within(e, n, d),
        d.len() <= CACHE_N,
        forall|k: int| 0 <= k < pairs.len() ==> d.contains(#[trigger] pairs[k].0@),
    ensures
        forall|x: Seq<u8>| cached(e, x) ==> #[trigger] cached(learn_all(e, n, pairs).0, x),
        forall|k: int| 0 <= k < pairs.len() ==> cached(learn_all(e, n, pairs).0, #[trigger] pairs[k].0@),
    decreases pairs.len(),
{
    if pairs.len() > 0 {
        let (e1, n1) = learned(e, n, pairs[0].0, pairs[0].1);
        assert(d.contains(pairs[0].0@));
        lemma_learn_step(e, n, pairs[0].0, pairs[0].1, d, true);
        let rest = pairs.drop_first();
        assert forall|k: int| 0 <= k < rest.len() implies d.contains(#[trigger] rest[k].0@) by {
            assert(rest[k] == pairs[k + 1]);
        }
        lemma_learn_all_within(e1, n1, rest, d);
        assert forall|k: int| 0 <= k < pairs.len() implies cached(learn_all(e, n, pairs).0, #[trigger] pairs[k].0@) by {
            if k > 0 {
                assert(rest[k - 1] == pairs[k]);
            }
        }
    }
}

/// From an empty cache (after `new` or `clear`), as long as at most four
/// distinct addresses have been learned, every one of them is still
/// cached: the cache evicts only when all four slots are taken. The
/// addresses of `pairs` are all among `d`, which has at most four.
pub proof fn lemma_no_eviction_within_capacity(pairs: Seq<([u8; 4], [u8; 6])>, d: Seq<Seq<u8>>)
    requires
        d.len() <= CACHE_N,
        forall|k: int| 0 <= k < pairs.len() ==> d.contains(#[trigger] pairs[k].0@),
    ensures
        forall|k: int| 0 <= k < pairs.len() ==> cached(
            learn_all(Seq::new(CACHE_N as nat, |i: int| None::<Ent>), 0, pairs).0,
            #[trigger] pairs[k].0@,
        ),
{
    let e = Seq::new(CACHE_N as nat, |i: int| None::<Ent>);
    assert(e[0] is None);
    lemma_learn_all_within(e, 0, pairs, d);
}

/// After learning that `ip` is at `mac`, looking `ip` up finds `mac`.
pub proof fn lemma_learn_then_lookup(a: Arp, ip: [u8; 4], mac: [u8; 6])
    requires
        a.wf(),
    ensures
        ({
            let (e2, n2) = learned(a.entries@, a.next, ip, mac);
            &&& cached(e2, ip@)
            &&& forall|i: int| 0 <= i < CACHE_N && #[trigger] holds(e2, i, ip@) ==> e2[i]->0.mac == mac
        }),
{
    let (e2, n2) = learned(a.entries@, a.next, ip, mac);
    if cached(a.entries@, ip@) {
        let k = choose|i: int| 0 <= i < CACHE_N && #[trigger] holds(a.entries@, i, ip@);
        assert(holds(e2, k, ip@));
        assert forall|i: int| 0 <= i < CACHE_N && #[trigger] holds(e2, i, ip@) implies e2[i]->0.mac == mac by {
            if i != k {
                assert(holds(a.entries@, i, ip@));
            }
        }
    } else {
        assert(holds(e2, a.next as int, ip@));
        assert forall|i: int| 0 <= i < CACHE_N && #[trigger] holds(e2, i, ip@) implies e2[i]->0.mac == mac by {
            if i != a.next {
                assert(holds(a.entries@, i, ip@));
            }
        }
    }
}

/// Learning an address keeps every other cached address except, when the
/// learned address is new, the one in slot `next`, which it overwrites.
pub proof fn lemma_learn_keeps_others(a: Arp, ip: [u8; 4], mac: [u8; 6], other: Seq<u8>, j: int)
    requires
        a.wf(),
        0 <= j < CACHE_N,
        holds(a.entries@, j, other),
        other != ip@,
        cached(a.entries@, ip@) || j != a.next,
    ensures
        learned(a.entries@, a.next, ip, mac).0[j] == a.entries@[j],
{
    if cached(a.entries@, ip@) {
        let k = choose|i: int| 0 <= i < CACHE_N && #[trigger] holds(a.entries@, i, ip@);
        assert(k != j);
    }
}

} // verus!
