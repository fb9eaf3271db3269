use lib::arp::{write_reply, Arp, ArpDrop, RequestForUs, OP_REPLY, REPLY_LEN};
use lib::tcp;
use lib::tcp::{
    State, Tcp, TcpDrop, TcpEvent, ACK, DEFAULT_MSS, FIN, LISTEN_PORT, OPT_MSS, OPT_MSS_LEN, OPT_NOP,
    OUR_MSS, PROTO_TCP, RST, SYN, SYNACK_HLEN, WINDOW,
};
use lib::wire::{get16, get32};

const OURS: [u8; 4] = [10, 0, 2, 15];
const PEER: [u8; 4] = [10, 0, 2, 2];
const OUR_MAC: [u8; 6] = [0x52, 0x54, 0x00, 0x12, 0x34, 0x56];
const PEER_MAC: [u8; 6] = [0x52, 0x55, 0x0a, 0x00, 0x02, 0x02];

/// A segment from the peer with a correct checksum.
fn segment(sport: u16, dport: u16, seq: u32, ack: u32, flags: u8, opts: &[u8], data: &[u8]) -> Vec<u8> {
    let hlen = 20 + opts.len();
    let mut s = vec![0u8; hlen + data.len()];
    s[0..2].copy_from_slice(&sport.to_be_bytes());
    s[2..4].copy_from_slice(&dport.to_be_bytes());
    s[4..8].copy_from_slice(&seq.to_be_bytes());
    s[8..12].copy_from_slice(&ack.to_be_bytes());
    s[12] = ((hlen / 4) as u8) << 4;
    s[13] = flags;
    s[14..16].copy_from_slice(&WINDOW.to_be_bytes());
    s[20..hlen].copy_from_slice(opts);
    s[hlen..].copy_from_slice(data);
    let c = tcp::checksum_tx(&PEER, &OURS, &s);
    s[16..18].copy_from_slice(&c.to_be_bytes());
    s
}

fn syn_with_options() -> Vec<u8> {
    // MSS 1460, NOP, window scale (unrecognised, skipped by length).
    let opts = [OPT_MSS, OPT_MSS_LEN, 0x05, 0xb4, OPT_NOP, 3, 3, 8];
    segment(12345, LISTEN_PORT, 0x1000, 0, SYN, &opts, &[])
}

#[test]
fn tcp_mss_parsed_and_window_scale_skipped() {
    let syn = syn_with_options();
    assert_eq!(syn.len(), 28);
    assert_eq!(tcp::parse_mss(&syn, 28), Some(1460));
    assert!(tcp::checksum_valid(&PEER, &OURS, &syn));
}

#[test]
fn tcp_missing_mss_defaults() {
    let mut syn20 = [0u8; 20];
    syn20[0..2].copy_from_slice(&1u16.to_be_bytes());
    syn20[2..4].copy_from_slice(&LISTEN_PORT.to_be_bytes());
    syn20[12] = 5 << 4;
    syn20[13] = SYN;
    assert_eq!(tcp::parse_mss(&syn20, 20), Some(DEFAULT_MSS));
}

#[test]
fn tcp_truncated_option_rejected() {
    let mut bad = [0u8; 21];
    bad[12] = 6 << 4;
    bad[20] = OPT_MSS;
    assert_eq!(tcp::parse_mss(&bad, 21), None);
}

#[test]
fn tcp_mss_with_wrong_length_rejected() {
    let mut h = [0u8; 24];
    h[20] = OPT_MSS;
    h[21] = 3;
    assert_eq!(tcp::parse_mss(&h, 24), None);
}

#[test]
fn tcp_synack_build() {
    let mut synack = [0u8; SYNACK_HLEN];
    let n = tcp::write_synack(&mut synack, LISTEN_PORT, 12345, 0x2000, 0x1001, &OURS, &PEER);
    assert_eq!(n, SYNACK_HLEN);
    assert_eq!(synack[12] >> 4, 6);
    assert_eq!(synack[13], SYN | ACK);
    assert_eq!(get16(&synack, 0), LISTEN_PORT);
    assert_eq!(get16(&synack, 2), 12345);
    assert_eq!(get32(&synack, 4), 0x2000);
    assert_eq!(get32(&synack, 8), 0x1001);
    assert_eq!(get16(&synack, 14), WINDOW);
    assert_eq!(synack[20], OPT_MSS);
    assert_eq!(synack[21], OPT_MSS_LEN);
    assert_eq!(get16(&synack, 22), OUR_MSS);
    assert!(tcp::checksum_valid(&OURS, &PEER, &synack[..n]));
}

#[test]
fn tcp_pseudo_header_layout() {
    let p = tcp::pseudo_header(&OURS, &PEER, 24);
    assert_eq!(&p[0..4], &OURS);
    assert_eq!(&p[4..8], &PEER);
    assert_eq!(p[8], 0);
    assert_eq!(p[9], PROTO_TCP);
    assert_eq!(get16(&p, 10), 24);
}

#[test]
fn tcp_handshake_establishes() {
    let mut t = Tcp::new();
    let syn = syn_with_options();
    match t.handle(&syn, &PEER, &OURS, 0x2000) {
        TcpEvent::SynRcvd(s) => {
            assert_eq!(s.dst_ip, PEER);
            assert_eq!(s.dst_port, 12345);
            assert_eq!(s.seq, 0x2000);
            assert_eq!(s.ack, 0x1001);
        },
        _ => panic!("SYN not answered"),
    }
    assert!(t.tcb.state == State::SynRcvd);
    assert_eq!(t.tcb.mss, 1460);
    let ack = segment(12345, LISTEN_PORT, 0x1001, 0x2001, ACK, &[], &[]);
    assert!(matches!(t.handle(&ack, &PEER, &OURS, 0x9999), TcpEvent::Established { extra: false }));
    assert!(t.tcb.state == State::Established);
    assert_eq!(t.established(), 1);
}

#[test]
fn tcp_duplicate_syn_gets_same_synack() {
    let mut t = Tcp::new();
    let syn = syn_with_options();
    let first = match t.handle(&syn, &PEER, &OURS, 0x2000) {
        TcpEvent::SynRcvd(s) => s,
        _ => panic!("SYN not answered"),
    };
    match t.handle(&syn, &PEER, &OURS, 0x7777) {
        TcpEvent::Resend(s) => {
            assert_eq!(s.seq, first.seq);
            assert_eq!(s.ack, first.ack);
            assert_eq!(s.dst_port, first.dst_port);
        },
        _ => panic!("duplicate SYN not resent"),
    }
    assert!(t.tcb.state == State::SynRcvd);
}

#[test]
fn tcp_ack_with_data_counts_extra() {
    let mut t = Tcp::new();
    let syn = syn_with_options();
    t.handle(&syn, &PEER, &OURS, 0x2000);
    let ack = segment(12345, LISTEN_PORT, 0x1001, 0x2001, ACK | FIN, &[], b"x");
    assert!(matches!(t.handle(&ack, &PEER, &OURS, 0), TcpEvent::Established { extra: true }));
    assert_eq!(t.drop_unexpected(), 1);
}

#[test]
fn tcp_second_peer_is_busy() {
    let mut t = Tcp::new();
    t.handle(&syn_with_options(), &PEER, &OURS, 0x2000);
    let other = segment(4242, LISTEN_PORT, 0x5000, 0, SYN, &[], &[]);
    assert!(matches!(t.handle(&other, &PEER, &OURS, 0x3000), TcpEvent::Dropped(TcpDrop::Busy)));
    assert_eq!(t.drop_busy(), 1);
}

#[test]
fn tcp_drops_each_kind() {
    let mut t = Tcp::new();
    assert!(matches!(t.handle(&[0u8; 19], &PEER, &OURS, 1), TcpEvent::Dropped(TcpDrop::Short)));
    assert_eq!(t.drop_short(), 1);

    let mut doff = segment(1, LISTEN_PORT, 0, 0, SYN, &[], &[]);
    doff[12] = 4 << 4;
    assert!(matches!(t.handle(&doff, &PEER, &OURS, 1), TcpEvent::Dropped(TcpDrop::Doff)));
    assert_eq!(t.drop_doff(), 1);

    let mut csum = segment(1, LISTEN_PORT, 0, 0, SYN, &[], &[]);
    csum[4] ^= 1;
    assert!(matches!(t.handle(&csum, &PEER, &OURS, 1), TcpEvent::Dropped(TcpDrop::Csum)));
    assert_eq!(t.drop_csum(), 1);

    let port = segment(1, 81, 0, 0, SYN, &[], &[]);
    assert!(matches!(t.handle(&port, &PEER, &OURS, 1), TcpEvent::Dropped(TcpDrop::Port)));
    assert_eq!(t.drop_port(), 1);

    let rst = segment(1, LISTEN_PORT, 0, 0, RST, &[], &[]);
    assert!(matches!(t.handle(&rst, &PEER, &OURS, 1), TcpEvent::Dropped(TcpDrop::Unexpected)));
    assert_eq!(t.drop_unexpected(), 1);

    let opt = segment(1, LISTEN_PORT, 0, 0, SYN, &[OPT_MSS, 3, 0, 0], &[]);
    assert!(matches!(t.handle(&opt, &PEER, &OURS, 1), TcpEvent::Dropped(TcpDrop::Opt)));
    assert_eq!(t.drop_opt(), 1);

    let stray_ack = segment(1, LISTEN_PORT, 0, 0, ACK, &[], &[]);
    assert!(matches!(t.handle(&stray_ack, &PEER, &OURS, 1), TcpEvent::Dropped(TcpDrop::Unexpected)));
    assert_eq!(t.drop_unexpected(), 2);
    assert!(t.tcb.state == State::Listen);
}

#[test]
fn tcp_established_ignores_segments() {
    let mut t = Tcp::new();
    t.handle(&syn_with_options(), &PEER, &OURS, 0x2000);
    t.handle(&segment(12345, LISTEN_PORT, 0x1001, 0x2001, ACK, &[], &[]), &PEER, &OURS, 0);
    let again = segment(12345, LISTEN_PORT, 0x1001, 0x2001, ACK, &[], b"data");
    assert!(matches!(t.handle(&again, &PEER, &OURS, 0), TcpEvent::Dropped(TcpDrop::Unexpected)));
    assert!(t.tcb.state == State::Established);
}

#[test]
fn tcp_noarp_counter() {
    let mut t = Tcp::new();
    t.note_noarp();
    t.note_noarp();
    assert_eq!(t.drop_noarp(), 2);
}

/// An ARP request from the peer for `tpa`.
fn arp_request(tpa: [u8; 4]) -> Vec<u8> {
    let mut f = vec![0u8; 42];
    f[0..6].copy_from_slice(&[0xff; 6]);
    f[6..12].copy_from_slice(&PEER_MAC);
    f[12] = 0x08;
    f[13] = 0x06;
    f[14..16].copy_from_slice(&1u16.to_be_bytes());
    f[16..18].copy_from_slice(&0x0800u16.to_be_bytes());
    f[18] = 6;
    f[19] = 4;
    f[20..22].copy_from_slice(&1u16.to_be_bytes());
    f[22..28].copy_from_slice(&PEER_MAC);
    f[28..32].copy_from_slice(&PEER);
    f[38..42].copy_from_slice(&tpa);
    f
}

#[test]
fn arp_cache_wraps_oldest_out() {
    let mut a = Arp::new();
    for i in 1u8..=5 {
        a.learn([10, 0, 0, i], [0, 0, 0, 0, 0, i]);
    }
    assert!(a.lookup([10, 0, 0, 1]).is_none());
    for i in 2u8..=5 {
        match a.lookup([10, 0, 0, i]) {
            Some(m) => assert_eq!(m[5], i),
            None => panic!("arp: wrap missing 10.0.0.{i}"),
        }
    }
    a.clear();
    assert!(a.lookup([10, 0, 0, 5]).is_none());
}

#[test]
fn arp_learn_then_lookup_and_refresh() {
    let mut a = Arp::new();
    a.learn([10, 0, 0, 9], [1, 2, 3, 4, 5, 6]);
    assert_eq!(a.lookup([10, 0, 0, 9]), Some([1, 2, 3, 4, 5, 6]));
    a.learn([10, 0, 0, 7], [7; 6]);
    a.learn([10, 0, 0, 9], [9; 6]);
    assert_eq!(a.lookup([10, 0, 0, 9]), Some([9; 6]));
    assert_eq!(a.lookup([10, 0, 0, 7]), Some([7; 6]));
}

#[test]
fn arp_request_for_us_learns_sender() {
    let mut a = Arp::new();
    let f = arp_request(OURS);
    let req = a.process(&f, &OURS).ok().unwrap();
    assert_eq!(req.sha, PEER_MAC);
    assert_eq!(req.spa, PEER);
    assert_eq!(a.lookup(PEER), Some(PEER_MAC));
}

#[test]
fn arp_reply_layout() {
    let req = RequestForUs { sha: PEER_MAC, spa: PEER };
    let mut out = [0xaau8; REPLY_LEN];
    write_reply(&mut out, &OUR_MAC, &OURS, &req);
    assert_eq!(&out[0..6], &PEER_MAC);
    assert_eq!(&out[6..12], &OUR_MAC);
    assert_eq!(&out[12..14], &[0x08, 0x06]);
    assert_eq!(get16(&out, 20), OP_REPLY);
    assert_eq!(&out[22..28], &OUR_MAC);
    assert_eq!(&out[28..32], &OURS);
    assert_eq!(&out[32..38], &PEER_MAC);
    assert_eq!(&out[38..42], &PEER);
    assert!(out[42..60].iter().all(|&b| b == 0));
}

#[test]
fn arp_drops_each_kind() {
    let mut a = Arp::new();
    assert!(matches!(a.process(&[0u8; 41], &OURS), Err(ArpDrop::Short)));
    assert_eq!(a.drop_short(), 1);
    let mut f = arp_request(OURS);
    f[15] = 6;
    assert!(matches!(a.process(&f, &OURS), Err(ArpDrop::Htype)));
    assert_eq!(a.drop_htype(), 1);
    let mut f = arp_request(OURS);
    f[16] = 0x86;
    assert!(matches!(a.process(&f, &OURS), Err(ArpDrop::Ptype)));
    assert_eq!(a.drop_ptype(), 1);
    let mut f = arp_request(OURS);
    f[18] = 8;
    assert!(matches!(a.process(&f, &OURS), Err(ArpDrop::Hlen)));
    assert_eq!(a.drop_hlen(), 1);
    let mut f = arp_request(OURS);
    f[19] = 16;
    assert!(matches!(a.process(&f, &OURS), Err(ArpDrop::Plen)));
    assert_eq!(a.drop_plen(), 1);
    let mut f = arp_request(OURS);
    f[21] = 2;
    assert!(matches!(a.process(&f, &OURS), Err(ArpDrop::Op)));
    assert_eq!(a.drop_op(), 1);
    let f = arp_request([10, 0, 2, 99]);
    assert!(matches!(a.process(&f, &OURS), Err(ArpDrop::Tpa)));
    assert_eq!(a.drop_tpa(), 1);
    assert!(a.lookup(PEER).is_none());
}

#[test]
fn tcp_next_numbers_follow_the_isns() {
    let mut t = Tcp::new();
    let syn = syn_with_options();
    t.handle(&syn, &PEER, &OURS, 0x2000);
    assert_eq!(t.tcb.their_isn, 0x1000);
    assert_eq!(t.tcb.rcv_nxt, t.tcb.their_isn.wrapping_add(1));
    assert_eq!(t.tcb.snd_isn, 0x2000);
    assert_eq!(t.tcb.snd_nxt, t.tcb.snd_isn.wrapping_add(1));
    let ack = segment(12345, LISTEN_PORT, 0x1001, 0x2001, ACK, &[], &[]);
    t.handle(&ack, &PEER, &OURS, 0x5555);
    assert_eq!(t.tcb.rcv_nxt, 0x1001);
    assert_eq!(t.tcb.snd_nxt, 0x2001);
}
