use lib::checksum::{checksum, valid};
use lib::icmp;
use lib::icmp::{IcmpCounters, IcmpDrop, Msg, TYPE_ECHO_REPLY, TYPE_ECHO_REQ};
use lib::ipv4;
use lib::ipv4::{Ipv4Counters, Ipv4Drop, PROTO_ICMP, PROTO_TCP, PROTO_UDP};
use lib::udp;
use lib::udp::{UdpCounters, UdpDrop, ECHO_PORT};
use lib::wire::get16;

const OURS: [u8; 4] = [10, 0, 2, 15];
const PEER: [u8; 4] = [10, 0, 2, 2];

/// An Ethernet frame carrying an IPv4 datagram with `payload`.
fn frame(proto: u8, dst: [u8; 4], payload: &[u8]) -> Vec<u8> {
    let mut f = vec![0u8; 14 + 20 + payload.len()];
    f[12] = 0x08;
    f[13] = 0x00;
    ipv4::write_header(&mut f[14..], (20 + payload.len()) as u16, proto, &PEER, &dst);
    f[34..].copy_from_slice(payload);
    f
}

#[test]
fn ipv4_parses_good_datagram() {
    let f = frame(PROTO_ICMP, OURS, &[1, 2, 3, 4]);
    let mut c = Ipv4Counters::new();
    let d = ipv4::parse(&mut c, &f, &OURS).ok().unwrap();
    assert_eq!(d.src, PEER);
    assert_eq!(d.proto, PROTO_ICMP);
    assert_eq!(d.payload, &[1, 2, 3, 4]);
    assert_eq!(c.drop_short(), 0);
}

#[test]
fn ipv4_header_round_trip() {
    let mut ip = [0u8; 20];
    ipv4::write_header(&mut ip, 20, PROTO_UDP, &PEER, &OURS);
    assert_eq!(ip[0], 0x45);
    assert_eq!(get16(&ip, 2), 20);
    assert_eq!(get16(&ip, 6), ipv4::DF);
    assert_eq!(ip[8], 64);
    assert_eq!(ip[9], PROTO_UDP);
    assert_eq!(&ip[12..16], &PEER);
    assert_eq!(&ip[16..20], &OURS);
    assert!(valid(&ip));
}

#[test]
fn ipv4_drop_short_frame() {
    let f = vec![0u8; 30];
    let mut c = Ipv4Counters::new();
    assert!(matches!(ipv4::parse(&mut c, &f, &OURS), Err(Ipv4Drop::Short)));
    assert_eq!(c.drop_short(), 1);
}

#[test]
fn ipv4_drop_version() {
    let mut f = frame(PROTO_ICMP, OURS, &[0; 4]);
    f[14] = 0x65;
    let mut c = Ipv4Counters::new();
    assert!(matches!(ipv4::parse(&mut c, &f, &OURS), Err(Ipv4Drop::Ver)));
    assert_eq!(c.drop_ver(), 1);
}

#[test]
fn ipv4_drop_ihl() {
    let mut f = frame(PROTO_ICMP, OURS, &[0; 4]);
    f[14] = 0x44;
    let mut c = Ipv4Counters::new();
    assert!(matches!(ipv4::parse(&mut c, &f, &OURS), Err(Ipv4Drop::Ihl)));
    assert_eq!(c.drop_ihl(), 1);
}

#[test]
fn ipv4_drop_total_length_past_frame() {
    let mut f = frame(PROTO_ICMP, OURS, &[0; 4]);
    f[16] = 0x01;
    let mut c = Ipv4Counters::new();
    assert!(matches!(ipv4::parse(&mut c, &f, &OURS), Err(Ipv4Drop::Short)));
    assert_eq!(c.drop_short(), 1);
}

#[test]
fn ipv4_drop_bad_checksum() {
    let mut f = frame(PROTO_ICMP, OURS, &[0; 4]);
    f[22] ^= 0x10;
    let mut c = Ipv4Counters::new();
    assert!(matches!(ipv4::parse(&mut c, &f, &OURS), Err(Ipv4Drop::Csum)));
    assert_eq!(c.drop_csum(), 1);
}

#[test]
fn ipv4_drop_fragment() {
    let mut f = vec![0u8; 38];
    ipv4::write_header(&mut f[14..], 24, PROTO_ICMP, &PEER, &OURS);
    f[20] = 0x20;
    f[24] = 0;
    f[25] = 0;
    let c0 = checksum(&f[14..34]);
    f[24..26].copy_from_slice(&c0.to_be_bytes());
    let mut c = Ipv4Counters::new();
    assert!(matches!(ipv4::parse(&mut c, &f, &OURS), Err(Ipv4Drop::Frag)));
    assert_eq!(c.drop_frag(), 1);
}

#[test]
fn ipv4_drop_other_destination() {
    let f = frame(PROTO_ICMP, [10, 0, 2, 99], &[0; 4]);
    let mut c = Ipv4Counters::new();
    assert!(matches!(ipv4::parse(&mut c, &f, &OURS), Err(Ipv4Drop::Dst)));
    assert_eq!(c.drop_dst(), 1);
}

#[test]
fn ipv4_drop_tcp_protocol() {
    let f = frame(PROTO_TCP, OURS, &[0; 20]);
    let mut c = Ipv4Counters::new();
    assert!(matches!(ipv4::parse(&mut c, &f, &OURS), Err(Ipv4Drop::Proto)));
    assert_eq!(c.drop_proto(), 1);
    assert_eq!(c.drop_dst(), 0);
}

#[test]
fn icmp_echo_request_round_trip() {
    let data = b"whimbrel";
    let mut req = [0u8; 16];
    let n = icmp::write_echo_req(&mut req, 1, 1, data);
    assert_eq!(n, 16);
    assert!(valid(&req[..n]));
    assert_eq!(req[0], TYPE_ECHO_REQ);
    let mut c = IcmpCounters::new();
    match icmp::parse(&mut c, &req[..n]) {
        Ok(Msg::EchoReq { id, seq, raw }) => {
            assert_eq!(id, 1);
            assert_eq!(seq, 1);
            assert_eq!(raw, &req[..n]);
        },
        _ => panic!("echo request did not parse"),
    }
}

#[test]
fn icmp_reply_build() {
    let data = b"whimbrel";
    let mut req = [0u8; 16];
    let n = icmp::write_echo_req(&mut req, 1, 1, data);
    let mut rep = [0u8; 16];
    let m = icmp::write_echo_reply(&mut rep, &req[..n]);
    assert_eq!(m, n);
    assert_eq!(rep[0], TYPE_ECHO_REPLY);
    assert!(valid(&rep[..m]));
    assert_eq!(&rep[8..16], data);
    assert_eq!(get16(&rep, 4), 1);
    assert_eq!(get16(&rep, 6), 1);
    let mut c = IcmpCounters::new();
    assert!(matches!(icmp::parse(&mut c, &rep[..m]), Ok(Msg::EchoReply { id: 1, seq: 1 })));
}

#[test]
fn icmp_drop_short() {
    let mut c = IcmpCounters::new();
    assert!(matches!(icmp::parse(&mut c, &[8, 0, 0]), Err(IcmpDrop::Short)));
    assert_eq!(c.drop_short(), 1);
}

#[test]
fn icmp_drop_bad_checksum() {
    let mut req = [0u8; 12];
    let n = icmp::write_echo_req(&mut req, 7, 9, b"abcd");
    req[9] ^= 1;
    let mut c = IcmpCounters::new();
    assert!(matches!(icmp::parse(&mut c, &req[..n]), Err(IcmpDrop::Csum)));
    assert_eq!(c.drop_csum(), 1);
}

#[test]
fn icmp_drop_other_type() {
    let mut m = [13u8, 0, 0, 0, 0, 0, 0, 0];
    let c0 = checksum(&m);
    m[2..4].copy_from_slice(&c0.to_be_bytes());
    let mut c = IcmpCounters::new();
    assert!(matches!(icmp::parse(&mut c, &m), Err(IcmpDrop::Type)));
    assert_eq!(c.drop_type(), 1);
}

fn udp_request(data: &[u8]) -> Vec<u8> {
    let n = udp::HDR + data.len();
    let mut req = vec![0u8; n];
    req[0..2].copy_from_slice(&12345u16.to_be_bytes());
    req[2..4].copy_from_slice(&ECHO_PORT.to_be_bytes());
    req[4..6].copy_from_slice(&(n as u16).to_be_bytes());
    req[udp::HDR..n].copy_from_slice(data);
    let c = udp::checksum_tx(&PEER, &OURS, &req);
    req[6..8].copy_from_slice(&c.to_be_bytes());
    req
}

#[test]
fn udp_pseudo_header_layout() {
    let p = udp::pseudo_header(&PEER, &OURS, 20);
    assert_eq!(&p[0..4], &PEER);
    assert_eq!(&p[4..8], &OURS);
    assert_eq!(p[8], 0);
    assert_eq!(p[9], PROTO_UDP);
    assert_eq!(get16(&p, 10), 20);
}

#[test]
fn udp_zero_checksum_is_sent_as_ffff() {
    assert_eq!(udp::store_checksum(0), 0xffff);
    assert_eq!(udp::store_checksum(0x1234), 0x1234);
}

#[test]
fn udp_request_parses() {
    let req = udp_request(b"whimbrel-udp");
    assert!(udp::checksum_valid(&PEER, &OURS, &req));
    let mut c = UdpCounters::new();
    let e = udp::parse(&mut c, &req, &PEER, &OURS).ok().unwrap();
    assert_eq!(e.src_port, 12345);
    assert_eq!(e.payload(), b"whimbrel-udp");
}

#[test]
fn udp_echo_swaps_ports() {
    let data = b"whimbrel-udp";
    let req = udp_request(data);
    let n = req.len();
    let mut rep = [0u8; 32];
    let m = udp::write_echo(&mut rep, &req, &OURS, &PEER);
    assert_eq!(m, n);
    assert_eq!(get16(&rep, 0), ECHO_PORT);
    assert_eq!(get16(&rep, 2), 12345);
    assert_eq!(get16(&rep, 4), n as u16);
    assert_eq!(&rep[udp::HDR..n], data);
    assert_ne!(get16(&rep, 6), 0);
    assert!(udp::checksum_valid(&OURS, &PEER, &rep[..n]));
}

#[test]
fn udp_write_dgram_parses_back() {
    let mut buf = [0u8; 20];
    let n = udp::write_dgram(&mut buf, 4000, ECHO_PORT, b"ping", &PEER, &OURS);
    assert_eq!(n, 12);
    let mut c = UdpCounters::new();
    let e = udp::parse(&mut c, &buf[..n], &PEER, &OURS).ok().unwrap();
    assert_eq!(e.src_port, 4000);
    assert_eq!(e.payload(), b"ping");
}

#[test]
fn udp_drop_short() {
    let mut c = UdpCounters::new();
    assert!(matches!(udp::parse(&mut c, &[0u8; 7], &PEER, &OURS), Err(UdpDrop::Short)));
}

#[test]
fn udp_drop_length_mismatch() {
    let mut req = udp_request(b"abc");
    req[5] += 1;
    let mut c = UdpCounters::new();
    assert!(matches!(udp::parse(&mut c, &req, &PEER, &OURS), Err(UdpDrop::Len)));
}

#[test]
fn udp_drop_zero_or_bad_checksum() {
    let mut req = udp_request(b"abc");
    req[6] = 0;
    req[7] = 0;
    let mut c = UdpCounters::new();
    assert!(matches!(udp::parse(&mut c, &req, &PEER, &OURS), Err(UdpDrop::Csum)));
    let mut req2 = udp_request(b"abc");
    req2[8] ^= 1;
    assert!(matches!(udp::parse(&mut c, &req2, &PEER, &OURS), Err(UdpDrop::Csum)));
}

#[test]
fn udp_drop_other_port() {
    let n = udp::HDR + 2;
    let mut req = vec![0u8; n];
    req[0..2].copy_from_slice(&1u16.to_be_bytes());
    req[2..4].copy_from_slice(&9u16.to_be_bytes());
    req[4..6].copy_from_slice(&(n as u16).to_be_bytes());
    let c0 = udp::checksum_tx(&PEER, &OURS, &req);
    req[6..8].copy_from_slice(&c0.to_be_bytes());
    let mut c = UdpCounters::new();
    assert!(matches!(udp::parse(&mut c, &req, &PEER, &OURS), Err(UdpDrop::Port)));
}
