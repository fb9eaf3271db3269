use lib::checksum::{accumulate, checksum, fold, sum, transport_sum, valid};
use lib::wire::{bump, get16, get32, ip_eq, set16, set32, set_bytes};

fn sample_header() -> [u8; 20] {
    let mut hdr = [0u8; 20];
    hdr[0] = 0x45;
    hdr[2] = 0x00;
    hdr[3] = 0x14;
    hdr[8] = 64;
    hdr[9] = 1;
    hdr[12..16].copy_from_slice(&[10, 0, 2, 15]);
    hdr[16..20].copy_from_slice(&[10, 0, 2, 2]);
    hdr
}

#[test]
fn fold_runs_until_stable() {
    // One fold of 0x1ffff is 0x10000, which truncates to 0; folding again gives 1.
    assert_eq!(fold(0x1ffff), 1);
    assert_eq!(fold(0), 0);
    assert_eq!(fold(0xffff), 0xffff);
    assert_eq!(fold(0x2_0001), 3);
    assert_eq!(fold(0xffff_ffff), 0xffff);
}

#[test]
fn odd_byte_pads_with_zero() {
    assert_eq!(sum(&[0x01]), 0x0100);
}

#[test]
fn single_word_sum() {
    assert_eq!(sum(&[0x00, 0x01]), 0x0001);
}

#[test]
fn carry_wraps_around() {
    assert_eq!(sum(&[0xff, 0xff, 0x00, 0x01]), 0x0001);
}

#[test]
fn empty_sum_is_zero() {
    assert_eq!(sum(&[]), 0);
    assert_eq!(checksum(&[]), 0xffff);
}

#[test]
fn accumulate_chains_like_one_sum() {
    let a = [0x12u8, 0x34, 0x56, 0x78];
    let b = [0x9au8, 0xbc];
    let whole = [0x12u8, 0x34, 0x56, 0x78, 0x9a, 0xbc];
    assert_eq!(fold(accumulate(accumulate(0, &a), &b)), sum(&whole));
    assert_eq!(accumulate(0, &a), 0x1234 + 0x5678);
}

#[test]
fn built_ipv4_header_verifies() {
    let mut hdr = sample_header();
    let c = checksum(&hdr);
    hdr[10..12].copy_from_slice(&c.to_be_bytes());
    assert!(valid(&hdr));
    assert_eq!(sum(&hdr), 0xffff);
}

#[test]
fn mutated_header_fails() {
    let mut hdr = sample_header();
    let c = checksum(&hdr);
    hdr[10..12].copy_from_slice(&c.to_be_bytes());
    hdr[9] ^= 1;
    assert!(!valid(&hdr));
}

#[test]
fn stored_checksum_law_on_odd_data() {
    // Any data with its checksum written into a 16-bit field sums to 0xffff.
    let mut data = [0x45u8, 0x00, 0x00, 0x00, 0xde, 0xad, 0xbe];
    let c = checksum(&data);
    data[2..4].copy_from_slice(&c.to_be_bytes());
    assert!(valid(&data));
}

#[test]
fn transport_sum_is_sum_of_concatenation() {
    let pseudo = [10u8, 0, 2, 2, 10, 0, 2, 15, 0, 17, 0, 9];
    let seg = [0x30u8, 0x39, 0x00, 0x07, 0x00, 0x09, 0x00, 0x00, 0x41];
    let mut both = Vec::new();
    both.extend_from_slice(&pseudo);
    both.extend_from_slice(&seg);
    assert_eq!(transport_sum(&pseudo, &seg), sum(&both));
}

#[test]
fn wire_reads_big_endian() {
    let b = [0x12u8, 0x34, 0x56, 0x78, 0x9a];
    assert_eq!(get16(&b, 0), 0x1234);
    assert_eq!(get16(&b, 3), 0x789a);
    assert_eq!(get32(&b, 1), 0x3456_789a);
}

#[test]
fn wire_writes_big_endian() {
    let mut b = [0u8; 8];
    set16(&mut b, 1, 0xbeef);
    set32(&mut b, 3, 0x0102_0304);
    assert_eq!(b, [0, 0xbe, 0xef, 1, 2, 3, 4, 0]);
    set_bytes(&mut b, 6, &[9, 8]);
    assert_eq!(b, [0, 0xbe, 0xef, 1, 2, 3, 9, 8]);
    assert_eq!(get16(&b, 1), 0xbeef);
    assert_eq!(get32(&b, 3), 0x0102_0309);
}

#[test]
fn counters_wrap() {
    assert_eq!(bump(0), 1);
    assert_eq!(bump(u32::MAX), 0);
}

#[test]
fn ip_compare() {
    assert!(ip_eq(&[10, 0, 2, 15], &[10, 0, 2, 15]));
    assert!(!ip_eq(&[10, 0, 2, 15], &[10, 0, 2, 2]));
}

#[test]
fn accumulate_even_then_odd_piece() {
    let a = [0x01u8, 0x02, 0xf0, 0x0f];
    let b = [0xaau8, 0xbb, 0xcc];
    let whole = [0x01u8, 0x02, 0xf0, 0x0f, 0xaa, 0xbb, 0xcc];
    assert_eq!(accumulate(accumulate(7, &a), &b), accumulate(7, &whole));
    assert_eq!(accumulate(7, &whole), 7 + 0x0102 + 0xf00f + 0xaabb + 0xcc00);
}

#[test]
fn stored_checksum_verifies_past_64k() {
    let mut d = vec![0u8; 100_000];
    for (i, b) in d.iter_mut().enumerate() {
        *b = (i * 31 % 251) as u8;
    }
    d[40] = 0;
    d[41] = 0;
    let c = checksum(&d);
    d[40] = (c >> 8) as u8;
    d[41] = c as u8;
    assert!(valid(&d));
}
