//! The interval-to-CIDR converter on concrete intervals.

use bgptools::block::{Cidr, Family};
use bgptools::convert::{interval_to_cidrs_v4, interval_to_cidrs_v6};
use bgptools::ranges::CidrUnion;

fn v4(addr: u32, len: u8) -> Cidr {
    Cidr::new(Family::V4, addr as u128, len).unwrap()
}

#[test]
fn test_interval_to_cidrs_v4_simple() {
    // [192.168.0.0, 192.168.1.0)
    let start: u32 = 0xC0A8_0000;
    let end: u32 = 0xC0A8_0100;
    let cidrs = interval_to_cidrs_v4(start, end);
    assert_eq!(cidrs.len(), 1);
    // 192.168.0.0/24
    assert_eq!(cidrs[0], v4(0xC0A8_0000, 24));
}

#[test]
fn test_interval_to_cidrs_v4_complex() {
    // [10.0.0.0, 10.0.2.0) should produce 10.0.0.0/23
    let start: u32 = 0x0A00_0000;
    let end: u32 = 0x0A00_0200;
    let cidrs = interval_to_cidrs_v4(start, end);
    assert_eq!(cidrs.len(), 1);
    assert_eq!(cidrs[0], v4(0x0A00_0000, 23));
}

#[test]
fn test_interval_to_cidrs_v4_unaligned() {
    // [10.0.1.0, 10.0.2.0) should produce 10.0.1.0/24
    let start: u32 = 0x0A00_0100;
    let end: u32 = 0x0A00_0200;
    let cidrs = interval_to_cidrs_v4(start, end);
    assert_eq!(cidrs.len(), 1);
    assert_eq!(cidrs[0], v4(0x0A00_0100, 24));
}

#[test]
fn test_interval_to_cidrs_v4_multiple() {
    // [10.0.1.0, 10.0.3.0) should produce 10.0.1.0/24, 10.0.2.0/24
    let start: u32 = 0x0A00_0100;
    let end: u32 = 0x0A00_0300;
    let cidrs = interval_to_cidrs_v4(start, end);
    assert_eq!(cidrs.len(), 2);
    assert!(cidrs.contains(&v4(0x0A00_0100, 24)));
    assert!(cidrs.contains(&v4(0x0A00_0200, 24)));
}

#[test]
fn empty_interval_gives_no_blocks() {
    assert_eq!(interval_to_cidrs_v4(5, 5).len(), 0);
    assert_eq!(interval_to_cidrs_v4(9, 3).len(), 0);
}

#[test]
fn converter_output_is_exact_and_minimal() {
    // An awkward interval: [10.0.1.0, 10.0.4.0) needs a /24 and a /23,
    // and simplifying the resulting container changes nothing.
    let cidrs = interval_to_cidrs_v4(0x0A00_0100, 0x0A00_0400);
    assert_eq!(cidrs.len(), 2);
    assert_eq!(cidrs[0], v4(0x0A00_0100, 24));
    assert_eq!(cidrs[1], v4(0x0A00_0200, 23));
    let mut pool = CidrUnion::from_interval(Family::V4, 0x0A00_0100, 0x0A00_0400);
    assert_eq!(pool.to_blocks(), cidrs);
    let before = pool.to_blocks();
    pool.simplify();
    assert_eq!(pool.to_blocks(), before);
}

#[test]
fn converter_covers_whole_v6_space() {
    let cidrs = interval_to_cidrs_v6(0, u128::MAX);
    // [0, MAX) is everything but the last address: one block per width
    assert_eq!(cidrs.len(), 128);
    assert_eq!(cidrs[0], Cidr::new(Family::V6, 0, 1).unwrap());
}

#[test]
fn converter_handles_top_of_v4_space() {
    // [255.255.255.0, end of space as exclusive bound is impossible, so
    // the caller passes the last representable end 255.255.255.255]
    let cidrs = interval_to_cidrs_v4(0xFFFF_FF00, 0xFFFF_FFFF);
    // covers [255.255.255.0, 255.255.255.255): /25, /26, ... /32 pattern
    let mut total: u64 = 0;
    for c in &cidrs {
        total += 1u64 << (32 - c.len);
    }
    assert_eq!(total, 255);
}
