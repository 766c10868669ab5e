//! The CIDR range container: adding, removing, covering, simplifying.

use bgptools::block::{Cidr, Family, RangeError};
use bgptools::ranges::CidrUnion;

fn v4(addr: u32, len: u8) -> Cidr {
    Cidr::new(Family::V4, addr as u128, len).unwrap()
}

#[test]
fn block_construction_rejects_bad_lengths() {
    assert_eq!(
        Cidr::new(Family::V4, 0, 33).unwrap_err(),
        RangeError::InvalidBlock
    );
    assert_eq!(
        Cidr::new(Family::V6, 0, 129).unwrap_err(),
        RangeError::InvalidBlock
    );
    // a v4 address outside the 32-bit space is malformed too
    assert_eq!(
        Cidr::new(Family::V4, 0x1_0000_0000, 8).unwrap_err(),
        RangeError::InvalidBlock
    );
    assert!(Cidr::new(Family::V6, 0, 128).is_ok());
}

#[test]
fn block_construction_clears_host_bits() {
    let b = Cidr::new(Family::V4, 0x0A00_0001, 8).unwrap();
    assert_eq!(b.addr, 0x0A00_0000);
    assert_eq!(b.len, 8);
}

#[test]
fn add_collapses_subnets_into_supernet() {
    let mut pool = CidrUnion::new(Family::V4);
    pool.add_block(v4(0x0A00_0000, 24));
    pool.add_block(v4(0x0A00_0100, 24));
    pool.add_block(v4(0x0A00_0000, 16));
    assert_eq!(pool.to_blocks(), vec![v4(0x0A00_0000, 16)]);
    // adding a subnet of an existing block changes nothing
    pool.add_block(v4(0x0A00_0500, 24));
    assert_eq!(pool.to_blocks(), vec![v4(0x0A00_0000, 16)]);
}

#[test]
fn remove_splits_into_fragments() {
    let mut pool = CidrUnion::new(Family::V4);
    pool.add_block(v4(0x0A00_0000, 23));
    pool.remove_block(v4(0x0A00_0100, 25));
    // left: 10.0.0.0/24; right: 10.0.1.128/25
    assert_eq!(
        pool.to_blocks(),
        vec![v4(0x0A00_0000, 24), v4(0x0A00_0180, 25)]
    );
}

#[test]
fn remove_of_disjoint_block_changes_nothing() {
    let mut pool = CidrUnion::new(Family::V4);
    pool.add_block(v4(0x0A00_0000, 24));
    pool.remove_block(v4(0x0B00_0000, 24));
    assert_eq!(pool.to_blocks(), vec![v4(0x0A00_0000, 24)]);
}

#[test]
fn simplify_merges_siblings_recursively() {
    let mut pool = CidrUnion::new(Family::V4);
    pool.add_block(v4(0x0A00_0000, 24));
    pool.add_block(v4(0x0A00_0100, 24));
    pool.add_block(v4(0x0A00_0200, 23));
    pool.simplify();
    assert_eq!(pool.to_blocks(), vec![v4(0x0A00_0000, 22)]);
}

#[test]
fn simplify_is_idempotent() {
    let mut pool = CidrUnion::new(Family::V4);
    pool.add_block(v4(0x0A00_0000, 24));
    pool.add_block(v4(0x0A00_0100, 24));
    pool.add_block(v4(0x0B00_0000, 16));
    pool.simplify();
    let once = pool.to_blocks();
    pool.simplify();
    assert_eq!(pool.to_blocks(), once);
}

#[test]
fn covers_returns_supernet_or_exact_match() {
    let mut pool = CidrUnion::new(Family::V4);
    pool.add_block(v4(0x0A00_0000, 8));
    pool.add_block(v4(0x0B00_0000, 24));
    assert_eq!(pool.covers(v4(0x0AFF_0000, 16)), Some(v4(0x0A00_0000, 8)));
    assert_eq!(pool.covers(v4(0x0B00_0000, 24)), Some(v4(0x0B00_0000, 24)));
    // a broader query than anything held is not covered
    assert_eq!(pool.covers(v4(0x0B00_0000, 16)), None);
    assert_eq!(pool.covers(v4(0x0C00_0000, 8)), None);
}

#[test]
fn union_with_merges_covered_sets() {
    let mut a = CidrUnion::new(Family::V4);
    a.add_block(v4(0x0A00_0000, 24));
    let mut b = CidrUnion::new(Family::V4);
    b.add_block(v4(0x0A00_0100, 24));
    a.union_with(&b);
    a.simplify();
    assert_eq!(a.to_blocks(), vec![v4(0x0A00_0000, 23)]);
}
