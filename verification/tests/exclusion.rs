//! The overlap-exclusion filter's gate: only strictly-more-specific
//! foreign claims punch holes.

use bgptools::block::{Cidr, Family};
use bgptools::exclude::exclude_overlaps;
use bgptools::ranges::CidrUnion;

fn v4(addr: u32, len: u8) -> Cidr {
    Cidr::new(Family::V4, addr as u128, len).unwrap()
}

fn pool(blocks: &[Cidr]) -> CidrUnion {
    let mut p = CidrUnion::new(Family::V4);
    for b in blocks {
        p.add_block(*b);
    }
    p
}

#[test]
fn more_specific_claim_is_subtracted() {
    // included = {10.0.0.0/8}, excluded = {10.255.0.0/16}
    let included = pool(&[v4(0x0A00_0000, 8)]);
    let excluded = pool(&[v4(0x0AFF_0000, 16)]);
    let r = exclude_overlaps(&included, &excluded);
    let expect = vec![
        v4(0x0A00_0000, 9),
        v4(0x0A80_0000, 10),
        v4(0x0AC0_0000, 11),
        v4(0x0AE0_0000, 12),
        v4(0x0AF0_0000, 13),
        v4(0x0AF8_0000, 14),
        v4(0x0AFC_0000, 15),
        v4(0x0AFE_0000, 16),
    ];
    assert_eq!(r.to_blocks(), expect);
}

#[test]
fn equally_specific_claim_erases_nothing() {
    let included = pool(&[v4(0x0A00_0000, 8)]);
    let excluded = pool(&[v4(0x0A00_0000, 8)]);
    let r = exclude_overlaps(&included, &excluded);
    assert_eq!(r.to_blocks(), vec![v4(0x0A00_0000, 8)]);
}

#[test]
fn broader_claim_erases_nothing() {
    let included = pool(&[v4(0x0A00_0000, 8)]);
    let excluded = pool(&[v4(0x0A00_0000, 7)]);
    let r = exclude_overlaps(&included, &excluded);
    assert_eq!(r.to_blocks(), vec![v4(0x0A00_0000, 8)]);
}

#[test]
fn non_overlapping_specific_claim_erases_nothing() {
    // a more specific foreign block with no included supernet over it
    let included = pool(&[v4(0x0A00_0000, 8)]);
    let excluded = pool(&[v4(0x0B00_0100, 24)]);
    let r = exclude_overlaps(&included, &excluded);
    assert_eq!(r.to_blocks(), vec![v4(0x0A00_0000, 8)]);
}
