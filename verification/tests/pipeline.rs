//! Ingest, merge, aggregation and selection, end to end on small inputs.

use bgptools::aggregate::{build_asn_ranges, union_for_others, union_for_targets};
use bgptools::block::{Cidr, Family, RangeError};
use bgptools::exclude::exclude_overlaps;
use bgptools::ingest::{Announcement, SourceData};
use bgptools::origins::OriginMap;
use bgptools::splits::SplitPoints;

fn v4(addr: u32, len: u8) -> Cidr {
    Cidr::new(Family::V4, addr as u128, len).unwrap()
}

fn announce(addr: u32, len: u8, origins: Vec<u32>, path: Option<Vec<u32>>) -> Announcement {
    Announcement {
        is_announce: true,
        family: Family::V4,
        addr: addr as u128,
        len,
        origins: Some(origins),
        path,
    }
}

#[test]
fn end_to_end_attribution() {
    // AS1000 announces 10.0.0.0/8, AS1001 announces 10.255.0.0/16
    let mut src = SourceData::new();
    src.ingest_record(&announce(0x0A00_0000, 8, vec![1000], None), false)
        .unwrap();
    src.ingest_record(&announce(0x0AFF_0000, 16, vec![1001], None), false)
        .unwrap();
    let sources = vec![src];
    let (t4, _t6) = build_asn_ranges(&sources);

    // filtering for AS1000 alone: the 8-block complement of 10.255.0.0/16
    let only_1000 = union_for_targets(&t4, &vec![1000]);
    let expect = vec![
        v4(0x0A00_0000, 9),
        v4(0x0A80_0000, 10),
        v4(0x0AC0_0000, 11),
        v4(0x0AE0_0000, 12),
        v4(0x0AF0_0000, 13),
        v4(0x0AF8_0000, 14),
        v4(0x0AFC_0000, 15),
        v4(0x0AFE_0000, 16),
    ];
    assert_eq!(only_1000.to_blocks(), expect);

    // filtering for both re-aggregates the whole /8
    let both = union_for_targets(&t4, &vec![1000, 1001]);
    assert_eq!(both.to_blocks(), vec![v4(0x0A00_0000, 8)]);
}

#[test]
fn aggregation_and_exclusion_agree_with_the_mask_policy() {
    let mut src = SourceData::new();
    src.ingest_record(&announce(0x0A00_0000, 8, vec![1000], None), false)
        .unwrap();
    src.ingest_record(&announce(0x0AFF_0000, 16, vec![1001], None), false)
        .unwrap();
    let sources = vec![src];
    let (t4, _t6) = build_asn_ranges(&sources);
    let included = union_for_targets(&t4, &vec![1000]);
    let excluded = union_for_others(&t4, &vec![1000]);
    // AS1000's space already excludes the more specific foreign /16, so
    // the filter has nothing left to subtract
    let filtered = exclude_overlaps(&included, &excluded);
    assert_eq!(filtered.to_blocks(), included.to_blocks());
}

#[test]
fn withdrawals_and_originless_records_are_skipped() {
    let mut src = SourceData::new();
    let withdraw = Announcement {
        is_announce: false,
        family: Family::V4,
        addr: 0x0A00_0000,
        len: 8,
        origins: Some(vec![1000]),
        path: None,
    };
    let no_origin = Announcement {
        is_announce: true,
        family: Family::V4,
        addr: 0x0A00_0000,
        len: 8,
        origins: None,
        path: None,
    };
    src.ingest_record(&withdraw, false).unwrap();
    src.ingest_record(&no_origin, false).unwrap();
    let sources = vec![src];
    let (t4, t6) = build_asn_ranges(&sources);
    assert_eq!(t4.count(), 0);
    assert_eq!(t6.count(), 0);
}

#[test]
fn private_origins_are_dropped_on_request() {
    let mut with_filter = SourceData::new();
    with_filter
        .ingest_record(&announce(0x0A00_0000, 8, vec![64512], None), true)
        .unwrap();
    let (t4, _) = build_asn_ranges(&vec![with_filter]);
    assert_eq!(t4.count(), 0);

    let mut without_filter = SourceData::new();
    without_filter
        .ingest_record(&announce(0x0A00_0000, 8, vec![64512], None), false)
        .unwrap();
    let (t4b, _) = build_asn_ranges(&vec![without_filter]);
    assert_eq!(t4b.count(), 1);
}

#[test]
fn malformed_prefix_is_fatal() {
    let mut src = SourceData::new();
    let bad = Announcement {
        is_announce: true,
        family: Family::V4,
        addr: 0x0A00_0000,
        len: 40,
        origins: Some(vec![1000]),
        path: None,
    };
    assert_eq!(src.ingest_record(&bad, false), Err(RangeError::InvalidBlock));
}

#[test]
fn shared_upstreams_become_origins() {
    // three vantage points agree that 64496 and 64497 carry the route
    // near its origin 1000
    let mut src = SourceData::new();
    for head in [11u32, 12, 13] {
        src.ingest_record(
            &announce(0x0A00_0000, 8, vec![1000], Some(vec![head, 64496, 64497, 1000])),
            false,
        )
        .unwrap();
    }
    let (t4, _) = build_asn_ranges(&vec![src]);
    // the transit ASNs are now attributed the same space as the origin
    let transit = union_for_targets(&t4, &vec![64496]);
    assert_eq!(transit.to_blocks(), vec![v4(0x0A00_0000, 8)]);
    let transit2 = union_for_targets(&t4, &vec![64497]);
    assert_eq!(transit2.to_blocks(), vec![v4(0x0A00_0000, 8)]);
}

#[test]
fn merge_is_union_of_sources() {
    let mut a = SourceData::new();
    a.ingest_record(&announce(0x0A00_0000, 9, vec![1000], None), false)
        .unwrap();
    let mut b = SourceData::new();
    b.ingest_record(&announce(0x0A80_0000, 9, vec![1000], None), false)
        .unwrap();
    let (t4, _) = build_asn_ranges(&vec![a, b]);
    let r = union_for_targets(&t4, &vec![1000]);
    assert_eq!(r.to_blocks(), vec![v4(0x0A00_0000, 8)]);
}

#[test]
fn lookup_prefers_longest_prefix() {
    let mut map = OriginMap::new(Family::V4);
    map.insert(v4(0x0A00_0000, 8), &vec![1000]);
    map.insert(v4(0x0AFF_0000, 16), &vec![1001]);
    let (blk, asns) = map.lookup_address(0x0AFF_0001).unwrap();
    assert_eq!(blk, v4(0x0AFF_0000, 16));
    assert_eq!(asns, vec![1001]);
    let (blk2, asns2) = map.lookup_address(0x0A00_0001).unwrap();
    assert_eq!(blk2, v4(0x0A00_0000, 8));
    assert_eq!(asns2, vec![1000]);
    assert!(map.lookup_address(0x0B00_0000).is_none());
}

#[test]
fn repeated_announcements_union_their_origins() {
    let mut map = OriginMap::new(Family::V4);
    map.insert(v4(0x0A00_0000, 8), &vec![1000]);
    map.insert(v4(0x0A00_0000, 8), &vec![1001, 1000]);
    let (_, asns) = map.lookup_address(0x0A00_0001).unwrap();
    assert_eq!(asns, vec![1000, 1001]);
}

#[test]
fn split_points_mark_both_prefix_boundaries() {
    let mut sp = SplitPoints::new(Family::V4);
    sp.insert_prefix(v4(0x0A00_0000, 8));
    sp.insert_prefix(v4(0x0AFF_0000, 16));
    let mut got: Vec<u128> = Vec::new();
    let mut i = 0;
    while i < sp.len() {
        got.push(sp.point_at(i));
        i += 1;
    }
    assert_eq!(
        got,
        vec![0x0A00_0000u128, 0x0AFF_0000, 0x0B00_0000]
    );
    // the top of the space has no successor: it is silently skipped
    let mut top = SplitPoints::new(Family::V4);
    top.insert_prefix(v4(0xFFFF_FF00, 24));
    assert_eq!(top.len(), 1);
    assert_eq!(top.point_at(0), 0xFFFF_FF00);
}
