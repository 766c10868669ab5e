//! Private-ASN classification and shared-upstream suffix inference.

use bgptools::asn::is_private_asn;
use bgptools::paths::longest_common_suffix;

#[test]
fn detects_private_asn_ranges() {
    assert!(is_private_asn(64512));
    assert!(is_private_asn(65534));
    assert!(is_private_asn(4_200_000_000));
    assert!(is_private_asn(4_294_967_294));
    assert!(!is_private_asn(64511));
    assert!(!is_private_asn(13335));
}

#[test]
fn computes_longest_common_suffix() {
    let paths = vec![
        vec![1, 64512, 13335, 15169],
        vec![64500, 64512, 13335, 15169],
        vec![64501, 9999, 13335, 15169],
    ];
    assert_eq!(longest_common_suffix(&paths).as_slice(), &[13335, 15169]);

    // limited to the last 4 elements
    let long_paths = vec![vec![10, 20, 30, 40, 50, 60]];
    assert_eq!(
        longest_common_suffix(&long_paths).as_slice(),
        &[30, 40, 50, 60]
    );
}

#[test]
fn suffix_of_no_paths_is_empty() {
    let paths: Vec<Vec<u32>> = Vec::new();
    assert_eq!(longest_common_suffix(&paths).len(), 0);
}

#[test]
fn suffix_stops_at_first_disagreement() {
    let paths = vec![vec![7, 8, 9], vec![5, 8, 9], vec![8, 6, 9]];
    assert_eq!(longest_common_suffix(&paths).as_slice(), &[9]);
}

#[test]
fn suffix_is_capped_by_shortest_path() {
    let paths = vec![vec![3, 4], vec![1, 2, 3, 4]];
    assert_eq!(longest_common_suffix(&paths).as_slice(), &[3, 4]);
}

#[test]
fn disagreeing_tails_yield_nothing() {
    let paths = vec![vec![1, 2, 3], vec![1, 2, 4]];
    assert_eq!(longest_common_suffix(&paths).len(), 0);
}
