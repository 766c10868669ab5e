//! Classification of autonomous system numbers.

use vstd::prelude::*;

verus! {

/// Whether `asn` lies in one of the reserved private ranges:
/// 64512..=65534 (16-bit) or 4_200_000_000..=4_294_967_294 (32-bit).
pub open spec fn spec_is_private_asn(asn: u32) -> bool {
    (64512 <= asn && asn <= 65534) || (4_200_000_000 <= asn && asn <= 4_294_967_294)
}

/// Records whose origin set contains a private ASN can be dropped before
/// attribution; this decides membership in the reserved private ranges.
pub fn is_private_asn(asn: u32) -> (r: bool)
    ensures
        r == spec_is_private_asn(asn),
{
    (64512 <= asn && asn <= 65534) || (4_200_000_000 <= asn && asn <= 4_294_967_294)
}

} // verus!
