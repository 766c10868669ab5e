//! The origin range aggregator and the selection steps around it: walk
//! the elementary intervals between split points, attribute each to the
//! origin ASNs that win the longest-prefix match at its start, accumulate
//! per-ASN containers, and form unions over chosen ASN sets.

use vstd::prelude::*;
use vstd::arithmetic::power2::lemma_pow2_pos;
use crate::block::{Cidr, Family, lemma_disjoint_or_nested};
use crate::convert::{seq_covers, interval_to_cidrs};
use crate::ingest::{PathTable, SourceData, merged_all};
use crate::origins::{OriginMap, vec_contains_u32};
use crate::paths::{is_shared_suffix, longest_common_suffix, all_longer_than, tails_agree};
use crate::ranges::CidrUnion;
use crate::splits::SplitPoints;

verus! {

/// One ASN and the union of address blocks attributed to it.
pub struct AsnEntry {
    pub asn: u32,
    pub blocks: CidrUnion,
}

/// Per-ASN CIDR range containers of one family.
pub struct OriginRanges {
    pub family: Family,
    pub entries: Vec<AsnEntry>,
}

impl OriginRanges {
    pub open spec fn wf(self) -> bool {
        &&& forall|i: int|
            0 <= i < self.entries@.len() ==> (#[trigger] self.entries@[i]).blocks.wf()
                && self.entries@[i].blocks.family == self.family
        &&& forall|i: int, j: int|
            0 <= i < j < self.entries@.len() ==> (#[trigger] self.entries@[i]).asn != (
            #[trigger] self.entries@[j]).asn
    }

    pub open spec fn has_asn(self, asn: u32) -> bool {
        exists|i: int| 0 <= i < self.entries@.len() && (#[trigger] self.entries@[i]).asn == asn
    }

    /// Address `a` is attributed to `asn` in this table.
    pub open spec fn asn_covers(self, asn: u32, a: int) -> bool {
        exists|i: int|
            0 <= i < self.entries@.len() && (#[trigger] self.entries@[i]).asn == asn
                && self.entries@[i].blocks.covers_addr(a)
    }

    /// Every per-ASN container is in normal form.
    pub open spec fn all_normal(self) -> bool {
        forall|i: int| 0 <= i < self.entries@.len() ==> (#[trigger] self.entries@[i]).blocks.is_normal()
    }

    pub fn new(family: Family) -> (r: OriginRanges)
        ensures
            r.wf(),
            r.family == family,
            r.entries@.len() == 0,
            forall|asn: u32| !r.has_asn(asn),
            forall|asn: u32, a: int| !r.asn_covers(asn, a),
    {
        OriginRanges { family, entries: Vec::new() }
    }

    pub fn count(&self) -> (n: usize)
        ensures
            n == self.entries@.len(),
    {
        self.entries.len()
    }

    pub fn asn_at(&self, i: usize) -> (asn: u32)
        requires
            i < self.entries@.len(),
        ensures
            asn == self.entries@[i as int].asn,
    {
        self.entries[i].asn
    }

    /// Add blocks to one ASN's container, creating it when absent;
    /// every other ASN's attribution is untouched.
    #[verifier::loop_isolation(false)]
    pub fn add_to(&mut self, asn: u32, cidrs: &Vec<Cidr>)
        requires
            old(self).wf(),
            forall|t: int|
                0 <= t < cidrs@.len() ==> (#[trigger] cidrs@[t]).wf() && cidrs@[t].family == old(
                    self,
                ).family,
        ensures
            final(self).wf(),
            final(self).family == old(self).family,
            forall|x: u32|
                #![trigger final(self).has_asn(x)]
                final(self).has_asn(x) <==> old(self).has_asn(x) || x == asn,
            forall|a: int|
                #![trigger final(self).asn_covers(asn, a)]
                final(self).asn_covers(asn, a) <==> old(self).asn_covers(asn, a) || seq_covers(
                    cidrs@,
                    a,
                ),
            forall|x: u32, a: int|
                #![trigger final(self).asn_covers(x, a)]
                x != asn ==> (final(self).asn_covers(x, a) <==> old(self).asn_covers(x, a)),
    {
        let ghost orig = self.entries@;
        let n = self.entries.len();
        let mut i: usize = 0;
        while i < n
            invariant
                i <= n,
                self == old(self),
                n == self.entries@.len(),
                forall|t: int| 0 <= t < i ==> (#[trigger] orig[t]).asn != asn,
            decreases n - i,
        {
            if self.entries[i].asn == asn {
                let mut ent = self.entries.remove(i);
                ent.blocks.add_cidrs(cidrs);
                self.entries.insert(i, ent);
                proof {
                    let s = self.entries@;
                    let ti = i as int;
                    assert(s.len() == orig.len());
                    assert(forall|t: int|
                        0 <= t < s.len() && t != ti ==> #[trigger] s[t] == orig[t]);
                    assert(s[ti].asn == asn);
                    assert forall|x: u32|
                        self.has_asn(x) <==> old(self).has_asn(x) || x == asn by {
                        if self.has_asn(x) {
                            let t = choose|t: int|
                                0 <= t < s.len() && (#[trigger] s[t]).asn == x;
                            if t != ti {
                                assert(orig[t].asn == x);
                            }
                            assert(old(self).has_asn(x) || x == asn);
                        }
                        if old(self).has_asn(x) {
                            let t = choose|t: int|
                                0 <= t < orig.len() && (#[trigger] orig[t]).asn == x;
                            if t != ti {
                                assert(s[t].asn == x);
                            } else {
                                assert(s[ti].asn == x);
                            }
                            assert(self.has_asn(x));
                        }
                        if x == asn {
                            assert(s[ti].asn == x);
                            assert(self.has_asn(x));
                        }
                    }
                    assert forall|a: int|
                        self.asn_covers(asn, a) <==> old(self).asn_covers(asn, a) || seq_covers(
                            cidrs@,
                            a,
                        ) by {
                        if self.asn_covers(asn, a) {
                            let t = choose|t: int|
                                0 <= t < s.len() && (#[trigger] s[t]).asn == asn
                                    && s[t].blocks.covers_addr(a);
                            if t != ti {
                                assert(orig[t].asn == asn);
                                assert(false);
                            }
                            if orig[ti].blocks.covers_addr(a) {
                                assert(old(self).asn_covers(asn, a));
                            }
                        }
                        if old(self).asn_covers(asn, a) {
                            let t = choose|t: int|
                                0 <= t < orig.len() && (#[trigger] orig[t]).asn == asn
                                    && orig[t].blocks.covers_addr(a);
                            if t != ti {
                                assert(orig[t].asn == orig[ti].asn);
                                assert(false);
                            }
                            assert(s[ti].blocks.covers_addr(a));
                            assert(self.asn_covers(asn, a));
                        }
                        if seq_covers(cidrs@, a) {
                            assert(s[ti].blocks.covers_addr(a));
                            assert(self.asn_covers(asn, a));
                        }
                    }
                    assert forall|x: u32, a: int|
                        x != asn implies (self.asn_covers(x, a) <==> old(self).asn_covers(
                        x,
                        a,
                    )) by {
                        if self.asn_covers(x, a) {
                            let t = choose|t: int|
                                0 <= t < s.len() && (#[trigger] s[t]).asn == x
                                    && s[t].blocks.covers_addr(a);
                            assert(t != ti);
                            assert(orig[t].asn == x && orig[t].blocks.covers_addr(a));
                        }
                        if old(self).asn_covers(x, a) {
                            let t = choose|t: int|
                                0 <= t < orig.len() && (#[trigger] orig[t]).asn == x
                                    && orig[t].blocks.covers_addr(a);
                            assert(t != ti);
                            assert(s[t].asn == x && s[t].blocks.covers_addr(a));
                        }
                    }
                }
                return ;
            }
            i = i + 1;
        }
        let mut fresh = CidrUnion::new(self.family);
        fresh.add_cidrs(cidrs);
        self.entries.push(AsnEntry { asn, blocks: fresh });
        proof {
            let s = self.entries@;
            let last = s.len() - 1;
            assert(forall|t: int| 0 <= t < orig.len() ==> #[trigger] s[t] == orig[t]);
            assert(s[last].asn == asn);
            assert forall|x: u32| self.has_asn(x) <==> old(self).has_asn(x) || x == asn by {
                if self.has_asn(x) {
                    let t = choose|t: int| 0 <= t < s.len() && (#[trigger] s[t]).asn == x;
                    if t < last {
                        assert(orig[t].asn == x);
                    }
                    assert(old(self).has_asn(x) || x == asn);
                }
                if old(self).has_asn(x) {
                    let t = choose|t: int| 0 <= t < orig.len() && (#[trigger] orig[t]).asn == x;
                    assert(s[t].asn == x);
                    assert(self.has_asn(x));
                }
                if x == asn {
                    assert(s[last].asn == x);
                    assert(self.has_asn(x));
                }
            }
            assert forall|a: int|
                self.asn_covers(asn, a) <==> old(self).asn_covers(asn, a) || seq_covers(
                    cidrs@,
                    a,
                ) by {
                if self.asn_covers(asn, a) {
                    let t = choose|t: int|
                        0 <= t < s.len() && (#[trigger] s[t]).asn == asn && s[t].blocks.covers_addr(
                            a,
                        );
                    if t < last {
                        assert(orig[t].asn == asn);
                        assert(false);
                    }
                }
                if old(self).asn_covers(asn, a) {
                    let t = choose|t: int|
                        0 <= t < orig.len() && (#[trigger] orig[t]).asn == asn
                            && orig[t].blocks.covers_addr(a);
                    assert(orig[t].asn == asn);
                    assert(false);
                }
                if seq_covers(cidrs@, a) {
                    assert(s[last].blocks.covers_addr(a));
                    assert(self.asn_covers(asn, a));
                }
            }
            assert forall|x: u32, a: int|
                x != asn implies (self.asn_covers(x, a) <==> old(self).asn_covers(x, a)) by {
                if self.asn_covers(x, a) {
                    let t = choose|t: int|
                        0 <= t < s.len() && (#[trigger] s[t]).asn == x && s[t].blocks.covers_addr(
                            a,
                        );
                    assert(t < last);
                    assert(orig[t].asn == x && orig[t].blocks.covers_addr(a));
                }
                if old(self).asn_covers(x, a) {
                    let t = choose|t: int|
                        0 <= t < orig.len() && (#[trigger] orig[t]).asn == x
                            && orig[t].blocks.covers_addr(a);
                    assert(s[t].asn == x && s[t].blocks.covers_addr(a));
                }
            }
        }
    }

    /// Simplify every per-ASN container; attribution does not change.
    #[verifier::loop_isolation(false)]
    pub fn simplify_all(&mut self)
        requires
            old(self).wf(),
        ensures
            final(self).wf(),
            final(self).family == old(self).family,
            final(self).all_normal(),
            final(self).entries@.len() == old(self).entries@.len(),
            forall|t: int|
                0 <= t < final(self).entries@.len() ==> (#[trigger] final(self).entries@[t]).asn
                    == old(self).entries@[t].asn,
            forall|x: u32|
                #![trigger final(self).has_asn(x)]
                final(self).has_asn(x) <==> old(self).has_asn(x),
            forall|x: u32, a: int|
                #![trigger final(self).asn_covers(x, a)]
                final(self).asn_covers(x, a) <==> old(self).asn_covers(x, a),
    {
        let ghost orig = self.entries@;
        let n = self.entries.len();
        let mut i: usize = 0;
        while i < n
            invariant
                i <= n,
                n == self.entries@.len(),
                self.family == old(self).family,
                self.wf(),
                forall|t: int|
                    0 <= t < n ==> (#[trigger] self.entries@[t]).asn == orig[t].asn,
                forall|t: int|
                    0 <= t < i ==> (#[trigger] self.entries@[t]).blocks.is_normal(),
                forall|t: int| i as int <= t < n ==> #[trigger] self.entries@[t] == orig[t],
                forall|t: int, a: int|
                    #![trigger self.entries@[t].blocks.covers_addr(a)]
                    0 <= t < n ==> (self.entries@[t].blocks.covers_addr(a) <==> orig[
                        t
                    ].blocks.covers_addr(a)),
            decreases n - i,
        {
            let mut ent = self.entries.remove(i);
            ent.blocks.simplify();
            self.entries.insert(i, ent);
            i = i + 1;
        }
        proof {
            assert forall|x: u32| self.has_asn(x) <==> old(self).has_asn(x) by {
                if self.has_asn(x) {
                    let t = choose|t: int|
                        0 <= t < self.entries@.len() && (#[trigger] self.entries@[t]).asn == x;
                    assert(orig[t].asn == x);
                    assert(old(self).has_asn(x));
                }
                if old(self).has_asn(x) {
                    let t = choose|t: int|
                        0 <= t < orig.len() && (#[trigger] orig[t]).asn == x;
                    assert(self.entries@[t].asn == x);
                    assert(self.has_asn(x));
                }
            }
            assert forall|x: u32, a: int|
                self.asn_covers(x, a) <==> old(self).asn_covers(x, a) by {
                if self.asn_covers(x, a) {
                    let t = choose|t: int|
                        0 <= t < self.entries@.len() && (#[trigger] self.entries@[t]).asn == x
                            && self.entries@[t].blocks.covers_addr(a);
                    assert(orig[t].asn == x && orig[t].blocks.covers_addr(a));
                    assert(old(self).asn_covers(x, a));
                }
                if old(self).asn_covers(x, a) {
                    let t = choose|t: int|
                        0 <= t < orig.len() && (#[trigger] orig[t]).asn == x
                            && orig[t].blocks.covers_addr(a);
                    assert(self.entries@[t].asn == x && self.entries@[t].blocks.covers_addr(a));
                    assert(self.asn_covers(x, a));
                }
            }
        }
    }
}

/// The origin set of `asn` wins the longest-prefix match at `addr`: some
/// entry's block contains the address, carries the ASN, and no inserted
/// block containing the address is more specific.
pub open spec fn lpm_includes(origins: OriginMap, addr: int, asn: u32) -> bool {
    exists|i: int|
        #![trigger origins.entries@[i]]
        0 <= i < origins.entries@.len() && origins.entries@[i].block.contains_addr(addr)
            && origins.entries@[i].asns@.contains(asn) && (forall|j: int|
            0 <= j < origins.entries@.len() && (#[trigger] origins.entries@[j]).block.contains_addr(
                addr,
            ) ==> origins.entries@[j].block.len <= origins.entries@[i].block.len)
}

/// Address `a` lies in an elementary interval whose start `asn` wins,
/// looking only at the first `hi` split points as interval starts.
pub open spec fn attributed_upto(
    splits: SplitPoints,
    origins: OriginMap,
    hi: int,
    asn: u32,
    a: int,
) -> bool {
    exists|i: int|
        #![trigger lpm_includes(origins, splits.points@[i] as int, asn)]
        0 <= i < hi && i + 1 < splits.points@.len() && splits.points@[i] <= a < splits.points@[i
            + 1] && lpm_includes(origins, splits.points@[i] as int, asn)
}

/// Address `a` is attributed to `asn`: it lies in an elementary interval
/// whose starting address `asn` wins by longest-prefix match.
pub open spec fn attributed(splits: SplitPoints, origins: OriginMap, asn: u32, a: int) -> bool {
    attributed_upto(splits, origins, splits.points@.len() as int, asn, a)
}

/// A successful lookup names exactly the ASNs that win the match.
proof fn lemma_lookup_wins(origins: OriginMap, addr: u128, b: Cidr, asns: Seq<u32>)
    requires
        origins.wf(),
        origins.has_block(b),
        b.contains_addr(addr as int),
        asns.to_set() == origins.asns_of(b),
        forall|i: int|
            0 <= i < origins.entries@.len() && (#[trigger] origins.entries@[i]).block.contains_addr(
                addr as int,
            ) ==> origins.entries@[i].block.len <= b.len,
    ensures
        forall|asn: u32|
            #![trigger asns.contains(asn)]
            lpm_includes(origins, addr as int, asn) <==> asns.contains(asn),
{
    let w = origins.idx_of(b);
    assert(0 <= w < origins.entries@.len() && origins.entries@[w].block == b);
    assert forall|asn: u32|
        lpm_includes(origins, addr as int, asn) <==> asns.contains(asn) by {
        if asns.contains(asn) {
            assert(asns.to_set().contains(asn));
            assert(origins.entries@[w].asns@.to_set().contains(asn));
            assert(origins.entries@[w].asns@.contains(asn));
            assert(origins.entries@[w].block.contains_addr(addr as int));
            assert(lpm_includes(origins, addr as int, asn));
        }
        if lpm_includes(origins, addr as int, asn) {
            let i = choose|i: int|
                #![trigger origins.entries@[i]]
                0 <= i < origins.entries@.len() && origins.entries@[i].block.contains_addr(
                    addr as int,
                ) && origins.entries@[i].asns@.contains(asn) && (forall|j: int|
                    0 <= j < origins.entries@.len() && (
                    #[trigger] origins.entries@[j]).block.contains_addr(addr as int)
                        ==> origins.entries@[j].block.len <= origins.entries@[i].block.len);
            let e = origins.entries@[i].block;
            // both e and b are maximal-length blocks containing addr
            assert(e.len <= b.len);
            assert(b.len <= e.len) by {
                assert(origins.entries@[w].block.contains_addr(addr as int));
            }
            lemma_pow2_pos((e.width() - e.len) as nat);
            lemma_pow2_pos((b.width() - b.len) as nat);
            lemma_disjoint_or_nested(e, b, addr as int);
            assert(e == b);
            if i != w {
                assert(origins.entries@[i].block != origins.entries@[w].block);
                assert(false);
            }
            assert(origins.entries@[w].asns@.contains(asn));
            assert(asns.to_set().contains(asn));
        }
    }
}

/// Attribute one elementary interval: resolve the origin set at its
/// start by longest-prefix match and add the interval's blocks to each
/// winning ASN's container.
#[verifier::loop_isolation(false)]
#[verifier::rlimit(100)]
#[verifier::spinoff_prover]
fn attribute_interval(r: &mut OriginRanges, splits: &SplitPoints, origins: &OriginMap, i: usize)
    requires
        old(r).wf(),
        old(r).family == splits.family,
        splits.wf(),
        origins.wf(),
        origins.family == splits.family,
        i + 1 < splits.points@.len(),
    ensures
        final(r).wf(),
        final(r).family == old(r).family,
        forall|asn: u32, a: int|
            #![trigger final(r).asn_covers(asn, a)]
            final(r).asn_covers(asn, a) <==> old(r).asn_covers(asn, a) || (splits.points@[i as int]
                <= a < splits.points@[i as int + 1] && lpm_includes(
                *origins,
                splits.points@[i as int] as int,
                asn,
            )),
{
    let point_total = splits.points.len();
    proof {
        assert(i + 1 < point_total);
    }
    let s = splits.point_at(i);
    let e = splits.point_at(i + 1);
    let ghost ti = i as int;
    let ghost rpre = *r;
    let hit = origins.lookup_address(s);
    match hit {
        None => {
            proof {
                assert forall|asn: u32| !lpm_includes(*origins, s as int, asn) by {
                    if lpm_includes(*origins, s as int, asn) {
                        let w = choose|w: int|
                            #![trigger origins.entries@[w]]
                            0 <= w < origins.entries@.len()
                                && origins.entries@[w].block.contains_addr(s as int)
                                && origins.entries@[w].asns@.contains(asn) && (forall|j: int|
                                0 <= j < origins.entries@.len() && (
                                #[trigger] origins.entries@[j]).block.contains_addr(s as int)
                                    ==> origins.entries@[j].block.len
                                    <= origins.entries@[w].block.len);
                        assert(false);
                    }
                }
            }
        },
        Some(found) => {
            let blk = found.0;
            let asns = found.1;
            proof {
                lemma_lookup_wins(*origins, s, blk, asns@);
            }
            let cidrs = interval_to_cidrs(splits.family, s, e);
            let m = asns.len();
            let mut k: usize = 0;
            while k < m
                invariant
                    m == asns@.len(),
                    k <= m,
                    0 <= ti && ti + 1 < splits.points@.len(),
                    s == splits.points@[ti],
                    e == splits.points@[ti + 1],
                    r.wf(),
                    r.family == splits.family,
                    forall|t: int|
                        0 <= t < cidrs@.len() ==> (#[trigger] cidrs@[t]).wf() && cidrs@[t].family
                            == splits.family,
                    forall|a: int|
                        #![trigger seq_covers(cidrs@, a)]
                        seq_covers(cidrs@, a) <==> s <= a < e,
                    forall|asn: u32, a: int|
                        #![trigger r.asn_covers(asn, a)]
                        r.asn_covers(asn, a) <==> (rpre.asn_covers(asn, a) || (asns@.subrange(
                            0,
                            k as int,
                        ).contains(asn) && s <= a < e)),
                decreases m - k,
            {
                let ghost rmid = *r;
                let asn = asns[k];
                r.add_to(asn, &cidrs);
                proof {
                    assert(asns@.subrange(0, k + 1) =~= asns@.subrange(0, k as int).push(asn));
                    crate::origins::lemma_push_contains(asns@.subrange(0, k as int), asn);
                    assert forall|x: u32, a: int|
                        r.asn_covers(x, a) <==> (rpre.asn_covers(x, a) || (asns@.subrange(
                            0,
                            k + 1,
                        ).contains(x) && s <= a < e)) by {
                        if x == asn {
                            assert(r.asn_covers(x, a) <==> rmid.asn_covers(x, a) || seq_covers(
                                cidrs@,
                                a,
                            ));
                        } else {
                            assert(r.asn_covers(x, a) <==> rmid.asn_covers(x, a));
                        }
                    }
                }
                k = k + 1;
            }
            proof {
                assert(asns@.subrange(0, m as int) =~= asns@);
            }
        },
    }
}

/// Walk every elementary interval, resolve its origin set at the start
/// address by longest-prefix match, and accumulate the interval's blocks
/// into each winning ASN's container; every container comes out
/// simplified. The result attributes to each ASN exactly the union of
/// the intervals it wins.
#[verifier::loop_isolation(false)]
#[verifier::rlimit(100)]
#[verifier::spinoff_prover]
pub fn aggregate_ranges(splits: &SplitPoints, origins: &OriginMap) -> (r: OriginRanges)
    requires
        splits.wf(),
        origins.wf(),
        origins.family == splits.family,
    ensures
        r.wf(),
        r.family == splits.family,
        r.all_normal(),
        forall|asn: u32, a: int|
            #![trigger r.asn_covers(asn, a)]
            r.asn_covers(asn, a) <==> attributed(*splits, *origins, asn, a),
{
    let mut r = OriginRanges::new(splits.family);
    let n = splits.len();
    let last = if n == 0 {
        0
    } else {
        n - 1
    };
    let mut i: usize = 0;
    while i < last
        invariant
            n == splits.points@.len(),
            last == (if n == 0 { 0int } else { n - 1 }),
            i <= last,
            r.wf(),
            r.family == splits.family,
            forall|asn: u32, a: int|
                #![trigger r.asn_covers(asn, a)]
                r.asn_covers(asn, a) <==> attributed_upto(*splits, *origins, i as int, asn, a),
        decreases last - i,
    {
        let ghost ti = i as int;
        let ghost rpre = r;
        attribute_interval(&mut r, splits, origins, i);
        proof {
            assert forall|asn: u32, a: int|
                r.asn_covers(asn, a) <==> attributed_upto(*splits, *origins, ti + 1, asn, a) by {
                if r.asn_covers(asn, a) {
                    if rpre.asn_covers(asn, a) {
                        let t = choose|t: int|
                            #![trigger lpm_includes(*origins, splits.points@[t] as int, asn)]
                            0 <= t < ti && t + 1 < splits.points@.len() && splits.points@[t] <= a
                                < splits.points@[t + 1] && lpm_includes(
                                *origins,
                                splits.points@[t] as int,
                                asn,
                            );
                        assert(attributed_upto(*splits, *origins, ti + 1, asn, a));
                    } else {
                        assert(splits.points@[ti] <= a < splits.points@[ti + 1] && lpm_includes(
                            *origins,
                            splits.points@[ti] as int,
                            asn,
                        ));
                        assert(attributed_upto(*splits, *origins, ti + 1, asn, a));
                    }
                }
                if attributed_upto(*splits, *origins, ti + 1, asn, a) {
                    let t = choose|t: int|
                        #![trigger lpm_includes(*origins, splits.points@[t] as int, asn)]
                        0 <= t < ti + 1 && t + 1 < splits.points@.len() && splits.points@[t] <= a
                            < splits.points@[t + 1] && lpm_includes(
                            *origins,
                            splits.points@[t] as int,
                            asn,
                        );
                    if t < ti {
                        assert(attributed_upto(*splits, *origins, ti, asn, a));
                        assert(rpre.asn_covers(asn, a));
                    }
                    assert(r.asn_covers(asn, a));
                }
            }
        }
        i = i + 1;
    }
    proof {
        assert forall|asn: u32, a: int|
            r.asn_covers(asn, a) <==> attributed(*splits, *origins, asn, a) by {
            if r.asn_covers(asn, a) {
                let t = choose|t: int|
                    #![trigger lpm_includes(*origins, splits.points@[t] as int, asn)]
                    0 <= t < i as int && t + 1 < splits.points@.len() && splits.points@[t] <= a
                        < splits.points@[t + 1] && lpm_includes(
                        *origins,
                        splits.points@[t] as int,
                        asn,
                    );
                assert(attributed(*splits, *origins, asn, a));
            }
            if attributed(*splits, *origins, asn, a) {
                let t = choose|t: int|
                    #![trigger lpm_includes(*origins, splits.points@[t] as int, asn)]
                    0 <= t < splits.points@.len() && t + 1 < splits.points@.len() && splits.points@[
                        t
                    ] <= a < splits.points@[t + 1] && lpm_includes(
                        *origins,
                        splits.points@[t] as int,
                        asn,
                    );
                assert(t < i as int);
                assert(attributed_upto(*splits, *origins, i as int, asn, a));
            }
        }
    }
    r.simplify_all();
    r
}

/// The union of the containers of the ASNs selected by the target list:
/// kept when `keep_listed`, or the complement when not.
#[verifier::loop_isolation(false)]
fn union_matching(table: &OriginRanges, targets: &Vec<u32>, keep_listed: bool) -> (r: CidrUnion)
    requires
        table.wf(),
    ensures
        r.family == table.family,
        r.is_normal(),
        forall|a: int|
            #![trigger r.covers_addr(a)]
            r.covers_addr(a) <==> (exists|t: int|
                0 <= t < table.entries@.len() && targets@.contains(
                    (#[trigger] table.entries@[t]).asn,
                ) == keep_listed && table.entries@[t].blocks.covers_addr(a)),
{
    let mut acc = CidrUnion::new(table.family);
    let n = table.entries.len();
    let mut i: usize = 0;
    while i < n
        invariant
            i <= n,
            n == table.entries@.len(),
            acc.wf(),
            acc.family == table.family,
            forall|a: int|
                #![trigger acc.covers_addr(a)]
                acc.covers_addr(a) <==> (exists|t: int|
                    0 <= t < i && targets@.contains((#[trigger] table.entries@[t]).asn)
                        == keep_listed && table.entries@[t].blocks.covers_addr(a)),
        decreases n - i,
    {
        let ghost pre = acc;
        let ghost ti = i as int;
        let listed = vec_contains_u32(targets, table.entries[i].asn);
        if listed == keep_listed {
            acc.union_with(&table.entries[i].blocks);
        }
        proof {
            assert forall|a: int|
                acc.covers_addr(a) <==> (exists|t: int|
                    0 <= t < ti + 1 && targets@.contains((#[trigger] table.entries@[t]).asn)
                        == keep_listed && table.entries@[t].blocks.covers_addr(a)) by {
                if acc.covers_addr(a) {
                    if pre.covers_addr(a) {
                        let t = choose|t: int|
                            0 <= t < ti && targets@.contains((#[trigger] table.entries@[t]).asn)
                                == keep_listed && table.entries@[t].blocks.covers_addr(a);
                        assert(0 <= t < ti + 1 && targets@.contains(table.entries@[t].asn)
                            == keep_listed && table.entries@[t].blocks.covers_addr(a));
                    } else {
                        assert(listed == keep_listed);
                        assert(targets@.contains(table.entries@[ti].asn) == keep_listed
                            && table.entries@[ti].blocks.covers_addr(a));
                    }
                }
                if exists|t: int|
                    0 <= t < ti + 1 && targets@.contains((#[trigger] table.entries@[t]).asn)
                        == keep_listed && table.entries@[t].blocks.covers_addr(a) {
                    let t = choose|t: int|
                        0 <= t < ti + 1 && targets@.contains((#[trigger] table.entries@[t]).asn)
                            == keep_listed && table.entries@[t].blocks.covers_addr(a);
                    if t < ti {
                        assert(pre.covers_addr(a));
                    } else {
                        assert(listed == keep_listed);
                    }
                    assert(acc.covers_addr(a));
                }
            }
        }
        i = i + 1;
    }
    acc.simplify();
    acc
}

/// The union of the requested ASNs' address space, simplified: what the
/// run emits for its target list.
pub fn union_for_targets(table: &OriginRanges, targets: &Vec<u32>) -> (r: CidrUnion)
    requires
        table.wf(),
    ensures
        r.family == table.family,
        r.is_normal(),
        forall|a: int|
            #![trigger r.covers_addr(a)]
            r.covers_addr(a) <==> (exists|t: int|
                0 <= t < table.entries@.len() && targets@.contains(
                    (#[trigger] table.entries@[t]).asn,
                ) && table.entries@[t].blocks.covers_addr(a)),
{
    union_matching(table, targets, true)
}

/// The union of all non-target ASNs' address space, simplified: the
/// excluded side of the overlap-exclusion filter.
pub fn union_for_others(table: &OriginRanges, targets: &Vec<u32>) -> (r: CidrUnion)
    requires
        table.wf(),
    ensures
        r.family == table.family,
        r.is_normal(),
        forall|a: int|
            #![trigger r.covers_addr(a)]
            r.covers_addr(a) <==> (exists|t: int|
                0 <= t < table.entries@.len() && !targets@.contains(
                    (#[trigger] table.entries@[t]).asn,
                ) && table.entries@[t].blocks.covers_addr(a)),
{
    union_matching(table, targets, false)
}

/// The enrichment of an origin table by shared upstreams: each (prefix,
/// origin) group contributes the longest common suffix of its observed
/// paths to the prefix's origin set.
pub open spec fn enriched(pre: OriginMap, tbl: PathTable, post: OriginMap) -> bool {
    &&& (forall|x: Cidr|
        #![trigger post.has_block(x)]
        post.has_block(x) <==> pre.has_block(x) || (exists|o: u32| tbl.has_group(x, o)))
    &&& (forall|x: Cidr, v: u32|
        #![trigger post.asns_of(x).contains(v)]
        post.has_block(x) ==> (post.asns_of(x).contains(v) <==> (pre.has_block(x) && pre.asns_of(
            x,
        ).contains(v)) || (exists|o: u32, sfx: Seq<u32>|
            tbl.has_group(x, o) && #[trigger] is_shared_suffix(tbl.paths_of(x, o), sfx)
                && sfx.contains(v))))
}

/// Union into each announced prefix's origin set the transit ASNs that
/// every observed path to it agrees on near the origin.
#[verifier::loop_isolation(false)]
pub fn enrich_origins(origins: &mut OriginMap, table: &PathTable)
    requires
        old(origins).wf(),
        table.wf(),
        table.family == old(origins).family,
    ensures
        final(origins).wf(),
        final(origins).family == old(origins).family,
        enriched(*old(origins), *table, *final(origins)),
{
    let n = table.groups.len();
    let mut i: usize = 0;
    while i < n
        invariant
            i <= n,
            n == table.groups@.len(),
            origins.wf(),
            origins.family == old(origins).family,
            forall|x: Cidr|
                #![trigger origins.has_block(x)]
                origins.has_block(x) <==> old(origins).has_block(x) || (exists|t: int|
                    0 <= t < i && (#[trigger] table.groups@[t]).block == x),
            forall|x: Cidr, v: u32|
                #![trigger origins.asns_of(x).contains(v)]
                origins.has_block(x) ==> (origins.asns_of(x).contains(v) <==> (old(
                    origins,
                ).has_block(x) && old(origins).asns_of(x).contains(v)) || (exists|t: int|
                    0 <= t < i && (#[trigger] table.groups@[t]).block == x && (exists|sfx: Seq<u32>|
                        is_shared_suffix(table.groups@[t].paths.deep_view(), sfx) && sfx.contains(
                            v,
                        )))),
        decreases n - i,
    {
        let ghost pre = *origins;
        let ghost ti = i as int;
        let b = table.groups[i].block;
        let sfx = longest_common_suffix(&table.groups[i].paths);
        origins.insert(b, &sfx);
        proof {
            assert(is_shared_suffix(table.groups@[ti].paths.deep_view(), sfx@)) by {
                assert(table.groups@[ti].paths.deep_view() == table.groups@[
                    ti
                ].paths.deep_view());
            }
            assert forall|x: Cidr|
                origins.has_block(x) <==> old(origins).has_block(x) || (exists|t: int|
                    0 <= t < ti + 1 && (#[trigger] table.groups@[t]).block == x) by {
                if origins.has_block(x) && !old(origins).has_block(x) {
                    if pre.has_block(x) {
                        let t = choose|t: int|
                            0 <= t < ti && (#[trigger] table.groups@[t]).block == x;
                        assert(0 <= t < ti + 1 && table.groups@[t].block == x);
                    } else {
                        assert(x == b);
                        assert(table.groups@[ti].block == x);
                    }
                }
                if exists|t: int| 0 <= t < ti + 1 && (#[trigger] table.groups@[t]).block == x {
                    let t = choose|t: int|
                        0 <= t < ti + 1 && (#[trigger] table.groups@[t]).block == x;
                    if t < ti {
                        assert(pre.has_block(x));
                    } else {
                        assert(x == b);
                    }
                    assert(origins.has_block(x));
                }
            }
            assert forall|x: Cidr, v: u32|
                origins.has_block(x) implies (origins.asns_of(x).contains(v) <==> (old(
                    origins,
                ).has_block(x) && old(origins).asns_of(x).contains(v)) || (exists|t: int|
                    0 <= t < ti + 1 && (#[trigger] table.groups@[t]).block == x && (exists|
                        sfx2: Seq<u32>,
                    |
                        is_shared_suffix(table.groups@[t].paths.deep_view(), sfx2)
                            && sfx2.contains(v)))) by {
                if x == b {
                    if origins.asns_of(x).contains(v) {
                        if pre.has_block(b) && pre.asns_of(b).contains(v) {
                            if !(old(origins).has_block(x) && old(origins).asns_of(x).contains(
                                v,
                            )) {
                                let t = choose|t: int|
                                    0 <= t < ti && (#[trigger] table.groups@[t]).block == x && (
                                    exists|sfx2: Seq<u32>|
                                        is_shared_suffix(
                                            table.groups@[t].paths.deep_view(),
                                            sfx2,
                                        ) && sfx2.contains(v));
                                assert(0 <= t < ti + 1 && table.groups@[t].block == x);
                            }
                        } else {
                            assert(sfx@.contains(v));
                            assert(table.groups@[ti].block == x);
                            assert(is_shared_suffix(table.groups@[ti].paths.deep_view(), sfx@)
                                && sfx@.contains(v));
                        }
                    }
                    if exists|t: int|
                        0 <= t < ti + 1 && (#[trigger] table.groups@[t]).block == x && (exists|
                            sfx2: Seq<u32>,
                        |
                            is_shared_suffix(table.groups@[t].paths.deep_view(), sfx2)
                                && sfx2.contains(v)) {
                        let t = choose|t: int|
                            0 <= t < ti + 1 && (#[trigger] table.groups@[t]).block == x && (exists|
                                sfx2: Seq<u32>,
                            |
                                is_shared_suffix(table.groups@[t].paths.deep_view(), sfx2)
                                    && sfx2.contains(v));
                        if t < ti {
                            assert(pre.has_block(x));
                            assert(pre.asns_of(x).contains(v));
                            assert(origins.asns_of(x).contains(v));
                        } else {
                            let sfx2 = choose|sfx2: Seq<u32>|
                                is_shared_suffix(table.groups@[t].paths.deep_view(), sfx2)
                                    && sfx2.contains(v);
                            lemma_shared_suffix_unique(
                                table.groups@[ti].paths.deep_view(),
                                sfx2,
                                sfx@,
                            );
                            assert(sfx@.contains(v));
                            assert(origins.asns_of(x).contains(v));
                        }
                    }
                    if old(origins).has_block(x) && old(origins).asns_of(x).contains(v) {
                        assert(pre.has_block(x) && pre.asns_of(x).contains(v));
                        assert(origins.asns_of(x).contains(v));
                    }
                } else {
                    assert(pre.has_block(x));
                    assert(origins.asns_of(x).contains(v) <==> pre.asns_of(x).contains(v));
                    if exists|t: int|
                        0 <= t < ti + 1 && (#[trigger] table.groups@[t]).block == x && (exists|
                            sfx2: Seq<u32>,
                        |
                            is_shared_suffix(table.groups@[t].paths.deep_view(), sfx2)
                                && sfx2.contains(v)) {
                        let t = choose|t: int|
                            0 <= t < ti + 1 && (#[trigger] table.groups@[t]).block == x && (exists|
                                sfx2: Seq<u32>,
                            |
                                is_shared_suffix(table.groups@[t].paths.deep_view(), sfx2)
                                    && sfx2.contains(v));
                        assert(t < ti);
                    }
                }
            }
        }
        i = i + 1;
    }
    proof {
        assert forall|x: Cidr|
            origins.has_block(x) <==> old(origins).has_block(x) || (exists|o: u32|
                table.has_group(x, o)) by {
            if origins.has_block(x) && !old(origins).has_block(x) {
                let t = choose|t: int| 0 <= t < n && (#[trigger] table.groups@[t]).block == x;
                assert(table.has_group(x, table.groups@[t].origin));
            }
            if exists|o: u32| table.has_group(x, o) {
                let o = choose|o: u32| table.has_group(x, o);
                let t = choose|t: int|
                    0 <= t < table.groups@.len() && (#[trigger] table.groups@[t]).block == x
                        && table.groups@[t].origin == o;
                assert(0 <= t < n && table.groups@[t].block == x);
                assert(origins.has_block(x));
            }
        }
        assert forall|x: Cidr, v: u32|
            origins.has_block(x) implies (origins.asns_of(x).contains(v) <==> (old(
                origins,
            ).has_block(x) && old(origins).asns_of(x).contains(v)) || (exists|o: u32, sfx: Seq<u32>|
                table.has_group(x, o) && #[trigger] is_shared_suffix(table.paths_of(x, o), sfx)
                    && sfx.contains(v))) by {
            if origins.asns_of(x).contains(v) && !(old(origins).has_block(x) && old(
                origins,
            ).asns_of(x).contains(v)) {
                let t = choose|t: int|
                    0 <= t < n && (#[trigger] table.groups@[t]).block == x && (exists|
                        sfx2: Seq<u32>,
                    |
                        is_shared_suffix(table.groups@[t].paths.deep_view(), sfx2)
                            && sfx2.contains(v));
                let o = table.groups@[t].origin;
                assert(table.has_group(x, o));
                let w = table.idx_of(x, o);
                assert(0 <= w < table.groups@.len() && table.groups@[w].block == x
                    && table.groups@[w].origin == o);
                if w != t {
                    assert(false);
                }
                assert(table.paths_of(x, o) == table.groups@[t].paths.deep_view());
                let sfx2 = choose|sfx2: Seq<u32>|
                    is_shared_suffix(table.groups@[t].paths.deep_view(), sfx2) && sfx2.contains(
                        v,
                    );
                assert(table.has_group(x, o) && is_shared_suffix(table.paths_of(x, o), sfx2)
                    && sfx2.contains(v));
            }
            if exists|o: u32, sfx: Seq<u32>|
                table.has_group(x, o) && #[trigger] is_shared_suffix(table.paths_of(x, o), sfx)
                    && sfx.contains(v) {
                let (o, sfx) = choose|o: u32, sfx: Seq<u32>|
                    table.has_group(x, o) && #[trigger] is_shared_suffix(
                        table.paths_of(x, o),
                        sfx,
                    ) && sfx.contains(v);
                let w = table.idx_of(x, o);
                assert(0 <= w < table.groups@.len() && table.groups@[w].block == x
                    && table.groups@[w].origin == o);
                assert(table.paths_of(x, o) == table.groups@[w].paths.deep_view());
                assert(0 <= w < n && table.groups@[w].block == x && (exists|sfx2: Seq<u32>|
                    is_shared_suffix(table.groups@[w].paths.deep_view(), sfx2) && sfx2.contains(
                        v,
                    )));
                assert(origins.asns_of(x).contains(v));
            }
        }
    }
}

/// The shared suffix of a fixed path collection is unique: its clauses
/// leave no room for two different values.
pub proof fn lemma_shared_suffix_unique(pv: Seq<Seq<u32>>, s1: Seq<u32>, s2: Seq<u32>)
    requires
        is_shared_suffix(pv, s1),
        is_shared_suffix(pv, s2),
    ensures
        s1 =~= s2,
{
    if pv.len() == 0 {
        assert(s1.len() == 0 && s2.len() == 0);
    } else {
        if s1.len() < s2.len() {
            assert(all_longer_than(pv, s1.len() as int)) by {
                assert forall|k: int| 0 <= k < pv.len() implies (#[trigger] pv[k]).len()
                    > s1.len() by {
                    assert(pv[k].len() > s2.len() - 1);
                }
            }
            assert(tails_agree(pv, s1.len() as int));
            assert(false);
        }
        if s2.len() < s1.len() {
            assert(all_longer_than(pv, s2.len() as int)) by {
                assert forall|k: int| 0 <= k < pv.len() implies (#[trigger] pv[k]).len()
                    > s2.len() by {
                    assert(pv[k].len() > s1.len() - 1);
                }
            }
            assert(tails_agree(pv, s2.len() as int));
            assert(false);
        }
    }
}

/// Run the whole engine on the merged sources: merge, enrich both
/// families with shared upstreams, aggregate per elementary interval, and
/// simplify every per-ASN container. The two tables attribute to every
/// ASN exactly the intervals it wins in the enriched origin tables of
/// the merged input.
pub fn build_asn_ranges(sources: &Vec<SourceData>) -> (r: (OriginRanges, OriginRanges))
    requires
        forall|k: int| 0 <= k < sources@.len() ==> (#[trigger] sources@[k]).wf(),
    ensures
        r.0.wf() && r.0.family == Family::V4 && r.0.all_normal(),
        r.1.wf() && r.1.family == Family::V6 && r.1.all_normal(),
        exists|m: SourceData, e4: OriginMap, e6: OriginMap|
            {
                &&& #[trigger] merged_all(sources@, m)
                &&& #[trigger] enriched(m.origins_v4, m.paths_v4, e4)
                &&& #[trigger] enriched(m.origins_v6, m.paths_v6, e6)
                &&& m.wf()
                &&& (forall|asn: u32, a: int|
                    #![trigger r.0.asn_covers(asn, a)]
                    r.0.asn_covers(asn, a) <==> attributed(m.splits_v4, e4, asn, a))
                &&& (forall|asn: u32, a: int|
                    #![trigger r.1.asn_covers(asn, a)]
                    r.1.asn_covers(asn, a) <==> attributed(m.splits_v6, e6, asn, a))
            },
{
    let mut merged = crate::ingest::merge_sources(sources);
    let ghost m0 = merged;
    enrich_origins(&mut merged.origins_v4, &merged.paths_v4);
    enrich_origins(&mut merged.origins_v6, &merged.paths_v6);
    let t4 = aggregate_ranges(&merged.splits_v4, &merged.origins_v4);
    let t6 = aggregate_ranges(&merged.splits_v6, &merged.origins_v6);
    proof {
        assert(merged_all(sources@, m0) && m0.wf() && enriched(
            m0.origins_v4,
            m0.paths_v4,
            merged.origins_v4,
        ) && enriched(m0.origins_v6, m0.paths_v6, merged.origins_v6) && (forall|asn: u32, a: int|
            #![trigger t4.asn_covers(asn, a)]
            t4.asn_covers(asn, a) <==> attributed(m0.splits_v4, merged.origins_v4, asn, a)) && (
        forall|asn: u32, a: int|
            #![trigger t6.asn_covers(asn, a)]
            t6.asn_covers(asn, a) <==> attributed(m0.splits_v6, merged.origins_v6, asn, a)));
    }
    (t4, t6)
}

} // verus!
