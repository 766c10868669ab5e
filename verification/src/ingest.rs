//! Ingest: turning announcement records into per-source accumulators, and
//! merging the accumulators of several sources into one.
//!
//! A record is consumed only when it is an announcement with a known
//! origin set; records carrying a private origin ASN can be dropped on
//! request. The merge is a commutative union, so the result does not
//! depend on the order in which sources were parsed.

use vstd::prelude::*;
use vstd::arithmetic::power2::pow2;
use crate::asn::{is_private_asn, spec_is_private_asn};
use crate::block::{Cidr, Family, RangeError};
use crate::origins::{OriginMap, copy_asns};
use crate::splits::SplitPoints;

verus! {

/// The AS paths observed for one (prefix, origin) pair.
pub struct PathGroup {
    pub block: Cidr,
    pub origin: u32,
    pub paths: Vec<Vec<u32>>,
}

/// All AS paths of one family, grouped by (prefix, origin).
pub struct PathTable {
    pub family: Family,
    pub groups: Vec<PathGroup>,
}

impl PathTable {
    pub open spec fn wf(self) -> bool {
        &&& forall|i: int|
            0 <= i < self.groups@.len() ==> (#[trigger] self.groups@[i]).block.wf()
                && self.groups@[i].block.family == self.family
        &&& forall|i: int, j: int|
            0 <= i < j < self.groups@.len() ==> !((#[trigger] self.groups@[i]).block == (
            #[trigger] self.groups@[j]).block && self.groups@[i].origin == self.groups@[j].origin)
        &&& forall|i: int| 0 <= i < self.groups@.len() ==> (#[trigger] self.groups@[i]).paths@.len() >= 1
    }

    pub open spec fn has_group(self, b: Cidr, o: u32) -> bool {
        exists|i: int|
            0 <= i < self.groups@.len() && (#[trigger] self.groups@[i]).block == b
                && self.groups@[i].origin == o
    }

    pub open spec fn idx_of(self, b: Cidr, o: u32) -> int {
        choose|i: int|
            0 <= i < self.groups@.len() && (#[trigger] self.groups@[i]).block == b
                && self.groups@[i].origin == o
    }

    /// The path list stored for a pair.
    pub open spec fn paths_of(self, b: Cidr, o: u32) -> Seq<Seq<u32>> {
        self.groups@[self.idx_of(b, o)].paths.deep_view()
    }

    pub fn new(family: Family) -> (r: PathTable)
        ensures
            r.wf(),
            r.family == family,
            r.groups@.len() == 0,
            forall|b: Cidr, o: u32| !r.has_group(b, o),
    {
        PathTable { family, groups: Vec::new() }
    }

    /// Record one more observed path for a (prefix, origin) pair.
    #[verifier::loop_isolation(false)]
    pub fn push_path(&mut self, b: Cidr, o: u32, path: Vec<u32>)
        requires
            old(self).wf(),
            b.wf(),
            b.family == old(self).family,
        ensures
            final(self).wf(),
            final(self).family == old(self).family,
            forall|x: Cidr, y: u32|
                #![trigger final(self).has_group(x, y)]
                final(self).has_group(x, y) <==> old(self).has_group(x, y) || (x == b && y == o),
            old(self).has_group(b, o) ==> final(self).paths_of(b, o) == old(self).paths_of(
                b,
                o,
            ).push(path.deep_view()),
            !old(self).has_group(b, o) ==> final(self).paths_of(b, o) == seq![path.deep_view()],
            forall|x: Cidr, y: u32|
                #![trigger final(self).paths_of(x, y)]
                !(x == b && y == o) && old(self).has_group(x, y) ==> final(self).paths_of(x, y)
                    == old(self).paths_of(x, y),
    {
        let ghost orig = self.groups@;
        let n = self.groups.len();
        let mut i: usize = 0;
        while i < n
            invariant
                i <= n,
                self == old(self),
                n == self.groups@.len(),
                forall|t: int|
                    0 <= t < i ==> !((#[trigger] orig[t]).block == b && orig[t].origin == o),
            decreases n - i,
        {
            if self.groups[i].block == b && self.groups[i].origin == o {
                let mut g = self.groups.remove(i);
                g.paths.push(path);
                self.groups.insert(i, g);
                proof {
                    let s = self.groups@;
                    assert(s.len() == orig.len());
                    assert(forall|t: int|
                        0 <= t < s.len() && t != i as int ==> #[trigger] s[t] == orig[t]);
                    assert(s[i as int].block == b && s[i as int].origin == o);
                    assert(s[i as int].paths.deep_view() =~= orig[i as int].paths.deep_view().push(
                        path.deep_view(),
                    ));
                    assert(s[i as int].paths@.len() >= 1);
                    lemma_group_replace(orig, s, i as int, b, o, *old(self), *self);
                }
                return ;
            }
            i = i + 1;
        }
        let mut fresh: Vec<Vec<u32>> = Vec::new();
        fresh.push(path);
        self.groups.push(PathGroup { block: b, origin: o, paths: fresh });
        proof {
            let s = self.groups@;
            assert(forall|t: int| 0 <= t < orig.len() ==> #[trigger] s[t] == orig[t]);
            assert(s[s.len() - 1].block == b && s[s.len() - 1].origin == o);
            assert(s[s.len() - 1].paths.deep_view() =~= seq![path.deep_view()]);
            assert(s[s.len() - 1].paths@.len() >= 1);
            lemma_group_append(orig, s, b, o, *old(self), *self);
        }
    }
}

/// Replacing one group's path list leaves membership and the other
/// groups' lists unchanged.
proof fn lemma_group_replace(
    orig: Seq<PathGroup>,
    s: Seq<PathGroup>,
    at: int,
    b: Cidr,
    o: u32,
    pre: PathTable,
    post: PathTable,
)
    requires
        pre.wf(),
        pre.groups@ == orig,
        post.groups@ == s,
        post.family == pre.family,
        s.len() == orig.len(),
        0 <= at < orig.len(),
        orig[at].block == b && orig[at].origin == o,
        s[at].block == b && s[at].origin == o,
        s[at].paths@.len() >= 1,
        forall|t: int| 0 <= t < s.len() && t != at ==> #[trigger] s[t] == orig[t],
    ensures
        post.wf(),
        forall|x: Cidr, y: u32|
            #![trigger post.has_group(x, y)]
            post.has_group(x, y) <==> pre.has_group(x, y) || (x == b && y == o),
        post.idx_of(b, o) == at,
        pre.idx_of(b, o) == at,
        forall|x: Cidr, y: u32|
            #![trigger post.paths_of(x, y)]
            !(x == b && y == o) && pre.has_group(x, y) ==> post.paths_of(x, y) == pre.paths_of(
                x,
                y,
            ),
{
    assert forall|x: Cidr, y: u32|
        post.has_group(x, y) <==> pre.has_group(x, y) || (x == b && y == o) by {
        if post.has_group(x, y) {
            let i = choose|i: int|
                0 <= i < s.len() && (#[trigger] s[i]).block == x && s[i].origin == y;
            if i != at {
                assert(orig[i].block == x && orig[i].origin == y);
                assert(pre.has_group(x, y));
            }
        }
        if pre.has_group(x, y) {
            let i = choose|i: int|
                0 <= i < orig.len() && (#[trigger] orig[i]).block == x && orig[i].origin == y;
            if i != at {
                assert(s[i].block == x && s[i].origin == y);
            }
            assert(post.has_group(x, y));
        }
        if x == b && y == o {
            assert(s[at].block == x && s[at].origin == y);
            assert(post.has_group(x, y));
        }
    }
    assert(post.wf()) by {
        assert forall|i: int, j: int|
            0 <= i < j < s.len() implies !((#[trigger] s[i]).block == (#[trigger] s[j]).block && s[
            i].origin == s[j].origin) by {
            assert(orig[i].block == s[i].block && orig[i].origin == s[i].origin);
            assert(orig[j].block == s[j].block && orig[j].origin == s[j].origin);
        }
        assert forall|i: int|
            0 <= i < s.len() implies (#[trigger] s[i]).block.wf() && s[i].block.family
            == post.family by {
            assert(orig[i].block == s[i].block);
        }
        assert forall|i: int|
            0 <= i < s.len() implies (#[trigger] s[i]).paths@.len() >= 1 by {
            if i != at {
                assert(s[i] == orig[i]);
            }
        }
    }
    let wi = post.idx_of(b, o);
    assert(post.has_group(b, o));
    assert(0 <= wi < s.len() && s[wi].block == b && s[wi].origin == o);
    if wi != at {
        assert(orig[wi].block == b && orig[wi].origin == o);
        assert(false);
    }
    let wp = pre.idx_of(b, o);
    assert(pre.has_group(b, o)) by {
        assert(orig[at].block == b && orig[at].origin == o);
    }
    assert(0 <= wp < orig.len() && orig[wp].block == b && orig[wp].origin == o);
    if wp != at {
        assert(false);
    }
    assert forall|x: Cidr, y: u32|
        !(x == b && y == o) && pre.has_group(x, y) implies post.paths_of(x, y) == pre.paths_of(
        x,
        y,
    ) by {
        let i = pre.idx_of(x, y);
        assert(0 <= i < orig.len() && orig[i].block == x && orig[i].origin == y);
        assert(i != at);
        assert(s[i].block == x && s[i].origin == y);
        let i2 = post.idx_of(x, y);
        assert(post.has_group(x, y));
        assert(0 <= i2 < s.len() && s[i2].block == x && s[i2].origin == y);
        if i2 != i {
            if i2 == at {
                assert(false);
            } else {
                assert(orig[i2].block == x && orig[i2].origin == y);
                assert(false);
            }
        }
        assert(s[i] == orig[i]);
    }
}

/// Appending a fresh group leaves the existing groups unchanged.
proof fn lemma_group_append(
    orig: Seq<PathGroup>,
    s: Seq<PathGroup>,
    b: Cidr,
    o: u32,
    pre: PathTable,
    post: PathTable,
)
    requires
        pre.wf(),
        pre.groups@ == orig,
        post.groups@ == s,
        post.family == pre.family,
        s.len() == orig.len() + 1,
        forall|t: int| 0 <= t < orig.len() ==> #[trigger] s[t] == orig[t],
        s[s.len() - 1].block == b && s[s.len() - 1].origin == o,
        s[s.len() - 1].block.wf(),
        s[s.len() - 1].block.family == pre.family,
        s[s.len() - 1].paths@.len() >= 1,
        !pre.has_group(b, o),
    ensures
        post.wf(),
        forall|x: Cidr, y: u32|
            #![trigger post.has_group(x, y)]
            post.has_group(x, y) <==> pre.has_group(x, y) || (x == b && y == o),
        post.idx_of(b, o) == s.len() - 1,
        forall|x: Cidr, y: u32|
            #![trigger post.paths_of(x, y)]
            !(x == b && y == o) && pre.has_group(x, y) ==> post.paths_of(x, y) == pre.paths_of(
                x,
                y,
            ),
{
    let last = s.len() - 1;
    assert forall|x: Cidr, y: u32|
        post.has_group(x, y) <==> pre.has_group(x, y) || (x == b && y == o) by {
        if post.has_group(x, y) {
            let i = choose|i: int|
                0 <= i < s.len() && (#[trigger] s[i]).block == x && s[i].origin == y;
            if i < last {
                assert(orig[i].block == x && orig[i].origin == y);
                assert(pre.has_group(x, y));
            }
        }
        if pre.has_group(x, y) {
            let i = choose|i: int|
                0 <= i < orig.len() && (#[trigger] orig[i]).block == x && orig[i].origin == y;
            assert(s[i].block == x && s[i].origin == y);
            assert(post.has_group(x, y));
        }
        if x == b && y == o {
            assert(s[last].block == x && s[last].origin == y);
            assert(post.has_group(x, y));
        }
    }
    assert(post.wf()) by {
        assert forall|i: int, j: int|
            0 <= i < j < s.len() implies !((#[trigger] s[i]).block == (#[trigger] s[j]).block && s[
            i].origin == s[j].origin) by {
            if j < last {
                assert(orig[i] == s[i] && orig[j] == s[j]);
            } else {
                assert(orig[i] == s[i]);
                if s[i].block == b && s[i].origin == o {
                    assert(pre.has_group(b, o));
                    assert(false);
                }
            }
        }
        assert forall|i: int|
            0 <= i < s.len() implies (#[trigger] s[i]).block.wf() && s[i].block.family
            == post.family by {
            if i < last {
                assert(orig[i] == s[i]);
            }
        }
        assert forall|i: int|
            0 <= i < s.len() implies (#[trigger] s[i]).paths@.len() >= 1 by {
            if i < last {
                assert(orig[i] == s[i]);
            }
        }
    }
    let wi = post.idx_of(b, o);
    assert(post.has_group(b, o));
    assert(0 <= wi < s.len() && s[wi].block == b && s[wi].origin == o);
    if wi != last {
        assert(orig[wi].block == b && orig[wi].origin == o);
        assert(false);
    }
    assert forall|x: Cidr, y: u32|
        !(x == b && y == o) && pre.has_group(x, y) implies post.paths_of(x, y) == pre.paths_of(
        x,
        y,
    ) by {
        let i = pre.idx_of(x, y);
        assert(0 <= i < orig.len() && orig[i].block == x && orig[i].origin == y);
        assert(s[i].block == x && s[i].origin == y);
        let i2 = post.idx_of(x, y);
        assert(post.has_group(x, y));
        assert(0 <= i2 < s.len() && s[i2].block == x && s[i2].origin == y);
        if i2 != i {
            if i2 == last {
                assert(false);
            } else {
                assert(orig[i2].block == x && orig[i2].origin == y);
                assert(false);
            }
        }
        assert(s[i] == orig[i]);
    }
}

/// One routing-table entry as handed in by the reader: the element type,
/// the prefix as raw family-tagged numbers, the optional origin-ASN set
/// and the optional AS path (nearest hop last).
pub struct Announcement {
    pub is_announce: bool,
    pub family: Family,
    pub addr: u128,
    pub len: u8,
    pub origins: Option<Vec<u32>>,
    pub path: Option<Vec<u32>>,
}

/// A record is dropped without effect when it is no announcement, has no
/// origin set, or carries a private origin ASN while those are ignored.
pub open spec fn rec_dropped(rec: Announcement, ignore_private: bool) -> bool {
    ||| !rec.is_announce
    ||| rec.origins is None
    ||| (ignore_private && exists|k: int|
        0 <= k < rec.origins->0@.len() && spec_is_private_asn(#[trigger] rec.origins->0@[k]))
}

/// A prefix is malformed when its length exceeds the family width or its
/// address lies outside the space.
pub open spec fn rec_invalid(rec: Announcement) -> bool {
    rec.len as nat > rec.family.width() || rec.addr >= pow2(rec.family.width())
}

/// The canonical block of a valid record.
pub open spec fn rec_block(rec: Announcement) -> Cidr {
    Cidr {
        family: rec.family,
        addr: (rec.addr - (rec.addr as int % (pow2((rec.family.width() - rec.len) as nat)
            as int))) as u128,
        len: rec.len,
    }
}

/// An AS path cut to its (at most) four hops nearest the origin.
pub open spec fn trunc4(p: Seq<u32>) -> Seq<u32> {
    if p.len() <= 4 {
        p
    } else {
        p.subrange(p.len() - 4, p.len() as int)
    }
}

/// The effect of consuming one valid announcement on one family's three
/// accumulators: the origin set of its block is extended, its boundary
/// addresses become split points, and each origin gains one observed
/// path (when the record carries one).
pub open spec fn ingested(
    rec: Announcement,
    b: Cidr,
    origs_pre: OriginMap,
    origs_post: OriginMap,
    paths_pre: PathTable,
    paths_post: PathTable,
    splits_pre: SplitPoints,
    splits_post: SplitPoints,
) -> bool {
    &&& (forall|x: Cidr|
        #![trigger origs_post.has_block(x)]
        origs_post.has_block(x) <==> origs_pre.has_block(x) || x == b)
    &&& (forall|v: u32|
        #![trigger origs_post.asns_of(b).contains(v)]
        origs_post.asns_of(b).contains(v) <==> (origs_pre.has_block(b) && origs_pre.asns_of(
            b,
        ).contains(v)) || rec.origins->0@.contains(v))
    &&& (forall|x: Cidr, v: u32|
        #![trigger origs_post.asns_of(x).contains(v)]
        x != b && origs_pre.has_block(x) ==> (origs_post.asns_of(x).contains(v)
            <==> origs_pre.asns_of(x).contains(v)))
    &&& (forall|x: int|
        #![trigger splits_post.has_point(x)]
        splits_post.has_point(x) <==> splits_pre.has_point(x) || x == b.first() || (b.end() < pow2(
            b.width(),
        ) && x == b.end()))
    &&& match rec.path {
        Some(p) => {
            &&& (forall|x: Cidr, y: u32|
                #![trigger paths_post.has_group(x, y)]
                paths_post.has_group(x, y) <==> paths_pre.has_group(x, y) || (x == b
                    && rec.origins->0@.contains(y)))
            &&& (forall|y: u32|
                rec.origins->0@.contains(y) ==> #[trigger] paths_post.paths_of(b, y) == (
                if paths_pre.has_group(b, y) {
                    paths_pre.paths_of(b, y)
                } else {
                    Seq::empty()
                }).push(trunc4(p@)))
            &&& (forall|x: Cidr, y: u32|
                #![trigger paths_post.paths_of(x, y)]
                !(x == b && rec.origins->0@.contains(y)) && paths_pre.has_group(x, y)
                    ==> paths_post.paths_of(x, y) == paths_pre.paths_of(x, y))
        },
        None => paths_post == paths_pre,
    }
}

/// An AS path cut to its four hops nearest the origin, executable form.
pub fn truncate_path(p: &Vec<u32>) -> (r: Vec<u32>)
    ensures
        r@ == trunc4(p@),
{
    let start: usize = if p.len() <= 4 {
        0
    } else {
        p.len() - 4
    };
    let mut r: Vec<u32> = Vec::new();
    let mut t: usize = start;
    while t < p.len()
        invariant
            start <= t <= p@.len(),
            r@ == p@.subrange(start as int, t as int),
        decreases p@.len() - t,
    {
        proof {
            assert(p@.subrange(start as int, t + 1) =~= p@.subrange(start as int, t as int).push(
                p@[t as int],
            ));
        }
        r.push(p[t]);
        t = t + 1;
    }
    proof {
        if p@.len() <= 4 {
            assert(r@ =~= p@);
        } else {
            assert(r@ =~= p@.subrange(p@.len() - 4, p@.len() as int));
        }
    }
    r
}

/// The per-source accumulators: origin tables, path tables and split
/// points for both families.
pub struct SourceData {
    pub origins_v4: OriginMap,
    pub origins_v6: OriginMap,
    pub paths_v4: PathTable,
    pub paths_v6: PathTable,
    pub splits_v4: SplitPoints,
    pub splits_v6: SplitPoints,
}

impl SourceData {
    pub open spec fn wf(self) -> bool {
        &&& self.origins_v4.wf() && self.origins_v4.family == Family::V4
        &&& self.origins_v6.wf() && self.origins_v6.family == Family::V6
        &&& self.paths_v4.wf() && self.paths_v4.family == Family::V4
        &&& self.paths_v6.wf() && self.paths_v6.family == Family::V6
        &&& self.splits_v4.wf() && self.splits_v4.family == Family::V4
        &&& self.splits_v6.wf() && self.splits_v6.family == Family::V6
    }

    /// Empty accumulators.
    pub fn new() -> (r: SourceData)
        ensures
            r.wf(),
            forall|b: Cidr| !r.origins_v4.has_block(b) && !r.origins_v6.has_block(b),
            forall|b: Cidr, o: u32| !r.paths_v4.has_group(b, o) && !r.paths_v6.has_group(b, o),
            forall|p: int| !r.splits_v4.has_point(p) && !r.splits_v6.has_point(p),
    {
        SourceData {
            origins_v4: OriginMap::new(Family::V4),
            origins_v6: OriginMap::new(Family::V6),
            paths_v4: PathTable::new(Family::V4),
            paths_v6: PathTable::new(Family::V6),
            splits_v4: SplitPoints::new(Family::V4),
            splits_v6: SplitPoints::new(Family::V6),
        }
    }

    /// Consume one record. Non-announcements, records without origins
    /// and, on request, records with a private origin are dropped
    /// silently; a malformed prefix is the fatal `InvalidBlock`; anything
    /// else updates exactly the record's own family as `ingested` says.
    #[verifier::loop_isolation(false)]
    pub fn ingest_record(&mut self, rec: &Announcement, ignore_private: bool) -> (r: Result<
        (),
        RangeError,
    >)
        requires
            old(self).wf(),
        ensures
            final(self).wf(),
            rec_dropped(*rec, ignore_private) ==> r is Ok && *final(self) == *old(self),
            !rec_dropped(*rec, ignore_private) && rec_invalid(*rec) ==> r == Result::<(),
                RangeError,
            >::Err(RangeError::InvalidBlock) && *final(self) == *old(self),
            !rec_dropped(*rec, ignore_private) && !rec_invalid(*rec) ==> {
                &&& r is Ok
                &&& (rec.family == Family::V4 ==> ingested(
                    *rec,
                    rec_block(*rec),
                    old(self).origins_v4,
                    final(self).origins_v4,
                    old(self).paths_v4,
                    final(self).paths_v4,
                    old(self).splits_v4,
                    final(self).splits_v4,
                ) && final(self).origins_v6 == old(self).origins_v6 && final(self).paths_v6 == old(
                    self,
                ).paths_v6 && final(self).splits_v6 == old(self).splits_v6)
                &&& (rec.family == Family::V6 ==> ingested(
                    *rec,
                    rec_block(*rec),
                    old(self).origins_v6,
                    final(self).origins_v6,
                    old(self).paths_v6,
                    final(self).paths_v6,
                    old(self).splits_v6,
                    final(self).splits_v6,
                ) && final(self).origins_v4 == old(self).origins_v4 && final(self).paths_v4 == old(
                    self,
                ).paths_v4 && final(self).splits_v4 == old(self).splits_v4)
            },
    {
        if !rec.is_announce {
            return Ok(());
        }
        let origs = match &rec.origins {
            None => {
                return Ok(());
            },
            Some(o) => o,
        };
        if ignore_private {
            let mut k: usize = 0;
            while k < origs.len()
                invariant
                    k <= origs@.len(),
                    origs@ == rec.origins->0@,
                    forall|t: int| 0 <= t < k ==> !spec_is_private_asn(#[trigger] origs@[t]),
                decreases origs@.len() - k,
            {
                if is_private_asn(origs[k]) {
                    return Ok(());
                }
                k = k + 1;
            }
        }
        proof {
            assert(!rec_dropped(*rec, ignore_private));
        }
        let blk = match Cidr::new(rec.family, rec.addr, rec.len) {
            Err(e) => {
                proof {
                    assert(rec_invalid(*rec));
                }
                return Err(e);
            },
            Ok(b) => b,
        };
        proof {
            assert(!rec_invalid(*rec));
            assert(blk == rec_block(*rec));
        }
        match rec.family {
            Family::V4 => {
                self.origins_v4.insert(blk, origs);
                self.splits_v4.insert_prefix(blk);
                if let Some(p) = &rec.path {
                    let tp = truncate_path(p);
                    let d = crate::origins::dedup_asns(origs);
                    push_paths(&mut self.paths_v4, blk, &d, &tp, Ghost(rec.origins->0@));
                }
            },
            Family::V6 => {
                self.origins_v6.insert(blk, origs);
                self.splits_v6.insert_prefix(blk);
                if let Some(p) = &rec.path {
                    let tp = truncate_path(p);
                    let d = crate::origins::dedup_asns(origs);
                    push_paths(&mut self.paths_v6, blk, &d, &tp, Ghost(rec.origins->0@));
                }
            },
        }
        Ok(())
    }

    /// Merge another source's accumulators into this one: origin sets
    /// union by block, path lists union by (prefix, origin), split points
    /// union per family.
    pub fn merge_from(&mut self, other: &SourceData)
        requires
            old(self).wf(),
            other.wf(),
        ensures
            final(self).wf(),
            merged_pair(*old(self), *other, *final(self)),
    {
        merge_origins(&mut self.origins_v4, &other.origins_v4);
        merge_origins(&mut self.origins_v6, &other.origins_v6);
        merge_splits(&mut self.splits_v4, &other.splits_v4);
        merge_splits(&mut self.splits_v6, &other.splits_v6);
        merge_paths(&mut self.paths_v4, &other.paths_v4);
        merge_paths(&mut self.paths_v6, &other.paths_v6);
    }
}

/// Push one observed path for every distinct origin of a record.
#[verifier::loop_isolation(false)]
fn push_paths(
    table: &mut PathTable,
    b: Cidr,
    dedup: &Vec<u32>,
    tp: &Vec<u32>,
    origs: Ghost<Seq<u32>>,
)
    requires
        old(table).wf(),
        b.wf(),
        b.family == old(table).family,
        forall|x: u32| #![trigger dedup@.contains(x)] dedup@.contains(x) <==> origs@.contains(x),
        forall|p: int, q: int| 0 <= p < q < dedup@.len() ==> dedup@[p] != dedup@[q],
    ensures
        final(table).wf(),
        final(table).family == old(table).family,
        forall|x: Cidr, y: u32|
            #![trigger final(table).has_group(x, y)]
            final(table).has_group(x, y) <==> old(table).has_group(x, y) || (x == b
                && origs@.contains(y)),
        forall|y: u32|
            origs@.contains(y) ==> #[trigger] final(table).paths_of(b, y) == (
            if old(table).has_group(b, y) {
                old(table).paths_of(b, y)
            } else {
                Seq::empty()
            }).push(tp@),
        forall|x: Cidr, y: u32|
            #![trigger final(table).paths_of(x, y)]
            !(x == b && origs@.contains(y)) && old(table).has_group(x, y)
                ==> final(table).paths_of(x, y) == old(table).paths_of(x, y),
{
    let n = dedup.len();
    let mut k: usize = 0;
    while k < n
        invariant
            k <= n,
            n == dedup@.len(),
            table.wf(),
            table.family == old(table).family,
            forall|x: Cidr, y: u32|
                #![trigger table.has_group(x, y)]
                table.has_group(x, y) <==> old(table).has_group(x, y) || (x == b
                    && dedup@.subrange(0, k as int).contains(y)),
            forall|y: u32|
                dedup@.subrange(0, k as int).contains(y) ==> #[trigger] table.paths_of(b, y) == (
                if old(table).has_group(b, y) {
                    old(table).paths_of(b, y)
                } else {
                    Seq::empty()
                }).push(tp@),
            forall|x: Cidr, y: u32|
                #![trigger table.paths_of(x, y)]
                !(x == b && dedup@.subrange(0, k as int).contains(y)) && old(table).has_group(x, y)
                    ==> table.paths_of(x, y) == old(table).paths_of(x, y),
        decreases n - k,
    {
        let y = dedup[k];
        let ghost pre = *table;
        let path_copy = copy_asns(tp);
        proof {
            assert(path_copy@ == tp@);
            assert(!dedup@.subrange(0, k as int).contains(y)) by {
                if dedup@.subrange(0, k as int).contains(y) {
                    let t = choose|t: int| 0 <= t < k && dedup@.subrange(0, k as int)[t] == y;
                    assert(dedup@[t] == y && dedup@[k as int] == y);
                }
            }
        }
        table.push_path(b, y, path_copy);
        proof {
            assert(dedup@.subrange(0, k + 1) =~= dedup@.subrange(0, k as int).push(y));
            crate::origins::lemma_push_contains(dedup@.subrange(0, k as int), y);
            assert(path_copy.deep_view() =~= tp@);
            if !pre.has_group(b, y) {
                assert(table.paths_of(b, y) =~= Seq::<Seq<u32>>::empty().push(tp@));
            }
        }
        k = k + 1;
    }
    proof {
        assert(dedup@.subrange(0, n as int) =~= dedup@);
    }
}

/// The merged accumulators hold exactly the union of both sides, for
/// every family and every kind of content.
pub open spec fn merged_pair(a: SourceData, b: SourceData, m: SourceData) -> bool {
    &&& merged_origins(a.origins_v4, b.origins_v4, m.origins_v4)
    &&& merged_origins(a.origins_v6, b.origins_v6, m.origins_v6)
    &&& merged_splits(a.splits_v4, b.splits_v4, m.splits_v4)
    &&& merged_splits(a.splits_v6, b.splits_v6, m.splits_v6)
    &&& merged_paths(a.paths_v4, b.paths_v4, m.paths_v4)
    &&& merged_paths(a.paths_v6, b.paths_v6, m.paths_v6)
}

pub open spec fn merged_origins(a: OriginMap, b: OriginMap, m: OriginMap) -> bool {
    &&& (forall|x: Cidr|
        #![trigger m.has_block(x)]
        m.has_block(x) <==> a.has_block(x) || b.has_block(x))
    &&& (forall|x: Cidr, v: u32|
        #![trigger m.asns_of(x).contains(v)]
        m.has_block(x) ==> (m.asns_of(x).contains(v) <==> (a.has_block(x) && a.asns_of(
            x,
        ).contains(v)) || (b.has_block(x) && b.asns_of(x).contains(v))))
}

pub open spec fn merged_splits(a: SplitPoints, b: SplitPoints, m: SplitPoints) -> bool {
    forall|x: int| #![trigger m.has_point(x)] m.has_point(x) <==> a.has_point(x) || b.has_point(x)
}

pub open spec fn merged_paths(a: PathTable, b: PathTable, m: PathTable) -> bool {
    &&& (forall|x: Cidr, y: u32|
        #![trigger m.has_group(x, y)]
        m.has_group(x, y) <==> a.has_group(x, y) || b.has_group(x, y))
    &&& (forall|x: Cidr, y: u32, q: Seq<u32>|
        #![trigger m.paths_of(x, y).contains(q)]
        m.has_group(x, y) ==> (m.paths_of(x, y).contains(q) <==> (a.has_group(x, y)
            && a.paths_of(x, y).contains(q)) || (b.has_group(x, y) && b.paths_of(x, y).contains(
            q,
        ))))
}

/// Union another origin table into this one, block by block.
#[verifier::loop_isolation(false)]
fn merge_origins(dst: &mut OriginMap, src: &OriginMap)
    requires
        old(dst).wf(),
        src.wf(),
        src.family == old(dst).family,
    ensures
        final(dst).wf(),
        final(dst).family == old(dst).family,
        merged_origins(*old(dst), *src, *final(dst)),
{
    let n = src.entries.len();
    let mut i: usize = 0;
    while i < n
        invariant
            i <= n,
            n == src.entries@.len(),
            dst.wf(),
            dst.family == old(dst).family,
            forall|x: Cidr|
                #![trigger dst.has_block(x)]
                dst.has_block(x) <==> old(dst).has_block(x) || (exists|t: int|
                    0 <= t < i && (#[trigger] src.entries@[t]).block == x),
            forall|x: Cidr, v: u32|
                #![trigger dst.asns_of(x).contains(v)]
                dst.has_block(x) ==> (dst.asns_of(x).contains(v) <==> (old(dst).has_block(x) && old(
                    dst,
                ).asns_of(x).contains(v)) || (exists|t: int|
                    0 <= t < i && (#[trigger] src.entries@[t]).block == x
                        && src.entries@[t].asns@.contains(v))),
        decreases n - i,
    {
        let ghost pre = *dst;
        let b = src.entries[i].block;
        dst.insert(b, &src.entries[i].asns);
        proof {
            let ti = i as int;
            assert forall|x: Cidr|
                dst.has_block(x) <==> old(dst).has_block(x) || (exists|t: int|
                    0 <= t < ti + 1 && (#[trigger] src.entries@[t]).block == x) by {
                if dst.has_block(x) && !old(dst).has_block(x) {
                    if pre.has_block(x) {
                        let t = choose|t: int| 0 <= t < ti && (#[trigger] src.entries@[t]).block == x;
                        assert(0 <= t < ti + 1 && src.entries@[t].block == x);
                    } else {
                        assert(x == b);
                        assert(src.entries@[ti].block == x);
                    }
                }
                if exists|t: int| 0 <= t < ti + 1 && (#[trigger] src.entries@[t]).block == x {
                    let t = choose|t: int| 0 <= t < ti + 1 && (#[trigger] src.entries@[t]).block == x;
                    if t < ti {
                        assert(pre.has_block(x));
                    } else {
                        assert(x == b);
                    }
                    assert(dst.has_block(x));
                }
            }
            assert forall|x: Cidr, v: u32|
                dst.has_block(x) implies (dst.asns_of(x).contains(v) <==> (old(dst).has_block(x)
                    && old(dst).asns_of(x).contains(v)) || (exists|t: int|
                    0 <= t < ti + 1 && (#[trigger] src.entries@[t]).block == x
                        && src.entries@[t].asns@.contains(v))) by {
                if x == b {
                    if src.entries@[ti].asns@.contains(v) {
                        assert(src.entries@[ti].block == x);
                        assert(dst.asns_of(x).contains(v));
                    }
                    if exists|t: int|
                        0 <= t < ti + 1 && (#[trigger] src.entries@[t]).block == x
                            && src.entries@[t].asns@.contains(v) {
                        let t = choose|t: int|
                            0 <= t < ti + 1 && (#[trigger] src.entries@[t]).block == x
                                && src.entries@[t].asns@.contains(v);
                        if t < ti {
                            assert(pre.has_block(x) && pre.asns_of(x).contains(v));
                            assert(dst.asns_of(x).contains(v));
                        } else {
                            assert(dst.asns_of(x).contains(v));
                        }
                    }
                    if dst.asns_of(x).contains(v) && !(old(dst).has_block(x) && old(
                        dst,
                    ).asns_of(x).contains(v)) {
                        if pre.has_block(x) && pre.asns_of(x).contains(v) {
                            let t = choose|t: int|
                                0 <= t < ti && (#[trigger] src.entries@[t]).block == x
                                    && src.entries@[t].asns@.contains(v);
                            assert(0 <= t < ti + 1 && src.entries@[t].block == x
                                && src.entries@[t].asns@.contains(v));
                        } else {
                            assert(src.entries@[ti].asns@.contains(v));
                            assert(src.entries@[ti].block == x);
                        }
                    }
                } else {
                    assert(pre.has_block(x));
                    assert(dst.asns_of(x).contains(v) <==> pre.asns_of(x).contains(v));
                    if exists|t: int|
                        0 <= t < ti + 1 && (#[trigger] src.entries@[t]).block == x
                            && src.entries@[t].asns@.contains(v) {
                        let t = choose|t: int|
                            0 <= t < ti + 1 && (#[trigger] src.entries@[t]).block == x
                                && src.entries@[t].asns@.contains(v);
                        assert(t < ti);
                    }
                }
            }
        }
        i = i + 1;
    }
    proof {
        assert forall|x: Cidr|
            dst.has_block(x) <==> old(dst).has_block(x) || src.has_block(x) by {
            if src.has_block(x) {
                let t = choose|t: int|
                    0 <= t < src.entries@.len() && (#[trigger] src.entries@[t]).block == x;
                assert(0 <= t < n && src.entries@[t].block == x);
                assert(dst.has_block(x));
            }
            if dst.has_block(x) && !old(dst).has_block(x) {
                let t = choose|t: int| 0 <= t < n && (#[trigger] src.entries@[t]).block == x;
                assert(src.has_block(x));
            }
        }
        assert forall|x: Cidr, v: u32|
            dst.has_block(x) implies (dst.asns_of(x).contains(v) <==> (old(dst).has_block(x)
                && old(dst).asns_of(x).contains(v)) || (src.has_block(x) && src.asns_of(
            x,
        ).contains(v))) by {
            if src.has_block(x) {
                let w = src.idx_of(x);
                assert(0 <= w < n && src.entries@[w].block == x);
                if src.asns_of(x).contains(v) {
                    assert(src.entries@[w].asns@.contains(v));
                }
                if exists|t: int|
                    0 <= t < n && (#[trigger] src.entries@[t]).block == x
                        && src.entries@[t].asns@.contains(v) {
                    let t = choose|t: int|
                        0 <= t < n && (#[trigger] src.entries@[t]).block == x
                            && src.entries@[t].asns@.contains(v);
                    if t != w {
                        assert(src.entries@[t].block != src.entries@[w].block);
                        assert(false);
                    }
                    assert(src.asns_of(x).contains(v)) by {
                        assert(src.entries@[w].asns@.contains(v));
                    }
                }
            } else {
                if exists|t: int|
                    0 <= t < n && (#[trigger] src.entries@[t]).block == x
                        && src.entries@[t].asns@.contains(v) {
                    let t = choose|t: int|
                        0 <= t < n && (#[trigger] src.entries@[t]).block == x
                            && src.entries@[t].asns@.contains(v);
                    assert(src.has_block(x));
                    assert(false);
                }
            }
        }
    }
}

/// Union another split-point index into this one.
#[verifier::loop_isolation(false)]
fn merge_splits(dst: &mut SplitPoints, src: &SplitPoints)
    requires
        old(dst).wf(),
        src.wf(),
        src.family == old(dst).family,
    ensures
        final(dst).wf(),
        final(dst).family == old(dst).family,
        merged_splits(*old(dst), *src, *final(dst)),
{
    let n = src.points.len();
    let mut i: usize = 0;
    while i < n
        invariant
            i <= n,
            n == src.points@.len(),
            dst.wf(),
            dst.family == old(dst).family,
            forall|x: int|
                #![trigger dst.has_point(x)]
                dst.has_point(x) <==> old(dst).has_point(x) || (exists|t: int|
                    0 <= t < i && (#[trigger] src.points@[t]) == x),
        decreases n - i,
    {
        let ghost pre = *dst;
        dst.insert_point(src.points[i]);
        proof {
            let ti = i as int;
            assert forall|x: int|
                dst.has_point(x) <==> old(dst).has_point(x) || (exists|t: int|
                    0 <= t < ti + 1 && (#[trigger] src.points@[t]) == x) by {
                if dst.has_point(x) && !old(dst).has_point(x) {
                    if pre.has_point(x) {
                        let t = choose|t: int| 0 <= t < ti && (#[trigger] src.points@[t]) == x;
                        assert(0 <= t < ti + 1 && src.points@[t] == x);
                    } else {
                        assert(src.points@[ti] == x);
                    }
                }
                if exists|t: int| 0 <= t < ti + 1 && (#[trigger] src.points@[t]) == x {
                    let t = choose|t: int| 0 <= t < ti + 1 && (#[trigger] src.points@[t]) == x;
                    if t < ti {
                        assert(pre.has_point(x));
                    }
                    assert(dst.has_point(x));
                }
            }
        }
        i = i + 1;
    }
    proof {
        assert forall|x: int|
            dst.has_point(x) <==> old(dst).has_point(x) || src.has_point(x) by {
            if src.has_point(x) {
                let t = choose|t: int|
                    0 <= t < src.points@.len() && (#[trigger] src.points@[t]) == x;
                assert(0 <= t < n && src.points@[t] == x);
                assert(dst.has_point(x));
            }
            if dst.has_point(x) && !old(dst).has_point(x) {
                let t = choose|t: int| 0 <= t < n && (#[trigger] src.points@[t]) == x;
                assert(src.has_point(x));
            }
        }
    }
}

/// Append all paths of one foreign group to this table's group of the
/// same key.
#[verifier::loop_isolation(false)]
fn merge_one_group(dst: &mut PathTable, b: Cidr, o: u32, paths: &Vec<Vec<u32>>)
    requires
        old(dst).wf(),
        b.wf(),
        b.family == old(dst).family,
        paths@.len() >= 1,
    ensures
        final(dst).wf(),
        final(dst).family == old(dst).family,
        forall|x: Cidr, y: u32|
            #![trigger final(dst).has_group(x, y)]
            final(dst).has_group(x, y) <==> old(dst).has_group(x, y) || (x == b && y == o),
        forall|q: Seq<u32>|
            #![trigger final(dst).paths_of(b, o).contains(q)]
            final(dst).paths_of(b, o).contains(q) <==> (old(dst).has_group(b, o)
                && old(dst).paths_of(b, o).contains(q)) || paths.deep_view().contains(q),
        forall|x: Cidr, y: u32|
            #![trigger final(dst).paths_of(x, y)]
            !(x == b && y == o) && old(dst).has_group(x, y)
                ==> final(dst).paths_of(x, y) == old(dst).paths_of(x, y),
{
    let m = paths.len();
    let mut t: usize = 0;
    while t < m
        invariant
            t <= m,
            m == paths@.len(),
            dst.wf(),
            dst.family == old(dst).family,
            forall|x: Cidr, y: u32|
                #![trigger dst.has_group(x, y)]
                dst.has_group(x, y) <==> old(dst).has_group(x, y) || (t > 0 && x == b && y == o),
            forall|q: Seq<u32>|
                #![trigger dst.paths_of(b, o).contains(q)]
                dst.has_group(b, o) ==> (dst.paths_of(b, o).contains(q) <==> (old(dst).has_group(
                    b,
                    o,
                ) && old(dst).paths_of(b, o).contains(q)) || paths.deep_view().subrange(
                    0,
                    t as int,
                ).contains(q)),
            forall|x: Cidr, y: u32|
                #![trigger dst.paths_of(x, y)]
                !(x == b && y == o) && old(dst).has_group(x, y) ==> dst.paths_of(x, y) == old(
                    dst,
                ).paths_of(x, y),
        decreases m - t,
    {
        let ghost mid = *dst;
        let path_copy = copy_asns(&paths[t]);
        dst.push_path(b, o, path_copy);
        proof {
            let pv = paths.deep_view();
            let pq = pv[t as int];
            assert(path_copy.deep_view() == pq) by {
                assert(pv[t as int] == paths@[t as int]@);
            }
            assert(pv.subrange(0, t + 1) =~= pv.subrange(0, t as int).push(pq));
            crate::origins::lemma_push_contains(pv.subrange(0, t as int), pq);
            if mid.has_group(b, o) {
                crate::origins::lemma_push_contains(mid.paths_of(b, o), pq);
            } else {
                assert(dst.paths_of(b, o) == seq![pq]);
                crate::origins::lemma_push_contains(Seq::<Seq<u32>>::empty(), pq);
                assert(seq![pq] =~= Seq::<Seq<u32>>::empty().push(pq));
            }
        }
        t = t + 1;
    }
    proof {
        assert(paths.deep_view().subrange(0, m as int) =~= paths.deep_view());
    }
}

/// Union another path table into this one, pair by pair.
#[verifier::loop_isolation(false)]
fn merge_paths(dst: &mut PathTable, src: &PathTable)
    requires
        old(dst).wf(),
        src.wf(),
        src.family == old(dst).family,
    ensures
        final(dst).wf(),
        final(dst).family == old(dst).family,
        merged_paths(*old(dst), *src, *final(dst)),
{
    let n = src.groups.len();
    let mut i: usize = 0;
    while i < n
        invariant
            i <= n,
            n == src.groups@.len(),
            dst.wf(),
            dst.family == old(dst).family,
            forall|x: Cidr, y: u32|
                #![trigger dst.has_group(x, y)]
                dst.has_group(x, y) <==> old(dst).has_group(x, y) || (exists|t: int|
                    0 <= t < i && (#[trigger] src.groups@[t]).block == x && src.groups@[t].origin
                        == y),
            forall|x: Cidr, y: u32, q: Seq<u32>|
                #![trigger dst.paths_of(x, y).contains(q)]
                dst.has_group(x, y) ==> (dst.paths_of(x, y).contains(q) <==> (old(dst).has_group(
                    x,
                    y,
                ) && old(dst).paths_of(x, y).contains(q)) || (exists|t: int|
                    0 <= t < i && (#[trigger] src.groups@[t]).block == x && src.groups@[t].origin
                        == y && src.groups@[t].paths.deep_view().contains(q))),
        decreases n - i,
    {
        let ghost pre = *dst;
        let b = src.groups[i].block;
        let o = src.groups[i].origin;
        merge_one_group(dst, b, o, &src.groups[i].paths);
        proof {
            let ti = i as int;
            assert forall|x: Cidr, y: u32|
                dst.has_group(x, y) <==> old(dst).has_group(x, y) || (exists|t: int|
                    0 <= t < ti + 1 && (#[trigger] src.groups@[t]).block == x
                        && src.groups@[t].origin == y) by {
                if dst.has_group(x, y) && !old(dst).has_group(x, y) {
                    if pre.has_group(x, y) {
                        let t = choose|t: int|
                            0 <= t < ti && (#[trigger] src.groups@[t]).block == x
                                && src.groups@[t].origin == y;
                        assert(0 <= t < ti + 1 && src.groups@[t].block == x
                            && src.groups@[t].origin == y);
                    } else {
                        assert(x == b && y == o);
                        assert(src.groups@[ti].block == x && src.groups@[ti].origin == y);
                    }
                }
                if exists|t: int|
                    0 <= t < ti + 1 && (#[trigger] src.groups@[t]).block == x
                        && src.groups@[t].origin == y {
                    let t = choose|t: int|
                        0 <= t < ti + 1 && (#[trigger] src.groups@[t]).block == x
                            && src.groups@[t].origin == y;
                    if t < ti {
                        assert(pre.has_group(x, y));
                    }
                    assert(dst.has_group(x, y));
                }
            }
            assert forall|x: Cidr, y: u32, q: Seq<u32>|
                dst.has_group(x, y) implies (dst.paths_of(x, y).contains(q) <==> (old(
                    dst,
                ).has_group(x, y) && old(dst).paths_of(x, y).contains(q)) || (exists|t: int|
                    0 <= t < ti + 1 && (#[trigger] src.groups@[t]).block == x
                        && src.groups@[t].origin == y && src.groups@[t].paths.deep_view().contains(
                        q,
                    ))) by {
                if x == b && y == o {
                    assert(dst.paths_of(b, o).contains(q) <==> (pre.has_group(b, o)
                        && pre.paths_of(b, o).contains(q)) || src.groups@[
                        ti
                    ].paths.deep_view().contains(q));
                    if pre.has_group(b, o) && pre.paths_of(b, o).contains(q) && !(old(
                        dst,
                    ).has_group(b, o) && old(dst).paths_of(b, o).contains(q)) {
                        let t = choose|t: int|
                            0 <= t < ti && (#[trigger] src.groups@[t]).block == b
                                && src.groups@[t].origin == o
                                && src.groups@[t].paths.deep_view().contains(q);
                        assert(0 <= t < ti + 1 && src.groups@[t].block == x
                            && src.groups@[t].origin == y
                            && src.groups@[t].paths.deep_view().contains(q));
                    }
                    if src.groups@[ti].paths.deep_view().contains(q) {
                        assert(0 <= ti < ti + 1 && src.groups@[ti].block == x
                            && src.groups@[ti].origin == y
                            && src.groups@[ti].paths.deep_view().contains(q));
                    }
                    if exists|t: int|
                        0 <= t < ti + 1 && (#[trigger] src.groups@[t]).block == x
                            && src.groups@[t].origin == y
                            && src.groups@[t].paths.deep_view().contains(q) {
                        let t = choose|t: int|
                            0 <= t < ti + 1 && (#[trigger] src.groups@[t]).block == x
                                && src.groups@[t].origin == y
                                && src.groups@[t].paths.deep_view().contains(q);
                        if t < ti {
                            assert(pre.has_group(x, y) && pre.paths_of(x, y).contains(q));
                            assert(dst.paths_of(x, y).contains(q));
                        } else {
                            assert(dst.paths_of(x, y).contains(q));
                        }
                    }
                } else {
                    if pre.has_group(x, y) {
                        assert(dst.paths_of(x, y) == pre.paths_of(x, y));
                    } else {
                        assert(!dst.has_group(x, y));
                        assert(false);
                    }
                    if exists|t: int|
                        0 <= t < ti + 1 && (#[trigger] src.groups@[t]).block == x
                            && src.groups@[t].origin == y
                            && src.groups@[t].paths.deep_view().contains(q) {
                        let t = choose|t: int|
                            0 <= t < ti + 1 && (#[trigger] src.groups@[t]).block == x
                                && src.groups@[t].origin == y
                                && src.groups@[t].paths.deep_view().contains(q);
                        assert(t < ti);
                    }
                }
            }
        }
        i = i + 1;
    }
    proof {
        assert forall|x: Cidr, y: u32|
            dst.has_group(x, y) <==> old(dst).has_group(x, y) || src.has_group(x, y) by {
            if src.has_group(x, y) {
                let t = choose|t: int|
                    0 <= t < src.groups@.len() && (#[trigger] src.groups@[t]).block == x
                        && src.groups@[t].origin == y;
                assert(0 <= t < n && src.groups@[t].block == x && src.groups@[t].origin == y);
                assert(dst.has_group(x, y));
            }
            if dst.has_group(x, y) && !old(dst).has_group(x, y) {
                let t = choose|t: int|
                    0 <= t < n && (#[trigger] src.groups@[t]).block == x && src.groups@[t].origin
                        == y;
                assert(src.has_group(x, y));
            }
        }
        assert forall|x: Cidr, y: u32, q: Seq<u32>|
            dst.has_group(x, y) implies (dst.paths_of(x, y).contains(q) <==> (old(
                dst,
            ).has_group(x, y) && old(dst).paths_of(x, y).contains(q)) || (src.has_group(x, y)
                && src.paths_of(x, y).contains(q))) by {
            if src.has_group(x, y) {
                let w = src.idx_of(x, y);
                assert(0 <= w < n && src.groups@[w].block == x && src.groups@[w].origin == y);
                if src.paths_of(x, y).contains(q) {
                    assert(src.groups@[w].paths.deep_view().contains(q));
                }
                if exists|t: int|
                    0 <= t < n && (#[trigger] src.groups@[t]).block == x && src.groups@[t].origin
                        == y && src.groups@[t].paths.deep_view().contains(q) {
                    let t = choose|t: int|
                        0 <= t < n && (#[trigger] src.groups@[t]).block == x
                            && src.groups@[t].origin == y
                            && src.groups@[t].paths.deep_view().contains(q);
                    if t != w {
                        assert(false);
                    }
                    assert(src.paths_of(x, y).contains(q));
                }
            } else {
                if exists|t: int|
                    0 <= t < n && (#[trigger] src.groups@[t]).block == x && src.groups@[t].origin
                        == y && src.groups@[t].paths.deep_view().contains(q) {
                    let t = choose|t: int|
                        0 <= t < n && (#[trigger] src.groups@[t]).block == x
                            && src.groups@[t].origin == y
                            && src.groups@[t].paths.deep_view().contains(q);
                    assert(src.has_group(x, y));
                    assert(false);
                }
            }
        }
    }
}

/// Merge the per-source accumulators of every source, in order, into one.
/// The union is commutative, so the outcome does not depend on which
/// source was parsed first.
#[verifier::loop_isolation(false)]
pub fn merge_sources(sources: &Vec<SourceData>) -> (r: SourceData)
    requires
        forall|k: int| 0 <= k < sources@.len() ==> (#[trigger] sources@[k]).wf(),
    ensures
        r.wf(),
        merged_all(sources@, r),
{
    let mut acc = SourceData::new();
    let n = sources.len();
    let mut k: usize = 0;
    while k < n
        invariant
            k <= n,
            n == sources@.len(),
            acc.wf(),
            merged_all(sources@.subrange(0, k as int), acc),
        decreases n - k,
    {
        let ghost pre = acc;
        acc.merge_from(&sources[k]);
        proof {
            lemma_merge_all_step(sources@, k as int, pre, sources@[k as int], acc);
        }
        k = k + 1;
    }
    proof {
        assert(sources@.subrange(0, n as int) =~= sources@);
    }
    acc
}

/// The result of merging a whole list of sources: membership in any
/// component is membership in some source.
pub open spec fn merged_all(sources: Seq<SourceData>, m: SourceData) -> bool {
    &&& (forall|x: Cidr|
        #![trigger m.origins_v4.has_block(x)]
        m.origins_v4.has_block(x) <==> exists|k: int|
            0 <= k < sources.len() && (#[trigger] sources[k]).origins_v4.has_block(x))
    &&& (forall|x: Cidr, v: u32|
        #![trigger m.origins_v4.asns_of(x).contains(v)]
        m.origins_v4.has_block(x) ==> (m.origins_v4.asns_of(x).contains(v) <==> exists|k: int|
            0 <= k < sources.len() && (#[trigger] sources[k]).origins_v4.has_block(x) && sources[
                k
            ].origins_v4.asns_of(x).contains(v)))
    &&& (forall|x: Cidr|
        #![trigger m.origins_v6.has_block(x)]
        m.origins_v6.has_block(x) <==> exists|k: int|
            0 <= k < sources.len() && (#[trigger] sources[k]).origins_v6.has_block(x))
    &&& (forall|x: Cidr, v: u32|
        #![trigger m.origins_v6.asns_of(x).contains(v)]
        m.origins_v6.has_block(x) ==> (m.origins_v6.asns_of(x).contains(v) <==> exists|k: int|
            0 <= k < sources.len() && (#[trigger] sources[k]).origins_v6.has_block(x) && sources[
                k
            ].origins_v6.asns_of(x).contains(v)))
    &&& (forall|x: int|
        #![trigger m.splits_v4.has_point(x)]
        m.splits_v4.has_point(x) <==> exists|k: int|
            0 <= k < sources.len() && (#[trigger] sources[k]).splits_v4.has_point(x))
    &&& (forall|x: int|
        #![trigger m.splits_v6.has_point(x)]
        m.splits_v6.has_point(x) <==> exists|k: int|
            0 <= k < sources.len() && (#[trigger] sources[k]).splits_v6.has_point(x))
    &&& (forall|x: Cidr, y: u32|
        #![trigger m.paths_v4.has_group(x, y)]
        m.paths_v4.has_group(x, y) <==> exists|k: int|
            0 <= k < sources.len() && (#[trigger] sources[k]).paths_v4.has_group(x, y))
    &&& (forall|x: Cidr, y: u32, q: Seq<u32>|
        #![trigger m.paths_v4.paths_of(x, y).contains(q)]
        m.paths_v4.has_group(x, y) ==> (m.paths_v4.paths_of(x, y).contains(q) <==> exists|k: int|
            0 <= k < sources.len() && (#[trigger] sources[k]).paths_v4.has_group(x, y) && sources[
                k
            ].paths_v4.paths_of(x, y).contains(q)))
    &&& (forall|x: Cidr, y: u32|
        #![trigger m.paths_v6.has_group(x, y)]
        m.paths_v6.has_group(x, y) <==> exists|k: int|
            0 <= k < sources.len() && (#[trigger] sources[k]).paths_v6.has_group(x, y))
    &&& (forall|x: Cidr, y: u32, q: Seq<u32>|
        #![trigger m.paths_v6.paths_of(x, y).contains(q)]
        m.paths_v6.has_group(x, y) ==> (m.paths_v6.paths_of(x, y).contains(q) <==> exists|k: int|
            0 <= k < sources.len() && (#[trigger] sources[k]).paths_v6.has_group(x, y) && sources[
                k
            ].paths_v6.paths_of(x, y).contains(q)))
}

/// Merging one more source extends the union over a prefix of the list
/// by exactly that source's contents.
proof fn lemma_merge_all_step(
    sources: Seq<SourceData>,
    k: int,
    pre: SourceData,
    src: SourceData,
    post: SourceData,
)
    requires
        0 <= k < sources.len(),
        src == sources[k],
        merged_all(sources.subrange(0, k), pre),
        merged_pair(pre, src, post),
    ensures
        merged_all(sources.subrange(0, k + 1), post),
{
    let sub = sources.subrange(0, k);
    let sub1 = sources.subrange(0, k + 1);
    assert forall|j: int| 0 <= j < k + 1 implies #[trigger] sub1[j] == sources[j] by {}
    assert forall|x: Cidr|
        post.origins_v4.has_block(x) <==> (exists|j: int|
            0 <= j < sub1.len() && (#[trigger] sub1[j]).origins_v4.has_block(x)) by {
        if post.origins_v4.has_block(x) {
            if pre.origins_v4.has_block(x) {
                let j = choose|j: int|
                    0 <= j < k && (#[trigger] sub[j]).origins_v4.has_block(x);
                assert(sub1[j].origins_v4.has_block(x));
            } else {
                assert(sub1[k].origins_v4.has_block(x));
            }
        }
        if exists|j: int| 0 <= j < sub1.len() && (#[trigger] sub1[j]).origins_v4.has_block(x) {
            let j = choose|j: int|
                0 <= j < sub1.len() && (#[trigger] sub1[j]).origins_v4.has_block(x);
            if j < k {
                assert(sub[j].origins_v4.has_block(x));
                assert(pre.origins_v4.has_block(x));
            } else {
                assert(src.origins_v4.has_block(x));
            }
            assert(post.origins_v4.has_block(x));
        }
    }
    assert forall|x: Cidr|
        post.origins_v6.has_block(x) <==> (exists|j: int|
            0 <= j < sub1.len() && (#[trigger] sub1[j]).origins_v6.has_block(x)) by {
        if post.origins_v6.has_block(x) {
            if pre.origins_v6.has_block(x) {
                let j = choose|j: int|
                    0 <= j < k && (#[trigger] sub[j]).origins_v6.has_block(x);
                assert(sub1[j].origins_v6.has_block(x));
            } else {
                assert(sub1[k].origins_v6.has_block(x));
            }
        }
        if exists|j: int| 0 <= j < sub1.len() && (#[trigger] sub1[j]).origins_v6.has_block(x) {
            let j = choose|j: int|
                0 <= j < sub1.len() && (#[trigger] sub1[j]).origins_v6.has_block(x);
            if j < k {
                assert(sub[j].origins_v6.has_block(x));
                assert(pre.origins_v6.has_block(x));
            } else {
                assert(src.origins_v6.has_block(x));
            }
            assert(post.origins_v6.has_block(x));
        }
    }
    assert forall|x: int|
        post.splits_v4.has_point(x) <==> (exists|j: int|
            0 <= j < sub1.len() && (#[trigger] sub1[j]).splits_v4.has_point(x)) by {
        if post.splits_v4.has_point(x) {
            if pre.splits_v4.has_point(x) {
                let j = choose|j: int|
                    0 <= j < k && (#[trigger] sub[j]).splits_v4.has_point(x);
                assert(sub1[j].splits_v4.has_point(x));
            } else {
                assert(sub1[k].splits_v4.has_point(x));
            }
        }
        if exists|j: int| 0 <= j < sub1.len() && (#[trigger] sub1[j]).splits_v4.has_point(x) {
            let j = choose|j: int|
                0 <= j < sub1.len() && (#[trigger] sub1[j]).splits_v4.has_point(x);
            if j < k {
                assert(sub[j].splits_v4.has_point(x));
                assert(pre.splits_v4.has_point(x));
            } else {
                assert(src.splits_v4.has_point(x));
            }
            assert(post.splits_v4.has_point(x));
        }
    }
    assert forall|x: int|
        post.splits_v6.has_point(x) <==> (exists|j: int|
            0 <= j < sub1.len() && (#[trigger] sub1[j]).splits_v6.has_point(x)) by {
        if post.splits_v6.has_point(x) {
            if pre.splits_v6.has_point(x) {
                let j = choose|j: int|
                    0 <= j < k && (#[trigger] sub[j]).splits_v6.has_point(x);
                assert(sub1[j].splits_v6.has_point(x));
            } else {
                assert(sub1[k].splits_v6.has_point(x));
            }
        }
        if exists|j: int| 0 <= j < sub1.len() && (#[trigger] sub1[j]).splits_v6.has_point(x) {
            let j = choose|j: int|
                0 <= j < sub1.len() && (#[trigger] sub1[j]).splits_v6.has_point(x);
            if j < k {
                assert(sub[j].splits_v6.has_point(x));
                assert(pre.splits_v6.has_point(x));
            } else {
                assert(src.splits_v6.has_point(x));
            }
            assert(post.splits_v6.has_point(x));
        }
    }
    assert forall|x: Cidr, y: u32|
        post.paths_v4.has_group(x, y) <==> (exists|j: int|
            0 <= j < sub1.len() && (#[trigger] sub1[j]).paths_v4.has_group(x, y)) by {
        if post.paths_v4.has_group(x, y) {
            if pre.paths_v4.has_group(x, y) {
                let j = choose|j: int|
                    0 <= j < k && (#[trigger] sub[j]).paths_v4.has_group(x, y);
                assert(sub1[j].paths_v4.has_group(x, y));
            } else {
                assert(sub1[k].paths_v4.has_group(x, y));
            }
        }
        if exists|j: int| 0 <= j < sub1.len() && (#[trigger] sub1[j]).paths_v4.has_group(x, y) {
            let j = choose|j: int|
                0 <= j < sub1.len() && (#[trigger] sub1[j]).paths_v4.has_group(x, y);
            if j < k {
                assert(sub[j].paths_v4.has_group(x, y));
                assert(pre.paths_v4.has_group(x, y));
            } else {
                assert(src.paths_v4.has_group(x, y));
            }
            assert(post.paths_v4.has_group(x, y));
        }
    }
    assert forall|x: Cidr, y: u32|
        post.paths_v6.has_group(x, y) <==> (exists|j: int|
            0 <= j < sub1.len() && (#[trigger] sub1[j]).paths_v6.has_group(x, y)) by {
        if post.paths_v6.has_group(x, y) {
            if pre.paths_v6.has_group(x, y) {
                let j = choose|j: int|
                    0 <= j < k && (#[trigger] sub[j]).paths_v6.has_group(x, y);
                assert(sub1[j].paths_v6.has_group(x, y));
            } else {
                assert(sub1[k].paths_v6.has_group(x, y));
            }
        }
        if exists|j: int| 0 <= j < sub1.len() && (#[trigger] sub1[j]).paths_v6.has_group(x, y) {
            let j = choose|j: int|
                0 <= j < sub1.len() && (#[trigger] sub1[j]).paths_v6.has_group(x, y);
            if j < k {
                assert(sub[j].paths_v6.has_group(x, y));
                assert(pre.paths_v6.has_group(x, y));
            } else {
                assert(src.paths_v6.has_group(x, y));
            }
            assert(post.paths_v6.has_group(x, y));
        }
    }
    assert forall|x: Cidr, v: u32|
        post.origins_v4.has_block(x) implies (post.origins_v4.asns_of(x).contains(v) <==> (exists|j: int|
            0 <= j < sub1.len() && (#[trigger] sub1[j]).origins_v4.has_block(x)
                && sub1[j].origins_v4.asns_of(x).contains(v))) by {
        if post.origins_v4.asns_of(x).contains(v) {
            if pre.origins_v4.has_block(x) && pre.origins_v4.asns_of(x).contains(v) {
                let j = choose|j: int|
                    0 <= j < k && (#[trigger] sub[j]).origins_v4.has_block(x) && sub[j].origins_v4.asns_of(x).contains(v);
                assert(sub1[j].origins_v4.has_block(x) && sub1[j].origins_v4.asns_of(x).contains(v));
            } else {
                assert(sub1[k].origins_v4.has_block(x) && sub1[k].origins_v4.asns_of(x).contains(v));
            }
        }
        if exists|j: int|
            0 <= j < sub1.len() && (#[trigger] sub1[j]).origins_v4.has_block(x)
                && sub1[j].origins_v4.asns_of(x).contains(v) {
            let j = choose|j: int|
                0 <= j < sub1.len() && (#[trigger] sub1[j]).origins_v4.has_block(x)
                    && sub1[j].origins_v4.asns_of(x).contains(v);
            if j < k {
                assert(sub[j].origins_v4.has_block(x) && sub[j].origins_v4.asns_of(x).contains(v));
                assert(pre.origins_v4.has_block(x));
                assert(pre.origins_v4.asns_of(x).contains(v));
                assert(post.origins_v4.has_block(x));
            } else {
                assert(src.origins_v4.has_block(x) && src.origins_v4.asns_of(x).contains(v));
                assert(post.origins_v4.has_block(x));
            }
            assert(post.origins_v4.asns_of(x).contains(v));
        }
    }
    assert forall|x: Cidr, v: u32|
        post.origins_v6.has_block(x) implies (post.origins_v6.asns_of(x).contains(v) <==> (exists|j: int|
            0 <= j < sub1.len() && (#[trigger] sub1[j]).origins_v6.has_block(x)
                && sub1[j].origins_v6.asns_of(x).contains(v))) by {
        if post.origins_v6.asns_of(x).contains(v) {
            if pre.origins_v6.has_block(x) && pre.origins_v6.asns_of(x).contains(v) {
                let j = choose|j: int|
                    0 <= j < k && (#[trigger] sub[j]).origins_v6.has_block(x) && sub[j].origins_v6.asns_of(x).contains(v);
                assert(sub1[j].origins_v6.has_block(x) && sub1[j].origins_v6.asns_of(x).contains(v));
            } else {
                assert(sub1[k].origins_v6.has_block(x) && sub1[k].origins_v6.asns_of(x).contains(v));
            }
        }
        if exists|j: int|
            0 <= j < sub1.len() && (#[trigger] sub1[j]).origins_v6.has_block(x)
                && sub1[j].origins_v6.asns_of(x).contains(v) {
            let j = choose|j: int|
                0 <= j < sub1.len() && (#[trigger] sub1[j]).origins_v6.has_block(x)
                    && sub1[j].origins_v6.asns_of(x).contains(v);
            if j < k {
                assert(sub[j].origins_v6.has_block(x) && sub[j].origins_v6.asns_of(x).contains(v));
                assert(pre.origins_v6.has_block(x));
                assert(pre.origins_v6.asns_of(x).contains(v));
                assert(post.origins_v6.has_block(x));
            } else {
                assert(src.origins_v6.has_block(x) && src.origins_v6.asns_of(x).contains(v));
                assert(post.origins_v6.has_block(x));
            }
            assert(post.origins_v6.asns_of(x).contains(v));
        }
    }
    assert forall|x: Cidr, y: u32, q: Seq<u32>|
        post.paths_v4.has_group(x, y) implies (post.paths_v4.paths_of(x, y).contains(q) <==> (exists|j: int|
            0 <= j < sub1.len() && (#[trigger] sub1[j]).paths_v4.has_group(x, y)
                && sub1[j].paths_v4.paths_of(x, y).contains(q))) by {
        if post.paths_v4.paths_of(x, y).contains(q) {
            if pre.paths_v4.has_group(x, y) && pre.paths_v4.paths_of(x, y).contains(q) {
                let j = choose|j: int|
                    0 <= j < k && (#[trigger] sub[j]).paths_v4.has_group(x, y) && sub[j].paths_v4.paths_of(x, y).contains(q);
                assert(sub1[j].paths_v4.has_group(x, y) && sub1[j].paths_v4.paths_of(x, y).contains(q));
            } else {
                assert(sub1[k].paths_v4.has_group(x, y) && sub1[k].paths_v4.paths_of(x, y).contains(q));
            }
        }
        if exists|j: int|
            0 <= j < sub1.len() && (#[trigger] sub1[j]).paths_v4.has_group(x, y)
                && sub1[j].paths_v4.paths_of(x, y).contains(q) {
            let j = choose|j: int|
                0 <= j < sub1.len() && (#[trigger] sub1[j]).paths_v4.has_group(x, y)
                    && sub1[j].paths_v4.paths_of(x, y).contains(q);
            if j < k {
                assert(sub[j].paths_v4.has_group(x, y) && sub[j].paths_v4.paths_of(x, y).contains(q));
                assert(pre.paths_v4.has_group(x, y));
                assert(pre.paths_v4.paths_of(x, y).contains(q));
                assert(post.paths_v4.has_group(x, y));
            } else {
                assert(src.paths_v4.has_group(x, y) && src.paths_v4.paths_of(x, y).contains(q));
                assert(post.paths_v4.has_group(x, y));
            }
            assert(post.paths_v4.paths_of(x, y).contains(q));
        }
    }
    assert forall|x: Cidr, y: u32, q: Seq<u32>|
        post.paths_v6.has_group(x, y) implies (post.paths_v6.paths_of(x, y).contains(q) <==> (exists|j: int|
            0 <= j < sub1.len() && (#[trigger] sub1[j]).paths_v6.has_group(x, y)
                && sub1[j].paths_v6.paths_of(x, y).contains(q))) by {
        if post.paths_v6.paths_of(x, y).contains(q) {
            if pre.paths_v6.has_group(x, y) && pre.paths_v6.paths_of(x, y).contains(q) {
                let j = choose|j: int|
                    0 <= j < k && (#[trigger] sub[j]).paths_v6.has_group(x, y) && sub[j].paths_v6.paths_of(x, y).contains(q);
                assert(sub1[j].paths_v6.has_group(x, y) && sub1[j].paths_v6.paths_of(x, y).contains(q));
            } else {
                assert(sub1[k].paths_v6.has_group(x, y) && sub1[k].paths_v6.paths_of(x, y).contains(q));
            }
        }
        if exists|j: int|
            0 <= j < sub1.len() && (#[trigger] sub1[j]).paths_v6.has_group(x, y)
                && sub1[j].paths_v6.paths_of(x, y).contains(q) {
            let j = choose|j: int|
                0 <= j < sub1.len() && (#[trigger] sub1[j]).paths_v6.has_group(x, y)
                    && sub1[j].paths_v6.paths_of(x, y).contains(q);
            if j < k {
                assert(sub[j].paths_v6.has_group(x, y) && sub[j].paths_v6.paths_of(x, y).contains(q));
                assert(pre.paths_v6.has_group(x, y));
                assert(pre.paths_v6.paths_of(x, y).contains(q));
                assert(post.paths_v6.has_group(x, y));
            } else {
                assert(src.paths_v6.has_group(x, y) && src.paths_v6.paths_of(x, y).contains(q));
                assert(post.paths_v6.has_group(x, y));
            }
            assert(post.paths_v6.paths_of(x, y).contains(q));
        }
    }
}

} // verus!
