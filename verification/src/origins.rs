//! The prefix origin table: a longest-prefix-match index from announced
//! CIDR blocks of one family to the set of origin ASNs observed for them.

use vstd::prelude::*;
use vstd::arithmetic::power2::lemma_pow2_pos;
use crate::block::{Cidr, Family, lemma_disjoint_or_nested};

verus! {

/// One announced block and the ASNs seen originating it.
pub struct OriginEntry {
    pub block: Cidr,
    pub asns: Vec<u32>,
}

/// Longest-prefix-match table of one address family.
pub struct OriginMap {
    pub family: Family,
    pub entries: Vec<OriginEntry>,
}

/// Whether `v` holds `x`, with the view contract callers need.
pub fn vec_contains_u32(v: &Vec<u32>, x: u32) -> (r: bool)
    ensures
        r == v@.contains(x),
{
    let mut i: usize = 0;
    while i < v.len()
        invariant
            i <= v@.len(),
            forall|t: int| 0 <= t < i ==> v@[t] != x,
        decreases v@.len() - i,
    {
        if v[i] == x {
            return true;
        }
        i = i + 1;
    }
    false
}

/// A plain copy of an ASN list.
pub fn copy_asns(v: &Vec<u32>) -> (r: Vec<u32>)
    ensures
        r@ == v@,
{
    let mut r: Vec<u32> = Vec::new();
    let mut i: usize = 0;
    while i < v.len()
        invariant
            i <= v@.len(),
            r@ == v@.subrange(0, i as int),
        decreases v@.len() - i,
    {
        r.push(v[i]);
        i = i + 1;
    }
    proof {
        assert(r@ =~= v@);
    }
    r
}

impl OriginMap {
    /// Entries hold canonical blocks of the table's family, one entry per
    /// block.
    pub open spec fn wf(self) -> bool {
        &&& forall|i: int|
            0 <= i < self.entries@.len() ==> (#[trigger] self.entries@[i]).block.wf()
                && self.entries@[i].block.family == self.family
        &&& forall|i: int, j: int|
            0 <= i < j < self.entries@.len() ==> (#[trigger] self.entries@[i]).block != (
            #[trigger] self.entries@[j]).block
    }

    /// A block has been inserted.
    pub open spec fn has_block(self, b: Cidr) -> bool {
        exists|i: int| 0 <= i < self.entries@.len() && (#[trigger] self.entries@[i]).block == b
    }

    pub open spec fn idx_of(self, b: Cidr) -> int {
        choose|i: int| 0 <= i < self.entries@.len() && (#[trigger] self.entries@[i]).block == b
    }

    /// The origin set stored for a block.
    pub open spec fn asns_of(self, b: Cidr) -> Set<u32> {
        self.entries@[self.idx_of(b)].asns@.to_set()
    }

    /// The empty table.
    pub fn new(family: Family) -> (r: OriginMap)
        ensures
            r.wf(),
            r.family == family,
            r.entries@.len() == 0,
            forall|b: Cidr| !r.has_block(b),
    {
        OriginMap { family, entries: Vec::new() }
    }

    /// Insert an announcement: the ASNs are unioned into the block's
    /// stored set, which is created if the block is new. Other blocks'
    /// sets are untouched.
    #[verifier::loop_isolation(false)]
    pub fn insert(&mut self, b: Cidr, asns: &Vec<u32>)
        requires
            old(self).wf(),
            b.wf(),
            b.family == old(self).family,
        ensures
            final(self).wf(),
            final(self).family == old(self).family,
            forall|x: Cidr|
                #![trigger final(self).has_block(x)]
                final(self).has_block(x) <==> old(self).has_block(x) || x == b,
            forall|v: u32|
                #![trigger final(self).asns_of(b).contains(v)]
                final(self).asns_of(b).contains(v) <==> (old(self).has_block(b) && old(
                    self,
                ).asns_of(b).contains(v)) || asns@.contains(v),
            forall|x: Cidr, v: u32|
                #![trigger final(self).asns_of(x).contains(v)]
                x != b && old(self).has_block(x) ==> (final(self).asns_of(x).contains(v) <==> old(
                    self,
                ).asns_of(x).contains(v)),
    {
        let ghost orig = self.entries@;
        let n = self.entries.len();
        let mut i: usize = 0;
        while i < n
            invariant
                i <= n,
                self == old(self),
                n == self.entries@.len(),
                forall|t: int| 0 <= t < i ==> (#[trigger] orig[t]).block != b,
            decreases n - i,
        {
            if self.entries[i].block == b {
                // union the new ASNs into the existing entry
                let mut ent = self.entries.remove(i);
                let ghost kept = ent.asns@;
                let mut t: usize = 0;
                while t < asns.len()
                    invariant
                        t <= asns@.len(),
                        ent.block == b,
                        forall|v: u32|
                            #![trigger ent.asns@.contains(v)]
                            ent.asns@.contains(v) <==> kept.contains(v) || asns@.subrange(
                                0,
                                t as int,
                            ).contains(v),
                    decreases asns@.len() - t,
                {
                    let ghost before = ent.asns@;
                    let x = asns[t];
                    let already = vec_contains_u32(&ent.asns, x);
                    if !already {
                        ent.asns.push(x);
                    }
                    proof {
                        assert(asns@.subrange(0, t + 1) =~= asns@.subrange(0, t as int).push(x));
                        lemma_push_contains(asns@.subrange(0, t as int), x);
                        if !already {
                            lemma_push_contains(before, x);
                        }
                    }
                    t = t + 1;
                }
                proof {
                    assert(asns@.subrange(0, asns@.len() as int) =~= asns@);
                }
                self.entries.insert(i, ent);
                proof {
                    let s = self.entries@;
                    assert(s.len() == orig.len());
                    assert(forall|t2: int| 0 <= t2 < s.len() && t2 != i as int ==> #[trigger] s[t2] == orig[t2]);
                    assert(s[i as int].block == b);
                    lemma_insert_facts(orig, s, i as int, b, *old(self), *self);
                }
                return ;
            }
            i = i + 1;
        }
        // new block
        let mut fresh: Vec<u32> = Vec::new();
        let mut t: usize = 0;
        while t < asns.len()
            invariant
                t <= asns@.len(),
                forall|v: u32|
                    #![trigger fresh@.contains(v)]
                    fresh@.contains(v) <==> asns@.subrange(0, t as int).contains(v),
            decreases asns@.len() - t,
        {
            let ghost before = fresh@;
            let x = asns[t];
            let already = vec_contains_u32(&fresh, x);
            if !already {
                fresh.push(x);
            }
            proof {
                assert(asns@.subrange(0, t + 1) =~= asns@.subrange(0, t as int).push(x));
                lemma_push_contains(asns@.subrange(0, t as int), x);
                if !already {
                    lemma_push_contains(before, x);
                }
            }
            t = t + 1;
        }
        proof {
            assert(asns@.subrange(0, asns@.len() as int) =~= asns@);
        }
        self.entries.push(OriginEntry { block: b, asns: fresh });
        proof {
            let s = self.entries@;
            assert(forall|t2: int| 0 <= t2 < orig.len() ==> #[trigger] s[t2] == orig[t2]);
            assert(s[s.len() - 1].block == b);
            lemma_append_facts(orig, s, b, *old(self), *self);
        }
    }

    /// Longest-prefix-match lookup: the most specific inserted block that
    /// contains the address, with its origin set, or nothing when no
    /// inserted block contains it.
    #[verifier::loop_isolation(false)]
    pub fn lookup_address(&self, addr: u128) -> (r: Option<(Cidr, Vec<u32>)>)
        requires
            self.wf(),
        ensures
            match r {
                Some(p) => {
                    &&& self.has_block(p.0)
                    &&& p.0.contains_addr(addr as int)
                    &&& p.1@.to_set() == self.asns_of(p.0)
                    &&& forall|i: int|
                        0 <= i < self.entries@.len() && (#[trigger] self.entries@[i]).block
                            .contains_addr(addr as int) ==> self.entries@[i].block.len <= p.0.len
                },
                None => forall|i: int|
                    0 <= i < self.entries@.len() ==> !(#[trigger] self.entries@[i]).block
                        .contains_addr(addr as int),
            },
    {
        let n = self.entries.len();
        let mut best: usize = 0;
        let mut found = false;
        let mut i: usize = 0;
        while i < n
            invariant
                i <= n,
                found ==> best < i && self.entries@[best as int].block.contains_addr(addr as int),
                found ==> forall|t: int|
                    0 <= t < i && (#[trigger] self.entries@[t]).block.contains_addr(addr as int)
                        ==> self.entries@[t].block.len <= self.entries@[
                        best as int
                    ].block.len,
                !found ==> forall|t: int|
                    0 <= t < i ==> !(#[trigger] self.entries@[t]).block.contains_addr(addr as int),
            decreases n - i,
        {
            let blk = self.entries[i].block;
            proof {
                lemma_pow2_pos((blk.width() - blk.len) as nat);
            }
            let contains = blk.addr <= addr && addr <= blk.last_addr();
            if contains {
                if !found {
                    best = i;
                    found = true;
                } else if blk.len > self.entries[best].block.len {
                    best = i;
                }
            }
            i = i + 1;
        }
        if found {
            let b = self.entries[best].block;
            let asns = copy_asns(&self.entries[best].asns);
            proof {
                assert(self.entries@[best as int].block == b);
                assert(self.has_block(b));
                let win = self.idx_of(b);
                assert(self.entries@[win].block == b);
                if win != best as int {
                    assert(self.entries@[win].block != self.entries@[best as int].block);
                    assert(false);
                }
            }
            Some((b, asns))
        } else {
            None
        }
    }
}

/// Membership in a pushed sequence.
pub proof fn lemma_push_contains<T>(s: Seq<T>, x: T)
    ensures
        forall|v: T|
            #![trigger s.push(x).contains(v)]
            s.push(x).contains(v) <==> s.contains(v) || v == x,
{
    assert forall|v: T| s.push(x).contains(v) <==> s.contains(v) || v == x by {
        if s.push(x).contains(v) {
            let i = choose|i: int| 0 <= i < s.push(x).len() && s.push(x)[i] == v;
            if i < s.len() {
                assert(s[i] == v);
            }
        }
        if s.contains(v) {
            let i = choose|i: int| 0 <= i < s.len() && s[i] == v;
            assert(s.push(x)[i] == v);
        }
        if v == x {
            assert(s.push(x)[s.len() as int] == v);
        }
    }
}

/// The distinct values of an ASN list, each kept once.
pub fn dedup_asns(v: &Vec<u32>) -> (r: Vec<u32>)
    ensures
        forall|x: u32| #![trigger r@.contains(x)] r@.contains(x) <==> v@.contains(x),
        forall|p: int, q: int| 0 <= p < q < r@.len() ==> r@[p] != r@[q],
{
    let mut r: Vec<u32> = Vec::new();
    let mut t: usize = 0;
    while t < v.len()
        invariant
            t <= v@.len(),
            forall|x: u32| #![trigger r@.contains(x)] r@.contains(x) <==> v@.subrange(0, t as int).contains(x),
            forall|p: int, q: int| 0 <= p < q < r@.len() ==> r@[p] != r@[q],
        decreases v@.len() - t,
    {
        let ghost before = r@;
        let x = v[t];
        let already = vec_contains_u32(&r, x);
        if !already {
            r.push(x);
        }
        proof {
            assert(v@.subrange(0, t + 1) =~= v@.subrange(0, t as int).push(x));
            lemma_push_contains(v@.subrange(0, t as int), x);
            if !already {
                lemma_push_contains(before, x);
                assert forall|p: int, q: int| 0 <= p < q < r@.len() implies r@[p] != r@[q] by {
                    if q == r@.len() - 1 {
                        assert(before.contains(before[p]));
                    }
                }
            }
        }
        t = t + 1;
    }
    proof {
        assert(v@.subrange(0, v@.len() as int) =~= v@);
    }
    r
}

/// Replacing one entry's ASN list leaves block membership and all other
/// blocks' origin sets unchanged.
proof fn lemma_insert_facts(
    orig: Seq<OriginEntry>,
    s: Seq<OriginEntry>,
    at: int,
    b: Cidr,
    pre: OriginMap,
    post: OriginMap,
)
    requires
        pre.wf(),
        pre.entries@ == orig,
        post.entries@ == s,
        post.family == pre.family,
        s.len() == orig.len(),
        0 <= at < orig.len(),
        orig[at].block == b,
        s[at].block == b,
        forall|t: int| 0 <= t < s.len() && t != at ==> #[trigger] s[t] == orig[t],
    ensures
        post.wf(),
        forall|x: Cidr|
            #![trigger post.has_block(x)]
            post.has_block(x) <==> pre.has_block(x) || x == b,
        post.idx_of(b) == at,
        pre.idx_of(b) == at,
        forall|x: Cidr, v: u32|
            #![trigger post.asns_of(x).contains(v)]
            x != b && pre.has_block(x) ==> (post.asns_of(x).contains(v) <==> pre.asns_of(
                x,
            ).contains(v)),
{
    assert forall|x: Cidr| post.has_block(x) <==> pre.has_block(x) || x == b by {
        if post.has_block(x) {
            let i = choose|i: int| 0 <= i < s.len() && (#[trigger] s[i]).block == x;
            if i != at {
                assert(orig[i].block == x);
                assert(pre.has_block(x));
            }
        }
        if pre.has_block(x) {
            let i = choose|i: int| 0 <= i < orig.len() && (#[trigger] orig[i]).block == x;
            if i != at {
                assert(s[i].block == x);
            }
            assert(post.has_block(x));
        }
        if x == b {
            assert(s[at].block == x);
            assert(post.has_block(x));
        }
    }
    assert(post.wf()) by {
        assert forall|i: int, j: int|
            0 <= i < j < s.len() implies (#[trigger] s[i]).block != (#[trigger] s[j]).block by {
            assert(orig[i].block == s[i].block && orig[j].block == s[j].block);
        }
        assert forall|i: int|
            0 <= i < s.len() implies (#[trigger] s[i]).block.wf() && s[i].block.family
            == post.family by {
            assert(orig[i].block == s[i].block);
        }
    }
    let wi = post.idx_of(b);
    assert(s[at].block == b);
    assert(post.has_block(b));
    assert(0 <= wi < s.len() && s[wi].block == b);
    if wi != at {
        assert(orig[wi].block == s[wi].block);
        assert(false);
    }
    let wp = pre.idx_of(b);
    assert(0 <= wp < orig.len() && orig[wp].block == b);
    if wp != at {
        assert(false);
    }
    assert forall|x: Cidr, v: u32|
        x != b && pre.has_block(x) implies (post.asns_of(x).contains(v) <==> pre.asns_of(
        x,
    ).contains(v)) by {
        let i = pre.idx_of(x);
        assert(0 <= i < orig.len() && orig[i].block == x);
        assert(i != at);
        assert(s[i].block == x);
        let i2 = post.idx_of(x);
        assert(0 <= i2 < s.len() && s[i2].block == x);
        if i2 != i {
            if i2 == at {
                assert(false);
            } else {
                assert(orig[i2].block == x);
                assert(false);
            }
        }
        assert(s[i] == orig[i]);
    }
}

/// Appending a fresh entry leaves the existing blocks' origin sets
/// unchanged.
proof fn lemma_append_facts(
    orig: Seq<OriginEntry>,
    s: Seq<OriginEntry>,
    b: Cidr,
    pre: OriginMap,
    post: OriginMap,
)
    requires
        pre.wf(),
        pre.entries@ == orig,
        post.entries@ == s,
        post.family == pre.family,
        s.len() == orig.len() + 1,
        forall|t: int| 0 <= t < orig.len() ==> #[trigger] s[t] == orig[t],
        s[s.len() - 1].block == b,
        s[s.len() - 1].block.wf(),
        s[s.len() - 1].block.family == pre.family,
        !pre.has_block(b),
    ensures
        post.wf(),
        forall|x: Cidr|
            #![trigger post.has_block(x)]
            post.has_block(x) <==> pre.has_block(x) || x == b,
        post.idx_of(b) == s.len() - 1,
        forall|x: Cidr, v: u32|
            #![trigger post.asns_of(x).contains(v)]
            x != b && pre.has_block(x) ==> (post.asns_of(x).contains(v) <==> pre.asns_of(
                x,
            ).contains(v)),
{
    let last = s.len() - 1;
    assert forall|x: Cidr| post.has_block(x) <==> pre.has_block(x) || x == b by {
        if post.has_block(x) {
            let i = choose|i: int| 0 <= i < s.len() && (#[trigger] s[i]).block == x;
            if i < last {
                assert(orig[i].block == x);
                assert(pre.has_block(x));
            }
        }
        if pre.has_block(x) {
            let i = choose|i: int| 0 <= i < orig.len() && (#[trigger] orig[i]).block == x;
            assert(s[i].block == x);
            assert(post.has_block(x));
        }
        if x == b {
            assert(s[last].block == x);
            assert(post.has_block(x));
        }
    }
    assert(post.wf()) by {
        assert forall|i: int, j: int|
            0 <= i < j < s.len() implies (#[trigger] s[i]).block != (#[trigger] s[j]).block by {
            if j < last {
                assert(orig[i].block == s[i].block && orig[j].block == s[j].block);
            } else {
                assert(j == last);
                assert(orig[i].block == s[i].block);
                if s[i].block == b {
                    assert(pre.has_block(b));
                    assert(false);
                }
            }
        }
        assert forall|i: int|
            0 <= i < s.len() implies (#[trigger] s[i]).block.wf() && s[i].block.family
            == post.family by {
            if i < last {
                assert(orig[i].block == s[i].block);
            }
        }
    }
    let wi = post.idx_of(b);
    assert(s[last].block == b);
    assert(post.has_block(b));
    assert(0 <= wi < s.len() && s[wi].block == b);
    if wi != last {
        assert(orig[wi].block == b);
        assert(pre.has_block(b));
        assert(false);
    }
    assert forall|x: Cidr, v: u32|
        x != b && pre.has_block(x) implies (post.asns_of(x).contains(v) <==> pre.asns_of(
        x,
    ).contains(v)) by {
        let i = pre.idx_of(x);
        assert(0 <= i < orig.len() && orig[i].block == x);
        assert(s[i].block == x);
        let i2 = post.idx_of(x);
        assert(0 <= i2 < s.len() && s[i2].block == x);
        if i2 != i {
            if i2 == last {
                assert(false);
            } else {
                assert(orig[i2].block == x);
                assert(false);
            }
        }
        assert(s[i] == orig[i]);
    }
}

} // verus!
