//! The CIDR range container: a normalized set of address blocks of one
//! family, kept sorted, canonical and non-overlapping.
//!
//! Every operation is exact at the level of the covered address set:
//! adding, removing, uniting and simplifying each state precisely which
//! addresses the container covers afterwards.

use vstd::prelude::*;
use vstd::arithmetic::power2::{pow2, lemma_pow2_pos};
use crate::block::{Cidr, Family, lemma_disjoint_or_nested, lemma_covers_len};
use crate::convert::{seq_covers, sibling_pair, cidrs_of_span};

verus! {

/// Well-formed block list of a container: each block canonical and of the
/// container's family, and the list sorted with pairwise-disjoint ranges.
pub open spec fn blocks_wf(family: Family, s: Seq<Cidr>) -> bool {
    &&& forall|i: int| 0 <= i < s.len() ==> (#[trigger] s[i]).wf() && s[i].family == family
    &&& forall|i: int, j: int|
        0 <= i < j < s.len() ==> (#[trigger] s[i]).end() <= (#[trigger] s[j]).first()
}

/// No two adjacent blocks are the two halves of one parent: nothing for
/// `simplify` to merge.
pub open spec fn sibling_free(s: Seq<Cidr>) -> bool {
    forall|i: int| 0 <= i < s.len() - 1 ==> !sibling_pair(#[trigger] s[i], s[i + 1])
}

/// A normalized set of CIDR blocks of one address family.
pub struct CidrUnion {
    pub family: Family,
    pub blocks: Vec<Cidr>,
}

impl CidrUnion {
    /// Structural invariant of the container.
    pub open spec fn wf(self) -> bool {
        blocks_wf(self.family, self.blocks@)
    }

    /// The container covers address `a`.
    pub open spec fn covers_addr(self, a: int) -> bool {
        seq_covers(self.blocks@, a)
    }

    /// Fully simplified: well-formed with no mergeable sibling pair left.
    pub open spec fn is_normal(self) -> bool {
        self.wf() && sibling_free(self.blocks@)
    }

    /// The empty container.
    pub fn new(family: Family) -> (r: CidrUnion)
        ensures
            r.wf(),
            r.is_normal(),
            r.family == family,
            r.blocks@.len() == 0,
            forall|a: int| !r.covers_addr(a),
    {
        CidrUnion { family, blocks: Vec::new() }
    }

    /// Number of blocks currently held.
    pub fn block_count(&self) -> (n: usize)
        ensures
            n == self.blocks@.len(),
    {
        self.blocks.len()
    }

    /// The `i`-th block in sorted order (ascending network address).
    pub fn block_at(&self, i: usize) -> (b: Cidr)
        requires
            i < self.blocks@.len(),
        ensures
            b == self.blocks@[i as int],
    {
        self.blocks[i]
    }

    /// The blocks in sorted order, for iteration and emission.
    pub fn to_blocks(&self) -> (v: Vec<Cidr>)
        ensures
            v@ == self.blocks@,
    {
        let mut v: Vec<Cidr> = Vec::new();
        let mut i: usize = 0;
        while i < self.blocks.len()
            invariant
                i <= self.blocks@.len(),
                v@ == self.blocks@.subrange(0, i as int),
            decreases self.blocks@.len() - i,
        {
            v.push(self.blocks[i]);
            i = i + 1;
        }
        proof {
            assert(v@ =~= self.blocks@);
        }
        v
    }

    /// An independent copy of the container.
    pub fn duplicate(&self) -> (r: CidrUnion)
        ensures
            r.family == self.family,
            r.blocks@ == self.blocks@,
    {
        CidrUnion { family: self.family, blocks: self.to_blocks() }
    }


    /// The minimal normal-form container of one half-open interval: the
    /// interval-to-CIDR conversion yields blocks whose union covers the
    /// interval exactly, and re-simplifying them changes nothing.
    pub fn from_interval(family: Family, start: u128, end: u128) -> (r: CidrUnion)
        requires
            start < pow2(family.width()),
            end < pow2(family.width()),
        ensures
            r.family == family,
            r.is_normal(),
            forall|a: int| #![trigger r.covers_addr(a)] r.covers_addr(a) <==> start <= a < end,
    {
        let blocks = crate::convert::interval_to_cidrs(family, start, end);
        let r = CidrUnion { family, blocks };
        proof {
            assert(r.wf());
            assert(sibling_free(r.blocks@));
        }
        r
    }

    /// Add a block: afterwards the container covers exactly what it did
    /// before plus the block's range. Overlapping entries collapse into
    /// the larger block; no merging of siblings happens here.
    #[verifier::loop_isolation(false)]
    #[verifier::rlimit(100)]
    #[verifier::spinoff_prover]
    pub fn add_block(&mut self, b: Cidr)
        requires
            old(self).wf(),
            b.wf(),
            b.family == old(self).family,
        ensures
            final(self).wf(),
            final(self).family == old(self).family,
            forall|a: int|
                #![trigger final(self).covers_addr(a)]
                #![trigger old(self).covers_addr(a)]
                final(self).covers_addr(a) <==> old(self).covers_addr(a) || b.contains_addr(a),
    {
        let ghost orig = self.blocks@;
        let n = self.blocks.len();
        let b_first = b.addr;
        let b_last = b.last_addr();
        proof {
            lemma_pow2_pos((b.width() - b.len) as nat);
        }
        let mut out: Vec<Cidr> = Vec::new();
        let mut i: usize = 0;
        // Blocks entirely before the new one.
        while i < n && self.blocks[i].last_addr() < b_first
            invariant
                i <= n,
                out@ == orig.subrange(0, i as int),
                forall|t: int| 0 <= t < i ==> (#[trigger] orig[t]).end() <= b.first(),
            decreases n - i,
        {
            proof {
                let bt = orig[i as int];
                lemma_pow2_pos((bt.width() - bt.len) as nat);
                assert(orig.subrange(0, i + 1) =~= orig.subrange(0, i as int).push(orig[i as int]));
            }
            out.push(self.blocks[i]);
            i = i + 1;
        }
        let ghost i0 = i as int;
        proof {
            if i0 < n {
                let bt = orig[i0];
                lemma_pow2_pos((bt.width() - bt.len) as nat);
            }
        }
        if i < n && self.blocks[i].addr <= b_first && b_last <= self.blocks[i].last_addr() {
            // The new block lies inside an existing one: nothing changes.
            proof {
                let host = orig[i0];
                assert(host.covers_block(b));
                assert forall|a: int|
                    self.covers_addr(a) <==> (old(self).covers_addr(a) || b.contains_addr(
                        a,
                    )) by {
                    if b.contains_addr(a) {
                        assert(host.contains_addr(a));
                        assert(seq_covers(orig, a));
                    }
                }
            }
            return ;
        }
        // Blocks swallowed by the new one.
        while i < n && self.blocks[i].addr <= b_last
            invariant
                i0 <= i as int <= n,
                forall|t: int| i0 <= t < i as int ==> b.covers_block(#[trigger] orig[t]),
            decreases n - i,
        {
            proof {
                let t = i as int;
                let bt = orig[t];
                lemma_pow2_pos((bt.width() - bt.len) as nat);
                // bt overlaps b, so one is nested in the other; b cannot be
                // inside bt, hence bt is swallowed.
                assert(bt.end() > b.first()) by {
                    if t > i0 {
                        assert(orig[i0].end() <= orig[t].first());
                    }
                }
                let a = if b.first() >= bt.first() {
                    b.first()
                } else {
                    bt.first()
                };
                assert(bt.contains_addr(a) && b.contains_addr(a));
                lemma_disjoint_or_nested(bt, b, a);
                if bt.covers_block(b) {
                    if t > i0 {
                        assert(orig[i0].end() <= bt.first());
                    }
                    assert(false);
                }
            }
            i = i + 1;
        }
        let ghost i1 = i as int;
        out.push(b);
        proof {
            assert(out@ =~= orig.subrange(0, i0).push(b) + orig.subrange(i1, i1));
            if i1 < n {
                let bt = orig[i1];
                lemma_pow2_pos((bt.width() - bt.len) as nat);
            }
        }
        // Blocks entirely after the new one.
        while i < n
            invariant
                i1 <= i as int <= n,
                out@ == orig.subrange(0, i0).push(b) + orig.subrange(i1, i as int),
            decreases n - i,
        {
            proof {
                let t = i as int;
                let bt = orig[t];
                lemma_pow2_pos((bt.width() - bt.len) as nat);
                assert(bt.first() >= b.end()) by {
                    assert(orig[i1].first() > b.end() - 1);
                    if t > i1 {
                        assert(orig[i1].end() <= orig[t].first());
                        let bi = orig[i1];
                        lemma_pow2_pos((bi.width() - bi.len) as nat);
                    }
                }
                assert((out@ + seq![orig[t]]) =~= orig.subrange(0, i0).push(b) + orig.subrange(
                    i1,
                    t + 1,
                ));
            }
            out.push(self.blocks[i]);
            i = i + 1;
        }
        proof {
            assert forall|t: int| i1 <= t < n implies (#[trigger] orig[t]).first() >= b.end() by {
                let bt = orig[t];
                lemma_pow2_pos((bt.width() - bt.len) as nat);
                assert(orig[i1].first() > b.end() - 1);
                if t > i1 {
                    assert(orig[i1].end() <= orig[t].first());
                    let bi = orig[i1];
                    lemma_pow2_pos((bi.width() - bi.len) as nat);
                }
            }
        }
        self.blocks = out;
        proof {
            let s = self.blocks@;
            let clen = i0 + 1 + (n - i1);
            assert(s.len() == clen);
            assert(forall|t: int| 0 <= t < i0 ==> #[trigger] s[t] == orig[t]);
            assert(s[i0] == b);
            assert(forall|t: int| i0 + 1 <= t < clen ==> #[trigger] s[t] == orig[i1 + (t - i0 - 1)]);
            assert forall|p: int, q: int| 0 <= p < q < s.len() implies (#[trigger] s[p]).end() <= (
            #[trigger] s[q]).first() by {
                if p < i0 && q == i0 {
                    assert(orig[p].end() <= b.first());
                } else if p < i0 && q > i0 {
                    assert(orig[p].end() <= b.first());
                    assert(b.end() <= orig[i1 + (q - i0 - 1)].first());
                } else if p == i0 {
                    assert(b.end() <= orig[i1 + (q - i0 - 1)].first());
                } else if p > i0 {
                    assert(orig[i1 + (p - i0 - 1)].end() <= orig[i1 + (q - i0 - 1)].first());
                }
            }
            assert(self.wf());
            assert forall|a: int|
                self.covers_addr(a) <==> (seq_covers(orig, a) || b.contains_addr(a)) by {
                if self.covers_addr(a) {
                    let t = choose|t: int| 0 <= t < s.len() && (#[trigger] s[t]).contains_addr(a);
                    if t < i0 {
                        assert(orig[t].contains_addr(a));
                        assert(seq_covers(orig, a));
                    } else if t > i0 {
                        assert(orig[i1 + (t - i0 - 1)].contains_addr(a));
                        assert(seq_covers(orig, a));
                    }
                }
                if seq_covers(orig, a) {
                    let t = choose|t: int|
                        0 <= t < orig.len() && (#[trigger] orig[t]).contains_addr(a);
                    if t < i0 {
                        assert(s[t].contains_addr(a));
                    } else if t < i1 {
                        assert(b.covers_block(orig[t]));
                        assert(s[i0].contains_addr(a));
                    } else {
                        assert(s[i0 + 1 + (t - i1)].contains_addr(a));
                    }
                }
                if b.contains_addr(a) {
                    assert(s[i0].contains_addr(a));
                }
            }
        }
    }

    /// Remove a block's range: afterwards the container covers exactly
    /// what it did before minus the block's range. A surviving fragment of
    /// a split entry is re-expressed as canonical blocks.
    #[verifier::loop_isolation(false)]
    pub fn remove_block(&mut self, b: Cidr)
        requires
            old(self).wf(),
            b.wf(),
            b.family == old(self).family,
        ensures
            final(self).wf(),
            final(self).family == old(self).family,
            forall|a: int|
                #![trigger final(self).covers_addr(a)]
                #![trigger old(self).covers_addr(a)]
                final(self).covers_addr(a) <==> old(self).covers_addr(a) && !b.contains_addr(a),
    {
        let ghost orig = self.blocks@;
        let ghost fam = self.family;
        let n = self.blocks.len();
        let mut out: Vec<Cidr> = Vec::new();
        let mut i: usize = 0;
        while i < n
            invariant
                i <= n,
                blocks_wf(fam, out@),
                forall|a: int|
                    #![trigger seq_covers(out@, a)]
                    seq_covers(out@, a) <==> (seq_covers(orig.subrange(0, i as int), a)
                        && !b.contains_addr(a)),
                i < n ==> forall|k: int|
                    0 <= k < out@.len() ==> (#[trigger] out@[k]).end() <= orig[i as int].first(),
            decreases n - i,
        {
            let x = self.blocks[i];
            let ghost ti = i as int;
            let ghost out0 = out@;
            proof {
                lemma_pow2_pos((x.width() - x.len) as nat);
            }
            keep_outside(self.family, &mut out, x, b);
            proof {
                assert(orig.subrange(0, ti + 1) =~= orig.subrange(0, ti).push(x));
                lemma_covers_push(orig.subrange(0, ti), x);
                assert forall|a: int|
                    seq_covers(out@, a) <==> (seq_covers(orig.subrange(0, ti + 1), a)
                        && !b.contains_addr(a)) by {
                    assert(seq_covers(out@, a) <==> seq_covers(out0, a) || (x.contains_addr(a)
                        && !b.contains_addr(a)));
                }
                if i + 1 < n {
                    assert forall|k: int|
                        0 <= k < out@.len() implies (#[trigger] out@[k]).end() <= orig[ti
                        + 1].first() by {
                        assert(out@[k].end() <= x.end());
                        assert(orig[ti].end() <= orig[ti + 1].first());
                    }
                }
            }
            i = i + 1;
        }
        self.blocks = out;
        proof {
            assert(orig.subrange(0, n as int) =~= orig);
        }
    }

    /// Union: afterwards the container covers exactly the union of both
    /// covered sets. The other container is not changed.
    #[verifier::loop_isolation(false)]
    pub fn union_with(&mut self, other: &CidrUnion)
        requires
            old(self).wf(),
            other.wf(),
            other.family == old(self).family,
        ensures
            final(self).wf(),
            final(self).family == old(self).family,
            forall|a: int|
                #![trigger final(self).covers_addr(a)]
                #![trigger old(self).covers_addr(a)]
                final(self).covers_addr(a) <==> old(self).covers_addr(a) || other.covers_addr(a),
    {
        let n = other.blocks.len();
        let mut i: usize = 0;
        while i < n
            invariant
                i <= n,
                self.wf(),
                self.family == old(self).family,
                forall|a: int|
                    #![trigger self.covers_addr(a)]
                    self.covers_addr(a) <==> old(self).covers_addr(a) || seq_covers(
                        other.blocks@.subrange(0, i as int),
                        a,
                    ),
            decreases n - i,
        {
            let ghost pre = other.blocks@.subrange(0, i as int);
            let ghost mid = *self;
            self.add_block(other.blocks[i]);
            proof {
                let blk = other.blocks@[i as int];
                lemma_covers_push(pre, blk);
                assert(other.blocks@.subrange(0, i + 1) =~= pre.push(blk));
                assert forall|a: int|
                    #![trigger self.covers_addr(a)]
                    self.covers_addr(a) <==> old(self).covers_addr(a) || seq_covers(
                        other.blocks@.subrange(0, i + 1),
                        a,
                    ) by {
                    assert(self.covers_addr(a) <==> mid.covers_addr(a) || blk.contains_addr(a));
                    assert(seq_covers(pre.push(blk), a) <==> seq_covers(pre, a)
                        || blk.contains_addr(a));
                }
            }
            i = i + 1;
        }
        proof {
            assert(other.blocks@.subrange(0, n as int) =~= other.blocks@);
        }
    }

    /// Add every block of a list, typically one produced by the
    /// interval-to-CIDR converter.
    #[verifier::loop_isolation(false)]
    pub fn add_cidrs(&mut self, v: &Vec<Cidr>)
        requires
            old(self).wf(),
            forall|i: int|
                0 <= i < v@.len() ==> (#[trigger] v@[i]).wf() && v@[i].family == old(self).family,
        ensures
            final(self).wf(),
            final(self).family == old(self).family,
            forall|a: int|
                #![trigger final(self).covers_addr(a)]
                #![trigger old(self).covers_addr(a)]
                final(self).covers_addr(a) <==> old(self).covers_addr(a) || seq_covers(v@, a),
    {
        let n = v.len();
        let mut i: usize = 0;
        while i < n
            invariant
                i <= n,
                self.wf(),
                self.family == old(self).family,
                forall|a: int|
                    #![trigger self.covers_addr(a)]
                    self.covers_addr(a) <==> old(self).covers_addr(a) || seq_covers(
                        v@.subrange(0, i as int),
                        a,
                    ),
            decreases n - i,
        {
            let ghost pre = v@.subrange(0, i as int);
            let ghost mid = *self;
            self.add_block(v[i]);
            proof {
                let blk = v@[i as int];
                lemma_covers_push(pre, blk);
                assert(v@.subrange(0, i + 1) =~= pre.push(blk));
                assert forall|a: int|
                    #![trigger self.covers_addr(a)]
                    self.covers_addr(a) <==> old(self).covers_addr(a) || seq_covers(
                        v@.subrange(0, i + 1),
                        a,
                    ) by {
                    assert(self.covers_addr(a) <==> mid.covers_addr(a) || blk.contains_addr(a));
                    assert(seq_covers(pre.push(blk), a) <==> seq_covers(pre, a)
                        || blk.contains_addr(a));
                }
            }
            i = i + 1;
        }
        proof {
            assert(v@.subrange(0, n as int) =~= v@);
        }
    }

    /// Find a mergeable sibling pair, if any.
    fn find_mergeable(&self) -> (r: Option<usize>)
        requires
            self.wf(),
        ensures
            match r {
                Some(j) => j + 1 < self.blocks@.len() && sibling_pair(
                    self.blocks@[j as int],
                    self.blocks@[j as int + 1],
                ),
                None => sibling_free(self.blocks@),
            },
    {
        let n = self.blocks.len();
        if n == 0 {
            return None;
        }
        let mut j: usize = 0;
        while j < n - 1
            invariant
                j <= n - 1,
                n == self.blocks@.len(),
                n >= 1,
                self.wf(),
                forall|t: int|
                    0 <= t < j ==> !sibling_pair(#[trigger] self.blocks@[t], self.blocks@[t + 1]),
            decreases n - j,
        {
            let lo = self.blocks[j];
            let hi = self.blocks[j + 1];
            proof {
                lemma_pow2_pos((lo.width() - lo.len) as nat);
            }
            if lo.len == hi.len && lo.len >= 1 {
                let w = lo.family.width_bits();
                let sz = if lo.len == w {
                    1
                } else {
                    crate::arith::pow2_u128(w - lo.len)
                };
                proof {
                    vstd::arithmetic::power2::lemma2_to64();
                    assert(sz == lo.bsize());
                }
                let aligned = (lo.addr / sz) % 2 == 0;
                proof {
                    crate::convert::lemma_even_quotient(lo.first(), lo.bsize());
                }
                if aligned && sz <= u128::MAX - lo.addr && lo.addr + sz == hi.addr {
                    proof {
                        assert(sibling_pair(lo, hi));
                    }
                    return Some(j);
                }
                proof {
                    if sibling_pair(lo, hi) {
                        assert(hi.first() == lo.first() + lo.bsize());
                        assert(lo.first() % (2 * lo.bsize()) == 0);
                        assert(false);
                    }
                }
            }
            j = j + 1;
        }
        None
    }

    /// Merge the sibling pair at `j` into its parent block.
    fn merge_at(&mut self, j: usize)
        requires
            old(self).wf(),
            j + 1 < old(self).blocks@.len(),
            sibling_pair(old(self).blocks@[j as int], old(self).blocks@[j as int + 1]),
        ensures
            final(self).wf(),
            final(self).family == old(self).family,
            final(self).blocks@.len() == old(self).blocks@.len() - 1,
            forall|a: int|
                #![trigger final(self).covers_addr(a)]
                #![trigger old(self).covers_addr(a)]
                final(self).covers_addr(a) <==> old(self).covers_addr(a),
    {
        let ghost orig = self.blocks@;
        let ghost jj = j as int;
        let n = self.blocks.len();
        let lo = self.blocks[j];
        let ghost hi = self.blocks@[jj + 1];
        let parent = Cidr { family: lo.family, addr: lo.addr, len: lo.len - 1 };
        proof {
            lemma_pow2_pos((lo.width() - lo.len) as nat);
            vstd::arithmetic::power2::lemma_pow2_unfold((lo.width() - lo.len + 1) as nat);
            assert(parent.bsize() == 2 * lo.bsize());
            assert(parent.end() == hi.end());
            assert(parent.wf());
        }
        self.blocks.remove(j + 1);
        self.blocks.remove(j);
        self.blocks.insert(j, parent);
        proof {
            let s = self.blocks@;
            assert(s.len() == orig.len() - 1);
            assert(forall|t: int| 0 <= t < jj ==> #[trigger] s[t] == orig[t]);
            assert(s[jj] == parent);
            assert(forall|t: int| jj < t < s.len() ==> #[trigger] s[t] == orig[t + 1]);
            assert forall|p: int, q: int| 0 <= p < q < s.len() implies (#[trigger] s[p]).end() <= (
            #[trigger] s[q]).first() by {
                if p < jj && q == jj {
                    assert(orig[p].end() <= orig[jj].first());
                } else if p < jj && q > jj {
                    assert(orig[p].end() <= orig[q + 1].first());
                    assert(orig[q + 1] == s[q]);
                } else if p == jj {
                    assert(orig[jj + 1].end() <= orig[q + 1].first());
                }
            }
            assert(self.wf());
            assert forall|a: int| self.covers_addr(a) <==> seq_covers(orig, a) by {
                if self.covers_addr(a) {
                    let t = choose|t: int| 0 <= t < s.len() && (#[trigger] s[t]).contains_addr(a);
                    if t < jj {
                        assert(orig[t].contains_addr(a));
                    } else if t == jj {
                        if a < hi.first() {
                            assert(orig[jj].contains_addr(a));
                        } else {
                            assert(orig[jj + 1].contains_addr(a));
                        }
                    } else {
                        assert(orig[t + 1].contains_addr(a));
                    }
                    assert(seq_covers(orig, a));
                }
                if seq_covers(orig, a) {
                    let t = choose|t: int|
                        0 <= t < orig.len() && (#[trigger] orig[t]).contains_addr(a);
                    if t < jj {
                        assert(s[t].contains_addr(a));
                    } else if t == jj || t == jj + 1 {
                        assert(s[jj].contains_addr(a));
                    } else {
                        assert(s[t - 1].contains_addr(a));
                    }
                    assert(self.covers_addr(a));
                }
            }
        }
    }

    /// Merge every pair of sibling blocks into their common parent,
    /// recursively, until no mergeable pair is left. The covered address
    /// set does not change, and a container already in normal form comes
    /// back unchanged.
    pub fn simplify(&mut self)
        requires
            old(self).wf(),
        ensures
            final(self).wf(),
            final(self).family == old(self).family,
            final(self).is_normal(),
            forall|a: int|
                #![trigger final(self).covers_addr(a)]
                #![trigger old(self).covers_addr(a)]
                final(self).covers_addr(a) <==> old(self).covers_addr(a),
            old(self).is_normal() ==> final(self).blocks@ == old(self).blocks@,
    {
        loop
            invariant
                old(self).wf(),
                self.wf(),
                self.family == old(self).family,
                forall|a: int|
                    #![trigger self.covers_addr(a)]
                    self.covers_addr(a) <==> old(self).covers_addr(a),
                old(self).is_normal() ==> self.blocks@ == old(self).blocks@,
            ensures
                self.is_normal(),
                self.wf(),
                self.family == old(self).family,
                forall|a: int|
                    #![trigger self.covers_addr(a)]
                    self.covers_addr(a) <==> old(self).covers_addr(a),
                old(self).is_normal() ==> self.blocks@ == old(self).blocks@,
            decreases self.blocks@.len(),
        {
            let found = self.find_mergeable();
            match found {
                None => {
                    break ;
                },
                Some(j) => {
                    proof {
                        if old(self).is_normal() {
                            assert(!sibling_pair(self.blocks@[j as int], self.blocks@[j as int + 1]));
                            assert(false);
                        }
                    }
                    self.merge_at(j);
                },
            }
        }
    }

    /// The entry whose range encloses the query block (a supernet or an
    /// exact match), if one exists; it is unique and no more specific than
    /// the query.
    pub fn covers(&self, q: Cidr) -> (r: Option<Cidr>)
        requires
            self.wf(),
            q.wf(),
            q.family == self.family,
        ensures
            match r {
                Some(c) => {
                    &&& self.blocks@.contains(c)
                    &&& c.covers_block(q)
                    &&& c.len <= q.len
                    &&& forall|t: int|
                        0 <= t < self.blocks@.len() && (#[trigger] self.blocks@[t]).covers_block(q)
                            ==> self.blocks@[t] == c
                },
                None => forall|t: int|
                    0 <= t < self.blocks@.len() ==> !(#[trigger] self.blocks@[t]).covers_block(q),
            },
    {
        let n = self.blocks.len();
        let q_last = q.last_addr();
        proof {
            lemma_pow2_pos((q.width() - q.len) as nat);
        }
        let mut i: usize = 0;
        while i < n
            invariant
                i <= n,
                self.wf(),
                q.wf(),
                q.family == self.family,
                q_last == q.end() - 1,
                n == self.blocks@.len(),
                forall|t: int|
                    0 <= t < i ==> !(#[trigger] self.blocks@[t]).covers_block(q),
            decreases n - i,
        {
            let c = self.blocks[i];
            if c.addr <= q.addr && q_last <= c.last_addr() {
                proof {
                    lemma_pow2_pos((c.width() - c.len) as nat);
                    lemma_pow2_pos((q.width() - q.len) as nat);
                    assert(c.covers_block(q));
                    lemma_covers_len(c, q);
                    assert forall|t: int|
                        0 <= t < self.blocks@.len() && (#[trigger] self.blocks@[t]).covers_block(q)
                            implies self.blocks@[t] == c by {
                        let d = self.blocks@[t];
                        if t < i as int {
                            assert(false);
                        } else if t > i as int {
                            assert(c.end() <= d.first());
                            assert(d.contains_addr(q.first()) && c.contains_addr(q.first()));
                            assert(false);
                        }
                    }
                    assert(self.blocks@.contains(c)) by {
                        assert(self.blocks@[i as int] == c);
                    }
                }
                return Some(c);
            }
            proof {
                if self.blocks@[i as int].covers_block(q) {
                    lemma_pow2_pos((q.width() - q.len) as nat);
                    assert(false);
                }
            }
            i = i + 1;
        }
        None
    }
}

/// One step of removal: append to `out` whatever part of `x` survives
/// outside `b`, re-expressed as canonical blocks.
#[verifier::loop_isolation(false)]
#[verifier::rlimit(100)]
#[verifier::spinoff_prover]
fn keep_outside(family: Family, out: &mut Vec<Cidr>, x: Cidr, b: Cidr)
    requires
        blocks_wf(family, old(out)@),
        x.wf(),
        x.family == family,
        b.wf(),
        b.family == family,
        forall|k: int| 0 <= k < old(out)@.len() ==> (#[trigger] old(out)@[k]).end() <= x.first(),
    ensures
        blocks_wf(family, final(out)@),
        forall|k: int| 0 <= k < final(out)@.len() ==> (#[trigger] final(out)@[k]).end() <= x.end(),
        forall|a: int|
            #![trigger seq_covers(final(out)@, a)]
            #![trigger seq_covers(old(out)@, a)]
            seq_covers(final(out)@, a) <==> seq_covers(old(out)@, a) || (x.contains_addr(a)
                && !b.contains_addr(a)),
{
    proof {
        lemma_pow2_pos((x.width() - x.len) as nat);
        lemma_pow2_pos((b.width() - b.len) as nat);
    }
    let x_last = x.last_addr();
    let b_first = b.addr;
    let b_last = b.last_addr();
    if x_last < b_first || b_last < x.addr {
        // Disjoint from the removed range: kept as is.
        let ghost out0 = out@;
        out.push(x);
        proof {
            lemma_covers_push(out0, x);
            assert forall|p: int, q: int|
                0 <= p < q < out@.len() implies (#[trigger] out@[p]).end() <= (
            #[trigger] out@[q]).first() by {
                if q == out0.len() {
                    assert(out0[p].end() <= x.first());
                }
            }
        }
    } else if b_first <= x.addr && x_last <= b_last {
        // Swallowed by the removed range: dropped.
        proof {
            assert(b.covers_block(x));
            assert forall|a: int|
                seq_covers(out@, a) <==> seq_covers(old(out)@, a) || (x.contains_addr(a)
                    && !b.contains_addr(a)) by {
                if x.contains_addr(a) {
                    assert(b.contains_addr(a));
                }
            }
        }
    } else {
        // The entry strictly contains the removed range: keep the
        // fragments on either side.
        proof {
            let a0 = if b.first() >= x.first() {
                b.first()
            } else {
                x.first()
            };
            assert(x.contains_addr(a0) && b.contains_addr(a0));
            lemma_disjoint_or_nested(x, b, a0);
            assert(x.covers_block(b));
        }
        if x.addr < b_first {
            let mut frag = cidrs_of_span(family, x.addr, b_first - 1);
            let ghost fragv = frag@;
            let ghost outb = out@;
            out.append(&mut frag);
            proof {
                lemma_covers_cat(outb, fragv);
                assert forall|p: int, q: int|
                    0 <= p < q < out@.len() implies (#[trigger] out@[p]).end() <= (
                #[trigger] out@[q]).first() by {
                    if p < outb.len() && q >= outb.len() {
                        assert(outb[p].end() <= x.first());
                        assert(fragv[q - outb.len()].first() >= x.first());
                    } else if p >= outb.len() {
                        assert(fragv[p - outb.len()].end() <= fragv[q - outb.len()].first());
                    }
                }
                assert(blocks_wf(family, out@));
            }
        }
        if b_last < x_last {
            let mut frag2 = cidrs_of_span(family, b_last + 1, x_last);
            let ghost frag2v = frag2@;
            let ghost outb2 = out@;
            out.append(&mut frag2);
            proof {
                lemma_covers_cat(outb2, frag2v);
                assert forall|p: int, q: int|
                    0 <= p < q < out@.len() implies (#[trigger] out@[p]).end() <= (
                #[trigger] out@[q]).first() by {
                    if p < outb2.len() && q >= outb2.len() {
                        assert(outb2[p].end() <= b.end());
                        assert(frag2v[q - outb2.len()].first() >= b.end());
                    } else if p >= outb2.len() {
                        assert(frag2v[p - outb2.len()].end() <= frag2v[q - outb2.len()].first());
                    }
                }
                assert(blocks_wf(family, out@));
            }
        }
        proof {
            assert forall|a: int|
                seq_covers(out@, a) <==> seq_covers(old(out)@, a) || (x.contains_addr(a)
                    && !b.contains_addr(a)) by {
                if seq_covers(out@, a) && !seq_covers(old(out)@, a) {
                    assert(x.contains_addr(a) && !b.contains_addr(a));
                }
                if x.contains_addr(a) && !b.contains_addr(a) {
                    if a < b.first() {
                        assert(seq_covers(out@, a));
                    } else {
                        assert(a > b.end() - 1);
                        assert(seq_covers(out@, a));
                    }
                }
            }
        }
    }
}

/// Covering a pushed list: the pushed block's range joins the covered set.
pub proof fn lemma_covers_push(s: Seq<Cidr>, x: Cidr)
    ensures
        forall|a: int|
            #![trigger seq_covers(s.push(x), a)]
            #![trigger seq_covers(s, a)]
            seq_covers(s.push(x), a) <==> seq_covers(s, a) || x.contains_addr(a),
{
    assert forall|a: int|
        seq_covers(s.push(x), a) <==> seq_covers(s, a) || x.contains_addr(a) by {
        let sx = s.push(x);
        if seq_covers(sx, a) {
            let i = choose|i: int| 0 <= i < sx.len() && (#[trigger] sx[i]).contains_addr(a);
            if i < s.len() {
                assert(s[i].contains_addr(a));
                assert(seq_covers(s, a));
            } else {
                assert(x.contains_addr(a));
            }
        }
        if seq_covers(s, a) {
            let i = choose|i: int| 0 <= i < s.len() && (#[trigger] s[i]).contains_addr(a);
            assert(sx[i].contains_addr(a));
            assert(seq_covers(sx, a));
        }
        if x.contains_addr(a) {
            assert(sx[s.len() as int].contains_addr(a));
            assert(seq_covers(sx, a));
        }
    }
}

/// Covering a concatenation: the union of both covered sets.
pub proof fn lemma_covers_cat(s1: Seq<Cidr>, s2: Seq<Cidr>)
    ensures
        forall|a: int|
            #![trigger seq_covers(s1 + s2, a)]
            #![trigger seq_covers(s1, a)]
            #![trigger seq_covers(s2, a)]
            seq_covers(s1 + s2, a) <==> seq_covers(s1, a) || seq_covers(s2, a),
{
    assert forall|a: int|
        seq_covers(s1 + s2, a) <==> seq_covers(s1, a) || seq_covers(s2, a) by {
        let s = s1 + s2;
        if seq_covers(s, a) {
            let i = choose|i: int| 0 <= i < s.len() && (#[trigger] s[i]).contains_addr(a);
            if i < s1.len() {
                assert(s1[i].contains_addr(a));
                assert(seq_covers(s1, a));
            } else {
                assert(s2[i - s1.len()].contains_addr(a));
                assert(seq_covers(s2, a));
            }
        }
        if seq_covers(s1, a) {
            let i = choose|i: int| 0 <= i < s1.len() && (#[trigger] s1[i]).contains_addr(a);
            assert(s[i].contains_addr(a));
            assert(seq_covers(s, a));
        }
        if seq_covers(s2, a) {
            let i = choose|i: int| 0 <= i < s2.len() && (#[trigger] s2[i]).contains_addr(a);
            assert(s[s1.len() + i].contains_addr(a));
            assert(seq_covers(s, a));
        }
    }
}

/// Nested canonical blocks of equal size are the same block.
pub proof fn lemma_nested_same_size_eq(inner: Cidr, outer: Cidr)
    requires
        inner.wf(),
        outer.wf(),
        outer.covers_block(inner),
        inner.bsize() == outer.bsize(),
    ensures
        inner == outer,
{
    lemma_pow2_pos((inner.width() - inner.len) as nat);
    if inner.len != outer.len {
        if inner.len < outer.len {
            vstd::arithmetic::power2::lemma_pow2_strictly_increases(
                (outer.width() - outer.len) as nat,
                (inner.width() - inner.len) as nat,
            );
        } else {
            vstd::arithmetic::power2::lemma_pow2_strictly_increases(
                (inner.width() - inner.len) as nat,
                (outer.width() - outer.len) as nat,
            );
        }
    }
    assert(inner.addr == outer.addr);
}

/// In a normal block list, a canonical block whose every address is
/// covered is enclosed by a single entry: the two halves of a covered
/// block cannot both be present, or they would be a mergeable pair.
pub proof fn lemma_normal_cover_block(family: Family, s: Seq<Cidr>, c: Cidr)
    requires
        blocks_wf(family, s),
        sibling_free(s),
        c.wf(),
        c.family == family,
        forall|a: int| c.contains_addr(a) ==> seq_covers(s, a),
    ensures
        exists|i: int| 0 <= i < s.len() && (#[trigger] s[i]).covers_block(c),
    decreases c.width() - c.len,
{
    lemma_pow2_pos((c.width() - c.len) as nat);
    let a0 = c.first();
    assert(c.contains_addr(a0));
    assert(seq_covers(s, a0));
    let i0 = choose|i: int| 0 <= i < s.len() && (#[trigger] s[i]).contains_addr(a0);
    let b = s[i0];
    lemma_pow2_pos((b.width() - b.len) as nat);
    lemma_disjoint_or_nested(b, c, a0);
    if b.covers_block(c) {
        assert(s[i0].covers_block(c));
    } else {
        // b lies strictly inside c, so c splits into two covered halves.
        assert(c.covers_block(b));
        lemma_covers_len(c, b);
        if c.len as nat == c.width() {
            // a single-address block: b can only be c itself
            assert(b.bsize() >= 1);
            assert(b.covers_block(c));
            assert(false);
        }
        let half = Cidr { family, addr: c.addr, len: (c.len + 1) as u8 };
        vstd::arithmetic::power2::lemma_pow2_unfold((c.width() - c.len) as nat);
        lemma_pow2_pos((half.width() - half.len) as nat);
        assert(c.bsize() == 2 * half.bsize());
        crate::arith::lemma_pow2_widths();
        crate::arith::lemma_pow2_le(c.width(), 128);
        assert(c.addr + half.bsize() == c.end() - half.bsize());
        assert(c.addr + half.bsize() <= u128::MAX);
        let upper = Cidr {
            family,
            addr: (c.addr + half.bsize()) as u128,
            len: (c.len + 1) as u8,
        };
        crate::arith::lemma_pow2_divides(
            (c.width() - half.len) as nat,
            (c.width() - c.len) as nat,
        );
        crate::arith::lemma_divides_trans(c.first(), half.bsize(), c.bsize());
        vstd::arithmetic::div_mod::lemma_add_mod_noop(c.first(), half.bsize(), half.bsize());
        vstd::arithmetic::div_mod::lemma_mod_self_0(half.bsize());
        vstd::arithmetic::div_mod::lemma_small_mod(0, half.bsize() as nat);
        assert(half.wf());
        assert(upper.wf());
        assert(half.end() == upper.first());
        assert(upper.end() == c.end());
        // each half is fully covered
        assert forall|a: int| half.contains_addr(a) implies seq_covers(s, a) by {
            assert(c.contains_addr(a));
        }
        assert forall|a: int| upper.contains_addr(a) implies seq_covers(s, a) by {
            assert(c.contains_addr(a));
        }
        lemma_normal_cover_block(family, s, half);
        lemma_normal_cover_block(family, s, upper);
        let il = choose|i: int| 0 <= i < s.len() && (#[trigger] s[i]).covers_block(half);
        let ih = choose|i: int| 0 <= i < s.len() && (#[trigger] s[i]).covers_block(upper);
        let lo = s[il];
        let hi = s[ih];
        lemma_pow2_pos((lo.width() - lo.len) as nat);
        lemma_pow2_pos((hi.width() - hi.len) as nat);
        if lo.covers_block(c) {
            assert(s[il].covers_block(c));
        } else if hi.covers_block(c) {
            assert(s[ih].covers_block(c));
        } else {
            // Neither entry reaches beyond c, so they are exactly the two
            // halves, adjacent in the list: a sibling pair.
            lemma_disjoint_or_nested(lo, c, half.first());
            assert(c.covers_block(lo));
            lemma_covers_len(c, lo);
            lemma_covers_len(lo, half);
            if lo.bsize() == c.bsize() {
                lemma_nested_same_size_eq(lo, c);
                assert(false);
            }
            assert(lo.bsize() < c.bsize());
            assert(lo.bsize() >= half.bsize());
            assert(lo.bsize() < 2 * half.bsize());
            assert(lo.bsize() == half.bsize()) by {
                let el = (lo.width() - lo.len) as nat;
                let eh = (half.width() - half.len) as nat;
                if el < eh {
                    vstd::arithmetic::power2::lemma_pow2_strictly_increases(el, eh);
                    assert(false);
                }
                if el > eh {
                    vstd::arithmetic::power2::lemma_pow2_strictly_increases(eh, el);
                    vstd::arithmetic::power2::lemma_pow2_unfold(el);
                    assert(pow2(el) >= 2 * pow2((el - 1) as nat));
                    if el - 1 > eh {
                        vstd::arithmetic::power2::lemma_pow2_strictly_increases(eh, (el - 1) as nat);
                    }
                    assert(false);
                }
            }
            lemma_nested_same_size_eq(half, lo);
            lemma_disjoint_or_nested(hi, c, upper.first());
            assert(c.covers_block(hi));
            lemma_covers_len(c, hi);
            lemma_covers_len(hi, upper);
            if hi.bsize() == c.bsize() {
                lemma_nested_same_size_eq(hi, c);
                assert(false);
            }
            assert(hi.bsize() == upper.bsize()) by {
                let el = (hi.width() - hi.len) as nat;
                let eh = (upper.width() - upper.len) as nat;
                if el < eh {
                    vstd::arithmetic::power2::lemma_pow2_strictly_increases(el, eh);
                    assert(false);
                }
                if el > eh {
                    vstd::arithmetic::power2::lemma_pow2_strictly_increases(eh, el);
                    vstd::arithmetic::power2::lemma_pow2_unfold(el);
                    if el - 1 > eh {
                        vstd::arithmetic::power2::lemma_pow2_strictly_increases(eh, (el - 1) as nat);
                    }
                    assert(false);
                }
            }
            lemma_nested_same_size_eq(upper, hi);
            // lo == half and hi == upper sit adjacent in s
            assert(il < ih) by {
                if ih < il {
                    assert(s[ih].end() <= s[il].first());
                }
                if ih == il {
                    assert(false);
                }
            }
            assert(ih == il + 1) by {
                if il + 1 < ih {
                    let mid_t = il + 1;
                    let bm = s[mid_t];
                    lemma_pow2_pos((bm.width() - bm.len) as nat);
                    assert(s[il].end() <= s[mid_t].first());
                    assert(s[mid_t].end() <= s[ih].first());
                    assert(false);
                }
            }
            assert(sibling_pair(s[il], s[il + 1]));
            assert(false);
        }
    }
}

/// Two normal containers of one family covering the same addresses hold
/// the same blocks: the normal form is canonical.
pub proof fn lemma_normal_unique(family: Family, s1: Seq<Cidr>, s2: Seq<Cidr>)
    requires
        blocks_wf(family, s1),
        sibling_free(s1),
        blocks_wf(family, s2),
        sibling_free(s2),
        forall|a: int| seq_covers(s1, a) <==> seq_covers(s2, a),
    ensures
        s1 =~= s2,
    decreases s1.len(),
{
    if s1.len() == 0 {
        if s2.len() > 0 {
            let y = s2[0];
            lemma_pow2_pos((y.width() - y.len) as nat);
            assert(y.contains_addr(y.first()));
            assert(seq_covers(s2, y.first()));
            assert(seq_covers(s1, y.first()));
            assert(false);
        }
    } else {
        let x = s1[0];
        lemma_pow2_pos((x.width() - x.len) as nat);
        if s2.len() == 0 {
            assert(x.contains_addr(x.first()));
            assert(seq_covers(s1, x.first()));
            assert(seq_covers(s2, x.first()));
            assert(false);
        }
        // the first blocks coincide
        assert forall|a: int| x.contains_addr(a) implies seq_covers(s2, a) by {
            assert(s1[0].contains_addr(a));
            assert(seq_covers(s1, a));
        }
        lemma_normal_cover_block(family, s2, x);
        let j = choose|t: int| 0 <= t < s2.len() && (#[trigger] s2[t]).covers_block(x);
        let host = s2[j];
        lemma_pow2_pos((host.width() - host.len) as nat);
        assert forall|a: int| host.contains_addr(a) implies seq_covers(s1, a) by {
            assert(s2[j].contains_addr(a));
            assert(seq_covers(s2, a));
        }
        lemma_normal_cover_block(family, s1, host);
        let i = choose|t: int| 0 <= t < s1.len() && (#[trigger] s1[t]).covers_block(host);
        assert(s1[i].covers_block(x));
        assert(i == 0) by {
            if i > 0 {
                assert(s1[0].end() <= s1[i].first());
                assert(s1[i].contains_addr(x.first()));
                assert(false);
            }
        }
        // x covers host and host covers x
        lemma_covers_len(x, host);
        lemma_covers_len(host, x);
        lemma_nested_same_size_eq(host, x);
        assert(j == 0) by {
            if j > 0 {
                let y = s2[0];
                lemma_pow2_pos((y.width() - y.len) as nat);
                assert(y.end() <= s2[j].first());
                assert(y.contains_addr(y.first()));
                assert(seq_covers(s2, y.first()));
                assert(seq_covers(s1, y.first()));
                let t = choose|t: int| 0 <= t < s1.len() && (#[trigger] s1[t]).contains_addr(
                    y.first(),
                );
                if t > 0 {
                    assert(s1[0].end() <= s1[t].first());
                }
                assert(false);
            }
        }
        assert(s2[0] == x);
        // drop the equal heads and recurse
        let t1 = s1.subrange(1, s1.len() as int);
        let t2 = s2.subrange(1, s2.len() as int);
        assert(blocks_wf(family, t1) && sibling_free(t1)) by {
            assert(forall|t: int| 0 <= t < t1.len() ==> #[trigger] t1[t] == s1[t + 1]);
        }
        assert(blocks_wf(family, t2) && sibling_free(t2)) by {
            assert(forall|t: int| 0 <= t < t2.len() ==> #[trigger] t2[t] == s2[t + 1]);
        }
        assert forall|a: int| seq_covers(t1, a) <==> seq_covers(t2, a) by {
            lemma_tail_covers(family, s1, a);
            lemma_tail_covers(family, s2, a);
        }
        lemma_normal_unique(family, t1, t2);
        assert forall|t: int| 0 <= t < s1.len() implies s1[t] == s2[t] by {
            if t > 0 {
                assert(t1[t - 1] == t2[t - 1]);
            }
        }
        assert(s1.len() == s2.len());
    }
}

/// Covering by the tail of a sorted list: the same as covering by the list
/// outside the first block's range.
proof fn lemma_tail_covers(family: Family, s: Seq<Cidr>, a: int)
    requires
        blocks_wf(family, s),
        s.len() >= 1,
    ensures
        seq_covers(s.subrange(1, s.len() as int), a) <==> (seq_covers(s, a)
            && !s[0].contains_addr(a)),
{
    let t = s.subrange(1, s.len() as int);
    if seq_covers(t, a) {
        let k = choose|k: int| 0 <= k < t.len() && (#[trigger] t[k]).contains_addr(a);
        assert(s[k + 1].contains_addr(a));
        assert(seq_covers(s, a));
        assert(s[0].end() <= s[k + 1].first());
    }
    if seq_covers(s, a) && !s[0].contains_addr(a) {
        let k = choose|k: int| 0 <= k < s.len() && (#[trigger] s[k]).contains_addr(a);
        assert(k >= 1);
        assert(t[k - 1].contains_addr(a));
        assert(seq_covers(t, a));
    }
}

/// Idempotence of simplification: `simplify` produces a container in
/// normal form without changing the covered set, and it hands a
/// normal-form container back unchanged; so simplifying twice gives
/// block for block what simplifying once gives. Here `s` carries the
/// postconditions of the first call on `r`, and `t` those of a second
/// call on `s`.
pub proof fn lemma_simplify_idempotent(r: CidrUnion, s: CidrUnion, t: CidrUnion)
    requires
        r.wf(),
        s.family == r.family,
        s.is_normal(),
        forall|a: int| s.covers_addr(a) <==> r.covers_addr(a),
        t.family == s.family,
        t.is_normal(),
        forall|a: int| t.covers_addr(a) <==> s.covers_addr(a),
    ensures
        t.blocks@ =~= s.blocks@,
{
    assert forall|a: int| seq_covers(t.blocks@, a) <==> seq_covers(s.blocks@, a) by {
        assert(t.covers_addr(a) <==> s.covers_addr(a));
    }
    lemma_normal_unique(s.family, t.blocks@, s.blocks@);
}

/// Round trip of aggregation. Whenever no elementary interval spans more
/// than one origin, the per-interval contributions attributed to an ASN
/// cover exactly the address space of its announced blocks; both the
/// aggregated container and the directly-built one are then normal
/// containers of the same covered set, and the normal form is canonical,
/// so the two containers hold identical blocks.
pub proof fn lemma_aggregation_round_trip(aggregated: CidrUnion, direct: CidrUnion)
    requires
        aggregated.is_normal(),
        direct.is_normal(),
        aggregated.family == direct.family,
        forall|a: int| aggregated.covers_addr(a) <==> direct.covers_addr(a),
    ensures
        aggregated.blocks@ =~= direct.blocks@,
{
    assert forall|a: int|
        seq_covers(aggregated.blocks@, a) <==> seq_covers(direct.blocks@, a) by {
        assert(aggregated.covers_addr(a) <==> direct.covers_addr(a));
    }
    lemma_normal_unique(aggregated.family, aggregated.blocks@, direct.blocks@);
}


} // verus!
