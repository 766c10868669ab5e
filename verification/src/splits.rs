//! The split-point index: the sorted, de-duplicated set of address-space
//! boundaries induced by the announced prefixes of one family.
//!
//! Consecutive split points delimit the elementary intervals that the
//! aggregator walks; every announced prefix contributes its network
//! address and, when it exists, the address just past its last one.

use vstd::prelude::*;
use vstd::arithmetic::power2::{pow2, lemma_pow2_pos};
use crate::block::{Cidr, Family};

verus! {

/// Strictly increasing list of addresses of one family.
pub struct SplitPoints {
    pub family: Family,
    pub points: Vec<u128>,
}

impl SplitPoints {
    pub open spec fn wf(self) -> bool {
        &&& forall|i: int| 0 <= i < self.points@.len() ==> (#[trigger] self.points@[i]) < pow2(
            self.family.width())
        &&& forall|i: int, j: int|
            0 <= i < j < self.points@.len() ==> (#[trigger] self.points@[i]) < (
            #[trigger] self.points@[j])
    }

    pub open spec fn has_point(self, p: int) -> bool {
        exists|i: int| 0 <= i < self.points@.len() && (#[trigger] self.points@[i]) == p
    }

    /// The empty index.
    pub fn new(family: Family) -> (r: SplitPoints)
        ensures
            r.wf(),
            r.family == family,
            r.points@.len() == 0,
            forall|p: int| !r.has_point(p),
    {
        SplitPoints { family, points: Vec::new() }
    }

    pub fn len(&self) -> (n: usize)
        ensures
            n == self.points@.len(),
    {
        self.points.len()
    }

    pub fn point_at(&self, i: usize) -> (p: u128)
        requires
            i < self.points@.len(),
        ensures
            p == self.points@[i as int],
    {
        self.points[i]
    }

    /// Insert one address, keeping the list sorted and duplicate-free.
    #[verifier::loop_isolation(false)]
    pub fn insert_point(&mut self, p: u128)
        requires
            old(self).wf(),
            p < pow2(old(self).family.width()),
        ensures
            final(self).wf(),
            final(self).family == old(self).family,
            forall|x: int|
                #![trigger final(self).has_point(x)]
                final(self).has_point(x) <==> old(self).has_point(x) || x == p,
    {
        let ghost orig = self.points@;
        let n = self.points.len();
        let mut i: usize = 0;
        while i < n && self.points[i] < p
            invariant
                i <= n,
                self == old(self),
                n == self.points@.len(),
                forall|t: int| 0 <= t < i ==> (#[trigger] orig[t]) < p,
            decreases n - i,
        {
            i = i + 1;
        }
        if i < n && self.points[i] == p {
            // already present
            proof {
                assert forall|x: int|
                    self.has_point(x) <==> old(self).has_point(x) || x == p by {
                    if x == p {
                        assert(self.points@[i as int] == x);
                    }
                }
            }
            return ;
        }
        self.points.insert(i, p);
        proof {
            let s = self.points@;
            let ii = i as int;
            assert(forall|t: int| 0 <= t < ii ==> #[trigger] s[t] == orig[t]);
            assert(s[ii] == p);
            assert(forall|t: int| ii < t < s.len() ==> #[trigger] s[t] == orig[t - 1]);
            assert forall|q: int, r: int| 0 <= q < r < s.len() implies (#[trigger] s[q]) < (
            #[trigger] s[r]) by {
                if r < ii {
                    assert(s[q] == orig[q] && s[r] == orig[r]);
                } else if q < ii && r == ii {
                    assert(orig[q] < p);
                } else if q < ii && r > ii {
                    // r > ii forces the pre-insertion list to go on at ii, and
                    // p slots in strictly below orig[ii]
                    assert(ii < n);
                    assert(p < orig[ii]);
                    assert(orig[q] < p);
                    assert(s[r] == orig[r - 1]);
                    if r - 1 > ii {
                        assert(orig[ii] < orig[r - 1]);
                    }
                } else if q == ii {
                    assert(ii < n);
                    assert(p < orig[ii]);
                    assert(s[r] == orig[r - 1]);
                    if r - 1 > ii {
                        assert(orig[ii] < orig[r - 1]);
                    }
                } else {
                    assert(s[q] == orig[q - 1] && s[r] == orig[r - 1]);
                }
            }
            assert forall|x: int| self.has_point(x) <==> old(self).has_point(x) || x == p by {
                if self.has_point(x) {
                    let t = choose|t: int| 0 <= t < s.len() && (#[trigger] s[t]) == x;
                    if t < ii {
                        assert(orig[t] == x);
                    } else if t > ii {
                        assert(orig[t - 1] == x);
                    }
                }
                if old(self).has_point(x) {
                    let t = choose|t: int| 0 <= t < orig.len() && (#[trigger] orig[t]) == x;
                    if t < ii {
                        assert(s[t] == x);
                    } else {
                        assert(s[t + 1] == x);
                    }
                }
                if x == p {
                    assert(s[ii] == x);
                }
            }
        }
    }

    /// Record a prefix: its network address always, and the address just
    /// past its last one when that address exists. Overflow at the top of
    /// the space is silently skipped.
    pub fn insert_prefix(&mut self, b: Cidr)
        requires
            old(self).wf(),
            b.wf(),
            b.family == old(self).family,
        ensures
            final(self).wf(),
            final(self).family == old(self).family,
            forall|x: int|
                #![trigger final(self).has_point(x)]
                final(self).has_point(x) <==> old(self).has_point(x) || x == b.first() || (b.end()
                    < pow2(b.width()) && x == b.end()),
    {
        proof {
            lemma_pow2_pos((b.width() - b.len) as nat);
        }
        self.insert_point(b.addr);
        let last = b.last_addr();
        let top = self.family.max_addr();
        if last < top {
            self.insert_point(last + 1);
        }
    }
}

} // verus!
