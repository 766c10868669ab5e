//! Interval-to-CIDR conversion: express an arbitrary address interval as
//! the minimal list of canonical CIDR blocks.
//!
//! The algorithm is the standard greedy one: at the current address take
//! the largest block that is aligned to its own size and does not reach
//! past the interval, emit it, and continue just after it.

use vstd::prelude::*;
use vstd::arithmetic::power2::{pow2, lemma_pow2_pos, lemma_pow2_strictly_increases, lemma2_to64};
use vstd::arithmetic::div_mod::{
    lemma_fundamental_div_mod, lemma_fundamental_div_mod_converse_mod, lemma_small_mod,
};
use crate::arith::{lemma_pow2_widths, lemma_pow2_le};
use crate::block::{Cidr, Family};

verus! {

/// Some block of the list covers address `a`.
pub open spec fn seq_covers(s: Seq<Cidr>, a: int) -> bool {
    exists|i: int| 0 <= i < s.len() && (#[trigger] s[i]).contains_addr(a)
}

/// Adjacent blocks that are the two halves of one parent block; `simplify`
/// merges exactly such pairs.
pub open spec fn sibling_pair(lo: Cidr, hi: Cidr) -> bool {
    &&& lo.family == hi.family
    &&& lo.len == hi.len
    &&& lo.len >= 1
    &&& lo.first() % (2 * lo.bsize()) == 0
    &&& hi.first() == lo.end()
}

/// Greedy maximality: the block could not have been doubled without
/// breaking alignment or reaching past `last`.
pub open spec fn greedy_max(b: Cidr, last: int) -> bool {
    !(b.first() % (2 * b.bsize()) == 0 && b.first() + 2 * b.bsize() <= last + 1)
}

/// End of the region a consecutive chain has covered so far.
pub open spec fn chain_end(s: Seq<Cidr>, start: u128) -> int {
    if s.len() == 0 {
        start as int
    } else {
        s[s.len() - 1].end()
    }
}

/// For a size-aligned address, alignment to the doubled size is parity of
/// the quotient.
pub proof fn lemma_even_quotient(cur: int, s: int)
    requires
        s > 0,
        cur >= 0,
        cur % s == 0,
    ensures
        ((cur / s) % 2 == 0) <==> (cur % (2 * s) == 0),
        !((cur / s) % 2 == 0) ==> cur % (2 * s) == s,
{
    let q = cur / s;
    lemma_fundamental_div_mod(cur, s);
    lemma_fundamental_div_mod(q, 2);
    assert(cur == (q / 2) * (2 * s) + s * (q % 2)) by (nonlinear_arith)
        requires
            cur == s * q,
            q == 2 * (q / 2) + (q % 2),
    ;
    vstd::arithmetic::div_mod::lemma_mod_division_less_than_divisor(q, 2);
    if q % 2 == 0 {
        lemma_fundamental_div_mod_converse_mod(cur, 2 * s, q / 2, 0);
    } else {
        assert(q % 2 == 1);
        assert(cur == (q / 2) * (2 * s) + s);
        lemma_fundamental_div_mod_converse_mod(cur, 2 * s, q / 2, s);
    }
}

/// In a consecutive chain of well-formed blocks, ends are monotone.
pub proof fn lemma_chain_end(s: Seq<Cidr>, i: int, j: int)
    requires
        forall|t: int| 0 <= t < s.len() ==> (#[trigger] s[t]).wf(),
        forall|t: int| 0 <= t < s.len() - 1 ==> (#[trigger] s[t]).end() == s[t + 1].first(),
        0 <= i <= j < s.len(),
    ensures
        s[i].end() <= s[j].end(),
    decreases j - i,
{
    if i < j {
        lemma_chain_end(s, i, j - 1);
        let b = s[j];
        lemma_pow2_pos((b.width() - b.len) as nat);
        assert(s[j - 1].end() == s[j].first());
    }
}

/// Cover the inclusive span `[start, last]` by the greedy minimal list of
/// canonical blocks: consecutive, exactly spanning, and with no block that
/// could be replaced by its parent.
pub fn cidrs_of_span(family: Family, start: u128, last: u128) -> (r: Vec<Cidr>)
    requires
        start <= last,
        last < pow2(family.width()),
    ensures
        r@.len() >= 1,
        forall|i: int| 0 <= i < r@.len() ==> (#[trigger] r@[i]).wf() && r@[i].family == family,
        r@[0].first() == start,
        r@[r@.len() - 1].end() == last + 1,
        forall|i: int| 0 <= i < r@.len() - 1 ==> (#[trigger] r@[i]).end() == r@[i + 1].first(),
        forall|i: int| 0 <= i < r@.len() ==> greedy_max(#[trigger] r@[i], last as int),
        forall|i: int| 0 <= i < r@.len() - 1 ==> !sibling_pair(#[trigger] r@[i], r@[i + 1]),
        forall|a: int| #![trigger seq_covers(r@, a)] seq_covers(r@, a) <==> start <= a <= last,
        forall|i: int|
            0 <= i < r@.len() ==> start <= (#[trigger] r@[i]).first() && r@[i].end() <= last + 1,
        forall|p: int, q: int|
            0 <= p < q < r@.len() ==> (#[trigger] r@[p]).end() <= (#[trigger] r@[q]).first(),
{
    let w = family.width_bits();
    let ghost wn = family.width();
    proof {
        lemma_pow2_widths();
        lemma2_to64();
    }
    if start == 0 && last == family.max_addr() {
        // The whole address space is a single block.
        let b = Cidr { family, addr: 0, len: 0 };
        proof {
            lemma_pow2_pos(wn);
            lemma_small_mod(0, pow2(wn));
            assert(b.wf());
        }
        let mut r: Vec<Cidr> = Vec::new();
        r.push(b);
        proof {
            assert forall|a: int| seq_covers(r@, a) <==> start <= a <= last by {
                if start <= a <= last {
                    assert(r@[0].contains_addr(a));
                }
            }
        }
        r
    } else {
        let mut out: Vec<Cidr> = Vec::new();
        let mut cur: u128 = start;
        loop
            invariant_except_break
                out@.len() == 0 ==> cur == start,
                start <= cur <= last,
                chain_end(out@, start) == cur as int,
            invariant
                w as nat == wn,
                wn == family.width(),
                start <= last < pow2(wn),
                !(start == 0 && last == pow2(wn) - 1),
                out@.len() >= 1 ==> out@[0].first() == start,
                forall|i: int|
                    0 <= i < out@.len() ==> (#[trigger] out@[i]).wf() && out@[i].family == family,
                forall|i: int|
                    0 <= i < out@.len() - 1 ==> (#[trigger] out@[i]).end() == out@[i + 1].first(),
                forall|i: int| 0 <= i < out@.len() ==> greedy_max(#[trigger] out@[i], last as int),
                forall|a: int| seq_covers(out@, a) <==> start <= a < chain_end(out@, start),
            ensures
                out@.len() >= 1,
                out@[0].first() == start,
                out@[out@.len() - 1].end() == last + 1,
            decreases last - cur,
        {
            // Find the largest aligned block size 2^k at cur that stays
            // inside the span.
            let mut size: u128 = 1;
            let mut k: u8 = 0;
            proof {
                lemma2_to64();
            }
            while (last - cur) - (size - 1) >= size && (cur / size) % 2 == 0
                invariant
                    w as nat == wn,
                    wn == family.width(),
                    start <= cur <= last < pow2(wn),
                    !(start == 0 && last == pow2(wn) - 1),
                    1 <= size,
                    size == pow2(k as nat),
                    size - 1 <= last - cur,
                    cur % size == 0,
                    k <= 127,
                decreases last - cur + 1 - size,
            {
                proof {
                    lemma_even_quotient(cur as int, size as int);
                    vstd::arithmetic::power2::lemma_pow2_unfold((k + 1) as nat);
                    // Doubling stays within u128: the only span that would
                    // demand 2^128 is the whole v6 space, excluded above.
                    if 2 * size > u128::MAX {
                        lemma_pow2_widths();
                        if k + 1 < 128 {
                            lemma_pow2_strictly_increases((k + 1) as nat, 128);
                            assert(false);
                        }
                        assert(2 * size == pow2(128));
                        assert(last - cur >= 2 * size - 1);
                        assert(cur == 0 && last == u128::MAX);
                        if wn < 128 {
                            lemma_pow2_strictly_increases(wn, 128);
                            assert(false);
                        }
                        assert(start == 0 && last == pow2(wn) - 1);
                        assert(false);
                    }
                    if k + 1 > 127 {
                        lemma_pow2_le(128, (k + 1) as nat);
                        lemma_pow2_widths();
                        assert(false);
                    }
                    lemma_pow2_pos((k + 1) as nat);
                    lemma_small_mod(0, pow2((k + 1) as nat));
                }
                size = 2 * size;
                k = k + 1;
            }
            proof {
                lemma_pow2_pos(k as nat);
                lemma_even_quotient(cur as int, size as int);
                if k as nat > wn {
                    lemma_pow2_strictly_increases(wn, k as nat);
                    assert(false);
                }
            }
            let b = Cidr { family, addr: cur, len: w - k };
            proof {
                assert(b.len == w - k);
                assert((b.width() - b.len) as nat == k as nat);
                assert(b.bsize() == size);
                assert(b.end() == cur + size <= last + 1);
                assert(b.wf());
                assert(greedy_max(b, last as int)) by {
                    if (last - cur) - (size - 1) >= size {
                        assert((cur / size) % 2 != 0);
                        assert(cur as int % (2 * size) == size);
                    }
                }
            }
            let ghost prev = out@;
            out.push(b);
            proof {
                let s = out@;
                assert forall|a: int| seq_covers(s, a) <==> start <= a < cur + size by {
                    if seq_covers(s, a) {
                        let i = choose|i: int| 0 <= i < s.len() && (#[trigger] s[i]).contains_addr(a);
                        if i < s.len() - 1 {
                            assert(prev[i].contains_addr(a));
                            assert(seq_covers(prev, a));
                        }
                    }
                    if start <= a < cur + size {
                        if a < cur {
                            assert(seq_covers(prev, a));
                            let i = choose|i: int|
                                0 <= i < prev.len() && (#[trigger] prev[i]).contains_addr(a);
                            assert(s[i].contains_addr(a));
                        } else {
                            assert(s[s.len() - 1].contains_addr(a));
                        }
                    }
                }
            }
            if (last - cur) == size - 1 {
                break ;
            }
            cur = cur + size;
        }
        proof {
            let s = out@;
            assert forall|t: int|
                0 <= t < s.len() implies start <= (#[trigger] s[t]).first() && s[t].end() <= last
                + 1 by {
                lemma_pow2_pos((s[t].width() - s[t].len) as nat);
                if t > 0 {
                    lemma_chain_end(s, 0, t - 1);
                    lemma_pow2_pos((s[0].width() - s[0].len) as nat);
                    assert(s[t - 1].end() == s[t].first());
                }
                lemma_chain_end(s, t, s.len() - 1);
            }
            assert forall|p: int, q: int|
                0 <= p < q < s.len() implies (#[trigger] s[p]).end() <= (
            #[trigger] s[q]).first() by {
                lemma_chain_end(s, p, q - 1);
                assert(s[q - 1].end() == s[q].first());
            }
            assert forall|i: int| 0 <= i < s.len() - 1 implies !sibling_pair(
                #[trigger] s[i],
                s[i + 1],
            ) by {
                if sibling_pair(s[i], s[i + 1]) {
                    assert(s[i + 1].end() <= last + 1) by {
                        lemma_chain_end(s, i + 1, s.len() - 1);
                    }
                    assert(s[i].first() + 2 * s[i].bsize() == s[i + 1].end());
                    assert(!greedy_max(s[i], last as int));
                }
            }
        }
        out
    }
}

/// Express the half-open interval `[start, end)` as the minimal list of
/// canonical CIDR blocks: sorted, disjoint, exactly covering the interval
/// and with no sibling pair left to merge. An empty interval gives an
/// empty list.
pub fn interval_to_cidrs(family: Family, start: u128, end: u128) -> (r: Vec<Cidr>)
    requires
        start < pow2(family.width()),
        end < pow2(family.width()),
    ensures
        start >= end ==> r@.len() == 0,
        forall|i: int| 0 <= i < r@.len() ==> (#[trigger] r@[i]).wf() && r@[i].family == family,
        forall|p: int, q: int|
            0 <= p < q < r@.len() ==> (#[trigger] r@[p]).end() <= (#[trigger] r@[q]).first(),
        forall|i: int| 0 <= i < r@.len() - 1 ==> !sibling_pair(#[trigger] r@[i], r@[i + 1]),
        forall|a: int| #![trigger seq_covers(r@, a)] seq_covers(r@, a) <==> start <= a < end,
{
    if start >= end {
        Vec::new()
    } else {
        cidrs_of_span(family, start, end - 1)
    }
}

/// The 32-bit form of the interval-to-CIDR conversion.
pub fn interval_to_cidrs_v4(start: u32, end: u32) -> (r: Vec<Cidr>)
    ensures
        start >= end ==> r@.len() == 0,
        forall|i: int|
            0 <= i < r@.len() ==> (#[trigger] r@[i]).wf() && r@[i].family == Family::V4,
        forall|p: int, q: int|
            0 <= p < q < r@.len() ==> (#[trigger] r@[p]).end() <= (#[trigger] r@[q]).first(),
        forall|i: int| 0 <= i < r@.len() - 1 ==> !sibling_pair(#[trigger] r@[i], r@[i + 1]),
        forall|a: int| #![trigger seq_covers(r@, a)] seq_covers(r@, a) <==> start <= a < end,
{
    proof {
        lemma_pow2_widths();
    }
    interval_to_cidrs(Family::V4, start as u128, end as u128)
}

/// The 128-bit form of the interval-to-CIDR conversion.
pub fn interval_to_cidrs_v6(start: u128, end: u128) -> (r: Vec<Cidr>)
    ensures
        start >= end ==> r@.len() == 0,
        forall|i: int|
            0 <= i < r@.len() ==> (#[trigger] r@[i]).wf() && r@[i].family == Family::V6,
        forall|p: int, q: int|
            0 <= p < q < r@.len() ==> (#[trigger] r@[p]).end() <= (#[trigger] r@[q]).first(),
        forall|i: int| 0 <= i < r@.len() - 1 ==> !sibling_pair(#[trigger] r@[i], r@[i + 1]),
        forall|a: int| #![trigger seq_covers(r@, a)] seq_covers(r@, a) <==> start <= a < end,
{
    proof {
        lemma_pow2_widths();
    }
    interval_to_cidrs(Family::V6, start, end)
}

} // verus!
