//! Shared-upstream attribution: the longest common suffix of the AS paths
//! observed for one (prefix, origin) pair, capped at the four hops nearest
//! the origin.

use vstd::prelude::*;

verus! {

/// All paths agree on the ASN at distance `i` from their tail.
pub open spec fn tails_agree(pv: Seq<Seq<u32>>, i: int) -> bool {
    forall|k: int|
        0 <= k < pv.len() ==> (#[trigger] pv[k])[pv[k].len() - 1 - i] == pv[0][pv[0].len() - 1
            - i]
}

/// Every path is longer than `i`.
pub open spec fn all_longer_than(pv: Seq<Seq<u32>>, i: int) -> bool {
    forall|k: int| 0 <= k < pv.len() ==> (#[trigger] pv[k]).len() > i
}

/// Characterization of the longest common suffix, capped at four hops:
/// the hops nearest the tail on which every path agrees, taken from the
/// first path, and not extendable unless the cap or a path end was hit.
/// These clauses pin the suffix down uniquely.
pub open spec fn is_shared_suffix(pv: Seq<Seq<u32>>, s: Seq<u32>) -> bool {
    if pv.len() == 0 {
        s.len() == 0
    } else {
        &&& s.len() <= 4
        &&& all_longer_than(pv, s.len() - 1)
        &&& (forall|i: int| 0 <= i < s.len() ==> tails_agree(pv, i))
        &&& s == pv[0].subrange(pv[0].len() - s.len(), pv[0].len() as int)
        &&& ((s.len() < 4 && all_longer_than(pv, s.len() as int)) ==> !tails_agree(
            pv,
            s.len() as int,
        ))
    }
}

/// Whether all paths agree at tail distance `i`.
#[verifier::loop_isolation(false)]
fn agree_at(paths: &Vec<Vec<u32>>, i: usize) -> (r: bool)
    requires
        paths@.len() > 0,
        all_longer_than(paths.deep_view(), i as int),
    ensures
        r == tails_agree(paths.deep_view(), i as int),
{
    let ghost pv = paths.deep_view();
    proof {
        assert(pv[0] == paths@[0]@);
        assert(pv.len() == paths@.len());
    }
    let p0 = &paths[0];
    let candidate = p0[p0.len() - 1 - i];
    let mut k: usize = 1;
    while k < paths.len()
        invariant
            1 <= k <= pv.len(),
            candidate == pv[0][pv[0].len() - 1 - i],
            forall|t: int|
                0 <= t < k ==> (#[trigger] pv[t])[pv[t].len() - 1 - i] == candidate,
        decreases pv.len() - k,
    {
        let pk = &paths[k];
        proof {
            assert(pv[k as int] == paths@[k as int]@);
        }
        if pk[pk.len() - 1 - i] != candidate {
            proof {
                assert(!tails_agree(pv, i as int)) by {
                    assert(pv[k as int][pv[k as int].len() - 1 - i] != candidate);
                }
            }
            return false;
        }
        k = k + 1;
    }
    true
}

/// The longest common suffix of the given AS paths, looking at most four
/// hops back from the tail: the hops are taken from the tail inward while
/// all paths agree, then returned in path order. No paths give an empty
/// suffix.
#[verifier::loop_isolation(false)]
pub fn longest_common_suffix(paths: &Vec<Vec<u32>>) -> (r: Vec<u32>)
    ensures
        is_shared_suffix(paths.deep_view(), r@),
        paths@.len() == 0 ==> r@.len() == 0,
        paths@.len() > 0 ==> {
            let pv = paths.deep_view();
            &&& r@.len() <= 4
            &&& all_longer_than(pv, r@.len() - 1)
            &&& forall|i: int| 0 <= i < r@.len() ==> tails_agree(pv, i)
            &&& r@ == pv[0].subrange(pv[0].len() - r@.len(), pv[0].len() as int)
            &&& (r@.len() < 4 && all_longer_than(pv, r@.len() as int)) ==> !tails_agree(
                pv,
                r@.len() as int,
            )
        },
{
    let ghost pv = paths.deep_view();
    proof {
        assert(pv.len() == paths@.len());
    }
    if paths.len() == 0 {
        return Vec::new();
    }
    // the number of hops, from the tail, on which every path agrees
    let mut min_len: usize = paths[0].len();
    proof {
        assert(pv[0] == paths@[0]@);
    }
    let mut k: usize = 1;
    while k < paths.len()
        invariant
            1 <= k <= pv.len(),
            forall|t: int| 0 <= t < k ==> (#[trigger] pv[t]).len() >= min_len,
            exists|t: int| 0 <= t < k && (#[trigger] pv[t]).len() == min_len,
        decreases pv.len() - k,
    {
        proof {
            assert(pv[k as int] == paths@[k as int]@);
        }
        if paths[k].len() < min_len {
            min_len = paths[k].len();
        }
        k = k + 1;
    }
    let cap = if min_len < 4 {
        min_len
    } else {
        4
    };
    let mut n: usize = 0;
    while n < cap && agree_at(paths, n)
        invariant
            n <= cap,
            forall|i: int| 0 <= i < n ==> tails_agree(pv, i),
        decreases cap - n,
    {
        n = n + 1;
    }
    // copy the agreed suffix of the first path in order
    let p0 = &paths[0];
    let start = p0.len() - n;
    let mut r: Vec<u32> = Vec::new();
    let mut t: usize = start;
    while t < p0.len()
        invariant
            start <= t <= p0@.len(),
            r@ == p0@.subrange(start as int, t as int),
        decreases p0@.len() - t,
    {
        proof {
            assert(p0@.subrange(start as int, t + 1) =~= p0@.subrange(start as int, t as int).push(
                p0@[t as int],
            ));
        }
        r.push(p0[t]);
        t = t + 1;
    }
    proof {
        assert(pv[0] == paths@[0]@);
        assert(r@ =~= pv[0].subrange(pv[0].len() - n, pv[0].len() as int));
        let m = choose|t2: int| 0 <= t2 < pv.len() && (#[trigger] pv[t2]).len() == min_len;
        if n < cap {
            assert(!tails_agree(pv, n as int));
        }
        if n == cap && cap == min_len {
            assert(pv[m].len() == min_len);
        }
    }
    r
}

} // verus!
