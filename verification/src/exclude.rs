//! The overlap-exclusion filter: subtract from a target container the
//! space claimed more specifically by others, without letting an equally
//! or less specific foreign claim erase a target claim.

use vstd::prelude::*;
use vstd::arithmetic::power2::lemma_pow2_pos;
use crate::block::Cidr;
use crate::convert::seq_covers;
use crate::ranges::CidrUnion;

verus! {

/// A foreign block qualifies for subtraction exactly when the included
/// container claims a strictly broader block around it: a supernet with a
/// shorter prefix.
pub open spec fn qualifies(included: CidrUnion, b: Cidr) -> bool {
    exists|i: int|
        0 <= i < included.blocks@.len() && (#[trigger] included.blocks@[i]).covers_block(b)
            && included.blocks@[i].len < b.len
}

/// Address `a` falls under one of the first `j` excluded blocks that
/// qualify for subtraction.
pub open spec fn masked(included: CidrUnion, exc: Seq<Cidr>, j: int, a: int) -> bool {
    exists|t: int|
        0 <= t < j && qualifies(included, #[trigger] exc[t]) && exc[t].contains_addr(a)
}

/// Remove from `included` the qualifying subset of `excluded`: a block of
/// `excluded` is subtracted only when `included` holds a strictly broader
/// block around it; equally or less specific excluded blocks change
/// nothing. The result is simplified.
#[verifier::loop_isolation(false)]
pub fn exclude_overlaps(included: &CidrUnion, excluded: &CidrUnion) -> (r: CidrUnion)
    requires
        included.wf(),
        excluded.wf(),
        excluded.family == included.family,
    ensures
        r.family == included.family,
        r.is_normal(),
        forall|a: int|
            #![trigger r.covers_addr(a)]
            r.covers_addr(a) <==> included.covers_addr(a) && !masked(
                *included,
                excluded.blocks@,
                excluded.blocks@.len() as int,
                a,
            ),
{
    let exc_n = excluded.block_count();
    let mut result = included.duplicate();
    let mut j: usize = 0;
    while j < exc_n
        invariant
            j <= exc_n,
            exc_n == excluded.blocks@.len(),
            result.wf(),
            result.family == included.family,
            forall|a: int|
                #![trigger result.covers_addr(a)]
                result.covers_addr(a) <==> included.covers_addr(a) && !masked(
                    *included,
                    excluded.blocks@,
                    j as int,
                    a,
                ),
        decreases exc_n - j,
    {
        let b = excluded.block_at(j);
        let ghost jj = j as int;
        let ghost pre = result;
        proof {
            lemma_pow2_pos((b.width() - b.len) as nat);
        }
        let hit = included.covers(b);
        match hit {
            Some(c) => {
                if c.len < b.len {
                    result.remove_block(b);
                    proof {
                        assert(qualifies(*included, b)) by {
                            let t = choose|t: int|
                                0 <= t < included.blocks@.len() && (
                                #[trigger] included.blocks@[t]) == c;
                            assert(included.blocks@[t].covers_block(b) && included.blocks@[t].len
                                < b.len);
                        }
                        assert forall|a: int|
                            result.covers_addr(a) <==> included.covers_addr(a) && !masked(
                                *included,
                                excluded.blocks@,
                                jj + 1,
                                a,
                            ) by {
                            assert(result.covers_addr(a) <==> pre.covers_addr(a)
                                && !b.contains_addr(a));
                            if masked(*included, excluded.blocks@, jj + 1, a) && !masked(
                                *included,
                                excluded.blocks@,
                                jj,
                                a,
                            ) {
                                let t = choose|t: int|
                                    0 <= t < jj + 1 && qualifies(
                                        *included,
                                        #[trigger] excluded.blocks@[t],
                                    ) && excluded.blocks@[t].contains_addr(a);
                                assert(t == jj);
                                assert(b.contains_addr(a));
                            }
                            if masked(*included, excluded.blocks@, jj, a) {
                                let t = choose|t: int|
                                    0 <= t < jj && qualifies(
                                        *included,
                                        #[trigger] excluded.blocks@[t],
                                    ) && excluded.blocks@[t].contains_addr(a);
                                assert(masked(*included, excluded.blocks@, jj + 1, a));
                            }
                            if b.contains_addr(a) {
                                assert(excluded.blocks@[jj].contains_addr(a));
                                assert(masked(*included, excluded.blocks@, jj + 1, a));
                            }
                        }
                    }
                } else {
                    proof {
                        lemma_unqualified(*included, b, c);
                        lemma_mask_step(*included, excluded.blocks@, jj);
                    }
                }
            },
            None => {
                proof {
                    assert(!qualifies(*included, b)) by {
                        if qualifies(*included, b) {
                            let t = choose|t: int|
                                0 <= t < included.blocks@.len() && (
                                #[trigger] included.blocks@[t]).covers_block(b)
                                    && included.blocks@[t].len < b.len;
                            assert(!included.blocks@[t].covers_block(b));
                        }
                    }
                    lemma_mask_step(*included, excluded.blocks@, jj);
                }
            },
        }
        j = j + 1;
    }
    result.simplify();
    result
}

/// A covering entry that is not strictly shorter rules qualification out:
/// the covering entry is unique, so no other entry can qualify.
proof fn lemma_unqualified(included: CidrUnion, b: Cidr, c: Cidr)
    requires
        included.wf(),
        b.wf(),
        included.blocks@.contains(c),
        c.covers_block(b),
        c.len >= b.len,
        forall|t: int|
            0 <= t < included.blocks@.len() && (#[trigger] included.blocks@[t]).covers_block(b)
                ==> included.blocks@[t] == c,
    ensures
        !qualifies(included, b),
{
    if qualifies(included, b) {
        let t = choose|t: int|
            0 <= t < included.blocks@.len() && (#[trigger] included.blocks@[t]).covers_block(b)
                && included.blocks@[t].len < b.len;
        assert(included.blocks@[t] == c);
        assert(false);
    }
}

/// A non-qualifying block leaves the mask unchanged from one step to the
/// next.
proof fn lemma_mask_step(included: CidrUnion, exc: Seq<Cidr>, j: int)
    requires
        0 <= j < exc.len(),
        !qualifies(included, exc[j]),
    ensures
        forall|a: int|
            #![trigger masked(included, exc, j + 1, a)]
            masked(included, exc, j + 1, a) <==> masked(included, exc, j, a),
{
    assert forall|a: int| masked(included, exc, j + 1, a) <==> masked(included, exc, j, a) by {
        if masked(included, exc, j + 1, a) {
            let t = choose|t: int|
                0 <= t < j + 1 && qualifies(included, #[trigger] exc[t]) && exc[t].contains_addr(
                    a,
                );
            assert(t < j);
            assert(masked(included, exc, j, a));
        }
        if masked(included, exc, j, a) {
            let t = choose|t: int|
                0 <= t < j && qualifies(included, #[trigger] exc[t]) && exc[t].contains_addr(a);
            assert(masked(included, exc, j + 1, a));
        }
    }
}

} // verus!
