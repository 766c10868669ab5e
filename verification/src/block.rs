//! Family-tagged CIDR blocks: a network address and a prefix length over a
//! 32-bit (v4) or 128-bit (v6) address space, kept in canonical form (the
//! bits below the prefix are zero).
//!
//! Both families share one integer model: an address is a `u128` bounded by
//! the family's width, and a block covers the half-open range
//! `[addr, addr + 2^(width - len))`.

use vstd::prelude::*;
use vstd::arithmetic::power2::{pow2, lemma_pow2_pos, lemma_pow2_strictly_increases, lemma2_to64};
use vstd::arithmetic::div_mod::{
    lemma_fundamental_div_mod, lemma_mod_multiples_basic, lemma_add_mod_noop, lemma_small_mod,
};
use crate::arith::{
    lemma_pow2_widths, lemma_multiple_gap, lemma_divides_trans, lemma_pow2_divides, low_ones,
    pow2_u128,
};

verus! {

/// Address family: 32-bit or 128-bit address space.
#[derive(Clone, Copy, PartialEq, Eq, Structural, Debug)]
pub enum Family {
    V4,
    V6,
}

impl Family {
    /// Number of address bits of this family.
    pub open spec fn width(self) -> nat {
        match self {
            Family::V4 => 32,
            Family::V6 => 128,
        }
    }

    /// Executable width.
    pub fn width_bits(&self) -> (w: u8)
        ensures
            w as nat == self.width(),
    {
        match self {
            Family::V4 => 32,
            Family::V6 => 128,
        }
    }

    /// Largest address of the family, `2^width - 1`.
    pub fn max_addr(&self) -> (r: u128)
        ensures
            r == pow2(self.width()) - 1,
    {
        proof {
            lemma_pow2_widths();
        }
        match self {
            Family::V4 => 0xFFFF_FFFF,
            Family::V6 => u128::MAX,
        }
    }
}

/// Failures of the engine: a prefix length beyond the family width (or an
/// address beyond the space) coming from malformed input.
#[derive(Clone, Copy, PartialEq, Eq, Structural, Debug)]
pub enum RangeError {
    InvalidBlock,
}

/// A CIDR block in canonical form.
#[derive(Clone, Copy, PartialEq, Eq, Structural, Debug)]
pub struct Cidr {
    pub family: Family,
    pub addr: u128,
    pub len: u8,
}

impl Cidr {
    pub open spec fn width(self) -> nat {
        self.family.width()
    }

    /// Number of addresses the block covers.
    pub open spec fn bsize(self) -> int {
        pow2((self.width() - self.len) as nat) as int
    }

    /// First address covered.
    pub open spec fn first(self) -> int {
        self.addr as int
    }

    /// One past the last address covered.
    pub open spec fn end(self) -> int {
        self.addr + self.bsize()
    }

    /// Canonical well-formedness: the length fits the family, the address
    /// is aligned to the block size, and the block stays inside the space.
    pub open spec fn wf(self) -> bool {
        &&& self.len as nat <= self.width()
        &&& self.first() % self.bsize() == 0
        &&& self.end() <= pow2(self.width())
    }

    pub open spec fn contains_addr(self, a: int) -> bool {
        self.first() <= a < self.end()
    }

    /// This block's range encloses `o`'s range (supernet or equal).
    pub open spec fn covers_block(self, o: Cidr) -> bool {
        self.family == o.family && self.first() <= o.first() && o.end() <= self.end()
    }

    /// Build a canonical block. Fails exactly when the prefix length
    /// exceeds the family width or the address lies outside the space;
    /// bits below the prefix are cleared.
    pub fn new(family: Family, addr: u128, len: u8) -> (r: Result<Cidr, RangeError>)
        ensures
            r is Ok <==> (len as nat <= family.width() && addr < pow2(family.width())),
            r is Err ==> r->Err_0 == RangeError::InvalidBlock,
            r matches Ok(b) ==> {
                &&& b.family == family
                &&& b.len == len
                &&& b.wf()
                &&& b.addr == addr - (addr as int % b.bsize())
            },
    {
        let w = family.width_bits();
        if len > w || addr > family.max_addr() {
            proof {
                lemma_pow2_pos(family.width());
            }
            return Err(RangeError::InvalidBlock);
        }
        if len == 0 {
            let b = Cidr { family, addr: 0, len };
            proof {
                let s = b.bsize();
                lemma_pow2_pos((family.width() - len) as nat);
                lemma_small_mod(0, s as nat);
                lemma_small_mod(addr as nat, pow2(family.width()));
            }
            Ok(b)
        } else {
            let sz = pow2_u128(w - len);
            proof {
                lemma_pow2_pos((family.width() - len) as nat);
                vstd::arithmetic::div_mod::lemma_mod_decreases(addr as nat, sz as nat);
            }
            let canon = addr - addr % sz;
            let b = Cidr { family, addr: canon, len };
            proof {
                let s = sz as int;
                lemma_pow2_pos((family.width() - len) as nat);
                lemma_fundamental_div_mod(addr as int, s);
                lemma_mod_multiples_basic(addr as int / s, s);
                assert((s * (addr as int / s)) % s == (addr as int / s) * s % s) by {
                    vstd::arithmetic::mul::lemma_mul_is_commutative(s, addr as int / s);
                }
                assert(b.first() % b.bsize() == 0);
                lemma_pow2_divides((family.width() - len) as nat, family.width());
                if b.end() > pow2(family.width()) {
                    lemma_multiple_gap(b.first(), pow2(family.width()) as int, s);
                    assert(false);
                }
            }
            Ok(b)
        }
    }

    /// Last address covered by the block.
    pub fn last_addr(&self) -> (r: u128)
        requires
            self.wf(),
        ensures
            r == self.end() - 1,
    {
        let w = self.family.width_bits();
        proof {
            lemma_pow2_widths();
            lemma_pow2_pos((self.width() - self.len) as nat);
        }
        if self.len == w {
            proof {
                lemma2_to64();
            }
            self.addr
        } else {
            self.addr + low_ones(w - self.len)
        }
    }
}

/// Two canonical blocks of one family that share an address are nested:
/// the one with the smaller size lies inside the other.
pub proof fn lemma_laminar(b1: Cidr, b2: Cidr, a: int)
    requires
        b1.wf(),
        b2.wf(),
        b1.family == b2.family,
        b1.contains_addr(a),
        b2.contains_addr(a),
        b1.bsize() <= b2.bsize(),
    ensures
        b2.covers_block(b1),
{
    let s1 = b1.bsize();
    let s2 = b2.bsize();
    let e1 = (b1.width() - b1.len) as nat;
    let e2 = (b2.width() - b2.len) as nat;
    lemma_pow2_pos(e1);
    lemma_pow2_pos(e2);
    if e2 < e1 {
        lemma_pow2_strictly_increases(e2, e1);
        assert(false);
    }
    lemma_pow2_divides(e1, e2);
    lemma_divides_trans(b2.first(), s1, s2);
    if b1.first() < b2.first() {
        lemma_multiple_gap(b1.first(), b2.first(), s1);
        assert(false);
    }
    if b2.end() < b1.end() {
        lemma_add_mod_noop(b2.first(), s2, s1);
        lemma_add_mod_noop(b1.first(), s1, s1);
        lemma_small_mod(0, s1 as nat);
        vstd::arithmetic::div_mod::lemma_mod_self_0(s1);
        lemma_multiple_gap(b2.end(), b1.end(), s1);
        assert(false);
    }
}

/// Two overlapping canonical blocks of one family are nested one way or
/// the other.
pub proof fn lemma_disjoint_or_nested(b1: Cidr, b2: Cidr, a: int)
    requires
        b1.wf(),
        b2.wf(),
        b1.family == b2.family,
        b1.contains_addr(a),
        b2.contains_addr(a),
    ensures
        b1.covers_block(b2) || b2.covers_block(b1),
{
    if b1.bsize() <= b2.bsize() {
        lemma_laminar(b1, b2, a);
    } else {
        lemma_laminar(b2, b1, a);
    }
}

/// Enclosure of well-formed blocks orders their sizes and lengths.
pub proof fn lemma_covers_len(outer: Cidr, inner: Cidr)
    requires
        outer.wf(),
        inner.wf(),
        outer.covers_block(inner),
    ensures
        inner.bsize() <= outer.bsize(),
        inner.len >= outer.len,
{
    let eo = (outer.width() - outer.len) as nat;
    let ei = (inner.width() - inner.len) as nat;
    lemma_pow2_pos(eo);
    lemma_pow2_pos(ei);
    if eo < ei {
        lemma_pow2_strictly_increases(eo, ei);
        assert(false);
    }
}

} // verus!
