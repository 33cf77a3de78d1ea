//! The CIDR block type and its expansion into single addresses.
//!
//! An address is a plain 32-bit unsigned value; its dotted-decimal text form
//! is a concern of the surrounding I/O layer, not of this library.

use vstd::prelude::*;
use vstd::arithmetic::power2::{pow2, lemma_pow2_unfold, lemma_pow2_pos, lemma2_to64};

verus! {

/// One CIDR block: `start` is the base address and `mask` the number of
/// leading fixed bits, so the block spans `2^(32 - mask)` consecutive
/// addresses beginning at `start`.
#[derive(Debug, Clone, Copy, PartialEq, Eq, Hash, PartialOrd, Ord, Structural)]
pub struct Cidr {
    pub start: u32,
    pub mask: u32,
}

impl Cidr {
    /// Number of addresses the block spans: `2^(32 - mask)`.
    pub open spec fn size(self) -> int {
        pow2((32 - self.mask) as nat) as int
    }

    /// Exclusive upper end of the block's address range.
    pub open spec fn end(self) -> int {
        self.start + self.size()
    }

    /// A canonical block: the prefix length is in range and the base
    /// address is aligned to the block's own size.
    pub open spec fn wf(self) -> bool {
        &&& self.mask <= 32
        &&& (self.start as int) % self.size() == 0
    }

    /// The block covers address `a`.
    pub open spec fn covers(self, a: int) -> bool {
        self.start <= a < self.end()
    }

    /// Size of the enclosing block with a one-bit-shorter prefix.
    pub open spec fn parent_size(self) -> int {
        2 * self.size()
    }

    /// Base of the enclosing block with a one-bit-shorter prefix.
    pub open spec fn parent_start(self) -> int {
        self.start - (self.start as int) % self.parent_size()
    }

    /// No valid enclosing block fits inside `[lo, hi)`: either the block
    /// already spans the whole address space, or the next larger aligned
    /// block would reach outside the range.
    pub open spec fn maximal_in(self, lo: int, hi: int) -> bool {
        self.mask == 0 || self.parent_start() < lo || self.parent_start() + self.parent_size() > hi
    }

    /// No valid enclosing block fits inside the address set `s`: the next
    /// larger aligned block would cover an address outside `s`.
    pub open spec fn maximal_for(self, s: Set<int>) -> bool {
        self.mask == 0 || exists|a: int|
            self.parent_start() <= a < self.parent_start() + self.parent_size() && !s.contains(a)
    }

    /// Every address of this block lies in `s`.
    pub open spec fn covered_by(self, s: Set<int>) -> bool {
        forall|a: int| self.covers(a) ==> s.contains(a)
    }

    pub fn new(start: u32, mask: u32) -> (r: Self)
        requires
            mask <= 32,
        ensures
            r.start == start,
            r.mask == mask,
    {
        Self { start, mask }
    }

    /// All `2^(32 - mask)` addresses of the block, in ascending order.
    pub fn expand(self) -> (r: Vec<u32>)
        requires
            self.mask <= 32,
            self.end() <= pow2(32),
        ensures
            r@.len() == self.size(),
            forall|i: int| 0 <= i < r@.len() ==> r@[i] as int == self.start + i,
            forall|i: int, j: int| 0 <= i < j < r@.len() ==> r@[i] != r@[j],
            forall|i: int| 0 <= i < r@.len() ==> self.covers(r@[i] as int),
    {
        proof {
            lemma2_to64();
        }
        let size = pow2_u64(32 - self.mask);
        let start = self.start as u64;
        let mut r: Vec<u32> = Vec::new();
        let mut off: u64 = 0;
        while off < size
            invariant
                off <= size,
                size as int == self.size(),
                start == self.start,
                start + size <= 0x1_0000_0000,
                r@.len() == off,
                forall|k: int| 0 <= k < r@.len() ==> r@[k] as int == self.start + k,
            decreases size - off,
        {
            r.push((start + off) as u32);
            off = off + 1;
        }
        r
    }
}

/// Two contiguous equal-size blocks whose union is itself one valid aligned
/// block, so that they could be replaced by that larger block.
pub open spec fn mergeable(b1: Cidr, b2: Cidr) -> bool {
    &&& b1.mask == b2.mask
    &&& 1 <= b1.mask
    &&& b2.start as int == b1.end()
    &&& (b1.start as int) % b1.parent_size() == 0
}

/// The enclosing block of a canonical block contains it and is itself
/// aligned: its base is at most one block-size below the block's base.
pub(crate) proof fn lemma_parent_bounds(c: Cidr)
    requires
        c.wf(),
        1 <= c.mask,
    ensures
        c.parent_size() == pow2((33 - c.mask) as nat),
        c.parent_start() <= c.start,
        c.start - c.parent_start() == 0 || c.start - c.parent_start() == c.size(),
        c.parent_start() + c.parent_size() >= c.end(),
        c.parent_start() % c.parent_size() == 0,
        0 <= c.parent_start(),
{
    let s = c.size();
    let ps = c.parent_size();
    vstd::arithmetic::power2::lemma_pow2_unfold((33 - c.mask) as nat);
    assert(ps == pow2((33 - c.mask) as nat));
    lemma_pow2_pos((32 - c.mask) as nat);
    vstd::arithmetic::div_mod::lemma_mod_mod(c.start as int, s, 2);
    let r = (c.start as int) % ps;
    vstd::arithmetic::div_mod::lemma_mod_bound(c.start as int, ps);
    assert(r % s == 0);
    vstd::arithmetic::div_mod::lemma_fundamental_div_mod(r, s);
    assert(r == s * (r / s));
    assert(r == 0 || r == s) by (nonlinear_arith)
        requires
            s > 0,
            r == s * (r / s),
            0 <= r < 2 * s,
    ;
    vstd::arithmetic::div_mod::lemma_fundamental_div_mod(c.start as int, ps);
    assert(c.parent_start() == ps * ((c.start as int) / ps));
    vstd::arithmetic::div_mod::lemma_mod_multiples_basic((c.start as int) / ps, ps);
    vstd::arithmetic::div_mod::lemma_div_pos_is_pos(c.start as int, ps);
    assert(0 <= ps * ((c.start as int) / ps)) by (nonlinear_arith)
        requires
            ps > 0,
            0 <= (c.start as int) / ps,
    ;
}

/// Computes `2^e` for exponents up to the address width.
pub(crate) fn pow2_u64(e: u32) -> (r: u64)
    requires
        e <= 32,
    ensures
        r as int == pow2(e as nat),
{
    let mut r: u64 = 1;
    let mut i: u32 = 0;
    proof {
        lemma2_to64();
    }
    while i < e
        invariant
            i <= e <= 32,
            r as int == pow2(i as nat),
            r <= 0x1_0000_0000,
        decreases e - i,
    {
        proof {
            lemma_pow2_unfold((i + 1) as nat);
            lemma_pow2_le_32((i + 1) as nat);
        }
        r = r * 2;
        i = i + 1;
    }
    r
}

/// `2^e` stays within the address space for exponents up to the width.
pub(crate) proof fn lemma_pow2_le_32(e: nat)
    requires
        e <= 32,
    ensures
        pow2(e) <= 0x1_0000_0000,
{
    lemma2_to64();
    if e < 32 {
        vstd::arithmetic::power2::lemma_pow2_strictly_increases(e, 32);
    }
}

} // verus!
