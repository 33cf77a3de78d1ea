//! Aggregation of address ranges and address collections into CIDR blocks.

use vstd::prelude::*;
use vstd::arithmetic::power2::{
    lemma2_to64, lemma_pow2_pos, lemma_pow2_unfold, pow2,
};
use vstd::arithmetic::div_mod::{lemma_mod_self_0, lemma_small_mod};
use crate::arith::{
    lemma_aligned_add, lemma_aligned_lower, lemma_mod_half, lemma_pow2_le,
};
use crate::cidr::{lemma_parent_bounds, lemma_pow2_le_32, mergeable, Cidr};
use itertools::Itertools;

verus! {

broadcast use lemma_pow2_pos;

/// Some block of the list covers address `a`.
pub open spec fn in_blocks(blocks: Seq<Cidr>, a: int) -> bool {
    exists|i: int| 0 <= i < blocks.len() && (#[trigger] blocks[i]).covers(a)
}

/// The sequence holds the address `a`.
pub open spec fn contains_addr(addrs: Seq<u32>, a: int) -> bool {
    exists|i: int| 0 <= i < addrs.len() && (#[trigger] addrs[i]) as int == a
}

/// The set of distinct values of an address sequence.
pub open spec fn addr_set(addrs: Seq<u32>) -> Set<int> {
    Set::new(|a: int| contains_addr(addrs, a))
}

/// The inclusive address range `[first, last]` as a set.
pub open spec fn range_set(first: int, last: int) -> Set<int> {
    Set::new(|a: int| first <= a <= last)
}

/// The blocks are canonical, ascending and non-overlapping, each one maximal
/// within `s`, and together they cover exactly the addresses of `s`.
pub open spec fn exact_cover(blocks: Seq<Cidr>, s: Set<int>) -> bool {
    &&& forall|i: int| 0 <= i < blocks.len() ==> (#[trigger] blocks[i]).wf()
    &&& forall|i: int| 0 <= i < blocks.len() ==> (#[trigger] blocks[i]).maximal_for(s)
    &&& forall|i: int| 0 <= i && i + 1 < blocks.len() ==> (#[trigger] blocks[i]).end() <= blocks[i + 1].start as int
    &&& forall|a: int| in_blocks(blocks, a) <==> s.contains(a)
}

/// The cursor is aligned to `2^k`.
spec fn aligned_to(x: int, k: nat) -> bool {
    x % (pow2(k) as int) == 0
}

/// `2^t` is the lowest set bit of `x`.
spec fn lowbit_is(x: int, t: nat) -> bool {
    aligned_to(x, t) && !aligned_to(x, t + 1)
}

/// Invariant of the greedy cursor: at the cursor's own alignment level,
/// either the part of the range already covered or the part still to cover
/// is smaller than one aligned step.
spec fn greedy_inv(first: int, end: int, curr: int) -> bool {
    forall|t: nat|
        #[trigger] lowbit_is(curr, t) && t <= 32 ==> curr - first < pow2(t) || end - curr < pow2(t)
}

/// One greedy step: emitting the largest aligned block that fits keeps the
/// cursor invariant, and the block's enclosing block escapes the range.
proof fn lemma_greedy_step(first: int, end: int, curr: int, s: nat)
    requires
        0 <= first <= curr < end <= pow2(32),
        greedy_inv(first, end, curr),
        s <= 32,
        aligned_to(curr, s),
        curr + pow2(s) <= end,
        s == 32 || !aligned_to(curr, s + 1) || curr + pow2(s + 1) > end,
    ensures
        greedy_inv(first, end, curr + pow2(s)),
        s == 32 || curr - (curr % (pow2(s + 1) as int)) < first || curr - (curr % (
        pow2(s + 1) as int)) + pow2(s + 1) > end,
    decreases 0int,
{
    lemma_pow2_unfold(s + 1);
    let c2 = curr + pow2(s);
    if s < 32 {
        if !aligned_to(curr, s + 1) {
            lemma_mod_half(curr, s);
            assert(lowbit_is(curr, s));
            assert(curr - first < pow2(s) || end - curr < pow2(s));
            assert(curr - first < pow2(s));
        } else {
            lemma_small_mod(0, pow2(s + 1));
            assert(curr % (pow2(s + 1) as int) == 0);
        }
    }
    assert forall|t: nat| #[trigger] lowbit_is(c2, t) && t <= 32 implies c2 - first < pow2(t)
        || end - c2 < pow2(t) by {
        lemma_pow2_unfold(t + 1);
        if t < s {
            lemma_aligned_lower(curr, t + 1, s);
            lemma_mod_self_0(pow2(s) as int);
            assert(aligned_to(pow2(s) as int, s));
            lemma_aligned_lower(pow2(s) as int, t + 1, s);
            lemma_aligned_add(curr, pow2(s) as int, pow2(t + 1) as int);
            assert(aligned_to(c2, t + 1));
            assert(false);
        } else if t == s {
            if s == 32 {
                lemma_small_mod(curr as nat, pow2(32));
                assert(curr == 0);
                assert(c2 == end);
            } else if !aligned_to(curr, s + 1) {
                lemma_mod_half(curr, s);
                vstd::arithmetic::div_mod::lemma_add_mod_noop(curr, pow2(s) as int, pow2(
                    s + 1,
                ) as int);
                lemma_small_mod(pow2(s), pow2(s + 1));
                lemma_mod_self_0(pow2(s + 1) as int);
                assert(c2 % (pow2(s + 1) as int) == 0);
                assert(false);
            } else {
                assert(curr + pow2(s + 1) > end);
                assert(end - c2 < pow2(t));
            }
        } else {
            assert(s < 32);
            lemma_aligned_lower(c2, s + 1, t);
            if aligned_to(curr, s + 1) {
                vstd::arithmetic::div_mod::lemma_add_mod_noop(curr, pow2(s) as int, pow2(
                    s + 1,
                ) as int);
                lemma_small_mod(pow2(s), pow2(s + 1));
                assert(c2 % (pow2(s + 1) as int) == (pow2(s) as int) % (pow2(s + 1) as int));
                assert(false);
            } else {
                lemma_mod_half(curr, s);
                assert(lowbit_is(curr, s));
                assert(curr - first < pow2(s) || end - curr < pow2(s));
                assert(curr - first < pow2(s));
                lemma_pow2_le(s + 1, t);
                assert(c2 - first < pow2(t));
            }
        }
    }
}

/// Pushing a block extends the covered addresses by exactly that block.
proof fn lemma_in_blocks_push(blocks: Seq<Cidr>, b: Cidr)
    ensures
        forall|a: int| in_blocks(blocks.push(b), a) <==> in_blocks(blocks, a) || b.covers(a),
{
    assert forall|a: int| in_blocks(blocks.push(b), a) implies in_blocks(blocks, a) || b.covers(
        a,
    ) by {
        let i = choose|i: int| 0 <= i < blocks.push(b).len() && (#[trigger] blocks.push(b)[i]).covers(a);
        if i < blocks.len() {
            assert(blocks[i].covers(a));
        } else {
            assert(blocks.push(b)[i] == b);
        }
    }
    assert forall|a: int| in_blocks(blocks, a) || b.covers(a) implies in_blocks(
        blocks.push(b),
        a,
    ) by {
        if in_blocks(blocks, a) {
            let i = choose|i: int| 0 <= i < blocks.len() && (#[trigger] blocks[i]).covers(a);
            assert(blocks.push(b)[i].covers(a));
        } else {
            assert(blocks.push(b)[blocks.len() as int].covers(a));
        }
    }
}

/// Concatenating block lists unions the covered addresses.
proof fn lemma_in_blocks_concat(b1: Seq<Cidr>, b2: Seq<Cidr>)
    ensures
        forall|a: int| in_blocks(b1 + b2, a) <==> in_blocks(b1, a) || in_blocks(b2, a),
{
    assert forall|a: int| in_blocks(b1 + b2, a) implies in_blocks(b1, a) || in_blocks(b2, a) by {
        let i = choose|i: int| 0 <= i < (b1 + b2).len() && (#[trigger] (b1 + b2)[i]).covers(a);
        if i < b1.len() {
            assert(b1[i].covers(a));
        } else {
            assert(b2[i - b1.len()].covers(a));
        }
    }
    assert forall|a: int| in_blocks(b1, a) || in_blocks(b2, a) implies in_blocks(b1 + b2, a) by {
        if in_blocks(b1, a) {
            let i = choose|i: int| 0 <= i < b1.len() && (#[trigger] b1[i]).covers(a);
            assert((b1 + b2)[i].covers(a));
        } else {
            let i = choose|i: int| 0 <= i < b2.len() && (#[trigger] b2[i]).covers(a);
            assert((b1 + b2)[b1.len() + i].covers(a));
        }
    }
}

/// A block that is maximal within an inclusive range is maximal for the
/// range's address set.
proof fn lemma_maximal_range(c: Cidr, lo: int, last: int)
    requires
        c.wf(),
        c.maximal_in(lo, last + 1),
    ensures
        c.maximal_for(range_set(lo, last)),
{
    if c.mask != 0 {
        lemma_parent_bounds(c);
        if c.parent_start() < lo {
            let a = c.parent_start();
            assert(c.parent_start() <= a < c.parent_start() + c.parent_size()
                && !range_set(lo, last).contains(a));
        } else {
            let a = c.parent_start() + c.parent_size() - 1;
            assert(c.parent_start() <= a < c.parent_start() + c.parent_size()
                && !range_set(lo, last).contains(a));
        }
    }
}

/// Adjacent blocks of an exact cover can never be merged into one valid
/// larger block: the cover never under-aggregates.
pub proof fn lemma_cover_not_mergeable(blocks: Seq<Cidr>, s: Set<int>, i: int)
    requires
        exact_cover(blocks, s),
        0 <= i,
        i + 1 < blocks.len(),
    ensures
        !mergeable(blocks[i], blocks[i + 1]),
{
    let b1 = blocks[i];
    let b2 = blocks[i + 1];
    if mergeable(b1, b2) {
        assert(b1.parent_start() == b1.start);
        assert(b1.maximal_for(s));
        let a = choose|a: int|
            b1.parent_start() <= a < b1.parent_start() + b1.parent_size() && !s.contains(a);
        if a < b1.end() {
            assert(b1.covers(a));
            assert(in_blocks(blocks, a));
        } else {
            assert(b2.covers(a));
            assert(in_blocks(blocks, a));
        }
        assert(s.contains(a));
        assert(false);
    }
}

/// Decomposes the inclusive address range `[first, last]` into the minimal
/// ascending list of CIDR blocks whose union is exactly that range: each
/// block is aligned to its own size and is the largest valid block that
/// fits at its position.
#[verifier::rlimit(60)]
pub fn range_to_cidrs(first: u32, last: u32) -> (r: Vec<Cidr>)
    requires
        first <= last,
    ensures
        exact_cover(r@, range_set(first as int, last as int)),
        forall|a: int| in_blocks(r@, a) <==> first <= a <= last,
        forall|i: int| 0 <= i < r@.len() ==> (#[trigger] r@[i]).maximal_in(
            first as int,
            last as int + 1,
        ),
        forall|i: int| 0 <= i && i + 1 < r@.len() ==> r@[i + 1].start as int == (#[trigger] r@[i]).end(),
        forall|i: int| 0 <= i && i + 1 < r@.len() ==> !(#[trigger] mergeable(r@[i], r@[i + 1])),
        r@.len() > 0,
        r@[0].start == first,
        r@[r@.len() - 1].end() == last as int + 1,
{
    let end: u64 = last as u64 + 1;
    let mut curr: u64 = first as u64;
    let mut r: Vec<Cidr> = Vec::new();
    proof {
        lemma2_to64();
    }
    while curr < end
        invariant
            end == last as int + 1,
            first <= curr <= end,
            end <= 0x1_0000_0000,
            greedy_inv(first as int, end as int, curr as int),
            r@.len() == 0 ==> curr == first,
            r@.len() > 0 ==> r@[0].start == first && r@[r@.len() - 1].end() == curr as int,
            forall|i: int| 0 <= i < r@.len() ==> (#[trigger] r@[i]).wf(),
            forall|i: int| 0 <= i < r@.len() ==> (#[trigger] r@[i]).maximal_in(
                first as int,
                end as int,
            ),
            forall|i: int| 0 <= i && i + 1 < r@.len() ==> r@[i + 1].start as int == (
            #[trigger] r@[i]).end(),
            forall|a: int| in_blocks(r@, a) <==> first <= a < curr,
        decreases end - curr,
    {
        proof {
            lemma2_to64();
            assert(aligned_to(curr as int, 0));
        }
        let mut shift: u32 = 0;
        let mut sz: u64 = 1;
        while shift < 32 && curr % (sz * 2) == 0 && curr + sz * 2 <= end
            invariant
                shift <= 32,
                sz as int == pow2(shift as nat),
                1 <= sz <= 0x1_0000_0000,
                aligned_to(curr as int, shift as nat),
                curr + sz <= end <= 0x1_0000_0000,
                curr < end,
            decreases 32 - shift,
        {
            proof {
                lemma_pow2_unfold(shift as nat + 1);
                lemma_pow2_le_32(shift as nat + 1);
            }
            sz = sz * 2;
            shift = shift + 1;
        }
        proof {
            lemma2_to64();
            lemma_pow2_unfold(shift as nat + 1);
            assert(sz * 2 == pow2(shift as nat + 1));
            assert(shift == 32 || !aligned_to(curr as int, shift as nat + 1) || curr + pow2(
                shift as nat + 1,
            ) > end);
            lemma_greedy_step(first as int, end as int, curr as int, shift as nat);
        }
        let b = Cidr { start: curr as u32, mask: 32 - shift };
        proof {
            assert(b.start as int == curr as int);
            assert((32 - b.mask) as nat == shift as nat);
            assert(b.size() == sz as int);
            assert(b.wf());
            lemma_pow2_unfold(shift as nat + 1);
            assert(b.parent_size() == pow2(shift as nat + 1));
            assert(b.maximal_in(first as int, end as int));
        }
        let ghost prev = r@;
        r.push(b);
        proof {
            assert(r@ == prev.push(b));
            lemma_in_blocks_push(prev, b);
            assert forall|a: int| in_blocks(r@, a) <==> first <= a < curr + sz by {
                assert(in_blocks(r@, a) <==> in_blocks(prev, a) || b.covers(a));
            }
            assert(r@[r@.len() - 1] == b);
            assert forall|i: int| 0 <= i < r@.len() implies (#[trigger] r@[i]).wf()
                && r@[i].maximal_in(first as int, end as int) by {
                if i < prev.len() {
                    assert(r@[i] == prev[i]);
                }
            }
            assert forall|i: int| 0 <= i && i + 1 < r@.len() implies r@[i + 1].start as int == (
            #[trigger] r@[i]).end() by {
                if i + 1 < prev.len() {
                    assert(r@[i] == prev[i] && r@[i + 1] == prev[i + 1]);
                } else {
                    assert(r@[i] == prev[prev.len() - 1] && r@[i + 1] == b);
                }
            }
        }
        curr = curr + sz;
    }
    proof {
        let s = range_set(first as int, last as int);
        assert(curr == end);
        assert forall|a: int| in_blocks(r@, a) <==> s.contains(a) by {
            assert(s.contains(a) <==> first <= a <= last);
        }
        assert forall|i: int| 0 <= i < r@.len() implies (#[trigger] r@[i]).maximal_for(s) by {
            lemma_maximal_range(r@[i], first as int, last as int);
        }
        assert forall|i: int| 0 <= i && i + 1 < r@.len() implies (#[trigger] r@[i]).end() <= r@[i
            + 1].start as int by {}
        assert(in_blocks(r@, first as int));
        assert(r@.len() > 0);
        assert(exact_cover(r@, s));
        assert forall|i: int| 0 <= i && i + 1 < r@.len() implies !(#[trigger] mergeable(
            r@[i],
            r@[i + 1],
        )) by {
            lemma_cover_not_mergeable(r@, s, i);
        }
    }
    r
}

/// A block that is maximal within a run `[rf, rl]` of present addresses is
/// maximal for the whole address set when the addresses bordering the run
/// are absent: the enclosing block would reach one of them.
proof fn lemma_maximal_lift(c: Cidr, rf: int, rl: int, s: Set<int>)
    requires
        c.wf(),
        c.maximal_in(rf, rl + 1),
        rf <= c.start as int,
        c.end() <= rl + 1,
        !s.contains(rf - 1),
        !s.contains(rl + 1),
    ensures
        c.maximal_for(s),
{
    if c.mask != 0 {
        lemma_parent_bounds(c);
        if c.parent_start() < rf {
            let a = rf - 1;
            assert(c.parent_start() + c.parent_size() >= c.end() > c.start as int >= rf);
            assert(c.parent_start() <= a < c.parent_start() + c.parent_size() && !s.contains(a));
        } else {
            let a = rl + 1;
            assert(c.parent_start() <= c.start as int <= rl);
            assert(c.parent_start() <= a < c.parent_start() + c.parent_size() && !s.contains(a));
        }
    }
}

/// Sequences with equal multisets hold the same address values.
proof fn lemma_values_subsumed(s1: Seq<u32>, s2: Seq<u32>)
    requires
        s1.to_multiset() == s2.to_multiset(),
    ensures
        forall|a: int| contains_addr(s1, a) ==> contains_addr(s2, a),
{
    assert forall|a: int| contains_addr(s1, a) implies contains_addr(s2, a) by {
        let k = choose|k: int| 0 <= k < s1.len() && (#[trigger] s1[k]) as int == a;
        let x = s1[k];
        assert(s1.contains(x));
        vstd::seq_lib::to_multiset_contains(s1, x);
        vstd::seq_lib::to_multiset_contains(s2, x);
        assert(s2.contains(x));
        let j = choose|j: int| 0 <= j < s2.len() && s2[j] == x;
        assert(s2[j] as int == a);
        assert(contains_addr(s2, a));
    }
}

/// Facts about the blocks produced for one maximal run `u[i..=j]` of
/// consecutive addresses of the strictly ascending list `u`.
proof fn lemma_run_blocks(u: Seq<u32>, addrs: Seq<u32>, i: int, j: int, blocks: Seq<Cidr>)
    requires
        0 <= i <= j < u.len(),
        forall|p: int, q: int| 0 <= p < q < u.len() ==> u[p] < u[q],
        forall|a: int| contains_addr(u, a) <==> contains_addr(addrs, a),
        i > 0 ==> u[i - 1] as int + 1 < u[i] as int,
        forall|k: int| i <= k <= j ==> (#[trigger] u[k]) as int == u[i] as int + (k - i),
        j + 1 < u.len() ==> u[j + 1] as int > u[j] as int + 1,
        forall|a: int| in_blocks(blocks, a) <==> u[i] as int <= a <= u[j] as int,
        forall|p: int| 0 <= p < blocks.len() ==> (#[trigger] blocks[p]).wf(),
        forall|p: int|
            0 <= p < blocks.len() ==> (#[trigger] blocks[p]).maximal_in(
                u[i] as int,
                u[j] as int + 1,
            ),
    ensures
        forall|p: int|
            0 <= p < blocks.len() ==> (#[trigger] blocks[p]).maximal_for(addr_set(addrs)),
        forall|p: int|
            0 <= p < blocks.len() ==> u[i] as int <= (#[trigger] blocks[p]).start as int
                && blocks[p].end() <= u[j] as int + 1,
        forall|a: int| u[i] as int <= a <= u[j] as int ==> contains_addr(u, a),
        !contains_addr(u, u[i] as int - 1),
        !contains_addr(u, u[j] as int + 1),
{
    let rf = u[i] as int;
    let rl = u[j] as int;
    assert forall|a: int| rf <= a <= rl implies contains_addr(u, a) by {
        let k = i + (a - rf);
        assert(u[k] as int == a);
    }
    assert(!contains_addr(u, rf - 1)) by {
        if contains_addr(u, rf - 1) {
            let k = choose|k: int| 0 <= k < u.len() && (#[trigger] u[k]) as int == rf - 1;
            if k < i {
                assert(u[k] <= u[i - 1]);
                assert(false);
            } else {
                assert(u[i] <= u[k]);
                assert(false);
            }
        }
    }
    assert(!contains_addr(u, rl + 1)) by {
        if contains_addr(u, rl + 1) {
            let k = choose|k: int| 0 <= k < u.len() && (#[trigger] u[k]) as int == rl + 1;
            if k <= j {
                assert(u[k] <= u[j]);
                assert(false);
            } else {
                assert(u[j + 1] <= u[k]);
                assert(false);
            }
        }
    }
    assert forall|p: int| 0 <= p < blocks.len() implies u[i] as int <= (
    #[trigger] blocks[p]).start as int && blocks[p].end() <= u[j] as int + 1 by {
        let b = blocks[p];
        assert(b.covers(b.start as int));
        assert(in_blocks(blocks, b.start as int));
        assert(b.covers(b.end() - 1));
        assert(in_blocks(blocks, b.end() - 1));
    }
    assert forall|p: int| 0 <= p < blocks.len() implies (#[trigger] blocks[p]).maximal_for(
        addr_set(addrs),
    ) by {
        assert(addr_set(addrs).contains(rf - 1) <==> contains_addr(addrs, rf - 1));
        assert(addr_set(addrs).contains(rl + 1) <==> contains_addr(addrs, rl + 1));
        lemma_maximal_lift(blocks[p], rf, rl, addr_set(addrs));
    }
}

/// Relies on `itertools::Itertools::sorted`: it collects the iterator's
/// items into a vector and sorts it with the standard ascending sort, so
/// the result is an ascending permutation of the input.
#[verifier::external_body]
fn sort_addrs(addrs: &[u32]) -> (r: Vec<u32>)
    ensures
        r@.to_multiset() == addrs@.to_multiset(),
        r@.len() == addrs@.len(),
        forall|i: int, j: int| 0 <= i < j < r@.len() ==> r@[i] <= r@[j],
{
    addrs.iter().copied().sorted().collect()
}

/// Removes duplicates from an ascending address list, leaving the strictly
/// ascending list of its distinct values.
fn dedup_sorted(v: &Vec<u32>) -> (r: Vec<u32>)
    requires
        forall|i: int, j: int| 0 <= i < j < v@.len() ==> v@[i] <= v@[j],
    ensures
        forall|i: int, j: int| 0 <= i < j < r@.len() ==> r@[i] < r@[j],
        forall|a: int| contains_addr(r@, a) <==> contains_addr(v@, a),
        v@.len() == 0 ==> r@.len() == 0,
{
    let mut r: Vec<u32> = Vec::new();
    let n = v.len();
    let mut i: usize = 0;
    while i < n
        invariant
            n == v@.len(),
            i <= n,
            forall|p: int, q: int| 0 <= p < q < v@.len() ==> v@[p] <= v@[q],
            forall|p: int, q: int| 0 <= p < q < r@.len() ==> r@[p] < r@[q],
            i > 0 ==> r@.len() > 0 && r@[r@.len() - 1] == v@[i - 1],
            i == 0 ==> r@.len() == 0,
            forall|a: int|
                contains_addr(r@, a) <==> exists|k: int|
                    0 <= k < i && (#[trigger] v@[k]) as int == a,
        decreases n - i,
    {
        let x = v[i];
        if r.len() == 0 || r[r.len() - 1] < x {
            let ghost prev = r@;
            r.push(x);
            proof {
                assert(r@ == prev.push(x));
                assert forall|a: int|
                    contains_addr(r@, a) <==> exists|k: int|
                        0 <= k < i + 1 && (#[trigger] v@[k]) as int == a by {
                    if contains_addr(r@, a) {
                        let p = choose|p: int| 0 <= p < r@.len() && (#[trigger] r@[p]) as int == a;
                        if p < prev.len() {
                            assert(prev[p] as int == a);
                            assert(contains_addr(prev, a));
                        } else {
                            assert(r@[p] == x);
                            assert(v@[i as int] as int == a);
                        }
                    }
                    if exists|k: int| 0 <= k < i + 1 && (#[trigger] v@[k]) as int == a {
                        let k = choose|k: int|
                            0 <= k < i + 1 && (#[trigger] v@[k]) as int == a;
                        if k < i {
                            assert(contains_addr(prev, a));
                            let p = choose|p: int|
                                0 <= p < prev.len() && (#[trigger] prev[p]) as int == a;
                            assert(r@[p] as int == a);
                            assert(contains_addr(r@, a));
                        } else {
                            assert(r@[r@.len() - 1] as int == a);
                            assert(contains_addr(r@, a));
                        }
                    }
                }
            }
        } else {
            proof {
                assert(r@[r@.len() - 1] == x);
                assert forall|a: int|
                    contains_addr(r@, a) <==> exists|k: int|
                        0 <= k < i + 1 && (#[trigger] v@[k]) as int == a by {
                    if exists|k: int| 0 <= k < i + 1 && (#[trigger] v@[k]) as int == a {
                        let k = choose|k: int|
                            0 <= k < i + 1 && (#[trigger] v@[k]) as int == a;
                        if k == i {
                            assert(r@[r@.len() - 1] as int == a);
                            assert(contains_addr(r@, a));
                        }
                    }
                }
            }
        }
        i = i + 1;
    }
    r
}

/// Aggregates an arbitrary, unordered, possibly-duplicated collection of
/// addresses into the minimal ascending list of CIDR blocks whose union is
/// exactly the set of distinct input addresses: maximal runs of consecutive
/// addresses are each decomposed as an inclusive range.
#[verifier::rlimit(60)]
pub fn addrs_to_cidrs(addrs: &[u32]) -> (r: Vec<Cidr>)
    ensures
        exact_cover(r@, addr_set(addrs@)),
        forall|a: int| in_blocks(r@, a) <==> contains_addr(addrs@, a),
        forall|i: int| 0 <= i && i + 1 < r@.len() ==> !(#[trigger] mergeable(r@[i], r@[i + 1])),
        r@.len() == 0 <==> addrs@.len() == 0,
{
    let sorted = sort_addrs(addrs);
    let u = dedup_sorted(&sorted);
    proof {
        lemma_values_subsumed(sorted@, addrs@);
        lemma_values_subsumed(addrs@, sorted@);
    }
    let n = u.len();
    let mut out: Vec<Cidr> = Vec::new();
    let mut i: usize = 0;
    while i < n
        invariant
            n == u@.len(),
            i <= n,
            forall|p: int, q: int| 0 <= p < q < u@.len() ==> u@[p] < u@[q],
            forall|a: int| contains_addr(u@, a) <==> contains_addr(addrs@, a),
            i > 0 && i < n ==> u@[i - 1] as int + 1 < u@[i as int] as int,
            forall|a: int|
                in_blocks(out@, a) <==> (contains_addr(u@, a) && (i < n ==> a < u@[
                    i as int
                ] as int)),
            forall|p: int| 0 <= p < out@.len() ==> (#[trigger] out@[p]).wf(),
            forall|p: int|
                0 <= p < out@.len() ==> (#[trigger] out@[p]).maximal_for(addr_set(addrs@)),
            forall|p: int|
                0 <= p && p + 1 < out@.len() ==> (#[trigger] out@[p]).end() <= out@[p
                    + 1].start as int,
            forall|p: int|
                0 <= p < out@.len() && i < n ==> (#[trigger] out@[p]).end() <= u@[
                    i as int
                ] as int,
        decreases n - i,
    {
        let rf = u[i];
        let mut j = i;
        while j + 1 < n && u[j + 1] as u64 == u[j] as u64 + 1
            invariant
                n == u@.len(),
                i <= j < n,
                forall|p: int, q: int| 0 <= p < q < u@.len() ==> u@[p] < u@[q],
                forall|k: int|
                    i <= k <= j ==> (#[trigger] u@[k]) as int == u@[i as int] as int + (k - i),
            decreases n - j,
        {
            j = j + 1;
        }
        let rl = u[j];
        proof {
            assert(rf <= rl);
            assert(j + 1 < n ==> u@[j + 1] as int > u@[j as int] as int + 1);
        }
        let blocks = range_to_cidrs(rf, rl);
        proof {
            lemma_run_blocks(u@, addrs@, i as int, j as int, blocks@);
        }
        let ghost prev_out = out@;
        let nb = blocks.len();
        let mut k: usize = 0;
        while k < nb
            invariant
                nb == blocks@.len(),
                k <= nb,
                out@ == prev_out + blocks@.subrange(0, k as int),
            decreases nb - k,
        {
            let b = blocks[k];
            out.push(b);
            k = k + 1;
            proof {
                assert(out@ =~= prev_out + blocks@.subrange(0, k as int));
            }
        }
        proof {
            assert(blocks@.subrange(0, blocks@.len() as int) =~= blocks@);
            assert(out@ == prev_out + blocks@);
            lemma_in_blocks_concat(prev_out, blocks@);
            let gi = i as int;
            let gj = j as int;
            let rfi = rf as int;
            let rli = rl as int;
            assert forall|p: int| 0 <= p < out@.len() implies (#[trigger] out@[p]).wf()
                && out@[p].maximal_for(addr_set(addrs@)) by {
                if p < prev_out.len() {
                    assert(out@[p] == prev_out[p]);
                } else {
                    assert(out@[p] == blocks@[p - prev_out.len()]);
                }
            }
            assert forall|p: int| 0 <= p && p + 1 < out@.len() implies (
            #[trigger] out@[p]).end() <= out@[p + 1].start as int by {
                if p + 1 < prev_out.len() {
                    assert(out@[p] == prev_out[p] && out@[p + 1] == prev_out[p + 1]);
                } else if p + 1 == prev_out.len() {
                    assert(out@[p] == prev_out[p] && out@[p + 1] == blocks@[0]);
                    assert(prev_out[p].end() <= u@[gi] as int);
                    assert(blocks@[0].start == rf);
                } else {
                    assert(out@[p] == blocks@[p - prev_out.len()]);
                    assert(out@[p + 1] == blocks@[p + 1 - prev_out.len()]);
                }
            }
            assert forall|p: int| 0 <= p < out@.len() && gj + 1 < n implies (
            #[trigger] out@[p]).end() <= u@[gj + 1] as int by {
                if p < prev_out.len() {
                    assert(out@[p] == prev_out[p]);
                    assert(prev_out[p].end() <= u@[gi] as int);
                    assert(u@[gi] <= u@[gj]);
                } else {
                    assert(out@[p] == blocks@[p - prev_out.len()]);
                    assert(blocks@[p - prev_out.len()].end() <= rli + 1);
                }
            }
            assert forall|a: int|
                in_blocks(out@, a) <==> (contains_addr(u@, a) && (gj + 1 < n ==> a < u@[gj
                    + 1] as int)) by {
                if in_blocks(out@, a) {
                    if in_blocks(prev_out, a) {
                        assert(contains_addr(u@, a) && a < u@[gi] as int);
                        assert(u@[gi] <= u@[gj]);
                        assert(gj + 1 < n ==> u@[gj] < u@[gj + 1]);
                    } else {
                        assert(in_blocks(blocks@, a));
                        assert(rfi <= a <= rli);
                        assert(contains_addr(u@, a));
                    }
                }
                if contains_addr(u@, a) && (gj + 1 < n ==> a < u@[gj + 1] as int) {
                    let k0 = choose|k0: int| 0 <= k0 < u@.len() && (#[trigger] u@[k0]) as int == a;
                    if k0 < gi {
                        assert(u@[k0] < u@[gi]);
                        assert(in_blocks(prev_out, a));
                    } else if k0 <= gj {
                        assert(u@[k0] as int == u@[gi] as int + (k0 - gi));
                        assert(rfi <= a <= rli);
                        assert(in_blocks(blocks@, a));
                    } else {
                        assert(gj + 1 < n ==> u@[gj + 1] <= u@[k0]);
                        assert(false);
                    }
                }
            }
        }
        i = j + 1;
    }
    proof {
        let s = addr_set(addrs@);
        assert forall|a: int| in_blocks(out@, a) <==> s.contains(a) by {
            assert(s.contains(a) <==> contains_addr(addrs@, a));
        }
        assert(exact_cover(out@, s));
        assert forall|p: int| 0 <= p && p + 1 < out@.len() implies !(#[trigger] mergeable(
            out@[p],
            out@[p + 1],
        )) by {
            lemma_cover_not_mergeable(out@, s, p);
        }
        if addrs@.len() > 0 {
            assert(contains_addr(addrs@, addrs@[0] as int));
            assert(in_blocks(out@, addrs@[0] as int));
        }
        if out@.len() > 0 {
            assert(out@[0].covers(out@[0].start as int));
            assert(in_blocks(out@, out@[0].start as int));
            assert(contains_addr(addrs@, out@[0].start as int));
        }
    }
    out
}

} // verus!
