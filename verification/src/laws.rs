//! Global properties of exact covers, proved once for both aggregators.

use vstd::prelude::*;
use vstd::arithmetic::power2::{lemma_pow2_pos, lemma_pow2_strictly_increases, pow2};
use crate::arith::{lemma_aligned_block_base, lemma_dyadic_nested, lemma_pow2_le};
use crate::cidr::{lemma_parent_bounds, Cidr};
use crate::to_addrs::{block_addrs, flatten_addrs};
use crate::to_cidrs::{addr_set, exact_cover, in_blocks};

verus! {

broadcast use lemma_pow2_pos;

/// What remains of an address set after taking one block out of it.
spec fn residual(s: Set<int>, c: Cidr) -> Set<int> {
    Set::new(|x: int| s.contains(x) && !c.covers(x))
}

/// Every block of an exact cover covers only addresses of the set.
proof fn lemma_cover_blocks_covered(blocks: Seq<Cidr>, s: Set<int>)
    requires
        exact_cover(blocks, s),
    ensures
        forall|p: int| 0 <= p < blocks.len() ==> (#[trigger] blocks[p]).covered_by(s),
{
    assert forall|p: int| 0 <= p < blocks.len() implies (#[trigger] blocks[p]).covered_by(s) by {
        assert forall|x: int| blocks[p].covers(x) implies s.contains(x) by {
            assert(in_blocks(blocks, x));
        }
    }
}

/// The blocks of an exact cover are pairwise non-overlapping: every earlier
/// block ends at or before a later block begins.
pub proof fn lemma_ordered_pair(blocks: Seq<Cidr>, s: Set<int>, i: int, j: int)
    requires
        exact_cover(blocks, s),
        0 <= i < j < blocks.len(),
    ensures
        blocks[i].end() <= blocks[j].start as int,
    decreases j - i,
{
    if j > i + 1 {
        lemma_ordered_pair(blocks, s, i, j - 1);
        assert(blocks[j - 1].end() <= blocks[j].start as int);
    }
}

/// Two maximal blocks of the same set cannot nest: one sharing an address
/// with a larger block would have its enclosing block inside that larger
/// block, which its maximality forbids.
proof fn lemma_block_not_smaller(b1: Cidr, b2: Cidr, s: Set<int>, a: int)
    requires
        b1.wf(),
        b2.wf(),
        b1.maximal_for(s),
        b1.covers(a),
        b2.covers(a),
        b2.covered_by(s),
    ensures
        b1.size() >= b2.size(),
{
    if b1.size() < b2.size() {
        let e1 = (32 - b1.mask) as nat;
        let e2 = (32 - b2.mask) as nat;
        if e2 <= e1 {
            lemma_pow2_le(e2, e1);
            assert(false);
        }
        assert(b1.mask >= 1);
        lemma_parent_bounds(b1);
        lemma_aligned_block_base(b2.start as int, a, b2.size());
        lemma_aligned_block_base(b1.parent_start(), a, b1.parent_size());
        assert(b1.parent_size() == pow2(e1 + 1));
        lemma_dyadic_nested(a, e1 + 1, e2);
        assert(b2.start as int <= b1.parent_start());
        assert(b1.parent_start() + b1.parent_size() <= b2.end());
        let w = choose|w: int|
            b1.parent_start() <= w < b1.parent_start() + b1.parent_size() && !s.contains(w);
        assert(b2.covers(w));
        assert(s.contains(w));
        assert(false);
    }
}

/// A maximal block of a set is determined by any one address it covers.
proof fn lemma_block_unique(b1: Cidr, b2: Cidr, s: Set<int>, a: int)
    requires
        b1.wf(),
        b2.wf(),
        b1.maximal_for(s),
        b2.maximal_for(s),
        b1.covered_by(s),
        b2.covered_by(s),
        b1.covers(a),
        b2.covers(a),
    ensures
        b1 == b2,
{
    lemma_block_not_smaller(b1, b2, s, a);
    lemma_block_not_smaller(b2, b1, s, a);
    lemma_aligned_block_base(b1.start as int, a, b1.size());
    lemma_aligned_block_base(b2.start as int, a, b2.size());
    assert(b1.start == b2.start);
    let e1 = (32 - b1.mask) as nat;
    let e2 = (32 - b2.mask) as nat;
    if e1 < e2 {
        lemma_pow2_strictly_increases(e1, e2);
    }
    if e2 < e1 {
        lemma_pow2_strictly_increases(e2, e1);
    }
    assert(b1.mask == b2.mask);
}

/// Taking the first block off an exact cover leaves an exact cover of the
/// residual set.
proof fn lemma_tail_cover(blocks: Seq<Cidr>, s: Set<int>)
    requires
        exact_cover(blocks, s),
        blocks.len() > 0,
    ensures
        exact_cover(blocks.drop_first(), residual(s, blocks[0])),
{
    let t = blocks.drop_first();
    let s2 = residual(s, blocks[0]);
    assert forall|p: int| 0 <= p < t.len() implies (#[trigger] t[p]).wf() && t[p].maximal_for(
        s2,
    ) by {
        assert(t[p] == blocks[p + 1]);
        assert(blocks[p + 1].maximal_for(s));
        if blocks[p + 1].mask != 0 {
            let w = choose|w: int|
                blocks[p + 1].parent_start() <= w < blocks[p + 1].parent_start() + blocks[p
                    + 1].parent_size() && !s.contains(w);
            assert(!s2.contains(w));
        }
    }
    assert forall|p: int| 0 <= p && p + 1 < t.len() implies (#[trigger] t[p]).end() <= t[p
        + 1].start as int by {
        assert(t[p] == blocks[p + 1] && t[p + 1] == blocks[p + 2]);
    }
    assert forall|x: int| in_blocks(t, x) <==> s2.contains(x) by {
        if in_blocks(t, x) {
            let p = choose|p: int| 0 <= p < t.len() && (#[trigger] t[p]).covers(x);
            assert(blocks[p + 1].covers(x));
            assert(in_blocks(blocks, x));
            lemma_ordered_pair(blocks, s, 0, p + 1);
            assert(!blocks[0].covers(x));
            assert(s2.contains(x));
        }
        if s2.contains(x) {
            assert(in_blocks(blocks, x));
            let m = choose|m: int| 0 <= m < blocks.len() && (#[trigger] blocks[m]).covers(x);
            assert(m != 0);
            assert(t[m - 1] == blocks[m]);
            assert(in_blocks(t, x));
        }
    }
}

/// A cover of a set covered by a nonempty cover is itself nonempty.
proof fn lemma_cover_nonempty(b1: Seq<Cidr>, b2: Seq<Cidr>, s: Set<int>)
    requires
        exact_cover(b1, s),
        exact_cover(b2, s),
        b2.len() > 0,
    ensures
        b1.len() > 0,
{
    assert(b2[0].covers(b2[0].start as int));
    assert(in_blocks(b2, b2[0].start as int));
    assert(s.contains(b2[0].start as int));
    assert(in_blocks(b1, b2[0].start as int));
    let i = choose|i: int| 0 <= i < b1.len() && (#[trigger] b1[i]).covers(b2[0].start as int);
    assert(b1.len() > 0);
}

/// Two exact covers of one set begin with the same block.
proof fn lemma_heads_equal(b1: Seq<Cidr>, b2: Seq<Cidr>, s: Set<int>)
    requires
        exact_cover(b1, s),
        exact_cover(b2, s),
        b1.len() > 0,
        b2.len() > 0,
    ensures
        b1[0] == b2[0],
{
    lemma_cover_blocks_covered(b1, s);
    lemma_cover_blocks_covered(b2, s);
    let a1 = b1[0].start as int;
    let a2 = b2[0].start as int;
    assert(b1[0].covers(a1));
    assert(in_blocks(b1, a1));
    assert(s.contains(a1));
    assert(in_blocks(b2, a1));
    let j = choose|j: int| 0 <= j < b2.len() && (#[trigger] b2[j]).covers(a1);
    if j > 0 {
        lemma_ordered_pair(b2, s, 0, j);
    }
    assert(a2 <= a1);
    assert(b2[0].covers(a2));
    assert(in_blocks(b2, a2));
    assert(s.contains(a2));
    assert(in_blocks(b1, a2));
    let k = choose|k: int| 0 <= k < b1.len() && (#[trigger] b1[k]).covers(a2);
    if k > 0 {
        lemma_ordered_pair(b1, s, 0, k);
    }
    assert(a1 <= a2);
    lemma_block_unique(b1[0], b2[0], s, a1);
}

/// An address set has exactly one exact cover: the two aggregators'
/// contracts pin their output down to the one canonical block list.
#[verifier::rlimit(100)]
#[verifier::spinoff_prover]
pub proof fn lemma_cover_unique(b1: Seq<Cidr>, b2: Seq<Cidr>, s: Set<int>)
    requires
        exact_cover(b1, s),
        exact_cover(b2, s),
    ensures
        b1 == b2,
    decreases b1.len(),
{
    if b1.len() == 0 || b2.len() == 0 {
        if b2.len() > 0 {
            lemma_cover_nonempty(b1, b2, s);
        }
        if b1.len() > 0 {
            lemma_cover_nonempty(b2, b1, s);
        }
        assert(b1 =~= b2);
    } else {
        lemma_heads_equal(b1, b2, s);
        lemma_tail_cover(b1, s);
        lemma_tail_cover(b2, s);
        lemma_cover_unique(b1.drop_first(), b2.drop_first(), residual(s, b1[0]));
        assert(b1 =~= b2) by {
            assert(b1.len() == b2.len());
            assert forall|i: int| 0 <= i < b1.len() implies b1[i] == b2[i] by {
                if i > 0 {
                    assert(b1.drop_first()[i - 1] == b2.drop_first()[i - 1]);
                }
            }
        }
    }
}

/// Aggregation is a function of the distinct input addresses alone: for
/// inputs with the same distinct addresses, any block lists satisfying the
/// aggregation contract are the same list, whatever the inputs' order or
/// multiplicity.
pub proof fn lemma_aggregation_deterministic(
    addrs1: Seq<u32>,
    addrs2: Seq<u32>,
    r1: Seq<Cidr>,
    r2: Seq<Cidr>,
)
    requires
        addr_set(addrs1) == addr_set(addrs2),
        exact_cover(r1, addr_set(addrs1)),
        exact_cover(r2, addr_set(addrs2)),
    ensures
        r1 == r2,
{
    lemma_cover_unique(r1, r2, addr_set(addrs1));
}

/// Two strictly ascending integer lists with the same members are equal.
proof fn lemma_sorted_unique(x: Seq<int>, y: Seq<int>)
    requires
        forall|i: int, j: int| 0 <= i < j < x.len() ==> x[i] < x[j],
        forall|i: int, j: int| 0 <= i < j < y.len() ==> y[i] < y[j],
        forall|a: int| x.contains(a) <==> y.contains(a),
    ensures
        x == y,
    decreases x.len(),
{
    if x.len() == 0 {
        if y.len() > 0 {
            assert(y.contains(y[0]));
            assert(x.contains(y[0]));
            let i = choose|i: int| 0 <= i < x.len() && x[i] == y[0];
            assert(false);
        }
        assert(x =~= y);
    } else {
        if y.len() == 0 {
            assert(x.contains(x[0]));
            assert(y.contains(x[0]));
            let i = choose|i: int| 0 <= i < y.len() && y[i] == x[0];
            assert(false);
        }
        assert(x.contains(x[0]));
        assert(y.contains(x[0]));
        let j = choose|j: int| 0 <= j < y.len() && y[j] == x[0];
        assert(y[0] <= y[j]);
        assert(y.contains(y[0]));
        assert(x.contains(y[0]));
        let k = choose|k: int| 0 <= k < x.len() && x[k] == y[0];
        assert(x[0] <= x[k]);
        assert(x[0] == y[0]);
        let xt = x.drop_first();
        let yt = y.drop_first();
        assert forall|a: int| xt.contains(a) <==> yt.contains(a) by {
            lemma_tail_members(x, a);
            lemma_tail_members(y, a);
        }
        lemma_sorted_unique(xt, yt);
        assert(x =~= y) by {
            assert forall|i: int| 0 <= i < x.len() implies x[i] == y[i] by {
                if i > 0 {
                    assert(xt[i - 1] == yt[i - 1]);
                }
            }
        }
    }
}

/// In a strictly ascending list, the tail holds exactly the members other
/// than the head.
proof fn lemma_tail_members(x: Seq<int>, a: int)
    requires
        forall|i: int, j: int| 0 <= i < j < x.len() ==> x[i] < x[j],
        x.len() > 0,
    ensures
        x.drop_first().contains(a) <==> (x.contains(a) && a != x[0]),
{
    let t = x.drop_first();
    if t.contains(a) {
        let i = choose|i: int| 0 <= i < t.len() && t[i] == a;
        assert(x[i + 1] == a);
        assert(x.contains(a));
        assert(x[0] < x[i + 1]);
    }
    if x.contains(a) && a != x[0] {
        let i = choose|i: int| 0 <= i < x.len() && x[i] == a;
        assert(i != 0);
        assert(t[i - 1] == a);
        assert(t.contains(a));
    }
}

/// The full enumeration of an exact cover, block by block, is strictly
/// ascending and holds exactly the addresses of the covered set.
pub proof fn lemma_cover_enumerates(blocks: Seq<Cidr>, s: Set<int>)
    requires
        exact_cover(blocks, s),
    ensures
        forall|i: int, j: int|
            0 <= i < j < flatten_addrs(blocks).len() ==> flatten_addrs(blocks)[i] < flatten_addrs(
                blocks,
            )[j],
        forall|a: int| flatten_addrs(blocks).contains(a) <==> s.contains(a),
    decreases blocks.len(),
{
    let f = flatten_addrs(blocks);
    if blocks.len() == 0 {
        assert forall|a: int| f.contains(a) <==> s.contains(a) by {
            if f.contains(a) {
                let i = choose|i: int| 0 <= i < f.len() && f[i] == a;
                assert(false);
            }
            if s.contains(a) {
                assert(in_blocks(blocks, a));
                let i = choose|i: int| 0 <= i < blocks.len() && (#[trigger] blocks[i]).covers(a);
                assert(false);
            }
        }
    } else {
        let h = blocks[0];
        let t = blocks.drop_first();
        let s2 = residual(s, h);
        lemma_tail_cover(blocks, s);
        lemma_cover_enumerates(t, s2);
        let bh = block_addrs(h);
        let ft = flatten_addrs(t);
        assert(f == bh + ft);
        assert(bh.len() == h.size());
        // every tail address lies at or above the head block's end
        assert forall|i: int| 0 <= i < ft.len() implies h.end() <= ft[i] by {
            assert(ft.contains(ft[i]));
            assert(s2.contains(ft[i]));
            assert(in_blocks(t, ft[i]));
            let p = choose|p: int| 0 <= p < t.len() && (#[trigger] t[p]).covers(ft[i]);
            assert(t[p] == blocks[p + 1]);
            lemma_ordered_pair(blocks, s, 0, p + 1);
        }
        assert forall|i: int, j: int| 0 <= i < j < f.len() implies f[i] < f[j] by {
            if j < bh.len() {
                assert(f[i] == bh[i] && f[j] == bh[j]);
            } else if i < bh.len() {
                assert(f[i] == bh[i] && f[j] == ft[j - bh.len()]);
                assert(bh[i] < h.end());
            } else {
                assert(f[i] == ft[i - bh.len()] && f[j] == ft[j - bh.len()]);
            }
        }
        assert forall|a: int| f.contains(a) <==> s.contains(a) by {
            if f.contains(a) {
                let i = choose|i: int| 0 <= i < f.len() && f[i] == a;
                if i < bh.len() {
                    assert(bh[i] == a);
                    assert(h.covers(a));
                    assert(in_blocks(blocks, a));
                } else {
                    assert(ft[i - bh.len()] == a);
                    assert(ft.contains(a));
                    assert(s2.contains(a));
                }
            }
            if s.contains(a) {
                if h.covers(a) {
                    assert(bh[a - h.start] == a);
                    assert(f[a - h.start] == a);
                    assert(f.contains(a));
                } else {
                    assert(s2.contains(a));
                    assert(ft.contains(a));
                    let i = choose|i: int| 0 <= i < ft.len() && ft[i] == a;
                    assert(f[bh.len() + i] == a);
                    assert(f.contains(a));
                }
            }
        }
    }
}

/// Set round-trip: expanding every block of an aggregation result in order
/// yields exactly the ascending list of the distinct input addresses.
pub proof fn lemma_set_round_trip(addrs: Seq<u32>, blocks: Seq<Cidr>, u: Seq<int>)
    requires
        exact_cover(blocks, addr_set(addrs)),
        forall|i: int, j: int| 0 <= i < j < u.len() ==> u[i] < u[j],
        forall|a: int| u.contains(a) <==> addr_set(addrs).contains(a),
    ensures
        flatten_addrs(blocks) == u,
{
    lemma_cover_enumerates(blocks, addr_set(addrs));
    lemma_sorted_unique(flatten_addrs(blocks), u);
}

} // verus!
