//! Expansion of a list of CIDR blocks into the full list of addresses.

use vstd::prelude::*;
use vstd::arithmetic::power2::pow2;
use crate::cidr::Cidr;

verus! {

/// The addresses of one block, in ascending order.
pub open spec fn block_addrs(c: Cidr) -> Seq<int> {
    Seq::new(c.size() as nat, |k: int| c.start + k)
}

/// The addresses of a list of blocks, block by block, in list order.
pub open spec fn flatten_addrs(blocks: Seq<Cidr>) -> Seq<int>
    decreases blocks.len(),
{
    if blocks.len() == 0 {
        Seq::empty()
    } else {
        block_addrs(blocks[0]) + flatten_addrs(blocks.drop_first())
    }
}

/// Flattening distributes over appending one block at the end.
proof fn lemma_flatten_push(blocks: Seq<Cidr>, c: Cidr)
    ensures
        flatten_addrs(blocks.push(c)) == flatten_addrs(blocks) + block_addrs(c),
    decreases blocks.len(),
{
    if blocks.len() == 0 {
        assert(blocks.push(c)[0] == c);
        assert(blocks.push(c).drop_first() =~= Seq::<Cidr>::empty());
        assert(flatten_addrs(blocks.push(c)) == block_addrs(c) + flatten_addrs(
            Seq::<Cidr>::empty(),
        ));
        assert(block_addrs(c) + Seq::<int>::empty() =~= block_addrs(c));
        assert(flatten_addrs(blocks) + block_addrs(c) =~= block_addrs(c));
    } else {
        assert(blocks.push(c)[0] == blocks[0]);
        assert(blocks.push(c).drop_first() =~= blocks.drop_first().push(c));
        lemma_flatten_push(blocks.drop_first(), c);
        assert(flatten_addrs(blocks.push(c)) == block_addrs(blocks[0]) + (flatten_addrs(
            blocks.drop_first(),
        ) + block_addrs(c)));
        assert(block_addrs(blocks[0]) + (flatten_addrs(blocks.drop_first()) + block_addrs(c)) =~= (
        block_addrs(blocks[0]) + flatten_addrs(blocks.drop_first())) + block_addrs(c));
    }
}

/// Expands every block of the list and concatenates the results, in block
/// order.
pub fn cidrs_to_addrs(cidrs: &[Cidr]) -> (r: Vec<u32>)
    requires
        forall|i: int|
            0 <= i < cidrs@.len() ==> (#[trigger] cidrs@[i]).mask <= 32 && cidrs@[i].end() <= pow2(
                32,
            ),
    ensures
        r@.map_values(|x: u32| x as int) == flatten_addrs(cidrs@),
{
    let mut r: Vec<u32> = Vec::new();
    let n = cidrs.len();
    let mut i: usize = 0;
    proof {
        assert(cidrs@.subrange(0, 0) =~= Seq::<Cidr>::empty());
        assert(r@.map_values(|x: u32| x as int) =~= flatten_addrs(cidrs@.subrange(0, 0)));
    }
    while i < n
        invariant
            n == cidrs@.len(),
            i <= n,
            forall|p: int|
                0 <= p < cidrs@.len() ==> (#[trigger] cidrs@[p]).mask <= 32 && cidrs@[p].end()
                    <= pow2(32),
            r@.map_values(|x: u32| x as int) == flatten_addrs(cidrs@.subrange(0, i as int)),
        decreases n - i,
    {
        let c = cidrs[i];
        let a = c.expand();
        let ghost prev = r@;
        let m = a.len();
        let mut k: usize = 0;
        while k < m
            invariant
                m == a@.len(),
                k <= m,
                r@ == prev + a@.subrange(0, k as int),
            decreases m - k,
        {
            let x = a[k];
            r.push(x);
            k = k + 1;
            proof {
                assert(r@ =~= prev + a@.subrange(0, k as int));
            }
        }
        proof {
            assert(a@.subrange(0, a@.len() as int) =~= a@);
            assert(r@ == prev + a@);
            assert(a@.map_values(|x: u32| x as int) =~= block_addrs(c));
            assert(cidrs@.subrange(0, i as int).push(c) =~= cidrs@.subrange(0, i as int + 1));
            lemma_flatten_push(cidrs@.subrange(0, i as int), c);
            assert(r@.map_values(|x: u32| x as int) =~= prev.map_values(|x: u32| x as int)
                + a@.map_values(|x: u32| x as int));
        }
        i = i + 1;
    }
    proof {
        assert(cidrs@.subrange(0, n as int) =~= cidrs@);
    }
    r
}

} // verus!
