//! Alignment facts about powers of two, shared by the aggregation proofs.

use vstd::prelude::*;
use vstd::arithmetic::power2::{
    pow2, lemma_pow2_adds, lemma_pow2_pos, lemma_pow2_strictly_increases, lemma_pow2_unfold,
};
use vstd::arithmetic::div_mod::{
    lemma_add_mod_noop, lemma_fundamental_div_mod, lemma_fundamental_div_mod_converse,
    lemma_mod_bound, lemma_mod_mod, lemma_mod_multiples_basic, lemma_small_mod,
};

verus! {

/// A value aligned to a larger power of two is aligned to any smaller one.
pub(crate) proof fn lemma_aligned_lower(x: int, i: nat, j: nat)
    requires
        i <= j,
        x % (pow2(j) as int) == 0,
    ensures
        x % (pow2(i) as int) == 0,
{
    lemma_pow2_pos(i);
    lemma_pow2_pos(j);
    lemma_pow2_pos((j - i) as nat);
    lemma_pow2_adds(i, (j - i) as nat);
    let q = x / (pow2(j) as int);
    lemma_fundamental_div_mod(x, pow2(j) as int);
    assert(x == (pow2((j - i) as nat) * q) * pow2(i)) by (nonlinear_arith)
        requires
            x == pow2(j) * q,
            pow2(j) == pow2(i) * pow2((j - i) as nat),
    ;
    lemma_mod_multiples_basic(pow2((j - i) as nat) * q, pow2(i) as int);
}

/// The sum of two aligned values is aligned.
pub(crate) proof fn lemma_aligned_add(x: int, y: int, m: int)
    requires
        0 < m,
        x % m == 0,
        y % m == 0,
    ensures
        (x + y) % m == 0,
{
    lemma_add_mod_noop(x, y, m);
    lemma_small_mod(0, m as nat);
}

/// A value aligned to `2^k` but not to `2^(k+1)` sits exactly one
/// `2^k`-step above a `2^(k+1)` boundary.
pub(crate) proof fn lemma_mod_half(x: int, k: nat)
    requires
        x % (pow2(k) as int) == 0,
        x % (pow2(k + 1) as int) != 0,
    ensures
        x % (pow2(k + 1) as int) == pow2(k),
{
    lemma_pow2_pos(k);
    lemma_pow2_unfold(k + 1);
    let p = pow2(k) as int;
    assert(pow2(k + 1) == p * 2);
    lemma_mod_mod(x, p, 2);
    let r = x % (p * 2);
    lemma_mod_bound(x, p * 2);
    lemma_fundamental_div_mod(r, p);
    assert(r == p * (r / p));
    assert(r / p == 1) by (nonlinear_arith)
        requires
            p > 0,
            r == p * (r / p),
            0 < r < 2 * p,
    ;
}

/// The aligned interval of size `s` that contains `a` starts at `a - a % s`.
pub(crate) proof fn lemma_aligned_block_base(x: int, a: int, s: int)
    requires
        0 < s,
        x % s == 0,
        x <= a < x + s,
    ensures
        x == a - a % s,
{
    lemma_fundamental_div_mod(x, s);
    assert(x == s * (x / s));
    assert(s * (x / s) == (x / s) * s) by (nonlinear_arith);
    lemma_fundamental_div_mod_converse(a, s, x / s, a - x);
}

/// Powers of two are monotone in the exponent.
pub(crate) proof fn lemma_pow2_le(i: nat, j: nat)
    requires
        i <= j,
    ensures
        pow2(i) <= pow2(j),
{
    if i < j {
        lemma_pow2_strictly_increases(i, j);
    }
}

/// Aligned power-of-two intervals around a common point are nested: the
/// one for the smaller size lies inside the one for the larger size.
pub(crate) proof fn lemma_dyadic_nested(a: int, i: nat, j: nat)
    requires
        i <= j,
    ensures
        a - a % (pow2(j) as int) <= a - a % (pow2(i) as int),
        (a - a % (pow2(i) as int)) + pow2(i) <= (a - a % (pow2(j) as int)) + pow2(j),
{
    lemma_pow2_pos(i);
    lemma_pow2_pos(j);
    lemma_pow2_adds(i, (j - i) as nat);
    let di = pow2(i) as int;
    let dj = pow2(j) as int;
    assert(di * (pow2((j - i) as nat) as int) == dj);
    lemma_mod_mod(a, di, pow2((j - i) as nat) as int);
    let ri = a % di;
    let rj = a % dj;
    lemma_mod_bound(a, di);
    lemma_mod_bound(a, dj);
    assert(rj % di == ri);
    if rj < di {
        lemma_small_mod(rj as nat, di as nat);
    }
    lemma_fundamental_div_mod(rj, di);
    assert(rj == di * (rj / di) + ri);
    assert(di * (rj / di) <= dj - di) by (nonlinear_arith)
        requires
            di > 0,
            dj == di * (pow2((j - i) as nat) as int),
            di * (rj / di) + ri == rj,
            0 <= ri < di,
            0 <= rj < dj,
    ;
}

} // verus!
