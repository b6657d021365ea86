//! Powers of two as machine integers.
use vstd::arithmetic::power2::{
    lemma2_to64, lemma2_to64_rest, lemma_pow2_strictly_increases, lemma_pow2_unfold, pow2,
};
use vstd::prelude::*;

verus! {

/// `2^k` as an `i128`.
pub fn pow2_i128(k: usize) -> (r: i128)
    requires
        k < 64,
    ensures
        r == pow2(k as nat),
        r > 0,
{
    let mut r: i128 = 1;
    let mut i: usize = 0;
    proof {
        lemma2_to64();
    }
    while i < k
        invariant
            i <= k < 64,
            r == pow2(i as nat),
            0 < r < 0x1_0000_0000_0000_0000,
            pow2(64) == 0x1_0000_0000_0000_0000,
        decreases k - i,
    {
        proof {
            lemma_pow2_unfold((i + 1) as nat);
            lemma_pow2_strictly_increases((i + 1) as nat, 64);
        }
        r = r * 2;
        i = i + 1;
    }
    r
}

/// `2^k` as an `i64`.
pub fn pow2_i64(k: usize) -> (r: i64)
    requires
        k < 62,
    ensures
        r == pow2(k as nat),
        r > 0,
{
    let mut r: i64 = 1;
    let mut i: usize = 0;
    proof {
        lemma2_to64();
        lemma2_to64_rest();
    }
    while i < k
        invariant
            i <= k < 62,
            r == pow2(i as nat),
            0 < r <= pow2(61),
            pow2(61) == 0x2000_0000_0000_0000,
        decreases k - i,
    {
        proof {
            lemma_pow2_unfold((i + 1) as nat);
            if i + 1 < 61 {
                lemma_pow2_strictly_increases((i + 1) as nat, 61);
            }
        }
        r = r * 2;
        i = i + 1;
    }
    r
}

} // verus!
