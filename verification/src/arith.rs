//! Powers of two for the codecs.

use vstd::prelude::*;
use vstd::arithmetic::power2::{pow2, lemma_pow2_unfold, lemma_pow2_strictly_increases, lemma2_to64};

verus! {

/// `2^d` as a machine integer.
pub fn pow2_exec(d: usize) -> (r: u64)
    requires
        d < 32,
    ensures
        r == pow2(d as nat),
        1 <= r <= 0x8000_0000,
{
    let mut r: u64 = 1;
    let mut i: usize = 0;
    proof {
        lemma2_to64();
    }
    while i < d
        invariant
            i <= d,
            d < 32,
            r == pow2(i as nat),
            1 <= r <= 0x8000_0000,
            pow2(31) == 0x8000_0000,
        decreases d - i,
    {
        proof {
            lemma_pow2_unfold((i + 1) as nat);
            if i + 1 < 31 {
                lemma_pow2_strictly_increases((i + 1) as nat, 31);
            }
        }
        r = r * 2;
        i += 1;
    }
    r
}

} // verus!
