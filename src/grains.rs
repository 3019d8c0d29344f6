use vstd::prelude::*;
use vstd::arithmetic::power2::{lemma2_to64, lemma2_to64_rest, pow2};
use vstd::bits::{lemma_u64_pow2_no_overflow, lemma_u64_shl_is_mul};

verus! {

/// The grains on the first `n` squares of the board together.
pub open spec fn grains_up_to(n: nat) -> nat
    decreases n,
{
    if n == 0 {
        0
    } else {
        grains_up_to((n - 1) as nat) + pow2((n - 1) as nat)
    }
}

/// The first `n` squares hold one grain less than square `n + 1`.
pub proof fn lemma_grains_up_to(n: nat)
    ensures
        grains_up_to(n) == pow2(n) - 1,
    decreases n,
{
    if n > 0 {
        lemma_grains_up_to((n - 1) as nat);
        vstd::arithmetic::power2::lemma_pow2_unfold(n);
    } else {
        lemma2_to64();
    }
}

/// The grains on square `s` of the chessboard (1 to 64): one on the first,
/// doubling from each square to the next.
pub fn square(s: u32) -> (r: u64)
    requires
        1 <= s <= 64,
    ensures
        r == pow2((s - 1) as nat),
{
    let e = (s - 1) as u64;
    proof {
        lemma_u64_pow2_no_overflow(e as nat);
        lemma_u64_shl_is_mul(1, e);
    }
    1u64 << e
}

/// The grains on the whole board.
pub fn total() -> (r: u64)
    ensures
        r == grains_up_to(64),
{
    proof {
        lemma_grains_up_to(64);
        lemma2_to64();
        lemma2_to64_rest();
    }
    0xffff_ffff_ffff_ffff
}

} // verus!
