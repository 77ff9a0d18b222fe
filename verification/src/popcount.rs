use vstd::prelude::*;

verus! {

/// Number of 1-bits in `w`: the low bit, plus the count for the remaining
/// bits after shifting it out.
pub open spec fn spec_popcount(w: u64) -> nat
    decreases w,
{
    if w == 0 {
        0
    } else {
        ((w % 2) + spec_popcount((w / 2) as u64)) as nat
    }
}

/// The same count written as an explicit sum over all 64 bit positions,
/// a form the bit-vector solver can reason about directly.
spec fn sum64(w: u64) -> int {
    ((w >> 0) & 1)
        + ((w >> 1) & 1)
        + ((w >> 2) & 1)
        + ((w >> 3) & 1)
        + ((w >> 4) & 1)
        + ((w >> 5) & 1)
        + ((w >> 6) & 1)
        + ((w >> 7) & 1)
        + ((w >> 8) & 1)
        + ((w >> 9) & 1)
        + ((w >> 10) & 1)
        + ((w >> 11) & 1)
        + ((w >> 12) & 1)
        + ((w >> 13) & 1)
        + ((w >> 14) & 1)
        + ((w >> 15) & 1)
        + ((w >> 16) & 1)
        + ((w >> 17) & 1)
        + ((w >> 18) & 1)
        + ((w >> 19) & 1)
        + ((w >> 20) & 1)
        + ((w >> 21) & 1)
        + ((w >> 22) & 1)
        + ((w >> 23) & 1)
        + ((w >> 24) & 1)
        + ((w >> 25) & 1)
        + ((w >> 26) & 1)
        + ((w >> 27) & 1)
        + ((w >> 28) & 1)
        + ((w >> 29) & 1)
        + ((w >> 30) & 1)
        + ((w >> 31) & 1)
        + ((w >> 32) & 1)
        + ((w >> 33) & 1)
        + ((w >> 34) & 1)
        + ((w >> 35) & 1)
        + ((w >> 36) & 1)
        + ((w >> 37) & 1)
        + ((w >> 38) & 1)
        + ((w >> 39) & 1)
        + ((w >> 40) & 1)
        + ((w >> 41) & 1)
        + ((w >> 42) & 1)
        + ((w >> 43) & 1)
        + ((w >> 44) & 1)
        + ((w >> 45) & 1)
        + ((w >> 46) & 1)
        + ((w >> 47) & 1)
        + ((w >> 48) & 1)
        + ((w >> 49) & 1)
        + ((w >> 50) & 1)
        + ((w >> 51) & 1)
        + ((w >> 52) & 1)
        + ((w >> 53) & 1)
        + ((w >> 54) & 1)
        + ((w >> 55) & 1)
        + ((w >> 56) & 1)
        + ((w >> 57) & 1)
        + ((w >> 58) & 1)
        + ((w >> 59) & 1)
        + ((w >> 60) & 1)
        + ((w >> 61) & 1)
        + ((w >> 62) & 1)
        + ((w >> 63) & 1)
}

proof fn lemma_sum64_zero()
    by (bit_vector)
    ensures
        sum64(0u64) == 0,
{
}

#[verifier::rlimit(100)]
proof fn lemma_sum64_step(w: u64)
    by (bit_vector)
    ensures
        sum64(w) == (w % 2) + sum64((w / 2) as u64),
{
}

proof fn lemma_sum64_bound(w: u64)
    by (bit_vector)
    ensures
        0 <= sum64(w) <= 64,
{
}

proof fn lemma_spec_popcount_eq_sum64(w: u64)
    ensures
        spec_popcount(w) == sum64(w),
    decreases w,
{
    if w == 0 {
        lemma_sum64_zero();
    } else {
        assert(((w / 2) as u64) < w) by (bit_vector)
            requires
                w != 0,
        ;
        lemma_spec_popcount_eq_sum64((w / 2) as u64);
        lemma_sum64_step(w);
    }
}

#[verifier::rlimit(100)]
proof fn lemma_swar_steps(u: u64)
    by (bit_vector)
    ensures
        ((u >> 1) & 0x5555555555555555u64) <= u,
        ({
            let x1 = (u - ((u >> 1) & 0x5555555555555555u64)) as u64;
            let x2 = ((x1 & 0x3333333333333333u64) + ((x1 >> 2) & 0x3333333333333333u64)) as u64;
            let x3 = (((x2 + (x2 >> 4)) as u64) & 0xF0F0F0F0F0F0F0Fu64) as u64;
            &&& (x1 & 0x3333333333333333u64) + ((x1 >> 2) & 0x3333333333333333u64) <= u64::MAX
            &&& x2 + (x2 >> 4) <= u64::MAX
            &&& (((x3 as nat * 0x101010101010101nat) % 0x1_0000_0000_0000_0000nat) as u64) >> 56 == sum64(u)
        }),
{
}

/// Population count of one 64-bit word, branch-free: fold bit pairs, then
/// nibbles, then sum the byte counts with one multiplication.
pub fn bit_count64(u: u64) -> (r: u64)
    ensures
        r == spec_popcount(u),
        r <= 64,
{
    proof {
        lemma_swar_steps(u);
        lemma_spec_popcount_eq_sum64(u);
        lemma_sum64_bound(u);
    }
    let x: u64 = u - ((u >> 1) & 0x5555555555555555u64);
    let x: u64 = (x & 0x3333333333333333u64) + ((x >> 2) & 0x3333333333333333u64);
    let x: u64 = (x + (x >> 4)) & 0xF0F0F0F0F0F0F0Fu64;
    x.wrapping_mul(0x101010101010101u64) >> 56
}

} // verus!
