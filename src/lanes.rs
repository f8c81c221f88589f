//! Index arithmetic: where a logical index lives among the lanes.
use vstd::arithmetic::power2::{lemma2_to64, lemma_pow2_strictly_increases, lemma_pow2_unfold, pow2};
use vstd::bits::{lemma_u64_pow2_no_overflow, lemma_u64_shl_is_mul};
use vstd::prelude::*;
use vstd::std_specs::bits::u64_leading_zeros;

verus! {

/// The number of elements lane `k` can hold.
pub open spec fn lane_capacity(k: nat) -> nat {
    pow2(k + 1)
}

/// The number of elements held by all lanes before lane `k`.
pub open spec fn lane_start(k: nat) -> nat {
    (pow2(k + 1) - 2) as nat
}

/// The logical index of slot `offset` of lane `lane`.
pub open spec fn compose(lane: nat, offset: nat) -> nat {
    lane_start(lane) + offset
}

/// The position of the highest set bit of `j` (0 for `j <= 1`).
pub open spec fn highest_bit(j: nat) -> nat
    decreases j,
{
    if j <= 1 {
        0
    } else {
        1 + highest_bit(j / 2)
    }
}

/// The lane that holds logical index `index`.
pub open spec fn lane_of(index: nat) -> nat {
    highest_bit(index / 2 + 1)
}

/// The slot within `lane_of(index)` that holds logical index `index`.
pub open spec fn offset_of(index: nat) -> nat {
    (index - lane_start(lane_of(index))) as nat
}

proof fn lemma_highest_bit_bounds(j: nat)
    requires
        j >= 1,
    ensures
        pow2(highest_bit(j)) <= j < pow2(highest_bit(j) + 1),
    decreases j,
{
    lemma_pow2_unfold(1);
    lemma2_to64();
    if j > 1 {
        let h = highest_bit(j / 2);
        lemma_highest_bit_bounds(j / 2);
        lemma_pow2_unfold(h + 1);
        lemma_pow2_unfold(h + 2);
    }
}

proof fn lemma_leading_zeros(x: u64)
    requires
        x >= 1,
    ensures
        u64_leading_zeros(x) == 63 - highest_bit(x as nat),
    decreases x,
{
    reveal(u64_leading_zeros);
    if x > 1 {
        lemma_leading_zeros(x / 2);
    } else {
        assert(u64_leading_zeros(0) == 64);
    }
}

/// Each lane starts where the one before it ends.
pub proof fn lemma_lane_start_step(k: nat)
    ensures
        lane_start(k + 1) == lane_start(k) + lane_capacity(k),
        lane_start(0) == 0,
        lane_capacity(k) >= 2,
{
    lemma_pow2_unfold(k + 2);
    lemma_pow2_unfold(1);
    lemma2_to64();
    if k > 0 {
        lemma_pow2_strictly_increases(1, k + 1);
    }
}

/// Lanes start in increasing order.
pub proof fn lemma_lane_start_increases(a: nat, b: nat)
    requires
        a < b,
    ensures
        lane_start(a) < lane_start(b),
        lane_start(a + 1) <= lane_start(b),
{
    lemma_pow2_strictly_increases(a + 1, b + 1);
    if a + 1 < b {
        lemma_pow2_strictly_increases(a + 2, b + 1);
    }
    lemma_lane_start_step(a);
    lemma_lane_start_step(a + 1);
    lemma_lane_start_step(b);
}

/// Decomposition round trip: every index lies in lane `lane_of(index)`, at a
/// slot below that lane's capacity, and composing the two gives the index back.
pub proof fn lemma_decompose_round_trip(index: nat)
    ensures
        lane_start(lane_of(index)) <= index < lane_start(lane_of(index) + 1),
        offset_of(index) < lane_capacity(lane_of(index)),
        compose(lane_of(index), offset_of(index)) == index,
{
    let j = index / 2 + 1;
    lemma_highest_bit_bounds(j);
    lemma_lane_start_step(lane_of(index));
    lemma_pow2_unfold(lane_of(index) + 1);
}

/// The lane of an index is the only lane whose range holds it.
pub proof fn lemma_lane_of_unique(index: nat, k: nat)
    requires
        lane_start(k) <= index < lane_start(k + 1),
    ensures
        lane_of(index) == k,
        offset_of(index) == index - lane_start(k),
{
    lemma_decompose_round_trip(index);
    let l = lane_of(index);
    if l < k {
        lemma_lane_start_increases(l, k);
    } else if l > k {
        lemma_lane_start_increases(k, l);
    }
}

/// The capacity of lane `n`: `2^(n+1)`.
pub fn lane_size(n: usize) -> (r: usize)
    requires
        lane_capacity(n as nat) <= usize::MAX,
    ensures
        r == lane_capacity(n as nat),
{
    proof {
        lemma2_to64();
        if n >= 63 {
            if n > 63 {
                lemma_pow2_strictly_increases(64, n as nat + 1);
            }
        }
        lemma_u64_pow2_no_overflow(n as nat);
        lemma_u64_shl_is_mul(1, n as u64);
        lemma_pow2_unfold(n as nat + 1);
    }
    ((1u64 << n as u64) * 2) as usize
}

/// Splits a logical index into its lane and its slot within that lane.
pub fn lane_offset(offset: usize) -> (r: (usize, usize))
    ensures
        r.0 == lane_of(offset as nat),
        r.1 == offset_of(offset as nat),
        r.1 < lane_capacity(r.0 as nat),
        compose(r.0 as nat, r.1 as nat) == offset,
{
    let i: usize = offset / 2 + 1;
    let zeros: u32 = (i as u64).leading_zeros();
    proof {
        lemma_leading_zeros(i as u64);
        lemma_decompose_round_trip(offset as nat);
        lemma_highest_bit_bounds(i as nat);
    }
    let lane: u64 = 63 - zeros as u64;
    proof {
        lemma_u64_pow2_no_overflow(lane as nat);
        lemma_u64_shl_is_mul(1, lane);
        lemma_pow2_unfold(lane as nat + 1);
    }
    let lane_offset: u64 = offset as u64 - ((1u64 << lane) - 1) * 2;
    (lane as usize, lane_offset as usize)
}

} // verus!
