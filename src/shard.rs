use vstd::prelude::*;

verus! {

/// `n` is a power of two.
pub open spec fn is_pow2(n: nat) -> bool
    decreases n,
{
    if n <= 1 {
        n == 1
    } else {
        n % 2 == 0 && is_pow2(n / 2)
    }
}

/// Number of shards for a child map on a machine with `parallelism` hardware
/// threads: the least power of two that is at least four per thread.
pub fn shard_amount(parallelism: usize) -> (r: usize)
    requires
        1 <= parallelism <= usize::MAX / 8,
    ensures
        is_pow2(r as nat),
        4 * parallelism <= r,
        r < 8 * parallelism,
{
    let target: usize = 4 * parallelism;
    let mut r: usize = 1;
    while r < target
        invariant
            target == 4 * parallelism,
            target <= usize::MAX / 2,
            is_pow2(r as nat),
            1 <= r < 2 * target,
        decreases 2 * target - r,
    {
        assert(is_pow2((2 * r) as nat)) by {
            assert((2 * r) as nat / 2 == r as nat);
        }
        r = 2 * r;
    }
    r
}

} // verus!
