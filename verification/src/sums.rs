//! Sums over the keys of a map.

use vstd::prelude::*;

verus! {

/// One more than the greatest `u64`.
pub open spec fn key_bound() -> nat {
    0x1_0000_0000_0000_0000
}

/// The sum of `weight` over the keys below `bound`.
pub open spec fn sum_below(weight: spec_fn(u64) -> int, bound: nat) -> int
    decreases bound,
{
    if bound == 0 {
        0
    } else {
        sum_below(weight, (bound - 1) as nat) + weight((bound - 1) as u64)
    }
}

/// Two weights that agree everywhere have the same sum.
pub proof fn lemma_sum_same(left: spec_fn(u64) -> int, right: spec_fn(u64) -> int, bound: nat)
    requires
        bound <= key_bound(),
        forall|k: u64| #[trigger] left(k) == right(k),
    ensures
        sum_below(left, bound) == sum_below(right, bound),
    decreases bound,
{
    if bound > 0 {
        lemma_sum_same(left, right, (bound - 1) as nat);
        assert(left((bound - 1) as u64) == right((bound - 1) as u64));
    }
}

/// Changing the weight of one key changes the sum by the difference.
pub proof fn lemma_sum_change(
    left: spec_fn(u64) -> int,
    right: spec_fn(u64) -> int,
    key: u64,
    bound: nat,
)
    requires
        bound <= key_bound(),
        forall|k: u64| k != key ==> #[trigger] left(k) == right(k),
    ensures
        key < bound ==> sum_below(right, bound) == sum_below(left, bound) + right(key) - left(key),
        key >= bound ==> sum_below(right, bound) == sum_below(left, bound),
    decreases bound,
{
    if bound > 0 {
        lemma_sum_change(left, right, key, (bound - 1) as nat);
        if (bound - 1) as u64 != key {
            assert(left((bound - 1) as u64) == right((bound - 1) as u64));
        }
    }
}

/// A smaller weight has a smaller sum.
pub proof fn lemma_sum_order(left: spec_fn(u64) -> int, right: spec_fn(u64) -> int, bound: nat)
    requires
        bound <= key_bound(),
        forall|k: u64| #[trigger] left(k) <= right(k),
    ensures
        sum_below(left, bound) <= sum_below(right, bound),
    decreases bound,
{
    if bound > 0 {
        lemma_sum_order(left, right, (bound - 1) as nat);
        assert(left((bound - 1) as u64) <= right((bound - 1) as u64));
    }
}

/// The weight that is zero everywhere sums to zero.
pub proof fn lemma_sum_zero(weight: spec_fn(u64) -> int, bound: nat)
    requires
        bound <= key_bound(),
        forall|k: u64| #[trigger] weight(k) == 0,
    ensures
        sum_below(weight, bound) == 0,
    decreases bound,
{
    if bound > 0 {
        lemma_sum_zero(weight, (bound - 1) as nat);
        assert(weight((bound - 1) as u64) == 0);
    }
}

} // verus!
