//! From a row of logits to probabilities: temperature, top-k, then the nucleus.
//!
//! Which weights are zero, where the nucleus ends and what is divided by what is decided here; the
//! single operations on numbers come from a [`SamplingArithmetic`].

use crate::generation::sampling::{
    count_retained, drawable, fill_error, plan_for, retained, runs_up_to, softmax_weights, sums_to,
    top_k_active, unordered_logit, unusable, usable, FilterPlan, SamplingArithmetic, SamplingConfig,
};
use crate::logits::{
    at_most_64, first_maximum, is_at_most_64, nan_64, order_32, order_64, rank_32, NEG_INFINITY_32,
    ONE_64,
};
use vstd::prelude::*;

verus! {

/// `weight` is the weight of token `i` before nucleus filtering: zero below the top-k threshold.
pub open spec fn weighs<A: SamplingArithmetic>(
    arithmetic: &A,
    config: SamplingConfig,
    logits: Seq<u32>,
    plan: FilterPlan,
    i: int,
    weight: u64,
) -> bool {
    if retained(logits, plan.threshold, i) {
        call_ensures(
            A::exponential,
            (arithmetic, config.temperature, logits[i], logits[plan.maximum as int]),
            weight,
        )
    } else {
        weight == 0
    }
}

/// `weights` are the weights of all tokens before nucleus filtering.
pub open spec fn weights_of<A: SamplingArithmetic>(
    arithmetic: &A,
    config: SamplingConfig,
    logits: Seq<u32>,
    plan: FilterPlan,
    weights: Seq<u64>,
) -> bool {
    &&& weights.len() == logits.len()
    &&& forall|i: int|
        0 <= i < weights.len() ==> weighs(
            arithmetic,
            config,
            logits,
            plan,
            i,
            #[trigger] weights[i],
        )
}

/// `parts` are these weights, each divided by `total`.
pub open spec fn divided<A: SamplingArithmetic>(
    arithmetic: &A,
    weights: Seq<u64>,
    total: u64,
    parts: Seq<u64>,
) -> bool {
    &&& parts.len() == weights.len()
    &&& forall|i: int|
        0 <= i < parts.len() ==> call_ensures(
            A::quotient,
            (arithmetic, weights[i], total),
            #[trigger] parts[i],
        )
}

/// The weights of all tokens in `order` but the last one, in that order.
pub open spec fn candidates(order: Seq<usize>, weights: Seq<u64>) -> Seq<u64> {
    Seq::new((order.len() - 1) as nat, |j: int| weights[order[j] as int])
}

/// Nucleus filtering removes token `i`: it is not the last of `order`, and the tokens up to it hold
/// together no more than `limit`.
pub open spec fn removed(order: Seq<usize>, sums: Seq<u64>, limit: u64, i: int) -> bool {
    exists|j: int|
        0 <= j < order.len() - 1 && #[trigger] order[j] == i && at_most_64(sums[j], limit)
}

/// What nucleus filtering leaves of some weights.
pub open spec fn kept_weights(
    order: Seq<usize>,
    sums: Seq<u64>,
    limit: u64,
    weights: Seq<u64>,
) -> Seq<u64> {
    Seq::new(
        weights.len(),
        |i: int|
            if removed(order, sums, limit, i) {
                0
            } else {
                weights[i]
            },
    )
}

/// `sums` are the running shares of the tokens in `order`, the last one left out, in the sum of all
/// weights, and `limit` is the share that the nucleus can do without.
pub open spec fn nucleus<A: SamplingArithmetic>(
    arithmetic: &A,
    config: SamplingConfig,
    order: Seq<usize>,
    weights: Seq<u64>,
    total: u64,
    parts: Seq<u64>,
    sums: Vec<u64>,
    limit: u64,
) -> bool {
    &&& sums_to(arithmetic, weights, total)
    &&& divided(arithmetic, candidates(order, weights), total, parts)
    &&& runs_up_to(arithmetic, parts, sums)
    &&& call_ensures(A::difference, (arithmetic, ONE_64, config.top_p), limit)
}

/// `kept` is what is left of some weights: all of them where nothing is filtered, and without the
/// least ones that together hold no more than the complement of `top_p` otherwise.
pub open spec fn trimmed<A: SamplingArithmetic>(
    arithmetic: &A,
    config: SamplingConfig,
    order: Seq<usize>,
    weights: Seq<u64>,
    kept: Seq<u64>,
) -> bool {
    if order.len() == 0 {
        kept == weights
    } else {
        exists|total: u64, parts: Seq<u64>, sums: Vec<u64>, limit: u64|
            kept == kept_weights(order, sums@, limit, weights) && #[trigger] nucleus(
                arithmetic,
                config,
                order,
                weights,
                total,
                parts,
                sums,
                limit,
            )
    }
}

/// As `shares_of`, with the intermediate results of the arithmetic.
pub open spec fn shares_with<A: SamplingArithmetic>(
    arithmetic: &A,
    config: SamplingConfig,
    logits: Seq<u32>,
    plan: FilterPlan,
    shares: Seq<u64>,
    weights: Seq<u64>,
    kept: Seq<u64>,
    total: u64,
) -> bool {
    &&& weights_of(arithmetic, config, logits, plan, weights)
    &&& trimmed(arithmetic, config, plan.order@, weights, kept)
    &&& sums_to(arithmetic, kept, total)
    &&& divided(arithmetic, kept, total, shares)
}

/// `shares` are the probabilities of all tokens: the weights that filtering leaves, each divided by
/// their sum.
pub open spec fn shares_of<A: SamplingArithmetic>(
    arithmetic: &A,
    config: SamplingConfig,
    logits: Seq<u32>,
    plan: FilterPlan,
    shares: Seq<u64>,
) -> bool {
    exists|weights: Seq<u64>, kept: Seq<u64>, total: u64| #[trigger]
        shares_with(arithmetic, config, logits, plan, shares, weights, kept, total)
}

/// The weights of all tokens before nucleus filtering.
fn weigh<A: SamplingArithmetic>(
    arithmetic: &A,
    config: &SamplingConfig,
    logits: &[u32],
    plan: &FilterPlan,
) -> (weights: Vec<u64>)
    requires
        plan.maximum < logits@.len(),
    ensures
        weights_of(arithmetic, *config, logits@, *plan, weights@),
{
    let lowest: i64 = rank_32(plan.threshold);
    let maximum: u32 = logits[plan.maximum];
    let mut weights: Vec<u64> = Vec::with_capacity(logits.len());
    let mut i: usize = 0;
    while i < logits.len()
        invariant
            i <= logits@.len(),
            weights@.len() == i,
            lowest == order_32(plan.threshold),
            plan.maximum < logits@.len(),
            maximum == logits@[plan.maximum as int],
            forall|j: int|
                0 <= j < weights@.len() ==> weighs(
                    arithmetic,
                    *config,
                    logits@,
                    *plan,
                    j,
                    #[trigger] weights@[j],
                ),
        decreases logits@.len() - i,
    {
        let weight: u64 = if rank_32(logits[i]) < lowest {
            0
        } else {
            arithmetic.exponential(config.temperature, logits[i], maximum)
        };
        assert(weighs(arithmetic, *config, logits@, *plan, i as int, weight));
        weights.push(weight);
        i += 1;
    }
    weights
}

/// Divide all weights by `total`.
fn divide<A: SamplingArithmetic>(arithmetic: &A, weights: &[u64], total: u64) -> (parts: Vec<u64>)
    ensures
        divided(arithmetic, weights@, total, parts@),
{
    let mut parts: Vec<u64> = Vec::with_capacity(weights.len());
    let mut i: usize = 0;
    while i < weights.len()
        invariant
            i <= weights@.len(),
            parts@.len() == i,
            forall|j: int|
                0 <= j < parts@.len() ==> call_ensures(
                    A::quotient,
                    (arithmetic, weights@[j], total),
                    #[trigger] parts@[j],
                ),
        decreases weights@.len() - i,
    {
        parts.push(arithmetic.quotient(weights[i], total));
        i += 1;
    }
    parts
}

/// Set the weights to zero that nucleus filtering removes.
fn trim<A: SamplingArithmetic>(
    arithmetic: &A,
    config: &SamplingConfig,
    order: &[usize],
    weights: Vec<u64>,
) -> (kept: Vec<u64>)
    requires
        usable(arithmetic),
        forall|j: int| 0 <= j < order@.len() ==> #[trigger] order@[j] < weights@.len(),
    ensures
        trimmed(arithmetic, *config, order@, weights@, kept@),
{
    if order.len() == 0 {
        return weights;
    }
    let total: u64 = arithmetic.total(&weights);
    assert(sums_to(arithmetic, weights@, total));
    let mut listed: Vec<u64> = Vec::with_capacity(order.len());
    let mut i: usize = 0;
    while i < order.len() - 1
        invariant
            0 < order@.len(),
            i <= order@.len() - 1,
            listed@ == candidates(order@, weights@).take(i as int),
            forall|j: int| 0 <= j < order@.len() ==> #[trigger] order@[j] < weights@.len(),
        decreases order@.len() - i,
    {
        listed.push(weights[order[i]]);
        i += 1;
        assert(listed@ =~= candidates(order@, weights@).take(i as int));
    }
    assert(listed@ =~= candidates(order@, weights@));
    let parts = divide(arithmetic, &listed, total);
    let sums = arithmetic.cumulative(&parts);
    assert(runs_up_to(arithmetic, parts@, sums));
    let limit: u64 = arithmetic.difference(ONE_64, config.top_p);
    let ghost given = weights@;
    let mut kept = weights;
    let mut k: usize = 0;
    while k < order.len() - 1
        invariant
            0 < order@.len(),
            k <= order@.len() - 1,
            sums@.len() == order@.len() - 1,
            kept@.len() == given.len(),
            forall|j: int| 0 <= j < order@.len() ==> #[trigger] order@[j] < given.len(),
            forall|t: int|
                0 <= t < kept@.len() ==> #[trigger] kept@[t] == if removed(
                    order@.take(k + 1),
                    sums@,
                    limit,
                    t,
                ) {
                    0
                } else {
                    given[t]
                },
        decreases order@.len() - k,
    {
        let token: usize = order[k];
        let ghost before = kept@;
        if is_at_most_64(sums[k], limit) {
            kept.set(token, 0);
        }
        proof {
            let now = order@.take(k + 2);
            let was = order@.take(k + 1);
            assert forall|t: int| 0 <= t < kept@.len() implies #[trigger] kept@[t] == if removed(
                now,
                sums@,
                limit,
                t,
            ) {
                0
            } else {
                given[t]
            } by {
                assert(before[t] == if removed(was, sums@, limit, t) {
                    0
                } else {
                    given[t]
                });
                if removed(was, sums@, limit, t) {
                    let j = choose|j: int|
                        0 <= j < was.len() - 1 && #[trigger] was[j] == t && at_most_64(
                            sums@[j],
                            limit,
                        );
                    assert(now[j] == t);
                }
                if removed(now, sums@, limit, t) {
                    let j = choose|j: int|
                        0 <= j < now.len() - 1 && #[trigger] now[j] == t && at_most_64(
                            sums@[j],
                            limit,
                        );
                    if j < k {
                        assert(was[j] == t);
                    }
                }
                assert(now[k as int] == token);
            }
        }
        k += 1;
    }
    proof {
        assert(order@.take(k + 1) =~= order@);
        assert(kept@ =~= kept_weights(order@, sums@, limit, given));
        assert(nucleus(arithmetic, *config, order@, given, total, parts@, sums, limit));
    }
    kept
}

/// The probabilities of all tokens after temperature, top-k and nucleus filtering; zero divided by
/// the sum of what is left for tokens that are filtered out.
pub fn probabilities<A: SamplingArithmetic>(
    arithmetic: &A,
    config: &SamplingConfig,
    logits: &[u32],
    plan: &FilterPlan,
) -> (shares: Vec<u64>)
    requires
        usable(arithmetic),
        plan_for(*config, logits@, *plan),
    ensures
        shares@.len() == logits@.len(),
        shares_of(arithmetic, *config, logits@, *plan, shares@),
{
    let weights = weigh(arithmetic, config, logits, plan);
    let ghost weighed = weights@;
    assert forall|j: int| 0 <= j < plan.order@.len() implies #[trigger] plan.order@[j]
        < weighed.len() by {
        assert(retained(logits@, plan.threshold, plan.order@[j] as int));
    }
    let kept = trim(arithmetic, config, &plan.order, weights);
    let total: u64 = arithmetic.total(&kept);
    assert(sums_to(arithmetic, kept@, total));
    let shares = divide(arithmetic, &kept, total);
    assert(shares_with(arithmetic, *config, logits@, *plan, shares@, weighed, kept@, total));
    shares
}

/// Where some logit is not below a threshold, one is found that is not.
proof fn lemma_some_retained(logits: Seq<u32>, threshold: u32) -> (i: int)
    requires
        count_retained(logits, threshold) > 0,
    ensures
        retained(logits, threshold, i),
    decreases logits.len(),
{
    if order_32(logits.last()) >= order_32(threshold) {
        logits.len() - 1
    } else {
        lemma_some_retained(logits.drop_last(), threshold)
    }
}

/// Top-k never removes the greatest logit.
pub(crate) proof fn lemma_maximum_retained(config: SamplingConfig, logits: Seq<u32>, plan: FilterPlan)
    requires
        fill_error(config, logits) is None,
        plan_for(config, logits, plan),
    ensures
        retained(logits, plan.threshold, plan.maximum as int),
        order_32(NEG_INFINITY_32) < order_32(logits[plan.maximum as int]) < 0x7F80_0000,
        forall|i: int|
            0 <= i < logits.len() ==> order_32(NEG_INFINITY_32) <= order_32(#[trigger] logits[i])
                <= order_32(logits[plan.maximum as int]),
{
    let top = plan.maximum as int;
    assert(first_maximum(logits, top));
    assert forall|i: int| 0 <= i < logits.len() implies order_32(NEG_INFINITY_32) <= order_32(
        #[trigger] logits[i],
    ) <= order_32(logits[top]) by {
        assert(!unordered_logit(logits));
        assert(!unusable(logits[i]));
    }
    assert(!unusable(logits[top]));
    let open = choose|i: int| 0 <= i < logits.len() && #[trigger] logits[i] != NEG_INFINITY_32;
    assert(order_32(NEG_INFINITY_32) < order_32(logits[open]));
    if top_k_active(config, logits) {
        let i = lemma_some_retained(logits, plan.threshold);
        assert(order_32(logits[i]) <= order_32(logits[top]));
    }
}

/// The token that no filter removes: one of greatest logit, and the last one in order.
proof fn lemma_last_survives(config: SamplingConfig, logits: Seq<u32>, plan: FilterPlan) -> (i: int)
    requires
        fill_error(config, logits) is None,
        plan_for(config, logits, plan),
    ensures
        retained(logits, plan.threshold, i),
        order_32(logits[i]) == order_32(logits[plan.maximum as int]),
        forall|sums: Seq<u64>, limit: u64|
            plan.order@.len() > 0 ==> !#[trigger] removed(plan.order@, sums, limit, i),
{
    lemma_maximum_retained(config, logits, plan);
    let order = plan.order@;
    if order.len() == 0 {
        plan.maximum as int
    } else {
        let last = order.last() as int;
        assert(retained(logits, plan.threshold, order[order.len() - 1] as int));
        assert(order.contains(plan.maximum));
        let j = choose|j: int| 0 <= j < order.len() && order[j] == plan.maximum;
        assert(order[j] == plan.maximum);
        assert(order_32(logits[plan.maximum as int]) <= order_32(logits[last]));
        last
    }
}

/// What filtering leaves are weights of a softmax, and the surviving token has weight one.
pub(crate) proof fn lemma_kept<A: SamplingArithmetic>(
    arithmetic: &A,
    config: SamplingConfig,
    logits: Seq<u32>,
    plan: FilterPlan,
    weights: Seq<u64>,
    kept: Seq<u64>,
) -> (i: int)
    requires
        usable(arithmetic),
        fill_error(config, logits) is None,
        plan_for(config, logits, plan),
        weights_of(arithmetic, config, logits, plan, weights),
        trimmed(arithmetic, config, plan.order@, weights, kept),
    ensures
        kept.len() == logits.len(),
        softmax_weights(kept),
        retained(logits, plan.threshold, i),
        logits[i] != NEG_INFINITY_32,
        order_32(logits[i]) == order_32(logits[plan.maximum as int]),
        kept[i] == ONE_64,
{
    lemma_maximum_retained(config, logits, plan);
    let i = lemma_last_survives(config, logits, plan);
    assert forall|j: int| 0 <= j < weights.len() implies 0 <= order_64(#[trigger] weights[j])
        <= order_64(ONE_64) by {
        assert(weighs(arithmetic, config, logits, plan, j, weights[j]));
    }
    assert(weighs(arithmetic, config, logits, plan, i, weights[i]));
    assert(weights[i] == ONE_64);
    let order = plan.order@;
    if order.len() > 0 {
        let (total, parts, sums, limit) = choose|
            total: u64,
            parts: Seq<u64>,
            sums: Vec<u64>,
            limit: u64,
        |
            kept == kept_weights(order, sums@, limit, weights) && #[trigger] nucleus(
                arithmetic,
                config,
                order,
                weights,
                total,
                parts,
                sums,
                limit,
            );
        assert(!removed(order, sums@, limit, i));
    }
    assert(kept[i] == ONE_64);
    assert(kept.contains(ONE_64));
    i
}

/// Filtering leaves some token that can be drawn: one of greatest logit. No probability is NaN or
/// below zero.
pub proof fn law_some_token_can_be_drawn<A: SamplingArithmetic>(
    arithmetic: &A,
    config: SamplingConfig,
    logits: Seq<u32>,
    plan: FilterPlan,
    shares: Seq<u64>,
)
    requires
        usable(arithmetic),
        fill_error(config, logits) is None,
        plan_for(config, logits, plan),
        shares_of(arithmetic, config, logits, plan, shares),
    ensures
        shares.len() == logits.len(),
        forall|i: int|
            0 <= i < shares.len() ==> !nan_64(#[trigger] shares[i]) && order_64(shares[i]) >= 0,
        exists|i: int| #[trigger]
            drawable(logits, plan.threshold, shares, i) && order_32(logits[i]) == order_32(
                logits[plan.maximum as int],
            ),
{
    let (weights, kept, total) = choose|weights: Seq<u64>, kept: Seq<u64>, total: u64| #[trigger]
        shares_with(arithmetic, config, logits, plan, shares, weights, kept, total);
    let i = lemma_kept(arithmetic, config, logits, plan, weights, kept);
    let list = choose|list: &[u64]|
        list@ == kept && #[trigger] call_ensures(A::total, (arithmetic, list), total);
    assert(softmax_weights(list@));
    assert forall|j: int| 0 <= j < shares.len() implies !nan_64(#[trigger] shares[j]) && order_64(
        shares[j],
    ) >= 0 by {
        assert(call_ensures(A::quotient, (arithmetic, kept[j], total), shares[j]));
        assert(0 <= order_64(kept[j]) <= order_64(ONE_64));
    }
    assert(call_ensures(A::quotient, (arithmetic, kept[i], total), shares[i]));
    assert(drawable(logits, plan.threshold, shares, i));
}

} // verus!
