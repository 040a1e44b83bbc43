//! How the probabilities of a row follow its logits.

use crate::generation::sampling::shares::{
    candidates, kept_weights, lemma_kept, lemma_maximum_retained, nucleus, removed, shares_of,
    shares_with, trimmed, weighs, weights_of,
};
use crate::generation::sampling::{
    fill_error, plan_for, retained, softmax_weights, usable, FilterPlan, SamplingArithmetic,
    SamplingConfig,
};
use crate::logits::{
    at_most_64, nan_64, order_32, order_64, INFINITY_32, INFINITY_64, NEG_INFINITY_32, ONE_64,
};
use vstd::prelude::*;

verus! {

/// Arithmetic that keeps the order of numbers: a greater logit has no smaller exponential, and a
/// masked one an exponential of zero; a greater weight has no smaller quotient, and a quotient by
/// the sum of the weights of a softmax is at most one, and zero where the weight was; running sums
/// of what is not negative never fall.
pub open spec fn monotone<A: SamplingArithmetic>(arithmetic: &A) -> bool {
    &&& forall|temperature: u64, x: u32, y: u32, maximum: u32, ex: u64, ey: u64|
        0 < temperature < INFINITY_64 && order_32(NEG_INFINITY_32) <= order_32(x) <= order_32(y)
            <= order_32(maximum) && order_32(NEG_INFINITY_32) < order_32(maximum) < order_32(
            INFINITY_32,
        ) && #[trigger] call_ensures(A::exponential, (arithmetic, temperature, x, maximum), ex)
            && #[trigger] call_ensures(A::exponential, (arithmetic, temperature, y, maximum), ey)
            ==> order_64(ex) <= order_64(ey) && (x == NEG_INFINITY_32 ==> order_64(ex) == 0)
    &&& forall|weights: &[u64], total: u64, a: u64, b: u64, qa: u64, qb: u64|
        #![trigger call_ensures(A::total, (arithmetic, weights), total),
            call_ensures(A::quotient, (arithmetic, a, total), qa),
            call_ensures(A::quotient, (arithmetic, b, total), qb)]
        softmax_weights(weights@) && 0 <= order_64(a) <= order_64(b) <= order_64(ONE_64)
            && call_ensures(A::total, (arithmetic, weights), total) && call_ensures(
            A::quotient,
            (arithmetic, a, total),
            qa,
        ) && call_ensures(A::quotient, (arithmetic, b, total), qb) ==> order_64(qa) <= order_64(qb)
            <= order_64(ONE_64) && (order_64(a) == 0 ==> order_64(qa) == 0)
    &&& forall|weights: &[u64], sums: Vec<u64>, i: int, j: int|
        #![trigger call_ensures(A::cumulative, (arithmetic, weights), sums), sums@[i], sums@[j]]
        call_ensures(A::cumulative, (arithmetic, weights), sums) && (forall|k: int|
            0 <= k < weights@.len() ==> !nan_64(#[trigger] weights@[k]) && order_64(weights@[k])
                >= 0) && 0 <= i <= j < weights@.len() ==> at_most_64(sums@[i], sums@[j])
}

/// Weights before nucleus filtering are weights of a softmax and follow the logits.
proof fn lemma_weights_follow<A: SamplingArithmetic>(
    arithmetic: &A,
    config: SamplingConfig,
    logits: Seq<u32>,
    plan: FilterPlan,
    weights: Seq<u64>,
)
    requires
        usable(arithmetic),
        monotone(arithmetic),
        fill_error(config, logits) is None,
        plan_for(config, logits, plan),
        weights_of(arithmetic, config, logits, plan, weights),
    ensures
        softmax_weights(weights),
        forall|i: int|
            0 <= i < logits.len() && #[trigger] logits[i] == NEG_INFINITY_32 ==> order_64(
                weights[i],
            ) == 0,
        forall|i: int|
            0 <= i < logits.len() && order_32(#[trigger] logits[i]) == order_32(
                logits[plan.maximum as int],
            ) ==> weights[i] == ONE_64,
        forall|i: int, j: int|
            0 <= i < logits.len() && 0 <= j < logits.len() && order_32(#[trigger] logits[i])
                <= order_32(#[trigger] logits[j]) ==> order_64(weights[i]) <= order_64(weights[j]),
{
    lemma_maximum_retained(config, logits, plan);
    let top = plan.maximum as int;
    assert forall|i: int| 0 <= i < weights.len() implies 0 <= order_64(#[trigger] weights[i])
        <= order_64(ONE_64) by {
        assert(weighs(arithmetic, config, logits, plan, i, weights[i]));
    }
    assert(weighs(arithmetic, config, logits, plan, top, weights[top]));
    assert(weights.contains(ONE_64));
    assert forall|i: int| 0 <= i < logits.len() && #[trigger] logits[i] == NEG_INFINITY_32 implies
        order_64(weights[i]) == 0 by {
        assert(weighs(arithmetic, config, logits, plan, i, weights[i]));
    }
    assert forall|i: int|
        0 <= i < logits.len() && order_32(#[trigger] logits[i]) == order_32(
            logits[top],
        ) implies weights[i] == ONE_64 by {
        assert(weighs(arithmetic, config, logits, plan, i, weights[i]));
    }
    assert forall|i: int, j: int|
        0 <= i < logits.len() && 0 <= j < logits.len() && order_32(#[trigger] logits[i])
            <= order_32(#[trigger] logits[j]) implies order_64(weights[i]) <= order_64(
        weights[j],
    ) by {
        assert(weighs(arithmetic, config, logits, plan, i, weights[i]));
        assert(weighs(arithmetic, config, logits, plan, j, weights[j]));
        assert(0 <= order_64(weights[j]));
    }
}

/// Nucleus filtering removes with a token every token of a smaller logit.
proof fn lemma_removed_downwards<A: SamplingArithmetic>(
    arithmetic: &A,
    config: SamplingConfig,
    logits: Seq<u32>,
    plan: FilterPlan,
    weights: Seq<u64>,
    total: u64,
    parts: Seq<u64>,
    sums: Vec<u64>,
    limit: u64,
    i: int,
    j: int,
)
    requires
        usable(arithmetic),
        monotone(arithmetic),
        plan_for(config, logits, plan),
        plan.order@.len() > 0,
        softmax_weights(weights),
        weights.len() == logits.len(),
        nucleus(arithmetic, config, plan.order@, weights, total, parts, sums, limit),
        removed(plan.order@, sums@, limit, j),
        retained(logits, plan.threshold, i),
        i <= usize::MAX,
        order_32(logits[i]) < order_32(logits[j]),
    ensures
        removed(plan.order@, sums@, limit, i),
{
    let order = plan.order@;
    let b = choose|b: int|
        0 <= b < order.len() - 1 && #[trigger] order[b] == j && at_most_64(sums@[b], limit);
    let token = i as usize;
    assert(order.contains(token));
    let a = choose|a: int| 0 <= a < order.len() && order[a] == token;
    assert(order[a] == i);
    assert(order[b] == j);
    assert(a < b);
    let listed = candidates(order, weights);
    let list = choose|list: &[u64]|
        list@ == weights && #[trigger] call_ensures(A::total, (arithmetic, list), total);
    assert forall|k: int| 0 <= k < parts.len() implies !nan_64(#[trigger] parts[k]) && order_64(
        parts[k],
    ) >= 0 by {
        assert(call_ensures(A::quotient, (arithmetic, listed[k], total), parts[k]));
        assert(retained(logits, plan.threshold, order[k] as int));
        assert(0 <= order_64(weights[order[k] as int]) <= order_64(ONE_64));
    }
    let run = choose|run: &[u64]|
        run@ == parts && #[trigger] call_ensures(A::cumulative, (arithmetic, run), sums);
    assert(forall|k: int|
        0 <= k < run@.len() ==> !nan_64(#[trigger] run@[k]) && order_64(run@[k]) >= 0);
    assert(at_most_64(sums@[a], sums@[b]));
    assert(at_most_64(sums@[a], limit));
}

/// What filtering leaves follows the logits.
proof fn lemma_kept_follow<A: SamplingArithmetic>(
    arithmetic: &A,
    config: SamplingConfig,
    logits: Seq<u32>,
    plan: FilterPlan,
    weights: Seq<u64>,
    kept: Seq<u64>,
)
    requires
        usable(arithmetic),
        monotone(arithmetic),
        fill_error(config, logits) is None,
        plan_for(config, logits, plan),
        weights_of(arithmetic, config, logits, plan, weights),
        trimmed(arithmetic, config, plan.order@, weights, kept),
    ensures
        forall|i: int|
            0 <= i < logits.len() && (#[trigger] logits[i] == NEG_INFINITY_32 || !retained(
                logits,
                plan.threshold,
                i,
            )) ==> order_64(kept[i]) == 0,
        forall|i: int, j: int|
            0 <= i < logits.len() && 0 <= j < logits.len() && order_32(#[trigger] logits[i])
                < order_32(#[trigger] logits[j]) ==> order_64(kept[i]) <= order_64(kept[j]),
        forall|i: int|
            0 <= i < logits.len() && order_32(#[trigger] logits[i]) == order_32(
                logits[plan.maximum as int],
            ) && (forall|j: int|
                i < j < logits.len() ==> order_32(#[trigger] logits[j]) != order_32(logits[i]))
                ==> kept[i] == ONE_64,
{
    lemma_weights_follow(arithmetic, config, logits, plan, weights);
    lemma_maximum_retained(config, logits, plan);
    let order = plan.order@;
    assert forall|i: int| 0 <= i < logits.len() && !retained(logits, plan.threshold, i) implies
        weights[i] == 0 by {
        assert(weighs(arithmetic, config, logits, plan, i, weights[i]));
    }
    if order.len() > 0 {
        let (total, parts, sums, limit) = choose|
            total: u64,
            parts: Seq<u64>,
            sums: Vec<u64>,
            limit: u64,
        |
            kept == kept_weights(order, sums@, limit, weights) && #[trigger] nucleus(
                arithmetic,
                config,
                order,
                weights,
                total,
                parts,
                sums,
                limit,
            );
        assert forall|i: int, j: int|
            0 <= i < logits.len() && 0 <= j < logits.len() && order_32(#[trigger] logits[i])
                < order_32(#[trigger] logits[j]) implies order_64(kept[i]) <= order_64(kept[j]) by {
            assert(order_64(weights[i]) <= order_64(weights[j]));
            assert(0 <= order_64(weights[j]));
            if removed(order, sums@, limit, j) && retained(logits, plan.threshold, i) {
                lemma_removed_downwards(
                    arithmetic,
                    config,
                    logits,
                    plan,
                    weights,
                    total,
                    parts,
                    sums,
                    limit,
                    i,
                    j,
                );
            }
        }
        assert forall|i: int|
            0 <= i < logits.len() && order_32(#[trigger] logits[i]) == order_32(
                logits[plan.maximum as int],
            ) && (forall|j: int|
                i < j < logits.len() ==> order_32(#[trigger] logits[j]) != order_32(
                    logits[i],
                )) implies kept[i] == ONE_64 by {
            if removed(order, sums@, limit, i) {
                let a = choose|a: int|
                    0 <= a < order.len() - 1 && #[trigger] order[a] == i && at_most_64(
                        sums@[a],
                        limit,
                    );
                let last = order[order.len() - 1];
                assert(retained(logits, plan.threshold, last as int));
                assert(order_32(logits[last as int]) <= order_32(logits[plan.maximum as int]));
                assert(order[a] == i);
            }
        }
    }
}

/// The probabilities of a row follow its logits. There is one for each token, from zero to one;
/// masked tokens and tokens below the k-th greatest logit have none. A greater logit has no smaller
/// probability, and without nucleus filtering equal logits have equal ones. The last token of
/// greatest logit always has some.
pub proof fn law_shares_follow_logits<A: SamplingArithmetic>(
    arithmetic: &A,
    config: SamplingConfig,
    logits: Seq<u32>,
    plan: FilterPlan,
    shares: Seq<u64>,
)
    requires
        usable(arithmetic),
        monotone(arithmetic),
        fill_error(config, logits) is None,
        plan_for(config, logits, plan),
        shares_of(arithmetic, config, logits, plan, shares),
    ensures
        shares.len() == logits.len(),
        forall|i: int|
            0 <= i < shares.len() ==> 0 <= order_64(#[trigger] shares[i]) <= order_64(ONE_64),
        forall|i: int|
            0 <= i < logits.len() && (#[trigger] logits[i] == NEG_INFINITY_32 || !retained(
                logits,
                plan.threshold,
                i,
            )) ==> order_64(shares[i]) == 0,
        forall|i: int, j: int|
            0 <= i < logits.len() && 0 <= j < logits.len() && order_32(#[trigger] logits[i])
                < order_32(#[trigger] logits[j]) ==> order_64(shares[i]) <= order_64(shares[j]),
        config.top_p == ONE_64 ==> forall|i: int, j: int|
            0 <= i < logits.len() && 0 <= j < logits.len() && order_32(#[trigger] logits[i])
                == order_32(#[trigger] logits[j]) ==> order_64(shares[i]) == order_64(shares[j]),
        forall|i: int|
            0 <= i < logits.len() && order_32(#[trigger] logits[i]) == order_32(
                logits[plan.maximum as int],
            ) && (forall|j: int|
                i < j < logits.len() ==> order_32(#[trigger] logits[j]) != order_32(logits[i]))
                ==> order_64(shares[i]) > 0,
{
    let (weights, kept, total) = choose|weights: Seq<u64>, kept: Seq<u64>, total: u64| #[trigger]
        shares_with(arithmetic, config, logits, plan, shares, weights, kept, total);
    let survivor = lemma_kept(arithmetic, config, logits, plan, weights, kept);
    lemma_weights_follow(arithmetic, config, logits, plan, weights);
    lemma_kept_follow(arithmetic, config, logits, plan, weights, kept);
    let list = choose|list: &[u64]|
        list@ == kept && #[trigger] call_ensures(A::total, (arithmetic, list), total);
    assert(softmax_weights(list@));
    assert forall|i: int, j: int|
        0 <= i < logits.len() && 0 <= j < logits.len() && order_64(kept[i]) <= order_64(
            kept[j],
        ) implies order_64(#[trigger] shares[i]) <= order_64(#[trigger] shares[j]) <= order_64(
        ONE_64,
    ) && (order_64(kept[i]) == 0 ==> order_64(shares[i]) == 0) by {
        assert(call_ensures(A::quotient, (arithmetic, kept[i], total), shares[i]));
        assert(call_ensures(A::quotient, (arithmetic, kept[j], total), shares[j]));
        assert(0 <= order_64(kept[i]) <= order_64(ONE_64));
        assert(0 <= order_64(kept[j]) <= order_64(ONE_64));
    }
    assert forall|i: int| 0 <= i < shares.len() implies 0 <= order_64(#[trigger] shares[i])
        <= order_64(ONE_64) by {
        assert(call_ensures(A::quotient, (arithmetic, kept[i], total), shares[i]));
        assert(0 <= order_64(kept[i]) <= order_64(ONE_64));
    }
    assert forall|i: int|
        0 <= i < logits.len() && (#[trigger] logits[i] == NEG_INFINITY_32 || !retained(
            logits,
            plan.threshold,
            i,
        )) implies order_64(shares[i]) == 0 by {
        assert(order_64(kept[i]) == 0);
        assert(order_64(shares[i]) <= order_64(shares[i]));
    }
    if config.top_p == ONE_64 {
        assert(kept == weights);
    }
    assert forall|i: int|
        0 <= i < logits.len() && order_32(#[trigger] logits[i]) == order_32(
            logits[plan.maximum as int],
        ) && (forall|j: int|
            i < j < logits.len() ==> order_32(#[trigger] logits[j]) != order_32(
                logits[i],
            )) implies order_64(shares[i]) > 0 by {
        assert(kept[i] == ONE_64);
        assert(call_ensures(A::quotient, (arithmetic, kept[i], total), shares[i]));
    }
}

/// A k that is no smaller than the vocabulary filters nothing: plans and probabilities are those
/// without top-k.
pub proof fn law_large_top_k_filters_nothing<A: SamplingArithmetic>(
    arithmetic: &A,
    config: SamplingConfig,
    logits: Seq<u32>,
    plan: FilterPlan,
    shares: Seq<u64>,
)
    requires
        config.top_k >= logits.len(),
    ensures
        ({
            let none = SamplingConfig { top_k: 0, ..config };
            &&& fill_error(config, logits) == fill_error(none, logits)
            &&& plan_for(config, logits, plan) == plan_for(none, logits, plan)
            &&& shares_of(arithmetic, config, logits, plan, shares) == shares_of(
                arithmetic,
                none,
                logits,
                plan,
                shares,
            )
        }),
{
    let none = SamplingConfig { top_k: 0, ..config };
    lemma_shares_of_alike(arithmetic, config, none, logits, plan, shares);
    lemma_shares_of_alike(arithmetic, none, config, logits, plan, shares);
}

/// Probabilities depend on the temperature and the nucleus alone, once the plan is made.
proof fn lemma_shares_of_alike<A: SamplingArithmetic>(
    arithmetic: &A,
    config: SamplingConfig,
    other: SamplingConfig,
    logits: Seq<u32>,
    plan: FilterPlan,
    shares: Seq<u64>,
)
    requires
        config.temperature == other.temperature,
        config.top_p == other.top_p,
    ensures
        shares_of(arithmetic, config, logits, plan, shares) ==> shares_of(
            arithmetic,
            other,
            logits,
            plan,
            shares,
        ),
{
    if shares_of(arithmetic, config, logits, plan, shares) {
        let (weights, kept, total) = choose|weights: Seq<u64>, kept: Seq<u64>, total: u64|
            #[trigger]
            shares_with(arithmetic, config, logits, plan, shares, weights, kept, total);
        assert forall|i: int| 0 <= i < weights.len() implies weighs(
            arithmetic,
            other,
            logits,
            plan,
            i,
            #[trigger] weights[i],
        ) by {
            assert(weighs(arithmetic, config, logits, plan, i, weights[i]));
        }
        let order = plan.order@;
        if order.len() > 0 {
            let (whole, parts, sums, limit) = choose|
                whole: u64,
                parts: Seq<u64>,
                sums: Vec<u64>,
                limit: u64,
            |
                kept == kept_weights(order, sums@, limit, weights) && #[trigger] nucleus(
                    arithmetic,
                    config,
                    order,
                    weights,
                    whole,
                    parts,
                    sums,
                    limit,
                );
            assert(nucleus(arithmetic, other, order, weights, whole, parts, sums, limit));
        }
        assert(shares_with(arithmetic, other, logits, plan, shares, weights, kept, total));
    }
}

} // verus!
