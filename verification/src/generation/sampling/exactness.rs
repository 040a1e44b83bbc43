//! What sampling draws in exact arithmetic: each token by its share of a softmax over the tokens
//! that filtering leaves.

use crate::generation::sampling::shares::{
    candidates, divided, kept_weights, nucleus, removed, shares_of, shares_with, weighs, weights_of,
};
use crate::generation::sampling::{
    before_in_order, count_above, count_retained, drawable, fill_error, filtered, plan_for, retained,
    sample_outcome, sampled, sampled_with, sums_to, unordered_logit, unusable, FilterPlan,
    SamplerModel, SamplingArithmetic, SamplingConfig, TokenSampler,
};
use crate::generation::speculative::distribution::{
    exact_uniform, lemma_draw, lemma_nothing_behind, lemma_reached, next_draw, plain, summed,
    valuation,
};
use crate::generation::GenerationError;
use crate::logits::{at_most_64, less_64, order_32, NEG_INFINITY_32, ONE_64};
use crate::rng::{chacha12_next, chacha12_seeded};
use vstd::prelude::*;

verus! {

/// Where a logit stands among others: binary32 numbers by sign and magnitude.
pub open spec fn standing(bits: u32) -> int {
    if bits < 0x8000_0000 {
        bits as int
    } else {
        0x8000_0000 - bits
    }
}

/// How many of the first `n` tokens have a greater logit than token `i`.
pub open spec fn ahead(logits: Seq<u32>, i: int, n: int) -> int
    decreases n,
{
    if n <= 0 {
        0
    } else {
        ahead(logits, i, n - 1) + if standing(logits[n - 1]) > standing(logits[i]) {
            1int
        } else {
            0int
        }
    }
}

/// Token `i` is among the `top_k` greatest, or equal to the last of them; all tokens are where
/// `top_k` is zero.
pub open spec fn among_top(config: SamplingConfig, logits: Seq<u32>, i: int) -> bool {
    config.top_k == 0 || ahead(logits, i, logits.len() as int) < config.top_k
}

/// No token has a greater logit than token `top`.
pub open spec fn leads(logits: Seq<u32>, top: int) -> bool {
    &&& 0 <= top < logits.len()
    &&& forall|i: int|
        0 <= i < logits.len() ==> standing(#[trigger] logits[i]) <= standing(logits[top])
}

/// The weights of a softmax over the tokens among the top ones: the exponential of each logit's
/// distance to the greatest one, over the temperature.
pub open spec fn softmax(
    config: SamplingConfig,
    logits: Seq<u32>,
    top: int,
    exponential: spec_fn(u64, u32, u32) -> real,
) -> Seq<real> {
    Seq::new(
        logits.len(),
        |i: int|
            if among_top(config, logits, i) {
                exponential(config.temperature, logits[i], logits[top])
            } else {
                0real
            },
    )
}

/// The sum of those of the first `n` weights that are kept.
pub open spec fn kept_sum(weights: Seq<real>, keep: spec_fn(int) -> bool, n: int) -> real
    decreases n,
{
    if n <= 0 {
        0real
    } else {
        kept_sum(weights, keep, n - 1) + if keep(n - 1) {
            weights[n - 1]
        } else {
            0real
        }
    }
}

/// The sum of the weights of the first `n` tokens of a list.
pub open spec fn listed_sum(weights: Seq<real>, order: Seq<usize>, n: int) -> real
    decreases n,
{
    if n <= 0 {
        0real
    } else {
        listed_sum(weights, order, n - 1) + weights[order[n - 1] as int]
    }
}

/// A list of all tokens among the top ones, the least logit first and equal ones by their number.
pub open spec fn least_first(config: SamplingConfig, logits: Seq<u32>, order: Seq<usize>) -> bool {
    &&& forall|i: int, j: int|
        0 <= i < j < order.len() ==> standing(logits[#[trigger] order[i] as int]) < standing(
            logits[#[trigger] order[j] as int],
        ) || (standing(logits[order[i] as int]) == standing(logits[order[j] as int]) && order[i]
            < order[j])
    &&& forall|t: usize| #[trigger]
        order.contains(t) <==> t < logits.len() && among_top(config, logits, t as int)
}

/// The nucleus does without token `i`: it is not the last of the list, and the tokens of the list up
/// to it have together no more than `spare` of all weight.
pub open spec fn spared(weights: Seq<real>, order: Seq<usize>, spare: real, i: int) -> bool {
    exists|j: int|
        0 <= j < order.len() - 1 && #[trigger] order[j] == i && listed_sum(weights, order, j + 1)
            <= spare * kept_sum(weights, |k: int| true, weights.len() as int)
}

/// Each share is the weight of a token that is kept, over the sum of these weights.
pub open spec fn shared_out(
    weights: Seq<real>,
    keep: spec_fn(int) -> bool,
    shares: Seq<real>,
) -> bool {
    let all = kept_sum(weights, keep, weights.len() as int);
    &&& shares.len() == weights.len()
    &&& all > 0real
    &&& forall|i: int|
        0 <= i < shares.len() ==> #[trigger] shares[i] * all == if keep(i) {
            weights[i]
        } else {
            0real
        }
}

/// The shares of a row: of all weights, or of those of the nucleus, which does without the least
/// likely tokens that together have no more than what `top_p` leaves of one.
pub open spec fn shares_as_asked(
    config: SamplingConfig,
    top_p: real,
    logits: Seq<u32>,
    weights: Seq<real>,
    shares: Seq<real>,
) -> bool {
    if top_p == 1real {
        shared_out(weights, |i: int| true, shares)
    } else {
        exists|order: Seq<usize>| #[trigger]
            least_first(config, logits, order) && shared_out(
                weights,
                |i: int| !spared(weights, order, 1real - top_p, i),
                shares,
            )
    }
}

/// The sum of the first `n` shares.
pub open spec fn share_sum(shares: Seq<real>, n: int) -> real
    decreases n,
{
    if n <= 0 {
        0real
    } else {
        share_sum(shares, n - 1) + shares[n - 1]
    }
}

/// A number is the sum of some of these weights.
pub open spec fn some_sum(weights: Seq<real>, x: real) -> bool {
    exists|keep: spec_fn(int) -> bool| #[trigger]
        kept_sum(weights, keep, weights.len() as int) == x
}

/// A number is one of these weights, or zero, over some sum of them.
pub open spec fn some_share(weights: Seq<real>, x: real) -> bool {
    exists|i: int, all: real|
        #![trigger weights[i], some_sum(weights, all)]
        some_sum(weights, all) && all > 0real && (x == 0real || (0 <= i < weights.len() && x * all
            == weights[i]))
}

/// Arithmetic is exact on a row with these weights: exponentials are what they should be, sums and
/// quotients are not rounded, nor is the complement of `top_p`.
pub open spec fn exact_row<A: SamplingArithmetic>(
    arithmetic: &A,
    value: spec_fn(u64) -> real,
    config: SamplingConfig,
    exponential: spec_fn(u64, u32, u32) -> real,
    weights: Seq<real>,
) -> bool {
    let n = weights.len() as int;
    &&& exact_uniform(arithmetic, value)
    &&& forall|logit: u32, maximum: u32, result: u64| #[trigger]
        call_ensures(A::exponential, (arithmetic, config.temperature, logit, maximum), result)
            && -0x7F80_0000 <= standing(logit) <= standing(maximum) < 0x7F80_0000 ==> plain(result)
            && value(result) == exponential(config.temperature, logit, maximum)
    &&& forall|list: &[u64], total: u64| #[trigger]
        call_ensures(A::total, (arithmetic, list), total) && list@.len() == n && (forall|i: int|
            0 <= i < n ==> plain(#[trigger] list@[i]) && (value(list@[i]) == weights[i] || value(
                list@[i],
            ) == 0real)) ==> plain(total) && value(total) == summed(value, list@, n)
    &&& forall|a: u64, b: u64, result: u64| #[trigger]
        call_ensures(A::quotient, (arithmetic, a, b), result) && plain(a) && plain(b) && value(b)
            > 0real && some_sum(weights, value(b)) && (value(a) == 0real || exists|i: int|
            0 <= i < n && #[trigger] weights[i] == value(a)) ==> plain(result) && value(result)
            * value(b) == value(a)
    &&& forall|list: &[u64], sums: Vec<u64>| #[trigger]
        call_ensures(A::cumulative, (arithmetic, list), sums) && list@.len() <= n && (forall|i: int|
            0 <= i < list@.len() ==> plain(#[trigger] list@[i]) && some_share(
                weights,
                value(list@[i]),
            )) ==> sums@.len() == list@.len() && forall|i: int|
            0 <= i < list@.len() ==> plain(#[trigger] sums@[i]) && value(sums@[i]) == summed(
                value,
                list@,
                i + 1,
            )
    &&& forall|limit: u64| #[trigger]
        call_ensures(A::difference, (arithmetic, ONE_64, config.top_p), limit) ==> plain(limit)
            && value(limit) == 1real - value(config.top_p)
}

/// Exponentials: nothing of a masked logit, and something of any other.
pub open spec fn exponentials(
    exponential: spec_fn(u64, u32, u32) -> real,
    temperature: u64,
) -> bool {
    forall|logit: u32, maximum: u32| #[trigger]
        exponential(temperature, logit, maximum) >= 0real && (exponential(
            temperature,
            logit,
            maximum,
        ) > 0real <==> logit != 0xFF80_0000)
}

/// How many tokens are ahead of one, against a threshold.
proof fn lemma_ahead(logits: Seq<u32>, threshold: u32, i: int, n: int)
    requires
        0 <= n <= logits.len(),
    ensures
        standing(logits[i]) >= order_32(threshold) ==> ahead(logits, i, n) <= count_above(
            logits.take(n),
            threshold,
        ),
        standing(logits[i]) < order_32(threshold) ==> ahead(logits, i, n) >= count_retained(
            logits.take(n),
            threshold,
        ),
        0 <= ahead(logits, i, n) <= n,
        0 <= i < n ==> ahead(logits, i, n) < n,
    decreases n,
{
    if n > 0 {
        lemma_ahead(logits, threshold, i, n - 1);
        assert(logits.take(n).drop_last() =~= logits.take(n - 1));
        assert(logits.take(n).last() == logits[n - 1]);
    }
}

/// The tokens that top-k retains are those among the top ones.
proof fn lemma_among_top(config: SamplingConfig, logits: Seq<u32>, plan: FilterPlan, i: int)
    requires
        plan_for(config, logits, plan),
        !unordered_logit(logits),
        0 <= i < logits.len(),
    ensures
        retained(logits, plan.threshold, i) == among_top(config, logits, i),
        leads(logits, plan.maximum as int),
{
    let n = logits.len() as int;
    lemma_ahead(logits, plan.threshold, i, n);
    assert(logits.take(n) =~= logits);
    assert(!unusable(logits[i]));
    assert forall|j: int| 0 <= j < n implies standing(#[trigger] logits[j]) <= standing(
        logits[plan.maximum as int],
    ) by {
        assert(!unusable(logits[j]));
    }
}

/// Values that are weights or zero add up to the sum of the weights that are kept.
proof fn lemma_kept_sum(
    value: spec_fn(u64) -> real,
    list: Seq<u64>,
    weights: Seq<real>,
    keep: spec_fn(int) -> bool,
    n: int,
)
    requires
        0 <= n <= list.len() == weights.len(),
        forall|i: int|
            0 <= i < n ==> value(#[trigger] list[i]) == if keep(i) {
                weights[i]
            } else {
                0real
            },
    ensures
        summed(value, list, n) == kept_sum(weights, keep, n),
    decreases n,
{
    if n > 0 {
        lemma_kept_sum(value, list, weights, keep, n - 1);
        assert(value(list[n - 1]) == if keep(n - 1) {
            weights[n - 1]
        } else {
            0real
        });
    }
}

/// A sum of weights that are not negative is positive where one of them is kept and positive.
proof fn lemma_kept_positive(weights: Seq<real>, keep: spec_fn(int) -> bool, i: int, n: int)
    requires
        0 <= n <= weights.len(),
        forall|j: int| 0 <= j < weights.len() ==> #[trigger] weights[j] >= 0real,
    ensures
        kept_sum(weights, keep, n) >= 0real,
        0 <= i < n && keep(i) && weights[i] > 0real ==> kept_sum(weights, keep, n) > 0real,
    decreases n,
{
    if n > 0 {
        lemma_kept_positive(weights, keep, i, n - 1);
        assert(weights[n - 1] >= 0real);
    }
}

/// Two ways to keep weights that agree.
proof fn lemma_kept_same(
    weights: Seq<real>,
    a: spec_fn(int) -> bool,
    b: spec_fn(int) -> bool,
    n: int,
)
    requires
        forall|i: int| 0 <= i < n ==> #[trigger] a(i) == b(i),
    ensures
        kept_sum(weights, a, n) == kept_sum(weights, b, n),
    decreases n,
{
    if n > 0 {
        lemma_kept_same(weights, a, b, n - 1);
        assert(a(n - 1) == b(n - 1));
    }
}

/// The running parts of a list, against the sum of all weights.
proof fn lemma_listed(
    value: spec_fn(u64) -> real,
    weights: Seq<real>,
    order: Seq<usize>,
    parts: Seq<u64>,
    all: real,
    n: int,
)
    requires
        0 <= n <= parts.len() <= order.len(),
        forall|j: int|
            0 <= j < parts.len() ==> value(#[trigger] parts[j]) * all
                == weights[order[j] as int],
    ensures
        summed(value, parts, n) * all == listed_sum(weights, order, n),
    decreases n,
{
    if n > 0 {
        lemma_listed(value, weights, order, parts, all, n - 1);
        let a = summed(value, parts, n - 1);
        let b = value(parts[n - 1]);
        assert((a + b) * all == a * all + b * all) by (nonlinear_arith);
        assert(value(parts[n - 1]) * all == weights[order[n - 1] as int]);
    } else {
        assert(0real * all == 0real) by (nonlinear_arith);
    }
}

/// The sum of shares, number by number.
proof fn lemma_share_sum(value: spec_fn(u64) -> real, list: Seq<u64>, shares: Seq<real>, n: int)
    requires
        0 <= n <= list.len() == shares.len(),
        forall|i: int| 0 <= i < shares.len() ==> #[trigger] shares[i] == value(list[i]),
    ensures
        share_sum(shares, n) == summed(value, list, n),
    decreases n,
{
    if n > 0 {
        lemma_share_sum(value, list, shares, n - 1);
        assert(shares[n - 1] == value(list[n - 1]));
    }
}

/// Shares add up to one.
proof fn lemma_shares_make_one(
    weights: Seq<real>,
    keep: spec_fn(int) -> bool,
    shares: Seq<real>,
    n: int,
)
    requires
        shared_out(weights, keep, shares),
        0 <= n <= weights.len(),
    ensures
        share_sum(shares, n) * kept_sum(weights, keep, weights.len() as int) == kept_sum(
            weights,
            keep,
            n,
        ),
    decreases n,
{
    let all = kept_sum(weights, keep, weights.len() as int);
    if n > 0 {
        lemma_shares_make_one(weights, keep, shares, n - 1);
        let a = share_sum(shares, n - 1);
        let b = shares[n - 1];
        assert((a + b) * all == a * all + b * all) by (nonlinear_arith);
        assert(shares[n - 1] * all == if keep(n - 1) {
            weights[n - 1]
        } else {
            0real
        });
    } else {
        assert(0real * all == 0real) by (nonlinear_arith);
    }
}

/// The weights of a row, number by number.
proof fn lemma_weights<A: SamplingArithmetic>(
    arithmetic: &A,
    value: spec_fn(u64) -> real,
    config: SamplingConfig,
    exponential: spec_fn(u64, u32, u32) -> real,
    logits: Seq<u32>,
    plan: FilterPlan,
    list: Seq<u64>,
)
    requires
        valuation(value),
        plan_for(config, logits, plan),
        !unordered_logit(logits),
        exact_row(
            arithmetic,
            value,
            config,
            exponential,
            softmax(config, logits, plan.maximum as int, exponential),
        ),
        weights_of(arithmetic, config, logits, plan, list),
    ensures
        forall|i: int|
            0 <= i < list.len() ==> plain(#[trigger] list[i]) && value(list[i]) == softmax(
                config,
                logits,
                plan.maximum as int,
                exponential,
            )[i],
{
    let top = plan.maximum as int;
    let weights = softmax(config, logits, top, exponential);
    assert forall|i: int| 0 <= i < list.len() implies plain(#[trigger] list[i]) && value(list[i])
        == weights[i] by {
        assert(weighs(arithmetic, config, logits, plan, i, list[i]));
        lemma_among_top(config, logits, plan, i);
        assert(!unusable(logits[i]) && !unusable(logits[top]));
        assert(standing(logits[i]) <= standing(logits[top]));
    }
}

/// Nothing is ahead of the greatest logit.
proof fn lemma_leader(logits: Seq<u32>, top: int, n: int)
    requires
        leads(logits, top),
        0 <= n <= logits.len(),
    ensures
        ahead(logits, top, n) == 0,
    decreases n,
{
    if n > 0 {
        lemma_leader(logits, top, n - 1);
        assert(standing(logits[n - 1]) <= standing(logits[top]));
    }
}

/// A row that is not refused has a greatest logit that is not masked, and its weight is positive.
proof fn lemma_leader_counts(
    config: SamplingConfig,
    exponential: spec_fn(u64, u32, u32) -> real,
    logits: Seq<u32>,
    top: int,
    t: int,
)
    requires
        fill_error(config, logits) is None,
        exponentials(exponential, config.temperature),
        leads(logits, top),
        0 <= t < logits.len(),
        standing(logits[t]) == standing(logits[top]),
    ensures
        among_top(config, logits, top),
        among_top(config, logits, t) ==> softmax(config, logits, top, exponential)[t] > 0real,
{
    lemma_leader(logits, top, logits.len() as int);
    let some = choose|i: int| 0 <= i < logits.len() && #[trigger] logits[i] != NEG_INFINITY_32;
    assert(!unusable(logits[some]));
    assert(standing(logits[some]) <= standing(logits[top]));
    assert(logits[t] != 0xFF80_0000);
    assert(exponential(config.temperature, logits[t], logits[top]) > 0real);
}

/// What is kept of the weights, divided by their sum, is shared out.
proof fn lemma_shared_out<A: SamplingArithmetic>(
    arithmetic: &A,
    value: spec_fn(u64) -> real,
    config: SamplingConfig,
    exponential: spec_fn(u64, u32, u32) -> real,
    weights: Seq<real>,
    keep: spec_fn(int) -> bool,
    kept: Seq<u64>,
    total: u64,
    list: Seq<u64>,
    some: int,
)
    requires
        valuation(value),
        exact_row(arithmetic, value, config, exponential, weights),
        kept.len() == weights.len(),
        forall|i: int| 0 <= i < weights.len() ==> #[trigger] weights[i] >= 0real,
        forall|i: int|
            0 <= i < kept.len() ==> plain(#[trigger] kept[i]) && value(kept[i]) == if keep(i) {
                weights[i]
            } else {
                0real
            },
        0 <= some < weights.len(),
        keep(some),
        weights[some] > 0real,
        sums_to(arithmetic, kept, total),
        divided(arithmetic, kept, total, list),
    ensures
        shared_out(weights, keep, Seq::new(list.len(), |i: int| value(list[i]))),
        plain(total),
        some_sum(weights, value(total)),
        value(total) > 0real,
        forall|i: int|
            0 <= i < list.len() ==> plain(#[trigger] list[i]) && some_share(
                weights,
                value(list[i]),
            ),
{
    let n = weights.len() as int;
    let slice = choose|slice: &[u64]|
        slice@ == kept && #[trigger] call_ensures(A::total, (arithmetic, slice), total);
    assert forall|i: int| 0 <= i < n implies plain(#[trigger] slice@[i]) && (value(slice@[i])
        == weights[i] || value(slice@[i]) == 0real) by {
        assert(slice@[i] == kept[i]);
    }
    assert(plain(total) && value(total) == summed(value, kept, n));
    lemma_kept_sum(value, kept, weights, keep, n);
    lemma_kept_positive(weights, keep, some, n);
    let all = kept_sum(weights, keep, n);
    assert(some_sum(weights, all));
    let shares = Seq::new(list.len(), |i: int| value(list[i]));
    assert forall|i: int| 0 <= i < list.len() implies plain(#[trigger] list[i]) && value(list[i])
        * all == if keep(i) {
        weights[i]
    } else {
        0real
    } by {
        assert(call_ensures(A::quotient, (arithmetic, kept[i], total), list[i]));
        assert(plain(kept[i]));
        if keep(i) {
            assert(weights[i] == value(kept[i]));
        }
    }
    assert forall|i: int| 0 <= i < list.len() implies some_share(
        weights,
        value(#[trigger] list[i]),
    ) by {
        let x = value(list[i]);
        if keep(i) {
            assert(x * all == weights[i]);
            assert(some_sum(weights, all));
        } else {
            assert(x == 0real) by (nonlinear_arith)
                requires
                    x * all == 0real,
                    all > 0real,
            ;
            assert(some_sum(weights, all) && weights[some] > 0real);
        }
    }
    assert forall|i: int| 0 <= i < shares.len() implies #[trigger] shares[i] * all == if keep(i) {
        weights[i]
    } else {
        0real
    } by {
        assert(plain(list[i]));
    }
}

/// A list without repetitions of numbers below `n` has no more than `n` of them.
proof fn lemma_no_more(order: Seq<usize>, n: nat)
    requires
        order.no_duplicates(),
        forall|i: int| 0 <= i < order.len() ==> #[trigger] order[i] < n,
    ensures
        order.len() <= n,
{
    let ints = Seq::new(order.len(), |i: int| order[i] as int);
    assert(ints.no_duplicates());
    ints.unique_seq_to_set();
    vstd::set_lib::lemma_int_range(0, n as int);
    assert forall|x: int| #[trigger] ints.to_set().contains(x) implies vstd::set_lib::set_int_range(
        0,
        n as int,
    ).contains(x) by {
        let i = choose|i: int| 0 <= i < ints.len() && ints[i] == x;
        assert(order[i] < n);
    }
    vstd::set_lib::lemma_len_subset(
        ints.to_set(),
        vstd::set_lib::set_int_range(0, n as int),
    );
}

/// What nucleus filtering lists.
proof fn lemma_least_first(config: SamplingConfig, logits: Seq<u32>, plan: FilterPlan)
    requires
        plan_for(config, logits, plan),
        !unordered_logit(logits),
        logits.len() <= usize::MAX,
        config.top_p < ONE_64,
    ensures
        least_first(config, logits, plan.order@),
        plan.order@.no_duplicates(),
        plan.order@.len() <= logits.len(),
        forall|i: int| 0 <= i < plan.order@.len() ==> #[trigger] plan.order@[i] < logits.len(),
{
    let order = plan.order@;
    assert forall|t: usize| #[trigger] order.contains(t) <==> t < logits.len() && among_top(
        config,
        logits,
        t as int,
    ) by {
        if t < logits.len() {
            lemma_among_top(config, logits, plan, t as int);
        }
        if order.contains(t) {
            let i = choose|i: int| 0 <= i < order.len() && order[i] == t;
            assert(retained(logits, plan.threshold, order[i] as int));
        }
    }
    assert forall|i: int, j: int| 0 <= i < j < order.len() implies standing(
        logits[#[trigger] order[i] as int],
    ) < standing(logits[#[trigger] order[j] as int]) || (standing(logits[order[i] as int])
        == standing(logits[order[j] as int]) && order[i] < order[j]) by {
        assert(before_in_order(logits, order[i], order[j]));
    }
    assert forall|i: int| 0 <= i < order.len() implies #[trigger] order[i] < logits.len() by {
        assert(retained(logits, plan.threshold, order[i] as int));
    }
    lemma_no_more(order, logits.len());
}

/// Nucleus filtering removes the tokens that the nucleus does without.
proof fn lemma_spared<A: SamplingArithmetic>(
    arithmetic: &A,
    value: spec_fn(u64) -> real,
    config: SamplingConfig,
    exponential: spec_fn(u64, u32, u32) -> real,
    logits: Seq<u32>,
    plan: FilterPlan,
    list: Seq<u64>,
    total: u64,
    parts: Seq<u64>,
    sums: Vec<u64>,
    limit: u64,
    i: int,
)
    requires
        valuation(value),
        fill_error(config, logits) is None,
        plan_for(config, logits, plan),
        logits.len() <= usize::MAX,
        config.top_p < ONE_64,
        exponentials(exponential, config.temperature),
        exact_row(
            arithmetic,
            value,
            config,
            exponential,
            softmax(config, logits, plan.maximum as int, exponential),
        ),
        weights_of(arithmetic, config, logits, plan, list),
        plan.order@.len() > 0,
        nucleus(arithmetic, config, plan.order@, list, total, parts, sums, limit),
        0 <= i < logits.len(),
    ensures
        removed(plan.order@, sums@, limit, i) == spared(
            softmax(config, logits, plan.maximum as int, exponential),
            plan.order@,
            1real - value(config.top_p),
            i,
        ),
{
    let top = plan.maximum as int;
    let order = plan.order@;
    let weights = softmax(config, logits, top, exponential);
    let n = weights.len() as int;
    let keep = |k: int| true;
    lemma_weights(arithmetic, value, config, exponential, logits, plan, list);
    lemma_least_first(config, logits, plan);
    lemma_among_top(config, logits, plan, top);
    lemma_leader_counts(config, exponential, logits, top, top);
    assert forall|k: int| 0 <= k < n implies #[trigger] weights[k] >= 0real by {
        assert(exponential(config.temperature, logits[k], logits[top]) >= 0real);
    }
    let slice = choose|slice: &[u64]|
        slice@ == list && #[trigger] call_ensures(A::total, (arithmetic, slice), total);
    assert forall|k: int| 0 <= k < n implies plain(#[trigger] slice@[k]) && (value(slice@[k])
        == weights[k] || value(slice@[k]) == 0real) by {
        assert(slice@[k] == list[k]);
    }
    lemma_kept_sum(value, list, weights, keep, n);
    lemma_kept_positive(weights, keep, top, n);
    let all = kept_sum(weights, keep, n);
    assert(value(total) == all);
    assert(some_sum(weights, all));
    let singles = candidates(order, list);
    assert forall|j: int| 0 <= j < parts.len() implies plain(#[trigger] parts[j]) && value(parts[j])
        * all == weights[order[j] as int] by {
        assert(call_ensures(A::quotient, (arithmetic, singles[j], total), parts[j]));
        assert(singles[j] == list[order[j] as int]);
        assert(order[j] < logits.len());
        assert(plain(list[order[j] as int]));
        assert(weights[order[j] as int] == value(singles[j]));
    }
    let run = choose|run: &[u64]|
        run@ == parts && #[trigger] call_ensures(A::cumulative, (arithmetic, run), sums);
    assert forall|j: int| 0 <= j < run@.len() implies plain(#[trigger] run@[j]) && some_share(
        weights,
        value(run@[j]),
    ) by {
        assert(run@[j] == parts[j]);
        assert(order[j] < logits.len());
        assert(value(parts[j]) * all == weights[order[j] as int] && some_sum(weights, all));
    }
    let spare = 1real - value(config.top_p);
    assert(plain(limit) && value(limit) == spare);
    assert forall|j: int| 0 <= j < order.len() - 1 implies (at_most_64(
        #[trigger] sums@[j],
        limit,
    ) <==> listed_sum(weights, order, j + 1) <= spare * all) by {
        assert(plain(sums@[j]) && value(sums@[j]) == summed(value, parts, j + 1));
        lemma_listed(value, weights, order, parts, all, j + 1);
        let a = value(sums@[j]);
        assert(a * all == listed_sum(weights, order, j + 1));
        assert(a <= spare <==> a * all <= spare * all) by (nonlinear_arith)
            requires
                all > 0real,
        ;
        assert(limit < sums@[j] <==> value(limit) < value(sums@[j]));
    }
    if removed(order, sums@, limit, i) {
        let j = choose|j: int|
            0 <= j < order.len() - 1 && #[trigger] order[j] == i && at_most_64(sums@[j], limit);
        assert(order[j] == i && listed_sum(weights, order, j + 1) <= spare * all);
    }
    if spared(weights, order, spare, i) {
        let j = choose|j: int|
            0 <= j < order.len() - 1 && #[trigger] order[j] == i && listed_sum(
                weights,
                order,
                j + 1,
            ) <= spare * kept_sum(weights, |k: int| true, weights.len() as int);
        assert(order[j] == i && at_most_64(sums@[j], limit));
    }
}

/// The probabilities of a row are its shares as they were asked for.
proof fn lemma_shares_as_asked<A: SamplingArithmetic>(
    arithmetic: &A,
    value: spec_fn(u64) -> real,
    config: SamplingConfig,
    exponential: spec_fn(u64, u32, u32) -> real,
    logits: Seq<u32>,
    plan: FilterPlan,
    list: Seq<u64>,
)
    requires
        valuation(value),
        fill_error(config, logits) is None,
        plan_for(config, logits, plan),
        logits.len() <= usize::MAX,
        exponentials(exponential, config.temperature),
        exact_row(
            arithmetic,
            value,
            config,
            exponential,
            softmax(config, logits, plan.maximum as int, exponential),
        ),
        shares_of(arithmetic, config, logits, plan, list),
    ensures
        ({
            let weights = softmax(config, logits, plan.maximum as int, exponential);
            let shares = Seq::new(list.len(), |i: int| value(list[i]));
            &&& list.len() == logits.len()
            &&& shares_as_asked(config, value(config.top_p), logits, weights, shares)
            &&& summed(value, list, list.len() as int) == 1real
            &&& forall|i: int|
                0 <= i < list.len() ==> plain(#[trigger] list[i]) && some_share(
                    weights,
                    value(list[i]),
                ) && (value(list[i]) > 0real ==> weights[i] > 0real)
        }),
{
    let top = plan.maximum as int;
    let order = plan.order@;
    let weights = softmax(config, logits, top, exponential);
    let n = weights.len() as int;
    let shares = Seq::new(list.len(), |i: int| value(list[i]));
    let (whole, kept, total) = choose|whole: Seq<u64>, kept: Seq<u64>, total: u64| #[trigger]
        shares_with(arithmetic, config, logits, plan, list, whole, kept, total);
    lemma_weights(arithmetic, value, config, exponential, logits, plan, whole);
    lemma_among_top(config, logits, plan, top);
    lemma_leader_counts(config, exponential, logits, top, top);
    assert forall|k: int| 0 <= k < n implies #[trigger] weights[k] >= 0real by {
        assert(exponential(config.temperature, logits[k], logits[top]) >= 0real);
    }
    if config.top_p == ONE_64 {
        let keep = |i: int| true;
        lemma_shared_out(
            arithmetic,
            value,
            config,
            exponential,
            weights,
            keep,
            kept,
            total,
            list,
            top,
        );
        lemma_whole(value, weights, keep, list, shares);
    } else {
        let spare = 1real - value(config.top_p);
        let keep = |i: int| !spared(weights, order, spare, i);
        lemma_least_first(config, logits, plan);
        assert(order.contains(top as usize));
        let y = choose|y: int| 0 <= y < order.len() && order[y] == top as usize;
        let (sum, parts, sums, limit) = choose|sum: u64, parts: Seq<u64>, sums: Vec<u64>, limit: u64|
            kept == kept_weights(order, sums@, limit, whole) && #[trigger] nucleus(
                arithmetic,
                config,
                order,
                whole,
                sum,
                parts,
                sums,
                limit,
            );
        assert forall|i: int| 0 <= i < kept.len() implies plain(#[trigger] kept[i]) && value(kept[i])
            == if keep(i) {
            weights[i]
        } else {
            0real
        } by {
            lemma_spared(
                arithmetic,
                value,
                config,
                exponential,
                logits,
                plan,
                whole,
                sum,
                parts,
                sums,
                limit,
                i,
            );
            assert(plain(whole[i]));
        }
        let last = order.last();
        assert(order[order.len() - 1] == last);
        assert(last < logits.len());
        assert(order.contains(last));
        assert(standing(logits[last as int]) == standing(logits[top])) by {
            if y < order.len() - 1 {
                assert(standing(logits[order[y] as int]) <= standing(
                    logits[order[order.len() - 1] as int],
                ));
            }
            assert(standing(logits[last as int]) <= standing(logits[top]));
        }
        lemma_leader_counts(config, exponential, logits, top, last as int);
        assert(keep(last as int)) by {
            if spared(weights, order, spare, last as int) {
                let j = choose|j: int|
                    0 <= j < order.len() - 1 && #[trigger] order[j] == last as int && listed_sum(
                        weights,
                        order,
                        j + 1,
                    ) <= spare * kept_sum(weights, |k: int| true, weights.len() as int);
                assert(order[j] == order[order.len() - 1]);
            }
        }
        lemma_shared_out(
            arithmetic,
            value,
            config,
            exponential,
            weights,
            keep,
            kept,
            total,
            list,
            last as int,
        );
        lemma_whole(value, weights, keep, list, shares);
        assert(value(config.top_p) < value(ONE_64));
        assert(least_first(config, logits, order));
    }
}

/// Numbers that are shares add up to one, and only a positive weight has a positive share.
proof fn lemma_whole(
    value: spec_fn(u64) -> real,
    weights: Seq<real>,
    keep: spec_fn(int) -> bool,
    list: Seq<u64>,
    shares: Seq<real>,
)
    requires
        shared_out(weights, keep, shares),
        list.len() == shares.len(),
        forall|i: int| 0 <= i < shares.len() ==> #[trigger] shares[i] == value(list[i]),
        forall|i: int| 0 <= i < weights.len() ==> #[trigger] weights[i] >= 0real,
    ensures
        summed(value, list, list.len() as int) == 1real,
        forall|i: int|
            0 <= i < list.len() ==> value(#[trigger] list[i]) >= 0real && (value(list[i]) > 0real
                ==> weights[i] > 0real),
{
    let n = weights.len() as int;
    let all = kept_sum(weights, keep, n);
    lemma_shares_make_one(weights, keep, shares, n);
    lemma_share_sum(value, list, shares, n);
    let s = share_sum(shares, n);
    assert(s == 1real) by (nonlinear_arith)
        requires
            s * all == all,
            all > 0real,
    ;
    assert forall|i: int| 0 <= i < list.len() implies value(#[trigger] list[i]) >= 0real && (value(
        list[i],
    ) > 0real ==> weights[i] > 0real) by {
        let x = shares[i];
        assert(weights[i] >= 0real);
        assert(x * all == if keep(i) {
            weights[i]
        } else {
            0real
        });
        assert(x >= 0real) by (nonlinear_arith)
            requires
                x * all >= 0real,
                all > 0real,
        ;
        if x > 0real {
            assert(x * all > 0real) by (nonlinear_arith)
                requires
                    x > 0real,
                    all > 0real,
            ;
        }
    }
}

/// A sampler draws each token by its share: the token that it returns is the one into whose part of
/// the line from zero to one the next draw of its generator falls, where the parts are the shares of
/// the tokens in the order of the vocabulary. The shares are those of a softmax at the temperature,
/// over the `top_k` greatest logits and those equal to them, without the least likely tokens that
/// `top_p` can do without. The sampler's state moves on by that one draw.
pub proof fn law_tokens_are_drawn_by_their_shares<A: SamplingArithmetic>(
    arithmetic: &A,
    value: spec_fn(u64) -> real,
    exponential: spec_fn(u64, u32, u32) -> real,
    before: SamplerModel,
    logits: &[u32],
    token: i32,
    after: SamplerModel,
)
    requires
        valuation(value),
        exponentials(exponential, before.config.temperature),
        forall|top: int| #[trigger]
            leads(logits@, top) ==> exact_row(
                arithmetic,
                value,
                before.config,
                exponential,
                softmax(before.config, logits@, top, exponential),
            ),
        sample_outcome(arithmetic, before, logits, Ok(token), after),
    ensures
        0 <= token < logits@.len(),
        logits@[token as int] != 0xFF80_0000,
        after.config == before.config,
        after.state == chacha12_next(before.state).1,
        exists|top: int, shares: Seq<real>|
            {
                &&& #[trigger] leads(logits@, top)
                &&& #[trigger] shares_as_asked(
                    before.config,
                    value(before.config.top_p),
                    logits@,
                    softmax(before.config, logits@, top, exponential),
                    shares,
                )
                &&& share_sum(shares, token as int) <= next_draw(before.state) < share_sum(
                    shares,
                    token + 1,
                )
            },
{
    let config = before.config;
    assert(sampled(arithmetic, before, logits, token));
    let (plan, list, sums, uniform) = choose|
        plan: FilterPlan,
        list: Vec<u64>,
        sums: Vec<u64>,
        uniform: u64,
    | #[trigger]
        sampled_with(arithmetic, before, logits, token, plan, list, sums, uniform);
    let top = plan.maximum as int;
    let t = token as int;
    let n = logits@.len() as int;
    let weights = softmax(config, logits@, top, exponential);
    lemma_among_top(config, logits@, plan, top);
    assert(leads(logits@, top));
    lemma_shares_as_asked(arithmetic, value, config, exponential, logits@, plan, list@);
    let shares = Seq::new(list@.len(), |i: int| value(list@[i]));
    lemma_draw(arithmetic, value, before.state, uniform);
    let u = value(uniform);
    let run = choose|run: &[u64]|
        run@ == list@ && #[trigger] call_ensures(A::cumulative, (arithmetic, run), sums);
    assert forall|i: int| 0 <= i < run@.len() implies plain(#[trigger] run@[i]) && some_share(
        weights,
        value(run@[i]),
    ) by {
        assert(run@[i] == list@[i]);
    }
    assert forall|i: int| 0 <= i < n implies value(#[trigger] list@[i]) >= 0real by {
        assert(plain(list@[i]) && plain(0u64));
        assert(!(list@[i] < 0u64));
        assert(value(0u64) <= value(list@[i]));
    }
    assert forall|j: int|
        0 <= j < n && value(#[trigger] list@[j]) > 0real implies drawable(
        logits@,
        plan.threshold,
        list@,
        j,
    ) by {
        assert(plain(list@[j]));
        assert(weights[j] > 0real);
        lemma_among_top(config, logits@, plan, j);
        assert(exponential(config.temperature, logits@[j], logits@[top]) > 0real);
    }
    assert forall|j: int|
        0 <= j < t && value(#[trigger] list@[j]) > 0real implies u >= summed(
        value,
        list@,
        j + 1,
    ) by {
        assert(drawable(logits@, plan.threshold, list@, j));
        assert(plain(sums@[j]) && value(sums@[j]) == summed(value, list@, j + 1));
        assert(uniform < sums@[j] <==> value(uniform) < value(sums@[j]));
    }
    lemma_reached(value, list@, u, t);
    assert(plain(sums@[t]) && value(sums@[t]) == summed(value, list@, t + 1));
    assert(uniform < sums@[t] <==> value(uniform) < value(sums@[t]));
    if !less_64(uniform, sums@[t]) {
        assert forall|j: int| t < j < n implies !(value(#[trigger] list@[j]) > 0real) by {
            if value(list@[j]) > 0real {
                assert(drawable(logits@, plan.threshold, list@, j));
            }
        }
        lemma_nothing_behind(value, list@, t, n);
    }
    lemma_share_sum(value, list@, shares, t);
    lemma_share_sum(value, list@, shares, t + 1);
}

/// Options that a sampler can work with: a temperature that is finite and positive, and a `top_p`
/// above zero and not above one.
pub open spec fn workable(config: SamplingConfig) -> bool {
    0 < config.temperature < 0x7FF0_0000_0000_0000 && 0 < config.top_p <= 0x3FF0_0000_0000_0000
}

/// A sampler is made if and only if it can work with its options; it keeps them, and starts from its
/// seed where they have one.
pub proof fn law_samplers_start_from_their_seed(
    config: SamplingConfig,
    result: Result<TokenSampler, GenerationError>,
)
    requires
        call_ensures(TokenSampler::new, (config,), result),
    ensures
        result is Ok <==> workable(config),
        result matches Ok(sampler) ==> sampler@.config == config && (config.seed matches Some(seed)
            ==> sampler@.state == chacha12_seeded(seed)),
{
}

/// A row is sampled from if and only if the options are workable, it has a logit and no more of them
/// than identifiers can number, none is positive infinity or no number, and not all are masked. A
/// row that is refused uses up no draw.
pub proof fn law_rows_that_can_be_sampled_are<A: SamplingArithmetic>(
    arithmetic: &A,
    before: SamplerModel,
    logits: &[u32],
    result: Result<i32, GenerationError>,
    after: SamplerModel,
)
    requires
        sample_outcome(arithmetic, before, logits, result, after),
    ensures
        result is Ok <==> {
            &&& workable(before.config)
            &&& 0 < logits@.len() <= 0x8000_0000
            &&& forall|i: int|
                0 <= i < logits@.len() ==> -0x7F80_0000 <= standing(#[trigger] logits@[i])
                    < 0x7F80_0000
            &&& exists|i: int| 0 <= i < logits@.len() && #[trigger] logits@[i] != 0xFF80_0000
        },
        result is Err ==> after == before,
{
    if !unordered_logit(logits@) {
        assert forall|i: int| 0 <= i < logits@.len() implies -0x7F80_0000 <= standing(
            #[trigger] logits@[i],
        ) < 0x7F80_0000 by {
            assert(!unusable(logits@[i]));
        }
    }
    if forall|i: int|
        0 <= i < logits@.len() ==> -0x7F80_0000 <= standing(#[trigger] logits@[i]) < 0x7F80_0000 {
        assert forall|i: int| 0 <= i < logits@.len() implies !unusable(#[trigger] logits@[i]) by {
            assert(standing(logits@[i]) < 0x7F80_0000);
        }
    }
}

/// The probabilities of a row that proposals and verifications work with are its shares as they were
/// asked for: the ones by which a sampler with the same options draws.
pub proof fn law_filtered_probabilities_are_the_shares<A: SamplingArithmetic>(
    arithmetic: &A,
    value: spec_fn(u64) -> real,
    exponential: spec_fn(u64, u32, u32) -> real,
    config: SamplingConfig,
    logits: &[u32],
    probabilities: Vec<u64>,
)
    requires
        valuation(value),
        exponentials(exponential, config.temperature),
        forall|top: int| #[trigger]
            leads(logits@, top) ==> exact_row(
                arithmetic,
                value,
                config,
                exponential,
                softmax(config, logits@, top, exponential),
            ),
        fill_error(config, logits@) is None,
        filtered(arithmetic, config, logits, probabilities),
    ensures
        exists|top: int|
            #[trigger] leads(logits@, top) && shares_as_asked(
                config,
                value(config.top_p),
                logits@,
                softmax(config, logits@, top, exponential),
                Seq::new(probabilities@.len(), |i: int| value(probabilities@[i])),
            ),
{
    let plan = choose|plan: FilterPlan| #[trigger]
        plan_for(config, logits@, plan) && shares_of(
            arithmetic,
            config,
            logits@,
            plan,
            probabilities@,
        );
    lemma_among_top(config, logits@, plan, plan.maximum as int);
    assert(leads(logits@, plan.maximum as int));
    lemma_shares_as_asked(
        arithmetic,
        value,
        config,
        exponential,
        logits@,
        plan,
        probabilities@,
    );
}

} // verus!
