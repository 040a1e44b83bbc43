//! That corrected sampling keeps the target's distribution, in exact arithmetic.
//!
//! A draft proposes a token by its own probabilities; a draw accepts it by the ratio of the
//! probabilities, and another one replaces it where it is not accepted. Here the measure of the draws
//! that lead to each token is added up. Numbers are taken for what their bits stand for: a valuation
//! gives each number its value, and arithmetic is asked to be exact on the numbers of the two rows.

use crate::generation::sampling::{SamplingArithmetic, SamplingConfig};
use crate::generation::speculative::selection::{
    capped, draws, draws_at, draws_with, exceeds_by, filters_to, leaves, positive_part, proposed,
    verified, weighs,
};
use crate::rng::{after_draw, chacha12_next, uniform_numerator};
use vstd::prelude::*;

verus! {

/// The bits of a number that is neither negative nor infinite nor NaN.
pub open spec fn plain(bits: u64) -> bool {
    bits < 0x7FF0_0000_0000_0000
}

/// The number of equally likely uniform numbers: 2^53.
pub open spec fn draw_count() -> real {
    0x20_0000_0000_0000int as real
}

/// A valuation: zero and one are what their bits say, and greater bits are greater numbers.
pub open spec fn valuation(value: spec_fn(u64) -> real) -> bool {
    &&& value(0) == 0real
    &&& value(0x3FF0_0000_0000_0000) == 1real
    &&& forall|a: u64, b: u64|
        plain(a) && plain(b) ==> (a < b <==> #[trigger] value(a) < #[trigger] value(b))
}

/// The sum of the values of the first `n` numbers.
pub open spec fn summed(value: spec_fn(u64) -> real, weights: Seq<u64>, n: int) -> real
    decreases n,
{
    if n <= 0 {
        0real
    } else {
        summed(value, weights, n - 1) + value(weights[n - 1])
    }
}

/// Arithmetic makes a uniform number of each numerator: the numerator over 2^53.
pub open spec fn exact_uniform<A: SamplingArithmetic>(
    arithmetic: &A,
    value: spec_fn(u64) -> real,
) -> bool {
    forall|numerator: u64, uniform: u64| #[trigger]
        call_ensures(A::uniform, (arithmetic, numerator), uniform) && numerator
            < 0x20_0000_0000_0000 ==> plain(uniform) && value(uniform) == (numerator as int) as real
            / draw_count()
}

/// Arithmetic adds these weights up without rounding, and multiplies their sum so.
pub open spec fn exact_sums<A: SamplingArithmetic>(
    arithmetic: &A,
    value: spec_fn(u64) -> real,
    weights: Seq<u64>,
) -> bool {
    let n = weights.len() as int;
    &&& forall|list: &[u64], total: u64|
        list@ == weights && #[trigger] call_ensures(A::total, (arithmetic, list), total) ==> plain(
            total,
        ) && value(total) == summed(value, weights, n)
    &&& forall|list: &[u64], sums: Vec<u64>|
        list@ == weights && #[trigger] call_ensures(A::cumulative, (arithmetic, list), sums)
            ==> sums@.len() == n && forall|i: int|
            0 <= i < n ==> plain(#[trigger] sums@[i]) && value(sums@[i]) == summed(
                value,
                weights,
                i + 1,
            )
    &&& forall|uniform: u64, total: u64, product: u64|
        plain(uniform) && plain(total) && value(total) == summed(value, weights, n)
            && #[trigger] call_ensures(A::product, (arithmetic, uniform, total), product) ==> plain(
            product,
        ) && value(product) == value(uniform) * value(total)
}

/// What the target's probability of token `i` has over the draft's.
pub open spec fn surplus(
    value: spec_fn(u64) -> real,
    target: Seq<u64>,
    draft: Seq<u64>,
    i: int,
) -> real {
    if value(target[i]) > value(draft[i]) {
        value(target[i]) - value(draft[i])
    } else {
        0real
    }
}

/// Arithmetic divides and subtracts the probabilities of each token without rounding, and adds up
/// the draft's probabilities and what the target's have over them.
pub open spec fn exact<A: SamplingArithmetic>(
    arithmetic: &A,
    value: spec_fn(u64) -> real,
    target: Seq<u64>,
    draft: Seq<u64>,
) -> bool {
    &&& exact_uniform(arithmetic, value)
    &&& exact_sums(arithmetic, value, draft)
    &&& forall|i: int, ratio: u64|
        0 <= i < target.len() && value(draft[i]) > 0real && #[trigger] call_ensures(
            A::quotient,
            (arithmetic, target[i], draft[i]),
            ratio,
        ) ==> plain(ratio) && value(ratio) * value(draft[i]) == value(target[i])
    &&& forall|i: int, difference: u64|
        0 <= i < target.len() && #[trigger] call_ensures(
            A::difference,
            (arithmetic, target[i], draft[i]),
            difference,
        ) ==> if value(target[i]) >= value(draft[i]) {
            plain(difference) && value(difference) == value(target[i]) - value(draft[i])
        } else {
            0x8000_0000_0000_0000 < difference < 0xFFF0_0000_0000_0000
        }
    &&& forall|weights: Seq<u64>|
        weights.len() == target.len() && (forall|i: int|
            0 <= i < weights.len() ==> plain(#[trigger] weights[i]) && value(weights[i])
                == surplus(value, target, draft, i)) ==> #[trigger] exact_sums(
            arithmetic,
            value,
            weights,
        )
}

/// A row of probabilities: numbers that add up to one.
pub open spec fn distribution(value: spec_fn(u64) -> real, row: Seq<u64>) -> bool {
    &&& row.len() > 0
    &&& forall|i: int| 0 <= i < row.len() ==> plain(#[trigger] row[i])
    &&& summed(value, row, row.len() as int) == 1real
}

/// The measure of the draws that accept token `i`: the ratio of its probabilities, at most one.
pub open spec fn acceptance(
    value: spec_fn(u64) -> real,
    target: Seq<u64>,
    draft: Seq<u64>,
    i: int,
) -> real {
    if value(target[i]) < value(draft[i]) {
        value(target[i]) / value(draft[i])
    } else {
        1real
    }
}

/// The measure of all draws that lead the first `n` tokens to be proposed and not accepted.
pub open spec fn rejection(
    value: spec_fn(u64) -> real,
    target: Seq<u64>,
    draft: Seq<u64>,
    n: int,
) -> real
    decreases n,
{
    if n <= 0 {
        0real
    } else {
        rejection(value, target, draft, n - 1) + value(draft[n - 1]) * (1real - acceptance(
            value,
            target,
            draft,
            n - 1,
        ))
    }
}

/// The sum of what the target has over the draft, for the first `n` tokens.
pub open spec fn surplus_sum(
    value: spec_fn(u64) -> real,
    target: Seq<u64>,
    draft: Seq<u64>,
    n: int,
) -> real
    decreases n,
{
    if n <= 0 {
        0real
    } else {
        surplus_sum(value, target, draft, n - 1) + surplus(value, target, draft, n - 1)
    }
}

/// The next draw of a generator in `state`, as a number from zero to below one: the upper 53 bits of
/// its next word over 2^53.
pub open spec fn next_draw(state: Seq<u8>) -> real {
    ((chacha12_next(state).0 as int / 2048) as real) / draw_count()
}

pub(crate) proof fn lemma_draw<A: SamplingArithmetic>(
    arithmetic: &A,
    value: spec_fn(u64) -> real,
    state: Seq<u8>,
    uniform: u64,
)
    requires
        exact_uniform(arithmetic, value),
        valuation(value),
        call_ensures(A::uniform, (arithmetic, uniform_numerator(state)), uniform),
    ensures
        plain(uniform),
        value(uniform) == next_draw(state),
        0real <= value(uniform) < 1real,
{
    let numerator = uniform_numerator(state);
    assert(numerator < 0x20_0000_0000_0000);
    let n = (numerator as int) as real;
    let m = draw_count();
    assert(0real <= n < m);
    assert(0real <= n / m < 1real) by (nonlinear_arith)
        requires
            0real <= n < m,
    ;
}

proof fn lemma_sum_order(value: spec_fn(u64) -> real, weights: Seq<u64>, a: int, b: int)
    requires
        0 <= a <= b <= weights.len(),
        forall|i: int| 0 <= i < weights.len() ==> value(#[trigger] weights[i]) >= 0real,
    ensures
        summed(value, weights, a) <= summed(value, weights, b),
    decreases b - a,
{
    if a < b {
        lemma_sum_order(value, weights, a, b - 1);
        assert(value(weights[b - 1]) >= 0real);
    }
}

/// What stands before the first weights up to `t` is not more than a threshold that no positive
/// weight before `t` has exceeded.
pub(crate) proof fn lemma_reached(
    value: spec_fn(u64) -> real,
    weights: Seq<u64>,
    threshold: real,
    t: int,
)
    requires
        0 <= t <= weights.len(),
        threshold >= 0real,
        forall|i: int| 0 <= i < weights.len() ==> value(#[trigger] weights[i]) >= 0real,
        forall|j: int|
            0 <= j < t && value(#[trigger] weights[j]) > 0real ==> threshold >= summed(
                value,
                weights,
                j + 1,
            ),
    ensures
        summed(value, weights, t) <= threshold,
    decreases t,
{
    if t > 0 {
        lemma_reached(value, weights, threshold, t - 1);
        assert(value(weights[t - 1]) >= 0real);
    }
}

pub(crate) proof fn lemma_nothing_behind(value: spec_fn(u64) -> real, weights: Seq<u64>, t: int, n: int)
    requires
        0 <= t < n <= weights.len(),
        forall|i: int| 0 <= i < weights.len() ==> value(#[trigger] weights[i]) >= 0real,
        forall|j: int| t < j < weights.len() ==> !(value(#[trigger] weights[j]) > 0real),
    ensures
        summed(value, weights, n) == summed(value, weights, t + 1),
    decreases n,
{
    if n > t + 1 {
        lemma_nothing_behind(value, weights, t, n - 1);
        assert(value(weights[n - 1]) == 0real);
    }
}

/// A draw picks the weight whose part of the whole sum it falls into.
proof fn lemma_drawn_by_weight<A: SamplingArithmetic>(
    arithmetic: &A,
    value: spec_fn(u64) -> real,
    state: Seq<u8>,
    weights: Seq<u64>,
    token: i32,
)
    requires
        valuation(value),
        exact_uniform(arithmetic, value),
        exact_sums(arithmetic, value, weights),
        forall|i: int| 0 <= i < weights.len() ==> plain(#[trigger] weights[i]),
        draws(arithmetic, state, weights, token),
    ensures
        0 <= token < weights.len(),
        ({
            let all = summed(value, weights, weights.len() as int);
            &&& all > 0real
            &&& value(weights[token as int]) > 0real
            &&& summed(value, weights, token as int) <= next_draw(state) * all < summed(
                value,
                weights,
                token + 1,
            )
        }),
{
    let uniform = choose|uniform: u64|
        #![trigger draws_at(arithmetic, uniform, weights, token)]
        call_ensures(A::uniform, (arithmetic, uniform_numerator(state)), uniform) && draws_at(
            arithmetic,
            uniform,
            weights,
            token,
        );
    lemma_draw(arithmetic, value, state, uniform);
    let (total, threshold, sums) = choose|total: u64, threshold: u64, sums: Vec<u64>| #[trigger]
        draws_with(arithmetic, uniform, weights, token, total, threshold, sums);
    let n = weights.len() as int;
    let t = token as int;
    let all = summed(value, weights, n);
    let u = value(uniform);
    assert(value(total) == all);
    assert(all > 0real) by {
        assert(0 < total);
        assert(plain(0u64));
        assert(value(0u64) < value(total));
    }
    let th = value(threshold);
    assert(th == u * all);
    assert(0real <= u * all < all) by (nonlinear_arith)
        requires
            0real <= u < 1real,
            all > 0real,
    ;
    assert forall|i: int| 0 <= i < n implies value(#[trigger] weights[i]) >= 0real by {
        if weights[i] > 0 {
            assert(value(0u64) < value(weights[i]));
        }
    }
    assert forall|j: int| 0 <= j < t && value(#[trigger] weights[j]) > 0real implies th >= summed(
        value,
        weights,
        j + 1,
    ) by {
        assert(value(0u64) < value(weights[j]));
        assert(0 < weights[j]);
        assert(crate::logits::less_64(0, weights[j]));
        assert(!crate::logits::less_64(threshold, sums@[j]));
        assert(plain(sums@[j]));
        assert(!(value(threshold) < value(sums@[j])));
    }
    lemma_reached(value, weights, th, t);
    assert(value(weights[t]) > 0real) by {
        assert(0 < weights[t]);
        assert(value(0u64) < value(weights[t]));
    }
    if crate::logits::less_64(threshold, sums@[t]) {
        assert(plain(sums@[t]));
        assert(threshold < sums@[t]);
        assert(value(threshold) < value(sums@[t]));
    } else {
        assert forall|j: int| t < j < n implies !(value(#[trigger] weights[j]) > 0real) by {
            if value(weights[j]) > 0real {
                assert(value(0u64) < value(weights[j]));
                assert(0 < weights[j]);
                assert(crate::logits::less_64(0, weights[j]));
            }
        }
        lemma_nothing_behind(value, weights, t, n);
    }
}

/// Corrected sampling accepts a candidate for exactly the draws below the ratio of its
/// probabilities.
proof fn lemma_accepted_by_ratio<A: SamplingArithmetic>(
    arithmetic: &A,
    value: spec_fn(u64) -> real,
    sampling: SamplingConfig,
    target: Seq<u64>,
    draft: Seq<u64>,
    row: Seq<u32>,
    before: Seq<u8>,
    candidate: i32,
    uniform: u64,
    accepted: bool,
)
    requires
        valuation(value),
        exact(arithmetic, value, target, draft),
        distribution(value, target),
        distribution(value, draft),
        target.len() == draft.len(),
        0 <= candidate < draft.len(),
        value(draft[candidate as int]) > 0real,
        weighs(arithmetic, sampling, before, candidate, draft, row, target, uniform, accepted),
    ensures
        accepted == (next_draw(before) < acceptance(value, target, draft, candidate as int)),
{
    let c = candidate as int;
    let p = value(target[c]);
    let q = value(draft[c]);
    lemma_draw(arithmetic, value, before, uniform);
    let u = value(uniform);
    let ratio = choose|ratio: u64| #[trigger]
        call_ensures(A::quotient, (arithmetic, target[c], draft[c]), ratio) && accepted
            == crate::logits::less_64(uniform, capped(ratio));
    let one = 0x3FF0_0000_0000_0000u64;
    let r = value(ratio);
    assert(plain(ratio) && r * q == p);
    assert(plain(one));
    assert(plain(capped(ratio)));
    assert(accepted == (uniform < capped(ratio)));
    assert(uniform < capped(ratio) <==> value(uniform) < value(capped(ratio)));
    if ratio < one {
        assert(value(ratio) < value(one));
        assert(p < q && p / q == r) by (nonlinear_arith)
            requires
                r * q == p,
                r < 1real,
                q > 0real,
        ;
    } else {
        if one < ratio {
            assert(value(one) < value(ratio));
        }
        assert(r >= 1real);
        assert(p >= q) by (nonlinear_arith)
            requires
                r * q == p,
                r >= 1real,
                q > 0real,
        ;
        assert(value(capped(ratio)) == 1real);
    }
}

/// What was rejected is what the target has over the draft.
proof fn lemma_rejection(value: spec_fn(u64) -> real, target: Seq<u64>, draft: Seq<u64>, n: int)
    requires
        target.len() == draft.len(),
        0 <= n <= target.len(),
        forall|i: int| 0 <= i < target.len() ==> value(#[trigger] target[i]) >= 0real,
        forall|i: int| 0 <= i < draft.len() ==> value(#[trigger] draft[i]) >= 0real,
    ensures
        rejection(value, target, draft, n) - surplus_sum(value, target, draft, n) == summed(
            value,
            draft,
            n,
        ) - summed(value, target, n),
        surplus_sum(value, target, draft, n) >= 0real,
        forall|i: int|
            0 <= i < n ==> #[trigger] surplus(value, target, draft, i) <= surplus_sum(
                value,
                target,
                draft,
                n,
            ),
    decreases n,
{
    if n > 0 {
        lemma_rejection(value, target, draft, n - 1);
        let p = value(target[n - 1]);
        let q = value(draft[n - 1]);
        let a = acceptance(value, target, draft, n - 1);
        assert(q * (1real - a) - surplus(value, target, draft, n - 1) == q - p) by {
            if p < q {
                assert(q * (1real - p / q) == q - p) by (nonlinear_arith)
                    requires
                        0real <= p < q,
                ;
            } else {
                assert(q * (1real - 1real) == 0real) by (nonlinear_arith);
            }
        }
    }
}

/// The sum of surplus weights.
proof fn lemma_surplus_summed(
    value: spec_fn(u64) -> real,
    target: Seq<u64>,
    draft: Seq<u64>,
    weights: Seq<u64>,
    n: int,
)
    requires
        0 <= n <= weights.len(),
        forall|i: int|
            0 <= i < weights.len() ==> value(#[trigger] weights[i]) == surplus(
                value,
                target,
                draft,
                i,
            ),
    ensures
        summed(value, weights, n) == surplus_sum(value, target, draft, n),
    decreases n,
{
    if n > 0 {
        lemma_surplus_summed(value, target, draft, weights, n - 1);
        assert(value(weights[n - 1]) == surplus(value, target, draft, n - 1));
    }
}

proof fn lemma_values_not_negative(value: spec_fn(u64) -> real, row: Seq<u64>)
    requires
        valuation(value),
        forall|i: int| 0 <= i < row.len() ==> plain(#[trigger] row[i]),
    ensures
        forall|i: int| 0 <= i < row.len() ==> value(#[trigger] row[i]) >= 0real,
{
    assert forall|i: int| 0 <= i < row.len() implies value(#[trigger] row[i]) >= 0real by {
        if row[i] > 0 {
            assert(plain(0u64));
            assert(value(0u64) < value(row[i]));
        }
    }
}

/// The measure of the draws that a replacement falls to token `i`, of those that reject a candidate.
pub open spec fn replacement(
    value: spec_fn(u64) -> real,
    target: Seq<u64>,
    draft: Seq<u64>,
    i: int,
) -> real {
    let all = surplus_sum(value, target, draft, target.len() as int);
    if all > 0real {
        surplus(value, target, draft, i) / all
    } else {
        0real
    }
}

/// Speculative sampling keeps the target's distribution. In exact arithmetic a token `x` is proposed
/// for a part of the draws that measures its probability in the draft; a proposed token is accepted
/// for exactly the draws below the ratio of its probabilities, and stays; a rejected one is replaced,
/// and the replacement is `x` for a part of the draws that measures `replacement`. Together, the
/// draws that lead to `x` measure its probability in the target.
pub proof fn law_speculative_sampling_keeps_the_distribution<A: SamplingArithmetic>(
    arithmetic: &A,
    value: spec_fn(u64) -> real,
    sampling: SamplingConfig,
    drafted: Seq<u32>,
    row: Seq<u32>,
    draft: Seq<u64>,
    target: Seq<u64>,
)
    requires
        valuation(value),
        exact(arithmetic, value, target, draft),
        distribution(value, target),
        distribution(value, draft),
        target.len() == draft.len(),
        forall|t: Seq<u64>| #[trigger]
            filters_to(arithmetic, sampling, row, t) ==> t == target,
    ensures
        forall|before: Seq<u8>, token: i32, after: Seq<u8>| #[trigger]
            proposed(arithmetic, Some(sampling), before, drafted, token, draft, after) ==> {
                &&& 0 <= token < draft.len()
                &&& value(draft[token as int]) > 0real
                &&& summed(value, draft, token as int) <= next_draw(before) < summed(
                    value,
                    draft,
                    token + 1,
                )
                &&& after == chacha12_next(before).1
            },
        forall|before: Seq<u8>, candidate: i32, token: i32, accepted: bool, after: Seq<u8>|
            0 <= candidate < draft.len() && value(draft[candidate as int]) > 0real
                && #[trigger] verified(
                arithmetic,
                Some(sampling),
                before,
                candidate,
                draft,
                row,
                token,
                accepted,
                after,
            ) ==> {
                let second = chacha12_next(before).1;
                let all = surplus_sum(value, target, draft, target.len() as int);
                &&& accepted <==> next_draw(before) < acceptance(
                    value,
                    target,
                    draft,
                    candidate as int,
                )
                &&& accepted ==> token == candidate && after == second
                &&& !accepted ==> all > 0real && 0 <= token < target.len() && surplus_sum(
                    value,
                    target,
                    draft,
                    token as int,
                ) <= next_draw(second) * all < surplus_sum(value, target, draft, token + 1)
                    && after == chacha12_next(second).1
            },
        forall|x: int|
            0 <= x < target.len() ==> value(draft[x]) * #[trigger] acceptance(
                value,
                target,
                draft,
                x,
            ) + rejection(value, target, draft, target.len() as int) * replacement(
                value,
                target,
                draft,
                x,
            ) == value(target[x]),
{
    let n = target.len() as int;
    let all = surplus_sum(value, target, draft, n);
    lemma_values_not_negative(value, target);
    lemma_values_not_negative(value, draft);
    lemma_rejection(value, target, draft, n);
    assert forall|before: Seq<u8>, token: i32, after: Seq<u8>| #[trigger]
        proposed(arithmetic, Some(sampling), before, drafted, token, draft, after) implies {
        &&& 0 <= token < draft.len()
        &&& value(draft[token as int]) > 0real
        &&& summed(value, draft, token as int) <= next_draw(before) < summed(
            value,
            draft,
            token + 1,
        )
        &&& after == chacha12_next(before).1
    } by {
        lemma_drawn_by_weight(arithmetic, value, before, draft, token);
    }
    assert forall|before: Seq<u8>, candidate: i32, token: i32, accepted: bool, after: Seq<u8>|
        0 <= candidate < draft.len() && value(draft[candidate as int]) > 0real
            && #[trigger] verified(
            arithmetic,
            Some(sampling),
            before,
            candidate,
            draft,
            row,
            token,
            accepted,
            after,
        ) implies {
        let second = chacha12_next(before).1;
        &&& accepted <==> next_draw(before) < acceptance(value, target, draft, candidate as int)
        &&& accepted ==> token == candidate && after == second
        &&& !accepted ==> all > 0real && 0 <= token < target.len() && surplus_sum(
            value,
            target,
            draft,
            token as int,
        ) <= next_draw(second) * all < surplus_sum(value, target, draft, token + 1) && after
            == chacha12_next(second).1
    } by {
        lemma_verified_by_draws(
            arithmetic,
            value,
            sampling,
            row,
            draft,
            target,
            before,
            candidate,
            token,
            accepted,
            after,
        );
    }
    assert forall|x: int| 0 <= x < n implies value(draft[x]) * #[trigger] acceptance(
        value,
        target,
        draft,
        x,
    ) + rejection(value, target, draft, n) * replacement(value, target, draft, x) == value(
        target[x],
    ) by {
        let p = value(target[x]);
        let q = value(draft[x]);
        let s = surplus(value, target, draft, x);
        assert(rejection(value, target, draft, n) == all);
        if all > 0real {
            assert(all * (s / all) == s) by (nonlinear_arith)
                requires
                    all > 0real,
            ;
        } else {
            assert(s <= all);
            assert(s == 0real);
            assert(all * 0real == 0real) by (nonlinear_arith);
        }
        if p < q {
            assert(q * (p / q) == p) by (nonlinear_arith)
                requires
                    0real <= p < q,
            ;
        } else {
            assert(q * 1real == q) by (nonlinear_arith);
        }
    }
}

/// What the draws make of one verification.
proof fn lemma_verified_by_draws<A: SamplingArithmetic>(
    arithmetic: &A,
    value: spec_fn(u64) -> real,
    sampling: SamplingConfig,
    row: Seq<u32>,
    draft: Seq<u64>,
    target: Seq<u64>,
    before: Seq<u8>,
    candidate: i32,
    token: i32,
    accepted: bool,
    after: Seq<u8>,
)
    requires
        valuation(value),
        exact(arithmetic, value, target, draft),
        distribution(value, target),
        distribution(value, draft),
        target.len() == draft.len(),
        forall|t: Seq<u64>| #[trigger]
            filters_to(arithmetic, sampling, row, t) ==> t == target,
        0 <= candidate < draft.len(),
        value(draft[candidate as int]) > 0real,
        verified(
            arithmetic,
            Some(sampling),
            before,
            candidate,
            draft,
            row,
            token,
            accepted,
            after,
        ),
    ensures
        ({
            let second = chacha12_next(before).1;
            let all = surplus_sum(value, target, draft, target.len() as int);
            &&& accepted <==> next_draw(before) < acceptance(value, target, draft, candidate as int)
            &&& accepted ==> token == candidate && after == second
            &&& !accepted ==> all > 0real && 0 <= token < target.len() && surplus_sum(
                value,
                target,
                draft,
                token as int,
            ) <= next_draw(second) * all < surplus_sum(value, target, draft, token + 1) && after
                == chacha12_next(second).1
        }),
{
    let n = target.len() as int;
    let (t, uniform) = choose|t: Seq<u64>, uniform: u64| #[trigger]
        weighs(arithmetic, sampling, before, candidate, draft, row, t, uniform, accepted) && if accepted {
            token == candidate && after == after_draw(before)
        } else {
            &&& exists|residual: Seq<u64>| #[trigger]
                leaves(arithmetic, t, draft, residual) && draws(
                    arithmetic,
                    after_draw(before),
                    residual,
                    token,
                )
            &&& after == after_draw(after_draw(before))
        };
    assert(t == target);
    lemma_accepted_by_ratio(
        arithmetic,
        value,
        sampling,
        target,
        draft,
        row,
        before,
        candidate,
        uniform,
        accepted,
    );
    if !accepted {
        let second = after_draw(before);
        let residual = choose|residual: Seq<u64>| #[trigger]
            leaves(arithmetic, target, draft, residual) && draws(
                arithmetic,
                second,
                residual,
                token,
            );
        assert forall|i: int| 0 <= i < residual.len() implies plain(#[trigger] residual[i])
            && value(residual[i]) == surplus(value, target, draft, i) by {
            assert(exceeds_by(arithmetic, target[i], draft[i], residual[i]));
            let difference = choose|difference: u64| #[trigger]
                call_ensures(A::difference, (arithmetic, target[i], draft[i]), difference)
                    && residual[i] == positive_part(difference);
            if value(target[i]) >= value(draft[i]) {
                assert(plain(difference));
                if difference > 0 {
                    assert(plain(0u64));
                    assert(value(0u64) < value(difference));
                }
            }
        }
        assert(exact_sums(arithmetic, value, residual));
        lemma_drawn_by_weight(arithmetic, value, second, residual, token);
        lemma_surplus_summed(value, target, draft, residual, n);
        lemma_surplus_summed(value, target, draft, residual, token as int);
        lemma_surplus_summed(value, target, draft, residual, token + 1);
    }
}

/// Of two draws on either side of the ratio of a candidate's probabilities, where that is below one,
/// the lower one accepts the candidate and the other one rejects it.
pub proof fn law_acceptance_depends_on_the_draw<A: SamplingArithmetic>(
    arithmetic: &A,
    value: spec_fn(u64) -> real,
    sampling: SamplingConfig,
    row: Seq<u32>,
    draft: Seq<u64>,
    target: Seq<u64>,
    candidate: i32,
    low: Seq<u8>,
    high: Seq<u8>,
    first: (i32, bool, Seq<u8>),
    second: (i32, bool, Seq<u8>),
)
    requires
        valuation(value),
        exact(arithmetic, value, target, draft),
        distribution(value, target),
        distribution(value, draft),
        target.len() == draft.len(),
        forall|t: Seq<u64>| #[trigger]
            filters_to(arithmetic, sampling, row, t) ==> t == target,
        0 <= candidate < draft.len(),
        next_draw(low) * value(draft[candidate as int]) < value(target[candidate as int])
            <= next_draw(high) * value(draft[candidate as int]),
        verified(
            arithmetic,
            Some(sampling),
            low,
            candidate,
            draft,
            row,
            first.0,
            first.1,
            first.2,
        ),
        verified(
            arithmetic,
            Some(sampling),
            high,
            candidate,
            draft,
            row,
            second.0,
            second.1,
            second.2,
        ),
    ensures
        first.1 && first.0 == candidate,
        !second.1,
{
    let c = candidate as int;
    let p = value(target[c]);
    let q = value(draft[c]);
    let u = next_draw(low);
    let v = next_draw(high);
    lemma_values_not_negative(value, draft);
    lemma_values_not_negative(value, target);
    lemma_next_draw(low);
    lemma_next_draw(high);
    assert(q > 0real) by (nonlinear_arith)
        requires
            u * q < p,
            p <= v * q,
            q >= 0real,
    ;
    assert(p < q && u < p / q && p / q <= v) by (nonlinear_arith)
        requires
            u * q < p,
            p <= v * q,
            q > 0real,
            v < 1real,
    ;
    lemma_verified_by_draws(
        arithmetic,
        value,
        sampling,
        row,
        draft,
        target,
        low,
        candidate,
        first.0,
        first.1,
        first.2,
    );
    lemma_verified_by_draws(
        arithmetic,
        value,
        sampling,
        row,
        draft,
        target,
        high,
        candidate,
        second.0,
        second.1,
        second.2,
    );
}

proof fn lemma_next_draw(state: Seq<u8>)
    ensures
        0real <= next_draw(state) < 1real,
{
    let numerator = chacha12_next(state).0 as int / 2048;
    assert(0 <= numerator < 0x20_0000_0000_0000);
    let n = numerator as real;
    let m = draw_count();
    assert(0real <= n < m);
    assert(0real <= n / m < 1real) by (nonlinear_arith)
        requires
            0real <= n < m,
    ;
}

} // verus!
